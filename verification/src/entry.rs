//! Declarative entries and their resolution.
use crate::order::{
    contents, contents_insert, contents_remove, entries_facts, entry_keys, Plain, TextMap,
};
use crate::text::starts_with;
use crate::value::{JsonModel, Value};
use vstd::prelude::*;

verus! {

/// A stable identifier of an entry.
#[derive(Clone, Debug, PartialEq, Eq, PartialOrd, Ord, Hash)]
pub struct EntryId {
    pub value: String,
}

impl View for EntryId {
    type V = Seq<char>;

    open spec fn view(&self) -> Seq<char> {
        self.value@
    }
}

impl EntryId {
    /// Creates a stable non-empty identifier.
    pub fn new(value: String) -> (r: Result<EntryId, LoaderError>)
        ensures
            match r {
                Ok(id) => value@.len() > 0 && id@ == value@,
                Err(error) => value@.len() == 0 && error@ == LoaderErrorModel::InvalidEntryId(
                    value@,
                ),
            },
    {
        if value.as_str().is_empty() {
            Err(LoaderError::InvalidEntryId(value))
        } else {
            Ok(EntryId { value })
        }
    }

    pub fn as_str(&self) -> (r: &str)
        ensures
            r@ == self@,
    {
        self.value.as_str()
    }

    pub fn same(&self, other: &EntryId) -> (r: bool)
        ensures
            r == (self@ == other@),
    {
        self.value == other.value
    }

    pub fn duplicate(&self) -> (r: EntryId)
        ensures
            r@ == self@,
    {
        EntryId { value: self.value.clone() }
    }
}

/// Why a tree or a change to it is refused.
#[derive(Clone, Debug, PartialEq, Eq)]
pub enum LoaderError {
    InvalidEntryId(String),
    DuplicateEntry(EntryId),
    MissingEntry(EntryId),
    ParentNotGroup(EntryId),
    EntryCycle(EntryId),
    InvalidComponentRef(String),
    InvalidSchema { component: String, message: String },
    InvalidConfig { entry: EntryId, path: String, message: String },
    Driver(String),
    Include(String),
}

/// The content of a loader error.
pub enum LoaderErrorModel {
    InvalidEntryId(Seq<char>),
    DuplicateEntry(Seq<char>),
    MissingEntry(Seq<char>),
    ParentNotGroup(Seq<char>),
    EntryCycle(Seq<char>),
    InvalidComponentRef(Seq<char>),
    InvalidSchema { component: Seq<char>, message: Seq<char> },
    InvalidConfig { entry: Seq<char>, path: Seq<char>, message: Seq<char> },
    Driver(Seq<char>),
    Include(Seq<char>),
}

impl View for LoaderError {
    type V = LoaderErrorModel;

    open spec fn view(&self) -> LoaderErrorModel {
        match self {
            LoaderError::InvalidEntryId(id) => LoaderErrorModel::InvalidEntryId(id@),
            LoaderError::DuplicateEntry(id) => LoaderErrorModel::DuplicateEntry(id@),
            LoaderError::MissingEntry(id) => LoaderErrorModel::MissingEntry(id@),
            LoaderError::ParentNotGroup(id) => LoaderErrorModel::ParentNotGroup(id@),
            LoaderError::EntryCycle(id) => LoaderErrorModel::EntryCycle(id@),
            LoaderError::InvalidComponentRef(text) => LoaderErrorModel::InvalidComponentRef(text@),
            LoaderError::InvalidSchema { component, message } => LoaderErrorModel::InvalidSchema {
                component: component@,
                message: message@,
            },
            LoaderError::InvalidConfig { entry, path, message } =>
                LoaderErrorModel::InvalidConfig {
                    entry: entry@,
                    path: path@,
                    message: message@,
                },
            LoaderError::Driver(message) => LoaderErrorModel::Driver(message@),
            LoaderError::Include(message) => LoaderErrorModel::Include(message@),
        }
    }
}

/// The message a loader error is shown with.
pub open spec fn loader_error_text(e: LoaderErrorModel) -> Seq<char> {
    match e {
        LoaderErrorModel::InvalidEntryId(_) => "entry id cannot be empty"@,
        LoaderErrorModel::DuplicateEntry(id) => "entry "@ + id + " occurs more than once"@,
        LoaderErrorModel::MissingEntry(id) => "entry "@ + id + " does not exist"@,
        LoaderErrorModel::ParentNotGroup(id) => "entry "@ + id + " is not a group"@,
        LoaderErrorModel::EntryCycle(id) => "moving entry "@ + id + " would create a cycle"@,
        LoaderErrorModel::InvalidComponentRef(text) => "component reference `"@ + text
            + "` must use builtin: or file:"@,
        LoaderErrorModel::InvalidSchema { component, message } => "schema for component `"@
            + component + "` is invalid: "@ + message,
        LoaderErrorModel::InvalidConfig { entry, path, message } => "entry "@ + entry
            + " configuration is invalid at "@ + path + ": "@ + message,
        LoaderErrorModel::Driver(message) => "entry driver failed: "@ + message,
        LoaderErrorModel::Include(message) => "include failed: "@ + message,
    }
}

fn around(before: &str, middle: &str, after: &str) -> (r: String)
    ensures
        r@ == before@ + middle@ + after@,
{
    let mut out = before.to_owned();
    out.append(middle);
    out.append(after);
    out
}

impl LoaderError {
    pub fn message(&self) -> (r: String)
        ensures
            r@ == loader_error_text(self@),
    {
        match self {
            LoaderError::InvalidEntryId(_) => "entry id cannot be empty".to_owned(),
            LoaderError::DuplicateEntry(id) => around(
                "entry ",
                id.as_str(),
                " occurs more than once",
            ),
            LoaderError::MissingEntry(id) => around("entry ", id.as_str(), " does not exist"),
            LoaderError::ParentNotGroup(id) => around("entry ", id.as_str(), " is not a group"),
            LoaderError::EntryCycle(id) => around(
                "moving entry ",
                id.as_str(),
                " would create a cycle",
            ),
            LoaderError::InvalidComponentRef(text) => around(
                "component reference `",
                text.as_str(),
                "` must use builtin: or file:",
            ),
            LoaderError::InvalidSchema { component, message } => {
                let mut out = around(
                    "schema for component `",
                    component.as_str(),
                    "` is invalid: ",
                );
                out.append(message.as_str());
                out
            },
            LoaderError::InvalidConfig { entry, path, message } => {
                let mut out = around("entry ", entry.as_str(), " configuration is invalid at ");
                out.append(path.as_str());
                out.append(": ");
                out.append(message.as_str());
                out
            },
            LoaderError::Driver(message) => {
                let mut out = "entry driver failed: ".to_owned();
                out.append(message.as_str());
                out
            },
            LoaderError::Include(message) => {
                let mut out = "include failed: ".to_owned();
                out.append(message.as_str());
                out
            },
        }
    }
}

/// Where a component comes from.
pub enum ComponentModel {
    Builtin(Seq<char>),
    File(Seq<char>),
}

#[derive(Clone, Debug, PartialEq, Eq)]
pub enum ComponentRef {
    Builtin(String),
    File(String),
}

impl View for ComponentRef {
    type V = ComponentModel;

    open spec fn view(&self) -> ComponentModel {
        match self {
            ComponentRef::Builtin(name) => ComponentModel::Builtin(name@),
            ComponentRef::File(path) => ComponentModel::File(path@),
        }
    }
}

/// What follows a scheme, if the text has that scheme and something follows.
pub open spec fn after_scheme(text: Seq<char>, scheme: Seq<char>) -> Option<Seq<char>> {
    if scheme.is_prefix_of(text) && text.len() > scheme.len() {
        Some(text.subrange(scheme.len() as int, text.len() as int))
    } else {
        None
    }
}

/// The component a reference names: `builtin:` or `file:` and something after it.
pub open spec fn component_of(text: Seq<char>) -> Option<ComponentModel> {
    match after_scheme(text, "builtin:"@) {
        Some(name) => Some(ComponentModel::Builtin(name)),
        None => match after_scheme(text, "file:"@) {
            Some(path) => Some(ComponentModel::File(path)),
            None => None,
        },
    }
}

fn strip_scheme(text: &str, scheme: &str) -> (r: Option<String>)
    ensures
        match (r, after_scheme(text@, scheme@)) {
            (Some(rest), Some(expected)) => rest@ == expected,
            (None, None) => true,
            _ => false,
        },
{
    let size = text.unicode_len();
    let skip = scheme.unicode_len();
    if starts_with(text, scheme) && size > skip {
        Some(text.substring_char(skip, size).to_owned())
    } else {
        None
    }
}

impl ComponentRef {
    /// Parses an explicit built-in or file component reference.
    pub fn parse(value: &str) -> (r: Result<ComponentRef, LoaderError>)
        ensures
            match (r, component_of(value@)) {
                (Ok(component), Some(expected)) => component@ == expected,
                (Err(error), None) => error@ == LoaderErrorModel::InvalidComponentRef(value@),
                _ => false,
            },
    {
        match strip_scheme(value, "builtin:") {
            Some(name) => Ok(ComponentRef::Builtin(name)),
            None => match strip_scheme(value, "file:") {
                Some(path) => Ok(ComponentRef::File(path)),
                None => Err(LoaderError::InvalidComponentRef(value.to_owned())),
            },
        }
    }

    pub fn same(&self, other: &ComponentRef) -> (r: bool)
        ensures
            r == (self@ == other@),
    {
        match (self, other) {
            (ComponentRef::Builtin(a), ComponentRef::Builtin(b)) => *a == *b,
            (ComponentRef::File(a), ComponentRef::File(b)) => *a == *b,
            _ => false,
        }
    }

    pub fn duplicate(&self) -> (r: ComponentRef)
        ensures
            r@ == self@,
    {
        match self {
            ComponentRef::Builtin(name) => ComponentRef::Builtin(name.clone()),
            ComponentRef::File(path) => ComponentRef::File(path.clone()),
        }
    }
}

/// How an entry isolates one service.
pub enum RuleModel {
    Local(bool),
    Global(Seq<char>),
}

/// How an entry isolates one service: a realm of its own, the enclosing default, or a realm
/// shared under a label.
#[derive(Clone, Debug, PartialEq, Eq)]
pub enum IsolationRule {
    Local(bool),
    Global(String),
}

impl View for IsolationRule {
    type V = RuleModel;

    open spec fn view(&self) -> RuleModel {
        match self {
            IsolationRule::Local(own) => RuleModel::Local(*own),
            IsolationRule::Global(label) => RuleModel::Global(label@),
        }
    }
}

impl Plain for IsolationRule {
    fn same(&self, other: &IsolationRule) -> (r: bool) {
        match (self, other) {
            (IsolationRule::Local(a), IsolationRule::Local(b)) => *a == *b,
            (IsolationRule::Global(a), IsolationRule::Global(b)) => *a == *b,
            _ => false,
        }
    }

    fn duplicate(&self) -> (r: IsolationRule) {
        match self {
            IsolationRule::Local(own) => IsolationRule::Local(*own),
            IsolationRule::Global(label) => IsolationRule::Global(label.clone()),
        }
    }
}

impl Plain for Value {
    fn same(&self, other: &Value) -> (r: bool) {
        Value::same(self, other)
    }

    fn duplicate(&self) -> (r: Value) {
        Value::duplicate(self)
    }
}

/// The realm a service lives in.
pub enum RealmModel {
    Local { owner: Seq<char>, service: Seq<char> },
    Global { label: Seq<char>, service: Seq<char> },
}

#[derive(Clone, Debug, PartialEq, Eq)]
pub enum ManagedRealm {
    Local { owner: EntryId, service: String },
    Global { label: String, service: String },
}

impl View for ManagedRealm {
    type V = RealmModel;

    open spec fn view(&self) -> RealmModel {
        match self {
            ManagedRealm::Local { owner, service } => RealmModel::Local {
                owner: owner@,
                service: service@,
            },
            ManagedRealm::Global { label, service } => RealmModel::Global {
                label: label@,
                service: service@,
            },
        }
    }
}

impl Plain for ManagedRealm {
    fn same(&self, other: &ManagedRealm) -> (r: bool) {
        match (self, other) {
            (
                ManagedRealm::Local { owner: a, service: x },
                ManagedRealm::Local { owner: b, service: y },
            ) => a.same(b) && *x == *y,
            (
                ManagedRealm::Global { label: a, service: x },
                ManagedRealm::Global { label: b, service: y },
            ) => *a == *b && *x == *y,
            _ => false,
        }
    }

    fn duplicate(&self) -> (r: ManagedRealm) {
        match self {
            ManagedRealm::Local { owner, service } => ManagedRealm::Local {
                owner: owner.duplicate(),
                service: service.clone(),
            },
            ManagedRealm::Global { label, service } => ManagedRealm::Global {
                label: label.clone(),
                service: service.clone(),
            },
        }
    }
}

/// A declared entry and everything nested in it.
pub struct EntryModel {
    pub id: Seq<char>,
    pub component: Seq<char>,
    pub config: JsonModel,
    pub disabled: bool,
    pub group: bool,
    pub intercept: Map<Seq<char>, JsonModel>,
    pub isolate: Map<Seq<char>, RuleModel>,
    pub children: Seq<EntryModel>,
}

/// A declared entry: a component, or a group of entries.
#[derive(Debug, PartialEq, Eq)]
pub struct EntrySpec {
    pub id: EntryId,
    pub component: String,
    pub config: Value,
    pub disabled: bool,
    pub group: bool,
    pub intercept: TextMap<Value>,
    pub isolate: TextMap<IsolationRule>,
    pub children: Vec<EntrySpec>,
}

/// The content of an entry, nested entries included.
pub open spec fn entry_model(e: EntrySpec) -> EntryModel
    decreases e,
{
    EntryModel {
        id: e.id@,
        component: e.component@,
        config: e.config@,
        disabled: e.disabled,
        group: e.group,
        intercept: contents(e.intercept@),
        isolate: contents(e.isolate@),
        children: Seq::new(
            e.children@.len(),
            |i: int|
                if 0 <= i < e.children@.len() {
                    entry_model(e.children@[i])
                } else {
                    arbitrary()
                },
        ),
    }
}

impl View for EntrySpec {
    type V = EntryModel;

    open spec fn view(&self) -> EntryModel {
        entry_model(*self)
    }
}

/// The contents of a list of entries.
pub open spec fn entry_models(entries: Seq<EntrySpec>) -> Seq<EntryModel> {
    Seq::new(entries.len(), |i: int| entries[i]@)
}

/// The maps of an entry and of everything nested in it are in order.
pub open spec fn entry_wf(e: EntrySpec) -> bool
    decreases e,
{
    &&& e.intercept.wf()
    &&& e.isolate.wf()
    &&& forall|i: int| 0 <= i < e.children@.len() ==> entry_wf(#[trigger] e.children@[i])
}

/// The maps of all entries are in order.
pub open spec fn entries_wf(entries: Seq<EntrySpec>) -> bool {
    forall|i: int| 0 <= i < entries.len() ==> entry_wf(#[trigger] entries[i])
}

/// The children of an entry by content.
pub proof fn children_model(e: EntrySpec)
    ensures
        e@.children == entry_models(e.children@),
        e@.children.len() == e.children@.len(),
{
    assert(e@.children =~= entry_models(e.children@));
}

/// Copies entries.
pub fn duplicate_entries(entries: &Vec<EntrySpec>) -> (r: Vec<EntrySpec>)
    requires
        entries_wf(entries@),
    ensures
        entry_models(r@) == entry_models(entries@),
        entries_wf(r@),
    decreases entries,
{
    let mut out: Vec<EntrySpec> = Vec::new();
    let mut i: usize = 0;
    while i < entries.len()
        invariant
            entries_wf(entries@),
            i <= entries.len(),
            out@.len() == i,
            entries_wf(out@),
            forall|k: int| 0 <= k < i ==> (#[trigger] out@[k])@ == entries@[k]@,
        decreases entries.len() - i,
    {
        out.push(entries[i].duplicate());
        i = i + 1;
    }
    proof {
        assert(entry_models(out@) =~= entry_models(entries@));
    }
    out
}

/// Compares entries.
pub fn same_entries(a: &Vec<EntrySpec>, b: &Vec<EntrySpec>) -> (r: bool)
    requires
        entries_wf(a@),
        entries_wf(b@),
    ensures
        r == (entry_models(a@) == entry_models(b@)),
    decreases a,
{
    if a.len() != b.len() {
        proof {
            assert(entry_models(a@).len() != entry_models(b@).len());
        }
        return false;
    }
    let mut i: usize = 0;
    while i < a.len()
        invariant
            entries_wf(a@),
            entries_wf(b@),
            a.len() == b.len(),
            i <= a.len(),
            forall|k: int| 0 <= k < i ==> (#[trigger] a@[k])@ == b@[k]@,
        decreases a.len() - i,
    {
        if !a[i].same(&b[i]) {
            proof {
                assert(entry_models(a@)[i as int] != entry_models(b@)[i as int]);
            }
            return false;
        }
        i = i + 1;
    }
    proof {
        assert(entry_models(a@) =~= entry_models(b@));
    }
    true
}

impl EntrySpec {
    /// Creates a leaf entry.
    pub fn leaf(id: String, component: String) -> (r: Result<EntrySpec, LoaderError>)
        ensures
            match r {
                Ok(entry) => id@.len() > 0 && entry_wf(entry) && entry@ == (EntryModel {
                    id: id@,
                    component: component@,
                    config: JsonModel::Null,
                    disabled: false,
                    group: false,
                    intercept: Map::empty(),
                    isolate: Map::empty(),
                    children: Seq::empty(),
                }),
                Err(error) => id@.len() == 0 && error@ == LoaderErrorModel::InvalidEntryId(id@),
            },
    {
        match EntryId::new(id) {
            Err(error) => Err(error),
            Ok(id) => {
                let entry = EntrySpec {
                    id,
                    component,
                    config: Value::Null,
                    disabled: false,
                    group: false,
                    intercept: TextMap::new(),
                    isolate: TextMap::new(),
                    children: Vec::new(),
                };
                proof {
                    assert(entry@.intercept =~= Map::empty());
                    assert(entry@.isolate =~= Map::empty());
                    assert(entry@.children =~= Seq::empty());
                }
                Ok(entry)
            },
        }
    }

    /// Creates a structural group entry.
    pub fn group(id: String, children: Vec<EntrySpec>) -> (r: Result<EntrySpec, LoaderError>)
        requires
            entries_wf(children@),
        ensures
            match r {
                Ok(entry) => id@.len() > 0 && entry_wf(entry) && entry@ == (EntryModel {
                    id: id@,
                    component: Seq::empty(),
                    config: JsonModel::Null,
                    disabled: false,
                    group: true,
                    intercept: Map::empty(),
                    isolate: Map::empty(),
                    children: entry_models(children@),
                }),
                Err(error) => id@.len() == 0 && error@ == LoaderErrorModel::InvalidEntryId(id@),
            },
    {
        match EntryId::new(id) {
            Err(error) => Err(error),
            Ok(id) => {
                let entry = EntrySpec {
                    id,
                    component: String::new(),
                    config: Value::Null,
                    disabled: false,
                    group: true,
                    intercept: TextMap::new(),
                    isolate: TextMap::new(),
                    children,
                };
                proof {
                    assert(entry@.intercept =~= Map::empty());
                    assert(entry@.isolate =~= Map::empty());
                    children_model(entry);
                }
                Ok(entry)
            },
        }
    }

    pub fn duplicate(&self) -> (r: EntrySpec)
        requires
            entry_wf(*self),
        ensures
            r@ == self@,
            entry_wf(r),
        decreases self,
    {
        let children = duplicate_entries(&self.children);
        let r = EntrySpec {
            id: self.id.duplicate(),
            component: self.component.clone(),
            config: self.config.duplicate(),
            disabled: self.disabled,
            group: self.group,
            intercept: self.intercept.duplicate(),
            isolate: self.isolate.duplicate(),
            children,
        };
        proof {
            children_model(r);
            children_model(*self);
        }
        r
    }

    pub fn same(&self, other: &EntrySpec) -> (r: bool)
        requires
            entry_wf(*self),
            entry_wf(*other),
        ensures
            r == (self@ == other@),
        decreases self,
    {
        proof {
            children_model(*self);
            children_model(*other);
        }
        self.id.same(&other.id) && self.component == other.component && Value::same(
            &self.config,
            &other.config,
        ) && self.disabled == other.disabled && self.group == other.group && self.intercept.same(
            &other.intercept,
        ) && self.isolate.same(&other.isolate) && same_entries(&self.children, &other.children)
    }
}

/// What an entry amounts to in its tree.
pub struct ResolvedEntryModel {
    pub spec: EntryModel,
    pub component: Option<ComponentModel>,
    pub parent: Option<Seq<char>>,
    pub depth: usize,
    pub effective_disabled: bool,
    pub realms: Map<Seq<char>, RealmModel>,
    pub intercept: Map<Seq<char>, JsonModel>,
}

#[derive(Debug, PartialEq, Eq)]
pub struct ResolvedEntry {
    pub spec: EntrySpec,
    pub component: Option<ComponentRef>,
    pub parent: Option<EntryId>,
    pub depth: usize,
    pub effective_disabled: bool,
    pub realms: TextMap<ManagedRealm>,
    pub intercept: TextMap<Value>,
}

/// The content of an optional value.
pub open spec fn optional<T: View>(value: Option<T>) -> Option<T::V> {
    match value {
        Some(inner) => Some(inner@),
        None => None,
    }
}

impl View for ResolvedEntry {
    type V = ResolvedEntryModel;

    open spec fn view(&self) -> ResolvedEntryModel {
        ResolvedEntryModel {
            spec: self.spec@,
            component: optional(self.component),
            parent: optional(self.parent),
            depth: self.depth,
            effective_disabled: self.effective_disabled,
            realms: contents(self.realms@),
            intercept: contents(self.intercept@),
        }
    }
}

/// The entry runs a component.
pub open spec fn active(e: ResolvedEntryModel) -> bool {
    !e.spec.group && !e.effective_disabled
}

impl ResolvedEntry {
    pub open spec fn wf(&self) -> bool {
        entry_wf(self.spec) && self.realms.wf() && self.intercept.wf()
    }

    pub fn is_active(&self) -> (r: bool)
        ensures
            r == active(self@),
    {
        !self.spec.group && !self.effective_disabled
    }

    pub fn duplicate(&self) -> (r: ResolvedEntry)
        requires
            self.wf(),
        ensures
            r@ == self@,
            r.wf(),
    {
        ResolvedEntry {
            spec: self.spec.duplicate(),
            component: match &self.component {
                Some(component) => Some(component.duplicate()),
                None => None,
            },
            parent: match &self.parent {
                Some(parent) => Some(parent.duplicate()),
                None => None,
            },
            depth: self.depth,
            effective_disabled: self.effective_disabled,
            realms: self.realms.duplicate(),
            intercept: self.intercept.duplicate(),
        }
    }

    /// Whether both entries run the same component, or none.
    pub fn same_component(&self, other: &ResolvedEntry) -> (r: bool)
        ensures
            r == (self@.component == other@.component),
    {
        match (&self.component, &other.component) {
            (Some(a), Some(b)) => a.same(b),
            (None, None) => true,
            _ => false,
        }
    }

    pub fn same(&self, other: &ResolvedEntry) -> (r: bool)
        requires
            self.wf(),
            other.wf(),
        ensures
            r == (self@ == other@),
    {
        let parents = match (&self.parent, &other.parent) {
            (Some(a), Some(b)) => a.same(b),
            (None, None) => true,
            _ => false,
        };
        parents && self.same_component(other) && self.spec.same(&other.spec) && self.depth
            == other.depth && self.effective_disabled == other.effective_disabled
            && self.realms.same(&other.realms) && self.intercept.same(&other.intercept)
    }
}

/// What an entry gets from the entries around it.
pub struct Inherited {
    pub parent: Option<Seq<char>>,
    pub depth: usize,
    pub disabled: bool,
    pub realms: Map<Seq<char>, RealmModel>,
    pub intercept: Map<Seq<char>, JsonModel>,
}

/// The realm a rule puts a service in.
pub open spec fn ruled_realm(rule: RuleModel, owner: Seq<char>, service: Seq<char>) -> RealmModel {
    match rule {
        RuleModel::Local(_) => RealmModel::Local { owner, service },
        RuleModel::Global(label) => RealmModel::Global { label, service },
    }
}

/// The realms once the rules for the services in `done` are applied: a rule replaces what is
/// inherited, and an explicit `false` drops it.
pub open spec fn ruled(
    realms: Map<Seq<char>, RealmModel>,
    rules: Map<Seq<char>, RuleModel>,
    owner: Seq<char>,
    done: Set<Seq<char>>,
) -> Map<Seq<char>, RealmModel> {
    Map::new(
        |service: Seq<char>|
            if done.contains(service) {
                rules[service] != RuleModel::Local(false)
            } else {
                realms.dom().contains(service)
            },
        |service: Seq<char>|
            if done.contains(service) {
                ruled_realm(rules[service], owner, service)
            } else {
                realms[service]
            },
    )
}

/// A map with the entries of `own` for the keys in `done` laid over it.
pub open spec fn overlaid(
    base: Map<Seq<char>, JsonModel>,
    own: Map<Seq<char>, JsonModel>,
    done: Set<Seq<char>>,
) -> Map<Seq<char>, JsonModel> {
    Map::new(
        |key: Seq<char>| done.contains(key) || base.dom().contains(key),
        |key: Seq<char>|
            if done.contains(key) {
                own[key]
            } else {
                base[key]
            },
    )
}

/// One level further down.
pub open spec fn deeper(depth: usize) -> usize {
    if depth < usize::MAX {
        (depth + 1) as usize
    } else {
        usize::MAX
    }
}

/// What an entry amounts to.
pub open spec fn resolved_entry(e: EntryModel, from: Inherited) -> ResolvedEntryModel {
    ResolvedEntryModel {
        spec: e,
        component: if e.group {
            None
        } else {
            component_of(e.component)
        },
        parent: from.parent,
        depth: from.depth,
        effective_disabled: from.disabled || e.disabled,
        realms: ruled(from.realms, e.isolate, e.id, e.isolate.dom()),
        intercept: overlaid(from.intercept, e.intercept, e.intercept.dom()),
    }
}

/// What the children of an entry get from it.
pub open spec fn passed_on(e: EntryModel, from: Inherited) -> Inherited {
    let r = resolved_entry(e, from);
    Inherited {
        parent: Some(e.id),
        depth: deeper(from.depth),
        disabled: r.effective_disabled,
        realms: r.realms,
        intercept: r.intercept,
    }
}

/// Adds an entry and everything nested in it to the entries resolved so far.
pub open spec fn visited(
    e: EntryModel,
    from: Inherited,
    out: Map<Seq<char>, ResolvedEntryModel>,
) -> Result<Map<Seq<char>, ResolvedEntryModel>, LoaderErrorModel>
    decreases e, 0nat,
{
    if e.id.len() == 0 {
        Err(LoaderErrorModel::InvalidEntryId(Seq::empty()))
    } else if out.dom().contains(e.id) {
        Err(LoaderErrorModel::DuplicateEntry(e.id))
    } else if !e.group && component_of(e.component) is None {
        Err(LoaderErrorModel::InvalidComponentRef(e.component))
    } else {
        visited_all(
            e.children,
            e.children.len(),
            passed_on(e, from),
            out.insert(e.id, resolved_entry(e, from)),
        )
    }
}

/// Adds the first `n` entries in order; the first one refused decides.
pub open spec fn visited_all(
    entries: Seq<EntryModel>,
    n: nat,
    from: Inherited,
    out: Map<Seq<char>, ResolvedEntryModel>,
) -> Result<Map<Seq<char>, ResolvedEntryModel>, LoaderErrorModel>
    decreases entries, n,
{
    if n == 0 || n > entries.len() {
        Ok(out)
    } else {
        match visited_all(entries, (n - 1) as nat, from, out) {
            Err(error) => Err(error),
            Ok(map) => visited(entries[n - 1], from, map),
        }
    }
}

/// What roots get from around them: nothing.
pub open spec fn outermost() -> Inherited {
    Inherited {
        parent: None,
        depth: 0,
        disabled: false,
        realms: Map::empty(),
        intercept: Map::empty(),
    }
}

/// All entries of a tree by identifier, or why the tree is refused.
pub open spec fn resolution(roots: Seq<EntryModel>) -> Result<
    Map<Seq<char>, ResolvedEntryModel>,
    LoaderErrorModel,
> {
    visited_all(roots, roots.len(), outermost(), Map::empty())
}

/// An entry keeps the realm of a service it isolates for itself wherever it is moved; a service
/// without a rule of its own follows the place.
pub proof fn own_realms_move_along(e: EntryModel, from: Inherited, to: Inherited, service: Seq<char>)
    ensures
        e.isolate.dom().contains(service) && e.isolate[service] == RuleModel::Local(true) ==> {
            &&& resolved_entry(e, from).realms.dom().contains(service)
            &&& resolved_entry(e, to).realms.dom().contains(service)
            &&& resolved_entry(e, from).realms[service] == (RealmModel::Local {
                owner: e.id,
                service,
            })
            &&& resolved_entry(e, to).realms[service] == resolved_entry(e, from).realms[service]
        },
        !e.isolate.dom().contains(service) ==> {
            &&& resolved_entry(e, to).realms.dom().contains(service)
                <==> to.realms.dom().contains(service)
            &&& to.realms.dom().contains(service) ==> resolved_entry(e, to).realms[service]
                == to.realms[service]
        },
{
}

fn apply_rules(
    entry: &EntrySpec,
    realms: &TextMap<ManagedRealm>,
) -> (r: TextMap<ManagedRealm>)
    requires
        entry_wf(*entry),
        realms.wf(),
    ensures
        r.wf(),
        contents(r@) == ruled(
            contents(realms@),
            entry@.isolate,
            entry@.id,
            entry@.isolate.dom(),
        ),
{
    let ghost base = contents(realms@);
    let ghost rules = entry@.isolate;
    let ghost entries = entry.isolate.entries@;
    let ghost keys = entry_keys(entries);
    let mut out = realms.duplicate();
    let mut i: usize = 0;
    proof {
        entries_facts(entries);
        assert(keys.take(0).to_set() =~= Set::empty());
        assert(contents(out@) =~= ruled(base, rules, entry@.id, keys.take(0).to_set()));
    }
    while i < entry.isolate.entries.len()
        invariant
            entry_wf(*entry),
            out.wf(),
            rules == entry@.isolate,
            entries == entry.isolate.entries@,
            keys == entry_keys(entries),
            i <= entries.len(),
            contents(out@) == ruled(base, rules, entry@.id, keys.take(i as int).to_set()),
        decreases entries.len() - i,
    {
        let item = &entry.isolate.entries[i];
        let ghost service = item.key@;
        let ghost before = out@;
        let ghost done = keys.take(i as int).to_set();
        let ghost next = keys.take(i + 1).to_set();
        proof {
            entries_facts(entries);
            assert(keys[i as int] == service);
            assert(entry.isolate@.dom().contains(entries[i as int].key@));
            assert(rules[service] == item.value@);
            assert(keys.take(i + 1) =~= keys.take(i as int).push(service));
            assert(next =~= done.insert(service)) by {
                assert forall|k: Seq<char>| #[trigger] next.contains(k) <==> done.insert(
                    service,
                ).contains(k) by {
                    taken_contains(keys, i as int, k);
                }
            }
        }
        match &item.value {
            IsolationRule::Local(own) => if *own {
                let realm = ManagedRealm::Local {
                    owner: entry.id.duplicate(),
                    service: item.key.clone(),
                };
                let _ = out.insert(item.key.clone(), realm);
                proof {
                    contents_insert(before, service, realm);
                }
            } else {
                let _ = out.remove(item.key.as_str());
                proof {
                    contents_remove(before, service);
                }
            },
            IsolationRule::Global(label) => {
                let realm = ManagedRealm::Global {
                    label: label.clone(),
                    service: item.key.clone(),
                };
                let _ = out.insert(item.key.clone(), realm);
                proof {
                    contents_insert(before, service, realm);
                }
            },
        }
        proof {
            assert(contents(out@) =~= ruled(base, rules, entry@.id, next));
        }
        i = i + 1;
    }
    proof {
        entries_facts(entries);
        assert(keys.take(i as int) =~= keys);
        assert(keys.to_set() =~= rules.dom()) by {
            assert forall|k: Seq<char>| #[trigger] keys.to_set().contains(k)
                <==> rules.dom().contains(k) by {
                assert(entry.isolate@.dom().contains(k) <==> keys.contains(k));
            }
        }
    }
    out
}

/// What the first `i + 1` keys hold beyond the first `i`.
proof fn taken_contains(keys: Seq<Seq<char>>, i: int, k: Seq<char>)
    requires
        0 <= i < keys.len(),
    ensures
        keys.take(i + 1).contains(k) <==> keys.take(i).contains(k) || k == keys[i],
{
    let more = keys.take(i + 1);
    let less = keys.take(i);
    if more.contains(k) {
        let j = choose|j: int| 0 <= j < more.len() && more[j] == k;
        if j < i {
            assert(less[j] == k);
        }
    }
    if less.contains(k) {
        let j = choose|j: int| 0 <= j < less.len() && less[j] == k;
        assert(more[j] == k);
    }
    assert(more[i] == keys[i]);
}

fn overlay_intercept(entry: &EntrySpec, intercept: &TextMap<Value>) -> (r: TextMap<Value>)
    requires
        entry_wf(*entry),
        intercept.wf(),
    ensures
        r.wf(),
        contents(r@) == overlaid(
            contents(intercept@),
            entry@.intercept,
            entry@.intercept.dom(),
        ),
{
    let ghost base = contents(intercept@);
    let ghost own = entry@.intercept;
    let ghost entries = entry.intercept.entries@;
    let ghost keys = entry_keys(entries);
    let mut out = intercept.duplicate();
    let mut i: usize = 0;
    proof {
        entries_facts(entries);
        assert(keys.take(0).to_set() =~= Set::empty());
        assert(contents(out@) =~= overlaid(base, own, keys.take(0).to_set()));
    }
    while i < entry.intercept.entries.len()
        invariant
            entry_wf(*entry),
            out.wf(),
            own == entry@.intercept,
            entries == entry.intercept.entries@,
            keys == entry_keys(entries),
            i <= entries.len(),
            contents(out@) == overlaid(base, own, keys.take(i as int).to_set()),
        decreases entries.len() - i,
    {
        let item = &entry.intercept.entries[i];
        let ghost key = item.key@;
        let ghost before = out@;
        let ghost done = keys.take(i as int).to_set();
        let ghost next = keys.take(i + 1).to_set();
        proof {
            entries_facts(entries);
            assert(keys[i as int] == key);
            assert(entry.intercept@.dom().contains(entries[i as int].key@));
            assert(own[key] == item.value@);
            assert(next =~= done.insert(key)) by {
                assert forall|k: Seq<char>| #[trigger] next.contains(k) <==> done.insert(
                    key,
                ).contains(k) by {
                    taken_contains(keys, i as int, k);
                }
            }
        }
        let value = Value::duplicate(&item.value);
        let _ = out.insert(item.key.clone(), value);
        proof {
            contents_insert(before, key, value);
            assert(contents(out@) =~= overlaid(base, own, next));
        }
        i = i + 1;
    }
    proof {
        entries_facts(entries);
        assert(keys.take(i as int) =~= keys);
        assert(keys.to_set() =~= own.dom()) by {
            assert forall|k: Seq<char>| #[trigger] keys.to_set().contains(k) <==> own.dom().contains(
                k,
            ) by {
                assert(entry.intercept@.dom().contains(k) <==> keys.contains(k));
            }
        }
    }
    out
}

/// All values of a resolution are sound.
pub open spec fn resolved_wf(map: Map<Seq<char>, ResolvedEntry>) -> bool {
    forall|id: Seq<char>| #[trigger] map.dom().contains(id) ==> map[id].wf()
}

fn visit(
    entry: &EntrySpec,
    parent: Option<&EntryId>,
    depth: usize,
    parent_disabled: bool,
    parent_realms: &TextMap<ManagedRealm>,
    parent_intercept: &TextMap<Value>,
    output: &mut TextMap<ResolvedEntry>,
) -> (r: Result<(), LoaderError>)
    requires
        entry_wf(*entry),
        parent_realms.wf(),
        parent_intercept.wf(),
        old(output).wf(),
        resolved_wf(old(output)@),
    ensures
        final(output).wf(),
        resolved_wf(final(output)@),
        ({
            let from = Inherited {
                parent: match parent {
                    Some(id) => Some(id@),
                    None => None,
                },
                depth,
                disabled: parent_disabled,
                realms: contents(parent_realms@),
                intercept: contents(parent_intercept@),
            };
            match (r, visited(entry@, from, contents(old(output)@))) {
                (Ok(_), Ok(map)) => contents(final(output)@) == map,
                (Err(error), Err(expected)) => error@ == expected,
                _ => false,
            }
        }),
    decreases entry,
{
    let ghost from = Inherited {
        parent: match parent {
            Some(id) => Some(id@),
            None => None,
        },
        depth,
        disabled: parent_disabled,
        realms: contents(parent_realms@),
        intercept: contents(parent_intercept@),
    };
    if entry.id.as_str().is_empty() {
        let empty = String::new();
        return Err(LoaderError::InvalidEntryId(empty));
    }
    if output.contains_key(entry.id.as_str()) {
        return Err(LoaderError::DuplicateEntry(entry.id.duplicate()));
    }
    let component = if entry.group {
        None
    } else {
        match ComponentRef::parse(entry.component.as_str()) {
            Ok(component) => Some(component),
            Err(error) => {
                return Err(error);
            },
        }
    };
    let realms = apply_rules(entry, parent_realms);
    let intercept = overlay_intercept(entry, parent_intercept);
    let disabled = parent_disabled || entry.disabled;
    let record = ResolvedEntry {
        spec: entry.duplicate(),
        component,
        parent: match parent {
            Some(id) => Some(id.duplicate()),
            None => None,
        },
        depth,
        effective_disabled: disabled,
        realms: realms.duplicate(),
        intercept: intercept.duplicate(),
    };
    let ghost before = output@;
    proof {
        assert(record@ == resolved_entry(entry@, from));
        contents_insert(before, entry@.id, record);
    }
    let _ = output.insert(entry.id.value.clone(), record);
    let below: usize = if depth < usize::MAX {
        depth + 1
    } else {
        depth
    };
    proof {
        children_model(*entry);
    }
    visit_all(
        &entry.children,
        Some(&entry.id),
        below,
        disabled,
        &realms,
        &intercept,
        output,
    )
}

fn visit_all(
    entries: &Vec<EntrySpec>,
    parent: Option<&EntryId>,
    depth: usize,
    parent_disabled: bool,
    parent_realms: &TextMap<ManagedRealm>,
    parent_intercept: &TextMap<Value>,
    output: &mut TextMap<ResolvedEntry>,
) -> (r: Result<(), LoaderError>)
    requires
        entries_wf(entries@),
        parent_realms.wf(),
        parent_intercept.wf(),
        old(output).wf(),
        resolved_wf(old(output)@),
    ensures
        final(output).wf(),
        resolved_wf(final(output)@),
        ({
            let from = Inherited {
                parent: match parent {
                    Some(id) => Some(id@),
                    None => None,
                },
                depth,
                disabled: parent_disabled,
                realms: contents(parent_realms@),
                intercept: contents(parent_intercept@),
            };
            match (
                r,
                visited_all(
                    entry_models(entries@),
                    entries@.len(),
                    from,
                    contents(old(output)@),
                ),
            ) {
                (Ok(_), Ok(map)) => contents(final(output)@) == map,
                (Err(error), Err(expected)) => error@ == expected,
                _ => false,
            }
        }),
    decreases entries,
{
    let ghost from = Inherited {
        parent: match parent {
            Some(id) => Some(id@),
            None => None,
        },
        depth,
        disabled: parent_disabled,
        realms: contents(parent_realms@),
        intercept: contents(parent_intercept@),
    };
    let ghost models = entry_models(entries@);
    let ghost start = contents(output@);
    let mut i: usize = 0;
    while i < entries.len()
        invariant
            entries_wf(entries@),
            parent_realms.wf(),
            parent_intercept.wf(),
            output.wf(),
            resolved_wf(output@),
            models == entry_models(entries@),
            start == contents(old(output)@),
            from == (Inherited {
                parent: match parent {
                    Some(id) => Some(id@),
                    None => None,
                },
                depth,
                disabled: parent_disabled,
                realms: contents(parent_realms@),
                intercept: contents(parent_intercept@),
            }),
            i <= entries.len(),
            visited_all(models, i as nat, from, start) == Ok::<
                Map<Seq<char>, ResolvedEntryModel>,
                LoaderErrorModel,
            >(contents(output@)),
        decreases entries.len() - i,
    {
        proof {
            assert(models.len() == entries@.len());
            assert(models[i as int] == entries@[i as int]@);
        }
        let ghost before = contents(output@);
        match visit(
            &entries[i],
            parent,
            depth,
            parent_disabled,
            parent_realms,
            parent_intercept,
            output,
        ) {
            Ok(_) => {},
            Err(error) => {
                proof {
                    assert(visited_all(models, (i + 1) as nat, from, start) == visited(
                        models[i as int],
                        from,
                        before,
                    ));
                    refused_stays_refused(models, (i + 1) as nat, entries@.len(), from, start);
                }
                return Err(error);
            },
        }
        i = i + 1;
    }
    Ok(())
}

/// A tree that is refused at some entry is refused whatever follows.
proof fn refused_stays_refused(
    entries: Seq<EntryModel>,
    n: nat,
    m: nat,
    from: Inherited,
    out: Map<Seq<char>, ResolvedEntryModel>,
)
    requires
        n <= m <= entries.len(),
        visited_all(entries, n, from, out) is Err,
    ensures
        visited_all(entries, m, from, out) == visited_all(entries, n, from, out),
    decreases m - n,
{
    if n < m {
        refused_stays_refused(entries, n, (m - 1) as nat, from, out);
    }
}

/// Resolves a tree: every entry with what it inherits, or the first reason to refuse it.
pub fn resolve_entries(roots: &Vec<EntrySpec>) -> (r: Result<TextMap<ResolvedEntry>, LoaderError>)
    requires
        entries_wf(roots@),
    ensures
        match (r, resolution(entry_models(roots@))) {
            (Ok(resolved), Ok(map)) => resolved.wf() && resolved_wf(resolved@) && contents(
                resolved@,
            ) == map,
            (Err(error), Err(expected)) => error@ == expected,
            _ => false,
        },
{
    let realms: TextMap<ManagedRealm> = TextMap::new();
    let intercept: TextMap<Value> = TextMap::new();
    let mut output: TextMap<ResolvedEntry> = TextMap::new();
    proof {
        assert(contents(realms@) =~= Map::empty());
        assert(contents(intercept@) =~= Map::empty());
        assert(contents(output@) =~= Map::empty());
        assert(entry_models(roots@).len() == roots@.len());
    }
    match visit_all(roots, None, 0, false, &realms, &intercept, &mut output) {
        Ok(_) => Ok(output),
        Err(error) => Err(error),
    }
}

} // verus!
