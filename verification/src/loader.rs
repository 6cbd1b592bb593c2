//! Composition of declarative entries with running fibers.
use crate::context::{realm_of, Context, ContextModel};
use crate::dynamic::DynamicComponentDescriptor;
use crate::entry::{
    loader_error_text, EntryId, LoaderError, LoaderErrorModel, ManagedRealm, RealmModel,
    ResolvedEntry,
};
use crate::fiber::FiberState;
use crate::id::{FiberId, RealmId};
use crate::order::{TextMap, TextSet};
use crate::service::{
    service_less, services_are_ordered, InjectModel, ServiceId, ServiceModel,
};
use crate::supervisor::SupervisorState;
use crate::supervisor_model::SupervisorModel;
use crate::text::{decimal, group_views, push_decimal, views};
use crate::value::JsonModel;
use vstd::prelude::*;

verus! {

broadcast use group_views;

/// Component factories that entries name as `builtin:<name>`.
#[derive(Debug)]
pub struct BuiltinRegistry<F> {
    pub factories: TextMap<F>,
}

/// A text between two fixed ones.
pub open spec fn around(before: Seq<char>, name: Seq<char>, after: Seq<char>) -> Seq<char> {
    before + name + after
}

fn wrap(before: &str, name: &str, after: &str) -> (r: String)
    ensures
        r@ == around(before@, name@, after@),
{
    let mut out = before.to_owned();
    out.append(name);
    out.append(after);
    out
}

impl<F> BuiltinRegistry<F> {
    pub open spec fn wf(&self) -> bool {
        self.factories.wf()
    }

    pub fn new() -> (r: BuiltinRegistry<F>)
        ensures
            r.wf(),
            r.factories@ == Map::<Seq<char>, F>::empty(),
    {
        BuiltinRegistry { factories: TextMap::new() }
    }

    /// Registers a factory under a name that is neither empty nor taken.
    pub fn register(&mut self, name: String, factory: F) -> (r: Result<(), LoaderError>)
        requires
            old(self).wf(),
        ensures
            final(self).wf(),
            match r {
                Ok(_) => name@.len() > 0 && !old(self).factories@.dom().contains(name@)
                    && final(self).factories@ == old(self).factories@.insert(name@, factory),
                Err(error) => {
                    &&& final(self).factories@ == old(self).factories@
                    &&& if name@.len() == 0 {
                        error@ == LoaderErrorModel::Driver(
                            "builtin component name cannot be empty"@,
                        )
                    } else {
                        old(self).factories@.dom().contains(name@) && error@
                            == LoaderErrorModel::Driver(
                            around("builtin component `"@, name@, "` is already registered"@),
                        )
                    }
                },
            },
    {
        if name.as_str().is_empty() {
            return Err(LoaderError::Driver("builtin component name cannot be empty".to_owned()));
        }
        if self.factories.contains_key(name.as_str()) {
            return Err(
                LoaderError::Driver(
                    wrap("builtin component `", name.as_str(), "` is already registered"),
                ),
            );
        }
        let _ = self.factories.insert(name, factory);
        Ok(())
    }

    /// The factory registered under a name.
    pub fn get(&self, name: &str) -> (r: Result<&F, LoaderError>)
        requires
            self.wf(),
        ensures
            match r {
                Ok(factory) => self.factories@.dom().contains(name@) && self.factories@[name@]
                    == *factory,
                Err(error) => !self.factories@.dom().contains(name@) && error@
                    == LoaderErrorModel::Driver(
                    around("builtin component `"@, name@, "` is not registered"@),
                ),
            },
    {
        match self.factories.get(name) {
            Some(factory) => Ok(factory),
            None => Err(
                LoaderError::Driver(wrap("builtin component `", name, "` is not registered")),
            ),
        }
    }
}

/// An entry without a component cannot be mounted.
pub fn missing_component(id: &EntryId) -> (r: LoaderError)
    ensures
        r@ == LoaderErrorModel::Driver(around("Entry `"@, id@, "` has no component"@)),
{
    LoaderError::Driver(wrap("Entry `", id.as_str(), "` has no component"))
}

/// What replacing or stopping a mounted entry does next.
#[derive(Debug, PartialEq, Eq)]
pub enum DriverStep {
    /// Stop the entry that is mounted.
    StopPrevious,
    /// Start the entry that takes its place.
    StartNext,
    /// Start the earlier entry again.
    StartPrevious(LoaderError),
    /// Nothing is left to do.
    Done(Result<(), LoaderError>),
}

/// The content of a step.
pub enum DriverStepModel {
    StopPrevious,
    StartNext,
    StartPrevious(LoaderErrorModel),
    Done(Result<(), LoaderErrorModel>),
}

/// The content of an outcome.
pub open spec fn outcome_model(outcome: Result<(), LoaderError>) -> Result<(), LoaderErrorModel> {
    match outcome {
        Ok(_) => Ok(()),
        Err(error) => Err(error@),
    }
}

impl View for DriverStep {
    type V = DriverStepModel;

    open spec fn view(&self) -> DriverStepModel {
        match self {
            DriverStep::StopPrevious => DriverStepModel::StopPrevious,
            DriverStep::StartNext => DriverStepModel::StartNext,
            DriverStep::StartPrevious(error) => DriverStepModel::StartPrevious(error@),
            DriverStep::Done(outcome) => DriverStepModel::Done(outcome_model(*outcome)),
        }
    }
}

/// The error to report once the earlier entry was started again, or could not be.
pub open spec fn recovered(
    error: LoaderErrorModel,
    recovery: Result<(), LoaderErrorModel>,
    separator: Seq<char>,
) -> LoaderErrorModel {
    match recovery {
        Ok(_) => error,
        Err(second) => LoaderErrorModel::Driver(
            loader_error_text(error) + separator + loader_error_text(second),
        ),
    }
}

fn recover(error: LoaderError, recovery: Result<(), LoaderError>, separator: &str) -> (r:
    LoaderError)
    ensures
        r@ == recovered(error@, outcome_model(recovery), separator@),
{
    match recovery {
        Ok(_) => error,
        Err(second) => {
            let mut message = error.message();
            message.append(separator);
            message.append(second.message().as_str());
            LoaderError::Driver(message)
        },
    }
}

/// The step after one of an update: the earlier entry is stopped, the next one started, and if
/// that fails the earlier one is started again.
pub open spec fn after_update(
    step: DriverStepModel,
    outcome: Result<(), LoaderErrorModel>,
) -> DriverStepModel {
    match step {
        DriverStepModel::StopPrevious => match outcome {
            Ok(_) => DriverStepModel::StartNext,
            Err(error) => DriverStepModel::Done(Err(error)),
        },
        DriverStepModel::StartNext => match outcome {
            Ok(_) => DriverStepModel::Done(Ok(())),
            Err(error) => DriverStepModel::StartPrevious(error),
        },
        DriverStepModel::StartPrevious(error) => DriverStepModel::Done(
            Err(recovered(error, outcome, "; rollback failed: "@)),
        ),
        DriverStepModel::Done(result) => DriverStepModel::Done(result),
    }
}

/// The step after one of a stop: an entry that could not be stopped is started again.
pub open spec fn after_stop(
    step: DriverStepModel,
    outcome: Result<(), LoaderErrorModel>,
) -> DriverStepModel {
    match step {
        DriverStepModel::StartPrevious(error) => DriverStepModel::Done(
            Err(recovered(error, outcome, "; stop rollback failed: "@)),
        ),
        DriverStepModel::Done(result) => DriverStepModel::Done(result),
        _ => match outcome {
            Ok(_) => DriverStepModel::Done(Ok(())),
            Err(error) => DriverStepModel::StartPrevious(error),
        },
    }
}

impl DriverStep {
    /// The step of an update that follows this one with its outcome.
    pub fn after_update(self, outcome: Result<(), LoaderError>) -> (r: DriverStep)
        ensures
            r@ == after_update(self@, outcome_model(outcome)),
    {
        match self {
            DriverStep::StopPrevious => match outcome {
                Ok(_) => DriverStep::StartNext,
                Err(error) => DriverStep::Done(Err(error)),
            },
            DriverStep::StartNext => match outcome {
                Ok(_) => DriverStep::Done(Ok(())),
                Err(error) => DriverStep::StartPrevious(error),
            },
            DriverStep::StartPrevious(error) => DriverStep::Done(
                Err(recover(error, outcome, "; rollback failed: ")),
            ),
            DriverStep::Done(result) => DriverStep::Done(result),
        }
    }

    /// The step of a stop that follows this one with its outcome.
    pub fn after_stop(self, outcome: Result<(), LoaderError>) -> (r: DriverStep)
        ensures
            r@ == after_stop(self@, outcome_model(outcome)),
    {
        match self {
            DriverStep::StartPrevious(error) => DriverStep::Done(
                Err(recover(error, outcome, "; stop rollback failed: ")),
            ),
            DriverStep::Done(result) => DriverStep::Done(result),
            _ => match outcome {
                Ok(_) => DriverStep::Done(Ok(())),
                Err(error) => DriverStep::StartPrevious(error),
            },
        }
    }
}

/// An update is over after at most three steps, and one whose next entry does not start always
/// tries to bring the earlier one back.
pub proof fn updates_restore_on_failure(
    stop: Result<(), LoaderErrorModel>,
    start: Result<(), LoaderErrorModel>,
    restore: Result<(), LoaderErrorModel>,
)
    ensures
        ({
            let second = after_update(DriverStepModel::StopPrevious, stop);
            let third = after_update(second, start);
            let last = after_update(third, restore);
            &&& last is Done
            &&& stop is Ok && start is Ok ==> third == DriverStepModel::Done(Ok(()))
            &&& stop is Err ==> second == DriverStepModel::Done(stop)
            &&& stop is Ok && start is Err ==> third == DriverStepModel::StartPrevious(
                start->Err_0,
            ) && last->Done_0 is Err
        }),
{
}

/// The first error of a shutdown: the supervisor's, then that of the entries, then that of the
/// root.
pub fn shutdown_outcome<S>(
    snapshot: Result<S, LoaderError>,
    cleanup: Result<(), LoaderError>,
    root_cleanup: Result<(), LoaderError>,
) -> (r: Result<S, LoaderError>)
    ensures
        match (snapshot, cleanup, root_cleanup) {
            (Err(error), _, _) => r == Err::<S, LoaderError>(error),
            (Ok(_), Err(error), _) => r == Err::<S, LoaderError>(error),
            (Ok(_), Ok(_), Err(error)) => r == Err::<S, LoaderError>(error),
            (Ok(value), Ok(_), Ok(_)) => r == Ok::<S, LoaderError>(value),
        },
{
    match snapshot {
        Err(error) => Err(error),
        Ok(value) => match cleanup {
            Err(error) => Err(error),
            Ok(_) => match root_cleanup {
                Err(error) => Err(error),
                Ok(_) => Ok(value),
            },
        },
    }
}

/// A fiber that is loading or has failed is waited for before its entry counts as started.
pub fn awaits_activation(state: Option<FiberState>) -> (r: bool)
    ensures
        r == (state == Some(FiberState::Loading) || state == Some(FiberState::Failed)),
{
    match state {
        Some(FiberState::Loading) => true,
        Some(FiberState::Failed) => true,
        _ => false,
    }
}

/// Mounted entries by id, each with its fiber and whether its artifact is watched.
#[derive(Debug)]
pub struct MountTable {
    pub entries: TextMap<MountedEntry>,
}

/// The fiber of a mounted entry.
#[derive(Clone, Copy, Debug, PartialEq, Eq)]
pub struct MountedEntry {
    pub fiber: FiberId,
    pub hmr_tracked: bool,
}

/// The fiber under which an entry is mounted: that of its parent, if mounted, or the root.
pub open spec fn parent_of(
    mounted: Map<Seq<char>, MountedEntry>,
    parent: Option<Seq<char>>,
    root: FiberId,
) -> FiberId {
    match parent {
        Some(id) => if mounted.dom().contains(id) {
            mounted[id].fiber
        } else {
            root
        },
        None => root,
    }
}

impl MountTable {
    pub open spec fn wf(&self) -> bool {
        self.entries.wf()
    }

    pub fn new() -> (r: MountTable)
        ensures
            r.wf(),
            r.entries@ == Map::<Seq<char>, MountedEntry>::empty(),
    {
        MountTable { entries: TextMap::new() }
    }

    pub fn parent_fiber(&self, entry: &ResolvedEntry, root: FiberId) -> (r: FiberId)
        requires
            self.wf(),
        ensures
            r == parent_of(self.entries@, entry@.parent, root),
    {
        match &entry.parent {
            Some(parent) => match self.entries.get(parent.as_str()) {
                Some(mounted) => mounted.fiber,
                None => root,
            },
            None => root,
        }
    }

    /// Remembers a mounted entry.
    pub fn insert(&mut self, id: &EntryId, mounted: MountedEntry)
        requires
            old(self).wf(),
        ensures
            final(self).wf(),
            final(self).entries@ == old(self).entries@.insert(id@, mounted),
    {
        let _ = self.entries.insert(id.as_str().to_owned(), mounted);
    }

    /// Takes a mounted entry out.
    pub fn remove(&mut self, id: &EntryId) -> (r: Result<MountedEntry, LoaderError>)
        requires
            old(self).wf(),
        ensures
            final(self).wf(),
            final(self).entries@ == old(self).entries@.remove(id@),
            match r {
                Ok(mounted) => old(self).entries@.dom().contains(id@) && mounted
                    == old(self).entries@[id@],
                Err(error) => !old(self).entries@.dom().contains(id@) && error@
                    == LoaderErrorModel::Driver(around("Entry `"@, id@, "` is not mounted"@)),
            },
    {
        match self.entries.remove(id.as_str()) {
            Some(mounted) => Ok(mounted),
            None => Err(LoaderError::Driver(wrap("Entry `", id.as_str(), "` is not mounted"))),
        }
    }
}

/// The realm of a service by what decides it.
pub enum RealmKeyModel {
    Default(ServiceModel),
    Local(Seq<char>, Seq<char>),
    Global(Seq<char>, Seq<char>),
}

/// The realm of a service by what decides it: nothing, the entry that isolates it, or a label.
#[derive(Debug)]
pub enum RealmKey {
    Default(ServiceId),
    Local(EntryId, String),
    Global(String, String),
}

impl View for RealmKey {
    type V = RealmKeyModel;

    open spec fn view(&self) -> RealmKeyModel {
        match self {
            RealmKey::Default(service) => RealmKeyModel::Default(service@),
            RealmKey::Local(owner, service) => RealmKeyModel::Local(owner@, service@),
            RealmKey::Global(label, service) => RealmKeyModel::Global(label@, service@),
        }
    }
}

/// What decides the realm of a service of an entry.
pub open spec fn realm_key_of(
    realms: Map<Seq<char>, RealmModel>,
    service: ServiceModel,
) -> RealmKeyModel {
    if realms.dom().contains(service.name) {
        match realms[service.name] {
            RealmModel::Local { owner, service } => RealmKeyModel::Local(owner, service),
            RealmModel::Global { label, service } => RealmKeyModel::Global(label, service),
        }
    } else {
        RealmKeyModel::Default(service)
    }
}

pub fn realm_key(entry: &ResolvedEntry, service: &ServiceId) -> (r: RealmKey)
    requires
        entry.wf(),
    ensures
        r@ == realm_key_of(entry@.realms, service@),
{
    match entry.realms.get(service.name()) {
        Some(ManagedRealm::Local { owner, service }) => RealmKey::Local(
            owner.duplicate(),
            service.clone(),
        ),
        Some(ManagedRealm::Global { label, service }) => RealmKey::Global(
            label.clone(),
            service.clone(),
        ),
        None => RealmKey::Default(service.duplicate()),
    }
}

impl RealmKey {
    pub fn same(&self, other: &RealmKey) -> (r: bool)
        ensures
            r == (self@ == other@),
    {
        match (self, other) {
            (RealmKey::Default(a), RealmKey::Default(b)) => a.same(b),
            (RealmKey::Local(a, x), RealmKey::Local(b, y)) => a.same(b) && *x == *y,
            (RealmKey::Global(a, x), RealmKey::Global(b, y)) => *a == *b && *x == *y,
            _ => false,
        }
    }
}

/// Realms allocated so far.
#[derive(Debug)]
pub struct RealmTable {
    pub entries: Vec<(RealmKey, RealmId)>,
}

/// `i` holds the realm of a key.
pub open spec fn realm_at(entries: Seq<(RealmKey, RealmId)>, key: RealmKeyModel, i: int) -> bool {
    0 <= i < entries.len() && entries[i].0@ == key
}

/// A realm is known for the key.
pub open spec fn has_realm(entries: Seq<(RealmKey, RealmId)>, key: RealmKeyModel) -> bool {
    exists|i: int| #[trigger] realm_at(entries, key, i)
}

/// A table with one more key, or the same one.
pub open spec fn realm_given(
    realms: Map<RealmKeyModel, RealmId>,
    next: u64,
    key: RealmKeyModel,
) -> (Map<RealmKeyModel, RealmId>, u64) {
    if realms.dom().contains(key) {
        (realms, next)
    } else {
        (realms.insert(key, RealmId(next)), (next + 1) as u64)
    }
}

/// The table after the first `n` keys were given realms, and the next free realm.
pub open spec fn realms_given(
    realms: Map<RealmKeyModel, RealmId>,
    next: u64,
    keys: Seq<RealmKeyModel>,
    n: nat,
) -> (Map<RealmKeyModel, RealmId>, u64)
    decreases n,
{
    if n == 0 {
        (realms, next)
    } else {
        let before = realms_given(realms, next, keys, (n - 1) as nat);
        realm_given(before.0, before.1, keys[n - 1])
    }
}

/// No two keys share a realm, and every realm was allocated before `next`.
pub open spec fn realms_apart(realms: Map<RealmKeyModel, RealmId>, next: u64) -> bool {
    &&& forall|k: RealmKeyModel| #[trigger] realms.dom().contains(k) ==> realms[k].0 < next
    &&& forall|j: RealmKeyModel, k: RealmKeyModel|
        #[trigger] realms.dom().contains(j) && #[trigger] realms.dom().contains(k) && realms[j]
            == realms[k] ==> j == k
}

/// Giving realms keeps every realm given before, keeps them apart, and gives every key one.
pub proof fn realms_stay_apart(
    realms: Map<RealmKeyModel, RealmId>,
    next: u64,
    keys: Seq<RealmKeyModel>,
    n: nat,
)
    requires
        realms_apart(realms, next),
        n <= keys.len(),
        next + n <= u64::MAX,
    ensures
        ({
            let (after, free) = realms_given(realms, next, keys, n);
            &&& realms_apart(after, free)
            &&& next <= free <= next + n
            &&& forall|k: RealmKeyModel| #[trigger]
                realms.dom().contains(k) ==> after.dom().contains(k) && after[k] == realms[k]
            &&& forall|i: int| 0 <= i < n ==> after.dom().contains(#[trigger] keys[i])
        }),
    decreases n,
{
    if n > 0 {
        realms_stay_apart(realms, next, keys, (n - 1) as nat);
    }
}

impl RealmTable {
    /// No key has two realms.
    pub open spec fn wf(&self) -> bool {
        forall|i: int, j: int|
            0 <= i < j < self.entries@.len() ==> (#[trigger] self.entries@[i]).0@ != (
            #[trigger] self.entries@[j]).0@
    }

    /// The realm of each key.
    pub open spec fn realms(&self) -> Map<RealmKeyModel, RealmId> {
        Map::new(
            |k: RealmKeyModel| has_realm(self.entries@, k),
            |k: RealmKeyModel|
                self.entries@[choose|i: int| #[trigger] realm_at(self.entries@, k, i)].1,
        )
    }

    pub fn new() -> (r: RealmTable)
        ensures
            r.wf(),
            r.realms() == Map::<RealmKeyModel, RealmId>::empty(),
    {
        let r = RealmTable { entries: Vec::new() };
        proof {
            assert(r.realms() =~= Map::<RealmKeyModel, RealmId>::empty());
        }
        r
    }

    /// The realm allocated for a key.
    pub fn get(&self, key: &RealmKey) -> (r: Option<RealmId>)
        requires
            self.wf(),
        ensures
            match r {
                Some(realm) => self.realms().dom().contains(key@) && self.realms()[key@] == realm,
                None => !self.realms().dom().contains(key@),
            },
    {
        let mut i: usize = 0;
        while i < self.entries.len()
            invariant
                self.wf(),
                i <= self.entries.len(),
                forall|k: int| 0 <= k < i ==> !#[trigger] realm_at(self.entries@, key@, k),
            decreases self.entries.len() - i,
        {
            if self.entries[i].0.same(key) {
                proof {
                    assert(realm_at(self.entries@, key@, i as int));
                    let j = choose|j: int| #[trigger] realm_at(self.entries@, key@, j);
                    if j < i {
                        assert(self.entries@[j].0@ != self.entries@[i as int].0@);
                    } else if i < j {
                        assert(self.entries@[i as int].0@ != self.entries@[j].0@);
                    }
                }
                return Some(self.entries[i].1);
            }
            proof {
                assert(!realm_at(self.entries@, key@, i as int));
            }
            i = i + 1;
        }
        None
    }

    fn insert(&mut self, key: RealmKey, realm: RealmId)
        requires
            old(self).wf(),
            !old(self).realms().dom().contains(key@),
        ensures
            final(self).wf(),
            final(self).realms() == old(self).realms().insert(key@, realm),
    {
        let ghost before = self.entries@;
        let ghost map = self.realms();
        let ghost k0 = key@;
        self.entries.push((key, realm));
        proof {
            let after = self.entries@;
            assert(!has_realm(before, k0));
            assert forall|i: int, j: int| 0 <= i < j < after.len() implies (
            #[trigger] after[i]).0@ != (#[trigger] after[j]).0@ by {
                assert(after[i] == before[i]);
                if j < before.len() {
                    assert(after[j] == before[j]);
                } else if after[i].0@ == k0 {
                    assert(realm_at(before, k0, i));
                }
            }
            assert forall|k: RealmKeyModel| #[trigger]
                self.realms().dom().contains(k) <==> map.insert(k0, realm).dom().contains(k) by {
                if has_realm(after, k) {
                    let i = choose|i: int| #[trigger] realm_at(after, k, i);
                    if i < before.len() {
                        assert(realm_at(before, k, i));
                    }
                }
                if has_realm(before, k) {
                    let i = choose|i: int| #[trigger] realm_at(before, k, i);
                    assert(realm_at(after, k, i));
                }
                assert(realm_at(after, k0, before.len() as int));
            }
            assert forall|k: RealmKeyModel| #[trigger]
                self.realms().dom().contains(k) implies self.realms()[k] == map.insert(
                k0,
                realm,
            )[k] by {
                let i = choose|i: int| #[trigger] realm_at(after, k, i);
                if k == k0 {
                    if i < before.len() {
                        assert(realm_at(before, k, i));
                    }
                } else {
                    assert(realm_at(before, k, i));
                    let j = choose|j: int| #[trigger] realm_at(before, k, j);
                    if i < j {
                        assert(before[i].0@ != before[j].0@);
                    } else if j < i {
                        assert(before[j].0@ != before[i].0@);
                    }
                }
            }
            assert(self.realms() =~= map.insert(k0, realm));
        }
    }

    /// The realm of a service of an entry. The first entry that needs it allocates it.
    pub fn realm_for(
        &mut self,
        supervisor: &mut SupervisorState,
        entry: &ResolvedEntry,
        service: &ServiceId,
    ) -> (r: RealmId)
        requires
            old(self).wf(),
            old(supervisor).wf(),
            entry.wf(),
            old(supervisor)@.next_realm < u64::MAX,
            old(supervisor)@.allocated_realms < u64::MAX,
        ensures
            final(self).wf(),
            final(supervisor).wf(),
            ({
                let key = realm_key_of(entry@.realms, service@);
                let next = old(supervisor)@.next_realm;
                let given = realm_given(old(self).realms(), next, key);
                &&& final(self).realms() == given.0
                &&& r == given.0[key]
                &&& final(supervisor)@ == (SupervisorModel {
                    next_realm: given.1,
                    allocated_realms: (old(supervisor)@.allocated_realms + (given.1
                        - next)) as u64,
                    ..old(supervisor)@
                })
            }),
    {
        let key = realm_key(entry, service);
        match self.get(&key) {
            Some(realm) => realm,
            None => {
                let realm = supervisor.allocate_realm();
                self.insert(key, realm);
                realm
            },
        }
    }
}

/// Whether services are in order, none twice.
pub open spec fn in_service_order(services: Seq<ServiceModel>) -> bool {
    forall|i: int, j: int|
        0 <= i < j < services.len() ==> service_less(#[trigger] services[i], #[trigger] services[j])
}

/// A component injects or provides a service.
pub open spec fn declares(
    injects: Seq<InjectModel>,
    provides: Seq<ServiceModel>,
    service: ServiceModel,
) -> bool {
    (exists|k: int| 0 <= k < injects.len() && (#[trigger] injects[k]).service == service) || (
    exists|k: int| 0 <= k < provides.len() && #[trigger] provides[k] == service)
}

fn add_once(list: &mut Vec<ServiceId>, service: &ServiceId)
    requires
        in_service_order(views(old(list)@)),
    ensures
        in_service_order(views(final(list)@)),
        forall|s: ServiceModel| #[trigger]
            views(final(list)@).contains(s) <==> views(old(list)@).contains(s) || s == service@,
{
    let ghost before = views(list@);
    let ghost added = service@;
    let mut i: usize = 0;
    while i < list.len() && list[i].before(service)
        invariant
            before == views(list@),
            list@ == old(list)@,
            in_service_order(before),
            i <= list.len(),
            forall|k: int| 0 <= k < i ==> service_less(#[trigger] before[k], service@),
        decreases list.len() - i,
    {
        proof {
            assert(before[i as int] == list@[i as int]@);
        }
        i = i + 1;
    }
    if i < list.len() && list[i].same(service) {
        proof {
            assert(before[i as int] == service@);
        }
        return;
    }
    list.insert(i, service.duplicate());
    proof {
        let after = views(list@);
        assert(after =~= before.insert(i as int, added));
        assert forall|k: int| i <= k < before.len() implies service_less(
            added,
            #[trigger] before[k],
        ) by {
            services_are_ordered(added, before[i as int], before[k]);
            if k > i {
                assert(service_less(before[i as int], before[k]));
            }
        }
        assert forall|a: int, b: int| 0 <= a < b < after.len() implies service_less(
            #[trigger] after[a],
            #[trigger] after[b],
        ) by {
            if b < i {
                assert(after[a] == before[a] && after[b] == before[b]);
            } else if b == i {
                assert(after[a] == before[a]);
            } else if a < i {
                assert(after[a] == before[a] && after[b] == before[b - 1]);
            } else if a == i {
                assert(after[b] == before[b - 1]);
            } else {
                assert(after[a] == before[a - 1] && after[b] == before[b - 1]);
            }
        }
        assert forall|s: ServiceModel| #[trigger] after.contains(s) <==> before.contains(s) || s
            == added by {
            if after.contains(s) {
                let k = choose|k: int| 0 <= k < after.len() && after[k] == s;
                if k < i {
                    assert(before[k] == s);
                } else if k > i {
                    assert(before[k - 1] == s);
                }
            }
            if before.contains(s) {
                let k = choose|k: int| 0 <= k < before.len() && before[k] == s;
                if k < i {
                    assert(after[k] == s);
                } else {
                    assert(after[k + 1] == s);
                }
            }
            assert(after[i as int] == added);
        }
    }
}

/// Every service a component injects or provides, in order.
pub fn entry_services(descriptor: &DynamicComponentDescriptor) -> (r: Vec<ServiceId>)
    ensures
        in_service_order(views(r@)),
        forall|service: ServiceModel| #[trigger]
            views(r@).contains(service) <==> declares(
                views(descriptor.injects@),
                views(descriptor.provides@),
                service,
            ),
{
    let mut out: Vec<ServiceId> = Vec::new();
    let mut i: usize = 0;
    let ghost injects = views(descriptor.injects@);
    let ghost provides = views(descriptor.provides@);
    while i < descriptor.injects.len()
        invariant
            injects == views(descriptor.injects@),
            i <= descriptor.injects.len(),
            in_service_order(views(out@)),
            forall|service: ServiceModel| #[trigger]
                views(out@).contains(service) <==> exists|k: int|
                    0 <= k < i && (#[trigger] injects[k]).service == service,
        decreases descriptor.injects.len() - i,
    {
        let ghost before = views(out@);
        let service = &descriptor.injects[i].service;
        proof {
            assert(injects[i as int].service == service@);
        }
        add_once(&mut out, service);
        proof {
            assert forall|s: ServiceModel| #[trigger] views(out@).contains(s) <==> exists|k: int|
                0 <= k < i + 1 && (#[trigger] injects[k]).service == s by {
                if before.contains(s) {
                    let k = choose|k: int| 0 <= k < i && (#[trigger] injects[k]).service == s;
                    assert(injects[k].service == s);
                }
            }
        }
        i = i + 1;
    }
    let ghost injected = views(out@);
    let mut j: usize = 0;
    while j < descriptor.provides.len()
        invariant
            provides == views(descriptor.provides@),
            j <= descriptor.provides.len(),
            in_service_order(views(out@)),
            forall|service: ServiceModel| #[trigger]
                views(out@).contains(service) <==> injected.contains(service) || exists|k: int|
                    0 <= k < j && #[trigger] provides[k] == service,
        decreases descriptor.provides.len() - j,
    {
        let ghost before = views(out@);
        let service = &descriptor.provides[j];
        proof {
            assert(provides[j as int] == service@);
        }
        add_once(&mut out, service);
        proof {
            assert forall|s: ServiceModel| #[trigger] views(out@).contains(s) <==> injected.contains(
                s,
            ) || exists|k: int| 0 <= k < j + 1 && #[trigger] provides[k] == s by {
                if before.contains(s) && !injected.contains(s) {
                    let k = choose|k: int| 0 <= k < j && #[trigger] provides[k] == s;
                    assert(provides[k] == s);
                }
            }
        }
        j = j + 1;
    }
    out
}

/// The context of an entry after the first `n` services have been placed.
pub open spec fn placed(
    base: ContextModel,
    services: Seq<ServiceModel>,
    realms: Seq<RealmId>,
    intercept: Map<Seq<char>, JsonModel>,
    n: nat,
) -> ContextModel
    decreases n,
{
    if n == 0 {
        base
    } else {
        let before = placed(base, services, realms, intercept, (n - 1) as nat);
        let service = services[n - 1];
        ContextModel {
            fiber: before.fiber,
            realms: before.realms.push((service, realms[n - 1])),
            intercepts: if intercept.dom().contains(service.name) {
                before.intercepts.push((service, intercept[service.name]))
            } else {
                before.intercepts
            },
        }
    }
}

/// What decides the realm of each service.
pub open spec fn realm_keys(
    realms: Map<Seq<char>, RealmModel>,
    services: Seq<ServiceModel>,
) -> Seq<RealmKeyModel> {
    Seq::new(services.len(), |i: int| realm_key_of(realms, services[i]))
}

/// The realms of keys in a table.
pub open spec fn realms_in(
    table: Map<RealmKeyModel, RealmId>,
    keys: Seq<RealmKeyModel>,
) -> Seq<RealmId> {
    Seq::new(keys.len(), |i: int| table[keys[i]])
}

/// The context an entry's component is mounted with: a realm for each of its services, and the
/// entry's intercept layers for those that have one.
pub fn entry_context(
    base: &Context,
    entry: &ResolvedEntry,
    services: &Vec<ServiceId>,
    table: &mut RealmTable,
    supervisor: &mut SupervisorState,
) -> (r: Context)
    requires
        old(table).wf(),
        old(supervisor).wf(),
        entry.wf(),
        old(supervisor)@.next_realm + services@.len() < u64::MAX,
        old(supervisor)@.allocated_realms + services@.len() < u64::MAX,
    ensures
        final(table).wf(),
        final(supervisor).wf(),
        ({
            let keys = realm_keys(entry@.realms, views(services@));
            let next = old(supervisor)@.next_realm;
            let given = realms_given(old(table).realms(), next, keys, keys.len());
            &&& final(table).realms() == given.0
            &&& final(supervisor)@ == (SupervisorModel {
                next_realm: given.1,
                allocated_realms: (old(supervisor)@.allocated_realms + (given.1 - next)) as u64,
                ..old(supervisor)@
            })
            &&& r@ == placed(
                base@,
                views(services@),
                realms_in(given.0, keys),
                entry@.intercept,
                services@.len(),
            )
        }),
{
    let ghost keys = realm_keys(entry@.realms, views(services@));
    let ghost start = table.realms();
    let ghost first = supervisor@;
    let ghost next = first.next_realm;
    let mut realms: Vec<RealmId> = Vec::new();
    let mut i: usize = 0;
    proof {
        assert(keys.len() == services@.len());
    }
    while i < services.len()
        invariant
            table.wf(),
            supervisor.wf(),
            entry.wf(),
            keys == realm_keys(entry@.realms, views(services@)),
            keys.len() == services@.len(),
            next == first.next_realm,
            first.next_realm + services@.len() < u64::MAX,
            first.allocated_realms + services@.len() < u64::MAX,
            i <= services.len(),
            realms@.len() == i,
            table.realms() == realms_given(start, next, keys, i as nat).0,
            next <= realms_given(start, next, keys, i as nat).1 <= next + i,
            supervisor@ == (SupervisorModel {
                next_realm: realms_given(start, next, keys, i as nat).1,
                allocated_realms: (first.allocated_realms + (realms_given(
                    start,
                    next,
                    keys,
                    i as nat,
                ).1 - next)) as u64,
                ..first
            }),
            forall|k: int|
                0 <= k < i ==> table.realms().dom().contains(#[trigger] keys[k]) && realms@[k]
                    == table.realms()[keys[k]],
        decreases services.len() - i,
    {
        let ghost before = table.realms();
        let realm = table.realm_for(supervisor, entry, &services[i]);
        proof {
            assert(keys[i as int] == realm_key_of(entry@.realms, services@[i as int]@));
            assert forall|k: int| 0 <= k < i implies table.realms().dom().contains(
                #[trigger] keys[k],
            ) && table.realms()[keys[k]] == before[keys[k]] by {}
        }
        realms.push(realm);
        i = i + 1;
    }
    proof {
        assert(realms@ =~= realms_in(table.realms(), keys));
    }
    place(base, entry, services, &realms)
}

fn place(
    base: &Context,
    entry: &ResolvedEntry,
    services: &Vec<ServiceId>,
    realms: &Vec<RealmId>,
) -> (r: Context)
    requires
        entry.wf(),
        services@.len() == realms@.len(),
    ensures
        r@ == placed(
            base@,
            views(services@),
            realms@,
            entry@.intercept,
            services@.len(),
        ),
{
    let mut context = base.duplicate();
    let mut i: usize = 0;
    while i < services.len()
        invariant
            entry.wf(),
            services@.len() == realms@.len(),
            i <= services.len(),
            context@ == placed(base@, views(services@), realms@, entry@.intercept, i as nat),
        decreases services.len() - i,
    {
        let service = &services[i];
        context = context.isolate(service.duplicate(), realms[i]);
        if let Some(value) = entry.intercept.get(service.name()) {
            context = context.intercept(service.duplicate(), value.duplicate());
        }
        i = i + 1;
    }
    context
}

proof fn placed_realm(
    base: ContextModel,
    services: Seq<ServiceModel>,
    realms: Seq<RealmId>,
    intercept: Map<Seq<char>, JsonModel>,
    n: nat,
    i: int,
)
    requires
        services.no_duplicates(),
        services.len() == realms.len(),
        0 <= i < n <= services.len(),
    ensures
        realm_of(placed(base, services, realms, intercept, n).realms, services[i]) == Some(
            realms[i],
        ),
    decreases n,
{
    let before = placed(base, services, realms, intercept, (n - 1) as nat);
    let after = placed(base, services, realms, intercept, n);
    assert(after.realms.last() == (services[n - 1], realms[n - 1]));
    if i < n - 1 {
        placed_realm(base, services, realms, intercept, (n - 1) as nat, i);
        assert(services[n - 1] != services[i]);
        assert(after.realms.drop_last() =~= before.realms);
    }
}

/// In an entry's context every one of its services resolves to the realm of what decides it:
/// entries that share a label share the realm, and all others are apart.
pub proof fn services_resolve_to_their_realms(
    base: ContextModel,
    services: Seq<ServiceModel>,
    rules: Map<Seq<char>, RealmModel>,
    intercept: Map<Seq<char>, JsonModel>,
    table: Map<RealmKeyModel, RealmId>,
    next: u64,
    i: int,
)
    requires
        in_service_order(services),
        realms_apart(table, next),
        next + services.len() <= u64::MAX,
        0 <= i < services.len(),
    ensures
        ({
            let keys = realm_keys(rules, services);
            let given = realms_given(table, next, keys, keys.len());
            let context = placed(
                base,
                services,
                realms_in(given.0, keys),
                intercept,
                services.len(),
            );
            &&& realm_of(context.realms, services[i]) == Some(given.0[keys[i]])
            &&& table.dom().contains(keys[i]) ==> given.0[keys[i]] == table[keys[i]]
            &&& forall|k: RealmKeyModel| #[trigger]
                given.0.dom().contains(k) && k != keys[i] ==> given.0[k] != given.0[keys[i]]
        }),
{
    let keys = realm_keys(rules, services);
    assert(keys.len() == services.len());
    let given = realms_given(table, next, keys, keys.len());
    realms_stay_apart(table, next, keys, keys.len());
    let realms = realms_in(given.0, keys);
    assert(realms.len() == services.len());
    assert(services.no_duplicates()) by {
        assert forall|a: int, b: int|
            0 <= a < services.len() && 0 <= b < services.len() && a != b implies services[a]
            != services[b] by {
            services_are_ordered(services[a], services[b], services[a]);
            if a < b {
                assert(service_less(services[a], services[b]));
            } else {
                assert(service_less(services[b], services[a]));
            }
        }
    }
    placed_realm(base, services, realms, intercept, services.len(), i);
    assert(realms[i] == given.0[keys[i]]);
    assert(given.0.dom().contains(keys[i]));
}

/// What a dry run found.
#[derive(Debug, PartialEq, Eq)]
pub struct CheckReport {
    pub entries: usize,
    pub components: TextSet,
}

impl CheckReport {
    pub open spec fn wf(&self) -> bool {
        self.components.wf()
    }

    pub fn new() -> (r: CheckReport)
        ensures
            r.wf(),
            r.entries == 0,
            r.components@ == Set::<Seq<char>>::empty(),
    {
        CheckReport { entries: 0, components: TextSet::new() }
    }

    /// Counts one checked entry and its component.
    pub fn record(&mut self, component: String)
        requires
            old(self).wf(),
            old(self).entries < usize::MAX,
        ensures
            final(self).wf(),
            final(self).entries == old(self).entries + 1,
            final(self).components@ == old(self).components@.insert(component@),
    {
        self.entries = self.entries + 1;
        let _ = self.components.insert(component);
    }

    /// The line that sums the report up.
    pub fn summary(&self) -> (r: String)
        requires
            self.wf(),
        ensures
            r@ == "ok: "@ + decimal(self.entries as nat) + " entries, "@ + decimal(
                self.components@.len(),
            ) + " components"@,
    {
        let mut out = "ok: ".to_owned();
        push_decimal(&mut out, self.entries as u64);
        out.append(" entries, ");
        push_decimal(&mut out, self.components.len() as u64);
        out.append(" components");
        out
    }
}

/// What starting an entry does next.
#[derive(Debug, PartialEq, Eq)]
pub enum StartStep {
    /// Find or compile the component.
    Resolve,
    /// Check the configuration and build the context.
    Prepare { watched: bool },
    /// Mount the component and enter it in the tables.
    Mount { watched: bool },
    /// Look at the state of its fiber.
    Inspect,
    /// Wait until the fiber is active.
    Await,
    /// Stop watching the artifact.
    Unwatch(LoaderError),
    /// Take the entry out of the tables.
    Release(LoaderError),
    /// Retire the fiber.
    Retire(LoaderError),
    Done(Result<(), LoaderError>),
}

/// The content of a step.
pub enum StartStepModel {
    Resolve,
    Prepare { watched: bool },
    Mount { watched: bool },
    Inspect,
    Await,
    Unwatch(LoaderErrorModel),
    Release(LoaderErrorModel),
    Retire(LoaderErrorModel),
    Done(Result<(), LoaderErrorModel>),
}

impl View for StartStep {
    type V = StartStepModel;

    open spec fn view(&self) -> StartStepModel {
        match self {
            StartStep::Resolve => StartStepModel::Resolve,
            StartStep::Prepare { watched } => StartStepModel::Prepare { watched: *watched },
            StartStep::Mount { watched } => StartStepModel::Mount { watched: *watched },
            StartStep::Inspect => StartStepModel::Inspect,
            StartStep::Await => StartStepModel::Await,
            StartStep::Unwatch(error) => StartStepModel::Unwatch(error@),
            StartStep::Release(error) => StartStepModel::Release(error@),
            StartStep::Retire(error) => StartStepModel::Retire(error@),
            StartStep::Done(result) => StartStepModel::Done(outcome_model(*result)),
        }
    }
}

/// What a step of a start found out.
#[derive(Clone, Copy, Debug, PartialEq, Eq)]
pub enum StartFact {
    /// Nothing but that it succeeded.
    Nothing,
    /// The component comes from an artifact that is watched.
    Watched,
    /// The state of the fiber.
    State(Option<FiberState>),
}

/// The content of an outcome.
pub open spec fn fact_model(outcome: Result<StartFact, LoaderError>) -> Result<
    StartFact,
    LoaderErrorModel,
> {
    match outcome {
        Ok(fact) => Ok(fact),
        Err(error) => Err(error@),
    }
}

/// How a start ends that fails before anything is mounted.
pub open spec fn unwatching(watched: bool, error: LoaderErrorModel) -> StartStepModel {
    if watched {
        StartStepModel::Unwatch(error)
    } else {
        StartStepModel::Done(Err(error))
    }
}

/// The step after one with its outcome.
pub open spec fn after_start_step(
    step: StartStepModel,
    outcome: Result<StartFact, LoaderErrorModel>,
) -> StartStepModel {
    match (step, outcome) {
        (StartStepModel::Resolve, Ok(fact)) => StartStepModel::Prepare {
            watched: fact is Watched,
        },
        (StartStepModel::Resolve, Err(error)) => StartStepModel::Done(Err(error)),
        (StartStepModel::Prepare { watched }, Ok(_)) => StartStepModel::Mount { watched },
        (StartStepModel::Prepare { watched }, Err(error)) => unwatching(watched, error),
        (StartStepModel::Mount { .. }, Ok(_)) => StartStepModel::Inspect,
        (StartStepModel::Mount { watched }, Err(error)) => unwatching(watched, error),
        (StartStepModel::Inspect, Ok(fact)) => if fact == StartFact::State(
            Some(FiberState::Loading),
        ) || fact == StartFact::State(Some(FiberState::Failed)) {
            StartStepModel::Await
        } else {
            StartStepModel::Done(Ok(()))
        },
        (StartStepModel::Await, Ok(_)) => StartStepModel::Done(Ok(())),
        (StartStepModel::Inspect, Err(error)) => StartStepModel::Release(error),
        (StartStepModel::Await, Err(error)) => StartStepModel::Release(error),
        (StartStepModel::Release(error), _) => StartStepModel::Retire(error),
        (StartStepModel::Retire(error), _) => StartStepModel::Done(Err(error)),
        (StartStepModel::Unwatch(error), _) => StartStepModel::Done(Err(error)),
        (StartStepModel::Done(result), _) => StartStepModel::Done(result),
    }
}

fn unwatch(watched: bool, error: LoaderError) -> (r: StartStep)
    ensures
        r@ == unwatching(watched, error@),
{
    if watched {
        StartStep::Unwatch(error)
    } else {
        StartStep::Done(Err(error))
    }
}

impl StartStep {
    /// The step that follows this one with its outcome.
    pub fn after(self, outcome: Result<StartFact, LoaderError>) -> (r: StartStep)
        ensures
            r@ == after_start_step(self@, fact_model(outcome)),
    {
        match self {
            StartStep::Resolve => match outcome {
                Ok(StartFact::Watched) => StartStep::Prepare { watched: true },
                Ok(_) => StartStep::Prepare { watched: false },
                Err(error) => StartStep::Done(Err(error)),
            },
            StartStep::Prepare { watched } => match outcome {
                Ok(_) => StartStep::Mount { watched },
                Err(error) => unwatch(watched, error),
            },
            StartStep::Mount { watched } => match outcome {
                Ok(_) => StartStep::Inspect,
                Err(error) => unwatch(watched, error),
            },
            StartStep::Inspect => match outcome {
                Ok(StartFact::State(state)) => if awaits_activation(state) {
                    StartStep::Await
                } else {
                    StartStep::Done(Ok(()))
                },
                Ok(_) => StartStep::Done(Ok(())),
                Err(error) => StartStep::Release(error),
            },
            StartStep::Await => match outcome {
                Ok(_) => StartStep::Done(Ok(())),
                Err(error) => StartStep::Release(error),
            },
            StartStep::Unwatch(error) => StartStep::Done(Err(error)),
            StartStep::Release(error) => StartStep::Retire(error),
            StartStep::Retire(error) => StartStep::Done(Err(error)),
            StartStep::Done(result) => StartStep::Done(result),
        }
    }
}

/// What a start has left behind.
pub struct Leftovers {
    pub watched: bool,
    pub mounted: bool,
    pub fiber: bool,
}

/// What is there after a step was tried: a component may be watched once it is resolved, and is
/// in the tables and on a fiber once it is mounted. Taking an entry out of the tables also stops
/// watching it, and cleanup does its work whatever it reports.
pub open spec fn left_after(
    left: Leftovers,
    step: StartStepModel,
    outcome: Result<StartFact, LoaderErrorModel>,
) -> Leftovers {
    match (step, outcome) {
        (StartStepModel::Resolve, Ok(fact)) => Leftovers { watched: fact is Watched, ..left },
        (StartStepModel::Mount { .. }, Ok(_)) => Leftovers { mounted: true, fiber: true, ..left },
        (StartStepModel::Unwatch(_), _) => Leftovers { watched: false, ..left },
        (StartStepModel::Release(_), _) => Leftovers { watched: false, mounted: false, ..left },
        (StartStepModel::Retire(_), _) => Leftovers { fiber: false, ..left },
        _ => left,
    }
}

/// The step after the outcomes, one after another, and what is there by then.
pub open spec fn start_after(outcomes: Seq<Result<StartFact, LoaderErrorModel>>) -> (
    StartStepModel,
    Leftovers,
)
    decreases outcomes.len(),
{
    if outcomes.len() == 0 {
        (StartStepModel::Resolve, Leftovers { watched: false, mounted: false, fiber: false })
    } else {
        let (step, left) = start_after(outcomes.drop_last());
        (
            after_start_step(step, outcomes.last()),
            left_after(left, step, outcomes.last()),
        )
    }
}

/// What is there when a step's turn comes.
pub open spec fn left_at(step: StartStepModel, left: Leftovers) -> bool {
    match step {
        StartStepModel::Resolve => !left.watched && !left.mounted && !left.fiber,
        StartStepModel::Prepare { watched } => left.watched == watched && !left.mounted
            && !left.fiber,
        StartStepModel::Mount { watched } => left.watched == watched && !left.mounted
            && !left.fiber,
        StartStepModel::Inspect => left.mounted && left.fiber,
        StartStepModel::Await => left.mounted && left.fiber,
        StartStepModel::Unwatch(_) => left.watched && !left.mounted && !left.fiber,
        StartStepModel::Release(_) => left.mounted && left.fiber,
        StartStepModel::Retire(_) => !left.watched && !left.mounted && left.fiber,
        StartStepModel::Done(Ok(_)) => left.mounted && left.fiber,
        StartStepModel::Done(Err(_)) => !left.watched && !left.mounted && !left.fiber,
    }
}

/// Whichever step of a start fails, once the start is over a failed one has left nothing
/// watched, mounted or running, and a successful one is mounted on its fiber.
pub proof fn failed_starts_leave_nothing(outcomes: Seq<Result<StartFact, LoaderErrorModel>>)
    ensures
        left_at(start_after(outcomes).0, start_after(outcomes).1),
    decreases outcomes.len(),
{
    if outcomes.len() > 0 {
        failed_starts_leave_nothing(outcomes.drop_last());
    }
}

} // verus!
