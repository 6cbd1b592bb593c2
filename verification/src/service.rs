//! Service identities, provider slots and dependency resolutions.
use crate::error::CordisError;
use crate::id::{FiberId, RealmId};
use crate::order::{text_less_irreflexive, text_less_total, text_less_transitive};
use crate::text::{
    decimal, hex_byte, push_decimal, push_hex, same_bytes, text_before, text_less, views,
};
use vstd::prelude::*;

verus! {

/// What identifies a service: its name and its interface fingerprint.
pub struct ServiceModel {
    pub name: Seq<char>,
    pub abi_hash: Seq<u8>,
}

/// A named service with one specific interface.
#[derive(Clone, Debug, PartialEq, Eq, PartialOrd, Ord, Hash)]
pub struct ServiceId {
    pub name: String,
    pub abi_hash: [u8; 32],
}

impl View for ServiceId {
    type V = ServiceModel;

    open spec fn view(&self) -> ServiceModel {
        ServiceModel { name: self.name@, abi_hash: self.abi_hash@ }
    }
}

/// `name@` followed by the first four fingerprint bytes.
pub open spec fn service_text(s: ServiceModel) -> Seq<char> {
    s.name + "@"@ + hex_byte(s.abi_hash[0]) + hex_byte(s.abi_hash[1]) + hex_byte(s.abi_hash[2])
        + hex_byte(s.abi_hash[3])
}

/// Copies a fingerprint.
pub fn copy_hash(hash: &[u8; 32]) -> (r: [u8; 32])
    ensures
        r == *hash,
{
    *hash
}

impl ServiceId {
    pub fn new(name: String, abi_hash: [u8; 32]) -> (r: ServiceId)
        ensures
            r@ == (ServiceModel { name: name@, abi_hash: abi_hash@ }),
    {
        ServiceId { name, abi_hash }
    }

    pub fn name(&self) -> (r: &str)
        ensures
            r@ == self@.name,
    {
        self.name.as_str()
    }

    pub fn abi_hash(&self) -> (r: &[u8; 32])
        ensures
            r@ == self@.abi_hash,
    {
        &self.abi_hash
    }

    /// Whether both sides name the same service with the same interface.
    pub fn same(&self, other: &ServiceId) -> (r: bool)
        ensures
            r == (self@ == other@),
    {
        self.name == other.name && same_bytes(self.abi_hash.as_slice(), other.abi_hash.as_slice())
    }

    pub fn duplicate(&self) -> (r: ServiceId)
        ensures
            r@ == self@,
    {
        ServiceId { name: self.name.clone(), abi_hash: copy_hash(&self.abi_hash) }
    }

    pub fn text(&self) -> (r: String)
        ensures
            r@ == service_text(self@),
    {
        let mut out = self.name.clone();
        out.append("@");
        push_hex(&mut out, self.abi_hash[0]);
        push_hex(&mut out, self.abi_hash[1]);
        push_hex(&mut out, self.abi_hash[2]);
        push_hex(&mut out, self.abi_hash[3]);
        out
    }
}

/// Lexicographic order of two byte sequences.
pub open spec fn bytes_less(a: Seq<u8>, b: Seq<u8>) -> bool
    decreases a.len(),
{
    if b.len() == 0 {
        false
    } else if a.len() == 0 {
        true
    } else if a[0] != b[0] {
        a[0] < b[0]
    } else {
        bytes_less(a.drop_first(), b.drop_first())
    }
}

proof fn bytes_less_irreflexive(a: Seq<u8>)
    ensures
        !bytes_less(a, a),
    decreases a.len(),
{
    if a.len() > 0 {
        bytes_less_irreflexive(a.drop_first());
    }
}

proof fn bytes_less_transitive(a: Seq<u8>, b: Seq<u8>, c: Seq<u8>)
    requires
        bytes_less(a, b),
        bytes_less(b, c),
    ensures
        bytes_less(a, c),
    decreases a.len(),
{
    if a.len() > 0 && a[0] == b[0] && b[0] == c[0] {
        bytes_less_transitive(a.drop_first(), b.drop_first(), c.drop_first());
    }
}

proof fn bytes_less_total(a: Seq<u8>, b: Seq<u8>)
    ensures
        a == b || bytes_less(a, b) || bytes_less(b, a),
    decreases a.len(),
{
    if a.len() > 0 && b.len() > 0 && a[0] == b[0] {
        bytes_less_total(a.drop_first(), b.drop_first());
        if a.drop_first() == b.drop_first() {
            assert(a =~= seq![a[0]] + a.drop_first());
            assert(b =~= seq![b[0]] + b.drop_first());
        }
    } else if a.len() == 0 && b.len() == 0 {
        assert(a =~= b);
    }
}

fn bytes_before(a: &[u8], b: &[u8]) -> (r: bool)
    ensures
        r == bytes_less(a@, b@),
{
    let mut i: usize = 0;
    proof {
        assert(a@.skip(0) =~= a@);
        assert(b@.skip(0) =~= b@);
    }
    while i < a.len() && i < b.len() && a[i] == b[i]
        invariant
            i <= a.len(),
            i <= b.len(),
            bytes_less(a@, b@) == bytes_less(a@.skip(i as int), b@.skip(i as int)),
        decreases a.len() - i,
    {
        proof {
            assert(a@.skip(i as int).drop_first() =~= a@.skip(i + 1));
            assert(b@.skip(i as int).drop_first() =~= b@.skip(i + 1));
        }
        i = i + 1;
    }
    if i >= b.len() {
        false
    } else if i >= a.len() {
        true
    } else {
        a[i] < b[i]
    }
}

/// Services are ordered by name, and by interface within a name.
pub open spec fn service_less(a: ServiceModel, b: ServiceModel) -> bool {
    text_less(a.name, b.name) || (a.name == b.name && bytes_less(a.abi_hash, b.abi_hash))
}

/// The order of services is strict and total.
pub proof fn services_are_ordered(a: ServiceModel, b: ServiceModel, c: ServiceModel)
    ensures
        !service_less(a, a),
        service_less(a, b) && service_less(b, c) ==> service_less(a, c),
        a == b || service_less(a, b) || service_less(b, a),
        !(service_less(a, b) && service_less(b, a)),
{
    text_less_irreflexive(a.name);
    bytes_less_irreflexive(a.abi_hash);
    text_less_total(a.name, b.name);
    bytes_less_total(a.abi_hash, b.abi_hash);
    if text_less(a.name, b.name) && text_less(b.name, c.name) {
        text_less_transitive(a.name, b.name, c.name);
    }
    if bytes_less(a.abi_hash, b.abi_hash) && bytes_less(b.abi_hash, c.abi_hash) {
        bytes_less_transitive(a.abi_hash, b.abi_hash, c.abi_hash);
    }
    if text_less(a.name, b.name) && text_less(b.name, a.name) {
        text_less_transitive(a.name, b.name, a.name);
    }
    if bytes_less(a.abi_hash, b.abi_hash) && bytes_less(b.abi_hash, a.abi_hash) {
        bytes_less_transitive(a.abi_hash, b.abi_hash, a.abi_hash);
    }
}

impl ServiceId {
    /// Whether this service sorts before another.
    pub fn before(&self, other: &ServiceId) -> (r: bool)
        ensures
            r == service_less(self@, other@),
    {
        text_before(self.name.as_str(), other.name.as_str()) || (self.name == other.name
            && bytes_before(self.abi_hash.as_slice(), other.abi_hash.as_slice()))
    }
}

/// What identifies a provider slot.
pub struct ProviderKeyModel {
    pub service: ServiceModel,
    pub realm: RealmId,
}

/// One provider slot: a service within a realm.
#[derive(Clone, Debug, PartialEq, Eq, PartialOrd, Ord, Hash)]
pub struct ProviderKey {
    pub service: ServiceId,
    pub realm: RealmId,
}

impl View for ProviderKey {
    type V = ProviderKeyModel;

    open spec fn view(&self) -> ProviderKeyModel {
        ProviderKeyModel { service: self.service@, realm: self.realm }
    }
}

/// The service text, `#` and the realm number.
pub open spec fn provider_key_text(k: ProviderKeyModel) -> Seq<char> {
    service_text(k.service) + "#"@ + decimal(k.realm.0 as nat)
}

impl ProviderKey {
    pub fn new(service: ServiceId, realm: RealmId) -> (r: ProviderKey)
        ensures
            r@ == (ProviderKeyModel { service: service@, realm }),
    {
        ProviderKey { service, realm }
    }

    pub fn same(&self, other: &ProviderKey) -> (r: bool)
        ensures
            r == (self@ == other@),
    {
        self.realm.0 == other.realm.0 && self.service.same(&other.service)
    }

    pub fn duplicate(&self) -> (r: ProviderKey)
        ensures
            r@ == self@,
    {
        ProviderKey { service: self.service.duplicate(), realm: self.realm }
    }

    pub fn text(&self) -> (r: String)
        ensures
            r@ == provider_key_text(self@),
    {
        let mut out = self.service.text();
        out.append("#");
        push_decimal(&mut out, self.realm.0);
        out
    }
}

/// Whether a dependency must be present before its consumer loads.
#[derive(Clone, Copy, Debug, PartialEq, Eq, Structural)]
pub enum Requirement {
    Required,
    Optional,
}

/// A declared dependency.
pub struct InjectModel {
    pub service: ServiceModel,
    pub requirement: Requirement,
}

/// One dependency declared by a fiber.
#[derive(Clone, Debug, PartialEq, Eq)]
pub struct InjectSpec {
    pub service: ServiceId,
    pub requirement: Requirement,
}

impl View for InjectSpec {
    type V = InjectModel;

    open spec fn view(&self) -> InjectModel {
        InjectModel { service: self.service@, requirement: self.requirement }
    }
}

impl InjectSpec {
    pub fn required(service: ServiceId) -> (r: InjectSpec)
        ensures
            r@ == (InjectModel { service: service@, requirement: Requirement::Required }),
    {
        InjectSpec { service, requirement: Requirement::Required }
    }

    pub fn optional(service: ServiceId) -> (r: InjectSpec)
        ensures
            r@ == (InjectModel { service: service@, requirement: Requirement::Optional }),
    {
        InjectSpec { service, requirement: Requirement::Optional }
    }

    pub fn duplicate(&self) -> (r: InjectSpec)
        ensures
            r@ == self@,
    {
        InjectSpec { service: self.service.duplicate(), requirement: self.requirement }
    }
}

/// One declared dependency together with the provider currently selected for it.
pub struct ResolvedModel {
    pub key: ProviderKeyModel,
    pub provider: Option<FiberId>,
    pub requirement: Requirement,
}

/// A dependency resolved to a slot and, when one exists, its provider.
#[derive(Clone, Debug, PartialEq, Eq)]
pub struct ResolvedInject {
    pub key: ProviderKey,
    pub provider: Option<FiberId>,
    pub requirement: Requirement,
}

impl View for ResolvedInject {
    type V = ResolvedModel;

    open spec fn view(&self) -> ResolvedModel {
        ResolvedModel {
            key: self.key@,
            provider: self.provider,
            requirement: self.requirement,
        }
    }
}

/// Compares two optional fiber identifiers.
pub fn same_fiber(a: Option<FiberId>, b: Option<FiberId>) -> (r: bool)
    ensures
        r == (a == b),
{
    match (a, b) {
        (Some(x), Some(y)) => x.0 == y.0,
        (None, None) => true,
        _ => false,
    }
}

impl ResolvedInject {
    pub fn same(&self, other: &ResolvedInject) -> (r: bool)
        ensures
            r == (self@ == other@),
    {
        self.key.same(&other.key) && same_fiber(self.provider, other.provider) && self.requirement
            == other.requirement
    }

    pub fn duplicate(&self) -> (r: ResolvedInject)
        ensures
            r@ == self@,
    {
        ResolvedInject {
            key: self.key.duplicate(),
            provider: self.provider,
            requirement: self.requirement,
        }
    }
}

/// A required dependency without a provider keeps its consumer from loading.
pub open spec fn missing(entry: ResolvedModel) -> bool {
    entry.requirement is Required && entry.provider is None
}

/// Every required dependency has a provider.
pub open spec fn ready(entries: Seq<ResolvedModel>) -> bool {
    forall|i: int| 0 <= i < entries.len() ==> !missing(#[trigger] entries[i])
}

/// `i` is the first required dependency without a provider.
pub open spec fn first_missing(entries: Seq<ResolvedModel>, i: int) -> bool {
    &&& 0 <= i < entries.len()
    &&& missing(entries[i])
    &&& forall|j: int| 0 <= j < i ==> !missing(#[trigger] entries[j])
}

/// Copies a list of resolved dependencies.
pub fn duplicate_resolved(entries: &Vec<ResolvedInject>) -> (r: Vec<ResolvedInject>)
    ensures
        views(r@) == views(entries@),
{
    let mut out: Vec<ResolvedInject> = Vec::new();
    let mut i: usize = 0;
    while i < entries.len()
        invariant
            i <= entries.len(),
            out.len() == i,
            forall|j: int| 0 <= j < i ==> (#[trigger] out@[j])@ == entries@[j]@,
        decreases entries.len() - i,
    {
        out.push(entries[i].duplicate());
        i = i + 1;
    }
    proof {
        assert(views(out@) =~= views(entries@));
    }
    out
}

/// The current selection for every declared dependency, in declaration order.
#[derive(Clone, Debug, PartialEq, Eq)]
pub struct DependencyResolution {
    pub entries: Vec<ResolvedInject>,
}

impl View for DependencyResolution {
    type V = Seq<ResolvedModel>;

    open spec fn view(&self) -> Seq<ResolvedModel> {
        views(self.entries@)
    }
}

impl Default for DependencyResolution {
    fn default() -> (r: DependencyResolution)
        ensures
            r@ == Seq::<ResolvedModel>::empty(),
    {
        let r = DependencyResolution { entries: Vec::new() };
        proof {
            assert(r@ =~= Seq::<ResolvedModel>::empty());
        }
        r
    }
}

impl DependencyResolution {
    pub fn new(entries: Vec<ResolvedInject>) -> (r: DependencyResolution)
        ensures
            r@ == views(entries@),
    {
        DependencyResolution { entries }
    }

    pub fn entries(&self) -> (r: &Vec<ResolvedInject>)
        ensures
            views(r@) == self@,
    {
        &self.entries
    }

    /// Whether every required dependency has a provider.
    pub fn is_ready(&self) -> (r: bool)
        ensures
            r == ready(self@),
    {
        let mut i: usize = 0;
        while i < self.entries.len()
            invariant
                i <= self.entries.len(),
                forall|j: int| 0 <= j < i ==> !missing(#[trigger] self@[j]),
            decreases self.entries.len() - i,
        {
            if self.entries[i].requirement == Requirement::Required && self.entries[i].provider.is_none() {
                proof {
                    assert(missing(self@[i as int]));
                }
                return false;
            }
            i = i + 1;
        }
        true
    }

    /// Freezes the selection. Fails on the first required dependency without a provider.
    pub fn commit(&self) -> (r: Result<CommittedView, CordisError>)
        ensures
            r is Ok <==> ready(self@),
            r matches Ok(view) ==> view@ == self@,
            r matches Err(error) ==> exists|i: int| #[trigger]
                first_missing(self@, i) && error@ == (crate::error::ErrorModel::InactiveDependency {
                    key: self@[i].key,
                }),
    {
        let mut i: usize = 0;
        while i < self.entries.len()
            invariant
                i <= self.entries.len(),
                forall|j: int| 0 <= j < i ==> !missing(#[trigger] self@[j]),
            decreases self.entries.len() - i,
        {
            if self.entries[i].requirement == Requirement::Required && self.entries[i].provider.is_none() {
                proof {
                    assert(missing(self@[i as int]));
                    assert(first_missing(self@, i as int));
                }
                return Err(CordisError::InactiveDependency { key: self.entries[i].key.duplicate() });
            }
            i = i + 1;
        }
        Ok(CommittedView { entries: duplicate_resolved(&self.entries) })
    }

    pub fn same(&self, other: &DependencyResolution) -> (r: bool)
        ensures
            r == (self@ == other@),
    {
        if self.entries.len() != other.entries.len() {
            proof {
                assert(self@.len() != other@.len());
            }
            return false;
        }
        let mut i: usize = 0;
        while i < self.entries.len()
            invariant
                i <= self.entries.len(),
                self.entries.len() == other.entries.len(),
                forall|j: int| 0 <= j < i ==> self@[j] == other@[j],
            decreases self.entries.len() - i,
        {
            if !self.entries[i].same(&other.entries[i]) {
                proof {
                    assert(self@[i as int] != other@[i as int]);
                }
                return false;
            }
            i = i + 1;
        }
        proof {
            assert(self@ =~= other@);
        }
        true
    }

    pub fn duplicate(&self) -> (r: DependencyResolution)
        ensures
            r@ == self@,
    {
        DependencyResolution { entries: duplicate_resolved(&self.entries) }
    }
}

/// `i` is the first entry for `service`.
pub open spec fn first_entry(entries: Seq<ResolvedModel>, service: ServiceModel, i: int) -> bool {
    &&& 0 <= i < entries.len()
    &&& entries[i].key.service == service
    &&& forall|j: int| 0 <= j < i ==> (#[trigger] entries[j]).key.service != service
}

/// No entry is for `service`.
pub open spec fn undeclared(entries: Seq<ResolvedModel>, service: ServiceModel) -> bool {
    forall|i: int| 0 <= i < entries.len() ==> (#[trigger] entries[i]).key.service != service
}

/// A frozen selection: the providers a running fiber was loaded against.
#[derive(Clone, Debug, PartialEq, Eq)]
pub struct CommittedView {
    pub entries: Vec<ResolvedInject>,
}

impl View for CommittedView {
    type V = Seq<ResolvedModel>;

    open spec fn view(&self) -> Seq<ResolvedModel> {
        views(self.entries@)
    }
}

impl CommittedView {
    pub fn entries(&self) -> (r: &Vec<ResolvedInject>)
        ensures
            views(r@) == self@,
    {
        &self.entries
    }

    /// The provider committed for `service`; `None` for an absent optional dependency.
    pub fn lookup(&self, service: &ServiceId) -> (r: Result<Option<FiberId>, CordisError>)
        ensures
            r is Err <==> undeclared(self@, service@),
            r matches Ok(provider) ==> exists|i: int| #[trigger]
                first_entry(self@, service@, i) && provider == self@[i].provider,
            r matches Err(error) ==> error@ == (crate::error::ErrorModel::UndeclaredDependency {
                service: service@,
            }),
    {
        let mut i: usize = 0;
        while i < self.entries.len()
            invariant
                i <= self.entries.len(),
                forall|j: int| 0 <= j < i ==> (#[trigger] self@[j]).key.service != service@,
            decreases self.entries.len() - i,
        {
            if self.entries[i].key.service.same(service) {
                proof {
                    assert(first_entry(self@, service@, i as int));
                }
                return Ok(self.entries[i].provider);
            }
            proof {
                assert(self@[i as int].key.service != service@);
            }
            i = i + 1;
        }
        Err(CordisError::UndeclaredDependency { service: service.duplicate() })
    }

    pub fn duplicate(&self) -> (r: CommittedView)
        ensures
            r@ == self@,
    {
        CommittedView { entries: duplicate_resolved(&self.entries) }
    }
}

} // verus!
