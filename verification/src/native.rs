//! Typed service clients, event identities and native dispatchers.
use crate::error::{CordisError, ErrorModel};
use crate::id::FiberId;
use crate::service::{
    copy_hash, first_entry, undeclared, CommittedView, InjectModel, InjectSpec, ResolvedModel,
    ServiceId, ServiceModel,
};
use crate::text::{hex_byte, push_hex, same_bytes, views};
use vstd::prelude::*;

verus! {

/// Static identity of a service declaration.
pub trait ServiceSpec {
    /// The identity.
    spec fn key() -> ServiceModel;

    fn service_id() -> (r: ServiceId)
        ensures
            r@ == Self::key(),
    ;
}

/// Transport boundary shared by generated native clients and WebAssembly routing.
pub trait ServiceDispatcher {
    /// The service it serves.
    spec fn identity(&self) -> ServiceModel;

    fn service_id(&self) -> (r: ServiceId)
        ensures
            r@ == self.identity(),
    ;
}

/// A client whose dispatcher is known to serve its service.
#[derive(Debug)]
pub struct ServiceClient<D> {
    pub service: ServiceId,
    pub dispatcher: D,
}

impl<D: ServiceDispatcher> ServiceClient<D> {
    /// Creates a client after verifying the dispatcher's service name and interface.
    pub fn new<S: ServiceSpec>(dispatcher: D) -> (r: Result<ServiceClient<D>, CordisError>)
        ensures
            match r {
                Ok(client) => dispatcher.identity() == S::key() && client.service@ == S::key()
                    && client.dispatcher == dispatcher,
                Err(error) => dispatcher.identity() != S::key() && error@ == (
                ErrorModel::ServiceIdentityMismatch {
                    expected: S::key(),
                    actual: dispatcher.identity(),
                }),
            },
    {
        let expected = S::service_id();
        let actual = dispatcher.service_id();
        if !actual.same(&expected) {
            return Err(CordisError::ServiceIdentityMismatch { expected, actual });
        }
        Ok(ServiceClient { service: expected, dispatcher })
    }

    pub fn service_id(&self) -> (r: &ServiceId)
        ensures
            r@ == self.service@,
    {
        &self.service
    }
}

/// Separates a service's declared error from failures in the transport.
#[derive(Debug, PartialEq, Eq)]
pub enum ServiceCallError<E> {
    Transport(CordisError),
    Service(E),
}

/// The message of a service's own error.
pub fn service_failure_text(inner: &str) -> (r: String)
    ensures
        r@ == "service call failed: "@ + inner@,
{
    let mut out = "service call failed: ".to_owned();
    out.append(inner);
    out
}

/// The message of a transport error.
pub fn transport_failure_text(inner: &str) -> (r: String)
    ensures
        r@ == "service transport failed: "@ + inner@,
{
    let mut out = "service transport failed: ".to_owned();
    out.append(inner);
    out
}

/// What identifies an event.
pub struct EventIdModel {
    pub name: Seq<char>,
    pub abi_hash: Seq<u8>,
}

/// Stable event identity shared by native and WebAssembly components.
#[derive(Clone, Debug, PartialEq, Eq, PartialOrd, Ord, Hash)]
pub struct EventId {
    pub name: String,
    pub abi_hash: [u8; 32],
}

impl View for EventId {
    type V = EventIdModel;

    open spec fn view(&self) -> EventIdModel {
        EventIdModel { name: self.name@, abi_hash: self.abi_hash@ }
    }
}

/// `name@` followed by the first four fingerprint bytes.
pub open spec fn event_text(e: EventIdModel) -> Seq<char> {
    e.name + "@"@ + hex_byte(e.abi_hash[0]) + hex_byte(e.abi_hash[1]) + hex_byte(e.abi_hash[2])
        + hex_byte(e.abi_hash[3])
}

impl EventId {
    pub fn new(name: String, abi_hash: [u8; 32]) -> (r: EventId)
        ensures
            r@ == (EventIdModel { name: name@, abi_hash: abi_hash@ }),
    {
        EventId { name, abi_hash }
    }

    pub fn name(&self) -> (r: &str)
        ensures
            r@ == self@.name,
    {
        self.name.as_str()
    }

    pub fn abi_hash(&self) -> (r: &[u8; 32])
        ensures
            r@ == self@.abi_hash,
    {
        &self.abi_hash
    }

    pub fn same(&self, other: &EventId) -> (r: bool)
        ensures
            r == (self@ == other@),
    {
        self.name == other.name && same_bytes(self.abi_hash.as_slice(), other.abi_hash.as_slice())
    }

    pub fn duplicate(&self) -> (r: EventId)
        ensures
            r@ == self@,
    {
        EventId { name: self.name.clone(), abi_hash: copy_hash(&self.abi_hash) }
    }

    pub fn text(&self) -> (r: String)
        ensures
            r@ == event_text(self@),
    {
        let mut out = self.name.clone();
        out.append("@");
        push_hex(&mut out, self.abi_hash[0]);
        push_hex(&mut out, self.abi_hash[1]);
        push_hex(&mut out, self.abi_hash[2]);
        push_hex(&mut out, self.abi_hash[3]);
        out
    }
}

/// Dispatch semantics selected by an event declaration.
#[derive(Clone, Copy, Debug, PartialEq, Eq, Hash, Structural)]
pub enum EventMode {
    Emit,
    Parallel,
    Serial,
    Bail,
    Waterfall,
}

/// The dispatch mode of an event declaration: parallel unless it names another one.
pub fn event_mode(name: Option<&str>) -> (r: Option<EventMode>)
    ensures
        r == match name {
            None => Some(EventMode::Parallel),
            Some(text) => mode_named(text@),
        },
{
    match name {
        None => Some(EventMode::Parallel),
        Some(text) => if crate::order::same_text(text, "emit") {
            Some(EventMode::Emit)
        } else if crate::order::same_text(text, "parallel") {
            Some(EventMode::Parallel)
        } else if crate::order::same_text(text, "serial") {
            Some(EventMode::Serial)
        } else if crate::order::same_text(text, "bail") {
            Some(EventMode::Bail)
        } else if crate::order::same_text(text, "waterfall") {
            Some(EventMode::Waterfall)
        } else {
            None
        },
    }
}

/// The dispatch mode with this name.
pub open spec fn mode_named(text: Seq<char>) -> Option<EventMode> {
    if text == "emit"@ {
        Some(EventMode::Emit)
    } else if text == "parallel"@ {
        Some(EventMode::Parallel)
    } else if text == "serial"@ {
        Some(EventMode::Serial)
    } else if text == "bail"@ {
        Some(EventMode::Bail)
    } else if text == "waterfall"@ {
        Some(EventMode::Waterfall)
    } else {
        None
    }
}

/// The dependencies a component or an injected method declares.
pub trait DependencySet {
    /// The declaration.
    spec fn declared() -> Seq<InjectModel>;

    fn injects() -> (r: Vec<InjectSpec>)
        ensures
            views(r@) == Self::declared(),
    ;
}

/// The empty declaration.
#[derive(Clone, Copy, Debug)]
pub struct NoDependencies;

impl DependencySet for NoDependencies {
    open spec fn declared() -> Seq<InjectModel> {
        Seq::empty()
    }

    fn injects() -> (r: Vec<InjectSpec>) {
        let r: Vec<InjectSpec> = Vec::new();
        proof {
            assert(views(r@) =~= Seq::<InjectModel>::empty());
        }
        r
    }
}

/// One registered dispatcher.
#[derive(Debug)]
pub struct DispatcherEntry<D> {
    pub provider: FiberId,
    pub service: ServiceId,
    pub dispatcher: D,
}

/// `i` holds the dispatcher of a provider and service.
pub open spec fn dispatcher_at<D>(
    entries: Seq<DispatcherEntry<D>>,
    key: (FiberId, ServiceModel),
    i: int,
) -> bool {
    0 <= i < entries.len() && entries[i].provider == key.0 && entries[i].service@ == key.1
}

/// No provider and service occur twice.
pub open spec fn dispatchers_unique<D>(entries: Seq<DispatcherEntry<D>>) -> bool {
    forall|i: int, j: int|
        0 <= i < j < entries.len() ==> ((#[trigger] entries[i]).provider != (
        #[trigger] entries[j]).provider || entries[i].service@ != entries[j].service@)
}

/// Dispatchers by provider and service.
pub open spec fn dispatchers_map<D>(entries: Seq<DispatcherEntry<D>>) -> Map<
    (FiberId, ServiceModel),
    D,
> {
    Map::new(
        |key: (FiberId, ServiceModel)| exists|i: int| #[trigger] dispatcher_at(entries, key, i),
        |key: (FiberId, ServiceModel)|
            entries[choose|i: int| #[trigger] dispatcher_at(entries, key, i)].dispatcher,
    )
}

proof fn dispatchers_facts<D>(entries: Seq<DispatcherEntry<D>>)
    requires
        dispatchers_unique(entries),
    ensures
        forall|i: int, key: (FiberId, ServiceModel)| #[trigger]
            dispatcher_at(entries, key, i) ==> dispatchers_map(entries).dom().contains(key)
                && dispatchers_map(entries)[key] == entries[i].dispatcher,
        forall|key: (FiberId, ServiceModel)| #[trigger]
            dispatchers_map(entries).dom().contains(key) ==> exists|i: int| #[trigger]
                dispatcher_at(entries, key, i),
{
    assert forall|i: int, key: (FiberId, ServiceModel)| #[trigger]
        dispatcher_at(entries, key, i) implies dispatchers_map(entries).dom().contains(key)
        && dispatchers_map(entries)[key] == entries[i].dispatcher by {
        let k = choose|k: int| #[trigger] dispatcher_at(entries, key, k);
        if k < i {
            assert(entries[k].provider != entries[i].provider || entries[k].service@
                != entries[i].service@);
        }
        if i < k {
            assert(entries[i].provider != entries[k].provider || entries[i].service@
                != entries[k].service@);
        }
    }
}

/// Native service dispatchers keyed by their provider fiber.
#[derive(Debug)]
pub struct NativeServiceRegistry<D> {
    pub dispatchers: Vec<DispatcherEntry<D>>,
}

impl<D> View for NativeServiceRegistry<D> {
    type V = Map<(FiberId, ServiceModel), D>;

    open spec fn view(&self) -> Map<(FiberId, ServiceModel), D> {
        dispatchers_map(self.dispatchers@)
    }
}

impl<D> NativeServiceRegistry<D> {
    pub open spec fn wf(&self) -> bool {
        dispatchers_unique(self.dispatchers@)
    }

    pub fn new() -> (r: NativeServiceRegistry<D>)
        ensures
            r.wf(),
            r@ == Map::<(FiberId, ServiceModel), D>::empty(),
            r.dispatchers@.len() == 0,
    {
        let r = NativeServiceRegistry { dispatchers: Vec::new() };
        proof {
            assert(r@ =~= Map::<(FiberId, ServiceModel), D>::empty());
        }
        r
    }

    fn find(&self, provider: FiberId, service: &ServiceId) -> (r: Option<usize>)
        requires
            self.wf(),
        ensures
            match r {
                Some(i) => dispatcher_at(self.dispatchers@, (provider, service@), i as int)
                    && self@.dom().contains((provider, service@)) && self@[(provider, service@)]
                    == self.dispatchers@[i as int].dispatcher,
                None => !self@.dom().contains((provider, service@)),
            },
    {
        let ghost key = (provider, service@);
        proof {
            dispatchers_facts(self.dispatchers@);
        }
        let mut i: usize = 0;
        while i < self.dispatchers.len()
            invariant
                self.wf(),
                key == (provider, service@),
                i <= self.dispatchers.len(),
                forall|k: int| 0 <= k < i ==> !#[trigger] dispatcher_at(self.dispatchers@, key, k),
            decreases self.dispatchers.len() - i,
        {
            let entry = &self.dispatchers[i];
            if entry.provider.0 == provider.0 && entry.service.same(service) {
                proof {
                    dispatchers_facts(self.dispatchers@);
                    assert(dispatcher_at(self.dispatchers@, key, i as int));
                }
                return Some(i);
            }
            proof {
                assert(!dispatcher_at(self.dispatchers@, key, i as int));
            }
            i = i + 1;
        }
        proof {
            dispatchers_facts(self.dispatchers@);
        }
        None
    }

    fn drop_at(&mut self, i: usize)
        requires
            old(self).wf(),
            i < old(self).dispatchers.len(),
        ensures
            final(self).wf(),
            final(self)@ == old(self)@.remove(
                (
                    old(self).dispatchers@[i as int].provider,
                    old(self).dispatchers@[i as int].service@,
                ),
            ),
    {
        let ghost before = self.dispatchers@;
        let ghost gone = (before[i as int].provider, before[i as int].service@);
        let _ = self.dispatchers.remove(i);
        proof {
            let after = self.dispatchers@;
            assert forall|a: int, b: int| 0 <= a < b < after.len() implies ((
            #[trigger] after[a]).provider != (#[trigger] after[b]).provider || after[a].service@
                != after[b].service@) by {
                let p = if a < i {
                    a
                } else {
                    a + 1
                };
                let q = if b < i {
                    b
                } else {
                    b + 1
                };
                assert(after[a] == before[p] && after[b] == before[q]);
            }
            dispatchers_facts(before);
            dispatchers_facts(after);
            assert(dispatcher_at(before, gone, i as int));
            assert forall|key: (FiberId, ServiceModel)|
                dispatchers_map(after).dom().contains(key) <==> #[trigger] dispatchers_map(
                    before,
                ).remove(gone).dom().contains(key) by {
                if dispatchers_map(after).dom().contains(key) {
                    let k = choose|k: int| #[trigger] dispatcher_at(after, key, k);
                    let p = if k < i {
                        k
                    } else {
                        k + 1
                    };
                    assert(before[p] == after[k]);
                    assert(dispatcher_at(before, key, p));
                    if p < i {
                        assert(before[p].provider != before[i as int].provider
                            || before[p].service@ != before[i as int].service@);
                    } else {
                        assert(before[i as int].provider != before[p].provider
                            || before[i as int].service@ != before[p].service@);
                    }
                }
                if dispatchers_map(before).dom().contains(key) && key != gone {
                    let k = choose|k: int| #[trigger] dispatcher_at(before, key, k);
                    assert(k != i);
                    let p = if k < i {
                        k
                    } else {
                        k - 1
                    };
                    assert(after[p] == before[k]);
                    assert(dispatcher_at(after, key, p));
                }
            }
            assert forall|key: (FiberId, ServiceModel)|
                dispatchers_map(after).dom().contains(key) implies dispatchers_map(after)[key]
                == #[trigger] dispatchers_map(before).remove(gone)[key] by {
                let k = choose|k: int| #[trigger] dispatcher_at(after, key, k);
                let p = if k < i {
                    k
                } else {
                    k + 1
                };
                assert(before[p] == after[k]);
                assert(dispatcher_at(before, key, p));
                assert(dispatchers_map(before).remove(gone).dom().contains(key));
            }
            assert(dispatchers_map(after) =~= dispatchers_map(before).remove(gone));
        }
    }

    pub fn remove(&mut self, provider: FiberId, service: &ServiceId)
        requires
            old(self).wf(),
        ensures
            final(self).wf(),
            final(self)@ == old(self)@.remove((provider, service@)),
    {
        match self.find(provider, service) {
            Some(i) => self.drop_at(i),
            None => {
                proof {
                    assert(self@ =~= self@.remove((provider, service@)));
                }
            },
        }
    }

    /// How many dispatchers are registered.
    pub fn len(&self) -> (r: usize)
        requires
            self.wf(),
        ensures
            self@.dom().finite(),
            r == self@.dom().len(),
    {
        proof {
            let entries = self.dispatchers@;
            dispatchers_facts(entries);
            let keys = Seq::new(
                entries.len(),
                |i: int| (entries[i].provider, entries[i].service@),
            );
            assert(keys.no_duplicates());
            assert forall|key: (FiberId, ServiceModel)| #[trigger]
                self@.dom().contains(key) <==> keys.to_set().contains(key) by {
                if self@.dom().contains(key) {
                    let i = choose|i: int| #[trigger] dispatcher_at(entries, key, i);
                    assert(keys[i] == key);
                }
                if keys.contains(key) {
                    let i = choose|i: int| 0 <= i < keys.len() && keys[i] == key;
                    assert(dispatcher_at(entries, key, i));
                }
            }
            assert(self@.dom() =~= keys.to_set());
            keys.unique_seq_to_set();
        }
        self.dispatchers.len()
    }

    pub fn is_empty(&self) -> (r: bool)
        requires
            self.wf(),
        ensures
            r == (self@ == Map::<(FiberId, ServiceModel), D>::empty()),
    {
        proof {
            dispatchers_facts(self.dispatchers@);
            if self.dispatchers@.len() == 0 {
                assert(self@ =~= Map::<(FiberId, ServiceModel), D>::empty());
            } else {
                let first = self.dispatchers@[0];
                assert(dispatcher_at(self.dispatchers@, (first.provider, first.service@), 0));
            }
        }
        self.dispatchers.len() == 0
    }

    /// The dispatcher a provider registered for a service.
    pub fn resolve(&self, provider: FiberId, service: &ServiceId) -> (r: Result<&D, CordisError>)
        requires
            self.wf(),
        ensures
            match r {
                Ok(dispatcher) => self@.dom().contains((provider, service@)) && self@[(
                    provider,
                    service@,
                )] == *dispatcher,
                Err(error) => !self@.dom().contains((provider, service@)) && error@ == (
                ErrorModel::MissingServiceDispatcher { provider, service: service@ }),
            },
    {
        match self.find(provider, service) {
            Some(i) => Ok(&self.dispatchers[i].dispatcher),
            None => Err(
                CordisError::MissingServiceDispatcher { provider, service: service.duplicate() },
            ),
        }
    }
}

impl<D: ServiceDispatcher> NativeServiceRegistry<D> {
    /// Associates a dispatcher with the fiber that owns the provider.
    pub fn insert(&mut self, provider: FiberId, dispatcher: D)
        requires
            old(self).wf(),
        ensures
            final(self).wf(),
            final(self)@ == old(self)@.insert((provider, dispatcher.identity()), dispatcher),
    {
        let service = dispatcher.service_id();
        let ghost key = (provider, service@);
        let ghost start = self@;
        self.remove(provider, &service);
        let ghost before = self.dispatchers@;
        proof {
            dispatchers_facts(before);
        }
        self.dispatchers.push(DispatcherEntry { provider, service, dispatcher });
        proof {
            let after = self.dispatchers@;
            assert forall|a: int, b: int| 0 <= a < b < after.len() implies ((
            #[trigger] after[a]).provider != (#[trigger] after[b]).provider || after[a].service@
                != after[b].service@) by {
                assert(after[a] == before[a]);
                if b < before.len() {
                    assert(after[b] == before[b]);
                } else if after[a].provider == provider && after[a].service@ == service@ {
                    assert(dispatcher_at(before, key, a));
                }
            }
            dispatchers_facts(after);
            assert forall|k: (FiberId, ServiceModel)|
                dispatchers_map(after).dom().contains(k) <==> #[trigger] start.insert(
                    key,
                    dispatcher,
                ).dom().contains(k) by {
                if dispatchers_map(after).dom().contains(k) {
                    let p = choose|p: int| #[trigger] dispatcher_at(after, k, p);
                    if p < before.len() {
                        assert(dispatcher_at(before, k, p));
                    }
                }
                if k == key {
                    assert(dispatcher_at(after, k, before.len() as int));
                } else if start.dom().contains(k) {
                    assert(dispatchers_map(before).dom().contains(k));
                    let p = choose|p: int| #[trigger] dispatcher_at(before, k, p);
                    assert(dispatcher_at(after, k, p));
                }
            }
            assert forall|k: (FiberId, ServiceModel)|
                dispatchers_map(after).dom().contains(k) implies dispatchers_map(after)[k]
                == #[trigger] start.insert(key, dispatcher)[k] by {
                let p = choose|p: int| #[trigger] dispatcher_at(after, k, p);
                if p < before.len() {
                    assert(dispatcher_at(before, k, p));
                    assert(k != key);
                }
            }
            assert(dispatchers_map(after) =~= start.insert(key, dispatcher));
        }
    }
}

/// Resolves the dispatcher selected by one committed load.
pub trait DependencyResolver {
    type Dispatcher;

    /// What a service resolves to.
    spec fn resolution(&self, service: ServiceModel) -> Result<Self::Dispatcher, ErrorModel>;

    /// When resolving makes sense.
    spec fn usable(&self) -> bool;

    fn resolve(&self, service: &ServiceId) -> (r: Result<&Self::Dispatcher, CordisError>)
        requires
            self.usable(),
        ensures
            match (r, self.resolution(service@)) {
                (Ok(dispatcher), Ok(expected)) => *dispatcher == expected,
                (Err(error), Err(expected)) => error@ == expected,
                _ => false,
            },
    ;
}

/// Resolves against the providers a fiber was loaded with.
#[derive(Debug)]
pub struct CommittedDependencyResolver<'a, D> {
    pub committed: &'a CommittedView,
    pub services: &'a NativeServiceRegistry<D>,
}

/// The provider committed for a service, or why there is none.
pub open spec fn committed_provider(
    entries: Seq<ResolvedModel>,
    service: ServiceModel,
) -> Result<FiberId, ErrorModel> {
    if undeclared(entries, service) {
        Err(ErrorModel::UndeclaredDependency { service })
    } else {
        let i = choose|i: int| #[trigger] first_entry(entries, service, i);
        match entries[i].provider {
            Some(provider) => Ok(provider),
            None => Err(ErrorModel::MissingCommittedProvider { service }),
        }
    }
}

/// The provider committed for a service.
pub fn require_provider(committed: &CommittedView, service: &ServiceId) -> (r: Result<
    FiberId,
    CordisError,
>)
    ensures
        match (r, committed_provider(committed@, service@)) {
            (Ok(provider), Ok(expected)) => provider == expected,
            (Err(error), Err(expected)) => error@ == expected,
            _ => false,
        },
{
    match committed.lookup(service) {
        Err(error) => Err(error),
        Ok(found) => {
            proof {
                let a = choose|i: int| #[trigger]
                    first_entry(committed@, service@, i) && found == committed@[i].provider;
                let b = choose|i: int| #[trigger] first_entry(committed@, service@, i);
                if a < b {
                    assert(committed@[a].key.service != service@);
                }
                if b < a {
                    assert(committed@[b].key.service != service@);
                }
            }
            match found {
                Some(provider) => Ok(provider),
                None => Err(
                    CordisError::MissingCommittedProvider { service: service.duplicate() },
                ),
            }
        },
    }
}

impl<'a, D> DependencyResolver for CommittedDependencyResolver<'a, D> {
    type Dispatcher = D;

    open spec fn resolution(&self, service: ServiceModel) -> Result<D, ErrorModel> {
        match committed_provider(self.committed@, service) {
            Err(error) => Err(error),
            Ok(provider) => if self.services@.dom().contains((provider, service)) {
                Ok(self.services@[(provider, service)])
            } else {
                Err(ErrorModel::MissingServiceDispatcher { provider, service })
            },
        }
    }

    open spec fn usable(&self) -> bool {
        self.services.wf()
    }

    fn resolve(&self, service: &ServiceId) -> (r: Result<&D, CordisError>) {
        match require_provider(self.committed, service) {
            Err(error) => Err(error),
            Ok(provider) => self.services.resolve(provider, service),
        }
    }
}

} // verus!
