//! The single-writer registry of fibers, provider slots and waiting unloads.
use crate::context::Context;
use crate::error::{duplicate_fibers, view_error, CordisError, ErrorModel};
use crate::fiber::{
    completed, completion_keeps_valid, current_generation, desired_keeps_valid,
    desired_transition, next_transition, reload_keeps_valid, reloadable, restart_keeps_valid,
    restart_kind, restarted, result_model, started, DesiredEpoch, DesiredModel, DesiredState,
    FiberMachine, FiberState, FiberTransition, KindModel, TransitionAdvance, TransitionKind,
    TransitionModel,
};
use crate::graph::{adjacency, closed_graph, component_of, components, indexes, members};
use crate::id::{FiberId, IdSource, RealmId};
use crate::search::{first_index, first_index_found, first_index_is_first};
use crate::service::{
    first_missing, missing, ready, same_fiber, CommittedView, DependencyResolution, InjectSpec,
    ProviderKey, ProviderKeyModel, ResolvedInject,
};
use crate::supervisor_model::{
    advance_transition, advanced, all_current, as_queue, ascending, blocked_before_is,
    blocked_with, blocking_keeps, changed, commit_error, commit_keeps, complete_error,
    completion_state, completion_work, configure_error, consumed, consumers_first, consumes,
    create_error, created, creation_keeps, current_but, cycle_of, declared, declared_before,
    dependency, drained, duplicate_inject, emitted, fiber_at, fresh_record, generations_left, idle,
    idle_is_free, ids_at, index_of, index_of_is, is_blocked, known, marked, owner, owners_known,
    provide_error, queue_rest, queue_swapped, queue_valid, realm_error, realm_missing,
    realms_known, reassigned, reassigned_keeps, reconcile_record, reconciled, reconfigured,
    reconfigured_work, record_current, record_valid, refreshed, refreshed_keeps, released,
    replaced_keeps, resolve_all, resolve_entry, restart_transition, retained, retirement_work,
    room, same_ids_keep, scheduled, scheduled_keeps, scheduled_work, selection_target, selects,
    settled, settled_work, settling_keeps, slot_at, slot_change_leaves_current, slot_key,
    slots_map, slots_unique, target, unknown_error, valid, with_machine, with_record,
    withdraw_error, withdrawn, withdrawn_idle, withdrawn_keeps, withdrawn_work, without_owner,
    RecordModel, SupervisorModel,
};
use crate::text::{group_views, view_option, views};
use vstd::prelude::*;

verus! {

broadcast use group_views;

/// One fiber owned by the supervisor.
#[derive(Debug)]
pub struct FiberRecord {
    pub id: FiberId,
    pub parent: Option<FiberId>,
    pub desired: DependencyResolution,
    pub committed: Option<CommittedView>,
    pub dependency_error: Option<CordisError>,
    pub context: Option<Context>,
    pub injects: Vec<InjectSpec>,
    pub machine: FiberMachine,
    pub retired: bool,
}

impl View for FiberRecord {
    type V = RecordModel;

    open spec fn view(&self) -> RecordModel {
        RecordModel {
            id: self.id,
            parent: self.parent,
            desired: self.desired@,
            committed: view_option(self.committed),
            dependency_error: view_error(self.dependency_error),
            context: view_option(self.context),
            injects: views(self.injects@),
            machine: self.machine@,
            retired: self.retired,
        }
    }
}

/// One owned provider slot.
#[derive(Debug)]
pub struct ProviderSlot {
    pub key: ProviderKey,
    pub provider: FiberId,
}

impl View for ProviderSlot {
    type V = (ProviderKeyModel, FiberId);

    open spec fn view(&self) -> (ProviderKeyModel, FiberId) {
        (self.key@, self.provider)
    }
}

/// Fibers, the provider slots they own, and the unloads that wait for consumers.
#[derive(Debug)]
pub struct SupervisorState {
    pub fibers: Vec<FiberRecord>,
    pub providers: Vec<ProviderSlot>,
    pub blocked_unloads: Vec<FiberTransition>,
    pub fiber_ids: IdSource,
    pub realm_ids: IdSource,
    pub allocated_realms: u64,
}

impl View for SupervisorState {
    type V = SupervisorModel;

    open spec fn view(&self) -> SupervisorModel {
        SupervisorModel {
            fibers: views(self.fibers@),
            providers: slots_map(views(self.providers@)),
            blocked: views(self.blocked_unloads@),
            next_fiber: self.fiber_ids.next,
            next_realm: self.realm_ids.next,
            allocated_realms: self.allocated_realms,
        }
    }
}


/// Slots have unique keys, so each maps to its owner.
pub proof fn slots_facts(slots: Seq<(ProviderKeyModel, FiberId)>)
    requires
        slots_unique(slots),
    ensures
        forall|i: int|
            0 <= i < slots.len() ==> slots_map(slots).dom().contains((#[trigger] slots[i]).0)
                && slots_map(slots)[slots[i].0] == slots[i].1,
        forall|key: ProviderKeyModel| #[trigger]
            slots_map(slots).dom().contains(key) ==> exists|i: int| #[trigger]
                slot_at(slots, key, i),
{
    assert forall|i: int| 0 <= i < slots.len() implies slots_map(slots).dom().contains(
        (#[trigger] slots[i]).0,
    ) && slots_map(slots)[slots[i].0] == slots[i].1 by {
        let key = slots[i].0;
        assert(slot_at(slots, key, i));
        let k = choose|k: int| #[trigger] slot_at(slots, key, k);
        if k < i {
            assert(slots[k].0 != slots[i].0);
        }
        if i < k {
            assert(slots[i].0 != slots[k].0);
        }
    }
}

/// A snapshot of one fiber.
#[derive(Debug, PartialEq, Eq)]
pub struct FiberSnapshot {
    pub id: FiberId,
    pub parent: Option<FiberId>,
    pub desired: DependencyResolution,
    pub committed: Option<CommittedView>,
    pub state: FiberState,
    pub active_transition: Option<FiberTransition>,
    pub dependency_error: Option<CordisError>,
    pub failure: Option<CordisError>,
    pub teardown_error: Option<CordisError>,
}

/// What a fiber snapshot shows.
pub open spec fn shows(snapshot: FiberSnapshot, r: RecordModel) -> bool {
    &&& snapshot.id == r.id
    &&& snapshot.parent == r.parent
    &&& snapshot.desired@ == r.desired
    &&& view_option(snapshot.committed) == r.committed
    &&& snapshot.state == r.machine.state
    &&& view_option(snapshot.active_transition) == r.machine.active
    &&& view_error(snapshot.dependency_error) == r.dependency_error
    &&& view_error(snapshot.failure) == r.machine.failure
    &&& view_error(snapshot.teardown_error) == r.machine.teardown_error
}

/// A snapshot of the whole supervisor.
#[derive(Debug, PartialEq, Eq)]
pub struct RuntimeSnapshot {
    pub fibers: Vec<FiberSnapshot>,
    pub allocated_realms: u64,
    pub provider_count: usize,
}

/// Dependency configuration result and any transition it made runnable.
#[derive(Debug, PartialEq, Eq)]
pub struct DependencyChange {
    pub resolution: DependencyResolution,
    pub transitions: Vec<FiberTransition>,
}

/// What a provider change did.
#[derive(Debug, PartialEq, Eq)]
pub struct RegistryChange {
    pub key: ProviderKey,
    pub affected: Vec<FiberId>,
    pub transitions: Vec<FiberTransition>,
}

#[derive(Clone, Copy, Debug, PartialEq, Eq, Structural)]
pub enum CompletionStatus {
    Applied,
    IgnoredStale,
}

/// What a completion did.
#[derive(Debug, PartialEq, Eq)]
pub struct TransitionUpdate {
    pub status: CompletionStatus,
    pub ready: Vec<FiberTransition>,
}

/// Fails on the first service that is declared more than once.
pub fn validate_injects(fiber: FiberId, injects: &Vec<InjectSpec>) -> (r: Result<(), CordisError>)
    ensures
        match (r, duplicate_inject(views(injects@))) {
            (Ok(_), None) => true,
            (Err(error), Some(i)) => error@ == (ErrorModel::DuplicateInject {
                fiber,
                service: views(injects@)[i].service,
            }),
            _ => false,
        },
{
    let ghost declared = views(injects@);
    let ghost p = declared_before(declared);
    let mut i: usize = 0;
    while i < injects.len()
        invariant
            declared == views(injects@),
            p == declared_before(declared),
            i <= injects.len(),
            forall|k: int| 0 <= k < i ==> !#[trigger] p(k),
        decreases injects.len() - i,
    {
        let mut j: usize = 0;
        while j < i
            invariant
                declared == views(injects@),
                p == declared_before(declared),
                j <= i,
                i < injects.len(),
                forall|k: int| 0 <= k < i ==> !#[trigger] p(k),
                forall|k: int|
                    0 <= k < j ==> (#[trigger] declared[k]).service != declared[i as int].service,
            decreases i - j,
        {
            if injects[j].service.same(&injects[i].service) {
                proof {
                    assert(declared[j as int].service == declared[i as int].service);
                    assert(p(i as int));
                    first_index_found(declared.len(), p, i as int);
                }
                return Err(
                    CordisError::DuplicateInject {
                        fiber,
                        service: injects[i].service.duplicate(),
                    },
                );
            }
            proof {
                assert(declared[j as int].service != declared[i as int].service);
            }
            j = j + 1;
        }
        proof {
            assert(!p(i as int));
        }
        i = i + 1;
    }
    proof {
        first_index_is_first(declared.len(), p);
    }
    Ok(())
}

/// The lifecycle target of a selection.
pub fn desired_state(resolution: &DependencyResolution) -> (r: DesiredState)
    ensures
        r@ == selection_target(resolution@),
{
    match DesiredEpoch::from_resolution(resolution) {
        Some(epoch) => DesiredState::Ready(epoch),
        None => DesiredState::Waiting,
    }
}

/// Moves one fiber's machine towards its target.
fn follow_target(record: &mut FiberRecord, cycle: &Option<Vec<FiberId>>) -> (r: Option<
    FiberTransition,
>)
    requires
        old(record)@.machine.active is None ==> old(record)@.machine.next_generation < u64::MAX,
    ensures
        final(record)@ == reconcile_record(old(record)@, cycle_view(*cycle)),
        view_option(r) == desired_transition(
            old(record)@.machine,
            target(old(record)@, cycle_view(*cycle)),
        ),
{
    record.dependency_error = None;
    let desired = if record.retired {
        DesiredState::Retired
    } else if record.context.is_none() {
        DesiredState::Waiting
    } else {
        match cycle {
            Some(fibers) => {
                record.dependency_error =
                Some(CordisError::DependencyCycle { fibers: duplicate_fibers(fibers) });
                DesiredState::Waiting
            },
            None => desired_state(&record.desired),
        }
    };
    record.machine.set_desired(desired)
}

/// The view of an optional list of fibers.
pub open spec fn cycle_view(cycle: Option<Vec<FiberId>>) -> Option<Seq<FiberId>> {
    match cycle {
        Some(fibers) => Some(fibers@),
        None => None,
    }
}

impl SupervisorState {
    /// The state is sound and no slot is listed twice.
    pub open spec fn wf(&self) -> bool {
        valid(self@) && slots_unique(views(self.providers@))
    }

    /// A supervisor without fibers that draws its identifiers from the given sources.
    pub fn new(fiber_ids: IdSource, realm_ids: IdSource) -> (r: SupervisorState)
        ensures
            r.wf(),
            r@.fibers.len() == 0,
            r@.providers == Map::<ProviderKeyModel, FiberId>::empty(),
            r@.blocked.len() == 0,
            r@.next_fiber == fiber_ids.next,
            r@.next_realm == realm_ids.next,
            r@.allocated_realms == 0,
    {
        let r = SupervisorState {
            fibers: Vec::new(),
            providers: Vec::new(),
            blocked_unloads: Vec::new(),
            fiber_ids,
            realm_ids,
            allocated_realms: 0,
        };
        proof {
            assert(r@.providers =~= Map::empty());
        }
        r
    }

    /// Whether every fiber can start another transition.
    pub fn has_generations_left(&self) -> (r: bool)
        ensures
            r == generations_left(self@.fibers),
    {
        let mut i: usize = 0;
        while i < self.fibers.len()
            invariant
                i <= self.fibers.len(),
                forall|k: int|
                    0 <= k < i ==> (#[trigger] self@.fibers[k]).machine.next_generation < u64::MAX,
            decreases self.fibers.len() - i,
        {
            if self.fibers[i].machine.next_generation == u64::MAX {
                proof {
                    assert(self@.fibers[i as int].machine.next_generation == u64::MAX);
                }
                return false;
            }
            i = i + 1;
        }
        true
    }

    /// The position of a fiber.
    fn find(&self, fiber: FiberId) -> (r: Option<usize>)
        requires
            ascending(self@.fibers),
        ensures
            match r {
                Some(i) => i < self.fibers.len() && fiber_at(self@.fibers, fiber, i as int)
                    && known(self@.fibers, fiber) && i == index_of(self@.fibers, fiber),
                None => !known(self@.fibers, fiber),
            },
    {
        let mut i: usize = 0;
        while i < self.fibers.len()
            invariant
                i <= self.fibers.len(),
                ascending(self@.fibers),
                forall|k: int| 0 <= k < i ==> !#[trigger] fiber_at(self@.fibers, fiber, k),
            decreases self.fibers.len() - i,
        {
            if self.fibers[i].id.0 == fiber.0 {
                proof {
                    index_of_is(self@.fibers, fiber, i as int);
                }
                return Some(i);
            }
            proof {
                assert(!fiber_at(self@.fibers, fiber, i as int));
            }
            i = i + 1;
        }
        None
    }

    /// The position of a slot.
    fn find_slot(&self, key: &ProviderKey) -> (r: Option<usize>)
        requires
            slots_unique(views(self.providers@)),
        ensures
            match r {
                Some(i) => i < self.providers.len() && self.providers@[i as int].key@ == key@
                    && owner(self@.providers, key@) == Some(self.providers@[i as int].provider),
                None => owner(self@.providers, key@) is None,
            },
    {
        let ghost slots = views(self.providers@);
        proof {
            slots_facts(slots);
        }
        let mut i: usize = 0;
        while i < self.providers.len()
            invariant
                slots == views(self.providers@),
                slots_unique(slots),
                i <= self.providers.len(),
                forall|k: int| 0 <= k < i ==> !#[trigger] slot_at(slots, key@, k),
            decreases self.providers.len() - i,
        {
            if self.providers[i].key.same(key) {
                proof {
                    slots_facts(slots);
                    assert(slots[i as int] == (key@, self.providers@[i as int].provider));
                }
                return Some(i);
            }
            proof {
                assert(!slot_at(slots, key@, i as int));
            }
            i = i + 1;
        }
        proof {
            slots_facts(slots);
            if slots_map(slots).dom().contains(key@) {
                let k = choose|k: int| #[trigger] slot_at(slots, key@, k);
                assert(slot_at(slots, key@, k));
            }
        }
        None
    }

    /// Resolves declared dependencies against the current providers.
    pub fn resolve_dependencies(&self, context: &Context, injects: &Vec<InjectSpec>) -> (r: Result<
        DependencyResolution,
        CordisError,
    >)
        requires
            self.wf(),
        ensures
            match (r, realm_error(context@.realms, views(injects@))) {
                (Ok(resolution), None) => resolution@ == resolve_all(
                    self@.providers,
                    context@.realms,
                    views(injects@),
                ),
                (Err(error), Some(expected)) => error@ == expected,
                _ => false,
            },
    {
        let ghost declared = views(injects@);
        let ghost p = realm_missing(context@.realms, declared);
        let mut entries: Vec<ResolvedInject> = Vec::new();
        let mut i: usize = 0;
        while i < injects.len()
            invariant
                self.wf(),
                declared == views(injects@),
                p == realm_missing(context@.realms, declared),
                i <= injects.len(),
                entries.len() == i,
                forall|k: int| 0 <= k < i ==> !#[trigger] p(k),
                forall|k: int|
                    0 <= k < i ==> (#[trigger] entries@[k])@ == resolve_entry(
                        self@.providers,
                        context@.realms,
                        declared[k],
                    ),
            decreases injects.len() - i,
        {
            match context.resolve_realm(&injects[i].service) {
                Err(error) => {
                    proof {
                        assert(p(i as int));
                        first_index_found(declared.len(), p, i as int);
                    }
                    return Err(error);
                },
                Ok(realm) => {
                    let key = ProviderKey::new(injects[i].service.duplicate(), realm);
                    let provider = match self.find_slot(&key) {
                        Some(slot) => Some(self.providers[slot].provider),
                        None => None,
                    };
                    proof {
                        assert(!p(i as int));
                    }
                    entries.push(
                        ResolvedInject { key, provider, requirement: injects[i].requirement },
                    );
                },
            }
            i = i + 1;
        }
        let resolution = DependencyResolution::new(entries);
        proof {
            first_index_is_first(declared.len(), p);
            assert(resolution@ =~= resolve_all(self@.providers, context@.realms, declared));
        }
        Ok(resolution)
    }

    /// Brings the selections that involve `key` up to date and lists the fibers it changed.
    fn recompute_affected(&mut self, key: &ProviderKey) -> (r: Vec<FiberId>)
        requires
            slots_unique(views(old(self).providers@)),
            forall|i: int|
                0 <= i < old(self)@.fibers.len() ==> current_but(
                    #[trigger] old(self)@.fibers[i],
                    old(self)@.providers,
                    key@,
                ),
        ensures
            final(self)@ == reassigned(old(self)@, old(self)@.providers),
            final(self).providers@ == old(self).providers@,
            r@ == changed(
                old(self)@.fibers,
                final(self)@.fibers,
                old(self)@.fibers.len(),
            ),
    {
        let ghost before = self@;
        let ghost all = refreshed(before.fibers, before.providers);
        let mut affected: Vec<FiberId> = Vec::new();
        let mut i: usize = 0;
        while i < self.fibers.len()
            invariant
                before == old(self)@,
                all == refreshed(before.fibers, before.providers),
                slots_unique(views(self.providers@)),
                self.providers@ == old(self).providers@,
                self@ == (SupervisorModel { fibers: self@.fibers, ..before }),
                i <= self.fibers.len(),
                self.fibers.len() == before.fibers.len(),
                forall|k: int| 0 <= k < i ==> #[trigger] self@.fibers[k] == all[k],
                forall|k: int| i <= k < before.fibers.len() ==> #[trigger] self@.fibers[k] == before.fibers[k],
                forall|k: int|
                    0 <= k < before.fibers.len() ==> current_but(
                        #[trigger] before.fibers[k],
                        before.providers,
                        key@,
                    ),
                affected@ == changed(before.fibers, all, i as nat),
            decreases self.fibers.len() - i,
        {
            let ghost r = before.fibers[i as int];
            let ghost fibers_before = self@.fibers;
            proof {
                assert(self@.fibers[i as int] == r);
                assert(current_but(r, before.providers, key@));
            }
            let resolved = match &self.fibers[i].context {
                Some(context) => self.refresh(context, &self.fibers[i].injects, key),
                None => None,
            };
            let differs = match &resolved {
                Some(resolution) => !self.fibers[i].desired.same(resolution),
                None => false,
            };
            proof {
                if resolved is None && r.context is Some {
                    let realms = r.context->Some_0.realms;
                    assert(r.desired =~= resolve_all(before.providers, realms, r.injects)) by {
                        assert forall|e: int| 0 <= e < r.injects.len() implies r.desired[e]
                            == resolve_entry(before.providers, realms, r.injects[e]) by {
                            assert(r.desired[e].key == slot_key(realms, r.injects[e]));
                            assert(r.desired[e].key != key@);
                        }
                    }
                }
            }
            if differs {
                affected.push(self.fibers[i].id);
                match resolved {
                    Some(resolution) => {
                        self.fibers[i].desired = resolution;
                    },
                    None => {},
                }
            }
            proof {
                assert(self.fibers@[i as int]@ == all[i as int]);
                assert(self@.fibers =~= fibers_before.update(i as int, all[i as int]));
            }
            i = i + 1;
        }
        proof {
            assert(self@.fibers =~= all);
        }
        affected
    }

    /// The new selection of a fiber that involves `key`.
    fn refresh(&self, context: &Context, injects: &Vec<InjectSpec>, key: &ProviderKey) -> (r: Option<
        DependencyResolution,
    >)
        requires
            slots_unique(views(self.providers@)),
            realms_known(context@.realms, views(injects@)),
        ensures
            match r {
                Some(resolution) => resolution@ == resolve_all(
                    self@.providers,
                    context@.realms,
                    views(injects@),
                ),
                None => forall|e: int|
                    0 <= e < injects.len() ==> slot_key(
                        context@.realms,
                        #[trigger] views(injects@)[e],
                    ) != key@,
            },
    {
        let ghost declared = views(injects@);
        let ghost p = realm_missing(context@.realms, declared);
        proof {
            first_index_is_first(declared.len(), p);
        }
        let mut entries: Vec<ResolvedInject> = Vec::new();
        let mut involved = false;
        let mut i: usize = 0;
        while i < injects.len()
            invariant
                slots_unique(views(self.providers@)),
                declared == views(injects@),
                p == realm_missing(context@.realms, declared),
                forall|k: int| 0 <= k < declared.len() ==> !#[trigger] p(k),
                i <= injects.len(),
                entries.len() == i,
                forall|k: int|
                    0 <= k < i ==> (#[trigger] entries@[k])@ == resolve_entry(
                        self@.providers,
                        context@.realms,
                        declared[k],
                    ),
                !involved ==> forall|e: int|
                    0 <= e < i ==> slot_key(context@.realms, #[trigger] declared[e]) != key@,
            decreases injects.len() - i,
        {
            proof {
                assert(!p(i as int));
            }
            match context.resolve_realm(&injects[i].service) {
                Err(_) => {
                    return None;
                },
                Ok(realm) => {
                    let slot_key = ProviderKey::new(injects[i].service.duplicate(), realm);
                    if slot_key.same(key) {
                        involved = true;
                    }
                    let provider = match self.find_slot(&slot_key) {
                        Some(slot) => Some(self.providers[slot].provider),
                        None => None,
                    };
                    entries.push(
                        ResolvedInject {
                            key: slot_key,
                            provider,
                            requirement: injects[i].requirement,
                        },
                    );
                },
            }
            i = i + 1;
        }
        if involved {
            let resolution = DependencyResolution::new(entries);
            proof {
                assert(resolution@ =~= resolve_all(self@.providers, context@.realms, declared));
            }
            Some(resolution)
        } else {
            None
        }
    }

    /// For every fiber on a dependency cycle, all fibers of that cycle's component.
    pub fn dependency_cycles(&self) -> (r: Vec<Option<Vec<FiberId>>>)
        requires
            ascending(self@.fibers),
        ensures
            r.len() == self@.fibers.len(),
            forall|i: int|
                0 <= i < r.len() ==> cycle_view(#[trigger] r@[i]) == cycle_of(self@.fibers, i),
    {
        let ghost fibers = self@.fibers;
        let mut graph: Vec<Vec<usize>> = Vec::new();
        let mut i: usize = 0;
        while i < self.fibers.len()
            invariant
                fibers == self@.fibers,
                ascending(fibers),
                i <= self.fibers.len(),
                graph.len() == i,
                forall|a: int, k: int|
                    0 <= a < i && 0 <= k < graph@[a]@.len() ==> (#[trigger] graph@[a]@[k])
                        < fibers.len() && selects(fibers, a, graph@[a]@[k] as int),
                forall|a: int, b: int|
                    0 <= a < i && #[trigger] selects(fibers, a, b) ==> exists|k: int|
                        0 <= k < graph@[a]@.len() && #[trigger] graph@[a]@[k] == b,
            decreases self.fibers.len() - i,
        {
            let row = self.providers_of(i);
            let ghost rows = graph@;
            graph.push(row);
            proof {
                assert forall|a: int, b: int|
                    0 <= a < i + 1 && #[trigger] selects(fibers, a, b) implies exists|k: int|
                    0 <= k < graph@[a]@.len() && #[trigger] graph@[a]@[k] == b by {
                    if a < i {
                        let k = choose|k: int|
                            0 <= k < rows[a]@.len() && #[trigger] rows[a]@[k] == b;
                        assert(graph@[a]@[k] == b);
                    } else {
                        let k = choose|k: int| 0 <= k < row@.len() && #[trigger] row@[k] == b;
                        assert(graph@[a]@[k] == b);
                    }
                }
            }
            i = i + 1;
        }
        let ghost edge = dependency(fibers);
        proof {
            assert(adjacency(graph@) =~= edge) by {
                assert forall|a: int, b: int| adjacency(graph@)(a, b) == #[trigger] edge(a, b) by {
                    if adjacency(graph@)(a, b) {
                        let k = choose|k: int|
                            0 <= k < graph@[a]@.len() && #[trigger] graph@[a]@[k] == b;
                        assert(selects(fibers, a, graph@[a]@[k] as int));
                    }
                    if edge(a, b) {
                        assert(selects(fibers, a, b));
                    }
                }
            }
            assert(closed_graph(graph@));
        }
        let found = components(&graph);
        let mut out: Vec<Option<Vec<FiberId>>> = Vec::new();
        let mut v: usize = 0;
        while v < found.len()
            invariant
                fibers == self@.fibers,
                edge == dependency(fibers),
                v <= found.len(),
                out.len() == v,
                found.len() == fibers.len(),
                forall|a: int|
                    0 <= a < found.len() ==> component_of(
                        edge,
                        fibers.len(),
                        a,
                        #[trigger] found@[a],
                    ),
                forall|a: int|
                    0 <= a < v ==> cycle_view(#[trigger] out@[a]) == cycle_of(fibers, a),
            decreases found.len() - v,
        {
            proof {
                assert(component_of(edge, fibers.len(), v as int, found@[v as int]));
            }
            match &found[v] {
                None => {
                    out.push(None);
                },
                Some(list) => {
                    let ghost positions = members(edge, v as int, fibers.len());
                    let mut ids: Vec<FiberId> = Vec::new();
                    let mut k: usize = 0;
                    proof {
                        crate::graph::members_are_exact(edge, v as int, fibers.len());
                        assert(indexes(list@).len() == list@.len());
                    }
                    while k < list.len()
                        invariant
                            fibers == self@.fibers,
                            k <= list.len(),
                            ids.len() == k,
                            positions == members(edge, v as int, fibers.len()),
                            indexes(list@) == positions,
                            list.len() == positions.len(),
                            forall|u: int| #[trigger] positions.contains(u) ==> 0 <= u < fibers.len(),
                            forall|j: int|
                                0 <= j < k ==> #[trigger] ids@[j] == fibers[positions[j]].id,
                        decreases list.len() - k,
                    {
                        proof {
                            assert(positions[k as int] == list@[k as int] as int);
                            assert(positions.contains(positions[k as int]));
                        }
                        ids.push(self.fibers[list[k]].id);
                        k = k + 1;
                    }
                    proof {
                        assert(ids@ =~= ids_at(fibers, positions));
                    }
                    out.push(Some(ids));
                },
            }
            v = v + 1;
        }
        out
    }

    /// The positions of the providers a fiber currently selects.
    fn providers_of(&self, i: usize) -> (row: Vec<usize>)
        requires
            ascending(self@.fibers),
            i < self.fibers.len(),
        ensures
            forall|k: int|
                0 <= k < row.len() ==> (#[trigger] row@[k]) < self.fibers.len() && selects(
                    self@.fibers,
                    i as int,
                    row@[k] as int,
                ),
            forall|b: int| #[trigger]
                selects(self@.fibers, i as int, b) ==> exists|k: int|
                    0 <= k < row.len() && #[trigger] row@[k] == b,
    {
        let ghost fibers = self@.fibers;
        let mut row: Vec<usize> = Vec::new();
        if self.fibers[i].context.is_none() {
            return row;
        }
        let entries = self.fibers[i].desired.entries();
        let ghost desired = fibers[i as int].desired;
        let mut e: usize = 0;
        while e < entries.len()
            invariant
                fibers == self@.fibers,
                ascending(fibers),
                i < fibers.len(),
                fibers[i as int].context is Some,
                desired == fibers[i as int].desired,
                views(entries@) == desired,
                e <= entries.len(),
                forall|k: int|
                    0 <= k < row.len() ==> (#[trigger] row@[k]) < fibers.len() && selects(
                        fibers,
                        i as int,
                        row@[k] as int,
                    ),
                forall|b: int, f: int|
                    0 <= b < fibers.len() && 0 <= f < e && (#[trigger] desired[f]).provider == Some(
                        (#[trigger] fibers[b]).id,
                    ) ==> exists|k: int| 0 <= k < row.len() && #[trigger] row@[k] == b,
            decreases entries.len() - e,
        {
            let ghost row_before = row@;
            proof {
                assert(desired[e as int] == entries@[e as int]@);
            }
            match entries[e].provider {
                Some(provider) => match self.find(provider) {
                    Some(at) => {
                        proof {
                            assert(desired[e as int].provider == Some(fibers[at as int].id));
                            assert(selects(fibers, i as int, at as int));
                        }
                        row.push(at);
                        proof {
                            assert forall|b: int, f: int|
                                0 <= b < fibers.len() && 0 <= f < e + 1 && (
                                #[trigger] desired[f]).provider == Some(
                                    (#[trigger] fibers[b]).id,
                                ) implies exists|k: int|
                                0 <= k < row.len() && #[trigger] row@[k] == b by {
                                if f == e {
                                    assert(fiber_at(fibers, provider, b));
                                    index_of_is(fibers, provider, b);
                                    assert(row@[row_before.len() as int] == b);
                                } else {
                                    let k = choose|k: int|
                                        0 <= k < row_before.len() && #[trigger] row_before[k] == b;
                                    assert(row@[k] == b);
                                }
                            }
                        }
                    },
                    None => {
                        proof {
                            assert forall|b: int| 0 <= b < fibers.len() implies Some(
                                (#[trigger] fibers[b]).id,
                            ) != desired[e as int].provider by {
                                if fibers[b].id == provider {
                                    assert(fiber_at(fibers, provider, b));
                                }
                            }
                        }
                    },
                },
                None => {},
            }
            e = e + 1;
        }
        proof {
            assert forall|b: int| #[trigger] selects(fibers, i as int, b) implies exists|k: int|
                0 <= k < row.len() && #[trigger] row@[k] == b by {
                let f = choose|f: int|
                    0 <= f < fibers[i as int].desired.len()
                        && #[trigger] fibers[i as int].desired[f].provider == Some(fibers[b].id);
                assert(desired[f].provider == Some(fibers[b].id));
            }
        }
        row
    }

    /// Lets every fiber follow its target and returns the work this starts.
    fn reconcile_lifecycles(&mut self) -> (r: Vec<FiberTransition>)
        requires
            ascending(old(self)@.fibers),
            room(old(self)@.fibers),
        ensures
            final(self)@ == (SupervisorModel { fibers: reconciled(old(self)@.fibers), ..old(self)@ }),
            final(self).providers@ == old(self).providers@,
            views(r@) == emitted(old(self)@.fibers, old(self)@.fibers.len()),
    {
        let ghost before = self@;
        let ghost all = reconciled(before.fibers);
        let cycles = self.dependency_cycles();
        let mut out: Vec<FiberTransition> = Vec::new();
        let mut i: usize = 0;
        proof {
            assert(views(out@) =~= emitted(before.fibers, 0));
        }
        while i < self.fibers.len()
            invariant
                before == old(self)@,
                all == reconciled(before.fibers),
                room(before.fibers),
                cycles.len() == before.fibers.len(),
                forall|k: int|
                    0 <= k < cycles.len() ==> cycle_view(#[trigger] cycles@[k]) == cycle_of(
                        before.fibers,
                        k,
                    ),
                self.providers@ == old(self).providers@,
                self@ == (SupervisorModel { fibers: self@.fibers, ..before }),
                i <= self.fibers.len(),
                self.fibers.len() == before.fibers.len(),
                forall|k: int| 0 <= k < i ==> #[trigger] self@.fibers[k] == all[k],
                forall|k: int| i <= k < before.fibers.len() ==> #[trigger] self@.fibers[k] == before.fibers[k],
                views(out@) == emitted(before.fibers, i as nat),
            decreases self.fibers.len() - i,
        {
            let ghost fibers_before = self@.fibers;
            proof {
                assert(self@.fibers[i as int] == before.fibers[i as int]);
                assert(cycle_view(cycles@[i as int]) == cycle_of(before.fibers, i as int));
                assert(before.fibers[i as int].machine.active is None
                    ==> before.fibers[i as int].machine.next_generation < u64::MAX);
            }
            let started = follow_target(&mut self.fibers[i], &cycles[i]);
            proof {
                assert(self.fibers@[i as int]@ == all[i as int]);
                assert(self@.fibers =~= fibers_before.update(i as int, all[i as int]));
            }
            match started {
                Some(transition) => {
                    out.push(transition);
                },
                None => {},
            }
            i = i + 1;
        }
        proof {
            assert(self@.fibers =~= all);
        }
        out
    }

    /// Removes one slot by position.
    fn remove_slot(&mut self, i: usize) -> (r: ProviderSlot)
        requires
            i < old(self).providers.len(),
            slots_unique(views(old(self).providers@)),
        ensures
            r@ == old(self).providers@[i as int]@,
            final(self)@ == (SupervisorModel {
                providers: old(self)@.providers.remove(r.key@),
                ..old(self)@
            }),
            slots_unique(views(final(self).providers@)),
            views(final(self).providers@) == views(old(self).providers@).remove(i as int),
            final(self).providers.len() + 1 == old(self).providers.len(),
    {
        let ghost before = views(self.providers@);
        let slot = self.providers.remove(i);
        proof {
            let after = views(self.providers@);
            assert(after =~= before.remove(i as int));
            assert forall|a: int, b: int| 0 <= a < b < after.len() implies (#[trigger] after[a]).0
                != (#[trigger] after[b]).0 by {
                let p = if a < i {
                    a
                } else {
                    a + 1
                };
                let q = if b < i {
                    b
                } else {
                    b + 1
                };
                assert(after[a] == before[p] && after[b] == before[q]);
            }
            slots_facts(before);
            slots_facts(after);
            assert(slots_map(after) =~= slots_map(before).remove(slot.key@)) by {
                assert forall|key: ProviderKeyModel|
                    slots_map(after).dom().contains(key) <==> #[trigger] slots_map(before).remove(
                        slot.key@,
                    ).dom().contains(key) by {
                    if slots_map(after).dom().contains(key) {
                        let k = choose|k: int| #[trigger] slot_at(after, key, k);
                        let p = if k < i {
                            k
                        } else {
                            k + 1
                        };
                        assert(before[p] == after[k]);
                        assert(slot_at(before, key, p));
                        if p < i {
                            assert(before[p].0 != before[i as int].0);
                        } else {
                            assert(before[i as int].0 != before[p].0);
                        }
                    }
                    if slots_map(before).dom().contains(key) && key != slot.key@ {
                        let k = choose|k: int| #[trigger] slot_at(before, key, k);
                        assert(k != i);
                        let p = if k < i {
                            k
                        } else {
                            k - 1
                        };
                        assert(after[p] == before[k]);
                        assert(slot_at(after, key, p));
                    }
                }
                assert forall|key: ProviderKeyModel| #[trigger]
                    slots_map(after).dom().contains(key) implies slots_map(after)[key]
                    == slots_map(before).remove(slot.key@)[key] by {
                    let k = choose|k: int| #[trigger] slot_at(after, key, k);
                    let p = if k < i {
                        k
                    } else {
                        k + 1
                    };
                    assert(before[p] == after[k]);
                    if p < i {
                        assert(before[p].0 != before[i as int].0);
                    } else {
                        assert(before[i as int].0 != before[p].0);
                    }
                    assert(slots_map(after)[after[k].0] == after[k].1);
                    assert(slots_map(before)[before[p].0] == before[p].1);
                }
            }
        }
        slot
    }

    /// Takes all slots of a fiber away and lets everyone react.
    fn withdraw_provider_bindings(&mut self, provider: FiberId) -> (r: Vec<FiberTransition>)
        requires
            old(self).wf(),
            room(old(self)@.fibers),
        ensures
            final(self).wf(),
            final(self)@ == withdrawn(old(self)@, provider),
            views(r@) == withdrawn_work(old(self)@, provider),
    {
        let ghost before = self@;
        let mut i: usize = 0;
        proof {
            assert(refreshed(before.fibers, before.providers) =~= before.fibers) by {
                assert forall|k: int| 0 <= k < before.fibers.len() implies refreshed(
                    before.fibers,
                    before.providers,
                )[k] == before.fibers[k] by {
                    assert(record_current(before.fibers[k], before.providers));
                }
            }
        }
        while i < self.providers.len()
            invariant
                before == old(self)@,
                valid(before),
                room(before.fibers),
                slots_unique(views(self.providers@)),
                i <= self.providers.len(),
                all_current(before.fibers, before.providers),
                self@ == reassigned(before, self@.providers),
                forall|k: int|
                    0 <= k < i ==> (#[trigger] self.providers@[k]).provider != provider,
                forall|key: ProviderKeyModel| #[trigger]
                    self@.providers.dom().contains(key) ==> before.providers.dom().contains(key)
                        && before.providers[key] == self@.providers[key],
                forall|key: ProviderKeyModel|
                    before.providers.dom().contains(key) && before.providers[key] != provider
                        ==> #[trigger] self@.providers.dom().contains(key),
            decreases self.providers.len() - i,
        {
            if self.providers[i].provider.0 == provider.0 {
                let ghost mid = self@;
                proof {
                    slots_facts(views(self.providers@));
                    assert(views(self.providers@)[i as int] == (
                        self.providers@[i as int].key@,
                        provider,
                    ));
                }
                let ghost slots_before = self.providers@;
                let slot = self.remove_slot(i);
                proof {
                    let providers = self@.providers;
                    refreshed_keeps(before.fibers, before.providers, mid.providers, before.next_fiber);
                    assert forall|k: int| 0 <= k < self@.fibers.len() implies current_but(
                        #[trigger] self@.fibers[k],
                        providers,
                        slot.key@,
                    ) by {
                        let r = self@.fibers[k];
                        assert(record_current(r, mid.providers));
                    }
                    twice_refreshed(before.fibers, mid.providers, providers);
                }
                self.recompute_affected(&slot.key);
                proof {
                    assert forall|k: int| 0 <= k < i implies (#[trigger] self.providers@[k]).provider
                        != provider by {
                        assert(views(self.providers@)[k] == self.providers@[k]@);
                        assert(views(slots_before)[k] == slots_before[k]@);
                    }
                }
            } else {
                i = i + 1;
            }
        }
        proof {
            let providers = without_owner(before.providers, provider);
            let slots = views(self.providers@);
            slots_facts(slots);
            assert forall|key: ProviderKeyModel| #[trigger]
                self@.providers.dom().contains(key) implies self@.providers[key] != provider by {
                let k = choose|k: int| #[trigger] slot_at(slots, key, k);
                assert(slots[k] == self.providers@[k]@);
                assert(slots_map(slots)[slots[k].0] == slots[k].1);
            }
            assert(self@.providers =~= providers);
            refreshed_keeps(before.fibers, before.providers, providers, before.next_fiber);
            same_ids_keep(before.fibers, self@.fibers, providers);
            assert(queue_valid(before, Seq::<TransitionModel>::empty()));
            withdrawn_keeps(before, provider, Seq::<TransitionModel>::empty());
        }
        self.reconcile_lifecycles()
    }

    /// Lets an unload wait.
    fn block(&mut self, transition: FiberTransition)
        ensures
            final(self)@ == (SupervisorModel {
                blocked: blocked_with(old(self)@.blocked, transition@),
                ..old(self)@
            }),
            final(self).providers@ == old(self).providers@,
    {
        let ghost before = self@.blocked;
        let mut i: usize = 0;
        while i < self.blocked_unloads.len() && self.blocked_unloads[i].fiber.0
            < transition.fiber.0
            invariant
                before == self@.blocked,
                *self == *old(self),
                i <= self.blocked_unloads.len(),
                forall|k: int| 0 <= k < i ==> (#[trigger] before[k]).fiber.0 < transition.fiber.0,
            decreases self.blocked_unloads.len() - i,
        {
            proof {
                assert(before[i as int] == self.blocked_unloads@[i as int]@);
            }
            i = i + 1;
        }
        proof {
            if i < self.blocked_unloads.len() {
                assert(before[i as int] == self.blocked_unloads@[i as int]@);
            }
            blocked_before_is(before, transition@.fiber, i as int);
        }
        self.blocked_unloads.insert(i, transition);
        proof {
            assert(self@.blocked =~= before.insert(i as int, transition@));
        }
    }

    /// Whether some fiber that is up was loaded against `provider`.
    pub fn has_active_consumers(&self, provider: FiberId) -> (r: bool)
        ensures
            r == consumed(self@.fibers, provider),
            r <==> exists|i: int, e: int|
                0 <= i < self@.fibers.len() && (self@.fibers[i].machine.state is Loading
                    || self@.fibers[i].machine.state is Active
                    || self@.fibers[i].machine.state is Unloading)
                    && self@.fibers[i].committed is Some && 0 <= e
                    < self@.fibers[i].committed->Some_0.len() && (
                #[trigger] self@.fibers[i].committed->Some_0[e]).provider == Some(provider),
    {
        let mut i: usize = 0;
        while i < self.fibers.len()
            invariant
                i <= self.fibers.len(),
                forall|k: int| 0 <= k < i ==> !consumes(#[trigger] self@.fibers[k], provider),
            decreases self.fibers.len() - i,
        {
            let ghost r = self@.fibers[i as int];
            let up = match self.fibers[i].machine.state {
                FiberState::Loading => true,
                FiberState::Active => true,
                FiberState::Unloading => true,
                _ => false,
            };
            if up {
                if let Some(view) = &self.fibers[i].committed {
                    let entries = view.entries();
                    let mut e: usize = 0;
                    while e < entries.len()
                        invariant
                            r == self@.fibers[i as int],
                            i < self.fibers.len(),
                            r.committed == Some(views(entries@)),
                            r.machine.state is Loading || r.machine.state is Active
                                || r.machine.state is Unloading,
                            e <= entries.len(),
                            forall|k: int|
                                0 <= k < e ==> #[trigger] r.committed->Some_0[k].provider != Some(
                                    provider,
                                ),
                        decreases entries.len() - e,
                    {
                        proof {
                            assert(r.committed->Some_0[e as int] == entries@[e as int]@);
                        }
                        if same_fiber(entries[e].provider, Some(provider)) {
                            proof {
                                assert(r.committed->Some_0[e as int].provider == Some(provider));
                                assert(consumes(self@.fibers[i as int], provider));
                            }
                            return true;
                        }
                        e = e + 1;
                    }
                }
            }
            proof {
                assert(!consumes(self@.fibers[i as int], provider));
            }
            i = i + 1;
        }
        false
    }

    /// Hands out the waiting unloads nobody has to wait for any more.
    fn release_ready_unloads(&mut self) -> (r: Vec<FiberTransition>)
        ensures
            final(self)@ == (SupervisorModel {
                blocked: retained(
                    old(self)@.fibers,
                    old(self)@.blocked,
                    old(self)@.blocked.len(),
                ),
                ..old(self)@
            }),
            final(self).providers@ == old(self).providers@,
            views(r@) == released(old(self)@.fibers, old(self)@.blocked, old(self)@.blocked.len()),
    {
        let ghost before = self@;
        let mut out: Vec<FiberTransition> = Vec::new();
        let mut kept: Vec<FiberTransition> = Vec::new();
        let mut i: usize = 0;
        proof {
            assert(views(out@) =~= released(before.fibers, before.blocked, 0));
            assert(views(kept@) =~= retained(before.fibers, before.blocked, 0));
        }
        while i < self.blocked_unloads.len()
            invariant
                before == self@,
                *self == *old(self),
                i <= self.blocked_unloads.len(),
                views(out@) == released(before.fibers, before.blocked, i as nat),
                views(kept@) == retained(before.fibers, before.blocked, i as nat),
            decreases self.blocked_unloads.len() - i,
        {
            let transition = self.blocked_unloads[i].duplicate();
            proof {
                assert(before.blocked[i as int] == transition@);
            }
            if self.has_active_consumers(transition.fiber) {
                kept.push(transition);
            } else {
                out.push(transition);
            }
            i = i + 1;
        }
        self.blocked_unloads = kept;
        out
    }

    /// Schedules started transitions and returns those to run now.
    fn schedule_transition_batch(&mut self, transitions: Vec<FiberTransition>) -> (r: Vec<
        FiberTransition,
    >)
        requires
            old(self).wf(),
            room(old(self)@.fibers),
            queue_valid(old(self)@, views(transitions@)),
        ensures
            final(self).wf(),
            final(self)@ == scheduled(old(self)@, views(transitions@)),
            views(r@) == scheduled_work(old(self)@, views(transitions@)),
            consumers_first(final(self)@, views(r@)),
    {
        let ghost before = self@;
        let ghost all = views(transitions@);
        let mut queue = transitions;
        let mut ready: Vec<FiberTransition> = Vec::new();
        let mut next: usize = 0;
        proof {
            assert(views(queue@).skip(0) =~= all);
            assert(views(ready@) =~= Seq::empty());
            scheduled_keeps(before, all);
        }
        while next < queue.len()
            invariant
                self.wf(),
                room(self@.fibers),
                next <= queue.len(),
                queue_valid(self@, views(queue@).skip(next as int)),
                drained(before, all, Seq::empty()) == drained(
                    self@,
                    views(queue@).skip(next as int),
                    views(ready@),
                ),
            decreases (queue.len() - next) + 2 * idle(self@.fibers),
        {
            let ghost pending = views(queue@).skip(next as int);
            let ghost rest = pending.drop_first();
            let ghost s = self@;
            let transition = queue[next].duplicate();
            next = next + 1;
            proof {
                assert(pending[0] == transition@);
                assert(rest =~= views(queue@).skip(next as int));
            }
            let unload = match &transition.kind {
                TransitionKind::Load { .. } => false,
                TransitionKind::Unload => true,
            };
            if unload {
                let fiber = transition.fiber;
                proof {
                    blocking_keeps(s, pending);
                }
                self.block(transition);
                let ghost waiting = self@;
                proof {
                    withdrawn_keeps(waiting, fiber, rest);
                    withdrawn_idle(waiting, fiber);
                }
                let mut more = self.withdraw_provider_bindings(fiber);
                let ghost queue_before = views(queue@);
                let ghost work = views(more@);
                queue.append(&mut more);
                proof {
                    assert(views(queue@) =~= queue_before + work);
                    assert(views(queue@).skip(next as int) =~= rest + work);
                }
            } else {
                proof {
                    queue_rest(s, pending);
                }
                ready.push(transition);
            }
        }
        proof {
            assert(views(queue@).skip(next as int) =~= Seq::empty());
        }
        let ghost loads = views(ready@);
        let mut released_now = self.release_ready_unloads();
        let ghost freed = views(released_now@);
        ready.append(&mut released_now);
        proof {
            assert(views(ready@) =~= loads + freed);
        }
        ready
    }

    /// Schedules zero or one transition.
    fn schedule_transitions(&mut self, transition: Option<FiberTransition>) -> (r: Vec<
        FiberTransition,
    >)
        requires
            old(self).wf(),
            room(old(self)@.fibers),
            queue_valid(old(self)@, as_queue(view_option(transition))),
        ensures
            final(self).wf(),
            final(self)@ == scheduled(old(self)@, as_queue(view_option(transition))),
            views(r@) == scheduled_work(old(self)@, as_queue(view_option(transition))),
            consumers_first(final(self)@, views(r@)),
    {
        let mut batch: Vec<FiberTransition> = Vec::new();
        let ghost queue = as_queue(view_option(transition));
        match transition {
            Some(t) => {
                batch.push(t);
            },
            None => {},
        }
        proof {
            assert(views(batch@) =~= queue);
        }
        self.schedule_transition_batch(batch)
    }
}

/// Refreshing against two sets of providers in turn is refreshing against the second.
proof fn twice_refreshed(
    fibers: Seq<RecordModel>,
    first: Map<ProviderKeyModel, FiberId>,
    second: Map<ProviderKeyModel, FiberId>,
)
    ensures
        refreshed(refreshed(fibers, first), second) == refreshed(fibers, second),
{
    assert(refreshed(refreshed(fibers, first), second) =~= refreshed(fibers, second));
}

impl SupervisorState {
    /// Creates a fiber after validating its optional parent.
    pub fn create_fiber(&mut self, parent: Option<FiberId>, require_live_parent: bool) -> (r: Result<
        FiberId,
        CordisError,
    >)
        requires
            old(self).wf(),
            old(self)@.next_fiber < u64::MAX,
        ensures
            final(self).wf(),
            match (r, create_error(old(self)@, parent, require_live_parent)) {
                (Ok(id), None) => id.0 == old(self)@.next_fiber && final(self)@ == created(
                    old(self)@,
                    parent,
                ),
                (Err(error), Some(expected)) => error@ == expected && final(self)@ == old(self)@,
                _ => false,
            },
    {
        if let Some(parent_id) = parent {
            match self.find(parent_id) {
                None => {
                    return Err(CordisError::UnknownFiber { fiber: parent_id });
                },
                Some(i) => {
                    proof {
                        assert(self@.fibers[i as int] == self.fibers@[i as int]@);
                    }
                    let live = match self.fibers[i].machine.state() {
                        FiberState::Loading => true,
                        FiberState::Active => true,
                        _ => false,
                    };
                    if require_live_parent && !live {
                        return Err(CordisError::InactiveFiber { fiber: parent_id });
                    }
                },
            }
        }
        let ghost before = self@;
        let id = FiberId::next(&mut self.fiber_ids);
        self.fibers.push(
            FiberRecord {
                id,
                parent,
                desired: DependencyResolution::default(),
                committed: None,
                dependency_error: None,
                context: None,
                injects: Vec::new(),
                machine: FiberMachine::new(id),
                retired: false,
            },
        );
        proof {
            let r = fresh_record(id, parent);
            assert(self.fibers@.last()@.injects =~= Seq::empty());
            assert(self.fibers@.last()@ == r);
            assert(self@ == created(before, parent));
            creation_keeps(before, parent);
        }
        Ok(id)
    }

    /// Allocates a realm that no earlier call returned.
    pub fn allocate_realm(&mut self) -> (r: RealmId)
        requires
            old(self).wf(),
            old(self)@.next_realm < u64::MAX,
            old(self)@.allocated_realms < u64::MAX,
        ensures
            final(self).wf(),
            r.0 == old(self)@.next_realm,
            final(self)@ == (SupervisorModel {
                next_realm: (old(self)@.next_realm + 1) as u64,
                allocated_realms: (old(self)@.allocated_realms + 1) as u64,
                ..old(self)@
            }),
    {
        let realm = RealmId::next(&mut self.realm_ids);
        self.allocated_realms = self.allocated_realms + 1;
        realm
    }

    /// Declares or replaces a fiber's dependencies. A replacement also retries a failed fiber.
    pub fn configure_dependencies(
        &mut self,
        fiber: FiberId,
        context: Context,
        injects: Vec<InjectSpec>,
    ) -> (r: Result<DependencyChange, CordisError>)
        requires
            old(self).wf(),
            generations_left(old(self)@.fibers),
        ensures
            final(self).wf(),
            match (r, configure_error(old(self)@, fiber, context@, views(injects@))) {
                (Ok(change), None) => {
                    let s = reconfigured(old(self)@, fiber, context@, views(injects@));
                    let work = reconfigured_work(old(self)@, fiber, context@, views(injects@));
                    &&& final(self)@ == scheduled(s, work)
                    &&& change.resolution@ == resolve_all(
                        old(self)@.providers,
                        context@.realms,
                        views(injects@),
                    )
                    &&& views(change.transitions@) == scheduled_work(s, work)
                    &&& consumers_first(final(self)@, views(change.transitions@))
                },
                (Err(error), Some(expected)) => error@ == expected && final(self)@ == old(self)@,
                _ => false,
            },
    {
        let owner_id = context.fiber();
        if owner_id.0 != fiber.0 {
            return Err(CordisError::ContextFiberMismatch { expected: fiber, actual: owner_id });
        }
        let i = match self.find(fiber) {
            None => {
                return Err(CordisError::UnknownFiber { fiber });
            },
            Some(i) => i,
        };
        match validate_injects(fiber, &injects) {
            Err(error) => {
                return Err(error);
            },
            Ok(_) => {},
        }
        let resolution = match self.resolve_dependencies(&context, &injects) {
            Err(error) => {
                return Err(error);
            },
            Ok(resolution) => resolution,
        };
        let ghost before = self@;
        let ghost declaration = views(injects@);
        let ghost scope = context@;
        let was_failed = match self.fibers[i].machine.state() {
            FiberState::Failed => true,
            _ => false,
        };
        proof {
            assert(before.fibers[i as int] == self.fibers@[i as int]@);
        }
        self.fibers[i].desired = resolution.duplicate();
        self.fibers[i].context = Some(context);
        self.fibers[i].injects = injects;
        proof {
            let next = declared(before, fiber, scope, declaration);
            assert(self@.fibers =~= next.fibers);
            assert(self@ == next);
            let none = Seq::<TransitionModel>::empty();
            assert(queue_valid(before, none));
            assert(record_valid(before.fibers[i as int], before.next_fiber));
            replaced_keeps(before, none, i as int, next.fibers[i as int]);
            settling_keeps(next);
        }
        let mut transitions = self.reconcile_lifecycles();
        let ghost moved = self@;
        let ghost work = views(transitions@);
        proof {
            assert(moved.fibers[i as int] == self.fibers@[i as int]@);
            assert(fiber_at(before.fibers, fiber, i as int));
        }
        if was_failed {
            let ghost m = moved.fibers[i as int].machine;
            proof {
                assert(record_valid(moved.fibers[i as int], moved.next_fiber));
            }
            let started_now = self.fibers[i].machine.restart();
            proof {
                let after = reconfigured(before, fiber, scope, declaration);
                assert(self@.fibers =~= after.fibers);
                assert(self@ == after);
                if m.state is Failed {
                    restart_keeps_valid(m);
                    idle_is_free(moved, work, i as int);
                }
                replaced_keeps(moved, work, i as int, after.fibers[i as int]);
                assert(work + Seq::<TransitionModel>::empty() =~= work);
                if restart_kind(m) is Some {
                    assert(after.fibers[i as int].machine.active == Some(
                        next_transition(m, restart_kind(m)->Some_0),
                    ));
                    assert(work + as_queue(restart_transition(m)) =~= work.push(
                        next_transition(m, restart_kind(m)->Some_0),
                    ));
                }
            }
            match started_now {
                Some(transition) => {
                    transitions.push(transition);
                },
                None => {},
            }
        } else {
            proof {
                assert(work + Seq::<TransitionModel>::empty() =~= work);
            }
        }
        let transitions = self.schedule_transition_batch(transitions);
        Ok(DependencyChange { resolution, transitions })
    }

    /// Freezes a fiber's current selection as what it is loaded against.
    pub fn commit_dependencies(&mut self, fiber: FiberId) -> (r: Result<CommittedView, CordisError>)
        requires
            old(self).wf(),
        ensures
            final(self).wf(),
            match (r, commit_error(old(self)@, fiber)) {
                (Ok(view), None) => {
                    let i = index_of(old(self)@.fibers, fiber);
                    &&& view@ == old(self)@.fibers[i].desired
                    &&& final(self)@ == with_record(
                        old(self)@,
                        i,
                        (RecordModel { committed: Some(view@), ..old(self)@.fibers[i] }),
                    )
                },
                (Err(error), Some(expected)) => error@ == expected && final(self)@ == old(self)@,
                _ => false,
            },
    {
        let i = match self.find(fiber) {
            None => {
                return Err(CordisError::UnknownFiber { fiber });
            },
            Some(i) => i,
        };
        let ghost before = self@;
        let ghost desired = before.fibers[i as int].desired;
        let ghost p = |k: int| missing(desired[k]);
        proof {
            assert(before.fibers[i as int] == self.fibers@[i as int]@);
        }
        match self.fibers[i].desired.commit() {
            Err(error) => {
                proof {
                    let k = choose|k: int| #[trigger]
                        first_missing(desired, k) && error@ == (ErrorModel::InactiveDependency {
                            key: desired[k].key,
                        });
                    first_index_found(desired.len(), p, k);
                }
                Err(error)
            },
            Ok(view) => {
                proof {
                    first_index_is_first(desired.len(), p);
                    if first_index(desired.len(), p) is Some {
                        let k = first_index(desired.len(), p)->Some_0;
                        assert(missing(desired[k]));
                    }
                }
                self.fibers[i].committed = Some(view.duplicate());
                proof {
                    let r = RecordModel { committed: Some(view@), ..before.fibers[i as int] };
                    assert(self@.fibers =~= before.fibers.update(i as int, r));
                    commit_keeps(before, i as int, Some(view@));
                }
                Ok(view)
            },
        }
    }

    /// Publishes a provider. A slot has at most one owner.
    pub fn provide(&mut self, key: ProviderKey, provider: FiberId) -> (r: Result<
        RegistryChange,
        CordisError,
    >)
        requires
            old(self).wf(),
            generations_left(old(self)@.fibers),
        ensures
            final(self).wf(),
            match (r, provide_error(old(self)@, key@, provider)) {
                (Ok(change), None) => {
                    let s = reassigned(old(self)@, old(self)@.providers.insert(key@, provider));
                    &&& final(self)@ == settled(s)
                    &&& change.key@ == key@
                    &&& change.affected@ == changed(old(self)@.fibers, s.fibers, s.fibers.len())
                    &&& views(change.transitions@) == settled_work(s)
                    &&& consumers_first(final(self)@, views(change.transitions@))
                },
                (Err(error), Some(expected)) => error@ == expected && final(self)@ == old(self)@,
                _ => false,
            },
    {
        match self.find(provider) {
            None => {
                return Err(CordisError::UnknownFiber { fiber: provider });
            },
            Some(_) => {},
        }
        match self.find_slot(&key) {
            Some(slot) => {
                let existing = self.providers[slot].provider;
                return Err(CordisError::DuplicateProvider { key, provider: existing });
            },
            None => {},
        }
        let ghost before = self@;
        let ghost providers = before.providers.insert(key@, provider);
        let ghost slots = views(self.providers@);
        self.providers.push(ProviderSlot { key: key.duplicate(), provider });
        proof {
            let after = views(self.providers@);
            slots_facts(slots);
            assert(after =~= slots.push((key@, provider)));
            assert forall|a: int, b: int| 0 <= a < b < after.len() implies (#[trigger] after[a]).0
                != (#[trigger] after[b]).0 by {
                assert(after[a] == slots[a]);
                if b < slots.len() {
                    assert(after[b] == slots[b]);
                }
            }
            slots_facts(after);
            assert(slots_map(after) =~= providers) by {
                assert forall|k: ProviderKeyModel|
                    slots_map(after).dom().contains(k) <==> #[trigger] providers.dom().contains(
                        k,
                    ) by {
                    if slots_map(after).dom().contains(k) {
                        let p = choose|p: int| #[trigger] slot_at(after, k, p);
                        if p < slots.len() {
                            assert(slots[p] == after[p]);
                            assert(slots_map(slots).dom().contains(slots[p].0));
                        }
                    }
                    if k == key@ {
                        assert(after[slots.len() as int].0 == k);
                    } else if slots_map(slots).dom().contains(k) {
                        let p = choose|p: int| #[trigger] slot_at(slots, k, p);
                        assert(slots[p] == after[p]);
                        assert(slots_map(after).dom().contains(after[p].0));
                    }
                }
                assert forall|k: ProviderKeyModel| #[trigger]
                    slots_map(after).dom().contains(k) implies slots_map(after)[k]
                    == providers[k] by {
                    let p = choose|p: int| #[trigger] slot_at(after, k, p);
                    assert(slots_map(after)[after[p].0] == after[p].1);
                    if p < slots.len() {
                        assert(slots[p] == after[p]);
                        assert(slots_map(slots)[slots[p].0] == slots[p].1);
                    }
                }
            }
            slot_change_leaves_current(before, providers, key@);
            assert(owners_known(before.fibers, providers));
            reassigned_keeps(before, providers);
        }
        let affected = self.recompute_affected(&key);
        let ghost s = self@;
        proof {
            assert(s == reassigned(before, providers));
            settling_keeps(s);
        }
        let started_now = self.reconcile_lifecycles();
        let transitions = self.schedule_transition_batch(started_now);
        Ok(RegistryChange { key, affected, transitions })
    }

    /// Withdraws a provider. Only the owner of a slot may do that.
    pub fn withdraw(&mut self, key: ProviderKey, provider: FiberId) -> (r: Result<
        RegistryChange,
        CordisError,
    >)
        requires
            old(self).wf(),
            generations_left(old(self)@.fibers),
        ensures
            final(self).wf(),
            match (r, withdraw_error(old(self)@, key@, provider)) {
                (Ok(change), None) => {
                    let s = reassigned(old(self)@, old(self)@.providers.remove(key@));
                    &&& final(self)@ == settled(s)
                    &&& change.key@ == key@
                    &&& change.affected@ == changed(old(self)@.fibers, s.fibers, s.fibers.len())
                    &&& views(change.transitions@) == settled_work(s)
                    &&& consumers_first(final(self)@, views(change.transitions@))
                },
                (Err(error), Some(expected)) => error@ == expected && final(self)@ == old(self)@,
                _ => false,
            },
    {
        let slot = match self.find_slot(&key) {
            None => {
                return Err(CordisError::ProviderNotFound { key });
            },
            Some(slot) => slot,
        };
        let actual = self.providers[slot].provider;
        if actual.0 != provider.0 {
            return Err(
                CordisError::ProviderOwnershipMismatch { key, expected: provider, actual },
            );
        }
        let ghost before = self@;
        let ghost providers = before.providers.remove(key@);
        self.remove_slot(slot);
        proof {
            slot_change_leaves_current(before, providers, key@);
            assert(owners_known(before.fibers, providers));
            reassigned_keeps(before, providers);
        }
        let affected = self.recompute_affected(&key);
        let ghost s = self@;
        proof {
            assert(s == reassigned(before, providers));
            settling_keeps(s);
        }
        let started_now = self.reconcile_lifecycles();
        let transitions = self.schedule_transition_batch(started_now);
        Ok(RegistryChange { key, affected, transitions })
    }

    /// Whether the fiber's unload is waiting for consumers.
    fn waits(&self, fiber: FiberId) -> (r: bool)
        ensures
            r == is_blocked(self@, fiber),
    {
        let mut i: usize = 0;
        while i < self.blocked_unloads.len()
            invariant
                i <= self.blocked_unloads.len(),
                forall|k: int| 0 <= k < i ==> (#[trigger] self@.blocked[k]).fiber != fiber,
            decreases self.blocked_unloads.len() - i,
        {
            if self.blocked_unloads[i].fiber.0 == fiber.0 {
                proof {
                    assert(self@.blocked[i as int].fiber == fiber);
                }
                return true;
            }
            proof {
                assert(self@.blocked[i as int] == self.blocked_unloads@[i as int]@);
            }
            i = i + 1;
        }
        false
    }

    /// Applies the completion of an externally executed transition.
    pub fn complete_transition(
        &mut self,
        fiber: FiberId,
        generation: u64,
        result: Result<(), CordisError>,
    ) -> (r: Result<TransitionUpdate, CordisError>)
        requires
            old(self).wf(),
            generations_left(old(self)@.fibers),
        ensures
            final(self).wf(),
            match (r, complete_error(old(self)@, fiber)) {
                (Ok(update), None) => {
                    let outcome = result_model(result);
                    let m = old(self)@.fibers[index_of(old(self)@.fibers, fiber)].machine;
                    let s = completion_state(old(self)@, fiber, generation, outcome);
                    let work = completion_work(old(self)@, fiber, generation, outcome);
                    &&& final(self)@ == scheduled(s, work)
                    &&& update.status is IgnoredStale <==> !current_generation(m, generation)
                    &&& views(update.ready@) == scheduled_work(s, work)
                    &&& consumers_first(final(self)@, views(update.ready@))
                },
                (Err(error), Some(expected)) => error@ == expected && final(self)@ == old(self)@,
                _ => false,
            },
    {
        if self.waits(fiber) {
            return Err(CordisError::TransitionBlocked { fiber });
        }
        let i = match self.find(fiber) {
            None => {
                return Err(CordisError::UnknownFiber { fiber });
            },
            Some(i) => i,
        };
        let ghost before = self@;
        let ghost r = before.fibers[i as int];
        let ghost outcome = result_model(result);
        proof {
            assert(r == self.fibers@[i as int]@);
            assert(record_valid(r, before.next_fiber));
        }
        let failed = result.is_err();
        let (ended_load, ended_unload) = match &self.fibers[i].machine.active {
            Some(active) => if active.generation == generation {
                match &active.kind {
                    TransitionKind::Load { .. } => (true, false),
                    TransitionKind::Unload => (false, true),
                }
            } else {
                (false, false)
            },
            None => (false, false),
        };
        let failed_load = failed && ended_load;
        let advance = self.fibers[i].machine.complete(generation, result);
        if ended_unload || failed_load {
            self.fibers[i].committed = None;
        }
        let (status, transition) = match advance {
            TransitionAdvance::IgnoredStale => (CompletionStatus::IgnoredStale, None),
            TransitionAdvance::Settled => (CompletionStatus::Applied, None),
            TransitionAdvance::Start(transition) => (CompletionStatus::Applied, Some(transition)),
        };
        let ghost next = advanced(before, fiber, generation, outcome);
        let ghost first = as_queue(view_option(transition));
        proof {
            assert(self@.fibers =~= next.fibers);
            assert(self@ == next);
            assert(first == as_queue(
                advance_transition(completed(r.machine, generation, outcome).1),
            ));
            let none = Seq::<TransitionModel>::empty();
            completion_keeps_valid(r.machine, generation, outcome);
            assert(queue_valid(before, none));
            replaced_keeps(before, none, i as int, next.fibers[i as int]);
            if view_option(transition) is Some {
                assert(first =~= none.push(view_option(transition)->Some_0));
            } else {
                assert(first =~= none);
            }
            assert(queue_valid(next, first));
            assert(first + none =~= first);
        }
        let mut transitions: Vec<FiberTransition> = Vec::new();
        match transition {
            Some(t) => {
                transitions.push(t);
            },
            None => {},
        }
        proof {
            assert(views(transitions@) =~= first);
        }
        if failed_load {
            proof {
                withdrawn_keeps(next, fiber, first);
            }
            let mut more = self.withdraw_provider_bindings(fiber);
            let ghost work = views(more@);
            transitions.append(&mut more);
            proof {
                assert(views(transitions@) =~= first + work);
            }
        }
        let ready = self.schedule_transition_batch(transitions);
        Ok(TransitionUpdate { status, ready })
    }

    /// Retires a fiber: it gives up its slots, is unloaded once its consumers are gone, and
    /// never comes back.
    pub fn retire_fiber(&mut self, fiber: FiberId) -> (r: Result<Vec<FiberTransition>, CordisError>)
        requires
            old(self).wf(),
            generations_left(old(self)@.fibers),
        ensures
            final(self).wf(),
            match (r, unknown_error(old(self)@, fiber)) {
                (Ok(work), None) => {
                    let s = withdrawn(marked(old(self)@, fiber), fiber);
                    let queue = retirement_work(old(self)@, fiber);
                    &&& final(self)@ == scheduled(s, queue)
                    &&& views(work@) == scheduled_work(s, queue)
                    &&& consumers_first(final(self)@, views(work@))
                },
                (Err(error), Some(expected)) => error@ == expected && final(self)@ == old(self)@,
                _ => false,
            },
    {
        let i = match self.find(fiber) {
            None => {
                return Err(CordisError::UnknownFiber { fiber });
            },
            Some(i) => i,
        };
        let ghost before = self@;
        let ghost r = before.fibers[i as int];
        proof {
            assert(r == self.fibers@[i as int]@);
            assert(record_valid(r, before.next_fiber));
        }
        self.fibers[i].retired = true;
        let transition = self.fibers[i].machine.set_desired(DesiredState::Retired);
        let ghost next = marked(before, fiber);
        let ghost own = as_queue(view_option(transition));
        proof {
            assert(self@.fibers =~= next.fibers);
            assert(self@ == next);
            let none = Seq::<TransitionModel>::empty();
            desired_keeps_valid(r.machine, DesiredModel::Retired);
            assert(queue_valid(before, none));
            if r.machine.active is None {
                idle_is_free(before, none, i as int);
            }
            replaced_keeps(before, none, i as int, next.fibers[i as int]);
            if view_option(transition) is Some {
                assert(own =~= none.push(view_option(transition)->Some_0));
            } else {
                assert(own =~= none);
            }
            assert(queue_valid(next, own));
            withdrawn_keeps(next, fiber, own);
            queue_swapped(withdrawn(next, fiber), own, withdrawn_work(next, fiber));
        }
        let mut transitions = self.withdraw_provider_bindings(fiber);
        let ghost work = views(transitions@);
        match transition {
            Some(t) => {
                transitions.push(t);
            },
            None => {},
        }
        proof {
            assert(views(transitions@) =~= work + own);
        }
        Ok(self.schedule_transition_batch(transitions))
    }

    /// Explicitly retries a failed fiber.
    pub fn restart_fiber(&mut self, fiber: FiberId) -> (r: Result<Vec<FiberTransition>, CordisError>)
        requires
            old(self).wf(),
            generations_left(old(self)@.fibers),
        ensures
            final(self).wf(),
            match (r, unknown_error(old(self)@, fiber)) {
                (Ok(work), None) => {
                    let m = old(self)@.fibers[index_of(old(self)@.fibers, fiber)].machine;
                    let s = with_machine(old(self)@, fiber, restarted(m));
                    let queue = as_queue(restart_transition(m));
                    &&& final(self)@ == scheduled(s, queue)
                    &&& views(work@) == scheduled_work(s, queue)
                    &&& consumers_first(final(self)@, views(work@))
                },
                (Err(error), Some(expected)) => error@ == expected && final(self)@ == old(self)@,
                _ => false,
            },
    {
        let i = match self.find(fiber) {
            None => {
                return Err(CordisError::UnknownFiber { fiber });
            },
            Some(i) => i,
        };
        let ghost before = self@;
        let ghost r = before.fibers[i as int];
        proof {
            assert(r == self.fibers@[i as int]@);
            assert(record_valid(r, before.next_fiber));
        }
        let transition = self.fibers[i].machine.restart();
        proof {
            let next = with_machine(before, fiber, restarted(r.machine));
            assert(self@.fibers =~= next.fibers);
            assert(self@ == next);
            let none = Seq::<TransitionModel>::empty();
            restart_keeps_valid(r.machine);
            assert(queue_valid(before, none));
            if r.machine.active is None {
                idle_is_free(before, none, i as int);
            }
            replaced_keeps(before, none, i as int, next.fibers[i as int]);
            let own = as_queue(view_option(transition));
            assert(own == as_queue(restart_transition(r.machine)));
            if view_option(transition) is Some {
                assert(own =~= none.push(view_option(transition)->Some_0));
            } else {
                assert(own =~= none);
            }
        }
        Ok(self.schedule_transitions(transition))
    }

    /// Forces an active fiber through unload and a fresh load.
    pub fn reload_fiber(&mut self, fiber: FiberId) -> (r: Result<Vec<FiberTransition>, CordisError>)
        requires
            old(self).wf(),
            generations_left(old(self)@.fibers),
        ensures
            final(self).wf(),
            match (r, unknown_error(old(self)@, fiber)) {
                (Ok(work), None) => {
                    let m = old(self)@.fibers[index_of(old(self)@.fibers, fiber)].machine;
                    let s = if reloadable(m) {
                        with_machine(old(self)@, fiber, started(m, KindModel::Unload))
                    } else {
                        old(self)@
                    };
                    let queue = if reloadable(m) {
                        seq![next_transition(m, KindModel::Unload)]
                    } else {
                        Seq::empty()
                    };
                    &&& final(self)@ == scheduled(s, queue)
                    &&& views(work@) == scheduled_work(s, queue)
                    &&& consumers_first(final(self)@, views(work@))
                },
                (Err(error), Some(expected)) => error@ == expected && final(self)@ == old(self)@,
                _ => false,
            },
    {
        let i = match self.find(fiber) {
            None => {
                return Err(CordisError::UnknownFiber { fiber });
            },
            Some(i) => i,
        };
        let ghost before = self@;
        let ghost r = before.fibers[i as int];
        proof {
            assert(r == self.fibers@[i as int]@);
            assert(record_valid(r, before.next_fiber));
        }
        let transition = self.fibers[i].machine.reload();
        proof {
            let none = Seq::<TransitionModel>::empty();
            assert(queue_valid(before, none));
            if reloadable(r.machine) {
                let next = with_machine(before, fiber, started(r.machine, KindModel::Unload));
                assert(self@.fibers =~= next.fibers);
                assert(self@ == next);
                reload_keeps_valid(r.machine);
                idle_is_free(before, none, i as int);
                replaced_keeps(before, none, i as int, next.fibers[i as int]);
                assert(as_queue(view_option(transition)) =~= none.push(
                    next_transition(r.machine, KindModel::Unload),
                ));
            } else {
                assert(self@.fibers =~= before.fibers);
                assert(self@ == before);
                assert(as_queue(view_option(transition)) =~= none);
            }
        }
        Ok(self.schedule_transitions(transition))
    }

    /// Copies everything there is to see.
    pub fn snapshot(&self) -> (r: RuntimeSnapshot)
        requires
            self.wf(),
        ensures
            r.fibers.len() == self@.fibers.len(),
            forall|i: int|
                0 <= i < r.fibers.len() ==> shows(#[trigger] r.fibers@[i], self@.fibers[i]),
            r.allocated_realms == self@.allocated_realms,
            self@.providers.dom().finite(),
            r.provider_count == self@.providers.dom().len(),
    {
        let mut fibers: Vec<FiberSnapshot> = Vec::new();
        let mut i: usize = 0;
        while i < self.fibers.len()
            invariant
                i <= self.fibers.len(),
                fibers.len() == i,
                forall|k: int| 0 <= k < i ==> shows(#[trigger] fibers@[k], self@.fibers[k]),
            decreases self.fibers.len() - i,
        {
            let record = &self.fibers[i];
            proof {
                assert(self@.fibers[i as int] == record@);
            }
            let committed = match &record.committed {
                Some(view) => Some(view.duplicate()),
                None => None,
            };
            let active_transition = match record.machine.active_transition() {
                Some(transition) => Some(transition.duplicate()),
                None => None,
            };
            fibers.push(
                FiberSnapshot {
                    id: record.id,
                    parent: record.parent,
                    desired: record.desired.duplicate(),
                    committed,
                    state: record.machine.state(),
                    active_transition,
                    dependency_error: duplicate_error(record.dependency_error.as_ref()),
                    failure: duplicate_error(record.machine.failure()),
                    teardown_error: duplicate_error(record.machine.teardown_error()),
                },
            );
            i = i + 1;
        }
        proof {
            slots_count(views(self.providers@));
        }
        RuntimeSnapshot {
            fibers,
            allocated_realms: self.allocated_realms,
            provider_count: self.providers.len(),
        }
    }
}

fn duplicate_error(error: Option<&CordisError>) -> (r: Option<CordisError>)
    ensures
        match (r, error) {
            (Some(copy), Some(original)) => copy@ == original@,
            (None, None) => true,
            _ => false,
        },
{
    match error {
        Some(inner) => Some(inner.duplicate()),
        None => None,
    }
}

/// There are as many slots as keys.
proof fn slots_count(slots: Seq<(ProviderKeyModel, FiberId)>)
    requires
        slots_unique(slots),
    ensures
        slots_map(slots).dom().finite(),
        slots_map(slots).dom().len() == slots.len(),
{
    slots_facts(slots);
    let keys = Seq::new(slots.len(), |i: int| slots[i].0);
    assert(keys.no_duplicates()) by {
        assert forall|i: int, j: int| 0 <= i < keys.len() && 0 <= j < keys.len() && i != j implies keys[i]
            != keys[j] by {
            if i < j {
                assert(slots[i].0 != slots[j].0);
            } else {
                assert(slots[j].0 != slots[i].0);
            }
        }
    }
    keys.unique_seq_to_set();
    assert(slots_map(slots).dom() =~= keys.to_set()) by {
        assert forall|key: ProviderKeyModel|
            slots_map(slots).dom().contains(key) <==> #[trigger] keys.to_set().contains(key) by {
            if slots_map(slots).dom().contains(key) {
                let k = choose|k: int| #[trigger] slot_at(slots, key, k);
                assert(keys[k] == key);
            }
            if keys.to_set().contains(key) {
                let k = choose|k: int| 0 <= k < keys.len() && keys[k] == key;
                assert(slots_map(slots).dom().contains(slots[k].0));
            }
        }
    }
}

impl RuntimeSnapshot {
    /// The snapshot of one fiber.
    pub fn fiber(&self, fiber: FiberId) -> (r: Result<&FiberSnapshot, CordisError>)
        ensures
            match r {
                Ok(found) => exists|i: int| #[trigger]
                    snapshot_at(self.fibers@, fiber, i) && self.fibers@[i] == *found,
                Err(error) => (forall|i: int| !#[trigger] snapshot_at(self.fibers@, fiber, i))
                    && error@ == (ErrorModel::UnknownFiber { fiber }),
            },
    {
        let mut i: usize = 0;
        while i < self.fibers.len()
            invariant
                i <= self.fibers.len(),
                forall|k: int| 0 <= k < i ==> !#[trigger] snapshot_at(self.fibers@, fiber, k),
            decreases self.fibers.len() - i,
        {
            if self.fibers[i].id.0 == fiber.0 {
                proof {
                    assert(snapshot_at(self.fibers@, fiber, i as int));
                }
                return Ok(&self.fibers[i]);
            }
            proof {
                assert(!snapshot_at(self.fibers@, fiber, i as int));
            }
            i = i + 1;
        }
        Err(CordisError::UnknownFiber { fiber })
    }

    /// Whether no fiber has a transition running.
    pub fn is_quiescent(&self) -> (r: bool)
        ensures
            r == forall|i: int|
                0 <= i < self.fibers@.len() ==> (
                #[trigger] self.fibers@[i]).active_transition is None,
    {
        let mut i: usize = 0;
        while i < self.fibers.len()
            invariant
                i <= self.fibers.len(),
                forall|k: int|
                    0 <= k < i ==> (#[trigger] self.fibers@[k]).active_transition is None,
            decreases self.fibers.len() - i,
        {
            if self.fibers[i].active_transition.is_some() {
                return false;
            }
            i = i + 1;
        }
        true
    }
}

/// `i` shows a fiber.
pub open spec fn snapshot_at(fibers: Seq<FiberSnapshot>, fiber: FiberId, i: int) -> bool {
    0 <= i < fibers.len() && fibers[i].id == fiber
}

impl FiberSnapshot {
    /// Whether no transition of this fiber is running.
    pub fn is_settled(&self) -> (r: bool)
        ensures
            r == (self.active_transition is None),
    {
        self.active_transition.is_none()
    }

    /// Whether this fiber is gone for good.
    pub fn is_disposed(&self) -> (r: bool)
        ensures
            r == (self.state is Disposed),
    {
        match self.state {
            FiberState::Disposed => true,
            _ => false,
        }
    }
}

} // verus!
