//! What the supervisor's state is, and how every operation changes it.
use crate::context::{realm_of, ContextModel};
use crate::error::ErrorModel;
use crate::fiber::{
    completed, current_generation, desired_keeps_valid, desired_transition, epoch_of,
    fresh_machine, machine_valid, next_transition, restart_kind, restarted, started, with_desired,
    AdvanceModel, DesiredModel, MachineModel, TransitionModel,
};
use crate::graph::{members, reaches};
use crate::id::{FiberId, RealmId};
use crate::search::first_index;
use crate::service::{missing, ready, InjectModel, ProviderKeyModel, ResolvedModel, ServiceModel};
use vstd::prelude::*;

verus! {

// ---------------------------------------------------------------------------------------------
// Records
// ---------------------------------------------------------------------------------------------

/// Everything known of one fiber.
pub struct RecordModel {
    pub id: FiberId,
    pub parent: Option<FiberId>,
    pub desired: Seq<ResolvedModel>,
    pub committed: Option<Seq<ResolvedModel>>,
    pub dependency_error: Option<ErrorModel>,
    pub context: Option<ContextModel>,
    pub injects: Seq<InjectModel>,
    pub machine: MachineModel,
    pub retired: bool,
}

/// A fiber that was just created.
pub open spec fn fresh_record(id: FiberId, parent: Option<FiberId>) -> RecordModel {
    RecordModel {
        id,
        parent,
        desired: Seq::empty(),
        committed: None,
        dependency_error: None,
        context: None,
        injects: Seq::empty(),
        machine: fresh_machine(id),
        retired: false,
    }
}

/// No slot occurs twice.
pub open spec fn slots_unique(slots: Seq<(ProviderKeyModel, FiberId)>) -> bool {
    forall|i: int, j: int| 0 <= i < j < slots.len() ==> (#[trigger] slots[i]).0 != (
    #[trigger] slots[j]).0
}

/// `i` holds the slot of `key`.
pub open spec fn slot_at(slots: Seq<(ProviderKeyModel, FiberId)>, key: ProviderKeyModel, i: int) -> bool {
    0 <= i < slots.len() && slots[i].0 == key
}

/// The owner of every slot.
pub open spec fn slots_map(slots: Seq<(ProviderKeyModel, FiberId)>) -> Map<
    ProviderKeyModel,
    FiberId,
> {
    Map::new(
        |key: ProviderKeyModel| exists|i: int| #[trigger] slot_at(slots, key, i),
        |key: ProviderKeyModel| slots[choose|i: int| #[trigger] slot_at(slots, key, i)].1,
    )
}

/// The owner of a slot, if it is taken.
pub open spec fn owner(providers: Map<ProviderKeyModel, FiberId>, key: ProviderKeyModel) -> Option<
    FiberId,
> {
    if providers.dom().contains(key) {
        Some(providers[key])
    } else {
        None
    }
}

/// The whole state of a supervisor. Fibers and waiting unloads are in ascending fiber order.
pub struct SupervisorModel {
    pub fibers: Seq<RecordModel>,
    pub providers: Map<ProviderKeyModel, FiberId>,
    pub blocked: Seq<TransitionModel>,
    pub next_fiber: u64,
    pub next_realm: u64,
    pub allocated_realms: u64,
}

// ---------------------------------------------------------------------------------------------
// Looking fibers up
// ---------------------------------------------------------------------------------------------

/// `i` is the position of `fiber`.
pub open spec fn fiber_at(fibers: Seq<RecordModel>, fiber: FiberId, i: int) -> bool {
    0 <= i < fibers.len() && fibers[i].id == fiber
}

/// The fiber exists.
pub open spec fn known(fibers: Seq<RecordModel>, fiber: FiberId) -> bool {
    exists|i: int| #[trigger] fiber_at(fibers, fiber, i)
}

/// The position of a fiber that exists.
pub open spec fn index_of(fibers: Seq<RecordModel>, fiber: FiberId) -> int {
    choose|i: int| #[trigger] fiber_at(fibers, fiber, i)
}

/// Fibers are listed by ascending identifier.
pub open spec fn ascending(fibers: Seq<RecordModel>) -> bool {
    forall|i: int, j: int|
        0 <= i < j < fibers.len() ==> (#[trigger] fibers[i]).id.0 < (#[trigger] fibers[j]).id.0
}

pub proof fn index_of_is(fibers: Seq<RecordModel>, fiber: FiberId, i: int)
    requires
        ascending(fibers),
        fiber_at(fibers, fiber, i),
    ensures
        known(fibers, fiber),
        index_of(fibers, fiber) == i,
{
    let k = index_of(fibers, fiber);
    assert(fiber_at(fibers, fiber, k));
    if k < i {
        assert(fibers[k].id.0 < fibers[i].id.0);
    }
    if i < k {
        assert(fibers[i].id.0 < fibers[k].id.0);
    }
}

// ---------------------------------------------------------------------------------------------
// Dependency resolution
// ---------------------------------------------------------------------------------------------

/// The slot a declared dependency resolves to.
pub open spec fn slot_key(realms: Seq<(ServiceModel, RealmId)>, inject: InjectModel) -> ProviderKeyModel {
    ProviderKeyModel { service: inject.service, realm: realm_of(realms, inject.service)->Some_0 }
}

/// One declared dependency against the current providers.
pub open spec fn resolve_entry(
    providers: Map<ProviderKeyModel, FiberId>,
    realms: Seq<(ServiceModel, RealmId)>,
    inject: InjectModel,
) -> ResolvedModel {
    ResolvedModel {
        key: slot_key(realms, inject),
        provider: owner(providers, slot_key(realms, inject)),
        requirement: inject.requirement,
    }
}

/// All declared dependencies against the current providers.
pub open spec fn resolve_all(
    providers: Map<ProviderKeyModel, FiberId>,
    realms: Seq<(ServiceModel, RealmId)>,
    injects: Seq<InjectModel>,
) -> Seq<ResolvedModel> {
    Seq::new(injects.len(), |i: int| resolve_entry(providers, realms, injects[i]))
}

/// A dependency whose service is in no realm.
pub open spec fn realm_missing(
    realms: Seq<(ServiceModel, RealmId)>,
    injects: Seq<InjectModel>,
) -> spec_fn(int) -> bool {
    |i: int| realm_of(realms, injects[i].service) is None
}

/// Every declared service is in some realm.
pub open spec fn realms_known(
    realms: Seq<(ServiceModel, RealmId)>,
    injects: Seq<InjectModel>,
) -> bool {
    first_index(injects.len(), realm_missing(realms, injects)) is None
}

/// A dependency whose service was already declared.
pub open spec fn declared_before(injects: Seq<InjectModel>) -> spec_fn(int) -> bool {
    |i: int| exists|j: int| 0 <= j < i && (#[trigger] injects[j]).service == injects[i].service
}

/// The first service declared twice.
pub open spec fn duplicate_inject(injects: Seq<InjectModel>) -> Option<int> {
    first_index(injects.len(), declared_before(injects))
}

/// A fiber with its selection brought up to date.
pub open spec fn refresh_record(r: RecordModel, providers: Map<ProviderKeyModel, FiberId>) -> RecordModel {
    match r.context {
        Some(context) => RecordModel {
            desired: resolve_all(providers, context.realms, r.injects),
            ..r
        },
        None => r,
    }
}

/// All fibers with their selections brought up to date.
pub open spec fn refreshed(
    fibers: Seq<RecordModel>,
    providers: Map<ProviderKeyModel, FiberId>,
) -> Seq<RecordModel> {
    Seq::new(fibers.len(), |i: int| refresh_record(fibers[i], providers))
}

/// The fibers among the first `n` whose selection differs.
pub open spec fn changed(before: Seq<RecordModel>, after: Seq<RecordModel>, n: nat) -> Seq<FiberId>
    decreases n,
{
    if n == 0 {
        Seq::empty()
    } else {
        let rest = changed(before, after, (n - 1) as nat);
        if before[n - 1].desired != after[n - 1].desired {
            rest.push(before[n - 1].id)
        } else {
            rest
        }
    }
}

/// Selections are up to date except for the slot `key`.
pub open spec fn current_but(
    r: RecordModel,
    providers: Map<ProviderKeyModel, FiberId>,
    key: ProviderKeyModel,
) -> bool {
    match r.context {
        Some(context) => {
            &&& realms_known(context.realms, r.injects)
            &&& r.desired.len() == r.injects.len()
            &&& forall|e: int|
                0 <= e < r.injects.len() ==> {
                    &&& (#[trigger] r.desired[e]).key == slot_key(context.realms, r.injects[e])
                    &&& r.desired[e].key != key ==> r.desired[e] == resolve_entry(
                        providers,
                        context.realms,
                        r.injects[e],
                    )
                }
        },
        None => true,
    }
}

/// A fiber's selection is what its declaration resolves to now.
pub open spec fn record_current(r: RecordModel, providers: Map<ProviderKeyModel, FiberId>) -> bool {
    match r.context {
        Some(context) => {
            &&& realms_known(context.realms, r.injects)
            &&& r.desired == resolve_all(providers, context.realms, r.injects)
        },
        None => r.desired.len() == 0 && r.injects.len() == 0,
    }
}

/// Every fiber's selection is up to date.
pub open spec fn all_current(fibers: Seq<RecordModel>, providers: Map<ProviderKeyModel, FiberId>) -> bool {
    forall|i: int| 0 <= i < fibers.len() ==> record_current(#[trigger] fibers[i], providers)
}

// ---------------------------------------------------------------------------------------------
// Cycles and targets
// ---------------------------------------------------------------------------------------------

/// The fiber at `a` currently selects the fiber at `b` as a provider.
pub open spec fn selects(fibers: Seq<RecordModel>, a: int, b: int) -> bool {
    &&& 0 <= a < fibers.len()
    &&& 0 <= b < fibers.len()
    &&& fibers[a].context is Some
    &&& exists|e: int|
        0 <= e < fibers[a].desired.len() && #[trigger] fibers[a].desired[e].provider == Some(
            fibers[b].id,
        )
}

/// Who depends on whom.
pub open spec fn dependency(fibers: Seq<RecordModel>) -> spec_fn(int, int) -> bool {
    |a: int, b: int| selects(fibers, a, b)
}

/// The identifiers at some positions.
pub open spec fn ids_at(fibers: Seq<RecordModel>, positions: Seq<int>) -> Seq<FiberId> {
    Seq::new(positions.len(), |k: int| fibers[positions[k]].id)
}

/// All fibers that share a dependency cycle with the fiber at `i`, ascending.
pub open spec fn cycle_of(fibers: Seq<RecordModel>, i: int) -> Option<Seq<FiberId>> {
    if reaches(dependency(fibers), i, i) {
        Some(ids_at(fibers, members(dependency(fibers), i, fibers.len())))
    } else {
        None
    }
}

/// The target of a selection: ready once nothing required is missing.
pub open spec fn selection_target(desired: Seq<ResolvedModel>) -> DesiredModel {
    if ready(desired) {
        DesiredModel::Ready(epoch_of(desired))
    } else {
        DesiredModel::Waiting
    }
}

/// What a fiber should be doing: retired fibers leave, unconfigured fibers and members of a
/// dependency cycle wait, all others follow their selection.
pub open spec fn target(r: RecordModel, cycle: Option<Seq<FiberId>>) -> DesiredModel {
    if r.retired {
        DesiredModel::Retired
    } else if r.context is None || cycle is Some {
        DesiredModel::Waiting
    } else {
        selection_target(r.desired)
    }
}

/// The diagnosis shown for a fiber that waits on a cycle.
pub open spec fn diagnosis(r: RecordModel, cycle: Option<Seq<FiberId>>) -> Option<ErrorModel> {
    if !r.retired && r.context is Some && cycle is Some {
        Some(ErrorModel::DependencyCycle { fibers: cycle->Some_0 })
    } else {
        None
    }
}

/// A fiber once its machine follows its target.
pub open spec fn reconcile_record(r: RecordModel, cycle: Option<Seq<FiberId>>) -> RecordModel {
    RecordModel {
        dependency_error: diagnosis(r, cycle),
        machine: with_desired(r.machine, target(r, cycle)),
        ..r
    }
}

/// All fibers once their machines follow their targets.
pub open spec fn reconciled(fibers: Seq<RecordModel>) -> Seq<RecordModel> {
    Seq::new(fibers.len(), |i: int| reconcile_record(fibers[i], cycle_of(fibers, i)))
}

/// The work that following the targets starts in the first `n` fibers, in order.
pub open spec fn emitted(fibers: Seq<RecordModel>, n: nat) -> Seq<TransitionModel>
    decreases n,
{
    if n == 0 {
        Seq::empty()
    } else {
        let rest = emitted(fibers, (n - 1) as nat);
        match desired_transition(
            fibers[n - 1].machine,
            target(fibers[n - 1], cycle_of(fibers, n - 1)),
        ) {
            Some(t) => rest.push(t),
            None => rest,
        }
    }
}

// ---------------------------------------------------------------------------------------------
// Scheduling
// ---------------------------------------------------------------------------------------------

/// How many fibers have no transition running.
pub open spec fn idle(fibers: Seq<RecordModel>) -> nat
    decreases fibers.len(),
{
    if fibers.len() == 0 {
        0
    } else {
        idle(fibers.drop_last()) + if fibers.last().machine.active is None {
            1nat
        } else {
            0nat
        }
    }
}

/// All slots that another fiber owns.
pub open spec fn without_owner(
    providers: Map<ProviderKeyModel, FiberId>,
    fiber: FiberId,
) -> Map<ProviderKeyModel, FiberId> {
    Map::new(
        |key: ProviderKeyModel| providers.dom().contains(key) && providers[key] != fiber,
        |key: ProviderKeyModel| providers[key],
    )
}

/// The state once a fiber has lost all its slots and everyone has reacted.
pub open spec fn withdrawn(s: SupervisorModel, fiber: FiberId) -> SupervisorModel {
    let providers = without_owner(s.providers, fiber);
    SupervisorModel { providers, fibers: reconciled(refreshed(s.fibers, providers)), ..s }
}

/// The work started because a fiber lost its slots.
pub open spec fn withdrawn_work(s: SupervisorModel, fiber: FiberId) -> Seq<TransitionModel> {
    let providers = without_owner(s.providers, fiber);
    emitted(refreshed(s.fibers, providers), s.fibers.len())
}

/// The number of waiting unloads of fibers before `fiber`.
pub open spec fn blocked_before(blocked: Seq<TransitionModel>, fiber: FiberId) -> int
    decreases blocked.len(),
{
    if blocked.len() == 0 {
        0
    } else if blocked[0].fiber.0 < fiber.0 {
        1 + blocked_before(blocked.drop_first(), fiber)
    } else {
        0
    }
}

/// The waiting unloads with one more.
pub open spec fn blocked_with(blocked: Seq<TransitionModel>, t: TransitionModel) -> Seq<TransitionModel> {
    blocked.insert(blocked_before(blocked, t.fiber), t)
}

/// Works through started transitions: loads are ready, an unload waits and takes its fiber's
/// slots with it, which may start more.
pub open spec fn drained(
    s: SupervisorModel,
    queue: Seq<TransitionModel>,
    ready: Seq<TransitionModel>,
) -> (SupervisorModel, Seq<TransitionModel>)
    decreases queue.len() + 2 * idle(s.fibers),
    via drained_terminates
{
    if queue.len() == 0 {
        (s, ready)
    } else {
        let t = queue[0];
        let rest = queue.drop_first();
        if t.kind is Load {
            drained(s, rest, ready.push(t))
        } else {
            let waiting = SupervisorModel { blocked: blocked_with(s.blocked, t), ..s };
            drained(
                withdrawn(waiting, t.fiber),
                rest + withdrawn_work(waiting, t.fiber),
                ready,
            )
        }
    }
}

#[via_fn]
proof fn drained_terminates(
    s: SupervisorModel,
    queue: Seq<TransitionModel>,
    ready: Seq<TransitionModel>,
) {
    if queue.len() > 0 && !(queue[0].kind is Load) {
        let t = queue[0];
        let waiting = SupervisorModel { blocked: blocked_with(s.blocked, t), ..s };
        withdrawn_idle(waiting, t.fiber);
    }
}

/// A fiber that is up, or on its way, and was loaded against `provider`.
pub open spec fn consumes(r: RecordModel, provider: FiberId) -> bool {
    &&& r.machine.state is Loading || r.machine.state is Active || r.machine.state is Unloading
    &&& r.committed is Some
    &&& exists|e: int|
        0 <= e < r.committed->Some_0.len() && #[trigger] r.committed->Some_0[e].provider == Some(
            provider,
        )
}

/// Some fiber still uses `provider`.
pub open spec fn consumed(fibers: Seq<RecordModel>, provider: FiberId) -> bool {
    exists|i: int| 0 <= i < fibers.len() && consumes(#[trigger] fibers[i], provider)
}

/// The waiting unloads among the first `n` whose fiber nobody uses any more.
pub open spec fn released(fibers: Seq<RecordModel>, blocked: Seq<TransitionModel>, n: nat) -> Seq<
    TransitionModel,
>
    decreases n,
{
    if n == 0 {
        Seq::empty()
    } else {
        let rest = released(fibers, blocked, (n - 1) as nat);
        if consumed(fibers, blocked[n - 1].fiber) {
            rest
        } else {
            rest.push(blocked[n - 1])
        }
    }
}

/// The waiting unloads among the first `n` whose fiber is still used.
pub open spec fn retained(fibers: Seq<RecordModel>, blocked: Seq<TransitionModel>, n: nat) -> Seq<
    TransitionModel,
>
    decreases n,
{
    if n == 0 {
        Seq::empty()
    } else {
        let rest = retained(fibers, blocked, (n - 1) as nat);
        if consumed(fibers, blocked[n - 1].fiber) {
            rest.push(blocked[n - 1])
        } else {
            rest
        }
    }
}

/// The state after scheduling started transitions.
pub open spec fn scheduled(s: SupervisorModel, queue: Seq<TransitionModel>) -> SupervisorModel {
    let (after, _) = drained(s, queue, Seq::empty());
    SupervisorModel { blocked: retained(after.fibers, after.blocked, after.blocked.len()), ..after }
}

/// The transitions to run now: loads first, then the unloads nobody has to wait for.
pub open spec fn scheduled_work(s: SupervisorModel, queue: Seq<TransitionModel>) -> Seq<
    TransitionModel,
> {
    let (after, ready) = drained(s, queue, Seq::empty());
    ready + released(after.fibers, after.blocked, after.blocked.len())
}

/// The state once every fiber follows its target and the started work is scheduled.
pub open spec fn settled(s: SupervisorModel) -> SupervisorModel {
    scheduled(
        SupervisorModel { fibers: reconciled(s.fibers), ..s },
        emitted(s.fibers, s.fibers.len()),
    )
}

/// The transitions to run once every fiber follows its target.
pub open spec fn settled_work(s: SupervisorModel) -> Seq<TransitionModel> {
    scheduled_work(
        SupervisorModel { fibers: reconciled(s.fibers), ..s },
        emitted(s.fibers, s.fibers.len()),
    )
}

// ---------------------------------------------------------------------------------------------
// Counting idle fibers
// ---------------------------------------------------------------------------------------------

proof fn idle_of_refreshed(
    fibers: Seq<RecordModel>,
    providers: Map<ProviderKeyModel, FiberId>,
)
    ensures
        idle(refreshed(fibers, providers)) == idle(fibers),
    decreases fibers.len(),
{
    if fibers.len() > 0 {
        let after = refreshed(fibers, providers);
        assert(after.drop_last() =~= refreshed(fibers.drop_last(), providers));
        idle_of_refreshed(fibers.drop_last(), providers);
        assert(after.last() == refresh_record(fibers.last(), providers));
    }
}

proof fn idle_of_reconciled(fibers: Seq<RecordModel>, n: nat)
    requires
        n <= fibers.len(),
    ensures
        emitted(fibers, n).len() + idle(reconciled(fibers).take(n as int)) == idle(
            fibers.take(n as int),
        ),
    decreases n,
{
    let after = reconciled(fibers);
    if n > 0 {
        idle_of_reconciled(fibers, (n - 1) as nat);
        assert(after.take(n as int).drop_last() =~= after.take(n - 1));
        assert(fibers.take(n as int).drop_last() =~= fibers.take(n - 1));
        assert(after.take(n as int).last() == reconcile_record(
            fibers[n - 1],
            cycle_of(fibers, n - 1),
        ));
        assert(fibers.take(n as int).last() == fibers[n - 1]);
    } else {
        assert(after.take(0) =~= Seq::empty());
        assert(fibers.take(0) =~= Seq::empty());
    }
}

pub proof fn withdrawn_idle(s: SupervisorModel, fiber: FiberId)
    ensures
        withdrawn_work(s, fiber).len() + idle(withdrawn(s, fiber).fibers) == idle(s.fibers),
{
    let providers = without_owner(s.providers, fiber);
    let fresh = refreshed(s.fibers, providers);
    idle_of_refreshed(s.fibers, providers);
    idle_of_reconciled(fresh, fresh.len());
    assert(fresh.take(fresh.len() as int) =~= fresh);
    assert(reconciled(fresh).take(fresh.len() as int) =~= reconciled(fresh));
}

// ---------------------------------------------------------------------------------------------
// What every state satisfies
// ---------------------------------------------------------------------------------------------

/// A fiber's own state is sound.
pub open spec fn record_valid(r: RecordModel, next_fiber: u64) -> bool {
    &&& r.id.0 < next_fiber
    &&& r.machine.fiber == r.id
    &&& machine_valid(r.machine)
}

/// Every fiber's own state is sound.
pub open spec fn records_valid(fibers: Seq<RecordModel>, next_fiber: u64) -> bool {
    forall|i: int| 0 <= i < fibers.len() ==> record_valid(#[trigger] fibers[i], next_fiber)
}

/// The transition is the one its fiber is running.
pub open spec fn running(fibers: Seq<RecordModel>, t: TransitionModel) -> bool {
    exists|i: int| #[trigger]
        fiber_at(fibers, t.fiber, i) && fibers[i].machine.active == Some(t)
}

/// No transition is for `fiber`.
pub open spec fn not_for(queue: Seq<TransitionModel>, fiber: FiberId) -> bool {
    forall|i: int| 0 <= i < queue.len() ==> (#[trigger] queue[i]).fiber != fiber
}

/// Waiting unloads are running unloads in ascending fiber order.
pub open spec fn blocked_valid(fibers: Seq<RecordModel>, blocked: Seq<TransitionModel>) -> bool {
    &&& forall|i: int, j: int|
        0 <= i < j < blocked.len() ==> (#[trigger] blocked[i]).fiber.0 < (
        #[trigger] blocked[j]).fiber.0
    &&& forall|i: int|
        0 <= i < blocked.len() ==> (#[trigger] blocked[i]).kind is Unload && running(
            fibers,
            blocked[i],
        )
}

/// Every slot belongs to a fiber that exists.
pub open spec fn owners_known(
    fibers: Seq<RecordModel>,
    providers: Map<ProviderKeyModel, FiberId>,
) -> bool {
    forall|key: ProviderKeyModel| #[trigger]
        providers.dom().contains(key) ==> known(fibers, providers[key])
}

/// What holds of the supervisor before and after every operation.
pub open spec fn valid(s: SupervisorModel) -> bool {
    &&& ascending(s.fibers)
    &&& records_valid(s.fibers, s.next_fiber)
    &&& all_current(s.fibers, s.providers)
    &&& owners_known(s.fibers, s.providers)
    &&& blocked_valid(s.fibers, s.blocked)
}

/// Every idle fiber can start one more transition.
pub open spec fn room(fibers: Seq<RecordModel>) -> bool {
    forall|i: int|
        0 <= i < fibers.len() ==> ((#[trigger] fibers[i]).machine.active is None
            ==> fibers[i].machine.next_generation < u64::MAX)
}

/// Every fiber can start one more transition.
pub open spec fn generations_left(fibers: Seq<RecordModel>) -> bool {
    forall|i: int|
        0 <= i < fibers.len() ==> (#[trigger] fibers[i]).machine.next_generation < u64::MAX
}

/// Started transitions that are not scheduled yet: each is running, none waits already and no
/// fiber occurs twice.
pub open spec fn queue_valid(s: SupervisorModel, queue: Seq<TransitionModel>) -> bool {
    &&& forall|i: int|
        0 <= i < queue.len() ==> running(s.fibers, #[trigger] queue[i]) && not_for(
            s.blocked,
            queue[i].fiber,
        )
    &&& forall|i: int, j: int|
        0 <= i < j < queue.len() ==> (#[trigger] queue[i]).fiber != (#[trigger] queue[j]).fiber
}

/// The same fibers in the same order.
pub open spec fn same_ids(a: Seq<RecordModel>, b: Seq<RecordModel>) -> bool {
    &&& a.len() == b.len()
    &&& forall|i: int| 0 <= i < a.len() ==> (#[trigger] a[i]).id == b[i].id
}

pub proof fn same_ids_keep(
    a: Seq<RecordModel>,
    b: Seq<RecordModel>,
    providers: Map<ProviderKeyModel, FiberId>,
)
    requires
        same_ids(a, b),
    ensures
        ascending(a) ==> ascending(b),
        owners_known(a, providers) ==> owners_known(b, providers),
        forall|f: FiberId| known(a, f) == #[trigger] known(b, f),
{
    assert forall|f: FiberId| known(a, f) == #[trigger] known(b, f) by {
        if known(a, f) {
            let i = index_of(a, f);
            assert(fiber_at(a, f, i));
            assert(a[i].id == b[i].id);
            assert(fiber_at(b, f, i));
        }
        if known(b, f) {
            let i = index_of(b, f);
            assert(fiber_at(b, f, i));
            assert(a[i].id == b[i].id);
            assert(fiber_at(a, f, i));
        }
    }
    if ascending(a) {
        assert forall|i: int, j: int| 0 <= i < j < b.len() implies (#[trigger] b[i]).id.0 < (
        #[trigger] b[j]).id.0 by {
            assert(a[i].id == b[i].id);
            assert(a[j].id == b[j].id);
            assert(a[i].id.0 < a[j].id.0);
        }
    }
    if owners_known(a, providers) {
        assert forall|key: ProviderKeyModel| #[trigger]
            providers.dom().contains(key) implies known(b, providers[key]) by {
            assert(known(a, providers[key]));
        }
    }
}

/// Bringing selections up to date keeps everything else.
pub proof fn refreshed_keeps(
    fibers: Seq<RecordModel>,
    old_providers: Map<ProviderKeyModel, FiberId>,
    providers: Map<ProviderKeyModel, FiberId>,
    next_fiber: u64,
)
    requires
        records_valid(fibers, next_fiber),
        all_current(fibers, old_providers),
        room(fibers),
    ensures
        same_ids(fibers, refreshed(fibers, providers)),
        records_valid(refreshed(fibers, providers), next_fiber),
        all_current(refreshed(fibers, providers), providers),
        room(refreshed(fibers, providers)),
        forall|i: int|
            0 <= i < fibers.len() ==> (#[trigger] refreshed(fibers, providers)[i]).machine
                == fibers[i].machine,
{
    let after = refreshed(fibers, providers);
    assert forall|i: int| 0 <= i < after.len() implies record_valid(#[trigger] after[i], next_fiber)
        && record_current(after[i], providers) && (after[i].machine.active is None
        ==> after[i].machine.next_generation < u64::MAX) && after[i].id == fibers[i].id by {
        assert(record_valid(fibers[i], next_fiber));
        assert(record_current(fibers[i], old_providers));
    }
    assert forall|i: int| 0 <= i < fibers.len() implies (#[trigger] fibers[i]).id
        == after[i].id by {
        assert(after[i].id == fibers[i].id);
    }
}

/// Following the targets keeps identities and selections.
pub proof fn reconciled_keeps(
    fibers: Seq<RecordModel>,
    providers: Map<ProviderKeyModel, FiberId>,
    next_fiber: u64,
)
    requires
        records_valid(fibers, next_fiber),
        all_current(fibers, providers),
        room(fibers),
    ensures
        same_ids(fibers, reconciled(fibers)),
        records_valid(reconciled(fibers), next_fiber),
        all_current(reconciled(fibers), providers),
        room(reconciled(fibers)),
        forall|i: int|
            0 <= i < fibers.len() && fibers[i].machine.active is Some ==> (
            #[trigger] reconciled(fibers)[i]).machine.active == fibers[i].machine.active,
{
    let after = reconciled(fibers);
    assert forall|i: int| 0 <= i < after.len() implies record_valid(#[trigger] after[i], next_fiber)
        && record_current(after[i], providers) && (after[i].machine.active is None
        ==> after[i].machine.next_generation < u64::MAX) && after[i].id == fibers[i].id by {
        let r = fibers[i];
        assert(record_valid(r, next_fiber));
        assert(record_current(r, providers));
        desired_keeps_valid(r.machine, target(r, cycle_of(fibers, i)));
    }
    assert forall|i: int| 0 <= i < fibers.len() implies (#[trigger] fibers[i]).id
        == after[i].id by {
        assert(after[i].id == fibers[i].id);
    }
}

/// Work started by following the targets: ascending, now running, and idle before.
pub proof fn emitted_runs(fibers: Seq<RecordModel>, next_fiber: u64, n: nat)
    requires
        n <= fibers.len(),
        ascending(fibers),
        records_valid(fibers, next_fiber),
    ensures
        forall|k: int|
            0 <= k < emitted(fibers, n).len() ==> emitted_at(fibers, n, #[trigger] emitted(
                fibers,
                n,
            )[k]),
        forall|j: int, k: int|
            0 <= j < k < emitted(fibers, n).len() ==> (#[trigger] emitted(fibers, n)[j]).fiber.0 < (
            #[trigger] emitted(fibers, n)[k]).fiber.0,
    decreases n,
{
    if n > 0 {
        emitted_runs(fibers, next_fiber, (n - 1) as nat);
        let all = emitted(fibers, n);
        let rest = emitted(fibers, (n - 1) as nat);
        let r = fibers[n - 1];
        let goal = target(r, cycle_of(fibers, n - 1));
        assert(record_valid(r, next_fiber));
        assert forall|k: int| 0 <= k < all.len() implies emitted_at(
            fibers,
            n,
            #[trigger] all[k],
        ) by {
            if k < rest.len() {
                assert(all[k] == rest[k]);
                assert(emitted_at(fibers, (n - 1) as nat, rest[k]));
                let i = choose|i: int|
                    0 <= i < n - 1 && #[trigger] fiber_at(fibers, rest[k].fiber, i)
                        && fibers[i].machine.active is None && with_desired(
                        fibers[i].machine,
                        target(fibers[i], cycle_of(fibers, i)),
                    ).active == Some(rest[k]);
                assert(fiber_at(fibers, all[k].fiber, i));
            } else {
                assert(fiber_at(fibers, all[k].fiber, n - 1));
            }
        }
        assert forall|j: int, k: int| 0 <= j < k < all.len() implies (#[trigger] all[j]).fiber.0 < (
        #[trigger] all[k]).fiber.0 by {
            assert(all[j] == rest[j]);
            if k < rest.len() {
                assert(all[k] == rest[k]);
            } else {
                assert(emitted_at(fibers, (n - 1) as nat, rest[j]));
                let i = choose|i: int|
                    0 <= i < n - 1 && #[trigger] fiber_at(fibers, rest[j].fiber, i)
                        && fibers[i].machine.active is None && with_desired(
                        fibers[i].machine,
                        target(fibers[i], cycle_of(fibers, i)),
                    ).active == Some(rest[j]);
                assert(fibers[i].id.0 < fibers[n - 1].id.0);
            }
        }
    }
}

/// The transition was started in one of the first `n` fibers, which was idle.
pub open spec fn emitted_at(fibers: Seq<RecordModel>, n: nat, t: TransitionModel) -> bool {
    exists|i: int|
        0 <= i < n && #[trigger] fiber_at(fibers, t.fiber, i) && fibers[i].machine.active is None
            && with_desired(fibers[i].machine, target(fibers[i], cycle_of(fibers, i))).active
            == Some(t)
}

/// Reconciling extends a queue: running work keeps running, and new work is for other fibers.
pub proof fn reconciled_queue(
    s: SupervisorModel,
    fibers: Seq<RecordModel>,
    queue: Seq<TransitionModel>,
)
    requires
        valid(s),
        room(s.fibers),
        queue_valid(s, queue),
        same_ids(s.fibers, fibers),
        records_valid(fibers, s.next_fiber),
        forall|i: int| 0 <= i < fibers.len() ==> (#[trigger] fibers[i]).machine == s.fibers[i].machine,
    ensures
        queue_valid(
            SupervisorModel { fibers: reconciled(fibers), ..s },
            queue + emitted(fibers, fibers.len()),
        ),
        blocked_valid(reconciled(fibers), s.blocked),
{
    let after = reconciled(fibers);
    let work = emitted(fibers, fibers.len());
    let all = queue + work;
    let s1 = SupervisorModel { fibers: after, ..s };
    same_ids_keep(s.fibers, fibers, s.providers);
    emitted_runs(fibers, s.next_fiber, fibers.len());
    assert forall|t: TransitionModel| running(s.fibers, t) implies #[trigger] running(after, t) by {
        let i = choose|i: int| #[trigger]
            fiber_at(s.fibers, t.fiber, i) && s.fibers[i].machine.active == Some(t);
        assert(s.fibers[i].id == fibers[i].id);
        assert(fibers[i].machine == s.fibers[i].machine);
        assert(fiber_at(after, t.fiber, i));
        assert(after[i].machine.active == Some(t));
    }
    assert forall|k: int| 0 <= k < work.len() implies running(after, #[trigger] work[k])
        && idle_in(s.fibers, work[k].fiber) by {
        let t = work[k];
        assert(emitted_at(fibers, fibers.len(), t));
        let i = choose|i: int|
            0 <= i < fibers.len() && #[trigger] fiber_at(fibers, t.fiber, i)
                && fibers[i].machine.active is None && with_desired(
                fibers[i].machine,
                target(fibers[i], cycle_of(fibers, i)),
            ).active == Some(t);
        assert(fiber_at(after, t.fiber, i));
        assert(s.fibers[i].id == fibers[i].id);
        assert(fibers[i].machine == s.fibers[i].machine);
        assert(fiber_at(s.fibers, t.fiber, i));
    }
    assert forall|t: TransitionModel, k: int|
        0 <= k < work.len() && #[trigger] running(s.fibers, t) implies t.fiber != (
    #[trigger] work[k]).fiber by {
        assert(idle_in(s.fibers, work[k].fiber));
        let a = choose|i: int| #[trigger]
            fiber_at(s.fibers, t.fiber, i) && s.fibers[i].machine.active == Some(t);
        let b = choose|i: int| #[trigger]
            fiber_at(s.fibers, work[k].fiber, i) && s.fibers[i].machine.active is None;
        if t.fiber == work[k].fiber {
            index_of_is(s.fibers, t.fiber, a);
            index_of_is(s.fibers, t.fiber, b);
        }
    }
    assert forall|i: int| 0 <= i < all.len() implies running(s1.fibers, #[trigger] all[i])
        && not_for(s1.blocked, all[i].fiber) by {
        if i < queue.len() {
            assert(all[i] == queue[i]);
            assert(running(s.fibers, queue[i]));
        } else {
            let k = i - queue.len();
            assert(all[i] == work[k]);
            assert forall|b: int| 0 <= b < s.blocked.len() implies (
            #[trigger] s.blocked[b]).fiber != work[k].fiber by {
                assert(running(s.fibers, s.blocked[b]));
            }
        }
    }
    assert forall|i: int, j: int| 0 <= i < j < all.len() implies (#[trigger] all[i]).fiber != (
    #[trigger] all[j]).fiber by {
        if j < queue.len() {
            assert(all[i] == queue[i] && all[j] == queue[j]);
        } else if i < queue.len() {
            assert(all[i] == queue[i]);
            assert(all[j] == work[j - queue.len()]);
            assert(running(s.fibers, queue[i]));
        } else {
            assert(all[i] == work[i - queue.len()]);
            assert(all[j] == work[j - queue.len()]);
            assert(work[i - queue.len()].fiber.0 < work[j - queue.len()].fiber.0);
        }
    }
    assert forall|i: int| 0 <= i < s.blocked.len() implies (#[trigger] s.blocked[i]).kind is Unload
        && running(after, s.blocked[i]) by {
        assert(running(s.fibers, s.blocked[i]));
    }
}

/// The fiber exists and is idle.
pub open spec fn idle_in(fibers: Seq<RecordModel>, fiber: FiberId) -> bool {
    exists|i: int| #[trigger] fiber_at(fibers, fiber, i) && fibers[i].machine.active is None
}

/// Taking a fiber's slots keeps the state valid and extends the queue.
pub proof fn withdrawn_keeps(s: SupervisorModel, fiber: FiberId, queue: Seq<TransitionModel>)
    requires
        valid(s),
        room(s.fibers),
        queue_valid(s, queue),
    ensures
        valid(withdrawn(s, fiber)),
        room(withdrawn(s, fiber).fibers),
        queue_valid(withdrawn(s, fiber), queue + withdrawn_work(s, fiber)),
        same_ids(s.fibers, withdrawn(s, fiber).fibers),
{
    let providers = without_owner(s.providers, fiber);
    let fresh = refreshed(s.fibers, providers);
    refreshed_keeps(s.fibers, s.providers, providers, s.next_fiber);
    reconciled_keeps(fresh, providers, s.next_fiber);
    reconciled_queue(s, fresh, queue);
    let after = withdrawn(s, fiber);
    assert forall|i: int| 0 <= i < s.fibers.len() implies (#[trigger] s.fibers[i]).id
        == after.fibers[i].id by {
        assert(fresh[i].id == s.fibers[i].id);
    }
    assert(owners_known(s.fibers, providers)) by {
        assert forall|key: ProviderKeyModel| #[trigger]
            providers.dom().contains(key) implies known(s.fibers, providers[key]) by {
            assert(s.providers.dom().contains(key));
        }
    }
    same_ids_keep(s.fibers, after.fibers, providers);
    let s1 = SupervisorModel { fibers: reconciled(fresh), ..s };
    assert forall|i: int|
        0 <= i < (queue + withdrawn_work(s, fiber)).len() implies running(
        after.fibers,
        #[trigger] (queue + withdrawn_work(s, fiber))[i],
    ) && not_for(after.blocked, (queue + withdrawn_work(s, fiber))[i].fiber) by {
        assert(running(s1.fibers, (queue + withdrawn_work(s, fiber))[i]));
    }
}

pub proof fn blocked_before_bounds(blocked: Seq<TransitionModel>, fiber: FiberId)
    ensures
        0 <= blocked_before(blocked, fiber) <= blocked.len(),
        forall|j: int|
            0 <= j < blocked_before(blocked, fiber) ==> (#[trigger] blocked[j]).fiber.0 < fiber.0,
        blocked_before(blocked, fiber) < blocked.len() ==> blocked[blocked_before(
            blocked,
            fiber,
        )].fiber.0 >= fiber.0,
    decreases blocked.len(),
{
    if blocked.len() > 0 && blocked[0].fiber.0 < fiber.0 {
        let rest = blocked.drop_first();
        blocked_before_bounds(rest, fiber);
        assert forall|j: int| 0 <= j < blocked_before(blocked, fiber) implies (
        #[trigger] blocked[j]).fiber.0 < fiber.0 by {
            if j > 0 {
                assert(rest[j - 1] == blocked[j]);
            }
        }
    }
}

/// The position found by scanning is the insertion point.
pub proof fn blocked_before_is(blocked: Seq<TransitionModel>, fiber: FiberId, i: int)
    requires
        0 <= i <= blocked.len(),
        forall|j: int| 0 <= j < i ==> (#[trigger] blocked[j]).fiber.0 < fiber.0,
        i < blocked.len() ==> blocked[i].fiber.0 >= fiber.0,
    ensures
        blocked_before(blocked, fiber) == i,
{
    blocked_before_bounds(blocked, fiber);
    let k = blocked_before(blocked, fiber);
    if k < i {
        assert(blocked[k].fiber.0 < fiber.0);
    }
    if i < k {
        assert(blocked[i].fiber.0 < fiber.0);
    }
}

/// A queued unload can start to wait.
pub proof fn blocking_keeps(s: SupervisorModel, queue: Seq<TransitionModel>)
    requires
        valid(s),
        queue.len() > 0,
        queue_valid(s, queue),
        queue[0].kind is Unload,
    ensures
        valid(SupervisorModel { blocked: blocked_with(s.blocked, queue[0]), ..s }),
        queue_valid(
            SupervisorModel { blocked: blocked_with(s.blocked, queue[0]), ..s },
            queue.drop_first(),
        ),
{
    let t = queue[0];
    let k = blocked_before(s.blocked, t.fiber);
    let after = blocked_with(s.blocked, t);
    blocked_before_bounds(s.blocked, t.fiber);
    assert(running(s.fibers, queue[0]));
    assert(not_for(s.blocked, queue[0].fiber));
    assert forall|i: int| k <= i < s.blocked.len() implies (#[trigger] s.blocked[i]).fiber.0
        > t.fiber.0 by {
        assert(s.blocked[i].fiber != t.fiber);
        assert(s.blocked[k].fiber != t.fiber);
        if i > k {
            assert(s.blocked[k].fiber.0 < s.blocked[i].fiber.0);
        }
    }
    assert forall|i: int| 0 <= i < after.len() implies (#[trigger] after[i]).kind is Unload
        && running(s.fibers, after[i]) by {
        if i < k {
            assert(after[i] == s.blocked[i]);
        } else if i > k {
            assert(after[i] == s.blocked[i - 1]);
        }
    }
    assert forall|i: int, j: int| 0 <= i < j < after.len() implies (#[trigger] after[i]).fiber.0 < (
    #[trigger] after[j]).fiber.0 by {
        let a = if i < k {
            i
        } else {
            i - 1
        };
        let b = if j < k {
            j
        } else {
            j - 1
        };
        if i != k {
            assert(after[i] == s.blocked[a]);
        }
        if j != k {
            assert(after[j] == s.blocked[b]);
        }
    }
    let rest = queue.drop_first();
    assert forall|i: int| 0 <= i < rest.len() implies running(s.fibers, #[trigger] rest[i])
        && not_for(after, rest[i].fiber) by {
        assert(rest[i] == queue[i + 1]);
        assert(running(s.fibers, queue[i + 1]));
        assert(not_for(s.blocked, queue[i + 1].fiber));
        assert forall|j: int| 0 <= j < after.len() implies (#[trigger] after[j]).fiber
            != rest[i].fiber by {
            if j < k {
                assert(after[j] == s.blocked[j]);
            } else if j > k {
                assert(after[j] == s.blocked[j - 1]);
            } else {
                assert(queue[0].fiber != queue[i + 1].fiber);
            }
        }
    }
    assert forall|i: int, j: int| 0 <= i < j < rest.len() implies (#[trigger] rest[i]).fiber != (
    #[trigger] rest[j]).fiber by {
        assert(rest[i] == queue[i + 1] && rest[j] == queue[j + 1]);
    }
}

/// Dropping the head of a queue keeps it valid.
pub proof fn queue_rest(s: SupervisorModel, queue: Seq<TransitionModel>)
    requires
        queue.len() > 0,
        queue_valid(s, queue),
    ensures
        queue_valid(s, queue.drop_first()),
{
    let rest = queue.drop_first();
    assert forall|i: int| 0 <= i < rest.len() implies running(s.fibers, #[trigger] rest[i])
        && not_for(s.blocked, rest[i].fiber) by {
        assert(rest[i] == queue[i + 1]);
    }
    assert forall|i: int, j: int| 0 <= i < j < rest.len() implies (#[trigger] rest[i]).fiber != (
    #[trigger] rest[j]).fiber by {
        assert(rest[i] == queue[i + 1] && rest[j] == queue[j + 1]);
    }
}

/// Working a queue off keeps the state valid, and everything made ready is a load.
pub proof fn drained_keeps(
    s: SupervisorModel,
    queue: Seq<TransitionModel>,
    ready: Seq<TransitionModel>,
)
    requires
        valid(s),
        room(s.fibers),
        queue_valid(s, queue),
        forall|i: int| 0 <= i < ready.len() ==> (#[trigger] ready[i]).kind is Load,
    ensures
        valid(drained(s, queue, ready).0),
        room(drained(s, queue, ready).0.fibers),
        same_ids(s.fibers, drained(s, queue, ready).0.fibers),
        forall|i: int|
            0 <= i < drained(s, queue, ready).1.len() ==> (#[trigger] drained(
                s,
                queue,
                ready,
            ).1[i]).kind is Load,
    decreases queue.len() + 2 * idle(s.fibers),
{
    if queue.len() > 0 {
        let t = queue[0];
        let rest = queue.drop_first();
        if t.kind is Load {
            queue_rest(s, queue);
            let next = ready.push(t);
            assert forall|i: int| 0 <= i < next.len() implies (#[trigger] next[i]).kind is Load by {
                if i < ready.len() {
                    assert(next[i] == ready[i]);
                }
            }
            drained_keeps(s, rest, next);
        } else {
            let waiting = SupervisorModel { blocked: blocked_with(s.blocked, t), ..s };
            blocking_keeps(s, queue);
            withdrawn_keeps(waiting, t.fiber, rest);
            withdrawn_idle(waiting, t.fiber);
            let after = withdrawn(waiting, t.fiber);
            let more = rest + withdrawn_work(waiting, t.fiber);
            drained_keeps(after, more, ready);
            let end = drained(after, more, ready).0;
            assert forall|i: int| 0 <= i < s.fibers.len() implies (#[trigger] s.fibers[i]).id
                == end.fibers[i].id by {
                assert(waiting.fibers[i].id == after.fibers[i].id);
                assert(after.fibers[i].id == end.fibers[i].id);
            }
        }
    }
}

proof fn retained_subset(fibers: Seq<RecordModel>, blocked: Seq<TransitionModel>, n: nat)
    requires
        n <= blocked.len(),
        blocked_valid(fibers, blocked),
    ensures
        blocked_valid(fibers, retained(fibers, blocked, n)),
        forall|k: int|
            0 <= k < retained(fibers, blocked, n).len() ==> consumed(
                fibers,
                (#[trigger] retained(fibers, blocked, n)[k]).fiber,
            ) && blocked.take(n as int).contains(retained(fibers, blocked, n)[k]),
    decreases n,
{
    if n > 0 {
        retained_subset(fibers, blocked, (n - 1) as nat);
        let all = retained(fibers, blocked, n);
        let rest = retained(fibers, blocked, (n - 1) as nat);
        assert forall|k: int| 0 <= k < all.len() implies consumed(
            fibers,
            (#[trigger] all[k]).fiber,
        ) && blocked.take(n as int).contains(all[k]) by {
            if k < rest.len() {
                assert(all[k] == rest[k]);
                assert(blocked.take(n - 1).contains(rest[k]));
                let head = blocked.take(n - 1);
                let m = choose|m: int| 0 <= m < head.len() && #[trigger] head[m] == rest[k];
                assert(blocked.take(n as int)[m] == all[k]);
            } else {
                assert(blocked.take(n as int)[n - 1] == all[k]);
            }
        }
        assert forall|i: int| 0 <= i < all.len() implies (#[trigger] all[i]).kind is Unload
            && running(fibers, all[i]) by {
            if i < rest.len() {
                assert(all[i] == rest[i]);
            } else {
                assert(all[i] == blocked[n - 1]);
            }
        }
        assert forall|i: int, j: int| 0 <= i < j < all.len() implies (#[trigger] all[i]).fiber.0 < (
        #[trigger] all[j]).fiber.0 by {
            assert(all[i] == rest[i]);
            if j < rest.len() {
                assert(all[j] == rest[j]);
            } else {
                assert(blocked.take(n - 1).contains(rest[i]));
                let head = blocked.take(n - 1);
                let m = choose|m: int| 0 <= m < head.len() && #[trigger] head[m] == rest[i];
                assert(blocked[m].fiber.0 < blocked[n - 1].fiber.0);
            }
        }
    }
}

proof fn released_free(fibers: Seq<RecordModel>, blocked: Seq<TransitionModel>, n: nat)
    requires
        n <= blocked.len(),
        blocked_valid(fibers, blocked),
    ensures
        forall|k: int|
            0 <= k < released(fibers, blocked, n).len() ==> !consumed(
                fibers,
                (#[trigger] released(fibers, blocked, n)[k]).fiber,
            ) && released(fibers, blocked, n)[k].kind is Unload,
    decreases n,
{
    if n > 0 {
        released_free(fibers, blocked, (n - 1) as nat);
        let all = released(fibers, blocked, n);
        let rest = released(fibers, blocked, (n - 1) as nat);
        assert forall|k: int| 0 <= k < all.len() implies !consumed(
            fibers,
            (#[trigger] all[k]).fiber,
        ) && all[k].kind is Unload by {
            if k < rest.len() {
                assert(all[k] == rest[k]);
            } else {
                assert(all[k] == blocked[n - 1]);
            }
        }
    }
}

/// An unload is handed out only when no fiber that was loaded against its fiber is still up;
/// the unloads that keep waiting are exactly those with such a consumer left.
pub open spec fn consumers_first(s: SupervisorModel, work: Seq<TransitionModel>) -> bool {
    &&& forall|i: int|
        0 <= i < work.len() && (#[trigger] work[i]).kind is Unload ==> !consumed(
            s.fibers,
            work[i].fiber,
        )
    &&& forall|i: int|
        0 <= i < s.blocked.len() ==> consumed(s.fibers, (#[trigger] s.blocked[i]).fiber)
}

/// Scheduling keeps the state valid and lets consumers leave before their providers.
pub proof fn scheduled_keeps(s: SupervisorModel, queue: Seq<TransitionModel>)
    requires
        valid(s),
        room(s.fibers),
        queue_valid(s, queue),
    ensures
        valid(scheduled(s, queue)),
        same_ids(s.fibers, scheduled(s, queue).fibers),
        consumers_first(scheduled(s, queue), scheduled_work(s, queue)),
{
    drained_keeps(s, queue, Seq::empty());
    let (after, ready) = drained(s, queue, Seq::empty());
    retained_subset(after.fibers, after.blocked, after.blocked.len());
    released_free(after.fibers, after.blocked, after.blocked.len());
    let work = scheduled_work(s, queue);
    let freed = released(after.fibers, after.blocked, after.blocked.len());
    assert forall|i: int| 0 <= i < work.len() && (#[trigger] work[i]).kind is Unload implies !consumed(
        after.fibers,
        work[i].fiber,
    ) by {
        if i < ready.len() {
            assert(work[i] == ready[i]);
        } else {
            assert(work[i] == freed[i - ready.len()]);
        }
    }
}

// ---------------------------------------------------------------------------------------------
// Operations
// ---------------------------------------------------------------------------------------------

/// Zero or one transition as a queue.
pub open spec fn as_queue(t: Option<TransitionModel>) -> Seq<TransitionModel> {
    match t {
        Some(t) => seq![t],
        None => Seq::empty(),
    }
}

/// The state with one fiber replaced.
pub open spec fn with_record(s: SupervisorModel, i: int, r: RecordModel) -> SupervisorModel {
    SupervisorModel { fibers: s.fibers.update(i, r), ..s }
}

/// The fiber an operation names has to exist.
pub open spec fn unknown_error(s: SupervisorModel, fiber: FiberId) -> Option<ErrorModel> {
    if known(s.fibers, fiber) {
        None
    } else {
        Some(ErrorModel::UnknownFiber { fiber })
    }
}

/// Why a fiber cannot be created: its parent is unknown, or has to be up and is not.
pub open spec fn create_error(s: SupervisorModel, parent: Option<FiberId>, live: bool) -> Option<
    ErrorModel,
> {
    match parent {
        None => None,
        Some(fiber) => if !known(s.fibers, fiber) {
            Some(ErrorModel::UnknownFiber { fiber })
        } else {
            let state = s.fibers[index_of(s.fibers, fiber)].machine.state;
            if live && !(state is Loading || state is Active) {
                Some(ErrorModel::InactiveFiber { fiber })
            } else {
                None
            }
        },
    }
}

/// The state with a new fiber.
pub open spec fn created(s: SupervisorModel, parent: Option<FiberId>) -> SupervisorModel {
    SupervisorModel {
        fibers: s.fibers.push(fresh_record(FiberId(s.next_fiber), parent)),
        next_fiber: (s.next_fiber + 1) as u64,
        ..s
    }
}

/// Why a dependency declaration is refused.
pub open spec fn configure_error(
    s: SupervisorModel,
    fiber: FiberId,
    context: ContextModel,
    injects: Seq<InjectModel>,
) -> Option<ErrorModel> {
    if context.fiber != fiber {
        Some(ErrorModel::ContextFiberMismatch { expected: fiber, actual: context.fiber })
    } else if !known(s.fibers, fiber) {
        Some(ErrorModel::UnknownFiber { fiber })
    } else {
        match duplicate_inject(injects) {
            Some(i) => Some(ErrorModel::DuplicateInject { fiber, service: injects[i].service }),
            None => realm_error(context.realms, injects),
        }
    }
}

/// The first declared service that is in no realm.
pub open spec fn realm_error(
    realms: Seq<(ServiceModel, RealmId)>,
    injects: Seq<InjectModel>,
) -> Option<ErrorModel> {
    match first_index(injects.len(), realm_missing(realms, injects)) {
        Some(i) => Some(ErrorModel::MissingRealm { service: injects[i].service }),
        None => None,
    }
}

/// The state with a fiber's declaration replaced.
pub open spec fn declared(
    s: SupervisorModel,
    fiber: FiberId,
    context: ContextModel,
    injects: Seq<InjectModel>,
) -> SupervisorModel {
    let i = index_of(s.fibers, fiber);
    with_record(
        s,
        i,
        RecordModel {
            context: Some(context),
            injects,
            desired: resolve_all(s.providers, context.realms, injects),
            ..s.fibers[i]
        },
    )
}

/// The state in which a new declaration is scheduled: everyone follows their target, and a
/// fiber that had failed is tried again.
pub open spec fn reconfigured(
    s: SupervisorModel,
    fiber: FiberId,
    context: ContextModel,
    injects: Seq<InjectModel>,
) -> SupervisorModel {
    let i = index_of(s.fibers, fiber);
    let next = declared(s, fiber, context, injects);
    let moved = SupervisorModel { fibers: reconciled(next.fibers), ..next };
    if s.fibers[i].machine.state is Failed {
        with_record(
            moved,
            i,
            RecordModel { machine: restarted(moved.fibers[i].machine), ..moved.fibers[i] },
        )
    } else {
        moved
    }
}

/// The work a new declaration starts.
pub open spec fn reconfigured_work(
    s: SupervisorModel,
    fiber: FiberId,
    context: ContextModel,
    injects: Seq<InjectModel>,
) -> Seq<TransitionModel> {
    let i = index_of(s.fibers, fiber);
    let next = declared(s, fiber, context, injects);
    let m = reconciled(next.fibers)[i].machine;
    emitted(next.fibers, next.fibers.len()) + if s.fibers[i].machine.state is Failed {
        as_queue(restart_transition(m))
    } else {
        Seq::empty()
    }
}

/// The transition an explicit retry starts.
pub open spec fn restart_transition(m: MachineModel) -> Option<TransitionModel> {
    match restart_kind(m) {
        Some(kind) => Some(next_transition(m, kind)),
        None => None,
    }
}

/// Why a selection cannot be committed.
pub open spec fn commit_error(s: SupervisorModel, fiber: FiberId) -> Option<ErrorModel> {
    if !known(s.fibers, fiber) {
        Some(ErrorModel::UnknownFiber { fiber })
    } else {
        let desired = s.fibers[index_of(s.fibers, fiber)].desired;
        match first_index(desired.len(), |i: int| missing(desired[i])) {
            Some(i) => Some(ErrorModel::InactiveDependency { key: desired[i].key }),
            None => None,
        }
    }
}

/// Why a slot cannot be taken.
pub open spec fn provide_error(
    s: SupervisorModel,
    key: ProviderKeyModel,
    provider: FiberId,
) -> Option<ErrorModel> {
    if !known(s.fibers, provider) {
        Some(ErrorModel::UnknownFiber { fiber: provider })
    } else if s.providers.dom().contains(key) {
        Some(ErrorModel::DuplicateProvider { key, provider: s.providers[key] })
    } else {
        None
    }
}

/// Why a slot cannot be given up.
pub open spec fn withdraw_error(
    s: SupervisorModel,
    key: ProviderKeyModel,
    provider: FiberId,
) -> Option<ErrorModel> {
    if !s.providers.dom().contains(key) {
        Some(ErrorModel::ProviderNotFound { key })
    } else if s.providers[key] != provider {
        Some(
            ErrorModel::ProviderOwnershipMismatch {
                key,
                expected: provider,
                actual: s.providers[key],
            },
        )
    } else {
        None
    }
}

/// The state once the slots are `providers` and all selections are up to date.
pub open spec fn reassigned(
    s: SupervisorModel,
    providers: Map<ProviderKeyModel, FiberId>,
) -> SupervisorModel {
    SupervisorModel { providers, fibers: refreshed(s.fibers, providers), ..s }
}

/// A waiting unload of the fiber.
pub open spec fn is_blocked(s: SupervisorModel, fiber: FiberId) -> bool {
    !not_for(s.blocked, fiber)
}

/// Why a completion is refused.
pub open spec fn complete_error(s: SupervisorModel, fiber: FiberId) -> Option<ErrorModel> {
    if is_blocked(s, fiber) {
        Some(ErrorModel::TransitionBlocked { fiber })
    } else {
        unknown_error(s, fiber)
    }
}

/// The completion ends a load with an error.
pub open spec fn load_failed(
    m: MachineModel,
    generation: u64,
    result: Result<(), ErrorModel>,
) -> bool {
    current_generation(m, generation) && m.active->Some_0.kind is Load && result is Err
}

/// The completion ends an unload.
pub open spec fn unload_ended(m: MachineModel, generation: u64) -> bool {
    current_generation(m, generation) && m.active->Some_0.kind is Unload
}

/// The state with a completion applied to its fiber; what the fiber was loaded against is
/// forgotten once it is down.
pub open spec fn advanced(
    s: SupervisorModel,
    fiber: FiberId,
    generation: u64,
    result: Result<(), ErrorModel>,
) -> SupervisorModel {
    let i = index_of(s.fibers, fiber);
    let r = s.fibers[i];
    with_record(
        s,
        i,
        RecordModel {
            machine: completed(r.machine, generation, result).0,
            committed: if unload_ended(r.machine, generation) || load_failed(
                r.machine,
                generation,
                result,
            ) {
                None
            } else {
                r.committed
            },
            ..r
        },
    )
}

/// The transition a completion starts.
pub open spec fn advance_transition(advance: AdvanceModel) -> Option<TransitionModel> {
    match advance {
        AdvanceModel::Start(t) => Some(t),
        _ => None,
    }
}

/// The state in which a completion is scheduled: a failed load also gives up its slots.
pub open spec fn completion_state(
    s: SupervisorModel,
    fiber: FiberId,
    generation: u64,
    result: Result<(), ErrorModel>,
) -> SupervisorModel {
    let m = s.fibers[index_of(s.fibers, fiber)].machine;
    let next = advanced(s, fiber, generation, result);
    if load_failed(m, generation, result) {
        withdrawn(next, fiber)
    } else {
        next
    }
}

/// The work a completion starts.
pub open spec fn completion_work(
    s: SupervisorModel,
    fiber: FiberId,
    generation: u64,
    result: Result<(), ErrorModel>,
) -> Seq<TransitionModel> {
    let m = s.fibers[index_of(s.fibers, fiber)].machine;
    let next = advanced(s, fiber, generation, result);
    as_queue(advance_transition(completed(m, generation, result).1)) + if load_failed(
        m,
        generation,
        result,
    ) {
        withdrawn_work(next, fiber)
    } else {
        Seq::empty()
    }
}

/// The state with a fiber marked retired.
pub open spec fn marked(s: SupervisorModel, fiber: FiberId) -> SupervisorModel {
    let i = index_of(s.fibers, fiber);
    let r = s.fibers[i];
    with_record(
        s,
        i,
        RecordModel {
            retired: true,
            machine: with_desired(r.machine, DesiredModel::Retired),
            ..r
        },
    )
}

/// The work retiring a fiber starts: its consumers first, then the fiber itself.
pub open spec fn retirement_work(s: SupervisorModel, fiber: FiberId) -> Seq<TransitionModel> {
    let r = s.fibers[index_of(s.fibers, fiber)];
    withdrawn_work(marked(s, fiber), fiber) + as_queue(
        desired_transition(r.machine, DesiredModel::Retired),
    )
}

/// The state with one fiber's machine replaced.
pub open spec fn with_machine(s: SupervisorModel, fiber: FiberId, m: MachineModel) -> SupervisorModel {
    let i = index_of(s.fibers, fiber);
    with_record(s, i, RecordModel { machine: m, ..s.fibers[i] })
}

// ---------------------------------------------------------------------------------------------
// Operations keep the state valid
// ---------------------------------------------------------------------------------------------

/// A fiber that is idle has no work queued or waiting.
pub proof fn idle_is_free(s: SupervisorModel, queue: Seq<TransitionModel>, i: int)
    requires
        valid(s),
        queue_valid(s, queue),
        0 <= i < s.fibers.len(),
        s.fibers[i].machine.active is None,
    ensures
        not_for(s.blocked, s.fibers[i].id),
        not_for(queue, s.fibers[i].id),
{
    let f = s.fibers[i].id;
    assert(fiber_at(s.fibers, f, i));
    assert forall|t: TransitionModel| #[trigger] running(s.fibers, t) implies t.fiber != f by {
        let k = choose|k: int| #[trigger]
            fiber_at(s.fibers, t.fiber, k) && s.fibers[k].machine.active == Some(t);
        if t.fiber == f {
            index_of_is(s.fibers, f, i);
            index_of_is(s.fibers, f, k);
        }
    }
    assert forall|k: int| 0 <= k < s.blocked.len() implies (#[trigger] s.blocked[k]).fiber != f by {
        assert(running(s.fibers, s.blocked[k]));
    }
    assert forall|k: int| 0 <= k < queue.len() implies (#[trigger] queue[k]).fiber != f by {
        assert(running(s.fibers, queue[k]));
    }
}

/// Replacing a fiber that nothing is queued or waiting for.
pub proof fn replaced_keeps(
    s: SupervisorModel,
    queue: Seq<TransitionModel>,
    i: int,
    r: RecordModel,
)
    requires
        valid(s),
        room(s.fibers),
        queue_valid(s, queue),
        0 <= i < s.fibers.len(),
        r.id == s.fibers[i].id,
        record_valid(r, s.next_fiber),
        record_current(r, s.providers),
        r.machine.active is None ==> r.machine.next_generation < u64::MAX,
        r.machine.active == s.fibers[i].machine.active || not_for(s.blocked, r.id) && not_for(
            queue,
            r.id,
        ),
    ensures
        valid(with_record(s, i, r)),
        room(with_record(s, i, r).fibers),
        queue_valid(with_record(s, i, r), queue),
        not_for(s.blocked, r.id) && not_for(queue, r.id) && r.machine.active is Some
            ==> queue_valid(with_record(s, i, r), queue.push(r.machine.active->Some_0)),
{
    let after = with_record(s, i, r);
    assert(same_ids(s.fibers, after.fibers));
    same_ids_keep(s.fibers, after.fibers, s.providers);
    assert forall|t: TransitionModel|
        running(s.fibers, t) && (r.machine.active == s.fibers[i].machine.active || t.fiber
            != r.id) implies #[trigger] running(after.fibers, t) by {
        let k = choose|k: int| #[trigger]
            fiber_at(s.fibers, t.fiber, k) && s.fibers[k].machine.active == Some(t);
        assert(fiber_at(after.fibers, t.fiber, k));
    }
    assert forall|k: int| 0 <= k < s.blocked.len() implies (#[trigger] s.blocked[k]).kind is Unload
        && running(after.fibers, s.blocked[k]) by {
        assert(running(s.fibers, s.blocked[k]));
    }
    assert forall|k: int| 0 <= k < queue.len() implies running(after.fibers, #[trigger] queue[k])
        && not_for(after.blocked, queue[k].fiber) by {
        assert(running(s.fibers, queue[k]));
    }
    if not_for(s.blocked, r.id) && not_for(queue, r.id) && r.machine.active is Some {
        let t = r.machine.active->Some_0;
        let more = queue.push(t);
        assert(fiber_at(after.fibers, t.fiber, i));
        assert forall|k: int| 0 <= k < more.len() implies running(after.fibers, #[trigger] more[k])
            && not_for(after.blocked, more[k].fiber) by {
            if k < queue.len() {
                assert(more[k] == queue[k]);
            }
        }
        assert forall|j: int, k: int| 0 <= j < k < more.len() implies (#[trigger] more[j]).fiber
            != (#[trigger] more[k]).fiber by {
            assert(more[j] == queue[j]);
            if k < queue.len() {
                assert(more[k] == queue[k]);
            }
        }
    }
}

/// Following the targets keeps the state valid and queues the started work.
pub proof fn settling_keeps(s: SupervisorModel)
    requires
        valid(s),
        room(s.fibers),
    ensures
        valid(SupervisorModel { fibers: reconciled(s.fibers), ..s }),
        room(reconciled(s.fibers)),
        same_ids(s.fibers, reconciled(s.fibers)),
        queue_valid(
            SupervisorModel { fibers: reconciled(s.fibers), ..s },
            emitted(s.fibers, s.fibers.len()),
        ),
{
    reconciled_keeps(s.fibers, s.providers, s.next_fiber);
    let none = Seq::<TransitionModel>::empty();
    assert(queue_valid(s, none));
    reconciled_queue(s, s.fibers, none);
    assert(none + emitted(s.fibers, s.fibers.len()) =~= emitted(s.fibers, s.fibers.len()));
    same_ids_keep(s.fibers, reconciled(s.fibers), s.providers);
}

/// New slots keep the state valid as long as their owners exist.
pub proof fn reassigned_keeps(s: SupervisorModel, providers: Map<ProviderKeyModel, FiberId>)
    requires
        valid(s),
        room(s.fibers),
        owners_known(s.fibers, providers),
    ensures
        valid(reassigned(s, providers)),
        room(reassigned(s, providers).fibers),
        same_ids(s.fibers, reassigned(s, providers).fibers),
{
    refreshed_keeps(s.fibers, s.providers, providers, s.next_fiber);
    let after = refreshed(s.fibers, providers);
    same_ids_keep(s.fibers, after, providers);
    assert forall|k: int| 0 <= k < s.blocked.len() implies (#[trigger] s.blocked[k]).kind is Unload
        && running(after, s.blocked[k]) by {
        let t = s.blocked[k];
        assert(running(s.fibers, t));
        let i = choose|i: int| #[trigger]
            fiber_at(s.fibers, t.fiber, i) && s.fibers[i].machine.active == Some(t);
        assert(after[i].machine == s.fibers[i].machine);
        assert(s.fibers[i].id == after[i].id);
        assert(fiber_at(after, t.fiber, i));
    }
}

/// The order of queued work does not matter for its validity.
pub proof fn queue_swapped(s: SupervisorModel, a: Seq<TransitionModel>, b: Seq<TransitionModel>)
    requires
        queue_valid(s, a + b),
    ensures
        queue_valid(s, b + a),
{
    let x = a + b;
    let y = b + a;
    assert forall|i: int| 0 <= i < y.len() implies running(s.fibers, #[trigger] y[i]) && not_for(
        s.blocked,
        y[i].fiber,
    ) by {
        if i < b.len() {
            assert(y[i] == x[a.len() + i]);
        } else {
            assert(y[i] == x[i - b.len()]);
        }
    }
    assert forall|i: int, j: int| 0 <= i < j < y.len() implies (#[trigger] y[i]).fiber != (
    #[trigger] y[j]).fiber by {
        let p = if i < b.len() {
            a.len() + i
        } else {
            i - b.len()
        };
        let q = if j < b.len() {
            a.len() + j
        } else {
            j - b.len()
        };
        assert(y[i] == x[p] && y[j] == x[q]);
        if p < q {
            assert(x[p].fiber != x[q].fiber);
        } else {
            assert(x[q].fiber != x[p].fiber);
        }
    }
}

/// A new fiber keeps the state valid.
pub proof fn creation_keeps(s: SupervisorModel, parent: Option<FiberId>)
    requires
        valid(s),
        s.next_fiber < u64::MAX,
    ensures
        valid(created(s, parent)),
{
    let after = created(s, parent);
    assert forall|i: int| 0 <= i < after.fibers.len() implies record_valid(
        #[trigger] after.fibers[i],
        after.next_fiber,
    ) && record_current(after.fibers[i], after.providers) by {
        if i < s.fibers.len() {
            assert(after.fibers[i] == s.fibers[i]);
            assert(record_valid(s.fibers[i], s.next_fiber));
            assert(record_current(s.fibers[i], s.providers));
        }
    }
    assert forall|i: int, j: int| 0 <= i < j < after.fibers.len() implies (
    #[trigger] after.fibers[i]).id.0 < (#[trigger] after.fibers[j]).id.0 by {
        assert(after.fibers[i] == s.fibers[i]);
        assert(record_valid(s.fibers[i], s.next_fiber));
        if j < s.fibers.len() {
            assert(after.fibers[j] == s.fibers[j]);
        }
    }
    assert forall|key: ProviderKeyModel| #[trigger]
        after.providers.dom().contains(key) implies known(after.fibers, after.providers[key]) by {
        let i = index_of(s.fibers, s.providers[key]);
        assert(known(s.fibers, s.providers[key]));
        assert(fiber_at(s.fibers, s.providers[key], i));
        assert(fiber_at(after.fibers, s.providers[key], i));
    }
    assert forall|k: int| 0 <= k < s.blocked.len() implies (#[trigger] s.blocked[k]).kind is Unload
        && running(after.fibers, s.blocked[k]) by {
        let t = s.blocked[k];
        assert(running(s.fibers, t));
        let i = choose|i: int| #[trigger]
            fiber_at(s.fibers, t.fiber, i) && s.fibers[i].machine.active == Some(t);
        assert(fiber_at(after.fibers, t.fiber, i));
    }
}

/// Recording what a fiber was loaded against keeps the state valid.
pub proof fn commit_keeps(s: SupervisorModel, i: int, committed: Option<Seq<ResolvedModel>>)
    requires
        valid(s),
        0 <= i < s.fibers.len(),
    ensures
        valid(with_record(s, i, RecordModel { committed, ..s.fibers[i] })),
{
    let after = with_record(s, i, RecordModel { committed, ..s.fibers[i] });
    assert(same_ids(s.fibers, after.fibers));
    same_ids_keep(s.fibers, after.fibers, s.providers);
    assert forall|k: int| 0 <= k < after.fibers.len() implies record_valid(
        #[trigger] after.fibers[k],
        after.next_fiber,
    ) && record_current(after.fibers[k], after.providers) by {
        assert(record_valid(s.fibers[k], s.next_fiber));
        assert(record_current(s.fibers[k], s.providers));
    }
    assert forall|k: int| 0 <= k < s.blocked.len() implies (#[trigger] s.blocked[k]).kind is Unload
        && running(after.fibers, s.blocked[k]) by {
        let t = s.blocked[k];
        assert(running(s.fibers, t));
        let j = choose|j: int| #[trigger]
            fiber_at(s.fibers, t.fiber, j) && s.fibers[j].machine.active == Some(t);
        assert(fiber_at(after.fibers, t.fiber, j));
    }
}

/// Changing one slot leaves every selection current but for that slot.
pub proof fn slot_change_leaves_current(
    s: SupervisorModel,
    providers: Map<ProviderKeyModel, FiberId>,
    key: ProviderKeyModel,
)
    requires
        valid(s),
        forall|other: ProviderKeyModel|
            other != key ==> #[trigger] owner(providers, other) == owner(s.providers, other),
    ensures
        forall|i: int|
            0 <= i < s.fibers.len() ==> current_but(#[trigger] s.fibers[i], providers, key),
{
    assert forall|i: int| 0 <= i < s.fibers.len() implies current_but(
        #[trigger] s.fibers[i],
        providers,
        key,
    ) by {
        assert(record_current(s.fibers[i], s.providers));
    }
}

// ---------------------------------------------------------------------------------------------
// Laws
// ---------------------------------------------------------------------------------------------

/// A provider change reaches only fibers that declare its service in its realm.
pub proof fn only_matching_consumers_are_affected(
    s: SupervisorModel,
    providers: Map<ProviderKeyModel, FiberId>,
    key: ProviderKeyModel,
    i: int,
)
    requires
        valid(s),
        forall|other: ProviderKeyModel|
            other != key ==> #[trigger] owner(providers, other) == owner(s.providers, other),
        0 <= i < s.fibers.len(),
        s.fibers[i].desired != reassigned(s, providers).fibers[i].desired,
    ensures
        s.fibers[i].context is Some,
        exists|e: int|
            0 <= e < s.fibers[i].injects.len() && slot_key(
                s.fibers[i].context->Some_0.realms,
                #[trigger] s.fibers[i].injects[e],
            ) == key,
{
    let r = s.fibers[i];
    assert(record_current(r, s.providers));
    let after = refresh_record(r, providers);
    assert(reassigned(s, providers).fibers[i] == after);
    let realms = r.context->Some_0.realms;
    if forall|e: int|
        0 <= e < r.injects.len() ==> slot_key(realms, #[trigger] r.injects[e]) != key {
        assert(r.desired =~= after.desired) by {
            assert forall|e: int| 0 <= e < r.desired.len() implies r.desired[e]
                == after.desired[e] by {
                assert(slot_key(realms, r.injects[e]) != key);
                assert(owner(providers, slot_key(realms, r.injects[e])) == owner(
                    s.providers,
                    slot_key(realms, r.injects[e]),
                ));
            }
        }
    }
}

/// A configured fiber on a dependency cycle is told to wait and shown every fiber of the cycle;
/// all other live fibers carry no diagnosis.
pub proof fn cycle_members_wait(fibers: Seq<RecordModel>, i: int)
    requires
        0 <= i < fibers.len(),
        !fibers[i].retired,
        fibers[i].context is Some,
    ensures
        reaches(dependency(fibers), i, i) ==> {
            &&& reconciled(fibers)[i].machine.desired is Waiting
            &&& reconciled(fibers)[i].dependency_error == Some(
                ErrorModel::DependencyCycle {
                    fibers: ids_at(fibers, members(dependency(fibers), i, fibers.len())),
                },
            )
        },
        !reaches(dependency(fibers), i, i) ==> reconciled(fibers)[i].dependency_error is None,
{
}

/// Following the targets a second time starts nothing and changes nothing.
pub proof fn reconciling_is_idempotent(fibers: Seq<RecordModel>, i: int)
    requires
        0 <= i < fibers.len(),
        machine_valid(fibers[i].machine),
        fibers[i].machine.active is None ==> fibers[i].machine.next_generation < u64::MAX,
    ensures
        ({
            let goal = target(fibers[i], cycle_of(fibers, i));
            let once = with_desired(fibers[i].machine, goal);
            &&& with_desired(once, goal) == once
            &&& desired_transition(once, goal) is None
        }),
{
}

/// After a slot is given up nobody selects its former owner through it any more.
pub proof fn withdrawn_slots_are_unselected(s: SupervisorModel, fiber: FiberId, i: int, e: int)
    requires
        valid(s),
        0 <= i < s.fibers.len(),
        s.fibers[i].context is Some,
        0 <= e < withdrawn(s, fiber).fibers[i].desired.len(),
    ensures
        withdrawn(s, fiber).fibers[i].desired[e].provider != Some(fiber),
{
    let providers = without_owner(s.providers, fiber);
    let fresh = refreshed(s.fibers, providers);
    assert(withdrawn(s, fiber).fibers[i].desired == fresh[i].desired);
    let r = s.fibers[i];
    let key = slot_key(r.context->Some_0.realms, r.injects[e]);
    assert(fresh[i].desired[e].provider == owner(providers, key));
}

/// A slot has one owner: a second provider is refused whoever asks.
pub proof fn provider_slots_are_unique(
    s: SupervisorModel,
    key: ProviderKeyModel,
    provider: FiberId,
)
    requires
        s.providers.dom().contains(key),
        known(s.fibers, provider),
    ensures
        provide_error(s, key, provider) == Some(
            ErrorModel::DuplicateProvider { key, provider: s.providers[key] },
        ),
{
}

/// An unload that waits for consumers cannot be reported complete.
pub proof fn waiting_unloads_cannot_complete(s: SupervisorModel, i: int)
    requires
        0 <= i < s.blocked.len(),
    ensures
        complete_error(s, s.blocked[i].fiber) == Some(
            ErrorModel::TransitionBlocked { fiber: s.blocked[i].fiber },
        ),
{
    assert(!not_for(s.blocked, s.blocked[i].fiber));
}

} // verus!
