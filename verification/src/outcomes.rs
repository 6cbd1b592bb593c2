//! What each command does to the fibers and slots it names, and to no others.
use crate::command::{affordable, obeyed, refusal, unscheduled, unscheduled_keeps, work, CommandModel};
use crate::context::ContextModel;
use crate::error::ErrorModel;
use crate::fiber::{
    completed, current_generation, desired_transition, machine_valid, with_desired, AdvanceModel,
    DesiredModel, FiberState, KindModel, MachineModel, TransitionModel,
};
use crate::id::FiberId;
use crate::service::{InjectModel, ProviderKeyModel};
use crate::standing::{commands_queue, draining_only_withdraws, one_of_two, waiting_splits, waits_too};
use crate::supervisor_model::{
    advanced, blocked_with, blocking_keeps, drained, drained_keeps, fiber_at, idle, index_of,
    index_of_is, load_failed, queue_rest, queue_valid, reconciled, refreshed, released, room,
    valid, withdrawn, withdrawn_idle, withdrawn_keeps, withdrawn_work, without_owner, RecordModel,
    SupervisorModel,
};
use vstd::prelude::*;

verus! {

// ---------------------------------------------------------------------------------------------
// Machines
// ---------------------------------------------------------------------------------------------

/// A load that failed leaves its machine failed, with the error. One that succeeded makes it
/// active if what was loaded is still wanted, and otherwise is undone at once. After an unload
/// the machine waits, loads what is wanted by then, or is disposed of, whether or not the unload
/// failed.
pub proof fn completions_lead_to_the_target(
    m: MachineModel,
    generation: u64,
    result: Result<(), ErrorModel>,
)
    requires
        machine_valid(m),
        current_generation(m, generation),
    ensures
        ({
            let (after, advance) = completed(m, generation, result);
            &&& after.desired == m.desired
            &&& after.fiber == m.fiber
            &&& match m.active->Some_0.kind {
                KindModel::Load { epoch } => match result {
                    Err(error) => after.state == FiberState::Failed && after.failure == Some(error)
                        && after.active is None && advance is Settled,
                    Ok(_) => if m.desired == DesiredModel::Ready(epoch) {
                        after.state == FiberState::Active && after.loaded_epoch == Some(epoch)
                            && after.active is None && advance is Settled
                    } else {
                        after.state == FiberState::Unloading && (after.active matches Some(t)
                            && t.kind is Unload && t.fiber == m.fiber && advance
                            == AdvanceModel::Start(t))
                    },
                },
                KindModel::Unload => {
                    &&& after.loaded_epoch is None
                    &&& after.teardown_error == match result {
                        Err(error) => Some(error),
                        Ok(_) => None,
                    }
                    &&& match m.desired {
                        DesiredModel::Waiting => after.state == FiberState::Pending
                            && after.active is None && advance is Settled,
                        DesiredModel::Retired => after.state == FiberState::Disposed
                            && after.active is None && advance is Settled,
                        DesiredModel::Ready(epoch) => after.state == FiberState::Loading && (
                        after.active matches Some(t) && t.kind == (KindModel::Load { epoch })
                            && t.fiber == m.fiber && advance == AdvanceModel::Start(t)),
                    }
                },
            }
        }),
{
}

/// An idle machine that waited starts to load what is wanted. An active one starts to unload as
/// soon as anything else is wanted than what it loaded, and otherwise goes on. Nothing starts
/// while a transition runs.
pub proof fn targets_start_work(m: MachineModel, desired: DesiredModel)
    requires
        machine_valid(m),
    ensures
        m.active is Some ==> desired_transition(m, desired) is None && with_desired(m, desired)
            == (MachineModel { desired, ..m }),
        m.state is Pending ==> match desired {
            DesiredModel::Ready(epoch) => {
                &&& desired_transition(m, desired) matches Some(t) && t.kind == (KindModel::Load {
                    epoch,
                }) && t.fiber == m.fiber && t.generation == m.next_generation
                    && with_desired(m, desired).active == Some(t)
                &&& with_desired(m, desired).state is Loading
            },
            DesiredModel::Waiting => desired_transition(m, desired) is None && with_desired(
                m,
                desired,
            ).state is Pending,
            DesiredModel::Retired => desired_transition(m, desired) is None && with_desired(
                m,
                desired,
            ).state is Disposed,
        },
        m.state is Active ==> if desired is Ready && m.loaded_epoch == Some(desired->Ready_0) {
            desired_transition(m, desired) is None && with_desired(m, desired).state is Active
        } else {
            &&& desired_transition(m, desired) matches Some(t) && t.kind is Unload && t.fiber
                == m.fiber && t.generation == m.next_generation && with_desired(m, desired).active
                == Some(t)
            &&& with_desired(m, desired).state is Unloading
        },
{
}

// ---------------------------------------------------------------------------------------------
// Records
// ---------------------------------------------------------------------------------------------

/// What only commands to a fiber itself change: what it declared, what it was loaded against and
/// whether it is retired.
pub open spec fn same_terms(a: RecordModel, b: RecordModel) -> bool {
    &&& a.id == b.id
    &&& a.parent == b.parent
    &&& a.context == b.context
    &&& a.injects == b.injects
    &&& a.committed == b.committed
    &&& a.retired == b.retired
}

spec fn all_same_terms(a: Seq<RecordModel>, b: Seq<RecordModel>) -> bool {
    &&& a.len() == b.len()
    &&& forall|i: int| 0 <= i < a.len() ==> same_terms(#[trigger] a[i], b[i])
}

proof fn withdrawing_keeps_terms(s: SupervisorModel, fiber: FiberId)
    ensures
        all_same_terms(s.fibers, withdrawn(s, fiber).fibers),
{
    let fresh = refreshed(s.fibers, without_owner(s.providers, fiber));
    assert forall|i: int| 0 <= i < s.fibers.len() implies same_terms(
        #[trigger] s.fibers[i],
        reconciled(fresh)[i],
    ) by {
        assert(same_terms(s.fibers[i], fresh[i]));
    }
}

proof fn draining_keeps_terms(
    s: SupervisorModel,
    queue: Seq<TransitionModel>,
    ready: Seq<TransitionModel>,
)
    requires
        valid(s),
        room(s.fibers),
        queue_valid(s, queue),
    ensures
        all_same_terms(s.fibers, drained(s, queue, ready).0.fibers),
    decreases queue.len() + 2 * idle(s.fibers),
{
    if queue.len() > 0 {
        let t = queue[0];
        let rest = queue.drop_first();
        if t.kind is Load {
            queue_rest(s, queue);
            draining_keeps_terms(s, rest, ready.push(t));
        } else {
            let waiting = SupervisorModel { blocked: blocked_with(s.blocked, t), ..s };
            blocking_keeps(s, queue);
            withdrawn_keeps(waiting, t.fiber, rest);
            withdrawn_idle(waiting, t.fiber);
            withdrawing_keeps_terms(waiting, t.fiber);
            let after = withdrawn(waiting, t.fiber);
            let more = rest + withdrawn_work(waiting, t.fiber);
            draining_keeps_terms(after, more, ready);
            let end = drained(after, more, ready).0.fibers;
            assert forall|i: int| 0 <= i < s.fibers.len() implies same_terms(
                #[trigger] s.fibers[i],
                end[i],
            ) by {
                assert(same_terms(waiting.fibers[i], after.fibers[i]));
                assert(same_terms(after.fibers[i], end[i]));
            }
        }
    }
}

/// A declaration is what the fiber has from then on, and no other fiber's terms change.
pub proof fn declarations_are_kept(
    s: SupervisorModel,
    fiber: FiberId,
    context: ContextModel,
    injects: Seq<InjectModel>,
    i: int,
)
    requires
        valid(s),
        0 <= i < s.fibers.len(),
        ({
            let command = CommandModel::ConfigureDependencies { fiber, context, injects };
            affordable(s, command) && refusal(s, command) is None
        }),
    ensures
        ({
            let command = CommandModel::ConfigureDependencies { fiber, context, injects };
            let end = obeyed(s, command).fibers;
            &&& end.len() == s.fibers.len()
            &&& s.fibers[i].id == fiber ==> same_terms(
                RecordModel { context: Some(context), injects, ..s.fibers[i] },
                end[i],
            )
            &&& s.fibers[i].id != fiber ==> same_terms(s.fibers[i], end[i])
        }),
{
    let command = CommandModel::ConfigureDependencies { fiber, context, injects };
    unscheduled_keeps(s, command);
    let (next, queue) = unscheduled(s, command)->Some_0;
    draining_keeps_terms(next, queue, Seq::empty());
    let at = index_of(s.fibers, fiber);
    assert(fiber_at(s.fibers, fiber, at));
    if s.fibers[i].id == fiber {
        assert(fiber_at(s.fibers, fiber, i));
        index_of_is(s.fibers, fiber, i);
    }
    assert(same_terms(next.fibers[i], drained(next, queue, Seq::empty()).0.fibers[i]));
}

/// Once an unload has ended, or a load has failed, the fiber is loaded against nobody any more.
/// Every other completion leaves it loaded as it was, and no other fiber's terms change.
pub proof fn fibers_that_are_down_use_nobody(
    s: SupervisorModel,
    fiber: FiberId,
    generation: u64,
    result: Result<(), ErrorModel>,
    i: int,
)
    requires
        valid(s),
        0 <= i < s.fibers.len(),
        ({
            let command = CommandModel::CompleteTransition { fiber, generation, result };
            affordable(s, command) && refusal(s, command) is None
        }),
    ensures
        ({
            let command = CommandModel::CompleteTransition { fiber, generation, result };
            let end = obeyed(s, command).fibers;
            let m = s.fibers[i].machine;
            &&& end.len() == s.fibers.len()
            &&& s.fibers[i].id != fiber ==> same_terms(s.fibers[i], end[i])
            &&& s.fibers[i].id == fiber ==> if m.active is Some && m.active->Some_0.generation
                == generation && (m.active->Some_0.kind is Unload || result is Err) {
                same_terms(RecordModel { committed: None, ..s.fibers[i] }, end[i])
            } else {
                same_terms(s.fibers[i], end[i])
            }
        }),
{
    let command = CommandModel::CompleteTransition { fiber, generation, result };
    unscheduled_keeps(s, command);
    let (next, queue) = unscheduled(s, command)->Some_0;
    draining_keeps_terms(next, queue, Seq::empty());
    let at = index_of(s.fibers, fiber);
    assert(fiber_at(s.fibers, fiber, at));
    if s.fibers[i].id == fiber {
        assert(fiber_at(s.fibers, fiber, i));
        index_of_is(s.fibers, fiber, i);
    }
    let done = advanced(s, fiber, generation, result);
    if load_failed(s.fibers[at].machine, generation, result) {
        withdrawing_keeps_terms(done, fiber);
        assert(same_terms(done.fibers[i], next.fibers[i]));
    }
    assert(same_terms(next.fibers[i], drained(next, queue, Seq::empty()).0.fibers[i]));
}

// ---------------------------------------------------------------------------------------------
// Slots
// ---------------------------------------------------------------------------------------------

/// Taking a slot adds that slot for its provider; giving one up takes it away. No other slot is
/// added and none changes hands.
pub proof fn slots_change_as_told(
    s: SupervisorModel,
    key: ProviderKeyModel,
    provider: FiberId,
    other: ProviderKeyModel,
)
    requires
        valid(s),
        affordable(s, CommandModel::Provide { key, provider }),
    ensures
        ({
            let command = CommandModel::Provide { key, provider };
            let end = obeyed(s, command).providers;
            refusal(s, command) is None && end.dom().contains(other) ==> if other == key {
                end[other] == provider
            } else {
                s.providers.dom().contains(other) && end[other] == s.providers[other]
            }
        }),
        ({
            let command = CommandModel::Withdraw { key, provider };
            let end = obeyed(s, command).providers;
            refusal(s, command) is None ==> {
                &&& s.providers.dom().contains(key) && s.providers[key] == provider
                &&& end.dom().contains(other) ==> other != key && s.providers.dom().contains(other)
                    && end[other] == s.providers[other]
            }
        }),
{
    let provide = CommandModel::Provide { key, provider };
    if refusal(s, provide) is None {
        unscheduled_keeps(s, provide);
        let (next, queue) = unscheduled(s, provide)->Some_0;
        draining_only_withdraws(next, queue, Seq::empty(), other);
    }
    let withdraw = CommandModel::Withdraw { key, provider };
    if refusal(s, withdraw) is None {
        unscheduled_keeps(s, withdraw);
        let (next, queue) = unscheduled(s, withdraw)->Some_0;
        draining_only_withdraws(next, queue, Seq::empty(), other);
    }
}

/// A fiber whose load failed gives up every slot it had taken.
pub proof fn failed_loads_provide_nothing(
    s: SupervisorModel,
    fiber: FiberId,
    generation: u64,
    error: ErrorModel,
    i: int,
    key: ProviderKeyModel,
)
    requires
        valid(s),
        0 <= i < s.fibers.len(),
        s.fibers[i].id == fiber,
        s.fibers[i].machine.active is Some,
        s.fibers[i].machine.active->Some_0.kind is Load,
        s.fibers[i].machine.active->Some_0.generation == generation,
        ({
            let command = CommandModel::CompleteTransition {
                fiber,
                generation,
                result: Err(error),
            };
            affordable(s, command) && refusal(s, command) is None
        }),
    ensures
        ({
            let command = CommandModel::CompleteTransition {
                fiber,
                generation,
                result: Err(error),
            };
            let end = obeyed(s, command).providers;
            end.dom().contains(key) ==> end[key] != fiber && s.providers.dom().contains(key)
                && end[key] == s.providers[key]
        }),
{
    let command = CommandModel::CompleteTransition { fiber, generation, result: Err(error) };
    unscheduled_keeps(s, command);
    let (next, queue) = unscheduled(s, command)->Some_0;
    assert(fiber_at(s.fibers, fiber, i));
    index_of_is(s.fibers, fiber, i);
    draining_only_withdraws(next, queue, Seq::empty(), key);
}

proof fn draining_empties_unloads(
    s: SupervisorModel,
    queue: Seq<TransitionModel>,
    ready: Seq<TransitionModel>,
    t: TransitionModel,
    key: ProviderKeyModel,
)
    requires
        valid(s),
        room(s.fibers),
        queue_valid(s, queue),
        drained(s, queue, ready).0.blocked.contains(t),
        !s.blocked.contains(t),
        drained(s, queue, ready).0.providers.dom().contains(key),
    ensures
        drained(s, queue, ready).0.providers[key] != t.fiber,
    decreases queue.len() + 2 * idle(s.fibers),
{
    if queue.len() > 0 {
        let first = queue[0];
        let rest = queue.drop_first();
        if first.kind is Load {
            queue_rest(s, queue);
            draining_empties_unloads(s, rest, ready.push(first), t, key);
        } else {
            let waiting = SupervisorModel { blocked: blocked_with(s.blocked, first), ..s };
            blocking_keeps(s, queue);
            withdrawn_keeps(waiting, first.fiber, rest);
            withdrawn_idle(waiting, first.fiber);
            waits_too(s.blocked, first, t);
            let after = withdrawn(waiting, first.fiber);
            let more = rest + withdrawn_work(waiting, first.fiber);
            if t == first {
                draining_only_withdraws(after, more, ready, key);
            } else {
                draining_empties_unloads(after, more, ready, t, key);
            }
        }
    }
}

/// A fiber that a command sets to unload provides nothing any more, whether its unload is handed
/// out at once or waits.
pub proof fn unloading_fibers_provide_nothing(
    s: SupervisorModel,
    command: CommandModel,
    t: TransitionModel,
    key: ProviderKeyModel,
)
    requires
        valid(s),
        affordable(s, command),
        t.kind is Unload,
        !s.blocked.contains(t),
        work(s, command).contains(t) || obeyed(s, command).blocked.contains(t),
        obeyed(s, command).providers.dom().contains(key),
    ensures
        obeyed(s, command).providers[key] != t.fiber,
{
    if refusal(s, command) is None {
        match unscheduled(s, command) {
            Some((next, queue)) => {
                unscheduled_keeps(s, command);
                commands_queue(s, command);
                let none = Seq::<TransitionModel>::empty();
                drained_keeps(next, queue, none);
                let (after, ready) = drained(next, queue, none);
                let n = after.blocked.len();
                waiting_splits(after.fibers, after.blocked, n, t);
                assert(after.blocked.take(n as int) =~= after.blocked);
                one_of_two(ready, released(after.fibers, after.blocked, n), t);
                if ready.contains(t) {
                    let k = choose|k: int| 0 <= k < ready.len() && ready[k] == t;
                    assert(ready[k].kind is Load);
                }
                draining_empties_unloads(next, queue, none, t, key);
            },
            None => {},
        }
    }
}

} // verus!
