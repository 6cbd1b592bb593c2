//! Where fibers stand after every command, and what becomes of the work it starts.
use crate::command::{
    affordable, commands_keep_the_graph_valid, obeyed, refusal, unscheduled, unscheduled_keeps,
    work, CommandModel,
};
use crate::context::realm_of;
use crate::error::ErrorModel;
use crate::fiber::{
    completed, desired_transition, next_transition, reloadable, with_desired, DesiredModel,
    KindModel, TransitionModel,
};
use crate::following::followed;
use crate::graph::reaches;
use crate::id::FiberId;
use crate::search::first_index_is_first;
use crate::service::{missing, ProviderKeyModel};
use crate::supervisor_model::{
    advance_transition, advanced, as_queue, blocked_before_bounds, blocked_before, blocked_with,
    blocking_keeps, cycle_of, declared, dependency, drained, drained_keeps, emitted, fiber_at,
    generations_left, idle, index_of, index_of_is, known, load_failed, marked, queue_rest,
    queue_valid, reassigned, reconciled, record_current, record_valid, refreshed, released,
    restart_transition, retained, room, running, selects, target, valid, withdrawn,
    withdrawn_idle, withdrawn_keeps, withdrawn_work, without_owner, RecordModel, SupervisorModel,
};
use vstd::prelude::*;

verus! {

// ---------------------------------------------------------------------------------------------
// Work
// ---------------------------------------------------------------------------------------------

/// Whatever runs afterwards ran before or is in the queue.
pub open spec fn queued(before: Seq<RecordModel>, after: Seq<RecordModel>, queue: Seq<TransitionModel>) -> bool {
    forall|t: TransitionModel| #[trigger]
        running(after, t) ==> running(before, t) || queue.contains(t)
}

/// The transition runs and does not wait.
spec fn out_already(s: SupervisorModel, t: TransitionModel) -> bool {
    running(s.fibers, t) && !s.blocked.contains(t)
}

/// Whatever runs was handed out earlier, is queued, is ready or waits.
spec fn accounted(
    start: SupervisorModel,
    s: SupervisorModel,
    queue: Seq<TransitionModel>,
    ready: Seq<TransitionModel>,
) -> bool {
    &&& forall|t: TransitionModel| #[trigger]
        running(s.fibers, t) ==> out_already(start, t) || queue.contains(t) || ready.contains(t)
            || s.blocked.contains(t)
    &&& forall|t: TransitionModel| #[trigger] ready.contains(t) ==> running(s.fibers, t)
}

proof fn starts_are_emitted(fibers: Seq<RecordModel>, n: nat, i: int, t: TransitionModel)
    requires
        0 <= i < n <= fibers.len(),
        with_desired(fibers[i].machine, target(fibers[i], cycle_of(fibers, i))).active == Some(t),
        fibers[i].machine.active != Some(t),
    ensures
        emitted(fibers, n).contains(t),
    decreases n,
{
    let rest = emitted(fibers, (n - 1) as nat);
    let all = emitted(fibers, n);
    if i < n - 1 {
        starts_are_emitted(fibers, (n - 1) as nat, i, t);
        let k = choose|k: int| 0 <= k < rest.len() && rest[k] == t;
        assert(all[k] == t);
    } else {
        assert(desired_transition(fibers[i].machine, target(fibers[i], cycle_of(fibers, i)))
            == Some(t));
        assert(all[rest.len() as int] == t);
    }
}

/// Following the targets queues what it starts.
proof fn reconciling_queues(before: Seq<RecordModel>, fibers: Seq<RecordModel>)
    requires
        before.len() == fibers.len(),
        forall|i: int|
            0 <= i < fibers.len() ==> (#[trigger] fibers[i]).id == before[i].id
                && fibers[i].machine == before[i].machine,
    ensures
        queued(before, reconciled(fibers), emitted(fibers, fibers.len())),
{
    let after = reconciled(fibers);
    assert forall|t: TransitionModel| #[trigger] running(after, t) implies running(before, t)
        || emitted(fibers, fibers.len()).contains(t) by {
        let i = choose|i: int| #[trigger]
            fiber_at(after, t.fiber, i) && after[i].machine.active == Some(t);
        if fibers[i].machine.active == Some(t) {
            assert(fiber_at(before, t.fiber, i));
        } else {
            starts_are_emitted(fibers, fibers.len(), i, t);
        }
    }
}

/// What ran keeps running when fibers follow their targets.
proof fn reconciling_lets_run(before: Seq<RecordModel>, fibers: Seq<RecordModel>, t: TransitionModel)
    requires
        before.len() == fibers.len(),
        forall|i: int|
            0 <= i < fibers.len() ==> (#[trigger] fibers[i]).id == before[i].id
                && fibers[i].machine == before[i].machine,
        running(before, t),
    ensures
        running(reconciled(fibers), t),
{
    let i = choose|i: int| #[trigger]
        fiber_at(before, t.fiber, i) && before[i].machine.active == Some(t);
    assert(fibers[i].machine == before[i].machine);
    assert(fiber_at(reconciled(fibers), t.fiber, i));
}

pub proof fn one_of_two<A>(a: Seq<A>, b: Seq<A>, x: A)
    ensures
        (a + b).contains(x) <==> a.contains(x) || b.contains(x),
{
    let c = a + b;
    if c.contains(x) {
        let k = choose|k: int| 0 <= k < c.len() && c[k] == x;
        if k < a.len() {
            assert(a[k] == x);
        } else {
            assert(b[k - a.len()] == x);
        }
    }
    if a.contains(x) {
        let k = choose|k: int| 0 <= k < a.len() && a[k] == x;
        assert(c[k] == x);
    }
    if b.contains(x) {
        let k = choose|k: int| 0 <= k < b.len() && b[k] == x;
        assert(c[a.len() + k] == x);
    }
}

proof fn first_or_later(queue: Seq<TransitionModel>, t: TransitionModel)
    requires
        queue.len() > 0,
    ensures
        queue.contains(t) <==> t == queue[0] || queue.drop_first().contains(t),
{
    one_of_two(seq![queue[0]], queue.drop_first(), t);
    assert(seq![queue[0]] + queue.drop_first() =~= queue);
    if seq![queue[0]].contains(t) {
        let k = choose|k: int| 0 <= k < 1 && seq![queue[0]][k] == t;
    }
    if t == queue[0] {
        assert(seq![queue[0]][0] == t);
    }
}

pub proof fn waits_too(blocked: Seq<TransitionModel>, new: TransitionModel, t: TransitionModel)
    ensures
        blocked_with(blocked, new).contains(t) <==> t == new || blocked.contains(t),
{
    blocked_before_bounds(blocked, new.fiber);
    let at = blocked_before(blocked, new.fiber);
    let after = blocked_with(blocked, new);
    if after.contains(t) {
        let k = choose|k: int| 0 <= k < after.len() && after[k] == t;
        if k < at {
            assert(blocked[k] == t);
        } else if k > at {
            assert(blocked[k - 1] == t);
        }
    }
    assert(after[at] == new);
    if blocked.contains(t) {
        let k = choose|k: int| 0 <= k < blocked.len() && blocked[k] == t;
        if k < at {
            assert(after[k] == t);
        } else {
            assert(after[k + 1] == t);
        }
    }
}

proof fn draining_accounts(
    start: SupervisorModel,
    s: SupervisorModel,
    queue: Seq<TransitionModel>,
    ready: Seq<TransitionModel>,
)
    requires
        valid(s),
        room(s.fibers),
        queue_valid(s, queue),
        accounted(start, s, queue, ready),
    ensures
        accounted(start, drained(s, queue, ready).0, Seq::empty(), drained(s, queue, ready).1),
    decreases queue.len() + 2 * idle(s.fibers),
{
    if queue.len() == 0 {
        assert(queue =~= Seq::empty());
    } else {
        let t = queue[0];
        let rest = queue.drop_first();
        if t.kind is Load {
            queue_rest(s, queue);
            let next = ready.push(t);
            assert(ready + seq![t] =~= next);
            assert(running(s.fibers, queue[0]));
            assert forall|u: TransitionModel| next.contains(u) <==> ready.contains(u) || u == t by {
                one_of_two(ready, seq![t], u);
                if seq![t].contains(u) {
                    let k = choose|k: int| 0 <= k < 1 && seq![t][k] == u;
                }
                if u == t {
                    assert(seq![t][0] == u);
                }
            }
            assert forall|u: TransitionModel| #[trigger] running(s.fibers, u) implies out_already(
                start,
                u,
            ) || rest.contains(u) || next.contains(u) || s.blocked.contains(u) by {
                first_or_later(queue, u);
            }
            draining_accounts(start, s, rest, next);
        } else {
            let waiting = SupervisorModel { blocked: blocked_with(s.blocked, t), ..s };
            blocking_keeps(s, queue);
            withdrawn_keeps(waiting, t.fiber, rest);
            withdrawn_idle(waiting, t.fiber);
            let after = withdrawn(waiting, t.fiber);
            let started_now = withdrawn_work(waiting, t.fiber);
            let more = rest + started_now;
            let fresh = refreshed(s.fibers, without_owner(s.providers, t.fiber));
            reconciling_queues(s.fibers, fresh);
            assert forall|u: TransitionModel| #[trigger]
                running(after.fibers, u) implies out_already(start, u) || more.contains(u)
                || ready.contains(u) || after.blocked.contains(u) by {
                one_of_two(rest, started_now, u);
                first_or_later(queue, u);
                waits_too(s.blocked, t, u);
            }
            assert forall|u: TransitionModel| #[trigger] ready.contains(u) implies running(
                after.fibers,
                u,
            ) by {
                reconciling_lets_run(s.fibers, fresh, u);
            }
            draining_accounts(start, after, more, ready);
        }
    }
}

pub proof fn waiting_splits(
    fibers: Seq<RecordModel>,
    blocked: Seq<TransitionModel>,
    n: nat,
    t: TransitionModel,
)
    requires
        n <= blocked.len(),
    ensures
        blocked.take(n as int).contains(t) <==> retained(fibers, blocked, n).contains(t)
            || released(fibers, blocked, n).contains(t),
    decreases n,
{
    if n > 0 {
        let m = (n - 1) as nat;
        waiting_splits(fibers, blocked, m, t);
        let last = blocked[n - 1];
        assert(blocked.take(n as int) =~= blocked.take(n - 1) + seq![last]);
        one_of_two(blocked.take(n - 1), seq![last], t);
        one_of_two(retained(fibers, blocked, m), seq![last], t);
        one_of_two(released(fibers, blocked, m), seq![last], t);
        assert(retained(fibers, blocked, m).push(last) =~= retained(fibers, blocked, m) + seq![
            last,
        ]);
        assert(released(fibers, blocked, m).push(last) =~= released(fibers, blocked, m) + seq![
            last,
        ]);
    }
}

/// Replacing one fiber's machine queues what that starts.
proof fn one_machine_queues(s: SupervisorModel, next: SupervisorModel, i: int, queue: Seq<TransitionModel>)
    requires
        0 <= i < s.fibers.len(),
        next.fibers.len() == s.fibers.len(),
        forall|k: int|
            0 <= k < s.fibers.len() && k != i ==> (#[trigger] next.fibers[k]).id == s.fibers[k].id
                && next.fibers[k].machine == s.fibers[k].machine,
        next.fibers[i].id == s.fibers[i].id,
        next.fibers[i].machine.active is Some ==> next.fibers[i].machine.active
            == s.fibers[i].machine.active || queue.contains(next.fibers[i].machine.active->Some_0),
    ensures
        queued(s.fibers, next.fibers, queue),
{
    assert forall|t: TransitionModel| #[trigger] running(next.fibers, t) implies running(
        s.fibers,
        t,
    ) || queue.contains(t) by {
        let k = choose|k: int| #[trigger]
            fiber_at(next.fibers, t.fiber, k) && next.fibers[k].machine.active == Some(t);
        if k != i {
            assert(next.fibers[k].id == s.fibers[k].id);
        }
        if s.fibers[k].machine.active == Some(t) {
            assert(fiber_at(s.fibers, t.fiber, k));
        }
    }
}

proof fn queued_twice(
    a: Seq<RecordModel>,
    b: Seq<RecordModel>,
    c: Seq<RecordModel>,
    first: Seq<TransitionModel>,
    second: Seq<TransitionModel>,
)
    requires
        queued(a, b, first),
        queued(b, c, second),
    ensures
        queued(a, c, first + second),
        queued(a, c, second + first),
{
    assert forall|t: TransitionModel| #[trigger] running(c, t) implies running(a, t) || (first
        + second).contains(t) by {
        one_of_two(first, second, t);
        assert(running(b, t) || second.contains(t));
    }
    assert forall|t: TransitionModel| #[trigger] running(c, t) implies running(a, t) || (second
        + first).contains(t) by {
        one_of_two(second, first, t);
        assert(running(b, t) || second.contains(t));
    }
}

proof fn queue_holds(t: TransitionModel)
    ensures
        as_queue(Some(t)).contains(t),
        seq![t].contains(t),
{
    assert(seq![t][0] == t);
}

/// A command queues whatever it starts.
pub proof fn commands_queue(s: SupervisorModel, command: CommandModel)
    requires
        valid(s),
        affordable(s, command),
        refusal(s, command) is None,
        unscheduled(s, command) is Some,
    ensures
        ({
            let (next, queue) = unscheduled(s, command)->Some_0;
            queued(s.fibers, next.fibers, queue) && next.blocked == s.blocked
        }),
{
    let (next, queue) = unscheduled(s, command)->Some_0;
    let none = Seq::<TransitionModel>::empty();
    match command {
        CommandModel::ConfigureDependencies { fiber, context, injects } => {
            let i = index_of(s.fibers, fiber);
            assert(fiber_at(s.fibers, fiber, i));
            let told = declared(s, fiber, context, injects);
            reconciling_queues(s.fibers, told.fibers);
            let moved = SupervisorModel { fibers: reconciled(told.fibers), ..told };
            let first = emitted(told.fibers, told.fibers.len());
            if s.fibers[i].machine.state is Failed {
                let m = moved.fibers[i].machine;
                let second = as_queue(restart_transition(m));
                if restart_transition(m) is Some {
                    queue_holds(restart_transition(m)->Some_0);
                }
                one_machine_queues(moved, next, i, second);
                queued_twice(s.fibers, moved.fibers, next.fibers, first, second);
            } else {
                assert(first + none =~= first);
            }
        },
        CommandModel::Provide { key, provider } => {
            let fresh = reassigned(s, s.providers.insert(key, provider));
            reconciling_queues(s.fibers, fresh.fibers);
        },
        CommandModel::Withdraw { key, .. } => {
            let fresh = reassigned(s, s.providers.remove(key));
            reconciling_queues(s.fibers, fresh.fibers);
        },
        CommandModel::CompleteTransition { fiber, generation, result } => {
            let i = index_of(s.fibers, fiber);
            assert(fiber_at(s.fibers, fiber, i));
            let m = s.fibers[i].machine;
            let done = advanced(s, fiber, generation, result);
            let first = as_queue(advance_transition(completed(m, generation, result).1));
            if advance_transition(completed(m, generation, result).1) is Some {
                queue_holds(advance_transition(completed(m, generation, result).1)->Some_0);
            }
            one_machine_queues(s, done, i, first);
            if load_failed(m, generation, result) {
                let fresh = refreshed(done.fibers, without_owner(done.providers, fiber));
                reconciling_queues(done.fibers, fresh);
                queued_twice(
                    s.fibers,
                    done.fibers,
                    next.fibers,
                    first,
                    withdrawn_work(done, fiber),
                );
            } else {
                assert(first + none =~= first);
            }
        },
        CommandModel::RetireFiber { fiber } => {
            let i = index_of(s.fibers, fiber);
            assert(fiber_at(s.fibers, fiber, i));
            let m = s.fibers[i].machine;
            let told = marked(s, fiber);
            let first = as_queue(desired_transition(m, DesiredModel::Retired));
            if desired_transition(m, DesiredModel::Retired) is Some {
                queue_holds(desired_transition(m, DesiredModel::Retired)->Some_0);
            }
            one_machine_queues(s, told, i, first);
            let fresh = refreshed(told.fibers, without_owner(told.providers, fiber));
            reconciling_queues(told.fibers, fresh);
            queued_twice(s.fibers, told.fibers, next.fibers, first, withdrawn_work(told, fiber));
        },
        CommandModel::RestartFiber { fiber } => {
            let i = index_of(s.fibers, fiber);
            assert(fiber_at(s.fibers, fiber, i));
            let m = s.fibers[i].machine;
            if restart_transition(m) is Some {
                queue_holds(restart_transition(m)->Some_0);
            }
            one_machine_queues(s, next, i, queue);
        },
        CommandModel::ReloadFiber { fiber } => {
            let i = index_of(s.fibers, fiber);
            assert(fiber_at(s.fibers, fiber, i));
            let m = s.fibers[i].machine;
            if reloadable(m) {
                queue_holds(next_transition(m, KindModel::Unload));
                one_machine_queues(s, next, i, queue);
            }
        },
        _ => {},
    }
}

/// No work is lost and none is made up: what a fiber runs after a command it ran before without
/// waiting, or the command hands it out, or it waits; and what the command hands out is what its
/// fiber runs.
pub proof fn no_work_is_lost(s: SupervisorModel, command: CommandModel, t: TransitionModel)
    requires
        valid(s),
        affordable(s, command),
    ensures
        (exists|i: int|
            0 <= i < obeyed(s, command).fibers.len() && (#[trigger] obeyed(
                s,
                command,
            ).fibers[i]).machine.active == Some(t)) ==> {
            ||| work(s, command).contains(t)
            ||| obeyed(s, command).blocked.contains(t)
            ||| !s.blocked.contains(t) && exists|i: int|
                0 <= i < s.fibers.len() && (#[trigger] s.fibers[i]).machine.active == Some(t)
        },
        work(s, command).contains(t) ==> exists|i: int|
            0 <= i < obeyed(s, command).fibers.len() && (#[trigger] obeyed(
                s,
                command,
            ).fibers[i]).id == t.fiber && obeyed(s, command).fibers[i].machine.active == Some(t),
{
    let end = obeyed(s, command);
    commands_keep_the_graph_valid(s, command);
    if refusal(s, command) is None {
        match unscheduled(s, command) {
            Some((next, queue)) => {
                unscheduled_keeps(s, command);
                commands_queue(s, command);
                let none = Seq::<TransitionModel>::empty();
                assert(accounted(s, next, queue, none)) by {
                    assert forall|u: TransitionModel| #[trigger]
                        running(next.fibers, u) implies out_already(s, u) || queue.contains(u)
                        || none.contains(u) || next.blocked.contains(u) by {
                        assert(running(s.fibers, u) || queue.contains(u));
                    }
                }
                draining_accounts(s, next, queue, none);
                drained_keeps(next, queue, none);
                let (after, ready) = drained(next, queue, none);
                let n = after.blocked.len();
                waiting_splits(after.fibers, after.blocked, n, t);
                assert(after.blocked.take(n as int) =~= after.blocked);
                one_of_two(ready, released(after.fibers, after.blocked, n), t);
                if exists|i: int|
                    0 <= i < end.fibers.len() && (#[trigger] end.fibers[i]).machine.active == Some(
                        t,
                    ) {
                    let i = choose|i: int|
                        0 <= i < end.fibers.len() && (#[trigger] end.fibers[i]).machine.active
                            == Some(t);
                    assert(record_valid(end.fibers[i], end.next_fiber));
                    assert(fiber_at(after.fibers, t.fiber, i));
                    assert(running(after.fibers, t));
                    if out_already(s, t) {
                        let k = choose|k: int| #[trigger]
                            fiber_at(s.fibers, t.fiber, k) && s.fibers[k].machine.active == Some(
                                t,
                            );
                        assert(s.fibers[k].machine.active == Some(t));
                    }
                }
                if work(s, command).contains(t) {
                    if after.blocked.contains(t) {
                        let b = choose|b: int| 0 <= b < n && after.blocked[b] == t;
                        assert(running(after.fibers, after.blocked[b]));
                    }
                    assert(running(after.fibers, t));
                    let i = choose|i: int| #[trigger]
                        fiber_at(after.fibers, t.fiber, i) && after.fibers[i].machine.active
                            == Some(t);
                    assert(end.fibers[i].id == t.fiber);
                }
            },
            None => {
                if exists|i: int|
                    0 <= i < end.fibers.len() && (#[trigger] end.fibers[i]).machine.active == Some(
                        t,
                    ) {
                    let i = choose|i: int|
                        0 <= i < end.fibers.len() && (#[trigger] end.fibers[i]).machine.active
                            == Some(t);
                    if let CommandModel::CommitDependencies { fiber } = command {
                        let k = index_of(s.fibers, fiber);
                        assert(fiber_at(s.fibers, fiber, k));
                    }
                    assert(s.fibers[i].machine.active == Some(t));
                }
            },
        }
    }
}

// ---------------------------------------------------------------------------------------------
// Providers
// ---------------------------------------------------------------------------------------------

/// The slot that a declared dependency of a fiber asks for.
pub open spec fn asked(r: RecordModel, e: int) -> ProviderKeyModel {
    ProviderKeyModel {
        service: r.injects[e].service,
        realm: realm_of(r.context->Some_0.realms, r.injects[e].service)->Some_0,
    }
}

/// A fiber selects the owner of each slot it asks for, and nobody where the slot is free.
pub proof fn selections_name_the_owners(s: SupervisorModel, i: int)
    requires
        valid(s),
        0 <= i < s.fibers.len(),
        s.fibers[i].context is Some,
    ensures
        s.fibers[i].desired.len() == s.fibers[i].injects.len(),
        forall|e: int|
            0 <= e < s.fibers[i].injects.len() ==> {
                let chosen = #[trigger] s.fibers[i].desired[e];
                &&& chosen.key == asked(s.fibers[i], e)
                &&& chosen.requirement == s.fibers[i].injects[e].requirement
                &&& chosen.provider is Some <==> s.providers.dom().contains(asked(s.fibers[i], e))
                &&& chosen.provider matches Some(owner) ==> owner == s.providers[asked(
                    s.fibers[i],
                    e,
                )]
            },
        forall|j: int|
            0 <= j < s.fibers.len() ==> (#[trigger] dependency(s.fibers)(i, j) <==> exists|e: int|
                0 <= e < s.fibers[i].injects.len() && s.providers.dom().contains(
                    #[trigger] asked(s.fibers[i], e),
                ) && s.providers[asked(s.fibers[i], e)] == s.fibers[j].id),
{
    let r = s.fibers[i];
    assert(record_current(r, s.providers));
    assert forall|j: int| 0 <= j < s.fibers.len() implies (#[trigger] dependency(s.fibers)(i, j)
        <==> exists|e: int|
        0 <= e < r.injects.len() && s.providers.dom().contains(#[trigger] asked(r, e))
            && s.providers[asked(r, e)] == s.fibers[j].id) by {
        if selects(s.fibers, i, j) {
            let e = choose|e: int|
                0 <= e < r.desired.len() && #[trigger] r.desired[e].provider == Some(
                    s.fibers[j].id,
                );
            assert(s.providers.dom().contains(asked(r, e)));
        }
        if exists|e: int|
            0 <= e < r.injects.len() && s.providers.dom().contains(#[trigger] asked(r, e))
                && s.providers[asked(r, e)] == s.fibers[j].id {
            let e = choose|e: int|
                0 <= e < r.injects.len() && s.providers.dom().contains(#[trigger] asked(r, e))
                    && s.providers[asked(r, e)] == s.fibers[j].id;
            assert(r.desired[e].provider == Some(s.fibers[j].id));
        }
    }
}

/// A fiber that is active is configured, not retired and on no dependency cycle. It is loaded
/// against the present owner of every slot it asks for, and no slot it requires is free.
pub proof fn active_fibers_have_their_providers(s: SupervisorModel, i: int)
    requires
        valid(s),
        followed(s.fibers),
        0 <= i < s.fibers.len(),
        s.fibers[i].machine.state is Active,
    ensures
        !s.fibers[i].retired,
        s.fibers[i].context is Some,
        !reaches(dependency(s.fibers), i, i),
        s.fibers[i].machine.loaded_epoch is Some,
        s.fibers[i].machine.loaded_epoch->Some_0.len() == s.fibers[i].injects.len(),
        forall|e: int|
            0 <= e < s.fibers[i].injects.len() ==> {
                let used = #[trigger] s.fibers[i].machine.loaded_epoch->Some_0[e];
                let key = asked(s.fibers[i], e);
                &&& used.key == key
                &&& s.fibers[i].injects[e].requirement is Required ==> s.providers.dom().contains(
                    key,
                )
                &&& used.provider is Some <==> s.providers.dom().contains(key)
                &&& used.provider matches Some(owner) ==> owner == s.providers[key]
            },
{
    let r = s.fibers[i];
    assert(record_valid(r, s.next_fiber));
    assert(record_current(r, s.providers));
    assert(reconciled(s.fibers)[i] == r);
    let goal = target(r, cycle_of(s.fibers, i));
    assert(r.machine.desired == goal);
    selections_name_the_owners(s, i);
    assert forall|e: int| 0 <= e < r.injects.len() implies {
        let used = #[trigger] r.machine.loaded_epoch->Some_0[e];
        let key = asked(r, e);
        &&& used.key == key
        &&& r.injects[e].requirement is Required ==> s.providers.dom().contains(key)
        &&& used.provider is Some <==> s.providers.dom().contains(key)
        &&& used.provider matches Some(owner) ==> owner == s.providers[key]
    } by {
        assert(!missing(r.desired[e]));
        assert(r.desired[e].key == asked(r, e));
    }
}

/// A fiber waits only for a reason: it is not configured, it is on a dependency cycle, or a slot
/// it requires is free. A retired fiber that does nothing any more is disposed of.
pub proof fn fibers_wait_for_a_reason(s: SupervisorModel, i: int)
    requires
        valid(s),
        followed(s.fibers),
        0 <= i < s.fibers.len(),
    ensures
        s.fibers[i].machine.state is Pending ==> {
            ||| s.fibers[i].context is None
            ||| reaches(dependency(s.fibers), i, i)
            ||| exists|e: int|
                0 <= e < s.fibers[i].injects.len() && s.fibers[i].injects[e].requirement is Required
                    && !s.providers.dom().contains(#[trigger] asked(s.fibers[i], e))
        },
        s.fibers[i].retired && s.fibers[i].machine.active is None
            ==> s.fibers[i].machine.state is Disposed,
{
    let r = s.fibers[i];
    assert(record_valid(r, s.next_fiber));
    assert(record_current(r, s.providers));
    assert(reconciled(s.fibers)[i] == r);
    let goal = target(r, cycle_of(s.fibers, i));
    assert(r.machine.desired == goal);
    assert(with_desired(r.machine, goal) == r.machine);
    if r.machine.state is Pending && r.context is Some && !reaches(dependency(s.fibers), i, i) {
        selections_name_the_owners(s, i);
        assert(goal is Waiting);
        let e = choose|e: int| 0 <= e < r.desired.len() && missing(#[trigger] r.desired[e]);
        assert(missing(r.desired[e]));
        assert(!s.providers.dom().contains(asked(r, e)));
    }
}

/// A commit is what a fiber is loaded against: the present owner of every slot it asks for. It is
/// refused, and names the first slot, where one that is required is free. Nothing else changes.
pub proof fn commits_name_the_owners(s: SupervisorModel, fiber: FiberId, i: int)
    requires
        valid(s),
        0 <= i < s.fibers.len(),
        s.fibers[i].id == fiber,
        s.fibers[i].context is Some,
    ensures
        ({
            let command = CommandModel::CommitDependencies { fiber };
            let r = s.fibers[i];
            let end = obeyed(s, command);
            match refusal(s, command) {
                Some(error) => exists|e: int|
                    {
                        &&& 0 <= e < r.injects.len()
                        &&& error == ErrorModel::InactiveDependency { key: #[trigger] asked(r, e) }
                        &&& r.injects[e].requirement is Required
                        &&& !s.providers.dom().contains(asked(r, e))
                        &&& forall|d: int|
                            0 <= d < e && r.injects[d].requirement is Required
                                ==> s.providers.dom().contains(#[trigger] asked(r, d))
                    },
                None => {
                    &&& end.fibers.len() == s.fibers.len()
                    &&& end.providers == s.providers
                    &&& end.blocked == s.blocked
                    &&& forall|k: int|
                        0 <= k < s.fibers.len() && k != i ==> #[trigger] end.fibers[k]
                            == s.fibers[k]
                    &&& end.fibers[i].machine == r.machine
                    &&& end.fibers[i].committed matches Some(list) && list.len() == r.injects.len()
                        && forall|e: int|
                        0 <= e < list.len() ==> {
                            &&& (#[trigger] list[e]).key == asked(r, e)
                            &&& r.injects[e].requirement is Required ==> list[e].provider is Some
                            &&& list[e].provider is Some <==> s.providers.dom().contains(
                                asked(r, e),
                            )
                            &&& list[e].provider matches Some(owner) ==> owner == s.providers[asked(
                                r,
                                e,
                            )]
                        }
                },
            }
        }),
{
    let command = CommandModel::CommitDependencies { fiber };
    let r = s.fibers[i];
    assert(fiber_at(s.fibers, fiber, i));
    index_of_is(s.fibers, fiber, i);
    selections_name_the_owners(s, i);
    let p = |k: int| missing(r.desired[k]);
    first_index_is_first(r.desired.len(), p);
    match crate::search::first_index(r.desired.len(), p) {
        Some(e) => {
            assert(p(e));
            assert(r.desired[e].key == asked(r, e));
            assert forall|d: int| 0 <= d < e && r.injects[d].requirement is Required implies
                s.providers.dom().contains(#[trigger] asked(r, d)) by {
                assert(!p(d));
                assert(r.desired[d].key == asked(r, d));
            }
        },
        None => {
            assert forall|e: int| 0 <= e < r.desired.len() implies !missing(
                #[trigger] r.desired[e],
            ) by {
                assert(!p(e));
            }
        },
    }
}

pub proof fn draining_only_withdraws(
    s: SupervisorModel,
    queue: Seq<TransitionModel>,
    ready: Seq<TransitionModel>,
    key: ProviderKeyModel,
)
    requires
        valid(s),
        room(s.fibers),
        queue_valid(s, queue),
    ensures
        drained(s, queue, ready).0.providers.dom().contains(key) ==> s.providers.dom().contains(key)
            && drained(s, queue, ready).0.providers[key] == s.providers[key],
    decreases queue.len() + 2 * idle(s.fibers),
{
    if queue.len() > 0 {
        let t = queue[0];
        let rest = queue.drop_first();
        if t.kind is Load {
            queue_rest(s, queue);
            draining_only_withdraws(s, rest, ready.push(t), key);
        } else {
            let waiting = SupervisorModel { blocked: blocked_with(s.blocked, t), ..s };
            blocking_keeps(s, queue);
            withdrawn_keeps(waiting, t.fiber, rest);
            withdrawn_idle(waiting, t.fiber);
            draining_only_withdraws(
                withdrawn(waiting, t.fiber),
                rest + withdrawn_work(waiting, t.fiber),
                ready,
                key,
            );
        }
    }
}

/// A fiber that is told to retire provides nothing any more, and no slot changes hands.
pub proof fn retired_fibers_provide_nothing(
    s: SupervisorModel,
    fiber: FiberId,
    key: ProviderKeyModel,
)
    requires
        valid(s),
        generations_left(s.fibers),
        known(s.fibers, fiber),
    ensures
        obeyed(s, CommandModel::RetireFiber { fiber }).providers.dom().contains(key) ==> {
            &&& s.providers.dom().contains(key)
            &&& obeyed(s, CommandModel::RetireFiber { fiber }).providers[key] == s.providers[key]
            &&& s.providers[key] != fiber
        },
{
    let command = CommandModel::RetireFiber { fiber };
    unscheduled_keeps(s, command);
    let (next, queue) = unscheduled(s, command)->Some_0;
    draining_only_withdraws(next, queue, Seq::empty(), key);
}

} // verus!
