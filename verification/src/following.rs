//! Whatever commands a supervisor takes, every fiber follows its target.
use crate::command::{
    affordable, affordable_all, histories_keep_the_graph_valid, obeyed, obeyed_all, refusal,
    unscheduled, unscheduled_keeps, work, CommandModel,
};
use crate::fiber::{
    completion_keeps_valid, desired_keeps_valid, desired_transition, due, reloadable, restarted,
    started, with_desired, DesiredModel, KindModel, MachineModel, TransitionModel,
};
use crate::graph::{leads, members, mutual, reaches};
use crate::id::FiberId;
use crate::search::first_index_is_first;
use crate::service::ProviderKeyModel;
use crate::supervisor_model::{
    advanced, blocked_with, blocking_keeps, created, cycle_of, declared, dependency, drained,
    fiber_at, idle, idle_is_free, ids_at, index_of, known, load_failed, marked, owners_known,
    queue_rest, queue_valid, realm_missing, reassigned, reassigned_keeps, reconcile_record,
    reconciled, reconciling_is_idempotent, record_current, record_valid, replaced_keeps, room,
    settling_keeps, target, valid, withdrawn, withdrawn_idle, withdrawn_keeps, withdrawn_work,
    without_owner, RecordModel, SupervisorModel,
};
use vstd::prelude::*;

verus! {

/// Every fiber follows its target already.
pub open spec fn followed(fibers: Seq<RecordModel>) -> bool {
    reconciled(fibers) == fibers
}

/// Every fiber of a sound graph follows its target already, and each that is idle can start one
/// more transition.
pub open spec fn quiet(s: SupervisorModel) -> bool {
    &&& valid(s)
    &&& room(s.fibers)
    &&& followed(s.fibers)
}

/// Cycles depend on selections alone.
pub proof fn cycles_agree(a: Seq<RecordModel>, b: Seq<RecordModel>, i: int)
    requires
        a.len() == b.len(),
        forall|j: int|
            0 <= j < a.len() ==> (#[trigger] a[j]).id == b[j].id && a[j].context == b[j].context
                && a[j].desired == b[j].desired,
    ensures
        cycle_of(a, i) == cycle_of(b, i),
{
    assert(dependency(a) =~= dependency(b)) by {
        assert forall|x: int, y: int| #[trigger] dependency(a)(x, y) == dependency(b)(x, y) by {
            if 0 <= x < a.len() && 0 <= y < a.len() {
                assert(a[x].desired == b[x].desired && a[y].id == b[y].id);
            }
        }
    }
    let nodes = members(dependency(a), i, a.len());
    member_bounds(dependency(a), i, a.len());
    assert(ids_at(a, nodes) =~= ids_at(
        b,
        nodes,
    )) by {
        assert forall|k: int| 0 <= k < nodes.len() implies a[nodes[k]].id == b[nodes[k]].id by {
            assert(0 <= nodes[k] < a.len());
        }
    }
}

pub proof fn member_bounds(edge: spec_fn(int, int) -> bool, i: int, n: nat)
    ensures
        forall|k: int|
            0 <= k < members(edge, i, n).len() ==> 0 <= #[trigger] members(edge, i, n)[k] < n,
    decreases n,
{
    if n > 0 {
        member_bounds(edge, i, (n - 1) as nat);
        let below = members(edge, i, (n - 1) as nat);
        let all = members(edge, i, n);
        assert forall|k: int| 0 <= k < all.len() implies 0 <= #[trigger] all[k] < n by {
            if k < below.len() {
                assert(all[k] == below[k]);
            }
        }
    }
}

/// Once the targets have been followed the graph is quiet.
pub proof fn reconciling_quiets(s: SupervisorModel)
    requires
        valid(s),
        room(s.fibers),
    ensures
        reconciled(reconciled(s.fibers)) == reconciled(s.fibers),
{
    let once = reconciled(s.fibers);
    assert forall|i: int| 0 <= i < once.len() implies #[trigger] reconciled(once)[i] == once[i] by {
        assert(record_valid(s.fibers[i], s.next_fiber));
        reconciling_is_idempotent(s.fibers, i);
        cycles_agree(s.fibers, once, i);
    }
    assert(reconciled(once) =~= once);
}

/// A fiber that follows its target has nothing to start.
pub proof fn settled_starts_nothing(fibers: Seq<RecordModel>, i: int)
    requires
        0 <= i < fibers.len(),
        room(fibers),
        reconcile_record(fibers[i], cycle_of(fibers, i)) == fibers[i],
    ensures
        desired_transition(fibers[i].machine, target(fibers[i], cycle_of(fibers, i))) is None,
        fibers[i].machine.desired == target(fibers[i], cycle_of(fibers, i)),
{
    let m = fibers[i].machine;
    let goal = target(fibers[i], cycle_of(fibers, i));
    assert(with_desired(m, goal) == m);
    if desired_transition(m, goal) is Some {
        assert(with_desired(m, goal).next_generation == (m.next_generation + 1) as u64);
    }
}

pub proof fn withdrawing_quiets(s: SupervisorModel, x: FiberId, queue: Seq<TransitionModel>)
    requires
        valid(s),
        room(s.fibers),
        queue_valid(s, queue),
    ensures
        quiet(withdrawn(s, x)),
        queue_valid(withdrawn(s, x), queue + withdrawn_work(s, x)),
{
    let providers = without_owner(s.providers, x);
    assert(owners_known(s.fibers, providers)) by {
        assert forall|key: ProviderKeyModel| #[trigger]
            providers.dom().contains(key) implies known(s.fibers, providers[key]) by {
            assert(s.providers.dom().contains(key));
        }
    }
    reassigned_keeps(s, providers);
    reconciling_quiets(reassigned(s, providers));
    withdrawn_keeps(s, x, queue);
}

/// The state in which one more unload waits.
pub open spec fn waiting_too(s: SupervisorModel, t: TransitionModel) -> SupervisorModel {
    SupervisorModel { blocked: blocked_with(s.blocked, t), ..s }
}

/// A machine has nothing to do for its target.
pub open spec fn at_rest(m: MachineModel) -> bool {
    &&& due(m) is None
    &&& !(m.active is None && m.desired is Retired && (m.state is Pending || m.state is Failed))
}

/// A fiber whose machine changes but rests, with the target it had, follows its target as before.
proof fn one_changed(fibers: Seq<RecordModel>, i: int, r: RecordModel)
    requires
        followed(fibers),
        0 <= i < fibers.len(),
        r == (RecordModel { machine: r.machine, committed: r.committed, ..fibers[i] }),
        r.machine.desired == fibers[i].machine.desired,
        at_rest(r.machine),
    ensures
        followed(fibers.update(i, r)),
{
    let after = fibers.update(i, r);
    assert forall|j: int| 0 <= j < after.len() implies #[trigger] reconciled(after)[j]
        == after[j] by {
        cycles_agree(fibers, after, j);
        assert(reconciled(fibers)[j] == fibers[j]);
        if j == i {
            let goal = target(fibers[i], cycle_of(fibers, i));
            assert(with_desired(fibers[i].machine, goal).desired == goal);
        }
    }
    assert(reconciled(after) =~= after);
}

/// Working a queue off leaves targets followed.
proof fn draining_follows(
    s: SupervisorModel,
    queue: Seq<TransitionModel>,
    ready: Seq<TransitionModel>,
)
    requires
        valid(s),
        room(s.fibers),
        queue_valid(s, queue),
        followed(s.fibers),
    ensures
        followed(drained(s, queue, ready).0.fibers),
    decreases queue.len() + 2 * idle(s.fibers),
{
    if queue.len() > 0 {
        let t = queue[0];
        let rest = queue.drop_first();
        if t.kind is Load {
            queue_rest(s, queue);
            draining_follows(s, rest, ready.push(t));
        } else {
            let waiting = waiting_too(s, t);
            blocking_keeps(s, queue);
            withdrawing_quiets(waiting, t.fiber, rest);
            withdrawn_idle(waiting, t.fiber);
            draining_follows(
                withdrawn(waiting, t.fiber),
                rest + withdrawn_work(waiting, t.fiber),
                ready,
            );
        }
    }
}

/// Whatever the command, if every fiber followed its target before it, every fiber does after it.
pub proof fn targets_stay_followed(s: SupervisorModel, command: CommandModel)
    requires
        valid(s),
        affordable(s, command),
        followed(s.fibers),
    ensures
        followed(obeyed(s, command).fibers),
{
    if refusal(s, command) is None {
        match unscheduled(s, command) {
            Some((next, queue)) => {
                unscheduled_keeps(s, command);
                unscheduled_follows(s, command);
                draining_follows(next, queue, Seq::empty());
            },
            None => match command {
                CommandModel::CreateFiber { parent, .. } => {
                    creation_follows(s, parent);
                },
                CommandModel::CommitDependencies { fiber } => {
                    let i = index_of(s.fibers, fiber);
                    assert(fiber_at(s.fibers, fiber, i));
                    assert(reconciled(s.fibers)[i] == s.fibers[i]);
                    rests(s, i);
                    one_changed(
                        s.fibers,
                        i,
                        RecordModel { committed: Some(s.fibers[i].desired), ..s.fibers[i] },
                    );
                },
                _ => {},
            },
        }
    }
}

/// A fiber that follows its target rests.
proof fn rests(s: SupervisorModel, i: int)
    requires
        valid(s),
        followed(s.fibers),
        0 <= i < s.fibers.len(),
    ensures
        at_rest(s.fibers[i].machine),
{
    let m = s.fibers[i].machine;
    let goal = target(s.fibers[i], cycle_of(s.fibers, i));
    assert(reconciled(s.fibers)[i] == s.fibers[i]);
    assert(with_desired(m, goal) == m);
    if due(MachineModel { desired: goal, ..m }) is Some {
        assert(with_desired(m, goal).active is Some);
    }
}

/// A new fiber waits, and changes nothing for the others.
proof fn creation_follows(s: SupervisorModel, parent: Option<FiberId>)
    requires
        valid(s),
        followed(s.fibers),
        s.next_fiber < u64::MAX,
    ensures
        followed(created(s, parent).fibers),
{
    let after = created(s, parent).fibers;
    let n = s.fibers.len() as int;
    let large = dependency(after);
    let small = dependency(s.fibers);
    // Nobody selects the new fiber, and it selects nobody.
    assert forall|a: int, b: int| #[trigger] large(a, b) == small(a, b) by {
        if large(a, b) {
            assert(a < n);
            assert(after[a] == s.fibers[a]);
            let e = choose|e: int|
                0 <= e < after[a].desired.len() && #[trigger] after[a].desired[e].provider == Some(
                    after[b].id,
                );
            if b == n {
                assert(record_current(s.fibers[a], s.providers));
                let key = s.fibers[a].desired[e].key;
                assert(s.providers.dom().contains(key) && s.providers[key] == after[b].id);
                assert(known(s.fibers, s.providers[key]));
                let k = index_of(s.fibers, after[b].id);
                assert(fiber_at(s.fibers, after[b].id, k));
                assert(record_valid(s.fibers[k], s.next_fiber));
            } else {
                assert(after[b] == s.fibers[b]);
            }
        }
        if small(a, b) {
            assert(after[a] == s.fibers[a] && after[b] == s.fibers[b]);
        }
    }
    assert(large =~= small);
    assert forall|j: int| 0 <= j < after.len() implies #[trigger] reconciled(after)[j]
        == after[j] by {
        if j < n {
            members_grow(small, j, s.fibers.len());
            member_bounds(small, j, s.fibers.len());
            let nodes = members(small, j, s.fibers.len());
            if reaches(small, j, n) {
                reached_is_inside(s.fibers, j, n);
            }
            assert(members(large, j, after.len()) == nodes);
            assert(ids_at(after, nodes) =~= ids_at(s.fibers, nodes)) by {
                assert forall|k: int| 0 <= k < nodes.len() implies after[nodes[k]].id
                    == s.fibers[nodes[k]].id by {
                    assert(0 <= nodes[k] < n);
                }
            }
            assert(cycle_of(after, j) == cycle_of(s.fibers, j));
            assert(reconciled(s.fibers)[j] == s.fibers[j]);
            assert(after[j] == s.fibers[j]);
        }
    }
    assert(reconciled(after) =~= after);
}

proof fn members_grow(edge: spec_fn(int, int) -> bool, j: int, n: nat)
    ensures
        !mutual(edge, j, n as int) ==> members(edge, j, n + 1) == members(edge, j, n),
{
}

/// What is reached is a fiber of the graph.
proof fn reached_is_inside(fibers: Seq<RecordModel>, a: int, b: int)
    requires
        reaches(dependency(fibers), a, b),
    ensures
        0 <= b < fibers.len(),
{
    let edge = dependency(fibers);
    let nodes = choose|nodes: Seq<int>| #[trigger] leads(edge, nodes, a, b);
    let k = nodes.len() - 2;
    assert(edge(nodes[k], nodes[k + 1]));
}

/// Before its work is scheduled a command leaves targets followed.
proof fn unscheduled_follows(s: SupervisorModel, command: CommandModel)
    requires
        valid(s),
        affordable(s, command),
        followed(s.fibers),
        refusal(s, command) is None,
        unscheduled(s, command) is Some,
    ensures
        followed(unscheduled(s, command)->Some_0.0.fibers),
{
    let none = Seq::<TransitionModel>::empty();
    assert(queue_valid(s, none));
    match command {
        CommandModel::ConfigureDependencies { fiber, context, injects } => {
            let i = index_of(s.fibers, fiber);
            assert(fiber_at(s.fibers, fiber, i));
            assert(record_valid(s.fibers[i], s.next_fiber));
            first_index_is_first(injects.len(), realm_missing(context.realms, injects));
            let next = declared(s, fiber, context, injects);
            replaced_keeps(s, none, i, next.fibers[i]);
            reconciling_quiets(next);
            settling_keeps(next);
            let moved = SupervisorModel { fibers: reconciled(next.fibers), ..next };
            if s.fibers[i].machine.state is Failed {
                let m = moved.fibers[i].machine;
                rests(moved, i);
                one_changed(
                    moved.fibers,
                    i,
                    RecordModel { machine: restarted(m), ..moved.fibers[i] },
                );
            }
        },
        CommandModel::Provide { key, provider } => {
            let providers = s.providers.insert(key, provider);
            assert(owners_known(s.fibers, providers));
            reassigned_keeps(s, providers);
            reconciling_quiets(reassigned(s, providers));
        },
        CommandModel::Withdraw { key, .. } => {
            let providers = s.providers.remove(key);
            assert(owners_known(s.fibers, providers));
            reassigned_keeps(s, providers);
            reconciling_quiets(reassigned(s, providers));
        },
        CommandModel::CompleteTransition { fiber, generation, result } => {
            let i = index_of(s.fibers, fiber);
            assert(fiber_at(s.fibers, fiber, i));
            let r = s.fibers[i];
            assert(record_valid(r, s.next_fiber));
            assert(record_current(r, s.providers));
            rests(s, i);
            let next = advanced(s, fiber, generation, result);
            if load_failed(r.machine, generation, result) {
                completion_keeps_valid(r.machine, generation, result);
                replaced_keeps(s, none, i, next.fibers[i]);
                withdrawing_quiets(next, fiber, none);
            } else {
                one_changed(s.fibers, i, next.fibers[i]);
            }
        },
        CommandModel::RetireFiber { fiber } => {
            let i = index_of(s.fibers, fiber);
            assert(fiber_at(s.fibers, fiber, i));
            let r = s.fibers[i];
            assert(record_valid(r, s.next_fiber));
            assert(record_current(r, s.providers));
            desired_keeps_valid(r.machine, DesiredModel::Retired);
            if r.machine.active is None {
                idle_is_free(s, none, i);
            }
            let next = marked(s, fiber);
            replaced_keeps(s, none, i, next.fibers[i]);
            withdrawing_quiets(next, fiber, none);
        },
        CommandModel::RestartFiber { fiber } => {
            let i = index_of(s.fibers, fiber);
            assert(fiber_at(s.fibers, fiber, i));
            rests(s, i);
            let m = s.fibers[i].machine;
            one_changed(s.fibers, i, RecordModel { machine: restarted(m), ..s.fibers[i] });
        },
        CommandModel::ReloadFiber { fiber } => {
            let i = index_of(s.fibers, fiber);
            assert(fiber_at(s.fibers, fiber, i));
            let m = s.fibers[i].machine;
            if reloadable(m) {
                one_changed(
                    s.fibers,
                    i,
                    RecordModel { machine: started(m, KindModel::Unload), ..s.fibers[i] },
                );
            }
        },
        _ => {},
    }
}

/// Whatever commands a new supervisor has taken, every fiber follows its target.
pub proof fn histories_leave_targets_followed(
    s: SupervisorModel,
    commands: Seq<CommandModel>,
)
    requires
        s.fibers.len() == 0,
        valid(s),
        affordable_all(s, commands),
    ensures
        followed(obeyed_all(s, commands).fibers),
    decreases commands.len(),
{
    if commands.len() == 0 {
        assert(reconciled(s.fibers) =~= s.fibers);
    } else {
        let before = commands.drop_last();
        histories_leave_targets_followed(s, before);
        histories_keep_the_graph_valid(s, before);
        targets_stay_followed(obeyed_all(s, before), commands.last());
    }
}

} // verus!
