//! How a chain of consumers leaves: from its end, one by one.
use crate::command::{commands_keep_the_graph_valid, obeyed, refusal, work, CommandModel};
use crate::error::ErrorModel;
use crate::fiber::{
    completed, desired_keeps_valid, desired_transition, next_transition, started, with_desired,
    DesiredModel, KindModel, MachineModel, TransitionModel,
};
use crate::following::{
    cycles_agree, member_bounds, quiet, settled_starts_nothing, waiting_too, withdrawing_quiets,
};
use crate::graph::{cycles_survive, members, members_survive, no_new_cycles, reaches};
use crate::id::FiberId;
use crate::service::{missing, ProviderKeyModel};
use crate::supervisor_model::{
    ascending, blocked_before, blocked_valid, blocked_with, blocking_keeps, completion_state,
    completion_work, consumed, consumes, cycle_of, dependency, drained, emitted, emitted_at,
    emitted_runs, fiber_at, generations_left, idle, idle_is_free, ids_at, index_of, index_of_is,
    known, marked, not_for, queue_swapped, queue_valid, reconciled, record_current, record_valid,
    refreshed, refreshed_keeps, released, same_ids_keep, replaced_keeps, retained,
    retirement_work, running, target, valid, waiting_unloads_cannot_complete, with_record,
    withdrawn, withdrawn_idle, withdrawn_work, without_owner, RecordModel, SupervisorModel,
};
use vstd::prelude::*;

verus! {

/// What a fiber was loaded against names a provider.
pub open spec fn committed_to(r: RecordModel, provider: FiberId) -> bool {
    &&& r.committed is Some
    &&& exists|e: int|
        0 <= e < r.committed->Some_0.len() && #[trigger] r.committed->Some_0[e].provider == Some(
            provider,
        )
}

/// The identifier of the `i`th fiber of a chain.
pub open spec fn link(fibers: Seq<RecordModel>, chain: Seq<int>, i: int) -> FiberId {
    fibers[chain[i]].id
}

/// Different positions of fibers.
pub open spec fn positions(fibers: Seq<RecordModel>, chain: Seq<int>) -> bool {
    &&& chain.no_duplicates()
    &&& forall|i: int| 0 <= i < chain.len() ==> 0 <= #[trigger] chain[i] < fibers.len()
}

/// The first `n` fibers of a chain unload. The first is to be disposed of, the others are to wait
/// for providers.
pub open spec fn unloading(fibers: Seq<RecordModel>, chain: Seq<int>, n: nat) -> bool {
    forall|i: int|
        0 <= i < n ==> {
            let r = #[trigger] fibers[chain[i]];
            &&& r.machine.state is Unloading
            &&& r.machine.active is Some
            &&& r.machine.active->Some_0.kind is Unload
            &&& r.machine.active->Some_0.fiber == r.id
            &&& r.machine.desired == if i == 0 {
                DesiredModel::Retired
            } else {
                DesiredModel::Waiting
            }
        }
}

/// Each of the first `n` fibers of a chain but the first was loaded against the one before it.
pub open spec fn loaded_in_turn(fibers: Seq<RecordModel>, chain: Seq<int>, n: nat) -> bool {
    forall|i: int|
        0 < i < n ==> committed_to(#[trigger] fibers[chain[i]], link(fibers, chain, i - 1))
}

/// Nobody but those behind it uses any of the first `n` fibers of a chain.
pub open spec fn used_in_turn(fibers: Seq<RecordModel>, chain: Seq<int>, n: nat) -> bool {
    forall|i: int, j: int|
        0 <= i < n && 0 <= j < fibers.len() && consumes(
            #[trigger] fibers[j],
            #[trigger] link(fibers, chain, i),
        ) ==> between(chain, i, n as int, j)
}

/// A position is in a chain behind `i` and before `n`.
pub open spec fn between(chain: Seq<int>, i: int, n: int, j: int) -> bool {
    exists|b: int| i < b < n && #[trigger] chain[b] == j
}

/// The fiber belongs to a chain.
pub open spec fn is_link(fibers: Seq<RecordModel>, chain: Seq<int>, fiber: FiberId) -> bool {
    exists|i: int| 0 <= i < chain.len() && #[trigger] link(fibers, chain, i) == fiber
}

/// A fiber outside a chain is held up by a fiber outside it.
pub open spec fn held_outside(fibers: Seq<RecordModel>, chain: Seq<int>, fiber: FiberId) -> bool {
    &&& !is_link(fibers, chain, fiber)
    &&& exists|j: int|
        0 <= j < fibers.len() && !chain.contains(j) && consumes(#[trigger] fibers[j], fiber)
}

/// Of the fibers of a chain the first `n` wait. All others that wait are outside the chain and
/// held up there.
pub open spec fn waiting_in_turn(s: SupervisorModel, chain: Seq<int>, n: int) -> bool {
    &&& forall|i: int, t: TransitionModel|
        0 <= i < n && #[trigger] waits_at(s, chain, t, i) ==> s.blocked.contains(t)
    &&& forall|t: TransitionModel| #[trigger]
        s.blocked.contains(t) ==> held_outside(s.fibers, chain, t.fiber) || exists|i: int|
            0 <= i < n && #[trigger] waits_at(s, chain, t, i)
}

/// The first `n` fibers of a chain are on their way out: each but the first was loaded against
/// the one before it, and nobody but those behind it uses any of them. All but the last of them
/// wait. Whoever else waits is held up by others.
pub open spec fn leaving(s: SupervisorModel, chain: Seq<int>, n: nat) -> bool {
    &&& valid(s)
    &&& positions(s.fibers, chain)
    &&& n <= chain.len()
    &&& unloading(s.fibers, chain, n)
    &&& loaded_in_turn(s.fibers, chain, n)
    &&& used_in_turn(s.fibers, chain, n)
    &&& waiting_in_turn(s, chain, n - 1)
}

/// The transition is the unload of the `i`th fiber of a chain.
pub open spec fn waits_at(s: SupervisorModel, chain: Seq<int>, t: TransitionModel, i: int) -> bool {
    s.fibers[chain[i]].machine.active == Some(t)
}

/// Among waiting unloads of which only those of `free` are no longer held up, just that one is
/// let go.
proof fn one_is_released(
    fibers: Seq<RecordModel>,
    blocked: Seq<TransitionModel>,
    free: FiberId,
    at: int,
    n: nat,
)
    requires
        n <= blocked.len(),
        blocked_valid(fibers, blocked),
        0 <= at < blocked.len(),
        blocked[at].fiber == free,
        forall|b: int|
            0 <= b < blocked.len() ==> (consumed(fibers, (#[trigger] blocked[b]).fiber)
                <==> blocked[b].fiber != free),
    ensures
        released(fibers, blocked, n) == if at < n {
            seq![blocked[at]]
        } else {
            Seq::empty()
        },
    decreases n,
{
    if n > 0 {
        one_is_released(fibers, blocked, free, at, (n - 1) as nat);
        if n - 1 == at {
            assert(released(fibers, blocked, n) =~= seq![blocked[at]]);
        } else if n - 1 < at {
            assert(blocked[n - 1].fiber.0 < blocked[at].fiber.0);
        } else {
            assert(blocked[at].fiber.0 < blocked[n - 1].fiber.0);
        }
    }
}

/// What keeps waiting is what is held up.
proof fn held_up_is_retained(
    fibers: Seq<RecordModel>,
    blocked: Seq<TransitionModel>,
    n: nat,
    t: TransitionModel,
)
    requires
        n <= blocked.len(),
    ensures
        retained(fibers, blocked, n).contains(t) <==> blocked.take(n as int).contains(t)
            && consumed(fibers, t.fiber),
    decreases n,
{
    if n > 0 {
        held_up_is_retained(fibers, blocked, (n - 1) as nat, t);
        let head = blocked.take(n - 1);
        let all = blocked.take(n as int);
        assert(all =~= head.push(blocked[n - 1]));
        assert(all.contains(t) <==> head.contains(t) || t == blocked[n - 1]) by {
            if all.contains(t) {
                let k = choose|k: int| 0 <= k < all.len() && all[k] == t;
                if k < head.len() {
                    assert(head[k] == t);
                }
            }
            if head.contains(t) {
                let k = choose|k: int| 0 <= k < head.len() && head[k] == t;
                assert(all[k] == t);
            }
            assert(all[n - 1] == blocked[n - 1]);
        }
        let before = retained(fibers, blocked, (n - 1) as nat);
        let after = retained(fibers, blocked, n);
        if consumed(fibers, blocked[n - 1].fiber) {
            assert(after == before.push(blocked[n - 1]));
            assert(after.contains(t) <==> before.contains(t) || t == blocked[n - 1]) by {
                if after.contains(t) {
                    let k = choose|k: int| 0 <= k < after.len() && after[k] == t;
                    if k < before.len() {
                        assert(before[k] == t);
                    }
                }
                if before.contains(t) {
                    let k = choose|k: int| 0 <= k < before.len() && before[k] == t;
                    assert(after[k] == t);
                }
                assert(after[before.len() as int] == blocked[n - 1]);
            }
        }
    } else {
        assert(blocked.take(0) =~= Seq::empty());
    }
}

/// Which fiber of a chain a fiber is.
proof fn links_differ(fibers: Seq<RecordModel>, chain: Seq<int>, i: int, j: int)
    requires
        ascending(fibers),
        positions(fibers, chain),
        0 <= i < chain.len(),
        0 <= j < chain.len(),
        link(fibers, chain, i) == link(fibers, chain, j),
    ensures
        i == j,
{
    let a = chain[i];
    let b = chain[j];
    if a < b {
        assert(fibers[a].id.0 < fibers[b].id.0);
    } else if b < a {
        assert(fibers[b].id.0 < fibers[a].id.0);
    }
}

/// All but the last of the first `n` fibers of a chain are held up by the one behind them.
proof fn held_up(fibers: Seq<RecordModel>, chain: Seq<int>, n: nat, i: int)
    requires
        positions(fibers, chain),
        0 <= i < n <= chain.len(),
        unloading(fibers, chain, n),
        loaded_in_turn(fibers, chain, n),
        used_in_turn(fibers, chain, n),
    ensures
        consumed(fibers, link(fibers, chain, i)) <==> i < n - 1,
{
    let id = link(fibers, chain, i);
    if i < n - 1 {
        let r = fibers[chain[i + 1]];
        assert(committed_to(r, link(fibers, chain, i + 1 - 1)));
        assert(consumes(r, id));
    } else if consumed(fibers, id) {
        let j = choose|j: int| 0 <= j < fibers.len() && consumes(#[trigger] fibers[j], id);
        assert(consumes(fibers[j], link(fibers, chain, i)));
        assert(between(chain, i, n as int, j));
    }
}

/// If of a chain that is on its way out one more fiber waits than is held up, just that one is
/// let go, and the others keep waiting.
proof fn last_is_let_go(
    fibers: Seq<RecordModel>,
    s: SupervisorModel,
    chain: Seq<int>,
    n: nat,
)
    requires
        s.fibers == fibers,
        n > 0,
        ascending(fibers),
        blocked_valid(fibers, s.blocked),
        positions(fibers, chain),
        n <= chain.len(),
        unloading(fibers, chain, n),
        loaded_in_turn(fibers, chain, n),
        used_in_turn(fibers, chain, n),
        waiting_in_turn(s, chain, n as int),
    ensures
        released(fibers, s.blocked, s.blocked.len()) == seq![
            fibers[chain[n - 1]].machine.active->Some_0,
        ],
        waiting_in_turn(
            SupervisorModel { blocked: retained(fibers, s.blocked, s.blocked.len()), ..s },
            chain,
            n - 1,
        ),
        forall|t: TransitionModel|
            s.blocked.contains(t) && held_outside(fibers, chain, t.fiber)
                ==> #[trigger] retained(fibers, s.blocked, s.blocked.len()).contains(t),
{
    let last = n - 1;
    let u = fibers[chain[last]].machine.active->Some_0;
    let free = link(fibers, chain, last);
    assert(waits_at(s, chain, u, last));
    assert(s.blocked.contains(u));
    let b = choose|b: int| 0 <= b < s.blocked.len() && s.blocked[b] == u;
    assert forall|k: int| 0 <= k < s.blocked.len() implies (consumed(
        fibers,
        (#[trigger] s.blocked[k]).fiber,
    ) <==> s.blocked[k].fiber != free) by {
        let t = s.blocked[k];
        assert(s.blocked.contains(t));
        if held_outside(fibers, chain, t.fiber) {
            assert(is_link(fibers, chain, link(fibers, chain, last)));
        } else {
            let i = choose|i: int| 0 <= i < n && #[trigger] waits_at(s, chain, t, i);
            assert(fibers[chain[i]].machine.active->Some_0.fiber == fibers[chain[i]].id);
            assert(t.fiber == link(fibers, chain, i));
            held_up(fibers, chain, n, i);
            if i < last && t.fiber == free {
                links_differ(fibers, chain, i, last);
            }
        }
    }
    assert(fibers[chain[last]].machine.active->Some_0.fiber == fibers[chain[last]].id);
    one_is_released(fibers, s.blocked, free, b, s.blocked.len());
    let kept = SupervisorModel { blocked: retained(fibers, s.blocked, s.blocked.len()), ..s };
    assert(s.blocked.take(s.blocked.len() as int) =~= s.blocked);
    assert forall|t: TransitionModel| #[trigger] kept.blocked.contains(t) <==> s.blocked.contains(t)
        && consumed(fibers, t.fiber) by {
        held_up_is_retained(fibers, s.blocked, s.blocked.len(), t);
    }
    assert forall|i: int, t: TransitionModel|
        0 <= i < n - 1 && #[trigger] waits_at(kept, chain, t, i) implies kept.blocked.contains(
        t,
    ) by {
        assert(waits_at(s, chain, t, i));
        assert(fibers[chain[i]].machine.active->Some_0.fiber == fibers[chain[i]].id);
        held_up(fibers, chain, n, i);
        assert(t.fiber == link(fibers, chain, i));
    }
    assert forall|t: TransitionModel| #[trigger] kept.blocked.contains(t) implies held_outside(
        kept.fibers,
        chain,
        t.fiber,
    ) || exists|i: int| 0 <= i < n - 1 && #[trigger] waits_at(kept, chain, t, i) by {
        if !held_outside(fibers, chain, t.fiber) {
            let i = choose|i: int| 0 <= i < n && #[trigger] waits_at(s, chain, t, i);
            assert(fibers[chain[i]].machine.active->Some_0.fiber == fibers[chain[i]].id);
            assert(t.fiber == link(fibers, chain, i));
            held_up(fibers, chain, n, i);
            assert(waits_at(kept, chain, t, i));
        }
    }
    assert forall|t: TransitionModel|
        s.blocked.contains(t) && held_outside(fibers, chain, t.fiber) implies #[trigger] retained(
        fibers,
        s.blocked,
        s.blocked.len(),
    ).contains(t) by {
        assert(kept.blocked.contains(t) <==> s.blocked.contains(t) && consumed(fibers, t.fiber));
    }
}

/// The state once the unload of a fiber that does not wait is done, before it is scheduled.
pub open spec fn unloaded(s: SupervisorModel, at: int) -> SupervisorModel {
    let r = s.fibers[at];
    with_record(
        s,
        at,
        RecordModel {
            machine: completed(r.machine, r.machine.active->Some_0.generation, Ok(())).0,
            committed: None,
            ..r
        },
    )
}

/// What reporting an unload done comes to.
proof fn completing_an_unload(s: SupervisorModel, at: int)
    requires
        valid(s),
        0 <= at < s.fibers.len(),
        s.fibers[at].machine.state is Unloading,
        s.fibers[at].machine.active is Some,
        s.fibers[at].machine.active->Some_0.kind is Unload,
        s.fibers[at].machine.desired is Waiting || s.fibers[at].machine.desired is Retired,
        not_for(s.blocked, s.fibers[at].id),
    ensures
        ({
            let r = s.fibers[at];
            let done = CommandModel::CompleteTransition {
                fiber: r.id,
                generation: r.machine.active->Some_0.generation,
                result: Ok(()),
            };
            let next = unloaded(s, at);
            &&& refusal(s, done) is None
            &&& obeyed(s, done) == (SupervisorModel {
                blocked: retained(next.fibers, s.blocked, s.blocked.len()),
                ..next
            })
            &&& work(s, done) == released(next.fibers, s.blocked, s.blocked.len())
            &&& next.fibers[at].machine.state is Disposed <==> r.machine.desired is Retired
            &&& next.fibers[at].machine.state is Pending <==> r.machine.desired is Waiting
        }),
{
    let r = s.fibers[at];
    let t = r.machine.active->Some_0;
    let done = CommandModel::CompleteTransition {
        fiber: r.id,
        generation: t.generation,
        result: Ok(()),
    };
    let none = Seq::<TransitionModel>::empty();
    assert(fiber_at(s.fibers, r.id, at));
    index_of_is(s.fibers, r.id, at);
    let next = unloaded(s, at);
    assert(completion_state(s, r.id, t.generation, Ok(())) == next);
    assert(completion_work(s, r.id, t.generation, Ok(())) =~= none);
    assert(drained(next, none, none) == (next, none));
    assert(none + released(next.fibers, s.blocked, s.blocked.len()) =~= released(
        next.fibers,
        s.blocked,
        s.blocked.len(),
    ));
}

/// The last of the first `n` fibers of a chain that is on its way out does not wait.
proof fn last_does_not_wait(s: SupervisorModel, chain: Seq<int>, n: nat)
    requires
        n > 0,
        leaving(s, chain, n),
    ensures
        not_for(s.blocked, link(s.fibers, chain, n - 1)),
{
    assert forall|b: int| 0 <= b < s.blocked.len() implies (#[trigger] s.blocked[b]).fiber != link(
        s.fibers,
        chain,
        n - 1,
    ) by {
        assert(s.blocked.contains(s.blocked[b]));
        if s.blocked[b].fiber == link(s.fibers, chain, n - 1) {
            assert(is_link(s.fibers, chain, s.blocked[b].fiber));
            let i = choose|i: int|
                0 <= i < n - 1 && #[trigger] waits_at(s, chain, s.blocked[b], i);
            assert(s.fibers[chain[i]].machine.active->Some_0.fiber == s.fibers[chain[i]].id);
            links_differ(s.fibers, chain, i, n - 1);
        }
    }
}

/// What is left of a chain when its last fiber is down.
proof fn rest_of_chain(s: SupervisorModel, chain: Seq<int>, n: nat)
    requires
        n > 0,
        leaving(s, chain, n),
        unloaded(s, chain[n - 1]).fibers[chain[n - 1]].machine.state is Disposed || unloaded(
            s,
            chain[n - 1],
        ).fibers[chain[n - 1]].machine.state is Pending,
    ensures
        ({
            let fibers = unloaded(s, chain[n - 1]).fibers;
            let rest = (n - 1) as nat;
            &&& positions(fibers, chain)
            &&& unloading(fibers, chain, rest)
            &&& loaded_in_turn(fibers, chain, rest)
            &&& used_in_turn(fibers, chain, rest)
            &&& waiting_in_turn(unloaded(s, chain[n - 1]), chain, n - 1)
        }),
{
    let at = chain[n - 1];
    let next = unloaded(s, at);
    let fibers = next.fibers;
    let rest = (n - 1) as nat;
    assert forall|i: int| 0 <= i < chain.len() && i != n - 1 implies fibers[#[trigger] chain[i]]
        == s.fibers[chain[i]] by {
        assert(chain[i] != chain[n - 1]);
    }
    assert forall|i: int| 0 <= i < chain.len() implies #[trigger] link(fibers, chain, i) == link(
        s.fibers,
        chain,
        i,
    ) by {
        if i != n - 1 {
            assert(fibers[chain[i]] == s.fibers[chain[i]]);
        }
    }
    assert(chain.contains(chain[n - 1]));
    assert(unloading(fibers, chain, rest)) by {
        assert forall|i: int| 0 <= i < rest implies fibers[#[trigger] chain[i]]
            == s.fibers[chain[i]] by {}
    }
    assert forall|i: int| 0 < i < rest implies committed_to(
        #[trigger] fibers[chain[i]],
        link(fibers, chain, i - 1),
    ) by {
        assert(fibers[chain[i]] == s.fibers[chain[i]]);
        assert(committed_to(s.fibers[chain[i]], link(s.fibers, chain, i - 1)));
        assert(link(fibers, chain, i - 1) == link(s.fibers, chain, i - 1));
    }
    assert forall|i: int, j: int|
        0 <= i < rest && 0 <= j < fibers.len() && consumes(
            #[trigger] fibers[j],
            #[trigger] link(fibers, chain, i),
        ) implies between(chain, i, rest as int, j) by {
        assert(j != at);
        assert(fibers[j] == s.fibers[j]);
        assert(link(fibers, chain, i) == link(s.fibers, chain, i));
        assert(consumes(s.fibers[j], link(s.fibers, chain, i)));
        let b = choose|b: int| i < b < n && #[trigger] chain[b] == j;
        assert(between(chain, i, rest as int, j));
    }
    assert forall|i: int, t: TransitionModel|
        0 <= i < n - 1 && #[trigger] waits_at(next, chain, t, i) implies next.blocked.contains(
        t,
    ) by {
        assert(fibers[chain[i]] == s.fibers[chain[i]]);
        assert(waits_at(s, chain, t, i));
    }
    assert forall|t: TransitionModel| #[trigger] next.blocked.contains(t) implies held_outside(
        fibers,
        chain,
        t.fiber,
    ) || exists|i: int| 0 <= i < n - 1 && #[trigger] waits_at(next, chain, t, i) by {
        if held_outside(s.fibers, chain, t.fiber) {
            outside_stays(s.fibers, fibers, chain, t.fiber);
        } else {
            let i = choose|i: int| 0 <= i < n - 1 && #[trigger] waits_at(s, chain, t, i);
            assert(fibers[chain[i]] == s.fibers[chain[i]]);
            assert(waits_at(next, chain, t, i));
        }
    }
}

/// Whoever is held up outside a chain stays so while only the chain changes.
proof fn outside_stays(
    before: Seq<RecordModel>,
    after: Seq<RecordModel>,
    chain: Seq<int>,
    fiber: FiberId,
)
    requires
        held_outside(before, chain, fiber),
        after.len() == before.len(),
        forall|i: int|
            0 <= i < chain.len() ==> #[trigger] link(after, chain, i) == link(before, chain, i),
        forall|j: int|
            0 <= j < before.len() && !chain.contains(j) ==> (#[trigger] after[j]).committed
                == before[j].committed && after[j].machine.state == before[j].machine.state,
    ensures
        held_outside(after, chain, fiber),
{
    let j = choose|j: int|
        0 <= j < before.len() && !chain.contains(j) && consumes(#[trigger] before[j], fiber);
    assert(consumes(after[j], fiber));
    if is_link(after, chain, fiber) {
        let i = choose|i: int| 0 <= i < chain.len() && #[trigger] link(after, chain, i) == fiber;
        assert(link(before, chain, i) == fiber);
    }
}

/// Waiting unloads stay sound when a fiber that does not wait is replaced.
proof fn waiting_stays_sound(s: SupervisorModel, at: int)
    requires
        valid(s),
        0 <= at < s.fibers.len(),
        not_for(s.blocked, s.fibers[at].id),
    ensures
        ascending(unloaded(s, at).fibers),
        blocked_valid(unloaded(s, at).fibers, s.blocked),
{
    let fibers = unloaded(s, at).fibers;
    assert forall|i: int, j: int| 0 <= i < j < fibers.len() implies (#[trigger] fibers[i]).id.0 < (
    #[trigger] fibers[j]).id.0 by {
        assert(s.fibers[i].id.0 < s.fibers[j].id.0);
    }
    assert forall|k: int| 0 <= k < s.blocked.len() implies (#[trigger] s.blocked[k]).kind is Unload
        && running(fibers, s.blocked[k]) by {
        assert(running(s.fibers, s.blocked[k]));
        let j = choose|j: int| #[trigger]
            fiber_at(s.fibers, s.blocked[k].fiber, j) && s.fibers[j].machine.active == Some(
                s.blocked[k],
            );
        assert(j != at);
        assert(fiber_at(fibers, s.blocked[k].fiber, j));
    }
}

/// When the last fiber of a chain that is on its way out is down, exactly the one before it is
/// let go, and the rest keeps waiting, and so does whoever waits for others. The fiber itself is
/// pending, or disposed of if it is the first.
pub proof fn chains_leave_one_by_one(s: SupervisorModel, chain: Seq<int>, n: nat)
    requires
        n > 0,
        leaving(s, chain, n),
        generations_left(s.fibers),
    ensures
        ({
            let t = s.fibers[chain[n - 1]].machine.active->Some_0;
            let done = CommandModel::CompleteTransition {
                fiber: link(s.fibers, chain, n - 1),
                generation: t.generation,
                result: Ok(()),
            };
            let then = obeyed(s, done);
            &&& refusal(s, done) is None
            &&& leaving(then, chain, (n - 1) as nat)
            &&& then.fibers[chain[n - 1]].machine.state is Disposed <==> n == 1
            &&& then.fibers[chain[n - 1]].machine.state is Pending <==> n > 1
            &&& forall|j: int|
                0 <= j < s.fibers.len() && j != chain[n - 1] ==> #[trigger] then.fibers[j]
                    == s.fibers[j]
            &&& then.fibers.len() == s.fibers.len()
            &&& forall|u: TransitionModel|
                s.blocked.contains(u) && held_outside(s.fibers, chain, u.fiber)
                    ==> #[trigger] then.blocked.contains(u)
            &&& work(s, done) == if n > 1 {
                seq![s.fibers[chain[n - 2]].machine.active->Some_0]
            } else {
                Seq::empty()
            }
        }),
{
    let at = chain[n - 1];
    let r = s.fibers[at];
    let t = r.machine.active->Some_0;
    let done = CommandModel::CompleteTransition {
        fiber: r.id,
        generation: t.generation,
        result: Ok(()),
    };
    last_does_not_wait(s, chain, n);
    completing_an_unload(s, at);
    rest_of_chain(s, chain, n);
    waiting_stays_sound(s, at);
    commands_keep_the_graph_valid(s, done);
    let next = unloaded(s, at);
    let then = obeyed(s, done);
    assert forall|fiber: FiberId| held_outside(s.fibers, chain, fiber) implies #[trigger]
        held_outside(next.fibers, chain, fiber) by {
        assert(chain.contains(chain[n - 1]));
        assert forall|i: int| 0 <= i < chain.len() implies #[trigger] link(next.fibers, chain, i)
            == link(s.fibers, chain, i) by {}
        outside_stays(s.fibers, next.fibers, chain, fiber);
    }
    if n > 1 {
        last_is_let_go(next.fibers, next, chain, (n - 1) as nat);
        assert(chain[n - 2] != at);
    } else {
        all_are_held(next, chain);
    }
}

/// While everything that waits is held up outside a chain, nothing is let go.
proof fn all_are_held(s: SupervisorModel, chain: Seq<int>)
    requires
        forall|t: TransitionModel| #[trigger]
            s.blocked.contains(t) ==> held_outside(s.fibers, chain, t.fiber),
    ensures
        released(s.fibers, s.blocked, s.blocked.len()) == Seq::<TransitionModel>::empty(),
        forall|t: TransitionModel| #[trigger]
            retained(s.fibers, s.blocked, s.blocked.len()).contains(t) <==> s.blocked.contains(t),
{
    assert forall|b: int| 0 <= b < s.blocked.len() implies consumed(
        s.fibers,
        (#[trigger] s.blocked[b]).fiber,
    ) by {
        assert(s.blocked.contains(s.blocked[b]));
    }
    none_is_released(s.fibers, s.blocked, s.blocked.len());
    assert(s.blocked.take(s.blocked.len() as int) =~= s.blocked);
    assert forall|t: TransitionModel| #[trigger]
        retained(s.fibers, s.blocked, s.blocked.len()).contains(t) <==> s.blocked.contains(t) by {
        held_up_is_retained(s.fibers, s.blocked, s.blocked.len(), t);
    }
}

/// Nothing is let go while everything is held up.
proof fn none_is_released(fibers: Seq<RecordModel>, blocked: Seq<TransitionModel>, n: nat)
    requires
        n <= blocked.len(),
        forall|b: int| 0 <= b < blocked.len() ==> consumed(fibers, (#[trigger] blocked[b]).fiber),
    ensures
        released(fibers, blocked, n) == Seq::<TransitionModel>::empty(),
    decreases n,
{
    if n > 0 {
        none_is_released(fibers, blocked, (n - 1) as nat);
    }
}

/// The fibers of a chain that wait cannot be reported down before their turn.
pub proof fn waiting_links_cannot_complete(
    s: SupervisorModel,
    chain: Seq<int>,
    n: nat,
    i: int,
    generation: u64,
    result: Result<(), ErrorModel>,
)
    requires
        leaving(s, chain, n),
        0 <= i < n - 1,
    ensures
        refusal(
            s,
            CommandModel::CompleteTransition {
                fiber: link(s.fibers, chain, i),
                generation,
                result,
            },
        ) == Some(ErrorModel::TransitionBlocked { fiber: link(s.fibers, chain, i) }),
{
    let r = s.fibers[chain[i]];
    let t = r.machine.active->Some_0;
    assert(r.machine.active->Some_0.fiber == r.id);
    assert(waits_at(s, chain, t, i));
    assert(s.blocked.contains(t));
    let b = choose|b: int| 0 <= b < s.blocked.len() && s.blocked[b] == t;
    waiting_unloads_cannot_complete(s, b);
}

// ---------------------------------------------------------------------------------------------
// Withdrawing one fiber of a chain
// ---------------------------------------------------------------------------------------------

/// A fiber's selection names a provider.
pub open spec fn selects_from(r: RecordModel, provider: FiberId) -> bool {
    exists|e: int| 0 <= e < r.desired.len() && #[trigger] r.desired[e].provider == Some(provider)
}

/// A fiber cannot do without a provider.
pub open spec fn requires_from(r: RecordModel, provider: FiberId) -> bool {
    exists|e: int|
        0 <= e < r.desired.len() && (#[trigger] r.desired[e]).provider == Some(provider)
            && r.desired[e].requirement is Required
}

/// A selection that does not name a provider is the same without it.
proof fn unaffected(s: SupervisorModel, x: FiberId, j: int)
    requires
        valid(s),
        0 <= j < s.fibers.len(),
        !selects_from(s.fibers[j], x),
    ensures
        refreshed(s.fibers, without_owner(s.providers, x))[j] == s.fibers[j],
{
    let r = s.fibers[j];
    let providers = without_owner(s.providers, x);
    let fresh = refreshed(s.fibers, providers)[j];
    assert(record_current(r, s.providers));
    if r.context is Some {
        assert(fresh.desired =~= r.desired) by {
            assert forall|e: int| 0 <= e < r.desired.len() implies fresh.desired[e]
                == r.desired[e] by {
                assert(r.desired[e].provider != Some(x));
            }
        }
    }
}

// ---------------------------------------------------------------------------------------------
// Working a chain off
// ---------------------------------------------------------------------------------------------

proof fn waiting_place(blocked: Seq<TransitionModel>, fiber: FiberId)
    ensures
        0 <= blocked_before(blocked, fiber) <= blocked.len(),
    decreases blocked.len(),
{
    if blocked.len() > 0 && blocked[0].fiber.0 < fiber.0 {
        waiting_place(blocked.drop_first(), fiber);
    }
}

/// One more unload waits.
proof fn one_more_waits(blocked: Seq<TransitionModel>, t: TransitionModel, u: TransitionModel)
    ensures
        blocked_with(blocked, t).contains(u) <==> blocked.contains(u) || u == t,
{
    waiting_place(blocked, t.fiber);
    let at = blocked_before(blocked, t.fiber);
    let after = blocked_with(blocked, t);
    if after.contains(u) {
        let k = choose|k: int| 0 <= k < after.len() && after[k] == u;
        if k < at {
            assert(blocked[k] == u);
        } else if k > at {
            assert(blocked[k - 1] == u);
        }
    }
    if blocked.contains(u) {
        let k = choose|k: int| 0 <= k < blocked.len() && blocked[k] == u;
        if k < at {
            assert(after[k] == u);
        } else {
            assert(after[k + 1] == u);
        }
    }
    assert(after[at] == t);
}

/// Marking an active fiber retired starts its unload and leaves the graph quiet.
proof fn marking_keeps_quiet(s: SupervisorModel, at: int)
    requires
        quiet(s),
        generations_left(s.fibers),
        0 <= at < s.fibers.len(),
        s.fibers[at].machine.state is Active,
    ensures
        ({
            let r = s.fibers[at];
            let then = marked(s, r.id);
            let t = next_transition(r.machine, KindModel::Unload);
            &&& quiet(then)
            &&& queue_valid(then, seq![t])
            &&& then.fibers == s.fibers.update(at, then.fibers[at])
            &&& then.fibers[at] == (RecordModel {
                retired: true,
                machine: started(
                    MachineModel { desired: DesiredModel::Retired, ..r.machine },
                    KindModel::Unload,
                ),
                ..r
            })
            &&& then.fibers[at].machine.active == Some(t)
            &&& desired_transition(r.machine, DesiredModel::Retired) == Some(t)
            &&& then.blocked == s.blocked
            &&& index_of(s.fibers, r.id) == at
            &&& known(s.fibers, r.id)
        }),
{
    let r = s.fibers[at];
    let none = Seq::<TransitionModel>::empty();
    assert(fiber_at(s.fibers, r.id, at));
    index_of_is(s.fibers, r.id, at);
    assert(record_valid(r, s.next_fiber));
    assert(record_current(r, s.providers));
    assert(queue_valid(s, none));
    idle_is_free(s, none, at);
    let then = marked(s, r.id);
    let t = next_transition(r.machine, KindModel::Unload);
    desired_keeps_valid(r.machine, DesiredModel::Retired);
    replaced_keeps(s, none, at, then.fibers[at]);
    assert(none.push(t) =~= seq![t]);
    assert(reconciled(s.fibers)[at] == r);
    settled_starts_nothing(s.fibers, at);
    assert forall|j: int| 0 <= j < then.fibers.len() implies #[trigger] reconciled(then.fibers)[j]
        == then.fibers[j] by {
        cycles_agree(s.fibers, then.fibers, j);
        assert(reconciled(s.fibers)[j] == s.fibers[j]);
    }
    assert(reconciled(then.fibers) =~= then.fibers);
}

/// Slots were only given up.
pub open spec fn shrunk(
    before: Map<ProviderKeyModel, FiberId>,
    after: Map<ProviderKeyModel, FiberId>,
) -> bool {
    forall|key: ProviderKeyModel| #[trigger]
        after.dom().contains(key) ==> before.dom().contains(key) && after[key] == before[key]
}

/// A fiber is active, or on its way out.
pub open spec fn up_or_leaving(m: MachineModel) -> bool {
    ||| m.state is Active && m.active is None
    ||| m.state is Unloading && m.active is Some && m.active->Some_0.kind is Unload
}

/// What holds of a graph in which a chain may start to leave: its fibers are up or on their way
/// out, each but the first needs the one before it, none lies on a cycle, and no other active
/// fiber selects any of them.
pub open spec fn base(s: SupervisorModel, chain: Seq<int>) -> bool {
    &&& quiet(s)
    &&& positions(s.fibers, chain)
    &&& forall|i: int|
        0 <= i < chain.len() ==> up_or_leaving((#[trigger] s.fibers[chain[i]]).machine)
    &&& forall|i: int|
        0 <= i < chain.len() ==> !reaches(
            dependency(s.fibers),
            #[trigger] chain[i],
            chain[i],
        )
    &&& forall|i: int|
        0 < i < chain.len() ==> requires_from(
            #[trigger] s.fibers[chain[i]],
            link(s.fibers, chain, i - 1),
        ) && !s.fibers[chain[i]].retired && s.fibers[chain[i]].context is Some
    &&& forall|i: int, j: int|
        0 <= i < chain.len() && 0 <= j < s.fibers.len() && !chain.contains(j) && selects_from(
            #[trigger] s.fibers[j],
            #[trigger] link(s.fibers, chain, i),
        ) ==> !(s.fibers[j].machine.state is Active)
}

/// What stays of each fiber while a chain starts to leave.
pub open spec fn kept(before: RecordModel, after: RecordModel, inside: bool) -> bool {
    &&& after.id == before.id
    &&& after.context == before.context
    &&& after.injects == before.injects
    &&& after.retired == before.retired
    &&& after.committed == before.committed
    &&& before.machine.active is Some ==> after.machine.active == before.machine.active
        && after.machine.state == before.machine.state
    &&& if inside {
        up_or_leaving(after.machine)
    } else {
        after.machine.state == before.machine.state && after.machine.active
            == before.machine.active
    }
}

/// What has become of a graph while a chain starts to leave.
pub open spec fn on_its_way(
    start: SupervisorModel,
    s: SupervisorModel,
    chain: Seq<int>,
    queue: Seq<TransitionModel>,
) -> bool {
    &&& quiet(s)
    &&& queue_valid(s, queue)
    &&& s.fibers.len() == start.fibers.len()
    &&& forall|j: int|
        0 <= j < s.fibers.len() ==> kept(
            start.fibers[j],
            #[trigger] s.fibers[j],
            chain.contains(j),
        )
    &&& shrunk(start.providers, s.providers)
    &&& forall|k: int|
        0 <= k < queue.len() ==> (#[trigger] queue[k]).kind is Unload && is_link(
            start.fibers,
            chain,
            queue[k].fiber,
        )
    &&& forall|i: int|
        0 <= i < chain.len() && (#[trigger] s.fibers[chain[i]]).machine.active is Some
            ==> queue.contains(s.fibers[chain[i]].machine.active->Some_0) || s.blocked.contains(
            s.fibers[chain[i]].machine.active->Some_0,
        )
    &&& forall|t: TransitionModel|
        start.blocked.contains(t) ==> #[trigger] s.blocked.contains(t)
    &&& forall|t: TransitionModel| #[trigger]
        s.blocked.contains(t) ==> start.blocked.contains(t) || is_link(
            start.fibers,
            chain,
            t.fiber,
        )
}

/// Fibers of a chain that wait own no slots.
pub open spec fn slotless(start: SupervisorModel, s: SupervisorModel, chain: Seq<int>) -> bool {
    forall|t: TransitionModel, key: ProviderKeyModel| #[trigger]
        s.blocked.contains(t) && is_link(start.fibers, chain, t.fiber) && #[trigger]
        s.providers.dom().contains(key) ==> s.providers[key] != t.fiber
}

/// Who is selected now was selected before.
proof fn selections_shrink(
    start: SupervisorModel,
    s: SupervisorModel,
    chain: Seq<int>,
    queue: Seq<TransitionModel>,
)
    requires
        base(start, chain),
        on_its_way(start, s, chain, queue),
    ensures
        forall|j: int, id: FiberId|
            0 <= j < s.fibers.len() && #[trigger] selects_from(s.fibers[j], id) ==> selects_from(
                start.fibers[j],
                id,
            ),
        forall|a: int, b: int| #[trigger]
            dependency(s.fibers)(a, b) ==> dependency(start.fibers)(a, b),
{
    assert forall|j: int, e: int|
        0 <= j < s.fibers.len() && 0 <= e < s.fibers[j].desired.len()
            && #[trigger] s.fibers[j].desired[e].provider is Some implies e
        < start.fibers[j].desired.len() && start.fibers[j].desired[e].provider
        == s.fibers[j].desired[e].provider by {
        assert(kept(start.fibers[j], s.fibers[j], chain.contains(j)));
        assert(record_current(s.fibers[j], s.providers));
        assert(record_current(start.fibers[j], start.providers));
    }
    assert forall|j: int, id: FiberId|
        0 <= j < s.fibers.len() && #[trigger] selects_from(
            s.fibers[j],
            id,
        ) implies selects_from(start.fibers[j], id) by {
        let e = choose|e: int|
            0 <= e < s.fibers[j].desired.len() && #[trigger] s.fibers[j].desired[e].provider
                == Some(id);
        assert(start.fibers[j].desired[e].provider == Some(id));
    }
    assert forall|a: int, b: int| #[trigger] dependency(s.fibers)(a, b) implies dependency(
        start.fibers,
    )(a, b) by {
        let e = choose|e: int|
            0 <= e < s.fibers[a].desired.len() && #[trigger] s.fibers[a].desired[e].provider
                == Some(s.fibers[b].id);
        assert(kept(start.fibers[a], s.fibers[a], chain.contains(a)));
        assert(kept(start.fibers[b], s.fibers[b], chain.contains(b)));
        assert(start.fibers[a].desired[e].provider == Some(start.fibers[b].id));
    }
}

/// Work that is started is queued.
proof fn started_is_emitted(fibers: Seq<RecordModel>, i: int, n: nat)
    requires
        0 <= i < n <= fibers.len(),
        desired_transition(fibers[i].machine, target(fibers[i], cycle_of(fibers, i))) is Some,
    ensures
        emitted(fibers, n).contains(
            desired_transition(
                fibers[i].machine,
                target(fibers[i], cycle_of(fibers, i)),
            )->Some_0,
        ),
    decreases n,
{
    let t = desired_transition(
        fibers[i].machine,
        target(fibers[i], cycle_of(fibers, i)),
    )->Some_0;
    let before = emitted(fibers, (n - 1) as nat);
    let all = emitted(fibers, n);
    if i == n - 1 {
        assert(all[before.len() as int] == t);
    } else {
        started_is_emitted(fibers, i, (n - 1) as nat);
        let k = choose|k: int| 0 <= k < before.len() && before[k] == t;
        assert(all[k] == t);
    }
}

/// Taking the slots of a fiber on no cycle changes nobody's cycles.
proof fn cycles_stay(s: SupervisorModel, x: int)
    requires
        valid(s),
        0 <= x < s.fibers.len(),
        !reaches(dependency(s.fibers), x, x),
    ensures
        ({
            let fresh = refreshed(s.fibers, without_owner(s.providers, s.fibers[x].id));
            forall|j: int|
                0 <= j < fresh.len() ==> #[trigger] cycle_of(fresh, j) == cycle_of(s.fibers, j)
        }),
{
    let id = s.fibers[x].id;
    let providers = without_owner(s.providers, id);
    let fresh = refreshed(s.fibers, providers);
    let large = dependency(s.fibers);
    let small = dependency(fresh);
    assert forall|a: int, e: int|
        0 <= a < fresh.len() && fresh[a].context is Some && 0 <= e
            < fresh[a].desired.len() implies (#[trigger] fresh[a].desired[e]).provider == (
    if s.fibers[a].desired[e].provider == Some(id) {
        None
    } else {
        s.fibers[a].desired[e].provider
    }) by {
        assert(record_current(s.fibers[a], s.providers));
    }
    assert forall|a: int, b: int| #[trigger] small(a, b) implies large(a, b) by {
        let e = choose|e: int|
            0 <= e < fresh[a].desired.len() && #[trigger] fresh[a].desired[e].provider == Some(
                fresh[b].id,
            );
        assert(record_current(s.fibers[a], s.providers));
        assert(s.fibers[a].desired[e].provider == Some(s.fibers[b].id));
    }
    assert forall|a: int, b: int| b != x && #[trigger] large(a, b) implies small(a, b) by {
        let e = choose|e: int|
            0 <= e < s.fibers[a].desired.len() && #[trigger] s.fibers[a].desired[e].provider
                == Some(s.fibers[b].id);
        assert(record_current(s.fibers[a], s.providers));
        if s.fibers[b].id == id {
            if b < x {
                assert(s.fibers[b].id.0 < s.fibers[x].id.0);
            } else {
                assert(s.fibers[x].id.0 < s.fibers[b].id.0);
            }
        }
        assert(fresh[a].desired[e].provider == Some(fresh[b].id));
    }
    assert forall|j: int| 0 <= j < fresh.len() implies #[trigger] cycle_of(fresh, j) == cycle_of(
        s.fibers,
        j,
    ) by {
        cycles_survive(large, small, x, j, j);
        members_survive(large, small, x, j, fresh.len());
        let nodes = members(large, j, fresh.len());
        member_bounds(large, j, fresh.len());
        assert(ids_at(fresh, nodes) =~= ids_at(s.fibers, nodes)) by {
            assert forall|k: int| 0 <= k < nodes.len() implies fresh[nodes[k]].id
                == s.fibers[nodes[k]].id by {
                assert(0 <= nodes[k] < fresh.len());
            }
        }
    }
}

/// Losing a provider starts nothing in a fiber that is not active, and nothing in one that did
/// not select it.
proof fn bystander_stays(s: SupervisorModel, x: int, j: int)
    requires
        quiet(s),
        0 <= x < s.fibers.len(),
        0 <= j < s.fibers.len(),
        !reaches(dependency(s.fibers), x, x),
        s.fibers[j].machine.state is Active ==> !selects_from(s.fibers[j], s.fibers[x].id),
    ensures
        ({
            let m = withdrawn(s, s.fibers[x].id).fibers[j].machine;
            m.state == s.fibers[j].machine.state && m.active == s.fibers[j].machine.active
        }),
{
    let id = s.fibers[x].id;
    let fresh = refreshed(s.fibers, without_owner(s.providers, id));
    let r = s.fibers[j];
    let m = r.machine;
    cycles_stay(s, x);
    assert(cycle_of(fresh, j) == cycle_of(s.fibers, j));
    assert(reconciled(s.fibers)[j] == r);
    settled_starts_nothing(s.fibers, j);
    assert(record_valid(r, s.next_fiber));
    assert(record_current(r, s.providers));
    let goal = target(fresh[j], cycle_of(fresh, j));
    assert(withdrawn(s, id).fibers[j].machine == with_desired(m, goal));
    if m.active is None {
        if m.state is Active {
            unaffected(s, id, j);
        } else if m.state is Pending && !r.retired && goal is Ready {
            // With fewer providers nothing becomes ready.
            assert forall|e: int| 0 <= e < r.desired.len() implies !missing(
                #[trigger] r.desired[e],
            ) by {
                assert(!missing(fresh[j].desired[e]));
            }
        }
    }
}

/// Taking the slots of a fiber of the chain keeps the chain on its way.
proof fn withdrawing_keeps_on(
    start: SupervisorModel,
    s: SupervisorModel,
    chain: Seq<int>,
    queue: Seq<TransitionModel>,
    i: int,
)
    requires
        base(start, chain),
        on_its_way(start, s, chain, queue),
        0 <= i < chain.len(),
    ensures
        on_its_way(
            start,
            withdrawn(s, link(start.fibers, chain, i)),
            chain,
            queue + withdrawn_work(s, link(start.fibers, chain, i)),
        ),
{
    let x = chain[i];
    let id = link(start.fibers, chain, i);
    assert(kept(start.fibers[x], s.fibers[x], chain.contains(x)));
    assert(s.fibers[x].id == id);
    let w = withdrawn(s, id);
    let added = withdrawn_work(s, id);
    let all = queue + added;
    withdrawing_quiets(s, id, queue);
    selections_shrink(start, s, chain, queue);
    no_new_cycles(dependency(start.fibers), dependency(s.fibers), x);
    let providers = without_owner(s.providers, id);
    let fresh = refreshed(s.fibers, providers);
    refreshed_keeps(s.fibers, s.providers, providers, s.next_fiber);
    same_ids_keep(s.fibers, fresh, providers);
    emitted_runs(fresh, s.next_fiber, fresh.len());
    assert forall|j: int| 0 <= j < w.fibers.len() implies kept(
        start.fibers[j],
        #[trigger] w.fibers[j],
        chain.contains(j),
    ) && (s.fibers[j].machine.active is Some ==> w.fibers[j].machine.active
        == s.fibers[j].machine.active) by {
        assert(kept(start.fibers[j], s.fibers[j], chain.contains(j)));
        if chain.contains(j) {
            let b = choose|b: int| 0 <= b < chain.len() && chain[b] == j;
            assert(up_or_leaving(s.fibers[chain[b]].machine));
        } else {
            if s.fibers[j].machine.state is Active && selects_from(s.fibers[j], id) {
                assert(selects_from(start.fibers[j], link(start.fibers, chain, i)));
            }
            bystander_stays(s, x, j);
        }
    }
    assert forall|k: int| 0 <= k < all.len() implies (#[trigger] all[k]).kind is Unload && is_link(
        start.fibers,
        chain,
        all[k].fiber,
    ) by {
        if k < queue.len() {
            assert(all[k] == queue[k]);
        } else {
            let t = added[k - queue.len()];
            assert(all[k] == t);
            assert(emitted_at(fresh, fresh.len(), emitted(fresh, fresh.len())[k - queue.len()]));
            let j = choose|j: int|
                0 <= j < fresh.len() && #[trigger] fiber_at(fresh, t.fiber, j)
                    && fresh[j].machine.active is None && with_desired(
                    fresh[j].machine,
                    target(fresh[j], cycle_of(fresh, j)),
                ).active == Some(t);
            assert(w.fibers[j].machine.active == Some(t));
            assert(kept(start.fibers[j], s.fibers[j], chain.contains(j)));
            assert(kept(start.fibers[j], w.fibers[j], chain.contains(j)));
            assert(chain.contains(j));
            let b = choose|b: int| 0 <= b < chain.len() && chain[b] == j;
            assert(link(start.fibers, chain, b) == t.fiber);
        }
    }
    assert forall|b: int|
        0 <= b < chain.len() && (#[trigger] w.fibers[chain[b]]).machine.active is Some implies all.contains(
        w.fibers[chain[b]].machine.active->Some_0,
    ) || w.blocked.contains(w.fibers[chain[b]].machine.active->Some_0) by {
        let j = chain[b];
        assert(chain.contains(j));
        let t = w.fibers[j].machine.active->Some_0;
        assert(kept(start.fibers[j], s.fibers[j], true));
        assert(kept(start.fibers[j], w.fibers[j], true));
        if s.fibers[j].machine.active is Some {
            assert(s.fibers[chain[b]].machine.active->Some_0 == t);
            if queue.contains(t) {
                let k = choose|k: int| 0 <= k < queue.len() && queue[k] == t;
                assert(all[k] == t);
            }
        } else {
            started_is_emitted(fresh, j, fresh.len());
            assert(added.contains(t));
            let k = choose|k: int| 0 <= k < added.len() && added[k] == t;
            assert(all[queue.len() + k] == t);
        }
    }
}

/// A queued unload of the chain can start to wait.
proof fn waiting_keeps_on(
    start: SupervisorModel,
    s: SupervisorModel,
    chain: Seq<int>,
    queue: Seq<TransitionModel>,
)
    requires
        on_its_way(start, s, chain, queue),
        queue.len() > 0,
    ensures
        on_its_way(start, waiting_too(s, queue[0]), chain, queue.drop_first()),
        forall|u: TransitionModel| #[trigger]
            waiting_too(s, queue[0]).blocked.contains(u) <==> s.blocked.contains(u) || u
                == queue[0],
{
    let t = queue[0];
    let rest = queue.drop_first();
    let then = waiting_too(s, t);
    assert(queue[0].kind is Unload);
    blocking_keeps(s, queue);
    assert forall|u: TransitionModel| #[trigger] then.blocked.contains(u) <==> s.blocked.contains(u)
        || u == t by {
        one_more_waits(s.blocked, t, u);
    }
    assert forall|k: int| 0 <= k < rest.len() implies (#[trigger] rest[k]).kind is Unload
        && is_link(start.fibers, chain, rest[k].fiber) by {
        assert(rest[k] == queue[k + 1]);
    }
    assert forall|i: int|
        0 <= i < chain.len() && (
        #[trigger] then.fibers[chain[i]]).machine.active is Some implies rest.contains(
        then.fibers[chain[i]].machine.active->Some_0,
    ) || then.blocked.contains(then.fibers[chain[i]].machine.active->Some_0) by {
        let u = s.fibers[chain[i]].machine.active->Some_0;
        if queue.contains(u) {
            let k = choose|k: int| 0 <= k < queue.len() && queue[k] == u;
            if k > 0 {
                assert(rest[k - 1] == u);
            }
        }
    }
}

/// Working the queue off keeps the chain on its way and makes nothing ready.
proof fn draining_keeps_on(
    start: SupervisorModel,
    s: SupervisorModel,
    chain: Seq<int>,
    queue: Seq<TransitionModel>,
    ready: Seq<TransitionModel>,
)
    requires
        base(start, chain),
        on_its_way(start, s, chain, queue),
        slotless(start, s, chain),
    ensures
        ({
            let (end, found) = drained(s, queue, ready);
            &&& found == ready
            &&& on_its_way(start, end, chain, Seq::empty())
            &&& slotless(start, end, chain)
        }),
    decreases queue.len() + 2 * idle(s.fibers),
{
    if queue.len() == 0 {
        assert(queue =~= Seq::empty());
    } else {
        let t = queue[0];
        let rest = queue.drop_first();
        assert(queue[0].kind is Unload);
        let i = choose|i: int|
            0 <= i < chain.len() && #[trigger] link(start.fibers, chain, i) == t.fiber;
        let waiting = waiting_too(s, t);
        waiting_keeps_on(start, s, chain, queue);
        withdrawing_keeps_on(start, waiting, chain, rest, i);
        withdrawn_idle(waiting, t.fiber);
        let w = withdrawn(waiting, t.fiber);
        let more = rest + withdrawn_work(waiting, t.fiber);
        assert(slotless(start, w, chain)) by {
            assert forall|u: TransitionModel, key: ProviderKeyModel| #[trigger]
                w.blocked.contains(u) && is_link(start.fibers, chain, u.fiber) && #[trigger]
                w.providers.dom().contains(key) implies w.providers[key] != u.fiber by {
                assert(s.providers.dom().contains(key));
                if u != t {
                    assert(s.blocked.contains(u));
                }
            }
        }
        draining_keeps_on(start, w, chain, more, ready);
    }
}

/// Once everything is worked off, all of the chain unloads.
proof fn all_unload(start: SupervisorModel, end: SupervisorModel, chain: Seq<int>, i: int)
    requires
        base(start, chain),
        on_its_way(start, end, chain, Seq::empty()),
        slotless(start, end, chain),
        0 <= i < chain.len(),
        start.fibers[chain[0]].machine.active is Some,
        start.fibers[chain[0]].retired,
    ensures
        ({
            let m = end.fibers[chain[i]].machine;
            &&& m.state is Unloading
            &&& m.active is Some
            &&& m.active->Some_0.kind is Unload
            &&& m.active->Some_0.fiber == end.fibers[chain[i]].id
            &&& end.blocked.contains(m.active->Some_0)
            &&& m.desired == if i == 0 {
                DesiredModel::Retired
            } else {
                DesiredModel::Waiting
            }
        }),
    decreases i,
{
    let c = chain[i];
    let r = end.fibers[c];
    assert(chain.contains(c));
    assert(kept(start.fibers[c], r, true));
    assert(record_valid(r, end.next_fiber));
    assert(reconciled(end.fibers)[c] == r);
    settled_starts_nothing(end.fibers, c);
    if i > 0 {
        all_unload(start, end, chain, i - 1);
        let p = chain[i - 1];
        assert(chain.contains(p));
        assert(kept(start.fibers[p], end.fibers[p], true));
        let id = link(start.fibers, chain, i - 1);
        let u = end.fibers[p].machine.active->Some_0;
        assert(is_link(start.fibers, chain, u.fiber));
        let was = start.fibers[chain[i]];
        assert(requires_from(was, link(start.fibers, chain, i - 1)));
        let e = choose|e: int|
            0 <= e < was.desired.len() && (#[trigger] was.desired[e]).provider == Some(id)
                && was.desired[e].requirement is Required;
        assert(record_current(was, start.providers));
        assert(record_current(r, end.providers));
        let key = r.desired[e].key;
        if end.providers.dom().contains(key) {
            assert(end.blocked.contains(u) && end.providers.dom().contains(key));
            assert(start.providers[key] == id);
        }
        assert(missing(r.desired[e]));
    }
    let none = Seq::<TransitionModel>::empty();
    assert(end.fibers[chain[i]].machine.active is Some);
    assert(!none.contains(r.machine.active->Some_0));
}

/// Active fibers of which each but the first was loaded against the one before it and cannot do
/// without it. Nobody but those behind it was loaded against any of them, and no other active
/// fiber selects any of them. Whoever waits already is held up by others.
pub open spec fn chained(s: SupervisorModel, chain: Seq<int>) -> bool {
    &&& quiet(s)
    &&& positions(s.fibers, chain)
    &&& chain.len() > 0
    &&& forall|i: int|
        0 <= i < chain.len() ==> (#[trigger] s.fibers[chain[i]]).machine.state is Active
    &&& forall|i: int|
        0 < i < chain.len() ==> requires_from(
            #[trigger] s.fibers[chain[i]],
            link(s.fibers, chain, i - 1),
        )
    &&& forall|i: int, j: int|
        0 <= i < chain.len() && 0 <= j < s.fibers.len() && !chain.contains(j) && selects_from(
            #[trigger] s.fibers[j],
            #[trigger] link(s.fibers, chain, i),
        ) ==> !(s.fibers[j].machine.state is Active)
    &&& loaded_in_turn(s.fibers, chain, chain.len())
    &&& used_in_turn(s.fibers, chain, chain.len())
    &&& forall|t: TransitionModel| #[trigger]
        s.blocked.contains(t) ==> held_outside(s.fibers, chain, t.fiber)
}

/// An active fiber of a quiet graph is not retired, is configured and lies on no cycle.
proof fn active_is_free(s: SupervisorModel, i: int)
    requires
        quiet(s),
        0 <= i < s.fibers.len(),
        s.fibers[i].machine.state is Active,
    ensures
        s.fibers[i].machine.active is None,
        !s.fibers[i].retired,
        s.fibers[i].context is Some,
        !reaches(dependency(s.fibers), i, i),
{
    assert(record_valid(s.fibers[i], s.next_fiber));
    assert(reconciled(s.fibers)[i] == s.fibers[i]);
    settled_starts_nothing(s.fibers, i);
}

/// Marking the first fiber of a chain retired.
proof fn marked_base(s: SupervisorModel, chain: Seq<int>)
    requires
        chained(s, chain),
        generations_left(s.fibers),
    ensures
        ({
            let start = marked(s, link(s.fibers, chain, 0));
            let t = next_transition(s.fibers[chain[0]].machine, KindModel::Unload);
            &&& base(start, chain)
            &&& on_its_way(start, start, chain, seq![t])
            &&& start.blocked == s.blocked
            &&& start.fibers.len() == s.fibers.len()
            &&& start.fibers[chain[0]].retired
            &&& start.fibers[chain[0]].machine.active == Some(t)
            &&& start.fibers[chain[0]].id == s.fibers[chain[0]].id
            &&& start.fibers[chain[0]].committed == s.fibers[chain[0]].committed
            &&& forall|j: int|
                0 <= j < s.fibers.len() && j != chain[0] ==> #[trigger] start.fibers[j]
                    == s.fibers[j]
        }),
{
    let at = chain[0];
    let fiber = link(s.fibers, chain, 0);
    marking_keeps_quiet(s, at);
    let start = marked(s, fiber);
    let t = next_transition(s.fibers[at].machine, KindModel::Unload);
    assert(dependency(start.fibers) =~= dependency(s.fibers)) by {
        assert forall|a: int, b: int| #[trigger] dependency(start.fibers)(a, b) == dependency(
            s.fibers,
        )(a, b) by {
            if 0 <= a < s.fibers.len() && 0 <= b < s.fibers.len() {
                assert(start.fibers[a].desired == s.fibers[a].desired && start.fibers[b].id
                    == s.fibers[b].id);
            }
        }
    }
    assert forall|i: int| 0 <= i < chain.len() implies #[trigger] link(start.fibers, chain, i)
        == link(s.fibers, chain, i) by {}
    assert forall|i: int| 0 <= i < chain.len() implies up_or_leaving(
        (#[trigger] start.fibers[chain[i]]).machine,
    ) && !reaches(dependency(start.fibers), chain[i], chain[i]) by {
        assert(s.fibers[chain[i]].machine.state is Active);
        active_is_free(s, chain[i]);
    }
    assert forall|i: int| 0 < i < chain.len() implies requires_from(
        #[trigger] start.fibers[chain[i]],
        link(start.fibers, chain, i - 1),
    ) && !start.fibers[chain[i]].retired && start.fibers[chain[i]].context is Some by {
        assert(chain[i] != chain[0]);
        assert(start.fibers[chain[i]] == s.fibers[chain[i]]);
        assert(s.fibers[chain[i]].machine.state is Active);
        active_is_free(s, chain[i]);
        assert(link(start.fibers, chain, i - 1) == link(s.fibers, chain, i - 1));
    }
    assert forall|i: int, j: int|
        0 <= i < chain.len() && 0 <= j < start.fibers.len() && !chain.contains(j) && selects_from(
            #[trigger] start.fibers[j],
            #[trigger] link(start.fibers, chain, i),
        ) implies !(start.fibers[j].machine.state is Active) by {
        assert(chain.contains(chain[0]));
        assert(start.fibers[j] == s.fibers[j]);
        assert(link(start.fibers, chain, i) == link(s.fibers, chain, i));
    }
    let queue = seq![t];
    assert(queue[0] == t);
    assert(link(start.fibers, chain, 0) == t.fiber) by {
        assert(record_valid(s.fibers[at], s.next_fiber));
    }
    assert forall|i: int|
        0 <= i < chain.len() && (
        #[trigger] start.fibers[chain[i]]).machine.active is Some implies queue.contains(
        start.fibers[chain[i]].machine.active->Some_0,
    ) by {
        if i > 0 {
            assert(chain[i] != chain[0]);
            assert(s.fibers[chain[i]].machine.state is Active);
            active_is_free(s, chain[i]);
        }
    }
    assert forall|j: int| 0 <= j < start.fibers.len() implies kept(
        start.fibers[j],
        #[trigger] start.fibers[j],
        chain.contains(j),
    ) by {
        if chain.contains(j) {
            let b = choose|b: int| 0 <= b < chain.len() && chain[b] == j;
            assert(up_or_leaving(start.fibers[chain[b]].machine));
        }
    }
}

/// What retiring the first fiber of a chain comes to, before it is scheduled.
proof fn retiring_drains(s: SupervisorModel, chain: Seq<int>)
    requires
        chained(s, chain),
        generations_left(s.fibers),
    ensures
        ({
            let fiber = link(s.fibers, chain, 0);
            let start = marked(s, fiber);
            let (end, found) = drained(
                withdrawn(start, fiber),
                retirement_work(s, fiber),
                Seq::empty(),
            );
            &&& known(s.fibers, fiber)
            &&& found == Seq::<TransitionModel>::empty()
            &&& on_its_way(start, end, chain, Seq::empty())
            &&& slotless(start, end, chain)
        }),
{
    let at = chain[0];
    let fiber = link(s.fibers, chain, 0);
    marked_base(s, chain);
    marking_keeps_quiet(s, at);
    let start = marked(s, fiber);
    let t = next_transition(s.fibers[at].machine, KindModel::Unload);
    assert(link(start.fibers, chain, 0) == fiber);
    withdrawing_keeps_on(start, start, chain, seq![t], 0);
    let w = withdrawn(start, fiber);
    let added = withdrawn_work(start, fiber);
    let queue = retirement_work(s, fiber);
    assert(queue =~= added + seq![t]);
    queue_swapped(w, seq![t], added);
    let turned = seq![t] + added;
    assert forall|u: TransitionModel| turned.contains(u) implies #[trigger] queue.contains(u) by {
        let k = choose|k: int| 0 <= k < turned.len() && turned[k] == u;
        if k == 0 {
            assert(queue[added.len() as int] == u);
        } else {
            assert(queue[k - 1] == u);
        }
    }
    assert forall|k: int| 0 <= k < queue.len() implies (#[trigger] queue[k]).kind is Unload
        && is_link(start.fibers, chain, queue[k].fiber) by {
        if k < added.len() {
            assert(queue[k] == turned[k + 1]);
        } else {
            assert(queue[k] == turned[0]);
        }
    }
    assert(on_its_way(start, w, chain, queue)) by {
        assert forall|i: int|
            0 <= i < chain.len() && (
            #[trigger] w.fibers[chain[i]]).machine.active is Some implies queue.contains(
            w.fibers[chain[i]].machine.active->Some_0,
        ) || w.blocked.contains(w.fibers[chain[i]].machine.active->Some_0) by {
            let u = w.fibers[chain[i]].machine.active->Some_0;
            if turned.contains(u) {
                assert(queue.contains(u));
            }
        }
    }
    assert(slotless(start, w, chain)) by {
        assert forall|u: TransitionModel, key: ProviderKeyModel| #[trigger]
            w.blocked.contains(u) && is_link(start.fibers, chain, u.fiber) && #[trigger]
            w.providers.dom().contains(key) implies w.providers[key] != u.fiber by {
            assert(s.blocked.contains(u));
            assert(held_outside(s.fibers, chain, u.fiber));
            let i = choose|i: int|
                0 <= i < chain.len() && #[trigger] link(start.fibers, chain, i) == u.fiber;
            assert(link(s.fibers, chain, i) == u.fiber);
        }
    }
    draining_keeps_on(start, w, chain, queue, Seq::empty());
}

/// A chain whose first fiber retires is on its way out once everything is worked off, and all of
/// it waits.
proof fn chain_waits(s: SupervisorModel, start: SupervisorModel, end: SupervisorModel, chain: Seq<int>)
    requires
        chained(s, chain),
        generations_left(s.fibers),
        start == marked(s, link(s.fibers, chain, 0)),
        on_its_way(start, end, chain, Seq::empty()),
        slotless(start, end, chain),
    ensures
        end.fibers.len() == s.fibers.len(),
        forall|i: int|
            0 <= i < chain.len() ==> #[trigger] link(end.fibers, chain, i) == link(
                s.fibers,
                chain,
                i,
            ),
        forall|j: int|
            0 <= j < s.fibers.len() && !chain.contains(j) ==> (#[trigger] end.fibers[j]).committed
                == s.fibers[j].committed && end.fibers[j].machine.state
                == s.fibers[j].machine.state && end.fibers[j].machine.active
                == s.fibers[j].machine.active,
        positions(end.fibers, chain),
        unloading(end.fibers, chain, chain.len()),
        loaded_in_turn(end.fibers, chain, chain.len()),
        used_in_turn(end.fibers, chain, chain.len()),
        waiting_in_turn(end, chain, chain.len() as int),
        forall|t: TransitionModel| #[trigger]
            s.blocked.contains(t) ==> end.blocked.contains(t) && held_outside(
                end.fibers,
                chain,
                t.fiber,
            ),
{
    let n = chain.len();
    let fibers = end.fibers;
    marked_base(s, chain);
    assert forall|j: int| 0 <= j < s.fibers.len() implies (#[trigger] fibers[j]).id
        == s.fibers[j].id && fibers[j].committed == s.fibers[j].committed && (!chain.contains(j)
        ==> fibers[j].machine.state == s.fibers[j].machine.state && fibers[j].machine.active
        == s.fibers[j].machine.active) by {
        assert(kept(start.fibers[j], fibers[j], chain.contains(j)));
        assert(chain.contains(chain[0]));
        if j != chain[0] {
            assert(start.fibers[j] == s.fibers[j]);
        }
    }
    assert forall|i: int| 0 <= i < n implies #[trigger] link(fibers, chain, i) == link(
        s.fibers,
        chain,
        i,
    ) by {}
    assert forall|i: int| 0 <= i < n implies ({
        let r = #[trigger] fibers[chain[i]];
        &&& r.machine.state is Unloading
        &&& r.machine.active is Some
        &&& r.machine.active->Some_0.kind is Unload
        &&& r.machine.active->Some_0.fiber == r.id
        &&& end.blocked.contains(r.machine.active->Some_0)
        &&& r.machine.desired == if i == 0 {
            DesiredModel::Retired
        } else {
            DesiredModel::Waiting
        }
    }) by {
        all_unload(start, end, chain, i);
    }
    assert forall|i: int| 0 < i < n implies committed_to(
        #[trigger] fibers[chain[i]],
        link(fibers, chain, i - 1),
    ) by {
        assert(committed_to(s.fibers[chain[i]], link(s.fibers, chain, i - 1)));
        assert(fibers[chain[i]].committed == s.fibers[chain[i]].committed);
        assert(link(fibers, chain, i - 1) == link(s.fibers, chain, i - 1));
    }
    assert forall|i: int, j: int|
        0 <= i < n && 0 <= j < fibers.len() && consumes(
            #[trigger] fibers[j],
            #[trigger] link(fibers, chain, i),
        ) implies between(chain, i, n as int, j) by {
        assert(link(fibers, chain, i) == link(s.fibers, chain, i));
        assert(fibers[j].committed == s.fibers[j].committed);
        if chain.contains(j) {
            let b = choose|b: int| 0 <= b < chain.len() && chain[b] == j;
            assert(s.fibers[chain[b]].machine.state is Active);
        }
        assert(consumes(s.fibers[j], link(s.fibers, chain, i)));
    }
    assert forall|t: TransitionModel| #[trigger]
        s.blocked.contains(t) implies end.blocked.contains(t) && held_outside(
        fibers,
        chain,
        t.fiber,
    ) by {
        outside_stays(s.fibers, fibers, chain, t.fiber);
    }
    assert forall|i: int, t: TransitionModel|
        0 <= i < n && #[trigger] waits_at(end, chain, t, i) implies end.blocked.contains(t) by {
        assert(fibers[chain[i]].machine.active->Some_0 == t);
    }
    assert forall|t: TransitionModel| #[trigger] end.blocked.contains(t) implies held_outside(
        fibers,
        chain,
        t.fiber,
    ) || exists|i: int| 0 <= i < n && #[trigger] waits_at(end, chain, t, i) by {
        if !s.blocked.contains(t) {
            let i = choose|i: int|
                0 <= i < chain.len() && #[trigger] link(start.fibers, chain, i) == t.fiber;
            let k = choose|k: int| 0 <= k < end.blocked.len() && end.blocked[k] == t;
            assert(running(fibers, end.blocked[k]));
            let j = choose|j: int| #[trigger]
                fiber_at(fibers, t.fiber, j) && fibers[j].machine.active == Some(t);
            assert(fiber_at(fibers, t.fiber, chain[i]));
            index_of_is(fibers, t.fiber, j);
            index_of_is(fibers, t.fiber, chain[i]);
            assert(waits_at(end, chain, t, i));
        }
    }
}

/// Retiring the first fiber of a chain of consumers makes all of them unload, but lets only the
/// last one go: the others wait, each for those behind it. Whoever waited before keeps waiting,
/// and no fiber outside the chain changes its state. From there on the chain leaves one by one.
pub proof fn retiring_lets_the_end_go(s: SupervisorModel, chain: Seq<int>)
    requires
        chained(s, chain),
        generations_left(s.fibers),
    ensures
        ({
            let retire = CommandModel::RetireFiber { fiber: link(s.fibers, chain, 0) };
            let then = obeyed(s, retire);
            let last = chain.len() - 1;
            &&& refusal(s, retire) is None
            &&& leaving(then, chain, chain.len())
            &&& forall|i: int|
                0 <= i < chain.len() ==> #[trigger] link(then.fibers, chain, i) == link(
                    s.fibers,
                    chain,
                    i,
                )
            &&& forall|j: int|
                0 <= j < s.fibers.len() && !chain.contains(j) ==> (
                #[trigger] then.fibers[j]).committed == s.fibers[j].committed
                    && then.fibers[j].machine.state == s.fibers[j].machine.state
                    && then.fibers[j].machine.active == s.fibers[j].machine.active
            &&& then.fibers.len() == s.fibers.len()
            &&& forall|t: TransitionModel|
                s.blocked.contains(t) ==> #[trigger] then.blocked.contains(t)
            &&& work(s, retire) == seq![then.fibers[chain[last]].machine.active->Some_0]
        }),
{
    let fiber = link(s.fibers, chain, 0);
    let retire = CommandModel::RetireFiber { fiber };
    let none = Seq::<TransitionModel>::empty();
    retiring_drains(s, chain);
    let start = marked(s, fiber);
    let (end, found) = drained(withdrawn(start, fiber), retirement_work(s, fiber), none);
    commands_keep_the_graph_valid(s, retire);
    chain_waits(s, start, end, chain);
    last_is_let_go(end.fibers, end, chain, chain.len());
    let let_go = released(end.fibers, end.blocked, end.blocked.len());
    assert(none + let_go =~= let_go);
}

} // verus!
