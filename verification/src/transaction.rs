//! What carrying out the steps of a reconciliation amounts to.
use crate::entry::{
    active, outermost, passed_on, resolution, resolved_entry, visited, visited_all, EntryModel,
    Inherited, ResolvedEntryModel,
};
use crate::likeness::alike;
use crate::order::{sorted, text_less_irreflexive};
use crate::text::text_less;
use crate::tree::{
    all_levels, at_depth, carried_over, depths, inside_out, inverse, outside_in, picks, starts,
    steps, stops, undo, updates, OperationModel,
};
use vstd::prelude::*;

verus! {

/// Entries by identifier.
pub type Entries = Map<Seq<char>, ResolvedEntryModel>;

/// The entries of a tree that run.
pub open spec fn running(entries: Entries) -> Entries {
    Map::new(
        |id: Seq<char>| entries.dom().contains(id) && active(entries[id]),
        |id: Seq<char>| entries[id],
    )
}

/// What runs after a step.
pub open spec fn performed(now: Entries, op: OperationModel) -> Entries {
    match op {
        OperationModel::Stop(entry) => now.remove(entry.spec.id),
        OperationModel::Update { previous, next } => now.insert(next.spec.id, next),
        OperationModel::Start(entry) => now.insert(entry.spec.id, entry),
    }
}

/// A step fits what runs: only what runs is stopped or updated, and nothing is started twice.
pub open spec fn possible(now: Entries, op: OperationModel) -> bool {
    match op {
        OperationModel::Stop(entry) => now.dom().contains(entry.spec.id) && now[entry.spec.id]
            == entry,
        OperationModel::Update { previous, next } => previous.spec.id == next.spec.id
            && now.dom().contains(previous.spec.id) && now[previous.spec.id] == previous,
        OperationModel::Start(entry) => !now.dom().contains(entry.spec.id),
    }
}

/// What runs after all steps.
pub open spec fn performed_all(now: Entries, ops: Seq<OperationModel>) -> Entries
    decreases ops.len(),
{
    if ops.len() == 0 {
        now
    } else {
        performed(performed_all(now, ops.drop_last()), ops.last())
    }
}

/// Every step fits what runs when its turn comes.
pub open spec fn possible_all(now: Entries, ops: Seq<OperationModel>) -> bool
    decreases ops.len(),
{
    ops.len() == 0 || possible_all(now, ops.drop_last()) && possible(
        performed_all(now, ops.drop_last()),
        ops.last(),
    )
}

/// Every entry is listed under its own identifier.
pub open spec fn keyed(entries: Entries) -> bool {
    forall|id: Seq<char>| #[trigger] entries.dom().contains(id) ==> entries[id].spec.id == id
}

/// The identifiers of entries, in order.
pub open spec fn listed(keys: Seq<Seq<char>>, entries: Entries) -> bool {
    sorted(keys) && forall|id: Seq<char>| #[trigger]
        keys.contains(id) <==> entries.dom().contains(id)
}

proof fn one_after_another(now: Entries, a: Seq<OperationModel>, b: Seq<OperationModel>)
    ensures
        performed_all(now, a + b) == performed_all(performed_all(now, a), b),
        possible_all(now, a + b) == (possible_all(now, a) && possible_all(
            performed_all(now, a),
            b,
        )),
    decreases b.len(),
{
    if b.len() == 0 {
        assert(a + b =~= a);
    } else {
        assert((a + b).drop_last() =~= a + b.drop_last());
        assert((a + b).last() == b.last());
        one_after_another(now, a, b.drop_last());
    }
}

/// A step that fits can be taken back, and then everything is as before.
proof fn one_step_back(now: Entries, op: OperationModel)
    requires
        possible(now, op),
    ensures
        possible(performed(now, op), inverse(op)),
        performed(performed(now, op), inverse(op)) == now,
{
    assert(performed(performed(now, op), inverse(op)) =~= now);
}

/// Rolling back the steps that were done is possible, and everything runs as before.
pub proof fn rollback_restores(now: Entries, ops: Seq<OperationModel>, done: nat)
    requires
        possible_all(now, ops),
        done <= ops.len(),
    ensures
        possible_all(performed_all(now, ops.take(done as int)), undo(ops, done)),
        performed_all(performed_all(now, ops.take(done as int)), undo(ops, done)) == now,
    decreases done,
{
    let front = ops.take(done as int);
    prefix_possible(now, ops, done);
    if done == 0 {
        assert(undo(ops, done) =~= Seq::empty());
        assert(front =~= Seq::empty());
    } else {
        let op = ops[done - 1];
        let before = ops.take(done - 1);
        assert(front.drop_last() =~= before);
        assert(front.last() == op);
        one_step_back(performed_all(now, before), op);
        rollback_restores(now, ops, (done - 1) as nat);
        let first = seq![inverse(op)];
        assert(undo(ops, done) =~= first + undo(ops, (done - 1) as nat));
        let here = performed_all(now, front);
        one_after_another(here, first, undo(ops, (done - 1) as nat));
        let none = Seq::<OperationModel>::empty();
        assert(first.drop_last() =~= none);
        assert(performed_all(here, none) == here && possible_all(here, none));
        assert(first.last() == inverse(op) && first.len() == 1);
        assert(here == performed(performed_all(now, before), op));
        assert(performed_all(here, first) == performed(here, inverse(op)));
        assert(possible(performed_all(here, first.drop_last()), first.last()));
        assert(possible_all(here, first));
    }
}

proof fn prefix_possible(now: Entries, ops: Seq<OperationModel>, n: nat)
    requires
        possible_all(now, ops),
        n <= ops.len(),
    ensures
        possible_all(now, ops.take(n as int)),
    decreases ops.len(),
{
    if n == ops.len() {
        assert(ops.take(n as int) =~= ops);
    } else {
        prefix_possible(now, ops.drop_last(), n);
        assert(ops.drop_last().take(n as int) =~= ops.take(n as int));
    }
}

// ---------------------------------------------------------------------------------------------
// Which positions a plan touches
// ---------------------------------------------------------------------------------------------

proof fn picks_exactly(n: nat, p: spec_fn(int) -> bool)
    ensures
        forall|x: int| #[trigger] picks(n, p).contains(x) <==> 0 <= x < n && p(x),
        picks(n, p).no_duplicates(),
    decreases n,
{
    let all = picks(n, p);
    if n > 0 {
        picks_exactly((n - 1) as nat, p);
        let before = picks((n - 1) as nat, p);
        assert forall|x: int| #[trigger] all.contains(x) <==> 0 <= x < n && p(x) by {
            extended(before, n - 1, x);
        }
        if p(n - 1) {
            assert(!before.contains(n - 1));
            no_duplicates_with(before, n - 1);
        }
    }
}

proof fn extended(before: Seq<int>, item: int, x: int)
    ensures
        before.push(item).contains(x) <==> before.contains(x) || x == item,
{
    let all = before.push(item);
    if before.contains(x) {
        let k = choose|k: int| 0 <= k < before.len() && before[k] == x;
        assert(all[k] == x);
    }
    if all.contains(x) {
        let k = choose|k: int| 0 <= k < all.len() && all[k] == x;
        if k < before.len() {
            assert(before[k] == x);
        }
    }
    assert(all[before.len() as int] == item);
}

proof fn no_duplicates_with(before: Seq<int>, item: int)
    requires
        before.no_duplicates(),
        !before.contains(item),
    ensures
        before.push(item).no_duplicates(),
{
    let all = before.push(item);
    assert forall|i: int, j: int|
        0 <= i < all.len() && 0 <= j < all.len() && i != j implies all[i] != all[j] by {
        if i < before.len() {
            assert(before.contains(all[i]));
        }
        if j < before.len() {
            assert(before.contains(all[j]));
        }
    }
}

proof fn level_exactly(positions: Seq<int>, depth: spec_fn(int) -> usize, d: int, n: nat)
    requires
        positions.no_duplicates(),
        n <= positions.len(),
    ensures
        forall|x: int| #[trigger]
            at_depth(positions, depth, d, n).contains(x) <==> positions.take(n as int).contains(x)
                && depth(x) == d,
        at_depth(positions, depth, d, n).no_duplicates(),
    decreases n,
{
    let all = at_depth(positions, depth, d, n);
    if n > 0 {
        level_exactly(positions, depth, d, (n - 1) as nat);
        let before = at_depth(positions, depth, d, (n - 1) as nat);
        let item = positions[n - 1];
        assert(positions.take(n as int) =~= positions.take(n - 1).push(item));
        assert(!positions.take(n - 1).contains(item));
        assert forall|x: int| #[trigger]
            all.contains(x) <==> positions.take(n as int).contains(x) && depth(x) == d by {
            extended(before, item, x);
            extended(positions.take(n - 1), item, x);
        }
        if depth(item) == d {
            no_duplicates_with(before, item);
        }
    }
}

proof fn joined_exactly(a: Seq<int>, b: Seq<int>)
    requires
        a.no_duplicates(),
        b.no_duplicates(),
        forall|x: int| #[trigger] a.contains(x) ==> !b.contains(x),
    ensures
        (a + b).no_duplicates(),
        forall|x: int| #[trigger] (a + b).contains(x) <==> a.contains(x) || b.contains(x),
{
    let all = a + b;
    assert forall|x: int| #[trigger] all.contains(x) <==> a.contains(x) || b.contains(x) by {
        if a.contains(x) {
            let k = choose|k: int| 0 <= k < a.len() && a[k] == x;
            assert(all[k] == x);
        }
        if b.contains(x) {
            let k = choose|k: int| 0 <= k < b.len() && b[k] == x;
            assert(all[a.len() + k] == x);
        }
        if all.contains(x) {
            let k = choose|k: int| 0 <= k < all.len() && all[k] == x;
            if k < a.len() {
                assert(a[k] == x);
            } else {
                assert(b[k - a.len()] == x);
            }
        }
    }
    assert forall|i: int, j: int|
        0 <= i < all.len() && 0 <= j < all.len() && i != j implies all[i] != all[j] by {
        if i < a.len() {
            assert(a.contains(all[i]));
        } else {
            assert(b[i - a.len()] == all[i]);
            assert(b.contains(all[i]));
        }
        if j < a.len() {
            assert(a.contains(all[j]));
        } else {
            assert(b[j - a.len()] == all[j]);
            assert(b.contains(all[j]));
        }
    }
}

proof fn levels_exactly(positions: Seq<int>, depth: spec_fn(int) -> usize, top: nat)
    requires
        positions.no_duplicates(),
    ensures
        outside_in(positions, depth, top).no_duplicates(),
        inside_out(positions, depth, top).no_duplicates(),
        forall|x: int| #[trigger]
            outside_in(positions, depth, top).contains(x) <==> positions.contains(x) && depth(x)
                < top,
        forall|x: int| #[trigger]
            inside_out(positions, depth, top).contains(x) <==> positions.contains(x) && depth(x)
                < top,
    decreases top,
{
    if top > 0 {
        levels_exactly(positions, depth, (top - 1) as nat);
        level_exactly(positions, depth, top - 1, positions.len());
        assert(positions.take(positions.len() as int) =~= positions);
        let this = at_depth(positions, depth, top - 1, positions.len());
        joined_exactly(outside_in(positions, depth, (top - 1) as nat), this);
        joined_exactly(this, inside_out(positions, depth, (top - 1) as nat));
    }
}

/// The positions of a kind, ordered by level either way, are all of that kind, each once.
proof fn planned_exactly(n: nat, p: spec_fn(int) -> bool, depth: spec_fn(int) -> usize)
    ensures
        outside_in(picks(n, p), depth, all_levels()).no_duplicates(),
        inside_out(picks(n, p), depth, all_levels()).no_duplicates(),
        forall|x: int| #[trigger]
            outside_in(picks(n, p), depth, all_levels()).contains(x) <==> 0 <= x < n && p(x),
        forall|x: int| #[trigger]
            inside_out(picks(n, p), depth, all_levels()).contains(x) <==> 0 <= x < n && p(x),
{
    picks_exactly(n, p);
    levels_exactly(picks(n, p), depth, all_levels());
}

// ---------------------------------------------------------------------------------------------
// The three phases of a plan
// ---------------------------------------------------------------------------------------------

proof fn keys_differ(keys: Seq<Seq<char>>, i: int, j: int)
    requires
        sorted(keys),
        0 <= i < keys.len(),
        0 <= j < keys.len(),
        keys[i] == keys[j],
    ensures
        i == j,
{
    text_less_irreflexive(keys[i]);
    if i < j {
        assert(text_less(keys[i], keys[j]));
    } else if j < i {
        assert(text_less(keys[j], keys[i]));
    }
}

/// The steps that stop the entries at some positions.
pub open spec fn stopping(keys: Seq<Seq<char>>, entries: Entries, at: Seq<int>) -> Seq<
    OperationModel,
> {
    Seq::new(at.len(), |i: int| OperationModel::Stop(entries[keys[at[i]]]))
}

/// The steps that update the entries at some positions.
pub open spec fn updating(
    keys: Seq<Seq<char>>,
    entries: Entries,
    next: Entries,
    at: Seq<int>,
) -> Seq<OperationModel> {
    Seq::new(
        at.len(),
        |i: int|
            OperationModel::Update { previous: entries[keys[at[i]]], next: next[keys[at[i]]] },
    )
}

/// The steps that start the entries at some positions.
pub open spec fn starting(keys: Seq<Seq<char>>, next: Entries, at: Seq<int>) -> Seq<
    OperationModel,
> {
    Seq::new(at.len(), |i: int| OperationModel::Start(next[keys[at[i]]]))
}

/// An identifier is among those at some positions.
pub open spec fn touched(keys: Seq<Seq<char>>, at: Seq<int>, id: Seq<char>) -> bool {
    exists|k: int| 0 <= k < at.len() && keys[#[trigger] at[k]] == id
}

proof fn touched_last(keys: Seq<Seq<char>>, at: Seq<int>, id: Seq<char>)
    requires
        at.len() > 0,
    ensures
        touched(keys, at, id) <==> touched(keys, at.drop_last(), id) || keys[at.last()] == id,
{
    if touched(keys, at, id) {
        let k = choose|k: int| 0 <= k < at.len() && keys[#[trigger] at[k]] == id;
        if k < at.len() - 1 {
            assert(at.drop_last()[k] == at[k]);
        }
    }
    if touched(keys, at.drop_last(), id) {
        let k = choose|k: int|
            0 <= k < at.drop_last().len() && keys[#[trigger] at.drop_last()[k]] == id;
        assert(at[k] == at.drop_last()[k]);
    }
}

proof fn fresh_last(keys: Seq<Seq<char>>, at: Seq<int>)
    requires
        sorted(keys),
        at.len() > 0,
        at.no_duplicates(),
        forall|k: int| 0 <= k < at.len() ==> 0 <= #[trigger] at[k] < keys.len(),
    ensures
        !touched(keys, at.drop_last(), keys[at.last()]),
        at.drop_last().no_duplicates(),
        forall|k: int|
            0 <= k < at.drop_last().len() ==> 0 <= #[trigger] at.drop_last()[k] < keys.len(),
{
    let rest = at.drop_last();
    assert forall|k: int| 0 <= k < rest.len() implies 0 <= #[trigger] rest[k] < keys.len() by {
        assert(rest[k] == at[k]);
    }
    assert forall|i: int, j: int|
        0 <= i < rest.len() && 0 <= j < rest.len() && i != j implies rest[i] != rest[j] by {
        assert(rest[i] == at[i] && rest[j] == at[j]);
    }
    if touched(keys, rest, keys[at.last()]) {
        let k = choose|k: int| 0 <= k < rest.len() && keys[#[trigger] rest[k]] == keys[at.last()];
        assert(rest[k] == at[k]);
        keys_differ(keys, at[k], at.last());
        assert(at[k] != at[at.len() - 1]);
    }
}

proof fn stopping_removes(now: Entries, keys: Seq<Seq<char>>, entries: Entries, at: Seq<int>)
    requires
        sorted(keys),
        at.no_duplicates(),
        forall|k: int|
            0 <= k < at.len() ==> 0 <= #[trigger] at[k] < keys.len() && now.dom().contains(
                keys[at[k]],
            ) && now[keys[at[k]]] == entries[keys[at[k]]] && entries[keys[at[k]]].spec.id
                == keys[at[k]],
    ensures
        possible_all(now, stopping(keys, entries, at)),
        ({
            let after = performed_all(now, stopping(keys, entries, at));
            &&& forall|id: Seq<char>| #[trigger]
                after.dom().contains(id) <==> now.dom().contains(id) && !touched(keys, at, id)
            &&& forall|id: Seq<char>| #[trigger] after.dom().contains(id) ==> after[id] == now[id]
        }),
    decreases at.len(),
{
    let ops = stopping(keys, entries, at);
    if at.len() > 0 {
        let rest = at.drop_last();
        fresh_last(keys, at);
        assert forall|k: int| 0 <= k < rest.len() implies 0 <= #[trigger] rest[k] < keys.len()
            && now.dom().contains(keys[rest[k]]) && now[keys[rest[k]]] == entries[keys[rest[k]]]
            && entries[keys[rest[k]]].spec.id == keys[rest[k]] by {
            assert(rest[k] == at[k]);
        }
        stopping_removes(now, keys, entries, rest);
        assert(ops.drop_last() =~= stopping(keys, entries, rest));
        let item = at[at.len() - 1];
        assert(ops.last() == OperationModel::Stop(entries[keys[item]]));
        assert forall|id: Seq<char>|
            touched(keys, at, id) <==> #[trigger] touched(keys, rest, id) || keys[at.last()]
                == id by {
            touched_last(keys, at, id);
        }
        let before = performed_all(now, ops.drop_last());
        let after = performed_all(now, ops);
        assert(before.dom().contains(keys[item]));
        assert(after == before.remove(keys[item]));
        assert forall|id: Seq<char>| #[trigger] after.dom().contains(id) <==> now.dom().contains(id)
            && !touched(keys, at, id) by {
            touched_last(keys, at, id);
        }
    }
}

proof fn updating_replaces(
    now: Entries,
    keys: Seq<Seq<char>>,
    entries: Entries,
    next: Entries,
    at: Seq<int>,
)
    requires
        sorted(keys),
        at.no_duplicates(),
        forall|k: int|
            0 <= k < at.len() ==> 0 <= #[trigger] at[k] < keys.len() && now.dom().contains(
                keys[at[k]],
            ) && now[keys[at[k]]] == entries[keys[at[k]]] && entries[keys[at[k]]].spec.id
                == keys[at[k]] && next[keys[at[k]]].spec.id == keys[at[k]],
    ensures
        possible_all(now, updating(keys, entries, next, at)),
        ({
            let after = performed_all(now, updating(keys, entries, next, at));
            &&& after.dom() =~= now.dom()
            &&& forall|id: Seq<char>| #[trigger]
                after.dom().contains(id) ==> after[id] == if touched(keys, at, id) {
                    next[id]
                } else {
                    now[id]
                }
        }),
    decreases at.len(),
{
    let ops = updating(keys, entries, next, at);
    if at.len() > 0 {
        let rest = at.drop_last();
        fresh_last(keys, at);
        assert forall|k: int| 0 <= k < rest.len() implies 0 <= #[trigger] rest[k] < keys.len()
            && now.dom().contains(keys[rest[k]]) && now[keys[rest[k]]] == entries[keys[rest[k]]]
            && entries[keys[rest[k]]].spec.id == keys[rest[k]] && next[keys[rest[k]]].spec.id
            == keys[rest[k]] by {
            assert(rest[k] == at[k]);
        }
        updating_replaces(now, keys, entries, next, rest);
        assert(ops.drop_last() =~= updating(keys, entries, next, rest));
        let item = at[at.len() - 1];
        let id0 = keys[item];
        assert(now.dom().contains(id0) && now[id0] == entries[id0]);
        assert(ops.last() == (OperationModel::Update { previous: entries[id0], next: next[id0] }));
        let before = performed_all(now, ops.drop_last());
        let after = performed_all(now, ops);
        assert(before.dom().contains(id0));
        assert(after == before.insert(id0, next[id0]));
        assert forall|id: Seq<char>| #[trigger] after.dom().contains(id) implies after[id]
            == if touched(keys, at, id) {
            next[id]
        } else {
            now[id]
        } by {
            touched_last(keys, at, id);
            assert(before.dom().contains(id));
        }
    }
}

proof fn starting_adds(now: Entries, keys: Seq<Seq<char>>, next: Entries, at: Seq<int>)
    requires
        sorted(keys),
        at.no_duplicates(),
        forall|k: int|
            0 <= k < at.len() ==> 0 <= #[trigger] at[k] < keys.len() && !now.dom().contains(
                keys[at[k]],
            ) && next[keys[at[k]]].spec.id == keys[at[k]],
    ensures
        possible_all(now, starting(keys, next, at)),
        ({
            let after = performed_all(now, starting(keys, next, at));
            &&& forall|id: Seq<char>| #[trigger]
                after.dom().contains(id) <==> now.dom().contains(id) || touched(keys, at, id)
            &&& forall|id: Seq<char>| #[trigger]
                after.dom().contains(id) ==> after[id] == if touched(keys, at, id) {
                    next[id]
                } else {
                    now[id]
                }
        }),
    decreases at.len(),
{
    let ops = starting(keys, next, at);
    if at.len() > 0 {
        let rest = at.drop_last();
        fresh_last(keys, at);
        assert forall|k: int| 0 <= k < rest.len() implies 0 <= #[trigger] rest[k] < keys.len()
            && !now.dom().contains(keys[rest[k]]) && next[keys[rest[k]]].spec.id
            == keys[rest[k]] by {
            assert(rest[k] == at[k]);
        }
        starting_adds(now, keys, next, rest);
        assert(ops.drop_last() =~= starting(keys, next, rest));
        let item = at[at.len() - 1];
        let id0 = keys[item];
        assert(!now.dom().contains(id0) && next[id0].spec.id == id0);
        assert(ops.last() == OperationModel::Start(next[id0]));
        let before = performed_all(now, ops.drop_last());
        let after = performed_all(now, ops);
        assert(!before.dom().contains(id0));
        assert(after == before.insert(id0, next[id0]));
        assert forall|id: Seq<char>| #[trigger] after.dom().contains(id) <==> now.dom().contains(id)
            || touched(keys, at, id) by {
            touched_last(keys, at, id);
        }
        assert forall|id: Seq<char>| #[trigger] after.dom().contains(id) implies after[id]
            == if touched(keys, at, id) {
            next[id]
        } else {
            now[id]
        } by {
            touched_last(keys, at, id);
            if id != id0 {
                assert(before.dom().contains(id));
            }
        }
    }
}

/// The identifiers touched by all positions of a kind.
proof fn touched_exactly(
    keys: Seq<Seq<char>>,
    entries: Entries,
    at: Seq<int>,
    p: spec_fn(int) -> bool,
    id: Seq<char>,
)
    requires
        listed(keys, entries),
        forall|x: int| #[trigger] at.contains(x) <==> 0 <= x < keys.len() && p(x),
    ensures
        touched(keys, at, id) <==> exists|i: int|
            0 <= i < keys.len() && #[trigger] keys[i] == id && p(i),
{
    if touched(keys, at, id) {
        let k = choose|k: int| 0 <= k < at.len() && keys[#[trigger] at[k]] == id;
        assert(at.contains(at[k]));
        assert(keys[at[k]] == id && p(at[k]));
    }
    if exists|i: int| 0 <= i < keys.len() && #[trigger] keys[i] == id && p(i) {
        let i = choose|i: int| 0 <= i < keys.len() && #[trigger] keys[i] == id && p(i);
        assert(at.contains(i));
        let k = choose|k: int| 0 <= k < at.len() && at[k] == i;
        assert(keys[at[k]] == id);
    }
}

/// What runs once a tree has taken the place of another: its active entries. One that is alike
/// to what ran before runs on as it was.
pub open spec fn running_after(old_entries: Entries, next: Entries) -> Entries {
    Map::new(
        |id: Seq<char>| next.dom().contains(id) && active(next[id]),
        |id: Seq<char>|
            if carried_over(old_entries, next, id) && alike(old_entries[id], next[id]) {
                old_entries[id]
            } else {
                next[id]
            },
    )
}

/// The steps of a reconciliation can be carried out one after the other, and afterwards exactly
/// the active entries of the new tree run, each as the new tree has it or alike to that.
pub proof fn steps_lead_to_the_next_tree(
    old_keys: Seq<Seq<char>>,
    old_entries: Entries,
    keys: Seq<Seq<char>>,
    next: Entries,
)
    requires
        listed(old_keys, old_entries),
        keyed(old_entries),
        listed(keys, next),
        keyed(next),
    ensures
        possible_all(running(old_entries), steps(old_keys, old_entries, keys, next)),
        performed_all(running(old_entries), steps(old_keys, old_entries, keys, next))
            == running_after(old_entries, next),
        running_after(old_entries, next).dom() == running(next).dom(),
        forall|id: Seq<char>| #[trigger]
            running(next).dom().contains(id) ==> alike(
                running_after(old_entries, next)[id],
                next[id],
            ),
{
    let now = running(old_entries);
    let p_stop = stops(old_keys, old_entries, next);
    let p_update = updates(keys, old_entries, next);
    let p_start = starts(keys, old_entries, next);
    let at_stop = inside_out(
        picks(old_keys.len(), p_stop),
        depths(old_keys, old_entries),
        all_levels(),
    );
    let at_update = outside_in(picks(keys.len(), p_update), depths(keys, next), all_levels());
    let at_start = outside_in(picks(keys.len(), p_start), depths(keys, next), all_levels());
    planned_exactly(old_keys.len(), p_stop, depths(old_keys, old_entries));
    planned_exactly(keys.len(), p_update, depths(keys, next));
    planned_exactly(keys.len(), p_start, depths(keys, next));

    let first = stopping(old_keys, old_entries, at_stop);
    let second = updating(keys, old_entries, next, at_update);
    let third = starting(keys, next, at_start);
    assert(steps(old_keys, old_entries, keys, next) =~= first + second + third);

    assert forall|k: int| 0 <= k < at_stop.len() implies 0 <= #[trigger] at_stop[k]
        < old_keys.len() && now.dom().contains(old_keys[at_stop[k]]) && now[old_keys[at_stop[k]]]
        == old_entries[old_keys[at_stop[k]]] && old_entries[old_keys[at_stop[k]]].spec.id
        == old_keys[at_stop[k]] by {
        assert(at_stop.contains(at_stop[k]));
        assert(old_keys.contains(old_keys[at_stop[k]]));
    }
    stopping_removes(now, old_keys, old_entries, at_stop);
    let stopped = performed_all(now, first);
    assert forall|id: Seq<char>| #[trigger] stopped.dom().contains(id) <==> carried_over(
        old_entries,
        next,
        id,
    ) by {
        touched_exactly(old_keys, old_entries, at_stop, p_stop, id);
        if old_entries.dom().contains(id) {
            assert(old_keys.contains(id));
            let i = choose|i: int| 0 <= i < old_keys.len() && old_keys[i] == id;
            assert(old_keys[i] == id);
        }
    }

    assert forall|k: int| 0 <= k < at_update.len() implies 0 <= #[trigger] at_update[k]
        < keys.len() && stopped.dom().contains(keys[at_update[k]]) && stopped[keys[at_update[k]]]
        == old_entries[keys[at_update[k]]] && old_entries[keys[at_update[k]]].spec.id
        == keys[at_update[k]] && next[keys[at_update[k]]].spec.id == keys[at_update[k]] by {
        assert(at_update.contains(at_update[k]));
        assert(keys.contains(keys[at_update[k]]));
        assert(stopped.dom().contains(keys[at_update[k]]));
    }
    updating_replaces(stopped, keys, old_entries, next, at_update);
    let updated = performed_all(stopped, second);

    assert forall|k: int| 0 <= k < at_start.len() implies 0 <= #[trigger] at_start[k] < keys.len()
        && !updated.dom().contains(keys[at_start[k]]) && next[keys[at_start[k]]].spec.id
        == keys[at_start[k]] by {
        assert(at_start.contains(at_start[k]));
        assert(keys.contains(keys[at_start[k]]));
        assert(stopped.dom().contains(keys[at_start[k]]) <==> carried_over(
            old_entries,
            next,
            keys[at_start[k]],
        ));
    }
    starting_adds(updated, keys, next, at_start);
    let after = performed_all(updated, third);
    one_after_another(now, first, second);
    one_after_another(now, first + second, third);

    assert forall|id: Seq<char>| #[trigger] after.dom().contains(id) <==> running(
        next,
    ).dom().contains(id) by {
        touched_exactly(keys, next, at_start, p_start, id);
        assert(stopped.dom().contains(id) <==> carried_over(old_entries, next, id));
        if next.dom().contains(id) {
            assert(keys.contains(id));
            let i = choose|i: int| 0 <= i < keys.len() && keys[i] == id;
            assert(keys[i] == id);
        }
        if touched(keys, at_start, id) {
            let i = choose|i: int| 0 <= i < keys.len() && #[trigger] keys[i] == id && p_start(i);
            assert(keys.contains(keys[i]));
        }
    }
    let expected = running_after(old_entries, next);
    assert(expected.dom() =~= running(next).dom());
    assert forall|id: Seq<char>| #[trigger] after.dom().contains(id) implies after[id]
        == expected[id] by {
        touched_exactly(keys, next, at_start, p_start, id);
        touched_exactly(keys, next, at_update, p_update, id);
        assert(running(next).dom().contains(id));
        assert(keys.contains(id));
        let i = choose|i: int| 0 <= i < keys.len() && keys[i] == id;
        assert(keys[i] == id);
        if !touched(keys, at_start, id) {
            assert(updated.dom().contains(id));
            assert(stopped.dom().contains(id));
            assert(now.dom().contains(id) && stopped[id] == now[id]);
            if touched(keys, at_update, id) {
                let k = choose|k: int|
                    0 <= k < keys.len() && #[trigger] keys[k] == id && p_update(k);
                assert(!alike(old_entries[id], next[id]));
            } else {
                assert(!p_update(i));
            }
        }
    }
    assert(after =~= expected);
}

proof fn visited_keyed(e: EntryModel, from: Inherited, out: Entries)
    requires
        keyed(out),
    ensures
        visited(e, from, out) matches Ok(map) ==> keyed(map),
    decreases e, 0nat,
{
    if visited(e, from, out) is Ok {
        visited_all_keyed(
            e.children,
            e.children.len(),
            passed_on(e, from),
            out.insert(e.id, resolved_entry(e, from)),
        );
    }
}

proof fn visited_all_keyed(entries: Seq<EntryModel>, n: nat, from: Inherited, out: Entries)
    requires
        keyed(out),
    ensures
        visited_all(entries, n, from, out) matches Ok(map) ==> keyed(map),
    decreases entries, n,
{
    if n > 0 && n <= entries.len() {
        visited_all_keyed(entries, (n - 1) as nat, from, out);
        match visited_all(entries, (n - 1) as nat, from, out) {
            Ok(map) => {
                visited_keyed(entries[n - 1], from, map);
            },
            Err(_) => {},
        }
    }
}

/// A resolved tree lists every entry under its own identifier.
pub proof fn resolved_trees_are_keyed(roots: Seq<EntryModel>)
    ensures
        resolution(roots) matches Ok(map) ==> keyed(map),
{
    visited_all_keyed(roots, roots.len(), outermost(), Map::empty());
}

/// The entry a step is about.
pub open spec fn subject(op: OperationModel) -> Seq<char> {
    match op {
        OperationModel::Stop(entry) => entry.spec.id,
        OperationModel::Update { next, .. } => next.spec.id,
        OperationModel::Start(entry) => entry.spec.id,
    }
}

/// No step is about an entry that did not change.
pub proof fn unchanged_entries_are_left_alone(
    old_keys: Seq<Seq<char>>,
    old_entries: Entries,
    keys: Seq<Seq<char>>,
    next: Entries,
    i: int,
)
    requires
        listed(old_keys, old_entries),
        keyed(old_entries),
        listed(keys, next),
        keyed(next),
        0 <= i < steps(old_keys, old_entries, keys, next).len(),
    ensures
        ({
            let id = subject(steps(old_keys, old_entries, keys, next)[i]);
            !(old_entries.dom().contains(id) && next.dom().contains(id) && alike(
                old_entries[id],
                next[id],
            ))
        }),
{
    let ops = steps(old_keys, old_entries, keys, next);
    let p_stop = stops(old_keys, old_entries, next);
    let p_update = updates(keys, old_entries, next);
    let p_start = starts(keys, old_entries, next);
    let at_stop = inside_out(
        picks(old_keys.len(), p_stop),
        depths(old_keys, old_entries),
        all_levels(),
    );
    let at_update = outside_in(picks(keys.len(), p_update), depths(keys, next), all_levels());
    let at_start = outside_in(picks(keys.len(), p_start), depths(keys, next), all_levels());
    planned_exactly(old_keys.len(), p_stop, depths(old_keys, old_entries));
    planned_exactly(keys.len(), p_update, depths(keys, next));
    planned_exactly(keys.len(), p_start, depths(keys, next));
    if i < at_stop.len() {
        assert(at_stop.contains(at_stop[i]));
        assert(old_keys.contains(old_keys[at_stop[i]]));
        assert(ops[i] == OperationModel::Stop(old_entries[old_keys[at_stop[i]]]));
    } else if i < at_stop.len() + at_update.len() {
        let k = i - at_stop.len();
        assert(at_update.contains(at_update[k]));
        assert(keys.contains(keys[at_update[k]]));
        assert(ops[i] == (OperationModel::Update {
            previous: old_entries[keys[at_update[k]]],
            next: next[keys[at_update[k]]],
        }));
    } else {
        let k = i - at_stop.len() - at_update.len();
        assert(at_start.contains(at_start[k]));
        assert(keys.contains(keys[at_start[k]]));
        assert(ops[i] == OperationModel::Start(next[keys[at_start[k]]]));
    }
}

proof fn levels_ordered(positions: Seq<int>, depth: spec_fn(int) -> usize, top: nat)
    requires
        positions.no_duplicates(),
    ensures
        forall|i: int, j: int|
            0 <= i < j < outside_in(positions, depth, top).len() ==> depth(
                #[trigger] outside_in(positions, depth, top)[i],
            ) <= depth(#[trigger] outside_in(positions, depth, top)[j]),
        forall|i: int, j: int|
            0 <= i < j < inside_out(positions, depth, top).len() ==> depth(
                #[trigger] inside_out(positions, depth, top)[i],
            ) >= depth(#[trigger] inside_out(positions, depth, top)[j]),
    decreases top,
{
    if top > 0 {
        levels_ordered(positions, depth, (top - 1) as nat);
        levels_exactly(positions, depth, (top - 1) as nat);
        level_exactly(positions, depth, top - 1, positions.len());
        let this = at_depth(positions, depth, top - 1, positions.len());
        let front = outside_in(positions, depth, (top - 1) as nat);
        let all = outside_in(positions, depth, top);
        assert forall|i: int, j: int| 0 <= i < j < all.len() implies depth(#[trigger] all[i])
            <= depth(#[trigger] all[j]) by {
            if j < front.len() {
                assert(all[i] == front[i] && all[j] == front[j]);
            } else {
                assert(all[j] == this[j - front.len()]);
                assert(this.contains(all[j]));
                if i < front.len() {
                    assert(all[i] == front[i]);
                    assert(front.contains(all[i]));
                } else {
                    assert(all[i] == this[i - front.len()]);
                    assert(this.contains(all[i]));
                }
            }
        }
        let back = inside_out(positions, depth, (top - 1) as nat);
        let turned = inside_out(positions, depth, top);
        assert forall|i: int, j: int| 0 <= i < j < turned.len() implies depth(#[trigger] turned[i])
            >= depth(#[trigger] turned[j]) by {
            if i < this.len() {
                assert(turned[i] == this[i]);
                assert(this.contains(turned[i]));
                if j < this.len() {
                    assert(turned[j] == this[j]);
                    assert(this.contains(turned[j]));
                } else {
                    assert(turned[j] == back[j - this.len()]);
                    assert(back.contains(turned[j]));
                }
            } else {
                assert(turned[i] == back[i - this.len()] && turned[j] == back[j - this.len()]);
            }
        }
    }
}

/// What is nested stops before what it is nested in, and starts after it.
pub proof fn nested_entries_stop_first_and_start_last(
    old_keys: Seq<Seq<char>>,
    old_entries: Entries,
    keys: Seq<Seq<char>>,
    next: Entries,
    i: int,
    j: int,
)
    requires
        0 <= i < j < steps(old_keys, old_entries, keys, next).len(),
    ensures
        ({
            let ops = steps(old_keys, old_entries, keys, next);
            in_step_order(ops[i], ops[j])
        }),
{
    let ops = steps(old_keys, old_entries, keys, next);
    let p_stop = stops(old_keys, old_entries, next);
    let p_update = updates(keys, old_entries, next);
    let p_start = starts(keys, old_entries, next);
    let at_stop = inside_out(
        picks(old_keys.len(), p_stop),
        depths(old_keys, old_entries),
        all_levels(),
    );
    let at_update = outside_in(picks(keys.len(), p_update), depths(keys, next), all_levels());
    let at_start = outside_in(picks(keys.len(), p_start), depths(keys, next), all_levels());
    picks_exactly(old_keys.len(), p_stop);
    picks_exactly(keys.len(), p_update);
    picks_exactly(keys.len(), p_start);
    levels_ordered(
        picks(old_keys.len(), p_stop),
        depths(old_keys, old_entries),
        all_levels(),
    );
    levels_ordered(picks(keys.len(), p_update), depths(keys, next), all_levels());
    levels_ordered(picks(keys.len(), p_start), depths(keys, next), all_levels());
    let first = stopping(old_keys, old_entries, at_stop);
    let second = updating(keys, old_entries, next, at_update);
    let third = starting(keys, next, at_start);
    assert(ops =~= first + second + third);
    let s = first.len() as int;
    let u = s + second.len();
    if j < s {
        assert(ops[i] == first[i] && ops[j] == first[j]);
        assert(depths(old_keys, old_entries)(at_stop[i]) >= depths(old_keys, old_entries)(
            at_stop[j],
        ));
    } else if i < s {
        assert(ops[i] == first[i]);
    } else if j < u {
        assert(ops[i] == second[i - s] && ops[j] == second[j - s]);
        assert(depths(keys, next)(at_update[i - s]) <= depths(keys, next)(at_update[j - s]));
    } else if i < u {
        assert(ops[i] == second[i - s] && ops[j] == third[j - u]);
    } else {
        assert(ops[i] == third[i - u] && ops[j] == third[j - u]);
        assert(depths(keys, next)(at_start[i - u]) <= depths(keys, next)(at_start[j - u]));
    }
}

/// An entry has to stop: it is active, and then gone, inactive or of another component.
pub open spec fn must_stop(old_entries: Entries, next: Entries, id: Seq<char>) -> bool {
    &&& old_entries.dom().contains(id)
    &&& active(old_entries[id])
    &&& !(next.dom().contains(id) && active(next[id]) && next[id].component
        == old_entries[id].component)
}

/// An entry has to be updated: it is active before and after with the same component, and
/// something else changed.
pub open spec fn must_update(old_entries: Entries, next: Entries, id: Seq<char>) -> bool {
    &&& old_entries.dom().contains(id)
    &&& active(old_entries[id])
    &&& next.dom().contains(id)
    &&& active(next[id])
    &&& next[id].component == old_entries[id].component
    &&& !alike(old_entries[id], next[id])
}

/// An entry has to start: it is active, and was absent, inactive or of another component.
pub open spec fn must_start(old_entries: Entries, next: Entries, id: Seq<char>) -> bool {
    &&& next.dom().contains(id)
    &&& active(next[id])
    &&& !(old_entries.dom().contains(id) && active(old_entries[id])
        && old_entries[id].component == next[id].component)
}

/// The step is one that has to be taken.
pub open spec fn is_needed(old_entries: Entries, next: Entries, op: OperationModel) -> bool {
    match op {
        OperationModel::Stop(entry) => must_stop(old_entries, next, entry.spec.id) && entry
            == old_entries[entry.spec.id],
        OperationModel::Update { previous, next: to } => must_update(
            old_entries,
            next,
            to.spec.id,
        ) && previous == old_entries[to.spec.id] && to == next[to.spec.id],
        OperationModel::Start(entry) => must_start(old_entries, next, entry.spec.id) && entry
            == next[entry.spec.id],
    }
}

/// Two steps in this order keep to the order of a reconciliation: stops come first, the deepest
/// first of all; then updates and then starts, each from the outside in.
pub open spec fn in_step_order(a: OperationModel, b: OperationModel) -> bool {
    match (a, b) {
        (OperationModel::Stop(a), OperationModel::Stop(b)) => a.depth >= b.depth,
        (OperationModel::Update { next: a, .. }, OperationModel::Update { next: b, .. }) => a.depth
            <= b.depth,
        (OperationModel::Start(a), OperationModel::Start(b)) => a.depth <= b.depth,
        (OperationModel::Stop(_), _) => true,
        (OperationModel::Update { .. }, OperationModel::Start(_)) => true,
        _ => false,
    }
}

/// The steps of a reconciliation are exactly those that have to be taken, each once, in order:
/// every entry that has to stop is stopped, the deepest first; then every entry that keeps its
/// component but changed is updated, and then every entry that has to start is started, by
/// rising depth; and nothing else is done.
pub proof fn steps_are_exact_and_ordered(
    old_keys: Seq<Seq<char>>,
    old_entries: Entries,
    keys: Seq<Seq<char>>,
    next: Entries,
)
    requires
        listed(old_keys, old_entries),
        keyed(old_entries),
        listed(keys, next),
        keyed(next),
    ensures
        ({
            let ops = steps(old_keys, old_entries, keys, next);
            &&& forall|op: OperationModel| #[trigger]
                ops.contains(op) <==> is_needed(old_entries, next, op)
            &&& ops.no_duplicates()
            &&& forall|i: int, j: int|
                0 <= i < j < ops.len() ==> in_step_order(#[trigger] ops[i], #[trigger] ops[j])
        }),
{
    let ops = steps(old_keys, old_entries, keys, next);
    let p_stop = stops(old_keys, old_entries, next);
    let p_update = updates(keys, old_entries, next);
    let p_start = starts(keys, old_entries, next);
    let at_stop = inside_out(
        picks(old_keys.len(), p_stop),
        depths(old_keys, old_entries),
        all_levels(),
    );
    let at_update = outside_in(picks(keys.len(), p_update), depths(keys, next), all_levels());
    let at_start = outside_in(picks(keys.len(), p_start), depths(keys, next), all_levels());
    planned_exactly(old_keys.len(), p_stop, depths(old_keys, old_entries));
    planned_exactly(keys.len(), p_update, depths(keys, next));
    planned_exactly(keys.len(), p_start, depths(keys, next));
    let first = stopping(old_keys, old_entries, at_stop);
    let second = updating(keys, old_entries, next, at_update);
    let third = starting(keys, next, at_start);
    assert(ops =~= first + second + third);
    let s = first.len() as int;
    let u = s + second.len();
    assert forall|i: int| 0 <= i < ops.len() implies is_needed(
        old_entries,
        next,
        #[trigger] ops[i],
    ) by {
        if i < s {
            assert(at_stop.contains(at_stop[i]));
            assert(old_keys.contains(old_keys[at_stop[i]]));
            assert(ops[i] == first[i]);
        } else if i < u {
            assert(at_update.contains(at_update[i - s]));
            assert(keys.contains(keys[at_update[i - s]]));
            assert(ops[i] == second[i - s]);
        } else {
            assert(at_start.contains(at_start[i - u]));
            assert(keys.contains(keys[at_start[i - u]]));
            assert(ops[i] == third[i - u]);
        }
    }
    assert forall|op: OperationModel| #[trigger]
        ops.contains(op) <==> is_needed(old_entries, next, op) by {
        if ops.contains(op) {
            let i = choose|i: int| 0 <= i < ops.len() && ops[i] == op;
            assert(is_needed(old_entries, next, ops[i]));
        }
        if is_needed(old_entries, next, op) {
            let id = subject(op);
            match op {
                OperationModel::Stop(_) => {
                    assert(old_keys.contains(id));
                    let k = choose|k: int| 0 <= k < old_keys.len() && old_keys[k] == id;
                    assert(p_stop(k));
                    assert(at_stop.contains(k));
                    let i = choose|i: int| 0 <= i < at_stop.len() && at_stop[i] == k;
                    assert(ops[i] == first[i]);
                    assert(ops[i] == op);
                },
                OperationModel::Update { .. } => {
                    assert(keys.contains(id));
                    let k = choose|k: int| 0 <= k < keys.len() && keys[k] == id;
                    assert(p_update(k));
                    assert(at_update.contains(k));
                    let i = choose|i: int| 0 <= i < at_update.len() && at_update[i] == k;
                    assert(ops[s + i] == second[i]);
                    assert(ops[s + i] == op);
                },
                OperationModel::Start(_) => {
                    assert(keys.contains(id));
                    let k = choose|k: int| 0 <= k < keys.len() && keys[k] == id;
                    assert(p_start(k));
                    assert(at_start.contains(k));
                    let i = choose|i: int| 0 <= i < at_start.len() && at_start[i] == k;
                    assert(ops[u + i] == third[i]);
                    assert(ops[u + i] == op);
                },
            }
        }
    }
    assert forall|i: int, j: int| 0 <= i < j < ops.len() implies ops[i] != ops[j] by {
        if j < s {
            assert(ops[i] == first[i] && ops[j] == first[j]);
            assert(at_stop.contains(at_stop[i]) && at_stop.contains(at_stop[j]));
            assert(old_keys.contains(old_keys[at_stop[i]]));
            assert(old_keys.contains(old_keys[at_stop[j]]));
            if ops[i] == ops[j] {
                keys_differ(old_keys, at_stop[i], at_stop[j]);
            }
        } else if i < s {
            assert(ops[i] == first[i]);
            if j < u {
                assert(ops[j] == second[j - s]);
            } else {
                assert(ops[j] == third[j - u]);
            }
        } else if j < u {
            assert(ops[i] == second[i - s] && ops[j] == second[j - s]);
            assert(at_update.contains(at_update[i - s]) && at_update.contains(at_update[j - s]));
            assert(keys.contains(keys[at_update[i - s]]));
            assert(keys.contains(keys[at_update[j - s]]));
            if ops[i] == ops[j] {
                keys_differ(keys, at_update[i - s], at_update[j - s]);
            }
        } else if i < u {
            assert(ops[i] == second[i - s] && ops[j] == third[j - u]);
        } else {
            assert(ops[i] == third[i - u] && ops[j] == third[j - u]);
            assert(at_start.contains(at_start[i - u]) && at_start.contains(at_start[j - u]));
            assert(keys.contains(keys[at_start[i - u]]));
            assert(keys.contains(keys[at_start[j - u]]));
            if ops[i] == ops[j] {
                keys_differ(keys, at_start[i - u], at_start[j - u]);
            }
        }
    }
    assert forall|i: int, j: int| 0 <= i < j < ops.len() implies in_step_order(
        #[trigger] ops[i],
        #[trigger] ops[j],
    ) by {
        nested_entries_stop_first_and_start_last(old_keys, old_entries, keys, next, i, j);
    }
}

} // verus!
