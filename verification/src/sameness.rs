//! When a reconciliation leaves entries alone, and what runs when it is over.
use crate::entry::{EntryModel, LoaderErrorModel, ResolvedEntryModel};
use crate::likeness::{alike, plain, plain_entry, plain_map};
use crate::reconcile::{
    in_turn, pending, reconciliations_are_all_or_nothing, run_after, tried_all, untried,
    ProgressModel, ReconciliationModel,
};
use crate::transaction::{
    keyed, listed, performed_all, possible_all, running, running_after, steps_are_exact_and_ordered,
    steps_lead_to_the_next_tree, subject, unchanged_entries_are_left_alone, Entries,
};
use crate::tree::{steps, OperationModel};
use crate::value::JsonModel;
use vstd::prelude::*;

verus! {

/// No number in the value is a negative zero.
pub open spec fn unsigned(v: JsonModel) -> bool
    decreases v,
{
    match v {
        JsonModel::Number(spelling) => spelling != "-0.0"@,
        JsonModel::Array(items) => forall|i: int|
            0 <= i < items.len() ==> unsigned(#[trigger] items[i]),
        JsonModel::Object(members) => forall|i: int|
            0 <= i < members.len() ==> unsigned((#[trigger] members[i]).1),
        _ => true,
    }
}

/// No number in the values is a negative zero.
pub open spec fn unsigned_map(map: Map<Seq<char>, JsonModel>) -> bool {
    forall|key: Seq<char>| #[trigger] map.dom().contains(key) ==> unsigned(map[key])
}

/// No number in the entry is a negative zero.
pub open spec fn unsigned_entry(e: EntryModel) -> bool
    decreases e,
{
    &&& unsigned(e.config)
    &&& unsigned_map(e.intercept)
    &&& forall|i: int| 0 <= i < e.children.len() ==> unsigned_entry(#[trigger] e.children[i])
}

/// No number in the resolved entry is a negative zero.
pub open spec fn unsigned_resolved(e: ResolvedEntryModel) -> bool {
    unsigned_entry(e.spec) && unsigned_map(e.intercept)
}

proof fn unsigned_is_plain(v: JsonModel)
    requires
        unsigned(v),
    ensures
        plain(v) == v,
    decreases v,
{
    match v {
        JsonModel::Array(items) => {
            assert forall|i: int| 0 <= i < items.len() implies plain(items[i]) == items[i] by {
                assert(unsigned(items[i]));
                unsigned_is_plain(items[i]);
            }
            assert(plain(v)->Array_0 =~= items);
        },
        JsonModel::Object(members) => {
            assert forall|i: int| 0 <= i < members.len() implies plain(members[i].1)
                == members[i].1 by {
                assert(unsigned(members[i].1));
                unsigned_is_plain(members[i].1);
            }
            assert(plain(v)->Object_0 =~= members);
        },
        _ => {},
    }
}

proof fn unsigned_map_is_plain(map: Map<Seq<char>, JsonModel>)
    requires
        unsigned_map(map),
    ensures
        plain_map(map) == map,
{
    assert forall|key: Seq<char>| #[trigger] map.dom().contains(key) implies plain(map[key])
        == map[key] by {
        unsigned_is_plain(map[key]);
    }
    assert(plain_map(map) =~= map);
}

proof fn unsigned_entry_is_plain(e: EntryModel)
    requires
        unsigned_entry(e),
    ensures
        plain_entry(e) == e,
    decreases e,
{
    unsigned_is_plain(e.config);
    unsigned_map_is_plain(e.intercept);
    assert forall|i: int| 0 <= i < e.children.len() implies plain_entry(e.children[i])
        == e.children[i] by {
        assert(unsigned_entry(e.children[i]));
        unsigned_entry_is_plain(e.children[i]);
    }
    assert(plain_entry(e).children =~= e.children);
}

/// Entries are alike when they are equal in everything, and where no number is a negative zero
/// only then.
pub proof fn alike_means_equal(a: ResolvedEntryModel, b: ResolvedEntryModel)
    ensures
        a == b ==> alike(a, b),
        unsigned_resolved(a) && unsigned_resolved(b) && alike(a, b) ==> a == b,
        alike(a, b) ==> a.component == b.component && a.parent == b.parent && a.depth == b.depth
            && a.effective_disabled == b.effective_disabled && a.realms == b.realms,
{
    if unsigned_resolved(a) && unsigned_resolved(b) {
        unsigned_entry_is_plain(a.spec);
        unsigned_entry_is_plain(b.spec);
        unsigned_map_is_plain(a.intercept);
        unsigned_map_is_plain(b.intercept);
    }
}

/// Once all steps of a reconciliation are carried out, exactly the entries of the new tree run
/// that are no groups and are not disabled, each as the new tree has it.
pub proof fn enabled_components_run(
    old_keys: Seq<Seq<char>>,
    old_entries: Entries,
    keys: Seq<Seq<char>>,
    next: Entries,
    id: Seq<char>,
)
    requires
        listed(old_keys, old_entries),
        keyed(old_entries),
        listed(keys, next),
        keyed(next),
    ensures
        ({
            let after = performed_all(
                running(old_entries),
                steps(old_keys, old_entries, keys, next),
            );
            &&& after.dom().contains(id) <==> next.dom().contains(id) && !next[id].spec.group
                && !next[id].effective_disabled
            &&& after.dom().contains(id) && unsigned_resolved(next[id]) && unsigned_resolved(
                after[id],
            ) ==> after[id] == next[id]
        }),
{
    steps_lead_to_the_next_tree(old_keys, old_entries, keys, next);
    let after = running_after(old_entries, next);
    assert(after.dom().contains(id) <==> running(next).dom().contains(id));
    if after.dom().contains(id) {
        alike_means_equal(after[id], next[id]);
    }
}

/// An entry that is the same in both trees is neither stopped nor updated nor started. One that
/// runs the same component in both is not stopped or started.
pub proof fn same_entries_keep_running(
    old_keys: Seq<Seq<char>>,
    old_entries: Entries,
    keys: Seq<Seq<char>>,
    next: Entries,
    i: int,
)
    requires
        listed(old_keys, old_entries),
        keyed(old_entries),
        listed(keys, next),
        keyed(next),
        0 <= i < steps(old_keys, old_entries, keys, next).len(),
    ensures
        ({
            let op = steps(old_keys, old_entries, keys, next)[i];
            let id = subject(op);
            &&& old_entries.dom().contains(id) && next.dom().contains(id) ==> old_entries[id]
                != next[id]
            &&& old_entries.dom().contains(id) && next.dom().contains(id)
                && !old_entries[id].spec.group && !old_entries[id].effective_disabled
                && !next[id].spec.group && !next[id].effective_disabled && old_entries[id].component
                == next[id].component ==> op == (OperationModel::Update {
                previous: old_entries[id],
                next: next[id],
            })
        }),
{
    let ops = steps(old_keys, old_entries, keys, next);
    let op = ops[i];
    let id = subject(op);
    unchanged_entries_are_left_alone(old_keys, old_entries, keys, next, i);
    steps_are_exact_and_ordered(old_keys, old_entries, keys, next);
    assert(ops.contains(op));
    if old_entries.dom().contains(id) && next.dom().contains(id) {
        alike_means_equal(old_entries[id], next[id]);
    }
}

proof fn failures_so_far(start: ReconciliationModel, outcomes: Seq<Result<(), LoaderErrorModel>>)
    requires
        untried(start),
        in_turn(start, outcomes),
        forall|i: int, j: int|
            0 <= i < j < outcomes.len() && (#[trigger] outcomes[i]) is Err ==> (
            #[trigger] outcomes[j]) is Ok,
    ensures
        match tried_all(start, outcomes).progress {
            ProgressModel::Forward { .. } => forall|i: int|
                0 <= i < outcomes.len() ==> (#[trigger] outcomes[i]) is Ok,
            ProgressModel::Backward { failures, .. } => failures.len() == 0 && exists|i: int|
                0 <= i < outcomes.len() && (#[trigger] outcomes[i]) is Err,
        },
    decreases outcomes.len(),
{
    if outcomes.len() > 0 {
        let before = outcomes.drop_last();
        assert forall|i: int, j: int|
            0 <= i < j < before.len() && (#[trigger] before[i]) is Err implies (
        #[trigger] before[j]) is Ok by {
            assert(outcomes[i] is Err);
            assert(outcomes[j] is Ok);
        }
        failures_so_far(start, before);
        let m = tried_all(start, before);
        let last = outcomes.len() - 1;
        match m.progress {
            ProgressModel::Forward { .. } => {
                assert forall|i: int| 0 <= i < last implies (#[trigger] outcomes[i]) is Ok by {
                    assert(before[i] is Ok);
                }
                assert(outcomes[last] == outcomes.last());
            },
            ProgressModel::Backward { .. } => {
                let i = choose|i: int| 0 <= i < before.len() && (#[trigger] before[i]) is Err;
                assert(outcomes[i] is Err);
                assert(outcomes[last] is Ok);
            },
        }
    }
}

/// A reconciliation of which no step fails carries every step out. One of which a single step
/// fails leaves everything running as before.
pub proof fn one_failure_changes_nothing(
    now: Entries,
    start: ReconciliationModel,
    outcomes: Seq<Result<(), LoaderErrorModel>>,
)
    requires
        possible_all(now, start.steps),
        untried(start),
        in_turn(start, outcomes),
        pending(tried_all(start, outcomes)) is None,
        forall|i: int, j: int|
            0 <= i < j < outcomes.len() && (#[trigger] outcomes[i]) is Err ==> (
            #[trigger] outcomes[j]) is Ok,
    ensures
        (forall|i: int| 0 <= i < outcomes.len() ==> (#[trigger] outcomes[i]) is Ok) ==> run_after(
            now,
            start,
            outcomes,
        ) == performed_all(now, start.steps),
        (exists|i: int| 0 <= i < outcomes.len() && (#[trigger] outcomes[i]) is Err) ==> run_after(
            now,
            start,
            outcomes,
        ) == now,
{
    failures_so_far(start, outcomes);
    reconciliations_are_all_or_nothing(now, start, outcomes);
}

} // verus!
