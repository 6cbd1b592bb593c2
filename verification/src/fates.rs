//! What a reload takes on, and what it says became of it.
use crate::artifact::ArtifactHash;
use crate::order::entry_keys;
use crate::reload::{
    all_updated, failure_at, first_change, is_change, last_change, planned, preflight_entries, preflight_report,
    reloaded, replacing_from, reported, restored_status, stepped, tracked_changes, tracked_under,
    EntryReloadModel, ItemModel, ReloadPhase, ReloadStatusModel, ReloadTracker,
};
use vstd::prelude::*;

verus! {

proof fn pushed<A>(items: Seq<A>, last: A, x: A)
    ensures
        items.push(last).contains(x) <==> items.contains(x) || x == last,
{
    let all = items.push(last);
    if all.contains(x) {
        let k = choose|k: int| 0 <= k < all.len() && all[k] == x;
        if k < items.len() {
            assert(items[k] == x);
        }
    }
    if items.contains(x) {
        let k = choose|k: int| 0 <= k < items.len() && items[k] == x;
        assert(all[k] == x);
    }
    assert(all[items.len() as int] == last);
}

proof fn joined<A>(a: Seq<A>, b: Seq<A>, x: A)
    ensures
        (a + b).contains(x) <==> a.contains(x) || b.contains(x),
{
    let c = a + b;
    if c.contains(x) {
        let k = choose|k: int| 0 <= k < c.len() && c[k] == x;
        if k < a.len() {
            assert(a[k] == x);
        } else {
            assert(b[k - a.len()] == x);
        }
    }
    if a.contains(x) {
        let k = choose|k: int| 0 <= k < a.len() && a[k] == x;
        assert(c[k] == x);
    }
    if b.contains(x) {
        let k = choose|k: int| 0 <= k < b.len() && b[k] == x;
        assert(c[a.len() + k] == x);
    }
}

/// A reload takes on exactly the running entries that have a candidate, with what they run and
/// what they are to run. Those that run their candidate already are settled as unchanged.
pub proof fn plans_cover_running_candidates(
    current: Map<Seq<char>, ArtifactHash>,
    keys: Seq<Seq<char>>,
    candidates: Map<Seq<char>, ArtifactHash>,
    n: nat,
    item: ItemModel,
)
    requires
        n <= keys.len(),
    ensures
        planned(current, keys, candidates, n).contains(item) <==> exists|k: int|
            {
                &&& 0 <= k < n
                &&& current.dom().contains(#[trigger] keys[k])
                &&& item.entry == keys[k]
                &&& item.previous == current[keys[k]]@
                &&& item.candidate == candidates[keys[k]]@
                &&& item.previous == item.candidate ==> item.status == Some(
                    ReloadStatusModel::Unchanged,
                )
                &&& item.previous != item.candidate ==> item.status is None
            },
    decreases n,
{
    if n > 0 {
        plans_cover_running_candidates(current, keys, candidates, (n - 1) as nat, item);
        let key = keys[n - 1];
        let before = planned(current, keys, candidates, (n - 1) as nat);
        if current.dom().contains(key) {
            let last = planned(current, keys, candidates, n).last();
            pushed(before, last, item);
            if item == last {
                assert(item.entry == keys[n - 1]);
            }
        }
    }
}

/// A report names every entry whose fate is known, with its fate, and no other.
pub proof fn reports_tell_every_known_fate(items: Seq<ItemModel>, n: nat, line: EntryReloadModel)
    requires
        n <= items.len(),
    ensures
        reported(items, n).contains(line) <==> exists|k: int|
            {
                &&& 0 <= k < n
                &&& (#[trigger] items[k]).status == Some(line.status)
                &&& line.entry == items[k].entry
                &&& line.previous == items[k].previous
                &&& line.candidate == Some(items[k].candidate)
            },
        reported(items, n).len() <= n,
    decreases n,
{
    if n > 0 {
        reports_tell_every_known_fate(items, (n - 1) as nat, line);
        let before = reported(items, (n - 1) as nat);
        if items[n - 1].status is Some {
            let last = reported(items, n).last();
            pushed(before, last, line);
            if line == last {
                assert(items[n - 1].status == Some(line.status));
            }
        }
    }
}

/// All entries tracked under a path are found, and no others.
pub proof fn tracked_entries_are_found(
    keys: Seq<Seq<char>>,
    paths: Map<Seq<char>, String>,
    path: Seq<char>,
    n: nat,
    entry: Seq<char>,
)
    requires
        n <= keys.len(),
    ensures
        tracked_under(keys, paths, path, n).contains(entry) <==> paths[entry]@ == path && exists|
            k: int,
        |
            0 <= k < n && #[trigger] keys[k] == entry,
    decreases n,
{
    if n > 0 {
        tracked_entries_are_found(keys, paths, path, (n - 1) as nat, entry);
        if paths[keys[n - 1]]@ == path {
            pushed(tracked_under(keys, paths, path, (n - 1) as nat), keys[n - 1], entry);
        }
        if keys[n - 1] == entry {
            assert(keys[n - 1] == entry);
        }
    }
}

/// Of the changed paths those are prepared at which some entry is tracked.
pub proof fn tracked_paths_are_prepared(
    paths: Map<Seq<char>, String>,
    changed: Seq<Seq<char>>,
    n: nat,
    path: Seq<char>,
)
    requires
        n <= changed.len(),
    ensures
        tracked_changes(paths, changed, n).contains(path) <==> (exists|k: int|
            0 <= k < n && #[trigger] changed[k] == path) && exists|entry: Seq<char>| #[trigger]
            paths.dom().contains(entry) && paths[entry]@ == path,
    decreases n,
{
    if n > 0 {
        tracked_paths_are_prepared(paths, changed, (n - 1) as nat, path);
        pushed(tracked_changes(paths, changed, (n - 1) as nat), changed[n - 1], path);
        if changed[n - 1] == path {
            assert(changed[n - 1] == path);
        }
    }
}

/// Where preparing failed, the report names every entry tracked under a changed path, with what
/// it runs and no candidate. It failed if its own path could not be prepared, for the reason
/// given there; otherwise it is unchanged.
pub proof fn failed_preparations_are_reported(
    tracker: ReloadTracker,
    changed: Seq<Seq<char>>,
    failures: Map<Seq<char>, String>,
    n: nat,
    line: EntryReloadModel,
)
    requires
        n <= changed.len(),
    ensures
        preflight_report(tracker, changed, failures, n).contains(line) <==> exists|k: int, e: int|
            {
                let keys = entry_keys(tracker.entry_paths.entries@);
                &&& 0 <= k < n
                &&& 0 <= e < keys.len()
                &&& tracker.entry_paths@[#[trigger] entry_keys(
                    tracker.entry_paths.entries@,
                )[e]]@ == #[trigger] changed[k]
                &&& line.entry == keys[e]
                &&& line.previous == tracker.current@[keys[e]]@
                &&& line.candidate is None
                &&& failures.dom().contains(changed[k]) ==> line.status
                    == ReloadStatusModel::Failed(failures[changed[k]]@)
                &&& !failures.dom().contains(changed[k]) ==> line.status is Unchanged
            },
    decreases n,
{
    if n > 0 {
        let m = (n - 1) as nat;
        failed_preparations_are_reported(tracker, changed, failures, m, line);
        let keys = entry_keys(tracker.entry_paths.entries@);
        let path = changed[n - 1];
        let found = tracked_under(keys, tracker.entry_paths@, path, keys.len());
        let failure = failure_at(failures, path);
        let more = preflight_entries(found, tracker.current@, failure);
        joined(preflight_report(tracker, changed, failures, m), more, line);
        if more.contains(line) {
            let i = choose|i: int| 0 <= i < more.len() && more[i] == line;
            tracked_entries_are_found(keys, tracker.entry_paths@, path, keys.len(), found[i]);
            assert(found.contains(found[i]));
            let e = choose|e: int| 0 <= e < keys.len() && #[trigger] keys[e] == found[i];
            assert(tracker.entry_paths@[entry_keys(tracker.entry_paths.entries@)[e]]@ == changed[n
                - 1]);
        }
        assert forall|e: int|
            {
                &&& 0 <= e < keys.len()
                &&& tracker.entry_paths@[#[trigger] keys[e]]@ == path
                &&& line.entry == keys[e]
                &&& line.previous == tracker.current@[keys[e]]@
                &&& line.candidate is None
                &&& failures.dom().contains(path) ==> line.status == ReloadStatusModel::Failed(
                    failures[path]@,
                )
                &&& !failures.dom().contains(path) ==> line.status is Unchanged
            } implies more.contains(line) by {
            tracked_entries_are_found(keys, tracker.entry_paths@, path, keys.len(), keys[e]);
            let i = choose|i: int| 0 <= i < found.len() && found[i] == keys[e];
            assert(more[i] == line);
        }
    }
}

// ---------------------------------------------------------------------------------------------
// Commit
// ---------------------------------------------------------------------------------------------

/// A reload that is being undone, or is over without a commit.
spec fn given_up(phase: ReloadPhase) -> bool {
    phase is Restoring || phase == (ReloadPhase::Finished { committed: false })
}

proof fn giving_up_is_final(
    items: Seq<ItemModel>,
    outcomes: Seq<Result<(), Seq<char>>>,
    k: int,
)
    requires
        0 <= k <= outcomes.len(),
        given_up(reloaded(items, outcomes.take(k)).1),
    ensures
        given_up(reloaded(items, outcomes).1),
    decreases outcomes.len() - k,
{
    if k == outcomes.len() {
        assert(outcomes.take(k) =~= outcomes);
    } else {
        let now = outcomes.take(k + 1);
        assert(now.drop_last() =~= outcomes.take(k));
        giving_up_is_final(items, outcomes, k + 1);
    }
}

proof fn successes_go_on(items: Seq<ItemModel>, outcomes: Seq<Result<(), Seq<char>>>)
    requires
        forall|k: int| 0 <= k < outcomes.len() ==> (#[trigger] outcomes[k]) is Ok,
    ensures
        !given_up(reloaded(items, outcomes).1),
    decreases outcomes.len(),
{
    if outcomes.len() > 0 {
        let before = outcomes.drop_last();
        assert forall|k: int| 0 <= k < before.len() implies (#[trigger] before[k]) is Ok by {
            assert(outcomes[k] is Ok);
        }
        successes_go_on(items, before);
        assert(outcomes[outcomes.len() - 1] is Ok);
    }
}

/// A reload is committed when every step succeeds, and is not once a replacement has failed.
pub proof fn reloads_commit_when_nothing_fails(
    items: Seq<ItemModel>,
    outcomes: Seq<Result<(), Seq<char>>>,
)
    requires
        reloaded(items, outcomes).1 is Finished,
    ensures
        (forall|k: int| 0 <= k < outcomes.len() ==> (#[trigger] outcomes[k]) is Ok) ==> reloaded(
            items,
            outcomes,
        ).1->committed,
        forall|k: int|
            0 <= k < outcomes.len() && (#[trigger] outcomes[k]) is Err && reloaded(
                items,
                outcomes.take(k),
            ).1 is Replacing ==> !reloaded(items, outcomes).1->committed,
{
    if forall|k: int| 0 <= k < outcomes.len() ==> (#[trigger] outcomes[k]) is Ok {
        successes_go_on(items, outcomes);
    }
    assert forall|k: int|
        0 <= k < outcomes.len() && (#[trigger] outcomes[k]) is Err && reloaded(
            items,
            outcomes.take(k),
        ).1 is Replacing implies !reloaded(items, outcomes).1->committed by {
        let now = outcomes.take(k + 1);
        assert(now.drop_last() =~= outcomes.take(k));
        assert(now.last() == outcomes[k]);
        giving_up_is_final(items, outcomes, k + 1);
    }
}

proof fn first_change_found(items: Seq<ItemModel>, from: int)
    requires
        0 <= from,
    ensures
        first_change(items, from) matches Some(i) ==> from <= i < items.len() && is_change(items[i]),
    decreases items.len() - from,
{
    if from < items.len() && !is_change(items[from]) {
        first_change_found(items, from + 1);
    }
}

proof fn last_change_found(items: Seq<ItemModel>, below: int)
    ensures
        last_change(items, below) matches Some(i) ==> 0 <= i < below && below <= items.len()
            && is_change(items[i]),
    decreases below,
{
    if 0 < below <= items.len() && !is_change(items[below - 1]) {
        last_change_found(items, below - 1);
    }
}

/// What is known of the fates while a reload runs.
spec fn fates_so_far(
    start: Seq<ItemModel>,
    items: Seq<ItemModel>,
    phase: ReloadPhase,
) -> bool {
    &&& items.len() == start.len()
    &&& forall|k: int|
        0 <= k < start.len() ==> {
            &&& (#[trigger] items[k]).entry == start[k].entry
            &&& items[k].previous == start[k].previous
            &&& items[k].candidate == start[k].candidate
            &&& start[k].previous == start[k].candidate ==> items[k].status == start[k].status
        }
    &&& match phase {
        ReloadPhase::Replacing(i) => {
            &&& i < start.len()
            &&& is_change(start[i as int])
            &&& forall|k: int| 0 <= k < start.len() ==> (#[trigger] items[k]).status
                == start[k].status
        },
        ReloadPhase::Restoring { failed, at } => {
            &&& at <= failed < start.len()
            &&& is_change(start[at as int])
            &&& is_change(start[failed as int])
            &&& failed_or_stuck(items[failed as int].status)
            &&& forall|k: int|
                at < k < failed && is_change(start[k]) ==> undone_or_stuck(
                    (#[trigger] items[k]).status,
                )
            &&& forall|k: int|
                (k < at || k > failed) && 0 <= k < start.len() ==> (#[trigger] items[k]).status
                    == start[k].status
        },
        ReloadPhase::Finished { committed } => if committed {
            forall|k: int|
                0 <= k < start.len() && is_change(start[k]) ==> (#[trigger] items[k]).status
                    == Some(ReloadStatusModel::Updated)
        } else {
            exists|failed: int|
                {
                    &&& 0 <= failed < start.len()
                    &&& is_change(#[trigger] start[failed])
                    &&& failed_or_stuck(items[failed].status)
                    &&& forall|k: int|
                        0 <= k < failed && is_change(start[k]) ==> undone_or_stuck(
                            (#[trigger] items[k]).status,
                        )
                    &&& forall|k: int|
                        failed < k < start.len() ==> (#[trigger] items[k]).status
                            == start[k].status
                }
        },
    }
}

/// Replacing failed, or undoing it did.
pub open spec fn failed_or_stuck(status: Option<ReloadStatusModel>) -> bool {
    status matches Some(known) && (known is Failed || known is RollbackFailed)
}

/// The change was undone, or undoing it failed.
pub open spec fn undone_or_stuck(status: Option<ReloadStatusModel>) -> bool {
    status matches Some(known) && (known is RolledBack || known is RollbackFailed)
}

proof fn fates_continue(
    start: Seq<ItemModel>,
    items: Seq<ItemModel>,
    phase: ReloadPhase,
    outcome: Result<(), Seq<char>>,
)
    requires
        start.len() <= usize::MAX,
        fates_so_far(start, items, phase),
    ensures
        fates_so_far(start, stepped(items, phase, outcome).0, stepped(items, phase, outcome).1),
{
    let (after, next) = stepped(items, phase, outcome);
    match phase {
        ReloadPhase::Replacing(i) => {
            first_change_found(items, i + 1);
            match outcome {
                Ok(_) => {
                    if next is Finished {
                        assert(after == all_updated(items));
                    }
                },
                Err(_) => {},
            }
        },
        ReloadPhase::Restoring { failed, at } => {
            let item = items[at as int];
            last_change_found(after, at as int);
            assert(after[at as int].status == restored_status(item, at == failed, outcome));
            assert forall|k: int|
                {
                    let low = match last_change(after, at as int) {
                        Some(j) => j,
                        None => -1,
                    };
                    low < k < failed && is_change(start[k])
                } implies undone_or_stuck((#[trigger] after[k]).status) by {
                if k < at {
                    between_changes(after, at as int, k);
                    assert(is_change(after[k]));
                } else if k > at {
                    assert(after[k] == items[k]);
                }
            }
            if at == failed {
                assert(failed_or_stuck(after[failed as int].status));
            } else {
                assert(after[failed as int] == items[failed as int]);
            }
            if next == (ReloadPhase::Finished { committed: false }) {
                assert(is_change(start[failed as int]));
            }
        },
        ReloadPhase::Finished { .. } => {},
    }
}

proof fn between_changes(items: Seq<ItemModel>, below: int, k: int)
    requires
        0 <= k < below <= items.len(),
        is_change(items[k]),
    ensures
        last_change(items, below) matches Some(j) && k <= j,
    decreases below,
{
    if !is_change(items[below - 1]) {
        between_changes(items, below - 1, k);
    }
}

proof fn fates_are_known(start: Seq<ItemModel>, outcomes: Seq<Result<(), Seq<char>>>)
    requires
        start.len() <= usize::MAX,
    ensures
        fates_so_far(start, reloaded(start, outcomes).0, reloaded(start, outcomes).1),
    decreases outcomes.len(),
{
    if outcomes.len() == 0 {
        first_change_found(start, 0);
        if replacing_from(start, 0) is Finished {
            assert forall|k: int| 0 <= k < start.len() && is_change(start[k]) implies (
            #[trigger] start[k]).status == Some(ReloadStatusModel::Updated) by {
                some_change(start, 0, k);
            }
        }
    } else {
        fates_are_known(start, outcomes.drop_last());
        let (before, phase, _) = reloaded(start, outcomes.drop_last());
        fates_continue(start, before, phase, outcomes.last());
    }
}

proof fn some_change(items: Seq<ItemModel>, from: int, k: int)
    requires
        0 <= from <= k < items.len(),
        is_change(items[k]),
    ensures
        first_change(items, from) is Some,
    decreases items.len() - from,
{
    if !is_change(items[from]) {
        some_change(items, from + 1, k);
    }
}

/// Once a reload is over, its items say what became of them. After a commit every change is
/// updated. Otherwise one change failed, every change before it was undone, and those behind it
/// were never tried; where undoing failed, that is said instead. What changes nothing is said to
/// be what it was from the start.
pub proof fn fates_are_told(start: Seq<ItemModel>, outcomes: Seq<Result<(), Seq<char>>>)
    requires
        start.len() <= usize::MAX,
        reloaded(start, outcomes).1 is Finished,
    ensures
        ({
            let (items, phase, _) = reloaded(start, outcomes);
            &&& items.len() == start.len()
            &&& forall|k: int|
                0 <= k < start.len() ==> {
                    &&& (#[trigger] items[k]).entry == start[k].entry
                    &&& items[k].previous == start[k].previous
                    &&& items[k].candidate == start[k].candidate
                    &&& start[k].previous == start[k].candidate ==> items[k].status
                        == start[k].status
                }
            &&& phase->committed ==> forall|k: int|
                0 <= k < start.len() && start[k].previous != start[k].candidate ==> (
                #[trigger] items[k]).status == Some(ReloadStatusModel::Updated)
            &&& !phase->committed ==> exists|failed: int|
                {
                    &&& 0 <= failed < start.len()
                    &&& (#[trigger] start[failed]).previous != start[failed].candidate
                    &&& failed_or_stuck(items[failed].status)
                    &&& forall|k: int|
                        0 <= k < failed && start[k].previous != start[k].candidate
                            ==> undone_or_stuck((#[trigger] items[k]).status)
                    &&& forall|k: int|
                        failed < k < start.len() ==> (#[trigger] items[k]).status
                            == start[k].status
                }
        }),
{
    fates_are_known(start, outcomes);
    let (items, phase, _) = reloaded(start, outcomes);
    if !phase->committed {
        let failed = choose|failed: int|
            {
                &&& 0 <= failed < start.len()
                &&& is_change(#[trigger] start[failed])
                &&& failed_or_stuck(items[failed].status)
                &&& forall|k: int|
                    0 <= k < failed && is_change(start[k]) ==> undone_or_stuck(
                        (#[trigger] items[k]).status,
                    )
                &&& forall|k: int|
                    failed < k < start.len() ==> (#[trigger] items[k]).status == start[k].status
            };
        assert(start[failed].previous != start[failed].candidate);
    }
}

} // verus!
