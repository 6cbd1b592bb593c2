//! Transactional hot reload of artifacts.
use crate::artifact::ArtifactHash;
use crate::order::{entries_facts, entry_at, entry_keys, same_text, TextMap, TextSet};
use crate::text::{group_views, views};
use vstd::prelude::*;

verus! {

broadcast use group_views;

/// How an entry fared in a reload.
#[derive(Clone, Debug, PartialEq, Eq)]
pub enum ReloadStatus {
    Updated,
    Unchanged,
    Failed(String),
    RolledBack,
    RollbackFailed(String),
}

/// How an entry fared in a reload.
pub enum ReloadStatusModel {
    Updated,
    Unchanged,
    Failed(Seq<char>),
    RolledBack,
    RollbackFailed(Seq<char>),
}

impl View for ReloadStatus {
    type V = ReloadStatusModel;

    open spec fn view(&self) -> ReloadStatusModel {
        match self {
            ReloadStatus::Updated => ReloadStatusModel::Updated,
            ReloadStatus::Unchanged => ReloadStatusModel::Unchanged,
            ReloadStatus::Failed(message) => ReloadStatusModel::Failed(message@),
            ReloadStatus::RolledBack => ReloadStatusModel::RolledBack,
            ReloadStatus::RollbackFailed(message) => ReloadStatusModel::RollbackFailed(message@),
        }
    }
}

impl ReloadStatus {
    fn duplicate(&self) -> (r: ReloadStatus)
        ensures
            r@ == self@,
    {
        match self {
            ReloadStatus::Updated => ReloadStatus::Updated,
            ReloadStatus::Unchanged => ReloadStatus::Unchanged,
            ReloadStatus::Failed(message) => ReloadStatus::Failed(message.clone()),
            ReloadStatus::RolledBack => ReloadStatus::RolledBack,
            ReloadStatus::RollbackFailed(message) => ReloadStatus::RollbackFailed(message.clone()),
        }
    }
}

/// What a report says of one entry.
pub struct EntryReloadModel {
    pub entry: Seq<char>,
    pub previous: Seq<u8>,
    pub candidate: Option<Seq<u8>>,
    pub status: ReloadStatusModel,
}

#[derive(Clone, Debug, PartialEq, Eq)]
pub struct EntryReload {
    pub entry: String,
    pub previous: ArtifactHash,
    pub candidate: Option<ArtifactHash>,
    pub status: ReloadStatus,
}

impl View for EntryReload {
    type V = EntryReloadModel;

    open spec fn view(&self) -> EntryReloadModel {
        EntryReloadModel {
            entry: self.entry@,
            previous: self.previous@,
            candidate: match self.candidate {
                Some(hash) => Some(hash@),
                None => None,
            },
            status: self.status@,
        }
    }
}

/// The outcome of a reload.
#[derive(Clone, Debug, PartialEq, Eq)]
pub struct ReloadReport {
    pub committed: bool,
    pub entries: Vec<EntryReload>,
}

/// Why a reload step failed.
#[derive(Clone, Debug, PartialEq, Eq)]
pub enum HmrError {
    Preflight(String),
    Apply(String),
    Watch(String),
}

/// The message a reload error is shown with.
pub open spec fn hmr_error_text(e: HmrError) -> Seq<char> {
    match e {
        HmrError::Preflight(message) => "artifact preflight failed: "@ + message@,
        HmrError::Apply(message) => "reload apply failed: "@ + message@,
        HmrError::Watch(message) => "artifact watcher failed: "@ + message@,
    }
}

impl HmrError {
    pub fn message(&self) -> (r: String)
        ensures
            r@ == hmr_error_text(*self),
    {
        match self {
            HmrError::Preflight(message) => {
                let mut out = "artifact preflight failed: ".to_owned();
                out.append(message.as_str());
                out
            },
            HmrError::Apply(message) => {
                let mut out = "reload apply failed: ".to_owned();
                out.append(message.as_str());
                out
            },
            HmrError::Watch(message) => {
                let mut out = "artifact watcher failed: ".to_owned();
                out.append(message.as_str());
                out
            },
        }
    }
}

/// One candidate of a reload.
pub struct ItemModel {
    pub entry: Seq<char>,
    pub previous: Seq<u8>,
    pub candidate: Seq<u8>,
    pub status: Option<ReloadStatusModel>,
}

/// One candidate of a reload and, once it is known, how it fared.
#[derive(Debug)]
pub struct ReloadItem {
    pub entry: String,
    pub previous: ArtifactHash,
    pub candidate: ArtifactHash,
    pub status: Option<ReloadStatus>,
}

impl View for ReloadItem {
    type V = ItemModel;

    open spec fn view(&self) -> ItemModel {
        ItemModel {
            entry: self.entry@,
            previous: self.previous@,
            candidate: self.candidate@,
            status: match self.status {
                Some(status) => Some(status@),
                None => None,
            },
        }
    }
}

/// The candidate differs from what is running.
pub open spec fn is_change(item: ItemModel) -> bool {
    item.previous != item.candidate
}

/// The first change at or after `from`.
pub open spec fn first_change(items: Seq<ItemModel>, from: int) -> Option<int>
    decreases items.len() - from,
{
    if from < 0 || from >= items.len() {
        None
    } else if is_change(items[from]) {
        Some(from)
    } else {
        first_change(items, from + 1)
    }
}

/// The last change before `below`.
pub open spec fn last_change(items: Seq<ItemModel>, below: int) -> Option<int>
    decreases below,
{
    if below <= 0 || below > items.len() {
        None
    } else if is_change(items[below - 1]) {
        Some(below - 1)
    } else {
        last_change(items, below - 1)
    }
}

/// All changes marked as updated.
pub open spec fn all_updated(items: Seq<ItemModel>) -> Seq<ItemModel> {
    Seq::new(
        items.len(),
        |i: int|
            if is_change(items[i]) {
                ItemModel { status: Some(ReloadStatusModel::Updated), ..items[i] }
            } else {
                items[i]
            },
    )
}

/// The first `n` entries of a report: every candidate whose fate is known, in text order.
pub open spec fn reported(items: Seq<ItemModel>, n: nat) -> Seq<EntryReloadModel>
    decreases n,
{
    if n == 0 {
        Seq::empty()
    } else {
        let before = reported(items, (n - 1) as nat);
        match items[n - 1].status {
            Some(status) => before.push(
                EntryReloadModel {
                    entry: items[n - 1].entry,
                    previous: items[n - 1].previous,
                    candidate: Some(items[n - 1].candidate),
                    status,
                },
            ),
            None => before,
        }
    }
}

/// The candidates among the first `n` for entries that are running, in text order. Those that
/// change nothing are settled at once.
pub open spec fn planned(
    current: Map<Seq<char>, ArtifactHash>,
    keys: Seq<Seq<char>>,
    candidates: Map<Seq<char>, ArtifactHash>,
    n: nat,
) -> Seq<ItemModel>
    decreases n,
{
    if n == 0 {
        Seq::empty()
    } else {
        let before = planned(current, keys, candidates, (n - 1) as nat);
        let key = keys[n - 1];
        if current.dom().contains(key) {
            before.push(
                ItemModel {
                    entry: key,
                    previous: current[key]@,
                    candidate: candidates[key]@,
                    status: if current[key]@ == candidates[key]@ {
                        Some(ReloadStatusModel::Unchanged)
                    } else {
                        None
                    },
                },
            )
        } else {
            before
        }
    }
}

/// Where a reload is.
#[derive(Clone, Copy, Debug, PartialEq, Eq, Structural)]
pub enum ReloadPhase {
    /// The change at this position is being applied.
    Replacing(usize),
    /// The change at `failed` could not be applied; the one at `at` is being undone.
    Restoring { failed: usize, at: usize },
    /// Everything is applied, or everything attempted has been undone.
    Finished { committed: bool },
}

/// A reload of several entries that happens as a whole or not at all.
#[derive(Debug)]
pub struct ReloadTransaction {
    pub items: Vec<ReloadItem>,
    pub phase: ReloadPhase,
}

/// The phase after all changes before `from` have been applied.
pub open spec fn replacing_from(items: Seq<ItemModel>, from: int) -> ReloadPhase {
    match first_change(items, from) {
        Some(i) => ReloadPhase::Replacing(i as usize),
        None => ReloadPhase::Finished { committed: true },
    }
}

/// The phase after the change at `at` has been undone.
pub open spec fn restoring_below(items: Seq<ItemModel>, failed: usize, at: int) -> ReloadPhase {
    match last_change(items, at) {
        Some(i) => ReloadPhase::Restoring { failed, at: i as usize },
        None => ReloadPhase::Finished { committed: false },
    }
}

/// The status of the change at `at` after it has been undone. The one that failed keeps its own
/// error unless undoing it failed too.
pub open spec fn restored_status(
    item: ItemModel,
    failed: bool,
    result: Result<(), Seq<char>>,
) -> Option<ReloadStatusModel> {
    match result {
        Err(message) => Some(ReloadStatusModel::RollbackFailed(message)),
        Ok(_) => if failed {
            item.status
        } else {
            Some(ReloadStatusModel::RolledBack)
        },
    }
}

/// The outcome of an outside step.
pub open spec fn step_result(result: Result<(), String>) -> Result<(), Seq<char>> {
    match result {
        Ok(_) => Ok(()),
        Err(message) => Err(message@),
    }
}

/// The items and the phase after a step with its outcome.
pub open spec fn stepped(
    items: Seq<ItemModel>,
    phase: ReloadPhase,
    outcome: Result<(), Seq<char>>,
) -> (Seq<ItemModel>, ReloadPhase) {
    match phase {
        ReloadPhase::Replacing(i) => match outcome {
            Ok(_) => {
                let next = replacing_from(items, i + 1);
                (
                    if next is Finished {
                        all_updated(items)
                    } else {
                        items
                    },
                    next,
                )
            },
            Err(message) => (
                items.update(
                    i as int,
                    ItemModel {
                        status: Some(ReloadStatusModel::Failed(message)),
                        ..items[i as int]
                    },
                ),
                ReloadPhase::Restoring { failed: i, at: i },
            ),
        },
        ReloadPhase::Restoring { failed, at } => {
            let item = items[at as int];
            let next = items.update(
                at as int,
                ItemModel { status: restored_status(item, at == failed, outcome), ..item },
            );
            (next, restoring_below(next, failed, at as int))
        },
        ReloadPhase::Finished { .. } => (items, phase),
    }
}

impl ReloadTransaction {
    pub open spec fn model(&self) -> Seq<ItemModel> {
        views(self.items@)
    }

    /// The phase points at a change.
    pub open spec fn wf(&self) -> bool {
        match self.phase {
            ReloadPhase::Replacing(i) => i < self.items@.len() && is_change(self.model()[i as int]),
            ReloadPhase::Restoring { failed, at } => at <= failed < self.items@.len() && is_change(
                self.model()[at as int],
            ),
            ReloadPhase::Finished { .. } => true,
        }
    }

    /// Plans a reload of the running entries that have a candidate.
    pub fn new(current: &TextMap<ArtifactHash>, candidates: &TextMap<ArtifactHash>) -> (r:
        ReloadTransaction)
        requires
            current.wf(),
            candidates.wf(),
        ensures
            r.wf(),
            r.model() == planned(
                current@,
                entry_keys(candidates.entries@),
                candidates@,
                candidates.entries@.len(),
            ),
            r.phase == replacing_from(r.model(), 0),
    {
        let ghost keys = entry_keys(candidates.entries@);
        proof {
            entries_facts(candidates.entries@);
        }
        let mut items: Vec<ReloadItem> = Vec::new();
        let mut i: usize = 0;
        proof {
            assert(views(items@) =~= planned(current@, keys, candidates@, 0));
        }
        while i < candidates.entries.len()
            invariant
                current.wf(),
                candidates.wf(),
                keys == entry_keys(candidates.entries@),
                i <= candidates.entries.len(),
                views(items@) == planned(current@, keys, candidates@, i as nat),
            decreases candidates.entries.len() - i,
        {
            let entry = &candidates.entries[i];
            proof {
                entries_facts(candidates.entries@);
                assert(keys[i as int] == entry.key@);
                assert(candidates@[candidates.entries@[i as int].key@]
                    == candidates.entries@[i as int].value);
            }
            match current.get(entry.key.as_str()) {
                Some(previous) => {
                    let status = if previous.same(&entry.value) {
                        Some(ReloadStatus::Unchanged)
                    } else {
                        None
                    };
                    items.push(
                        ReloadItem {
                            entry: entry.key.clone(),
                            previous: previous.duplicate(),
                            candidate: entry.value.duplicate(),
                            status,
                        },
                    );
                },
                None => {},
            }
            i = i + 1;
        }
        let mut r = ReloadTransaction {
            items,
            phase: ReloadPhase::Finished { committed: true },
        };
        r.phase = r.replacing(0);
        r
    }

    fn replacing(&self, from: usize) -> (r: ReloadPhase)
        requires
            from <= self.items.len(),
        ensures
            r == replacing_from(self.model(), from as int),
            r matches ReloadPhase::Replacing(i) ==> i < self.items@.len() && is_change(
                self.model()[i as int],
            ),
    {
        let mut i: usize = from;
        while i < self.items.len()
            invariant
                from <= i <= self.items.len(),
                first_change(self.model(), from as int) == first_change(self.model(), i as int),
            decreases self.items.len() - i,
        {
            if !self.items[i].previous.same(&self.items[i].candidate) {
                proof {
                    assert(self.model()[i as int] == self.items@[i as int]@);
                }
                return ReloadPhase::Replacing(i);
            }
            proof {
                assert(self.model()[i as int] == self.items@[i as int]@);
            }
            i = i + 1;
        }
        ReloadPhase::Finished { committed: true }
    }

    fn restoring(&self, failed: usize, at: usize) -> (r: ReloadPhase)
        requires
            at <= failed < self.items.len(),
        ensures
            r == restoring_below(self.model(), failed, at as int),
            r matches ReloadPhase::Restoring { failed: f, at: i } ==> f == failed && i < at
                && is_change(self.model()[i as int]),
    {
        let mut i: usize = at;
        while i > 0
            invariant
                i <= at <= failed < self.items.len(),
                last_change(self.model(), at as int) == last_change(self.model(), i as int),
            decreases i,
        {
            i = i - 1;
            proof {
                assert(self.model()[i as int] == self.items@[i as int]@);
            }
            if !self.items[i].previous.same(&self.items[i].candidate) {
                return ReloadPhase::Restoring { failed, at: i };
            }
        }
        ReloadPhase::Finished { committed: false }
    }

    /// Takes note of how applying the current change went.
    pub fn replaced(&mut self, result: Result<(), String>)
        requires
            old(self).wf(),
            old(self).phase is Replacing,
        ensures
            final(self).wf(),
            (final(self).model(), final(self).phase) == stepped(
                old(self).model(),
                old(self).phase,
                step_result(result),
            ),
    {
        let i: usize = match self.phase {
            ReloadPhase::Replacing(i) => i,
            _ => 0,
        };
        let ghost before = self.model();
        proof {
            assert(before[i as int] == self.items@[i as int]@);
        }
        match result {
            Err(message) => {
                let ghost text = message@;
                self.items[i].status = Some(ReloadStatus::Failed(message));
                self.phase = ReloadPhase::Restoring { failed: i, at: i };
                proof {
                    let next = ItemModel {
                        status: Some(ReloadStatusModel::Failed(text)),
                        ..before[i as int]
                    };
                    assert(self.model() =~= before.update(i as int, next));
                }
            },
            Ok(_) => {
                let count = self.items.len();
                assert(i < count);
                let phase = self.replacing(i + 1);
                let done = match phase {
                    ReloadPhase::Replacing(_) => false,
                    _ => true,
                };
                self.phase = phase;
                if done {
                    self.mark_updated();
                }
            },
        }
    }

    fn mark_updated(&mut self)
        ensures
            final(self).phase == old(self).phase,
            final(self).model() == all_updated(old(self).model()),
    {
        let ghost before = self.model();
        let ghost all = all_updated(before);
        let mut i: usize = 0;
        while i < self.items.len()
            invariant
                before == old(self).model(),
                all == all_updated(before),
                self.phase == old(self).phase,
                self.items@.len() == before.len(),
                i <= self.items.len(),
                forall|k: int| 0 <= k < i ==> #[trigger] self.model()[k] == all[k],
                forall|k: int| i <= k < before.len() ==> #[trigger] self.model()[k] == before[k],
            decreases self.items.len() - i,
        {
            let ghost mid = self.model();
            proof {
                assert(mid[i as int] == self.items@[i as int]@);
            }
            if !self.items[i].previous.same(&self.items[i].candidate) {
                self.items[i].status = Some(ReloadStatus::Updated);
            }
            proof {
                assert(self.items@[i as int]@ == all[i as int]);
                assert(self.model() =~= mid.update(i as int, all[i as int]));
            }
            i = i + 1;
        }
        proof {
            assert(self.model() =~= all);
        }
    }

    /// Takes note of how undoing the current change went.
    pub fn restored(&mut self, result: Result<(), String>)
        requires
            old(self).wf(),
            old(self).phase is Restoring,
        ensures
            final(self).wf(),
            (final(self).model(), final(self).phase) == stepped(
                old(self).model(),
                old(self).phase,
                step_result(result),
            ),
    {
        let (failed, at): (usize, usize) = match self.phase {
            ReloadPhase::Restoring { failed, at } => (failed, at),
            _ => (0, 0),
        };
        let ghost before = self.model();
        let ghost outcome = step_result(result);
        proof {
            assert(before[at as int] == self.items@[at as int]@);
        }
        match result {
            Err(message) => {
                self.items[at].status = Some(ReloadStatus::RollbackFailed(message));
            },
            Ok(_) => {
                if at != failed {
                    self.items[at].status = Some(ReloadStatus::RolledBack);
                }
            },
        }
        proof {
            let next = ItemModel {
                status: restored_status(before[at as int], at == failed, outcome),
                ..before[at as int]
            };
            assert(self.items@[at as int]@ == next);
            assert(self.model() =~= before.update(at as int, next));
        }
        self.phase = self.restoring(failed, at);
    }

    /// The report of a finished reload.
    pub fn report(&self) -> (r: ReloadReport)
        requires
            self.phase is Finished,
        ensures
            r.committed == self.phase->committed,
            views(r.entries@) == reported(self.model(), self.model().len()),
    {
        let mut entries: Vec<EntryReload> = Vec::new();
        let mut i: usize = 0;
        proof {
            assert(views(entries@) =~= reported(self.model(), 0));
        }
        while i < self.items.len()
            invariant
                i <= self.items.len(),
                views(entries@) == reported(self.model(), i as nat),
            decreases self.items.len() - i,
        {
            let item = &self.items[i];
            proof {
                assert(self.model()[i as int] == item@);
            }
            match &item.status {
                Some(status) => {
                    entries.push(
                        EntryReload {
                            entry: item.entry.clone(),
                            previous: item.previous.duplicate(),
                            candidate: Some(item.candidate.duplicate()),
                            status: status.duplicate(),
                        },
                    );
                },
                None => {},
            }
            i = i + 1;
        }
        let committed = match self.phase {
            ReloadPhase::Finished { committed } => committed,
            _ => false,
        };
        ReloadReport { committed, entries }
    }
}

proof fn last_change_skips_nothing(items: Seq<ItemModel>, below: int, k: int)
    requires
        0 <= k < below <= items.len(),
        is_change(items[k]),
    ensures
        last_change(items, below) is Some,
        k <= last_change(items, below)->Some_0 < below,
    decreases below,
{
    if !is_change(items[below - 1]) {
        last_change_skips_nothing(items, below - 1, k);
    }
}

/// A rollback undoes every attempted change, the latest first: below the change just undone the
/// next one to undo is the closest change before it, and it ends only when none is left.
pub proof fn rollback_undoes_in_reverse(items: Seq<ItemModel>, failed: usize, at: int, k: int)
    requires
        0 <= k < at <= items.len(),
        items.len() <= usize::MAX,
        is_change(items[k]),
    ensures
        restoring_below(items, failed, at) is Restoring,
        k <= restoring_below(items, failed, at)->at < at,
{
    last_change_skips_nothing(items, at, k);
}

/// Where a reload is after the outcomes of its steps, one after another, and which artifact each
/// entry runs by then. An entry whose replacement failed runs an unknown one.
pub open spec fn reloaded(items: Seq<ItemModel>, outcomes: Seq<Result<(), Seq<char>>>) -> (
    Seq<ItemModel>,
    ReloadPhase,
    Seq<Option<Seq<u8>>>,
)
    decreases outcomes.len(),
{
    if outcomes.len() == 0 {
        (
            items,
            replacing_from(items, 0),
            Seq::new(items.len(), |i: int| Some(items[i].previous)),
        )
    } else {
        let (before, phase, runs) = reloaded(items, outcomes.drop_last());
        let outcome = outcomes.last();
        let (after, next) = stepped(before, phase, outcome);
        (
            after,
            next,
            match phase {
                ReloadPhase::Replacing(i) => runs.update(
                    i as int,
                    if outcome is Ok {
                        Some(items[i as int].candidate)
                    } else {
                        None
                    },
                ),
                ReloadPhase::Restoring { at, .. } => runs.update(
                    at as int,
                    if outcome is Ok {
                        Some(items[at as int].previous)
                    } else {
                        None
                    },
                ),
                ReloadPhase::Finished { .. } => runs,
            },
        )
    }
}

/// The change could not be undone.
pub open spec fn stuck(item: ItemModel) -> bool {
    item.status matches Some(status) && status is RollbackFailed
}

/// The same candidates, whatever became of them.
spec fn same_candidates(a: Seq<ItemModel>, b: Seq<ItemModel>) -> bool {
    a.len() == b.len() && forall|i: int|
        0 <= i < a.len() ==> a[i].previous == (#[trigger] b[i]).previous && a[i].candidate
            == b[i].candidate
}

spec fn on_course(
    start: Seq<ItemModel>,
    items: Seq<ItemModel>,
    phase: ReloadPhase,
    runs: Seq<Option<Seq<u8>>>,
) -> bool {
    &&& same_candidates(start, items)
    &&& runs.len() == start.len()
    &&& match phase {
        ReloadPhase::Replacing(i) => {
            &&& i < start.len()
            &&& is_change(start[i as int])
            &&& forall|k: int| 0 <= k < i ==> #[trigger] runs[k] == Some(start[k].candidate)
            &&& forall|k: int|
                i <= k < start.len() ==> #[trigger] runs[k] == Some(start[k].previous)
        },
        ReloadPhase::Restoring { failed, at } => {
            &&& at <= failed < start.len()
            &&& is_change(start[at as int])
            &&& forall|k: int| 0 <= k < at ==> #[trigger] runs[k] == Some(start[k].candidate)
            &&& forall|k: int|
                at < k < start.len() ==> stuck(items[k]) || #[trigger] runs[k] == Some(
                    start[k].previous,
                )
        },
        ReloadPhase::Finished { committed } => if committed {
            forall|k: int|
                0 <= k < start.len() ==> #[trigger] runs[k] == Some(start[k].candidate)
        } else {
            forall|k: int|
                0 <= k < start.len() ==> stuck(items[k]) || #[trigger] runs[k] == Some(
                    start[k].previous,
                )
        },
    }
}

proof fn first_change_is_first(items: Seq<ItemModel>, from: int)
    requires
        0 <= from,
    ensures
        match first_change(items, from) {
            Some(i) => from <= i < items.len() && is_change(items[i]) && forall|k: int|
                from <= k < i ==> !is_change(#[trigger] items[k]),
            None => forall|k: int| from <= k < items.len() ==> !is_change(#[trigger] items[k]),
        },
    decreases items.len() - from,
{
    if from < items.len() && !is_change(items[from]) {
        first_change_is_first(items, from + 1);
    }
}

proof fn last_change_is_last(items: Seq<ItemModel>, below: int)
    requires
        0 <= below <= items.len(),
    ensures
        match last_change(items, below) {
            Some(i) => 0 <= i < below && is_change(items[i]) && forall|k: int|
                i < k < below ==> !is_change(#[trigger] items[k]),
            None => forall|k: int| 0 <= k < below ==> !is_change(#[trigger] items[k]),
        },
    decreases below,
{
    if below > 0 && !is_change(items[below - 1]) {
        last_change_is_last(items, below - 1);
    }
}

proof fn stays_on_course(
    start: Seq<ItemModel>,
    items: Seq<ItemModel>,
    phase: ReloadPhase,
    runs: Seq<Option<Seq<u8>>>,
    outcome: Result<(), Seq<char>>,
    then: Seq<Option<Seq<u8>>>,
)
    requires
        start.len() <= usize::MAX,
        on_course(start, items, phase, runs),
        then == match phase {
            ReloadPhase::Replacing(i) => runs.update(
                i as int,
                if outcome is Ok {
                    Some(start[i as int].candidate)
                } else {
                    None
                },
            ),
            ReloadPhase::Restoring { at, .. } => runs.update(
                at as int,
                if outcome is Ok {
                    Some(start[at as int].previous)
                } else {
                    None
                },
            ),
            ReloadPhase::Finished { .. } => runs,
        },
    ensures
        on_course(
            start,
            stepped(items, phase, outcome).0,
            stepped(items, phase, outcome).1,
            then,
        ),
{
    let (after, next) = stepped(items, phase, outcome);
    assert(forall|k: int| 0 <= k < items.len() ==> is_change(#[trigger] items[k]) == is_change(start[k]));
    match phase {
        ReloadPhase::Replacing(i) => {
            if outcome is Ok {
                first_change_is_first(items, i + 1);
                assert forall|k: int|
                    i < k < start.len() && !is_change(#[trigger] start[k]) implies then[k] == Some(
                    start[k].candidate,
                ) by {
                    assert(runs[k] == Some(start[k].previous));
                }
                match first_change(items, i + 1) {
                    Some(j) => {
                        assert forall|k: int| 0 <= k < j implies #[trigger] then[k] == Some(
                            start[k].candidate,
                        ) by {
                            if k < i {
                                assert(runs[k] == Some(start[k].candidate));
                            } else if k > i {
                                assert(!is_change(items[k]));
                                assert(!is_change(start[k]));
                            }
                        }
                        assert forall|k: int| j <= k < start.len() implies #[trigger] then[k]
                            == Some(start[k].previous) by {
                            assert(runs[k] == Some(start[k].previous));
                        }
                    },
                    None => {
                        assert forall|k: int| 0 <= k < start.len() implies #[trigger] then[k]
                            == Some(start[k].candidate) by {
                            if k < i {
                                assert(runs[k] == Some(start[k].candidate));
                            } else if k > i {
                                assert(!is_change(items[k]));
                                assert(!is_change(start[k]));
                            }
                        }
                    },
                }
            } else {
                assert forall|k: int| 0 <= k < i implies #[trigger] then[k] == Some(
                    start[k].candidate,
                ) by {
                    assert(runs[k] == Some(start[k].candidate));
                }
                assert forall|k: int| i < k < start.len() implies #[trigger] then[k] == Some(
                    start[k].previous,
                ) by {
                    assert(runs[k] == Some(start[k].previous));
                }
            }
        },
        ReloadPhase::Restoring { failed, at } => {
            assert(same_candidates(start, after));
            assert(forall|k: int|
                0 <= k < after.len() ==> is_change(#[trigger] after[k]) == is_change(start[k]));
            last_change_is_last(after, at as int);
            assert forall|k: int| at <= k < start.len() implies stuck(after[k]) || #[trigger] then[k]
                == Some(start[k].previous) by {
                if k > at {
                    assert(after[k] == items[k]);
                    assert(then[k] == runs[k]);
                }
            }
            assert forall|k: int| 0 <= k < at implies #[trigger] then[k] == Some(
                start[k].candidate,
            ) by {
                assert(runs[k] == Some(start[k].candidate));
            }
            let low = match last_change(after, at as int) {
                Some(j) => j,
                None => -1,
            };
            assert forall|k: int| low < k < start.len() implies stuck(after[k]) || #[trigger] then[k]
                == Some(start[k].previous) by {
                if k < at {
                    assert(!is_change(after[k]));
                    assert(!is_change(start[k]));
                    assert(then[k] == Some(start[k].candidate));
                }
            }
        },
        ReloadPhase::Finished { .. } => {},
    }
}

/// A reload happens as a whole or not at all: whichever steps fail, once it is over every entry
/// runs its candidate, or every entry runs what it ran before, except where the report says that
/// undoing its change failed.
pub proof fn reloads_are_all_or_nothing(
    items: Seq<ItemModel>,
    outcomes: Seq<Result<(), Seq<char>>>,
    k: int,
)
    requires
        items.len() <= usize::MAX,
        0 <= k < items.len(),
        reloaded(items, outcomes).1 is Finished,
    ensures
        ({
            let (after, phase, runs) = reloaded(items, outcomes);
            if phase->committed {
                runs[k] == Some(items[k].candidate)
            } else {
                stuck(after[k]) || runs[k] == Some(items[k].previous)
            }
        }),
{
    course_is_kept(items, outcomes);
}

proof fn course_is_kept(items: Seq<ItemModel>, outcomes: Seq<Result<(), Seq<char>>>)
    requires
        items.len() <= usize::MAX,
    ensures
        on_course(
            items,
            reloaded(items, outcomes).0,
            reloaded(items, outcomes).1,
            reloaded(items, outcomes).2,
        ),
    decreases outcomes.len(),
{
    if outcomes.len() == 0 {
        first_change_is_first(items, 0);
        let runs = reloaded(items, outcomes).2;
        match first_change(items, 0) {
            Some(i) => {
                assert forall|k: int| 0 <= k < i implies #[trigger] runs[k] == Some(
                    items[k].candidate,
                ) by {
                    assert(!is_change(items[k]));
                }
            },
            None => {
                assert forall|k: int| 0 <= k < items.len() implies #[trigger] runs[k] == Some(
                    items[k].candidate,
                ) by {
                    assert(!is_change(items[k]));
                }
            },
        }
    } else {
        course_is_kept(items, outcomes.drop_last());
        let (before, phase, runs) = reloaded(items, outcomes.drop_last());
        stays_on_course(
            items,
            before,
            phase,
            runs,
            outcomes.last(),
            reloaded(items, outcomes).2,
        );
    }
}

/// Nothing is applied when no candidate differs from what is running: the reload is committed
/// at once.
pub proof fn unchanged_artifacts_need_no_step(items: Seq<ItemModel>, from: int)
    requires
        0 <= from,
        forall|i: int| 0 <= i < items.len() ==> !is_change(#[trigger] items[i]),
    ensures
        replacing_from(items, from) == (ReloadPhase::Finished { committed: true }),
    decreases items.len() - from,
{
    if from < items.len() {
        assert(!is_change(items[from]));
        unchanged_artifacts_need_no_step(items, from + 1);
    }
}

/// Which artifact each entry runs, and where it comes from.
#[derive(Debug)]
pub struct ReloadTracker {
    pub entry_paths: TextMap<String>,
    pub current: TextMap<ArtifactHash>,
}

/// The entries among the first `n` tracked under `path`, in text order.
pub open spec fn tracked_under(
    keys: Seq<Seq<char>>,
    paths: Map<Seq<char>, String>,
    path: Seq<char>,
    n: nat,
) -> Seq<Seq<char>>
    decreases n,
{
    if n == 0 {
        Seq::empty()
    } else {
        let before = tracked_under(keys, paths, path, (n - 1) as nat);
        if paths[keys[n - 1]]@ == path {
            before.push(keys[n - 1])
        } else {
            before
        }
    }
}

/// What a failed preflight reports of the entries of one path.
pub open spec fn preflight_entries(
    entries: Seq<Seq<char>>,
    current: Map<Seq<char>, ArtifactHash>,
    failure: Option<Seq<char>>,
) -> Seq<EntryReloadModel> {
    Seq::new(
        entries.len(),
        |i: int|
            EntryReloadModel {
                entry: entries[i],
                previous: current[entries[i]]@,
                candidate: None,
                status: match failure {
                    Some(message) => ReloadStatusModel::Failed(message),
                    None => ReloadStatusModel::Unchanged,
                },
            },
    )
}

/// Why the artifact at `path` could not be prepared.
pub open spec fn failure_at(failures: Map<Seq<char>, String>, path: Seq<char>) -> Option<Seq<char>> {
    if failures.dom().contains(path) {
        Some(failures[path]@)
    } else {
        None
    }
}

/// What a failed preflight reports of the first `n` changed paths.
pub open spec fn preflight_report(
    tracker: ReloadTracker,
    changed: Seq<Seq<char>>,
    failures: Map<Seq<char>, String>,
    n: nat,
) -> Seq<EntryReloadModel>
    decreases n,
{
    if n == 0 {
        Seq::empty()
    } else {
        let keys = entry_keys(tracker.entry_paths.entries@);
        preflight_report(tracker, changed, failures, (n - 1) as nat) + preflight_entries(
            tracked_under(keys, tracker.entry_paths@, changed[n - 1], keys.len()),
            tracker.current@,
            failure_at(failures, changed[n - 1]),
        )
    }
}

/// The candidates for tracked entries among the first `n`.
pub open spec fn has_candidate(
    paths: Map<Seq<char>, String>,
    prepared: Map<Seq<char>, ArtifactHash>,
    entry: Seq<char>,
) -> bool {
    paths.dom().contains(entry) && prepared.dom().contains(paths[entry]@)
}

impl ReloadTracker {
    /// Every tracked entry runs an artifact.
    pub open spec fn wf(&self) -> bool {
        &&& self.entry_paths.wf()
        &&& self.current.wf()
        &&& forall|entry: Seq<char>| #[trigger]
            self.entry_paths@.dom().contains(entry) ==> self.current@.dom().contains(entry)
    }

    pub fn new() -> (r: ReloadTracker)
        ensures
            r.wf(),
            r.entry_paths@ == Map::<Seq<char>, String>::empty(),
            r.current@ == Map::<Seq<char>, ArtifactHash>::empty(),
    {
        ReloadTracker { entry_paths: TextMap::new(), current: TextMap::new() }
    }

    /// Starts tracking an entry, or moves it to another artifact.
    pub fn track(&mut self, entry: String, path: String, hash: ArtifactHash)
        requires
            old(self).wf(),
        ensures
            final(self).wf(),
            final(self).entry_paths@ == old(self).entry_paths@.insert(entry@, path),
            final(self).current@ == old(self).current@.insert(entry@, hash),
    {
        let _ = self.entry_paths.insert(entry.clone(), path);
        let _ = self.current.insert(entry, hash);
    }

    /// Stops tracking an entry without changing its running instance.
    pub fn untrack(&mut self, entry: &str) -> (r: Option<ArtifactHash>)
        requires
            old(self).wf(),
        ensures
            final(self).wf(),
            final(self).entry_paths@ == old(self).entry_paths@.remove(entry@),
            final(self).current@ == old(self).current@.remove(entry@),
            match r {
                Some(hash) => old(self).current@.dom().contains(entry@)
                    && old(self).current@[entry@] == hash,
                None => !old(self).current@.dom().contains(entry@),
            },
    {
        let _ = self.entry_paths.remove(entry);
        self.current.remove(entry)
    }

    /// The paths of all tracked artifacts.
    pub fn tracked_paths(&self) -> (r: TextSet)
        requires
            self.wf(),
        ensures
            r.wf(),
            forall|path: Seq<char>| #[trigger]
                r@.contains(path) <==> exists|entry: Seq<char>| #[trigger]
                    self.entry_paths@.dom().contains(entry) && self.entry_paths@[entry]@ == path,
    {
        let ghost entries = self.entry_paths.entries@;
        proof {
            entries_facts(entries);
        }
        let mut out = TextSet::new();
        let mut i: usize = 0;
        while i < self.entry_paths.entries.len()
            invariant
                self.wf(),
                entries == self.entry_paths.entries@,
                out.wf(),
                i <= entries.len(),
                forall|path: Seq<char>| #[trigger]
                    out@.contains(path) <==> exists|k: int|
                        0 <= k < i && (#[trigger] entries[k]).value@ == path,
            decreases entries.len() - i,
        {
            let ghost before = out@;
            let path = self.entry_paths.entries[i].value.clone();
            let ghost added = path@;
            let _ = out.insert(path);
            proof {
                assert forall|p: Seq<char>| #[trigger] out@.contains(p) <==> exists|k: int|
                    0 <= k < i + 1 && (#[trigger] entries[k]).value@ == p by {
                    if before.contains(p) {
                        let k = choose|k: int| 0 <= k < i && (#[trigger] entries[k]).value@ == p;
                        assert(entries[k].value@ == p);
                    }
                    if p == added {
                        assert(entries[i as int].value@ == p);
                    }
                }
            }
            i = i + 1;
        }
        proof {
            entries_facts(entries);
            assert forall|path: Seq<char>| #[trigger] out@.contains(path) <==> exists|entry: Seq<char>| #[trigger]
                self.entry_paths@.dom().contains(entry) && self.entry_paths@[entry]@ == path by {
                if out@.contains(path) {
                    let k = choose|k: int|
                        0 <= k < entries.len() && (#[trigger] entries[k]).value@ == path;
                    assert(self.entry_paths@.dom().contains(entries[k].key@));
                    assert(self.entry_paths@[entries[k].key@]@ == path);
                }
                if exists|entry: Seq<char>| #[trigger]
                    self.entry_paths@.dom().contains(entry) && self.entry_paths@[entry]@ == path {
                    let entry = choose|entry: Seq<char>| #[trigger]
                        self.entry_paths@.dom().contains(entry) && self.entry_paths@[entry]@
                            == path;
                    let k = choose|k: int| #[trigger] entry_at(entries, entry, k);
                    assert(entries[k].value@ == path);
                }
            }
        }
        out
    }

    fn entries_under(&self, path: &str) -> (r: Vec<String>)
        requires
            self.wf(),
        ensures
            views(r@) == tracked_under(
                entry_keys(self.entry_paths.entries@),
                self.entry_paths@,
                path@,
                self.entry_paths.entries@.len(),
            ),
            forall|i: int|
                0 <= i < r@.len() ==> self.current@.dom().contains((#[trigger] r@[i])@),
    {
        let ghost keys = entry_keys(self.entry_paths.entries@);
        let mut out: Vec<String> = Vec::new();
        let mut i: usize = 0;
        proof {
            assert(views(out@) =~= tracked_under(keys, self.entry_paths@, path@, 0));
        }
        while i < self.entry_paths.entries.len()
            invariant
                self.wf(),
                keys == entry_keys(self.entry_paths.entries@),
                i <= self.entry_paths.entries.len(),
                views(out@) == tracked_under(keys, self.entry_paths@, path@, i as nat),
                forall|k: int|
                    0 <= k < out@.len() ==> self.current@.dom().contains((#[trigger] out@[k])@),
            decreases self.entry_paths.entries.len() - i,
        {
            let entry = &self.entry_paths.entries[i];
            proof {
                entries_facts(self.entry_paths.entries@);
                assert(keys[i as int] == entry.key@);
                assert(self.entry_paths@.dom().contains(
                    self.entry_paths.entries@[i as int].key@,
                ));
                assert(self.entry_paths@[entry.key@] == entry.value);
            }
            if same_text(entry.value.as_str(), path) {
                out.push(entry.key.clone());
            }
            i = i + 1;
        }
        out
    }

    /// The report when at least one changed artifact could not be prepared. Nothing is applied.
    pub fn preflight_failure_report(&self, changed: &TextSet, failures: &TextMap<String>) -> (r:
        ReloadReport)
        requires
            self.wf(),
            failures.wf(),
        ensures
            !r.committed,
            views(r.entries@) == preflight_report(
                *self,
                views(changed.items@),
                failures@,
                changed.items@.len(),
            ),
    {
        let ghost paths = views(changed.items@);
        let mut entries: Vec<EntryReload> = Vec::new();
        let mut i: usize = 0;
        proof {
            assert(views(entries@) =~= preflight_report(*self, paths, failures@, 0));
        }
        while i < changed.items.len()
            invariant
                self.wf(),
                failures.wf(),
                paths == views(changed.items@),
                i <= changed.items.len(),
                views(entries@) == preflight_report(*self, paths, failures@, i as nat),
            decreases changed.items.len() - i,
        {
            let path = changed.items[i].as_str();
            let under = self.entries_under(path);
            let failure = failures.get(path);
            let ghost message = failure_at(failures@, path@);
            let ghost all = preflight_entries(views(under@), self.current@, message);
            let ghost before = views(entries@);
            let mut k: usize = 0;
            proof {
                assert(views(entries@) =~= before + all.take(0));
            }
            while k < under.len()
                invariant
                    self.wf(),
                    k <= under.len(),
                    message == match failure {
                        Some(text) => Some(text@),
                        None => None,
                    },
                    all == preflight_entries(views(under@), self.current@, message),
                    forall|j: int|
                        0 <= j < under@.len() ==> self.current@.dom().contains(
                            (#[trigger] under@[j])@,
                        ),
                    views(entries@) == before + all.take(k as int),
                decreases under.len() - k,
            {
                let entry = &under[k];
                proof {
                    assert(self.current@.dom().contains(under@[k as int]@));
                }
                match self.current.get(entry.as_str()) {
                    Some(previous) => {
                        let status = match failure {
                            Some(text) => ReloadStatus::Failed(text.clone()),
                            None => ReloadStatus::Unchanged,
                        };
                        entries.push(
                            EntryReload {
                                entry: entry.clone(),
                                previous: previous.duplicate(),
                                candidate: None,
                                status,
                            },
                        );
                    },
                    None => {},
                }
                proof {
                    assert(all.take(k + 1) =~= all.take(k as int).push(all[k as int]));
                    assert(views(entries@) =~= before + all.take(k + 1));
                }
                k = k + 1;
            }
            proof {
                assert(all.take(k as int) =~= all);
            }
            i = i + 1;
        }
        ReloadReport { committed: false, entries }
    }

    /// The candidate of every tracked entry whose artifact was prepared.
    pub fn candidates(&self, prepared: &TextMap<ArtifactHash>) -> (r: TextMap<ArtifactHash>)
        requires
            self.wf(),
            prepared.wf(),
        ensures
            r.wf(),
            forall|entry: Seq<char>| #[trigger]
                r@.dom().contains(entry) <==> has_candidate(self.entry_paths@, prepared@, entry),
            forall|entry: Seq<char>| #[trigger]
                r@.dom().contains(entry) ==> r@[entry]@ == prepared@[self.entry_paths@[entry]@]@,
    {
        let ghost entries = self.entry_paths.entries@;
        let ghost paths = self.entry_paths@;
        proof {
            entries_facts(entries);
        }
        let mut out: TextMap<ArtifactHash> = TextMap::new();
        let mut i: usize = 0;
        while i < self.entry_paths.entries.len()
            invariant
                self.wf(),
                prepared.wf(),
                entries == self.entry_paths.entries@,
                paths == self.entry_paths@,
                out.wf(),
                i <= entries.len(),
                forall|entry: Seq<char>| #[trigger]
                    out@.dom().contains(entry) <==> has_candidate(paths, prepared@, entry)
                        && exists|k: int| 0 <= k < i && (#[trigger] entries[k]).key@ == entry,
                forall|entry: Seq<char>| #[trigger]
                    out@.dom().contains(entry) ==> out@[entry]@ == prepared@[paths[entry]@]@,
            decreases entries.len() - i,
        {
            let entry = &self.entry_paths.entries[i];
            proof {
                entries_facts(entries);
                assert(paths.dom().contains(entries[i as int].key@));
                assert(paths[entry.key@] == entry.value);
            }
            let ghost before = out@;
            match prepared.get(entry.value.as_str()) {
                Some(hash) => {
                    let _ = out.insert(entry.key.clone(), hash.duplicate());
                },
                None => {},
            }
            proof {
                let added = entries[i as int].key@;
                assert forall|e: Seq<char>| #[trigger]
                    out@.dom().contains(e) <==> has_candidate(paths, prepared@, e) && exists|k: int|
                        0 <= k < i + 1 && (#[trigger] entries[k]).key@ == e by {
                    if before.dom().contains(e) {
                        let k = choose|k: int| 0 <= k < i && (#[trigger] entries[k]).key@ == e;
                        assert(entries[k].key@ == e);
                    }
                    if e == added {
                        assert(entries[i as int].key@ == e);
                    }
                    if has_candidate(paths, prepared@, e) && exists|k: int|
                        0 <= k < i + 1 && (#[trigger] entries[k]).key@ == e {
                        let k = choose|k: int| 0 <= k < i + 1 && (#[trigger] entries[k]).key@ == e;
                        if k < i {
                            assert(before.dom().contains(e));
                        }
                    }
                }
            }
            i = i + 1;
        }
        proof {
            entries_facts(entries);
            assert forall|e: Seq<char>| #[trigger] out@.dom().contains(e) <==> has_candidate(
                paths,
                prepared@,
                e,
            ) by {
                if has_candidate(paths, prepared@, e) {
                    let k = choose|k: int| #[trigger] entry_at(entries, e, k);
                    assert(entries[k].key@ == e);
                }
            }
        }
        out
    }

    /// Takes over what a committed reload applied. A reload that was rolled back changes nothing.
    pub fn apply(&mut self, transaction: &ReloadTransaction)
        requires
            old(self).wf(),
            transaction.phase is Finished,
            forall|i: int|
                0 <= i < transaction.items@.len() ==> old(self).current@.dom().contains(
                    (#[trigger] transaction.items@[i]).entry@,
                ),
        ensures
            final(self).wf(),
            final(self).entry_paths == old(self).entry_paths,
            !transaction.phase->committed ==> final(self).current@ == old(self).current@,
            final(self).current@.dom() == old(self).current@.dom(),
            forall|entry: Seq<char>|
                old(self).current@.dom().contains(entry) && (forall|i: int|
                    0 <= i < transaction.items@.len() ==> (
                    #[trigger] transaction.items@[i]).entry@ != entry)
                    ==> #[trigger] final(self).current@[entry] == old(self).current@[entry],
            transaction.phase->committed ==> forall|i: int|
                0 <= i < transaction.items@.len() && (forall|j: int|
                    i < j < transaction.items@.len() ==> (
                    #[trigger] transaction.items@[j]).entry@ != transaction.items@[i].entry@)
                    ==> final(self).current@[(#[trigger] transaction.items@[i]).entry@]@
                    == transaction.items@[i].candidate@,
    {
        let committed = match transaction.phase {
            ReloadPhase::Finished { committed } => committed,
            _ => false,
        };
        if !committed {
            return;
        }
        let ghost items = transaction.items@;
        let ghost start = self.current@;
        let mut i: usize = 0;
        while i < transaction.items.len()
            invariant
                self.wf(),
                items == transaction.items@,
                start == old(self).current@,
                self.entry_paths == old(self).entry_paths,
                i <= items.len(),
                self.current@.dom() == start.dom(),
                forall|k: int|
                    0 <= k < items.len() ==> start.dom().contains((#[trigger] items[k]).entry@),
                forall|entry: Seq<char>|
                    start.dom().contains(entry) && (forall|k: int|
                        0 <= k < i ==> (#[trigger] items[k]).entry@ != entry)
                        ==> #[trigger] self.current@[entry] == start[entry],
                forall|k: int|
                    0 <= k < i && (forall|j: int|
                        k < j < i ==> (#[trigger] items[j]).entry@ != items[k].entry@)
                        ==> self.current@[(#[trigger] items[k]).entry@]@ == items[k].candidate@,
            decreases items.len() - i,
        {
            let item = &transaction.items[i];
            let ghost before = self.current@;
            proof {
                assert(start.dom().contains(items[i as int].entry@));
            }
            let _ = self.current.insert(item.entry.clone(), item.candidate.duplicate());
            proof {
                assert(self.current@.dom() =~= start.dom());
                assert forall|k: int|
                    0 <= k < i + 1 && (forall|j: int|
                        k < j < i + 1 ==> (#[trigger] items[j]).entry@
                            != items[k].entry@) implies self.current@[(
                #[trigger] items[k]).entry@]@ == items[k].candidate@ by {
                    if k < i {
                        assert(items[i as int].entry@ != items[k].entry@);
                        assert(forall|j: int|
                            k < j < i ==> (#[trigger] items[j]).entry@ != items[k].entry@);
                    }
                }
                assert forall|entry: Seq<char>|
                    start.dom().contains(entry) && (forall|k: int|
                        0 <= k < i + 1 ==> (#[trigger] items[k]).entry@
                            != entry) implies #[trigger] self.current@[entry]
                    == start[entry] by {
                    assert(items[i as int].entry@ != entry);
                    assert(before[entry] == start[entry]);
                }
            }
            i = i + 1;
        }
    }
}

/// A watched artifact and the directory it lies in.
#[derive(Debug)]
pub struct WatchTarget {
    pub path: String,
    pub parent: Option<String>,
}

/// A file event concerns a target when it names the target or its directory.
pub open spec fn concerns(event: Seq<char>, target: WatchTarget) -> bool {
    target.path@ == event || target.parent is Some && target.parent->Some_0@ == event
}

fn event_concerns(event: &str, target: &WatchTarget) -> (r: bool)
    ensures
        r == concerns(event@, *target),
{
    if same_text(target.path.as_str(), event) {
        return true;
    }
    match &target.parent {
        Some(parent) => same_text(parent.as_str(), event),
        None => false,
    }
}

/// Some event concerns the target.
pub open spec fn disturbed(events: Seq<String>, target: WatchTarget) -> bool {
    exists|e: int| 0 <= e < events.len() && concerns((#[trigger] events[e])@, target)
}

/// The paths of the targets that a batch of file events concerns.
pub open spec fn affected(events: Seq<String>, targets: Seq<WatchTarget>) -> Set<Seq<char>> {
    Set::new(
        |path: Seq<char>|
            exists|t: int|
                0 <= t < targets.len() && (#[trigger] targets[t]).path@ == path && disturbed(
                    events,
                    targets[t],
                ),
    )
}

/// A target is reloaded when some file event names the target itself, and when one names the
/// directory it lies in. Nothing else is reloaded.
pub proof fn events_reach_their_targets(
    events: Seq<String>,
    targets: Seq<WatchTarget>,
    path: Seq<char>,
)
    ensures
        (exists|t: int, e: int|
            0 <= t < targets.len() && 0 <= e < events.len() && (#[trigger] targets[t]).path@ == path
                && (#[trigger] events[e])@ == path) ==> affected(events, targets).contains(path),
        (exists|t: int, e: int|
            0 <= t < targets.len() && 0 <= e < events.len() && (#[trigger] targets[t]).path@ == path
                && targets[t].parent is Some && (#[trigger] events[e])@
                == targets[t].parent->Some_0@) ==> affected(events, targets).contains(path),
        affected(events, targets).contains(path) ==> exists|t: int, e: int|
            0 <= t < targets.len() && 0 <= e < events.len() && (#[trigger] targets[t]).path@ == path
                && ((#[trigger] events[e])@ == path || targets[t].parent is Some && events[e]@
                == targets[t].parent->Some_0@),
{
    if exists|t: int, e: int|
        0 <= t < targets.len() && 0 <= e < events.len() && (#[trigger] targets[t]).path@ == path
            && ((#[trigger] events[e])@ == path || targets[t].parent is Some && events[e]@
            == targets[t].parent->Some_0@) {
        let (t, e) = choose|t: int, e: int|
            0 <= t < targets.len() && 0 <= e < events.len() && (#[trigger] targets[t]).path@ == path
                && ((#[trigger] events[e])@ == path || targets[t].parent is Some && events[e]@
                == targets[t].parent->Some_0@);
        assert(concerns(events[e]@, targets[t]));
        assert(disturbed(events, targets[t]));
    }
    if affected(events, targets).contains(path) {
        let t = choose|t: int|
            0 <= t < targets.len() && (#[trigger] targets[t]).path@ == path && disturbed(
                events,
                targets[t],
            );
        let e = choose|e: int|
            0 <= e < events.len() && concerns((#[trigger] events[e])@, targets[t]);
        assert(targets[t].path@ == path && concerns(events[e]@, targets[t]));
    }
}

/// The targets that a batch of file events concerns, each once.
pub fn affected_targets(events: &Vec<String>, targets: &Vec<WatchTarget>) -> (r: TextSet)
    ensures
        r.wf(),
        r@ == affected(events@, targets@),
        forall|t: int, e: int|
            0 <= t < targets@.len() && 0 <= e < events@.len() && (#[trigger] events@[e])@ == (
            #[trigger] targets@[t]).path@ ==> r@.contains(targets@[t].path@),
        forall|t: int, e: int|
            0 <= t < targets@.len() && 0 <= e < events@.len() && (#[trigger] targets@[t]).parent
                is Some && (#[trigger] events@[e])@ == targets@[t].parent->Some_0@ ==> r@.contains(
                targets@[t].path@,
            ),
        forall|path: Seq<char>| #[trigger]
            r@.contains(path) <==> exists|t: int|
                0 <= t < targets@.len() && (#[trigger] targets@[t]).path@ == path && disturbed(
                    events@,
                    targets@[t],
                ),
{
    let mut out = TextSet::new();
    let mut t: usize = 0;
    while t < targets.len()
        invariant
            out.wf(),
            t <= targets.len(),
            forall|path: Seq<char>| #[trigger]
                out@.contains(path) <==> exists|k: int|
                    0 <= k < t && (#[trigger] targets@[k]).path@ == path && disturbed(
                        events@,
                        targets@[k],
                    ),
        decreases targets.len() - t,
    {
        let mut hit = false;
        let mut e: usize = 0;
        while e < events.len()
            invariant
                t < targets.len(),
                e <= events.len(),
                hit == exists|k: int|
                    0 <= k < e && concerns((#[trigger] events@[k])@, targets@[t as int]),
            decreases events.len() - e,
        {
            if event_concerns(events[e].as_str(), &targets[t]) {
                hit = true;
                proof {
                    assert(concerns(events@[e as int]@, targets@[t as int]));
                }
            }
            e = e + 1;
        }
        let ghost before = out@;
        if hit {
            let _ = out.insert(targets[t].path.clone());
        }
        proof {
            assert forall|path: Seq<char>| #[trigger] out@.contains(path) <==> exists|k: int|
                0 <= k < t + 1 && (#[trigger] targets@[k]).path@ == path && disturbed(
                    events@,
                    targets@[k],
                ) by {
                if before.contains(path) {
                    let k = choose|k: int|
                        0 <= k < t && (#[trigger] targets@[k]).path@ == path && disturbed(
                            events@,
                            targets@[k],
                        );
                    assert(targets@[k].path@ == path);
                }
                if hit && path == targets@[t as int].path@ {
                    assert(disturbed(events@, targets@[t as int]));
                }
            }
        }
        t = t + 1;
    }
    proof {
        assert(out@ =~= affected(events@, targets@));
        assert forall|t: int, e: int|
            0 <= t < targets@.len() && 0 <= e < events@.len() && (#[trigger] events@[e])@ == (
            #[trigger] targets@[t]).path@ implies out@.contains(targets@[t].path@) by {
            events_reach_their_targets(events@, targets@, targets@[t].path@);
        }
        assert forall|t: int, e: int|
            0 <= t < targets@.len() && 0 <= e < events@.len() && (#[trigger] targets@[t]).parent
                is Some && (#[trigger] events@[e])@
                == targets@[t].parent->Some_0@ implies out@.contains(targets@[t].path@) by {
            events_reach_their_targets(events@, targets@, targets@[t].path@);
        }
    }
    out
}

/// The directories of the watched targets, each once.
pub fn watch_roots(targets: &Vec<WatchTarget>) -> (r: TextSet)
    ensures
        r.wf(),
        forall|path: Seq<char>| #[trigger]
            r@.contains(path) <==> exists|t: int|
                0 <= t < targets@.len() && lies_in(#[trigger] targets@[t], path),
        forall|path: Seq<char>| #[trigger]
            r@.contains(path) <==> exists|t: int|
                0 <= t < targets@.len() && (#[trigger] targets@[t]).parent is Some
                    && targets@[t].parent->Some_0@ == path,
{
    let mut out = TextSet::new();
    let mut t: usize = 0;
    while t < targets.len()
        invariant
            out.wf(),
            t <= targets.len(),
            forall|path: Seq<char>| #[trigger]
                out@.contains(path) <==> exists|k: int|
                    0 <= k < t && lies_in(#[trigger] targets@[k], path),
        decreases targets.len() - t,
    {
        let ghost before = out@;
        match &targets[t].parent {
            Some(parent) => {
                let _ = out.insert(parent.clone());
            },
            None => {},
        }
        proof {
            assert forall|path: Seq<char>| #[trigger] out@.contains(path) <==> exists|k: int|
                0 <= k < t + 1 && lies_in(#[trigger] targets@[k], path) by {
                if before.contains(path) {
                    let k = choose|k: int| 0 <= k < t && lies_in(#[trigger] targets@[k], path);
                    assert(lies_in(targets@[k], path));
                }
                if lies_in(targets@[t as int], path) {
                    assert(out@.contains(path));
                }
            }
        }
        t = t + 1;
    }
    out
}

/// A target lies in a directory.
pub open spec fn lies_in(target: WatchTarget, directory: Seq<char>) -> bool {
    target.parent is Some && target.parent->Some_0@ == directory
}

/// Some entry runs the artifact at a path.
pub open spec fn is_tracked(paths: Map<Seq<char>, String>, path: Seq<char>) -> bool {
    exists|entry: Seq<char>| #[trigger] paths.dom().contains(entry) && paths[entry]@ == path
}

/// The tracked paths among the first `n` changed ones.
pub open spec fn tracked_changes(
    paths: Map<Seq<char>, String>,
    changed: Seq<Seq<char>>,
    n: nat,
) -> Seq<Seq<char>>
    decreases n,
{
    if n == 0 {
        Seq::empty()
    } else {
        let before = tracked_changes(paths, changed, (n - 1) as nat);
        if is_tracked(paths, changed[n - 1]) {
            before.push(changed[n - 1])
        } else {
            before
        }
    }
}

/// The artifacts that were prepared.
pub open spec fn prepared_of(outcomes: Map<Seq<char>, Result<ArtifactHash, String>>) -> Map<
    Seq<char>,
    ArtifactHash,
> {
    Map::new(
        |path: Seq<char>| outcomes.dom().contains(path) && outcomes[path] is Ok,
        |path: Seq<char>| outcomes[path]->Ok_0,
    )
}

/// Why artifacts could not be prepared.
pub open spec fn failures_of(outcomes: Map<Seq<char>, Result<ArtifactHash, String>>) -> Map<
    Seq<char>,
    String,
> {
    Map::new(
        |path: Seq<char>| outcomes.dom().contains(path) && outcomes[path] is Err,
        |path: Seq<char>| outcomes[path]->Err_0,
    )
}

/// Some artifact could not be prepared.
pub open spec fn any_failed(outcomes: Map<Seq<char>, Result<ArtifactHash, String>>) -> bool {
    exists|path: Seq<char>| #[trigger] outcomes.dom().contains(path) && outcomes[path] is Err
}

fn split_outcomes(outcomes: TextMap<Result<ArtifactHash, String>>) -> (r: (
    TextMap<ArtifactHash>,
    TextMap<String>,
))
    requires
        outcomes.wf(),
    ensures
        r.0.wf(),
        r.1.wf(),
        r.0@ == prepared_of(outcomes@),
        r.1@ == failures_of(outcomes@),
{
    let ghost all = outcomes.entries@;
    let ghost map = outcomes@;
    proof {
        entries_facts(all);
    }
    let mut prepared: TextMap<ArtifactHash> = TextMap::new();
    let mut failures: TextMap<String> = TextMap::new();
    for entry in iter: outcomes.entries
        invariant
            iter.seq() == all,
            map == outcomes@,
            forall|k: int|
                0 <= k < all.len() ==> map.dom().contains((#[trigger] all[k]).key@)
                    && map[all[k].key@] == all[k].value,
            prepared.wf(),
            failures.wf(),
            forall|path: Seq<char>| #[trigger]
                prepared@.dom().contains(path) ==> prepared_of(map).dom().contains(path)
                    && prepared@[path] == prepared_of(map)[path],
            forall|path: Seq<char>| #[trigger]
                failures@.dom().contains(path) ==> failures_of(map).dom().contains(path)
                    && failures@[path] == failures_of(map)[path],
            forall|k: int|
                0 <= k < iter.index() ==> match (#[trigger] all[k]).value {
                    Ok(_) => prepared@.dom().contains(all[k].key@),
                    Err(_) => failures@.dom().contains(all[k].key@),
                },
    {
        proof {
            assert(all[iter.index() as int] == entry);
        }
        match entry.value {
            Ok(hash) => {
                let _ = prepared.insert(entry.key, hash);
            },
            Err(message) => {
                let _ = failures.insert(entry.key, message);
            },
        }
    }
    proof {
        assert forall|path: Seq<char>| #[trigger] map.dom().contains(path) implies match map[path] {
            Ok(_) => prepared@.dom().contains(path),
            Err(_) => failures@.dom().contains(path),
        } by {
            let k = choose|k: int| #[trigger] entry_at(all, path, k);
            assert(all[k].key@ == path);
        }
        assert(prepared@ =~= prepared_of(map));
        assert(failures@ =~= failures_of(map));
    }
    (prepared, failures)
}

impl ReloadTracker {
    /// The changed paths whose artifacts have to be prepared, in order.
    pub fn to_prepare(&self, changed: &TextSet) -> (r: Vec<String>)
        requires
            self.wf(),
        ensures
            views(r@) == tracked_changes(
                self.entry_paths@,
                views(changed.items@),
                changed.items@.len(),
            ),
    {
        let ghost all = views(changed.items@);
        let tracked_paths = self.tracked_paths();
        let mut out: Vec<String> = Vec::new();
        let mut i: usize = 0;
        proof {
            assert(views(out@) =~= tracked_changes(self.entry_paths@, all, 0));
        }
        while i < changed.items.len()
            invariant
                tracked_paths.wf(),
                forall|path: Seq<char>| #[trigger]
                    tracked_paths@.contains(path) <==> is_tracked(self.entry_paths@, path),
                all == views(changed.items@),
                i <= changed.items.len(),
                views(out@) == tracked_changes(self.entry_paths@, all, i as nat),
            decreases changed.items.len() - i,
        {
            let path = &changed.items[i];
            proof {
                assert(all[i as int] == path@);
            }
            if tracked_paths.contains(path.as_str()) {
                out.push(path.clone());
            }
            i = i + 1;
        }
        out
    }

    /// What follows from preparing the changed artifacts: candidates to apply, or a report if
    /// any could not be prepared.
    pub fn preflight(
        &self,
        changed: &TextSet,
        outcomes: TextMap<Result<ArtifactHash, String>>,
    ) -> (r: Result<TextMap<ArtifactHash>, ReloadReport>)
        requires
            self.wf(),
            outcomes.wf(),
        ensures
            r is Err <==> any_failed(outcomes@),
            r is Err <==> exists|path: Seq<char>| #[trigger]
                outcomes@.dom().contains(path) && outcomes@[path] is Err,
            r matches Ok(candidates) ==> forall|entry: Seq<char>| #[trigger]
                candidates@.dom().contains(entry) <==> self.entry_paths@.dom().contains(entry)
                    && outcomes@.dom().contains(self.entry_paths@[entry]@)
                    && outcomes@[self.entry_paths@[entry]@] is Ok,
            r matches Ok(candidates) ==> forall|entry: Seq<char>| #[trigger]
                candidates@.dom().contains(entry) ==> candidates@[entry]@
                    == outcomes@[self.entry_paths@[entry]@]->Ok_0@,
            r matches Err(report) ==> {
                &&& !report.committed
                &&& views(report.entries@) == preflight_report(
                    *self,
                    views(changed.items@),
                    failures_of(outcomes@),
                    changed.items@.len(),
                )
            },
            r matches Ok(candidates) ==> {
                &&& candidates.wf()
                &&& forall|entry: Seq<char>| #[trigger]
                    candidates@.dom().contains(entry) <==> has_candidate(
                        self.entry_paths@,
                        prepared_of(outcomes@),
                        entry,
                    )
                &&& forall|entry: Seq<char>| #[trigger]
                    candidates@.dom().contains(entry) ==> candidates@[entry]@ == prepared_of(
                        outcomes@,
                    )[self.entry_paths@[entry]@]@
            },
    {
        let (prepared, failures) = split_outcomes(outcomes);
        proof {
            entries_facts(failures.entries@);
        }
        if failures.len() > 0 {
            proof {
                let path = failures.entries@[0].key@;
                assert(failures@.dom().contains(failures.entries@[0].key@));
                assert(failures_of(outcomes@).dom().contains(path));
            }
            return Err(self.preflight_failure_report(changed, &failures));
        }
        proof {
            if any_failed(outcomes@) {
                let path = choose|path: Seq<char>| #[trigger]
                    outcomes@.dom().contains(path) && outcomes@[path] is Err;
                assert(failures@.dom().contains(path));
                let k = choose|k: int| #[trigger] entry_at(failures.entries@, path, k);
                assert(0 <= k < failures.entries@.len());
            }
        }
        Ok(self.candidates(&prepared))
    }
}

} // verus!
