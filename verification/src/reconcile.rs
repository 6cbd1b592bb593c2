//! Reconciliation of an entry tree as a transaction: its steps are carried out one at a time by
//! the caller, and the first that fails has those before it taken back.
use crate::entry::{
    entries_wf, entry_models, loader_error_text, resolution, EntryModel, EntrySpec, LoaderError,
    LoaderErrorModel,
};
use crate::loader::outcome_model;
use crate::order::{contents, entry_keys};
use crate::text::{group_views, views};
use crate::transaction::{
    performed, performed_all, possible_all, rollback_restores, Entries,
};
use crate::tree::{
    first_config_error, operations_wf, reports, rollback, rollback_error, rollback_outcome, steps,
    undo, EntryTree, Operation, OperationModel, ReconcilePlan,
};
use vstd::prelude::*;

verus! {

broadcast use group_views;

/// How far a reconciliation has come.
pub enum ProgressModel {
    /// The first `done` steps have been carried out.
    Forward { done: nat },
    /// Step `failed` failed; of the steps before it, `undone` have been taken back, or could not
    /// be for the reasons in `failures`.
    Backward { failed: nat, undone: nat, error: LoaderErrorModel, failures: Seq<Seq<char>> },
}

/// The model of a reconciliation: the tree it leads to, the steps there, and how far it has come.
pub struct ReconciliationModel {
    pub roots: Seq<EntryModel>,
    pub next: Entries,
    pub steps: Seq<OperationModel>,
    pub progress: ProgressModel,
}

/// Nothing has been tried yet.
pub open spec fn untried(m: ReconciliationModel) -> bool {
    m.progress == ProgressModel::Forward { done: 0 }
}

/// The step whose turn it is.
pub open spec fn pending(m: ReconciliationModel) -> Option<OperationModel> {
    match m.progress {
        ProgressModel::Forward { done } => if done < m.steps.len() {
            Some(m.steps[done as int])
        } else {
            None
        },
        ProgressModel::Backward { failed, undone, .. } => if undone < failed {
            Some(undo(m.steps, failed)[undone as int])
        } else {
            None
        },
    }
}

/// A reconciliation after its pending step was tried.
pub open spec fn tried(
    m: ReconciliationModel,
    outcome: Result<(), LoaderErrorModel>,
) -> ReconciliationModel {
    ReconciliationModel {
        progress: match (m.progress, outcome) {
            (ProgressModel::Forward { done }, Ok(_)) => ProgressModel::Forward {
                done: done + 1,
            },
            (ProgressModel::Forward { done }, Err(error)) => ProgressModel::Backward {
                failed: done,
                undone: 0,
                error,
                failures: Seq::empty(),
            },
            (
                ProgressModel::Backward { failed, undone, error, failures },
                Ok(_),
            ) => ProgressModel::Backward { failed, undone: undone + 1, error, failures },
            (
                ProgressModel::Backward { failed, undone, error, failures },
                Err(failure),
            ) => ProgressModel::Backward {
                failed,
                undone: undone + 1,
                error,
                failures: failures.push(loader_error_text(failure)),
            },
        },
        ..m
    }
}

/// What is left to take back after a failed step.
#[derive(Debug)]
pub struct Failure {
    pub at: usize,
    pub undo: Vec<Operation>,
    pub undone: usize,
    pub error: LoaderError,
    pub failures: Vec<String>,
}

/// A reconciliation under way.
#[derive(Debug)]
pub struct Reconciliation {
    pub plan: ReconcilePlan,
    pub done: usize,
    pub failure: Option<Failure>,
}

impl View for Reconciliation {
    type V = ReconciliationModel;

    open spec fn view(&self) -> ReconciliationModel {
        ReconciliationModel {
            roots: entry_models(self.plan.roots@),
            next: contents(self.plan.resolved@),
            steps: views(self.plan.operations@),
            progress: match self.failure {
                None => ProgressModel::Forward { done: self.done as nat },
                Some(failure) => ProgressModel::Backward {
                    failed: failure.at as nat,
                    undone: failure.undone as nat,
                    error: failure.error@,
                    failures: views(failure.failures@),
                },
            },
        }
    }
}

impl Reconciliation {
    pub open spec fn wf(&self) -> bool {
        &&& self.plan.wf()
        &&& self.done <= self.plan.operations@.len()
        &&& self.failure matches Some(failure) ==> {
            &&& failure.at <= self.plan.operations@.len()
            &&& views(failure.undo@) == undo(views(self.plan.operations@), failure.at as nat)
            &&& operations_wf(failure.undo@)
            &&& failure.undone <= failure.at
        }
    }

    /// The step to carry out now. Without one the reconciliation is over.
    pub fn next(&self) -> (r: Option<&Operation>)
        requires
            self.wf(),
        ensures
            match (r, pending(self@)) {
                (Some(operation), Some(expected)) => operation@ == expected,
                (None, None) => true,
                _ => false,
            },
    {
        match &self.failure {
            None => if self.done < self.plan.operations.len() {
                Some(&self.plan.operations[self.done])
            } else {
                None
            },
            Some(failure) => {
                proof {
                    assert(views(failure.undo@).len() == failure.at);
                }
                if failure.undone < failure.undo.len() {
                    Some(&failure.undo[failure.undone])
                } else {
                    None
                }
            },
        }
    }

    /// Takes note of how the pending step went.
    pub fn after(self, outcome: Result<(), LoaderError>) -> (r: Reconciliation)
        requires
            self.wf(),
            pending(self@) is Some,
        ensures
            r.wf(),
            r@ == tried(self@, outcome_model(outcome)),
            r.plan == self.plan,
    {
        proof {
            assert(self@.steps.len() == self.plan.operations.len());
        }
        match self.failure {
            None => match outcome {
                Ok(_) => Reconciliation {
                    plan: self.plan,
                    done: self.done + 1,
                    failure: None,
                },
                Err(error) => {
                    let undo = rollback(&self.plan.operations, self.done);
                    let failures: Vec<String> = Vec::new();
                    proof {
                        assert(views(failures@) =~= Seq::empty());
                    }
                    Reconciliation {
                        plan: self.plan,
                        done: self.done,
                        failure: Some(Failure { at: self.done, undo, undone: 0, error, failures }),
                    }
                },
            },
            Some(failure) => {
                let mut failures = failure.failures;
                match outcome {
                    Ok(_) => {},
                    Err(error) => {
                        failures.push(error.message());
                    },
                }
                Reconciliation {
                    plan: self.plan,
                    done: self.done,
                    failure: Some(
                        Failure {
                            at: failure.at,
                            undo: failure.undo,
                            undone: failure.undone + 1,
                            error: failure.error,
                            failures,
                        },
                    ),
                }
            },
        }
    }
}

impl EntryTree {
    /// Starts to move the tree to new roots. Nothing is carried out if the roots do not resolve
    /// or a configuration is refused.
    pub fn reconcile(&self, roots: Vec<EntrySpec>) -> (r: Result<Reconciliation, LoaderError>)
        requires
            self.wf(),
            entries_wf(roots@),
        ensures
            match (r, resolution(entry_models(roots@))) {
                (Err(error), Err(expected)) => error@ == expected,
                (Err(error), Ok(map)) => exists|keys: Seq<Seq<char>>|
                    crate::order::sorted(keys) && (forall|k: Seq<char>| #[trigger]
                        keys.contains(k) <==> map.dom().contains(k)) && #[trigger]
                    first_config_error(contents(self.schemas@), keys, map) is Some && reports(
                        error@,
                        first_config_error(contents(self.schemas@), keys, map)->Some_0,
                    ),
                (Ok(started), Ok(map)) => {
                    let keys = entry_keys(started.plan.resolved.entries@);
                    &&& started.wf()
                    &&& first_config_error(contents(self.schemas@), keys, map) is None
                    &&& started@ == (ReconciliationModel {
                        roots: entry_models(roots@),
                        next: map,
                        steps: steps(
                            entry_keys(self.resolved.entries@),
                            contents(self.resolved@),
                            keys,
                            map,
                        ),
                        progress: ProgressModel::Forward { done: 0 },
                    })
                },
                _ => false,
            },
    {
        match self.plan(roots) {
            Err(error) => Err(error),
            Ok(plan) => Ok(Reconciliation { plan, done: 0, failure: None }),
        }
    }

    /// Ends a reconciliation. The tree is the new one if every step was carried out; otherwise
    /// it stays as it is, and the error of the failed step comes with those of its rollback.
    pub fn conclude(&mut self, ended: Reconciliation) -> (r: Result<(), LoaderError>)
        requires
            old(self).wf(),
            ended.wf(),
            pending(ended@) is None,
        ensures
            final(self).wf(),
            final(self).schemas == old(self).schemas,
            match (r, ended@.progress) {
                (Ok(_), ProgressModel::Forward { .. }) => {
                    &&& final(self).roots == ended.plan.roots
                    &&& final(self).resolved == ended.plan.resolved
                },
                (Err(reason), ProgressModel::Backward { error, failures, .. }) => {
                    &&& reason@ == rollback_outcome(error, failures)
                    &&& final(self).roots == old(self).roots
                    &&& final(self).resolved == old(self).resolved
                },
                _ => false,
            },
    {
        match ended.failure {
            None => {
                self.commit(ended.plan);
                Ok(())
            },
            Some(failure) => Err(rollback_error(failure.error, &failure.failures)),
        }
    }
}

/// A reconciliation after the outcomes of its steps, one after another.
pub open spec fn tried_all(
    m: ReconciliationModel,
    outcomes: Seq<Result<(), LoaderErrorModel>>,
) -> ReconciliationModel
    decreases outcomes.len(),
{
    if outcomes.len() == 0 {
        m
    } else {
        tried(tried_all(m, outcomes.drop_last()), outcomes.last())
    }
}

/// Each outcome is that of a pending step.
pub open spec fn in_turn(
    m: ReconciliationModel,
    outcomes: Seq<Result<(), LoaderErrorModel>>,
) -> bool
    decreases outcomes.len(),
{
    outcomes.len() == 0 || in_turn(m, outcomes.drop_last()) && pending(
        tried_all(m, outcomes.drop_last()),
    ) is Some
}

/// What runs after the outcomes: a step that succeeds is performed, one that fails changes
/// nothing.
pub open spec fn run_after(
    now: Entries,
    m: ReconciliationModel,
    outcomes: Seq<Result<(), LoaderErrorModel>>,
) -> Entries
    decreases outcomes.len(),
{
    if outcomes.len() == 0 {
        now
    } else {
        let before = run_after(now, m, outcomes.drop_last());
        match (pending(tried_all(m, outcomes.drop_last())), outcomes.last()) {
            (Some(step), Ok(_)) => performed(before, step),
            _ => before,
        }
    }
}

proof fn progress_so_far(
    now: Entries,
    start: ReconciliationModel,
    outcomes: Seq<Result<(), LoaderErrorModel>>,
)
    requires
        untried(start),
        in_turn(start, outcomes),
    ensures
        ({
            let steps = start.steps;
            let m = tried_all(start, outcomes);
            let then = run_after(now, start, outcomes);
            &&& m == (ReconciliationModel { progress: m.progress, ..start })
            &&& match m.progress {
                ProgressModel::Forward { done } => done <= steps.len() && then == performed_all(
                    now,
                    steps.take(done as int),
                ),
                ProgressModel::Backward { failed, undone, failures, .. } => {
                    &&& undone <= failed < steps.len()
                    &&& failures.len() == 0 ==> then == performed_all(
                        performed_all(now, steps.take(failed as int)),
                        undo(steps, failed).take(undone as int),
                    )
                },
            }
        }),
    decreases outcomes.len(),
{
    let steps = start.steps;
    if outcomes.len() == 0 {
        assert(steps.take(0) =~= Seq::empty());
    } else {
        progress_so_far(now, start, outcomes.drop_last());
        let m = tried_all(start, outcomes.drop_last());
        match m.progress {
            ProgressModel::Forward { done } => {
                if outcomes.last() is Ok {
                    let front = steps.take(done as int + 1);
                    assert(front.drop_last() =~= steps.take(done as int));
                    assert(front.last() == steps[done as int]);
                } else {
                    assert(undo(steps, done).take(0) =~= Seq::empty());
                }
            },
            ProgressModel::Backward { failed, undone, .. } => {
                let back = undo(steps, failed);
                let front = back.take(undone as int + 1);
                assert(front.drop_last() =~= back.take(undone as int));
                assert(front.last() == back[undone as int]);
            },
        }
    }
}

/// A reconciliation is all or nothing: whichever steps fail, once it is over either every step
/// was carried out, or, unless taking one back failed too, everything runs as before.
pub proof fn reconciliations_are_all_or_nothing(
    now: Entries,
    start: ReconciliationModel,
    outcomes: Seq<Result<(), LoaderErrorModel>>,
)
    requires
        possible_all(now, start.steps),
        untried(start),
        in_turn(start, outcomes),
        pending(tried_all(start, outcomes)) is None,
    ensures
        match tried_all(start, outcomes).progress {
            ProgressModel::Forward { .. } => run_after(now, start, outcomes) == performed_all(
                now,
                start.steps,
            ),
            ProgressModel::Backward { failures, .. } => failures.len() == 0 ==> run_after(
                now,
                start,
                outcomes,
            ) == now,
        },
{
    let steps = start.steps;
    progress_so_far(now, start, outcomes);
    match tried_all(start, outcomes).progress {
        ProgressModel::Forward { done } => {
            assert(steps.take(done as int) =~= steps);
        },
        ProgressModel::Backward { failed, undone, .. } => {
            assert(undo(steps, failed).take(undone as int) =~= undo(steps, failed));
            rollback_restores(now, steps, failed);
        },
    }
}

/// While nothing fails, a reconciliation asks for its steps in order, for no other, and is over
/// after the last one.
pub proof fn steps_are_taken_in_order(
    start: ReconciliationModel,
    outcomes: Seq<Result<(), LoaderErrorModel>>,
)
    requires
        untried(start),
        outcomes.len() <= start.steps.len(),
        forall|i: int| 0 <= i < outcomes.len() ==> (#[trigger] outcomes[i]) is Ok,
    ensures
        in_turn(start, outcomes),
        tried_all(start, outcomes) == (ReconciliationModel {
            progress: ProgressModel::Forward { done: outcomes.len() },
            ..start
        }),
        pending(tried_all(start, outcomes)) == if outcomes.len() < start.steps.len() {
            Some(start.steps[outcomes.len() as int])
        } else {
            None
        },
    decreases outcomes.len(),
{
    if outcomes.len() > 0 {
        steps_are_taken_in_order(start, outcomes.drop_last());
        assert(outcomes[outcomes.len() - 1] is Ok);
    }
}

} // verus!
