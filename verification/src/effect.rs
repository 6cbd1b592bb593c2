//! Effects: inverse operations that run in reverse once their owner goes away.
use crate::error::{duplicate_errors, error_models, CordisError, ErrorModel};
use crate::fiber::result_model;
use crate::id::{EffectId, IdSource};
use crate::text::{decimal, group_views, push_decimal, views};
use vstd::prelude::*;

verus! {

broadcast use group_views;

/// An inverse operation captured by an effect. The host decides what a callback is.
#[derive(Debug)]
pub struct Disposer<T> {
    pub callback: T,
}

impl<T> Disposer<T> {
    pub fn new(callback: T) -> (r: Disposer<T>)
        ensures
            r.callback == callback,
    {
        Disposer { callback }
    }

    /// Gives the callback up to be run once.
    pub fn run(self) -> (r: T)
        ensures
            r == self.callback,
    {
        self.callback
    }
}

/// One step of an effect's inverse.
#[derive(Debug)]
pub enum Inverse<T> {
    Step(Disposer<T>),
    Child(EffectId),
}

/// Everything that failed while an effect was disposed.
#[derive(Debug, PartialEq, Eq)]
pub struct DisposeErrors {
    pub errors: Vec<CordisError>,
}

impl DisposeErrors {
    pub fn errors(&self) -> (r: &Vec<CordisError>)
        ensures
            r == self.errors,
    {
        &self.errors
    }

    /// How many disposers failed.
    pub fn message(&self) -> (r: String)
        ensures
            r@ == decimal(self.errors@.len()) + " disposer(s) failed"@,
    {
        let mut out = String::new();
        push_decimal(&mut out, self.errors.len() as u64);
        out.append(" disposer(s) failed");
        proof {
            assert(out@ =~= decimal(self.errors@.len()) + " disposer(s) failed"@);
        }
        out
    }
}

/// The outcome of a disposal.
pub type DisposeReport = Result<(), DisposeErrors>;

/// The content of a report.
pub open spec fn report_model(report: DisposeReport) -> Result<(), Seq<ErrorModel>> {
    match report {
        Ok(_) => Ok(()),
        Err(failed) => Err(error_models(failed.errors@)),
    }
}

/// The report on collected errors.
pub open spec fn report_of(errors: Seq<ErrorModel>) -> Result<(), Seq<ErrorModel>> {
    if errors.len() == 0 {
        Ok(())
    } else {
        Err(errors)
    }
}

fn duplicate_report(report: &DisposeReport) -> (r: DisposeReport)
    ensures
        report_model(r) == report_model(*report),
{
    match report {
        Ok(_) => Ok(()),
        Err(failed) => Err(DisposeErrors { errors: duplicate_errors(&failed.errors) }),
    }
}

/// Turns a child's report into what its parent records.
pub fn child_result(effect: EffectId, report: DisposeReport) -> (r: Result<(), CordisError>)
    ensures
        match (r, report) {
            (Ok(_), Ok(_)) => true,
            (Err(error), Err(failed)) => error@ == (ErrorModel::ChildEffectFailed {
                effect,
                errors: error_models(failed.errors@),
            }),
            _ => false,
        },
{
    match report {
        Ok(_) => Ok(()),
        Err(failed) => {
            let ghost errors = failed.errors@;
            let r = CordisError::ChildEffectFailed { effect, errors: failed.errors };
            proof {
                assert(r@->ChildEffectFailed_errors =~= error_models(errors));
            }
            Err(r)
        },
    }
}

/// The text of a caught panic: its message, or a fixed text when it carried none.
pub open spec fn panic_text(message: Option<Seq<char>>) -> Seq<char> {
    match message {
        Some(text) => text,
        None => "non-string panic payload"@,
    }
}

/// The message of a caught panic.
pub fn panic_message(message: Option<String>) -> (r: String)
    ensures
        r@ == panic_text(
            match message {
                Some(text) => Some(text@),
                None => None,
            },
        ),
{
    match message {
        Some(text) => text,
        None => "non-string panic payload".to_owned(),
    }
}

/// A disposer that panicked counts as failed.
pub fn panic_error(message: Option<String>) -> (r: CordisError)
    ensures
        r@ == (ErrorModel::DisposerPanic {
            message: panic_text(
                match message {
                    Some(text) => Some(text@),
                    None => None,
                },
            ),
        }),
{
    CordisError::DisposerPanic { message: panic_message(message) }
}

/// The phases of an effect's life.
#[derive(Debug)]
pub enum EffectStatus {
    Armed,
    Draining,
    Disposing,
    Disposed(DisposeReport),
}

/// The phases of an effect's life.
pub enum StatusModel {
    Armed,
    Draining,
    Disposing,
    Disposed(Result<(), Seq<ErrorModel>>),
}

impl View for EffectStatus {
    type V = StatusModel;

    open spec fn view(&self) -> StatusModel {
        match self {
            EffectStatus::Armed => StatusModel::Armed,
            EffectStatus::Draining => StatusModel::Draining,
            EffectStatus::Disposing => StatusModel::Disposing,
            EffectStatus::Disposed(report) => StatusModel::Disposed(report_model(*report)),
        }
    }
}

/// One effect. Children are positions in the tree.
pub struct EffectModel<T> {
    pub id: EffectId,
    pub label: Seq<char>,
    pub status: StatusModel,
    pub inverses: Seq<Inverse<T>>,
    pub children: Seq<usize>,
    pub runners: usize,
    pub errors: Seq<ErrorModel>,
}

/// One effect of a tree.
#[derive(Debug)]
pub struct EffectNode<T> {
    pub id: EffectId,
    pub label: String,
    pub status: EffectStatus,
    pub inverses: Vec<Inverse<T>>,
    pub children: Vec<usize>,
    pub active_runners: usize,
    pub errors: Vec<CordisError>,
}

impl<T> View for EffectNode<T> {
    type V = EffectModel<T>;

    open spec fn view(&self) -> EffectModel<T> {
        EffectModel {
            id: self.id,
            label: self.label@,
            status: self.status@,
            inverses: self.inverses@,
            children: self.children@,
            runners: self.active_runners,
            errors: error_models(self.errors@),
        }
    }
}

/// An armed effect without inverses.
pub open spec fn fresh_effect<T>(id: EffectId, label: Seq<char>) -> EffectModel<T> {
    EffectModel {
        id,
        label,
        status: StatusModel::Armed,
        inverses: Seq::empty(),
        children: Seq::empty(),
        runners: 0,
        errors: Seq::empty(),
    }
}

/// Metadata of an effect and the descendants that are not disposed.
#[derive(Debug, PartialEq, Eq)]
pub struct EffectMeta {
    pub id: EffectId,
    pub label: String,
    pub children: Vec<EffectMeta>,
}

/// The content of effect metadata.
pub struct MetaModel {
    pub id: EffectId,
    pub label: Seq<char>,
    pub children: Seq<MetaModel>,
}

/// The content of effect metadata.
pub open spec fn meta_model(meta: EffectMeta) -> MetaModel
    decreases meta,
{
    MetaModel {
        id: meta.id,
        label: meta.label@,
        children: Seq::new(
            meta.children@.len(),
            |i: int|
                if 0 <= i < meta.children@.len() {
                    meta_model(meta.children@[i])
                } else {
                    MetaModel { id: meta.id, label: Seq::empty(), children: Seq::empty() }
                },
        ),
    }
}

/// The contents of a list of metadata.
pub open spec fn meta_models(items: Seq<EffectMeta>) -> Seq<MetaModel> {
    Seq::new(items.len(), |i: int| meta_model(items[i]))
}

/// The metadata tree below the effect at position `i`.
pub open spec fn meta_of<T>(nodes: Seq<EffectModel<T>>, i: int) -> MetaModel
    decreases nodes.len() - i, 1nat,
{
    MetaModel {
        id: nodes[i].id,
        label: nodes[i].label,
        children: children_meta(nodes, i, nodes[i].children.len()),
    }
}

/// The metadata of the first `n` children that are not disposed.
pub open spec fn children_meta<T>(nodes: Seq<EffectModel<T>>, i: int, n: nat) -> Seq<MetaModel>
    decreases nodes.len() - i, 0nat, n,
{
    if n == 0 || n > nodes[i].children.len() {
        Seq::empty()
    } else {
        let before = children_meta(nodes, i, (n - 1) as nat);
        let child = nodes[i].children[n - 1] as int;
        if i < child < nodes.len() && !(nodes[child].status is Disposed) {
            before.push(meta_of(nodes, child))
        } else {
            before
        }
    }
}

/// An effect together with everything nested in it.
#[derive(Debug)]
pub struct EffectTree<T> {
    pub nodes: Vec<EffectNode<T>>,
}

impl<T> View for EffectTree<T> {
    type V = Seq<EffectModel<T>>;

    open spec fn view(&self) -> Seq<EffectModel<T>> {
        views(self.nodes@)
    }
}

/// `i` is the position of `effect`.
pub open spec fn effect_at<T>(nodes: Seq<EffectModel<T>>, effect: EffectId, i: int) -> bool {
    0 <= i < nodes.len() && nodes[i].id == effect
}

/// The effect belongs to the tree.
pub open spec fn has_effect<T>(nodes: Seq<EffectModel<T>>, effect: EffectId) -> bool {
    exists|i: int| #[trigger] effect_at(nodes, effect, i)
}

/// The position of an effect of the tree.
pub open spec fn position<T>(nodes: Seq<EffectModel<T>>, effect: EffectId) -> int {
    choose|i: int| #[trigger] effect_at(nodes, effect, i)
}

/// The effect as it is.
pub open spec fn lookup<T>(nodes: Seq<EffectModel<T>>, effect: EffectId) -> EffectModel<T> {
    nodes[position(nodes, effect)]
}

/// The tree with one effect replaced.
pub open spec fn with_effect<T>(
    nodes: Seq<EffectModel<T>>,
    effect: EffectId,
    next: EffectModel<T>,
) -> Seq<EffectModel<T>> {
    nodes.update(position(nodes, effect), next)
}

/// A single effect is sound: nothing runs once disposal has begun, and nothing is left once it
/// has ended.
pub open spec fn effect_valid<T>(e: EffectModel<T>) -> bool {
    &&& (e.status is Disposing || e.status is Disposed) ==> e.runners == 0
    &&& e.status is Disposed ==> e.inverses.len() == 0
}

/// What holds of every tree: creation order is identifier order, and children come later.
pub open spec fn tree_valid<T>(nodes: Seq<EffectModel<T>>) -> bool {
    &&& forall|i: int, j: int|
        0 <= i < j < nodes.len() ==> (#[trigger] nodes[i]).id.0 < (#[trigger] nodes[j]).id.0
    &&& forall|i: int| 0 <= i < nodes.len() ==> effect_valid(#[trigger] nodes[i])
    &&& forall|i: int, k: int|
        0 <= i < nodes.len() && 0 <= k < nodes[i].children.len() ==> i
            < #[trigger] nodes[i].children[k] < nodes.len()
}

/// All identifiers of the tree are below `bound`.
pub open spec fn ids_below<T>(nodes: Seq<EffectModel<T>>, bound: u64) -> bool {
    forall|i: int| 0 <= i < nodes.len() ==> (#[trigger] nodes[i]).id.0 < bound
}

proof fn position_is<T>(nodes: Seq<EffectModel<T>>, effect: EffectId, i: int)
    requires
        tree_valid(nodes),
        effect_at(nodes, effect, i),
    ensures
        has_effect(nodes, effect),
        position(nodes, effect) == i,
{
    let k = position(nodes, effect);
    assert(effect_at(nodes, effect, k));
    if k < i {
        assert(nodes[k].id.0 < nodes[i].id.0);
    }
    if i < k {
        assert(nodes[i].id.0 < nodes[k].id.0);
    }
}

/// Replacing an effect by a sound one with the same identity keeps the tree valid.
proof fn replaced_valid<T>(nodes: Seq<EffectModel<T>>, i: int, next: EffectModel<T>)
    requires
        tree_valid(nodes),
        0 <= i < nodes.len(),
        next.id == nodes[i].id,
        next.children == nodes[i].children,
        effect_valid(next),
    ensures
        tree_valid(nodes.update(i, next)),
{
    let after = nodes.update(i, next);
    assert forall|a: int, b: int| 0 <= a < b < after.len() implies (#[trigger] after[a]).id.0 < (
    #[trigger] after[b]).id.0 by {
        assert(nodes[a].id.0 < nodes[b].id.0);
    }
    assert forall|a: int| 0 <= a < after.len() implies effect_valid(#[trigger] after[a]) by {
        assert(effect_valid(nodes[a]));
    }
    assert forall|a: int, k: int|
        0 <= a < after.len() && 0 <= k < after[a].children.len() implies a
        < #[trigger] after[a].children[k] < after.len() by {
        assert(a < nodes[a].children[k] < nodes.len());
    }
}

/// What asking for a disposal leads to.
#[derive(Debug)]
pub enum DisposeAction {
    /// The caller runs the inverses.
    Run,
    /// Someone else does; wait until that is done.
    Wait,
    /// It has been done.
    Complete(DisposeReport),
}

/// The effect once its disposal was asked for.
pub open spec fn disposal_begun<T>(e: EffectModel<T>) -> EffectModel<T> {
    if (e.status is Armed || e.status is Draining) && e.runners == 0 {
        EffectModel { status: StatusModel::Disposing, ..e }
    } else if e.status is Armed {
        EffectModel { status: StatusModel::Draining, ..e }
    } else {
        e
    }
}

/// What asking for a disposal is answered.
pub open spec fn disposal_answer<T>(e: EffectModel<T>, answer: DisposeAction) -> bool {
    match answer {
        DisposeAction::Run => (e.status is Armed || e.status is Draining) && e.runners == 0,
        DisposeAction::Wait => e.status is Disposing || (e.status is Armed || e.status is Draining)
            && e.runners > 0,
        DisposeAction::Complete(report) => e.status == StatusModel::Disposed(report_model(report)),
    }
}

/// The effect with one more inverse.
pub open spec fn deferred<T>(e: EffectModel<T>, disposer: Disposer<T>) -> EffectModel<T> {
    EffectModel { inverses: e.inverses.push(Inverse::Step(disposer)), ..e }
}

/// The effect once its last inverse was taken to be run.
pub open spec fn inverse_taken<T>(e: EffectModel<T>) -> EffectModel<T> {
    EffectModel { inverses: e.inverses.drop_last(), ..e }
}

/// The effect once it is known how an inverse went.
pub open spec fn result_recorded<T>(
    e: EffectModel<T>,
    outcome: Result<(), ErrorModel>,
) -> EffectModel<T> {
    match outcome {
        Ok(_) => e,
        Err(error) => EffectModel { errors: e.errors.push(error), ..e },
    }
}

/// The effect once its disposal is over.
pub open spec fn disposal_ended<T>(e: EffectModel<T>) -> EffectModel<T> {
    EffectModel { status: StatusModel::Disposed(report_of(e.errors)), ..e }
}

/// Adding an inverse after disposal has started is refused.
pub open spec fn inactive_error<T>(e: EffectModel<T>) -> Option<ErrorModel> {
    if e.status is Armed {
        None
    } else {
        Some(ErrorModel::InactiveEffect { effect: e.id })
    }
}

impl<T> EffectTree<T> {
    pub open spec fn wf(&self) -> bool {
        tree_valid(self@)
    }

    /// A new armed effect.
    pub fn new(ids: &mut IdSource, label: String) -> (r: EffectTree<T>)
        requires
            old(ids).next < u64::MAX,
        ensures
            final(ids).next == old(ids).next + 1,
            r.wf(),
            r@ == seq![fresh_effect::<T>(EffectId(old(ids).next), label@)],
            has_effect(r@, EffectId(old(ids).next)),
            ids_below(r@, final(ids).next),
    {
        let id = EffectId::next(ids);
        let mut nodes: Vec<EffectNode<T>> = Vec::new();
        nodes.push(
            EffectNode {
                id,
                label,
                status: EffectStatus::Armed,
                inverses: Vec::new(),
                children: Vec::new(),
                active_runners: 0,
                errors: Vec::new(),
            },
        );
        let r = EffectTree { nodes };
        proof {
            assert(r@[0].errors =~= Seq::empty());
            assert(r@[0].children =~= Seq::empty());
            assert(r@[0].inverses =~= Seq::empty());
            assert(r@ =~= seq![fresh_effect::<T>(id, label@)]);
            assert(effect_at(r@, id, 0));
        }
        r
    }

    fn find(&self, effect: EffectId) -> (r: usize)
        requires
            self.wf(),
            has_effect(self@, effect),
        ensures
            r < self.nodes.len(),
            r == position(self@, effect),
            self.nodes@[r as int]@ == lookup(self@, effect),
            self@[r as int].id == effect,
            effect_valid(self@[r as int]),
    {
        let mut i: usize = 0;
        while i < self.nodes.len()
            invariant
                self.wf(),
                has_effect(self@, effect),
                i <= self.nodes.len(),
                forall|k: int| 0 <= k < i ==> !#[trigger] effect_at(self@, effect, k),
            decreases self.nodes.len() - i,
        {
            if self.nodes[i].id.0 == effect.0 {
                proof {
                    assert(self@[i as int] == self.nodes@[i as int]@);
                    position_is(self@, effect, i as int);
                }
                return i;
            }
            proof {
                assert(!effect_at(self@, effect, i as int));
            }
            i = i + 1;
        }
        proof {
            let k = position(self@, effect);
            assert(effect_at(self@, effect, k));
        }
        0
    }

    pub fn is_armed(&self, effect: EffectId) -> (r: bool)
        requires
            self.wf(),
            has_effect(self@, effect),
        ensures
            r == (lookup(self@, effect).status is Armed),
    {
        let i = self.find(effect);
        match &self.nodes[i].status {
            EffectStatus::Armed => true,
            _ => false,
        }
    }

    pub fn is_disposed(&self, effect: EffectId) -> (r: bool)
        requires
            self.wf(),
            has_effect(self@, effect),
        ensures
            r == (lookup(self@, effect).status is Disposed),
    {
        let i = self.find(effect);
        match &self.nodes[i].status {
            EffectStatus::Disposed(_) => true,
            _ => false,
        }
    }

    /// Adds an inverse to an effect.
    pub fn defer(&mut self, effect: EffectId, disposer: Disposer<T>) -> (r: Result<(), CordisError>)
        requires
            old(self).wf(),
            has_effect(old(self)@, effect),
        ensures
            final(self).wf(),
            match (r, inactive_error(lookup(old(self)@, effect))) {
                (Ok(_), None) => {
                    let e = lookup(old(self)@, effect);
                    final(self)@ == with_effect(old(self)@, effect, deferred(e, disposer))
                },
                (Err(error), Some(expected)) => error@ == expected && final(self)@ == old(self)@,
                _ => false,
            },
    {
        let i = self.find(effect);
        let armed = match &self.nodes[i].status {
            EffectStatus::Armed => true,
            _ => false,
        };
        if !armed {
            return Err(CordisError::InactiveEffect { effect });
        }
        let ghost before = self@;
        let ghost e = lookup(before, effect);
        self.nodes[i].inverses.push(Inverse::Step(disposer));
        proof {
            let next = EffectModel { inverses: e.inverses.push(Inverse::Step(disposer)), ..e };
            assert(self@ =~= before.update(i as int, next));
            replaced_valid(before, i as int, next);
        }
        Ok(())
    }

    /// Creates a child that is part of the parent's inverse and metadata tree.
    pub fn child(&mut self, ids: &mut IdSource, parent: EffectId, label: String) -> (r: Result<
        EffectId,
        CordisError,
    >)
        requires
            old(self).wf(),
            has_effect(old(self)@, parent),
            ids_below(old(self)@, old(ids).next),
            old(ids).next < u64::MAX,
        ensures
            final(self).wf(),
            ids_below(final(self)@, final(ids).next),
            match (r, inactive_error(lookup(old(self)@, parent))) {
                (Ok(id), None) => {
                    let e = lookup(old(self)@, parent);
                    &&& id.0 == old(ids).next
                    &&& final(ids).next == old(ids).next + 1
                    &&& has_effect(final(self)@, id)
                    &&& final(self)@ == with_effect(
                        old(self)@,
                        parent,
                        (EffectModel {
                            inverses: e.inverses.push(Inverse::Child(id)),
                            children: e.children.push(old(self)@.len() as usize),
                            ..e
                        }),
                    ).push(fresh_effect(id, label@))
                },
                (Err(error), Some(expected)) => error@ == expected && final(self)@ == old(self)@
                    && *final(ids) == *old(ids),
                _ => false,
            },
    {
        let i = self.find(parent);
        let armed = match &self.nodes[i].status {
            EffectStatus::Armed => true,
            _ => false,
        };
        if !armed {
            return Err(CordisError::InactiveEffect { effect: parent });
        }
        let ghost before = self@;
        let ghost e = lookup(before, parent);
        let id = EffectId::next(ids);
        let at = self.nodes.len();
        self.nodes[i].inverses.push(Inverse::Child(id));
        self.nodes[i].children.push(at);
        let ghost next = EffectModel {
            inverses: e.inverses.push(Inverse::Child(id)),
            children: e.children.push(at),
            ..e
        };
        proof {
            assert(self@ =~= before.update(i as int, next));
        }
        let ghost mid = self@;
        self.nodes.push(
            EffectNode {
                id,
                label,
                status: EffectStatus::Armed,
                inverses: Vec::new(),
                children: Vec::new(),
                active_runners: 0,
                errors: Vec::new(),
            },
        );
        proof {
            let last = self.nodes@[at as int]@;
            assert(last.errors =~= Seq::empty());
            assert(last.children =~= Seq::empty());
            assert(last.inverses =~= Seq::empty());
            assert(self@ =~= mid.push(fresh_effect(id, label@)));
            let after = self@;
            assert forall|a: int, b: int| 0 <= a < b < after.len() implies (
            #[trigger] after[a]).id.0 < (#[trigger] after[b]).id.0 by {
                assert(after[a].id == before[a].id);
                assert(before[a].id.0 < id.0);
                if b < before.len() {
                    assert(after[b].id == before[b].id);
                    assert(before[a].id.0 < before[b].id.0);
                }
            }
            assert forall|a: int| 0 <= a < after.len() implies effect_valid(#[trigger] after[a])
                && after[a].id.0 < ids.next by {
                if a < before.len() {
                    assert(effect_valid(before[a]));
                    assert(before[a].id.0 < id.0);
                }
            }
            assert forall|a: int, k: int|
                0 <= a < after.len() && 0 <= k < after[a].children.len() implies a
                < #[trigger] after[a].children[k] < after.len() by {
                if a < before.len() {
                    if a == i && k == e.children.len() {
                    } else {
                        assert(after[a].children[k] == before[a].children[k]);
                        assert(a < before[a].children[k] < before.len());
                    }
                }
            }
            assert(effect_at(after, id, at as int));
        }
        Ok(id)
    }

    /// The effect and everything below it that is not disposed.
    pub fn metadata(&self, effect: EffectId) -> (r: EffectMeta)
        requires
            self.wf(),
            has_effect(self@, effect),
        ensures
            meta_model(r) == meta_of(self@, position(self@, effect)),
    {
        let i = self.find(effect);
        self.metadata_at(i)
    }

    fn metadata_at(&self, i: usize) -> (r: EffectMeta)
        requires
            self.wf(),
            i < self.nodes.len(),
        ensures
            meta_model(r) == meta_of(self@, i as int),
        decreases self.nodes.len() - i,
    {
        let ghost nodes = self@;
        let mut children: Vec<EffectMeta> = Vec::new();
        let mut k: usize = 0;
        proof {
            assert(nodes[i as int] == self.nodes@[i as int]@);
            assert(meta_models(children@) =~= children_meta(nodes, i as int, 0));
        }
        while k < self.nodes[i].children.len()
            invariant
                self.wf(),
                nodes == self@,
                i < self.nodes.len(),
                nodes[i as int] == self.nodes@[i as int]@,
                k <= nodes[i as int].children.len(),
                meta_models(children@) == children_meta(nodes, i as int, k as nat),
            decreases nodes[i as int].children.len() - k,
        {
            let child = self.nodes[i].children[k];
            proof {
                assert(nodes[i as int].children[k as int] == child);
                assert(nodes[child as int] == self.nodes@[child as int]@);
            }
            let disposed = match &self.nodes[child].status {
                EffectStatus::Disposed(_) => true,
                _ => false,
            };
            if !disposed {
                let ghost before = children@;
                let meta = self.metadata_at(child);
                children.push(meta);
                proof {
                    assert(meta_models(children@) =~= meta_models(before).push(meta_model(meta)));
                }
            }
            k = k + 1;
        }
        let r = EffectMeta { id: self.nodes[i].id, label: self.nodes[i].label.clone(), children };
        proof {
            assert(meta_model(r).children =~= meta_models(r.children@));
        }
        r
    }

    /// Asks for an effect to be disposed. Whoever is answered `Run` runs the inverses.
    pub fn dispose(&mut self, effect: EffectId) -> (r: DisposeAction)
        requires
            old(self).wf(),
            has_effect(old(self)@, effect),
        ensures
            final(self).wf(),
            final(self)@ == with_effect(
                old(self)@,
                effect,
                disposal_begun(lookup(old(self)@, effect)),
            ),
            disposal_answer(lookup(old(self)@, effect), r),
    {
        let i = self.find(effect);
        let ghost before = self@;
        let ghost e = lookup(before, effect);
        proof {
            replaced_valid(before, i as int, disposal_begun(e));
        }
        let runners = self.nodes[i].active_runners;
        let (next, action) = match &self.nodes[i].status {
            EffectStatus::Armed => if runners == 0 {
                (Some(EffectStatus::Disposing), DisposeAction::Run)
            } else {
                (Some(EffectStatus::Draining), DisposeAction::Wait)
            },
            EffectStatus::Draining => if runners == 0 {
                (Some(EffectStatus::Disposing), DisposeAction::Run)
            } else {
                (None, DisposeAction::Wait)
            },
            EffectStatus::Disposing => (None, DisposeAction::Wait),
            EffectStatus::Disposed(report) => (
                None,
                DisposeAction::Complete(duplicate_report(report)),
            ),
        };
        match next {
            Some(status) => {
                self.nodes[i].status = status;
            },
            None => {},
        }
        proof {
            assert(self@ =~= before.update(i as int, disposal_begun(e)));
        }
        action
    }

    /// Takes the inverse to run next: the one registered last.
    pub fn next_inverse(&mut self, effect: EffectId) -> (r: Option<Inverse<T>>)
        requires
            old(self).wf(),
            has_effect(old(self)@, effect),
            lookup(old(self)@, effect).status is Disposing,
        ensures
            final(self).wf(),
            ({
                let e = lookup(old(self)@, effect);
                if e.inverses.len() == 0 {
                    r is None && final(self)@ == old(self)@
                } else {
                    &&& r == Some(e.inverses.last())
                    &&& final(self)@ == with_effect(old(self)@, effect, inverse_taken(e))
                }
            }),
    {
        let i = self.find(effect);
        let ghost before = self@;
        let ghost e = lookup(before, effect);
        let r = self.nodes[i].inverses.pop();
        proof {
            if e.inverses.len() == 0 {
                assert(self.nodes@[i as int].inverses@ =~= e.inverses);
                assert(self@ =~= before);
            } else {
                let next = EffectModel { inverses: e.inverses.drop_last(), ..e };
                assert(self.nodes@[i as int].inverses@ =~= next.inverses);
                assert(self@ =~= before.update(i as int, next));
                replaced_valid(before, i as int, next);
            }
        }
        r
    }

    /// Records how an inverse went. A failure does not keep the remaining ones from running.
    pub fn record_result(&mut self, effect: EffectId, result: Result<(), CordisError>)
        requires
            old(self).wf(),
            has_effect(old(self)@, effect),
            lookup(old(self)@, effect).status is Disposing,
        ensures
            final(self).wf(),
            final(self)@ == with_effect(
                old(self)@,
                effect,
                result_recorded(lookup(old(self)@, effect), result_model(result)),
            ),
    {
        match result {
            Ok(_) => {
                proof {
                    let i = position(self@, effect);
                    assert(effect_at(self@, effect, i));
                    assert(self@.update(i, self@[i]) =~= self@);
                }
            },
            Err(error) => self.push_error(effect, error),
        }
    }

    fn push_error(&mut self, effect: EffectId, error: CordisError)
        requires
            old(self).wf(),
            has_effect(old(self)@, effect),
        ensures
            final(self).wf(),
            ({
                let e = lookup(old(self)@, effect);
                final(self)@ == with_effect(
                    old(self)@,
                    effect,
                    (EffectModel { errors: e.errors.push(error@), ..e }),
                )
            }),
    {
        let i = self.find(effect);
        let ghost before = self@;
        let ghost e = lookup(before, effect);
        let ghost content = error@;
        let ghost errors = self.nodes@[i as int].errors@;
        self.nodes[i].errors.push(error);
        proof {
            assert(error_models(errors.push(error)) =~= error_models(errors).push(content));
            let next = EffectModel { errors: e.errors.push(content), ..e };
            assert(self@ =~= before.update(i as int, next));
            replaced_valid(before, i as int, next);
        }
    }

    /// Ends a disposal whose inverses have all run.
    pub fn finish(&mut self, effect: EffectId) -> (r: DisposeReport)
        requires
            old(self).wf(),
            has_effect(old(self)@, effect),
            lookup(old(self)@, effect).status is Disposing,
            lookup(old(self)@, effect).inverses.len() == 0,
        ensures
            final(self).wf(),
            report_model(r) == report_of(lookup(old(self)@, effect).errors),
            final(self)@ == with_effect(
                old(self)@,
                effect,
                disposal_ended(lookup(old(self)@, effect)),
            ),
    {
        let i = self.find(effect);
        let ghost before = self@;
        let ghost e = lookup(before, effect);
        let errors = duplicate_errors(&self.nodes[i].errors);
        proof {
            assert(error_models(errors@).len() == errors@.len());
            assert(e.errors.len() == self.nodes@[i as int].errors@.len());
            assert(error_models(self.nodes@[i as int].errors@).len() == self.nodes@[i as int].errors@.len());
        }
        let report: DisposeReport = if errors.len() == 0 {
            Ok(())
        } else {
            Err(DisposeErrors { errors })
        };
        self.nodes[i].status = EffectStatus::Disposed(duplicate_report(&report));
        proof {
            let next = EffectModel { status: StatusModel::Disposed(report_model(report)), ..e };
            assert(self@ =~= before.update(i as int, next));
            replaced_valid(before, i as int, next);
        }
        report
    }

    /// Notes that a stream of steps has started to feed an armed effect.
    pub fn begin_runner(&mut self, effect: EffectId)
        requires
            old(self).wf(),
            has_effect(old(self)@, effect),
            lookup(old(self)@, effect).status is Armed,
            lookup(old(self)@, effect).runners < usize::MAX,
        ensures
            final(self).wf(),
            ({
                let e = lookup(old(self)@, effect);
                final(self)@ == with_effect(
                    old(self)@,
                    effect,
                    (EffectModel { runners: (e.runners + 1) as usize, ..e }),
                )
            }),
    {
        let i = self.find(effect);
        let ghost before = self@;
        let ghost e = lookup(before, effect);
        self.nodes[i].active_runners = self.nodes[i].active_runners + 1;
        proof {
            let next = EffectModel { runners: (e.runners + 1) as usize, ..e };
            assert(self@ =~= before.update(i as int, next));
            replaced_valid(before, i as int, next);
        }
    }

    /// Whether a stream may take another step.
    pub fn runner_should_continue(&self, effect: EffectId) -> (r: bool)
        requires
            self.wf(),
            has_effect(self@, effect),
        ensures
            r == (lookup(self@, effect).status is Armed),
    {
        self.is_armed(effect)
    }

    /// Keeps the inverse of a completed stream step, even while disposal waits for the stream.
    pub fn defer_from_runner(&mut self, effect: EffectId, disposer: Disposer<T>) -> (r: bool)
        requires
            old(self).wf(),
            has_effect(old(self)@, effect),
            lookup(old(self)@, effect).status is Armed || lookup(old(self)@, effect).status is Draining,
        ensures
            final(self).wf(),
            r == (lookup(old(self)@, effect).status is Armed),
            ({
                let e = lookup(old(self)@, effect);
                final(self)@ == with_effect(
                    old(self)@,
                    effect,
                    (EffectModel { inverses: e.inverses.push(Inverse::Step(disposer)), ..e }),
                )
            }),
    {
        let i = self.find(effect);
        let ghost before = self@;
        let ghost e = lookup(before, effect);
        let armed = match &self.nodes[i].status {
            EffectStatus::Armed => true,
            _ => false,
        };
        self.nodes[i].inverses.push(Inverse::Step(disposer));
        proof {
            let next = EffectModel { inverses: e.inverses.push(Inverse::Step(disposer)), ..e };
            assert(self@ =~= before.update(i as int, next));
            replaced_valid(before, i as int, next);
        }
        armed
    }

    /// Keeps the error that ended a stream.
    pub fn record_runner_error(&mut self, effect: EffectId, error: CordisError)
        requires
            old(self).wf(),
            has_effect(old(self)@, effect),
        ensures
            final(self).wf(),
            ({
                let e = lookup(old(self)@, effect);
                final(self)@ == with_effect(
                    old(self)@,
                    effect,
                    (EffectModel { errors: e.errors.push(error@), ..e }),
                )
            }),
    {
        self.push_error(effect, error)
    }

    /// Notes that a stream has ended.
    pub fn end_runner(&mut self, effect: EffectId)
        requires
            old(self).wf(),
            has_effect(old(self)@, effect),
            lookup(old(self)@, effect).runners > 0,
        ensures
            final(self).wf(),
            ({
                let e = lookup(old(self)@, effect);
                final(self)@ == with_effect(
                    old(self)@,
                    effect,
                    (EffectModel { runners: (e.runners - 1) as usize, ..e }),
                )
            }),
    {
        let i = self.find(effect);
        let ghost before = self@;
        let ghost e = lookup(before, effect);
        self.nodes[i].active_runners = self.nodes[i].active_runners - 1;
        proof {
            let next = EffectModel { runners: (e.runners - 1) as usize, ..e };
            assert(self@ =~= before.update(i as int, next));
            replaced_valid(before, i as int, next);
        }
    }
}

/// The inverses left after `n` have been taken.
pub open spec fn remaining<T>(inverses: Seq<Inverse<T>>, n: nat) -> Seq<Inverse<T>>
    decreases n,
{
    if n == 0 {
        inverses
    } else {
        remaining(inverses, (n - 1) as nat).drop_last()
    }
}

/// Inverses run in reverse registration order: the one taken after `n` others is the one that
/// has exactly `n` registered behind it.
pub proof fn inverses_run_in_reverse<T>(inverses: Seq<Inverse<T>>, n: nat)
    requires
        n < inverses.len(),
    ensures
        remaining(inverses, n).last() == inverses.reverse()[n as int],
        remaining(inverses, n) == inverses.take(inverses.len() - n),
    decreases n,
{
    if n > 0 {
        inverses_run_in_reverse(inverses, (n - 1) as nat);
        assert(remaining(inverses, n) =~= inverses.take(inverses.len() - n));
    } else {
        assert(inverses.take(inverses.len() as int) =~= inverses);
    }
}

/// Disposal happens once: while it runs everyone else waits, and afterwards everyone gets the
/// same report and nothing changes any more.
pub proof fn disposal_happens_once<T>(e: EffectModel<T>, report: Result<(), Seq<ErrorModel>>)
    requires
        e.status == StatusModel::Disposed(report),
    ensures
        disposal_begun(e) == e,
        forall|answer: DisposeAction| #[trigger]
            disposal_answer(e, answer) ==> answer is Complete && report_model(
                answer->Complete_0,
            ) == report,
        forall|answer: DisposeAction| #[trigger]
            disposal_answer(
                (EffectModel { status: StatusModel::Disposing, ..e }),
                answer,
            ) ==> answer is Wait,
{
}

/// Nothing is added to an effect once disposal has started.
pub proof fn disposal_closes_an_effect<T>(e: EffectModel<T>)
    ensures
        inactive_error(disposal_begun(e)) == Some(ErrorModel::InactiveEffect { effect: e.id }),
{
}

/// A stream that is feeding an effect is waited for: disposal starts only after it has ended.
pub proof fn disposal_waits_for_streams<T>(e: EffectModel<T>)
    requires
        e.runners > 0,
        effect_valid(e),
    ensures
        !(disposal_begun(e).status is Disposing),
{
}

/// The failures among the first `n` outcomes, in order.
pub open spec fn failures(outcomes: Seq<Result<(), ErrorModel>>, n: nat) -> Seq<ErrorModel>
    decreases n,
{
    if n == 0 {
        Seq::empty()
    } else {
        let before = failures(outcomes, (n - 1) as nat);
        match outcomes[n - 1] {
            Ok(_) => before,
            Err(error) => before.push(error),
        }
    }
}

/// The effect after the first `n` inverses of its disposal came to these outcomes, and the
/// inverses that were run by then, in order.
pub open spec fn disposing<T>(
    e: EffectModel<T>,
    outcomes: Seq<Result<(), ErrorModel>>,
    n: nat,
) -> (EffectModel<T>, Seq<Inverse<T>>)
    decreases n,
{
    if n == 0 {
        (disposal_begun(e), Seq::empty())
    } else {
        let (before, ran) = disposing(e, outcomes, (n - 1) as nat);
        (
            result_recorded(inverse_taken(before), outcomes[n - 1]),
            ran.push(before.inverses.last()),
        )
    }
}

proof fn disposing_so_far<T>(
    e: EffectModel<T>,
    outcomes: Seq<Result<(), ErrorModel>>,
    n: nat,
)
    requires
        e.status is Armed || e.status is Draining,
        e.runners == 0,
        outcomes.len() == e.inverses.len(),
        n <= outcomes.len(),
    ensures
        ({
            let (now, ran) = disposing(e, outcomes, n);
            &&& now == (EffectModel {
                status: StatusModel::Disposing,
                inverses: e.inverses.take(e.inverses.len() - n),
                errors: e.errors + failures(outcomes, n),
                ..e
            })
            &&& ran == e.inverses.reverse().take(n as int)
        }),
    decreases n,
{
    let all = e.inverses;
    if n == 0 {
        assert(all.take(all.len() as int) =~= all);
        assert(e.errors + failures(outcomes, 0) =~= e.errors);
        assert(all.reverse().take(0) =~= Seq::empty());
    } else {
        disposing_so_far(e, outcomes, (n - 1) as nat);
        let (before, ran) = disposing(e, outcomes, (n - 1) as nat);
        let left = all.take(all.len() - (n - 1));
        assert(left.drop_last() =~= all.take(all.len() - n));
        assert(left.last() == all.reverse()[n - 1]);
        assert(all.reverse().take(n as int) =~= all.reverse().take(n - 1).push(
            all.reverse()[n - 1],
        ));
        match outcomes[n - 1] {
            Ok(_) => {},
            Err(error) => {
                let known = e.errors + failures(outcomes, (n - 1) as nat);
                assert(known.push(error) =~= e.errors + failures(outcomes, n));
            },
        }
    }
}

proof fn failures_are_the_errors(outcomes: Seq<Result<(), ErrorModel>>, n: nat)
    requires
        n <= outcomes.len(),
    ensures
        failures(outcomes, n).len() == 0 <==> forall|i: int|
            0 <= i < n ==> (#[trigger] outcomes[i]) is Ok,
    decreases n,
{
    if n > 0 {
        failures_are_the_errors(outcomes, (n - 1) as nat);
    }
}

/// No failure of a disposal is forgotten: the failure of each inverse is listed behind those that
/// came before it, and nothing else is listed.
pub proof fn every_failure_is_listed(outcomes: Seq<Result<(), ErrorModel>>, i: int, n: nat)
    requires
        0 <= i < n <= outcomes.len(),
    ensures
        failures(outcomes, 0).len() == 0,
        failures(outcomes, (i + 1) as nat).len() == failures(outcomes, i as nat).len() + if outcomes[i] is Err {
            1int
        } else {
            0int
        },
        failures(outcomes, (i + 1) as nat).len() <= failures(outcomes, n).len(),
        outcomes[i] matches Err(error) ==> failures(outcomes, n)[failures(
            outcomes,
            i as nat,
        ).len() as int] == error,
    decreases n,
{
    if i < n - 1 {
        every_failure_is_listed(outcomes, i, (n - 1) as nat);
    }
}

/// A whole disposal: whichever inverses fail, each runs exactly once, the one registered last
/// first. The report is good exactly if the effect had collected no error before and every
/// inverse succeeded, and otherwise lists all failures in the order in which they came. Whoever
/// asks meanwhile waits, whoever asks later gets the same report, and nothing can be added any
/// more.
pub proof fn disposals_run_every_inverse<T>(
    e: EffectModel<T>,
    outcomes: Seq<Result<(), ErrorModel>>,
)
    requires
        e.status is Armed || e.status is Draining,
        e.runners == 0,
        outcomes.len() == e.inverses.len(),
    ensures
        ({
            let (now, ran) = disposing(e, outcomes, outcomes.len());
            let found = e.errors + failures(outcomes, outcomes.len());
            let ended = disposal_ended(now);
            &&& disposal_answer(e, DisposeAction::Run)
            &&& ran == e.inverses.reverse()
            &&& now.status is Disposing
            &&& now.inverses.len() == 0
            &&& ended.status == StatusModel::Disposed(report_of(found))
            &&& report_of(found) is Ok <==> e.errors.len() == 0 && forall|i: int|
                0 <= i < outcomes.len() ==> (#[trigger] outcomes[i]) is Ok
            &&& report_of(found) is Err ==> report_of(found)->Err_0 == found
            &&& forall|answer: DisposeAction| #[trigger]
                disposal_answer(ended, answer) ==> answer is Complete && report_model(
                    answer->Complete_0,
                ) == report_of(found)
            &&& disposal_begun(ended) == ended
            &&& inactive_error(ended) == Some(ErrorModel::InactiveEffect { effect: e.id })
        }),
        forall|n: nat, answer: DisposeAction|
            n <= outcomes.len() && #[trigger] disposal_answer(disposing(e, outcomes, n).0, answer)
                ==> answer is Wait,
{
    disposing_so_far(e, outcomes, outcomes.len());
    failures_are_the_errors(outcomes, outcomes.len());
    assert(e.inverses.reverse().take(outcomes.len() as int) =~= e.inverses.reverse());
    assert forall|n: nat, answer: DisposeAction|
        n <= outcomes.len() && #[trigger] disposal_answer(
            disposing(e, outcomes, n).0,
            answer,
        ) implies answer is Wait by {
        disposing_so_far(e, outcomes, n);
    }
}

/// A new effect after the first `n` disposers were added.
pub open spec fn effect_with<T>(
    id: EffectId,
    label: Seq<char>,
    disposers: Seq<Disposer<T>>,
    n: nat,
) -> EffectModel<T>
    decreases n,
{
    if n == 0 {
        fresh_effect(id, label)
    } else {
        deferred(effect_with(id, label, disposers, (n - 1) as nat), disposers[n - 1])
    }
}

proof fn effect_with_is<T>(
    id: EffectId,
    label: Seq<char>,
    disposers: Seq<Disposer<T>>,
    n: nat,
)
    requires
        n <= disposers.len(),
    ensures
        effect_with(id, label, disposers, n) == (EffectModel {
            inverses: Seq::new(n, |i: int| Inverse::Step(disposers[i])),
            ..fresh_effect(id, label)
        }),
    decreases n,
{
    let steps = Seq::new(n, |i: int| Inverse::Step(disposers[i]));
    if n == 0 {
        assert(steps =~= Seq::empty());
    } else {
        effect_with_is(id, label, disposers, (n - 1) as nat);
        assert(steps =~= Seq::new((n - 1) as nat, |i: int| Inverse::Step(disposers[i])).push(
            Inverse::Step(disposers[n - 1]),
        ));
    }
}

/// Disposers added to a new effect one after another accept all of them, and disposing the
/// effect runs each exactly once, the last one first, also after some fail; the report lists
/// exactly the failures, in run order.
pub proof fn disposers_run_in_reverse<T>(
    id: EffectId,
    label: Seq<char>,
    disposers: Seq<Disposer<T>>,
    outcomes: Seq<Result<(), ErrorModel>>,
)
    requires
        outcomes.len() == disposers.len(),
    ensures
        forall|n: nat|
            n <= disposers.len() ==> inactive_error(
                #[trigger] effect_with(id, label, disposers, n),
            ) is None,
        ({
            let e = effect_with(id, label, disposers, disposers.len());
            let (now, ran) = disposing(e, outcomes, outcomes.len());
            &&& ran.len() == disposers.len()
            &&& forall|i: int|
                0 <= i < ran.len() ==> #[trigger] ran[i] == Inverse::Step(
                    disposers[disposers.len() - 1 - i],
                )
            &&& disposal_ended(now).status == StatusModel::Disposed(
                report_of(failures(outcomes, outcomes.len())),
            )
        }),
{
    assert forall|n: nat| n <= disposers.len() implies inactive_error(
        #[trigger] effect_with(id, label, disposers, n),
    ) is None by {
        effect_with_is(id, label, disposers, n);
    }
    let e = effect_with(id, label, disposers, disposers.len());
    effect_with_is(id, label, disposers, disposers.len());
    disposals_run_every_inverse(e, outcomes);
    assert(e.errors + failures(outcomes, outcomes.len()) =~= failures(outcomes, outcomes.len()));
}

} // verus!
