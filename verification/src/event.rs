//! Effect-owned event listeners and the dispatch disciplines.
use crate::effect::{panic_message, panic_text};
use crate::error::{error_models, CordisError, ErrorModel};
use crate::id::{EffectId, IdSource, ListenerId, RealmId};
use std::ops::ControlFlow;
use vstd::prelude::*;

verus! {

/// Realm used to select listeners for one dispatch.
#[derive(Clone, Copy, Debug, PartialEq, Eq, Structural)]
pub enum EventTarget {
    Global,
    Realm(RealmId),
}

/// Registration-time listener selection and ordering.
#[derive(Clone, Copy, Debug, PartialEq, Eq, Structural)]
pub struct ListenerOptions {
    pub target: EventTarget,
    pub prepend: bool,
}

impl ListenerOptions {
    /// Listens to every dispatch, after the listeners registered before.
    pub fn global() -> (r: ListenerOptions)
        ensures
            r == (ListenerOptions { target: EventTarget::Global, prepend: false }),
    {
        ListenerOptions { target: EventTarget::Global, prepend: false }
    }

    /// Listens to the dispatches of one realm.
    pub fn realm(realm: RealmId) -> (r: ListenerOptions)
        ensures
            r == (ListenerOptions { target: EventTarget::Realm(realm), prepend: false }),
    {
        ListenerOptions { target: EventTarget::Realm(realm), prepend: false }
    }

    /// Moves the listener ahead of all that are not prepended.
    #[must_use]
    pub fn prepend(self) -> (r: ListenerOptions)
        ensures
            r == (ListenerOptions { prepend: true, ..self }),
    {
        ListenerOptions { target: self.target, prepend: true }
    }
}

impl Default for ListenerOptions {
    fn default() -> (r: ListenerOptions)
        ensures
            r == (ListenerOptions { target: EventTarget::Global, prepend: false }),
    {
        ListenerOptions::global()
    }
}

/// Whether a listener hears a dispatch.
pub open spec fn hears(listener: EventTarget, dispatch: EventTarget) -> bool {
    listener is Global || listener == dispatch
}

pub fn listener_matches(listener: EventTarget, dispatch: EventTarget) -> (r: bool)
    ensures
        r == hears(listener, dispatch),
{
    match listener {
        EventTarget::Global => true,
        EventTarget::Realm(a) => match dispatch {
            EventTarget::Global => false,
            EventTarget::Realm(b) => a.0 == b.0,
        },
    }
}

/// A registered listener.
#[derive(Debug)]
pub struct ListenerEntry<C> {
    pub id: ListenerId,
    pub options: ListenerOptions,
    pub callback: C,
}

/// Listeners in registration order.
#[derive(Debug)]
pub struct ListenerStore<C> {
    pub entries: Vec<ListenerEntry<C>>,
}

/// Registration order is identifier order.
pub open spec fn in_order<C>(entries: Seq<ListenerEntry<C>>) -> bool {
    forall|i: int, j: int|
        0 <= i < j < entries.len() ==> (#[trigger] entries[i]).id.0 < (#[trigger] entries[j]).id.0
}

/// All identifiers are below `bound`.
pub open spec fn listeners_below<C>(entries: Seq<ListenerEntry<C>>, bound: u64) -> bool {
    forall|i: int| 0 <= i < entries.len() ==> (#[trigger] entries[i]).id.0 < bound
}

/// The listeners among the first `n` that hear a dispatch and are, or are not, prepended.
pub open spec fn heard_by<C>(
    entries: Seq<ListenerEntry<C>>,
    dispatch: EventTarget,
    prepend: bool,
    n: nat,
) -> Seq<ListenerId>
    decreases n,
{
    if n == 0 {
        Seq::empty()
    } else {
        let before = heard_by(entries, dispatch, prepend, (n - 1) as nat);
        let e = entries[n - 1];
        if hears(e.options.target, dispatch) && e.options.prepend == prepend {
            before.push(e.id)
        } else {
            before
        }
    }
}

/// The order in which a dispatch calls its listeners: the prepended ones, then the others, each
/// in registration order.
pub open spec fn call_order<C>(entries: Seq<ListenerEntry<C>>, dispatch: EventTarget) -> Seq<
    ListenerId,
> {
    heard_by(entries, dispatch, true, entries.len()) + heard_by(
        entries,
        dispatch,
        false,
        entries.len(),
    )
}

/// Any listener but one.
pub open spec fn other_than<C>(id: ListenerId) -> spec_fn(ListenerEntry<C>) -> bool {
    |e: ListenerEntry<C>| e.id != id
}

/// All listeners but one.
pub open spec fn without_listener<C>(entries: Seq<ListenerEntry<C>>, id: ListenerId) -> Seq<
    ListenerEntry<C>,
> {
    entries.filter(other_than(id))
}

impl<C> ListenerStore<C> {
    pub fn new() -> (r: ListenerStore<C>)
        ensures
            r.entries@.len() == 0,
            in_order(r.entries@),
    {
        ListenerStore { entries: Vec::new() }
    }

    /// Registers a listener owned by `effect`. Refused once that effect is being disposed.
    pub fn register(
        &mut self,
        ids: &mut IdSource,
        effect: EffectId,
        armed: bool,
        options: ListenerOptions,
        callback: C,
    ) -> (r: Result<ListenerId, CordisError>)
        requires
            in_order(old(self).entries@),
            listeners_below(old(self).entries@, old(ids).next),
            old(ids).next < u64::MAX,
        ensures
            in_order(final(self).entries@),
            listeners_below(final(self).entries@, final(ids).next),
            final(ids).next == old(ids).next + 1,
            match r {
                Ok(id) => armed && id.0 == old(ids).next && final(self).entries@
                    == old(self).entries@.push(ListenerEntry { id, options, callback }),
                Err(error) => !armed && error@ == (ErrorModel::InactiveEffect { effect })
                    && final(self).entries@ == old(self).entries@,
            },
    {
        let id = ListenerId::next(ids);
        if !armed {
            return Err(CordisError::InactiveEffect { effect });
        }
        self.entries.push(ListenerEntry { id, options, callback });
        Ok(id)
    }

    /// Removes a listener; all others stay in order.
    pub fn remove(&mut self, id: ListenerId)
        requires
            in_order(old(self).entries@),
        ensures
            final(self).entries@ == without_listener(old(self).entries@, id),
            in_order(final(self).entries@),
            forall|bound: u64|
                listeners_below(old(self).entries@, bound) ==> #[trigger] listeners_below(
                    final(self).entries@,
                    bound,
                ),
    {
        let ghost before = self.entries@;
        let ghost keep = other_than::<C>(id);
        let mut i: usize = 0;
        while i < self.entries.len()
            invariant
                before == old(self).entries@,
                keep == other_than::<C>(id),
                self.entries@ == before,
                in_order(before),
                i <= self.entries.len(),
                forall|k: int| 0 <= k < i ==> (#[trigger] before[k]).id != id,
            decreases self.entries.len() - i,
        {
            if self.entries[i].id.0 == id.0 {
                let _ = self.entries.remove(i);
                proof {
                    let after = self.entries@;
                    assert forall|k: int| 0 <= k < before.len() && k != i implies (
                    #[trigger] before[k]).id != id by {
                        if k < i {
                            assert(before[k].id.0 < before[i as int].id.0);
                        } else {
                            assert(before[i as int].id.0 < before[k].id.0);
                        }
                    }
                    filter_one_out(before, keep, i as int);
                    removed_in_order(before, i as int);
                }
                return;
            }
            i = i + 1;
        }
        proof {
            filter_all_kept(before, keep);
        }
    }

    /// The listeners that hear a dispatch, in call order.
    pub fn matching(&self, target: EventTarget) -> (r: Vec<ListenerId>)
        requires
            in_order(self.entries@),
        ensures
            r@ == call_order(self.entries@, target),
    {
        let mut first: Vec<ListenerId> = Vec::new();
        let mut second: Vec<ListenerId> = Vec::new();
        let mut i: usize = 0;
        while i < self.entries.len()
            invariant
                i <= self.entries.len(),
                first@ == heard_by(self.entries@, target, true, i as nat),
                second@ == heard_by(self.entries@, target, false, i as nat),
            decreases self.entries.len() - i,
        {
            let entry = &self.entries[i];
            if listener_matches(entry.options.target, target) {
                if entry.options.prepend {
                    first.push(entry.id);
                } else {
                    second.push(entry.id);
                }
            }
            i = i + 1;
        }
        first.append(&mut second);
        first
    }

    /// The callback of a listener.
    pub fn callback(&self, id: ListenerId) -> (r: Option<&C>)
        requires
            in_order(self.entries@),
        ensures
            match r {
                Some(callback) => exists|i: int|
                    0 <= i < self.entries@.len() && (#[trigger] self.entries@[i]).id == id
                        && self.entries@[i].callback == *callback,
                None => forall|i: int|
                    0 <= i < self.entries@.len() ==> (#[trigger] self.entries@[i]).id != id,
            },
    {
        let mut i: usize = 0;
        while i < self.entries.len()
            invariant
                i <= self.entries.len(),
                forall|k: int| 0 <= k < i ==> (#[trigger] self.entries@[k]).id != id,
            decreases self.entries.len() - i,
        {
            if self.entries[i].id.0 == id.0 {
                return Some(&self.entries[i].callback);
            }
            i = i + 1;
        }
        None
    }
}

proof fn filter_all_kept<A>(items: Seq<A>, keep: spec_fn(A) -> bool)
    requires
        forall|k: int| 0 <= k < items.len() ==> keep(#[trigger] items[k]),
    ensures
        items.filter(keep) == items,
    decreases items.len(),
{
    reveal(Seq::filter);
    if items.len() > 0 {
        filter_all_kept(items.drop_last(), keep);
        assert(keep(items[items.len() - 1]));
        assert(items.drop_last().push(items.last()) =~= items);
    }
}

proof fn filter_one_out<A>(items: Seq<A>, keep: spec_fn(A) -> bool, i: int)
    requires
        0 <= i < items.len(),
        !keep(items[i]),
        forall|k: int| 0 <= k < items.len() && k != i ==> keep(#[trigger] items[k]),
    ensures
        items.filter(keep) == items.remove(i),
    decreases items.len(),
{
    reveal(Seq::filter);
    let rest = items.drop_last();
    if i == items.len() - 1 {
        filter_all_kept(rest, keep);
        assert(items.remove(i) =~= rest);
    } else {
        filter_one_out(rest, keep, i);
        assert(keep(items[items.len() - 1]));
        assert(items.remove(i) =~= rest.remove(i).push(items.last()));
    }
}

proof fn removed_in_order<C>(entries: Seq<ListenerEntry<C>>, i: int)
    requires
        in_order(entries),
        0 <= i < entries.len(),
    ensures
        in_order(entries.remove(i)),
        forall|bound: u64|
            listeners_below(entries, bound) ==> #[trigger] listeners_below(
                entries.remove(i),
                bound,
            ),
{
    let after = entries.remove(i);
    assert forall|a: int, b: int| 0 <= a < b < after.len() implies (#[trigger] after[a]).id.0 < (
    #[trigger] after[b]).id.0 by {
        let p = if a < i {
            a
        } else {
            a + 1
        };
        let q = if b < i {
            b
        } else {
            b + 1
        };
        assert(after[a] == entries[p] && after[b] == entries[q]);
    }
    assert forall|bound: u64| listeners_below(entries, bound) implies #[trigger] listeners_below(
        after,
        bound,
    ) by {
        assert forall|a: int| 0 <= a < after.len() implies (#[trigger] after[a]).id.0 < bound by {
            let p = if a < i {
                a
            } else {
                a + 1
            };
            assert(after[a] == entries[p]);
        }
    }
}

/// A listener that panicked counts as failed.
pub fn listener_panic(message: Option<String>) -> (r: CordisError)
    ensures
        r@ == (ErrorModel::EventListenerPanicked {
            message: panic_text(
                match message {
                    Some(text) => Some(text@),
                    None => None,
                },
            ),
        }),
{
    CordisError::EventListenerPanicked { message: panic_message(message) }
}

/// Asynchronous listeners: all at once, or one by one until the first break.
#[derive(Debug)]
pub struct AsyncEvent<C> {
    pub listeners: ListenerStore<C>,
}

impl<C> AsyncEvent<C> {
    pub fn new() -> (r: AsyncEvent<C>)
        ensures
            r.listeners.entries@.len() == 0,
            in_order(r.listeners.entries@),
    {
        AsyncEvent { listeners: ListenerStore::new() }
    }

    /// Registers a listener whose lifetime is owned by `effect`.
    pub fn listen(
        &mut self,
        ids: &mut IdSource,
        effect: EffectId,
        armed: bool,
        options: ListenerOptions,
        callback: C,
    ) -> (r: Result<ListenerId, CordisError>)
        requires
            in_order(old(self).listeners.entries@),
            listeners_below(old(self).listeners.entries@, old(ids).next),
            old(ids).next < u64::MAX,
        ensures
            in_order(final(self).listeners.entries@),
            listeners_below(final(self).listeners.entries@, final(ids).next),
            final(ids).next == old(ids).next + 1,
            match r {
                Ok(id) => armed && id.0 == old(ids).next && final(self).listeners.entries@
                    == old(self).listeners.entries@.push(ListenerEntry { id, options, callback }),
                Err(error) => !armed && error@ == (ErrorModel::InactiveEffect { effect })
                    && final(self).listeners.entries@ == old(self).listeners.entries@,
            },
    {
        self.listeners.register(ids, effect, armed, options, callback)
    }
}

/// Synchronous listeners, called one by one until the first break.
#[derive(Debug)]
pub struct BailEvent<C> {
    pub listeners: ListenerStore<C>,
}

impl<C> BailEvent<C> {
    pub fn new() -> (r: BailEvent<C>)
        ensures
            r.listeners.entries@.len() == 0,
            in_order(r.listeners.entries@),
    {
        BailEvent { listeners: ListenerStore::new() }
    }

    /// Registers a listener whose lifetime is owned by `effect`.
    pub fn listen(
        &mut self,
        ids: &mut IdSource,
        effect: EffectId,
        armed: bool,
        options: ListenerOptions,
        callback: C,
    ) -> (r: Result<ListenerId, CordisError>)
        requires
            in_order(old(self).listeners.entries@),
            listeners_below(old(self).listeners.entries@, old(ids).next),
            old(ids).next < u64::MAX,
        ensures
            in_order(final(self).listeners.entries@),
            listeners_below(final(self).listeners.entries@, final(ids).next),
            final(ids).next == old(ids).next + 1,
            match r {
                Ok(id) => armed && id.0 == old(ids).next && final(self).listeners.entries@
                    == old(self).listeners.entries@.push(ListenerEntry { id, options, callback }),
                Err(error) => !armed && error@ == (ErrorModel::InactiveEffect { effect })
                    && final(self).listeners.entries@ == old(self).listeners.entries@,
            },
    {
        self.listeners.register(ids, effect, armed, options, callback)
    }
}

/// Onion middleware.
#[derive(Debug)]
pub struct WaterfallEvent<C> {
    pub listeners: ListenerStore<C>,
}

impl<C> WaterfallEvent<C> {
    pub fn new() -> (r: WaterfallEvent<C>)
        ensures
            r.listeners.entries@.len() == 0,
            in_order(r.listeners.entries@),
    {
        WaterfallEvent { listeners: ListenerStore::new() }
    }

    /// Registers a listener whose lifetime is owned by `effect`.
    pub fn listen(
        &mut self,
        ids: &mut IdSource,
        effect: EffectId,
        armed: bool,
        options: ListenerOptions,
        callback: C,
    ) -> (r: Result<ListenerId, CordisError>)
        requires
            in_order(old(self).listeners.entries@),
            listeners_below(old(self).listeners.entries@, old(ids).next),
            old(ids).next < u64::MAX,
        ensures
            in_order(final(self).listeners.entries@),
            listeners_below(final(self).listeners.entries@, final(ids).next),
            final(ids).next == old(ids).next + 1,
            match r {
                Ok(id) => armed && id.0 == old(ids).next && final(self).listeners.entries@
                    == old(self).listeners.entries@.push(ListenerEntry { id, options, callback }),
                Err(error) => !armed && error@ == (ErrorModel::InactiveEffect { effect })
                    && final(self).listeners.entries@ == old(self).listeners.entries@,
            },
    {
        self.listeners.register(ids, effect, armed, options, callback)
    }
}

/// The values of successful results, in order.
pub open spec fn values_of<V>(results: Seq<Result<V, CordisError>>) -> Seq<V>
    decreases results.len(),
{
    if results.len() == 0 {
        Seq::empty()
    } else {
        match results.last() {
            Ok(value) => values_of(results.drop_last()).push(value),
            Err(_) => values_of(results.drop_last()),
        }
    }
}

/// The errors of failed results, in order.
pub open spec fn errors_of<V>(results: Seq<Result<V, CordisError>>) -> Seq<CordisError>
    decreases results.len(),
{
    if results.len() == 0 {
        Seq::empty()
    } else {
        match results.last() {
            Ok(_) => errors_of(results.drop_last()),
            Err(error) => errors_of(results.drop_last()).push(error),
        }
    }
}

/// Combines what all listeners of a parallel dispatch returned: every value in listener order,
/// or every error once all have finished.
pub fn collect_parallel<V>(results: Vec<Result<V, CordisError>>) -> (r: Result<
    Vec<V>,
    CordisError,
>)
    ensures
        match r {
            Ok(values) => errors_of(results@).len() == 0 && values@ == values_of(results@),
            Err(error) => errors_of(results@).len() > 0 && error@ == (
            ErrorModel::EventListenersFailed { errors: error_models(errors_of(results@)) }),
        },
{
    let ghost all = results@;
    let mut values: Vec<V> = Vec::new();
    let mut errors: Vec<CordisError> = Vec::new();
    for result in iter: results
        invariant
            iter.seq() == all,
            values@ == values_of(all.take(iter.index() as int)),
            errors@ == errors_of(all.take(iter.index() as int)),
    {
        proof {
            let next = all.take(iter.index() + 1);
            assert(next.drop_last() =~= all.take(iter.index() as int));
            assert(next.last() == all[iter.index() as int]);
        }
        match result {
            Ok(value) => values.push(value),
            Err(error) => errors.push(error),
        }
    }
    proof {
        assert(all.take(all.len() as int) =~= all);
    }
    if errors.len() == 0 {
        Ok(values)
    } else {
        let ghost list = errors@;
        let failed = CordisError::EventListenersFailed { errors };
        proof {
            assert(failed@->EventListenersFailed_errors =~= error_models(list));
        }
        Err(failed)
    }
}

/// Whether a serial or bail dispatch goes on after a listener.
#[derive(Debug)]
pub enum SerialStep<B> {
    Continue,
    Done(Result<Option<B>, CordisError>),
}

/// Decides what one listener's result means: the first break or error ends the dispatch.
pub fn serial_step<B>(result: Result<ControlFlow<B>, CordisError>) -> (r: SerialStep<B>)
    ensures
        match result {
            Ok(ControlFlow::Continue(_)) => r is Continue,
            Ok(ControlFlow::Break(value)) => r == SerialStep::Done(Ok(Some(value))),
            Err(error) => r == SerialStep::Done(Err::<Option<B>, CordisError>(error)),
        },
{
    match result {
        Ok(ControlFlow::Continue(_)) => SerialStep::Continue,
        Ok(ControlFlow::Break(value)) => SerialStep::Done(Ok(Some(value))),
        Err(error) => SerialStep::Done(Err(error)),
    }
}

/// A result that lets a serial or bail dispatch go on.
pub open spec fn goes_on<B>(result: Result<ControlFlow<B>, CordisError>) -> bool {
    result matches Ok(ControlFlow::Continue(_))
}

/// The outcome of a whole serial or bail dispatch over the listeners' results.
pub fn serial_outcome<B>(results: Vec<Result<ControlFlow<B>, CordisError>>) -> (r: Result<
    Option<B>,
    CordisError,
>)
    ensures
        (forall|i: int| 0 <= i < results@.len() ==> goes_on(#[trigger] results@[i])) ==> r == Ok::<
            Option<B>,
            CordisError,
        >(None),
        forall|k: int|
            0 <= k < results@.len() && !goes_on(#[trigger] results@[k]) && (forall|i: int|
                0 <= i < k ==> goes_on(#[trigger] results@[i])) ==> match results@[k] {
                Ok(ControlFlow::Break(value)) => r == Ok::<Option<B>, CordisError>(Some(value)),
                Err(error) => r == Err::<Option<B>, CordisError>(error),
                _ => false,
            },
{
    let ghost all = results@;
    for result in iter: results
        invariant
            iter.seq() == all,
            forall|i: int| 0 <= i < iter.index() ==> goes_on(#[trigger] all[i]),
    {
        proof {
            assert(all[iter.index() as int] == result);
        }
        match serial_step(result) {
            SerialStep::Continue => {},
            SerialStep::Done(outcome) => {
                return outcome;
            },
        }
    }
    Ok(None)
}

/// One-shot continuation passed to a waterfall listener: the position to go on at.
#[derive(Debug)]
pub struct Next {
    pub step: Option<usize>,
}

impl Next {
    /// Takes the continuation. It can be taken once.
    pub fn call(&mut self) -> (r: Result<usize, CordisError>)
        ensures
            final(self).step is None,
            match (r, old(self).step) {
                (Ok(at), Some(step)) => at == step,
                (Err(error), None) => error@ == ErrorModel::NextAlreadyUsed,
                _ => false,
            },
    {
        match self.step.take() {
            Some(at) => Ok(at),
            None => Err(CordisError::NextAlreadyUsed),
        }
    }
}

/// What a waterfall does at one position of its listeners.
#[derive(Debug)]
pub enum WaterfallTurn {
    /// All listeners have been entered: the value is the result.
    Finish,
    /// The listener at this position runs, with a continuation to the next one.
    Run(usize, Next),
}

/// Enters a waterfall of `len` listeners at `index`.
pub fn run_waterfall(len: usize, index: usize) -> (r: WaterfallTurn)
    ensures
        index >= len ==> r is Finish,
        index < len ==> r == WaterfallTurn::Run(index, Next { step: Some((index + 1) as usize) }),
{
    if index < len {
        WaterfallTurn::Run(index, Next { step: Some(index + 1) })
    } else {
        WaterfallTurn::Finish
    }
}

/// A dispatch calls each listener that hears it, and no other.
pub proof fn dispatch_calls_exactly_the_hearers<C>(
    entries: Seq<ListenerEntry<C>>,
    dispatch: EventTarget,
    n: nat,
    prepend: bool,
    id: ListenerId,
)
    requires
        n <= entries.len(),
    ensures
        heard_by(entries, dispatch, prepend, n).contains(id) <==> exists|i: int|
            0 <= i < n && (#[trigger] entries[i]).id == id && hears(
                entries[i].options.target,
                dispatch,
            ) && entries[i].options.prepend == prepend,
    decreases n,
{
    let all = heard_by(entries, dispatch, prepend, n);
    if n > 0 {
        let rest = heard_by(entries, dispatch, prepend, (n - 1) as nat);
        dispatch_calls_exactly_the_hearers(entries, dispatch, (n - 1) as nat, prepend, id);
        let e = entries[n - 1];
        if hears(e.options.target, dispatch) && e.options.prepend == prepend {
            if all.contains(id) {
                let k = choose|k: int| 0 <= k < all.len() && all[k] == id;
                if k < rest.len() {
                    assert(rest[k] == id);
                    assert(rest.contains(id));
                }
            }
            if rest.contains(id) {
                let k = choose|k: int| 0 <= k < rest.len() && rest[k] == id;
                assert(all[k] == id);
            }
            if e.id == id {
                assert(all[rest.len() as int] == id);
            }
        }
    }
}

/// Of two listeners that are both prepended, or both not, the one registered first comes first.
proof fn heard_in_order<C>(
    entries: Seq<ListenerEntry<C>>,
    dispatch: EventTarget,
    prepend: bool,
    n: nat,
    i: int,
    j: int,
) -> (r: (int, int))
    requires
        0 <= i <= j < n <= entries.len(),
        hears(entries[i].options.target, dispatch),
        hears(entries[j].options.target, dispatch),
        entries[i].options.prepend == prepend,
        entries[j].options.prepend == prepend,
    ensures
        0 <= r.0 < heard_by(entries, dispatch, prepend, n).len(),
        0 <= r.1 < heard_by(entries, dispatch, prepend, n).len(),
        i < j ==> r.0 < r.1,
        heard_by(entries, dispatch, prepend, n)[r.0] == entries[i].id,
        heard_by(entries, dispatch, prepend, n)[r.1] == entries[j].id,
    decreases n,
{
    let rest = heard_by(entries, dispatch, prepend, (n - 1) as nat);
    if j < n - 1 {
        heard_in_order(entries, dispatch, prepend, (n - 1) as nat, i, j)
    } else if i < j {
        let (a, _) = heard_in_order(entries, dispatch, prepend, (n - 1) as nat, i, i);
        (a, rest.len() as int)
    } else {
        (rest.len() as int, rest.len() as int)
    }
}

proof fn heard_once<C>(
    entries: Seq<ListenerEntry<C>>,
    dispatch: EventTarget,
    prepend: bool,
    n: nat,
)
    requires
        n <= entries.len(),
        in_order(entries),
    ensures
        heard_by(entries, dispatch, prepend, n).no_duplicates(),
    decreases n,
{
    if n > 0 {
        let rest = heard_by(entries, dispatch, prepend, (n - 1) as nat);
        heard_once(entries, dispatch, prepend, (n - 1) as nat);
        let id = entries[n - 1].id;
        dispatch_calls_exactly_the_hearers(entries, dispatch, (n - 1) as nat, prepend, id);
        assert(!rest.contains(id)) by {
            if rest.contains(id) {
                let i = choose|i: int|
                    0 <= i < n - 1 && (#[trigger] entries[i]).id == id && hears(
                        entries[i].options.target,
                        dispatch,
                    ) && entries[i].options.prepend == prepend;
                assert(entries[i].id.0 < entries[n - 1].id.0);
            }
        }
    }
}

/// A dispatch calls every global listener and, if it is to a realm, every listener of that realm.
/// It calls no other listener, and none twice.
pub proof fn dispatches_reach_their_listeners<C>(
    entries: Seq<ListenerEntry<C>>,
    dispatch: EventTarget,
    id: ListenerId,
)
    requires
        in_order(entries),
    ensures
        call_order(entries, dispatch).no_duplicates(),
        call_order(entries, dispatch).contains(id) <==> exists|i: int|
            0 <= i < entries.len() && (#[trigger] entries[i]).id == id && (
            entries[i].options.target is Global || dispatch is Realm
                && entries[i].options.target == dispatch),
{
    let n = entries.len();
    let first = heard_by(entries, dispatch, true, n);
    let second = heard_by(entries, dispatch, false, n);
    let all = call_order(entries, dispatch);
    dispatch_calls_exactly_the_hearers(entries, dispatch, n, true, id);
    dispatch_calls_exactly_the_hearers(entries, dispatch, n, false, id);
    heard_once(entries, dispatch, true, n);
    heard_once(entries, dispatch, false, n);
    assert forall|a: int, b: int| 0 <= a < b < all.len() implies all[a] != all[b] by {
        if a < first.len() && b >= first.len() {
            let one = all[a];
            assert(first[a] == one && first.contains(one));
            dispatch_calls_exactly_the_hearers(entries, dispatch, n, true, one);
            dispatch_calls_exactly_the_hearers(entries, dispatch, n, false, one);
            if all[b] == one {
                assert(second[b - first.len()] == one && second.contains(one));
                let i = choose|i: int|
                    0 <= i < n && (#[trigger] entries[i]).id == one && hears(
                        entries[i].options.target,
                        dispatch,
                    ) && entries[i].options.prepend;
                let j = choose|j: int|
                    0 <= j < n && (#[trigger] entries[j]).id == one && hears(
                        entries[j].options.target,
                        dispatch,
                    ) && !entries[j].options.prepend;
                if i < j {
                    assert(entries[i].id.0 < entries[j].id.0);
                } else if j < i {
                    assert(entries[j].id.0 < entries[i].id.0);
                }
            }
        } else if b < first.len() {
            assert(first[a] != first[b]);
        } else {
            assert(second[a - first.len()] != second[b - first.len()]);
        }
    }
    if all.contains(id) {
        let k = choose|k: int| 0 <= k < all.len() && all[k] == id;
        if k < first.len() {
            assert(first[k] == id);
        } else {
            assert(second[k - first.len()] == id);
        }
    }
    if first.contains(id) {
        let k = choose|k: int| 0 <= k < first.len() && first[k] == id;
        assert(all[k] == id);
    }
    if second.contains(id) {
        let k = choose|k: int| 0 <= k < second.len() && second[k] == id;
        assert(all[first.len() + k] == id);
    }
    if exists|i: int|
        0 <= i < entries.len() && (#[trigger] entries[i]).id == id && (
        entries[i].options.target is Global || dispatch is Realm && entries[i].options.target
            == dispatch) {
        let i = choose|i: int|
            0 <= i < entries.len() && (#[trigger] entries[i]).id == id && (
            entries[i].options.target is Global || dispatch is Realm && entries[i].options.target
                == dispatch);
        assert(hears(entries[i].options.target, dispatch));
        assert(first.contains(id) || second.contains(id));
    }
}

/// Of two listeners that a dispatch calls, a prepended one is called before one that is not, and
/// otherwise the one registered first is called first.
pub proof fn calls_come_in_order<C>(
    entries: Seq<ListenerEntry<C>>,
    dispatch: EventTarget,
    i: int,
    j: int,
)
    requires
        in_order(entries),
        0 <= i < entries.len(),
        0 <= j < entries.len(),
        entries[i].options.target is Global || entries[i].options.target == dispatch,
        entries[j].options.target is Global || entries[j].options.target == dispatch,
        if entries[i].options.prepend == entries[j].options.prepend {
            i < j
        } else {
            entries[i].options.prepend
        },
    ensures
        exists|a: int, b: int|
            0 <= a < b < call_order(entries, dispatch).len() && #[trigger] call_order(
                entries,
                dispatch,
            )[a] == entries[i].id && #[trigger] call_order(entries, dispatch)[b] == entries[j].id,
{
    let n = entries.len();
    let first = heard_by(entries, dispatch, true, n);
    let second = heard_by(entries, dispatch, false, n);
    let all = call_order(entries, dispatch);
    if entries[i].options.prepend && entries[j].options.prepend {
        let (a, b) = heard_in_order(entries, dispatch, true, n, i, j);
        assert(all[a] == entries[i].id && all[b] == entries[j].id);
    } else if entries[i].options.prepend {
        let (a, _) = heard_in_order(entries, dispatch, true, n, i, i);
        let (b, _) = heard_in_order(entries, dispatch, false, n, j, j);
        assert(all[a] == entries[i].id && all[first.len() + b] == entries[j].id);
    } else {
        let (a, b) = heard_in_order(entries, dispatch, false, n, i, j);
        assert(all[first.len() + a] == entries[i].id && all[first.len() + b] == entries[j].id);
    }
}

/// A removed listener is gone, and all others stay as they are and in order.
pub proof fn removed_listeners_are_gone<C>(entries: Seq<ListenerEntry<C>>, id: ListenerId)
    requires
        in_order(entries),
    ensures
        forall|e: ListenerEntry<C>| #[trigger]
            without_listener(entries, id).contains(e) <==> entries.contains(e) && e.id != id,
        in_order(without_listener(entries, id)),
{
    let keep = other_than::<C>(id);
    let after = without_listener(entries, id);
    if exists|i: int| 0 <= i < entries.len() && (#[trigger] entries[i]).id == id {
        let i = choose|i: int| 0 <= i < entries.len() && (#[trigger] entries[i]).id == id;
        assert forall|k: int| 0 <= k < entries.len() && k != i implies keep(
            #[trigger] entries[k],
        ) by {
            if k < i {
                assert(entries[k].id.0 < entries[i].id.0);
            } else {
                assert(entries[i].id.0 < entries[k].id.0);
            }
        }
        filter_one_out(entries, keep, i);
        removed_in_order(entries, i);
        assert forall|e: ListenerEntry<C>| #[trigger] after.contains(e) <==> entries.contains(e)
            && e.id != id by {
            if after.contains(e) {
                let k = choose|k: int| 0 <= k < after.len() && after[k] == e;
                let p = if k < i {
                    k
                } else {
                    k + 1
                };
                assert(entries[p] == e);
                assert(keep(entries[p]));
            }
            if entries.contains(e) && e.id != id {
                let p = choose|p: int| 0 <= p < entries.len() && entries[p] == e;
                let k = if p < i {
                    p
                } else {
                    p - 1
                };
                assert(after[k] == e);
            }
        }
    } else {
        filter_all_kept(entries, keep);
        assert forall|e: ListenerEntry<C>| #[trigger] after.contains(e) <==> entries.contains(e)
            && e.id != id by {
            if entries.contains(e) {
                let p = choose|p: int| 0 <= p < entries.len() && entries[p] == e;
                assert(entries[p].id != id);
            }
        }
    }
}

/// When no listener fails, a parallel dispatch gives every value, in listener order. Every error
/// is kept when some do, in listener order too.
pub proof fn parallel_results_are_kept<V>(results: Seq<Result<V, CordisError>>)
    ensures
        errors_of(results).len() + values_of(results).len() == results.len(),
        errors_of(results).len() == 0 <==> forall|i: int|
            0 <= i < results.len() ==> (#[trigger] results[i]) is Ok,
        errors_of(results).len() == 0 ==> values_of(results).len() == results.len() && forall|
            i: int,
        |
            0 <= i < results.len() ==> values_of(results)[i] == (#[trigger] results[i])->Ok_0,
        forall|i: int|
            0 <= i < results.len() && (#[trigger] results[i]) is Err ==> errors_of(
                results,
            ).contains(results[i]->Err_0),
    decreases results.len(),
{
    if results.len() > 0 {
        let rest = results.drop_last();
        parallel_results_are_kept(rest);
        let last = results.last();
        let errors = errors_of(results);
        let before = errors_of(rest);
        if last is Err {
            assert(errors[before.len() as int] == last->Err_0);
            assert(results[results.len() - 1] is Err);
        }
        assert forall|i: int| 0 <= i < results.len() && (#[trigger] results[i]) is Err implies
            errors.contains(results[i]->Err_0) by {
            if i < rest.len() {
                assert(rest[i] == results[i]);
                let k = choose|k: int|
                    0 <= k < before.len() && before[k] == results[i]->Err_0;
                assert(errors[k] == results[i]->Err_0);
            }
        }
        if errors.len() == 0 {
            assert forall|i: int| 0 <= i < results.len() implies (#[trigger] results[i]) is Ok by {
                if i < rest.len() {
                    assert(rest[i] is Ok);
                }
            }
            assert forall|i: int| 0 <= i < results.len() implies values_of(results)[i] == (
            #[trigger] results[i])->Ok_0 by {
                if i < rest.len() {
                    assert(values_of(rest)[i] == rest[i]->Ok_0);
                }
            }
        }
        if forall|i: int| 0 <= i < results.len() ==> (#[trigger] results[i]) is Ok {
            assert forall|i: int| 0 <= i < rest.len() implies (#[trigger] rest[i]) is Ok by {
                assert(results[i] is Ok);
            }
            assert(results[results.len() - 1] is Ok);
        }
    }
}

} // verus!
