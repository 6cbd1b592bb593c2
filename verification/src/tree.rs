//! The entry tree: edits, reconciliation plans and rollback.
use crate::entry::{
    active, children_model, duplicate_entries, entries_wf, entry_models, entry_wf, resolution,
    resolve_entries, resolved_wf, EntryId, EntryModel, EntrySpec, LoaderError, LoaderErrorModel,
    ResolvedEntry, ResolvedEntryModel,
};
use crate::likeness::{alike, are_alike};
use crate::order::{contents, entries_facts, entry_keys, TextMap};
use crate::schema::{check_config, config_verdict};
use crate::search::{first_index, first_index_found, first_index_is_first};
use crate::text::{join, join_texts, views};
use crate::value::{JsonModel, Value};
use vstd::prelude::*;

verus! {

// ---------------------------------------------------------------------------------------------
// Finding and editing entries
// ---------------------------------------------------------------------------------------------

/// The entry with this identifier that comes first, parents before their children.
pub open spec fn find_in(entries: Seq<EntryModel>, id: Seq<char>) -> Option<EntryModel>
    decreases entries,
{
    if entries.len() == 0 {
        None
    } else if entries[0].id == id {
        Some(entries[0])
    } else {
        match find_in(entries[0].children, id) {
            Some(found) => Some(found),
            None => find_in(entries.drop_first(), id),
        }
    }
}

/// A change to one entry.
pub enum EditModel {
    Replace(EntryModel),
    Config(JsonModel),
    Disable,
    Insert(nat, EntryModel),
}

/// A change to one entry.
#[derive(Debug)]
pub enum EntryEdit {
    Replace(EntrySpec),
    Config(Value),
    Disable,
    Insert(usize, EntrySpec),
}

impl View for EntryEdit {
    type V = EditModel;

    open spec fn view(&self) -> EditModel {
        match self {
            EntryEdit::Replace(entry) => EditModel::Replace(entry@),
            EntryEdit::Config(config) => EditModel::Config(config@),
            EntryEdit::Disable => EditModel::Disable,
            EntryEdit::Insert(index, entry) => EditModel::Insert(*index as nat, entry@),
        }
    }
}

/// The entries an edit brings in are sound.
pub open spec fn edit_wf(edit: EntryEdit) -> bool {
    match edit {
        EntryEdit::Replace(entry) => entry_wf(entry),
        EntryEdit::Insert(_, entry) => entry_wf(entry),
        _ => true,
    }
}

/// A position that may lie beyond the end, brought back to it.
pub open spec fn at_most(index: nat, len: nat) -> int {
    if index < len {
        index as int
    } else {
        len as int
    }
}

/// An entry after a change.
pub open spec fn edited(e: EntryModel, edit: EditModel) -> EntryModel {
    match edit {
        EditModel::Replace(entry) => entry,
        EditModel::Config(config) => EntryModel { config, ..e },
        EditModel::Disable => EntryModel { disabled: true, ..e },
        EditModel::Insert(index, entry) => EntryModel {
            children: e.children.insert(at_most(index, e.children.len()), entry),
            ..e
        },
    }
}

/// A tree after a change to the entry that `find_in` finds. Everything else stays as it is.
pub open spec fn edit_in(entries: Seq<EntryModel>, id: Seq<char>, edit: EditModel) -> Seq<EntryModel>
    decreases entries,
{
    if entries.len() == 0 {
        entries
    } else if entries[0].id == id {
        seq![edited(entries[0], edit)] + entries.drop_first()
    } else if find_in(entries[0].children, id) is Some {
        seq![EntryModel { children: edit_in(entries[0].children, id, edit), ..entries[0] }]
            + entries.drop_first()
    } else {
        seq![entries[0]] + edit_in(entries.drop_first(), id, edit)
    }
}

/// A tree without one entry, and that entry: one on this level before any below it.
pub open spec fn removed(entries: Seq<EntryModel>, id: Seq<char>) -> Option<
    (Seq<EntryModel>, EntryModel),
>
    decreases entries, 1nat,
{
    match first_index(entries.len(), named(entries, id)) {
        Some(i) => Some((entries.remove(i), entries[i])),
        None => removed_below(entries, id),
    }
}

/// The entries of a level with this identifier.
pub open spec fn named(entries: Seq<EntryModel>, id: Seq<char>) -> spec_fn(int) -> bool {
    |i: int| entries[i].id == id
}

/// A tree without one entry below this level, and that entry.
pub open spec fn removed_below(entries: Seq<EntryModel>, id: Seq<char>) -> Option<
    (Seq<EntryModel>, EntryModel),
>
    decreases entries, 0nat,
{
    if entries.len() == 0 {
        None
    } else {
        match removed(entries[0].children, id) {
            Some((children, gone)) => Some(
                (seq![EntryModel { children, ..entries[0] }] + entries.drop_first(), gone),
            ),
            None => match removed_below(entries.drop_first(), id) {
                Some((rest, gone)) => Some((seq![entries[0]] + rest, gone)),
                None => None,
            },
        }
    }
}

/// Finds an entry.
pub fn find_entry<'a>(entries: &'a Vec<EntrySpec>, id: &EntryId) -> (r: Option<&'a EntrySpec>)
    requires
        entries_wf(entries@),
    ensures
        match (r, find_in(entry_models(entries@), id@)) {
            (Some(found), Some(expected)) => found@ == expected && entry_wf(*found),
            (None, None) => true,
            _ => false,
        },
    decreases entries,
{
    let ghost all = entry_models(entries@);
    let mut i: usize = 0;
    proof {
        assert(all.skip(0) =~= all);
    }
    while i < entries.len()
        invariant
            entries_wf(entries@),
            all == entry_models(entries@),
            i <= entries.len(),
            find_in(all, id@) == find_in(all.skip(i as int), id@),
        decreases entries.len() - i,
    {
        let entry = &entries[i];
        proof {
            assert(all.skip(i as int)[0] == entry@);
            assert(all.skip(i as int).drop_first() =~= all.skip(i + 1));
            children_model(*entry);
        }
        if entry.id.same(id) {
            return Some(entry);
        }
        match find_entry(&entry.children, id) {
            Some(found) => {
                return Some(found);
            },
            None => {},
        }
        i = i + 1;
    }
    proof {
        assert(all.skip(i as int) =~= Seq::empty());
    }
    None
}

fn apply_edit(entry: EntrySpec, edit: EntryEdit) -> (r: EntrySpec)
    requires
        entry_wf(entry),
        edit_wf(edit),
    ensures
        entry_wf(r),
        r@ == edited(entry@, edit@),
{
    proof {
        children_model(entry);
    }
    match edit {
        EntryEdit::Replace(replacement) => replacement,
        EntryEdit::Config(config) => {
            let mut changed = entry;
            changed.config = config;
            proof {
                children_model(changed);
            }
            changed
        },
        EntryEdit::Disable => {
            let mut changed = entry;
            changed.disabled = true;
            proof {
                children_model(changed);
            }
            changed
        },
        EntryEdit::Insert(index, child) => {
            let mut changed = entry;
            let len = changed.children.len();
            let at: usize = if index < len {
                index
            } else {
                len
            };
            changed.children.insert(at, child);
            proof {
                children_model(changed);
                assert(entry_models(changed.children@) =~= entry_models(entry.children@).insert(
                    at as int,
                    child@,
                ));
                assert(changed@.children =~= entry@.children.insert(at as int, child@));
                assert(entries_wf(changed.children@));
            }
            changed
        },
    }
}

/// Changes the entry with this identifier.
fn edit_entries(entries: Vec<EntrySpec>, id: &EntryId, edit: EntryEdit) -> (r: Vec<EntrySpec>)
    requires
        entries_wf(entries@),
        edit_wf(edit),
        find_in(entry_models(entries@), id@) is Some,
    ensures
        entries_wf(r@),
        entry_models(r@) == edit_in(entry_models(entries@), id@, edit@),
    decreases entries,
{
    let ghost all = entry_models(entries@);
    let ghost source = entries@;
    let ghost change = edit@;
    let mut out: Vec<EntrySpec> = Vec::new();
    let mut pending = Some(edit);
    proof {
        assert(all.skip(0) =~= all);
        assert(entry_models(out@) =~= Seq::empty());
        assert(Seq::<EntryModel>::empty() + edit_in(all, id@, change) =~= edit_in(
            all,
            id@,
            change,
        ));
    }
    for entry in iter: entries
        invariant
            entries_wf(source),
            source == entries@,
            iter.seq() == source,
            all == entry_models(source),
            entries_wf(out@),
            pending matches Some(waiting) ==> {
                &&& edit_wf(waiting)
                &&& waiting@ == change
                &&& find_in(all.skip(iter.index() as int), id@) is Some
                &&& edit_in(all, id@, change) == entry_models(out@) + edit_in(
                    all.skip(iter.index() as int),
                    id@,
                    change,
                )
            },
            pending is None ==> edit_in(all, id@, change) == entry_models(out@) + all.skip(
                iter.index() as int,
            ),
    {
        let ghost i = iter.index() as int;
        let ghost rest = all.skip(i);
        let ghost before = entry_models(out@);
        proof {
            assert(entry == source[i]);
            assert(entry_wf(source[i]));
            assert(rest[0] == entry@);
            assert(rest.drop_first() =~= all.skip(i + 1));
            children_model(entry);
        }
        match pending.take() {
            None => {
                let ghost this = entry@;
                out.push(entry);
                proof {
                    assert(entry_models(out@) =~= before.push(this));
                    assert(before + rest =~= before.push(this) + all.skip(i + 1));
                }
            },
            Some(waiting) => {
                if entry.id.same(id) {
                    let changed = apply_edit(entry, waiting);
                    let ghost this = changed@;
                    out.push(changed);
                    proof {
                        assert(entry_models(out@) =~= before.push(this));
                        assert(before + (seq![this] + all.skip(i + 1)) =~= before.push(this)
                            + all.skip(i + 1));
                    }
                } else if find_entry(&entry.children, id).is_some() {
                    let ghost whole = entry@;
                    let mut changed = entry;
                    let mut children: Vec<EntrySpec> = Vec::new();
                    std::mem::swap(&mut changed.children, &mut children);
                    changed.children = edit_entries(children, id, waiting);
                    let ghost this = changed@;
                    proof {
                        children_model(changed);
                        assert(this == (EntryModel {
                            children: edit_in(whole.children, id@, change),
                            ..whole
                        }));
                    }
                    out.push(changed);
                    proof {
                        assert(entry_models(out@) =~= before.push(this));
                        assert(before + (seq![this] + all.skip(i + 1)) =~= before.push(this)
                            + all.skip(i + 1));
                    }
                } else {
                    let ghost this = entry@;
                    pending = Some(waiting);
                    out.push(entry);
                    proof {
                        assert(entry_models(out@) =~= before.push(this));
                        let later = edit_in(all.skip(i + 1), id@, change);
                        assert(before + (seq![this] + later) =~= before.push(this) + later);
                    }
                }
            },
        }
    }
    proof {
        assert(all.skip(all.len() as int) =~= Seq::empty());
        assert(entry_models(out@) + Seq::<EntryModel>::empty() =~= entry_models(out@));
    }
    out
}

/// Takes an entry out of a tree.
fn remove_entry(entries: Vec<EntrySpec>, id: &EntryId) -> (r: (Vec<EntrySpec>, Option<EntrySpec>))
    requires
        entries_wf(entries@),
    ensures
        entries_wf(r.0@),
        match (r.1, removed(entry_models(entries@), id@)) {
            (Some(gone), Some((rest, expected))) => entry_wf(gone) && gone@ == expected
                && entry_models(r.0@) == rest,
            (None, None) => entry_models(r.0@) == entry_models(entries@),
            _ => false,
        },
    decreases entries,
{
    let ghost source = entries@;
    let ghost all = entry_models(source);
    let ghost p = named(all, id@);
    let mut position: Option<usize> = None;
    let mut i: usize = 0;
    while i < entries.len() && position.is_none()
        invariant
            source == entries@,
            all == entry_models(source),
            p == named(all, id@),
            i <= entries.len(),
            position is None ==> forall|k: int| 0 <= k < i ==> !#[trigger] p(k),
            position matches Some(at) ==> at < entries.len() && p(at as int) && forall|k: int|
                0 <= k < at ==> !#[trigger] p(k),
        decreases entries.len() - i,
    {
        proof {
            assert(all[i as int] == entries@[i as int]@);
        }
        if entries[i].id.same(id) {
            position = Some(i);
        }
        i = i + 1;
    }
    match position {
        Some(at) => {
            let mut rest = entries;
            let gone = rest.remove(at);
            proof {
                first_index_found(all.len(), p, at as int);
                assert(all[at as int] == gone@);
                assert(entry_models(rest@) =~= all.remove(at as int));
                assert(entries_wf(rest@)) by {
                    assert forall|k: int| 0 <= k < rest@.len() implies entry_wf(
                        #[trigger] rest@[k],
                    ) by {
                        if k < at {
                            assert(rest@[k] == source[k]);
                        } else {
                            assert(rest@[k] == source[k + 1]);
                        }
                    }
                }
            }
            (rest, Some(gone))
        },
        None => {
            proof {
                first_index_is_first(all.len(), p);
                assert(all.skip(0) =~= all);
            }
            let mut out: Vec<EntrySpec> = Vec::new();
            let mut gone: Option<EntrySpec> = None;
            proof {
                assert(entry_models(out@) =~= all.take(0));
            }
            for entry in iter: entries
                invariant
                    entries_wf(source),
                    source == entries@,
                    iter.seq() == source,
                    all == entry_models(source),
                    entries_wf(out@),
                    gone is None ==> entry_models(out@) == all.take(iter.index() as int)
                        && removed_below(all, id@) == prefixed(
                        all.take(iter.index() as int),
                        removed_below(all.skip(iter.index() as int), id@),
                    ),
                    gone matches Some(found) ==> entry_wf(found) && removed_below(all, id@) == Some(
                        (entry_models(out@) + all.skip(iter.index() as int), found@),
                    ),
            {
                let ghost k = iter.index() as int;
                let ghost before = entry_models(out@);
                let ghost rest = all.skip(k);
                proof {
                    assert(entry == source[k]);
                    assert(entry_wf(source[k]));
                    assert(rest[0] == entry@);
                    assert(rest.drop_first() =~= all.skip(k + 1));
                    assert(all.take(k + 1) =~= all.take(k).push(entry@));
                    children_model(entry);
                }
                if gone.is_some() {
                    let ghost this = entry@;
                    out.push(entry);
                    proof {
                        assert(entry_models(out@) =~= before.push(this));
                        assert(before + rest =~= before.push(this) + all.skip(k + 1));
                    }
                } else {
                    let ghost whole = entry@;
                    let mut changed = entry;
                    let mut children: Vec<EntrySpec> = Vec::new();
                    std::mem::swap(&mut changed.children, &mut children);
                    let (left, found) = remove_entry(children, id);
                    changed.children = left;
                    let ghost this = changed@;
                    proof {
                        children_model(changed);
                    }
                    out.push(changed);
                    proof {
                        assert(entry_models(out@) =~= before.push(this));
                        if found is None {
                            assert(this == whole);
                            prefixed_further(
                                all.take(k),
                                whole,
                                removed_below(all.skip(k + 1), id@),
                            );
                        } else {
                            assert(all.take(k) + (seq![this] + all.skip(k + 1)) =~= before.push(
                                this,
                            ) + all.skip(k + 1));
                        }
                    }
                    gone = found;
                }
            }
            proof {
                let n = all.len() as int;
                assert(all.skip(n) =~= Seq::empty());
                assert(all.take(n) =~= all);
                if gone is Some {
                    assert(entry_models(out@) + all.skip(n) =~= entry_models(out@));
                }
            }
            (out, gone)
        },
    }
}

/// A removal below some entries with others in front of them.
pub open spec fn prefixed(
    front: Seq<EntryModel>,
    result: Option<(Seq<EntryModel>, EntryModel)>,
) -> Option<(Seq<EntryModel>, EntryModel)> {
    match result {
        Some((rest, gone)) => Some((front + rest, gone)),
        None => None,
    }
}

proof fn prefixed_further(
    front: Seq<EntryModel>,
    next: EntryModel,
    result: Option<(Seq<EntryModel>, EntryModel)>,
)
    ensures
        prefixed(front, prefixed(seq![next], result)) == prefixed(front.push(next), result),
{
    if result is Some {
        let rest = result->Some_0.0;
        assert(front + (seq![next] + rest) =~= front.push(next) + rest);
    }
}

// ---------------------------------------------------------------------------------------------
// Choosing and ordering work
// ---------------------------------------------------------------------------------------------

/// The positions below `n` that satisfy `p`, ascending.
pub open spec fn picks(n: nat, p: spec_fn(int) -> bool) -> Seq<int>
    decreases n,
{
    if n == 0 {
        Seq::empty()
    } else {
        let before = picks((n - 1) as nat, p);
        if p(n - 1) {
            before.push(n - 1)
        } else {
            before
        }
    }
}

/// Those of the first `n` positions that lie at depth `d`, in order.
pub open spec fn at_depth(
    positions: Seq<int>,
    depth: spec_fn(int) -> usize,
    d: int,
    n: nat,
) -> Seq<int>
    decreases n,
{
    if n == 0 {
        Seq::empty()
    } else {
        let before = at_depth(positions, depth, d, (n - 1) as nat);
        if depth(positions[n - 1]) == d {
            before.push(positions[n - 1])
        } else {
            before
        }
    }
}

/// Positions level by level, the outermost level first, for the levels below `top`.
pub open spec fn outside_in(positions: Seq<int>, depth: spec_fn(int) -> usize, top: nat) -> Seq<int>
    decreases top,
{
    if top == 0 {
        Seq::empty()
    } else {
        outside_in(positions, depth, (top - 1) as nat) + at_depth(
            positions,
            depth,
            top - 1,
            positions.len(),
        )
    }
}

/// Positions level by level, the innermost level first, for the levels below `top`.
pub open spec fn inside_out(positions: Seq<int>, depth: spec_fn(int) -> usize, top: nat) -> Seq<int>
    decreases top,
{
    if top == 0 {
        Seq::empty()
    } else {
        at_depth(positions, depth, top - 1, positions.len()) + inside_out(
            positions,
            depth,
            (top - 1) as nat,
        )
    }
}

/// More levels than any depth.
pub open spec fn all_levels() -> nat {
    usize::MAX as nat + 1
}

proof fn empty_level(positions: Seq<int>, depth: spec_fn(int) -> usize, d: int, n: nat)
    requires
        n <= positions.len(),
        forall|k: int| 0 <= k < positions.len() ==> depth(#[trigger] positions[k]) < d,
    ensures
        at_depth(positions, depth, d, n) == Seq::<int>::empty(),
    decreases n,
{
    if n > 0 {
        empty_level(positions, depth, d, (n - 1) as nat);
        assert(depth(positions[n - 1]) < d);
    }
}

proof fn levels_end(positions: Seq<int>, depth: spec_fn(int) -> usize, top: nat, more: nat)
    requires
        top <= more,
        forall|k: int| 0 <= k < positions.len() ==> depth(#[trigger] positions[k]) < top,
    ensures
        outside_in(positions, depth, more) == outside_in(positions, depth, top),
        inside_out(positions, depth, more) == inside_out(positions, depth, top),
    decreases more - top,
{
    if top < more {
        levels_end(positions, depth, top, (more - 1) as nat);
        empty_level(positions, depth, more - 1, positions.len());
        assert(outside_in(positions, depth, more) =~= outside_in(
            positions,
            depth,
            (more - 1) as nat,
        ));
        assert(inside_out(positions, depth, more) =~= inside_out(
            positions,
            depth,
            (more - 1) as nat,
        ));
    }
}

/// Positions as mathematical integers.
pub open spec fn as_ints(list: Seq<usize>) -> Seq<int> {
    Seq::new(list.len(), |i: int| list[i] as int)
}

/// The depth of the entry at a position.
pub open spec fn depth_in(entries: Seq<ResolvedEntry>) -> spec_fn(int) -> usize {
    |i: int| entries[i].depth
}

fn level(positions: &Vec<usize>, entries: &Vec<ResolvedEntry>, d: usize) -> (r: Vec<usize>)
    requires
        forall|k: int| 0 <= k < positions@.len() ==> (#[trigger] positions@[k]) < entries@.len(),
    ensures
        as_ints(r@) == at_depth(
            as_ints(positions@),
            depth_in(entries@),
            d as int,
            positions@.len(),
        ),
        forall|k: int| 0 <= k < r@.len() ==> (#[trigger] r@[k]) < entries@.len(),
{
    let ghost all = as_ints(positions@);
    let ghost depth = depth_in(entries@);
    let mut out: Vec<usize> = Vec::new();
    let mut i: usize = 0;
    proof {
        assert(as_ints(out@) =~= Seq::empty());
    }
    while i < positions.len()
        invariant
            forall|k: int| 0 <= k < positions@.len() ==> (#[trigger] positions@[k]) < entries@.len(),
            all == as_ints(positions@),
            depth == depth_in(entries@),
            i <= positions.len(),
            as_ints(out@) == at_depth(all, depth, d as int, i as nat),
            forall|k: int| 0 <= k < out@.len() ==> (#[trigger] out@[k]) < entries@.len(),
        decreases positions.len() - i,
    {
        let at = positions[i];
        let ghost before = as_ints(out@);
        proof {
            assert(all[i as int] == at as int);
        }
        if entries[at].depth == d {
            out.push(at);
            proof {
                assert(as_ints(out@) =~= before.push(at as int));
            }
        }
        i = i + 1;
    }
    out
}

fn levels_below(positions: &Vec<usize>, entries: &Vec<ResolvedEntry>) -> (r: usize)
    requires
        forall|k: int| 0 <= k < positions@.len() ==> (#[trigger] positions@[k]) < entries@.len(),
    ensures
        forall|k: int|
            0 <= k < positions@.len() ==> depth_in(entries@)(#[trigger] as_ints(positions@)[k]) <= r,
{
    let ghost all = as_ints(positions@);
    let mut top: usize = 0;
    let mut i: usize = 0;
    while i < positions.len()
        invariant
            all == as_ints(positions@),
            forall|k: int| 0 <= k < positions@.len() ==> (#[trigger] positions@[k]) < entries@.len(),
            i <= positions.len(),
            forall|k: int| 0 <= k < i ==> depth_in(entries@)(#[trigger] all[k]) <= top,
        decreases positions.len() - i,
    {
        let depth = entries[positions[i]].depth;
        proof {
            assert(all[i as int] == positions@[i as int] as int);
        }
        if depth > top {
            top = depth;
        }
        i = i + 1;
    }
    top
}

fn order_outside_in(positions: &Vec<usize>, entries: &Vec<ResolvedEntry>) -> (r: Vec<usize>)
    requires
        forall|k: int| 0 <= k < positions@.len() ==> (#[trigger] positions@[k]) < entries@.len(),
    ensures
        as_ints(r@) == outside_in(as_ints(positions@), depth_in(entries@), all_levels()),
        forall|k: int| 0 <= k < r@.len() ==> (#[trigger] r@[k]) < entries@.len(),
{
    let ghost all = as_ints(positions@);
    let ghost depth = depth_in(entries@);
    let top = levels_below(positions, entries);
    let mut out: Vec<usize> = Vec::new();
    let mut d: usize = 0;
    proof {
        assert(as_ints(out@) =~= Seq::empty());
        assert forall|k: int| 0 <= k < all.len() implies depth(#[trigger] all[k]) < top + 1 by {
            assert(depth_in(entries@)(as_ints(positions@)[k]) <= top);
        }
        levels_end(all, depth, (top + 1) as nat, all_levels());
    }
    loop
        invariant_except_break
            as_ints(out@) == outside_in(all, depth, d as nat),
        invariant
            forall|k: int| 0 <= k < positions@.len() ==> (#[trigger] positions@[k]) < entries@.len(),
            all == as_ints(positions@),
            depth == depth_in(entries@),
            d <= top,
            forall|k: int| 0 <= k < out@.len() ==> (#[trigger] out@[k]) < entries@.len(),
            outside_in(all, depth, (top + 1) as nat) == outside_in(all, depth, all_levels()),
        ensures
            as_ints(out@) == outside_in(all, depth, all_levels()),
            forall|k: int| 0 <= k < out@.len() ==> (#[trigger] out@[k]) < entries@.len(),
        decreases top - d,
    {
        let mut more = level(positions, entries, d);
        let ghost before = as_ints(out@);
        let ghost added = as_ints(more@);
        out.append(&mut more);
        proof {
            assert(as_ints(out@) =~= before + added);
        }
        if d == top {
            break;
        }
        d = d + 1;
    }
    out
}

fn order_inside_out(positions: &Vec<usize>, entries: &Vec<ResolvedEntry>) -> (r: Vec<usize>)
    requires
        forall|k: int| 0 <= k < positions@.len() ==> (#[trigger] positions@[k]) < entries@.len(),
    ensures
        as_ints(r@) == inside_out(as_ints(positions@), depth_in(entries@), all_levels()),
        forall|k: int| 0 <= k < r@.len() ==> (#[trigger] r@[k]) < entries@.len(),
{
    let ghost all = as_ints(positions@);
    let ghost depth = depth_in(entries@);
    let top = levels_below(positions, entries);
    let mut out: Vec<usize> = Vec::new();
    let mut d: usize = top;
    let ghost goal = inside_out(all, depth, (top + 1) as nat);
    proof {
        assert(as_ints(out@) =~= Seq::empty());
        assert forall|k: int| 0 <= k < all.len() implies depth(#[trigger] all[k]) < top + 1 by {
            assert(depth_in(entries@)(as_ints(positions@)[k]) <= top);
        }
        levels_end(all, depth, (top + 1) as nat, all_levels());
        assert(goal =~= as_ints(out@) + inside_out(all, depth, (d + 1) as nat));
    }
    loop
        invariant_except_break
            goal == as_ints(out@) + inside_out(all, depth, (d + 1) as nat),
        invariant
            forall|k: int| 0 <= k < positions@.len() ==> (#[trigger] positions@[k]) < entries@.len(),
            all == as_ints(positions@),
            depth == depth_in(entries@),
            d <= top,
            goal == inside_out(all, depth, all_levels()),
            forall|k: int| 0 <= k < out@.len() ==> (#[trigger] out@[k]) < entries@.len(),
        ensures
            as_ints(out@) == inside_out(all, depth, all_levels()),
            forall|k: int| 0 <= k < out@.len() ==> (#[trigger] out@[k]) < entries@.len(),
        decreases d,
    {
        let mut more = level(positions, entries, d);
        let ghost before = as_ints(out@);
        let ghost added = as_ints(more@);
        out.append(&mut more);
        proof {
            assert(as_ints(out@) =~= before + added);
            assert(before + (added + inside_out(all, depth, d as nat)) =~= (before + added)
                + inside_out(all, depth, d as nat));
        }
        if d == 0 {
            proof {
                assert(as_ints(out@) + inside_out(all, depth, 0) =~= as_ints(out@));
            }
            break;
        }
        d = d - 1;
    }
    out
}

// ---------------------------------------------------------------------------------------------
// Plans
// ---------------------------------------------------------------------------------------------

/// One step of a reconciliation.
pub enum OperationModel {
    Stop(ResolvedEntryModel),
    Update { previous: ResolvedEntryModel, next: ResolvedEntryModel },
    Start(ResolvedEntryModel),
}

/// One step of a reconciliation.
#[derive(Debug, PartialEq, Eq)]
pub enum Operation {
    Stop(ResolvedEntry),
    Update { previous: ResolvedEntry, next: ResolvedEntry },
    Start(ResolvedEntry),
}

impl View for Operation {
    type V = OperationModel;

    open spec fn view(&self) -> OperationModel {
        match self {
            Operation::Stop(entry) => OperationModel::Stop(entry@),
            Operation::Update { previous, next } => OperationModel::Update {
                previous: previous@,
                next: next@,
            },
            Operation::Start(entry) => OperationModel::Start(entry@),
        }
    }
}

/// The entries a step is about are sound.
pub open spec fn operation_wf(op: Operation) -> bool {
    match op {
        Operation::Stop(entry) => entry.wf(),
        Operation::Update { previous, next } => previous.wf() && next.wf(),
        Operation::Start(entry) => entry.wf(),
    }
}

/// All steps are sound.
pub open spec fn operations_wf(ops: Seq<Operation>) -> bool {
    forall|i: int| 0 <= i < ops.len() ==> operation_wf(#[trigger] ops[i])
}

/// The step that takes another one back.
pub open spec fn inverse(op: OperationModel) -> OperationModel {
    match op {
        OperationModel::Stop(entry) => OperationModel::Start(entry),
        OperationModel::Update { previous, next } => OperationModel::Update {
            previous: next,
            next: previous,
        },
        OperationModel::Start(entry) => OperationModel::Stop(entry),
    }
}

impl Operation {
    pub fn duplicate(&self) -> (r: Operation)
        requires
            operation_wf(*self),
        ensures
            r@ == self@,
            operation_wf(r),
    {
        match self {
            Operation::Stop(entry) => Operation::Stop(entry.duplicate()),
            Operation::Update { previous, next } => Operation::Update {
                previous: previous.duplicate(),
                next: next.duplicate(),
            },
            Operation::Start(entry) => Operation::Start(entry.duplicate()),
        }
    }

    /// The step that takes this one back.
    pub fn inverse(&self) -> (r: Operation)
        requires
            operation_wf(*self),
        ensures
            r@ == inverse(self@),
            operation_wf(r),
    {
        match self {
            Operation::Stop(entry) => Operation::Start(entry.duplicate()),
            Operation::Update { previous, next } => Operation::Update {
                previous: next.duplicate(),
                next: previous.duplicate(),
            },
            Operation::Start(entry) => Operation::Stop(entry.duplicate()),
        }
    }
}

/// The entry keeps running the same component.
pub open spec fn carried_over(
    old_entries: Map<Seq<char>, ResolvedEntryModel>,
    next: Map<Seq<char>, ResolvedEntryModel>,
    id: Seq<char>,
) -> bool {
    &&& old_entries.dom().contains(id) && active(old_entries[id])
    &&& next.dom().contains(id) && active(next[id])
    &&& old_entries[id].component == next[id].component
}

/// Entries that have to stop: active ones that are gone, inactive or run something else.
pub open spec fn stops(
    keys: Seq<Seq<char>>,
    old_entries: Map<Seq<char>, ResolvedEntryModel>,
    next: Map<Seq<char>, ResolvedEntryModel>,
) -> spec_fn(int) -> bool {
    |i: int| active(old_entries[keys[i]]) && !carried_over(old_entries, next, keys[i])
}

/// Entries that keep running but changed.
pub open spec fn updates(
    keys: Seq<Seq<char>>,
    old_entries: Map<Seq<char>, ResolvedEntryModel>,
    next: Map<Seq<char>, ResolvedEntryModel>,
) -> spec_fn(int) -> bool {
    |i: int|
        carried_over(old_entries, next, keys[i]) && !alike(old_entries[keys[i]], next[keys[i]])
}

/// Entries that have to start: active ones that did not run the same component before.
pub open spec fn starts(
    keys: Seq<Seq<char>>,
    old_entries: Map<Seq<char>, ResolvedEntryModel>,
    next: Map<Seq<char>, ResolvedEntryModel>,
) -> spec_fn(int) -> bool {
    |i: int| active(next[keys[i]]) && !carried_over(old_entries, next, keys[i])
}

/// The depth of the entry at a position.
pub open spec fn depths(
    keys: Seq<Seq<char>>,
    map: Map<Seq<char>, ResolvedEntryModel>,
) -> spec_fn(int) -> usize {
    |i: int| map[keys[i]].depth
}

/// The steps from one resolution to another: stop from the inside out, then update and start
/// from the outside in; on one level in identifier order.
pub open spec fn steps(
    old_keys: Seq<Seq<char>>,
    old_entries: Map<Seq<char>, ResolvedEntryModel>,
    keys: Seq<Seq<char>>,
    next: Map<Seq<char>, ResolvedEntryModel>,
) -> Seq<OperationModel> {
    let stopping = inside_out(
        picks(old_keys.len(), stops(old_keys, old_entries, next)),
        depths(old_keys, old_entries),
        all_levels(),
    );
    let updating = outside_in(
        picks(keys.len(), updates(keys, old_entries, next)),
        depths(keys, next),
        all_levels(),
    );
    let starting = outside_in(
        picks(keys.len(), starts(keys, old_entries, next)),
        depths(keys, next),
        all_levels(),
    );
    Seq::new(stopping.len(), |i: int| OperationModel::Stop(old_entries[old_keys[stopping[i]]]))
        + Seq::new(
        updating.len(),
        |i: int|
            OperationModel::Update {
                previous: old_entries[keys[updating[i]]],
                next: next[keys[updating[i]]],
            },
    ) + Seq::new(starting.len(), |i: int| OperationModel::Start(next[keys[starting[i]]]))
}

/// What has to be undone after the first `done` steps: all of them, the latest first.
pub open spec fn undo(ops: Seq<OperationModel>, done: nat) -> Seq<OperationModel> {
    Seq::new(done, |i: int| inverse(ops[done - 1 - i]))
}

/// The steps that take the first `done` steps back.
pub fn rollback(ops: &Vec<Operation>, done: usize) -> (r: Vec<Operation>)
    requires
        done <= ops@.len(),
        operations_wf(ops@),
    ensures
        views(r@) == undo(views(ops@), done as nat),
        operations_wf(r@),
{
    let mut out: Vec<Operation> = Vec::new();
    let mut i: usize = 0;
    while i < done
        invariant
            done <= ops@.len(),
            operations_wf(ops@),
            i <= done,
            out@.len() == i,
            operations_wf(out@),
            forall|k: int| 0 <= k < i ==> (#[trigger] out@[k])@ == inverse(ops@[done - 1 - k]@),
        decreases done - i,
    {
        out.push(ops[done - 1 - i].inverse());
        i = i + 1;
    }
    proof {
        assert(views(out@) =~= undo(views(ops@), done as nat));
    }
    out
}

/// The error of a failed reconciliation once its rollback is over.
pub open spec fn rollback_outcome(original: LoaderErrorModel, failures: Seq<Seq<char>>) -> LoaderErrorModel {
    if failures.len() == 0 {
        original
    } else {
        LoaderErrorModel::Driver(
            crate::entry::loader_error_text(original) + "; reconciliation rollback failed: "@
                + join(failures, "; "@),
        )
    }
}

pub fn rollback_error(original: LoaderError, failures: &Vec<String>) -> (r: LoaderError)
    ensures
        r@ == rollback_outcome(original@, views(failures@)),
{
    proof {
        assert(views(failures@).len() == failures@.len());
    }
    if failures.len() == 0 {
        original
    } else {
        let mut message = original.message();
        message.append("; reconciliation rollback failed: ");
        message.append(join_texts(failures, "; ").as_str());
        LoaderError::Driver(message)
    }
}

/// Taking a step back twice is the step itself.
pub proof fn inverse_is_an_involution(op: OperationModel)
    ensures
        inverse(inverse(op)) == op,
{
}

/// A rollback takes back every step that was done, each once, in reverse order.
pub proof fn rollback_mirrors_the_steps(ops: Seq<OperationModel>, done: nat, i: int)
    requires
        done <= ops.len(),
        0 <= i < done,
    ensures
        undo(ops, done).len() == done,
        undo(ops, done)[i] == inverse(ops[done - 1 - i]),
{
}

// ---------------------------------------------------------------------------------------------
// The tree
// ---------------------------------------------------------------------------------------------

/// What is wrong with the configuration of an entry.
pub enum ConfigFault {
    /// The schema of its component is none.
    Schema { component: Seq<char> },
    /// The configuration violates the schema.
    Config { entry: Seq<char>, path: Seq<char>, message: Seq<char> },
}

/// An error reports a fault. What it says against a refused schema is left open.
pub open spec fn reports(error: LoaderErrorModel, fault: ConfigFault) -> bool {
    match fault {
        ConfigFault::Schema { component } => error is InvalidSchema
            && error->InvalidSchema_component == component,
        ConfigFault::Config { entry, path, message } => error == (LoaderErrorModel::InvalidConfig {
            entry,
            path,
            message,
        }),
    }
}

/// The fault that a verdict on the configuration of an entry amounts to.
pub open spec fn verdict_fault(
    verdict: Result<Option<(Seq<char>, Seq<char>)>, ()>,
    e: ResolvedEntryModel,
) -> Option<ConfigFault> {
    match verdict {
        Err(_) => Some(ConfigFault::Schema { component: e.spec.component }),
        Ok(Some((path, message))) => Some(ConfigFault::Config { entry: e.spec.id, path, message }),
        Ok(None) => None,
    }
}

/// What is wrong with the configuration of an entry under a schema.
pub open spec fn config_refusal(schema: JsonModel, e: ResolvedEntryModel) -> Option<ConfigFault> {
    verdict_fault(config_verdict(schema, e.spec.config), e)
}

/// Turns the verdict on the configuration of an entry into a loader error.
pub fn config_outcome(
    entry: &ResolvedEntry,
    verdict: Result<Option<(String, String)>, String>,
) -> (r: Result<(), LoaderError>)
    ensures
        match verdict {
            Err(message) => r matches Err(error) && error@ == (LoaderErrorModel::InvalidSchema {
                component: entry@.spec.component,
                message: message@,
            }),
            Ok(Some((path, message))) => r matches Err(error) && error@ == (
            LoaderErrorModel::InvalidConfig {
                entry: entry@.spec.id,
                path: path@,
                message: message@,
            }),
            Ok(None) => r is Ok,
        },
{
    match verdict {
        Err(message) => Err(
            LoaderError::InvalidSchema { component: entry.spec.component.clone(), message },
        ),
        Ok(Some((path, message))) => Err(
            LoaderError::InvalidConfig { entry: entry.spec.id.duplicate(), path, message },
        ),
        Ok(None) => Ok(()),
    }
}

/// Checks the configuration of an entry against a schema.
pub fn validate_config(entry: &ResolvedEntry, schema: &Value) -> (r: Result<(), LoaderError>)
    ensures
        match (r, config_refusal(schema@, entry@)) {
            (Ok(_), None) => true,
            (Err(error), Some(fault)) => reports(error@, fault),
            _ => false,
        },
{
    config_outcome(entry, check_config(schema, &entry.spec.config))
}

/// What is wrong with the configuration of an entry, if its component has a schema.
pub open spec fn config_error(
    schemas: Map<Seq<char>, JsonModel>,
    e: ResolvedEntryModel,
) -> Option<ConfigFault> {
    if active(e) && schemas.dom().contains(e.spec.component) {
        config_refusal(schemas[e.spec.component], e)
    } else {
        None
    }
}

/// Entries with a refused configuration.
pub open spec fn misconfigured(
    schemas: Map<Seq<char>, JsonModel>,
    keys: Seq<Seq<char>>,
    map: Map<Seq<char>, ResolvedEntryModel>,
) -> spec_fn(int) -> bool {
    |i: int| config_error(schemas, map[keys[i]]) is Some
}

/// The first refused configuration, in identifier order.
pub open spec fn first_config_error(
    schemas: Map<Seq<char>, JsonModel>,
    keys: Seq<Seq<char>>,
    map: Map<Seq<char>, ResolvedEntryModel>,
) -> Option<ConfigFault> {
    match first_index(keys.len(), misconfigured(schemas, keys, map)) {
        Some(i) => config_error(schemas, map[keys[i]]),
        None => None,
    }
}

/// A tree of entries that is in force, and the schemas its configurations have to meet.
#[derive(Debug)]
pub struct EntryTree {
    pub roots: Vec<EntrySpec>,
    pub resolved: TextMap<ResolvedEntry>,
    pub schemas: TextMap<Value>,
}

/// A checked tree and the steps that bring it into force.
#[derive(Debug)]
pub struct ReconcilePlan {
    pub roots: Vec<EntrySpec>,
    pub resolved: TextMap<ResolvedEntry>,
    pub operations: Vec<Operation>,
}

impl EntryTree {
    pub open spec fn wf(&self) -> bool {
        &&& entries_wf(self.roots@)
        &&& self.resolved.wf()
        &&& resolved_wf(self.resolved@)
        &&& self.schemas.wf()
    }

    pub fn new() -> (r: EntryTree)
        ensures
            r.wf(),
            r.roots@.len() == 0,
            r.resolved@ == Map::<Seq<char>, ResolvedEntry>::empty(),
            r.schemas@ == Map::<Seq<char>, Value>::empty(),
    {
        EntryTree { roots: Vec::new(), resolved: TextMap::new(), schemas: TextMap::new() }
    }

    pub fn entries(&self) -> (r: &TextMap<ResolvedEntry>)
        ensures
            *r == self.resolved,
    {
        &self.resolved
    }

    pub fn roots(&self) -> (r: &Vec<EntrySpec>)
        ensures
            *r == self.roots,
    {
        &self.roots
    }

    /// Sets the schema for the configurations of a component.
    pub fn register_schema(&mut self, component: String, schema: Value)
        requires
            old(self).wf(),
        ensures
            final(self).wf(),
            final(self).schemas@ == old(self).schemas@.insert(component@, schema),
            final(self).roots == old(self).roots,
            final(self).resolved == old(self).resolved,
    {
        let _ = self.schemas.insert(component, schema);
    }

    fn validate_configs(&self, entries: &TextMap<ResolvedEntry>) -> (r: Result<(), LoaderError>)
        requires
            self.wf(),
            entries.wf(),
        ensures
            match (
                r,
                first_config_error(
                    contents(self.schemas@),
                    entry_keys(entries.entries@),
                    contents(entries@),
                ),
            ) {
                (Ok(_), None) => true,
                (Err(error), Some(fault)) => reports(error@, fault),
                _ => false,
            },
    {
        let ghost schemas = contents(self.schemas@);
        let ghost keys = entry_keys(entries.entries@);
        let ghost map = contents(entries@);
        let ghost p = misconfigured(schemas, keys, map);
        let mut i: usize = 0;
        while i < entries.entries.len()
            invariant
                self.wf(),
                entries.wf(),
                schemas == contents(self.schemas@),
                keys == entry_keys(entries.entries@),
                map == contents(entries@),
                p == misconfigured(schemas, keys, map),
                i <= entries.entries.len(),
                forall|k: int| 0 <= k < i ==> !#[trigger] p(k),
            decreases entries.entries.len() - i,
        {
            let entry = &entries.entries[i].value;
            proof {
                entries_facts(entries.entries@);
                assert(keys[i as int] == entries.entries@[i as int].key@);
                assert(entries@[entries.entries@[i as int].key@] == *entry);
                assert(map[keys[i as int]] == entry@);
            }
            if entry.is_active() {
                match self.schemas.get(entry.spec.component.as_str()) {
                    None => {},
                    Some(schema) => match validate_config(entry, schema) {
                        Err(error) => {
                            proof {
                                assert(p(i as int));
                                first_index_found(keys.len(), p, i as int);
                            }
                            return Err(error);
                        },
                        Ok(_) => {},
                    },
                }
            }
            proof {
                assert(!p(i as int));
            }
            i = i + 1;
        }
        proof {
            first_index_is_first(keys.len(), p);
        }
        Ok(())
    }

    /// Checks a new tree and plans the steps to it. Nothing changes until the plan is committed.
    pub fn plan(&self, roots: Vec<EntrySpec>) -> (r: Result<ReconcilePlan, LoaderError>)
        requires
            self.wf(),
            entries_wf(roots@),
        ensures
            match (r, resolution(entry_models(roots@))) {
                (Err(error), Err(expected)) => error@ == expected,
                (Err(error), Ok(map)) => exists|keys: Seq<Seq<char>>|
                    crate::order::sorted(keys) && (forall|k: Seq<char>| #[trigger]
                        keys.contains(k) <==> map.dom().contains(k)) && #[trigger]
                    first_config_error(contents(self.schemas@), keys, map) is Some && reports(
                        error@,
                        first_config_error(contents(self.schemas@), keys, map)->Some_0,
                    ),
                (Ok(plan), Ok(map)) => {
                    let keys = entry_keys(plan.resolved.entries@);
                    &&& plan.wf()
                    &&& entry_models(plan.roots@) == entry_models(roots@)
                    &&& contents(plan.resolved@) == map
                    &&& first_config_error(contents(self.schemas@), keys, map) is None
                    &&& views(plan.operations@) == steps(
                        entry_keys(self.resolved.entries@),
                        contents(self.resolved@),
                        keys,
                        map,
                    )
                },
                _ => false,
            },
    {
        let next = match resolve_entries(&roots) {
            Err(error) => {
                return Err(error);
            },
            Ok(next) => next,
        };
        proof {
            entries_facts(next.entries@);
        }
        match self.validate_configs(&next) {
            Err(error) => {
                proof {
                    let keys = entry_keys(next.entries@);
                    assert forall|k: Seq<char>| #[trigger] keys.contains(k) <==> contents(
                        next@,
                    ).dom().contains(k) by {
                        assert(next@.dom().contains(k) <==> keys.contains(k));
                    }
                    assert(first_config_error(contents(self.schemas@), keys, contents(next@)) is Some);
                }
                return Err(error);
            },
            Ok(_) => {},
        }
        let operations = plan_steps(&self.resolved, &next);
        Ok(ReconcilePlan { roots, resolved: next, operations })
    }

    /// Brings a plan into force once all its steps have succeeded.
    pub fn commit(&mut self, plan: ReconcilePlan)
        requires
            old(self).wf(),
            plan.wf(),
        ensures
            final(self).wf(),
            final(self).roots == plan.roots,
            final(self).resolved == plan.resolved,
            final(self).schemas == old(self).schemas,
    {
        self.roots = plan.roots;
        self.resolved = plan.resolved;
    }
}

impl ReconcilePlan {
    pub open spec fn wf(&self) -> bool {
        &&& entries_wf(self.roots@)
        &&& self.resolved.wf()
        &&& resolved_wf(self.resolved@)
        &&& operations_wf(self.operations@)
    }
}

fn values_of(map: &TextMap<ResolvedEntry>) -> (r: Vec<ResolvedEntry>)
    requires
        map.wf(),
        resolved_wf(map@),
    ensures
        r@.len() == map.entries@.len(),
        forall|i: int|
            0 <= i < r@.len() ==> (#[trigger] r@[i])@ == contents(map@)[entry_keys(
                map.entries@,
            )[i]] && r@[i].wf(),
{
    let mut out: Vec<ResolvedEntry> = Vec::new();
    let mut i: usize = 0;
    while i < map.entries.len()
        invariant
            map.wf(),
            resolved_wf(map@),
            i <= map.entries.len(),
            out@.len() == i,
            forall|k: int|
                0 <= k < i ==> (#[trigger] out@[k])@ == contents(map@)[entry_keys(
                    map.entries@,
                )[k]] && out@[k].wf(),
        decreases map.entries.len() - i,
    {
        proof {
            entries_facts(map.entries@);
            let key = map.entries@[i as int].key@;
            assert(map@.dom().contains(map.entries@[i as int].key@));
            assert(map@[key] == map.entries@[i as int].value);
            assert(entry_keys(map.entries@)[i as int] == key);
        }
        out.push(map.entries[i].value.duplicate());
        i = i + 1;
    }
    out
}

/// Whether the entry named `id` runs the same component in both resolutions.
fn carries_over(
    id: &str,
    old_entries: &TextMap<ResolvedEntry>,
    next: &TextMap<ResolvedEntry>,
) -> (r: bool)
    requires
        old_entries.wf(),
        next.wf(),
    ensures
        r == carried_over(contents(old_entries@), contents(next@), id@),
{
    match (old_entries.get(id), next.get(id)) {
        (Some(before), Some(after)) => before.is_active() && after.is_active()
            && before.same_component(after),
        _ => false,
    }
}

fn plan_steps(old_entries: &TextMap<ResolvedEntry>, next: &TextMap<ResolvedEntry>) -> (r: Vec<
    Operation,
>)
    requires
        old_entries.wf(),
        resolved_wf(old_entries@),
        next.wf(),
        resolved_wf(next@),
    ensures
        operations_wf(r@),
        views(r@) == steps(
            entry_keys(old_entries.entries@),
            contents(old_entries@),
            entry_keys(next.entries@),
            contents(next@),
        ),
{
    let ghost old_keys = entry_keys(old_entries.entries@);
    let ghost old_map = contents(old_entries@);
    let ghost keys = entry_keys(next.entries@);
    let ghost map = contents(next@);
    let old_values = values_of(old_entries);
    let values = values_of(next);
    let stopping = order_inside_out(&pick_stops(old_entries, next, &old_values), &old_values);
    let updating = order_outside_in(&pick_updates(old_entries, next, &values), &values);
    let starting = order_outside_in(&pick_starts(old_entries, next, &values), &values);
    proof {
        picks_bounds(old_keys.len(), stops(old_keys, old_map, map));
        picks_bounds(keys.len(), updates(keys, old_map, map));
        picks_bounds(keys.len(), starts(keys, old_map, map));
        depths_agree(
            old_values@,
            old_keys,
            old_map,
            picks(old_keys.len(), stops(old_keys, old_map, map)),
            all_levels(),
        );
        depths_agree(
            values@,
            keys,
            map,
            picks(keys.len(), updates(keys, old_map, map)),
            all_levels(),
        );
        depths_agree(
            values@,
            keys,
            map,
            picks(keys.len(), starts(keys, old_map, map)),
            all_levels(),
        );
        outside_in_picks(
            picks(keys.len(), updates(keys, old_map, map)),
            depths(keys, map),
            all_levels(),
        );
    }
    let ghost a = as_ints(stopping@);
    let ghost b = as_ints(updating@);
    let ghost c = as_ints(starting@);
    let ghost first = Seq::new(a.len(), |i: int| OperationModel::Stop(old_map[old_keys[a[i]]]));
    let ghost second = Seq::new(
        b.len(),
        |i: int|
            OperationModel::Update { previous: old_map[keys[b[i]]], next: map[keys[b[i]]] },
    );
    let ghost third = Seq::new(c.len(), |i: int| OperationModel::Start(map[keys[c[i]]]));
    let mut out: Vec<Operation> = Vec::new();
    let mut i: usize = 0;
    proof {
        assert(views(out@) =~= first.take(0));
    }
    while i < stopping.len()
        invariant
            old_values@.len() == old_keys.len(),
            forall|k: int|
                0 <= k < old_values@.len() ==> (#[trigger] old_values@[k])@ == old_map[old_keys[k]]
                    && old_values@[k].wf(),
            forall|k: int| 0 <= k < stopping@.len() ==> (#[trigger] stopping@[k]) < old_values@.len(),
            a == as_ints(stopping@),
            first == Seq::new(a.len(), |i: int| OperationModel::Stop(old_map[old_keys[a[i]]])),
            i <= stopping.len(),
            operations_wf(out@),
            views(out@) == first.take(i as int),
        decreases stopping.len() - i,
    {
        let at = stopping[i];
        let ghost before = views(out@);
        proof {
            assert(a[i as int] == at as int);
            assert(old_values@[at as int]@ == old_map[old_keys[at as int]]);
        }
        out.push(Operation::Stop(old_values[at].duplicate()));
        proof {
            assert(views(out@) =~= before.push(first[i as int]));
            assert(first.take(i + 1) =~= first.take(i as int).push(first[i as int]));
        }
        i = i + 1;
    }
    proof {
        assert(first.take(i as int) =~= first);
        assert(views(out@) =~= first + second.take(0));
    }
    i = 0;
    while i < updating.len()
        invariant
            old_entries.wf(),
            resolved_wf(old_entries@),
            old_map == contents(old_entries@),
            values@.len() == keys.len(),
            forall|k: int|
                0 <= k < values@.len() ==> (#[trigger] values@[k])@ == map[keys[k]]
                    && values@[k].wf(),
            forall|k: int| 0 <= k < updating@.len() ==> (#[trigger] updating@[k]) < values@.len(),
            b == as_ints(updating@),
            keys == entry_keys(next.entries@),
            forall|k: int|
                0 <= k < b.len() ==> updates(keys, old_map, map)(#[trigger] b[k]),
            second == Seq::new(
                b.len(),
                |i: int|
                    OperationModel::Update { previous: old_map[keys[b[i]]], next: map[keys[b[i]]] },
            ),
            i <= updating.len(),
            operations_wf(out@),
            views(out@) == first + second.take(i as int),
        decreases updating.len() - i,
    {
        let at = updating[i];
        let ghost before = views(out@);
        proof {
            assert(b[i as int] == at as int);
            assert(updates(keys, old_map, map)(b[i as int]));
            assert(values@[at as int]@ == map[keys[at as int]]);
            assert(keys[at as int] == next.entries@[at as int].key@);
        }
        match old_entries.get(next.entries[at].key.as_str()) {
            Some(previous) => {
                proof {
                    assert(previous.wf());
                }
                out.push(
                    Operation::Update {
                        previous: previous.duplicate(),
                        next: values[at].duplicate(),
                    },
                );
            },
            None => {},
        }
        proof {
            assert(views(out@) =~= before.push(second[i as int]));
            assert(second.take(i + 1) =~= second.take(i as int).push(second[i as int]));
            assert(first + second.take(i + 1) =~= (first + second.take(i as int)).push(
                second[i as int],
            ));
        }
        i = i + 1;
    }
    proof {
        assert(second.take(i as int) =~= second);
        assert(views(out@) =~= first + second + third.take(0));
    }
    i = 0;
    while i < starting.len()
        invariant
            values@.len() == keys.len(),
            forall|k: int|
                0 <= k < values@.len() ==> (#[trigger] values@[k])@ == map[keys[k]]
                    && values@[k].wf(),
            forall|k: int| 0 <= k < starting@.len() ==> (#[trigger] starting@[k]) < values@.len(),
            c == as_ints(starting@),
            third == Seq::new(c.len(), |i: int| OperationModel::Start(map[keys[c[i]]])),
            i <= starting.len(),
            operations_wf(out@),
            views(out@) == first + second + third.take(i as int),
        decreases starting.len() - i,
    {
        let at = starting[i];
        let ghost before = views(out@);
        proof {
            assert(c[i as int] == at as int);
            assert(values@[at as int]@ == map[keys[at as int]]);
        }
        out.push(Operation::Start(values[at].duplicate()));
        proof {
            assert(views(out@) =~= before.push(third[i as int]));
            assert(third.take(i + 1) =~= third.take(i as int).push(third[i as int]));
            assert(first + second + third.take(i + 1) =~= (first + second + third.take(
                i as int,
            )).push(third[i as int]));
        }
        i = i + 1;
    }
    proof {
        assert(third.take(i as int) =~= third);
        assert(views(out@) =~= steps(old_keys, old_map, keys, map));
    }
    out
}

/// The depths seen in values are those of the model.
proof fn depths_agree(
    values: Seq<ResolvedEntry>,
    keys: Seq<Seq<char>>,
    map: Map<Seq<char>, ResolvedEntryModel>,
    positions: Seq<int>,
    top: nat,
)
    requires
        values.len() == keys.len(),
        forall|k: int| 0 <= k < values.len() ==> (#[trigger] values[k])@ == map[keys[k]],
        forall|k: int| 0 <= k < positions.len() ==> 0 <= #[trigger] positions[k] < keys.len(),
    ensures
        outside_in(positions, depth_in(values), top) == outside_in(
            positions,
            depths(keys, map),
            top,
        ),
        inside_out(positions, depth_in(values), top) == inside_out(
            positions,
            depths(keys, map),
            top,
        ),
    decreases top,
{
    if top > 0 {
        depths_agree(values, keys, map, positions, (top - 1) as nat);
        level_agrees(values, keys, map, positions, top - 1, positions.len());
    }
}

proof fn level_agrees(
    values: Seq<ResolvedEntry>,
    keys: Seq<Seq<char>>,
    map: Map<Seq<char>, ResolvedEntryModel>,
    positions: Seq<int>,
    d: int,
    n: nat,
)
    requires
        n <= positions.len(),
        values.len() == keys.len(),
        forall|k: int| 0 <= k < values.len() ==> (#[trigger] values[k])@ == map[keys[k]],
        forall|k: int| 0 <= k < positions.len() ==> 0 <= #[trigger] positions[k] < keys.len(),
    ensures
        at_depth(positions, depth_in(values), d, n) == at_depth(
            positions,
            depths(keys, map),
            d,
            n,
        ),
    decreases n,
{
    if n > 0 {
        level_agrees(values, keys, map, positions, d, (n - 1) as nat);
        assert(values[positions[n - 1]]@ == map[keys[positions[n - 1]]]);
    }
}

proof fn picks_bounds(n: nat, p: spec_fn(int) -> bool)
    ensures
        forall|k: int|
            0 <= k < picks(n, p).len() ==> 0 <= #[trigger] picks(n, p)[k] < n && p(picks(n, p)[k]),
    decreases n,
{
    if n > 0 {
        picks_bounds((n - 1) as nat, p);
        let before = picks((n - 1) as nat, p);
        let all = picks(n, p);
        assert forall|k: int| 0 <= k < all.len() implies 0 <= #[trigger] all[k] < n && p(all[k]) by {
            if k < before.len() {
                assert(all[k] == before[k]);
            } else {
                assert(all[k] == n - 1);
            }
        }
    }
}

/// Ordering by level neither adds nor changes positions.
proof fn outside_in_picks(positions: Seq<int>, depth: spec_fn(int) -> usize, top: nat)
    ensures
        forall|k: int|
            0 <= k < outside_in(positions, depth, top).len() ==> positions.contains(
                #[trigger] outside_in(positions, depth, top)[k],
            ),
    decreases top,
{
    if top > 0 {
        outside_in_picks(positions, depth, (top - 1) as nat);
        at_depth_picks(positions, depth, top - 1, positions.len());
        let front = outside_in(positions, depth, (top - 1) as nat);
        let back = at_depth(positions, depth, top - 1, positions.len());
        assert forall|k: int| 0 <= k < (front + back).len() implies positions.contains(
            #[trigger] (front + back)[k],
        ) by {
            if k < front.len() {
                assert((front + back)[k] == front[k]);
            } else {
                assert((front + back)[k] == back[k - front.len()]);
            }
        }
    }
}

proof fn at_depth_picks(positions: Seq<int>, depth: spec_fn(int) -> usize, d: int, n: nat)
    requires
        n <= positions.len(),
    ensures
        forall|k: int|
            0 <= k < at_depth(positions, depth, d, n).len() ==> positions.contains(
                #[trigger] at_depth(positions, depth, d, n)[k],
            ),
    decreases n,
{
    if n > 0 {
        at_depth_picks(positions, depth, d, (n - 1) as nat);
        let before = at_depth(positions, depth, d, (n - 1) as nat);
        let all = at_depth(positions, depth, d, n);
        assert forall|k: int| 0 <= k < all.len() implies positions.contains(#[trigger] all[k]) by {
            if k < before.len() {
                assert(all[k] == before[k]);
            } else {
                assert(all[k] == positions[n - 1]);
            }
        }
    }
}

fn pick_stops(
    old_entries: &TextMap<ResolvedEntry>,
    next: &TextMap<ResolvedEntry>,
    old_values: &Vec<ResolvedEntry>,
) -> (r: Vec<usize>)
    requires
        old_entries.wf(),
        next.wf(),
        old_values@.len() == old_entries.entries@.len(),
        forall|i: int|
            0 <= i < old_values@.len() ==> (#[trigger] old_values@[i])@ == contents(
                old_entries@,
            )[entry_keys(old_entries.entries@)[i]],
    ensures
        as_ints(r@) == picks(
            old_entries.entries@.len(),
            stops(
                entry_keys(old_entries.entries@),
                contents(old_entries@),
                contents(next@),
            ),
        ),
        forall|k: int| 0 <= k < r@.len() ==> (#[trigger] r@[k]) < old_values@.len(),
{
    let ghost keys = entry_keys(old_entries.entries@);
    let ghost p = stops(keys, contents(old_entries@), contents(next@));
    let mut out: Vec<usize> = Vec::new();
    let mut i: usize = 0;
    proof {
        assert(as_ints(out@) =~= Seq::empty());
    }
    while i < old_entries.entries.len()
        invariant
            old_entries.wf(),
            next.wf(),
            keys == entry_keys(old_entries.entries@),
            p == stops(keys, contents(old_entries@), contents(next@)),
            old_values@.len() == old_entries.entries@.len(),
            forall|k: int|
                0 <= k < old_values@.len() ==> (#[trigger] old_values@[k])@ == contents(
                    old_entries@,
                )[keys[k]],
            i <= old_entries.entries.len(),
            as_ints(out@) == picks(i as nat, p),
            forall|k: int| 0 <= k < out@.len() ==> (#[trigger] out@[k]) < old_values@.len(),
        decreases old_entries.entries.len() - i,
    {
        let ghost before = as_ints(out@);
        proof {
            assert(keys[i as int] == old_entries.entries@[i as int].key@);
            assert(old_values@[i as int]@ == contents(old_entries@)[keys[i as int]]);
        }
        if old_values[i].is_active() && !carries_over(
            old_entries.entries[i].key.as_str(),
            old_entries,
            next,
        ) {
            out.push(i);
            proof {
                assert(as_ints(out@) =~= before.push(i as int));
            }
        }
        i = i + 1;
    }
    out
}

fn pick_updates(
    old_entries: &TextMap<ResolvedEntry>,
    next: &TextMap<ResolvedEntry>,
    values: &Vec<ResolvedEntry>,
) -> (r: Vec<usize>)
    requires
        old_entries.wf(),
        resolved_wf(old_entries@),
        next.wf(),
        values@.len() == next.entries@.len(),
        forall|i: int|
            0 <= i < values@.len() ==> (#[trigger] values@[i])@ == contents(next@)[entry_keys(
                next.entries@,
            )[i]] && values@[i].wf(),
    ensures
        as_ints(r@) == picks(
            next.entries@.len(),
            updates(entry_keys(next.entries@), contents(old_entries@), contents(next@)),
        ),
        forall|k: int| 0 <= k < r@.len() ==> (#[trigger] r@[k]) < values@.len(),
{
    let ghost keys = entry_keys(next.entries@);
    let ghost p = updates(keys, contents(old_entries@), contents(next@));
    let mut out: Vec<usize> = Vec::new();
    let mut i: usize = 0;
    proof {
        assert(as_ints(out@) =~= Seq::empty());
    }
    while i < next.entries.len()
        invariant
            old_entries.wf(),
            resolved_wf(old_entries@),
            next.wf(),
            keys == entry_keys(next.entries@),
            p == updates(keys, contents(old_entries@), contents(next@)),
            values@.len() == next.entries@.len(),
            forall|k: int|
                0 <= k < values@.len() ==> (#[trigger] values@[k])@ == contents(next@)[keys[k]]
                    && values@[k].wf(),
            i <= next.entries.len(),
            as_ints(out@) == picks(i as nat, p),
            forall|k: int| 0 <= k < out@.len() ==> (#[trigger] out@[k]) < values@.len(),
        decreases next.entries.len() - i,
    {
        let ghost before = as_ints(out@);
        let id = next.entries[i].key.as_str();
        proof {
            assert(keys[i as int] == id@);
            assert(values@[i as int]@ == contents(next@)[keys[i as int]]);
        }
        let changed = match old_entries.get(id) {
            Some(previous) => carries_over(id, old_entries, next) && !are_alike(
                previous,
                &values[i],
            ),
            None => false,
        };
        if changed {
            out.push(i);
            proof {
                assert(as_ints(out@) =~= before.push(i as int));
            }
        }
        i = i + 1;
    }
    out
}

fn pick_starts(
    old_entries: &TextMap<ResolvedEntry>,
    next: &TextMap<ResolvedEntry>,
    values: &Vec<ResolvedEntry>,
) -> (r: Vec<usize>)
    requires
        old_entries.wf(),
        next.wf(),
        values@.len() == next.entries@.len(),
        forall|i: int|
            0 <= i < values@.len() ==> (#[trigger] values@[i])@ == contents(next@)[entry_keys(
                next.entries@,
            )[i]],
    ensures
        as_ints(r@) == picks(
            next.entries@.len(),
            starts(entry_keys(next.entries@), contents(old_entries@), contents(next@)),
        ),
        forall|k: int| 0 <= k < r@.len() ==> (#[trigger] r@[k]) < values@.len(),
{
    let ghost keys = entry_keys(next.entries@);
    let ghost p = starts(keys, contents(old_entries@), contents(next@));
    let mut out: Vec<usize> = Vec::new();
    let mut i: usize = 0;
    proof {
        assert(as_ints(out@) =~= Seq::empty());
    }
    while i < next.entries.len()
        invariant
            old_entries.wf(),
            next.wf(),
            keys == entry_keys(next.entries@),
            p == starts(keys, contents(old_entries@), contents(next@)),
            values@.len() == next.entries@.len(),
            forall|k: int|
                0 <= k < values@.len() ==> (#[trigger] values@[k])@ == contents(next@)[keys[k]],
            i <= next.entries.len(),
            as_ints(out@) == picks(i as nat, p),
            forall|k: int| 0 <= k < out@.len() ==> (#[trigger] out@[k]) < values@.len(),
        decreases next.entries.len() - i,
    {
        let ghost before = as_ints(out@);
        let id = next.entries[i].key.as_str();
        proof {
            assert(keys[i as int] == id@);
            assert(values@[i as int]@ == contents(next@)[keys[i as int]]);
        }
        if values[i].is_active() && !carries_over(id, old_entries, next) {
            out.push(i);
            proof {
                assert(as_ints(out@) =~= before.push(i as int));
            }
        }
        i = i + 1;
    }
    out
}

// ---------------------------------------------------------------------------------------------
// Changing a tree
// ---------------------------------------------------------------------------------------------

/// The optional identifier by content.
pub open spec fn parent_model(parent: Option<&EntryId>) -> Option<Seq<char>> {
    match parent {
        Some(id) => Some(id@),
        None => None,
    }
}

/// Roots with an entry inserted at the top or below a group. A position beyond the end appends.
pub open spec fn inserted(
    roots: Seq<EntryModel>,
    parent: Option<Seq<char>>,
    index: nat,
    entry: EntryModel,
) -> Result<Seq<EntryModel>, LoaderErrorModel> {
    match parent {
        None => Ok(roots.insert(at_most(index, roots.len()), entry)),
        Some(id) => match find_in(roots, id) {
            None => Err(LoaderErrorModel::MissingEntry(id)),
            Some(target) => if !target.group {
                Err(LoaderErrorModel::ParentNotGroup(id))
            } else {
                Ok(edit_in(roots, id, EditModel::Insert(index, entry)))
            },
        },
    }
}

/// Roots with one entry changed.
pub open spec fn changed(roots: Seq<EntryModel>, id: Seq<char>, edit: EditModel) -> Result<
    Seq<EntryModel>,
    LoaderErrorModel,
> {
    if find_in(roots, id) is None {
        Err(LoaderErrorModel::MissingEntry(id))
    } else {
        Ok(edit_in(roots, id, edit))
    }
}

/// Roots without one entry and its descendants.
pub open spec fn without(roots: Seq<EntryModel>, id: Seq<char>) -> Result<
    Seq<EntryModel>,
    LoaderErrorModel,
> {
    match removed(roots, id) {
        None => Err(LoaderErrorModel::MissingEntry(id)),
        Some((rest, _)) => Ok(rest),
    }
}

/// Roots with one entry moved elsewhere. It cannot move below itself.
pub open spec fn moved(
    roots: Seq<EntryModel>,
    id: Seq<char>,
    parent: Option<Seq<char>>,
    index: nat,
) -> Result<Seq<EntryModel>, LoaderErrorModel> {
    if parent == Some(id) {
        Err(LoaderErrorModel::EntryCycle(id))
    } else {
        match removed(roots, id) {
            None => Err(LoaderErrorModel::MissingEntry(id)),
            Some((rest, entry)) => if parent is Some && find_in(
                entry.children,
                parent->Some_0,
            ) is Some {
                Err(LoaderErrorModel::EntryCycle(id))
            } else {
                inserted(rest, parent, index, entry)
            },
        }
    }
}

/// New roots that match what is expected.
pub open spec fn roots_match(
    r: Result<Vec<EntrySpec>, LoaderError>,
    expected: Result<Seq<EntryModel>, LoaderErrorModel>,
) -> bool {
    match (r, expected) {
        (Ok(roots), Ok(models)) => entries_wf(roots@) && entry_models(roots@) == models,
        (Err(error), Err(model)) => error@ == model,
        _ => false,
    }
}

/// Inserts an entry at the top or below a group.
pub fn insert_entry(
    roots: Vec<EntrySpec>,
    parent: Option<&EntryId>,
    index: usize,
    entry: EntrySpec,
) -> (r: Result<Vec<EntrySpec>, LoaderError>)
    requires
        entries_wf(roots@),
        entry_wf(entry),
    ensures
        roots_match(
            r,
            inserted(entry_models(roots@), parent_model(parent), index as nat, entry@),
        ),
{
    match parent {
        None => {
            let ghost before = roots@;
            let mut roots = roots;
            let len = roots.len();
            let at: usize = if index < len {
                index
            } else {
                len
            };
            let ghost content = entry@;
            roots.insert(at, entry);
            proof {
                assert(entry_models(roots@) =~= entry_models(before).insert(at as int, content));
                assert(entry_models(before).len() == before.len());
            }
            Ok(roots)
        },
        Some(id) => {
            let group = match find_entry(&roots, id) {
                None => {
                    return Err(LoaderError::MissingEntry(id.duplicate()));
                },
                Some(target) => target.group,
            };
            if !group {
                return Err(LoaderError::ParentNotGroup(id.duplicate()));
            }
            Ok(edit_entries(roots, id, EntryEdit::Insert(index, entry)))
        },
    }
}

/// Changes one entry.
pub fn change_entry(roots: Vec<EntrySpec>, id: &EntryId, edit: EntryEdit) -> (r: Result<
    Vec<EntrySpec>,
    LoaderError,
>)
    requires
        entries_wf(roots@),
        edit_wf(edit),
    ensures
        roots_match(r, changed(entry_models(roots@), id@, edit@)),
{
    if find_entry(&roots, id).is_none() {
        return Err(LoaderError::MissingEntry(id.duplicate()));
    }
    Ok(edit_entries(roots, id, edit))
}

/// Takes one entry and its descendants out.
pub fn drop_entry(roots: Vec<EntrySpec>, id: &EntryId) -> (r: Result<Vec<EntrySpec>, LoaderError>)
    requires
        entries_wf(roots@),
    ensures
        roots_match(r, without(entry_models(roots@), id@)),
{
    let (rest, gone) = remove_entry(roots, id);
    match gone {
        Some(_) => Ok(rest),
        None => Err(LoaderError::MissingEntry(id.duplicate())),
    }
}

impl EntryTree {
    /// The roots with an entry added at the top or below a group.
    pub fn create(&self, parent: Option<&EntryId>, entry: EntrySpec) -> (r: Result<
        Vec<EntrySpec>,
        LoaderError,
    >)
        requires
            self.wf(),
            entry_wf(entry),
        ensures
            roots_match(
                r,
                inserted(
                    entry_models(self.roots@),
                    parent_model(parent),
                    usize::MAX as nat,
                    entry@,
                ),
            ),
    {
        insert_entry(duplicate_entries(&self.roots), parent, usize::MAX, entry)
    }

    /// The roots with an existing entry replaced in its position.
    pub fn update(&self, entry: EntrySpec) -> (r: Result<Vec<EntrySpec>, LoaderError>)
        requires
            self.wf(),
            entry_wf(entry),
        ensures
            roots_match(
                r,
                changed(entry_models(self.roots@), entry@.id, EditModel::Replace(entry@)),
            ),
    {
        let id = entry.id.duplicate();
        change_entry(duplicate_entries(&self.roots), &id, EntryEdit::Replace(entry))
    }

    /// The roots with an entry's configuration replaced.
    pub fn self_update(&self, id: &EntryId, config: Value) -> (r: Result<
        Vec<EntrySpec>,
        LoaderError,
    >)
        requires
            self.wf(),
        ensures
            roots_match(
                r,
                changed(entry_models(self.roots@), id@, EditModel::Config(config@)),
            ),
    {
        change_entry(duplicate_entries(&self.roots), id, EntryEdit::Config(config))
    }

    /// The roots with an entry disabled.
    pub fn self_disable(&self, id: &EntryId) -> (r: Result<Vec<EntrySpec>, LoaderError>)
        requires
            self.wf(),
        ensures
            roots_match(r, changed(entry_models(self.roots@), id@, EditModel::Disable)),
    {
        change_entry(duplicate_entries(&self.roots), id, EntryEdit::Disable)
    }

    /// The roots with an entry moved, its identifier unchanged.
    pub fn move_entry(&self, id: &EntryId, parent: Option<&EntryId>, index: usize) -> (r: Result<
        Vec<EntrySpec>,
        LoaderError,
    >)
        requires
            self.wf(),
        ensures
            roots_match(
                r,
                moved(entry_models(self.roots@), id@, parent_model(parent), index as nat),
            ),
    {
        if let Some(target) = parent {
            if target.same(id) {
                return Err(LoaderError::EntryCycle(id.duplicate()));
            }
        }
        let (rest, gone) = remove_entry(duplicate_entries(&self.roots), id);
        let entry = match gone {
            None => {
                return Err(LoaderError::MissingEntry(id.duplicate()));
            },
            Some(entry) => entry,
        };
        proof {
            children_model(entry);
        }
        if let Some(target) = parent {
            if find_entry(&entry.children, target).is_some() {
                return Err(LoaderError::EntryCycle(id.duplicate()));
            }
        }
        insert_entry(rest, parent, index, entry)
    }

    /// The roots without an entry and its descendants.
    pub fn remove(&self, id: &EntryId) -> (r: Result<Vec<EntrySpec>, LoaderError>)
        requires
            self.wf(),
        ensures
            roots_match(r, without(entry_models(self.roots@), id@)),
    {
        drop_entry(duplicate_entries(&self.roots), id)
    }
}

proof fn picks_nothing(n: nat, p: spec_fn(int) -> bool)
    requires
        forall|i: int| 0 <= i < n ==> !#[trigger] p(i),
    ensures
        picks(n, p) == Seq::<int>::empty(),
    decreases n,
{
    if n > 0 {
        picks_nothing((n - 1) as nat, p);
    }
}

/// Reconciling a tree with itself takes no step.
pub proof fn unchanged_tree_needs_no_steps(
    keys: Seq<Seq<char>>,
    map: Map<Seq<char>, ResolvedEntryModel>,
)
    requires
        forall|k: int| 0 <= k < keys.len() ==> map.dom().contains(#[trigger] keys[k]),
    ensures
        steps(keys, map, keys, map) == Seq::<OperationModel>::empty(),
{
    let none = Seq::<int>::empty();
    assert forall|i: int| 0 <= i < keys.len() implies !#[trigger] stops(keys, map, map)(i) by {
        assert(map.dom().contains(keys[i]));
    }
    assert forall|i: int| 0 <= i < keys.len() implies !#[trigger] starts(keys, map, map)(i) by {
        assert(map.dom().contains(keys[i]));
    }
    picks_nothing(keys.len(), stops(keys, map, map));
    picks_nothing(keys.len(), updates(keys, map, map));
    picks_nothing(keys.len(), starts(keys, map, map));
    levels_end(none, depths(keys, map), 0, all_levels());
    assert(steps(keys, map, keys, map) =~= Seq::<OperationModel>::empty());
}

} // verus!
