//! What a change to a tree of entries does to the entries in it.
use crate::document::{
    entry_json, entry_of, merged_entry, patched, patched_once, ActionModel, PatchModel,
};
use crate::entry::{EntryModel, LoaderErrorModel};
use crate::search::{first_index, first_index_is_first};
use crate::tree::{
    at_most, changed, edit_in, edited, find_in, inserted, moved, named, removed, removed_below,
    without, EditModel,
};
use crate::value::merged;
use vstd::prelude::*;

verus! {

/// An entry without what is nested in it, and the entry it is nested in.
pub struct Line {
    pub parent: Option<Seq<char>>,
    pub entry: EntryModel,
}

/// The line of an entry.
pub open spec fn line(parent: Option<Seq<char>>, e: EntryModel) -> Line {
    Line { parent, entry: EntryModel { children: Seq::empty(), ..e } }
}

/// All entries of a tree in order, each before those nested in it.
pub open spec fn outline(entries: Seq<EntryModel>, parent: Option<Seq<char>>) -> Seq<Line>
    decreases entries,
{
    if entries.len() == 0 {
        Seq::empty()
    } else {
        seq![line(parent, entries[0])] + outline(entries[0].children, Some(entries[0].id))
            + outline(entries.drop_first(), parent)
    }
}

/// One entry and what is nested in it.
pub open spec fn branch(e: EntryModel, parent: Option<Seq<char>>) -> Seq<Line> {
    seq![line(parent, e)] + outline(e.children, Some(e.id))
}

/// Some entry of the tree has the identifier.
pub open spec fn lists(lines: Seq<Line>, id: Seq<char>) -> bool {
    exists|k: int| 0 <= k < lines.len() && (#[trigger] lines[k]).entry.id == id
}

proof fn lists_either(a: Seq<Line>, b: Seq<Line>, id: Seq<char>)
    ensures
        lists(a + b, id) <==> lists(a, id) || lists(b, id),
{
    let c = a + b;
    if lists(c, id) {
        let k = choose|k: int| 0 <= k < c.len() && (#[trigger] c[k]).entry.id == id;
        if k < a.len() {
            assert(a[k].entry.id == id);
        } else {
            assert(b[k - a.len()].entry.id == id);
        }
    }
    if lists(a, id) {
        let k = choose|k: int| 0 <= k < a.len() && (#[trigger] a[k]).entry.id == id;
        assert(c[k].entry.id == id);
    }
    if lists(b, id) {
        let k = choose|k: int| 0 <= k < b.len() && (#[trigger] b[k]).entry.id == id;
        assert(c[a.len() + k].entry.id == id);
    }
}

proof fn outline_of_first(entries: Seq<EntryModel>, parent: Option<Seq<char>>)
    requires
        entries.len() > 0,
    ensures
        outline(entries, parent) == branch(entries[0], parent) + outline(
            entries.drop_first(),
            parent,
        ),
{
}

pub proof fn outline_of_two(a: Seq<EntryModel>, b: Seq<EntryModel>, parent: Option<Seq<char>>)
    ensures
        outline(a + b, parent) == outline(a, parent) + outline(b, parent),
    decreases a.len(),
{
    if a.len() == 0 {
        assert(a + b =~= b);
    } else {
        outline_of_two(a.drop_first(), b, parent);
        assert((a + b).drop_first() =~= a.drop_first() + b);
        outline_of_first(a, parent);
        outline_of_first(a + b, parent);
        assert(outline(a + b, parent) =~= outline(a, parent) + outline(b, parent));
    }
}

pub proof fn outline_of_one(e: EntryModel, parent: Option<Seq<char>>)
    ensures
        outline(seq![e], parent) == branch(e, parent),
{
    outline_of_first(seq![e], parent);
    assert(seq![e].drop_first() =~= Seq::empty());
    assert(branch(e, parent) + Seq::empty() =~= branch(e, parent));
}

/// An identifier is found when the tree lists it, and what is found has it.
pub proof fn listed_entries_are_found(
    entries: Seq<EntryModel>,
    parent: Option<Seq<char>>,
    id: Seq<char>,
)
    ensures
        find_in(entries, id) is Some <==> lists(outline(entries, parent), id),
        find_in(entries, id) matches Some(found) ==> found.id == id,
    decreases entries,
{
    if entries.len() > 0 {
        let e = entries[0];
        let below = outline(e.children, Some(e.id));
        let rest = outline(entries.drop_first(), parent);
        listed_entries_are_found(e.children, Some(e.id), id);
        listed_entries_are_found(entries.drop_first(), parent, id);
        let head = seq![line(parent, e)];
        lists_either(head + below, rest, id);
        lists_either(head, below, id);
        assert(head[0].entry.id == e.id);
        assert(lists(head, id) <==> e.id == id);
    }
}

proof fn regroup(h: Seq<Line>, f: Seq<Line>, m: Seq<Line>, b: Seq<Line>, t: Seq<Line>)
    ensures
        h + (f + m + b) + t == (h + f) + m + (b + t),
        h + (f + m + b) == (h + f) + m + b,
        h + (f + b) + t == (h + f) + (b + t),
        h + (f + b) == (h + f) + b,
{
    assert(h + (f + m + b) + t =~= (h + f) + m + (b + t));
    assert(h + (f + m + b) =~= (h + f) + m + b);
    assert(h + (f + b) + t =~= (h + f) + (b + t));
    assert(h + (f + b) =~= (h + f) + b);
}

proof fn regroup_inserted(
    front: Seq<Line>,
    head: Seq<Line>,
    a: Seq<Line>,
    new: Seq<Line>,
    b: Seq<Line>,
    back: Seq<Line>,
)
    ensures
        front + (head + (a + b)) + back == (front + head + a) + (b + back),
        front + (head + (a + (new + b))) + back == (front + head + a) + new + (b + back),
{
    assert(front + (head + (a + b)) + back =~= (front + head + a) + (b + back));
    assert(front + (head + (a + (new + b))) + back =~= (front + head + a) + new + (b + back));
}

/// What stands before and behind the entry that is found, and the entry it is nested in. The
/// changed tree has the changed entry there and is otherwise the same.
proof fn edit_between(
    entries: Seq<EntryModel>,
    parent: Option<Seq<char>>,
    id: Seq<char>,
    edit: EditModel,
) -> (r: (Seq<Line>, Seq<Line>, Option<Seq<char>>))
    requires
        find_in(entries, id) is Some,
    ensures
        outline(entries, parent) == r.0 + branch(find_in(entries, id)->Some_0, r.2) + r.1,
        outline(edit_in(entries, id, edit), parent) == r.0 + branch(
            edited(find_in(entries, id)->Some_0, edit),
            r.2,
        ) + r.1,
        !lists(r.0, id),
    decreases entries,
{
    let e = entries[0];
    let rest = entries.drop_first();
    let found = find_in(entries, id)->Some_0;
    let after = edit_in(entries, id, edit);
    outline_of_first(entries, parent);
    outline_of_first(after, parent);
    if e.id == id {
        assert(after.drop_first() =~= rest);
        let back = outline(rest, parent);
        let front = Seq::<Line>::empty();
        assert(front + branch(found, parent) + back =~= outline(entries, parent));
        assert(front + branch(edited(found, edit), parent) + back =~= outline(after, parent));
        (front, back, parent)
    } else if find_in(e.children, id) is Some {
        let (front, back, p) = edit_between(e.children, Some(e.id), id, edit);
        let head = seq![line(parent, e)];
        let next = EntryModel { children: edit_in(e.children, id, edit), ..e };
        let tail = outline(rest, parent);
        assert(after[0] == next);
        assert(after.drop_first() =~= rest);
        assert(line(parent, next) == line(parent, e));
        regroup(head, front, branch(found, p), back, tail);
        regroup(head, front, branch(edited(found, edit), p), back, tail);
        lists_either(head, front, id);
        assert(!lists(head, id));
        (head + front, back + tail, p)
    } else {
        let (front, back, p) = edit_between(rest, parent, id, edit);
        assert(after.drop_first() =~= edit_in(rest, id, edit));
        let head = branch(e, parent);
        regroup(head, front, branch(found, p), back, Seq::empty());
        regroup(head, front, branch(edited(found, edit), p), back, Seq::empty());
        listed_entries_are_found(e.children, Some(e.id), id);
        let top = seq![line(parent, e)];
        assert(!lists(top, id));
        lists_either(top, outline(e.children, Some(e.id)), id);
        lists_either(head, front, id);
        (head + front, back, p)
    }
}

/// Changing an entry that the tree does not list is refused. Otherwise the first entry with the
/// identifier is changed, stays where it is, and all others stay as they are: a replacement takes
/// its place with all that is nested in it, a new configuration replaces the old one, a disabled
/// entry differs in nothing else.
pub proof fn changes_touch_one_entry(
    roots: Seq<EntryModel>,
    id: Seq<char>,
    edit: EditModel,
) -> (r: (Seq<Line>, EntryModel, Seq<Line>, Option<Seq<char>>))
    ensures
        changed(roots, id, edit) is Ok <==> lists(outline(roots, None), id),
        changed(roots, id, edit) matches Err(error) ==> error == LoaderErrorModel::MissingEntry(id),
        changed(roots, id, edit) matches Ok(after) ==> {
            let (front, e, back, parent) = r;
            &&& e.id == id
            &&& !lists(front, id)
            &&& outline(roots, None) == front + branch(e, parent) + back
            &&& match edit {
                EditModel::Replace(next) => outline(after, None) == front + branch(next, parent)
                    + back,
                EditModel::Config(config) => outline(after, None) == front + branch(
                    EntryModel { config, ..e },
                    parent,
                ) + back,
                EditModel::Disable => outline(after, None) == front + branch(
                    EntryModel { disabled: true, ..e },
                    parent,
                ) + back,
                EditModel::Insert(..) => true,
            }
        },
{
    listed_entries_are_found(roots, None, id);
    match find_in(roots, id) {
        Some(e) => {
            let (front, back, parent) = edit_between(roots, None, id, edit);
            (front, e, back, parent)
        },
        None => (Seq::empty(), arbitrary(), Seq::empty(), None),
    }
}

/// An entry is inserted under its parent, which has to be listed and to be a group, or among the
/// roots. It comes with all that is nested in it, all other entries stay as they are, and before
/// it stand as many of its siblings as its position says, or all of them.
pub proof fn insertions_add_one_branch(
    roots: Seq<EntryModel>,
    parent: Option<Seq<char>>,
    index: nat,
    entry: EntryModel,
) -> (r: (Seq<Line>, Seq<Line>))
    ensures
        match inserted(roots, parent, index, entry) {
            Ok(after) => {
                let (front, back) = r;
                &&& outline(roots, None) == front + back
                &&& outline(after, None) == front + branch(entry, parent) + back
                &&& match parent {
                    None => {
                        &&& after.len() == roots.len() + 1
                        &&& index <= roots.len() ==> after[index as int] == entry
                        &&& index > roots.len() ==> after.last() == entry
                    },
                    Some(id) => find_in(roots, id) matches Some(found) && found.group,
                }
            },
            Err(LoaderErrorModel::MissingEntry(id)) => parent == Some(id) && !lists(
                outline(roots, None),
                id,
            ),
            Err(LoaderErrorModel::ParentNotGroup(id)) => parent == Some(id) && (find_in(
                roots,
                id,
            ) matches Some(found) && !found.group),
            Err(_) => false,
        },
{
    match parent {
        None => {
            let at = at_most(index, roots.len());
            let after = roots.insert(at, entry);
            let a = roots.take(at);
            let b = roots.skip(at);
            assert(a + b =~= roots);
            assert(a + (seq![entry] + b) =~= after);
            outline_of_two(a, b, None);
            outline_of_two(a, seq![entry] + b, None);
            outline_of_two(seq![entry], b, None);
            outline_of_one(entry, None);
            assert(outline(after, None) =~= outline(a, None) + branch(entry, None) + outline(
                b,
                None,
            ));
            (outline(a, None), outline(b, None))
        },
        Some(id) => {
            listed_entries_are_found(roots, None, id);
            match find_in(roots, id) {
                None => (Seq::empty(), Seq::empty()),
                Some(group) => {
                    if group.group {
                        let edit = EditModel::Insert(index, entry);
                        let (front, back, p) = edit_between(roots, None, id, edit);
                        let at = at_most(index, group.children.len());
                        let a = group.children.take(at);
                        let b = group.children.skip(at);
                        let next = edited(group, edit);
                        assert(a + b =~= group.children);
                        assert(a + (seq![entry] + b) =~= next.children);
                        outline_of_two(a, b, parent);
                        outline_of_two(a, seq![entry] + b, parent);
                        outline_of_two(seq![entry], b, parent);
                        outline_of_one(entry, parent);
                        let head = seq![line(p, group)];
                        assert(line(p, next) == line(p, group));
                        let x = front + head + outline(a, parent);
                        let y = outline(b, parent) + back;
                        regroup_inserted(
                            front,
                            head,
                            outline(a, parent),
                            branch(entry, parent),
                            outline(b, parent),
                            back,
                        );
                        (x, y)
                    } else {
                        (Seq::empty(), Seq::empty())
                    }
                },
            }
        },
    }
}

/// The first entry with the identifier is found again after something was inserted in it, and
/// has it among its children at the wanted place, or at their end.
pub proof fn insertions_keep_their_place(
    roots: Seq<EntryModel>,
    id: Seq<char>,
    index: nat,
    entry: EntryModel,
)
    requires
        inserted(roots, Some(id), index, entry) is Ok,
    ensures
        ({
            let before = find_in(roots, id)->Some_0;
            let place = if index < before.children.len() {
                index as int
            } else {
                before.children.len() as int
            };
            find_in(inserted(roots, Some(id), index, entry)->Ok_0, id) == Some(
                EntryModel { children: before.children.insert(place, entry), ..before },
            )
        }),
{
    listed_entries_are_found(roots, None, id);
    edited_is_found(roots, id, EditModel::Insert(index, entry));
}

proof fn edited_is_found(entries: Seq<EntryModel>, id: Seq<char>, edit: EditModel)
    requires
        find_in(entries, id) is Some,
        edited(find_in(entries, id)->Some_0, edit).id == id,
    ensures
        find_in(edit_in(entries, id, edit), id) == Some(
            edited(find_in(entries, id)->Some_0, edit),
        ),
    decreases entries,
{
    let e = entries[0];
    let after = edit_in(entries, id, edit);
    if e.id == id {
        assert(after[0] == edited(e, edit));
    } else if find_in(e.children, id) is Some {
        edited_is_found(e.children, id, edit);
        assert(after[0].children == edit_in(e.children, id, edit));
    } else {
        edited_is_found(entries.drop_first(), id, edit);
        assert(after[0] == e);
        assert(after.drop_first() =~= edit_in(entries.drop_first(), id, edit));
    }
}

/// What stands before and behind the entry that is taken out, and the entry it is nested in.
proof fn removal_between(entries: Seq<EntryModel>, parent: Option<Seq<char>>, id: Seq<char>) -> (r: (
    Seq<Line>,
    Seq<Line>,
    Option<Seq<char>>,
))
    ensures
        removed(entries, id) is Some <==> lists(outline(entries, parent), id),
        removed(entries, id) matches Some((rest, gone)) ==> {
            &&& gone.id == id
            &&& outline(entries, parent) == r.0 + branch(gone, r.2) + r.1
            &&& outline(rest, parent) == r.0 + r.1
        },
    decreases entries, 1nat,
{
    let p = named(entries, id);
    first_index_is_first(entries.len(), p);
    match first_index(entries.len(), p) {
        Some(i) => {
            let a = entries.take(i);
            let b = entries.skip(i + 1);
            let e = entries[i];
            assert(p(i));
            assert(a + (seq![e] + b) =~= entries);
            assert(a + b =~= entries.remove(i));
            outline_of_two(a, b, parent);
            outline_of_two(a, seq![e] + b, parent);
            outline_of_two(seq![e], b, parent);
            outline_of_one(e, parent);
            let front = outline(a, parent);
            let back = outline(b, parent);
            assert(outline(entries, parent) =~= front + branch(e, parent) + back);
            let head = seq![line(parent, e)];
            assert(head[0].entry.id == id);
            lists_either(head, outline(e.children, Some(e.id)), id);
            lists_either(front, branch(e, parent), id);
            lists_either(front + branch(e, parent), back, id);
            (front, back, parent)
        },
        None => {
            assert forall|k: int| 0 <= k < entries.len() implies (#[trigger] entries[k]).id
                != id by {
                assert(!p(k));
            }
            removal_below(entries, parent, id)
        },
    }
}

proof fn removal_below(entries: Seq<EntryModel>, parent: Option<Seq<char>>, id: Seq<char>) -> (r: (
    Seq<Line>,
    Seq<Line>,
    Option<Seq<char>>,
))
    requires
        forall|k: int| 0 <= k < entries.len() ==> (#[trigger] entries[k]).id != id,
    ensures
        removed_below(entries, id) is Some <==> lists(outline(entries, parent), id),
        removed_below(entries, id) matches Some((rest, gone)) ==> {
            &&& gone.id == id
            &&& outline(entries, parent) == r.0 + branch(gone, r.2) + r.1
            &&& outline(rest, parent) == r.0 + r.1
        },
    decreases entries, 0nat,
{
    if entries.len() == 0 {
        (Seq::empty(), Seq::empty(), None)
    } else {
        let e = entries[0];
        let others = entries.drop_first();
        let head = seq![line(parent, e)];
        let tail = outline(others, parent);
        let below = outline(e.children, Some(e.id));
        assert forall|k: int| 0 <= k < others.len() implies (#[trigger] others[k]).id != id by {
            assert(others[k] == entries[k + 1]);
        }
        let inner = removal_between(e.children, Some(e.id), id);
        let outer = removal_below(others, parent, id);
        outline_of_first(entries, parent);
        assert(head[0].entry.id == e.id);
        assert(!lists(head, id));
        lists_either(head, below, id);
        lists_either(head + below, tail, id);
        match removed(e.children, id) {
            Some((children, gone)) => {
                let next = EntryModel { children, ..e };
                let rest = seq![next] + others;
                outline_of_first(rest, parent);
                assert(rest.drop_first() =~= others);
                assert(line(parent, next) == line(parent, e));
                regroup(head, inner.0, branch(gone, inner.2), inner.1, tail);
                (head + inner.0, inner.1 + tail, inner.2)
            },
            None => {
                match removed_below(others, id) {
                    Some((left, gone)) => {
                        let rest = seq![e] + left;
                        outline_of_first(rest, parent);
                        assert(rest.drop_first() =~= left);
                        regroup(
                            branch(e, parent),
                            outer.0,
                            branch(gone, outer.2),
                            outer.1,
                            Seq::empty(),
                        );
                    },
                    None => {},
                }
                (branch(e, parent) + outer.0, outer.1, outer.2)
            },
        }
    }
}

/// Removing an entry takes it out with all that is nested in it and leaves all others as they
/// are. It is refused when the tree does not list the entry.
pub proof fn removals_take_one_branch(roots: Seq<EntryModel>, id: Seq<char>) -> (r: (
    Seq<Line>,
    EntryModel,
    Seq<Line>,
    Option<Seq<char>>,
))
    ensures
        without(roots, id) is Ok <==> lists(outline(roots, None), id),
        without(roots, id) matches Err(error) ==> error == LoaderErrorModel::MissingEntry(id),
        without(roots, id) matches Ok(after) ==> {
            let (front, gone, back, parent) = r;
            &&& gone.id == id
            &&& outline(roots, None) == front + branch(gone, parent) + back
            &&& outline(after, None) == front + back
        },
{
    let (front, back, parent) = removal_between(roots, None, id);
    match removed(roots, id) {
        Some((_, gone)) => (front, gone, back, parent),
        None => (front, arbitrary(), back, parent),
    }
}

/// A moved entry comes to its new parent with all that is nested in it. No entry is lost, added
/// or changed, and all others stay where they are. An entry cannot move below itself.
pub proof fn moves_keep_every_entry(
    roots: Seq<EntryModel>,
    id: Seq<char>,
    parent: Option<Seq<char>>,
    index: nat,
) -> (r: (EntryModel, Option<Seq<char>>, (Seq<Line>, Seq<Line>), (Seq<Line>, Seq<Line>)))
    ensures
        parent == Some(id) ==> moved(roots, id, parent, index) == Err::<
            Seq<EntryModel>,
            LoaderErrorModel,
        >(LoaderErrorModel::EntryCycle(id)),
        parent != Some(id) && !lists(outline(roots, None), id) ==> moved(roots, id, parent, index)
            == Err::<Seq<EntryModel>, LoaderErrorModel>(LoaderErrorModel::MissingEntry(id)),
        parent != Some(id) && lists(outline(roots, None), id) ==> {
            let (e, origin, from, to) = r;
            &&& e.id == id
            &&& outline(roots, None) == from.0 + branch(e, origin) + from.1
            &&& parent is Some && lists(outline(e.children, Some(id)), parent->Some_0) ==> moved(
                roots,
                id,
                parent,
                index,
            ) == Err::<Seq<EntryModel>, LoaderErrorModel>(LoaderErrorModel::EntryCycle(id))
            &&& !(parent is Some && lists(outline(e.children, Some(id)), parent->Some_0)) ==> match moved(
                roots,
                id,
                parent,
                index,
            ) {
                Ok(after) => {
                    &&& from.0 + from.1 == to.0 + to.1
                    &&& outline(after, None) == to.0 + branch(e, parent) + to.1
                },
                Err(LoaderErrorModel::MissingEntry(other)) => parent == Some(other) && !lists(
                    from.0 + from.1,
                    other,
                ),
                Err(LoaderErrorModel::ParentNotGroup(other)) => parent == Some(other) && lists(
                    from.0 + from.1,
                    other,
                ),
                Err(_) => false,
            }
        },
{
    let (front, back, origin) = removal_between(roots, None, id);
    match removed(roots, id) {
        None => (arbitrary(), None, (front, back), (front, back)),
        Some((rest, e)) => {
            if parent is Some {
                listed_entries_are_found(e.children, Some(id), parent->Some_0);
                listed_entries_are_found(rest, None, parent->Some_0);
            }
            let to = insertions_add_one_branch(rest, parent, index, e);
            (e, origin, (front, back), to)
        },
    }
}

// ---------------------------------------------------------------------------------------------
// Patches
// ---------------------------------------------------------------------------------------------

/// Patches are applied one after another: applying some and then others is applying all of them,
/// and nothing follows one that is refused.
pub proof fn patches_follow_each_other(
    entries: Seq<EntryModel>,
    first: Seq<PatchModel>,
    second: Seq<PatchModel>,
)
    ensures
        patched(entries, Seq::empty(), 0) == Ok::<Seq<EntryModel>, LoaderErrorModel>(entries),
        patched(entries, first + second, (first + second).len()) == match patched(
            entries,
            first,
            first.len(),
        ) {
            Ok(between) => patched(between, second, second.len()),
            Err(error) => Err(error),
        },
    decreases second.len(),
{
    let all = first + second;
    if second.len() == 0 {
        assert(all =~= first);
    } else {
        let fewer = second.drop_last();
        patches_follow_each_other(entries, first, fewer);
        same_patches(entries, all, first + fewer, (first + fewer).len());
        match patched(entries, first, first.len()) {
            Ok(between) => {
                same_patches(between, second, fewer, fewer.len());
            },
            Err(_) => {},
        }
        assert(all[all.len() - 1] == second.last());
    }
}

proof fn same_patches(
    entries: Seq<EntryModel>,
    a: Seq<PatchModel>,
    b: Seq<PatchModel>,
    n: nat,
)
    requires
        n <= a.len(),
        n <= b.len(),
        forall|k: int| 0 <= k < n ==> a[k] == b[k],
    ensures
        patched(entries, a, n) == patched(entries, b, n),
    decreases n,
{
    if n > 0 {
        same_patches(entries, a, b, (n - 1) as nat);
    }
}

/// A patch does to a document what the change it names does to a tree. All but insertions need a
/// target, and a replacement keeps the identifier. A merge replaces the entry by the one that its
/// JSON merged with the patch describes.
pub proof fn patches_are_changes(
    entries: Seq<EntryModel>,
    target: Option<Seq<char>>,
    action: ActionModel,
)
    ensures
        ({
            let r = patched(entries, seq![PatchModel { target, action }], 1);
            &&& !(action is Insert) && target is None ==> r is Err
            &&& match action {
                ActionModel::Insert { index, entry } => r == inserted(
                    entries,
                    target,
                    index,
                    entry,
                ),
                ActionModel::Remove => target is Some ==> r == without(entries, target->Some_0),
                ActionModel::Replace(entry) => target is Some ==> {
                    &&& entry.id != target->Some_0 ==> r is Err
                    &&& entry.id == target->Some_0 ==> r == changed(
                        entries,
                        entry.id,
                        EditModel::Replace(entry),
                    )
                },
                ActionModel::Merge(patch) => target is Some && r is Ok ==> exists|
                    e: EntryModel,
                    next: EntryModel,
                |
                    {
                        &&& find_in(entries, target->Some_0) == Some(e)
                        &&& #[trigger] entry_of(merged(entry_json(e), patch)) == Ok::<
                            EntryModel,
                            Seq<char>,
                        >(next)
                        &&& next.id == target->Some_0
                        &&& r == #[trigger] changed(entries, next.id, EditModel::Replace(next))
                    },
            }
        }),
{
    let patches = seq![PatchModel { target, action }];
    assert(patched(entries, patches, 0) == Ok::<Seq<EntryModel>, LoaderErrorModel>(entries));
    assert(patched(entries, patches, 1) == patched_once(entries, patches[0]));
    if action is Merge && target is Some && patched_once(entries, patches[0]) is Ok {
        let e = find_in(entries, target->Some_0)->Some_0;
        assert(entry_of(merged(entry_json(e), action->Merge_0)) is Ok);
        let next = merged_entry(e, action->Merge_0, target->Some_0)->Ok_0;
        assert(patched_once(entries, patches[0]) == changed(
            entries,
            next.id,
            EditModel::Replace(next),
        ));
    }
}

} // verus!
