//! Which trees of entries resolve, and why others are refused.
use crate::entry::{
    component_of, outermost, passed_on, resolution, resolved_entry, visited, visited_all,
    EntryModel, Inherited, LoaderErrorModel, ResolvedEntryModel,
};
use crate::outline::{branch, line, outline, outline_of_one, outline_of_two, Line};
use vstd::prelude::*;

verus! {

/// Some of the lines has the identifier.
spec fn ids(lines: Seq<Line>) -> Set<Seq<char>> {
    Set::new(
        |id: Seq<char>|
            exists|k: int| 0 <= k < lines.len() && (#[trigger] lines[k]).entry.id == id,
    )
}

proof fn ids_of_two(a: Seq<Line>, b: Seq<Line>)
    ensures
        ids(a + b) == ids(a).union(ids(b)),
{
    let c = a + b;
    assert forall|id: Seq<char>| ids(c).contains(id) <==> ids(a).union(ids(b)).contains(id) by {
        if ids(c).contains(id) {
            let k = choose|k: int| 0 <= k < c.len() && (#[trigger] c[k]).entry.id == id;
            if k < a.len() {
                assert(a[k].entry.id == id);
            } else {
                assert(b[k - a.len()].entry.id == id);
            }
        }
        if ids(a).contains(id) {
            let k = choose|k: int| 0 <= k < a.len() && (#[trigger] a[k]).entry.id == id;
            assert(c[k].entry.id == id);
        }
        if ids(b).contains(id) {
            let k = choose|k: int| 0 <= k < b.len() && (#[trigger] b[k]).entry.id == id;
            assert(c[a.len() + k].entry.id == id);
        }
    }
    assert(ids(c) =~= ids(a).union(ids(b)));
}

/// What is wrong with one entry, once some identifiers are taken.
spec fn line_error(e: EntryModel, taken: Set<Seq<char>>) -> Option<LoaderErrorModel> {
    if e.id.len() == 0 {
        Some(LoaderErrorModel::InvalidEntryId(Seq::empty()))
    } else if taken.contains(e.id) {
        Some(LoaderErrorModel::DuplicateEntry(e.id))
    } else if !e.group && component_of(e.component) is None {
        Some(LoaderErrorModel::InvalidComponentRef(e.component))
    } else {
        None
    }
}

/// What is wrong with the first entry that something is wrong with.
spec fn judged(lines: Seq<Line>, taken: Set<Seq<char>>) -> Option<LoaderErrorModel>
    decreases lines.len(),
{
    if lines.len() == 0 {
        None
    } else {
        match judged(lines.drop_last(), taken) {
            Some(error) => Some(error),
            None => line_error(lines.last().entry, taken.union(ids(lines.drop_last()))),
        }
    }
}

proof fn judged_in_turn(a: Seq<Line>, b: Seq<Line>, taken: Set<Seq<char>>)
    ensures
        judged(a + b, taken) == match judged(a, taken) {
            Some(error) => Some(error),
            None => judged(b, taken.union(ids(a))),
        },
    decreases b.len(),
{
    if b.len() == 0 {
        assert(a + b =~= a);
    } else {
        judged_in_turn(a, b.drop_last(), taken);
        assert((a + b).drop_last() =~= a + b.drop_last());
        ids_of_two(a, b.drop_last());
        assert(taken.union(ids(a)).union(ids(b.drop_last())) =~= taken.union(
            ids(a).union(ids(b.drop_last())),
        ));
    }
}

/// A visit goes as the lines it goes through are judged.
spec fn goes_as_judged(
    r: Result<Map<Seq<char>, ResolvedEntryModel>, LoaderErrorModel>,
    lines: Seq<Line>,
    taken: Set<Seq<char>>,
) -> bool {
    match r {
        Ok(map) => judged(lines, taken) is None && map.dom() == taken.union(ids(lines)),
        Err(error) => judged(lines, taken) == Some(error),
    }
}

proof fn visits_go_as_judged(
    e: EntryModel,
    from: Inherited,
    out: Map<Seq<char>, ResolvedEntryModel>,
    parent: Option<Seq<char>>,
)
    ensures
        goes_as_judged(visited(e, from, out), branch(e, parent), out.dom()),
    decreases e, 0nat,
{
    let head = seq![line(parent, e)];
    let below = outline(e.children, Some(e.id));
    let none = Seq::<Line>::empty();
    judged_in_turn(head, below, out.dom());
    assert(head.drop_last() =~= none);
    assert(ids(none) =~= Set::empty());
    assert(out.dom().union(ids(none)) =~= out.dom());
    assert(judged(head, out.dom()) == line_error(e, out.dom())) by {
        assert(judged(none, out.dom()) is None);
        assert(head.last() == line(parent, e));
    }
    ids_of_two(head, below);
    assert(ids(head) =~= set![e.id]) by {
        assert(head[0].entry.id == e.id);
    }
    if line_error(e, out.dom()) is None {
        let here = out.insert(e.id, resolved_entry(e, from));
        all_visits_go_as_judged(
            e.children,
            e.children.len(),
            passed_on(e, from),
            here,
            Some(e.id),
        );
        assert(e.children.take(e.children.len() as int) =~= e.children);
        assert(here.dom() =~= out.dom().union(ids(head)));
        assert(out.dom().union(ids(head)).union(ids(below)) =~= out.dom().union(
            ids(head).union(ids(below)),
        ));
    }
}

proof fn all_visits_go_as_judged(
    entries: Seq<EntryModel>,
    n: nat,
    from: Inherited,
    out: Map<Seq<char>, ResolvedEntryModel>,
    parent: Option<Seq<char>>,
)
    requires
        n <= entries.len(),
    ensures
        goes_as_judged(
            visited_all(entries, n, from, out),
            outline(entries.take(n as int), parent),
            out.dom(),
        ),
    decreases entries, n,
{
    if n == 0 {
        assert(entries.take(0) =~= Seq::empty());
        assert(ids(Seq::<Line>::empty()) =~= Set::empty());
        assert(out.dom().union(ids(Seq::<Line>::empty())) =~= out.dom());
    } else {
        let m = (n - 1) as nat;
        all_visits_go_as_judged(entries, m, from, out, parent);
        let e = entries[n - 1];
        let before = outline(entries.take(n - 1), parent);
        let last = branch(e, parent);
        assert(entries.take(n as int) =~= entries.take(n - 1) + seq![e]);
        outline_of_two(entries.take(n - 1), seq![e], parent);
        outline_of_one(e, parent);
        judged_in_turn(before, last, out.dom());
        ids_of_two(before, last);
        match visited_all(entries, m, from, out) {
            Ok(map) => {
                visits_go_as_judged(e, from, map, parent);
                assert(map.dom().union(ids(last)) =~= out.dom().union(
                    ids(before).union(ids(last)),
                ));
            },
            Err(_) => {},
        }
    }
}

/// The text is a scheme and something behind it.
pub open spec fn has_scheme(text: Seq<char>, scheme: Seq<char>) -> bool {
    exists|rest: Seq<char>| rest.len() > 0 && text == #[trigger] (scheme + rest)
}

proof fn schemes_are_seen(text: Seq<char>)
    ensures
        component_of(text) is Some <==> has_scheme(text, "builtin:"@) || has_scheme(
            text,
            "file:"@,
        ),
{
    scheme_is_seen(text, "builtin:"@);
    scheme_is_seen(text, "file:"@);
}

proof fn scheme_is_seen(text: Seq<char>, scheme: Seq<char>)
    ensures
        has_scheme(text, scheme) <==> scheme.is_prefix_of(text) && text.len() > scheme.len(),
{
    if scheme.is_prefix_of(text) && text.len() > scheme.len() {
        let rest = text.skip(scheme.len() as int);
        assert(scheme + rest =~= text);
    }
    if has_scheme(text, scheme) {
        let rest = choose|rest: Seq<char>| rest.len() > 0 && text == #[trigger] (scheme + rest);
        assert(scheme =~= text.subrange(0, scheme.len() as int));
    }
}

/// An entry that the tree can have at its place: its identifier is not empty and no entry before
/// it has the same, and it is a group or names a component behind `builtin:` or `file:`.
pub open spec fn acceptable(lines: Seq<Line>, k: int) -> bool {
    let e = lines[k].entry;
    &&& e.id.len() > 0
    &&& forall|j: int| 0 <= j < k ==> (#[trigger] lines[j]).entry.id != e.id
    &&& e.group || has_scheme(e.component, "builtin:"@) || has_scheme(e.component, "file:"@)
}

proof fn judged_first(lines: Seq<Line>, n: nat)
    requires
        n <= lines.len(),
    ensures
        match judged(lines.take(n as int), Set::empty()) {
            None => forall|k: int| 0 <= k < n ==> #[trigger] acceptable(lines, k),
            Some(error) => exists|k: int|
                {
                    &&& 0 <= k < n
                    &&& !(#[trigger] acceptable(lines, k))
                    &&& forall|j: int| 0 <= j < k ==> #[trigger] acceptable(lines, j)
                    &&& line_error(lines[k].entry, ids(lines.take(k))) == Some(error)
                },
        },
    decreases n,
{
    if n > 0 {
        let m = (n - 1) as nat;
        judged_first(lines, m);
        let before = lines.take(n - 1);
        let e = lines[n - 1].entry;
        assert(lines.take(n as int).drop_last() =~= before);
        assert(lines.take(n as int).last() == lines[n - 1]);
        assert(Set::<Seq<char>>::empty().union(ids(before)) =~= ids(before));
        schemes_are_seen(e.component);
        assert(ids(before).contains(e.id) <==> exists|j: int|
            0 <= j < n - 1 && (#[trigger] lines[j]).entry.id == e.id) by {
            if ids(before).contains(e.id) {
                let j = choose|j: int|
                    0 <= j < before.len() && (#[trigger] before[j]).entry.id == e.id;
                assert(lines[j].entry.id == e.id);
            }
            if exists|j: int| 0 <= j < n - 1 && (#[trigger] lines[j]).entry.id == e.id {
                let j = choose|j: int| 0 <= j < n - 1 && (#[trigger] lines[j]).entry.id == e.id;
                assert(before[j].entry.id == e.id);
            }
        }
        assert(acceptable(lines, n - 1) <==> line_error(e, ids(before)) is None);
    }
}

/// A tree resolves exactly if each of its entries is acceptable. Otherwise it is refused for the
/// first that is not, parents before their children: for an empty identifier, for one that came
/// before, or for a component that is named without a scheme.
pub proof fn acceptable_trees_resolve(roots: Seq<EntryModel>)
    ensures
        ({
            let lines = outline(roots, None);
            match resolution(roots) {
                Ok(_) => forall|k: int| 0 <= k < lines.len() ==> #[trigger] acceptable(lines, k),
                Err(error) => exists|k: int|
                    {
                        let e = lines[k].entry;
                        &&& 0 <= k < lines.len()
                        &&& !(#[trigger] acceptable(lines, k))
                        &&& forall|j: int| 0 <= j < k ==> #[trigger] acceptable(lines, j)
                        &&& match error {
                            LoaderErrorModel::InvalidEntryId(text) => e.id.len() == 0 && text.len()
                                == 0,
                            LoaderErrorModel::DuplicateEntry(id) => id == e.id && exists|j: int|
                                0 <= j < k && (#[trigger] lines[j]).entry.id == id,
                            LoaderErrorModel::InvalidComponentRef(text) => text == e.component
                                && !e.group && !has_scheme(text, "builtin:"@) && !has_scheme(
                                text,
                                "file:"@,
                            ),
                            _ => false,
                        }
                    },
            }
        }),
{
    let none = Map::<Seq<char>, ResolvedEntryModel>::empty();
    let lines = outline(roots, None);
    all_visits_go_as_judged(roots, roots.len(), outermost(), none, None);
    assert(roots.take(roots.len() as int) =~= roots);
    assert(none.dom() =~= Set::empty());
    judged_first(lines, lines.len());
    assert(lines.take(lines.len() as int) =~= lines);
    if resolution(roots) is Err {
        let error = resolution(roots)->Err_0;
        let k = choose|k: int|
            {
                &&& 0 <= k < lines.len()
                &&& !(#[trigger] acceptable(lines, k))
                &&& forall|j: int| 0 <= j < k ==> #[trigger] acceptable(lines, j)
                &&& line_error(lines[k].entry, ids(lines.take(k))) == Some(error)
            };
        let e = lines[k].entry;
        schemes_are_seen(e.component);
        if ids(lines.take(k)).contains(e.id) {
            let before = lines.take(k);
            let j = choose|j: int| 0 <= j < before.len() && (#[trigger] before[j]).entry.id == e.id;
            assert(lines[j].entry.id == e.id);
        }
        assert(!acceptable(lines, k));
    }
}

} // verus!
