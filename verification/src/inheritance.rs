//! What resolved entries get from the entries around them.
use crate::entry::{
    component_of, deeper, outermost, resolution, resolved_entry, visited, visited_all,
    ComponentModel, EntryModel, Inherited, RealmModel, ResolvedEntryModel, RuleModel,
};
use vstd::prelude::*;

verus! {

/// What an entry gets from its parent, if it has one.
spec fn around(map: Map<Seq<char>, ResolvedEntryModel>, parent: Option<Seq<char>>) -> Inherited {
    match parent {
        None => outermost(),
        Some(p) => Inherited {
            parent: Some(p),
            depth: deeper(map[p].depth),
            disabled: map[p].effective_disabled,
            realms: map[p].realms,
            intercept: map[p].intercept,
        },
    }
}

/// The entry is declared under its parent, or is a root.
spec fn placed(
    roots: Seq<EntryModel>,
    map: Map<Seq<char>, ResolvedEntryModel>,
    parent: Option<Seq<char>>,
    e: EntryModel,
) -> bool {
    match parent {
        None => roots.contains(e),
        Some(p) => map.dom().contains(p) && map[p].spec.children.contains(e),
    }
}

/// An entry is resolved against its parent.
spec fn in_place(roots: Seq<EntryModel>, map: Map<Seq<char>, ResolvedEntryModel>, id: Seq<char>) -> bool {
    let r = map[id];
    &&& id.len() > 0
    &&& r.spec.id == id
    &&& r.spec.group || component_of(r.spec.component) is Some
    &&& placed(roots, map, r.parent, r.spec)
    &&& r == resolved_entry(r.spec, around(map, r.parent))
}

/// An entry is resolved under the given parent.
spec fn found(map: Map<Seq<char>, ResolvedEntryModel>, e: EntryModel, parent: Option<Seq<char>>) -> bool {
    &&& map.dom().contains(e.id)
    &&& map[e.id].spec == e
    &&& map[e.id].parent == parent
}

/// All children of an entry are resolved under it.
spec fn children_found(map: Map<Seq<char>, ResolvedEntryModel>, id: Seq<char>) -> bool {
    forall|k: int|
        0 <= k < map[id].spec.children.len() ==> found(
            map,
            #[trigger] map[id].spec.children[k],
            Some(id),
        )
}

/// Entries are only added.
spec fn kept(
    before: Map<Seq<char>, ResolvedEntryModel>,
    after: Map<Seq<char>, ResolvedEntryModel>,
) -> bool {
    forall|id: Seq<char>| #[trigger]
        before.dom().contains(id) ==> after.dom().contains(id) && after[id] == before[id]
}

/// All entries are resolved against their parents.
spec fn all_in_place(roots: Seq<EntryModel>, map: Map<Seq<char>, ResolvedEntryModel>) -> bool {
    forall|id: Seq<char>| #[trigger] map.dom().contains(id) ==> in_place(roots, map, id)
}

/// The children of every entry that was added are resolved.
spec fn added_with_children(
    before: Map<Seq<char>, ResolvedEntryModel>,
    after: Map<Seq<char>, ResolvedEntryModel>,
) -> bool {
    forall|id: Seq<char>| #[trigger]
        after.dom().contains(id) && !before.dom().contains(id) ==> children_found(after, id)
}

proof fn children_stay_found(
    before: Map<Seq<char>, ResolvedEntryModel>,
    after: Map<Seq<char>, ResolvedEntryModel>,
    id: Seq<char>,
)
    requires
        kept(before, after),
        before.dom().contains(id),
        children_found(before, id),
    ensures
        children_found(after, id),
{
    assert forall|k: int| 0 <= k < after[id].spec.children.len() implies found(
        after,
        #[trigger] after[id].spec.children[k],
        Some(id),
    ) by {
        assert(found(before, before[id].spec.children[k], Some(id)));
    }
}

proof fn visited_in_place(
    roots: Seq<EntryModel>,
    e: EntryModel,
    from: Inherited,
    out: Map<Seq<char>, ResolvedEntryModel>,
)
    requires
        visited(e, from, out) is Ok,
        all_in_place(roots, out),
        placed(roots, out, from.parent, e),
        from == around(out, from.parent),
    ensures
        ({
            let map = visited(e, from, out)->Ok_0;
            &&& kept(out, map)
            &&& all_in_place(roots, map)
            &&& found(map, e, from.parent)
            &&& added_with_children(out, map)
        }),
    decreases e, 0nat,
{
    let here = out.insert(e.id, resolved_entry(e, from));
    let below = around(here, Some(e.id));
    assert(kept(out, here));
    assert forall|id: Seq<char>| #[trigger] here.dom().contains(id) implies in_place(
        roots,
        here,
        id,
    ) by {
        if id != e.id {
            assert(in_place(roots, out, id));
        }
    }
    assert forall|k: int| 0 <= k < e.children.len() implies placed(
        roots,
        here,
        below.parent,
        #[trigger] e.children[k],
    ) by {
        assert(here[e.id].spec.children.contains(e.children[k]));
    }
    visited_all_in_place(roots, e.children, e.children.len(), below, here);
    let map = visited(e, from, out)->Ok_0;
    assert(here.dom().contains(e.id));
    assert(map[e.id] == here[e.id]);
    assert forall|id: Seq<char>| #[trigger]
        map.dom().contains(id) && !out.dom().contains(id) implies children_found(map, id) by {
        if id == e.id {
            assert forall|k: int| 0 <= k < map[id].spec.children.len() implies found(
                map,
                #[trigger] map[id].spec.children[k],
                Some(id),
            ) by {
                assert(found(map, e.children[k], Some(id)));
            }
        }
    }
    assert forall|id: Seq<char>| #[trigger] out.dom().contains(id) implies map.dom().contains(id)
        && map[id] == out[id] by {
        assert(here.dom().contains(id));
    }
}

proof fn visited_all_in_place(
    roots: Seq<EntryModel>,
    entries: Seq<EntryModel>,
    n: nat,
    from: Inherited,
    out: Map<Seq<char>, ResolvedEntryModel>,
)
    requires
        n <= entries.len(),
        visited_all(entries, n, from, out) is Ok,
        all_in_place(roots, out),
        forall|k: int|
            0 <= k < entries.len() ==> placed(roots, out, from.parent, #[trigger] entries[k]),
        from == around(out, from.parent),
    ensures
        ({
            let map = visited_all(entries, n, from, out)->Ok_0;
            &&& kept(out, map)
            &&& all_in_place(roots, map)
            &&& forall|k: int| 0 <= k < n ==> found(map, #[trigger] entries[k], from.parent)
            &&& added_with_children(out, map)
        }),
    decreases entries, n,
{
    if n > 0 {
        visited_all_in_place(roots, entries, (n - 1) as nat, from, out);
        let before = visited_all(entries, (n - 1) as nat, from, out)->Ok_0;
        let e = entries[n - 1];
        assert(placed(roots, out, from.parent, e));
        if from.parent is Some {
            assert(out.dom().contains(from.parent->Some_0));
        }
        visited_in_place(roots, e, from, before);
        let map = visited_all(entries, n, from, out)->Ok_0;
        assert forall|id: Seq<char>| #[trigger] out.dom().contains(id) implies map.dom().contains(
            id,
        ) && map[id] == out[id] by {
            assert(before.dom().contains(id));
        }
        assert forall|k: int| 0 <= k < n implies found(
            map,
            #[trigger] entries[k],
            from.parent,
        ) by {
            if k < n - 1 {
                assert(found(before, entries[k], from.parent));
            }
        }
        assert forall|id: Seq<char>| #[trigger]
            map.dom().contains(id) && !out.dom().contains(id) implies children_found(map, id) by {
            if before.dom().contains(id) {
                children_stay_found(before, map, id);
            }
        }
    }
}

proof fn resolved_in_place(roots: Seq<EntryModel>)
    requires
        resolution(roots) is Ok,
    ensures
        ({
            let map = resolution(roots)->Ok_0;
            &&& all_in_place(roots, map)
            &&& forall|k: int| 0 <= k < roots.len() ==> found(map, #[trigger] roots[k], None)
            &&& forall|id: Seq<char>| #[trigger]
                map.dom().contains(id) ==> children_found(map, id)
        }),
{
    let none = Map::<Seq<char>, ResolvedEntryModel>::empty();
    assert forall|k: int| 0 <= k < roots.len() implies placed(
        roots,
        none,
        None,
        #[trigger] roots[k],
    ) by {
        assert(roots.contains(roots[k]));
    }
    visited_all_in_place(roots, roots, roots.len(), outermost(), none);
    let map = resolution(roots)->Ok_0;
    assert forall|id: Seq<char>| #[trigger] map.dom().contains(id) implies children_found(
        map,
        id,
    ) by {
        assert(!none.dom().contains(id));
    }
}

/// A resolved tree holds every declared entry under its identifier and its parent, and nothing
/// else: all roots, all children of an entry it holds, and no entry that is neither.
pub proof fn trees_are_resolved_whole(roots: Seq<EntryModel>, id: Seq<char>)
    requires
        resolution(roots) is Ok,
    ensures
        ({
            let map = resolution(roots)->Ok_0;
            &&& forall|k: int|
                0 <= k < roots.len() ==> map.dom().contains((#[trigger] roots[k]).id)
                    && map[roots[k].id].spec == roots[k] && map[roots[k].id].parent is None
            &&& map.dom().contains(id) ==> {
                &&& id.len() > 0
                &&& map[id].spec.id == id
                &&& forall|k: int|
                    0 <= k < map[id].spec.children.len() ==> {
                        let child = #[trigger] map[id].spec.children[k];
                        &&& map.dom().contains(child.id)
                        &&& map[child.id].spec == child
                        &&& map[child.id].parent == Some(id)
                    }
                &&& match map[id].parent {
                    None => roots.contains(map[id].spec),
                    Some(p) => map.dom().contains(p) && map[p].spec.children.contains(
                        map[id].spec,
                    ),
                }
            }
        }),
{
    resolved_in_place(roots);
    let map = resolution(roots)->Ok_0;
    assert forall|k: int| 0 <= k < roots.len() implies map.dom().contains((#[trigger] roots[k]).id)
        && map[roots[k].id].spec == roots[k] && map[roots[k].id].parent is None by {
        assert(found(map, roots[k], None));
    }
    if map.dom().contains(id) {
        assert(in_place(roots, map, id));
        assert(children_found(map, id));
        assert forall|k: int| 0 <= k < map[id].spec.children.len() implies {
            let child = #[trigger] map[id].spec.children[k];
            &&& map.dom().contains(child.id)
            &&& map[child.id].spec == child
            &&& map[child.id].parent == Some(id)
        } by {
            assert(found(map, map[id].spec.children[k], Some(id)));
        }
    }
}

/// An entry has the intercept it declares for a service. For any other service it has what its
/// parent has, and a root has none.
pub proof fn intercepts_are_inherited(roots: Seq<EntryModel>, id: Seq<char>, service: Seq<char>)
    requires
        resolution(roots) is Ok,
        resolution(roots)->Ok_0.dom().contains(id),
    ensures
        ({
            let map = resolution(roots)->Ok_0;
            let own = map[id].spec.intercept;
            let got = map[id].intercept;
            if own.dom().contains(service) {
                got.dom().contains(service) && got[service] == own[service]
            } else {
                match map[id].parent {
                    None => !got.dom().contains(service),
                    Some(p) => {
                        &&& map.dom().contains(p)
                        &&& got.dom().contains(service) <==> map[p].intercept.dom().contains(
                            service,
                        )
                        &&& got.dom().contains(service) ==> got[service]
                            == map[p].intercept[service]
                    },
                }
            }
        }),
{
    resolved_in_place(roots);
    assert(in_place(roots, resolution(roots)->Ok_0, id));
}

/// An entry isolates a service as it declares: in a realm of its own, in a shared realm by its
/// label, or not at all. A service it declares nothing for is where it is for its parent, and for
/// a root it is not isolated.
pub proof fn realms_are_inherited(roots: Seq<EntryModel>, id: Seq<char>, service: Seq<char>)
    requires
        resolution(roots) is Ok,
        resolution(roots)->Ok_0.dom().contains(id),
    ensures
        ({
            let map = resolution(roots)->Ok_0;
            let rules = map[id].spec.isolate;
            let got = map[id].realms;
            if rules.dom().contains(service) {
                match rules[service] {
                    RuleModel::Local(true) => got.dom().contains(service) && got[service] == (
                    RealmModel::Local { owner: id, service }),
                    RuleModel::Local(false) => !got.dom().contains(service),
                    RuleModel::Global(label) => got.dom().contains(service) && got[service] == (
                    RealmModel::Global { label, service }),
                }
            } else {
                match map[id].parent {
                    None => !got.dom().contains(service),
                    Some(p) => {
                        &&& map.dom().contains(p)
                        &&& got.dom().contains(service) <==> map[p].realms.dom().contains(service)
                        &&& got.dom().contains(service) ==> got[service] == map[p].realms[service]
                    },
                }
            }
        }),
{
    resolved_in_place(roots);
    assert(in_place(roots, resolution(roots)->Ok_0, id));
}

proof fn components_follow_schemes(text: Seq<char>)
    ensures
        match component_of(text) {
            Some(ComponentModel::Builtin(name)) => name.len() > 0 && text == "builtin:"@ + name,
            Some(ComponentModel::File(path)) => path.len() > 0 && text == "file:"@ + path,
            None => true,
        },
{
    if "builtin:"@.is_prefix_of(text) {
        assert("builtin:"@ + text.skip("builtin:"@.len() as int) =~= text);
    }
    if "file:"@.is_prefix_of(text) {
        assert("file:"@ + text.skip("file:"@.len() as int) =~= text);
    }
}

/// An entry is disabled when it or its parent is. It lies one level below its parent, and roots
/// lie at the top. A group runs no component; any other entry runs the one it names, which is
/// what follows `builtin:` or `file:`.
pub proof fn entries_follow_their_parents(roots: Seq<EntryModel>, id: Seq<char>)
    requires
        resolution(roots) is Ok,
        resolution(roots)->Ok_0.dom().contains(id),
    ensures
        ({
            let map = resolution(roots)->Ok_0;
            let r = map[id];
            &&& match r.parent {
                None => r.depth == 0 && r.effective_disabled == r.spec.disabled,
                Some(p) => {
                    &&& map.dom().contains(p)
                    &&& r.effective_disabled == (r.spec.disabled || map[p].effective_disabled)
                    &&& map[p].depth < usize::MAX ==> r.depth == map[p].depth + 1
                    &&& map[p].depth == usize::MAX ==> r.depth == usize::MAX
                }
            }
            &&& if r.spec.group {
                r.component is None
            } else {
                match r.component {
                    Some(ComponentModel::Builtin(name)) => name.len() > 0 && r.spec.component
                        == "builtin:"@ + name,
                    Some(ComponentModel::File(path)) => path.len() > 0 && r.spec.component
                        == "file:"@ + path,
                    None => false,
                }
            }
        }),
{
    resolved_in_place(roots);
    let map = resolution(roots)->Ok_0;
    assert(in_place(roots, map, id));
    components_follow_schemes(map[id].spec.component);
}

} // verus!
