//! Reachability and strongly connected components of small directed graphs.
use vstd::prelude::*;

verus! {

/// A sequence of at least two nodes, each joined to the next.
pub open spec fn path(edge: spec_fn(int, int) -> bool, nodes: Seq<int>) -> bool {
    &&& nodes.len() >= 2
    &&& forall|i: int| 0 <= i < nodes.len() - 1 ==> edge(#[trigger] nodes[i], nodes[i + 1])
}

/// `nodes` leads from `a` to `b`.
pub open spec fn leads(
    edge: spec_fn(int, int) -> bool,
    nodes: Seq<int>,
    a: int,
    b: int,
) -> bool {
    path(edge, nodes) && nodes[0] == a && nodes.last() == b
}

/// One or more edges lead from `a` to `b`.
pub open spec fn reaches(edge: spec_fn(int, int) -> bool, a: int, b: int) -> bool {
    exists|nodes: Seq<int>| #[trigger] leads(edge, nodes, a, b)
}

/// Both nodes lie on a common cycle.
pub open spec fn mutual(edge: spec_fn(int, int) -> bool, a: int, b: int) -> bool {
    reaches(edge, a, b) && reaches(edge, b, a)
}

/// The nodes below `n` that lie on a cycle with `node`, ascending.
pub open spec fn members(edge: spec_fn(int, int) -> bool, node: int, n: nat) -> Seq<int>
    decreases n,
{
    if n == 0 {
        Seq::empty()
    } else {
        let below = members(edge, node, (n - 1) as nat);
        if mutual(edge, node, n - 1) {
            below.push(n - 1)
        } else {
            below
        }
    }
}

/// The edges of adjacency lists.
pub open spec fn adjacency(graph: Seq<Vec<usize>>) -> spec_fn(int, int) -> bool {
    |a: int, b: int|
        0 <= a < graph.len() && exists|k: int|
            0 <= k < graph[a]@.len() && #[trigger] graph[a]@[k] == b
}

/// Every target is a node of the graph.
pub open spec fn closed_graph(graph: Seq<Vec<usize>>) -> bool {
    forall|a: int, k: int|
        0 <= a < graph.len() && 0 <= k < graph[a]@.len() ==> (#[trigger] graph[a]@[k])
            < graph.len()
}

/// An edge is a path.
pub proof fn edge_reaches(edge: spec_fn(int, int) -> bool, a: int, b: int)
    requires
        edge(a, b),
    ensures
        reaches(edge, a, b),
{
    let nodes = seq![a, b];
    assert(path(edge, nodes));
    assert(leads(edge, nodes, a, b));
}

/// Reachability is transitive.
pub proof fn reaches_transitive(edge: spec_fn(int, int) -> bool, a: int, b: int, c: int)
    requires
        reaches(edge, a, b),
        reaches(edge, b, c),
    ensures
        reaches(edge, a, c),
{
    let first = choose|nodes: Seq<int>| #[trigger] leads(edge, nodes, a, b);
    let second = choose|nodes: Seq<int>| #[trigger] leads(edge, nodes, b, c);
    let whole = first + second.skip(1);
    let split = first.len() - 1;
    assert forall|i: int| 0 <= i < whole.len() - 1 implies edge(
        #[trigger] whole[i],
        whole[i + 1],
    ) by {
        if i < split {
            assert(first[i] == whole[i]);
        } else {
            assert(second[i - split] == whole[i]);
        }
    }
    assert(leads(edge, whole, a, c));
}

/// A set that holds the successors of `start` and of all its own nodes holds everything
/// reachable from `start`.
proof fn closed_set_holds(
    edge: spec_fn(int, int) -> bool,
    start: int,
    inside: spec_fn(int) -> bool,
    nodes: Seq<int>,
)
    requires
        path(edge, nodes),
        nodes[0] == start,
        forall|x: int, y: int|
            (x == start || inside(x)) && #[trigger] edge(x, y) ==> inside(y),
    ensures
        inside(nodes.last()),
    decreases nodes.len(),
{
    if nodes.len() == 2 {
        assert(edge(nodes[0], nodes[1]));
    } else {
        let shorter = nodes.drop_last();
        assert forall|i: int| 0 <= i < shorter.len() - 1 implies edge(
            #[trigger] shorter[i],
            shorter[i + 1],
        ) by {
            assert(shorter[i] == nodes[i]);
        }
        closed_set_holds(edge, start, inside, shorter);
        let k = nodes.len() - 2;
        assert(shorter.last() == nodes[k]);
    }
}

/// How many flags are unset.
pub open spec fn unset(flags: Seq<bool>) -> nat
    decreases flags.len(),
{
    if flags.len() == 0 {
        0
    } else {
        unset(flags.drop_last()) + if flags.last() {
            0nat
        } else {
            1nat
        }
    }
}

proof fn setting_lowers_unset(flags: Seq<bool>, i: int)
    requires
        0 <= i < flags.len(),
        !flags[i],
    ensures
        unset(flags.update(i, true)) + 1 == unset(flags),
    decreases flags.len(),
{
    let after = flags.update(i, true);
    if i == flags.len() - 1 {
        assert(after.drop_last() =~= flags.drop_last());
    } else {
        assert(after.drop_last() =~= flags.drop_last().update(i, true));
        setting_lowers_unset(flags.drop_last(), i);
    }
}

/// Whether `x` is still waiting to be expanded.
pub open spec fn waiting(stack: Seq<usize>, x: int) -> bool {
    exists|k: int| 0 <= k < stack.len() && #[trigger] stack[k] == x
}

/// Marks every node that one or more edges lead to from `start`.
pub fn reach_from(graph: &Vec<Vec<usize>>, start: usize) -> (r: Vec<bool>)
    requires
        closed_graph(graph@),
        start < graph.len(),
    ensures
        r.len() == graph.len(),
        forall|u: int|
            0 <= u < graph.len() ==> #[trigger] r@[u] == reaches(
                adjacency(graph@),
                start as int,
                u,
            ),
{
    let ghost edge = adjacency(graph@);
    let mut seen: Vec<bool> = Vec::new();
    let mut i: usize = 0;
    while i < graph.len()
        invariant
            i <= graph.len(),
            seen.len() == i,
            forall|u: int| 0 <= u < i ==> !seen@[u],
        decreases graph.len() - i,
    {
        seen.push(false);
        i = i + 1;
    }
    let mut stack: Vec<usize> = Vec::new();
    stack.push(start);
    proof {
        assert(stack@[0] == start);
        assert(waiting(stack@, start as int));
    }
    while stack.len() > 0
        invariant
            edge == adjacency(graph@),
            closed_graph(graph@),
            start < graph.len(),
            seen.len() == graph.len(),
            forall|k: int| 0 <= k < stack.len() ==> (#[trigger] stack@[k]) < graph.len(),
            forall|k: int|
                0 <= k < stack.len() ==> (#[trigger] stack@[k]) == start || seen@[stack@[k] as int],
            forall|u: int|
                0 <= u < graph.len() && #[trigger] seen@[u] ==> reaches(edge, start as int, u),
            forall|x: int, y: int|
                (x == start || 0 <= x < graph.len() && seen@[x]) && !waiting(stack@, x)
                    && #[trigger] edge(x, y) ==> seen@[y],
        decreases unset(seen@), stack.len(),
    {
        let ghost stack_before = stack@;
        let ghost seen_before = seen@;
        let x: usize = stack.pop().unwrap();
        proof {
            assert(stack_before.last() == x);
            assert(stack@ =~= stack_before.drop_last());
            assert forall|z: int| z != x && waiting(stack_before, z) implies waiting(
                stack@,
                z,
            ) by {
                let k = choose|k: int| 0 <= k < stack_before.len() && #[trigger] stack_before[k] == z;
                assert(stack@[k] == z);
            }
        }
        let mut j: usize = 0;
        while j < graph[x as usize].len()
            invariant
                edge == adjacency(graph@),
                closed_graph(graph@),
                start < graph.len(),
                x < graph.len(),
                j <= graph@[x as int].len(),
                seen.len() == graph.len(),
                x == start || seen@[x as int],
                seen_before.len() == seen.len(),
                unset(seen@) <= unset(seen_before),
                unset(seen@) == unset(seen_before) ==> stack@.len() + 1 == stack_before.len()
                    && seen@ == seen_before,
                forall|u: int| 0 <= u < graph.len() && seen_before[u] ==> seen@[u],
                forall|k: int| 0 <= k < stack.len() ==> (#[trigger] stack@[k]) < graph.len(),
                forall|k: int|
                    0 <= k < stack.len() ==> (#[trigger] stack@[k]) == start
                        || seen@[stack@[k] as int],
                forall|u: int|
                    0 <= u < graph.len() && #[trigger] seen@[u] ==> reaches(edge, start as int, u),
                forall|k: int| 0 <= k < j ==> seen@[#[trigger] graph@[x as int]@[k] as int],
                forall|u: int, v: int|
                    (u == start || 0 <= u < graph.len() && seen@[u]) && u != x && !waiting(
                        stack@,
                        u,
                    ) && #[trigger] edge(u, v) ==> seen@[v],
            decreases graph@[x as int].len() - j,
        {
            let y: usize = graph[x][j];
            if !seen[y] {
                let ghost seen_mid = seen@;
                let ghost stack_mid = stack@;
                seen.set(y, true);
                stack.push(y);
                proof {
                    setting_lowers_unset(seen_mid, y as int);
                    assert(graph@[x as int]@[j as int] == y);
                    assert(edge(x as int, y as int));
                    edge_reaches(edge, x as int, y as int);
                    if x != start {
                        reaches_transitive(edge, start as int, x as int, y as int);
                    }
                    assert forall|u: int| waiting(stack_mid, u) || u == y implies waiting(
                        stack@,
                        u,
                    ) by {
                        if u == y {
                            assert(stack@[stack_mid.len() as int] == u);
                        } else {
                            let k = choose|k: int|
                                0 <= k < stack_mid.len() && #[trigger] stack_mid[k] == u;
                            assert(stack@[k] == u);
                        }
                    }
                    assert forall|u: int, v: int|
                        (u == start || 0 <= u < graph.len() && seen@[u]) && u != x && !waiting(
                            stack@,
                            u,
                        ) && #[trigger] edge(u, v) implies seen@[v] by {
                        assert(u != y);
                        assert(!waiting(stack_mid, u));
                        assert(u == start || seen_mid[u]);
                        assert(seen_mid[v]);
                    }
                }
            }
            j = j + 1;
        }
        proof {
            assert forall|u: int, v: int|
                (u == start || 0 <= u < graph.len() && seen@[u]) && !waiting(stack@, u)
                    && #[trigger] edge(u, v) implies seen@[v] by {
                if u == x {
                    let k = choose|k: int|
                        0 <= k < graph@[u]@.len() && #[trigger] graph@[u]@[k] == v;
                    assert(seen@[graph@[x as int]@[k] as int]);
                }
            }
        }
    }
    proof {
        let inside = |u: int| 0 <= u < graph.len() && seen@[u];
        assert forall|u: int| 0 <= u < graph.len() implies #[trigger] seen@[u] == reaches(
            edge,
            start as int,
            u,
        ) by {
            if reaches(edge, start as int, u) {
                let nodes = choose|nodes: Seq<int>| #[trigger] leads(edge, nodes, start as int, u);
                assert forall|x: int, y: int|
                    (x == start || inside(x)) && #[trigger] edge(x, y) implies inside(y) by {
                    assert(!waiting(stack@, x));
                    let k = choose|k: int|
                        0 <= k < graph@[x]@.len() && #[trigger] graph@[x]@[k] == y;
                    assert(graph@[x]@[k] < graph.len());
                }
                closed_set_holds(edge, start as int, inside, nodes);
            }
        }
    }
    seen
}

/// For every node that lies on a cycle, all nodes it shares a cycle with.
pub fn components(graph: &Vec<Vec<usize>>) -> (r: Vec<Option<Vec<usize>>>)
    requires
        closed_graph(graph@),
    ensures
        r.len() == graph.len(),
        forall|v: int|
            0 <= v < graph.len() ==> component_of(adjacency(graph@), graph.len() as nat, v, #[trigger] r@[v]),
{
    let ghost edge = adjacency(graph@);
    let mut reach: Vec<Vec<bool>> = Vec::new();
    let mut i: usize = 0;
    while i < graph.len()
        invariant
            edge == adjacency(graph@),
            closed_graph(graph@),
            i <= graph.len(),
            reach.len() == i,
            forall|v: int| 0 <= v < i ==> (#[trigger] reach@[v]).len() == graph.len(),
            forall|v: int, u: int|
                0 <= v < i && 0 <= u < graph.len() ==> #[trigger] reach@[v]@[u] == reaches(
                    edge,
                    v,
                    u,
                ),
        decreases graph.len() - i,
    {
        reach.push(reach_from(graph, i));
        i = i + 1;
    }
    let mut out: Vec<Option<Vec<usize>>> = Vec::new();
    let mut v: usize = 0;
    while v < graph.len()
        invariant
            edge == adjacency(graph@),
            v <= graph.len(),
            out.len() == v,
            reach.len() == graph.len(),
            forall|a: int| 0 <= a < graph.len() ==> (#[trigger] reach@[a]).len() == graph.len(),
            forall|a: int, b: int|
                0 <= a < graph.len() && 0 <= b < graph.len() ==> #[trigger] reach@[a]@[b]
                    == reaches(edge, a, b),
            forall|a: int|
                0 <= a < v ==> component_of(edge, graph.len() as nat, a, #[trigger] out@[a]),
        decreases graph.len() - v,
    {
        if reach[v][v] {
            let mut list: Vec<usize> = Vec::new();
            let mut u: usize = 0;
            while u < graph.len()
                invariant
                    v < graph.len(),
                    u <= graph.len(),
                    reach.len() == graph.len(),
                    forall|a: int|
                        0 <= a < graph.len() ==> (#[trigger] reach@[a]).len() == graph.len(),
                    forall|a: int, b: int|
                        0 <= a < graph.len() && 0 <= b < graph.len() ==> #[trigger] reach@[a]@[b]
                            == reaches(edge, a, b),
                    indexes(list@) == members(edge, v as int, u as nat),
                decreases graph.len() - u,
            {
                let ghost before = list@;
                if reach[v][u] && reach[u][v] {
                    list.push(u);
                    proof {
                        assert(indexes(list@) =~= indexes(before).push(u as int));
                    }
                }
                u = u + 1;
            }
            out.push(Some(list));
        } else {
            out.push(None);
        }
        v = v + 1;
    }
    out
}

/// Indexes as mathematical integers.
pub open spec fn indexes(list: Seq<usize>) -> Seq<int> {
    Seq::new(list.len(), |i: int| list[i] as int)
}

/// `found` is the component of node `v`: nothing off every cycle, all shared nodes otherwise.
pub open spec fn component_of(
    edge: spec_fn(int, int) -> bool,
    n: nat,
    v: int,
    found: Option<Vec<usize>>,
) -> bool {
    match found {
        None => !reaches(edge, v, v),
        Some(list) => reaches(edge, v, v) && indexes(list@) == members(edge, v, n),
    }
}

/// A component lists exactly the nodes that share a cycle with `node`, each once, ascending.
pub proof fn members_are_exact(edge: spec_fn(int, int) -> bool, node: int, n: nat)
    ensures
        forall|u: int| #[trigger]
            members(edge, node, n).contains(u) <==> 0 <= u < n && mutual(edge, node, u),
        forall|i: int, j: int|
            0 <= i < j < members(edge, node, n).len() ==> members(edge, node, n)[i] < members(
                edge,
                node,
                n,
            )[j],
    decreases n,
{
    let all = members(edge, node, n);
    if n > 0 {
        let below = members(edge, node, (n - 1) as nat);
        members_are_exact(edge, node, (n - 1) as nat);
        if mutual(edge, node, n - 1) {
            assert(all == below.push(n - 1));
            assert forall|u: int| #[trigger] all.contains(u) <==> 0 <= u < n && mutual(
                edge,
                node,
                u,
            ) by {
                assert(below.contains(u) <==> 0 <= u < n - 1 && mutual(edge, node, u));
                if all.contains(u) {
                    let k = choose|k: int| 0 <= k < all.len() && all[k] == u;
                    if k < below.len() {
                        assert(below[k] == u);
                    }
                }
                if below.contains(u) {
                    let k = choose|k: int| 0 <= k < below.len() && below[k] == u;
                    assert(all[k] == u);
                }
                if u == n - 1 {
                    assert(all[below.len() as int] == u);
                }
            }
            assert forall|i: int, j: int| 0 <= i < j < all.len() implies all[i] < all[j] by {
                assert(below[i] == all[i]);
                assert(below.contains(all[i]));
                if j < below.len() {
                    assert(below[j] == all[j]);
                }
            }
        }
    }
}

/// Nodes on a common cycle have the same component.
pub proof fn shared_component(edge: spec_fn(int, int) -> bool, a: int, b: int, n: nat)
    requires
        mutual(edge, a, b),
    ensures
        members(edge, a, n) == members(edge, b, n),
    decreases n,
{
    if n > 0 {
        shared_component(edge, a, b, (n - 1) as nat);
        let c = n - 1;
        if mutual(edge, a, c) {
            reaches_transitive(edge, b, a, c);
            reaches_transitive(edge, c, a, b);
        }
        if mutual(edge, b, c) {
            reaches_transitive(edge, a, b, c);
            reaches_transitive(edge, c, b, a);
        }
    }
}

/// The edges of a path lead in a larger graph too.
proof fn larger_graph_leads(
    small: spec_fn(int, int) -> bool,
    large: spec_fn(int, int) -> bool,
    a: int,
    b: int,
)
    requires
        forall|x: int, y: int| #[trigger] small(x, y) ==> large(x, y),
        reaches(small, a, b),
    ensures
        reaches(large, a, b),
{
    let nodes = choose|nodes: Seq<int>| #[trigger] leads(small, nodes, a, b);
    assert forall|i: int| 0 <= i < nodes.len() - 1 implies large(
        #[trigger] nodes[i],
        nodes[i + 1],
    ) by {
        assert(small(nodes[i], nodes[i + 1]));
    }
    assert(leads(large, nodes, a, b));
}

/// A node in the middle of a path is reached, and reaches its end.
proof fn inside_path(edge: spec_fn(int, int) -> bool, nodes: Seq<int>, i: int)
    requires
        path(edge, nodes),
        0 <= i < nodes.len() - 1,
    ensures
        reaches(edge, nodes[i], nodes.last()),
        i > 0 ==> reaches(edge, nodes[0], nodes[i]),
{
    let back = nodes.skip(i);
    assert forall|k: int| 0 <= k < back.len() - 1 implies edge(#[trigger] back[k], back[k + 1]) by {
        assert(edge(nodes[i + k], nodes[i + k + 1]));
    }
    assert(leads(edge, back, nodes[i], nodes.last()));
    if i > 0 {
        let front = nodes.take(i + 1);
        assert forall|k: int| 0 <= k < front.len() - 1 implies edge(
            #[trigger] front[k],
            front[k + 1],
        ) by {
            assert(edge(nodes[k], nodes[k + 1]));
        }
        assert(leads(edge, front, nodes[0], nodes[i]));
    }
}

/// Taking away edges that lead to a node on no cycle leaves all cycles as they are.
pub proof fn cycles_survive(
    large: spec_fn(int, int) -> bool,
    small: spec_fn(int, int) -> bool,
    x: int,
    j: int,
    k: int,
)
    requires
        forall|a: int, b: int| #[trigger] small(a, b) ==> large(a, b),
        forall|a: int, b: int| b != x && #[trigger] large(a, b) ==> small(a, b),
        !reaches(large, x, x),
    ensures
        mutual(large, j, k) <==> mutual(small, j, k),
{
    if mutual(small, j, k) {
        larger_graph_leads(small, large, j, k);
        larger_graph_leads(small, large, k, j);
    }
    if mutual(large, j, k) {
        cycle_avoids(large, small, x, j, k);
        cycle_avoids(large, small, x, k, j);
    }
}

proof fn cycle_avoids(
    large: spec_fn(int, int) -> bool,
    small: spec_fn(int, int) -> bool,
    x: int,
    j: int,
    k: int,
)
    requires
        forall|a: int, b: int| b != x && #[trigger] large(a, b) ==> small(a, b),
        !reaches(large, x, x),
        mutual(large, j, k),
    ensures
        reaches(small, j, k),
{
    let nodes = choose|nodes: Seq<int>| #[trigger] leads(large, nodes, j, k);
    assert forall|i: int| 0 <= i < nodes.len() - 1 implies small(
        #[trigger] nodes[i],
        nodes[i + 1],
    ) by {
        assert(large(nodes[i], nodes[i + 1]));
        if nodes[i + 1] == x {
            // The node is reached from `j`, and leads back to it through `k`.
            if i + 1 < nodes.len() - 1 {
                inside_path(large, nodes, i + 1);
                reaches_transitive(large, x, k, j);
            }
            reaches_transitive(large, x, j, x);
        }
    }
    assert(leads(small, nodes, j, k));
}

/// Taking away edges that lead to a node on no cycle leaves the nodes on a common cycle.
pub proof fn members_survive(
    large: spec_fn(int, int) -> bool,
    small: spec_fn(int, int) -> bool,
    x: int,
    j: int,
    n: nat,
)
    requires
        forall|a: int, b: int| #[trigger] small(a, b) ==> large(a, b),
        forall|a: int, b: int| b != x && #[trigger] large(a, b) ==> small(a, b),
        !reaches(large, x, x),
    ensures
        members(large, j, n) == members(small, j, n),
    decreases n,
{
    if n > 0 {
        members_survive(large, small, x, j, (n - 1) as nat);
        cycles_survive(large, small, x, j, n - 1);
    }
}

/// Fewer edges, fewer cycles.
pub proof fn no_new_cycles(
    large: spec_fn(int, int) -> bool,
    small: spec_fn(int, int) -> bool,
    x: int,
)
    requires
        forall|a: int, b: int| #[trigger] small(a, b) ==> large(a, b),
        !reaches(large, x, x),
    ensures
        !reaches(small, x, x),
{
    if reaches(small, x, x) {
        larger_graph_leads(small, large, x, x);
    }
}

} // verus!
