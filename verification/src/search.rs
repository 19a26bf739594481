//! The shortest-path search engine and its path reconstruction.
//!
//! The engine runs a breadth-first expansion from the source, one layer per
//! hop, recording each node's first discoverer in a [`FrontierSet`].  The
//! moment the destination is discovered, its depth is the true shortest hop
//! distance, and the parent chain is walked back to yield the path.  When a
//! layer comes up empty before the destination is seen, every node reachable
//! from the source has been visited and the destination is unreachable.

use vstd::prelude::*;
use vstd::seq_lib::seq_to_set_is_finite;

use crate::error::SearchError;
use crate::frontier::FrontierSet;
use crate::graph::Direction;
use crate::graph::Graph;
use crate::graph::Vertex;

verus! {

/// `q` is a directed walk in `g` from `s` to `t`: nonempty, starting at `s`,
/// ending at `t`, with an edge between each consecutive pair.
pub open spec fn is_walk(g: Graph, q: Seq<u32>, s: u32, t: u32) -> bool {
    &&& q.len() >= 1
    &&& q[0] == s
    &&& q[q.len() - 1] == t
    &&& forall|i: int| 0 <= i < q.len() - 1 ==> #[trigger] g.has_edge(q[i], q[i + 1])
}

/// Every walk in `g` from `s` to `t` carries at least `n` nodes.
pub open spec fn no_shorter_walk(g: Graph, s: u32, t: u32, n: nat) -> bool {
    forall|q: Seq<u32>| #[trigger] is_walk(g, q, s, t) ==> q.len() >= n
}

/// Following parent pointers in `m` from `node` reaches `root` within `fuel`
/// steps.
pub open spec fn chain_reaches(m: Map<u32, u32>, node: u32, root: u32, fuel: nat) -> bool
    decreases fuel,
{
    if node == root {
        true
    } else if fuel == 0 {
        false
    } else if !m.contains_key(node) {
        false
    } else {
        chain_reaches(m, m[node], root, (fuel - 1) as nat)
    }
}

/// A chain that reaches its root keeps reaching it with more fuel.
pub proof fn lemma_chain_fuel_mono(m: Map<u32, u32>, node: u32, root: u32, f1: nat, f2: nat)
    requires
        chain_reaches(m, node, root, f1),
        f1 <= f2,
    ensures
        chain_reaches(m, node, root, f2),
    decreases f1,
{
    if node != root {
        lemma_chain_fuel_mono(m, m[node], root, (f1 - 1) as nat, (f2 - 1) as nat);
    }
}

/// The visited map `vis` and depth assignment `depth` form a breadth-first
/// search tree of `g` rooted at `src`: the root points to itself at depth
/// zero, and every other visited node was discovered along an edge from its
/// parent, one hop deeper.
pub open spec fn search_tree(g: Graph, src: u32, vis: Map<u32, u32>, depth: Map<u32, nat>) -> bool {
    &&& vis.contains_key(src)
    &&& vis[src] == src
    &&& depth.dom() == vis.dom()
    &&& depth[src] == 0
    &&& forall|n: u32| #[trigger] vis.contains_key(n) ==> g.has_vertex(n)
    &&& forall|n: u32|
        #[trigger] vis.contains_key(n) && n != src ==> vis.contains_key(vis[n]) && g.has_edge(
            vis[n],
            n,
        ) && depth[vis[n]] + 1 == depth[n]
}

/// Every node visited strictly below depth `d` is fully expanded: each of
/// its forward neighbors is visited, at most one hop deeper.
pub open spec fn expanded_below(g: Graph, vis: Map<u32, u32>, depth: Map<u32, nat>, d: nat) -> bool {
    forall|n: u32, m: u32|
        vis.contains_key(n) && depth[n] < d && #[trigger] g.has_edge(n, m) ==> vis.contains_key(m)
            && depth[m] <= depth[n] + 1
}

/// All visited nodes lie at depth at most `d`.
pub open spec fn depth_bounded(vis: Map<u32, u32>, depth: Map<u32, nat>, d: nat) -> bool {
    forall|n: u32| #[trigger] vis.contains_key(n) ==> depth[n] <= d
}

/// `layer` holds exactly the visited nodes at depth `d`.
pub open spec fn is_layer(vis: Map<u32, u32>, depth: Map<u32, nat>, layer: Seq<u32>, d: nat) -> bool {
    &&& forall|i: int|
        0 <= i < layer.len() ==> vis.contains_key(#[trigger] layer[i]) && depth[layer[i]] == d
    &&& forall|n: u32| #[trigger] vis.contains_key(n) && depth[n] == d ==> layer.contains(n)
}

/// Any walk from the root of at most `d` hops ends at a visited node, no
/// deeper than the walk is long.
proof fn lemma_walk_visited(
    g: Graph,
    src: u32,
    vis: Map<u32, u32>,
    depth: Map<u32, nat>,
    d: nat,
    q: Seq<u32>,
)
    requires
        vis.contains_key(src),
        depth[src] == 0,
        expanded_below(g, vis, depth, d),
        q.len() >= 1,
        q[0] == src,
        forall|i: int| 0 <= i < q.len() - 1 ==> #[trigger] g.has_edge(q[i], q[i + 1]),
        q.len() - 1 <= d,
    ensures
        vis.contains_key(q[q.len() - 1]),
        depth[q[q.len() - 1]] <= q.len() - 1,
    decreases q.len(),
{
    if q.len() > 1 {
        let q0 = q.drop_last();
        assert(q0.len() == q.len() - 1);
        assert(q0[0] == src);
        assert forall|i: int| 0 <= i < q0.len() - 1 implies #[trigger] g.has_edge(
            q0[i],
            q0[i + 1],
        ) by {
            assert(q0[i] == q[i]);
            assert(q0[i + 1] == q[i + 1]);
            assert(g.has_edge(q[i], q[i + 1]));
        }
        lemma_walk_visited(g, src, vis, depth, d, q0);
        let pen = q[q.len() - 2];
        assert(q0[q0.len() - 1] == pen);
        assert(g.has_edge(q[q.len() - 2], q[q.len() - 2 + 1]));
        assert(depth[pen] <= q.len() - 2 < d);
        assert(vis.contains_key(q[q.len() - 1]) && depth[q[q.len() - 1]] <= depth[pen] + 1);
    }
}

/// A visited set that contains the start of a walk and is closed under
/// edges contains its end.
proof fn lemma_walk_stays(g: Graph, vis: Map<u32, u32>, q: Seq<u32>)
    requires
        q.len() >= 1,
        vis.contains_key(q[0]),
        forall|i: int| 0 <= i < q.len() - 1 ==> #[trigger] g.has_edge(q[i], q[i + 1]),
        forall|n: u32, m: u32|
            vis.contains_key(n) && #[trigger] g.has_edge(n, m) ==> vis.contains_key(m),
    ensures
        vis.contains_key(q[q.len() - 1]),
    decreases q.len(),
{
    if q.len() > 1 {
        let q0 = q.drop_last();
        assert forall|i: int| 0 <= i < q0.len() - 1 implies #[trigger] g.has_edge(
            q0[i],
            q0[i + 1],
        ) by {
            assert(q0[i] == q[i]);
            assert(q0[i + 1] == q[i + 1]);
            assert(g.has_edge(q[i], q[i + 1]));
        }
        lemma_walk_stays(g, vis, q0);
        assert(q0[q0.len() - 1] == q[q.len() - 2]);
        assert(g.has_edge(q[q.len() - 2], q[q.len() - 2 + 1]));
    }
}

/// From any visited node, the parent chain reaches the root in exactly its
/// depth many steps.
proof fn lemma_chain_from_tree(g: Graph, src: u32, vis: Map<u32, u32>, depth: Map<u32, nat>, n: u32)
    requires
        search_tree(g, src, vis, depth),
        vis.contains_key(n),
    ensures
        chain_reaches(vis, n, src, depth[n]),
    decreases depth[n],
{
    if n != src {
        lemma_chain_from_tree(g, src, vis, depth, vis[n]);
        lemma_chain_fuel_mono(vis, vis[n], src, depth[vis[n]], (depth[n] - 1) as nat);
    }
}

/// Along a reconstructed parent chain that starts at the root, the depth of
/// the `i`-th node is exactly `i`.
proof fn lemma_path_depths(
    g: Graph,
    src: u32,
    vis: Map<u32, u32>,
    depth: Map<u32, nat>,
    p: Seq<u32>,
    i: int,
)
    requires
        search_tree(g, src, vis, depth),
        p.len() >= 1,
        p[0] == src,
        forall|j: int|
            1 <= j < p.len() ==> vis.contains_key(#[trigger] p[j]) && vis[p[j]] == p[j - 1] && p[j]
                != src,
        0 <= i < p.len(),
    ensures
        vis.contains_key(p[i]),
        depth[p[i]] == i,
    decreases i,
{
    if i > 0 {
        lemma_path_depths(g, src, vis, depth, p, i - 1);
    }
}

/// A visited set of existing vertices is never larger than the vertex table.
proof fn lemma_visited_bounded(g: Graph, vis: Map<u32, u32>)
    requires
        vis.dom().finite(),
        forall|n: u32| #[trigger] vis.contains_key(n) ==> g.has_vertex(n),
    ensures
        vis.dom().len() <= g.vertices@.len(),
{
    broadcast use seq_to_set_is_finite;

    let ids = g.vertices@.map_values(|v: Vertex| v.id);
    let idset = ids.to_set();
    assert forall|n: u32| vis.dom().contains(n) implies idset.contains(n) by {
        assert(vis.contains_key(n));
        let i = choose|i: int|
            0 <= i < g.vertices@.len() && (#[trigger] g.vertices@[i]).id == n;
        assert(ids[i] == n);
        assert(ids.contains(n));
    }
    ids.lemma_cardinality_of_set();
    vstd::set_lib::lemma_len_subset(vis.dom(), idset);
}

/// Discovering a fresh neighbor `m` of a depth-`d` node extends the search
/// tree by one node at depth `d + 1` and preserves the round's invariants.
proof fn lemma_extend_tree(
    g: Graph,
    src: u32,
    vis: Map<u32, u32>,
    depth: Map<u32, nat>,
    d: nat,
    n: u32,
    m: u32,
    layer: Seq<u32>,
)
    requires
        search_tree(g, src, vis, depth),
        depth_bounded(vis, depth, (d + 1) as nat),
        expanded_below(g, vis, depth, d),
        is_layer(vis, depth, layer, d),
        vis.dom().finite(),
        vis.contains_key(n),
        depth[n] == d,
        g.has_edge(n, m),
        g.has_vertex(m),
        !vis.contains_key(m),
    ensures
        search_tree(g, src, vis.insert(m, n), depth.insert(m, (d + 1) as nat)),
        depth_bounded(vis.insert(m, n), depth.insert(m, (d + 1) as nat), (d + 1) as nat),
        expanded_below(g, vis.insert(m, n), depth.insert(m, (d + 1) as nat), d),
        is_layer(vis.insert(m, n), depth.insert(m, (d + 1) as nat), layer, d),
        vis.insert(m, n).dom().finite(),
        vis.insert(m, n).dom().len() == vis.dom().len() + 1,
{
    let vis2 = vis.insert(m, n);
    let depth2 = depth.insert(m, (d + 1) as nat);
    assert(m != src);
    assert(depth2.dom() =~= vis2.dom());
    assert forall|x: u32| #[trigger] vis2.contains_key(x) implies g.has_vertex(x) by {
        if x != m {
            assert(vis.contains_key(x));
        }
    }
    assert forall|x: u32| #[trigger] vis2.contains_key(x) && x != src implies vis2.contains_key(
        vis2[x],
    ) && g.has_edge(vis2[x], x) && depth2[vis2[x]] + 1 == depth2[x] by {
        if x == m {
            assert(vis2[m] == n);
            assert(n != m);
            assert(depth2[n] == depth[n]);
        } else {
            assert(vis.contains_key(x));
            assert(vis.contains_key(vis[x]));
            assert(vis[x] != m);
            assert(vis2[x] == vis[x]);
        }
    }
    assert forall|x: u32| #[trigger] vis2.contains_key(x) implies depth2[x] <= d + 1 by {
        if x != m {
            assert(vis.contains_key(x));
        }
    }
    assert forall|a: u32, b: u32|
        vis2.contains_key(a) && depth2[a] < d && #[trigger] g.has_edge(a, b) implies vis2.contains_key(
        b,
    ) && depth2[b] <= depth2[a] + 1 by {
        if a != m {
            assert(vis.contains_key(a) && depth[a] < d);
            assert(vis.contains_key(b) && depth[b] <= depth[a] + 1);
            assert(b != m);
        }
    }
    assert forall|i: int|
        0 <= i < layer.len() implies vis2.contains_key(#[trigger] layer[i]) && depth2[layer[i]]
        == d by {
        assert(vis.contains_key(layer[i]));
        assert(layer[i] != m);
    }
    assert forall|x: u32| #[trigger] vis2.contains_key(x) && depth2[x] == d implies layer.contains(
        x,
    ) by {
        if x == m {
            assert(depth2[m] == d + 1);
        } else {
            assert(vis.contains_key(x) && depth[x] == d);
        }
    }
    assert(vis2.dom() =~= vis.dom().insert(m));
}

/// Once every enumerated neighbor of `node` is visited at depth `d + 1` or
/// less, every edge out of `node` leads to such a node.
proof fn lemma_node_expanded(
    g: Graph,
    vis: Map<u32, u32>,
    depth: Map<u32, nat>,
    node: u32,
    ns: Seq<u32>,
    d: nat,
)
    requires
        forall|m: u32| #[trigger] ns.contains(m) <==> g.has_edge(node, m),
        forall|k: int|
            0 <= k < ns.len() ==> vis.contains_key(#[trigger] ns[k]) && depth[ns[k]] <= d + 1,
    ensures
        forall|m: u32|
            #[trigger] g.has_edge(node, m) ==> vis.contains_key(m) && depth[m] <= d + 1,
{
    assert forall|m: u32| #[trigger] g.has_edge(node, m) implies vis.contains_key(m) && depth[m]
        <= d + 1 by {
        assert(ns.contains(m));
        let k = choose|k: int| 0 <= k < ns.len() && ns[k] == m;
        assert(vis.contains_key(ns[k]) && depth[ns[k]] <= d + 1);
    }
}

/// Once every node of the depth-`d` layer has been expanded, every visited
/// node strictly below depth `d + 1` is fully expanded.
proof fn lemma_round_complete(
    g: Graph,
    vis: Map<u32, u32>,
    depth: Map<u32, nat>,
    layer: Seq<u32>,
    d: nat,
)
    requires
        expanded_below(g, vis, depth, d),
        forall|n: u32| #[trigger] vis.contains_key(n) && depth[n] == d ==> layer.contains(n),
        forall|k: int, m: u32|
            0 <= k < layer.len() && #[trigger] g.has_edge(layer[k], m) ==> vis.contains_key(m)
                && depth[m] <= d + 1,
    ensures
        expanded_below(g, vis, depth, (d + 1) as nat),
{
    assert forall|a: u32, b: u32|
        vis.contains_key(a) && depth[a] < d + 1 && #[trigger] g.has_edge(a, b)
        implies vis.contains_key(b) && depth[b] <= depth[a] + 1 by {
        if depth[a] == d {
            assert(layer.contains(a));
            let k = choose|k: int| 0 <= k < layer.len() && layer[k] == a;
            assert(g.has_edge(layer[k], b));
        } else {
            assert(depth[a] < d);
        }
    }
}

/// A reconstructed parent chain from the source to a destination discovered
/// at depth `d + 1` is a shortest walk: it is a walk, repeats no node, has
/// exactly `d + 2` nodes, and no walk between the two endpoints is shorter.
proof fn lemma_found_path(
    g: Graph,
    src: u32,
    dst: u32,
    vis: Map<u32, u32>,
    depth: Map<u32, nat>,
    d: nat,
    p: Seq<u32>,
)
    requires
        search_tree(g, src, vis, depth),
        expanded_below(g, vis, depth, d),
        vis.contains_key(dst),
        depth[dst] == d + 1,
        p.len() >= 1,
        p[0] == src,
        p[p.len() - 1] == dst,
        forall|j: int|
            1 <= j < p.len() ==> vis.contains_key(#[trigger] p[j]) && vis[p[j]] == p[j - 1] && p[j]
                != src,
    ensures
        is_walk(g, p, src, dst),
        p.no_duplicates(),
        p.len() == d + 2,
        no_shorter_walk(g, src, dst, p.len()),
{
    assert forall|i: int| 0 <= i < p.len() - 1 implies #[trigger] g.has_edge(p[i], p[i + 1]) by {
        assert(vis.contains_key(p[i + 1]));
        assert(vis[p[i + 1]] == p[i]);
        assert(p[i + 1] != src);
    }
    assert(is_walk(g, p, src, dst));
    assert forall|i: int, j: int|
        0 <= i < p.len() && 0 <= j < p.len() && i != j implies p[i] != p[j] by {
        lemma_path_depths(g, src, vis, depth, p, i);
        lemma_path_depths(g, src, vis, depth, p, j);
    }
    assert(p.no_duplicates());
    lemma_path_depths(g, src, vis, depth, p, p.len() - 1);
    assert(p.len() == d + 2);
    assert forall|q: Seq<u32>| #[trigger] is_walk(g, q, src, dst) implies q.len() >= p.len() by {
        if q.len() < p.len() {
            lemma_walk_visited(g, src, vis, depth, d, q);
            assert(depth[q[q.len() - 1]] <= q.len() - 1);
            assert(false);
        }
    }
}

/// When every visited node has been fully expanded and the destination was
/// never seen, no walk joins the source to the destination.
proof fn lemma_exhausted(
    g: Graph,
    src: u32,
    dst: u32,
    vis: Map<u32, u32>,
    depth: Map<u32, nat>,
    d: nat,
)
    requires
        vis.contains_key(src),
        depth_bounded(vis, depth, d),
        expanded_below(g, vis, depth, d),
        forall|n: u32| #[trigger] vis.contains_key(n) ==> depth[n] != d,
        !vis.contains_key(dst),
    ensures
        forall|q: Seq<u32>| !is_walk(g, q, src, dst),
{
    assert forall|n: u32, m: u32|
        vis.contains_key(n) && #[trigger] g.has_edge(n, m) implies vis.contains_key(m) by {
        assert(depth[n] <= d && depth[n] != d);
    }
    assert forall|q: Seq<u32>| !is_walk(g, q, src, dst) by {
        if is_walk(g, q, src, dst) {
            lemma_walk_stays(g, vis, q);
            assert(vis.contains_key(dst));
            assert(false);
        }
    }
}

/// Walk parent pointers in `f` from `node` back to `root` and return the
/// node sequence in root-to-node order.  Fails with `InternalInconsistency`
/// when the chain does not reach `root` within `bound` steps — a defense
/// against corrupted search state; the engine always passes a bound at least
/// as large as the visited count, which the chain can never need to exceed.
pub fn reconstruct_path(f: &FrontierSet, root: u32, node: u32, bound: usize) -> (r: Result<
    Vec<u32>,
    SearchError,
>)
    ensures
        r is Ok <==> chain_reaches(f@, node, root, bound as nat),
        match r {
            Ok(p) => {
                &&& p@.len() >= 1
                &&& p@[0] == root
                &&& p@[p@.len() - 1] == node
                &&& forall|j: int|
                    1 <= j < p@.len() ==> f@.contains_key(#[trigger] p@[j]) && f@[p@[j]] == p@[j
                        - 1] && p@[j] != root
            },
            Err(e) => e == SearchError::InternalInconsistency,
        },
{
    let mut rev: Vec<u32> = Vec::new();
    rev.push(node);
    let mut cur: u32 = node;
    let mut steps: usize = 0;
    while cur != root
        invariant
            steps <= bound,
            rev@.len() == steps + 1,
            rev@[0] == node,
            rev@[rev@.len() - 1] == cur,
            forall|j: int|
                0 <= j < rev@.len() - 1 ==> f@.contains_key(#[trigger] rev@[j]) && f@[rev@[j]]
                    == rev@[j + 1] && rev@[j] != root,
            chain_reaches(f@, node, root, bound as nat) == chain_reaches(
                f@,
                cur,
                root,
                (bound - steps) as nat,
            ),
        decreases bound - steps,
    {
        if steps == bound {
            assert(!chain_reaches(f@, cur, root, 0));
            return Err(SearchError::InternalInconsistency);
        }
        match f.parent_of(cur) {
            None => {
                assert(!chain_reaches(f@, cur, root, (bound - steps) as nat));
                return Err(SearchError::InternalInconsistency);
            },
            Some(p) => {
                assert(chain_reaches(f@, cur, root, (bound - steps) as nat) == chain_reaches(
                    f@,
                    p,
                    root,
                    (bound - steps - 1) as nat,
                ));
                let ghost old_rev = rev@;
                rev.push(p);
                proof {
                    assert(rev@ == old_rev.push(p));
                    assert forall|j: int|
                        0 <= j < rev@.len() - 1 implies f@.contains_key(#[trigger] rev@[j])
                        && f@[rev@[j]] == rev@[j + 1] && rev@[j] != root by {
                        if j < old_rev.len() - 1 {
                            assert(rev@[j] == old_rev[j]);
                            assert(rev@[j + 1] == old_rev[j + 1]);
                        } else {
                            assert(rev@[j] == cur);
                            assert(rev@[j + 1] == p);
                        }
                    }
                }
                cur = p;
                steps = steps + 1;
            },
        }
    }
    let n = rev.len();
    let mut path: Vec<u32> = Vec::new();
    let mut i: usize = 0;
    while i < n
        invariant
            n == rev@.len(),
            i <= n,
            path@.len() == i,
            forall|j: int| 0 <= j < i ==> #[trigger] path@[j] == rev@[n - 1 - j],
        decreases n - i,
    {
        path.push(rev[n - 1 - i]);
        i = i + 1;
    }
    proof {
        assert(path@[0] == rev@[n - 1]);
        assert(path@[path@.len() - 1] == rev@[0]);
        assert forall|j: int|
            1 <= j < path@.len() implies f@.contains_key(#[trigger] path@[j]) && f@[path@[j]]
            == path@[j - 1] && path@[j] != root by {
            let k = n - 1 - j;
            assert(path@[j] == rev@[k]);
            assert(path@[j - 1] == rev@[k + 1]);
            assert(f@.contains_key(rev@[k]) && f@[rev@[k]] == rev@[k + 1] && rev@[k] != root);
        }
    }
    Ok(path)
}

/// Expand one node of the current depth-`d` layer: record every forward
/// neighbor not yet visited at depth `d + 1`, appending it to the next
/// layer.  When the destination is among the fresh neighbors, stop at once
/// and hand back the finished shortest path instead.
#[verifier::rlimit(100)]
fn expand_node(
    g: &Graph,
    frontier: &mut FrontierSet,
    next_layer: &mut Vec<u32>,
    src: u32,
    dst: u32,
    node: u32,
    Ghost(layer): Ghost<Seq<u32>>,
    Ghost(d): Ghost<nat>,
    Ghost(depth0): Ghost<Map<u32, nat>>,
) -> (res: (Option<Vec<u32>>, Ghost<Map<u32, nat>>))
    requires
        g.wf(),
        g.has_vertex(src),
        g.has_vertex(dst),
        src != dst,
        search_tree(*g, src, old(frontier)@, depth0),
        depth_bounded(old(frontier)@, depth0, (d + 1) as nat),
        expanded_below(*g, old(frontier)@, depth0, d),
        is_layer(old(frontier)@, depth0, layer, d),
        is_layer(old(frontier)@, depth0, old(next_layer)@, (d + 1) as nat),
        !old(frontier)@.contains_key(dst),
        old(frontier)@.dom().finite(),
        old(frontier)@.dom().len() <= g.vertices@.len(),
        d + 1 + old(next_layer)@.len() <= old(frontier)@.dom().len(),
        layer.contains(node),
    ensures
        ({
            let depth1 = res.1@;
            match res.0 {
                Some(p) => is_walk(*g, p@, src, dst) && p@.no_duplicates() && no_shorter_walk(
                    *g,
                    src,
                    dst,
                    p@.len(),
                ),
                None => {
                    &&& search_tree(*g, src, final(frontier)@, depth1)
                    &&& depth_bounded(final(frontier)@, depth1, (d + 1) as nat)
                    &&& expanded_below(*g, final(frontier)@, depth1, d)
                    &&& is_layer(final(frontier)@, depth1, layer, d)
                    &&& is_layer(final(frontier)@, depth1, final(next_layer)@, (d + 1) as nat)
                    &&& !final(frontier)@.contains_key(dst)
                    &&& final(frontier)@.dom().finite()
                    &&& final(frontier)@.dom().len() <= g.vertices@.len()
                    &&& final(frontier)@.dom().len() + old(next_layer)@.len()
                        == old(frontier)@.dom().len() + final(next_layer)@.len()
                    &&& forall|x: u32|
                        #[trigger] old(frontier)@.contains_key(x)
                            ==> final(frontier)@.contains_key(x) && depth1[x] == depth0[x]
                    &&& forall|m: u32|
                        #[trigger] g.has_edge(node, m) ==> final(frontier)@.contains_key(m)
                            && depth1[m] <= d + 1
                },
            }
        }),
{
    let ghost mut depth: Map<u32, nat> = depth0;
    proof {
        let i = choose|i: int| 0 <= i < layer.len() && layer[i] == node;
        assert(frontier@.contains_key(layer[i]));
    }
    let ns = g.neighbors(node, Direction::Forward);
    let mut ni: usize = 0;
    while ni < ns.len()
        invariant
            g.wf(),
            g.has_vertex(src),
            g.has_vertex(dst),
            src != dst,
            ni <= ns@.len(),
            frontier@.contains_key(node),
            depth[node] == d,
            forall|m: u32| #[trigger] ns@.contains(m) <==> g.has_edge(node, m),
            forall|i: int| 0 <= i < ns@.len() ==> g.has_vertex(#[trigger] ns@[i]),
            search_tree(*g, src, frontier@, depth),
            depth_bounded(frontier@, depth, (d + 1) as nat),
            expanded_below(*g, frontier@, depth, d),
            is_layer(frontier@, depth, layer, d),
            is_layer(frontier@, depth, next_layer@, (d + 1) as nat),
            !frontier@.contains_key(dst),
            frontier@.dom().finite(),
            frontier@.dom().len() + old(next_layer)@.len() == old(frontier)@.dom().len()
                + next_layer@.len(),
            frontier@.dom().len() <= g.vertices@.len(),
            d + 1 + old(next_layer)@.len() <= old(frontier)@.dom().len(),
            forall|x: u32|
                #[trigger] old(frontier)@.contains_key(x) ==> frontier@.contains_key(x)
                    && depth[x] == depth0[x],
            forall|k: int|
                0 <= k < ni ==> frontier@.contains_key(#[trigger] ns@[k]) && depth[ns@[k]] <= d
                    + 1,
        decreases ns@.len() - ni,
    {
        let m = ns[ni];
        let ghost pre_vis = frontier@;
        let ghost pre_depth = depth;
        let added = frontier.add_if_new(m, node);
        if added {
            proof {
                assert(ns@[ni as int] == m);
                assert(ns@.contains(m));
                assert(g.has_edge(node, m));
                assert(g.has_vertex(m)) by {
                    assert(g.has_vertex(ns@[ni as int]));
                }
                lemma_extend_tree(*g, src, pre_vis, pre_depth, d, node, m, layer);
                depth = pre_depth.insert(m, (d + 1) as nat);
                lemma_visited_bounded(*g, frontier@);
            }
            let ghost old_nl = next_layer@;
            next_layer.push(m);
            proof {
                assert(next_layer@ == old_nl.push(m));
                assert(next_layer@[next_layer@.len() - 1] == m);
                assert forall|x: u32|
                    #[trigger] frontier@.contains_key(x) && depth[x] == d + 1
                    implies next_layer@.contains(x) by {
                    if x == m {
                        assert(next_layer@[next_layer@.len() - 1] == x);
                    } else {
                        assert(pre_vis.contains_key(x) && pre_depth[x] == d + 1);
                        assert(old_nl.contains(x));
                        let i = choose|i: int| 0 <= i < old_nl.len() && old_nl[i] == x;
                        assert(next_layer@[i] == x);
                    }
                }
                assert forall|k: int|
                    0 <= k < ni implies frontier@.contains_key(#[trigger] ns@[k])
                    && depth[ns@[k]] <= d + 1 by {
                    assert(pre_vis.contains_key(ns@[k]) && pre_depth[ns@[k]] <= d + 1);
                    assert(ns@[k] != m);
                }
            }
            if m == dst {
                let bound = frontier.len();
                proof {
                    lemma_chain_from_tree(*g, src, frontier@, depth, dst);
                    assert(depth[dst] == d + 1);
                    assert(bound >= d + 2);
                    lemma_chain_fuel_mono(frontier@, dst, src, (d + 1) as nat, bound as nat);
                }
                match reconstruct_path(&frontier, src, dst, bound) {
                    Ok(p) => {
                        proof {
                            lemma_found_path(*g, src, dst, frontier@, depth, d, p@);
                        }
                        return (Some(p), Ghost(depth));
                    },
                    Err(_) => {
                        proof {
                            assert(false);
                        }
                        return (None, Ghost(depth));
                    },
                }
            }
        }
        ni = ni + 1;
    }
    proof {
        lemma_node_expanded(*g, frontier@, depth, node, ns@, d);
    }
    (None, Ghost(depth))
}

/// Shortest-path search between two vertex ids.
///
/// Breadth-first expansion from the source, one hop per round: when the
/// destination is discovered, the path returned has the fewest hops any walk
/// from source to destination can have; when a round turns up no new node
/// first, every node reachable from the source has been visited and the
/// destination is unreachable.  A search of a node for itself returns the
/// single-node path without looking at any edge.
#[verifier::rlimit(100)]
pub fn search_ids(g: &Graph, src: u32, dst: u32) -> (r: Result<Vec<u32>, SearchError>)
    requires
        g.wf(),
        g.has_vertex(src),
        g.has_vertex(dst),
    ensures
        match r {
            Ok(p) => is_walk(*g, p@, src, dst) && p@.no_duplicates() && no_shorter_walk(
                *g,
                src,
                dst,
                p@.len(),
            ),
            Err(e) => e == SearchError::Unreachable && (forall|q: Seq<u32>|
                !is_walk(*g, q, src, dst)),
        },
{
    if src == dst {
        let mut p: Vec<u32> = Vec::new();
        p.push(src);
        proof {
            assert(p@[0] == src);
            assert(is_walk(*g, p@, src, dst));
        }
        return Ok(p);
    }
    let mut frontier = FrontierSet::new();
    let _added = frontier.add_if_new(src, src);
    let ghost mut depth: Map<u32, nat> = Map::<u32, nat>::empty().insert(src, 0);
    let mut layer: Vec<u32> = Vec::new();
    layer.push(src);
    let ghost mut d: nat = 0;
    proof {
        frontier.lemma_dom_finite();
        assert(frontier@ == Map::<u32, u32>::empty().insert(src, src));
        assert(depth.dom() =~= frontier@.dom());
        assert(frontier@.dom() =~= Set::<u32>::empty().insert(src));
        assert(frontier@.dom().len() == 1);
        assert forall|n: u32| #[trigger] frontier@.contains_key(n) implies g.has_vertex(n) by {
            assert(n == src);
        }
        lemma_visited_bounded(*g, frontier@);
        assert(layer@[0] == src);
        assert(layer@.contains(src));
    }
    while layer.len() > 0
        invariant
            g.wf(),
            g.has_vertex(src),
            g.has_vertex(dst),
            src != dst,
            search_tree(*g, src, frontier@, depth),
            depth_bounded(frontier@, depth, d),
            expanded_below(*g, frontier@, depth, d),
            is_layer(frontier@, depth, layer@, d),
            !frontier@.contains_key(dst),
            frontier@.dom().finite(),
            frontier@.dom().len() <= g.vertices@.len(),
            layer@.len() > 0 ==> d + 1 <= frontier@.dom().len(),
        decreases g.vertices@.len() - frontier@.dom().len() + layer@.len(),
    {
        let ghost start_count = frontier@.dom().len();
        let mut next_layer: Vec<u32> = Vec::new();
        let mut li: usize = 0;
        while li < layer.len()
            invariant
                g.wf(),
                g.has_vertex(src),
                g.has_vertex(dst),
                src != dst,
                li <= layer@.len(),
                search_tree(*g, src, frontier@, depth),
                depth_bounded(frontier@, depth, (d + 1) as nat),
                expanded_below(*g, frontier@, depth, d),
                is_layer(frontier@, depth, layer@, d),
                is_layer(frontier@, depth, next_layer@, (d + 1) as nat),
                !frontier@.contains_key(dst),
                frontier@.dom().finite(),
                frontier@.dom().len() == start_count + next_layer@.len(),
                frontier@.dom().len() <= g.vertices@.len(),
                d + 1 <= start_count,
                forall|k: int, m: u32|
                    0 <= k < li && #[trigger] g.has_edge(layer@[k], m)
                        ==> frontier@.contains_key(m) && depth[m] <= d + 1,
            decreases layer@.len() - li,
        {
            let node = layer[li];
            let ghost pre_vis = frontier@;
            let ghost pre_depth = depth;
            proof {
                assert(layer@[li as int] == node);
                assert(layer@.contains(node));
            }
            let (found, Ghost(depth1)) = expand_node(
                g,
                &mut frontier,
                &mut next_layer,
                src,
                dst,
                node,
                Ghost(layer@),
                Ghost(d),
                Ghost(depth),
            );
            proof {
                depth = depth1;
            }
            match found {
                Some(p) => {
                    return Ok(p);
                },
                None => {},
            }
            proof {
                assert forall|k: int, m2: u32|
                    0 <= k < li + 1 && #[trigger] g.has_edge(layer@[k], m2)
                    implies frontier@.contains_key(m2) && depth[m2] <= d + 1 by {
                    if k < li {
                        assert(pre_vis.contains_key(m2) && pre_depth[m2] <= d + 1);
                    } else {
                        assert(layer@[k] == node);
                    }
                }
            }
            li = li + 1;
        }
        proof {
            lemma_round_complete(*g, frontier@, depth, layer@, d);
            d = d + 1;
        }
        layer = next_layer;
    }
    proof {
        assert forall|n: u32| #[trigger] frontier@.contains_key(n) implies depth[n] != d by {
            if depth[n] == d {
                assert(layer@.contains(n));
                assert(false);
            }
        }
        lemma_exhausted(*g, src, dst, frontier@, depth, d);
    }
    Err(SearchError::Unreachable)
}

/// A search of a node for itself can only answer the one-node path: any
/// result meeting the success contract of `search_ids` — a walk from `s` to
/// `s` no longer than every walk — is exactly `seq![s]`, a path of zero
/// hops.
pub proof fn lemma_self_search_single(g: Graph, s: u32, p: Seq<u32>)
    requires
        is_walk(g, p, s, s),
        no_shorter_walk(g, s, s, p.len()),
    ensures
        p =~= seq![s],
{
    let w = seq![s];
    assert(w[0] == s && w[w.len() - 1] == s);
    assert(is_walk(g, w, s, s));
    assert(w.len() >= p.len());
    assert(p.len() == 1);
}

/// Render a path of vertex ids as their titles, in order.  Fails with
/// `NotFound` exactly when some id on the path is not a stored vertex.
pub fn path_titles(g: &Graph, path: &Vec<u32>) -> (r: Result<Vec<String>, SearchError>)
    ensures
        r is Ok <==> (forall|i: int| 0 <= i < path@.len() ==> g.has_vertex(#[trigger] path@[i])),
        match r {
            Ok(ts) => ts@.len() == path@.len() && (forall|i: int|
                0 <= i < path@.len() ==> g.titled(path@[i], #[trigger] ts@[i]@)),
            Err(e) => e == SearchError::NotFound,
        },
{
    let mut ts: Vec<String> = Vec::new();
    let mut i: usize = 0;
    while i < path.len()
        invariant
            i <= path@.len(),
            ts@.len() == i,
            forall|j: int| 0 <= j < i ==> g.has_vertex(#[trigger] path@[j]),
            forall|j: int| 0 <= j < i ==> g.titled(path@[j], #[trigger] ts@[j]@),
        decreases path@.len() - i,
    {
        match g.title_of(path[i]) {
            Ok(t) => {
                ts.push(t);
            },
            Err(e) => {
                assert(!g.has_vertex(path@[i as int]));
                return Err(e);
            },
        }
        i = i + 1;
    }
    Ok(ts)
}

/// Full search by article titles: resolve both titles, find a shortest path
/// between the two vertices, and render it back to titles.
///
/// `NotFound` comes back exactly when either title is absent; `Unreachable`
/// exactly when both titles are stored but no directed walk joins them; and
/// a title sequence exactly when both are stored and some walk joins them —
/// the titles then spell a shortest walk, source first, destination last.
pub fn search(g: &Graph, source_title: &str, dest_title: &str) -> (r: Result<
    Vec<String>,
    SearchError,
>)
    requires
        g.wf(),
    ensures
        ({
            let sid = g.title_id(source_title@);
            let did = g.title_id(dest_title@);
            match r {
                Ok(ts) => {
                    &&& g.has_title(source_title@)
                    &&& g.has_title(dest_title@)
                    &&& exists|p: Seq<u32>|
                        {
                            &&& #[trigger] is_walk(*g, p, sid, did)
                            &&& p.no_duplicates()
                            &&& no_shorter_walk(*g, sid, did, p.len())
                            &&& ts@.len() == p.len()
                            &&& forall|i: int| 0 <= i < p.len() ==> g.titled(p[i], #[trigger] ts@[i]@)
                        }
                },
                Err(e) => {
                    &&& e != SearchError::InternalInconsistency
                    &&& (e == SearchError::NotFound <==> (!g.has_title(source_title@)
                        || !g.has_title(dest_title@)))
                    &&& (e == SearchError::Unreachable ==> (forall|q: Seq<u32>|
                        !is_walk(*g, q, sid, did)))
                },
            }
        }),
{
    let sid = match g.resolve_title(source_title) {
        Ok(id) => id,
        Err(e) => {
            return Err(e);
        },
    };
    let did = match g.resolve_title(dest_title) {
        Ok(id) => id,
        Err(e) => {
            return Err(e);
        },
    };
    proof {
        crate::graph::lemma_title_id(*g, source_title@);
        crate::graph::lemma_titled_unique(*g, source_title@, sid, g.title_id(source_title@));
        crate::graph::lemma_title_id(*g, dest_title@);
        crate::graph::lemma_titled_unique(*g, dest_title@, did, g.title_id(dest_title@));
        assert(g.has_vertex(sid)) by {
            let i = choose|i: int|
                0 <= i < g.vertices@.len() && (#[trigger] g.vertices@[i]).id == sid
                    && g.vertices@[i].title@ == source_title@;
            assert(g.vertices@[i].id == sid);
        }
        assert(g.has_vertex(did)) by {
            let i = choose|i: int|
                0 <= i < g.vertices@.len() && (#[trigger] g.vertices@[i]).id == did
                    && g.vertices@[i].title@ == dest_title@;
            assert(g.vertices@[i].id == did);
        }
    }
    match search_ids(g, sid, did) {
        Ok(p) => {
            proof {
                assert forall|i: int| 0 <= i < p@.len() implies g.has_vertex(
                    #[trigger] p@[i],
                ) by {
                    if i < p@.len() - 1 {
                        assert(g.has_edge(p@[i], p@[i + 1]));
                        let k = choose|k: int|
                            0 <= k < g.edges@.len() && (#[trigger] g.edges@[k]).source_vertex_id
                                == p@[i] && g.edges@[k].dest_vertex_id == p@[i + 1];
                        assert(g.has_vertex(g.edges@[k].source_vertex_id));
                    } else if i >= 1 {
                        assert(g.has_edge(p@[i - 1], p@[i - 1 + 1]));
                        let k = choose|k: int|
                            0 <= k < g.edges@.len() && (#[trigger] g.edges@[k]).source_vertex_id
                                == p@[i - 1] && g.edges@[k].dest_vertex_id == p@[i];
                        assert(g.has_vertex(g.edges@[k].dest_vertex_id));
                    } else {
                        assert(p@[i] == sid);
                    }
                }
            }
            match path_titles(g, &p) {
                Ok(ts) => {
                    proof {
                        assert(is_walk(*g, p@, sid, did));
                    }
                    Ok(ts)
                },
                Err(_) => {
                    proof {
                        assert(false);
                    }
                    Err(SearchError::InternalInconsistency)
                },
            }
        },
        Err(e) => {
            Err(e)
        },
    }
}

} // verus!
