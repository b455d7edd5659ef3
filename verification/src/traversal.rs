//! Breadth-first and depth-first traversal over a graph, producing the
//! discovery order, the traversal-tree edges, and (for BFS) per-vertex
//! distances and the eccentricity from the source.

use crate::{Graph, Node};
use vstd::prelude::*;

verus! {

/// Rejections raised while traversing a graph.
#[derive(Debug)]
pub enum TraversalError {
    VertexNotFound,
}

/// `p` walks through `g`: nonempty, every step in range, consecutive
/// vertices adjacent.
pub open spec fn is_path<T>(g: Graph<T>, p: Seq<int>) -> bool {
    &&& p.len() >= 1
    &&& forall|k: int| 0 <= k < p.len() ==> 0 <= #[trigger] p[k] < g.order()
    &&& forall|k: int| 0 <= k < p.len() - 1 ==> g.adj(#[trigger] p[k], p[k + 1])
}

/// Some path of `g` leads from vertex slot `i` to vertex slot `j`.
pub open spec fn reachable<T>(g: Graph<T>, i: int, j: int) -> bool {
    exists|p: Seq<int>| is_path(g, p) && p.first() == i && p.last() == j
}

/// The index sequence holds the vertex slot `v`.
pub open spec fn seq_has(s: Seq<usize>, v: int) -> bool {
    exists|k: int| 0 <= k < s.len() && #[trigger] s[k] as int == v
}

/// The `k`-th discovery (for `k >= 1`) was made from a vertex discovered
/// earlier: the recorded tree edge leaves some previous entry of `ord`.
pub open spec fn parent_known(ord: Seq<usize>, edges: Seq<(usize, usize)>, k: int) -> bool {
    exists|m: int| 0 <= m < k && #[trigger] ord[m] == edges[k - 1].0
}

/// As `parent_known`, and the `k`-th distance is one more than the parent's:
/// each vertex sits one layer below its tree parent.
pub open spec fn parent_link(
    ord: Seq<usize>,
    dist: Seq<usize>,
    edges: Seq<(usize, usize)>,
    k: int,
) -> bool {
    exists|m: int| 0 <= m < k && #[trigger] ord[m] == edges[k - 1].0 && dist[k] == dist[m] + 1
}

/// Every neighbour of vertex slot `x` has been discovered.
pub open spec fn row_absorbed<T>(g: Graph<T>, ord: Seq<usize>, x: int) -> bool {
    forall|j: int| 0 <= j < g.order() && #[trigger] g.adj(x, j) ==> seq_has(ord, j)
}

/// What any single-source traversal of the connected component of `s`
/// guarantees: the discovery order `ord` starts at `s`, visits each vertex
/// at most once, visits exactly the vertices reachable from `s`, and `edges`
/// records, aligned with the discoveries, one tree edge from an earlier
/// discovered vertex to each later one.
pub open spec fn traversal_ok<T>(
    g: Graph<T>,
    s: int,
    ord: Seq<usize>,
    edges: Seq<(usize, usize)>,
) -> bool {
    &&& ord.len() >= 1
    &&& ord[0] as int == s
    &&& forall|k: int| 0 <= k < ord.len() ==> (#[trigger] ord[k]) < g.order()
    &&& forall|k1: int, k2: int| 0 <= k1 < k2 < ord.len() ==> ord[k1] != ord[k2]
    &&& edges.len() == ord.len() - 1
    &&& forall|k: int| 1 <= k < ord.len() ==> ((#[trigger] edges[k - 1]).1 == ord[k])
    &&& forall|k: int|
        0 <= k < edges.len() ==> g.adj((#[trigger] edges[k]).0 as int, edges[k].1 as int)
    &&& forall|k: int| 0 <= k < edges.len() ==> ((#[trigger] edges[k]).0 < g.order())
    &&& forall|k: int| 1 <= k < ord.len() ==> #[trigger] parent_known(ord, edges, k)
    &&& forall|j: int|
        0 <= j < g.order() ==> ((#[trigger] reachable(g, s, j)) <==> (#[trigger] seq_has(ord, j)))
}

/// What the BFS distance column guarantees: one distance per discovered
/// vertex, `0` for the source, and each later vertex one more than its
/// recorded tree parent — its depth in the produced spanning tree.
pub open spec fn bfs_distances_ok(
    ord: Seq<usize>,
    dist: Seq<usize>,
    edges: Seq<(usize, usize)>,
) -> bool {
    &&& dist.len() == ord.len()
    &&& dist[0] == 0
    &&& forall|k: int| 0 <= k < dist.len() ==> (#[trigger] dist[k]) <= k
    &&& forall|k: int| 1 <= k < ord.len() ==> #[trigger] parent_link(ord, dist, edges, k)
}

/// Appending one index keeps every held index and adds the new one.
pub proof fn lemma_seq_has_push(s: Seq<usize>, v: usize)
    ensures
        seq_has(s.push(v), v as int),
        forall|j: int| seq_has(s, j) ==> #[trigger] seq_has(s.push(v), j),
        forall|j: int| #[trigger] seq_has(s.push(v), j) && j != v as int ==> seq_has(s, j),
{
    let s2 = s.push(v);
    assert(s2[s.len() as int] as int == v as int);
    assert(seq_has(s2, v as int));
    assert forall|j: int| seq_has(s, j) implies #[trigger] seq_has(s2, j) by {
        let k = choose|k: int| 0 <= k < s.len() && #[trigger] s[k] as int == j;
        assert(s2[k] as int == j);
    }
    assert forall|j: int| #[trigger] seq_has(s2, j) && j != v as int implies seq_has(s, j) by {
        let k = choose|k: int| 0 <= k < s2.len() && #[trigger] s2[k] as int == j;
        assert(k < s.len());
        assert(s[k] as int == j);
    }
}

/// What makes a traversal order genuinely breadth-first, over the witness
/// column `pm` of parent positions (`pm[k]` is the discovery position of
/// the vertex that contributed the `k`-th tree edge): vertices leave the
/// queue in discovery order, so parents are used in nondecreasing position
/// order; each vertex hangs below its earliest discovered-and-processed
/// neighbour; and one vertex's children are discovered in ascending slot
/// order. Together with the visited set these clauses pin the whole
/// discovery order.
pub open spec fn bfs_order_ok<T>(
    g: Graph<T>,
    ord: Seq<usize>,
    dist: Seq<usize>,
    edges: Seq<(usize, usize)>,
    pm: Seq<int>,
) -> bool {
    &&& pm.len() == edges.len()
    &&& forall|k: int|
        0 <= k < pm.len() ==> 0 <= #[trigger] pm[k] <= k && pm[k] < ord.len() && ord[pm[k]]
            == edges[k].0 && dist[k + 1] == dist[pm[k]] + 1
    &&& forall|k1: int, k2: int|
        0 <= k1 < k2 < pm.len() ==> #[trigger] pm[k1] <= #[trigger] pm[k2]
    &&& forall|k: int, m: int|
        0 <= k < pm.len() && 0 <= m < #[trigger] pm[k] ==> !g.adj(
            (#[trigger] ord[m]) as int,
            ord[k + 1] as int,
        )
    &&& forall|k1: int, k2: int|
        0 <= k1 < k2 < pm.len() && #[trigger] pm[k1] == #[trigger] pm[k2] ==> edges[k1].1
            < edges[k2].1
}

/// Reaching a vertex is reflexive on the vertex set.
pub proof fn lemma_reach_self<T>(g: Graph<T>, i: int)
    requires
        0 <= i < g.order(),
    ensures
        reachable(g, i, i),
{
    let p = seq![i];
    assert(is_path(g, p));
    assert(p.first() == i && p.last() == i);
}

/// A path can be extended along one more edge.
pub proof fn lemma_reach_step<T>(g: Graph<T>, s: int, x: int, y: int)
    requires
        reachable(g, s, x),
        g.adj(x, y),
        0 <= y < g.order(),
    ensures
        reachable(g, s, y),
{
    let p = choose|p: Seq<int>| is_path(g, p) && p.first() == s && p.last() == x;
    let q = p.push(y);
    assert(is_path(g, q)) by {
        assert(forall|k: int| 0 <= k < p.len() ==> q[k] == #[trigger] p[k]);
        assert(q[q.len() - 1] == y);
        assert(q[p.len() - 1] == x);
    }
    assert(q.first() == s && q.last() == y);
}

/// No path escapes a set of marks that holds the start of the path and is
/// closed under adjacency.
proof fn lemma_path_in_closed<T>(g: Graph<T>, vis: Seq<bool>, p: Seq<int>)
    requires
        vis.len() == g.order(),
        is_path(g, p),
        vis[p.first()],
        forall|x: int, j: int|
            0 <= x < g.order() && 0 <= j < g.order() && vis[x] && #[trigger] g.adj(x, j)
                ==> vis[j],
    ensures
        vis[p.last()],
    decreases p.len(),
{
    if p.len() > 1 {
        let q = p.drop_first();
        assert(forall|k: int| 0 <= k < q.len() ==> q[k] == #[trigger] p[k + 1]);
        assert(is_path(g, q));
        assert(g.adj(p[0], p[1]));
        assert(vis[q.first()]);
        lemma_path_in_closed(g, vis, q);
        assert(q.last() == p.last());
    }
}

/// A duplicate-free sequence of indices below `n` has at most `n` entries.
proof fn lemma_distinct_bounded(s: Seq<usize>, n: int)
    requires
        0 <= n,
        forall|k: int| 0 <= k < s.len() ==> (#[trigger] s[k]) < n,
        forall|k1: int, k2: int| 0 <= k1 < k2 < s.len() ==> s[k1] != s[k2],
    ensures
        s.len() <= n,
{
    broadcast use vstd::seq_lib::seq_to_set_is_finite;

    let si = s.map(|i: int, x: usize| x as int);
    assert(si.no_duplicates()) by {
        assert(forall|k1: int, k2: int|
            0 <= k1 < si.len() && 0 <= k2 < si.len() && k1 != k2 ==> #[trigger] si[k1]
                != #[trigger] si[k2]);
    }
    si.unique_seq_to_set();
    assert(si.to_set().subset_of(vstd::set_lib::set_int_range(0, n))) by {
        assert(forall|v: int| si.to_set().contains(v) ==> si.contains(v));
        assert(forall|k: int| 0 <= k < si.len() ==> 0 <= #[trigger] si[k] < n);
    }
    vstd::set_lib::lemma_int_range(0, n);
    vstd::set_lib::lemma_len_subset(si.to_set(), vstd::set_lib::set_int_range(0, n));
}

impl<T> Graph<T> {
    /// Queue-based breadth-first search from vertex slot `s`, entirely over
    /// indices: the discovery order, the parallel distance column, and the
    /// traversal-tree edges in discovery order.
    pub(crate) fn bfs_indices(&self, s: usize) -> (r: (Vec<usize>, Vec<usize>, Vec<
        (usize, usize),
    >))
        requires
            self.wf(),
            (s as int) < self.order(),
        ensures
            traversal_ok(*self, s as int, r.0@, r.2@),
            bfs_distances_ok(r.0@, r.1@, r.2@),
            exists|pm: Seq<int>| #[trigger] bfs_order_ok(*self, r.0@, r.1@, r.2@, pm),
    {
        let n = self.vertex_count();
        let mut visited: Vec<bool> = Vec::new();
        let mut t: usize = 0;
        while t < n
            invariant
                t <= n,
                visited@.len() == t,
                forall|j: int| 0 <= j < t ==> !(#[trigger] visited@[j]),
            decreases n - t,
        {
            visited.push(false);
            t += 1;
        }
        let mut ord: Vec<usize> = Vec::new();
        let mut dist: Vec<usize> = Vec::new();
        let mut edges: Vec<(usize, usize)> = Vec::new();
        ord.push(s);
        dist.push(0);
        visited[s] = true;
        proof {
            lemma_reach_self(*self, s as int);
            assert(ord@[0] as int == s as int);
            assert(seq_has(ord@, s as int));
            assert forall|j: int| 0 <= j < n && j != s implies !seq_has(ord@, j) by {
                assert(forall|k: int| 0 <= k < ord@.len() ==> ord@[k] == s);
            }
        }
        let ghost mut pm: Seq<int> = Seq::empty();
        let mut head: usize = 0;
        while head < ord.len()
            invariant
                self.wf(),
                n == self.order(),
                (s as int) < self.order(),
                visited@.len() == n,
                head <= ord@.len(),
                1 <= ord@.len() <= n,
                ord@[0] == s,
                dist@.len() == ord@.len(),
                edges@.len() == ord@.len() - 1,
                forall|k: int| 0 <= k < ord@.len() ==> (#[trigger] ord@[k]) < n,
                forall|k1: int, k2: int| 0 <= k1 < k2 < ord@.len() ==> ord@[k1] != ord@[k2],
                forall|j: int| 0 <= j < n ==> ((#[trigger] visited@[j]) <==> seq_has(ord@, j)),
                forall|k: int| 1 <= k < ord@.len() ==> ((#[trigger] edges@[k - 1]).1 == ord@[k]),
                forall|k: int|
                    0 <= k < edges@.len() ==> self.adj(
                        (#[trigger] edges@[k]).0 as int,
                        edges@[k].1 as int,
                    ),
                forall|k: int| 0 <= k < edges@.len() ==> ((#[trigger] edges@[k]).0 < n),
                forall|k: int| 1 <= k < ord@.len() ==> #[trigger] parent_link(ord@, dist@, edges@, k),
                dist@[0] == 0,
                forall|k: int| 0 <= k < dist@.len() ==> (#[trigger] dist@[k]) <= k,
                forall|k: int| 0 <= k < ord@.len() ==> reachable(*self, s as int, ord@[k] as int),
                forall|h: int|
                    0 <= h < head ==> row_absorbed(*self, ord@, (#[trigger] ord@[h]) as int),
                pm.len() == edges@.len(),
                forall|k: int|
                    0 <= k < pm.len() ==> 0 <= #[trigger] pm[k] <= k && pm[k] < ord@.len()
                        && pm[k] < head && ord@[pm[k]] == edges@[k].0 && dist@[k + 1]
                        == dist@[pm[k]] + 1,
                forall|k1: int, k2: int|
                    0 <= k1 < k2 < pm.len() ==> #[trigger] pm[k1] <= #[trigger] pm[k2],
                forall|k: int, m: int|
                    0 <= k < pm.len() && 0 <= m < #[trigger] pm[k] ==> !self.adj(
                        (#[trigger] ord@[m]) as int,
                        ord@[k + 1] as int,
                    ),
                forall|k1: int, k2: int|
                    0 <= k1 < k2 < pm.len() && #[trigger] pm[k1] == #[trigger] pm[k2]
                        ==> edges@[k1].1 < edges@[k2].1,
            decreases n - head,
        {
            let x = ord[head];
            let row = self.neighbor_row(x);
            let parent_distance = dist[head];
            let mut j: usize = 0;
            while j < n
                invariant
                    self.wf(),
                    n == self.order(),
                    (s as int) < self.order(),
                    visited@.len() == n,
                    head < ord@.len(),
                    1 <= ord@.len() <= n,
                    ord@[0] == s,
                    x == ord@[head as int],
                    parent_distance == dist@[head as int],
                    row@.len() == n,
                    forall|jj: int| 0 <= jj < n ==> row@[jj] == self.adj(x as int, jj),
                    j <= n,
                    dist@.len() == ord@.len(),
                    edges@.len() == ord@.len() - 1,
                    forall|k: int| 0 <= k < ord@.len() ==> (#[trigger] ord@[k]) < n,
                    forall|k1: int, k2: int| 0 <= k1 < k2 < ord@.len() ==> ord@[k1] != ord@[k2],
                    forall|jj: int|
                        0 <= jj < n ==> ((#[trigger] visited@[jj]) <==> seq_has(ord@, jj)),
                    forall|k: int|
                        1 <= k < ord@.len() ==> ((#[trigger] edges@[k - 1]).1 == ord@[k]),
                    forall|k: int|
                        0 <= k < edges@.len() ==> self.adj(
                            (#[trigger] edges@[k]).0 as int,
                            edges@[k].1 as int,
                        ),
                    forall|k: int| 0 <= k < edges@.len() ==> ((#[trigger] edges@[k]).0 < n),
                    forall|k: int|
                        1 <= k < ord@.len() ==> #[trigger] parent_link(ord@, dist@, edges@, k),
                    dist@[0] == 0,
                    forall|k: int| 0 <= k < dist@.len() ==> (#[trigger] dist@[k]) <= k,
                    forall|k: int|
                        0 <= k < ord@.len() ==> reachable(*self, s as int, ord@[k] as int),
                    forall|h: int|
                        0 <= h < head ==> row_absorbed(*self, ord@, (#[trigger] ord@[h]) as int),
                    forall|jj: int|
                        0 <= jj < j && #[trigger] self.adj(x as int, jj) ==> seq_has(ord@, jj),
                    pm.len() == edges@.len(),
                    forall|k: int|
                        0 <= k < pm.len() ==> 0 <= #[trigger] pm[k] <= k && pm[k] < ord@.len()
                            && pm[k] <= head && ord@[pm[k]] == edges@[k].0 && dist@[k + 1]
                            == dist@[pm[k]] + 1,
                    forall|k1: int, k2: int|
                        0 <= k1 < k2 < pm.len() ==> #[trigger] pm[k1] <= #[trigger] pm[k2],
                    forall|k: int, m: int|
                        0 <= k < pm.len() && 0 <= m < #[trigger] pm[k] ==> !self.adj(
                            (#[trigger] ord@[m]) as int,
                            ord@[k + 1] as int,
                        ),
                    forall|k1: int, k2: int|
                        0 <= k1 < k2 < pm.len() && #[trigger] pm[k1] == #[trigger] pm[k2]
                            ==> edges@[k1].1 < edges@[k2].1,
                    forall|k: int|
                        0 <= k < pm.len() && #[trigger] pm[k] == head ==> edges@[k].1 < j,
                decreases n - j,
            {
                if row[j] && !visited[j] {
                    proof {
                        if ord@.len() == n {
                            lemma_distinct_bounded(ord@.push(j), n as int);
                            assert(false);
                        }
                        lemma_reach_step(*self, s as int, x as int, j as int);
                    }
                    let ghost old_ord = ord@;
                    let ghost old_dist = dist@;
                    let ghost old_edges = edges@;
                    let ghost old_pm = pm;
                    visited[j] = true;
                    ord.push(j);
                    dist.push(parent_distance + 1);
                    edges.push((x, j));
                    proof {
                        pm = pm.push(head as int);
                        assert(ord@[ord@.len() - 1] as int == j as int);
                        assert(seq_has(ord@, j as int));
                        assert forall|jj: int| 0 <= jj < n && seq_has(old_ord, jj) implies seq_has(
                            ord@,
                            jj,
                        ) by {
                            let k = choose|k: int|
                                0 <= k < old_ord.len() && #[trigger] old_ord[k] as int == jj;
                            assert(ord@[k] as int == jj);
                        }
                        assert forall|jj: int| 0 <= jj < n && seq_has(ord@, jj) && jj != j implies
                            seq_has(old_ord, jj) by {
                            let k = choose|k: int|
                                0 <= k < ord@.len() && #[trigger] ord@[k] as int == jj;
                            assert(k < old_ord.len());
                            assert(old_ord[k] as int == jj);
                        }
                        assert forall|k: int| 1 <= k < ord@.len() implies #[trigger] parent_link(
                            ord@,
                            dist@,
                            edges@,
                            k,
                        ) by {
                            if k < ord@.len() - 1 {
                                assert(parent_link(old_ord, old_dist, old_edges, k));
                                let m = choose|m: int|
                                    0 <= m < k && #[trigger] old_ord[m] == old_edges[k - 1].0
                                        && old_dist[k] == old_dist[m] + 1;
                                assert(ord@[m] == edges@[k - 1].0 && dist@[k] == dist@[m] + 1);
                            } else {
                                let m = head as int;
                                assert(ord@[m] == edges@[k - 1].0 && dist@[k] == dist@[m] + 1);
                            }
                        }
                        assert forall|h: int| 0 <= h < head implies row_absorbed(
                            *self,
                            ord@,
                            (#[trigger] ord@[h]) as int,
                        ) by {
                            assert(row_absorbed(*self, old_ord, ord@[h] as int));
                            assert forall|jj: int|
                                0 <= jj < self.order() && #[trigger] self.adj(
                                    ord@[h] as int,
                                    jj,
                                ) implies seq_has(ord@, jj) by {
                                assert(seq_has(old_ord, jj));
                                let k = choose|k: int|
                                    0 <= k < old_ord.len() && #[trigger] old_ord[k] as int == jj;
                                assert(ord@[k] as int == jj);
                            }
                        }
                        let kn = pm.len() - 1;
                        assert(pm[kn] == head as int);
                        assert(ord@[pm[kn]] == edges@[kn].0 && dist@[kn + 1] == dist@[pm[kn]] + 1);
                        assert forall|m: int| 0 <= m < head implies !self.adj(
                            (#[trigger] ord@[m]) as int,
                            ord@[kn + 1] as int,
                        ) by {
                            if self.adj(old_ord[m] as int, j as int) {
                                assert(row_absorbed(*self, old_ord, old_ord[m] as int));
                                assert(seq_has(old_ord, j as int));
                            }
                        }
                        assert forall|k: int, m: int|
                            0 <= k < pm.len() && 0 <= m < #[trigger] pm[k] implies !self.adj(
                            (#[trigger] ord@[m]) as int,
                            ord@[k + 1] as int,
                        ) by {
                            if k < kn {
                                assert(!self.adj(old_ord[m] as int, old_ord[k + 1] as int));
                            }
                        }
                    }
                }
                j += 1;
            }
            proof {
                assert(row_absorbed(*self, ord@, x as int));
            }
            head += 1;
        }
        proof {
            assert forall|j: int| 0 <= j < n && reachable(*self, s as int, j) implies seq_has(
                ord@,
                j,
            ) by {
                let p = choose|p: Seq<int>|
                    is_path(*self, p) && p.first() == s as int && p.last() == j;
                assert forall|x: int, jj: int|
                    0 <= x < self.order() && 0 <= jj < self.order() && visited@[x]
                        && #[trigger] self.adj(x, jj) implies visited@[jj] by {
                    let h = choose|h: int| 0 <= h < ord@.len() && #[trigger] ord@[h] as int == x;
                    assert(row_absorbed(*self, ord@, x));
                }
                lemma_path_in_closed(*self, visited@, p);
            }
            assert forall|j: int| 0 <= j < n && seq_has(ord@, j) implies reachable(
                *self,
                s as int,
                j,
            ) by {
                let k = choose|k: int| 0 <= k < ord@.len() && #[trigger] ord@[k] as int == j;
            }
            assert forall|k: int| 1 <= k < ord@.len() implies #[trigger] parent_known(
                ord@,
                edges@,
                k,
            ) by {
                assert(parent_link(ord@, dist@, edges@, k));
                let m = choose|m: int|
                    0 <= m < k && #[trigger] ord@[m] == edges@[k - 1].0 && dist@[k] == dist@[m] + 1;
                assert(ord@[m] == edges@[k - 1].0);
            }
            assert(bfs_order_ok(*self, ord@, dist@, edges@, pm));
        }
        (ord, dist, edges)
    }

    /// Stack-based depth-first search from vertex slot `s`, entirely over
    /// indices: the discovery order and the traversal-tree edges in
    /// discovery order.
    pub(crate) fn dfs_indices(&self, s: usize) -> (r: (Vec<usize>, Vec<(usize, usize)>))
        requires
            self.wf(),
            (s as int) < self.order(),
        ensures
            traversal_ok(*self, s as int, r.0@, r.1@),
    {
        let n = self.vertex_count();
        let mut visited: Vec<bool> = Vec::new();
        let mut t: usize = 0;
        while t < n
            invariant
                t <= n,
                visited@.len() == t,
                forall|j: int| 0 <= j < t ==> !(#[trigger] visited@[j]),
            decreases n - t,
        {
            visited.push(false);
            t += 1;
        }
        let mut ord: Vec<usize> = Vec::new();
        let mut edges: Vec<(usize, usize)> = Vec::new();
        let mut stack: Vec<usize> = Vec::new();
        ord.push(s);
        stack.push(s);
        visited[s] = true;
        proof {
            lemma_reach_self(*self, s as int);
            assert(ord@[0] as int == s as int);
            assert(stack@[0] as int == s as int);
            assert(seq_has(ord@, s as int));
            assert(seq_has(stack@, s as int));
            assert forall|j: int| 0 <= j < n && j != s implies !seq_has(ord@, j) by {
                assert(forall|k: int| 0 <= k < ord@.len() ==> ord@[k] == s);
            }
        }
        while stack.len() > 0
            invariant
                self.wf(),
                n == self.order(),
                (s as int) < self.order(),
                visited@.len() == n,
                1 <= ord@.len() <= n,
                ord@[0] == s,
                edges@.len() == ord@.len() - 1,
                forall|k: int| 0 <= k < ord@.len() ==> (#[trigger] ord@[k]) < n,
                forall|k1: int, k2: int| 0 <= k1 < k2 < ord@.len() ==> ord@[k1] != ord@[k2],
                forall|j: int| 0 <= j < n ==> ((#[trigger] visited@[j]) <==> seq_has(ord@, j)),
                forall|k: int| 1 <= k < ord@.len() ==> ((#[trigger] edges@[k - 1]).1 == ord@[k]),
                forall|k: int|
                    0 <= k < edges@.len() ==> self.adj(
                        (#[trigger] edges@[k]).0 as int,
                        edges@[k].1 as int,
                    ),
                forall|k: int| 0 <= k < edges@.len() ==> ((#[trigger] edges@[k]).0 < n),
                forall|k: int| 1 <= k < ord@.len() ==> #[trigger] parent_known(ord@, edges@, k),
                forall|k: int| 0 <= k < ord@.len() ==> reachable(*self, s as int, ord@[k] as int),
                forall|t2: int|
                    0 <= t2 < stack@.len() ==> seq_has(ord@, (#[trigger] stack@[t2]) as int),
                forall|t2: int| 0 <= t2 < stack@.len() ==> (#[trigger] stack@[t2]) < n,
                forall|k: int|
                    0 <= k < ord@.len() && !seq_has(stack@, ord@[k] as int) ==> row_absorbed(
                        *self,
                        ord@,
                        (#[trigger] ord@[k]) as int,
                    ),
            decreases (n - ord@.len()), stack@.len(),
        {
            let ghost prev_stack = stack@;
            let ghost prev_ord = ord@;
            let x = stack.pop().unwrap();
            proof {
                assert(prev_stack =~= stack@.push(x));
                assert forall|v: int| seq_has(prev_stack, v) && v != x as int implies seq_has(
                    stack@,
                    v,
                ) by {
                    let k = choose|k: int|
                        0 <= k < prev_stack.len() && #[trigger] prev_stack[k] as int == v;
                    assert(k < stack@.len());
                    assert(stack@[k] as int == v);
                }
                assert forall|v: int| seq_has(stack@, v) implies seq_has(prev_stack, v) by {
                    let k = choose|k: int|
                        0 <= k < stack@.len() && #[trigger] stack@[k] as int == v;
                    assert(prev_stack[k] as int == v);
                }
            }
            let row = self.neighbor_row(x);
            let mut j: usize = 0;
            while j < n
                invariant
                    self.wf(),
                    n == self.order(),
                    (s as int) < self.order(),
                    visited@.len() == n,
                    1 <= ord@.len() <= n,
                    ord@[0] == s,
                    x < n,
                    seq_has(ord@, x as int),
                    row@.len() == n,
                    forall|jj: int| 0 <= jj < n ==> row@[jj] == self.adj(x as int, jj),
                    j <= n,
                    edges@.len() == ord@.len() - 1,
                    forall|k: int| 0 <= k < ord@.len() ==> (#[trigger] ord@[k]) < n,
                    forall|k1: int, k2: int| 0 <= k1 < k2 < ord@.len() ==> ord@[k1] != ord@[k2],
                    forall|jj: int|
                        0 <= jj < n ==> ((#[trigger] visited@[jj]) <==> seq_has(ord@, jj)),
                    forall|k: int|
                        1 <= k < ord@.len() ==> ((#[trigger] edges@[k - 1]).1 == ord@[k]),
                    forall|k: int|
                        0 <= k < edges@.len() ==> self.adj(
                            (#[trigger] edges@[k]).0 as int,
                            edges@[k].1 as int,
                        ),
                    forall|k: int| 0 <= k < edges@.len() ==> ((#[trigger] edges@[k]).0 < n),
                    forall|k: int| 1 <= k < ord@.len() ==> #[trigger] parent_known(ord@, edges@, k),
                    forall|k: int|
                        0 <= k < ord@.len() ==> reachable(*self, s as int, ord@[k] as int),
                    forall|t2: int|
                        0 <= t2 < stack@.len() ==> seq_has(ord@, (#[trigger] stack@[t2]) as int),
                    forall|t2: int| 0 <= t2 < stack@.len() ==> (#[trigger] stack@[t2]) < n,
                    forall|k: int|
                        0 <= k < ord@.len() && ord@[k] != x && !seq_has(stack@, ord@[k] as int)
                            ==> row_absorbed(*self, ord@, (#[trigger] ord@[k]) as int),
                    forall|jj: int|
                        0 <= jj < j && #[trigger] self.adj(x as int, jj) ==> seq_has(ord@, jj),
                    ord@.len() > prev_ord.len() || stack@.len() < prev_stack.len(),
                    ord@.len() >= prev_ord.len(),
                decreases n - j,
            {
                if row[j] && !visited[j] {
                    proof {
                        if ord@.len() == n {
                            lemma_distinct_bounded(ord@.push(j), n as int);
                            assert(false);
                        }
                        lemma_reach_step(*self, s as int, x as int, j as int);
                    }
                    let ghost old_ord = ord@;
                    let ghost old_stack = stack@;
                    let ghost old_edges = edges@;
                    visited[j] = true;
                    ord.push(j);
                    stack.push(j);
                    edges.push((x, j));
                    proof {
                        assert(ord@[ord@.len() - 1] as int == j as int);
                        assert(seq_has(ord@, j as int));
                        assert(stack@[stack@.len() - 1] as int == j as int);
                        assert(seq_has(stack@, j as int));
                        assert forall|jj: int| 0 <= jj < n && seq_has(old_ord, jj) implies seq_has(
                            ord@,
                            jj,
                        ) by {
                            let k = choose|k: int|
                                0 <= k < old_ord.len() && #[trigger] old_ord[k] as int == jj;
                            assert(ord@[k] as int == jj);
                        }
                        assert forall|jj: int| 0 <= jj < n && seq_has(ord@, jj) && jj != j implies
                            seq_has(old_ord, jj) by {
                            let k = choose|k: int|
                                0 <= k < ord@.len() && #[trigger] ord@[k] as int == jj;
                            assert(k < old_ord.len());
                            assert(old_ord[k] as int == jj);
                        }
                        assert forall|v: int| seq_has(old_stack, v) implies seq_has(stack@, v) by {
                            let k = choose|k: int|
                                0 <= k < old_stack.len() && #[trigger] old_stack[k] as int == v;
                            assert(stack@[k] as int == v);
                        }
                        assert forall|v: int| seq_has(stack@, v) && v != j as int implies seq_has(
                            old_stack,
                            v,
                        ) by {
                            let k = choose|k: int|
                                0 <= k < stack@.len() && #[trigger] stack@[k] as int == v;
                            assert(k < old_stack.len());
                            assert(old_stack[k] as int == v);
                        }
                        assert forall|k: int| 1 <= k < ord@.len() implies #[trigger] parent_known(
                            ord@,
                            edges@,
                            k,
                        ) by {
                            if k < ord@.len() - 1 {
                                assert(parent_known(old_ord, old_edges, k));
                                let m = choose|m: int|
                                    0 <= m < k && #[trigger] old_ord[m] == old_edges[k - 1].0;
                                assert(ord@[m] == edges@[k - 1].0);
                            } else {
                                let m = choose|m: int|
                                    0 <= m < old_ord.len() && #[trigger] old_ord[m] as int
                                        == x as int;
                                assert(ord@[m] == edges@[k - 1].0);
                            }
                        }
                        assert forall|k: int|
                            0 <= k < ord@.len() && ord@[k] != x && !seq_has(
                                stack@,
                                ord@[k] as int,
                            ) implies row_absorbed(*self, ord@, (#[trigger] ord@[k]) as int) by {
                            assert(!seq_has(old_stack, ord@[k] as int));
                            assert(k < old_ord.len());
                            assert(row_absorbed(*self, old_ord, old_ord[k] as int));
                            assert forall|jj: int|
                                0 <= jj < self.order() && #[trigger] self.adj(
                                    ord@[k] as int,
                                    jj,
                                ) implies seq_has(ord@, jj) by {
                                assert(seq_has(old_ord, jj));
                            }
                        }
                    }
                }
                j += 1;
            }
            proof {
                assert(row_absorbed(*self, ord@, x as int));
                assert forall|k: int|
                    0 <= k < ord@.len() && !seq_has(stack@, ord@[k] as int) implies row_absorbed(
                    *self,
                    ord@,
                    (#[trigger] ord@[k]) as int,
                ) by {
                    if ord@[k] != x {
                    }
                }
            }
        }
        proof {
            assert forall|j: int| 0 <= j < n && reachable(*self, s as int, j) implies seq_has(
                ord@,
                j,
            ) by {
                let p = choose|p: Seq<int>|
                    is_path(*self, p) && p.first() == s as int && p.last() == j;
                assert forall|x: int, jj: int|
                    0 <= x < self.order() && 0 <= jj < self.order() && visited@[x]
                        && #[trigger] self.adj(x, jj) implies visited@[jj] by {
                    let h = choose|h: int| 0 <= h < ord@.len() && #[trigger] ord@[h] as int == x;
                    assert(!seq_has(stack@, x));
                    assert(row_absorbed(*self, ord@, x));
                }
                lemma_path_in_closed(*self, visited@, p);
            }
            assert forall|j: int| 0 <= j < n && seq_has(ord@, j) implies reachable(
                *self,
                s as int,
                j,
            ) by {
                let k = choose|k: int| 0 <= k < ord@.len() && #[trigger] ord@[k] as int == j;
            }
        }
        (ord, edges)
    }

    /// Depth-first search from the vertex named like `v`: the discovered
    /// nodes in visitation order and the traversal-tree edges in the order
    /// they were first taken. Only the connected component of the start is
    /// reached; fails when no vertex of the graph carries `v`'s name.
    pub fn dfs(&self, v: &Node<T>) -> (r: Result<
        (Vec<&Node<T>>, Vec<(&Node<T>, &Node<T>)>),
        TraversalError,
    >)
        requires
            self.wf(),
        ensures
            match r {
                Ok(out) => {
                    &&& self.names().contains(v.name)
                    &&& exists|ord: Seq<usize>, edges: Seq<(usize, usize)>|
                        {
                            &&& #[trigger] traversal_ok(
                                *self,
                                self.name_index(v.name),
                                ord,
                                edges,
                            )
                            &&& out.0@.len() == ord.len()
                            &&& forall|k: int|
                                0 <= k < ord.len() ==> *(#[trigger] out.0@[k])
                                    == self.spec_nodes()[ord[k] as int]
                            &&& out.1@.len() == edges.len()
                            &&& forall|k: int|
                                0 <= k < edges.len() ==> *((#[trigger] out.1@[k]).0)
                                    == self.spec_nodes()[edges[k].0 as int] && *(out.1@[k].1)
                                    == self.spec_nodes()[edges[k].1 as int]
                        }
                },
                Err(e) => !self.names().contains(v.name) && e == TraversalError::VertexNotFound,
            },
    {
        let s = match self.position_of(v.name) {
            Some(k) => k,
            None => {
                return Err(TraversalError::VertexNotFound);
            },
        };
        let (ord, edges) = self.dfs_indices(s);
        proof {
            assert(s as int == self.name_index(v.name));
        }
        let mut w: Vec<&Node<T>> = Vec::new();
        let mut i: usize = 0;
        while i < ord.len()
            invariant
                self.wf(),
                forall|k: int| 0 <= k < ord@.len() ==> (#[trigger] ord@[k]) < self.order(),
                i <= ord@.len(),
                w@.len() == i,
                forall|k: int|
                    0 <= k < i ==> *(#[trigger] w@[k]) == self.spec_nodes()[ord@[k] as int],
            decreases ord@.len() - i,
        {
            w.push(self.node_at(ord[i]));
            i += 1;
        }
        proof {
            assert forall|k: int| 0 <= k < edges@.len() implies ((#[trigger] edges@[k]).1
                < self.order()) by {
                let kk = k + 1;
                assert(edges@[kk - 1].1 == ord@[kk]);
                assert(edges@[k].1 == ord@[k + 1]);
            }
        }
        let mut arestes: Vec<(&Node<T>, &Node<T>)> = Vec::new();
        let mut i: usize = 0;
        while i < edges.len()
            invariant
                self.wf(),
                forall|k: int| 0 <= k < edges@.len() ==> ((#[trigger] edges@[k]).0 < self.order()),
                forall|k: int|
                    0 <= k < edges@.len() ==> ((#[trigger] edges@[k]).1 < self.order()),
                i <= edges@.len(),
                arestes@.len() == i,
                forall|k: int|
                    0 <= k < i ==> *((#[trigger] arestes@[k]).0)
                        == self.spec_nodes()[edges@[k].0 as int] && *(arestes@[k].1)
                        == self.spec_nodes()[edges@[k].1 as int],
            decreases edges@.len() - i,
        {
            let e = edges[i];
            arestes.push((self.node_at(e.0), self.node_at(e.1)));
            i += 1;
        }
        Ok((w, arestes))
    }

    /// Breadth-first search from the vertex named like `v`: the discovered
    /// nodes paired with their distance from the start, the traversal-tree
    /// edges in discovery order, and the eccentricity — the greatest
    /// distance assigned to any discovered vertex. The start itself has
    /// distance zero. Only the connected component of the start is reached;
    /// fails when no vertex of the graph carries `v`'s name.
    pub fn bfs(&self, v: &Node<T>) -> (r: Result<
        (Vec<(&Node<T>, usize)>, Vec<(&Node<T>, &Node<T>)>, usize),
        TraversalError,
    >)
        requires
            self.wf(),
        ensures
            match r {
                Ok(out) => {
                    &&& self.names().contains(v.name)
                    &&& exists|ord: Seq<usize>, dist: Seq<usize>, edges: Seq<(usize, usize)>|
                        {
                            &&& #[trigger] traversal_ok(
                                *self,
                                self.name_index(v.name),
                                ord,
                                edges,
                            )
                            &&& #[trigger] bfs_distances_ok(ord, dist, edges)
                            &&& exists|pm: Seq<int>|
                                #[trigger] bfs_order_ok(*self, ord, dist, edges, pm)
                            &&& out.0@.len() == ord.len()
                            &&& forall|k: int|
                                0 <= k < ord.len() ==> *((#[trigger] out.0@[k]).0)
                                    == self.spec_nodes()[ord[k] as int] && out.0@[k].1 == dist[k]
                            &&& out.1@.len() == edges.len()
                            &&& forall|k: int|
                                0 <= k < edges.len() ==> *((#[trigger] out.1@[k]).0)
                                    == self.spec_nodes()[edges[k].0 as int] && *(out.1@[k].1)
                                    == self.spec_nodes()[edges[k].1 as int]
                            &&& forall|k: int| 0 <= k < dist.len() ==> (#[trigger] dist[k]) <= out.2
                            &&& exists|k: int| 0 <= k < dist.len() && #[trigger] dist[k] == out.2
                        }
                },
                Err(e) => !self.names().contains(v.name) && e == TraversalError::VertexNotFound,
            },
    {
        let s = match self.position_of(v.name) {
            Some(k) => k,
            None => {
                return Err(TraversalError::VertexNotFound);
            },
        };
        let (ord, dist, edges) = self.bfs_indices(s);
        proof {
            assert(s as int == self.name_index(v.name));
        }
        let mut pairs: Vec<(&Node<T>, usize)> = Vec::new();
        let mut i: usize = 0;
        while i < ord.len()
            invariant
                self.wf(),
                forall|k: int| 0 <= k < ord@.len() ==> (#[trigger] ord@[k]) < self.order(),
                dist@.len() == ord@.len(),
                i <= ord@.len(),
                pairs@.len() == i,
                forall|k: int|
                    0 <= k < i ==> *((#[trigger] pairs@[k]).0) == self.spec_nodes()[ord@[k] as int]
                        && pairs@[k].1 == dist@[k],
            decreases ord@.len() - i,
        {
            pairs.push((self.node_at(ord[i]), dist[i]));
            i += 1;
        }
        proof {
            assert forall|k: int| 0 <= k < edges@.len() implies ((#[trigger] edges@[k]).1
                < self.order()) by {
                let kk = k + 1;
                assert(edges@[kk - 1].1 == ord@[kk]);
                assert(edges@[k].1 == ord@[k + 1]);
            }
        }
        let mut arestes: Vec<(&Node<T>, &Node<T>)> = Vec::new();
        let mut i: usize = 0;
        while i < edges.len()
            invariant
                self.wf(),
                forall|k: int| 0 <= k < edges@.len() ==> ((#[trigger] edges@[k]).0 < self.order()),
                forall|k: int|
                    0 <= k < edges@.len() ==> ((#[trigger] edges@[k]).1 < self.order()),
                i <= edges@.len(),
                arestes@.len() == i,
                forall|k: int|
                    0 <= k < i ==> *((#[trigger] arestes@[k]).0)
                        == self.spec_nodes()[edges@[k].0 as int] && *(arestes@[k].1)
                        == self.spec_nodes()[edges@[k].1 as int],
            decreases edges@.len() - i,
        {
            let e = edges[i];
            arestes.push((self.node_at(e.0), self.node_at(e.1)));
            i += 1;
        }
        let mut max_dist = dist[0];
        let mut i: usize = 1;
        while i < dist.len()
            invariant
                dist@.len() >= 1,
                1 <= i <= dist@.len(),
                forall|k: int| 0 <= k < i ==> (#[trigger] dist@[k]) <= max_dist,
                exists|k: int| 0 <= k < i && #[trigger] dist@[k] == max_dist,
            decreases dist@.len() - i,
        {
            if dist[i] > max_dist {
                max_dist = dist[i];
            }
            proof {
                if dist@[i as int] <= max_dist {
                }
            }
            i += 1;
        }
        Ok((pairs, arestes, max_dist))
    }
}

} // verus!
