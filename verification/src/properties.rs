//! Structural classification of a graph: tree detection by parent-aware
//! traversal, and connectivity by full-graph reachability counting.

use crate::traversal::{
    lemma_reach_self, lemma_reach_step, lemma_seq_has_push, reachable, seq_has,
};
use crate::Graph;
use vstd::prelude::*;

verus! {

/// `ord` and `par` describe a tree laid over part of `g`: `ord` lists
/// distinct vertex slots, and every entry after the first hangs, by an
/// actual edge of `g`, below an earlier entry — its tree parent.
pub open spec fn tree_shape<T>(g: Graph<T>, ord: Seq<usize>, par: Seq<usize>) -> bool {
    &&& ord.len() >= 1
    &&& forall|k: int| 0 <= k < ord.len() ==> (#[trigger] ord[k]) < g.order()
    &&& forall|k1: int, k2: int| 0 <= k1 < k2 < ord.len() ==> ord[k1] != ord[k2]
    &&& par.len() == ord.len()
    &&& par[0] == 0
    &&& forall|k: int| 1 <= k < ord.len() ==> (#[trigger] par[k]) < k
    &&& forall|k: int|
        1 <= k < ord.len() ==> g.adj(ord[(#[trigger] par[k]) as int] as int, ord[k] as int)
}

/// Every edge of `g` between two listed vertices is one of the tree's own
/// parent-child edges: the listed part of the graph holds no further edge,
/// hence no cycle.
pub open spec fn tree_covers<T>(g: Graph<T>, ord: Seq<usize>, par: Seq<usize>) -> bool {
    forall|k1: int, k2: int|
        0 <= k1 < ord.len() && 0 <= k2 < ord.len() && #[trigger] g.adj(
            ord[k1] as int,
            ord[k2] as int,
        ) ==> par[k1] == k2 as usize || par[k2] == k1 as usize
}

/// The vertices listed by `ord` are exactly those reachable from slot `s`.
pub open spec fn spans_component<T>(g: Graph<T>, s: int, ord: Seq<usize>) -> bool {
    &&& ord[0] as int == s
    &&& forall|j: int|
        0 <= j < g.order() ==> ((#[trigger] reachable(g, s, j)) <==> (#[trigger] seq_has(ord, j)))
}

/// Outside the pending positions (and an optional current position `cur`),
/// every discovered vertex already has its whole neighbour row discovered.
#[verifier::opaque]
pub open spec fn settled_rows<T>(g: Graph<T>, ord: Seq<usize>, stack: Seq<usize>, cur: int) -> bool {
    forall|k1: int|
        0 <= k1 < ord.len() && k1 != cur && !seq_has(stack, k1) ==> (forall|j: int|
            0 <= j < g.order() && #[trigger] g.adj((#[trigger] ord[k1]) as int, j) ==> seq_has(
                ord,
                j,
            ))
}

/// Outside the pending positions (and an optional current position `cur`),
/// every edge at a discovered vertex is one of the recorded tree edges.
#[verifier::opaque]
pub open spec fn settled_edges<T>(
    g: Graph<T>,
    ord: Seq<usize>,
    par: Seq<usize>,
    stack: Seq<usize>,
    cur: int,
) -> bool {
    forall|k1: int, k2: int|
        0 <= k1 < ord.len() && 0 <= k2 < ord.len() && k1 != cur && !seq_has(stack, k1)
            && #[trigger] g.adj(ord[k1] as int, ord[k2] as int) ==> par[k1] == k2 as usize
            || par[k2] == k1 as usize
}

/// No pending position is recorded as anyone's tree parent: parents have
/// always been processed already.
#[verifier::opaque]
pub open spec fn parents_popped(par: Seq<usize>, stack: Seq<usize>) -> bool {
    forall|t2: int, k: int|
        0 <= t2 < stack.len() && 1 <= k < par.len() ==> (#[trigger] par[k]) != (
        #[trigger] stack[t2])
}

/// Every vertex listed by a tree certificate is reachable from the root:
/// walk the parent chain down.
pub proof fn lemma_tree_reaches<T>(g: Graph<T>, ord: Seq<usize>, par: Seq<usize>, k: int)
    requires
        tree_shape(g, ord, par),
        0 <= k < ord.len(),
    ensures
        reachable(g, ord[0] as int, ord[k] as int),
    decreases k,
{
    if k == 0 {
        lemma_reach_self(g, ord[0] as int);
    } else {
        lemma_tree_reaches(g, ord, par, par[k] as int);
        lemma_reach_step(g, ord[0] as int, ord[par[k] as int] as int, ord[k] as int);
    }
}

impl<T> Graph<T> {
    /// Whether the connected component of the first vertex is cycle-free.
    /// An empty graph counts as a tree. On success the traversal tree found
    /// spans the whole component and its edges are all the edges there are;
    /// on failure the second field names the vertex slot at which a cycle
    /// was detected: a discovered vertex met again along an edge that
    /// belongs to the tree in neither direction. Vertices outside the first
    /// vertex's component are not examined.
    #[verifier::rlimit(100)]
    pub fn is_tree(&self) -> (r: (bool, Option<usize>))
        requires
            self.wf(),
        ensures
            self.order() == 0 ==> r == (true, None::<usize>),
            r.0 <==> r.1 is None,
            r.0 && self.order() > 0 ==> exists|ord: Seq<usize>, par: Seq<usize>|
                {
                    &&& #[trigger] tree_shape(*self, ord, par)
                    &&& tree_covers(*self, ord, par)
                    &&& spans_component(*self, 0, ord)
                },
            !r.0 ==> self.order() > 0 && exists|ord: Seq<usize>, par: Seq<usize>|
                {
                    &&& #[trigger] tree_shape(*self, ord, par)
                    &&& ord[0] == 0usize
                    &&& forall|k: int|
                        0 <= k < ord.len() ==> reachable(*self, 0, (#[trigger] ord[k]) as int)
                    &&& exists|k1: int, k2: int|
                        {
                            &&& 0 <= k1 < ord.len()
                            &&& 0 <= k2 < ord.len()
                            &&& k1 != k2
                            &&& #[trigger] self.adj(ord[k1] as int, ord[k2] as int)
                            &&& par[k1] != k2 as usize
                            &&& par[k2] != k1 as usize
                            &&& r.1 == Some(ord[k2])
                        }
                },
    {
        let n = self.vertex_count();
        if n == 0 {
            return (true, None);
        }
        let mut visited: Vec<bool> = Vec::new();
        let mut t: usize = 0;
        while t < n
            invariant
                t <= n,
                visited@.len() == t,
                forall|j: int| 0 <= j < t ==> !(#[trigger] visited@[j]),
            decreases n - t,
        {
            visited.push(false);
            t += 1;
        }
        let mut ord: Vec<usize> = Vec::new();
        let mut par: Vec<usize> = Vec::new();
        let mut stack: Vec<usize> = Vec::new();
        ord.push(0);
        par.push(0);
        stack.push(0);
        visited[0] = true;
        proof {
            assert(ord@[0] as int == 0);
            assert(seq_has(ord@, 0));
            assert forall|j: int| 0 <= j < n && j != 0 implies !seq_has(ord@, j) by {
                assert(forall|k: int| 0 <= k < ord@.len() ==> ord@[k] == 0usize);
            }
            assert(settled_rows(*self, ord@, stack@, -1)) by {
                reveal(settled_rows);
                assert(stack@[0] == 0usize);
                assert(seq_has(stack@, 0));
            }
            assert(settled_edges(*self, ord@, par@, stack@, -1)) by {
                reveal(settled_edges);
                assert(stack@[0] == 0usize);
                assert(seq_has(stack@, 0));
            }
            assert(parents_popped(par@, stack@)) by {
                reveal(parents_popped);
            }
        }
        while stack.len() > 0
            invariant
                self.wf(),
                n == self.order(),
                n > 0,
                visited@.len() == n,
                1 <= ord@.len() <= n,
                ord@[0] == 0usize,
                par@.len() == ord@.len(),
                par@[0] == 0usize,
                forall|k: int| 0 <= k < ord@.len() ==> (#[trigger] ord@[k]) < n,
                forall|k1: int, k2: int| 0 <= k1 < k2 < ord@.len() ==> ord@[k1] != ord@[k2],
                forall|k: int| 1 <= k < ord@.len() ==> (#[trigger] par@[k]) < k,
                forall|k: int|
                    1 <= k < ord@.len() ==> self.adj(
                        ord@[(#[trigger] par@[k]) as int] as int,
                        ord@[k] as int,
                    ),
                forall|j: int| 0 <= j < n ==> ((#[trigger] visited@[j]) <==> seq_has(ord@, j)),
                forall|t2: int| 0 <= t2 < stack@.len() ==> (#[trigger] stack@[t2]) < ord@.len(),
                forall|t1: int, t2: int| 0 <= t1 < t2 < stack@.len() ==> stack@[t1] != stack@[t2],
                parents_popped(par@, stack@),
                settled_rows(*self, ord@, stack@, -1),
                settled_edges(*self, ord@, par@, stack@, -1),
            decreases (n - ord@.len()), stack@.len(),
        {
            let ghost prev_stack = stack@;
            let ghost prev_ord = ord@;
            let x_pos = stack.pop().unwrap();
            proof {
                assert(prev_stack =~= stack@.push(x_pos));
                lemma_seq_has_push(stack@, x_pos);
                assert(!seq_has(stack@, x_pos as int)) by {
                    if seq_has(stack@, x_pos as int) {
                        let k = choose|k: int|
                            0 <= k < stack@.len() && #[trigger] stack@[k] as int == x_pos as int;
                        assert(prev_stack[k] == prev_stack[prev_stack.len() - 1]);
                        assert(false);
                    }
                }
                assert(prev_stack[prev_stack.len() - 1] == x_pos);
                assert forall|k: int| 1 <= k < par@.len() implies (#[trigger] par@[k])
                    != x_pos by {
                    reveal(parents_popped);
                }
                assert(parents_popped(par@, stack@)) by {
                    reveal(parents_popped);
                    assert(forall|t2: int|
                        0 <= t2 < stack@.len() ==> #[trigger] stack@[t2] == prev_stack[t2]);
                }
                assert(settled_rows(*self, ord@, stack@, x_pos as int)) by {
                    reveal(settled_rows);
                }
                assert(settled_edges(*self, ord@, par@, stack@, x_pos as int)) by {
                    reveal(settled_edges);
                }
            }
            let x = ord[x_pos];
            let row = self.neighbor_row(x);
            let ghost scan_start = ord@.len();
            let mut j: usize = 0;
            while j < n
                invariant
                    self.wf(),
                    n == self.order(),
                    n > 0,
                    visited@.len() == n,
                    1 <= ord@.len() <= n,
                    ord@[0] == 0usize,
                    par@.len() == ord@.len(),
                    par@[0] == 0usize,
                    x_pos < scan_start <= ord@.len(),
                    x == ord@[x_pos as int],
                    x < n,
                    !seq_has(stack@, x_pos as int),
                    row@.len() == n,
                    forall|jj: int| 0 <= jj < n ==> row@[jj] == self.adj(x as int, jj),
                    j <= n,
                    forall|k: int| 0 <= k < ord@.len() ==> (#[trigger] ord@[k]) < n,
                    forall|k1: int, k2: int| 0 <= k1 < k2 < ord@.len() ==> ord@[k1] != ord@[k2],
                    forall|k: int| 1 <= k < ord@.len() ==> (#[trigger] par@[k]) < k,
                    forall|k: int|
                        1 <= k < ord@.len() ==> self.adj(
                            ord@[(#[trigger] par@[k]) as int] as int,
                            ord@[k] as int,
                        ),
                    forall|jj: int|
                        0 <= jj < n ==> ((#[trigger] visited@[jj]) <==> seq_has(ord@, jj)),
                    forall|t2: int| 0 <= t2 < stack@.len() ==> (#[trigger] stack@[t2]) < ord@.len(),
                    forall|t1: int, t2: int|
                        0 <= t1 < t2 < stack@.len() ==> stack@[t1] != stack@[t2],
                    parents_popped(par@, stack@),
                    settled_rows(*self, ord@, stack@, x_pos as int),
                    settled_edges(*self, ord@, par@, stack@, x_pos as int),
                    forall|k: int| 1 <= k < scan_start ==> (#[trigger] par@[k]) != x_pos,
                    forall|k: int| scan_start <= k < ord@.len() ==> (#[trigger] par@[k]) == x_pos,
                    forall|k: int| scan_start <= k < ord@.len() ==> (#[trigger] ord@[k]) < j,
                    forall|jj: int|
                        0 <= jj < j && #[trigger] self.adj(x as int, jj) ==> seq_has(ord@, jj),
                    forall|k2: int|
                        0 <= k2 < ord@.len() && (#[trigger] ord@[k2]) < j && self.adj(
                            x as int,
                            ord@[k2] as int,
                        ) ==> par@[x_pos as int] == k2 as usize || par@[k2] == x_pos,
                    ord@.len() > prev_ord.len() || stack@.len() < prev_stack.len(),
                    ord@.len() >= prev_ord.len(),
                decreases n - j,
            {
                if row[j] {
                    let skip = x_pos > 0 && ord[par[x_pos]] == j;
                    if !skip {
                        if visited[j] {
                            // A discovered vertex reached again over an edge
                            // that belongs to the tree in neither direction:
                            // the component holds a cycle through it.
                            proof {
                                let k2 = choose|k2: int|
                                    0 <= k2 < ord@.len() && #[trigger] ord@[k2] as int == j as int;
                                assert(k2 < scan_start);
                                assert(par@[k2] != x_pos);
                                if x_pos > 0 {
                                    assert(ord@[par@[x_pos as int] as int] != j);
                                    assert(par@[x_pos as int] != k2 as usize);
                                } else {
                                    assert(par@[x_pos as int] == 0usize);
                                    assert(k2 != 0) by {
                                        if k2 == 0 {
                                            assert(self.adj(x as int, 0));
                                            assert(x_pos == 0 && x == 0usize);
                                            assert(!self.adj(0, 0));
                                        }
                                    }
                                    assert(par@[x_pos as int] != k2 as usize);
                                }
                                assert(k2 != x_pos) by {
                                    if k2 == x_pos {
                                        assert(self.adj(x as int, x as int));
                                    }
                                }
                                assert(self.adj(ord@[x_pos as int] as int, ord@[k2] as int));
                                assert(tree_shape(*self, ord@, par@));
                                assert forall|k: int| 0 <= k < ord@.len() implies reachable(
                                    *self,
                                    0,
                                    (#[trigger] ord@[k]) as int,
                                ) by {
                                    lemma_tree_reaches(*self, ord@, par@, k);
                                }
                            }
                            return (false, Some(j));
                        }
                        proof {
                            if ord@.len() == n {
                                crate::properties::lemma_positions_saturated(ord@, n as int);
                                assert(seq_has(ord@, j as int));
                                assert(false);
                            }
                        }
                        let ghost old_ord = ord@;
                        let ghost old_stack = stack@;
                        let ghost old_par = par@;
                        let new_pos = ord.len();
                        visited[j] = true;
                        ord.push(j);
                        par.push(x_pos);
                        stack.push(new_pos);
                        proof {
                            lemma_seq_has_push(old_ord, j);
                            lemma_seq_has_push(old_stack, new_pos);
                            assert(!seq_has(stack@, x_pos as int)) by {
                                if seq_has(stack@, x_pos as int) {
                                    assert(seq_has(old_stack, x_pos as int));
                                }
                            }
                            assert(parents_popped(par@, stack@)) by {
                                reveal(parents_popped);
                                assert forall|t2: int, k: int|
                                    0 <= t2 < stack@.len() && 1 <= k < par@.len() implies (
                                #[trigger] par@[k]) != (#[trigger] stack@[t2]) by {
                                    if t2 < old_stack.len() {
                                        if k < old_par.len() {
                                        } else {
                                            assert(par@[k] == x_pos);
                                            assert(old_stack[t2] == stack@[t2]);
                                            if x_pos == stack@[t2] {
                                                assert(old_stack[t2] as int == x_pos as int);
                                                assert(seq_has(old_stack, x_pos as int));
                                            }
                                        }
                                    } else {
                                        assert(stack@[t2] == new_pos);
                                        if k < old_par.len() {
                                            assert(par@[k] < k);
                                        } else {
                                            assert(par@[k] == x_pos && x_pos < new_pos);
                                        }
                                    }
                                }
                            }
                            assert(settled_rows(*self, ord@, stack@, x_pos as int)) by {
                                reveal(settled_rows);
                                assert forall|k1: int|
                                    0 <= k1 < ord@.len() && k1 != x_pos && !seq_has(
                                        stack@,
                                        k1,
                                    ) implies (forall|jj: int|
                                    0 <= jj < self.order() && #[trigger] self.adj(
                                        (#[trigger] ord@[k1]) as int,
                                        jj,
                                    ) ==> seq_has(ord@, jj)) by {
                                    assert(!seq_has(old_stack, k1));
                                    assert(k1 < old_ord.len());
                                }
                            }
                            assert(settled_edges(*self, ord@, par@, stack@, x_pos as int)) by {
                                reveal(settled_edges);
                                reveal(settled_rows);
                                assert forall|k1: int, k2: int|
                                    0 <= k1 < ord@.len() && 0 <= k2 < ord@.len() && k1 != x_pos
                                        && !seq_has(stack@, k1) && #[trigger] self.adj(
                                        ord@[k1] as int,
                                        ord@[k2] as int,
                                    ) implies par@[k1] == k2 as usize || par@[k2]
                                    == k1 as usize by {
                                    assert(!seq_has(old_stack, k1));
                                    assert(k1 < old_ord.len());
                                    if k2 < old_ord.len() {
                                        assert(self.adj(old_ord[k1] as int, old_ord[k2] as int));
                                    } else {
                                        assert(self.adj(ord@[k1] as int, j as int));
                                        assert(seq_has(old_ord, j as int));
                                        assert(false);
                                    }
                                }
                            }
                        }
                    } else {
                        proof {
                            assert(x_pos > 0);
                            assert(ord@[par@[x_pos as int] as int] == j as usize);
                            assert(seq_has(ord@, j as int)) by {
                                assert(ord@[par@[x_pos as int] as int] as int == j as int);
                            }
                            assert forall|k2: int|
                                0 <= k2 < ord@.len() && ord@[k2] == j as usize implies par@[x_pos as int]
                                == k2 as usize by {
                                assert(ord@[par@[x_pos as int] as int] == ord@[k2]);
                            }
                        }
                    }
                }
                j += 1;
            }
            proof {
                assert(settled_rows(*self, ord@, stack@, -1)) by {
                    reveal(settled_rows);
                    assert forall|k1: int|
                        0 <= k1 < ord@.len() && !seq_has(stack@, k1) implies (forall|jj: int|
                        0 <= jj < self.order() && #[trigger] self.adj(
                            (#[trigger] ord@[k1]) as int,
                            jj,
                        ) ==> seq_has(ord@, jj)) by {
                        if k1 == x_pos {
                            assert(forall|jj: int|
                                0 <= jj < n && #[trigger] self.adj(x as int, jj) ==> seq_has(
                                    ord@,
                                    jj,
                                ));
                        }
                    }
                }
                assert(settled_edges(*self, ord@, par@, stack@, -1)) by {
                    reveal(settled_edges);
                    assert forall|k1: int, k2: int|
                        0 <= k1 < ord@.len() && 0 <= k2 < ord@.len() && !seq_has(stack@, k1)
                            && #[trigger] self.adj(ord@[k1] as int, ord@[k2] as int) implies
                        par@[k1] == k2 as usize || par@[k2] == k1 as usize by {
                        if k1 == x_pos {
                            assert(ord@[k2] < n);
                            assert(self.adj(x as int, ord@[k2] as int));
                        }
                    }
                }
            }
        }
        proof {
            assert forall|j: int| 0 <= j < n && reachable(*self, 0, j) implies seq_has(
                ord@,
                j,
            ) by {
                let p = choose|p: Seq<int>|
                    crate::traversal::is_path(*self, p) && p.first() == 0 && p.last() == j;
                assert forall|x: int, jj: int|
                    0 <= x < self.order() && 0 <= jj < self.order() && visited@[x]
                        && #[trigger] self.adj(x, jj) implies visited@[jj] by {
                    let h = choose|h: int| 0 <= h < ord@.len() && #[trigger] ord@[h] as int == x;
                    assert(!seq_has(stack@, h));
                    assert forall|j2: int|
                        0 <= j2 < self.order() && #[trigger] self.adj(ord@[h] as int, j2) implies
                        seq_has(ord@, j2) by {
                        reveal(settled_rows);
                    }
                }
                crate::properties::lemma_component_closed(*self, visited@, p);
            }
            assert(tree_shape(*self, ord@, par@));
            assert(tree_covers(*self, ord@, par@)) by {
                reveal(settled_edges);
            }
            assert forall|j: int| 0 <= j < n && seq_has(ord@, j) implies reachable(
                *self,
                0,
                j,
            ) by {
                let k = choose|k: int| 0 <= k < ord@.len() && #[trigger] ord@[k] as int == j;
                lemma_tree_reaches(*self, ord@, par@, k);
            }
            assert(spans_component(*self, 0, ord@));
        }
        (true, None)
    }

    /// Whether the whole graph is one connected component: true for an
    /// empty graph, otherwise true exactly when a breadth-first search from
    /// the first vertex discovers as many vertices as the graph has.
    pub fn is_connex(&self) -> (r: bool)
        requires
            self.wf(),
        ensures
            r == (self.order() == 0 || forall|j: int|
                0 <= j < self.order() ==> reachable(*self, 0, j)),
    {
        let n = self.vertex_count();
        if n == 0 {
            return true;
        }
        let (ord, _dist, _edges) = self.bfs_indices(0);
        let count = ord.len();
        proof {
            if count == n {
                assert forall|j: int| 0 <= j < n implies reachable(*self, 0, j) by {
                    if !seq_has(ord@, j) {
                        lemma_positions_saturated(ord@, n as int);
                        assert(seq_has(ord@, j));
                    }
                }
            } else {
                assert(!(forall|j: int| 0 <= j < self.order() ==> reachable(*self, 0, j))) by {
                    if forall|j: int| 0 <= j < self.order() ==> reachable(*self, 0, j) {
                        assert forall|j: int| 0 <= j < n implies seq_has(ord@, j) by {
                            assert(reachable(*self, 0, j));
                        }
                        lemma_positions_covering(ord@, n as int);
                        lemma_distinct_bounded_pub(ord@, n as int);
                        assert(false);
                    }
                }
            }
        }
        count == n
    }
}

/// Reachability runs backwards too: undirected edges make the relation
/// symmetric.
pub proof fn lemma_reach_symmetric<T>(g: Graph<T>, i: int, j: int)
    requires
        g.wf(),
        reachable(g, i, j),
    ensures
        reachable(g, j, i),
{
    let p = choose|p: Seq<int>|
        crate::traversal::is_path(g, p) && p.first() == i && p.last() == j;
    let q = p.reverse();
    assert(q.len() == p.len());
    assert(forall|t: int| 0 <= t < q.len() ==> #[trigger] q[t] == p[p.len() - 1 - t]);
    assert(crate::traversal::is_path(g, q)) by {
        assert forall|t: int| 0 <= t < q.len() - 1 implies g.adj(#[trigger] q[t], q[t + 1]) by {
            assert(g.adj(p[p.len() - 2 - t], p[p.len() - 1 - t]));
        }
    }
    assert(q.first() == j && q.last() == i);
}

/// Reachability chains: a path to a vertex continues along any path from
/// that vertex.
pub proof fn lemma_reach_transitive<T>(g: Graph<T>, i: int, j: int, k: int)
    requires
        reachable(g, i, j),
        reachable(g, j, k),
    ensures
        reachable(g, i, k),
{
    let p = choose|p: Seq<int>|
        crate::traversal::is_path(g, p) && p.first() == i && p.last() == j;
    let q = choose|q: Seq<int>|
        crate::traversal::is_path(g, q) && q.first() == j && q.last() == k;
    let r = p + q.drop_first();
    assert(forall|t: int| 0 <= t < p.len() ==> #[trigger] r[t] == p[t]);
    assert(forall|t: int|
        p.len() <= t < r.len() ==> #[trigger] r[t] == q[t - p.len() + 1]);
    assert(crate::traversal::is_path(g, r)) by {
        assert forall|t: int| 0 <= t < r.len() - 1 implies g.adj(#[trigger] r[t], r[t + 1]) by {
            if t < p.len() - 1 {
                assert(g.adj(p[t], p[t + 1]));
            } else if t == p.len() - 1 {
                assert(r[t] == j && r[t + 1] == q[1]);
                assert(g.adj(q[0], q[1]));
            } else {
                assert(g.adj(q[t - p.len()], q[t - p.len() + 1]));
            }
        }
    }
    assert(r.first() == i);
    assert(r.last() == k);
}

/// A path from inside a vertex list to outside it crosses the border
/// somewhere: two consecutive path steps with only the first one listed.
proof fn lemma_find_crossing<T>(g: Graph<T>, ord: Seq<usize>, p: Seq<int>)
    requires
        crate::traversal::is_path(g, p),
        seq_has(ord, p.first()),
        !seq_has(ord, p.last()),
    ensures
        exists|i: int|
            0 <= i < p.len() - 1 && seq_has(ord, #[trigger] p[i]) && !seq_has(ord, p[i + 1]),
    decreases p.len(),
{
    assert(p.len() >= 2);
    if !seq_has(ord, p[1]) {
        assert(seq_has(ord, p[0]) && !seq_has(ord, p[1]));
    } else {
        let q = p.drop_first();
        assert(forall|t: int| 0 <= t < q.len() ==> #[trigger] q[t] == p[t + 1]);
        assert(crate::traversal::is_path(g, q));
        assert(q.last() == p.last());
        lemma_find_crossing(g, ord, q);
        let i = choose|i: int|
            0 <= i < q.len() - 1 && seq_has(ord, #[trigger] q[i]) && !seq_has(ord, q[i + 1]);
        assert(seq_has(ord, p[i + 1]) && !seq_has(ord, p[i + 2]));
    }
}

/// Any tree laid over part of a graph extends to a tree that spans the
/// whole connected component of its root: repeatedly attach, by its border
/// edge, a reachable vertex that is still missing.
pub proof fn lemma_extend_to_spanning<T>(g: Graph<T>, ord: Seq<usize>, par: Seq<usize>) -> (r: (
    Seq<usize>,
    Seq<usize>,
))
    requires
        g.wf(),
        g.order() <= usize::MAX,
        tree_shape(g, ord, par),
        forall|k: int|
            0 <= k < ord.len() ==> reachable(g, ord[0] as int, (#[trigger] ord[k]) as int),
    ensures
        tree_shape(g, r.0, r.1),
        ord.len() <= r.0.len(),
        forall|k: int| 0 <= k < ord.len() ==> #[trigger] r.0[k] == ord[k],
        forall|k: int| 0 <= k < par.len() ==> #[trigger] r.1[k] == par[k],
        spans_component(g, ord[0] as int, r.0),
    decreases g.order() - ord.len(),
{
    assert(ord.len() <= g.order()) by {
        lemma_distinct_bounded_pub(ord, g.order());
    }
    if exists|j: int| 0 <= j < g.order() && #[trigger] reachable(g, ord[0] as int, j) && !seq_has(
        ord,
        j,
    ) {
        let j = choose|j: int|
            0 <= j < g.order() && #[trigger] reachable(g, ord[0] as int, j) && !seq_has(ord, j);
        let p = choose|p: Seq<int>|
            crate::traversal::is_path(g, p) && p.first() == ord[0] as int && p.last() == j;
        assert(seq_has(ord, p.first())) by {
            assert(ord[0] as int == p.first());
            assert(0 <= 0 < ord.len() && ord[0] as int == p.first());
        }
        lemma_find_crossing(g, ord, p);
        let i = choose|i: int|
            0 <= i < p.len() - 1 && seq_has(ord, #[trigger] p[i]) && !seq_has(ord, p[i + 1]);
        let u = p[i];
        let w = p[i + 1];
        assert(g.adj(u, w));
        assert(0 <= w < g.order());
        assert(reachable(g, ord[0] as int, w)) by {
            let pw = p.subrange(0, i + 2);
            assert(forall|t: int| 0 <= t < pw.len() ==> #[trigger] pw[t] == p[t]);
            assert(crate::traversal::is_path(g, pw));
            assert(pw.first() == ord[0] as int && pw.last() == w);
        }
        if ord.len() == g.order() {
            lemma_positions_saturated(ord, g.order());
            assert(seq_has(ord, j));
            assert(false);
        }
        let upos = choose|k: int| 0 <= k < ord.len() && #[trigger] ord[k] as int == u;
        let ord2 = ord.push(w as usize);
        let par2 = par.push(upos as usize);
        assert(tree_shape(g, ord2, par2)) by {
            assert(forall|k: int| 0 <= k < ord.len() ==> #[trigger] ord2[k] == ord[k]);
            assert(forall|k: int| 0 <= k < par.len() ==> #[trigger] par2[k] == par[k]);
            assert(ord2[ord.len() as int] == w as usize);
            assert(par2[ord.len() as int] == upos as usize);
            assert forall|k1: int, k2: int| 0 <= k1 < k2 < ord2.len() implies ord2[k1]
                != ord2[k2] by {
                if k2 == ord2.len() - 1 {
                    if ord[k1] == w as usize {
                        assert(seq_has(ord, w));
                    }
                }
            }
            assert(g.adj(ord2[par2[ord.len() as int] as int] as int, ord2[ord.len() as int] as int))
                by {
                assert(ord2[upos] == ord[upos]);
            }
        }
        assert forall|k: int| 0 <= k < ord2.len() implies reachable(
            g,
            ord2[0] as int,
            (#[trigger] ord2[k]) as int,
        ) by {
            if k < ord.len() {
                assert(ord2[k] == ord[k]);
            } else {
                assert(ord2[k] == w as usize);
                assert(ord2[k] as int == w);
            }
        }
        let res = lemma_extend_to_spanning(g, ord2, par2);
        assert(res.0[0] == ord2[0] && ord2[0] == ord[0]);
        res
    } else {
        assert(spans_component(g, ord[0] as int, ord)) by {
            assert forall|j: int| 0 <= j < g.order() implies ((#[trigger] reachable(
                g,
                ord[0] as int,
                j,
            )) <==> (#[trigger] seq_has(ord, j))) by {
                if seq_has(ord, j) {
                    let k = choose|k: int| 0 <= k < ord.len() && #[trigger] ord[k] as int == j;
                }
            }
        }
        (ord, par)
    }
}

/// All ordered adjacency pairs of the graph: each undirected edge counts
/// twice, once per orientation.
pub open spec fn edge_pairs<T>(g: Graph<T>) -> Set<(int, int)> {
    Set::new(
        |pr: (int, int)| 0 <= pr.0 < g.order() && 0 <= pr.1 < g.order() && g.adj(pr.0, pr.1),
    )
}

/// The ordered pair along the tree edge above position `kk`, parent first.
pub open spec fn pair_down(ord: Seq<usize>, par: Seq<usize>, kk: int) -> (int, int) {
    (ord[par[kk] as int] as int, ord[kk] as int)
}

/// The ordered pair along the tree edge above position `kk`, child first.
pub open spec fn pair_up(ord: Seq<usize>, par: Seq<usize>, kk: int) -> (int, int) {
    (ord[kk] as int, ord[par[kk] as int] as int)
}

/// The ordered adjacency pairs contributed by the first `k` positions of a
/// tree certificate: both orientations of every tree edge.
pub open spec fn tree_pairs(ord: Seq<usize>, par: Seq<usize>, k: int) -> Set<(int, int)>
    decreases k,
{
    if k <= 1 {
        Set::empty()
    } else {
        tree_pairs(ord, par, k - 1).insert(pair_down(ord, par, k - 1)).insert(
            pair_up(ord, par, k - 1),
        )
    }
}

/// A tree on `k` listed vertices contributes exactly `2·(k-1)` ordered
/// pairs — its members are precisely the two orientations of its edges.
pub proof fn lemma_tree_pairs_facts<T>(g: Graph<T>, ord: Seq<usize>, par: Seq<usize>, k: int)
    requires
        tree_shape(g, ord, par),
        1 <= k <= ord.len(),
    ensures
        tree_pairs(ord, par, k).finite(),
        tree_pairs(ord, par, k).len() == 2 * (k - 1),
        forall|pr: (int, int)|
            #[trigger] tree_pairs(ord, par, k).contains(pr) <==> exists|kk: int|
                1 <= kk < k && (pr == #[trigger] pair_down(ord, par, kk) || pr == pair_up(
                    ord,
                    par,
                    kk,
                )),
    decreases k,
{
    broadcast use vstd::set::group_set_axioms;

    if k > 1 {
        lemma_tree_pairs_facts(g, ord, par, k - 1);
        let old = tree_pairs(ord, par, k - 1);
        let dn = pair_down(ord, par, k - 1);
        let up = pair_up(ord, par, k - 1);
        assert(dn != up) by {
            assert(ord[par[k - 1] as int] != ord[k - 1]);
        }
        assert(!old.contains(dn)) by {
            if old.contains(dn) {
                let kk = choose|kk: int|
                    1 <= kk < k - 1 && (dn == #[trigger] pair_down(ord, par, kk) || dn == pair_up(
                        ord,
                        par,
                        kk,
                    ));
                if dn == pair_down(ord, par, kk) {
                    assert(ord[kk] == ord[k - 1]);
                    assert(kk == k - 1);
                } else {
                    assert(ord[par[kk] as int] == ord[k - 1]);
                    assert(par[kk] == (k - 1) as usize);
                    assert(par[kk] < kk);
                }
            }
        }
        assert(!old.insert(dn).contains(up)) by {
            if old.contains(up) {
                let kk = choose|kk: int|
                    1 <= kk < k - 1 && (up == #[trigger] pair_down(ord, par, kk) || up == pair_up(
                        ord,
                        par,
                        kk,
                    ));
                if up == pair_down(ord, par, kk) {
                    assert(ord[par[kk] as int] == ord[k - 1]);
                    assert(par[kk] == (k - 1) as usize);
                    assert(par[kk] < kk);
                } else {
                    assert(ord[kk] == ord[k - 1]);
                    assert(kk == k - 1);
                }
            }
        }
        assert(tree_pairs(ord, par, k) == old.insert(dn).insert(up));
        assert(tree_pairs(ord, par, k).len() == 2 * (k - 1));
        assert forall|pr: (int, int)| #[trigger] tree_pairs(ord, par, k).contains(pr) implies
            exists|kk: int|
                1 <= kk < k && (pr == #[trigger] pair_down(ord, par, kk) || pr == pair_up(
                    ord,
                    par,
                    kk,
                )) by {
            if pr == dn || pr == up {
                assert(1 <= k - 1 < k && (pr == pair_down(ord, par, k - 1) || pr == pair_up(
                    ord,
                    par,
                    k - 1,
                )));
            } else {
                assert(old.insert(dn).insert(up).contains(pr));
                vstd::set::axiom_set_insert_different(old.insert(dn), pr, up);
                vstd::set::axiom_set_insert_different(old, pr, dn);
                assert(old.contains(pr));
            }
        }
        assert forall|pr: (int, int)|
            exists|kk: int|
                1 <= kk < k && (pr == #[trigger] pair_down(ord, par, kk) || pr == pair_up(
                    ord,
                    par,
                    kk,
                )) implies #[trigger] tree_pairs(ord, par, k).contains(pr) by {
            let kk = choose|kk: int|
                1 <= kk < k && (pr == #[trigger] pair_down(ord, par, kk) || pr == pair_up(
                    ord,
                    par,
                    kk,
                ));
            if kk < k - 1 {
                assert(1 <= kk < k - 1 && (pr == pair_down(ord, par, kk) || pr == pair_up(
                    ord,
                    par,
                    kk,
                )));
                assert(exists|kk2: int|
                    1 <= kk2 < k - 1 && (pr == #[trigger] pair_down(ord, par, kk2) || pr
                        == pair_up(ord, par, kk2)));
                assert(old.contains(pr));
                assert(old.insert(dn).contains(pr));
                assert(old.insert(dn).insert(up).contains(pr));
            } else {
                assert(pr == dn || pr == up);
                assert(old.insert(dn).insert(up).contains(pr));
            }
        }
    }
}

/// Both orientations of each single tree edge are members of the tree's
/// pair set.
pub proof fn lemma_tree_pairs_member<T>(
    g: Graph<T>,
    ord: Seq<usize>,
    par: Seq<usize>,
    k: int,
    kk: int,
)
    requires
        tree_shape(g, ord, par),
        1 <= k <= ord.len(),
        1 <= kk < k,
    ensures
        tree_pairs(ord, par, k).contains(pair_down(ord, par, kk)),
        tree_pairs(ord, par, k).contains(pair_up(ord, par, kk)),
    decreases k,
{
    broadcast use vstd::set::group_set_axioms;

    let prev = tree_pairs(ord, par, k - 1);
    let dn = pair_down(ord, par, k - 1);
    let up = pair_up(ord, par, k - 1);
    assert(tree_pairs(ord, par, k) == prev.insert(dn).insert(up));
    if kk == k - 1 {
        assert(prev.insert(dn).contains(dn));
        assert(prev.insert(dn).insert(up).contains(dn));
        assert(prev.insert(dn).insert(up).contains(up));
    } else {
        lemma_tree_pairs_member(g, ord, par, k - 1, kk);
        assert(prev.insert(dn).insert(up).contains(pair_down(ord, par, kk)));
        assert(prev.insert(dn).insert(up).contains(pair_up(ord, par, kk)));
    }
}

/// The pairs with a fixed first component and second component below `n`
/// form a finite set.
proof fn lemma_strip_finite_second(c: int, n: int)
    requires
        n >= 0,
    ensures
        (Set::new(|pr: (int, int)| pr.0 == c && 0 <= pr.1 < n)).finite(),
    decreases n,
{
    broadcast use vstd::set::group_set_axioms;

    if n == 0 {
        assert(Set::new(|pr: (int, int)| pr.0 == c && 0 <= pr.1 < n) =~= Set::<(int, int)>::empty());
    } else {
        lemma_strip_finite_second(c, n - 1);
        assert(Set::new(|pr: (int, int)| pr.0 == c && 0 <= pr.1 < n) =~= Set::new(
            |pr: (int, int)| pr.0 == c && 0 <= pr.1 < n - 1,
        ).insert((c, n - 1)));
    }
}

/// The pairs of components each below `n` form a finite set.
proof fn lemma_pair_box_finite(n: int)
    requires
        n >= 0,
    ensures
        (Set::new(|pr: (int, int)| 0 <= pr.0 < n && 0 <= pr.1 < n)).finite(),
    decreases n,
{
    broadcast use vstd::set::group_set_axioms;

    if n == 0 {
        assert(Set::new(|pr: (int, int)| 0 <= pr.0 < n && 0 <= pr.1 < n)
            =~= Set::<(int, int)>::empty());
    } else {
        lemma_pair_box_finite(n - 1);
        lemma_strip_finite_second(n - 1, n);
        lemma_strip_finite_second(n - 1, n - 1);
        let prev = Set::new(|pr: (int, int)| 0 <= pr.0 < n - 1 && 0 <= pr.1 < n - 1);
        let col = Set::new(|pr: (int, int)| pr.0 == n - 1 && 0 <= pr.1 < n);
        let row_swapped = Set::new(|pr: (int, int)| pr.0 == n - 1 && 0 <= pr.1 < n - 1);
        let row = row_swapped.map(|pr: (int, int)| (pr.1, pr.0));
        assert(row.finite()) by {
            row_swapped.lemma_map_finite(|pr: (int, int)| (pr.1, pr.0));
        }
        assert forall|pr: (int, int)|
            0 <= pr.0 < n - 1 && pr.1 == n - 1 implies #[trigger] row.contains(pr) by {
            assert(row_swapped.contains((pr.1, pr.0)));
        }
        assert(Set::new(|pr: (int, int)| 0 <= pr.0 < n && 0 <= pr.1 < n) =~= prev.union(
            col,
        ).union(row));
    }
}

/// The set of ordered adjacency pairs of a graph is finite.
pub proof fn lemma_edge_pairs_finite<T>(g: Graph<T>)
    ensures
        edge_pairs(g).finite(),
{
    broadcast use vstd::set::group_set_axioms;

    lemma_pair_box_finite(g.order());
    vstd::set_lib::lemma_len_subset(
        edge_pairs(g),
        Set::new(|pr: (int, int)| 0 <= pr.0 < g.order() && 0 <= pr.1 < g.order()),
    );
}

/// A connected graph on `n >= 1` vertices with exactly `n - 1` edges —
/// `2·(n-1)` ordered adjacency pairs — admits no cycle witness: no tree
/// laid over it from the first vertex leaves an edge that belongs to the
/// tree in neither direction. Together with `is_tree`'s contract this says
/// `is_tree` on such a graph always reports `(true, None)`.
pub proof fn lemma_spanning_edge_count_excludes_cycle<T>(
    g: Graph<T>,
    ord: Seq<usize>,
    par: Seq<usize>,
)
    requires
        g.wf(),
        1 <= g.order() <= usize::MAX,
        forall|j: int| 0 <= j < g.order() ==> reachable(g, 0, j),
        edge_pairs(g).len() == 2 * (g.order() - 1),
        tree_shape(g, ord, par),
        ord[0] == 0usize,
    ensures
        tree_covers(g, ord, par),
{
    broadcast use vstd::set::group_set_axioms;

    let n = g.order();
    assert forall|k: int| 0 <= k < ord.len() implies reachable(
        g,
        ord[0] as int,
        (#[trigger] ord[k]) as int,
    ) by {
        assert(reachable(g, 0, ord[k] as int));
    }
    let full = lemma_extend_to_spanning(g, ord, par);
    let ordf = full.0;
    let parf = full.1;
    assert forall|j: int| 0 <= j < n implies seq_has(ordf, j) by {
        assert(reachable(g, 0, j));
    }
    lemma_positions_covering(ordf, n);
    lemma_distinct_bounded_pub(ordf, n);
    assert(ordf.len() == n);
    lemma_tree_pairs_facts(g, ordf, parf, n);
    let tp = tree_pairs(ordf, parf, n);
    lemma_edge_pairs_finite(g);
    assert forall|k1: int, k2: int|
        0 <= k1 < ord.len() && 0 <= k2 < ord.len() && #[trigger] g.adj(
            ord[k1] as int,
            ord[k2] as int,
        ) implies par[k1] == k2 as usize || par[k2] == k1 as usize by {
        if par[k1] != k2 as usize && par[k2] != k1 as usize {
            assert(k1 != k2) by {
                if k1 == k2 {
                    assert(!g.adj(ord[k1] as int, ord[k1] as int));
                }
            }
            let e1 = (ordf[k1] as int, ordf[k2] as int);
    let e2 = (ordf[k2] as int, ordf[k1] as int);
    assert(ordf[k1] == ord[k1] && ordf[k2] == ord[k2]);
    assert(!tp.contains(e1)) by {
        if tp.contains(e1) {
            let kk = choose|kk: int|
                1 <= kk < n && (e1 == #[trigger] pair_down(ordf, parf, kk) || e1 == pair_up(
                    ordf,
                    parf,
                    kk,
                ));
            if e1 == pair_down(ordf, parf, kk) {
                assert(ordf[kk] == ordf[k2]);
                assert(kk == k2);
                assert(ordf[parf[k2] as int] == ordf[k1]);
                assert(parf[k2] as int == k1);
                assert(parf[k2] == par[k2]);
            } else {
                assert(ordf[kk] == ordf[k1]);
                assert(kk == k1);
                assert(ordf[parf[k1] as int] == ordf[k2]);
                assert(parf[k1] as int == k2);
                assert(parf[k1] == par[k1]);
            }
        }
    }
    assert(!tp.contains(e2)) by {
        if tp.contains(e2) {
            let kk = choose|kk: int|
                1 <= kk < n && (e2 == #[trigger] pair_down(ordf, parf, kk) || e2 == pair_up(
                    ordf,
                    parf,
                    kk,
                ));
            if e2 == pair_down(ordf, parf, kk) {
                assert(ordf[kk] == ordf[k1]);
                assert(kk == k1);
                assert(ordf[parf[k1] as int] == ordf[k2]);
                assert(parf[k1] as int == k2);
                assert(parf[k1] == par[k1]);
            } else {
                assert(ordf[kk] == ordf[k2]);
                assert(kk == k2);
                assert(ordf[parf[k2] as int] == ordf[k1]);
                assert(parf[k2] as int == k1);
                assert(parf[k2] == par[k2]);
            }
        }
    }
    assert(e1 != e2) by {
        assert(ordf[k1] != ordf[k2]);
    }
    let s = tp.insert(e1).insert(e2);
    assert(s.len() == 2 * (n - 1) + 2);
    assert(s.subset_of(edge_pairs(g))) by {
        assert forall|pr: (int, int)| s.contains(pr) implies edge_pairs(g).contains(pr) by {
            if pr == e1 || pr == e2 {
                assert(g.adj(ordf[k2] as int, ordf[k1] as int));
            } else {
                vstd::set::axiom_set_insert_different(tp.insert(e1), pr, e2);
                vstd::set::axiom_set_insert_different(tp, pr, e1);
                assert(tp.contains(pr));
                assert(exists|kk: int|
                    1 <= kk < n && (pr == #[trigger] pair_down(ordf, parf, kk) || pr == pair_up(
                        ordf,
                        parf,
                        kk,
                    )));
                let kk = choose|kk: int|
                    1 <= kk < n && (pr == #[trigger] pair_down(ordf, parf, kk) || pr == pair_up(
                        ordf,
                        parf,
                        kk,
                    ));
                assert(1 <= kk < ordf.len());
                assert(parf[kk] < kk);
                assert(g.adj(ordf[parf[kk] as int] as int, ordf[kk] as int));
                assert(g.adj(ordf[kk] as int, ordf[parf[kk] as int] as int));
            }
        }
    }
            vstd::set_lib::lemma_len_subset(s, edge_pairs(g));
            assert(2 * (n - 1) + 2 <= 2 * (n - 1));
            assert(false);
        }
    }
}

/// Adding any single further edge to a spanning tree on at least three
/// vertices leaves a graph on which no tree can cover all edges: no
/// certificate of the kind `is_tree` emits for a success can exist, so
/// `is_tree` reports `(false, Some(_))` there.
pub proof fn lemma_extra_edge_breaks_tree<T>(
    g: Graph<T>,
    ordt: Seq<usize>,
    part: Seq<usize>,
    a: int,
    b: int,
    ord2: Seq<usize>,
    par2: Seq<usize>,
)
    requires
        g.wf(),
        3 <= g.order() <= usize::MAX,
        tree_shape(g, ordt, part),
        ordt.len() == g.order(),
        0 <= a < g.order(),
        0 <= b < g.order(),
        a != b,
        g.adj(a, b),
        !tree_pairs(ordt, part, g.order()).contains((a, b)),
        forall|i: int, j: int|
            0 <= i < g.order() && 0 <= j < g.order() && #[trigger] g.adj(i, j) ==> ((i, j) == (
            a,
            b,
            ) || (i, j) == (b, a) || tree_pairs(ordt, part, g.order()).contains((i, j))),
        tree_shape(g, ord2, par2),
        spans_component(g, 0, ord2),
    ensures
        !tree_covers(g, ord2, par2),
{
    broadcast use vstd::set::group_set_axioms;

    if !tree_covers(g, ord2, par2) {
        return;
    }
    let n = g.order();
    lemma_positions_saturated(ordt, n);
    lemma_tree_pairs_facts(g, ordt, part, n);
    assert forall|j: int| 0 <= j < n implies reachable(g, 0, j) by {
        assert(seq_has(ordt, 0));
        assert(seq_has(ordt, j));
        let k0 = choose|k: int| 0 <= k < ordt.len() && #[trigger] ordt[k] as int == 0;
        let kj = choose|k: int| 0 <= k < ordt.len() && #[trigger] ordt[k] as int == j;
        assert(0 <= k0 < ordt.len() && 0 <= kj < ordt.len());
        lemma_tree_reaches(g, ordt, part, k0);
        lemma_tree_reaches(g, ordt, part, kj);
        lemma_reach_symmetric(g, ordt[0] as int, 0);
        lemma_reach_transitive(g, 0, ordt[0] as int, j);
    }
    assert forall|j: int| 0 <= j < n implies seq_has(ord2, j) by {
        assert(reachable(g, 0, j));
    }
    lemma_positions_covering(ord2, n);
    lemma_distinct_bounded_pub(ord2, n);
    assert(ord2.len() == n);
    lemma_tree_pairs_facts(g, ord2, par2, n);
    let tp2 = tree_pairs(ord2, par2, n);
    assert(edge_pairs(g).subset_of(tp2)) by {
        assert forall|pr: (int, int)| edge_pairs(g).contains(pr) implies tp2.contains(pr) by {
            let i = pr.0;
            let j = pr.1;
            assert(g.adj(i, j));
            assert(seq_has(ord2, i));
            assert(seq_has(ord2, j));
            let ki = choose|k: int| 0 <= k < ord2.len() && #[trigger] ord2[k] as int == i;
            let kj = choose|k: int| 0 <= k < ord2.len() && #[trigger] ord2[k] as int == j;
            assert(0 <= ki < ord2.len() && ord2[ki] as int == i);
            assert(0 <= kj < ord2.len() && ord2[kj] as int == j);
            assert(ki != kj) by {
                if i == j {
                    assert(!g.adj(i, i));
                }
            }
            assert(g.adj(ord2[ki] as int, ord2[kj] as int));
            assert(par2[ki] == kj as usize || par2[kj] == ki as usize);
            if par2[ki] == kj as usize {
                assert(ki != 0) by {
                    if ki == 0 {
                        assert(par2[0] == 0);
                    }
                }
                assert(pr == pair_up(ord2, par2, ki));
                lemma_tree_pairs_member(g, ord2, par2, n, ki);
            } else {
                assert(kj != 0) by {
                    if kj == 0 {
                        assert(par2[0] == 0);
                    }
                }
                assert(pr == pair_down(ord2, par2, kj));
                lemma_tree_pairs_member(g, ord2, par2, n, kj);
            }
        }
    }
    vstd::set_lib::lemma_len_subset(edge_pairs(g), tp2);
    let tpt = tree_pairs(ordt, part, n);
    assert(!tpt.contains((b, a))) by {
        if tpt.contains((b, a)) {
            let kk = choose|kk: int|
                1 <= kk < n && ((b, a) == #[trigger] pair_down(ordt, part, kk) || (b, a)
                    == pair_up(ordt, part, kk));
            if (b, a) == pair_down(ordt, part, kk) {
                assert((a, b) == pair_up(ordt, part, kk));
            } else {
                assert((a, b) == pair_down(ordt, part, kk));
            }
            assert(tpt.contains((a, b)));
        }
    }
    let s = tpt.insert((a, b)).insert((b, a));
    assert((a, b) != (b, a));
    assert(s.len() == 2 * (n - 1) + 2);
    assert(s.subset_of(edge_pairs(g))) by {
        assert forall|pr: (int, int)| s.contains(pr) implies edge_pairs(g).contains(pr) by {
            if pr == (a, b) || pr == (b, a) {
                assert(g.adj(b, a));
            } else {
                vstd::set::axiom_set_insert_different(tpt.insert((a, b)), pr, (b, a));
                vstd::set::axiom_set_insert_different(tpt, pr, (a, b));
                assert(tpt.contains(pr));
                let kk = choose|kk: int|
                    1 <= kk < n && (pr == #[trigger] pair_down(ordt, part, kk) || pr == pair_up(
                        ordt,
                        part,
                        kk,
                    ));
                assert(1 <= kk < ordt.len());
                assert(part[kk] < kk);
                assert(g.adj(ordt[part[kk] as int] as int, ordt[kk] as int));
                assert(g.adj(ordt[kk] as int, ordt[part[kk] as int] as int));
            }
        }
    }
    vstd::set_lib::lemma_len_subset(s, edge_pairs(g));
    assert(2 * (n - 1) + 2 <= edge_pairs(g).len());
    assert(edge_pairs(g).len() <= 2 * (n - 1));
    assert(false);
}

/// `is_connex` agrees with "a breadth-first search from the first vertex
/// visits all vertices": for any traversal from vertex slot `0` of a
/// nonempty well-formed graph, the traversal discovered every vertex
/// exactly when every vertex is reachable from the first — the condition
/// `is_connex` answers.
pub proof fn lemma_connex_iff_bfs_visits_all<T>(
    g: Graph<T>,
    ord: Seq<usize>,
    edges: Seq<(usize, usize)>,
)
    requires
        g.wf(),
        g.order() > 0,
        crate::traversal::traversal_ok(g, 0, ord, edges),
    ensures
        (ord.len() == g.order()) <==> (forall|j: int|
            0 <= j < g.order() ==> reachable(g, 0, j)),
{
    let n = g.order();
    if ord.len() == n {
        assert forall|j: int| 0 <= j < n implies reachable(g, 0, j) by {
            if !seq_has(ord, j) {
                lemma_positions_saturated(ord, n);
                assert(seq_has(ord, j));
            }
        }
    } else {
        if forall|j: int| 0 <= j < n ==> reachable(g, 0, j) {
            assert forall|j: int| 0 <= j < n implies seq_has(ord, j) by {
                assert(reachable(g, 0, j));
            }
            lemma_positions_covering(ord, n);
            lemma_distinct_bounded_pub(ord, n);
            assert(false);
        }
    }
}

/// A duplicate-free sequence of `n` indices below `n` holds every index.
pub proof fn lemma_positions_saturated(s: Seq<usize>, n: int)
    requires
        0 <= n <= usize::MAX,
        s.len() == n,
        forall|k: int| 0 <= k < s.len() ==> (#[trigger] s[k]) < n,
        forall|k1: int, k2: int| 0 <= k1 < k2 < s.len() ==> s[k1] != s[k2],
    ensures
        forall|j: int| 0 <= j < n ==> seq_has(s, j),
{
    assert forall|j: int| 0 <= j < n implies seq_has(s, j) by {
        if !seq_has(s, j) {
            let s2 = s.push(j as usize);
            assert(forall|k: int| 0 <= k < s2.len() ==> (#[trigger] s2[k]) < n);
            assert forall|k1: int, k2: int| 0 <= k1 < k2 < s2.len() implies s2[k1] != s2[k2] by {
                if k2 == s2.len() - 1 {
                    assert(s2[k1] == s[k1]);
                    if s[k1] as int == j {
                        assert(seq_has(s, j));
                    }
                } else {
                    assert(s2[k1] == s[k1] && s2[k2] == s[k2]);
                }
            }
            crate::properties::lemma_distinct_bounded_pub(s2, n);
            assert(false);
        }
    }
}

/// A duplicate-free sequence of indices that covers all of `[0, n)` has at
/// least `n` entries.
pub proof fn lemma_positions_covering(s: Seq<usize>, n: int)
    requires
        0 <= n,
        forall|k: int| 0 <= k < s.len() ==> (#[trigger] s[k]) < n,
        forall|k1: int, k2: int| 0 <= k1 < k2 < s.len() ==> s[k1] != s[k2],
        forall|j: int| 0 <= j < n ==> seq_has(s, j),
    ensures
        s.len() >= n,
{
    broadcast use vstd::seq_lib::seq_to_set_is_finite;

    let si = s.map(|i: int, x: usize| x as int);
    assert(si.no_duplicates()) by {
        assert(forall|k1: int, k2: int|
            0 <= k1 < si.len() && 0 <= k2 < si.len() && k1 != k2 ==> #[trigger] si[k1]
                != #[trigger] si[k2]);
    }
    si.unique_seq_to_set();
    assert(vstd::set_lib::set_int_range(0, n).subset_of(si.to_set())) by {
        assert forall|j: int| 0 <= j < n implies si.to_set().contains(j) by {
            assert(seq_has(s, j));
            let k = choose|k: int| 0 <= k < s.len() && #[trigger] s[k] as int == j;
            assert(si[k] == j);
            assert(si.contains(j));
        }
    }
    vstd::set_lib::lemma_int_range(0, n);
    vstd::set_lib::lemma_len_subset(vstd::set_lib::set_int_range(0, n), si.to_set());
}

/// A duplicate-free sequence of indices below `n` has at most `n` entries.
pub proof fn lemma_distinct_bounded_pub(s: Seq<usize>, n: int)
    requires
        0 <= n,
        forall|k: int| 0 <= k < s.len() ==> (#[trigger] s[k]) < n,
        forall|k1: int, k2: int| 0 <= k1 < k2 < s.len() ==> s[k1] != s[k2],
    ensures
        s.len() <= n,
{
    broadcast use vstd::seq_lib::seq_to_set_is_finite;

    let si = s.map(|i: int, x: usize| x as int);
    assert(si.no_duplicates()) by {
        assert(forall|k1: int, k2: int|
            0 <= k1 < si.len() && 0 <= k2 < si.len() && k1 != k2 ==> #[trigger] si[k1]
                != #[trigger] si[k2]);
    }
    si.unique_seq_to_set();
    assert(si.to_set().subset_of(vstd::set_lib::set_int_range(0, n))) by {
        assert(forall|v: int| si.to_set().contains(v) ==> si.contains(v));
        assert(forall|k: int| 0 <= k < si.len() ==> 0 <= #[trigger] si[k] < n);
    }
    vstd::set_lib::lemma_int_range(0, n);
    vstd::set_lib::lemma_len_subset(si.to_set(), vstd::set_lib::set_int_range(0, n));
}

/// Walking a path keeps us inside marks that hold the path's start and are
/// closed under adjacency.
pub proof fn lemma_component_closed<T>(g: Graph<T>, vis: Seq<bool>, p: Seq<int>)
    requires
        vis.len() == g.order(),
        crate::traversal::is_path(g, p),
        vis[p.first()],
        forall|x: int, j: int|
            0 <= x < g.order() && 0 <= j < g.order() && vis[x] && #[trigger] g.adj(x, j)
                ==> vis[j],
    ensures
        vis[p.last()],
    decreases p.len(),
{
    if p.len() > 1 {
        let q = p.drop_first();
        assert(forall|k: int| 0 <= k < q.len() ==> q[k] == #[trigger] p[k + 1]);
        assert(crate::traversal::is_path(g, q));
        assert(g.adj(p[0], p[1]));
        assert(vis[q.first()]);
        lemma_component_closed(g, vis, q);
        assert(q.last() == p.last());
    }
}

} // verus!
