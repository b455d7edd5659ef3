//! An in-memory undirected-graph library.
//!
//! A [`Graph`] stores an ordered list of named vertices ([`Node`]) together
//! with a symmetric, irreflexive boolean adjacency relation ([`AdjMatrix`]).
//! Construction validates the whole structure atomically; afterwards only
//! vertex names and payloads may change, never the edge set.

pub mod drawing;
pub mod properties;
pub mod traversal;
pub mod utils;

use vstd::prelude::*;

verus! {

/// Basic node type, which the graph connects. Changing its name or its value
/// does not change the structure of the graph: structural identity is the
/// node's position in the owning graph's vertex list.
#[derive(Clone, Debug, PartialEq, Eq, Copy, Hash)]
pub struct Node<T> {
    pub name: char,
    pub value: T,
}

impl<T> Node<T> {
    /// Convenience constructor; building the struct directly works as well.
    pub fn new(name: char, value: T) -> (r: Self)
        ensures
            r.name == name,
            r.value == value,
    {
        Self { name, value }
    }
}

/// Rejections raised while validating an input adjacency matrix or the vertex
/// names handed to [`Graph::from_matrix`].
#[derive(Debug)]
pub enum FromMatrixError {
    IsNotSymmetric,
    NodesArentUnique,
    NonEmptyDiagonal,
}

/// Rejections raised while deriving a graph from an adjacency-list
/// description in [`Graph::from_list`].
#[derive(Debug)]
pub enum FromListError {
    NodesArentUnique,
    SelfReferentialNode,
    MalformedLists,
}

/// The adjacency matrix: always square, symmetric, and with `false` down the
/// whole diagonal. `true` means the two vertex slots are adjacent.
#[derive(Clone, Debug, PartialEq, Eq)]
pub struct AdjMatrix {
    values: Vec<bool>,
    n: usize,
}

/// The cell of a square boolean input matrix at column `x` of row `y`.
pub open spec fn mat_at<const N: usize>(m: [[bool; N]; N], x: int, y: int) -> bool {
    m@[y]@[x]
}

/// Some cell of column `y` disagrees with its mirror cell.
pub open spec fn asym_col<const N: usize>(m: [[bool; N]; N], y: int) -> bool {
    exists|x: int| 0 <= x < N && mat_at(m, x, y) != mat_at(m, y, x)
}

/// Column `y` passes both validation checks: no asymmetry witnessed in it and
/// a `false` diagonal cell.
pub open spec fn col_clean<const N: usize>(m: [[bool; N]; N], y: int) -> bool {
    !asym_col(m, y) && !mat_at(m, y, y)
}

impl AdjMatrix {
    /// Number of vertex slots of the relation.
    pub closed spec fn dim(&self) -> int {
        self.n as int
    }

    /// The stored relation between slots `x` and `y`; meaningful for
    /// `0 <= x < dim` and `0 <= y < dim`.
    pub closed spec fn at(&self, x: int, y: int) -> bool {
        self.values@[x + self.n * y]
    }

    /// The backing vector holds one boolean per ordered slot pair.
    pub closed spec fn store_full(&self) -> bool {
        self.values@.len() == self.dim() * self.dim()
    }

    /// Well-formedness: a full square store, symmetric and irreflexive.
    pub open spec fn wf(&self) -> bool {
        &&& self.store_full()
        &&& forall|x: int, y: int|
            0 <= x < self.dim() && 0 <= y < self.dim() ==> #[trigger] self.at(x, y) == self.at(
                y,
                x,
            )
        &&& forall|x: int| 0 <= x < self.dim() ==> !(#[trigger] self.at(x, x))
    }

    /// Validates a square boolean matrix and adopts it. The scan walks the
    /// columns in order; inside one column an asymmetric pair is reported
    /// before a set diagonal cell. Nothing is adopted on failure.
    pub fn from_mat<const N: usize>(m: [[bool; N]; N]) -> (r: Result<Self, FromMatrixError>)
        ensures
            match r {
                Ok(a) => {
                    &&& a.wf()
                    &&& a.dim() == N as int
                    &&& forall|x: int, y: int|
                        0 <= x < N && 0 <= y < N ==> a.at(x, y) == mat_at(m, x, y)
                    &&& forall|y: int| 0 <= y < N ==> col_clean(m, y)
                },
                Err(e) => {
                    &&& !(forall|y: int| 0 <= y < N ==> col_clean(m, y))
                    &&& (e == FromMatrixError::IsNotSymmetric ==> exists|y: int|
                        0 <= y < N && #[trigger] asym_col(m, y) && (forall|z: int|
                            0 <= z < y ==> col_clean(m, z)))
                    &&& (e == FromMatrixError::NonEmptyDiagonal ==> exists|y: int|
                        0 <= y < N && #[trigger] mat_at(m, y, y) && !asym_col(m, y) && (forall|
                            z: int,
                        |
                            0 <= z < y ==> col_clean(m, z)))
                    &&& e != FromMatrixError::NodesArentUnique
                },
            },
    {
        for y in 0..N
            invariant
                forall|z: int| 0 <= z < y ==> col_clean(m, z),
        {
            for x in 0..N
                invariant
                    y < N,
                    forall|z: int| 0 <= z < y ==> col_clean(m, z),
                    forall|w: int| 0 <= w < x ==> mat_at(m, w, y as int) == mat_at(m, y as int, w),
            {
                if m[x][y] != m[y][x] {
                    proof {
                        assert(mat_at(m, x as int, y as int) != mat_at(m, y as int, x as int));
                        assert(asym_col(m, y as int));
                        assert(!col_clean(m, y as int));
                    }
                    return Err(FromMatrixError::IsNotSymmetric);
                }
            }
            if m[y][y] {
                proof {
                    assert(mat_at(m, y as int, y as int));
                    assert(!asym_col(m, y as int));
                    assert(!col_clean(m, y as int));
                }
                return Err(FromMatrixError::NonEmptyDiagonal);
            }
            assert(col_clean(m, y as int));
        }
        let mut values: Vec<bool> = Vec::new();
        let mut y: usize = 0;
        while y < N
            invariant
                y <= N,
                forall|z: int| 0 <= z < N ==> col_clean(m, z),
                values@.len() == (y as int) * (N as int),
                forall|t: int|
                    0 <= t < values@.len() ==> #[trigger] values@[t] == mat_at(
                        m,
                        t % (N as int),
                        t / (N as int),
                    ),
            decreases N - y,
        {
            proof {
                assert(((y + 1) as int) * (N as int) == (y as int) * (N as int) + (N as int))
                    by (nonlinear_arith);
            }
            let mut x: usize = 0;
            while x < N
                invariant
                    y < N,
                    x <= N,
                    forall|z: int| 0 <= z < N ==> col_clean(m, z),
                    values@.len() == (y as int) * (N as int) + x,
                    forall|t: int|
                        0 <= t < values@.len() ==> #[trigger] values@[t] == mat_at(
                            m,
                            t % (N as int),
                            t / (N as int),
                        ),
                decreases N - x,
            {
                values.push(m[y][x]);
                proof {
                    let t = values@.len() - 1;
                    vstd::arithmetic::div_mod::lemma_fundamental_div_mod_converse(
                        t,
                        N as int,
                        y as int,
                        x as int,
                    );
                    assert(t == (y as int) * (N as int) + (x as int));
                    assert(values@[t] == mat_at(m, t % (N as int), t / (N as int)));
                }
                x += 1;
            }
            y += 1;
        }
        let a = AdjMatrix { values, n: N };
        proof {
            assert forall|x: int, y: int| 0 <= x < N && 0 <= y < N implies #[trigger] a.at(x, y)
                == mat_at(m, x, y) by {
                let t = x + (N as int) * y;
                assert(t == y * (N as int) + x);
                assert(x + (N as int) * y < (N as int) * (N as int)) by (nonlinear_arith)
                    requires
                        0 <= x < N,
                        0 <= y < N,
                ;
                vstd::arithmetic::div_mod::lemma_fundamental_div_mod_converse(t, N as int, y, x);
            }
            assert forall|x: int, y: int| 0 <= x < N && 0 <= y < N implies #[trigger] a.at(x, y)
                == a.at(y, x) by {
                assert(col_clean(m, y));
                assert(col_clean(m, x));
                assert(!asym_col(m, y));
                assert(mat_at(m, x, y) == mat_at(m, y, x));
            }
            assert forall|x: int| 0 <= x < N implies !(#[trigger] a.at(x, x)) by {
                assert(col_clean(m, x));
            }
        }
        Ok(a)
    }

    /// Looks the relation up by a pair of slot indices; `None` when either
    /// index lies outside `[0, dim)`.
    pub fn has_adjacency(&self, a: usize, b: usize) -> (r: Option<bool>)
        requires
            self.wf(),
        ensures
            r == if a < self.dim() && b < self.dim() {
                Some(self.at(a as int, b as int))
            } else {
                None::<bool>
            },
    {
        if a >= self.n || b >= self.n {
            None
        } else {
            let len = self.values.len();
            proof {
                assert(a + self.n * b < self.n * self.n) by (nonlinear_arith)
                    requires
                        a < self.n,
                        b < self.n,
                ;
                assert(a + self.n * b < len);
            }
            // The matrix is symmetric, so `a` and `b` could also be swapped.
            Some(self.values[crate::utils::coords_to_idx(a, b, self.n)])
        }
    }

    /// The full relation row of slot `x`, one boolean per vertex slot.
    pub fn get_adjacent(&self, x: usize) -> (r: &[bool])
        requires
            self.wf(),
            x < self.dim(),
        ensures
            r@.len() == self.dim(),
            forall|j: int| 0 <= j < self.dim() ==> r@[j] == self.at(x as int, j),
    {
        let len = self.values.len();
        proof {
            assert((x + 1) * self.n <= self.n * self.n && x * self.n + self.n == (x + 1) * self.n)
                by (nonlinear_arith)
                requires
                    x < self.n,
            ;
            assert((x + 1) * self.n <= len);
        }
        let row = &self.values[x * self.n..(x + 1) * self.n];
        proof {
            assert forall|j: int| 0 <= j < self.dim() implies row@[j] == self.at(x as int, j) by {
                assert(row@[j] == self.values@[x * self.n + j]);
                assert(x * self.n + j == j + self.n * (x as int)) by (nonlinear_arith);
                assert(self.at(j, x as int) == self.at(x as int, j));
            }
        }
        row
    }
}

/// The names of a sequence of nodes, in order.
pub open spec fn node_names<T>(s: Seq<Node<T>>) -> Seq<char> {
    s.map(|i: int, nd: Node<T>| nd.name)
}

/// Vertex-name conflicts raised while renaming a node.
#[derive(Debug)]
pub enum NodeNameChangeError {
    NameAlreadyTaken,
    NodeNotFound,
}

/// All node mentions of an adjacency-list description, in input order: each
/// entry contributes its primary node first, then its listed neighbours.
pub open spec fn list_mentions<T>(lists: Seq<(Node<T>, Vec<Node<T>>)>) -> Seq<Node<T>>
    decreases lists.len(),
{
    if lists.len() == 0 {
        Seq::empty()
    } else {
        list_mentions(lists.drop_last()) + seq![lists.last().0] + lists.last().1@
    }
}

/// Two mentions carry the same name around different payloads: the implied
/// vertex set cannot have unique names.
pub open spec fn name_clash<T>(ms: Seq<Node<T>>) -> bool {
    exists|p: int, q: int|
        0 <= p < q < ms.len() && (#[trigger] ms[p]).name == (#[trigger] ms[q]).name && ms[p]
            != ms[q]
}

/// The position of the first occurrence of `c` in `s`, if any.
pub open spec fn first_pos(s: Seq<char>, c: char) -> Option<int> {
    if exists|e: int|
        0 <= e < s.len() && #[trigger] s[e] == c && (forall|d: int| 0 <= d < e ==> s[d] != c) {
        Some(
            choose|e: int|
                0 <= e < s.len() && #[trigger] s[e] == c && (forall|d: int|
                    0 <= d < e ==> s[d] != c),
        )
    } else {
        None
    }
}

/// The primary names of the entries of an adjacency-list description.
pub open spec fn entry_names_of<T>(lists: Seq<(Node<T>, Vec<Node<T>>)>) -> Seq<char> {
    lists.map(|i: int, e: (Node<T>, Vec<Node<T>>)| e.0.name)
}

/// Index of the first entry whose primary node is named `c`, if any.
pub open spec fn primary_entry<T>(lists: Seq<(Node<T>, Vec<Node<T>>)>, c: char) -> Option<int> {
    first_pos(entry_names_of(lists), c)
}

/// The adjacency the description claims for the ordered name pair `(a, b)`:
/// whether the first entry declaring `a` lists a node named `b`.
pub open spec fn declared<T>(lists: Seq<(Node<T>, Vec<Node<T>>)>, a: char, b: char) -> bool {
    match primary_entry(lists, a) {
        Some(e) => node_names(lists[e].1@).contains(b),
        None => false,
    }
}

/// The names of all mentions, in order.
pub open spec fn mention_names<T>(lists: Seq<(Node<T>, Vec<Node<T>>)>) -> Seq<char> {
    node_names(list_mentions(lists))
}

/// The name-level conditions under which an adjacency-list description
/// derives a graph: every implied vertex has a primary entry, no vertex
/// declares itself, and the declarations agree in both directions.
pub open spec fn lists_consistent<T>(lists: Seq<(Node<T>, Vec<Node<T>>)>) -> bool {
    let u = crate::utils::dedup_first(mention_names(lists));
    &&& forall|i: int| 0 <= i < u.len() ==> (#[trigger] primary_entry(lists, u[i])) is Some
    &&& forall|i: int| 0 <= i < u.len() ==> !(#[trigger] declared(lists, u[i], u[i]))
    &&& forall|i: int, j: int|
        0 <= i < u.len() && 0 <= j < u.len() ==> #[trigger] declared(lists, u[i], u[j]) == declared(
            lists,
            u[j],
            u[i],
        )
}

/// Order-preserving de-duplication of nodes keyed by name: keeps the first
/// mention of each name, drops every later one.
pub open spec fn dedup_first_by_name<T>(s: Seq<Node<T>>) -> Seq<Node<T>>
    decreases s.len(),
{
    if s.len() == 0 {
        Seq::empty()
    } else {
        let d = dedup_first_by_name(s.drop_last());
        if node_names(d).contains(s.last().name) {
            d
        } else {
            d.push(s.last())
        }
    }
}

/// The vertex list a successful list construction stores: the first mention
/// of each distinct name, in mention order.
pub open spec fn uniq_nodes<T>(lists: Seq<(Node<T>, Vec<Node<T>>)>) -> Seq<Node<T>> {
    dedup_first_by_name(list_mentions(lists))
}

/// De-duplicating nodes by name and de-duplicating the name sequence agree.
pub proof fn lemma_dedup_by_name<T>(s: Seq<Node<T>>)
    ensures
        node_names(dedup_first_by_name(s)) =~= crate::utils::dedup_first(node_names(s)),
    decreases s.len(),
{
    if s.len() > 0 {
        lemma_dedup_by_name(s.drop_last());
        assert(node_names(s).drop_last() =~= node_names(s.drop_last()));
        assert(node_names(s).last() == s.last().name);
        let d = dedup_first_by_name(s.drop_last());
        let dn = crate::utils::dedup_first(node_names(s.drop_last()));
        assert(node_names(d) == dn);
        if !node_names(d).contains(s.last().name) {
            assert(node_names(d.push(s.last())) =~= node_names(d).push(s.last().name));
        }
    }
}

/// Reverses a vector.
fn reversed<A>(v: Vec<A>) -> (r: Vec<A>)
    ensures
        r@ =~= v@.reverse(),
{
    let ghost orig = v@;
    let mut src = v;
    let mut out: Vec<A> = Vec::new();
    while src.len() > 0
        invariant
            orig =~= src@ + out@.reverse(),
        decreases src@.len(),
    {
        let ghost before = out@;
        let x = src.pop().unwrap();
        out.push(x);
        proof {
            assert(out@.reverse() =~= seq![x] + before.reverse());
            assert(orig =~= src@ + out@.reverse());
        }
    }
    proof {
        assert(orig =~= out@.reverse());
        assert(out@ =~= orig.reverse());
    }
    out
}

/// For every well-formed graph — hence for every graph either constructor
/// hands out — the adjacency relation is symmetric and irreflexive, over
/// all index pairs.
pub proof fn lemma_adjacency_symmetric_irreflexive<T>(g: Graph<T>)
    requires
        g.wf(),
    ensures
        forall|i: int, j: int|
            0 <= i < g.order() && 0 <= j < g.order() ==> #[trigger] g.adj(i, j) == g.adj(j, i),
        forall|i: int| 0 <= i < g.order() ==> !(#[trigger] g.adj(i, i)),
{
}

/// Adjacency queries by names answer the same in both orders, for every
/// pair of vertex names of any well-formed graph.
pub proof fn lemma_has_adjacency_symmetric<T>(g: Graph<T>, a: char, b: char)
    requires
        g.wf(),
    ensures
        g.spec_has_adjacency(a, b) == g.spec_has_adjacency(b, a),
{
    if g.names().contains(a) && g.names().contains(b) {
        let ia = g.name_index(a);
        let ib = g.name_index(b);
        assert(0 <= ia < g.order() && g.names()[ia] == a);
        assert(0 <= ib < g.order() && g.names()[ib] == b);
        assert(g.adj(ia, ib) == g.adj(ib, ia));
    }
}

/// Two well-formed graphs that carry the same vertex names in the same
/// order over the same adjacency relation answer every adjacency query by
/// names alike — in particular, building the same graph once from a matrix
/// and once from an adjacency-list description yields identical answers
/// for every vertex pair.
pub proof fn lemma_constructions_agree<T>(g1: Graph<T>, g2: Graph<T>, a: char, b: char)
    requires
        g1.wf(),
        g2.wf(),
        g1.names() == g2.names(),
        forall|i: int, j: int|
            0 <= i < g1.order() && 0 <= j < g1.order() ==> #[trigger] g1.adj(i, j) == g2.adj(i, j),
    ensures
        g1.spec_has_adjacency(a, b) == g2.spec_has_adjacency(a, b),
{
    assert(g1.order() == g2.order()) by {
        assert(g1.names().len() == g1.order());
        assert(g2.names().len() == g2.order());
    }
    if g1.names().contains(a) && g1.names().contains(b) {
        let i1 = g1.name_index(a);
        let i2 = g2.name_index(a);
        assert(0 <= i1 < g1.order() && g1.names()[i1] == a);
        assert(0 <= i2 < g2.order() && g2.names()[i2] == a);
        assert(i1 == i2);
        let j1 = g1.name_index(b);
        let j2 = g2.name_index(b);
        assert(0 <= j1 < g1.order() && g1.names()[j1] == b);
        assert(0 <= j2 < g2.order() && g2.names()[j2] == b);
        assert(j1 == j2);
        assert(g1.adj(i1, j1) == g2.adj(i2, j2));
    }
}

/// Flattens an adjacency-list description into the primary-name sequence,
/// the per-entry neighbour-name rows, and the owned mention sequence.
#[allow(clippy::type_complexity)]
fn flatten_lists<T>(lists: Vec<(Node<T>, Vec<Node<T>>)>) -> (r: (
    Vec<char>,
    Vec<Vec<char>>,
    Vec<Node<T>>,
))
    ensures
        r.0@.len() == lists@.len(),
        forall|e: int| 0 <= e < lists@.len() ==> r.0@[e] == lists@[e].0.name,
        r.1@.len() == lists@.len(),
        forall|e: int| 0 <= e < lists@.len() ==> #[trigger] r.1@[e]@ =~= node_names(lists@[e].1@),
        r.2@ =~= list_mentions(lists@),
{
    let ghost orig = lists@;
    let mut entry_names: Vec<char> = Vec::new();
    let mut entry_adjs: Vec<Vec<char>> = Vec::new();
    let mut mentions: Vec<Node<T>> = Vec::new();
    let mut src = reversed(lists);
    let ghost mut k: int = 0;
    while src.len() > 0
        invariant
            0 <= k <= orig.len(),
            src@.len() == orig.len() - k,
            forall|t: int| 0 <= t < src@.len() ==> src@[t] == orig[orig.len() - 1 - t],
            entry_names@.len() == k,
            forall|e: int| 0 <= e < k ==> entry_names@[e] == orig[e].0.name,
            entry_adjs@.len() == k,
            forall|e: int| 0 <= e < k ==> #[trigger] entry_adjs@[e]@ =~= node_names(orig[e].1@),
            mentions@ =~= list_mentions(orig.take(k)),
        decreases src@.len(),
    {
        let (main, adjs) = src.pop().unwrap();
        proof {
            assert(main == orig[k].0 && adjs == orig[k].1);
        }
        entry_names.push(main.name);
        mentions.push(main);
        let ghost adj_nodes = adjs@;
        let mut row: Vec<char> = Vec::new();
        let mut asrc = reversed(adjs);
        let ghost mut j: int = 0;
        while asrc.len() > 0
            invariant
                0 <= j <= adj_nodes.len(),
                asrc@.len() == adj_nodes.len() - j,
                forall|t: int|
                    0 <= t < asrc@.len() ==> asrc@[t] == adj_nodes[adj_nodes.len() - 1 - t],
                row@ =~= node_names(adj_nodes.take(j)),
                mentions@ =~= list_mentions(orig.take(k)) + seq![orig[k].0] + adj_nodes.take(j),
                0 <= k < orig.len(),
                adj_nodes == orig[k].1@,
            decreases asrc@.len(),
        {
            let a = asrc.pop().unwrap();
            proof {
                assert(a == adj_nodes[j]);
            }
            row.push(a.name);
            mentions.push(a);
            proof {
                assert(row@ =~= node_names(adj_nodes.take(j + 1)));
                assert(adj_nodes.take(j + 1) =~= adj_nodes.take(j).push(adj_nodes[j]));
                assert(mentions@ =~= list_mentions(orig.take(k)) + seq![orig[k].0]
                    + adj_nodes.take(j + 1));
                j = j + 1;
            }
        }
        entry_adjs.push(row);
        proof {
            assert(adj_nodes.take(j) =~= adj_nodes);
            assert(orig.take(k + 1).drop_last() =~= orig.take(k));
            assert(orig.take(k + 1).last() == orig[k]);
            assert(list_mentions(orig.take(k + 1)) == list_mentions(orig.take(k)) + seq![
                orig[k].0,
            ] + orig[k].1@);
            assert(mentions@ =~= list_mentions(orig.take(k + 1)));
            k = k + 1;
        }
    }
    proof {
        assert(orig.take(k) =~= orig);
    }
    (entry_names, entry_adjs, mentions)
}

/// Whether two mentions share a name around payloads that `==` tells apart.
fn has_name_clash<T: Eq>(ms: &Vec<Node<T>>) -> (r: bool)
    ensures
        vstd::laws_eq::obeys_concrete_eq::<T>() ==> r == name_clash(ms@),
{
    let m = ms.len();
    let mut p: usize = 0;
    while p < m
        invariant
            m == ms@.len(),
            p <= m,
            vstd::laws_eq::obeys_concrete_eq::<T>() ==> forall|pp: int, qq: int|
                0 <= pp < p && pp < qq < m && (#[trigger] ms@[pp]).name == (
                #[trigger] ms@[qq]).name ==> ms@[pp] == ms@[qq],
        decreases m - p,
    {
        let mut q: usize = p + 1;
        while q < m
            invariant
                m == ms@.len(),
                p < q <= m,
                vstd::laws_eq::obeys_concrete_eq::<T>() ==> forall|pp: int, qq: int|
                    0 <= pp < p && pp < qq < m && (#[trigger] ms@[pp]).name == (
                    #[trigger] ms@[qq]).name ==> ms@[pp] == ms@[qq],
                vstd::laws_eq::obeys_concrete_eq::<T>() ==> forall|qq: int|
                    p < qq < q && ms@[p as int].name == (#[trigger] ms@[qq]).name ==> ms@[p as int]
                        == ms@[qq],
            decreases m - q,
        {
            if ms[p].name == ms[q].name {
                let values_agree = ms[p].value == ms[q].value;
                proof {
                    if vstd::laws_eq::obeys_concrete_eq::<T>() {
                        reveal(vstd::laws_eq::obeys_concrete_eq);
                        assert(values_agree == (ms@[p as int].value == ms@[q as int].value));
                    }
                }
                if !values_agree {
                    proof {
                        if vstd::laws_eq::obeys_concrete_eq::<T>() {
                            assert(ms@[p as int] != ms@[q as int]);
                            assert(name_clash(ms@));
                        }
                    }
                    return true;
                }
                proof {
                    if vstd::laws_eq::obeys_concrete_eq::<T>() {
                        assert(ms@[p as int] == ms@[q as int]);
                    }
                }
            }
            q += 1;
        }
        p += 1;
    }
    proof {
        if vstd::laws_eq::obeys_concrete_eq::<T>() {
            assert(!name_clash(ms@));
        }
    }
    false
}

/// The distinct mention names, keeping first occurrences in order.
fn dedup_names<T>(ms: &Vec<Node<T>>) -> (r: Vec<char>)
    ensures
        r@ =~= crate::utils::dedup_first(node_names(ms@)),
{
    let m = ms.len();
    let mut uniq: Vec<char> = Vec::new();
    let mut k: usize = 0;
    while k < m
        invariant
            m == ms@.len(),
            k <= m,
            uniq@ =~= crate::utils::dedup_first(node_names(ms@.take(k as int))),
        decreases m - k,
    {
        let c = ms[k].name;
        proof {
            assert(node_names(ms@.take(k + 1)).drop_last() =~= node_names(ms@.take(k as int)));
            assert(node_names(ms@.take(k + 1)).last() == c);
        }
        if !crate::utils::contains_char(&uniq, c) {
            uniq.push(c);
        }
        proof {
            assert(uniq@ =~= crate::utils::dedup_first(node_names(ms@.take(k + 1))));
        }
        k += 1;
    }
    proof {
        assert(ms@.take(m as int) =~= ms@);
    }
    uniq
}

/// For each distinct name, the index of the first entry declaring it;
/// `None` as soon as one name has no declaring entry.
fn find_primaries(entry_names: &Vec<char>, uniq: &Vec<char>) -> (r: Option<Vec<usize>>)
    ensures
        match r {
            Some(v) => {
                &&& v@.len() == uniq@.len()
                &&& forall|i: int|
                    0 <= i < uniq@.len() ==> first_pos(entry_names@, uniq@[i]) == Some(
                        #[trigger] v@[i] as int,
                    )
                &&& forall|i: int| 0 <= i < uniq@.len() ==> #[trigger] v@[i] < entry_names@.len()
            },
            None => exists|i: int|
                0 <= i < uniq@.len() && #[trigger] first_pos(entry_names@, uniq@[i]) is None,
        },
{
    let n = uniq.len();
    let en = entry_names.len();
    let mut prim: Vec<usize> = Vec::new();
    let mut i: usize = 0;
    while i < n
        invariant
            n == uniq@.len(),
            en == entry_names@.len(),
            i <= n,
            prim@.len() == i,
            forall|t: int|
                0 <= t < i ==> first_pos(entry_names@, uniq@[t]) == Some(#[trigger] prim@[t] as int),
            forall|t: int| 0 <= t < i ==> #[trigger] prim@[t] < entry_names@.len(),
        decreases n - i,
    {
        let c = uniq[i];
        let mut e: usize = 0;
        let mut found = false;
        while e < en && !found
            invariant
                en == entry_names@.len(),
                e <= en,
                !found ==> forall|d: int| 0 <= d < e ==> entry_names@[d] != c,
                found ==> e < en && entry_names@[e as int] == c && (forall|d: int|
                    0 <= d < e ==> entry_names@[d] != c),
            decreases en - e + if found {
                0int
            } else {
                1int
            },
        {
            if entry_names[e] == c {
                found = true;
            } else {
                e += 1;
            }
        }
        if !found {
            proof {
                assert(first_pos(entry_names@, c) is None);
            }
            return None;
        }
        proof {
            assert(first_pos(entry_names@, c) == Some(e as int));
        }
        prim.push(e);
        i += 1;
    }
    Some(prim)
}

/// The cell of a flat square boolean store of width `o` at column `x` of
/// row `y`.
pub open spec fn cell(values: Seq<bool>, o: int, x: int, y: int) -> bool {
    values[x + o * y]
}

/// The adjacency that the flattened description claims between the vertices
/// at positions `x` and `y` of the de-duplicated name list.
spec fn claims(entry_adjs: Seq<Vec<char>>, prim: Seq<usize>, uniq: Seq<char>, x: int, y: int) -> bool {
    entry_adjs[prim[x] as int]@.contains(uniq[y])
}

/// Derives the full flat adjacency store from the primary entries' neighbour
/// rows; `None` as soon as some vertex declares itself adjacent.
fn build_matrix(entry_adjs: &Vec<Vec<char>>, prim: &Vec<usize>, uniq: &Vec<char>) -> (r: Option<
    Vec<bool>,
>)
    requires
        prim@.len() == uniq@.len(),
        forall|i: int| 0 <= i < prim@.len() ==> #[trigger] prim@[i] < entry_adjs@.len(),
    ensures
        match r {
            Some(values) => {
                &&& values@.len() == uniq@.len() * uniq@.len()
                &&& forall|x: int, y: int|
                    0 <= x < uniq@.len() && 0 <= y < uniq@.len() ==> #[trigger] cell(
                        values@,
                        uniq@.len() as int,
                        x,
                        y,
                    ) == claims(entry_adjs@, prim@, uniq@, x, y)
                &&& forall|x: int|
                    0 <= x < uniq@.len() ==> !claims(entry_adjs@, prim@, uniq@, x, x)
            },
            None => exists|x: int|
                0 <= x < uniq@.len() && claims(entry_adjs@, prim@, uniq@, x, x),
        },
{
    let o = uniq.len();
    let mut values: Vec<bool> = Vec::new();
    let mut y: usize = 0;
    while y < o
        invariant
            o == uniq@.len(),
            prim@.len() == o,
            forall|i: int| 0 <= i < prim@.len() ==> #[trigger] prim@[i] < entry_adjs@.len(),
            y <= o,
            values@.len() == (y as int) * (o as int),
            forall|t: int|
                0 <= t < values@.len() ==> #[trigger] values@[t] == claims(
                    entry_adjs@,
                    prim@,
                    uniq@,
                    t % (o as int),
                    t / (o as int),
                ),
            forall|d: int| 0 <= d < y ==> !claims(entry_adjs@, prim@, uniq@, d, d),
        decreases o - y,
    {
        proof {
            assert(((y + 1) as int) * (o as int) == (y as int) * (o as int) + (o as int))
                by (nonlinear_arith);
        }
        let mut x: usize = 0;
        while x < o
            invariant
                o == uniq@.len(),
                prim@.len() == o,
                forall|i: int| 0 <= i < prim@.len() ==> #[trigger] prim@[i] < entry_adjs@.len(),
                y < o,
                x <= o,
                values@.len() == (y as int) * (o as int) + x,
                forall|t: int|
                    0 <= t < values@.len() ==> #[trigger] values@[t] == claims(
                        entry_adjs@,
                        prim@,
                        uniq@,
                        t % (o as int),
                        t / (o as int),
                    ),
                forall|d: int| 0 <= d < y ==> !claims(entry_adjs@, prim@, uniq@, d, d),
                x > y ==> !claims(entry_adjs@, prim@, uniq@, y as int, y as int),
            decreases o - x,
        {
            let adj = crate::utils::contains_char(&entry_adjs[prim[x]], uniq[y]);
            proof {
                assert(adj == claims(entry_adjs@, prim@, uniq@, x as int, y as int));
            }
            if x == y && adj {
                return None;
            }
            values.push(adj);
            proof {
                let t = values@.len() - 1;
                vstd::arithmetic::div_mod::lemma_fundamental_div_mod_converse(
                    t,
                    o as int,
                    y as int,
                    x as int,
                );
                assert(t == (y as int) * (o as int) + (x as int));
                assert(values@[t] == claims(entry_adjs@, prim@, uniq@, t % (o as int), t / (
                o as int)));
            }
            x += 1;
        }
        y += 1;
    }
    proof {
        assert forall|x: int, yy: int| 0 <= x < o && 0 <= yy < o implies #[trigger] cell(
            values@,
            o as int,
            x,
            yy,
        ) == claims(entry_adjs@, prim@, uniq@, x, yy) by {
            let t = x + (o as int) * yy;
            assert(t == yy * (o as int) + x);
            assert(x + (o as int) * yy < (o as int) * (o as int)) by (nonlinear_arith)
                requires
                    0 <= x < o,
                    0 <= yy < o,
            ;
            vstd::arithmetic::div_mod::lemma_fundamental_div_mod_converse(t, o as int, yy, x);
        }
    }
    Some(values)
}

/// Whether the flat square store of width `o` equals its own transpose.
fn check_symmetric(values: &Vec<bool>, o: usize) -> (r: bool)
    requires
        values@.len() == o * o,
    ensures
        r == forall|x: int, y: int|
            0 <= x < o && 0 <= y < o ==> #[trigger] cell(values@, o as int, x, y) == cell(
                values@,
                o as int,
                y,
                x,
            ),
{
    let mut y: usize = 0;
    while y < o
        invariant
            values@.len() == o * o,
            y <= o,
            forall|xx: int, yy: int|
                0 <= xx < o && 0 <= yy < y ==> #[trigger] cell(values@, o as int, xx, yy) == cell(
                    values@,
                    o as int,
                    yy,
                    xx,
                ),
        decreases o - y,
    {
        let mut x: usize = 0;
        while x < o
            invariant
                values@.len() == o * o,
                y < o,
                x <= o,
                forall|xx: int, yy: int|
                    0 <= xx < o && 0 <= yy < y ==> #[trigger] cell(values@, o as int, xx, yy)
                        == cell(values@, o as int, yy, xx),
                forall|xx: int|
                    0 <= xx < x ==> #[trigger] cell(values@, o as int, xx, y as int) == cell(
                        values@,
                        o as int,
                        y as int,
                        xx,
                    ),
            decreases o - x,
        {
            proof {
                assert(x + (o as int) * y < (o as int) * (o as int) && y + (o as int) * x < (
                o as int) * (o as int)) by (nonlinear_arith)
                    requires
                        0 <= x < o,
                        0 <= y < o,
                ;
            }
            let len = values.len();
            let i = crate::utils::coords_to_idx(x, y, o);
            let i_prime = crate::utils::coords_to_idx(y, x, o);
            proof {
                assert(i < len && i_prime < len);
            }
            if values[i] != values[i_prime] {
                proof {
                    assert(cell(values@, o as int, x as int, y as int) != cell(
                        values@,
                        o as int,
                        y as int,
                        x as int,
                    ));
                }
                return false;
            }
            proof {
                assert(cell(values@, o as int, x as int, y as int) == cell(
                    values@,
                    o as int,
                    y as int,
                    x as int,
                ));
            }
            x += 1;
        }
        y += 1;
    }
    true
}

/// Keeps the first mention of each distinct name, in mention order, handing
/// ownership of the kept nodes on.
fn select_nodes<T>(ms: Vec<Node<T>>) -> (r: Vec<Node<T>>)
    ensures
        r@ =~= dedup_first_by_name(ms@),
{
    let ghost all = ms@;
    let mut src = reversed(ms);
    let mut out: Vec<Node<T>> = Vec::new();
    let mut taken: Vec<char> = Vec::new();
    let ghost mut k: int = 0;
    while src.len() > 0
        invariant
            0 <= k <= all.len(),
            src@.len() == all.len() - k,
            forall|t: int| 0 <= t < src@.len() ==> src@[t] == all[all.len() - 1 - t],
            out@ =~= dedup_first_by_name(all.take(k)),
            taken@ =~= node_names(out@),
        decreases src@.len(),
    {
        let nd = src.pop().unwrap();
        proof {
            assert(nd == all[k]);
            assert(all.take(k + 1).drop_last() =~= all.take(k));
            assert(all.take(k + 1).last() == all[k]);
        }
        if !crate::utils::contains_char(&taken, nd.name) {
            taken.push(nd.name);
            proof {
                assert(node_names(out@.push(nd)) =~= node_names(out@).push(nd.name));
            }
            out.push(nd);
        }
        proof {
            assert(out@ =~= dedup_first_by_name(all.take(k + 1)));
            assert(taken@ =~= node_names(out@));
            k = k + 1;
        }
    }
    proof {
        assert(all.take(k) =~= all);
    }
    out
}

/// An undirected graph: an ordered vertex list plus one adjacency matrix
/// sized to it. The position of a node in the list is its row and column
/// index in the matrix. The edge set is fixed at construction; only node
/// names and payloads may change afterwards.
#[derive(Clone, Debug, PartialEq, Eq)]
pub struct Graph<T> {
    nodes: Vec<Node<T>>,
    edges: AdjMatrix,
}

impl<T> Graph<T> {
    /// The ordered vertex list.
    pub closed spec fn spec_nodes(&self) -> Seq<Node<T>> {
        self.nodes@
    }

    /// Number of vertices.
    pub open spec fn order(&self) -> int {
        self.spec_nodes().len() as int
    }

    /// The vertex names, in index order.
    pub open spec fn names(&self) -> Seq<char> {
        node_names(self.spec_nodes())
    }

    /// The adjacency relation between vertex slots `i` and `j`.
    pub closed spec fn adj(&self, i: int, j: int) -> bool {
        self.edges.at(i, j)
    }

    /// The matrix is well-formed and sized to the vertex list.
    pub closed spec fn edges_fit(&self) -> bool {
        self.edges.wf() && self.edges.dim() == self.spec_nodes().len()
    }

    /// Well-formedness: matrix sized to the vertex list, symmetric,
    /// irreflexive, and vertex names pairwise distinct.
    pub open spec fn wf(&self) -> bool {
        &&& self.edges_fit()
        &&& forall|i: int, j: int|
            0 <= i < self.order() && 0 <= j < self.order() ==> #[trigger] self.adj(i, j)
                == self.adj(j, i)
        &&& forall|i: int| 0 <= i < self.order() ==> !(#[trigger] self.adj(i, i))
        &&& forall|i: int, j: int|
            0 <= i < j < self.order() ==> self.names()[i] != self.names()[j]
    }

    /// The index of the vertex named `c`; meaningful when `names()` contains
    /// `c`, and unique for a well-formed graph.
    pub open spec fn name_index(&self, c: char) -> int {
        choose|i: int| 0 <= i < self.order() && self.names()[i] == c
    }

    /// What a name lookup yields: the node of the vertex named `c`, if any.
    pub open spec fn spec_get_node(&self, c: char) -> Option<Node<T>> {
        if self.names().contains(c) {
            Some(self.spec_nodes()[self.name_index(c)])
        } else {
            None
        }
    }

    /// What an adjacency query by names yields: `None` as soon as either
    /// name is absent, otherwise the stored relation.
    pub open spec fn spec_has_adjacency(&self, a: char, b: char) -> Option<bool> {
        if self.names().contains(a) && self.names().contains(b) {
            Some(self.adj(self.name_index(a), self.name_index(b)))
        } else {
            None
        }
    }

    /// Number of vertices, as a machine integer.
    pub(crate) fn vertex_count(&self) -> (r: usize)
        ensures
            r as int == self.order(),
    {
        self.nodes.len()
    }

    /// The node at vertex slot `i`.
    pub(crate) fn node_at(&self, i: usize) -> (r: &Node<T>)
        requires
            0 <= i < self.order(),
        ensures
            *r == self.spec_nodes()[i as int],
    {
        &self.nodes[i]
    }

    /// The adjacency row of vertex slot `x`, one boolean per vertex slot.
    pub(crate) fn neighbor_row(&self, x: usize) -> (r: &[bool])
        requires
            self.wf(),
            x < self.order(),
        ensures
            r@.len() == self.order(),
            forall|j: int| 0 <= j < self.order() ==> r@[j] == self.adj(x as int, j),
    {
        self.edges.get_adjacent(x)
    }

    /// Index of the first vertex named `c`.
    pub(crate) fn position_of(&self, c: char) -> (r: Option<usize>)
        ensures
            match r {
                Some(k) => {
                    &&& 0 <= k < self.order()
                    &&& self.names()[k as int] == c
                    &&& forall|j: int| 0 <= j < k ==> self.names()[j] != c
                    &&& self.names().contains(c)
                },
                None => !self.names().contains(c),
            },
    {
        let n = self.nodes.len();
        for k in 0..n
            invariant
                n == self.spec_nodes().len(),
                forall|j: int| 0 <= j < k ==> self.names()[j] != c,
        {
            if self.nodes[k].name == c {
                proof {
                    assert(self.names()[k as int] == c);
                    assert(self.names().contains(c));
                }
                return Some(k);
            }
            assert(self.names()[k as int] != c);
        }
        None
    }

    /// Builds a graph from `N` unique one-character names, one payload per
    /// name, and a symmetric zero-diagonal `N`-by-`N` adjacency matrix.
    /// The input order of the names becomes the permanent index order.
    pub fn from_matrix<const N: usize>(
        names: [char; N],
        values: Vec<T>,
        m: [[bool; N]; N],
    ) -> (r: Result<Self, FromMatrixError>)
        requires
            values@.len() == N,
        ensures
            match r {
                Ok(g) => {
                    &&& g.wf()
                    &&& g.order() == N as int
                    &&& g.names() =~= names@
                    &&& forall|k: int|
                        0 <= k < N ==> #[trigger] g.spec_nodes()[k] == (Node {
                            name: names@[k],
                            value: values@[k],
                        })
                    &&& forall|x: int, y: int|
                        0 <= x < N && 0 <= y < N ==> g.adj(x, y) == mat_at(m, x, y)
                    &&& !crate::utils::has_dup(names@)
                    &&& forall|y: int| 0 <= y < N ==> col_clean(m, y)
                },
                Err(e) => {
                    &&& (e == FromMatrixError::NodesArentUnique <==> crate::utils::has_dup(
                        names@,
                    ))
                    &&& (e != FromMatrixError::NodesArentUnique ==> !(forall|y: int|
                        0 <= y < N ==> col_clean(m, y)))
                    &&& (e == FromMatrixError::IsNotSymmetric ==> exists|y: int|
                        0 <= y < N && #[trigger] asym_col(m, y) && (forall|z: int|
                            0 <= z < y ==> col_clean(m, z)))
                    &&& (e == FromMatrixError::NonEmptyDiagonal ==> exists|y: int|
                        0 <= y < N && #[trigger] mat_at(m, y, y) && !asym_col(m, y) && (forall|
                            z: int,
                        |
                            0 <= z < y ==> col_clean(m, z)))
                },
            },
    {
        if crate::utils::has_duplicates(names.as_slice()) {
            return Err(FromMatrixError::NodesArentUnique);
        }
        let edges = match AdjMatrix::from_mat(m) {
            Ok(a) => a,
            Err(e) => {
                return Err(e);
            },
        };
        let ghost orig_values = values@;
        let mut values = values;
        let mut nodes: Vec<Node<T>> = Vec::new();
        let mut k: usize = 0;
        while k < N
            invariant
                k <= N,
                orig_values.len() == N,
                values@ =~= orig_values.skip(k as int),
                nodes@.len() == k,
                forall|t: int|
                    0 <= t < k ==> #[trigger] nodes@[t] == (Node {
                        name: names@[t],
                        value: orig_values[t],
                    }),
            decreases N - k,
        {
            let v = values.remove(0);
            assert(v == orig_values[k as int]);
            nodes.push(Node::new(names[k], v));
            proof {
                assert(values@ =~= orig_values.skip(k + 1));
            }
            k += 1;
        }
        let g = Graph { nodes, edges };
        proof {
            assert(g.names() =~= names@);
            assert forall|i: int, j: int| 0 <= i < j < g.order() implies g.names()[i]
                != g.names()[j] by {
                assert(!crate::utils::has_dup(names@));
            }
        }
        Ok(g)
    }

    /// Builds a graph from an adjacency-list description: an ordered
    /// collection of `(vertex, its declared neighbours)` entries. The implied
    /// vertex set collects every node mentioned, first occurrences first;
    /// repeated mentions must be exact repeats, every vertex needs an entry
    /// declaring it, no vertex may declare itself, and the declarations of
    /// every ordered pair must agree, or construction fails as a whole.
    pub fn from_list(lists: Vec<(Node<T>, Vec<Node<T>>)>) -> (r: Result<Self, FromListError>) where
        T: Eq,

        ensures
            match r {
                Ok(g) => {
                    &&& g.wf()
                    &&& g.spec_nodes() =~= uniq_nodes(lists@)
                    &&& g.names() =~= crate::utils::dedup_first(mention_names(lists@))
                    &&& forall|x: int, y: int|
                        0 <= x < g.order() && 0 <= y < g.order() ==> #[trigger] g.adj(x, y)
                            == declared(lists@, g.names()[x], g.names()[y])
                    &&& lists_consistent(lists@)
                },
                Err(e) => {
                    &&& e != FromListError::SelfReferentialNode
                    &&& (e == FromListError::MalformedLists ==> !lists_consistent(lists@))
                    &&& (vstd::laws_eq::obeys_concrete_eq::<T>() ==> (e
                        == FromListError::NodesArentUnique <==> name_clash(list_mentions(lists@))))
                },
            },
            vstd::laws_eq::obeys_concrete_eq::<T>() ==> ((r is Ok) <==> (!name_clash(
                list_mentions(lists@),
            ) && lists_consistent(lists@))),
    {
        let ghost orig = lists@;
        let (entry_names, entry_adjs, mentions) = flatten_lists(lists);
        let ghost ms = mentions@;
        proof {
            assert(entry_names@ =~= entry_names_of(orig));
        }
        if has_name_clash(&mentions) {
            return Err(FromListError::NodesArentUnique);
        }
        let uniq = dedup_names(&mentions);
        let ghost u = crate::utils::dedup_first(mention_names(orig));
        proof {
            assert(uniq@ =~= u);
        }
        let prim = match find_primaries(&entry_names, &uniq) {
            Some(p) => p,
            None => {
                proof {
                    let i = choose|i: int|
                        0 <= i < uniq@.len() && #[trigger] first_pos(entry_names@, uniq@[i])
                            is None;
                    assert(primary_entry(orig, u[i]) is None);
                    assert(!lists_consistent(orig));
                }
                return Err(FromListError::MalformedLists);
            },
        };
        proof {
            assert forall|x: int, y: int| 0 <= x < u.len() && 0 <= y < u.len() implies #[trigger]
            claims(entry_adjs@, prim@, uniq@, x, y) == declared(orig, u[x], u[y]) by {
                let e = prim@[x] as int;
                assert(first_pos(entry_names@, uniq@[x]) == Some(e));
                assert(primary_entry(orig, u[x]) == Some(e));
                assert(entry_adjs@[e]@ =~= node_names(orig[e].1@));
            }
        }
        let ordre = uniq.len();
        let values = match build_matrix(&entry_adjs, &prim, &uniq) {
            Some(v) => v,
            None => {
                proof {
                    let x = choose|x: int|
                        0 <= x < uniq@.len() && claims(entry_adjs@, prim@, uniq@, x, x);
                    assert(declared(orig, u[x], u[x]));
                    assert(!lists_consistent(orig));
                }
                return Err(FromListError::MalformedLists);
            },
        };
        if !check_symmetric(&values, ordre) {
            proof {
                let (x, y) = choose|x: int, y: int|
                    0 <= x < ordre && 0 <= y < ordre && #[trigger] cell(
                        values@,
                        ordre as int,
                        x,
                        y,
                    ) != cell(values@, ordre as int, y, x);
                assert(claims(entry_adjs@, prim@, uniq@, x, y) != claims(
                    entry_adjs@,
                    prim@,
                    uniq@,
                    y,
                    x,
                ));
                assert(declared(orig, u[x], u[y]) != declared(orig, u[y], u[x]));
                assert(!lists_consistent(orig));
            }
            return Err(FromListError::MalformedLists);
        }
        let nodes = select_nodes(mentions);
        proof {
            lemma_dedup_by_name(ms);
            crate::utils::lemma_dedup_first_distinct(node_names(ms));
            assert(node_names(nodes@) == u);
            assert(nodes@.len() == u.len());
        }
        let edges = AdjMatrix { values, n: ordre };
        let g = Graph { nodes, edges };
        proof {
            assert(g.order() == ordre);
            assert forall|x: int, y: int| 0 <= x < ordre && 0 <= y < ordre implies #[trigger] g.adj(
                x,
                y,
            ) == cell(values@, ordre as int, x, y) by {}
            assert(g.edges.store_full());
            assert forall|x: int, y: int|
                0 <= x < ordre && 0 <= y < ordre implies #[trigger] g.edges.at(x, y) == g.edges.at(
                y,
                x,
            ) by {
                assert(g.edges.at(x, y) == cell(values@, ordre as int, x, y));
                assert(g.edges.at(y, x) == cell(values@, ordre as int, y, x));
            }
            assert forall|x: int| 0 <= x < ordre implies !(#[trigger] g.edges.at(x, x)) by {
                assert(g.edges.at(x, x) == cell(values@, ordre as int, x, x));
                assert(!claims(entry_adjs@, prim@, uniq@, x, x));
            }
            assert(g.edges.wf());
            assert(g.names() == node_names(nodes@));
            assert forall|i: int, j: int| 0 <= i < j < g.order() implies g.names()[i]
                != g.names()[j] by {}
            assert(g.wf());
            assert forall|x: int, y: int| 0 <= x < g.order() && 0 <= y < g.order() implies
                #[trigger] g.adj(x, y) == declared(orig, g.names()[x], g.names()[y]) by {
                assert(g.adj(x, y) == claims(entry_adjs@, prim@, uniq@, x, y));
            }
            assert(lists_consistent(orig)) by {
                assert forall|i: int| 0 <= i < u.len() implies (#[trigger] primary_entry(
                    orig,
                    u[i],
                )) is Some by {
                    assert(first_pos(entry_names@, uniq@[i]) == Some(prim@[i] as int));
                }
                assert forall|i: int| 0 <= i < u.len() implies !(#[trigger] declared(
                    orig,
                    u[i],
                    u[i],
                )) by {
                    assert(!claims(entry_adjs@, prim@, uniq@, i, i));
                }
                assert forall|i: int, j: int| 0 <= i < u.len() && 0 <= j < u.len() implies
                    #[trigger] declared(orig, u[i], u[j]) == declared(orig, u[j], u[i]) by {
                    assert(cell(values@, ordre as int, i, j) == cell(values@, ordre as int, j, i));
                    assert(claims(entry_adjs@, prim@, uniq@, i, j) == claims(
                        entry_adjs@,
                        prim@,
                        uniq@,
                        j,
                        i,
                    ));
                }
            }
            assert(g.spec_nodes() =~= uniq_nodes(orig));
        }
        Ok(g)
    }

    /// Looks a node up by name; `None` when no vertex carries that name.
    pub fn get_node(&self, x: char) -> (r: Option<&Node<T>>)
        requires
            self.wf(),
        ensures
            match r {
                Some(nd) => self.spec_get_node(x) == Some(*nd),
                None => self.spec_get_node(x) is None,
            },
    {
        match self.position_of(x) {
            Some(k) => Some(&self.nodes[k]),
            None => None,
        }
    }

    /// Resolves both names to indices and reads the stored relation; `None`
    /// when either name is absent from the graph.
    pub fn has_adjacency(&self, a: char, b: char) -> (r: Option<bool>)
        requires
            self.wf(),
        ensures
            r == self.spec_has_adjacency(a, b),
    {
        let a_idx = match self.position_of(a) {
            Some(k) => k,
            None => {
                return None;
            },
        };
        let b_idx = match self.position_of(b) {
            Some(k) => k,
            None => {
                return None;
            },
        };
        self.edges.has_adjacency(a_idx, b_idx)
    }

    /// The nodes adjacent to vertex slot `i`, in index order, as a prefix
    /// recursion over the first `m` slots.
    pub open spec fn neighbors_upto(&self, i: int, m: int) -> Seq<Node<T>>
        decreases m,
    {
        if m <= 0 {
            Seq::empty()
        } else {
            let p = self.neighbors_upto(i, m - 1);
            if self.adj(i, m - 1) {
                p.push(self.spec_nodes()[m - 1])
            } else {
                p
            }
        }
    }

    /// All nodes adjacent to vertex slot `i`, in index order.
    pub open spec fn neighbor_nodes(&self, i: int) -> Seq<Node<T>> {
        self.neighbors_upto(i, self.order())
    }

    /// The nodes adjacent to the vertex named `c`, in index order; `None`
    /// when no vertex carries that name.
    pub fn adjacent_nodes(&self, c: char) -> (r: Option<Vec<&Node<T>>>)
        requires
            self.wf(),
        ensures
            match r {
                Some(v) => {
                    &&& self.names().contains(c)
                    &&& v@.map_values(|p: &Node<T>| *p) =~= self.neighbor_nodes(
                        self.name_index(c),
                    )
                },
                None => !self.names().contains(c),
            },
    {
        let i = match self.position_of(c) {
            Some(k) => k,
            None => {
                return None;
            },
        };
        let is_part_of = self.edges.get_adjacent(i);
        let n = self.nodes.len();
        let mut out: Vec<&Node<T>> = Vec::new();
        let mut j: usize = 0;
        while j < n
            invariant
                self.wf(),
                i < self.order(),
                n == self.order(),
                j <= n,
                is_part_of@.len() == self.order(),
                forall|t: int| 0 <= t < self.order() ==> is_part_of@[t] == self.adj(i as int, t),
                out@.map_values(|p: &Node<T>| *p) =~= self.neighbors_upto(i as int, j as int),
            decreases n - j,
        {
            if is_part_of[j] {
                out.push(&self.nodes[j]);
            }
            proof {
                assert(out@.map_values(|p: &Node<T>| *p) =~= self.neighbors_upto(
                    i as int,
                    j + 1,
                ));
            }
            j += 1;
        }
        Some(out)
    }

    /// Renames the vertex `original` to `new`, keeping its position and
    /// payload. Fails with `NameAlreadyTaken` when `new` already names a
    /// different vertex, with `NodeNotFound` when no vertex is named
    /// `original`.
    pub fn change_node_name(&mut self, original: char, new: char) -> (r: Result<
        (),
        NodeNameChangeError,
    >)
        requires
            old(self).wf(),
        ensures
            final(self).wf(),
            final(self).order() == old(self).order(),
            forall|i: int, j: int|
                0 <= i < old(self).order() && 0 <= j < old(self).order()
                    ==> #[trigger] final(self).adj(i, j) == old(self).adj(i, j),
            match r {
                Ok(()) => {
                    &&& old(self).names().contains(original)
                    &&& !(old(self).names().contains(new) && new != original)
                    &&& final(self).spec_nodes() =~= old(self).spec_nodes().update(
                        old(self).name_index(original),
                        Node {
                            name: new,
                            value: old(self).spec_nodes()[old(self).name_index(original)].value,
                        },
                    )
                },
                Err(NodeNameChangeError::NameAlreadyTaken) => {
                    &&& old(self).names().contains(new) && new != original
                    &&& *final(self) == *old(self)
                },
                Err(NodeNameChangeError::NodeNotFound) => {
                    &&& !old(self).names().contains(original)
                    &&& !(old(self).names().contains(new) && new != original)
                    &&& *final(self) == *old(self)
                },
            },
    {
        let n = self.nodes.len();
        let mut j: usize = 0;
        while j < n
            invariant
                *self == *old(self),
                old(self).wf(),
                n == self.order(),
                j <= n,
                forall|t: int|
                    0 <= t < j ==> !(self.names()[t] == new && self.names()[t] != original),
            decreases n - j,
        {
            if self.nodes[j].name == new && self.nodes[j].name != original {
                proof {
                    assert(self.names()[j as int] == new);
                    assert(self.names().contains(new));
                }
                return Err(NodeNameChangeError::NameAlreadyTaken);
            }
            assert(!(self.names()[j as int] == new && self.names()[j as int] != original));
            j += 1;
        }
        proof {
            assert forall|t: int|
                0 <= t < self.order() && self.names()[t] == new implies new == original by {}
        }
        match self.position_of(original) {
            Some(k) => {
                let ghost before = self.spec_nodes();
                let nd = self.nodes.remove(k);
                let renamed = Node { name: new, value: nd.value };
                self.nodes.insert(k, renamed);
                proof {
                    assert(self.spec_nodes() =~= before.update(
                        k as int,
                        Node { name: new, value: before[k as int].value },
                    ));
                    assert(self.names() =~= old(self).names().update(k as int, new));
                    assert forall|i: int, j2: int| 0 <= i < j2 < self.order() implies self.names()[i]
                        != self.names()[j2] by {
                        assert(old(self).names()[i] != old(self).names()[j2]);
                    }
                }
                Ok(())
            },
            None => Err(NodeNameChangeError::NodeNotFound),
        }
    }

    /// Replaces the payload of the vertex named `node` and hands the
    /// previous payload back; fails only when no vertex carries that name.
    pub fn change_node_value(&mut self, node: char, new_val: T) -> (r: Result<T, ()>)
        requires
            old(self).wf(),
        ensures
            final(self).wf(),
            final(self).order() == old(self).order(),
            forall|i: int, j: int|
                0 <= i < old(self).order() && 0 <= j < old(self).order()
                    ==> #[trigger] final(self).adj(i, j) == old(self).adj(i, j),
            match r {
                Ok(old_val) => {
                    &&& old(self).names().contains(node)
                    &&& old_val == old(self).spec_nodes()[old(self).name_index(node)].value
                    &&& final(self).spec_nodes() =~= old(self).spec_nodes().update(
                        old(self).name_index(node),
                        Node {
                            name: old(self).spec_nodes()[old(self).name_index(node)].name,
                            value: new_val,
                        },
                    )
                },
                Err(()) => {
                    &&& !old(self).names().contains(node)
                    &&& *final(self) == *old(self)
                },
            },
    {
        match self.position_of(node) {
            Some(k) => {
                let ghost before = self.spec_nodes();
                let nd = self.nodes.remove(k);
                let replaced = Node { name: nd.name, value: new_val };
                self.nodes.insert(k, replaced);
                proof {
                    assert(self.spec_nodes() =~= before.update(
                        k as int,
                        Node { name: before[k as int].name, value: new_val },
                    ));
                    assert(self.names() =~= old(self).names());
                }
                Ok(nd.value)
            },
            None => Err(()),
        }
    }
}

} // verus!
