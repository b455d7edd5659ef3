//! The tree-layout engine: turns a tree-shaped graph into per-vertex canvas
//! coordinates, layered by breadth-first distance from the first vertex,
//! together with the circles and connecting lines a drawing surface must
//! rasterize. Persisting the raster is the drawing surface's own concern.

use crate::traversal::{bfs_distances_ok, traversal_ok, TraversalError};
use crate::Graph;
use vstd::prelude::*;

verus! {

/// Relies on `std::io::Error` only as an opaque value carried through from
/// the drawing surface's persist operation; nothing is assumed about it.
#[verifier::external_type_specification]
#[verifier::external_body]
pub struct ExIoError(std::io::Error);

/// Rejections raised while laying out and rendering a graph.
#[derive(Debug)]
pub enum DrawingError {
    EmptyGraph,
    BFS(TraversalError),
    FileSystem(std::io::Error),
}

/// A circle the drawing surface must rasterize, centered at `(x, y)`.
#[derive(Clone, Copy, Debug, PartialEq, Eq)]
pub struct Circle {
    pub x: usize,
    pub y: usize,
    pub radius: usize,
    pub color: (u8, u8, u8),
}

/// A line the drawing surface must rasterize, from `(x1, y1)` to `(x2, y2)`.
#[derive(Clone, Copy, Debug, PartialEq, Eq)]
pub struct Line {
    pub x1: usize,
    pub y1: usize,
    pub x2: usize,
    pub y2: usize,
    pub thickness: usize,
    pub color: (u8, u8, u8),
}

/// Everything a drawing surface needs to render a laid-out tree.
#[derive(Clone, Debug, PartialEq, Eq)]
pub struct TreeLayout {
    pub circles: Vec<Circle>,
    pub lines: Vec<Line>,
}

/// The fixed six-entry palette, cycled by draw order.
pub open spec fn palette(i: int) -> (u8, u8, u8) {
    if i == 0 {
        (0x03, 0x3F, 0x63)
    } else if i == 1 {
        (0x28, 0x66, 0x6E)
    } else if i == 2 {
        (0xDE, 0x63, 0x9A)
    } else if i == 3 {
        (0xFF, 0xED, 0x65)
    } else if i == 4 {
        (0xEA, 0xD9, 0x4C)
    } else {
        (0xBF, 0xB7, 0xB6)
    }
}

/// The palette entry for draw-order slot `i` of the cycle.
fn palette_color(i: usize) -> (r: (u8, u8, u8))
    requires
        i < 6,
    ensures
        r == palette(i as int),
{
    if i == 0 {
        (0x03, 0x3F, 0x63)
    } else if i == 1 {
        (0x28, 0x66, 0x6E)
    } else if i == 2 {
        (0xDE, 0x63, 0x9A)
    } else if i == 3 {
        (0xFF, 0xED, 0x65)
    } else if i == 4 {
        (0xEA, 0xD9, 0x4C)
    } else {
        (0xBF, 0xB7, 0xB6)
    }
}

/// The greatest value of a distance column; `0` when it is empty.
pub open spec fn seq_max(s: Seq<usize>) -> int
    decreases s.len(),
{
    if s.len() == 0 {
        0
    } else if s.len() == 1 {
        s[0] as int
    } else {
        let m = seq_max(s.drop_last());
        if s.last() as int > m {
            s.last() as int
        } else {
            m
        }
    }
}

/// The discovery positions (among the first `m`) whose distance is `d`, in
/// discovery order: the members of breadth-first layer `d`.
pub open spec fn layer_upto(dist: Seq<usize>, d: int, m: int) -> Seq<usize>
    decreases m,
{
    if m <= 0 {
        Seq::empty()
    } else {
        let p = layer_upto(dist, d, m - 1);
        if dist[m - 1] as int == d {
            p.push((m - 1) as usize)
        } else {
            p
        }
    }
}

/// Breadth-first layer `d`: the discovery positions at distance `d`.
pub open spec fn layer(dist: Seq<usize>, d: int) -> Seq<usize> {
    layer_upto(dist, d, dist.len() as int)
}

/// The layers up to distance `d`, concatenated in distance order.
pub open spec fn flat_upto(dist: Seq<usize>, d: int) -> Seq<usize>
    decreases d + 1,
{
    if d < 0 {
        Seq::empty()
    } else {
        flat_upto(dist, d - 1) + layer(dist, d)
    }
}

/// All layers concatenated: the layer-ordered sequence of discovery
/// positions that fixes the draw order.
pub open spec fn layout_flat(dist: Seq<usize>) -> Seq<usize> {
    flat_upto(dist, seq_max(dist))
}

/// The size of the largest layer up to distance `d`.
pub open spec fn widest_layer(dist: Seq<usize>, d: int) -> int
    decreases d + 1,
{
    if d < 0 {
        0
    } else {
        let m = widest_layer(dist, d - 1);
        if layer(dist, d).len() > m {
            layer(dist, d).len() as int
        } else {
            m
        }
    }
}

/// The circle drawn for the `t`-th entry of the layer-ordered sequence:
/// layers sit `effective height / layer count` apart, the deepest at the
/// top and the source near the bottom; inside one layer of `m` vertices the
/// leftmost circle starts at `effective width / 2 - spacing * (m - 1) / 2`
/// and the rest step right by the spacing; the effective drawing region is
/// 70% of the requested canvas; colors cycle through the palette by draw
/// order; the radius is fixed.
pub open spec fn circle_spec(dist: Seq<usize>, width: int, height: int, t: int) -> Circle {
    let effw = width * 7 / 10;
    let effh = height * 7 / 10;
    let levels = seq_max(dist) + 1;
    let lh = effh / levels;
    let sp = effw / widest_layer(dist, seq_max(dist));
    let k = layout_flat(dist)[t];
    let d = dist[k as int] as int;
    let m = layer(dist, d).len() as int;
    let r = t - flat_upto(dist, d - 1).len();
    Circle {
        x: (effw / 2 - sp * (m - 1) / 2 + sp * r) as usize,
        y: (effh - lh * d) as usize,
        radius: 30,
        color: palette(t % 6),
    }
}

/// The traversal tree connects the vertices at discovery positions `k1` and
/// `k2`, in either orientation.
pub open spec fn tree_linked(
    ord: Seq<usize>,
    edges: Seq<(usize, usize)>,
    k1: usize,
    k2: usize,
) -> bool {
    edges.contains((ord[k1 as int], ord[k2 as int])) || edges.contains(
        (ord[k2 as int], ord[k1 as int]),
    )
}

/// The line drawn between the circles at draw-order slots `t1` and `t2`.
pub open spec fn line_between(circles: Seq<Circle>, t1: int, t2: int) -> Line {
    Line {
        x1: circles[t1].x,
        y1: circles[t1].y,
        x2: circles[t2].x,
        y2: circles[t2].y,
        thickness: 3,
        color: (0xFF, 0xFF, 0xFF),
    }
}

/// The lines drawn while pairing draw-order slot `t1` with every slot below
/// `cap`, in order: one line per pair the traversal tree connects.
pub open spec fn lines_row(
    ord: Seq<usize>,
    dist: Seq<usize>,
    edges: Seq<(usize, usize)>,
    circles: Seq<Circle>,
    t1: int,
    cap: int,
) -> Seq<Line>
    decreases cap,
{
    if cap <= 0 {
        Seq::empty()
    } else {
        let p = lines_row(ord, dist, edges, circles, t1, cap - 1);
        if tree_linked(ord, edges, layout_flat(dist)[t1], layout_flat(dist)[cap - 1]) {
            p.push(line_between(circles, t1, cap - 1))
        } else {
            p
        }
    }
}

/// The lines drawn while walking every ordered pair of draw-order slots
/// with the first component below `cap`, row by row.
pub open spec fn lines_upto(
    ord: Seq<usize>,
    dist: Seq<usize>,
    edges: Seq<(usize, usize)>,
    circles: Seq<Circle>,
    cap: int,
) -> Seq<Line>
    decreases cap,
{
    if cap <= 0 {
        Seq::empty()
    } else {
        lines_upto(ord, dist, edges, circles, cap - 1) + lines_row(
            ord,
            dist,
            edges,
            circles,
            cap - 1,
            layout_flat(dist).len() as int,
        )
    }
}

/// All lines of the layout, in draw order: both orientations of every
/// traversal-tree edge, as the full ordered-pair walk produces them.
pub open spec fn lines_all(
    ord: Seq<usize>,
    dist: Seq<usize>,
    edges: Seq<(usize, usize)>,
    circles: Seq<Circle>,
) -> Seq<Line> {
    lines_upto(ord, dist, edges, circles, layout_flat(dist).len() as int)
}

/// Concatenating further layers only extends the flattened sequence.
proof fn lemma_flat_prefix(dist: Seq<usize>, d1: int, d2: int)
    requires
        d1 <= d2,
    ensures
        flat_upto(dist, d1).len() <= flat_upto(dist, d2).len(),
        forall|t: int|
            0 <= t < flat_upto(dist, d1).len() ==> #[trigger] flat_upto(dist, d2)[t] == flat_upto(
                dist,
                d1,
            )[t],
    decreases d2 - d1,
{
    if d1 < d2 {
        lemma_flat_prefix(dist, d1, d2 - 1);
        if d2 >= 0 {
            assert(flat_upto(dist, d2) == flat_upto(dist, d2 - 1) + layer(dist, d2));
            assert(forall|t: int|
                0 <= t < flat_upto(dist, d2 - 1).len() ==> #[trigger] flat_upto(dist, d2)[t]
                    == flat_upto(dist, d2 - 1)[t]);
        }
    }
}

/// Layer members are discovery positions below the scan bound, and their
/// distance is the layer's own.
proof fn lemma_layer_elems(dist: Seq<usize>, d: int, m: int)
    requires
        0 <= m <= dist.len(),
        m <= usize::MAX,
    ensures
        forall|r: int|
            0 <= r < layer_upto(dist, d, m).len() ==> (#[trigger] layer_upto(dist, d, m)[r]) < m
                && dist[layer_upto(dist, d, m)[r] as int] as int == d,
    decreases m,
{
    if m > 0 {
        lemma_layer_elems(dist, d, m - 1);
        let p = layer_upto(dist, d, m - 1);
        let q = layer_upto(dist, d, m);
        assert forall|r: int|
            0 <= r < q.len() implies (#[trigger] q[r]) < m && dist[q[r] as int] as int == d by {
            if dist[m - 1] as int == d {
                assert(q == p.push((m - 1) as usize));
                if r < p.len() {
                    assert(q[r] == p[r]);
                } else {
                    assert(q[r] == (m - 1) as usize);
                }
            } else {
                assert(q == p);
            }
        }
    }
}

impl<T> Graph<T> {
    /// Lays the connected component of the first vertex out on a canvas of
    /// the given size: vertices are partitioned into layers by
    /// breadth-first distance from the first vertex, the source sits near
    /// the bottom and each deeper layer one layer height above, each
    /// layer's circles are centered horizontally, and a line connects every
    /// vertex pair that the traversal tree joins. Fails only on an empty
    /// graph; whether the graph is a tree is for the caller to establish
    /// first.
    #[verifier::rlimit(100)]
    pub fn tree_layout(&self, width: usize, height: usize) -> (r: Result<TreeLayout, DrawingError>)
        requires
            self.wf(),
            width * 7 <= usize::MAX,
            height * 7 <= usize::MAX,
        ensures
            match r {
                Ok(plan) => self.order() > 0 && exists|
                    ord: Seq<usize>,
                    dist: Seq<usize>,
                    edges: Seq<(usize, usize)>,
                |
                    {
                        &&& #[trigger] traversal_ok(*self, 0, ord, edges)
                        &&& #[trigger] bfs_distances_ok(ord, dist, edges)
                        &&& plan.circles@.len() == layout_flat(dist).len()
                        &&& forall|t: int|
                            0 <= t < plan.circles@.len() ==> #[trigger] plan.circles@[t]
                                == circle_spec(dist, width as int, height as int, t)
                        &&& plan.lines@ == lines_all(ord, dist, edges, plan.circles@)
                    },
                Err(e) => self.order() == 0 && e is EmptyGraph,
            },
    {
        let n = self.vertex_count();
        if n == 0 {
            return Err(DrawingError::EmptyGraph);
        }
        let (ord, dist, edges) = self.bfs_indices(0);
        let len = ord.len();
        let mut ecc = dist[0];
        let mut i: usize = 1;
        while i < len
            invariant
                dist@.len() == len,
                len >= 1,
                1 <= i <= len,
                ecc as int == seq_max(dist@.take(i as int)),
                ecc as int <= i - 1,
                forall|k: int| 0 <= k < dist@.len() ==> (#[trigger] dist@[k]) <= k,
            decreases len - i,
        {
            proof {
                assert(dist@.take(i + 1).drop_last() =~= dist@.take(i as int));
                assert(dist@.take(i + 1).last() == dist@[i as int]);
            }
            if dist[i] > ecc {
                ecc = dist[i];
            }
            i += 1;
        }
        proof {
            assert(dist@.take(len as int) =~= dist@);
            assert(ecc as int == seq_max(dist@));
        }
        let levels = ecc + 1;
        let effw = width * 7 / 10;
        let effh = height * 7 / 10;
        let layer_height = effh / levels;
        let mut layers: Vec<Vec<usize>> = Vec::new();
        let mut d: usize = 0;
        while d < levels
            invariant
                dist@.len() == len,
                len >= 1,
                dist@[0] == 0,
                d <= levels,
                layers@.len() == d,
                forall|dd: int| 0 <= dd < d ==> #[trigger] layers@[dd]@ == layer(dist@, dd),
                d > 0 ==> layers@[0]@.len() >= 1,
            decreases levels - d,
        {
            let mut row: Vec<usize> = Vec::new();
            let mut k: usize = 0;
            while k < len
                invariant
                    dist@.len() == len,
                    len >= 1,
                    dist@[0] == 0,
                    k <= len,
                    row@ == layer_upto(dist@, d as int, k as int),
                    (d == 0 && k >= 1) ==> row@.len() >= 1,
                decreases len - k,
            {
                if dist[k] == d {
                    row.push(k);
                }
                k += 1;
            }
            layers.push(row);
            d += 1;
        }
        let mut max_m: usize = 0;
        let mut d2: usize = 0;
        while d2 < levels
            invariant
                d2 <= levels,
                layers@.len() == levels,
                forall|dd: int| 0 <= dd < levels ==> #[trigger] layers@[dd]@ == layer(dist@, dd),
                max_m as int == widest_layer(dist@, d2 as int - 1),
                forall|dd: int| 0 <= dd < d2 ==> (#[trigger] layers@[dd]@).len() <= max_m,
            decreases levels - d2,
        {
            let l = layers[d2].len();
            if l > max_m {
                max_m = l;
            }
            d2 += 1;
        }
        proof {
            assert(layers@[0]@.len() >= 1);
            assert(max_m >= 1);
            assert(max_m as int == widest_layer(dist@, seq_max(dist@)));
        }
        let spacing = effw / max_m;
        proof {
            vstd::arithmetic::div_mod::lemma_fundamental_div_mod(effw as int, max_m as int);
            vstd::arithmetic::div_mod::lemma_mod_division_less_than_divisor(
                effw as int,
                max_m as int,
            );
            assert(effw as int == max_m as int * (spacing as int) + effw as int % (
            max_m as int));
            assert(max_m as int * (spacing as int) == spacing as int * (max_m as int))
                by (nonlinear_arith);
            assert(spacing * max_m <= effw);
            vstd::arithmetic::div_mod::lemma_fundamental_div_mod(effh as int, levels as int);
            vstd::arithmetic::div_mod::lemma_mod_division_less_than_divisor(
                effh as int,
                levels as int,
            );
            assert(effh as int == levels as int * (layer_height as int) + effh as int % (
            levels as int));
            assert(levels as int * (layer_height as int) == layer_height as int * (levels as int))
                by (nonlinear_arith);
            assert(layer_height * levels <= effh);
            assert(effw as int == (width * 7) as int / 10 && effh as int == (height * 7) as int
                / 10);
        }
        let mut circles: Vec<Circle> = Vec::new();
        let mut flat: Vec<usize> = Vec::new();
        let mut d3: usize = 0;
        while d3 < levels
            invariant
                self.wf(),
                dist@.len() == len,
                len >= 1,
                d3 <= levels,
                levels == seq_max(dist@) + 1,
                layers@.len() == levels,
                forall|dd: int| 0 <= dd < levels ==> #[trigger] layers@[dd]@ == layer(dist@, dd),
                forall|dd: int| 0 <= dd < levels ==> (#[trigger] layers@[dd]@).len() <= max_m,
                max_m >= 1,
                effw == width * 7 / 10,
                effh == height * 7 / 10,
                width * 7 <= usize::MAX,
                height * 7 <= usize::MAX,
                spacing == effw / max_m,
                spacing * max_m <= effw,
                max_m as int == widest_layer(dist@, seq_max(dist@)),
                layer_height == effh / levels,
                layer_height * levels <= effh,
                flat@ == flat_upto(dist@, d3 as int - 1),
                circles@.len() == flat@.len(),
                forall|t: int|
                    0 <= t < circles@.len() ==> #[trigger] circles@[t] == circle_spec(
                        dist@,
                        width as int,
                        height as int,
                        t,
                    ),
                forall|t: int| 0 <= t < flat@.len() ==> (#[trigger] flat@[t]) < len,
            decreases levels - d3,
        {
            let row_len = layers[d3].len();
            proof {
                lemma_layer_elems(dist@, d3 as int, len as int);
            }
            if row_len > 0 {
                proof {
                    assert(spacing * (row_len - 1) <= spacing * max_m) by (nonlinear_arith)
                        requires
                            row_len <= max_m,
                            spacing >= 0,
                    ;
                    assert(spacing * (row_len - 1) / 2 <= effw / 2) by {
                        assert(spacing * (row_len - 1) <= effw);
                    }
                    assert(effw <= usize::MAX / 10) by {
                        vstd::arithmetic::div_mod::lemma_div_is_ordered(
                            (width * 7) as int,
                            usize::MAX as int,
                            10,
                        );
                    }
                }
                let start = effw / 2 - spacing * (row_len - 1) / 2;
                let mut rr: usize = 0;
                while rr < row_len
                    invariant
                        self.wf(),
                        dist@.len() == len,
                        len >= 1,
                        d3 < levels,
                        levels == seq_max(dist@) + 1,
                        layers@.len() == levels,
                        forall|dd: int|
                            0 <= dd < levels ==> #[trigger] layers@[dd]@ == layer(dist@, dd),
                        row_len == layers@[d3 as int]@.len(),
                        rr <= row_len,
                        row_len <= max_m,
                        max_m >= 1,
                        effw == width * 7 / 10,
                        effh == height * 7 / 10,
                        width * 7 <= usize::MAX,
                        height * 7 <= usize::MAX,
                        effw <= usize::MAX / 10,
                        spacing == effw / max_m,
                        spacing * max_m <= effw,
                        max_m as int == widest_layer(dist@, seq_max(dist@)),
                        spacing * (row_len - 1) <= effw,
                        layer_height == effh / levels,
                        layer_height * levels <= effh,
                        start == effw / 2 - spacing * (row_len - 1) / 2,
                        flat@ == flat_upto(dist@, d3 as int - 1) + layer(dist@, d3 as int).take(
                            rr as int,
                        ),
                        circles@.len() == flat@.len(),
                        forall|t: int|
                            0 <= t < circles@.len() ==> #[trigger] circles@[t] == circle_spec(
                                dist@,
                                width as int,
                                height as int,
                                t,
                            ),
                        forall|t: int| 0 <= t < flat@.len() ==> (#[trigger] flat@[t]) < len,
                    decreases row_len - rr,
                {
                    let k = layers[d3][rr];
                    proof {
                        lemma_layer_elems(dist@, d3 as int, len as int);
                        assert(k < len && dist@[k as int] as int == d3 as int);
                        assert(spacing * rr <= spacing * (row_len - 1)) by (nonlinear_arith)
                            requires
                                rr < row_len,
                                spacing >= 0,
                        ;
                        assert(layer_height * d3 <= layer_height * levels) by (nonlinear_arith)
                            requires
                                d3 < levels,
                                layer_height >= 0,
                        ;
                    }
                    let y = effh - layer_height * d3;
                    let x = start + spacing * rr;
                    let color = palette_color(circles.len() % 6);
                    let ghost old_flat = flat@;
                    let ghost t = circles@.len() as int;
                    circles.push(Circle { x, y, radius: 30, color });
                    flat.push(k);
                    proof {
                        assert(layer(dist@, d3 as int).take(rr + 1) =~= layer(
                            dist@,
                            d3 as int,
                        ).take(rr as int).push(k));
                        assert(flat@ =~= flat_upto(dist@, d3 as int - 1) + layer(
                            dist@,
                            d3 as int,
                        ).take(rr + 1));
                        assert(circles@[t] == circle_spec(dist@, width as int, height as int, t))
                            by {
                            lemma_flat_prefix(dist@, d3 as int, seq_max(dist@));
                            assert(flat_upto(dist@, d3 as int) == flat_upto(dist@, d3 as int - 1)
                                + layer(dist@, d3 as int));
                            assert(t < flat_upto(dist@, d3 as int).len());
                            assert(flat_upto(dist@, d3 as int)[t] == k);
                            assert(layout_flat(dist@)[t] == k);
                            assert(dist@[k as int] as int == d3 as int);
                            assert(layer(dist@, d3 as int).len() == row_len);
                            assert(t - flat_upto(dist@, d3 as int - 1).len() == rr as int);
                            assert(x as int == effw as int / 2 - spacing as int * (row_len - 1) / 2
                                + spacing as int * (rr as int));
                            assert(y as int == effh as int - layer_height as int * (d3 as int));
                            assert(color == palette(t % 6));
                        }
                    }
                    rr += 1;
                }
                proof {
                    assert(layer(dist@, d3 as int).take(row_len as int) =~= layer(
                        dist@,
                        d3 as int,
                    ));
                    assert(flat@ == flat_upto(dist@, d3 as int));
                }
            } else {
                proof {
                    assert(layer(dist@, d3 as int).len() == 0);
                    assert(layer(dist@, d3 as int) =~= Seq::<usize>::empty());
                    assert(flat@ =~= flat_upto(dist@, d3 as int));
                }
            }
            d3 += 1;
        }
        proof {
            assert(flat@ == flat_upto(dist@, seq_max(dist@)));
            assert(flat@ == layout_flat(dist@));
        }
        let total = flat.len();
        let mut lines: Vec<Line> = Vec::new();
        let mut t1: usize = 0;
        while t1 < total
            invariant
                dist@.len() == len,
                total == flat@.len(),
                t1 <= total,
                flat@ == layout_flat(dist@),
                circles@.len() == flat@.len(),
                forall|t: int| 0 <= t < flat@.len() ==> (#[trigger] flat@[t]) < len,
                ord@.len() == len,
                lines@ == lines_upto(ord@, dist@, edges@, circles@, t1 as int),
            decreases total - t1,
        {
            let mut t2: usize = 0;
            while t2 < total
                invariant
                    dist@.len() == len,
                    total == flat@.len(),
                    t1 < total,
                    t2 <= total,
                    flat@ == layout_flat(dist@),
                    circles@.len() == flat@.len(),
                    forall|t: int| 0 <= t < flat@.len() ==> (#[trigger] flat@[t]) < len,
                    ord@.len() == len,
                    lines@ == lines_upto(ord@, dist@, edges@, circles@, t1 as int) + lines_row(
                        ord@,
                        dist@,
                        edges@,
                        circles@,
                        t1 as int,
                        t2 as int,
                    ),
                decreases total - t2,
            {
                let a = ord[flat[t1]];
                let b = ord[flat[t2]];
                if linked_in(&edges, a, b) {
                    let c1 = circles[t1];
                    let c2 = circles[t2];
                    lines.push(
                        Line {
                            x1: c1.x,
                            y1: c1.y,
                            x2: c2.x,
                            y2: c2.y,
                            thickness: 3,
                            color: (0xFF, 0xFF, 0xFF),
                        },
                    );
                }
                proof {
                    assert(lines@ == lines_upto(ord@, dist@, edges@, circles@, t1 as int)
                        + lines_row(ord@, dist@, edges@, circles@, t1 as int, t2 + 1));
                }
                t2 += 1;
            }
            t1 += 1;
        }
        let plan = TreeLayout { circles, lines };
        proof {
            assert(lines_upto(ord@, dist@, edges@, plan.circles@, total as int) == lines_all(
                ord@,
                dist@,
                edges@,
                plan.circles@,
            ));
        }
        Ok(plan)
    }
}

/// Whether the traversal-tree edge list joins `a` and `b`, in either
/// orientation.
fn linked_in(edges: &Vec<(usize, usize)>, a: usize, b: usize) -> (r: bool)
    ensures
        r == (edges@.contains((a, b)) || edges@.contains((b, a))),
{
    let m = edges.len();
    let mut i: usize = 0;
    while i < m
        invariant
            m == edges@.len(),
            i <= m,
            forall|t: int| 0 <= t < i ==> (#[trigger] edges@[t]) != (a, b) && edges@[t] != (b, a),
        decreases m - i,
    {
        let e = edges[i];
        if (e.0 == a && e.1 == b) || (e.0 == b && e.1 == a) {
            proof {
                assert(edges@[i as int] == (a, b) || edges@[i as int] == (b, a));
                assert(edges@.contains((a, b)) || edges@.contains((b, a)));
            }
            return true;
        }
        i += 1;
    }
    proof {
        if edges@.contains((a, b)) {
            let t = choose|t: int| 0 <= t < edges@.len() && edges@[t] == (a, b);
        }
        if edges@.contains((b, a)) {
            let t = choose|t: int| 0 <= t < edges@.len() && edges@[t] == (b, a);
        }
    }
    false
}

} // verus!
