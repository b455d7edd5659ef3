use graphs::drawing::TreeLayout;
use graphs::{Graph, Node};

fn star() -> Graph<()> {
    // Star graph A:[B,C,D,E,F] with each leaf pointing back only to A.
    let a = Node::<()>::new('A', ());
    let b = Node::<()>::new('B', ());
    let c = Node::<()>::new('C', ());
    let d = Node::<()>::new('D', ());
    let e = Node::<()>::new('E', ());
    let f = Node::<()>::new('F', ());
    Graph::<()>::from_list(vec![
        (a, vec![b, c, d, e, f]),
        (b, vec![a]),
        (c, vec![a]),
        (d, vec![a]),
        (e, vec![a]),
        (f, vec![a]),
    ])
    .unwrap()
}

#[test]
fn star_layout_layers() {
    let g = star();
    assert!(g.is_tree().0);

    let plan: TreeLayout = g.tree_layout(1000, 1000).unwrap();

    // Six vertices drawn: the centre alone on its layer, all five leaves
    // together on the adjacent layer.
    assert_eq!(plan.circles.len(), 6);

    // Effective region is 70% of the canvas; two layers of height 350; the
    // source sits near the bottom at y = 700, the leaves one layer above.
    assert_eq!(plan.circles[0].y, 700);
    for leaf in &plan.circles[1..] {
        assert_eq!(leaf.y, 350);
    }

    // The lone source is centred; the five leaves are centred as a row with
    // spacing 140 starting at 70.
    assert_eq!(plan.circles[0].x, 350);
    let xs: Vec<usize> = plan.circles[1..].iter().map(|c| c.x).collect();
    assert_eq!(xs, vec![70, 210, 350, 490, 630]);

    // Every circle keeps the fixed radius, and colors cycle the palette.
    for c in &plan.circles {
        assert_eq!(c.radius, 30);
    }
    assert_eq!(plan.circles[0].color, (0x03, 0x3F, 0x63));
    assert_eq!(plan.circles[5].color, (0xBF, 0xB7, 0xB6));

    // Each of the five tree edges is drawn in both orientations.
    assert_eq!(plan.lines.len(), 10);
    for l in &plan.lines {
        assert_eq!(l.thickness, 3);
        assert_eq!(l.color, (0xFF, 0xFF, 0xFF));
    }
}

#[test]
fn empty_graph_cannot_be_laid_out() {
    let g = Graph::<()>::from_list(vec![]).unwrap();
    assert!(g.tree_layout(100, 100).is_err());
}

#[test]
fn path_layout_one_vertex_per_layer() {
    let a = Node::<()>::new('A', ());
    let b = Node::<()>::new('B', ());
    let c = Node::<()>::new('C', ());
    let g = Graph::<()>::from_list(vec![(a, vec![b]), (b, vec![a, c]), (c, vec![b])]).unwrap();

    let plan = g.tree_layout(100, 100).unwrap();
    assert_eq!(plan.circles.len(), 3);
    // Effective height 70, three layers of height 23: y = 70, 47, 24.
    assert_eq!(plan.circles[0].y, 70);
    assert_eq!(plan.circles[1].y, 47);
    assert_eq!(plan.circles[2].y, 24);
    // Every layer holds one vertex, centred at half the effective width.
    for c in &plan.circles {
        assert_eq!(c.x, 35);
    }
    // Two tree edges, each drawn twice.
    assert_eq!(plan.lines.len(), 4);
}
