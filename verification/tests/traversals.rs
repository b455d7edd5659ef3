use graphs::{Graph, Node};

#[test]
fn dfs_basic() {
    // Graph should be something like
    //┌─────A
    //│     │
    //│     │
    //│     C────┐
    //│          │
    //│          │
    //B──────────D

    let a = Node::<()>::new('A', ());
    let b = Node::<()>::new('B', ());
    let c = Node::<()>::new('C', ());
    let d = Node::<()>::new('D', ());

    let init = vec![
        (a, vec![b, c]),
        (b, vec![a, d]),
        (c, vec![a, d]),
        (d, vec![b, c]),
    ];

    let g = Graph::<()>::from_list(init).unwrap();

    let res = g.dfs(&a).unwrap();
    assert_eq!(res.0, vec![&a, &b, &c, &d]);
}

#[test]
fn dfs_advanced() {
    let a = Node::<()>::new('A', ());
    let b = Node::<()>::new('B', ());
    let c = Node::<()>::new('C', ());
    let d = Node::<()>::new('D', ());
    let e = Node::<()>::new('E', ());

    let init = vec![
        (a, vec![e, b]),
        (b, vec![a, c]),
        (c, vec![e, b]),
        (d, vec![e]),
        (e, vec![a, c, d]),
    ];

    let g = Graph::<()>::from_list(init).unwrap();
    let res = g.dfs(&a).unwrap();

    assert_eq!(res.0, vec![&a, &e, &b, &c, &d]);

    let disconnected_l = vec![
        (a, vec![]),
        (b, vec![e]),
        (c, vec![d, e]),
        (d, vec![c]),
        (e, vec![b, c]),
    ];

    let disconnected = Graph::<()>::from_list(disconnected_l).unwrap();
    let res = disconnected.dfs(&a).unwrap();

    assert!(res.0.len() == 1);

    let res = disconnected.dfs(&b).unwrap();
    assert_eq!(res.0, vec![&b, &e, &c, &d]);
}

#[test]
fn trees() {
    let a = Node::<()>::new('A', ());
    let b = Node::<()>::new('B', ());
    let c = Node::<()>::new('C', ());
    let d = Node::<()>::new('D', ());
    let e = Node::<()>::new('E', ());
    let f = Node::<()>::new('F', ());
    let h = Node::<()>::new('G', ());

    let first_l = vec![
        (a, vec![e, b]),
        (b, vec![a]),
        (c, vec![e]),
        (d, vec![e]),
        (e, vec![a, c, d]),
    ];

    let second_l = vec![
        (a, vec![b, c]),
        (b, vec![d, a, e]),
        (c, vec![a, f, h]),
        (d, vec![b]),
        (e, vec![b]),
        (f, vec![c]),
        (h, vec![c]),
    ];

    let third_l = vec![
        (a, vec![e, b]),
        (b, vec![a, c]),
        (c, vec![e, b]),
        (d, vec![e]),
        (e, vec![a, c, d]),
    ];

    let complete_l = vec![
        (a, vec![b, c, d]),
        (b, vec![a, c, d]),
        (c, vec![a, b, d]),
        (d, vec![a, b, c]),
    ];

    let butterfly_l = vec![
        (a, vec![b, c]),
        (b, vec![a, c]),
        (c, vec![a, b, e, d]),
        (d, vec![e, c]),
        (e, vec![d, c]),
    ];

    let first = Graph::from_list(first_l).unwrap();
    let second = Graph::from_list(second_l).unwrap();
    let third = Graph::from_list(third_l).unwrap();
    let complete = Graph::from_list(complete_l).unwrap();
    let butterfly = Graph::from_list(butterfly_l).unwrap();

    assert!(first.is_tree().0);
    assert!(second.is_tree().0);
    assert!(!third.is_tree().0);
    assert!(!complete.is_tree().0);
    assert!(!butterfly.is_tree().0);
}

#[test]
fn bfs_basic() {
    // Graph should be something like
    //┌─────A
    //│     │
    //│     │
    //│     C────┐
    //│          │
    //│          │
    //B──────────D

    let a = Node::<()>::new('A', ());
    let b = Node::<()>::new('B', ());
    let c = Node::<()>::new('C', ());
    let d = Node::<()>::new('D', ());

    let init = vec![
        (a, vec![b, c]),
        (b, vec![a, d]),
        (c, vec![a, d]),
        (d, vec![b, c]),
    ];

    let g = Graph::<()>::from_list(init).unwrap();

    let res = g.bfs(&a).unwrap();
    assert_eq!(res.0, vec![(&a, 0), (&b, 1), (&c, 1), (&d, 2)]);
    assert_eq!(res.2, 2);
}

#[test]
fn bfs_advanced() {
    let a = Node::<()>::new('A', ());
    let b = Node::<()>::new('B', ());
    let c = Node::<()>::new('C', ());
    let d = Node::<()>::new('D', ());
    let e = Node::<()>::new('E', ());

    let init = vec![
        (c, vec![d, e]),
        (b, vec![a, e]),
        (d, vec![c]),
        (e, vec![b, c]),
        (a, vec![b]),
    ];

    let g = Graph::<()>::from_list(init).unwrap();
    let res = g.bfs(&c).unwrap();

    assert_eq!(res.0, vec![(&c, 0), (&d, 1), (&e, 1), (&b, 2), (&a, 3)]);
    assert_eq!(res.2, 3);

    let disconnected_l = vec![
        (a, vec![]),
        (b, vec![e]),
        (c, vec![d, e]),
        (d, vec![c]),
        (e, vec![b, c]),
    ];

    let disconnected = Graph::<()>::from_list(disconnected_l).unwrap();
    let res = disconnected.dfs(&a).unwrap();

    assert!(res.0.len() == 1);

    let res = disconnected.dfs(&b).unwrap();
    assert_eq!(res.0, vec![&b, &e, &c, &d]);
}

#[test]
fn bfs_advanced2() {
    let a = Node::<()>::new('A', ());
    let b = Node::<()>::new('B', ());
    let c = Node::<()>::new('C', ());
    let d = Node::<()>::new('D', ());
    let e = Node::<()>::new('E', ());

    let init = vec![
        (a, vec![e, b]),
        (b, vec![a, c]),
        (c, vec![e, b]),
        (d, vec![e]),
        (e, vec![a, c, d]),
    ];

    let g = Graph::<()>::from_list(init).unwrap();
    let res = g.bfs(&a).unwrap();

    assert_eq!(res.0, vec![(&a, 0), (&e, 1), (&b, 1), (&c, 2), (&d, 2)]);
    assert_eq!(res.2, 2);
}

#[test]
fn connectedness() {
    let a = Node::<()>::new('A', ());
    let b = Node::<()>::new('B', ());
    let c = Node::<()>::new('C', ());
    let d = Node::<()>::new('D', ());
    let e = Node::<()>::new('E', ());

    let init = vec![
        (a, vec![b, c]),
        (b, vec![a, d]),
        (c, vec![a, d]),
        (d, vec![b, c]),
    ];

    let g = Graph::<()>::from_list(init).unwrap();

    assert!(g.is_connex());

    let disconnected_l = vec![
        (a, vec![]),
        (b, vec![e]),
        (c, vec![d, e]),
        (d, vec![c]),
        (e, vec![b, c]),
    ];

    let disconnected = Graph::<()>::from_list(disconnected_l).unwrap();
    assert!(!disconnected.is_connex())
}

#[test]
fn four_cycle_is_no_tree_but_connected() {
    // Vertices {A,B,C,D} with edges A–B, A–C, B–D, C–D: a 4-cycle.
    let a = Node::<()>::new('A', ());
    let b = Node::<()>::new('B', ());
    let c = Node::<()>::new('C', ());
    let d = Node::<()>::new('D', ());

    let g = Graph::<()>::from_list(vec![
        (a, vec![b, c]),
        (b, vec![a, d]),
        (c, vec![a, d]),
        (d, vec![b, c]),
    ])
    .unwrap();

    let verdict = g.is_tree();
    assert!(!verdict.0);
    assert!(verdict.1.is_some());
    assert!(g.is_connex());
}

#[test]
fn bfs_reaches_only_the_component() {
    // Adjacency list {A:[], B:[E], C:[D,E], D:[C], E:[B,C]}: A is isolated.
    let a = Node::<()>::new('A', ());
    let b = Node::<()>::new('B', ());
    let c = Node::<()>::new('C', ());
    let d = Node::<()>::new('D', ());
    let e = Node::<()>::new('E', ());

    let g = Graph::<()>::from_list(vec![
        (a, vec![]),
        (b, vec![e]),
        (c, vec![d, e]),
        (d, vec![c]),
        (e, vec![b, c]),
    ])
    .unwrap();

    assert!(!g.is_connex());

    // The vertex order collects neighbour mentions too: A, B, E, C, D. From
    // C the search therefore meets E (slot 2) before D (slot 4), both one
    // step away; A stays absent and the eccentricity is two.
    let res = g.bfs(&c).unwrap();
    assert_eq!(res.0, vec![(&c, 0), (&e, 1), (&d, 1), (&b, 2)]);
    assert_eq!(res.2, 2);
}

#[test]
fn spanning_tree_plus_one_edge() {
    let a = Node::<()>::new('A', ());
    let b = Node::<()>::new('B', ());
    let c = Node::<()>::new('C', ());
    let d = Node::<()>::new('D', ());

    // A path on four vertices: connected with three edges, a spanning tree.
    let path = Graph::<()>::from_list(vec![
        (a, vec![b]),
        (b, vec![a, c]),
        (c, vec![b, d]),
        (d, vec![c]),
    ])
    .unwrap();
    assert_eq!(path.is_tree(), (true, None));
    assert!(path.is_connex());

    // The same path with one single extra edge D–A closes a cycle.
    let cycle = Graph::<()>::from_list(vec![
        (a, vec![b, d]),
        (b, vec![a, c]),
        (c, vec![b, d]),
        (d, vec![c, a]),
    ])
    .unwrap();
    let verdict = cycle.is_tree();
    assert!(!verdict.0);
    assert!(verdict.1.is_some());
}

#[test]
fn traversal_from_unknown_vertex_fails() {
    let a = Node::<()>::new('A', ());
    let z = Node::<()>::new('Z', ());
    let g = Graph::<()>::from_list(vec![(a, vec![])]).unwrap();
    assert!(g.dfs(&z).is_err());
    assert!(g.bfs(&z).is_err());
}
