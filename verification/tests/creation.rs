use graphs::{AdjMatrix, FromListError, FromMatrixError, Graph, Node};

#[test]
fn from_a_matrix() {
    // Graph should be something like
    //┌─────A
    //│     │
    //│     │
    //│     C────┐
    //│          │
    //│          │
    //B──────────D

    let init = [
        //   A      B      C      D
        [false, true, true, false], // A
        [true, false, false, true], // B
        [true, false, false, true], // C
        [false, true, true, false], // D
    ];

    let init_not_symmetric = [
        //   A      B      C      D
        [false, true, true, false], // A
        [true, false, false, true], // B
        [true, false, false, true], // C
        [true, true, true, false],  // D
    ];

    let init_not_zeros = [
        //   A      B      C      D
        [false, true, true, false], // A
        [true, true, false, true],  // B
        [true, false, false, true], // C
        [false, true, true, false], // D
    ];

    assert!(
        Graph::<()>::from_matrix(['A', 'B', 'C', 'D'], vec![(); 4], init_not_symmetric).is_err()
    );
    assert!(Graph::<()>::from_matrix(['A', 'B', 'C', 'D'], vec![(); 4], init_not_zeros).is_err());

    let g = Graph::<()>::from_matrix(['A', 'B', 'C', 'D'], vec![(); 4], init).unwrap();

    assert!(g.has_adjacency('A', 'B').unwrap());
    assert!(g.has_adjacency('A', 'C').unwrap());
    assert!(!g.has_adjacency('A', 'D').unwrap());

    assert!(g.has_adjacency('B', 'A').unwrap());
    assert!(g.has_adjacency('C', 'A').unwrap());
    assert!(!g.has_adjacency('D', 'A').unwrap());

    assert!(g.has_adjacency('C', 'A').unwrap());
    assert!(g.has_adjacency('C', 'D').unwrap());
    assert!(!g.has_adjacency('C', 'B').unwrap());

    assert!(g.has_adjacency('A', 'C').unwrap());
    assert!(g.has_adjacency('D', 'C').unwrap());
    assert!(!g.has_adjacency('B', 'C').unwrap());

    assert!(g.has_adjacency('A', 'F').is_none());
}

#[test]
fn from_a_list() {
    // Graph should be something like
    //┌─────A
    //│     │
    //│     │
    //│     C────┐
    //│          │
    //│          │
    //B──────────D

    let a = Node::<()>::new('A', ());
    let b = Node::<()>::new('B', ());
    let c = Node::<()>::new('C', ());
    let d = Node::<()>::new('D', ());

    let init = vec![
        (a, vec![b, c]),
        (b, vec![a, d]),
        (c, vec![a, d]),
        (d, vec![b, c]),
    ];

    let g = Graph::<()>::from_list(init).unwrap();

    assert!(g.has_adjacency('A', 'B').unwrap());
    assert!(g.has_adjacency('A', 'C').unwrap());
    assert!(!g.has_adjacency('A', 'D').unwrap());

    assert!(g.has_adjacency('B', 'A').unwrap());
    assert!(g.has_adjacency('C', 'A').unwrap());
    assert!(!g.has_adjacency('D', 'A').unwrap());

    assert!(g.has_adjacency('C', 'A').unwrap());
    assert!(g.has_adjacency('C', 'D').unwrap());
    assert!(!g.has_adjacency('C', 'B').unwrap());

    assert!(g.has_adjacency('A', 'C').unwrap());
    assert!(g.has_adjacency('D', 'C').unwrap());
    assert!(!g.has_adjacency('B', 'C').unwrap());

    assert!(g.has_adjacency('A', 'F').is_none());
}

#[test]
fn from_a_list_again() {
    // Graph should be something like
    //          A   <---- Lone node
    //
    //   B      C──────D
    //   │      │
    //   │      │
    //   │      │
    //   └───── E
    let a = Node::<()>::new('A', ());
    let b = Node::<()>::new('B', ());
    let c = Node::<()>::new('C', ());
    let d = Node::<()>::new('D', ());
    let e = Node::<()>::new('E', ());

    let init = vec![
        (a, vec![]),
        (b, vec![e]),
        (c, vec![d, e]),
        (d, vec![c]),
        (e, vec![b, c]),
    ];

    let init_no_sym = vec![
        (a, vec![]),
        (b, vec![e]),
        (c, vec![d]),
        (d, vec![c]),
        (e, vec![b, c]),
    ];

    let init_loop = vec![
        (a, vec![]),
        (b, vec![e, b]),
        (c, vec![d]),
        (d, vec![c]),
        (e, vec![b, c]),
    ];

    let init_repeated = vec![
        (a, vec![]),
        (a, vec![e, b]),
        (c, vec![d]),
        (d, vec![c]),
        (e, vec![b, c]),
    ];

    // e ~ c but c !~ e (oops)
    assert!(Graph::<()>::from_list(init_no_sym).is_err());

    // b ~ b
    assert!(Graph::<()>::from_list(init_loop).is_err());

    assert!(Graph::<()>::from_list(init_repeated).is_err());

    let g = Graph::<()>::from_list(init).unwrap();

    assert!(!g.has_adjacency('A', 'B').unwrap());
    assert!(!g.has_adjacency('A', 'C').unwrap());
    assert!(!g.has_adjacency('A', 'D').unwrap());
    assert!(!g.has_adjacency('A', 'E').unwrap());

    assert!(!g.has_adjacency('B', 'C').unwrap());
    assert!(!g.has_adjacency('B', 'D').unwrap());
    assert!(g.has_adjacency('B', 'E').unwrap());

    assert!(g.has_adjacency('C', 'D').unwrap());
    assert!(g.has_adjacency('C', 'E').unwrap());

    assert!(!g.has_adjacency('E', 'D').unwrap());

    assert!(g.has_adjacency('A', 'F').is_none());
    assert!(g.has_adjacency('Z', 'F').is_none());
}

#[test]
fn batch_adjacencies() {
    // Graph should be something like
    //┌─────A
    //│     │
    //│     │
    //│     C────┐
    //│          │
    //│          │
    //B──────────D

    let a = Node::<()>::new('A', ());
    let b = Node::<()>::new('B', ());
    let c = Node::<()>::new('C', ());
    let d = Node::<()>::new('D', ());

    let init = vec![
        (a, vec![b, c]),
        (b, vec![a, d]),
        (c, vec![a, d]),
        (d, vec![b, c]),
    ];

    let g = Graph::<()>::from_list(init).unwrap();

    assert!(g.adjacent_nodes('A').unwrap().contains(&&b));
    assert!(g.has_adjacency('A', 'B').unwrap());
    assert!(g.adjacent_nodes('A').unwrap().contains(&&c));
    assert!(!g.adjacent_nodes('A').unwrap().contains(&&d));

    assert!(g.adjacent_nodes('B').unwrap().contains(&&a));
    assert!(g.adjacent_nodes('C').unwrap().contains(&&a));
    assert!(!g.adjacent_nodes('D').unwrap().contains(&&a));

    assert!(g.adjacent_nodes('C').unwrap().contains(&&a));
    assert!(g.adjacent_nodes('C').unwrap().contains(&&d));
    assert!(!g.adjacent_nodes('C').unwrap().contains(&&b));

    assert!(g.adjacent_nodes('A').unwrap().contains(&&c));
    assert!(g.adjacent_nodes('D').unwrap().contains(&&c));
    assert!(!g.adjacent_nodes('B').unwrap().contains(&&c));

    assert!(g.adjacent_nodes('F').is_none());
}

#[test]
fn from_matrix_error_variants() {
    let asym = [[false, true], [false, false]];
    assert!(matches!(
        Graph::<()>::from_matrix(['A', 'B'], vec![(); 2], asym),
        Err(FromMatrixError::IsNotSymmetric)
    ));

    let diag = [[true, false], [false, false]];
    assert!(matches!(
        Graph::<()>::from_matrix(['A', 'B'], vec![(); 2], diag),
        Err(FromMatrixError::NonEmptyDiagonal)
    ));

    let fine = [[false, true], [true, false]];
    assert!(matches!(
        Graph::<()>::from_matrix(['A', 'A'], vec![(); 2], fine),
        Err(FromMatrixError::NodesArentUnique)
    ));
}

#[test]
fn from_list_error_variants() {
    let a = Node::new('A', 0u8);
    let b = Node::new('B', 0u8);

    // `A` lists `B`, but `B` does not list `A` back: the inconsistency is
    // reported, the edge is neither dropped nor invented.
    let one_sided = vec![(a, vec![b]), (b, vec![])];
    assert!(matches!(
        Graph::from_list(one_sided),
        Err(FromListError::MalformedLists)
    ));

    // The same name carrying two different payloads is a duplicate name.
    let clash = vec![
        (Node::new('A', 1u8), vec![]),
        (Node::new('A', 2u8), vec![]),
    ];
    assert!(matches!(
        Graph::from_list(clash),
        Err(FromListError::NodesArentUnique)
    ));

    // A vertex mentioned only as a neighbour has no entry declaring it.
    let undeclared = vec![(a, vec![b])];
    assert!(matches!(
        Graph::from_list(undeclared),
        Err(FromListError::MalformedLists)
    ));
}

#[test]
fn matrix_index_boundary() {
    // Index lookups one past the last slot are out of range, not a panic.
    let m = AdjMatrix::from_mat([[false]]).unwrap();
    assert_eq!(m.has_adjacency(0, 0), Some(false));
    assert!(m.has_adjacency(1, 0).is_none());
    assert!(m.has_adjacency(0, 1).is_none());

    let two = AdjMatrix::from_mat([[false, true], [true, false]]).unwrap();
    assert_eq!(two.has_adjacency(0, 1), Some(true));
    assert_eq!(two.has_adjacency(1, 0), Some(true));
    assert!(two.has_adjacency(2, 0).is_none());
    assert_eq!(two.get_adjacent(0), &[false, true]);
    assert_eq!(two.get_adjacent(1), &[true, false]);
}

#[test]
fn constructors_agree() {
    // The same graph built through both constructors answers every
    // adjacency query alike.
    let init = [
        [false, true, true, false],
        [true, false, false, true],
        [true, false, false, true],
        [false, true, true, false],
    ];
    let g1 = Graph::<()>::from_matrix(['A', 'B', 'C', 'D'], vec![(); 4], init).unwrap();

    let a = Node::<()>::new('A', ());
    let b = Node::<()>::new('B', ());
    let c = Node::<()>::new('C', ());
    let d = Node::<()>::new('D', ());
    let g2 = Graph::<()>::from_list(vec![
        (a, vec![b, c]),
        (b, vec![a, d]),
        (c, vec![a, d]),
        (d, vec![b, c]),
    ])
    .unwrap();

    for x in ['A', 'B', 'C', 'D', 'E'] {
        for y in ['A', 'B', 'C', 'D', 'E'] {
            assert_eq!(g1.has_adjacency(x, y), g2.has_adjacency(x, y));
        }
    }
}

#[test]
fn adjacency_is_symmetric() {
    // Round-trip: adjacency answers never depend on the argument order.
    let a = Node::<()>::new('A', ());
    let b = Node::<()>::new('B', ());
    let c = Node::<()>::new('C', ());
    let g = Graph::<()>::from_list(vec![(a, vec![b]), (b, vec![a, c]), (c, vec![b])]).unwrap();
    for x in ['A', 'B', 'C', 'Z'] {
        for y in ['A', 'B', 'C', 'Z'] {
            assert_eq!(g.has_adjacency(x, y), g.has_adjacency(y, x));
        }
    }
}

#[test]
fn empty_list_builds_empty_graph() {
    let g = Graph::<()>::from_list(vec![]).unwrap();
    assert!(g.has_adjacency('A', 'A').is_none());
    assert!(g.get_node('A').is_none());
}
