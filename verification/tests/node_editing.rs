use graphs::{Graph, Node, NodeNameChangeError};

#[test]
fn get_basic() {
    // Graph should be something like
    //┌─────A
    //│     │
    //│     │
    //│     C────┐
    //│          │
    //│          │
    //B──────────D

    let init = [
        //   A      B      C      D
        [false, true, true, false], // A
        [true, false, false, true], // B
        [true, false, false, true], // C
        [false, true, true, false], // D
    ];
    let mut g = Graph::<()>::from_matrix(['A', 'B', 'C', 'D'], vec![(); 4], init).unwrap();

    assert_eq!(g.get_node('C').unwrap(), &Node::new('C', ()));
    assert!(g.change_node_name('C', 'Z').is_ok());
    assert!(g.get_node('C').is_none());
    assert!(g.change_node_name('C', 'Z').is_err());
}

#[test]
fn no_dupes_allowed() {
    // Graph should be something like
    //┌─────A
    //│     │
    //│     │
    //│     C────┐
    //│          │
    //│          │
    //B──────────D

    let init = [
        //   A      B      C      D
        [false, true, true, false], // A
        [true, false, false, true], // B
        [true, false, false, true], // C
        [false, true, true, false], // D
    ];
    let mut g = Graph::<()>::from_matrix(['A', 'B', 'C', 'D'], vec![(); 4], init).unwrap();

    assert_eq!(g.get_node('C').unwrap(), &Node::new('C', ()));

    assert!(g.change_node_name('C', 'A').is_err()); // already taken
    assert!(g.get_node('C').is_some());
}

#[test]
fn rename_keeps_structure() {
    let init = [[false, true], [true, false]];
    let mut g = Graph::<u32>::from_matrix(['A', 'B'], vec![10, 20], init).unwrap();

    assert!(g.change_node_name('A', 'X').is_ok());
    assert!(g.get_node('A').is_none());
    assert_eq!(g.get_node('X').unwrap(), &Node::new('X', 10));
    assert!(g.has_adjacency('X', 'B').unwrap());

    // Renaming a vertex onto a name no different vertex holds succeeds.
    assert!(g.change_node_name('X', 'X').is_ok());
    assert_eq!(g.get_node('X').unwrap(), &Node::new('X', 10));

    // Renaming something that is not there reports the lookup failure.
    assert!(matches!(
        g.change_node_name('Q', 'R'),
        Err(NodeNameChangeError::NodeNotFound)
    ));
    assert!(matches!(
        g.change_node_name('Q', 'B'),
        Err(NodeNameChangeError::NameAlreadyTaken)
    ));
}

#[test]
fn change_value_swaps_payload() {
    let init = [[false, true], [true, false]];
    let mut g = Graph::<u32>::from_matrix(['A', 'B'], vec![10, 20], init).unwrap();

    assert_eq!(g.change_node_value('A', 77), Ok(10));
    assert_eq!(g.get_node('A').unwrap(), &Node::new('A', 77));
    assert_eq!(g.get_node('B').unwrap(), &Node::new('B', 20));
    assert_eq!(g.change_node_value('Z', 5), Err(()));

    // Structure never changes with the payload.
    assert!(g.has_adjacency('A', 'B').unwrap());
}
