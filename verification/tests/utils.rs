use graphs::utils::{coords_to_idx, dedup, has_duplicates, idx_to_coords};

#[test]
fn coordinate_round_trip() {
    assert_eq!(coords_to_idx(0, 0, 4), 0);
    assert_eq!(coords_to_idx(3, 0, 4), 3);
    assert_eq!(coords_to_idx(0, 1, 4), 4);
    assert_eq!(coords_to_idx(2, 3, 4), 14);

    assert_eq!(idx_to_coords(0, 4), (0, 0));
    assert_eq!(idx_to_coords(3, 4), (3, 0));
    assert_eq!(idx_to_coords(4, 4), (0, 1));
    assert_eq!(idx_to_coords(14, 4), (2, 3));

    for i in 0..16 {
        let (x, y) = idx_to_coords(i, 4);
        assert_eq!(coords_to_idx(x, y, 4), i);
    }
}

#[test]
fn duplicate_detection() {
    assert!(!has_duplicates(&[]));
    assert!(!has_duplicates(&['a']));
    assert!(!has_duplicates(&['a', 'b', 'c']));
    assert!(has_duplicates(&['a', 'b', 'a']));
    assert!(has_duplicates(&['z', 'z']));
}

#[test]
fn dedup_keeps_first_occurrences() {
    let mut v = vec![3u32, 1, 3, 2, 1, 3];
    dedup(&mut v);
    assert_eq!(v, vec![3, 1, 2]);

    let mut empty: Vec<u32> = vec![];
    dedup(&mut empty);
    assert!(empty.is_empty());

    let mut chars = vec!['b', 'a', 'b', 'c'];
    dedup(&mut chars);
    assert_eq!(chars, vec!['b', 'a', 'c']);
}
