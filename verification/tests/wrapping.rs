use conway_piston::addressing::{get_neighbors, wrap_idx, wrap_idxs};

#[test]
fn test_wrapping() {
    assert_eq!(vec![(1, 1), (2, 149)], wrap_idxs(&vec![(1, 1), (2, -1)], &200, &150))
}

#[test]
fn wrap_idx_leaves_inner_coordinates() {
    assert_eq!((5, 7), wrap_idx(&(5, 7), &10, &10));
    assert_eq!((0, 0), wrap_idx(&(0, 0), &10, &10));
    assert_eq!((9, 9), wrap_idx(&(9, 9), &10, &10));
}

#[test]
fn wrap_idx_wraps_both_edges() {
    assert_eq!((199, 149), wrap_idx(&(-1, -1), &200, &150));
    assert_eq!((0, 0), wrap_idx(&(200, 150), &200, &150));
    assert_eq!((1, 2), wrap_idx(&(201, 152), &200, &150));
}

#[test]
fn wrap_idx_wraps_far_coordinates() {
    assert_eq!((3, 1), wrap_idx(&(-7, -9), &5, &5));
    assert_eq!((2, 4), wrap_idx(&(22, 104), &5, &5));
    assert_eq!((0, 0), wrap_idx(&(-10, 10), &5, &5));
}

#[test]
fn wrap_idx_on_single_column_and_row() {
    assert_eq!((0, 0), wrap_idx(&(-1, 1), &1, &1));
    assert_eq!((0, 3), wrap_idx(&(17, 3), &1, &4));
}

#[test]
fn wrap_idxs_keeps_order_and_length() {
    let empty: Vec<(isize, isize)> = Vec::new();
    assert_eq!(Vec::<(usize, usize)>::new(), wrap_idxs(&empty, &3, &3));
    assert_eq!(
        vec![(2, 2), (0, 0), (1, 1)],
        wrap_idxs(&vec![(-1, -1), (3, 3), (4, -2)], &3, &3)
    );
}

#[test]
fn neighbors_come_in_the_order_of_the_offsets() {
    assert_eq!(
        vec![(6, 5), (4, 5), (5, 6), (5, 4), (6, 6), (4, 6), (6, 4), (4, 4)],
        get_neighbors(&(5, 5), &[10, 10])
    );
}

#[test]
fn neighbors_of_the_corner_wrap_around() {
    let neighbors = get_neighbors(&(0, 0), &[3, 3]);
    assert_eq!(
        vec![(1, 0), (2, 0), (0, 1), (0, 2), (1, 1), (2, 1), (1, 2), (2, 2)],
        neighbors
    );
    for wrapped in [(2, 2), (2, 0), (0, 2), (2, 1), (1, 2)] {
        assert!(neighbors.contains(&wrapped));
    }
}

#[test]
fn neighbors_of_the_far_corner_wrap_around() {
    assert_eq!(
        vec![(0, 149), (198, 149), (199, 0), (199, 148), (0, 0), (198, 0), (0, 148), (198, 148)],
        get_neighbors(&(199, 149), &[200, 150])
    );
}

#[test]
fn neighbors_on_a_single_column_are_the_column_itself() {
    assert_eq!(
        vec![(0, 1), (0, 1), (0, 2), (0, 0), (0, 2), (0, 2), (0, 0), (0, 0)],
        get_neighbors(&(0, 1), &[1, 3])
    );
}

#[test]
fn neighbors_on_a_single_cell_are_the_cell_itself() {
    assert_eq!(vec![(0, 0); 8], get_neighbors(&(0, 0), &[1, 1]));
}

#[test]
fn neighbors_are_always_in_range() {
    for width in 1..6usize {
        for height in 1..6usize {
            for x in 0..8usize {
                for y in 0..8usize {
                    let neighbors = get_neighbors(&(x, y), &[width, height]);
                    assert_eq!(8, neighbors.len());
                    for n in neighbors {
                        assert!(n.0 < width && n.1 < height);
                    }
                }
            }
        }
    }
}
