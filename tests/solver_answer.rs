use disjoint_path_routing::solver_answer::{
    nonzero_pairs, nonzero_triples, order_from_rows, pairs_from_rows, parse_row, triples_from_rows,
};

#[test]
fn rows_are_read_as_numbers() {
    assert_eq!(parse_row(&b"  12 7\t1\r".to_vec()), Some(vec![12, 7, 1]));
    assert_eq!(parse_row(&b"".to_vec()), Some(vec![]));
    assert_eq!(parse_row(&b"3 x".to_vec()), None);
    assert_eq!(parse_row(&b"99999999999999999999999".to_vec()), None);
}

#[test]
fn order_is_read_from_the_sections() {
    let first = vec![vec![2, 1]];
    let transitions = vec![vec![2, 0, 1], vec![0, 3, 1], vec![3, 1, 0], vec![5]];
    let last = vec![vec![3, 1]];
    assert_eq!(order_from_rows(&first, &transitions, &last), Some((2, vec![(2, 0), (0, 3)], 3)));
    assert_eq!(order_from_rows(&vec![], &transitions, &last), None);
}

#[test]
fn robot_rows_are_read() {
    assert_eq!(pairs_from_rows(&vec![vec![0, 4, 1], vec![1, 2, 0]]), vec![(0, 4)]);
    assert_eq!(triples_from_rows(&vec![vec![0, 4, 2, 1], vec![1, 2, 3]]), vec![(0, 4, 2)]);
}

#[test]
fn zero_costs_are_left_out() {
    assert_eq!(nonzero_pairs(&vec![(0, 0), (1, 5)]), vec![(1, 5)]);
    assert_eq!(nonzero_triples(&vec![(0, 1, 2), (1, 1, 0)]), vec![(0, 1, 2)]);
}
