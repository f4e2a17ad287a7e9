use r2048_ai::game::unpacked::{Row, State};

#[test]
fn unpacked_reverse() {
    assert_eq!(Row([3, 2, 1, 0]), Row([0, 1, 2, 3]).reverse());
    assert_eq!(Row([0, 1, 2, 3]), Row([0, 1, 2, 3]).reverse().reverse());
}

#[test]
fn unpacked_no_collapsing() {
    assert_eq!(Row([1, 2, 3, 0]), Row([0, 1, 2, 3]).shift_left());
    assert_eq!(Row([1, 0, 0, 0]), Row([0, 0, 1, 0]).shift_left());
    assert_eq!(Row([1, 0, 0, 0]), Row([0, 0, 0, 1]).shift_left());
    assert_eq!(Row([5, 3, 0, 0]), Row([0, 5, 0, 3]).shift_left());
}

#[test]
fn collapse() {
    assert_eq!(Row([2, 0, 0, 0]), Row([0, 1, 0, 1]).shift_left());
    assert_eq!(Row([4, 6, 0, 0]), Row([4, 5, 0, 5]).shift_left());
    assert_eq!(Row([2, 2, 0, 0]), Row([1, 1, 1, 1]).shift_left());
    // this one is subtle
    assert_eq!(Row([2, 1, 0, 0]), Row([1, 1, 1, 0]).shift_left());
    assert_eq!(Row([0, 0, 1, 2]), Row([0, 1, 1, 1]).shift_right());
    assert_eq!(Row([2, 3, 0, 0]), Row([1, 1, 2, 2]).shift_left());
}

#[test]
fn unpacked_empty() {
    assert_eq!(vec![0, 1, 2, 3], Row([0, 0, 0, 0]).empty());
    assert_eq!(vec![1, 2], Row([3, 0, 0, 2]).empty());
    assert_eq!(Vec::<u8>::new(), Row([1, 3, 2, 1]).empty());
    assert_eq!(
        vec![(0, 1), (0, 2), (1, 0), (3, 3)],
        State([
            Row([1, 0, 0, 2]),
            Row([0, 2, 1, 3]),
            Row([3, 4, 2, 5]),
            Row([1, 2, 1, 0]),
        ])
        .empty()
    )
}

#[test]
fn transpose() {
    assert_eq!(
        State([
            Row([0, 4, 8, 12]),
            Row([1, 5, 9, 13]),
            Row([2, 6, 10, 14]),
            Row([3, 7, 11, 15]),
        ]),
        State([
            Row([0, 1, 2, 3]),
            Row([4, 5, 6, 7]),
            Row([8, 9, 10, 11]),
            Row([12, 13, 14, 15]),
        ])
        .transposed()
    );
}

#[test]
fn classic_rule_merges_a_tile_once() {
    assert_eq!(Row([3, 0, 0, 0]), Row([2, 2, 0, 0]).shift_left());
    assert_eq!(Row([3, 3, 0, 0]), Row([2, 2, 2, 2]).shift_left());
    assert_eq!(Row([0, 0, 3, 3]), Row([2, 2, 2, 2]).shift_right());
    assert_eq!(Row([2, 2, 0, 0]), Row([1, 1, 2, 0]).shift_left());
}

#[test]
fn unpacked_get_and_transpose_in_place() {
    let mut s = State([
        Row([0, 1, 2, 3]),
        Row([4, 5, 6, 7]),
        Row([8, 9, 10, 11]),
        Row([12, 13, 14, 15]),
    ]);
    assert_eq!(6, s.get(1, 2));
    s.transpose_in_place();
    assert_eq!(9, s.get(1, 2));
    s.transpose_in_place();
    assert_eq!(6, s.get(1, 2));
}
