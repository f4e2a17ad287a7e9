use r2048_ai::game::row::{ArrayRow, CachedRow, Row};
use r2048_ai::game::{Move, State};

fn board(rows: [[u8; 4]; 4]) -> State {
    State([
        CachedRow::from_arr(rows[0]),
        CachedRow::from_arr(rows[1]),
        CachedRow::from_arr(rows[2]),
        CachedRow::from_arr(rows[3]),
    ])
}

#[test]
fn game_reverse() {
    assert_eq!(ArrayRow([3, 2, 1, 0]), ArrayRow([0, 1, 2, 3]).reverse());
    assert_eq!(ArrayRow([0, 1, 2, 3]), ArrayRow([0, 1, 2, 3]).reverse().reverse());
}

#[test]
fn game_no_collapsing() {
    assert_eq!(ArrayRow([1, 2, 3, 0]), ArrayRow([0, 1, 2, 3]).shift_left());
    assert_eq!(ArrayRow([1, 0, 0, 0]), ArrayRow([0, 0, 1, 0]).shift_left());
    assert_eq!(ArrayRow([1, 0, 0, 0]), ArrayRow([0, 0, 0, 1]).shift_left());
    assert_eq!(ArrayRow([5, 3, 0, 0]), ArrayRow([0, 5, 0, 3]).shift_left());
}

fn index(i: usize, j: usize) -> u8 {
    (i * 4 + j) as u8
}

#[test]
fn game_empty() {
    assert_eq!(vec![0, 1, 2, 3], ArrayRow([0, 0, 0, 0]).empty());
    assert_eq!(vec![1, 2], ArrayRow([3, 0, 0, 2]).empty());
    assert_eq!(Vec::<u8>::new(), ArrayRow([1, 3, 2, 1]).empty());
}

#[test]
fn empty() {
    assert_eq!(
        // these are linear indices, but compute them here for readability
        vec![index(0, 1), index(0, 2), index(1, 0), index(3, 3)],
        board([[1, 0, 0, 2], [0, 2, 1, 3], [3, 4, 2, 5], [1, 2, 1, 0]]).empty()
    )
}

#[test]
fn rotate() {
    let s = board([[0, 1, 2, 3], [4, 0, 0, 0], [8, 0, 0, 0], [12, 0, 0, 0]]);
    assert_eq!(
        board([[12, 8, 4, 0], [0, 0, 0, 1], [0, 0, 0, 2], [0, 0, 0, 3]]),
        s.rotate_right()
    );
    assert_eq!(
        board([[3, 0, 0, 0], [2, 0, 0, 0], [1, 0, 0, 0], [0, 4, 8, 12]]),
        s.rotate_left()
    )
}

#[test]
fn test_moves() {
    let s = board([[0, 0, 0, 0], [0, 1, 0, 0], [0, 0, 0, 0], [0, 0, 0, 0]]);
    assert_eq!(
        board([[0, 0, 0, 0], [1, 0, 0, 0], [0, 0, 0, 0], [0, 0, 0, 0]]),
        s.make_move(Move::Left),
    );
    assert_eq!(
        board([[0, 0, 0, 0], [0, 0, 0, 1], [0, 0, 0, 0], [0, 0, 0, 0]]),
        s.make_move(Move::Right),
    );
    assert_eq!(
        board([[0, 1, 0, 0], [0, 0, 0, 0], [0, 0, 0, 0], [0, 0, 0, 0]]),
        s.make_move(Move::Up),
    );
    assert_eq!(
        board([[0, 0, 0, 0], [0, 0, 0, 0], [0, 0, 0, 0], [0, 1, 0, 0]]),
        s.make_move(Move::Down),
    );
}

#[test]
fn empty_cell_enumeration_example() {
    let s = board([[1, 0, 0, 2], [0, 2, 1, 3], [3, 4, 2, 5], [1, 2, 1, 0]]);
    assert_eq!(vec![1, 2, 4, 15], s.empty());
}

#[test]
fn three_left_turns_are_one_right_turn() {
    let boards = [
        board([[0, 1, 2, 3], [4, 5, 6, 7], [8, 9, 10, 11], [12, 13, 14, 15]]),
        board([[1, 0, 0, 2], [0, 2, 1, 3], [3, 4, 2, 5], [1, 2, 1, 0]]),
        State::default(),
    ];
    for s in boards {
        assert_eq!(s.rotate_right(), s.rotate_left().rotate_left().rotate_left());
        assert_eq!(s, s.rotate_left().rotate_right());
        assert_eq!(s, s.rotate_right().rotate_left());
    }
}

#[test]
fn get_tile_set_add() {
    let mut s = State::default();
    for i in 0..16 {
        assert_eq!(0, s.get(i));
        assert_eq!(1, s.tile(i));
    }
    s.add(5, 3);
    assert_eq!(3, s.get(5));
    assert_eq!(8, s.tile(5));
    s.set(5, 15);
    assert_eq!(15, s.get(5));
    assert_eq!(32768, s.tile(5));
    s.set(15, 1);
    assert_eq!(board([[0, 0, 0, 0], [0, 15, 0, 0], [0, 0, 0, 0], [0, 0, 0, 1]]), s);
}

#[test]
fn highest_tile_is_two_to_the_largest_exponent() {
    assert_eq!(1, State::default().highest_tile());
    assert_eq!(
        32,
        board([[1, 0, 0, 2], [0, 2, 1, 3], [3, 4, 2, 5], [1, 2, 1, 0]]).highest_tile()
    );
    assert_eq!(
        32768,
        board([[0, 1, 2, 3], [4, 5, 6, 7], [8, 9, 10, 11], [12, 13, 14, 15]]).highest_tile()
    );
}

#[test]
fn legal_moves_leave_out_moves_that_change_nothing() {
    // nothing can move to the left or up
    let s = board([[1, 0, 0, 0], [0, 0, 0, 0], [0, 0, 0, 0], [0, 0, 0, 0]]);
    let moves = s.legal_moves();
    assert_eq!(
        vec![
            (Move::Right, board([[0, 0, 0, 1], [0, 0, 0, 0], [0, 0, 0, 0], [0, 0, 0, 0]])),
            (Move::Down, board([[0, 0, 0, 0], [0, 0, 0, 0], [0, 0, 0, 0], [1, 0, 0, 0]])),
        ],
        moves
    );
    for (m, t) in moves {
        assert_ne!(s, t);
        assert_eq!(t, s.make_move(m));
    }
}

#[test]
fn legal_moves_come_in_the_order_left_right_up_down() {
    let s = board([[0, 0, 0, 0], [0, 1, 0, 0], [0, 0, 0, 0], [0, 0, 0, 0]]);
    let moves: Vec<Move> = s.legal_moves().into_iter().map(|(m, _)| m).collect();
    assert_eq!(vec![Move::Left, Move::Right, Move::Up, Move::Down], moves);
    assert_eq!([Move::Left, Move::Right, Move::Up, Move::Down], Move::ALL);
}

#[test]
fn stuck_board_has_no_legal_move() {
    let s = board([[1, 2, 1, 2], [2, 1, 2, 1], [1, 2, 1, 2], [2, 1, 2, 1]]);
    assert!(s.legal_moves().is_empty());
    assert!(s.empty().is_empty());
}

#[test]
fn every_legal_move_leaves_an_empty_cell() {
    let boards = [
        board([[1, 1, 2, 3], [4, 5, 6, 7], [1, 2, 3, 4], [5, 6, 7, 8]]),
        board([[1, 2, 3, 4], [1, 5, 6, 7], [2, 3, 4, 5], [6, 7, 8, 9]]),
        board([[15, 15, 1, 2], [3, 4, 5, 6], [7, 8, 9, 10], [11, 12, 13, 14]]),
    ];
    for s in boards {
        let moves = s.legal_moves();
        assert!(!moves.is_empty());
        for (_, t) in moves {
            assert!(!t.empty().is_empty());
        }
    }
}

#[test]
fn move_up_and_down_merge_columns() {
    let s = board([[1, 0, 0, 0], [1, 0, 0, 0], [2, 0, 0, 0], [2, 0, 0, 0]]);
    assert_eq!(
        board([[3, 0, 0, 0], [2, 0, 0, 0], [0, 0, 0, 0], [0, 0, 0, 0]]),
        s.make_move(Move::Up)
    );
    assert_eq!(
        board([[0, 0, 0, 0], [0, 0, 0, 0], [2, 0, 0, 0], [3, 0, 0, 0]]),
        s.make_move(Move::Down)
    );
    assert_eq!(s.move_left(), s.make_move(Move::Left));
    assert_eq!(s.move_right(), s.make_move(Move::Right));
}

#[test]
fn place_spawn_puts_a_two_or_a_four() {
    let mut s = State::default();
    s.place_spawn(3, false);
    s.place_spawn(4, true);
    assert_eq!(board([[0, 0, 0, 1], [2, 0, 0, 0], [0, 0, 0, 0], [0, 0, 0, 0]]), s);
}

#[test]
fn game_shifts() {
    for (shifted, r) in vec![
        // simple, no-collapse tests
        (ArrayRow([1, 2, 3, 0]), ArrayRow([0, 1, 2, 3])),
        (ArrayRow([1, 0, 0, 0]), ArrayRow([0, 0, 0, 1])),
        (ArrayRow([5, 3, 0, 0]), ArrayRow([0, 5, 0, 3])),
        // collapsing
        (ArrayRow([2, 0, 0, 0]), ArrayRow([0, 1, 0, 1])),
        (ArrayRow([4, 6, 0, 0]), ArrayRow([4, 5, 0, 5])),
        (ArrayRow([2, 2, 0, 0]), ArrayRow([1, 1, 1, 1])),
        (ArrayRow([2, 1, 0, 0]), ArrayRow([1, 1, 1, 0])),
        (ArrayRow([2, 1, 0, 0]), ArrayRow([0, 1, 1, 1])),
        (ArrayRow([3, 2, 0, 0]), ArrayRow([1, 1, 2, 2])),
        (ArrayRow([4, 5, 0, 0]), ArrayRow([2, 2, 3, 5])),
        (ArrayRow([3, 5, 0, 0]), ArrayRow([2, 2, 4, 4])),
        // bunch of unchanged examples
        (ArrayRow([0, 0, 0, 0]), ArrayRow([0, 0, 0, 0])),
        (ArrayRow([1, 0, 0, 0]), ArrayRow([1, 0, 0, 0])),
        (ArrayRow([2, 3, 2, 0]), ArrayRow([2, 3, 2, 0])),
        (ArrayRow([3, 4, 5, 3]), ArrayRow([3, 4, 5, 3])),
    ]
    .into_iter()
    {
        assert_eq!(shifted, r.shift_left(), "{:?} left shift is wrong", r);
        assert_eq!(
            r.reverse().shift_left().reverse(),
            r.shift_right(),
            "{:?} shifted wrong",
            r
        );
        assert_eq!(
            r.shift_left_spec(),
            r.shift_left(),
            "{:?} left shift doesn't match spec",
            r
        )
    }
}

#[test]
fn printing() {
    assert_eq!(
        " 0  1  2  3
 4  5  6  7
 8  9 10 11
12 13 14 15
",
        format!(
            "{}",
            board([[0, 1, 2, 3], [4, 5, 6, 7], [8, 9, 10, 11], [12, 13, 14, 15]]).to_string()
        )
    )
}
