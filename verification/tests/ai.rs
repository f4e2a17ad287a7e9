use r2048_ai::ai::weight::{dot, rot_r, transpose, w_matrices, W0};
use r2048_ai::ai::{
    displaces, expectimax_best, expectimax_move, expectimax_score, expectimax_sum_move,
    expectimax_weight_move, rand_move, smart_depth, spawn_score, state_place, state_tiles,
    sum_tiles_score, weight_score, Heuristic, SumTiles, WeightedTiles, SCORE_UNIT, SPAWNS,
};
use r2048_ai::game::row::CachedRow;
use r2048_ai::game::{Move, State};
use rand::rngs::StdRng;
use rand::SeedableRng;

fn board(cells: [u8; 16]) -> State {
    State([
        CachedRow::from_arr([cells[0], cells[1], cells[2], cells[3]]),
        CachedRow::from_arr([cells[4], cells[5], cells[6], cells[7]]),
        CachedRow::from_arr([cells[8], cells[9], cells[10], cells[11]]),
        CachedRow::from_arr([cells[12], cells[13], cells[14], cells[15]]),
    ])
}

const B1: [u8; 16] = [1, 0, 0, 2, 0, 2, 1, 3, 3, 4, 2, 5, 1, 2, 1, 0];
const B2: [u8; 16] = [0, 0, 1, 1, 0, 1, 2, 3, 0, 1, 2, 3, 3, 6, 9, 10];
const B3: [u8; 16] = [0, 1, 3, 8, 0, 0, 4, 2, 0, 1, 0, 0, 0, 0, 0, 0];
const B4: [u8; 16] = [1, 2, 1, 2, 2, 1, 2, 1, 1, 2, 1, 2, 2, 1, 2, 0];
const STUCK: [u8; 16] = [1, 2, 1, 2, 2, 1, 2, 1, 1, 2, 1, 2, 2, 1, 2, 1];

/// A heuristic that gives every board the same score.
struct Flat(u64);

impl Heuristic for Flat {
    fn value(&self, _s: State) -> u64 {
        self.0
    }

    fn score(&self, _s: &State) -> u64 {
        self.0
    }
}

/// A heuristic that scores a board by its top left cell.
struct Corner;

impl Heuristic for Corner {
    fn value(&self, s: State) -> u64 {
        s.get(0) as u64
    }

    fn score(&self, s: &State) -> u64 {
        s.get(0) as u64
    }
}

#[test]
fn sum_heuristic_adds_the_tile_values() {
    assert_eq!(16 * SCORE_UNIT, sum_tiles_score(&State::default()));
    assert_eq!(9_200_000_000, sum_tiles_score(&board(B1)));
    assert_eq!(164_400_000_000, sum_tiles_score(&board(B2)));
    assert_eq!(16 * 32768 * SCORE_UNIT, sum_tiles_score(&board([15; 16])));
}

#[test]
fn weight_heuristic_takes_the_best_of_eight_weighings() {
    assert_eq!(746_475_677, weight_score(&board(B1)));
    assert_eq!(21_105_661_654, weight_score(&board(B2)));
    assert_eq!(3_824_395_329, weight_score(&board(B3)));
    assert_eq!(300_919_594, weight_score(&board(B4)));
}

#[test]
fn weight_heuristic_is_close_to_the_decimal_weights() {
    let w: [f64; 16] = [
        0.135759, 0.121925, 0.102812, 0.099937, 0.0997992, 0.0888405, 0.076711, 0.0724143,
        0.060654, 0.0562579, 0.037116, 0.0161889, 0.0125498, 0.00992495, 0.00575871, 0.00335193,
    ];
    for i in 0..16 {
        assert!((W0[i] as f64 / SCORE_UNIT as f64 - w[i]).abs() < 1e-12);
    }
    // a lone high tile in the top left corner is weighed by the first weight
    let mut s = State::default();
    s.set(0, 10);
    let rest: u64 = W0.iter().sum::<u64>() - W0[0];
    assert_eq!(1024 * W0[0] + rest, weight_score(&s));
}

#[test]
fn weight_heuristic_does_not_depend_on_the_corner() {
    let s = board(B2);
    let score = weight_score(&s);
    assert_eq!(score, weight_score(&s.rotate_left()));
    assert_eq!(score, weight_score(&s.rotate_right()));
    assert_eq!(score, weight_score(&s.rotate_right().rotate_right()));
}

#[test]
fn state_tiles_are_powers_of_two() {
    let tiles = state_tiles(&board(B1));
    assert_eq!([2, 1, 1, 4, 1, 4, 2, 8, 8, 16, 4, 32, 2, 4, 2, 1], tiles);
}

#[test]
fn matrices_turn_and_mirror() {
    let seq: [u64; 16] = [0, 1, 2, 3, 4, 5, 6, 7, 8, 9, 10, 11, 12, 13, 14, 15];
    assert_eq!(
        [12, 8, 4, 0, 13, 9, 5, 1, 14, 10, 6, 2, 15, 11, 7, 3],
        rot_r(&seq)
    );
    assert_eq!(
        [0, 4, 8, 12, 1, 5, 9, 13, 2, 6, 10, 14, 3, 7, 11, 15],
        transpose(&seq)
    );
    assert_eq!(seq, transpose(&transpose(&seq)));
    assert_eq!(seq, rot_r(&rot_r(&rot_r(&rot_r(&seq)))));
    let ws = w_matrices();
    assert_eq!(W0, ws[0]);
    assert_eq!(rot_r(&W0), ws[1]);
    assert_eq!(rot_r(&rot_r(&W0)), ws[2]);
    assert_eq!(rot_r(&rot_r(&rot_r(&W0))), ws[3]);
    for k in 0..4 {
        assert_eq!(transpose(&ws[k]), ws[k + 4]);
    }
    assert_eq!([1254980, 6065400, 9979920, 13575900], ws[1][..4]);
    assert_eq!([1254980, 992495, 575871, 335193], ws[5][..4]);
}

#[test]
fn dot_sums_the_products() {
    let a: [u64; 16] = [1; 16];
    let b: [u64; 16] = [0, 1, 2, 3, 4, 5, 6, 7, 8, 9, 10, 11, 12, 13, 14, 15];
    assert_eq!(120, dot(&a, &b));
    assert_eq!(1240, dot(&b, &b));
}

#[test]
fn terminal_case_is_the_heuristic() {
    for cells in [B1, B2, B3, B4, STUCK] {
        let s = board(cells);
        assert_eq!(sum_tiles_score(&s), expectimax_score(&s, 0, &SumTiles));
        assert_eq!(weight_score(&s), expectimax_score(&s, 0, &WeightedTiles));
        assert_eq!(42, expectimax_score(&s, 0, &Flat(42)));
        assert_eq!(s.get(0) as u64, expectimax_score(&s, 0, &Corner));
    }
}

#[test]
fn chance_node_is_a_weighted_average() {
    // every outcome is worth the same, so the average is that value, however
    // many cells are empty
    for cells in [B1, B2, B3, B4] {
        let s = board(cells);
        for depth in 1..3 {
            assert_eq!(77, expectimax_score(&s, depth, &Flat(77)));
            assert_eq!(u64::MAX, expectimax_score(&s, depth, &Flat(u64::MAX)));
        }
    }
}

#[test]
fn chance_node_weighs_a_two_nine_times_a_four() {
    assert_eq!([(9, 1), (1, 2)], SPAWNS);
    // one empty cell, in the top left corner: the new tile stays there under
    // the one legal move of each outcome, or no move is legal
    let s = board([0, 3, 4, 3, 3, 4, 3, 4, 4, 3, 4, 3, 3, 4, 3, 4]);
    let two = spawn_score(&s, 0, 1, 0, &Corner);
    let four = spawn_score(&s, 0, 2, 0, &Corner);
    // no move is legal after either tile, so both are worth the board before
    assert_eq!(0, two);
    assert_eq!(0, four);
    assert_eq!(0, expectimax_score(&s, 1, &Corner));
    // the values 9_485_000_000 etc. come from the weights 9 and 1 in 10
    assert_eq!(9_485_000_000, expectimax_score(&board(B1), 1, &SumTiles));
    assert_eq!(864_838_670, expectimax_score(&board(B1), 1, &WeightedTiles));
    assert_eq!(4_740_000_000, expectimax_score(&board(B4), 1, &SumTiles));
    assert_eq!(307_596_330, expectimax_score(&board(B4), 1, &WeightedTiles));
}

#[test]
fn spawn_without_a_legal_move_falls_back_to_the_board_before() {
    // a 2 in the last empty cell leaves no legal move; a 4 merges nowhere either
    let s = board(B4);
    let next = state_place(&s, 15, 1);
    assert!(next.legal_moves().is_empty());
    assert_eq!(sum_tiles_score(&s), spawn_score(&s, 15, 1, 0, &SumTiles));
    assert_eq!(sum_tiles_score(&s), spawn_score(&s, 15, 1, 3, &SumTiles));
}

#[test]
fn deeper_scores() {
    assert_eq!(9_749_458_333, expectimax_score(&board(B1), 2, &SumTiles));
    assert_eq!(897_612_726, expectimax_score(&board(B1), 2, &WeightedTiles));
    assert_eq!(30_246_746_565, expectimax_score(&board(B3), 2, &SumTiles));
    assert_eq!(3_864_089_938, expectimax_score(&board(B3), 2, &WeightedTiles));
}

#[test]
fn best_move_has_the_highest_value() {
    assert_eq!(
        Some((
            Move::Down,
            board([0, 0, 0, 0, 1, 2, 1, 2, 3, 4, 2, 3, 1, 2, 1, 5]),
            872_726_499
        )),
        expectimax_best(&board(B1), 0, &WeightedTiles)
    );
    assert_eq!(
        Some((
            Move::Right,
            board([0, 0, 1, 2, 0, 2, 1, 3, 3, 4, 2, 5, 0, 1, 2, 1]),
            9_522_500_000
        )),
        expectimax_best(&board(B1), 1, &SumTiles)
    );
    assert_eq!(
        Some((
            Move::Up,
            board([3, 2, 1, 1, 0, 6, 3, 4, 0, 0, 9, 10, 0, 0, 0, 0]),
            165_120_000_000
        )),
        expectimax_best(&board(B2), 1, &SumTiles)
    );
    assert_eq!(
        Some((
            Move::Left,
            board([2, 0, 0, 0, 1, 2, 3, 0, 1, 2, 3, 0, 3, 6, 9, 10]),
            21_227_280_742
        )),
        expectimax_best(&board(B2), 2, &WeightedTiles)
    );
}

#[test]
fn last_of_equal_moves_wins() {
    // with a flat heuristic every move has the same value
    let s = board(B1);
    let moves = s.legal_moves();
    assert_eq!(4, moves.len());
    let (m, t, v) = expectimax_best(&s, 1, &Flat(5)).unwrap();
    assert_eq!(Move::Down, m);
    assert_eq!(moves[3].1, t);
    assert_eq!(5, v);
    // only right and down are legal here
    let s = board([1, 0, 0, 0, 0, 0, 0, 0, 0, 0, 0, 0, 0, 0, 0, 0]);
    assert_eq!(Move::Down, expectimax_best(&s, 0, &Flat(5)).unwrap().0);
}

#[test]
fn no_legal_move_no_choice() {
    let s = board(STUCK);
    assert_eq!(None, expectimax_best(&s, 2, &SumTiles));
    assert_eq!(None, expectimax_move(&s, 2, &WeightedTiles));
    assert_eq!(None, expectimax_sum_move(&s, 3));
    assert_eq!(None, expectimax_weight_move(&s, 3));
    assert_eq!(None, rand_move(&s, &mut StdRng::seed_from_u64(0)));
}

#[test]
fn search_is_deterministic() {
    for cells in [B1, B2, B3, B4] {
        let s = board(cells);
        for depth in 0..3 {
            assert_eq!(
                expectimax_best(&s, depth, &WeightedTiles),
                expectimax_best(&s, depth, &WeightedTiles)
            );
            assert_eq!(
                expectimax_best(&s, depth, &SumTiles),
                expectimax_best(&s, depth, &SumTiles)
            );
        }
    }
}

#[test]
fn moves_by_heuristic() {
    let s = board(B3);
    assert_eq!(
        Some((Move::Right, board([0, 1, 3, 8, 0, 0, 4, 2, 0, 0, 0, 1, 0, 0, 0, 0]))),
        expectimax_weight_move(&s, 2)
    );
    assert_eq!(
        Some((Move::Right, board([0, 1, 3, 8, 0, 0, 4, 2, 0, 0, 0, 1, 0, 0, 0, 0]))),
        expectimax_sum_move(&s, 2)
    );
    assert_eq!(
        Some((Move::Up, board([0, 2, 3, 8, 0, 0, 4, 2, 0, 0, 0, 0, 0, 0, 0, 0]))),
        expectimax_sum_move(&s, 1)
    );
    assert_eq!(
        expectimax_move(&s, 1, &WeightedTiles),
        expectimax_weight_move(&s, 1)
    );
}

#[test]
fn smart_depth_goes_deeper_on_a_full_board() {
    assert_eq!(2, smart_depth(&State::default()));
    // five empty cells
    assert_eq!(2, smart_depth(&board([0, 0, 0, 0, 0, 1, 2, 1, 2, 1, 2, 1, 2, 1, 2, 1])));
    // four empty cells
    assert_eq!(3, smart_depth(&board([0, 0, 0, 0, 1, 1, 2, 1, 2, 1, 2, 1, 2, 1, 2, 1])));
    assert_eq!(3, smart_depth(&board(STUCK)));
}

#[test]
fn random_move_is_a_legal_move() {
    let s = board(B1);
    let legal = s.legal_moves();
    let mut rng = StdRng::seed_from_u64(7);
    let mut seen = [false; 4];
    for _ in 0..200 {
        let mv = rand_move(&s, &mut rng).unwrap();
        let at = legal.iter().position(|l| *l == mv).unwrap();
        seen[at] = true;
    }
    assert_eq!([true; 4], seen);
}

#[test]
fn state_place_sets_one_cell() {
    let s = board(B1);
    let t = state_place(&s, 2, 2);
    for i in 0..16 {
        assert_eq!(if i == 2 { 2 } else { s.get(i) }, t.get(i));
    }
}

#[test]
fn equal_value_displaces() {
    assert!(displaces(5, 5));
    assert!(displaces(6, 5));
    assert!(!displaces(4, 5));
}
