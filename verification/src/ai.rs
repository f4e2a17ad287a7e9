//! The player: expectimax search to a given depth, over the moves of the
//! player and the tiles that chance adds.
//!
//! Scores are fixed-point numbers: [`SCORE_UNIT`] units make one point, the
//! value of a tile of exponent 0. A node of chance weighs every new tile by
//! its chance in [`SPAWN_PARTS`] parts.
use crate::game::has_room;
use crate::game::lemma_legal_moves;
use crate::game::row::as_ints;
use crate::game::row::empty_positions;
use crate::game::row::lemma_empty_positions;
use crate::game::Move;
use crate::game::State;
use crate::game::FOUR_SPAWN_PARTS;
use crate::game::SPAWN_PARTS;
use crate::game::TWO_SPAWN_PARTS;
use crate::random::pick;
use rand::rngs::StdRng;
use vstd::arithmetic::power2::lemma2_to64;
use vstd::arithmetic::power2::pow2;
use vstd::prelude::*;
use weight::all_matrices;
use weight::dot;
use weight::dot_upto;
use weight::entries;
use weight::w_matrices;
use weight::Matrix;

pub mod weight;

verus! {

/// The number of score units in one point: scores are fixed-point numbers
/// with eight decimal places.
pub const SCORE_UNIT: u64 = 100_000_000;

/// The values of the tiles in the cells of `board`: 2 to the power of each
/// exponent.
pub open spec fn tile_values(board: Seq<int>) -> Seq<int> {
    Seq::new(board.len(), |i: int| pow2(board[i] as nat) as int)
}

/// The sum of the first `n` of `values`.
pub open spec fn sum_upto(values: Seq<int>, n: int) -> int
    decreases n,
{
    if n <= 0 {
        0
    } else {
        sum_upto(values, n - 1) + values[n - 1]
    }
}

/// The score of a board by the sum of its tiles.
pub open spec fn sum_tiles_value(board: Seq<int>) -> int {
    SCORE_UNIT * sum_upto(tile_values(board), 16)
}

/// The largest of the first `n` weighings of `tiles`, one with each matrix
/// of `ws`.
pub open spec fn max_dot_upto(tiles: Seq<int>, ws: Seq<Seq<int>>, n: int) -> int
    decreases n,
{
    if n <= 0 {
        0
    } else if dot_upto(tiles, ws[n - 1], 16) > max_dot_upto(tiles, ws, n - 1) {
        dot_upto(tiles, ws[n - 1], 16)
    } else {
        max_dot_upto(tiles, ws, n - 1)
    }
}

/// The score of a board by the weights of its cells: the largest of its
/// weighings with the eight matrices.
pub open spec fn weight_value(board: Seq<int>) -> int {
    max_dot_upto(tile_values(board), all_matrices(), 8)
}

/// The values of the tiles on the board, cell by cell.
pub fn state_tiles(s: &State) -> (tiles: Matrix)
    ensures
        entries(tiles) == tile_values(s.cells()),
        forall|i: int| 0 <= i < 16 ==> 1 <= #[trigger] tiles[i] <= 32768,
{
    let mut tiles: Matrix = [0u64;16];
    for i in 0..16usize
        invariant
            forall|k: int| 0 <= k < i ==> tiles[k] == pow2(s.cells()[k] as nat),
            forall|k: int| 0 <= k < i ==> 1 <= #[trigger] tiles[k] <= 32768,
    {
        proof {
            lemma2_to64();
        }
        tiles[i] = s.tile(i) as u64;
    }
    assert(entries(tiles) =~= tile_values(s.cells()));
    tiles
}

/// Score a board by a weight matrix that favours high tiles in one corner,
/// laid on the board in each of its eight ways.
pub fn weight_score(s: &State) -> (r: u64)
    ensures
        r == weight_value(s.cells()),
{
    let tiles = state_tiles(s);
    let ws = w_matrices();
    let mut best: u64 = 0;
    for k in 0..8usize
        invariant
            entries(tiles) == tile_values(s.cells()),
            forall|i: int| 0 <= i < 16 ==> 1 <= #[trigger] tiles[i] <= 32768,
            forall|n: int| 0 <= n < 8 ==> entries(#[trigger] ws[n]) == all_matrices()[n],
            forall|n: int|
                0 <= n < 8 ==> weight::capped(entries(#[trigger] ws[n]), weight::W_MAX as int),
            best == max_dot_upto(tile_values(s.cells()), all_matrices(), k as int),
    {
        let w_mat = ws[k];
        proof {
            assert(weight::capped(entries(ws[k as int]), weight::W_MAX as int));
            assert forall|i: int| 0 <= i < 16 implies #[trigger] tiles[i] * w_mat[i] <= u64::MAX
                / 16 by {
                assert(0 <= entries(w_mat)[i] <= weight::W_MAX);
                assert(tiles[i] * w_mat[i] <= 32768 * 13575900) by (nonlinear_arith)
                    requires
                        0 <= tiles[i] <= 32768,
                        0 <= w_mat[i] <= 13575900,
                ;
            }
        }
        let x = dot(&tiles, &w_mat);
        if x > best {
            best = x;
        }
    }
    best
}

/// Score a board by the sum of its tiles, wherever they stand.
pub fn sum_tiles_score(s: &State) -> (r: u64)
    ensures
        r == sum_tiles_value(s.cells()),
{
    let mut sum: u64 = 0;
    for i in 0..16usize
        invariant
            sum == sum_upto(tile_values(s.cells()), i as int),
            sum <= i * 32768,
    {
        proof {
            lemma2_to64();
        }
        sum += s.tile(i) as u64;
    }
    SCORE_UNIT * sum
}

/// A way to score the boards at which the search stops.
pub trait Heuristic {
    /// The score of the board `s`.
    spec fn value(&self, s: State) -> u64;

    /// Score the board `s`.
    fn score(&self, s: &State) -> (r: u64)
        ensures
            r == self.value(*s),
    ;
}

/// The heuristic that scores a board by the sum of its tiles.
#[derive(Debug, Clone, Copy)]
pub struct SumTiles;

impl Heuristic for SumTiles {
    open spec fn value(&self, s: State) -> u64 {
        sum_tiles_value(s.cells()) as u64
    }

    fn score(&self, s: &State) -> (r: u64) {
        sum_tiles_score(s)
    }
}

/// The heuristic that scores a board by the weights of its cells.
#[derive(Debug, Clone, Copy)]
pub struct WeightedTiles;

impl Heuristic for WeightedTiles {
    open spec fn value(&self, s: State) -> u64 {
        weight_value(s.cells()) as u64
    }

    fn score(&self, s: &State) -> (r: u64) {
        weight_score(s)
    }
}

/// The two heuristics of the library give scores that fit 64 bits: the
/// score of a board is the sum of its tiles, or its best weighing, as it
/// stands.
pub proof fn lemma_heuristic_values(s: State)
    ensures
        SumTiles.value(s) == sum_tiles_value(s.cells()),
        WeightedTiles.value(s) == weight_value(s.cells()),
{
    let tiles = tile_values(s.cells());
    assert(weight::capped(tiles, 32768)) by {
        lemma2_to64();
        assert forall|i: int| 0 <= i < 16 implies 0 <= #[trigger] tiles[i] <= 32768 by {
            let e = s.cells()[i];
            assert(0 <= e <= 15);
        }
    }
    lemma_sum_bound(tiles, 16, 32768);
    let ws = all_matrices();
    let w0 = entries(weight::W0);
    let w1 = crate::game::rotate_right(w0);
    let w2 = crate::game::rotate_right(w1);
    let w3 = crate::game::rotate_right(w2);
    let top = weight::W_MAX as int;
    weight::lemma_turned_capped(w0, top);
    weight::lemma_turned_capped(w1, top);
    weight::lemma_turned_capped(w2, top);
    weight::lemma_turned_capped(w3, top);
    assert forall|k: int| 0 <= k < 8 implies 0 <= #[trigger] dot_upto(tiles, ws[k], 16) <= 16
        * (32768 * top) by {
        lemma_dot_bound(tiles, ws[k], 16, 32768, top);
    }
    lemma_max_dot_bound(tiles, ws, 8, 16 * (32768 * top));
}

/// The sum of the first `n` of values from 0 to `top` is at most `n` times
/// `top`.
proof fn lemma_sum_bound(values: Seq<int>, n: int, top: int)
    requires
        0 <= n <= values.len(),
        weight::capped(values, top),
    ensures
        0 <= sum_upto(values, n) <= n * top,
    decreases n,
{
    if n > 0 {
        lemma_sum_bound(values, n - 1, top);
        assert(0 <= values[n - 1] <= top);
        assert(n * top == (n - 1) * top + top) by (nonlinear_arith);
    }
}

/// The weighing of entries from 0 to `ta` with entries from 0 to `tb`, over
/// the first `n` cells, is at most `n` times `ta` times `tb`.
proof fn lemma_dot_bound(a: Seq<int>, b: Seq<int>, n: int, ta: int, tb: int)
    requires
        0 <= n <= a.len(),
        n <= b.len(),
        weight::capped(a, ta),
        weight::capped(b, tb),
    ensures
        0 <= dot_upto(a, b, n) <= n * (ta * tb),
    decreases n,
{
    if n > 0 {
        lemma_dot_bound(a, b, n - 1, ta, tb);
        let x = a[n - 1];
        let y = b[n - 1];
        assert(0 <= x <= ta && 0 <= y <= tb);
        assert(0 <= x * y <= ta * tb) by (nonlinear_arith)
            requires
                0 <= x <= ta,
                0 <= y <= tb,
        ;
        assert(n * (ta * tb) == (n - 1) * (ta * tb) + ta * tb) by (nonlinear_arith);
    }
}

/// The largest of weighings from 0 to `top` is from 0 to `top`.
proof fn lemma_max_dot_bound(tiles: Seq<int>, ws: Seq<Seq<int>>, n: int, top: int)
    requires
        0 <= n <= ws.len(),
        0 <= top,
        forall|k: int| 0 <= k < n ==> 0 <= #[trigger] dot_upto(tiles, ws[k], 16) <= top,
    ensures
        0 <= max_dot_upto(tiles, ws, n) <= top,
    decreases n,
{
    if n > 0 {
        lemma_max_dot_bound(tiles, ws, n - 1, top);
        assert(0 <= dot_upto(tiles, ws[n - 1], 16) <= top);
    }
}

/// The new tiles that chance may add: the parts, of [`SPAWN_PARTS`], at which
/// each comes, and its exponent.
pub const SPAWNS: [(u32, u8); 2] = [(TWO_SPAWN_PARTS, 1), (FOUR_SPAWN_PARTS, 2)];

/// The board `s` with a tile of exponent `x` in cell `i`.
pub open spec fn placed(s: State, i: int, x: int) -> State {
    State::from_cells(s.cells().update(i, x))
}

/// The number of outcomes of the node of chance at `s`: each kind of new tile
/// in each empty cell.
pub open spec fn outcome_count(s: State) -> nat {
    2 * empty_positions(s.cells()).len()
}

/// The board of outcome `n` of the node of chance at `s`. The outcomes go
/// through the empty cells in ascending order, and for each cell through
/// [`SPAWNS`].
pub open spec fn outcome_board(s: State, n: int) -> State {
    placed(s, empty_positions(s.cells())[n / 2], SPAWNS[n % 2].1 as int)
}

/// The weight of outcome `n` of a node of chance.
pub open spec fn outcome_weight(n: int) -> int {
    SPAWNS[n % 2].0 as int
}

/// The sum of the weights of the first `n` outcomes of a node of chance.
pub open spec fn weight_upto(n: nat) -> int
    decreases n,
{
    if n == 0 {
        0
    } else {
        weight_upto((n - 1) as nat) + outcome_weight(n - 1)
    }
}

/// What the outcome `next` of the node of chance at `s` is worth, searched
/// `d` levels deep: the value of the best move from `next`, and where `next`
/// has no legal move, the heuristic's score of `s`, the board before the new
/// tile.
pub open spec fn outcome_value<H: Heuristic>(h: &H, s: State, next: State, d: nat) -> u64
    decreases d, 5int, 0nat,
{
    match best_choice(h, next, d) {
        Some(b) => b.2,
        None => h.value(s),
    }
}

/// The sum, over the first `n` outcomes of the node of chance at `s`, of each
/// outcome's weight times its value.
pub open spec fn weighted_upto<H: Heuristic>(h: &H, s: State, d: nat, n: nat) -> int
    decreases d, 1int, n,
{
    if n == 0 || d == 0 {
        0
    } else {
        weighted_upto(h, s, d, (n - 1) as nat) + outcome_weight(n - 1) * outcome_value(
            h,
            s,
            outcome_board(s, n - 1),
            (d - 1) as nat,
        )
    }
}

/// The value of the board `s`, searched `d` levels deep. At depth 0 it is the
/// heuristic's score. Below, `s` is a node of chance: its value is the
/// weighted average of the values of its outcomes, rounded down.
pub open spec fn score_value<H: Heuristic>(h: &H, s: State, d: nat) -> u64
    decreases d, 2int, 0nat,
{
    if d == 0 {
        h.value(s)
    } else {
        (weighted_upto(h, s, d, outcome_count(s)) / (SPAWN_PARTS * empty_positions(
            s.cells(),
        ).len())) as u64
    }
}

/// The best among the first `n` legal moves from `s`, with the board it
/// leads to and that board's value. Of moves with the same value the one
/// that is tried last is the best.
pub open spec fn best_upto<H: Heuristic>(h: &H, s: State, d: nat, n: nat) -> Option<
    (Move, State, u64),
>
    decreases d, 3int, n,
{
    if n == 0 {
        None
    } else {
        let m = s.legal()[n - 1].0;
        let t = s.legal()[n - 1].1;
        let v = score_value(h, t, d);
        match best_upto(h, s, d, (n - 1) as nat) {
            Some(b) => if v < b.2 {
                Some(b)
            } else {
                Some((m, t, v))
            },
            None => Some((m, t, v)),
        }
    }
}

/// The best legal move from `s`, with the board it leads to and that board's
/// value searched `d` levels deep; `None` where `s` has no legal move.
pub open spec fn best_choice<H: Heuristic>(h: &H, s: State, d: nat) -> Option<(Move, State, u64)>
    decreases d, 4int, 0nat,
{
    best_upto(h, s, d, s.legal().len())
}

/// The board `s` with a tile of exponent `x` in its empty cell `i`.
pub fn state_place(s: &State, i: u8, x: u8) -> (next_s: State)
    requires
        i < 16,
        x <= 15,
        s.cells()[i as int] == 0,
    ensures
        next_s == placed(*s, i as int, x as int),
        next_s.cells() == s.cells().update(i as int, x as int),
{
    let mut next_s = *s;
    next_s.add(i as usize, x);
    proof {
        crate::game::lemma_from_own_cells(next_s);
    }
    next_s
}

/// The value of the board `s`, searched `search_depth` levels deep.
pub fn expectimax_score<H: Heuristic>(s: &State, search_depth: u32, terminal_score: &H) -> (r: u64)
    requires
        search_depth > 0 ==> has_room(s.cells()),
    ensures
        r == score_value(terminal_score, *s, search_depth as nat),
        search_depth == 0 ==> r == terminal_score.value(*s),
    decreases search_depth, 0int,
{
    if search_depth == 0 {
        return terminal_score.score(s);
    }
    let ghost d = search_depth as nat;
    // the expected value over all the tiles that chance may add to this board
    let mut weighted_sum: u128 = 0;
    let poss = s.empty();
    let total_weight = poss.len();
    proof {
        lemma_empty_positions(s.cells());
        crate::game::row::lemma_empty_upto_bounds(s.cells(), 16);
        let i = choose|i: int| 0 <= i < s.cells().len() && s.cells()[i] == 0;
        assert(empty_positions(s.cells()).contains(i));
    }
    for c in 0..total_weight
        invariant
            search_depth > 0,
            d == search_depth,
            0 < total_weight == poss.len() <= 16,
            as_ints(poss@) == empty_positions(s.cells()),
            weighted_sum == weighted_upto(terminal_score, *s, d, (2 * c) as nat),
            weighted_sum <= 10 * c * u64::MAX,
    {
        let i = poss[c];
        proof {
            lemma_empty_positions(s.cells());
            assert(as_ints(poss@)[c as int] == i);
            assert(empty_positions(s.cells())[c as int] == i);
        }
        for j in 0..2usize
            invariant
                search_depth > 0,
                d == search_depth,
                c < 16,
                i < 16,
                s.cells()[i as int] == 0,
                empty_positions(s.cells())[c as int] == i,
                weighted_sum == weighted_upto(terminal_score, *s, d, (2 * c + j) as nat),
                weighted_sum <= (10 * c + if j == 0 {
                    0int
                } else if j == 1 {
                    9
                } else {
                    10
                }) * u64::MAX,
        {
            let (p, x) = SPAWNS[j];
            let v = spawn_score(s, i, x, search_depth - 1, terminal_score);
            proof {
                lemma_weighted_step(terminal_score, *s, d, c as int, j as int);
                assert(p * v <= p * u64::MAX) by (nonlinear_arith)
                    requires
                        0 <= v <= u64::MAX,
                        0 <= p,
                ;
            }
            weighted_sum += p as u128 * v as u128;
        }
    }
    proof {
        assert(outcome_count(*s) == 2 * total_weight);
        assert(weighted_sum / (10 * total_weight) as u128 <= u64::MAX) by (nonlinear_arith)
            requires
                0 < total_weight,
                weighted_sum <= (10 * total_weight) * u64::MAX,
        ;
    }
    (weighted_sum / (SPAWN_PARTS as u128 * total_weight as u128)) as u64
}

/// What a new tile of exponent `x` in the empty cell `i` of `s` is worth: the
/// value of the best move from the board with that tile, searched
/// `search_depth` levels deep, and the heuristic's score of `s` where that
/// board has no legal move.
pub fn spawn_score<H: Heuristic>(
    s: &State,
    i: u8,
    x: u8,
    search_depth: u32,
    terminal_score: &H,
) -> (v: u64)
    requires
        i < 16,
        x <= 15,
        s.cells()[i as int] == 0,
    ensures
        v == outcome_value(terminal_score, *s, placed(*s, i as int, x as int), search_depth as nat),
    decreases search_depth, 2int,
{
    let next_s = state_place(s, i, x);
    match expectimax_best(&next_s, search_depth, terminal_score) {
        Some((_, _, v)) => v,
        None => terminal_score.score(s),
    }
}

/// Outcome `2 * c + j` adds its weight times its value to the weighted sum.
proof fn lemma_weighted_step<H: Heuristic>(h: &H, s: State, d: nat, c: int, j: int)
    requires
        d > 0,
        0 <= c,
        0 <= j < 2,
    ensures
        weighted_upto(h, s, d, (2 * c + j + 1) as nat) == weighted_upto(
            h,
            s,
            d,
            (2 * c + j) as nat,
        ) + SPAWNS[j].0 * outcome_value(
            h,
            s,
            placed(s, empty_positions(s.cells())[c], SPAWNS[j].1 as int),
            (d - 1) as nat,
        ),
{
    let n = 2 * c + j;
    assert(n / 2 == c && n % 2 == j);
}

/// Whether a move of value `v` takes the place of the best move so far, of
/// value `best`: it does unless it is worth less, so that of moves with the
/// same value the one that is tried last wins.
pub fn displaces(v: u64, best: u64) -> (r: bool)
    ensures
        r == !(v < best),
{
    !(v < best)
}

/// The best legal move from `s`, with the board it leads to and that board's
/// value searched `search_depth` levels deep; `None` where `s` has no legal
/// move. Of moves with the same value, the one that is tried last wins.
pub fn expectimax_best<H: Heuristic>(s: &State, search_depth: u32, terminal_score: &H) -> (r:
    Option<(Move, State, u64)>)
    ensures
        r == best_choice(terminal_score, *s, search_depth as nat),
    decreases search_depth, 1int,
{
    let moves = s.legal_moves();
    let mut best: Option<(Move, State, u64)> = None;
    proof {
        lemma_legal_moves(*s);
    }
    for n in 0..moves.len()
        invariant
            moves@ == s.legal(),
            forall|k: int|
                0 <= k < s.legal().len() ==> has_room((#[trigger] s.legal()[k]).1.cells()),
            best == best_upto(terminal_score, *s, search_depth as nat, n as nat),
    {
        let (m, t) = moves[n];
        assert(has_room(s.legal()[n as int].1.cells()));
        let v = expectimax_score(&t, search_depth, terminal_score);
        best =
        match best {
            Some(b) => if displaces(v, b.2) {
                Some((m, t, v))
            } else {
                Some(b)
            },
            None => Some((m, t, v)),
        };
    }
    best
}

/// The move of a choice, with the board it leads to.
pub open spec fn best_move<H: Heuristic>(h: &H, s: State, d: nat) -> Option<(Move, State)> {
    match best_choice(h, s, d) {
        Some(b) => Some((b.0, b.1)),
        None => None,
    }
}

/// The best legal move from `s` and the board it leads to, by a search
/// `search_depth` levels deep; `None` where `s` has no legal move.
pub fn expectimax_move<H: Heuristic>(s: &State, search_depth: u32, terminal_score: &H) -> (r:
    Option<(Move, State)>)
    ensures
        r == best_move(terminal_score, *s, search_depth as nat),
        r is None <==> s.legal().len() == 0,
        r matches Some(mv) ==> s.legal().contains(mv),
{
    proof {
        lemma_best_choice(terminal_score, *s, search_depth as nat);
        if best_choice(terminal_score, *s, search_depth as nat) is Some {
            let b = best_choice(terminal_score, *s, search_depth as nat)->0;
            let i = choose|i: int|
                leads(terminal_score, *s, search_depth as nat, s.legal().len(), i, b);
            assert(s.legal()[i] == (b.0, b.1));
        }
    }
    match expectimax_best(s, search_depth, terminal_score) {
        Some((m, s, _)) => Some((m, s)),
        None => None,
    }
}

/// The depth to search to from `s`: deeper when the board is nearly full.
pub fn smart_depth(s: &State) -> (depth: u32)
    ensures
        depth == if empty_positions(s.cells()).len() < 5 {
            3u32
        } else {
            2u32
        },
{
    let depth = if s.empty().len() < 5 {
        3
    } else {
        2
    };
    depth
}

/// The best legal move from `s` by the weights of the cells, and the board
/// it leads to.
pub fn expectimax_weight_move(s: &State, search_depth: u32) -> (r: Option<(Move, State)>)
    ensures
        r == best_move(&WeightedTiles, *s, search_depth as nat),
        r is None <==> s.legal().len() == 0,
        r matches Some(mv) ==> s.legal().contains(mv),
{
    expectimax_move(s, search_depth, &WeightedTiles)
}

/// The best legal move from `s` by the sum of the tiles, and the board it
/// leads to.
pub fn expectimax_sum_move(s: &State, search_depth: u32) -> (r: Option<(Move, State)>)
    ensures
        r == best_move(&SumTiles, *s, search_depth as nat),
        r is None <==> s.legal().len() == 0,
        r matches Some(mv) ==> s.legal().contains(mv),
{
    expectimax_move(s, search_depth, &SumTiles)
}

/// A legal move from `s` picked by chance, and the board it leads to; `None`
/// where `s` has no legal move.
pub fn rand_move(s: &State, rng: &mut StdRng) -> (r: Option<(Move, State)>)
    ensures
        r is None <==> s.legal().len() == 0,
        r matches Some(mv) ==> s.legal().contains(mv),
{
    let moves = s.legal_moves();
    pick(&moves, rng)
}

/// Whether `b` is the legal move in place `i` among the first `n` legal moves
/// from `s`, with its board and that board's value, and the best of them: no
/// other of them has a higher value, and none after it has the same value.
pub open spec fn leads<H: Heuristic>(
    h: &H,
    s: State,
    d: nat,
    n: nat,
    i: int,
    b: (Move, State, u64),
) -> bool {
    &&& 0 <= i < n
    &&& s.legal()[i] == (b.0, b.1)
    &&& b.2 == score_value(h, b.1, d)
    &&& forall|j: int| 0 <= j < n ==> #[trigger] score_value(h, s.legal()[j].1, d) <= b.2
    &&& forall|j: int| i < j < n ==> #[trigger] score_value(h, s.legal()[j].1, d) < b.2
}

/// The best choice is the legal move whose board has the highest value, and
/// of several such moves the last; there is none only where no move is legal.
pub proof fn lemma_best_choice<H: Heuristic>(h: &H, s: State, d: nat)
    ensures
        best_choice(h, s, d) is None <==> s.legal().len() == 0,
        best_choice(h, s, d) matches Some(b) ==> exists|i: int|
            leads(h, s, d, s.legal().len(), i, b),
{
    lemma_best_upto(h, s, d, s.legal().len());
}

proof fn lemma_best_upto<H: Heuristic>(h: &H, s: State, d: nat, n: nat)
    requires
        n <= s.legal().len(),
    ensures
        best_upto(h, s, d, n) is None <==> n == 0,
        best_upto(h, s, d, n) matches Some(b) ==> exists|i: int| leads(h, s, d, n, i, b),
    decreases n,
{
    if n > 0 {
        let less = (n - 1) as nat;
        lemma_best_upto(h, s, d, less);
        let t = s.legal()[n - 1].1;
        let v = score_value(h, t, d);
        let b = best_upto(h, s, d, n)->0;
        match best_upto(h, s, d, less) {
            Some(before) => {
                if v < before.2 {
                    let i = choose|i: int| leads(h, s, d, less, i, before);
                    assert(b == before);
                    assert(leads(h, s, d, n, i, b));
                } else {
                    let i = choose|i: int| leads(h, s, d, less, i, before);
                    assert(b == (s.legal()[n - 1].0, t, v));
                    assert(leads(h, s, d, n, n - 1, b));
                }
            },
            None => {
                assert(n == 1);
                assert(b == (s.legal()[n - 1].0, t, v));
                assert(leads(h, s, d, n, n - 1, b));
            },
        }
    }
}

/// At depth 0 the value of a board is the heuristic's score of it.
pub proof fn lemma_terminal_case<H: Heuristic>(h: &H, s: State)
    ensures
        score_value(h, s, 0) == h.value(s),
{
}

/// The value of a node of chance is an average: the weights of its outcomes
/// add up to what their weighted sum is divided by, so the value lies between
/// the lowest and the highest value of an outcome.
pub proof fn lemma_chance_average<H: Heuristic>(h: &H, s: State, d: nat, lo: int, hi: int)
    requires
        d > 0,
        has_room(s.cells()),
        forall|n: int|
            0 <= n < outcome_count(s) ==> lo <= #[trigger] outcome_value(
                h,
                s,
                outcome_board(s, n),
                (d - 1) as nat,
            ) <= hi,
    ensures
        weight_upto(outcome_count(s)) == SPAWN_PARTS * empty_positions(s.cells()).len(),
        score_value(h, s, d) == weighted_upto(h, s, d, outcome_count(s)) / weight_upto(
            outcome_count(s),
        ),
        lo <= score_value(h, s, d) <= hi,
{
    let k = empty_positions(s.cells()).len() as int;
    lemma_empty_positions(s.cells());
    let i = choose|i: int| 0 <= i < s.cells().len() && s.cells()[i] == 0;
    assert(empty_positions(s.cells()).contains(i));
    lemma_weight_upto(k as nat);
    let sum = weighted_upto(h, s, d, (2 * k) as nat);
    lemma_weighted_bounds(h, s, d, (2 * k) as nat, 0, u64::MAX as int);
    lemma_weighted_bounds(h, s, d, (2 * k) as nat, lo, hi);
    let first = outcome_value(h, s, outcome_board(s, 0), (d - 1) as nat);
    assert(lo <= first <= hi);
    assert(0 <= sum / (10 * k) <= u64::MAX && lo <= sum / (10 * k) <= hi) by (nonlinear_arith)
        requires
            k > 0,
            0 <= sum <= u64::MAX * (10 * k),
            lo * (10 * k) <= sum <= hi * (10 * k),
    ;
}

/// The weighted sum of the first `n` outcomes lies between the sum of their
/// weights times `lo` and times `hi`, if the value of each does.
proof fn lemma_weighted_bounds<H: Heuristic>(h: &H, s: State, d: nat, n: nat, lo: int, hi: int)
    requires
        d > 0,
        forall|n: int|
            0 <= n < outcome_count(s) ==> lo <= #[trigger] outcome_value(
                h,
                s,
                outcome_board(s, n),
                (d - 1) as nat,
            ) <= hi,
        n <= outcome_count(s),
    ensures
        lo * weight_upto(n) <= weighted_upto(h, s, d, n) <= hi * weight_upto(n),
    decreases n,
{
    if n > 0 {
        lemma_weighted_bounds(h, s, d, (n - 1) as nat, lo, hi);
        let v = outcome_value(h, s, outcome_board(s, n - 1), (d - 1) as nat);
        let w = outcome_weight(n - 1);
        assert(lo <= v <= hi);
        assert(w == 9 || w == 1);
        assert(lo * w <= w * v <= hi * w) by (nonlinear_arith)
            requires
                lo <= v <= hi,
                w > 0,
        ;
        assert(lo * (weight_upto((n - 1) as nat) + w) == lo * weight_upto((n - 1) as nat) + lo * w)
            by (nonlinear_arith);
        assert(hi * (weight_upto((n - 1) as nat) + w) == hi * weight_upto((n - 1) as nat) + hi * w)
            by (nonlinear_arith);
    }
}

/// The search depends on the heuristic by its scores alone: with two
/// heuristics that score every board alike it values every board alike and
/// makes the same choice.
pub proof fn lemma_search_determined<G: Heuristic, H: Heuristic>(g: &G, h: &H, d: nat)
    requires
        forall|s: State| #[trigger] g.value(s) == h.value(s),
    ensures
        forall|s: State| #[trigger] score_value(g, s, d) == score_value(h, s, d),
        forall|s: State| #[trigger] best_choice(g, s, d) == best_choice(h, s, d),
    decreases d,
{
    if d > 0 {
        lemma_search_determined(g, h, (d - 1) as nat);
        assert forall|s: State, next: State| #[trigger]
            outcome_value(g, s, next, (d - 1) as nat) == outcome_value(
                h,
                s,
                next,
                (d - 1) as nat,
            ) by {
            assert(best_choice(g, next, (d - 1) as nat) == best_choice(h, next, (d - 1) as nat));
            assert(g.value(s) == h.value(s));
        }
    }
    assert forall|s: State| #[trigger] score_value(g, s, d) == score_value(h, s, d) by {
        if d > 0 {
            lemma_weighted_determined(g, h, s, d, outcome_count(s));
        } else {
            assert(g.value(s) == h.value(s));
        }
    }
    assert forall|s: State| #[trigger] best_choice(g, s, d) == best_choice(h, s, d) by {
        lemma_best_determined(g, h, s, d, s.legal().len());
    }
}

proof fn lemma_weighted_determined<G: Heuristic, H: Heuristic>(
    g: &G,
    h: &H,
    s: State,
    d: nat,
    n: nat,
)
    requires
        d > 0,
        forall|s: State, next: State| #[trigger]
            outcome_value(g, s, next, (d - 1) as nat) == outcome_value(
                h,
                s,
                next,
                (d - 1) as nat,
            ),
    ensures
        weighted_upto(g, s, d, n) == weighted_upto(h, s, d, n),
    decreases n,
{
    if n > 0 {
        lemma_weighted_determined(g, h, s, d, (n - 1) as nat);
        let next = outcome_board(s, n - 1);
        assert(outcome_value(g, s, next, (d - 1) as nat) == outcome_value(
            h,
            s,
            next,
            (d - 1) as nat,
        ));
    }
}

proof fn lemma_best_determined<G: Heuristic, H: Heuristic>(g: &G, h: &H, s: State, d: nat, n: nat)
    requires
        forall|s: State| #[trigger] score_value(g, s, d) == score_value(h, s, d),
    ensures
        best_upto(g, s, d, n) == best_upto(h, s, d, n),
    decreases n,
{
    if n > 0 {
        lemma_best_determined(g, h, s, d, (n - 1) as nat);
        let t = s.legal()[n - 1].1;
        assert(score_value(g, t, d) == score_value(h, t, d));
    }
}

/// The sum of the weights of the outcomes of `k` empty cells.
pub proof fn lemma_weight_upto(k: nat)
    ensures
        weight_upto(2 * k) == SPAWN_PARTS * k,
    decreases k,
{
    if k > 0 {
        lemma_weight_upto((k - 1) as nat);
        let n = 2 * k;
        assert(weight_upto(n) == weight_upto((n - 1) as nat) + outcome_weight(n - 1));
        assert(weight_upto((n - 1) as nat) == weight_upto((n - 2) as nat) + outcome_weight(n - 2));
        assert((n - 1) % 2 == 1 && (n - 2) % 2 == 0);
    }
}

} // verus!
