//! Boards of the 2048 puzzle and the moves between them.
//!
//! A board has four rows of four cells. Its cells are numbered row by row,
//! from 0 at the top left to 15 at the bottom right.
use vstd::prelude::*;
use vstd::arithmetic::power2::pow2;
use vstd::arithmetic::power2::lemma2_to64;
use vstd::bits::lemma_u32_shl_is_mul;

pub mod row;
pub mod text;
pub mod unpacked;

pub use row::ArrayRow;
pub use row::CachedRow;
pub use row::CachedRowTable;
pub use row::Row;

use crate::random::entropy_rng;
use crate::random::pick;
use crate::random::gen_ratio;
use rand::rngs::StdRng;
use row::as_ints;
use row::empty_positions;
use row::empty_upto;
use row::nibble;
use row::pack;
use row::slide_left;
use row::slide_right;

verus! {

/// Row `r` of the board `board`.
pub open spec fn board_row(board: Seq<int>, r: int) -> Seq<int> {
    Seq::new(4, |c: int| board[4 * r + c])
}

/// The board after each of its rows has shifted to the left.
pub open spec fn shift_rows_left(board: Seq<int>) -> Seq<int> {
    Seq::new(16, |i: int| slide_left(board_row(board, i / 4))[i % 4] % 16)
}

/// The board after each of its rows has shifted to the right.
pub open spec fn shift_rows_right(board: Seq<int>) -> Seq<int> {
    Seq::new(16, |i: int| slide_right(board_row(board, i / 4))[i % 4] % 16)
}

/// The cell that a quarter turn to the right brings to cell `i`.
pub open spec fn right_rotate_idx(i: int) -> int {
    12 - 4 * (i % 4) + i / 4
}

/// The board after a quarter turn to the right.
pub open spec fn rotate_right(board: Seq<int>) -> Seq<int> {
    Seq::new(16, |i: int| board[right_rotate_idx(i)])
}

/// The board after a quarter turn to the left.
pub open spec fn rotate_left(board: Seq<int>) -> Seq<int> {
    Seq::new(16, |i: int| board[4 * (i % 4) + 3 - i / 4])
}

/// The board after the move `m`.
///
/// A move up or down is a shift to the left of the board turned by a quarter,
/// turned back afterwards.
pub open spec fn move_board(board: Seq<int>, m: Move) -> Seq<int> {
    match m {
        Move::Left => shift_rows_left(board),
        Move::Right => shift_rows_right(board),
        Move::Up => rotate_right(shift_rows_left(rotate_left(board))),
        Move::Down => rotate_left(shift_rows_left(rotate_right(board))),
    }
}

/// Whether `after` is `before` with one new tile, of exponent 1 or 2, in a
/// cell that was empty.
pub open spec fn spawned(before: Seq<int>, after: Seq<int>) -> bool {
    exists|i: int, x: int|
        0 <= i < before.len() && before[i] == 0 && (x == 1 || x == 2) && after == before.update(
            i,
            x,
        )
}

/// The board without tiles.
pub open spec fn empty_board() -> Seq<int> {
    Seq::new(16, |i: int| 0int)
}

/// Whether `board` has an empty cell.
pub open spec fn has_room(board: Seq<int>) -> bool {
    exists|i: int| 0 <= i < board.len() && board[i] == 0
}

/// The largest exponent among the first `n` cells of `board`.
pub open spec fn max_upto(board: Seq<int>, n: int) -> int
    decreases n,
{
    if n <= 0 {
        0
    } else if board[n - 1] > max_upto(board, n - 1) {
        board[n - 1]
    } else {
        max_upto(board, n - 1)
    }
}

/// The largest exponent among the first `n` cells is the exponent of one of
/// them, or 0, and none of them has a larger one.
pub proof fn lemma_max_upto(board: Seq<int>, n: int)
    requires
        0 <= n <= board.len(),
    ensures
        forall|i: int| 0 <= i < n ==> #[trigger] board[i] <= max_upto(board, n),
        max_upto(board, n) == 0 || exists|i: int| 0 <= i < n && board[i] == max_upto(board, n),
    decreases n,
{
    if n > 0 {
        lemma_max_upto(board, n - 1);
        if board[n - 1] > max_upto(board, n - 1) {
        } else if max_upto(board, n - 1) != 0 {
            let i = choose|i: int| 0 <= i < n - 1 && board[i] == max_upto(board, n - 1);
            assert(board[i] == max_upto(board, n));
        }
    }
}

/// A direction in which the tiles of a board slide.
#[derive(Debug, Clone, Copy, PartialEq, Eq, Structural)]
pub enum Move {
    Left,
    Right,
    Up,
    Down,
}

impl Move {
    /// The four moves, in the order in which they are tried.
    pub const ALL: [Move; 4] = [Move::Left, Move::Right, Move::Up, Move::Down];
}

/// A board: four packed rows, the top row first.
#[derive(Debug, Clone, Copy, Eq)]
pub struct State(pub [CachedRow; 4]);

impl Default for State {
    /// The board without tiles.
    fn default() -> (s: Self)
        ensures
            s.cells() == empty_board(),
    {
        let s = State([CachedRow { num: 0 }; 4]);
        assert(s.cells() =~= empty_board());
        s
    }
}

impl PartialEq for State {
    fn eq(&self, other: &Self) -> (r: bool) {
        self.0[0].num == other.0[0].num && self.0[1].num == other.0[1].num && self.0[2].num
            == other.0[2].num && self.0[3].num == other.0[3].num
    }
}

impl vstd::std_specs::cmp::PartialEqSpecImpl for State {
    open spec fn obeys_eq_spec() -> bool {
        true
    }

    open spec fn eq_spec(&self, other: &Self) -> bool {
        self.0[0].num == other.0[0].num && self.0[1].num == other.0[1].num && self.0[2].num
            == other.0[2].num && self.0[3].num == other.0[3].num
    }
}

/// Of [`SPAWN_PARTS`] new tiles, the number that are a 4.
pub const FOUR_SPAWN_PARTS: u32 = 1;

/// Of [`SPAWN_PARTS`] new tiles, the number that are a 2.
pub const TWO_SPAWN_PARTS: u32 = 9;

/// The parts that the chances of a new tile are counted in.
pub const SPAWN_PARTS: u32 = 10;

/// The cell that a quarter turn to the right brings to each cell.
pub const RIGHT_ROTATE_IDX: [usize; 16] = [12, 8, 4, 0, 13, 9, 5, 1, 14, 10, 6, 2, 15, 11, 7, 3];

impl State {
    /// The exponents of the sixteen cells, row by row.
    pub open spec fn cells(&self) -> Seq<int> {
        Seq::new(16, |i: int| nibble(self.0[i / 4].num, i % 4))
    }

    /// The board whose cells hold the low four bits of each of `board`.
    pub open spec fn from_cells(board: Seq<int>) -> State {
        State(
            [
                CachedRow { num: pack(board_row(board, 0)) },
                CachedRow { num: pack(board_row(board, 1)) },
                CachedRow { num: pack(board_row(board, 2)) },
                CachedRow { num: pack(board_row(board, 3)) },
            ],
        )
    }

    /// The board after the move `m`.
    pub open spec fn moved(&self, m: Move) -> State {
        State::from_cells(move_board(self.cells(), m))
    }

    /// The moves, among the first `n` of [`Move::ALL`], that change the board,
    /// each with the board it leads to.
    pub open spec fn legal_upto(&self, n: int) -> Seq<(Move, State)>
        decreases n,
    {
        if n <= 0 {
            Seq::empty()
        } else if self.moved(Move::ALL[n - 1]) != *self {
            self.legal_upto(n - 1).push((Move::ALL[n - 1], self.moved(Move::ALL[n - 1])))
        } else {
            self.legal_upto(n - 1)
        }
    }

    /// The moves that change the board, in the order left, right, up, down,
    /// each with the board it leads to.
    pub open spec fn legal(&self) -> Seq<(Move, State)> {
        self.legal_upto(4)
    }

    /// The exponent in cell `i`.
    pub fn get(&self, i: usize) -> (r: u8)
        requires
            i < 16,
        ensures
            r == self.cells()[i as int],
    {
        self.0[i / 4].get(i % 4)
    }

    /// The value of the tile in cell `i`: 2 to the power of the cell's
    /// exponent, so 1 for an empty cell.
    pub fn tile(&self, i: usize) -> (r: u32)
        requires
            i < 16,
        ensures
            r == pow2(self.cells()[i as int] as nat),
    {
        let e = self.get(i) as u32;
        proof {
            lemma2_to64();
            lemma_u32_shl_is_mul(1, e);
        }
        1u32 << e
    }

    /// Write exponent `x` into cell `i`, whatever the cell held.
    pub fn set(&mut self, i: usize, x: u8)
        requires
            i < 16,
            x <= 15,
        ensures
            final(self).cells() == old(self).cells().update(i as int, x as int),
    {
        let mut row = self.0[i / 4];
        let ghost before = row;
        row.set(i % 4, x);
        self.0[i / 4] = row;
        assert forall|k: int| 0 <= k < 16 implies self.cells()[k] == old(self).cells().update(
            i as int,
            x as int,
        )[k] by {
            if k / 4 == i / 4 {
                assert(row.cells()[k % 4] == before.cells().update(i as int % 4, x as int)[k % 4]);
                assert(before.cells()[k % 4] == old(self).cells()[k]);
            }
        }
        assert(self.cells() =~= old(self).cells().update(i as int, x as int));
    }

    /// Put a tile of exponent `x` into the empty cell `i`.
    pub fn add(&mut self, i: usize, x: u8)
        requires
            i < 16,
            x <= 15,
            old(self).cells()[i as int] == 0,
        ensures
            final(self).cells() == old(self).cells().update(i as int, x as int),
    {
        let mut row = self.0[i / 4];
        let ghost before = row;
        row.add(i % 4, x);
        self.0[i / 4] = row;
        assert forall|k: int| 0 <= k < 16 implies self.cells()[k] == old(self).cells().update(
            i as int,
            x as int,
        )[k] by {
            if k / 4 == i / 4 {
                assert(row.cells()[k % 4] == before.cells().update(i as int % 4, x as int)[k % 4]);
                assert(before.cells()[k % 4] == old(self).cells()[k]);
            }
        }
        assert(self.cells() =~= old(self).cells().update(i as int, x as int));
    }
}

impl State {
    /// The board after a quarter turn to the right.
    pub fn rotate_right(&self) -> (r: Self)
        ensures
            r.cells() == rotate_right(self.cells()),
    {
        let mut new = Self::default();
        for i in 0..16usize
            invariant
                forall|k: int| 0 <= k < i ==> new.cells()[k] == self.cells()[right_rotate_idx(k)],
        {
            let idx = RIGHT_ROTATE_IDX[i];
            assert(idx == right_rotate_idx(i as int));
            new.set(i, self.get(idx));
        }
        assert(new.cells() =~= rotate_right(self.cells()));
        new
    }

    /// The board after a quarter turn to the left.
    pub fn rotate_left(&self) -> (r: Self)
        ensures
            r.cells() == rotate_left(self.cells()),
    {
        let mut new = Self::default();
        for i in 0..16usize
            invariant
                forall|k: int|
                    0 <= k < i ==> new.cells()[right_rotate_idx(k)] == self.cells()[k],
        {
            let idx = RIGHT_ROTATE_IDX[i];
            assert(idx == right_rotate_idx(i as int));
            new.set(idx, self.get(i));
        }
        assert forall|j: int| 0 <= j < 16 implies new.cells()[j] == rotate_left(
            self.cells(),
        )[j] by {
            let k = 4 * (j % 4) + 3 - j / 4;
            assert(right_rotate_idx(k) == j);
        }
        assert(new.cells() =~= rotate_left(self.cells()));
        new
    }

    /// The board after a move to the left.
    pub fn move_left(&self) -> (r: Self)
        ensures
            r.cells() == shift_rows_left(self.cells()),
    {
        let r0 = self.0[0];
        let r1 = self.0[1];
        let r2 = self.0[2];
        let r3 = self.0[3];
        let r = State([r0.shift_left(), r1.shift_left(), r2.shift_left(), r3.shift_left()]);
        proof {
            assert forall|i: int| 0 <= i < 16 implies r.cells()[i] == shift_rows_left(
                self.cells(),
            )[i] by {
                assert(self.0[i / 4].cells() =~= board_row(self.cells(), i / 4));
                assert(r.0[i / 4].cells()[i % 4] == CachedRow::kept_row(
                    slide_left(self.0[i / 4].cells()),
                )[i % 4]);
            }
            assert(r.cells() =~= shift_rows_left(self.cells()));
        }
        r
    }

    /// The board after a move to the right.
    pub fn move_right(&self) -> (r: Self)
        ensures
            r.cells() == shift_rows_right(self.cells()),
    {
        let r0 = self.0[0];
        let r1 = self.0[1];
        let r2 = self.0[2];
        let r3 = self.0[3];
        let r = State([r0.shift_right(), r1.shift_right(), r2.shift_right(), r3.shift_right()]);
        proof {
            assert forall|i: int| 0 <= i < 16 implies r.cells()[i] == shift_rows_right(
                self.cells(),
            )[i] by {
                assert(self.0[i / 4].cells() =~= board_row(self.cells(), i / 4));
                assert(r.0[i / 4].cells()[i % 4] == CachedRow::kept_row(
                    slide_right(self.0[i / 4].cells()),
                )[i % 4]);
            }
            assert(r.cells() =~= shift_rows_right(self.cells()));
        }
        r
    }

    /// The board after the move `m`.
    pub fn make_move(&self, m: Move) -> (r: Self)
        ensures
            r == self.moved(m),
            r.cells() == move_board(self.cells(), m),
    {
        let r = match m {
            Move::Left => self.move_left(),
            Move::Right => self.move_right(),
            Move::Up => self.rotate_left().move_left().rotate_right(),
            Move::Down => self.rotate_right().move_left().rotate_left(),
        };
        proof {
            lemma_from_own_cells(r);
        }
        r
    }

    /// The legal moves with the boards they lead to: a move is legal when it
    /// changes the board.
    pub fn legal_moves(&self) -> (r: Vec<(Move, Self)>)
        ensures
            r@ == self.legal(),
    {
        let mut moves: Vec<(Move, Self)> = Vec::new();
        for i in 0..4usize
            invariant
                moves@ == self.legal_upto(i as int),
        {
            let m = Move::ALL[i];
            let s = self.make_move(m);
            let same = s == *self;
            proof {
                if same {
                    lemma_same_rows(s, *self);
                }
            }
            if !same {
                moves.push((m, s));
            }
        }
        moves
    }
}

impl State {
    /// The positions of the empty cells, ascending: those of the top row
    /// first.
    pub fn empty(&self) -> (r: Vec<u8>)
        ensures
            as_ints(r@) == empty_positions(self.cells()),
    {
        let mut indices: Vec<u8> = Vec::new();
        for i in 0..4usize
            invariant
                as_ints(indices@) == empty_upto(self.cells(), 4 * i),
        {
            let in_row = self.0[i].empty();
            let ghost before = indices@;
            proof {
                assert(self.0[i as int].cells() =~= board_row(self.cells(), i as int));
                lemma_empty_of_row(self.cells(), i as int, 4);
                row::lemma_empty_upto_bounds(board_row(self.cells(), i as int), 4);
                assert forall|n: int| 0 <= n < in_row.len() implies 0 <= #[trigger] in_row[n]
                    < 4 by {
                    assert(in_row[n] == as_ints(in_row@)[n]);
                }
            }
            for k in 0..in_row.len()
                invariant
                    i < 4,
                    in_row.len() <= 4,
                    forall|n: int| 0 <= n < in_row.len() ==> 0 <= #[trigger] in_row[n] < 4,
                    as_ints(indices@) == as_ints(before) + Seq::new(
                        k as nat,
                        |n: int| 4 * i + in_row[n],
                    ),
            {
                let j = in_row[k];
                let ghost sofar = indices@;
                indices.push(i as u8 * 4 + j);
                assert(as_ints(indices@) =~= as_ints(sofar).push(4 * i + j));
                assert(as_ints(indices@) =~= as_ints(before) + Seq::new(
                    (k + 1) as nat,
                    |n: int| 4 * i + in_row[n],
                ));
            }
            assert(as_ints(indices@) =~= empty_upto(self.cells(), 4 * (i + 1))) by {
                assert(Seq::new(in_row.len() as nat, |n: int| 4 * i + in_row[n]) =~= Seq::new(
                    as_ints(in_row@).len(),
                    |n: int| 4 * i + as_ints(in_row@)[n],
                ));
            }
        }
        indices
    }

    /// Put the tile that chance has drawn into the empty cell `i`: a 4 if
    /// `four`, else a 2.
    pub fn place_spawn(&mut self, i: u8, four: bool)
        requires
            i < 16,
            old(self).cells()[i as int] == 0,
        ensures
            final(self).cells() == old(self).cells().update(i as int, if four { 2int } else { 1 }),
            spawned(old(self).cells(), final(self).cells()),
    {
        // tiles are held by their exponent
        let x: u8 = if four { 2 } else { 1 };
        self.add(i as usize, x);
    }

    /// Add a random tile to the board: in an empty cell picked evenly, a 4
    /// once in ten times and a 2 otherwise.
    pub fn rand_add(&mut self, rng: &mut StdRng) -> (r: &mut Self)
        requires
            has_room(old(self).cells()),
        ensures
            spawned(old(self).cells(), r.cells()),
            *final(self) == *final(r),
    {
        let empties = self.empty();
        proof {
            row::lemma_empty_positions(self.cells());
        }
        match pick(&empties, rng) {
            Some(i) => {
                proof {
                    let k = choose|k: int| 0 <= k < empties@.len() && empties@[k] == i;
                    assert(as_ints(empties@)[k] == i);
                }
                let four = gen_ratio(rng, FOUR_SPAWN_PARTS, SPAWN_PARTS);
                self.place_spawn(i, four);
            },
            None => {
                assert(false);
            },
        }
        self
    }

    /// The value of the highest tile: 2 to the power of the largest exponent.
    pub fn highest_tile(&self) -> (r: u32)
        ensures
            r == pow2(max_upto(self.cells(), 16) as nat),
    {
        let mut exp: u8 = 0;
        for i in 0..16usize
            invariant
                exp == max_upto(self.cells(), i as int),
                exp <= 15,
        {
            let e = self.get(i);
            if e > exp {
                exp = e;
            }
        }
        proof {
            lemma2_to64();
            lemma_u32_shl_is_mul(1, exp as u32);
        }
        1u32 << (exp as u32)
    }
}

/// The empty cells among the first `n` cells of row `r` of a board, after
/// those of the rows above it.
pub proof fn lemma_empty_of_row(board: Seq<int>, r: int, n: int)
    requires
        0 <= r,
        0 <= n <= 4,
    ensures
        empty_upto(board, 4 * r + n) == empty_upto(board, 4 * r) + Seq::new(
            empty_upto(board_row(board, r), n).len(),
            |k: int| 4 * r + empty_upto(board_row(board, r), n)[k],
        ),
    decreases n,
{
    let row = board_row(board, r);
    let shifted = Seq::new(empty_upto(row, n).len(), |k: int| 4 * r + empty_upto(row, n)[k]);
    if n == 0 {
        assert(empty_upto(board, 4 * r) =~= empty_upto(board, 4 * r) + shifted);
    } else {
        lemma_empty_of_row(board, r, n - 1);
        let less = Seq::new(
            empty_upto(row, n - 1).len(),
            |k: int| 4 * r + empty_upto(row, n - 1)[k],
        );
        assert(row[n - 1] == board[4 * r + n - 1]);
        if row[n - 1] == 0 {
            assert(shifted =~= less.push(4 * r + n - 1));
            assert(empty_upto(board, 4 * r + n) =~= empty_upto(board, 4 * r) + shifted);
        } else {
            assert(shifted =~= less);
        }
    }
}

/// Whether `board` has sixteen cells, each an exponent from 0 to 15.
pub open spec fn is_board(board: Seq<int>) -> bool {
    &&& board.len() == 16
    &&& forall|i: int| 0 <= i < 16 ==> 0 <= #[trigger] board[i] <= 15
}

/// Three quarter turns to the left are one quarter turn to the right.
pub proof fn lemma_three_left_turns(board: Seq<int>)
    requires
        board.len() == 16,
    ensures
        rotate_left(rotate_left(rotate_left(board))) == rotate_right(board),
{
    assert(rotate_left(rotate_left(rotate_left(board))) =~= rotate_right(board));
}

/// The cells that the two quarter turns bring to cell `i` and take from it.
pub proof fn lemma_turn_indices(i: int)
    requires
        0 <= i < 16,
    ensures
        0 <= right_rotate_idx(i) < 16,
        0 <= 4 * (i % 4) + 3 - i / 4 < 16,
        right_rotate_idx(4 * (i % 4) + 3 - i / 4) == i,
        4 * (right_rotate_idx(i) % 4) + 3 - right_rotate_idx(i) / 4 == i,
{
    let r = i / 4;
    let c = i % 4;
    assert(i == 4 * r + c && 0 <= r < 4 && 0 <= c < 4);
    let j = 12 - 4 * c + r;
    assert(j == 4 * (3 - c) + r);
    assert(j / 4 == 3 - c && j % 4 == r);
    let k = 4 * c + 3 - r;
    assert(k == 4 * c + (3 - r));
    assert(k / 4 == c && k % 4 == 3 - r);
}

/// A quarter turn to the left undoes a quarter turn to the right, and the
/// other way round.
pub proof fn lemma_turn_back(board: Seq<int>)
    requires
        board.len() == 16,
    ensures
        rotate_left(rotate_right(board)) == board,
        rotate_right(rotate_left(board)) == board,
{
    assert forall|i: int| 0 <= i < 16 implies rotate_left(rotate_right(board))[i] == board[i]
        && rotate_right(rotate_left(board))[i] == board[i] by {
        lemma_turn_indices(i);
    }
    assert(rotate_left(rotate_right(board)) =~= board);
    assert(rotate_right(rotate_left(board)) =~= board);
}

/// A turned board is a board.
pub proof fn lemma_turned_is_board(board: Seq<int>)
    requires
        is_board(board),
    ensures
        is_board(rotate_left(board)),
        is_board(rotate_right(board)),
{
    assert forall|i: int| 0 <= i < 16 implies 0 <= #[trigger] rotate_left(board)[i] <= 15 && 0
        <= #[trigger] rotate_right(board)[i] <= 15 by {
        lemma_turn_indices(i);
    }
}

/// The cells of a board are exponents from 0 to 15, and so are those of a
/// board after a move.
pub proof fn lemma_cells_are_board(s: State, m: Move)
    ensures
        is_board(s.cells()),
        is_board(move_board(s.cells(), m)),
        s.moved(m).cells() == move_board(s.cells(), m),
{
    let board = s.cells();
    let after = move_board(board, m);
    assert(is_board(board));
    match m {
        Move::Left => {},
        Move::Right => {},
        Move::Up => {
            assert(is_board(shift_rows_left(rotate_left(board))));
            lemma_turned_is_board(shift_rows_left(rotate_left(board)));
        },
        Move::Down => {
            assert(is_board(shift_rows_left(rotate_right(board))));
            lemma_turned_is_board(shift_rows_left(rotate_right(board)));
        },
    }
    lemma_cells_of_board(after);
}

/// The board made from sixteen exponents from 0 to 15 has them as its cells.
pub proof fn lemma_cells_of_board(board: Seq<int>)
    requires
        is_board(board),
    ensures
        State::from_cells(board).cells() == board,
{
    let s = State::from_cells(board);
    lemma_cells_of_board_row(board, 0);
    lemma_cells_of_board_row(board, 1);
    lemma_cells_of_board_row(board, 2);
    lemma_cells_of_board_row(board, 3);
    assert forall|i: int| 0 <= i < 16 implies s.cells()[i] == board[i] by {
        let r = i / 4;
        let c = i % 4;
        assert(i == 4 * r + c);
        assert(s.cells()[i] == nibble(s.0[r].num, c));
    }
    assert(s.cells() =~= board);
}

proof fn lemma_cells_of_board_row(board: Seq<int>, r: int)
    requires
        is_board(board),
        0 <= r < 4,
    ensures
        nibble(State::from_cells(board).0[r].num, 0) == board[4 * r],
        nibble(State::from_cells(board).0[r].num, 1) == board[4 * r + 1],
        nibble(State::from_cells(board).0[r].num, 2) == board[4 * r + 2],
        nibble(State::from_cells(board).0[r].num, 3) == board[4 * r + 3],
{
    let cells = board_row(board, r);
    assert(State::from_cells(board).0[r].num == pack(cells));
    row::lemma_pack_cells(cells);
    assert(cells[0] == board[4 * r] && cells[0] % 16 == cells[0]);
    assert(cells[1] == board[4 * r + 1] && cells[1] % 16 == cells[1]);
    assert(cells[2] == board[4 * r + 2] && cells[2] % 16 == cells[2]);
    assert(cells[3] == board[4 * r + 3] && cells[3] % 16 == cells[3]);
}

/// A move that changes the board leaves at least one cell empty, so that a
/// new tile can follow it.
pub proof fn lemma_move_leaves_room(s: State, m: Move)
    requires
        s.moved(m) != s,
    ensures
        has_room(s.moved(m).cells()),
{
    let board = s.cells();
    lemma_cells_are_board(s, m);
    lemma_from_own_cells(s);
    lemma_turn_back(board);
    lemma_turned_is_board(board);
    match m {
        Move::Left => {
            lemma_changed_rows_left(board);
        },
        Move::Right => {
            lemma_changed_rows_right(board);
        },
        Move::Up => {
            let turned = rotate_left(board);
            lemma_changed_rows_left(turned);
            let i = choose|i: int| 0 <= i < 16 && shift_rows_left(turned)[i] == 0;
            lemma_turn_indices(i);
            let j = 4 * (i % 4) + 3 - i / 4;
            assert(move_board(board, m)[j] == shift_rows_left(turned)[right_rotate_idx(j)]);
        },
        Move::Down => {
            let turned = rotate_right(board);
            lemma_changed_rows_left(turned);
            let i = choose|i: int| 0 <= i < 16 && shift_rows_left(turned)[i] == 0;
            lemma_turn_indices(i);
            let j = right_rotate_idx(i);
            assert(move_board(board, m)[j] == shift_rows_left(turned)[4 * (j % 4) + 3 - j / 4]);
        },
    }
}

/// If the shift of all rows to the left changes a board, the shifted board
/// has an empty cell.
proof fn lemma_changed_rows_left(board: Seq<int>)
    requires
        is_board(board),
    ensures
        shift_rows_left(board) == board || exists|i: int|
            0 <= i < 16 && shift_rows_left(board)[i] == 0,
{
    let after = shift_rows_left(board);
    if after != board {
        assert(!(after =~= board));
        let i = choose|i: int| 0 <= i < 16 && after[i] != board[i];
        let r = i / 4;
        let cells = board_row(board, r);
        assert(cells[i % 4] == board[i]);
        if slide_left(cells) == cells {
            assert(false);
        }
        row::lemma_changed_left_has_room(cells);
        assert(after[4 * r + 3] == 0);
    }
}

/// If the shift of all rows to the right changes a board, the shifted board
/// has an empty cell.
proof fn lemma_changed_rows_right(board: Seq<int>)
    requires
        is_board(board),
    ensures
        shift_rows_right(board) == board || exists|i: int|
            0 <= i < 16 && shift_rows_right(board)[i] == 0,
{
    let after = shift_rows_right(board);
    if after != board {
        assert(!(after =~= board));
        let i = choose|i: int| 0 <= i < 16 && after[i] != board[i];
        let r = i / 4;
        let cells = board_row(board, r);
        assert(cells[i % 4] == board[i]);
        if slide_right(cells) == cells {
            assert(false);
        }
        row::lemma_changed_right_has_room(cells);
        assert(after[4 * r] == 0);
    }
}

/// The legal moves are the moves that change the board, each once and with
/// the board it leads to: a move that leaves the board as it is is not among
/// them.
pub proof fn lemma_legal_moves(s: State)
    ensures
        forall|k: int|
            0 <= k < s.legal().len() ==> {
                &&& (#[trigger] s.legal()[k]).1 == s.moved(s.legal()[k].0)
                &&& s.legal()[k].1 != s
                &&& has_room(s.legal()[k].1.cells())
            },
        forall|m: Move| s.moved(m) != s <==> #[trigger] s.legal().contains((m, s.moved(m))),
{
    let l1 = s.legal_upto(1);
    let l2 = s.legal_upto(2);
    let l3 = s.legal_upto(3);
    let l4 = s.legal_upto(4);
    assert(s.legal_upto(0).len() == 0);
    assert forall|k: int| 0 <= k < l4.len() implies {
        &&& (#[trigger] l4[k]).1 == s.moved(l4[k].0)
        &&& l4[k].1 != s
        &&& has_room(l4[k].1.cells())
    } by {
        let m = l4[k].0;
        assert(l4[k].1 == s.moved(m) && s.moved(m) != s);
        lemma_move_leaves_room(s, m);
    }
    assert forall|m: Move| s.moved(m) != s <==> #[trigger] l4.contains((m, s.moved(m))) by {
        if s.moved(m) != s {
            match m {
                Move::Left => {
                    assert(l1[l1.len() - 1] == (m, s.moved(m)));
                    assert(l4[l1.len() - 1] == (m, s.moved(m)));
                },
                Move::Right => {
                    assert(l2[l2.len() - 1] == (m, s.moved(m)));
                    assert(l4[l2.len() - 1] == (m, s.moved(m)));
                },
                Move::Up => {
                    assert(l3[l3.len() - 1] == (m, s.moved(m)));
                    assert(l4[l3.len() - 1] == (m, s.moved(m)));
                },
                Move::Down => {
                    assert(l4[l4.len() - 1] == (m, s.moved(m)));
                },
            }
        }
        if l4.contains((m, s.moved(m))) {
            let k = choose|k: int| 0 <= k < l4.len() && l4[k] == (m, s.moved(m));
            assert(l4[k].1 != s);
        }
    }
}

/// A board is the board of its own cells.
pub proof fn lemma_from_own_cells(s: State)
    ensures
        State::from_cells(s.cells()) == s,
{
    let t = State::from_cells(s.cells());
    lemma_row_of_own_cells(s, 0);
    lemma_row_of_own_cells(s, 1);
    lemma_row_of_own_cells(s, 2);
    lemma_row_of_own_cells(s, 3);
    assert(t.0 =~= s.0);
}

proof fn lemma_row_of_own_cells(s: State, r: int)
    requires
        0 <= r < 4,
    ensures
        pack(board_row(s.cells(), r)) == s.0[r].num,
{
    let num = s.0[r].num;
    let cells = s.cells();
    assert(cells[4 * r + 0] == nibble(num, 0));
    assert(cells[4 * r + 1] == nibble(num, 1));
    assert(cells[4 * r + 2] == nibble(num, 2));
    assert(cells[4 * r + 3] == nibble(num, 3));
    assert(board_row(cells, r) =~= seq![
        nibble(num, 0),
        nibble(num, 1),
        nibble(num, 2),
        nibble(num, 3),
    ]);
    row::lemma_pack_nibbles(num);
}

/// Boards whose rows hold the same bits are the same board.
pub proof fn lemma_same_rows(a: State, b: State)
    requires
        a.0[0].num == b.0[0].num,
        a.0[1].num == b.0[1].num,
        a.0[2].num == b.0[2].num,
        a.0[3].num == b.0[3].num,
    ensures
        a == b,
{
    assert(a.0 =~= b.0);
}


/// A game in progress: the board, the number of moves made, and the
/// generator that the new tiles are drawn from.
pub struct Game {
    rng: StdRng,
    s: State,
    moves: u32,
}

impl Game {
    /// The board as it stands.
    pub closed spec fn board(&self) -> State {
        self.s
    }

    /// The number of moves made so far.
    pub closed spec fn move_count(&self) -> u32 {
        self.moves
    }

    /// A new game whose tiles are drawn from a generator seeded by the
    /// operating system.
    pub fn new() -> (g: Self)
        ensures
            g.move_count() == 0,
            exists|first: Seq<int>|
                spawned(empty_board(), first) && spawned(first, g.board().cells()),
    {
        Self::from_rng(entropy_rng())
    }

    /// A new game whose tiles are drawn from `rng`. It starts with two tiles.
    pub fn from_rng(rng: StdRng) -> (g: Self)
        ensures
            g.move_count() == 0,
            exists|first: Seq<int>|
                spawned(empty_board(), first) && spawned(first, g.board().cells()),
    {
        let mut rng = rng;
        let mut s = State::default();
        assert(s.cells()[0] == 0);
        s.rand_add(&mut rng);
        let ghost first = s.cells();
        proof {
            lemma_room_after_first(empty_board(), first);
        }
        s.rand_add(&mut rng);
        Game { rng, s, moves: 0 }
    }

    /// The board as it stands.
    pub fn state(&self) -> (s: &State)
        ensures
            *s == self.board(),
    {
        &self.s
    }

    /// Go on to the board `s`, which the player's move has led to: a random
    /// tile is added to it, and the move is counted.
    pub fn next_state(&mut self, s: State)
        requires
            has_room(s.cells()),
            old(self).move_count() < u32::MAX,
        ensures
            spawned(s.cells(), final(self).board().cells()),
            final(self).move_count() == old(self).move_count() + 1,
    {
        self.s = s;
        self.s.rand_add(&mut self.rng);
        self.moves += 1;
    }

    /// The number of moves made so far.
    pub fn moves(&self) -> (n: u32)
        ensures
            n == self.move_count(),
    {
        self.moves
    }
}

/// A board without tiles still has room after its first tile.
proof fn lemma_room_after_first(none: Seq<int>, first: Seq<int>)
    requires
        none == empty_board(),
        spawned(none, first),
    ensures
        has_room(first),
{
    let (i, x) = choose|i: int, x: int|
        0 <= i < none.len() && none[i] == 0 && (x == 1 || x == 2) && first == none.update(i, x);
    if i == 0 {
        assert(first[1] == 0);
    } else {
        assert(first[0] == 0);
    }
}

} // verus!
