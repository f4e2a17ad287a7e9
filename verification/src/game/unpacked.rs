//! Boards with one byte to a cell, shifted by the classic rule of the game:
//! a tile merges at most once in a move.
//!
//! The rows of [`super::row`] differ: there a merged tile merges again with
//! an equal tile that arrives next.
use super::lemma_empty_of_row;
use super::row::as_ints;
use super::row::empty_positions;
use super::row::empty_upto;
use super::row::lemma_empty_upto_bounds;
use super::row::pad;
use vstd::prelude::*;

verus! {

/// The tiles among the first `n` cells of `cells`, in their order.
pub open spec fn tiles_upto(cells: Seq<int>, n: int) -> Seq<int>
    decreases n,
{
    if n <= 0 {
        Seq::empty()
    } else if cells[n - 1] != 0 {
        tiles_upto(cells, n - 1).push(cells[n - 1])
    } else {
        tiles_upto(cells, n - 1)
    }
}

/// The tiles after each pair of equal neighbours, taken from the left, has
/// merged into one tile of the next exponent.
pub open spec fn merge_pairs(tiles: Seq<int>) -> Seq<int>
    decreases tiles.len(),
{
    if tiles.len() < 2 {
        tiles
    } else if tiles[0] == tiles[1] {
        seq![tiles[0] + 1] + merge_pairs(tiles.subrange(2, tiles.len() as int))
    } else {
        seq![tiles[0]] + merge_pairs(tiles.subrange(1, tiles.len() as int))
    }
}

/// The row after a shift to the left by the classic rule.
pub open spec fn classic_left(cells: Seq<int>) -> Seq<int> {
    pad(merge_pairs(tiles_upto(cells, cells.len() as int)), cells.len())
}

/// The row after a shift to the right by the classic rule.
pub open spec fn classic_right(cells: Seq<int>) -> Seq<int> {
    classic_left(cells.reverse()).reverse()
}

/// Merging pairs never makes a row of tiles longer.
pub proof fn lemma_merge_pairs_len(tiles: Seq<int>)
    ensures
        merge_pairs(tiles).len() <= tiles.len(),
    decreases tiles.len(),
{
    if tiles.len() >= 2 {
        lemma_merge_pairs_len(tiles.subrange(2, tiles.len() as int));
        lemma_merge_pairs_len(tiles.subrange(1, tiles.len() as int));
    }
}

/// A row as four bytes, one exponent per cell.
#[derive(Debug, Clone, Copy, Eq, Default)]
pub struct Row(pub [u8; 4]);

impl PartialEq for Row {
    fn eq(&self, other: &Self) -> (r: bool) {
        self.0[0] == other.0[0] && self.0[1] == other.0[1] && self.0[2] == other.0[2]
            && self.0[3] == other.0[3]
    }
}

impl vstd::std_specs::cmp::PartialEqSpecImpl for Row {
    open spec fn obeys_eq_spec() -> bool {
        true
    }

    open spec fn eq_spec(&self, other: &Self) -> bool {
        self.same(other)
    }
}

impl Row {
    /// Whether the two rows hold the same exponents.
    pub open spec fn same(&self, other: &Self) -> bool {
        self.0[0] == other.0[0] && self.0[1] == other.0[1] && self.0[2] == other.0[2]
            && self.0[3] == other.0[3]
    }

    /// The row's exponents, leftmost first.
    pub open spec fn cells(&self) -> Seq<int> {
        Seq::new(4, |i: int| self.0[i] as int)
    }

    /// Shift the row's tiles to the left and merge them.
    pub fn shift_left(&self) -> (r: Self)
        requires
            forall|k: int| 0 <= k < 4 ==> classic_left(self.cells())[k] <= 255,
        ensures
            r.cells() == classic_left(self.cells()),
    {
        let ghost cells = self.cells();
        let mut els: Vec<u8> = Vec::new();
        for k in 0..4usize
            invariant
                cells == self.cells(),
                els.len() <= k,
                as_ints(els@) == tiles_upto(cells, k as int),
        {
            if self.0[k] > 0 {
                els.push(self.0[k]);
                assert(as_ints(els@) =~= tiles_upto(cells, k as int).push(cells[k as int]));
            }
        }
        let ghost tiles = as_ints(els@);
        proof {
            lemma_merge_pairs_len(tiles);
            assert(tiles.subrange(0, tiles.len() as int) =~= tiles);
            assert(tiles.subrange(0, 0) + merge_pairs(tiles) =~= merge_pairs(tiles));
        }
        let mut i: usize = 0;
        while i + 1 < els.len()
            invariant
                cells == self.cells(),
                tiles == tiles_upto(cells, 4),
                forall|k: int| 0 <= k < 4 ==> classic_left(cells)[k] <= 255,
                merge_pairs(tiles).len() <= 4,
                i <= els.len() <= 4,
                as_ints(els@).subrange(0, i as int) + merge_pairs(
                    as_ints(els@).subrange(i as int, els.len() as int),
                ) == merge_pairs(tiles),
            decreases els.len() - i,
        {
            let ghost before = as_ints(els@);
            let ghost rest = before.subrange(i as int, before.len() as int);
            proof {
                assert(rest[0] == before[i as int] && rest[1] == before[i + 1]);
                lemma_merge_pairs_len(rest.subrange(2, rest.len() as int));
                lemma_merge_pairs_len(rest.subrange(1, rest.len() as int));
            }
            if els[i] == els[i + 1] {
                proof {
                    let merged = before.subrange(0, i as int) + merge_pairs(rest);
                    assert(merged[i as int] == before[i as int] + 1);
                    assert(classic_left(cells)[i as int] == merged[i as int]);
                }
                els[i] = els[i] + 1;
                els.remove(i + 1);
                proof {
                    let after = as_ints(els@);
                    assert(after.subrange(i + 1, after.len() as int) =~= rest.subrange(
                        2,
                        rest.len() as int,
                    ));
                    assert(after.subrange(0, i + 1) + merge_pairs(
                        after.subrange(i + 1, after.len() as int),
                    ) =~= before.subrange(0, i as int) + merge_pairs(rest));
                }
            } else {
                proof {
                    assert(before.subrange(i + 1, before.len() as int) =~= rest.subrange(
                        1,
                        rest.len() as int,
                    ));
                    assert(before.subrange(0, i + 1) + merge_pairs(
                        before.subrange(i + 1, before.len() as int),
                    ) =~= before.subrange(0, i as int) + merge_pairs(rest));
                }
            }
            i += 1;
        }
        proof {
            let last = as_ints(els@);
            assert(last.subrange(0, i as int) + merge_pairs(
                last.subrange(i as int, last.len() as int),
            ) =~= last);
        }
        let mut new_row = [0u8;4];
        for k in 0..els.len()
            invariant
                els.len() <= 4,
                forall|a: int| 0 <= a < k ==> new_row[a] == els[a],
                forall|a: int| k <= a < 4 ==> new_row[a] == 0,
        {
            new_row[k] = els[k];
        }
        let r = Row(new_row);
        assert(r.cells() =~= classic_left(cells));
        r
    }

    /// The row read from right to left.
    pub fn reverse(&self) -> (r: Self)
        ensures
            r.cells() == self.cells().reverse(),
    {
        let row = self.0;
        let r = Row([row[3], row[2], row[1], row[0]]);
        assert(r.cells() =~= self.cells().reverse());
        r
    }

    /// Shift the row's tiles to the right and merge them.
    pub fn shift_right(&self) -> (r: Self)
        requires
            forall|k: int| 0 <= k < 4 ==> classic_right(self.cells())[k] <= 255,
        ensures
            r.cells() == classic_right(self.cells()),
    {
        proof {
            let mirrored = classic_left(self.cells().reverse());
            assert forall|k: int| 0 <= k < 4 implies mirrored[k] <= 255 by {
                assert(mirrored[k] == classic_right(self.cells())[3 - k]);
            }
        }
        self.reverse().shift_left().reverse()
    }

    /// The positions (in 0..4) of the row's empty cells, ascending.
    pub fn empty(&self) -> (r: Vec<u8>)
        ensures
            as_ints(r@) == empty_positions(self.cells()),
    {
        let mut indices: Vec<u8> = Vec::new();
        for i in 0..4usize
            invariant
                as_ints(indices@) == empty_upto(self.cells(), i as int),
        {
            if self.0[i] == 0 {
                indices.push(i as u8);
                assert(as_ints(indices@) =~= empty_upto(self.cells(), i as int).push(i as int));
            }
        }
        indices
    }
}

/// A board: four rows of bytes, the top row first.
#[derive(Debug, Clone, Copy, Eq, Default)]
pub struct State(pub [Row; 4]);

impl PartialEq for State {
    fn eq(&self, other: &Self) -> (r: bool) {
        self.0[0] == other.0[0] && self.0[1] == other.0[1] && self.0[2] == other.0[2]
            && self.0[3] == other.0[3]
    }
}

impl vstd::std_specs::cmp::PartialEqSpecImpl for State {
    open spec fn obeys_eq_spec() -> bool {
        true
    }

    open spec fn eq_spec(&self, other: &Self) -> bool {
        self.0[0].same(&other.0[0]) && self.0[1].same(&other.0[1]) && self.0[2].same(&other.0[2])
            && self.0[3].same(&other.0[3])
    }
}

impl State {
    /// The exponent in row `i` and column `j`.
    pub open spec fn cell(&self, i: int, j: int) -> u8 {
        self.0[i].0[j]
    }

    /// The exponents of the sixteen cells, row by row.
    pub open spec fn cells(&self) -> Seq<int> {
        Seq::new(16, |k: int| self.cell(k / 4, k % 4) as int)
    }

    /// The exponent in row `i` and column `j`.
    pub fn get(&self, i: usize, j: usize) -> (r: u8)
        requires
            i < 4,
            j < 4,
        ensures
            r == self.cell(i as int, j as int),
    {
        self.0[i].0[j]
    }

    fn put(&mut self, i: usize, j: usize, x: u8)
        requires
            i < 4,
            j < 4,
        ensures
            forall|a: int, b: int|
                0 <= a < 4 && 0 <= b < 4 ==> #[trigger] final(self).cell(a, b) == if a == i && b
                    == j {
                    x
                } else {
                    old(self).cell(a, b)
                },
    {
        let mut row = self.0[i];
        row.0[j] = x;
        self.0[i] = row;
    }

    /// Mirror the board at its main diagonal: rows become columns.
    pub fn transpose_in_place(&mut self) -> (r: &mut Self)
        ensures
            forall|a: int, b: int|
                0 <= a < 4 && 0 <= b < 4 ==> #[trigger] r.cell(a, b) == old(self).cell(b, a),
            *final(self) == *final(r),
    {
        for i in 0..3usize
            invariant
                forall|a: int, b: int|
                    0 <= a < 4 && 0 <= b < 4 ==> #[trigger] self.cell(a, b) == if a < i || b < i {
                        old(self).cell(b, a)
                    } else {
                        old(self).cell(a, b)
                    },
        {
            for j in (i + 1)..4usize
                invariant
                    i < 3,
                    forall|a: int, b: int|
                        0 <= a < 4 && 0 <= b < 4 ==> #[trigger] self.cell(a, b) == if a < i || b < i
                            || (a == i && b < j) || (b == i && a < j) {
                            old(self).cell(b, a)
                        } else {
                            old(self).cell(a, b)
                        },
            {
                let tmp = self.get(i, j);
                let other = self.get(j, i);
                self.put(i, j, other);
                self.put(j, i, tmp);
            }
        }
        self
    }

    /// The board mirrored at its main diagonal.
    pub fn transposed(&self) -> (r: Self)
        ensures
            forall|a: int, b: int|
                0 <= a < 4 && 0 <= b < 4 ==> #[trigger] r.cell(a, b) == self.cell(b, a),
    {
        let mut new = *self;
        new.transpose_in_place();
        new
    }

    /// The empty cells by row and column: those of the top row first, and
    /// those of a row from left to right.
    pub fn empty(&self) -> (r: Vec<(u8, u8)>)
        ensures
            r.len() == empty_positions(self.cells()).len(),
            forall|k: int|
                0 <= k < r.len() ==> (#[trigger] r[k]).0 == empty_positions(self.cells())[k] / 4
                    && r[k].1 == empty_positions(self.cells())[k] % 4,
    {
        let mut indices: Vec<(u8, u8)> = Vec::new();
        for i in 0..4usize
            invariant
                indices.len() == empty_upto(self.cells(), 4 * i).len(),
                forall|k: int|
                    0 <= k < indices.len() ==> (#[trigger] indices[k]).0 == empty_upto(
                        self.cells(),
                        4 * i,
                    )[k] / 4 && indices[k].1 == empty_upto(self.cells(), 4 * i)[k] % 4,
        {
            let in_row = self.0[i].empty();
            let ghost before = indices@;
            let ghost upto = empty_upto(self.cells(), 4 * i);
            let ghost next = empty_upto(self.cells(), 4 * (i + 1));
            proof {
                assert(self.0[i as int].cells() =~= super::board_row(self.cells(), i as int));
                lemma_empty_of_row(self.cells(), i as int, 4);
                lemma_empty_upto_bounds(super::board_row(self.cells(), i as int), 4);
                assert forall|n: int| 0 <= n < in_row.len() implies 0 <= #[trigger] in_row[n]
                    < 4 && next[upto.len() + n] == 4 * i + in_row[n] by {
                    assert(in_row[n] == as_ints(in_row@)[n]);
                }
            }
            for k in 0..in_row.len()
                invariant
                    i < 4,
                    in_row.len() <= 4,
                    before.len() == upto.len(),
                    next.len() == upto.len() + in_row.len(),
                    forall|n: int|
                        0 <= n < in_row.len() ==> 0 <= #[trigger] in_row[n] < 4 && next[upto.len()
                            + n] == 4 * i + in_row[n],
                    forall|n: int| 0 <= n < upto.len() ==> next[n] == upto[n],
                    forall|n: int|
                        0 <= n < before.len() ==> (#[trigger] before[n]).0 == upto[n] / 4
                            && before[n].1 == upto[n] % 4,
                    indices.len() == before.len() + k,
                    forall|n: int| 0 <= n < before.len() ==> indices[n] == before[n],
                    forall|n: int|
                        before.len() <= n < indices.len() ==> (#[trigger] indices[n]).0 == next[n]
                            / 4 && indices[n].1 == next[n] % 4,
            {
                let j = in_row[k];
                assert(next[upto.len() + k] == 4 * i + in_row[k as int]);
                indices.push((i as u8, j));
            }
            assert forall|k: int| 0 <= k < indices.len() implies (#[trigger] indices[k]).0
                == next[k] / 4 && indices[k].1 == next[k] % 4 by {
                if k < before.len() {
                    assert(indices[k] == before[k]);
                    assert(next[k] == upto[k]);
                }
            }
        }
        indices
    }
}

} // verus!
