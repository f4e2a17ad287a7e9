//! Single rows of four cells, and the shift that moves and merges their tiles.
//!
//! A cell holds the exponent of its tile, and 0 when it is empty. [`ArrayRow`]
//! keeps one byte per cell; [`CachedRow`] packs the four cells into sixteen
//! bits, and [`CachedRowTable`] holds the shifts of all packed rows.
use vstd::prelude::*;

verus! {

/// The cells that are settled once the next cell `x` has slid against them.
///
/// An empty cell changes nothing. A tile equal to the last settled tile merges
/// with it into a tile of the next exponent; any other tile settles behind it.
/// Only the tile that arrives can merge: tiles that were settled before stay
/// as they are.
pub open spec fn absorb(settled: Seq<int>, x: int) -> Seq<int> {
    if x == 0 {
        settled
    } else if settled.len() > 0 && settled.last() == x {
        settled.drop_last().push(x + 1)
    } else {
        settled.push(x)
    }
}

/// The settled cells after the first `n` cells of `cells` have slid to the
/// left, one after the other.
pub open spec fn settle(cells: Seq<int>, n: int) -> Seq<int>
    decreases n,
{
    if n <= 0 {
        Seq::empty()
    } else {
        absorb(settle(cells, n - 1), cells[n - 1])
    }
}

/// The settled cells after the first `n` cells of `rest` have slid against
/// the cells `settled`, one after the other.
pub open spec fn settle_onto(settled: Seq<int>, rest: Seq<int>, n: int) -> Seq<int>
    decreases n,
{
    if n <= 0 {
        settled
    } else {
        absorb(settle_onto(settled, rest, n - 1), rest[n - 1])
    }
}

/// A row of `len` cells that starts with `settled` and is empty behind it.
pub open spec fn pad(settled: Seq<int>, len: nat) -> Seq<int> {
    Seq::new(len, |i: int| if i < settled.len() { settled[i] } else { 0 })
}

/// The row after a shift to the left.
pub open spec fn slide_left(cells: Seq<int>) -> Seq<int> {
    pad(settle(cells, cells.len() as int), cells.len())
}

/// The row after a shift to the right: the mirror image of a shift to the left.
pub open spec fn slide_right(cells: Seq<int>) -> Seq<int> {
    slide_left(cells.reverse()).reverse()
}

/// The positions of the empty cells among the first `n` cells, ascending.
pub open spec fn empty_upto(cells: Seq<int>, n: int) -> Seq<int>
    decreases n,
{
    if n <= 0 {
        Seq::empty()
    } else if cells[n - 1] == 0 {
        empty_upto(cells, n - 1).push(n - 1)
    } else {
        empty_upto(cells, n - 1)
    }
}

/// The positions of the empty cells of `cells`, ascending.
pub open spec fn empty_positions(cells: Seq<int>) -> Seq<int> {
    empty_upto(cells, cells.len() as int)
}

/// The empty positions among the first `n` cells are positions below `n`,
/// in ascending order, and at most `n` of them.
pub proof fn lemma_empty_upto_bounds(cells: Seq<int>, n: int)
    requires
        0 <= n,
    ensures
        empty_upto(cells, n).len() <= n,
        forall|k: int|
            0 <= k < empty_upto(cells, n).len() ==> 0 <= #[trigger] empty_upto(cells, n)[k] < n,
        forall|k: int, l: int|
            0 <= k < l < empty_upto(cells, n).len() ==> empty_upto(cells, n)[k] < empty_upto(
                cells,
                n,
            )[l],
    decreases n,
{
    if n > 0 {
        lemma_empty_upto_bounds(cells, n - 1);
    }
}

/// The empty positions are exactly the positions of the empty cells.
pub proof fn lemma_empty_positions(cells: Seq<int>)
    ensures
        forall|k: int|
            0 <= k < empty_positions(cells).len() ==> {
                &&& 0 <= #[trigger] empty_positions(cells)[k] < cells.len()
                &&& cells[empty_positions(cells)[k]] == 0
            },
        forall|i: int|
            0 <= i < cells.len() && cells[i] == 0 ==> empty_positions(cells).contains(i),
{
    lemma_empty_upto_cells(cells, cells.len() as int);
}

proof fn lemma_empty_upto_cells(cells: Seq<int>, n: int)
    requires
        0 <= n <= cells.len(),
    ensures
        forall|k: int|
            0 <= k < empty_upto(cells, n).len() ==> {
                &&& 0 <= #[trigger] empty_upto(cells, n)[k] < n
                &&& cells[empty_upto(cells, n)[k]] == 0
            },
        forall|i: int| 0 <= i < n && cells[i] == 0 ==> empty_upto(cells, n).contains(i),
    decreases n,
{
    if n > 0 {
        lemma_empty_upto_cells(cells, n - 1);
        let less = empty_upto(cells, n - 1);
        let all = empty_upto(cells, n);
        assert forall|i: int| 0 <= i < n && cells[i] == 0 implies all.contains(i) by {
            if i < n - 1 {
                let k = choose|k: int| 0 <= k < less.len() && less[k] == i;
                assert(all[k] == i);
            } else {
                assert(all[all.len() - 1] == i);
            }
        }
    }
}

/// The bytes of `s` as integers.
pub open spec fn as_ints(s: Seq<u8>) -> Seq<int> {
    Seq::new(s.len(), |i: int| s[i] as int)
}

/// Settling more cells never shortens the settled part and never lowers one
/// of its exponents.
pub proof fn lemma_settle_grows(cells: Seq<int>, n: int, m: int)
    requires
        0 <= n <= m,
    ensures
        settle(cells, n).len() <= settle(cells, m).len() <= m,
        forall|k: int|
            0 <= k < settle(cells, n).len() ==> settle(cells, n)[k] <= settle(cells, m)[k],
    decreases m,
{
    if n < m {
        lemma_settle_grows(cells, n, m - 1);
    } else if m > 0 {
        lemma_settle_grows(cells, m - 1, m - 1);
    }
}

/// The capability that both kinds of row offer.
pub trait Row: Sized {
    /// The row's four exponents, leftmost first.
    spec fn cells(&self) -> Seq<int>;

    /// The largest exponent that a cell of this kind of row holds.
    spec fn cell_max() -> int;

    /// The exponent that a cell of this kind of row keeps when a merge asks
    /// for exponent `x`.
    spec fn kept(x: int) -> int;

    /// Whether each exponent that this kind of row keeps of `cells` fits a
    /// cell.
    open spec fn keeps_in_range(cells: Seq<int>) -> bool {
        forall|k: int|
            0 <= k < cells.len() ==> 0 <= #[trigger] Self::kept(cells[k]) <= Self::cell_max()
    }

    /// The cells that this kind of row keeps of `cells`.
    open spec fn kept_row(cells: Seq<int>) -> Seq<int> {
        Seq::new(cells.len(), |k: int| Self::kept(cells[k]))
    }

    /// Shift the row's tiles to the left and merge them.
    fn shift_left(&self) -> (r: Self)
        requires
            Self::keeps_in_range(slide_left(self.cells())),
        ensures
            r.cells() == Self::kept_row(slide_left(self.cells())),
    ;

    /// Shift the row's tiles to the right and merge them.
    fn shift_right(&self) -> (r: Self)
        requires
            Self::keeps_in_range(slide_right(self.cells())),
        ensures
            r.cells() == Self::kept_row(slide_right(self.cells())),
    ;

    /// The positions (in 0..4) of the row's empty cells, ascending.
    fn empty(&self) -> (r: Vec<u8>)
        ensures
            as_ints(r@) == empty_positions(self.cells()),
    ;

    /// The exponent in cell `i`.
    fn get(&self, i: usize) -> (r: u8)
        requires
            i < 4,
        ensures
            r == self.cells()[i as int],
    ;

    /// Put a tile of exponent `x` into the empty cell `i`.
    fn add(&mut self, i: usize, x: u8)
        requires
            i < 4,
            old(self).cells()[i as int] == 0,
            x <= Self::cell_max(),
        ensures
            final(self).cells() == old(self).cells().update(i as int, x as int),
    ;
}

/// A row as four bytes, one exponent per cell.
#[derive(Debug, Clone, Copy, Eq, Default)]
pub struct ArrayRow(pub [u8; 4]);

impl PartialEq for ArrayRow {
    fn eq(&self, other: &Self) -> (r: bool) {
        self.0[0] == other.0[0] && self.0[1] == other.0[1] && self.0[2] == other.0[2]
            && self.0[3] == other.0[3]
    }
}

impl vstd::std_specs::cmp::PartialEqSpecImpl for ArrayRow {
    open spec fn obeys_eq_spec() -> bool {
        true
    }

    open spec fn eq_spec(&self, other: &Self) -> bool {
        self.0[0] == other.0[0] && self.0[1] == other.0[1] && self.0[2] == other.0[2]
            && self.0[3] == other.0[3]
    }
}

impl ArrayRow {
    /// The row with the cells of `xs`.
    pub fn from_arr(xs: [u8; 4]) -> (r: Self)
        ensures
            r.0 == xs,
    {
        ArrayRow(xs)
    }

    /// Write exponent `x` into cell `i`, whatever the cell held.
    pub fn set(&mut self, i: usize, x: u8)
        requires
            i < 4,
        ensures
            final(self).cells() == old(self).cells().update(i as int, x as int),
    {
        self.0[i] = x;
        assert(self.cells() =~= old(self).cells().update(i as int, x as int));
    }

    /// The shift to the left, worked out in the plainest way: the tiles are
    /// gathered at the left, then equal neighbours are merged from left to
    /// right.
    pub fn shift_left_spec(&self) -> (r: Self)
        requires
            Self::keeps_in_range(slide_left(self.cells())),
        ensures
            r.cells() == slide_left(self.cells()),
    {
        let ghost cells = self.cells();
        // move the non-zero elements to the front
        let mut els: Vec<u8> = Vec::new();
        for k in 0..4usize
            invariant
                cells == self.cells(),
                els.len() <= k,
                forall|a: int| 0 <= a < els.len() ==> els[a] != 0,
                settle_onto(Seq::empty(), as_ints(els@), els.len() as int) == settle(
                    cells,
                    k as int,
                ),
        {
            if self.0[k] > 0 {
                let ghost before = as_ints(els@);
                els.push(self.0[k]);
                proof {
                    lemma_onto_prefix(Seq::empty(), before, as_ints(els@), before.len() as int);
                }
            }
        }
        let ghost z = els.len() as int;
        // pad with zeros so els.len() == 4
        while els.len() < 4
            invariant
                0 <= z <= els.len() <= 4,
                forall|a: int| 0 <= a < z ==> els[a] != 0,
                forall|a: int| z <= a < els.len() ==> els[a] == 0,
                settle_onto(Seq::empty(), as_ints(els@), els.len() as int) == settle(cells, 4),
            decreases 4 - els.len(),
        {
            let ghost before = as_ints(els@);
            els.push(0);
            proof {
                lemma_onto_prefix(Seq::empty(), before, as_ints(els@), before.len() as int);
            }
        }
        proof {
            if z > 0 {
                lemma_onto_front(Seq::empty(), as_ints(els@), 4);
                assert(as_ints(els@).subrange(0, 1) =~= absorb(Seq::empty(), as_ints(els@)[0]));
            } else {
                assert(as_ints(els@).subrange(0, 0) =~= Seq::<int>::empty());
                assert(as_ints(els@).subrange(0, 4) =~= as_ints(els@));
            }
            lemma_settle_grows(cells, 4, 4);
        }
        let ghost mut z = z;
        // look at i and i+1 in a sliding window
        let mut i: usize = 0;
        while i + 1 < 4
            invariant
                cells == self.cells(),
                Self::keeps_in_range(slide_left(cells)),
                settle(cells, 4).len() <= 4,
                i <= 3,
                els.len() == 4,
                0 <= z <= 4,
                forall|a: int| 0 <= a < z ==> els[a] != 0,
                forall|a: int| z <= a < 4 ==> els[a] == 0,
                settle_onto(
                    as_ints(els@).subrange(0, if i + 1 < z { i + 1 } else { z }),
                    as_ints(els@).subrange(if i + 1 < z { i + 1 } else { z }, 4),
                    4 - if i + 1 < z { i + 1 } else { z },
                ) == settle(cells, 4),
            decreases 4 - i + z,
        {
            let ghost before = as_ints(els@);
            let ghost p = if i + 1 < z { i + 1 } else { z };
            let ghost settled = before.subrange(0, p);
            let ghost rest = before.subrange(p, 4);
            // collapse adjacent equal elements
            if els[i] != 0 && els[i] == els[i + 1] {
                proof {
                    assert(i + 1 < z);
                    lemma_onto_front(settled, rest, 3 - i);
                    let merged = absorb(settled, rest[0]);
                    assert(merged.len() == i + 1 && merged[i as int] == els[i as int] + 1);
                    lemma_onto_grows(merged, rest.subrange(1, 3 - i), 2 - i);
                    assert(Self::kept(slide_left(cells)[i as int]) <= 255);
                }
                // adding two equal powers of two means incrementing the exponent
                els[i] = els[i] + 1;
                // remove the extra copy and add a 0 to the end
                els.remove(i + 1);
                els.push(0);
                proof {
                    let after = as_ints(els@);
                    z = z - 1;
                    let merged = absorb(settled, rest[0]);
                    assert(after.subrange(0, i + 1) =~= merged);
                    lemma_onto_prefix(
                        merged,
                        after.subrange(i + 1, 4),
                        rest.subrange(1, 3 - i),
                        2 - i,
                    );
                }
            } else {
                proof {
                    if i + 2 <= z {
                        lemma_onto_front(settled, rest, 3 - i);
                        assert(before.subrange(0, i + 2) =~= absorb(settled, rest[0]));
                        assert(before.subrange(i + 2, 4) =~= rest.subrange(1, 3 - i));
                    }
                }
                i += 1;
            }
        }
        proof {
            let last = as_ints(els@);
            lemma_onto_zeros(last.subrange(0, z), last.subrange(z, 4), 4 - z);
        }
        // turn els into an array
        let r = ArrayRow([els[0], els[1], els[2], els[3]]);
        assert(r.cells() =~= slide_left(cells));
        r
    }

    /// The row read from right to left.
    pub open spec fn reversed(&self) -> Self {
        ArrayRow([self.0[3], self.0[2], self.0[1], self.0[0]])
    }

    /// The row read from right to left.
    pub fn reverse(&self) -> (r: Self)
        ensures
            r == self.reversed(),
            r.cells() == self.cells().reverse(),
    {
        let row = self.0;
        let r = ArrayRow([row[3], row[2], row[1], row[0]]);
        assert(r.cells() =~= self.cells().reverse());
        r
    }
}

impl Row for ArrayRow {
    open spec fn cells(&self) -> Seq<int> {
        Seq::new(4, |i: int| self.0[i] as int)
    }

    open spec fn cell_max() -> int {
        255
    }

    open spec fn kept(x: int) -> int {
        x
    }

    fn shift_left(&self) -> (r: Self)
        ensures
            r.cells() == slide_left(self.cells()),
    {
        let ghost cells = self.cells();
        let mut els = self.0;
        // the cell that the next tile settles in
        let mut i: usize = 0;
        // the next tile
        let mut j: usize = 0;
        while j < 4 && els[j] == 0
            invariant
                j <= 4,
                els == self.0,
                cells == self.cells(),
                settle(cells, j as int) == Seq::<int>::empty(),
                forall|k: int| 0 <= k < j ==> els[k] == 0,
            decreases 4 - j,
        {
            j += 1;
        }
        while j < 4
            invariant
                i <= j <= 4,
                cells == self.cells(),
                Self::keeps_in_range(slide_left(cells)),
                settle(cells, j as int).len() == i,
                forall|k: int| 0 <= k < i ==> settle(cells, j as int)[k] == els[k],
                forall|k: int| i <= k < j ==> els[k] == 0,
                forall|k: int| j <= k < 4 ==> els[k] == cells[k],
                j < 4 ==> els[j as int] != 0,
            decreases 4 - j,
        {
            let ghost before = settle(cells, j as int);
            let tmp = els[j];
            els[j] = 0;
            els[i] = tmp;
            j += 1;
            assert(settle(cells, j as int) == absorb(before, tmp as int));
            if i > 0 && els[i] == els[i - 1] {
                proof {
                    lemma_settle_grows(cells, j as int, 4);
                    assert(Self::kept(slide_left(cells)[i - 1]) <= 255);
                }
                els[i - 1] += 1;
                els[i] = 0;
                i -= 1;
            }
            while j < 4 && els[j] == 0
                invariant
                    i < j <= 4,
                    cells == self.cells(),
                    settle(cells, j as int).len() == i + 1,
                    forall|k: int| 0 <= k <= i ==> settle(cells, j as int)[k] == els[k],
                    forall|k: int| i < k < j ==> els[k] == 0,
                    forall|k: int| j <= k < 4 ==> els[k] == cells[k],
                decreases 4 - j,
            {
                j += 1;
            }
            i += 1;
        }
        let r = ArrayRow(els);
        assert(r.cells() =~= slide_left(cells));
        assert(Self::kept_row(slide_left(cells)) =~= slide_left(cells));
        r
    }

    fn shift_right(&self) -> (r: Self)
        ensures
            r.cells() == slide_right(self.cells()),
    {
        proof {
            let mirrored = slide_left(self.cells().reverse());
            assert forall|k: int| 0 <= k < 4 implies 0 <= #[trigger] Self::kept(mirrored[k])
                <= 255 by {
                assert(mirrored[k] == slide_right(self.cells())[3 - k]);
                assert(0 <= Self::kept(slide_right(self.cells())[3 - k]) <= 255);
            }
        }
        let r = self.reverse().shift_left().reverse();
        assert(Self::kept_row(slide_right(self.cells())) =~= slide_right(self.cells()));
        r
    }

    fn empty(&self) -> (r: Vec<u8>) {
        let mut indices: Vec<u8> = Vec::new();
        for i in 0..4usize
            invariant
                as_ints(indices@) == empty_upto(self.cells(), i as int),
        {
            if self.0[i] == 0 {
                indices.push(i as u8);
                assert(as_ints(indices@) =~= empty_upto(self.cells(), i as int).push(i as int));
            }
        }
        indices
    }

    fn get(&self, i: usize) -> (r: u8) {
        self.0[i]
    }

    fn add(&mut self, i: usize, x: u8) {
        self.0[i] = x;
        assert(self.cells() =~= old(self).cells().update(i as int, x as int));
    }
}

/// Shifting cells that are at most `top` gives cells that are at most
/// `top + 1`, and none below 0 if none was.
pub proof fn lemma_slide_left_bounds(cells: Seq<int>, top: int)
    requires
        forall|k: int| 0 <= k < cells.len() ==> 0 <= #[trigger] cells[k] <= top,
    ensures
        slide_left(cells).len() == cells.len(),
        forall|k: int|
            0 <= k < cells.len() ==> 0 <= #[trigger] slide_left(cells)[k] <= top + 1,
{
    lemma_settle_bounds(cells, top, cells.len() as int);
}

/// The bounds of [`lemma_slide_left_bounds`], for a shift to the right.
pub proof fn lemma_slide_right_bounds(cells: Seq<int>, top: int)
    requires
        forall|k: int| 0 <= k < cells.len() ==> 0 <= #[trigger] cells[k] <= top,
    ensures
        slide_right(cells).len() == cells.len(),
        forall|k: int|
            0 <= k < cells.len() ==> 0 <= #[trigger] slide_right(cells)[k] <= top + 1,
{
    lemma_slide_left_bounds(cells.reverse(), top);
}

proof fn lemma_settle_bounds(cells: Seq<int>, top: int, n: int)
    requires
        0 <= n <= cells.len(),
        forall|k: int| 0 <= k < cells.len() ==> 0 <= #[trigger] cells[k] <= top,
    ensures
        forall|k: int|
            0 <= k < settle(cells, n).len() ==> 0 < #[trigger] settle(cells, n)[k] <= top + 1,
    decreases n,
{
    if n > 0 {
        lemma_settle_bounds(cells, top, n - 1);
        let before = settle(cells, n - 1);
        let x = cells[n - 1];
        assert(0 <= x <= top);
        assert forall|k: int| 0 <= k < settle(cells, n).len() implies 0 < #[trigger] settle(
            cells,
            n,
        )[k] <= top + 1 by {
            if k < before.len() - 1 {
                assert(settle(cells, n)[k] == before[k]);
            } else if k < before.len() {
                assert(settle(cells, n)[k] == before[k] || settle(cells, n)[k] == x + 1);
            }
        }
    }
}

/// What slides against the settled cells depends on the cells that slide
/// alone, not on those that follow them.
pub proof fn lemma_onto_prefix(settled: Seq<int>, a: Seq<int>, b: Seq<int>, n: int)
    requires
        forall|k: int| 0 <= k < n ==> a[k] == b[k],
    ensures
        settle_onto(settled, a, n) == settle_onto(settled, b, n),
    decreases n,
{
    if n > 0 {
        lemma_onto_prefix(settled, a, b, n - 1);
    }
}

/// The first cell slides first: the others slide against what it leaves.
pub proof fn lemma_onto_front(settled: Seq<int>, rest: Seq<int>, n: int)
    requires
        1 <= n <= rest.len(),
    ensures
        settle_onto(settled, rest, n) == settle_onto(
            absorb(settled, rest[0]),
            rest.subrange(1, rest.len() as int),
            n - 1,
        ),
    decreases n,
{
    let tail = rest.subrange(1, rest.len() as int);
    if n > 1 {
        lemma_onto_front(settled, rest, n - 1);
        assert(tail[n - 2] == rest[n - 1]);
    } else {
        assert(settle_onto(settled, rest, 0) == settled);
        assert(settle_onto(settled, rest, 1) == absorb(settled, rest[0]));
        assert(settle_onto(absorb(settled, rest[0]), tail, 0) == absorb(settled, rest[0]));
    }
}

/// Empty cells change nothing as they slide.
pub proof fn lemma_onto_zeros(settled: Seq<int>, rest: Seq<int>, n: int)
    requires
        forall|k: int| 0 <= k < n ==> rest[k] == 0,
    ensures
        settle_onto(settled, rest, n) == settled,
    decreases n,
{
    if n > 0 {
        lemma_onto_zeros(settled, rest, n - 1);
    }
}

/// Cells that slide against settled cells never shorten them and never lower
/// one of their exponents.
pub proof fn lemma_onto_grows(settled: Seq<int>, rest: Seq<int>, n: int)
    ensures
        settled.len() <= settle_onto(settled, rest, n).len(),
        forall|k: int|
            0 <= k < settled.len() ==> settled[k] <= #[trigger] settle_onto(settled, rest, n)[k],
    decreases n,
{
    if n > 0 {
        lemma_onto_grows(settled, rest, n - 1);
    }
}

/// Where every cell has settled in a place of its own, no tile has moved or
/// merged.
pub proof fn lemma_settle_all(cells: Seq<int>, n: int)
    requires
        0 <= n <= cells.len(),
        settle(cells, n).len() == n,
    ensures
        settle(cells, n) == cells.subrange(0, n),
    decreases n,
{
    if n > 0 {
        lemma_settle_grows(cells, n - 1, n - 1);
        lemma_settle_all(cells, n - 1);
        assert(settle(cells, n) =~= cells.subrange(0, n));
    } else {
        assert(settle(cells, n) =~= cells.subrange(0, n));
    }
}

/// A shift to the left that changes a row leaves its last cell empty.
pub proof fn lemma_changed_left_has_room(cells: Seq<int>)
    requires
        cells.len() > 0,
        slide_left(cells) != cells,
    ensures
        slide_left(cells)[cells.len() - 1] == 0,
{
    let n = cells.len() as int;
    lemma_settle_grows(cells, n, n);
    if settle(cells, n).len() == n {
        lemma_settle_all(cells, n);
        assert(slide_left(cells) =~= cells);
    }
}

/// A shift to the right that changes a row leaves its first cell empty.
pub proof fn lemma_changed_right_has_room(cells: Seq<int>)
    requires
        cells.len() > 0,
        slide_right(cells) != cells,
    ensures
        slide_right(cells)[0] == 0,
{
    let mirrored = cells.reverse();
    if slide_left(mirrored) == mirrored {
        assert(slide_right(cells) =~= cells);
    }
    lemma_changed_left_has_room(mirrored);
}

/// A shift to the left changes nothing in a row whose tiles already stand at
/// the left without a gap, no two equal tiles side by side.
pub proof fn lemma_slide_left_unchanged(cells: Seq<int>)
    requires
        forall|i: int, j: int| 0 <= i < j < cells.len() && cells[i] == 0 ==> cells[j] == 0,
        forall|i: int|
            0 <= i < cells.len() - 1 && #[trigger] cells[i] != 0 ==> cells[i] != cells[i + 1],
    ensures
        slide_left(cells) == cells,
{
    lemma_settle_unchanged(cells, cells.len() as int);
    assert(slide_left(cells) =~= cells);
}

proof fn lemma_settle_unchanged(cells: Seq<int>, n: int)
    requires
        0 <= n <= cells.len(),
        forall|i: int, j: int| 0 <= i < j < cells.len() && cells[i] == 0 ==> cells[j] == 0,
        forall|i: int|
            0 <= i < cells.len() - 1 && #[trigger] cells[i] != 0 ==> cells[i] != cells[i + 1],
    ensures
        settle(cells, n).len() <= n,
        forall|k: int| 0 <= k < settle(cells, n).len() ==> settle(cells, n)[k] == cells[k],
        forall|k: int| settle(cells, n).len() <= k < n ==> cells[k] == 0,
    decreases n,
{
    if n > 0 {
        lemma_settle_unchanged(cells, n - 1);
        let before = settle(cells, n - 1);
        if cells[n - 1] != 0 {
            if before.len() < n - 1 {
                assert(cells[before.len() as int] == 0);
            }
            if n > 1 {
                assert(cells[n - 2] != 0);
            }
        }
    }
}

/// A shift to the right changes nothing in a row whose tiles already stand at
/// the right without a gap, no two equal tiles side by side.
pub proof fn lemma_slide_right_unchanged(cells: Seq<int>)
    requires
        forall|i: int, j: int| 0 <= i < j < cells.len() && cells[j] == 0 ==> cells[i] == 0,
        forall|i: int|
            0 <= i < cells.len() - 1 && #[trigger] cells[i] != 0 ==> cells[i] != cells[i + 1],
    ensures
        slide_right(cells) == cells,
{
    let mirrored = cells.reverse();
    let n = cells.len();
    assert forall|i: int|
        0 <= i < mirrored.len() - 1 && #[trigger] mirrored[i] != 0 implies mirrored[i]
        != mirrored[i + 1] by {
        assert(mirrored[i] == cells[n - 1 - i]);
        assert(mirrored[i + 1] == cells[n - 2 - i]);
        if cells[n - 2 - i] == 0 {
        } else {
            assert(cells[n - 2 - i] != cells[n - 2 - i + 1]);
        }
    }
    lemma_slide_left_unchanged(mirrored);
    assert(slide_right(cells) =~= cells);
}

/// Reading a row from right to left twice gives the row.
pub proof fn lemma_reverse_involution(row: ArrayRow)
    ensures
        row.reversed().reversed() == row,
        row.cells().reverse().reverse() == row.cells(),
{
    assert(row.reversed().reversed().0 =~= row.0);
    assert(row.cells().reverse().reverse() =~= row.cells());
}

/// The exponent in cell `i` of the packed row `num`.
pub open spec fn nibble(num: u16, i: int) -> int {
    if i == 0 {
        num as int % 16
    } else if i == 1 {
        num as int / 16 % 16
    } else if i == 2 {
        num as int / 256 % 16
    } else {
        num as int / 4096 % 16
    }
}

/// The packed row whose cells hold the low four bits of each of `cells`.
#[verifier::opaque]
pub open spec fn pack(cells: Seq<int>) -> u16 {
    (cells[0] % 16 + cells[1] % 16 * 16 + cells[2] % 16 * 256 + cells[3] % 16 * 4096) as u16
}

/// A row packed into sixteen bits, four to a cell, the leftmost cell lowest.
#[derive(Debug, Clone, Copy, PartialEq, Eq, Default, Structural)]
pub struct CachedRow {
    /// The row's sixteen bits.
    pub num: u16,
}

impl CachedRow {
    fn geti(&self, i: usize) -> (r: u8)
        requires
            i < 4,
        ensures
            r == nibble(self.num, i as int),
    {
        let num = self.num;
        let shift: u16 = (i * 4) as u16;
        let r = ((num >> shift) & 0xf) as u8;
        proof {
            assert(((num >> 0u16) & 0xf) == num % 16) by (bit_vector);
            assert(((num >> 4u16) & 0xf) == num / 16 % 16) by (bit_vector);
            assert(((num >> 8u16) & 0xf) == num / 256 % 16) by (bit_vector);
            assert(((num >> 12u16) & 0xf) == num / 4096 % 16) by (bit_vector);
        }
        r
    }

    /// Write exponent `x` into cell `i`, whatever the cell held.
    pub fn set(&mut self, i: usize, x: u8)
        requires
            i < 4,
            x <= 15,
        ensures
            final(self).cells() == old(self).cells().update(i as int, x as int),
    {
        let num = self.num;
        let shift: u16 = (4 * i) as u16;
        proof {
            let y = x as u16;
            assert(y < 16 ==> ((num & !(0xfu16 << 0u16)) | (y << 0u16)) % 16 == y && ((num & !(
            0xfu16 << 0u16)) | (y << 0u16)) / 16 % 16 == num / 16 % 16 && ((num & !(0xfu16
                << 0u16)) | (y << 0u16)) / 256 % 16 == num / 256 % 16 && ((num & !(0xfu16 << 0u16))
                | (y << 0u16)) / 4096 % 16 == num / 4096 % 16) by (bit_vector);
            assert(y < 16 ==> ((num & !(0xfu16 << 4u16)) | (y << 4u16)) % 16 == num % 16 && ((num
                & !(0xfu16 << 4u16)) | (y << 4u16)) / 16 % 16 == y && ((num & !(0xfu16 << 4u16)) | (
            y << 4u16)) / 256 % 16 == num / 256 % 16 && ((num & !(0xfu16 << 4u16)) | (y << 4u16))
                / 4096 % 16 == num / 4096 % 16) by (bit_vector);
            assert(y < 16 ==> ((num & !(0xfu16 << 8u16)) | (y << 8u16)) % 16 == num % 16 && ((num
                & !(0xfu16 << 8u16)) | (y << 8u16)) / 16 % 16 == num / 16 % 16 && ((num & !(0xfu16
                << 8u16)) | (y << 8u16)) / 256 % 16 == y && ((num & !(0xfu16 << 8u16)) | (y
                << 8u16)) / 4096 % 16 == num / 4096 % 16) by (bit_vector);
            assert(y < 16 ==> ((num & !(0xfu16 << 12u16)) | (y << 12u16)) % 16 == num % 16 && ((num
                & !(0xfu16 << 12u16)) | (y << 12u16)) / 16 % 16 == num / 16 % 16 && ((num & !(0xfu16
                << 12u16)) | (y << 12u16)) / 256 % 16 == num / 256 % 16 && ((num & !(0xfu16
                << 12u16)) | (y << 12u16)) / 4096 % 16 == y) by (bit_vector);
        }
        self.num = (num & !(0xfu16 << shift)) | ((x as u16) << shift);
        assert(self.cells() =~= old(self).cells().update(i as int, x as int));
    }

    /// The same row, one byte to a cell.
    pub fn to_array(self) -> (r: ArrayRow)
        ensures
            r.cells() == self.cells(),
    {
        let r = ArrayRow([self.geti(0), self.geti(1), self.geti(2), self.geti(3)]);
        assert(r.cells() =~= self.cells());
        r
    }

    /// The row that keeps the low four bits of each cell of `r`.
    pub fn from_array(r: ArrayRow) -> (p: Self)
        ensures
            p.num == pack(r.cells()),
            p.cells() == Self::kept_row(r.cells()),
    {
        let r0: u16 = (r.0[0] & 0xf) as u16;
        let r1: u16 = (r.0[1] & 0xf) as u16;
        let r2: u16 = (r.0[2] & 0xf) as u16;
        let r3: u16 = (r.0[3] & 0xf) as u16;
        let num = (r3 << 12) | (r2 << 8) | (r1 << 4) | r0;
        proof {
            let a = r.0[0];
            let b = r.0[1];
            let c = r.0[2];
            let d = r.0[3];
            assert((((d & 0xf) as u16) << 12) | (((c & 0xf) as u16) << 8) | (((b & 0xf) as u16)
                << 4) | ((a & 0xf) as u16) == a % 16 + b % 16 * 16 + c % 16 * 256 + d % 16 * 4096)
                by (bit_vector);
        }
        let p = CachedRow { num };
        proof {
            reveal(pack);
            lemma_pack_cells(r.cells());
            assert(p.cells() =~= Self::kept_row(r.cells()));
        }
        p
    }

    /// The packed row with the cells of `xs`, each cut to its low four bits.
    pub fn from_arr(xs: [u8; 4]) -> (p: Self)
        ensures
            p.cells() == Self::kept_row(as_ints(xs@)),
    {
        let p = Self::from_array(ArrayRow::from_arr(xs));
        assert(ArrayRow(xs).cells() =~= as_ints(xs@));
        p
    }
}

impl Row for CachedRow {
    open spec fn cells(&self) -> Seq<int> {
        Seq::new(4, |i: int| nibble(self.num, i))
    }

    open spec fn cell_max() -> int {
        15
    }

    open spec fn kept(x: int) -> int {
        x % 16
    }

    fn shift_left(&self) -> (r: Self)
        ensures
            r.num == pack(slide_left(self.cells())),
    {
        let row = self.to_array();
        proof {
            lemma_slide_left_bounds(self.cells(), 15);
        }
        Self::from_array(row.shift_left())
    }

    fn shift_right(&self) -> (r: Self)
        ensures
            r.num == pack(slide_right(self.cells())),
    {
        let row = self.to_array();
        proof {
            lemma_slide_right_bounds(self.cells(), 15);
        }
        Self::from_array(row.shift_right())
    }

    fn empty(&self) -> (r: Vec<u8>) {
        let mut idxs: Vec<u8> = Vec::new();
        for i in 0..4usize
            invariant
                as_ints(idxs@) == empty_upto(self.cells(), i as int),
        {
            if self.geti(i) == 0 {
                idxs.push(i as u8);
                assert(as_ints(idxs@) =~= empty_upto(self.cells(), i as int).push(i as int));
            }
        }
        idxs
    }

    fn get(&self, i: usize) -> (r: u8) {
        self.geti(i)
    }

    fn add(&mut self, i: usize, x: u8) {
        let num = self.num;
        let shift: u16 = (4 * i) as u16;
        proof {
            let y = x as u16;
            assert(num % 16 == 0 && y < 16 ==> (num | (y << 0u16)) % 16 == y && (num | (y << 0u16))
                / 16 % 16 == num / 16 % 16 && (num | (y << 0u16)) / 256 % 16 == num / 256 % 16 && (
            num | (y << 0u16)) / 4096 % 16 == num / 4096 % 16) by (bit_vector);
            assert(num / 16 % 16 == 0 && y < 16 ==> (num | (y << 4u16)) % 16 == num % 16 && (num | (
            y << 4u16)) / 16 % 16 == y && (num | (y << 4u16)) / 256 % 16 == num / 256 % 16 && (num
                | (y << 4u16)) / 4096 % 16 == num / 4096 % 16) by (bit_vector);
            assert(num / 256 % 16 == 0 && y < 16 ==> (num | (y << 8u16)) % 16 == num % 16 && (num
                | (y << 8u16)) / 16 % 16 == num / 16 % 16 && (num | (y << 8u16)) / 256 % 16 == y
                && (num | (y << 8u16)) / 4096 % 16 == num / 4096 % 16) by (bit_vector);
            assert(num / 4096 % 16 == 0 && y < 16 ==> (num | (y << 12u16)) % 16 == num % 16 && (num
                | (y << 12u16)) / 16 % 16 == num / 16 % 16 && (num | (y << 12u16)) / 256 % 16 == num
                / 256 % 16 && (num | (y << 12u16)) / 4096 % 16 == y) by (bit_vector);
        }
        self.num = num | ((x as u16) << shift);
        assert(self.cells() =~= old(self).cells().update(i as int, x as int));
    }
}

/// Cell `i` of a packed row holds the low four bits of cell `i` of the cells
/// it was packed from.
pub proof fn lemma_pack_cells(cells: Seq<int>)
    requires
        cells.len() == 4,
    ensures
        nibble(pack(cells), 0) == cells[0] % 16,
        nibble(pack(cells), 1) == cells[1] % 16,
        nibble(pack(cells), 2) == cells[2] % 16,
        nibble(pack(cells), 3) == cells[3] % 16,
{
    reveal(pack);
    let a = (cells[0] % 16) as u16;
    let b = (cells[1] % 16) as u16;
    let c = (cells[2] % 16) as u16;
    let d = (cells[3] % 16) as u16;
    assert(a < 16 && b < 16 && c < 16 && d < 16 ==> {
        let n = (a + b * 16 + c * 256 + d * 4096) as u16;
        n % 16 == a && n / 16 % 16 == b && n / 256 % 16 == c && n / 4096 % 16 == d
    }) by (bit_vector);
}

/// A packed row is the packing of its own cells.
pub proof fn lemma_pack_nibbles(num: u16)
    ensures
        pack(seq![nibble(num, 0), nibble(num, 1), nibble(num, 2), nibble(num, 3)]) == num,
{
    reveal(pack);
    assert(num % 16 % 16 + num / 16 % 16 % 16 * 16 + num / 256 % 16 % 16 * 256 + num / 4096 % 16
        % 16 * 4096 == num) by (bit_vector);
}

/// The shifts of all packed rows, computed once and then looked up.
pub struct CachedRowTable {
    shift_left: Box<[CachedRow; 65536]>,
    shift_right: Box<[CachedRow; 65536]>,
}

impl CachedRowTable {
    /// Whether every entry holds the shift of the row whose bits are its
    /// index. It holds of every table that [`CachedRowTable::new`] has made.
    pub closed spec fn wf(&self) -> bool {
        &&& forall|n: int|
            0 <= n < 65536 ==> (#[trigger] self.shift_left@[n]).num == pack(
                slide_left(CachedRow { num: n as u16 }.cells()),
            )
        &&& forall|n: int|
            0 <= n < 65536 ==> (#[trigger] self.shift_right@[n]).num == pack(
                slide_right(CachedRow { num: n as u16 }.cells()),
            )
    }

    fn vec_to_table(v: Vec<CachedRow>) -> (t: Box<[CachedRow; 65536]>)
        requires
            v.len() == 65536,
        ensures
            t@ == v@,
    {
        let mut table: [CachedRow; 65536] = [CachedRow { num: 0 }; 65536];
        for i in 0..65536usize
            invariant
                v.len() == 65536,
                forall|k: int| 0 <= k < i ==> table[k] == v[k],
        {
            table[i] = v[i];
        }
        let t = Box::new(table);
        assert(t@ =~= v@);
        t
    }

    /// Compute the shifts of all packed rows from the shifts of byte rows.
    pub fn new() -> (t: Self)
        ensures
            t.wf(),
    {
        let mut shift_left = vec![CachedRow { num: 0 }; 65536];
        let mut shift_right = vec![CachedRow { num: 0 }; 65536];
        for i in 0..65536usize
            invariant
                shift_left.len() == 65536,
                shift_right.len() == 65536,
                forall|n: int|
                    0 <= n < i ==> (#[trigger] shift_left@[n]).num == pack(
                        slide_left(CachedRow { num: n as u16 }.cells()),
                    ),
                forall|n: int|
                    0 <= n < i ==> (#[trigger] shift_right@[n]).num == pack(
                        slide_right(CachedRow { num: n as u16 }.cells()),
                    ),
        {
            let packed = CachedRow { num: i as u16 };
            let r = packed.to_array();
            proof {
                lemma_slide_left_bounds(packed.cells(), 15);
                lemma_slide_right_bounds(packed.cells(), 15);
            }
            shift_left[i] = CachedRow::from_array(r.shift_left());
            shift_right[i] = CachedRow::from_array(r.shift_right());
        }
        let shift_left = Self::vec_to_table(shift_left);
        let shift_right = Self::vec_to_table(shift_right);
        CachedRowTable { shift_left, shift_right }
    }

    /// The entry that the table holds for the shift of `row` to the left.
    pub closed spec fn stored_left(&self, row: CachedRow) -> CachedRow {
        self.shift_left@[row.num as int]
    }

    /// The entry that the table holds for the shift of `row` to the right.
    pub closed spec fn stored_right(&self, row: CachedRow) -> CachedRow {
        self.shift_right@[row.num as int]
    }

    /// For every packed row the table holds what the shift of the byte row
    /// with the same cells gives, packed again.
    pub proof fn lemma_stored_is_reference(&self, row: CachedRow)
        requires
            self.wf(),
        ensures
            self.stored_left(row).num == pack(slide_left(row.cells())),
            self.stored_right(row).num == pack(slide_right(row.cells())),
            self.stored_left(row).cells() == CachedRow::kept_row(slide_left(row.cells())),
            self.stored_right(row).cells() == CachedRow::kept_row(slide_right(row.cells())),
    {
        lemma_pack_cells(slide_left(row.cells()));
        lemma_pack_cells(slide_right(row.cells()));
        assert(self.stored_left(row).cells() =~= CachedRow::kept_row(slide_left(row.cells())));
        assert(self.stored_right(row).cells() =~= CachedRow::kept_row(slide_right(row.cells())));
    }

    /// The shift of `row` to the left, looked up.
    pub fn shift_left(&self, row: CachedRow) -> (r: CachedRow)
        requires
            self.wf(),
        ensures
            r == self.stored_left(row),
            r.num == pack(slide_left(row.cells())),
    {
        self.shift_left[row.num as usize]
    }

    /// The shift of `row` to the right, looked up.
    pub fn shift_right(&self, row: CachedRow) -> (r: CachedRow)
        requires
            self.wf(),
        ensures
            r == self.stored_right(row),
            r.num == pack(slide_right(row.cells())),
    {
        self.shift_right[row.num as usize]
    }
}

} // verus!
