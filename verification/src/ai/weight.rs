//! The weight matrix that rewards a board for keeping its high tiles in one
//! corner, and the eight ways to lay it on a board.
use crate::game::right_rotate_idx;
use crate::game::rotate_right;
use crate::game::RIGHT_ROTATE_IDX;
use vstd::prelude::*;

verus! {

/// One weight for each cell, in units of [`crate::ai::SCORE_UNIT`].
pub type Matrix = [u64; 16];

/// The largest weight.
pub const W_MAX: u64 = 13575900;

/// The weights that favour the top left corner.
pub const W0: Matrix = [
    13575900,
    12192500,
    10281200,
    9993700,
    9979920,
    8884050,
    7671100,
    7241430,
    6065400,
    5625790,
    3711600,
    1618890,
    1254980,
    992495,
    575871,
    335193,
];

/// The entries of `m` as integers.
pub open spec fn entries(m: Matrix) -> Seq<int> {
    Seq::new(16, |i: int| m[i] as int)
}

/// The matrix `w` mirrored at its main diagonal.
pub open spec fn transposed(w: Seq<int>) -> Seq<int> {
    Seq::new(16, |i: int| w[4 * (i % 4) + i / 4])
}

/// The sum of the products of the first `n` entries of `a` and `b`.
pub open spec fn dot_upto(a: Seq<int>, b: Seq<int>, n: int) -> int
    decreases n,
{
    if n <= 0 {
        0
    } else {
        dot_upto(a, b, n - 1) + a[n - 1] * b[n - 1]
    }
}

/// Whether no entry of `w` is above `top`.
pub open spec fn capped(w: Seq<int>, top: int) -> bool {
    forall|i: int| 0 <= i < w.len() ==> 0 <= #[trigger] w[i] <= top
}

/// The eight matrices that a board is weighed with: the base matrix and its
/// three quarter turns, then the mirror image of each.
pub open spec fn all_matrices() -> Seq<Seq<int>> {
    let w0 = entries(W0);
    let w1 = rotate_right(w0);
    let w2 = rotate_right(w1);
    let w3 = rotate_right(w2);
    seq![w0, w1, w2, w3, transposed(w0), transposed(w1), transposed(w2), transposed(w3)]
}

/// The matrix `w` turned by a quarter to the right.
pub fn rot_r(w: &Matrix) -> (r: Matrix)
    ensures
        entries(r) == rotate_right(entries(*w)),
{
    let mut new_w: Matrix = [0u64;16];
    let mut i: usize = 0;
    while i < 16
        invariant
            i <= 16,
            forall|k: int| 0 <= k < i ==> new_w[k] == w[right_rotate_idx(k)],
        decreases 16 - i,
    {
        let idx = RIGHT_ROTATE_IDX[i];
        assert(idx == right_rotate_idx(i as int));
        new_w[i] = w[idx];
        i += 1;
    }
    assert(entries(new_w) =~= rotate_right(entries(*w)));
    new_w
}

/// The matrix `w` mirrored at its main diagonal.
pub fn transpose(w: &Matrix) -> (r: Matrix)
    ensures
        entries(r) == transposed(entries(*w)),
{
    let mut new_w: Matrix = [0u64;16];
    let mut i: usize = 0;
    while i < 4
        invariant
            i <= 4,
            forall|k: int| 0 <= k < 4 * i ==> new_w[k] == w[4 * (k % 4) + k / 4],
        decreases 4 - i,
    {
        let mut j: usize = 0;
        while j < 4
            invariant
                i < 4,
                j <= 4,
                forall|k: int| 0 <= k < 4 * i + j ==> new_w[k] == w[4 * (k % 4) + k / 4],
            decreases 4 - j,
        {
            new_w[i * 4 + j] = w[j * 4 + i];
            j += 1;
        }
        i += 1;
    }
    assert(entries(new_w) =~= transposed(entries(*w)));
    new_w
}

/// The sum of the products of the entries of `w1` and `w2`, cell by cell.
pub fn dot(w1: &Matrix, w2: &Matrix) -> (r: u64)
    requires
        forall|i: int| 0 <= i < 16 ==> #[trigger] w1[i] * w2[i] <= u64::MAX / 16,
    ensures
        r == dot_upto(entries(*w1), entries(*w2), 16),
{
    let mut sum: u64 = 0;
    for i in 0..16usize
        invariant
            forall|k: int| 0 <= k < 16 ==> #[trigger] w1[k] * w2[k] <= u64::MAX / 16,
            sum == dot_upto(entries(*w1), entries(*w2), i as int),
            sum <= i * (u64::MAX / 16),
    {
        assert(w1[i as int] * w2[i as int] <= u64::MAX / 16);
        sum += w1[i] * w2[i];
    }
    sum
}

/// The eight matrices that a board is weighed with.
pub fn w_matrices() -> (r: [Matrix; 8])
    ensures
        forall|k: int| 0 <= k < 8 ==> entries(#[trigger] r[k]) == all_matrices()[k],
        forall|k: int| 0 <= k < 8 ==> capped(entries(#[trigger] r[k]), W_MAX as int),
{
    let w1 = rot_r(&W0);
    let w2 = rot_r(&w1);
    let w3 = rot_r(&w2);
    let r = [W0, w1, w2, w3, transpose(&W0), transpose(&w1), transpose(&w2), transpose(&w3)];
    proof {
        lemma_turned_capped(entries(W0), W_MAX as int);
        lemma_turned_capped(entries(w1), W_MAX as int);
        lemma_turned_capped(entries(w2), W_MAX as int);
        lemma_turned_capped(entries(w3), W_MAX as int);
    }
    r
}

/// Turning and mirroring a matrix moves its entries and changes none.
pub proof fn lemma_turned_capped(w: Seq<int>, top: int)
    requires
        w.len() == 16,
        capped(w, top),
    ensures
        capped(rotate_right(w), top),
        capped(transposed(w), top),
{
    assert forall|i: int| 0 <= i < 16 implies 0 <= #[trigger] rotate_right(w)[i] <= top && 0
        <= #[trigger] transposed(w)[i] <= top by {
        crate::game::lemma_turn_indices(i);
        let r = i / 4;
        let c = i % 4;
        assert(0 <= 4 * c + r < 16);
    }
}

} // verus!
