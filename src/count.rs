use vstd::prelude::*;

use crate::bits::{bit_of, lemma_ones_below_zero_tail, ones_below};

verus! {

/// The number of `true` entries of `s`.
pub open spec fn count_true(s: Seq<bool>) -> nat
    decreases s.len(),
{
    if s.len() == 0 {
        0
    } else {
        count_true(s.drop_last()) + if s.last() {
            1nat
        } else {
            0nat
        }
    }
}

/// The number of `true` cells of the rows of `m`.
pub open spec fn count_cells(m: Seq<Seq<bool>>) -> nat
    decreases m.len(),
{
    if m.len() == 0 {
        0
    } else {
        count_cells(m.drop_last()) + count_true(m.last())
    }
}

pub proof fn lemma_count_true_le(s: Seq<bool>)
    ensures
        count_true(s) <= s.len(),
    decreases s.len(),
{
    if s.len() > 0 {
        lemma_count_true_le(s.drop_last());
    }
}

/// A matrix of rows of `cols` cells has at most `m.len() * cols` true cells.
pub proof fn lemma_count_cells_le(m: Seq<Seq<bool>>, cols: nat)
    requires
        forall|r: int| 0 <= r < m.len() ==> (#[trigger] m[r]).len() == cols,
    ensures
        count_cells(m) <= m.len() * cols,
    decreases m.len(),
{
    if m.len() > 0 {
        let n = m.len();
        lemma_count_cells_le(m.drop_last(), cols);
        lemma_count_true_le(m.last());
        assert((n - 1) * cols + cols == n * cols) by (nonlinear_arith);
    }
}

/// Counting the cells of a prefix one word at a time: the `k` cells from `lo` that
/// match the low bits of `v` add the ones among those bits.
proof fn lemma_count_prefix(s: Seq<bool>, lo: int, k: nat, v: u64)
    requires
        0 <= lo,
        lo + k <= s.len(),
        k <= 64,
        forall|j: u64| j < k ==> #[trigger] bit_of(v, j) == s[lo + j],
    ensures
        count_true(s.subrange(0, lo + k)) == count_true(s.subrange(0, lo)) + ones_below(v, k),
    decreases k,
{
    if k > 0 {
        lemma_count_prefix(s, lo, (k - 1) as nat, v);
        let t = s.subrange(0, lo + k);
        assert(t.drop_last() =~= s.subrange(0, lo + k - 1));
        assert(bit_of(v, (k - 1) as u64) == s[lo + k - 1]);
    }
}

/// A word whose `n` low bits are the cells `lo .. lo + n` of `s`, and whose other
/// bits are zero, has as many ones as those cells are true.
pub proof fn lemma_count_word(s: Seq<bool>, lo: int, n: nat, v: u64)
    requires
        0 <= lo,
        lo + n <= s.len(),
        n <= 64,
        forall|j: u64| j < n ==> #[trigger] bit_of(v, j) == s[lo + j],
        forall|j: u64| n <= j < 64 ==> !#[trigger] bit_of(v, j),
    ensures
        count_true(s.subrange(0, lo + n)) == count_true(s.subrange(0, lo)) + ones_below(v, 64),
{
    lemma_ones_below_zero_tail(v, n, 64);
    lemma_count_prefix(s, lo, n, v);
}

} // verus!
