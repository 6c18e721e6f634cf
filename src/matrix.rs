use vstd::prelude::*;

use crate::bits::{
    bit_of, lemma_bit_and, lemma_bit_clear, lemma_bit_low_mask, lemma_bit_or, lemma_bit_set,
    lemma_bit_test, lemma_bit_xor, lemma_bits_determine_word, lemma_bit_zero, low_mask, word_ones,
};
use crate::count::{count_cells, count_true, lemma_count_cells_le, lemma_count_true_le, lemma_count_word};
use crate::kernel::{block_and, block_or, block_xor};

verus! {

/// Why an operation on a matrix was refused.
#[derive(Debug, Clone, Copy, PartialEq, Eq)]
pub enum MatrixError {
    /// A row or column index is not below the matrix's row or column count.
    IndexOutOfBounds,
    /// Two shapes that must agree do not.
    ShapeMismatch,
}

/// A fixed-shape boolean matrix, stored row by row in 64-bit words.
///
/// Row `r` occupies the words `r * words_per_row .. (r + 1) * words_per_row`;
/// column `c` of a row is bit `c % 64` of the row's word `c / 64`. The bits of a
/// row's last word at or beyond `cols` are always zero.
#[derive(Clone, Debug, PartialEq, Eq)]
pub struct BitMatrix {
    rows: usize,
    cols: usize,
    words_per_row: usize,
    data: Vec<u64>,
}

/// The number of words that hold `cols` bits.
pub open spec fn words_for(cols: nat) -> nat {
    (cols + 63) / 64
}

/// The `rows x cols` matrix whose cells are all false.
pub open spec fn all_false(rows: nat, cols: nat) -> Seq<Seq<bool>> {
    Seq::new(rows, |r: int| Seq::new(cols, |c: int| false))
}

/// Cell by cell conjunction of two matrices of one shape.
pub open spec fn and_cells(a: Seq<Seq<bool>>, b: Seq<Seq<bool>>) -> Seq<Seq<bool>> {
    Seq::new(a.len(), |r: int| Seq::new(a[r].len(), |c: int| a[r][c] && b[r][c]))
}

/// Cell by cell disjunction of two matrices of one shape.
pub open spec fn or_cells(a: Seq<Seq<bool>>, b: Seq<Seq<bool>>) -> Seq<Seq<bool>> {
    Seq::new(a.len(), |r: int| Seq::new(a[r].len(), |c: int| a[r][c] || b[r][c]))
}

/// Cell by cell exclusive or of two matrices of one shape.
pub open spec fn xor_cells(a: Seq<Seq<bool>>, b: Seq<Seq<bool>>) -> Seq<Seq<bool>> {
    Seq::new(a.len(), |r: int| Seq::new(a[r].len(), |c: int| a[r][c] != b[r][c]))
}

impl BitMatrix {
    /// The number of rows.
    pub closed spec fn row_count(&self) -> nat {
        self.rows as nat
    }

    /// The number of columns.
    pub closed spec fn col_count(&self) -> nat {
        self.cols as nat
    }

    /// The stored bit for row `r` and position `c` of the row's words.
    pub closed spec fn cell(&self, r: int, c: int) -> bool {
        bit_of(self.data@[r * self.words_per_row + c / 64], (c % 64) as u64)
    }

    /// Field for field the same: the shape, the row stride and every stored word.
    pub closed spec fn same_storage(&self, other: &BitMatrix) -> bool {
        &&& self.rows == other.rows
        &&& self.cols == other.cols
        &&& self.words_per_row == other.words_per_row
        &&& self.data@ == other.data@
    }

    /// The two matrices have as many rows and as many columns.
    pub open spec fn same_shape(&self, other: &BitMatrix) -> bool {
        self.row_count() == other.row_count() && self.col_count() == other.col_count()
    }

    closed spec fn shape_ok(&self) -> bool {
        &&& self.words_per_row as nat == words_for(self.cols as nat)
        &&& self.data@.len() == self.rows * self.words_per_row
        &&& self.data@.len() <= usize::MAX
        &&& self.rows * self.cols <= usize::MAX
    }

    /// Well-formed: the layout adds up, and no bit past the last column is set.
    pub closed spec fn wf(&self) -> bool {
        &&& self.shape_ok()
        &&& forall|r: int, c: int|
            0 <= r < self.rows && self.cols <= c < 64 * self.words_per_row ==> !#[trigger] self.cell(
                r,
                c,
            )
    }
}

impl View for BitMatrix {
    type V = Seq<Seq<bool>>;

    /// The cells, row by row.
    open spec fn view(&self) -> Seq<Seq<bool>> {
        Seq::new(self.row_count(), |r: int| Seq::new(self.col_count(), |c: int| self.cell(r, c)))
    }
}

/// A bit position inside the word array lies within it.
proof fn lemma_index_in_range(rows: int, wpr: int, r: int, c: int)
    requires
        0 <= r < rows,
        0 <= c < 64 * wpr,
    ensures
        0 <= c / 64 < wpr,
        0 <= r * wpr + c / 64 < rows * wpr,
{
    let k = c / 64;
    assert(0 <= r * wpr + k < rows * wpr) by (nonlinear_arith)
        requires
            0 <= r < rows,
            0 <= k < wpr,
    ;
}

/// Distinct rows, or distinct word positions in a row, use distinct words.
proof fn lemma_index_unique(wpr: int, r1: int, c1: int, r2: int, c2: int)
    requires
        0 <= r1,
        0 <= r2,
        0 <= c1 < 64 * wpr,
        0 <= c2 < 64 * wpr,
        r1 * wpr + c1 / 64 == r2 * wpr + c2 / 64,
    ensures
        r1 == r2,
        c1 / 64 == c2 / 64,
{
    let k1 = c1 / 64;
    let k2 = c2 / 64;
    assert(r1 == r2) by (nonlinear_arith)
        requires
            0 <= r1,
            0 <= r2,
            0 <= k1 < wpr,
            0 <= k2 < wpr,
            r1 * wpr + k1 == r2 * wpr + k2,
    {
        if r1 < r2 {
            assert(r1 * wpr + wpr <= r2 * wpr);
        } else if r2 < r1 {
            assert(r2 * wpr + wpr <= r1 * wpr);
        }
    }
}

/// A word of one row never lies in the word range of another row.
proof fn lemma_rows_disjoint(wpr: int, r1: int, r2: int, k: int)
    requires
        0 <= r1,
        0 <= r2,
        r1 != r2,
        0 <= k < wpr,
    ensures
        !(r2 * wpr <= r1 * wpr + k < r2 * wpr + wpr),
{
    assert(!(r2 * wpr <= r1 * wpr + k < r2 * wpr + wpr)) by (nonlinear_arith)
        requires
            0 <= r1,
            0 <= r2,
            r1 != r2,
            0 <= k < wpr,
    {
        if r1 < r2 {
            assert(r1 * wpr + wpr <= r2 * wpr);
        } else {
            assert(r2 * wpr + wpr <= r1 * wpr);
        }
    }
}

/// The words of a row lie inside the word array.
proof fn lemma_row_in_range(rows: int, wpr: int, r: int)
    requires
        0 <= r < rows,
        0 <= wpr,
    ensures
        0 <= r * wpr,
        r * wpr + wpr <= rows * wpr,
{
    assert(0 <= r * wpr && r * wpr + wpr <= rows * wpr) by (nonlinear_arith)
        requires
            0 <= r < rows,
            0 <= wpr,
    ;
}

/// Cell by cell conjunction of two rows.
pub open spec fn and_row(a: Seq<bool>, b: Seq<bool>) -> Seq<bool> {
    Seq::new(a.len(), |c: int| a[c] && b[c])
}

/// Cell by cell disjunction of two rows.
pub open spec fn or_row(a: Seq<bool>, b: Seq<bool>) -> Seq<bool> {
    Seq::new(a.len(), |c: int| a[c] || b[c])
}

/// Cell by cell exclusive or of two rows.
pub open spec fn xor_row(a: Seq<bool>, b: Seq<bool>) -> Seq<bool> {
    Seq::new(a.len(), |c: int| a[c] != b[c])
}

/// `m` with, in every row, cell `dst` replaced by its AND with cell `src`.
pub open spec fn col_and(m: Seq<Seq<bool>>, dst: int, src: int) -> Seq<Seq<bool>> {
    Seq::new(m.len(), |r: int| m[r].update(dst, m[r][dst] && m[r][src]))
}

/// `m` with, in every row, cell `dst` replaced by its OR with cell `src`.
pub open spec fn col_or(m: Seq<Seq<bool>>, dst: int, src: int) -> Seq<Seq<bool>> {
    Seq::new(m.len(), |r: int| m[r].update(dst, m[r][dst] || m[r][src]))
}

/// `m` with, in every row, cell `dst` replaced by its XOR with cell `src`.
pub open spec fn col_xor(m: Seq<Seq<bool>>, dst: int, src: int) -> Seq<Seq<bool>> {
    Seq::new(m.len(), |r: int| m[r].update(dst, m[r][dst] != m[r][src]))
}

/// Column `col` of `m`, top to bottom.
pub open spec fn column_of(m: Seq<Seq<bool>>, col: int) -> Seq<bool> {
    Seq::new(m.len(), |r: int| m[r][col])
}

/// `m` with column `col` replaced by `vals`, one entry per row.
pub open spec fn with_column(m: Seq<Seq<bool>>, col: int, vals: Seq<bool>) -> Seq<Seq<bool>> {
    Seq::new(m.len(), |r: int| m[r].update(col, vals[r]))
}

/// Every row of `m` is as long as its first.
pub open spec fn is_rectangular(m: Seq<Seq<bool>>) -> bool {
    forall|r: int| 0 <= r < m.len() ==> (#[trigger] m[r]).len() == m[0].len()
}

/// The length of the first row of `m`, or zero when it has none.
pub open spec fn width_of(m: Seq<Seq<bool>>) -> nat {
    if m.len() == 0 {
        0
    } else {
        m[0].len()
    }
}

impl BitMatrix {
    /// The trailing-bit invariant: in a well-formed matrix no stored bit of a row
    /// at or past the last column is set.
    pub proof fn lemma_padding(&self, r: int, c: int)
        requires
            self.wf(),
            0 <= r < self.row_count(),
            self.col_count() <= c < 64 * words_for(self.col_count()),
        ensures
            !self.cell(r, c),
    {
    }

    /// Two well-formed matrices with the same shape and the same cells store the
    /// same words.
    pub proof fn lemma_cells_determine_storage(&self, other: &BitMatrix)
        requires
            self.wf(),
            other.wf(),
            self.same_shape(other),
            self@ == other@,
        ensures
            self.same_storage(other),
    {
        let wpr = self.words_per_row as int;
        assert forall|k: int| 0 <= k < self.data@.len() implies self.data@[k] == other.data@[k] by {
            vstd::arithmetic::div_mod::lemma_fundamental_div_mod(k, wpr);
            let r = k / wpr;
            let i = k % wpr;
            assert(0 <= r < self.rows) by (nonlinear_arith)
                requires
                    0 <= k < self.rows * wpr,
                    wpr > 0,
                    k == wpr * r + i,
                    0 <= i < wpr,
            ;
            assert forall|j: u64| j < 64 implies #[trigger] bit_of(self.data@[k], j) == bit_of(
                other.data@[k],
                j,
            ) by {
                let c = 64 * i + j;
                assert(c / 64 == i && c % 64 == j);
                assert(r * wpr == wpr * r) by (nonlinear_arith);
                assert(self.cell(r, c) == bit_of(self.data@[k], j));
                assert(other.cell(r, c) == bit_of(other.data@[k], j));
                assert(0 <= i < wpr);
                assert(0 <= r < self.rows);
                if c < self.cols {
                    assert(self@[r][c] == self.cell(r, c));
                    assert(other@[r][c] == other.cell(r, c));
                    assert(self@[r][c] == other@[r][c]);
                } else {
                    assert(c < 64 * wpr);
                    assert(!self.cell(r, c));
                    assert(!other.cell(r, c));
                }
            }
            lemma_bits_determine_word(self.data@[k], other.data@[k]);
        }
        assert(self.data@ =~= other.data@);
    }

    /// The number of cells fits in a `usize`.
    pub proof fn lemma_size(&self)
        requires
            self.wf(),
        ensures
            self.row_count() * self.col_count() <= usize::MAX,
    {
    }

    /// Creates a `rows x cols` matrix with every cell false.
    pub fn new(rows: usize, cols: usize) -> (m: BitMatrix)
        requires
            rows * cols <= usize::MAX,
        ensures
            m.wf(),
            m.row_count() == rows,
            m.col_count() == cols,
            m@ == all_false(rows as nat, cols as nat),
    {
        let words_per_row: usize = cols / 64 + if cols % 64 == 0 {
            0
        } else {
            1
        };
        assert(rows * words_per_row <= rows * cols) by (nonlinear_arith)
            requires
                words_per_row <= cols,
        ;
        let n: usize = rows * words_per_row;
        let mut data: Vec<u64> = Vec::with_capacity(n);
        let mut i: usize = 0;
        while i < n
            invariant
                i <= n,
                data@.len() == i,
                forall|k: int| 0 <= k < i ==> data@[k] == 0u64,
            decreases n - i,
        {
            data.push(0u64);
            i = i + 1;
        }
        let m = BitMatrix { rows, cols, words_per_row, data };
        assert forall|r: int, c: int| 0 <= r < rows && 0 <= c < 64 * words_per_row implies !m.cell(
            r,
            c,
        ) by {
            lemma_index_in_range(rows as int, words_per_row as int, r, c);
            lemma_bit_zero((c % 64) as u64);
        }
        assert(m@ =~~= all_false(rows as nat, cols as nat));
        m
    }

    /// The number of rows.
    pub fn rows(&self) -> (r: usize)
        ensures
            r == self.row_count(),
    {
        self.rows
    }

    /// The number of columns.
    pub fn cols(&self) -> (r: usize)
        ensures
            r == self.col_count(),
    {
        self.cols
    }

    /// The word index and the one-bit mask of cell `(row, col)`.
    fn index(&self, row: usize, col: usize) -> (r: (usize, u64))
        requires
            self.wf(),
            row < self.rows,
            col < self.cols,
        ensures
            r.0 == row * self.words_per_row + col / 64,
            r.0 < self.data@.len(),
            r.1 == 1u64 << ((col % 64) as u64),
    {
        proof {
            lemma_index_in_range(self.rows as int, self.words_per_row as int, row as int, col as int);
        }
        let word: usize = col / 64;
        let bit: u64 = (col % 64) as u64;
        (row * self.words_per_row + word, 1u64 << bit)
    }

    /// Writes `val` into cell `(row, col)`, which must lie in the matrix.
    fn put_bit(&mut self, row: usize, col: usize, val: bool)
        requires
            old(self).wf(),
            row < old(self).rows,
            col < old(self).cols,
        ensures
            final(self).wf(),
            final(self).rows == old(self).rows,
            final(self).cols == old(self).cols,
            final(self)@ == old(self)@.update(
                row as int,
                old(self)@[row as int].update(col as int, val),
            ),
    {
        let (idx, mask) = self.index(row, col);
        let w = self.data[idx];
        let nw = if val {
            w | mask
        } else {
            w & !mask
        };
        self.data[idx] = nw;
        proof {
            let wpr = self.words_per_row as int;
            let b = (col % 64) as u64;
            assert forall|r: int, c: int| 0 <= r < self.rows && 0 <= c < 64 * wpr implies #[trigger] self.cell(
                r,
                c,
            ) == if r == row && c == col {
                val
            } else {
                old(self).cell(r, c)
            } by {
                lemma_index_in_range(self.rows as int, wpr, r, c);
                if r * wpr + c / 64 == idx {
                    lemma_index_unique(wpr, r, c, row as int, col as int);
                    lemma_bit_set(w, b, (c % 64) as u64);
                    lemma_bit_clear(w, b, (c % 64) as u64);
                }
            }
            assert(self@ =~~= old(self)@.update(
                row as int,
                old(self)@[row as int].update(col as int, val),
            ));
        }
    }


    /// Reads cell `(row, col)`, which must lie in the matrix.
    fn get_bit(&self, row: usize, col: usize) -> (r: bool)
        requires
            self.wf(),
            row < self.rows,
            col < self.cols,
        ensures
            r == self@[row as int][col as int],
    {
        let (idx, mask) = self.index(row, col);
        proof {
            lemma_bit_test(self.data@[idx as int], (col % 64) as u64);
        }
        (self.data[idx] & mask) != 0
    }

    /// Sets cell `(row, col)` to `val`, leaving every other cell as it was.
    pub fn set(&mut self, row: usize, col: usize, val: bool) -> (r: Result<(), MatrixError>)
        requires
            old(self).wf(),
        ensures
            final(self).wf(),
            final(self).row_count() == old(self).row_count(),
            final(self).col_count() == old(self).col_count(),
            row < old(self).row_count() && col < old(self).col_count() ==> r == Ok::<
                (),
                MatrixError,
            >(()) && final(self)@ == old(self)@.update(
                row as int,
                old(self)@[row as int].update(col as int, val),
            ),
            !(row < old(self).row_count() && col < old(self).col_count()) ==> r == Err::<
                (),
                MatrixError,
            >(MatrixError::IndexOutOfBounds) && *final(self) == *old(self),
    {
        if row >= self.rows || col >= self.cols {
            return Err(MatrixError::IndexOutOfBounds);
        }
        self.put_bit(row, col, val);
        Ok(())
    }

    /// Reads cell `(row, col)`.
    pub fn get(&self, row: usize, col: usize) -> (r: Result<bool, MatrixError>)
        requires
            self.wf(),
        ensures
            r == if row < self.row_count() && col < self.col_count() {
                Ok::<bool, MatrixError>(self@[row as int][col as int])
            } else {
                Err::<bool, MatrixError>(MatrixError::IndexOutOfBounds)
            },
    {
        if row >= self.rows || col >= self.cols {
            return Err(MatrixError::IndexOutOfBounds);
        }
        Ok(self.get_bit(row, col))
    }
}

impl BitMatrix {
    /// The mask of the valid bits of a row's last word.
    fn last_word_mask(&self) -> (r: u64)
        ensures
            r == low_mask((self.cols % 64) as u64),
    {
        let rem: u64 = (self.cols % 64) as u64;
        if rem == 0 {
            !0u64
        } else {
            assert(1u64 << rem >= 1) by (bit_vector)
                requires
                    rem < 64,
            ;
            (1u64 << rem) - 1
        }
    }

    /// Clears every bit past the last column, in the last word of each row.
    fn clear_unused_bits(&mut self)
        requires
            old(self).shape_ok(),
        ensures
            final(self).rows == old(self).rows,
            final(self).cols == old(self).cols,
            final(self).words_per_row == old(self).words_per_row,
            final(self).shape_ok(),
            forall|r: int, c: int|
                0 <= r < old(self).rows && 0 <= c < 64 * old(self).words_per_row ==> #[trigger] final(self).cell(r, c) == (old(self).cell(r, c) && c < old(self).cols),
    {
        if self.cols % 64 == 0 {
            return;
        }
        let mut r: usize = 0;
        while r < self.rows
            invariant
                self.rows == old(self).rows,
                self.cols == old(self).cols,
                self.words_per_row == old(self).words_per_row,
                self.shape_ok(),
                r <= self.rows,
                forall|r2: int, c: int|
                    0 <= r2 < self.rows && 0 <= c < 64 * self.words_per_row ==> #[trigger] self.cell(
                        r2,
                        c,
                    ) == if r2 < r {
                        old(self).cell(r2, c) && c < self.cols
                    } else {
                        old(self).cell(r2, c)
                    },
            decreases self.rows - r,
        {
            let ghost before = *self;
            self.mask_row(r);
            proof {
                assert forall|r2: int, c: int|
                    0 <= r2 < self.rows && 0 <= c < 64 * self.words_per_row implies #[trigger] self.cell(
                        r2,
                        c,
                    ) == if r2 < r + 1 {
                        old(self).cell(r2, c) && c < self.cols
                    } else {
                        old(self).cell(r2, c)
                    } by {
                    assert(before.cell(r2, c) == if r2 < r {
                        old(self).cell(r2, c) && c < self.cols
                    } else {
                        old(self).cell(r2, c)
                    });
                }
            }
            r = r + 1;
        }
    }

    /// Replaces this matrix, in place, by its cell by cell AND with `other`.
    pub fn bitand_assign(&mut self, other: &BitMatrix) -> (r: Result<(), MatrixError>)
        requires
            old(self).wf(),
            other.wf(),
        ensures
            final(self).wf(),
            final(self).row_count() == old(self).row_count(),
            final(self).col_count() == old(self).col_count(),
            old(self).same_shape(other) ==> r == Ok::<(), MatrixError>(()) && final(self)@
                == and_cells(old(self)@, other@),
            !old(self).same_shape(other) ==> r == Err::<(), MatrixError>(
                MatrixError::ShapeMismatch,
            ) && *final(self) == *old(self),
    {
        if self.rows != other.rows || self.cols != other.cols {
            return Err(MatrixError::ShapeMismatch);
        }
        block_and(self.data.as_mut_slice(), other.data.as_slice());
        let ghost combined = *self;
        proof {
            let wpr = self.words_per_row as int;
            assert forall|r: int, c: int| 0 <= r < self.rows && 0 <= c < 64 * wpr implies #[trigger] self.cell(
                r,
                c,
            ) == (old(self).cell(r, c) && other.cell(r, c)) by {
                lemma_index_in_range(self.rows as int, wpr, r, c);
                lemma_bit_and(
                    old(self).data@[r * wpr + c / 64],
                    other.data@[r * wpr + c / 64],
                    (c % 64) as u64,
                );
            }
        }
        self.clear_unused_bits();
        proof {
            assert forall|r: int, c: int|
                0 <= r < self.rows && 0 <= c < 64 * self.words_per_row implies #[trigger] self.cell(r, c)
                    == (old(self).cell(r, c) && other.cell(r, c) && c < self.cols) by {
                assert(combined.cell(r, c) == (old(self).cell(r, c) && other.cell(r, c)));
            }
            assert(self@ =~~= and_cells(old(self)@, other@));
        }
        Ok(())
    }

    /// Replaces this matrix, in place, by its cell by cell OR with `other`.
    pub fn bitor_assign(&mut self, other: &BitMatrix) -> (r: Result<(), MatrixError>)
        requires
            old(self).wf(),
            other.wf(),
        ensures
            final(self).wf(),
            final(self).row_count() == old(self).row_count(),
            final(self).col_count() == old(self).col_count(),
            old(self).same_shape(other) ==> r == Ok::<(), MatrixError>(()) && final(self)@
                == or_cells(old(self)@, other@),
            !old(self).same_shape(other) ==> r == Err::<(), MatrixError>(
                MatrixError::ShapeMismatch,
            ) && *final(self) == *old(self),
    {
        if self.rows != other.rows || self.cols != other.cols {
            return Err(MatrixError::ShapeMismatch);
        }
        block_or(self.data.as_mut_slice(), other.data.as_slice());
        let ghost combined = *self;
        proof {
            let wpr = self.words_per_row as int;
            assert forall|r: int, c: int| 0 <= r < self.rows && 0 <= c < 64 * wpr implies #[trigger] self.cell(
                r,
                c,
            ) == (old(self).cell(r, c) || other.cell(r, c)) by {
                lemma_index_in_range(self.rows as int, wpr, r, c);
                lemma_bit_or(
                    old(self).data@[r * wpr + c / 64],
                    other.data@[r * wpr + c / 64],
                    (c % 64) as u64,
                );
            }
        }
        self.clear_unused_bits();
        proof {
            assert forall|r: int, c: int|
                0 <= r < self.rows && 0 <= c < 64 * self.words_per_row implies #[trigger] self.cell(r, c)
                    == ((old(self).cell(r, c) || other.cell(r, c)) && c < self.cols) by {
                assert(combined.cell(r, c) == (old(self).cell(r, c) || other.cell(r, c)));
            }
            assert(self@ =~~= or_cells(old(self)@, other@));
        }
        Ok(())
    }

    /// Replaces this matrix, in place, by its cell by cell XOR with `other`.
    pub fn bitxor_assign(&mut self, other: &BitMatrix) -> (r: Result<(), MatrixError>)
        requires
            old(self).wf(),
            other.wf(),
        ensures
            final(self).wf(),
            final(self).row_count() == old(self).row_count(),
            final(self).col_count() == old(self).col_count(),
            old(self).same_shape(other) ==> r == Ok::<(), MatrixError>(()) && final(self)@
                == xor_cells(old(self)@, other@),
            !old(self).same_shape(other) ==> r == Err::<(), MatrixError>(
                MatrixError::ShapeMismatch,
            ) && *final(self) == *old(self),
    {
        if self.rows != other.rows || self.cols != other.cols {
            return Err(MatrixError::ShapeMismatch);
        }
        block_xor(self.data.as_mut_slice(), other.data.as_slice());
        let ghost combined = *self;
        proof {
            let wpr = self.words_per_row as int;
            assert forall|r: int, c: int| 0 <= r < self.rows && 0 <= c < 64 * wpr implies #[trigger] self.cell(
                r,
                c,
            ) == (old(self).cell(r, c) != other.cell(r, c)) by {
                lemma_index_in_range(self.rows as int, wpr, r, c);
                lemma_bit_xor(
                    old(self).data@[r * wpr + c / 64],
                    other.data@[r * wpr + c / 64],
                    (c % 64) as u64,
                );
            }
        }
        self.clear_unused_bits();
        proof {
            assert forall|r: int, c: int|
                0 <= r < self.rows && 0 <= c < 64 * self.words_per_row implies #[trigger] self.cell(r, c)
                    == ((old(self).cell(r, c) != other.cell(r, c)) && c < self.cols) by {
                assert(combined.cell(r, c) == (old(self).cell(r, c) != other.cell(r, c)));
            }
            assert(self@ =~~= xor_cells(old(self)@, other@));
        }
        Ok(())
    }

    /// A copy of this matrix with a buffer of its own.
    fn duplicate(&self) -> (m: BitMatrix)
        ensures
            m.rows == self.rows,
            m.cols == self.cols,
            m.words_per_row == self.words_per_row,
            m.data@ == self.data@,
            self.wf() ==> m.wf() && m@ == self@,
    {
        let mut data: Vec<u64> = Vec::with_capacity(self.data.len());
        let mut i: usize = 0;
        while i < self.data.len()
            invariant
                i <= self.data@.len(),
                data@ == self.data@.subrange(0, i as int),
            decreases self.data@.len() - i,
        {
            data.push(self.data[i]);
            i = i + 1;
            assert(data@ =~= self.data@.subrange(0, i as int));
        }
        assert(data@ =~= self.data@);
        let m = BitMatrix { rows: self.rows, cols: self.cols, words_per_row: self.words_per_row, data };
        assert forall|r: int, c: int| #[trigger] m.cell(r, c) == self.cell(r, c) by {}
        assert(m@ =~~= self@);
        m
    }

    /// The cell by cell AND of this matrix and `other`, as a new matrix; neither
    /// operand changes.
    pub fn bitand(&self, other: &BitMatrix) -> (r: Result<BitMatrix, MatrixError>)
        requires
            self.wf(),
            other.wf(),
        ensures
            self.same_shape(other) <==> r is Ok,
            !self.same_shape(other) ==> r == Err::<BitMatrix, MatrixError>(
                MatrixError::ShapeMismatch,
            ),
            r matches Ok(m) ==> m.wf() && m.same_shape(self) && m@ == and_cells(self@, other@),
    {
        let mut out = self.duplicate();
        match out.bitand_assign(other) {
            Ok(()) => Ok(out),
            Err(e) => Err(e),
        }
    }

    /// The cell by cell OR of this matrix and `other`, as a new matrix; neither
    /// operand changes.
    pub fn bitor(&self, other: &BitMatrix) -> (r: Result<BitMatrix, MatrixError>)
        requires
            self.wf(),
            other.wf(),
        ensures
            self.same_shape(other) <==> r is Ok,
            !self.same_shape(other) ==> r == Err::<BitMatrix, MatrixError>(
                MatrixError::ShapeMismatch,
            ),
            r matches Ok(m) ==> m.wf() && m.same_shape(self) && m@ == or_cells(self@, other@),
    {
        let mut out = self.duplicate();
        match out.bitor_assign(other) {
            Ok(()) => Ok(out),
            Err(e) => Err(e),
        }
    }

    /// The cell by cell XOR of this matrix and `other`, as a new matrix; neither
    /// operand changes.
    pub fn bitxor(&self, other: &BitMatrix) -> (r: Result<BitMatrix, MatrixError>)
        requires
            self.wf(),
            other.wf(),
        ensures
            self.same_shape(other) <==> r is Ok,
            !self.same_shape(other) ==> r == Err::<BitMatrix, MatrixError>(
                MatrixError::ShapeMismatch,
            ),
            r matches Ok(m) ==> m.wf() && m.same_shape(self) && m@ == xor_cells(self@, other@),
    {
        let mut out = self.duplicate();
        match out.bitxor_assign(other) {
            Ok(()) => Ok(out),
            Err(e) => Err(e),
        }
    }

    /// Clears the bits past the last column in the last word of `row`.
    fn mask_row(&mut self, row: usize)
        requires
            old(self).shape_ok(),
            row < old(self).rows,
        ensures
            final(self).rows == old(self).rows,
            final(self).cols == old(self).cols,
            final(self).words_per_row == old(self).words_per_row,
            final(self).shape_ok(),
            forall|r: int, c: int|
                0 <= r < old(self).rows && 0 <= c < 64 * old(self).words_per_row ==> #[trigger] final(self).cell(r, c) == if r == row {
                    old(self).cell(r, c) && c < old(self).cols
                } else {
                    old(self).cell(r, c)
                },
    {
        if self.cols % 64 == 0 {
            return;
        }
        let mask = self.last_word_mask();
        let ghost rem = (self.cols % 64) as u64;
        let ghost wpr = self.words_per_row as int;
        assert(wpr >= 1 && self.cols == 64 * (wpr - 1) + rem);
        proof {
            lemma_index_in_range(self.rows as int, wpr, row as int, 64 * wpr - 1);
        }
        let idx: usize = row * self.words_per_row + (self.words_per_row - 1);
        let w = self.data[idx];
        self.data[idx] = w & mask;
        proof {
            assert forall|r2: int, c: int|
                0 <= r2 < self.rows && 0 <= c < 64 * wpr implies #[trigger] self.cell(r2, c) == if r2
                    == row {
                    old(self).cell(r2, c) && c < self.cols
                } else {
                    old(self).cell(r2, c)
                } by {
                lemma_index_in_range(self.rows as int, wpr, r2, c);
                if r2 * wpr + c / 64 == idx {
                    lemma_index_unique(wpr, r2, c, row as int, 64 * wpr - 1);
                    lemma_bit_low_mask(w, rem, (c % 64) as u64);
                    assert(c == 64 * (wpr - 1) + c % 64);
                } else if r2 == row {
                    assert(c / 64 < wpr - 1);
                }
            }
        }
    }

    /// Replaces row `dst_row` by its cell by cell AND with row `src_row`; the two
    /// may be the same row.
    pub fn row_and_assign(&mut self, dst_row: usize, src_row: usize) -> (r: Result<(), MatrixError>)
        requires
            old(self).wf(),
        ensures
            final(self).wf(),
            final(self).row_count() == old(self).row_count(),
            final(self).col_count() == old(self).col_count(),
            dst_row < old(self).row_count() && src_row < old(self).row_count() ==> r == Ok::<
                (),
                MatrixError,
            >(()) && final(self)@ == old(self)@.update(
                dst_row as int,
                and_row(old(self)@[dst_row as int], old(self)@[src_row as int]),
            ),
            !(dst_row < old(self).row_count() && src_row < old(self).row_count()) ==> r == Err::<
                (),
                MatrixError,
            >(MatrixError::IndexOutOfBounds) && *final(self) == *old(self),
    {
        if dst_row >= self.rows || src_row >= self.rows {
            return Err(MatrixError::IndexOutOfBounds);
        }
        let w = self.words_per_row;
        proof {
            lemma_row_in_range(self.rows as int, w as int, dst_row as int);
            lemma_row_in_range(self.rows as int, w as int, src_row as int);
        }
        let dst_start: usize = dst_row * w;
        let src_start: usize = src_row * w;
        let mut i: usize = 0;
        while i < w
            invariant
                self.rows == old(self).rows,
                self.cols == old(self).cols,
                self.words_per_row == w,
                w == old(self).words_per_row,
                self.data@.len() == old(self).data@.len(),
                dst_start == dst_row * w,
                src_start == src_row * w,
                dst_start + w <= self.data@.len(),
                src_start + w <= self.data@.len(),
                self.data@.len() <= usize::MAX,
                dst_row < self.rows,
                src_row < self.rows,
                i <= w,
                forall|k: int|
                    0 <= k < self.data@.len() ==> #[trigger] self.data@[k] == if dst_start <= k
                        < dst_start + i {
                        old(self).data@[k] & old(self).data@[k - dst_start + src_start]
                    } else {
                        old(self).data@[k]
                    },
            decreases w - i,
        {
            let a = self.data[dst_start + i];
            let b = self.data[src_start + i];
            proof {
                if src_row != dst_row {
                    lemma_rows_disjoint(w as int, src_row as int, dst_row as int, i as int);
                }
            }
            self.data[dst_start + i] = a & b;
            i = i + 1;
        }
        let ghost combined = *self;
        proof {
            let wpr = w as int;
            assert forall|r2: int, c: int| 0 <= r2 < self.rows && 0 <= c < 64 * wpr implies #[trigger] combined.cell(
                r2,
                c,
            ) == if r2 == dst_row {
                old(self).cell(r2, c) && old(self).cell(src_row as int, c)
            } else {
                old(self).cell(r2, c)
            } by {
                lemma_index_in_range(self.rows as int, wpr, r2, c);
                if r2 == dst_row {
                    lemma_index_in_range(self.rows as int, wpr, src_row as int, c);
                    lemma_bit_and(
                        old(self).data@[r2 * wpr + c / 64],
                        old(self).data@[src_row * wpr + c / 64],
                        (c % 64) as u64,
                    );
                } else {
                    lemma_rows_disjoint(wpr, r2, dst_row as int, c / 64);
                }
            }
        }
        self.mask_row(dst_row);
        proof {
            assert forall|r2: int, c: int|
                0 <= r2 < self.rows && 0 <= c < 64 * w implies #[trigger] self.cell(r2, c) == if r2
                    == dst_row {
                    old(self).cell(r2, c) && old(self).cell(src_row as int, c) && c < self.cols
                } else {
                    old(self).cell(r2, c)
                } by {
                assert(combined.cell(r2, c) == if r2 == dst_row {
                    old(self).cell(r2, c) && old(self).cell(src_row as int, c)
                } else {
                    old(self).cell(r2, c)
                });
            }
            assert(self@ =~~= old(self)@.update(
                dst_row as int,
                and_row(old(self)@[dst_row as int], old(self)@[src_row as int]),
            ));
        }
        Ok(())
    }

    /// Replaces row `dst_row` by its cell by cell OR with row `src_row`; the two
    /// may be the same row.
    pub fn row_or_assign(&mut self, dst_row: usize, src_row: usize) -> (r: Result<(), MatrixError>)
        requires
            old(self).wf(),
        ensures
            final(self).wf(),
            final(self).row_count() == old(self).row_count(),
            final(self).col_count() == old(self).col_count(),
            dst_row < old(self).row_count() && src_row < old(self).row_count() ==> r == Ok::<
                (),
                MatrixError,
            >(()) && final(self)@ == old(self)@.update(
                dst_row as int,
                or_row(old(self)@[dst_row as int], old(self)@[src_row as int]),
            ),
            !(dst_row < old(self).row_count() && src_row < old(self).row_count()) ==> r == Err::<
                (),
                MatrixError,
            >(MatrixError::IndexOutOfBounds) && *final(self) == *old(self),
    {
        if dst_row >= self.rows || src_row >= self.rows {
            return Err(MatrixError::IndexOutOfBounds);
        }
        let w = self.words_per_row;
        proof {
            lemma_row_in_range(self.rows as int, w as int, dst_row as int);
            lemma_row_in_range(self.rows as int, w as int, src_row as int);
        }
        let dst_start: usize = dst_row * w;
        let src_start: usize = src_row * w;
        let mut i: usize = 0;
        while i < w
            invariant
                self.rows == old(self).rows,
                self.cols == old(self).cols,
                self.words_per_row == w,
                w == old(self).words_per_row,
                self.data@.len() == old(self).data@.len(),
                dst_start == dst_row * w,
                src_start == src_row * w,
                dst_start + w <= self.data@.len(),
                src_start + w <= self.data@.len(),
                self.data@.len() <= usize::MAX,
                dst_row < self.rows,
                src_row < self.rows,
                i <= w,
                forall|k: int|
                    0 <= k < self.data@.len() ==> #[trigger] self.data@[k] == if dst_start <= k
                        < dst_start + i {
                        old(self).data@[k] | old(self).data@[k - dst_start + src_start]
                    } else {
                        old(self).data@[k]
                    },
            decreases w - i,
        {
            let a = self.data[dst_start + i];
            let b = self.data[src_start + i];
            proof {
                if src_row != dst_row {
                    lemma_rows_disjoint(w as int, src_row as int, dst_row as int, i as int);
                }
            }
            self.data[dst_start + i] = a | b;
            i = i + 1;
        }
        let ghost combined = *self;
        proof {
            let wpr = w as int;
            assert forall|r2: int, c: int| 0 <= r2 < self.rows && 0 <= c < 64 * wpr implies #[trigger] combined.cell(
                r2,
                c,
            ) == if r2 == dst_row {
                old(self).cell(r2, c) || old(self).cell(src_row as int, c)
            } else {
                old(self).cell(r2, c)
            } by {
                lemma_index_in_range(self.rows as int, wpr, r2, c);
                if r2 == dst_row {
                    lemma_index_in_range(self.rows as int, wpr, src_row as int, c);
                    lemma_bit_or(
                        old(self).data@[r2 * wpr + c / 64],
                        old(self).data@[src_row * wpr + c / 64],
                        (c % 64) as u64,
                    );
                } else {
                    lemma_rows_disjoint(wpr, r2, dst_row as int, c / 64);
                }
            }
        }
        self.mask_row(dst_row);
        proof {
            assert forall|r2: int, c: int|
                0 <= r2 < self.rows && 0 <= c < 64 * w implies #[trigger] self.cell(r2, c) == if r2
                    == dst_row {
                    (old(self).cell(r2, c) || old(self).cell(src_row as int, c)) && c < self.cols
                } else {
                    old(self).cell(r2, c)
                } by {
                assert(combined.cell(r2, c) == if r2 == dst_row {
                    old(self).cell(r2, c) || old(self).cell(src_row as int, c)
                } else {
                    old(self).cell(r2, c)
                });
            }
            assert(self@ =~~= old(self)@.update(
                dst_row as int,
                or_row(old(self)@[dst_row as int], old(self)@[src_row as int]),
            ));
        }
        Ok(())
    }

    /// Replaces row `dst_row` by its cell by cell XOR with row `src_row`; the two
    /// may be the same row.
    pub fn row_xor_assign(&mut self, dst_row: usize, src_row: usize) -> (r: Result<(), MatrixError>)
        requires
            old(self).wf(),
        ensures
            final(self).wf(),
            final(self).row_count() == old(self).row_count(),
            final(self).col_count() == old(self).col_count(),
            dst_row < old(self).row_count() && src_row < old(self).row_count() ==> r == Ok::<
                (),
                MatrixError,
            >(()) && final(self)@ == old(self)@.update(
                dst_row as int,
                xor_row(old(self)@[dst_row as int], old(self)@[src_row as int]),
            ),
            !(dst_row < old(self).row_count() && src_row < old(self).row_count()) ==> r == Err::<
                (),
                MatrixError,
            >(MatrixError::IndexOutOfBounds) && *final(self) == *old(self),
    {
        if dst_row >= self.rows || src_row >= self.rows {
            return Err(MatrixError::IndexOutOfBounds);
        }
        let w = self.words_per_row;
        proof {
            lemma_row_in_range(self.rows as int, w as int, dst_row as int);
            lemma_row_in_range(self.rows as int, w as int, src_row as int);
        }
        let dst_start: usize = dst_row * w;
        let src_start: usize = src_row * w;
        let mut i: usize = 0;
        while i < w
            invariant
                self.rows == old(self).rows,
                self.cols == old(self).cols,
                self.words_per_row == w,
                w == old(self).words_per_row,
                self.data@.len() == old(self).data@.len(),
                dst_start == dst_row * w,
                src_start == src_row * w,
                dst_start + w <= self.data@.len(),
                src_start + w <= self.data@.len(),
                self.data@.len() <= usize::MAX,
                dst_row < self.rows,
                src_row < self.rows,
                i <= w,
                forall|k: int|
                    0 <= k < self.data@.len() ==> #[trigger] self.data@[k] == if dst_start <= k
                        < dst_start + i {
                        old(self).data@[k] ^ old(self).data@[k - dst_start + src_start]
                    } else {
                        old(self).data@[k]
                    },
            decreases w - i,
        {
            let a = self.data[dst_start + i];
            let b = self.data[src_start + i];
            proof {
                if src_row != dst_row {
                    lemma_rows_disjoint(w as int, src_row as int, dst_row as int, i as int);
                }
            }
            self.data[dst_start + i] = a ^ b;
            i = i + 1;
        }
        let ghost combined = *self;
        proof {
            let wpr = w as int;
            assert forall|r2: int, c: int| 0 <= r2 < self.rows && 0 <= c < 64 * wpr implies #[trigger] combined.cell(
                r2,
                c,
            ) == if r2 == dst_row {
                old(self).cell(r2, c) != old(self).cell(src_row as int, c)
            } else {
                old(self).cell(r2, c)
            } by {
                lemma_index_in_range(self.rows as int, wpr, r2, c);
                if r2 == dst_row {
                    lemma_index_in_range(self.rows as int, wpr, src_row as int, c);
                    lemma_bit_xor(
                        old(self).data@[r2 * wpr + c / 64],
                        old(self).data@[src_row * wpr + c / 64],
                        (c % 64) as u64,
                    );
                } else {
                    lemma_rows_disjoint(wpr, r2, dst_row as int, c / 64);
                }
            }
        }
        self.mask_row(dst_row);
        proof {
            assert forall|r2: int, c: int|
                0 <= r2 < self.rows && 0 <= c < 64 * w implies #[trigger] self.cell(r2, c) == if r2
                    == dst_row {
                    (old(self).cell(r2, c) != old(self).cell(src_row as int, c)) && c < self.cols
                } else {
                    old(self).cell(r2, c)
                } by {
                assert(combined.cell(r2, c) == if r2 == dst_row {
                    old(self).cell(r2, c) != old(self).cell(src_row as int, c)
                } else {
                    old(self).cell(r2, c)
                });
            }
            assert(self@ =~~= old(self)@.update(
                dst_row as int,
                xor_row(old(self)@[dst_row as int], old(self)@[src_row as int]),
            ));
        }
        Ok(())
    }

    /// Replaces column `dst_col` by its cell by cell AND with column `src_col`, one
    /// row at a time; the two may be the same column.
    pub fn col_and_assign(&mut self, dst_col: usize, src_col: usize) -> (r: Result<(), MatrixError>)
        requires
            old(self).wf(),
        ensures
            final(self).wf(),
            final(self).row_count() == old(self).row_count(),
            final(self).col_count() == old(self).col_count(),
            dst_col < old(self).col_count() && src_col < old(self).col_count() ==> r == Ok::<
                (),
                MatrixError,
            >(()) && final(self)@ == col_and(old(self)@, dst_col as int, src_col as int),
            !(dst_col < old(self).col_count() && src_col < old(self).col_count()) ==> r == Err::<
                (),
                MatrixError,
            >(MatrixError::IndexOutOfBounds) && *final(self) == *old(self),
    {
        if dst_col >= self.cols || src_col >= self.cols {
            return Err(MatrixError::IndexOutOfBounds);
        }
        let ghost target = col_and(old(self)@, dst_col as int, src_col as int);
        let mut r: usize = 0;
        while r < self.rows
            invariant
                self.wf(),
                self.rows == old(self).rows,
                self.cols == old(self).cols,
                dst_col < self.cols,
                src_col < self.cols,
                r <= self.rows,
                target == col_and(old(self)@, dst_col as int, src_col as int),
                forall|r2: int| 0 <= r2 < self.rows ==> #[trigger] self@[r2] == if r2 < r {
                    target[r2]
                } else {
                    old(self)@[r2]
                },
            decreases self.rows - r,
        {
            let ghost before = self@;
            if !self.get_bit(r, src_col) {
                self.put_bit(r, dst_col, false);
            }
            proof {
                assert(self@[r as int] =~= target[r as int]);
                assert forall|r2: int| 0 <= r2 < self.rows implies #[trigger] self@[r2] == if r2 < r + 1 {
                    target[r2]
                } else {
                    old(self)@[r2]
                } by {
                    if r2 != r {
                        assert(self@[r2] == before[r2]);
                    }
                }
            }
            r = r + 1;
        }
        assert(self@ =~~= target);
        Ok(())
    }

    /// Replaces column `dst_col` by its cell by cell OR with column `src_col`, one
    /// row at a time; the two may be the same column.
    pub fn col_or_assign(&mut self, dst_col: usize, src_col: usize) -> (r: Result<(), MatrixError>)
        requires
            old(self).wf(),
        ensures
            final(self).wf(),
            final(self).row_count() == old(self).row_count(),
            final(self).col_count() == old(self).col_count(),
            dst_col < old(self).col_count() && src_col < old(self).col_count() ==> r == Ok::<
                (),
                MatrixError,
            >(()) && final(self)@ == col_or(old(self)@, dst_col as int, src_col as int),
            !(dst_col < old(self).col_count() && src_col < old(self).col_count()) ==> r == Err::<
                (),
                MatrixError,
            >(MatrixError::IndexOutOfBounds) && *final(self) == *old(self),
    {
        if dst_col >= self.cols || src_col >= self.cols {
            return Err(MatrixError::IndexOutOfBounds);
        }
        let ghost target = col_or(old(self)@, dst_col as int, src_col as int);
        let mut r: usize = 0;
        while r < self.rows
            invariant
                self.wf(),
                self.rows == old(self).rows,
                self.cols == old(self).cols,
                dst_col < self.cols,
                src_col < self.cols,
                r <= self.rows,
                target == col_or(old(self)@, dst_col as int, src_col as int),
                forall|r2: int| 0 <= r2 < self.rows ==> #[trigger] self@[r2] == if r2 < r {
                    target[r2]
                } else {
                    old(self)@[r2]
                },
            decreases self.rows - r,
        {
            let ghost before = self@;
            if self.get_bit(r, src_col) {
                self.put_bit(r, dst_col, true);
            }
            proof {
                assert(self@[r as int] =~= target[r as int]);
                assert forall|r2: int| 0 <= r2 < self.rows implies #[trigger] self@[r2] == if r2 < r + 1 {
                    target[r2]
                } else {
                    old(self)@[r2]
                } by {
                    if r2 != r {
                        assert(self@[r2] == before[r2]);
                    }
                }
            }
            r = r + 1;
        }
        assert(self@ =~~= target);
        Ok(())
    }

    /// Replaces column `dst_col` by its cell by cell XOR with column `src_col`, one
    /// row at a time; the two may be the same column.
    pub fn col_xor_assign(&mut self, dst_col: usize, src_col: usize) -> (r: Result<(), MatrixError>)
        requires
            old(self).wf(),
        ensures
            final(self).wf(),
            final(self).row_count() == old(self).row_count(),
            final(self).col_count() == old(self).col_count(),
            dst_col < old(self).col_count() && src_col < old(self).col_count() ==> r == Ok::<
                (),
                MatrixError,
            >(()) && final(self)@ == col_xor(old(self)@, dst_col as int, src_col as int),
            !(dst_col < old(self).col_count() && src_col < old(self).col_count()) ==> r == Err::<
                (),
                MatrixError,
            >(MatrixError::IndexOutOfBounds) && *final(self) == *old(self),
    {
        if dst_col >= self.cols || src_col >= self.cols {
            return Err(MatrixError::IndexOutOfBounds);
        }
        let ghost target = col_xor(old(self)@, dst_col as int, src_col as int);
        let mut r: usize = 0;
        while r < self.rows
            invariant
                self.wf(),
                self.rows == old(self).rows,
                self.cols == old(self).cols,
                dst_col < self.cols,
                src_col < self.cols,
                r <= self.rows,
                target == col_xor(old(self)@, dst_col as int, src_col as int),
                forall|r2: int| 0 <= r2 < self.rows ==> #[trigger] self@[r2] == if r2 < r {
                    target[r2]
                } else {
                    old(self)@[r2]
                },
            decreases self.rows - r,
        {
            let ghost before = self@;
            if self.get_bit(r, src_col) {
                let cur = self.get_bit(r, dst_col);
                self.put_bit(r, dst_col, !cur);
            }
            proof {
                assert(self@[r as int] =~= target[r as int]);
                assert forall|r2: int| 0 <= r2 < self.rows implies #[trigger] self@[r2] == if r2 < r + 1 {
                    target[r2]
                } else {
                    old(self)@[r2]
                } by {
                    if r2 != r {
                        assert(self@[r2] == before[r2]);
                    }
                }
            }
            r = r + 1;
        }
        assert(self@ =~~= target);
        Ok(())
    }

    /// The number of true cells.
    pub fn count_ones(&self) -> (r: usize)
        requires
            self.wf(),
        ensures
            r == count_cells(self@),
    {
        let mut sum: usize = 0;
        let mask = self.last_word_mask();
        let ghost wpr = self.words_per_row as int;
        let ghost rem = (self.cols % 64) as u64;
        let mut r: usize = 0;
        while r < self.rows
            invariant
                self.wf(),
                wpr == self.words_per_row,
                rem == self.cols % 64,
                mask == low_mask(rem),
                r <= self.rows,
                self.data@.len() <= usize::MAX,
                sum == count_cells(self@.subrange(0, r as int)),
            decreases self.rows - r,
        {
            proof {
                lemma_row_in_range(self.rows as int, wpr, r as int);
                lemma_count_cells_le(self@.subrange(0, r as int), self.cols as nat);
                assert(r * self.cols + self.cols <= self.rows * self.cols) by (nonlinear_arith)
                    requires
                        r < self.rows,
                ;
            }
            let start: usize = r * self.words_per_row;
            let ghost row = self@[r as int];
            let ghost base = count_cells(self@.subrange(0, r as int));
            let mut w: usize = 0;
            while w < self.words_per_row
                invariant
                    self.wf(),
                    wpr == self.words_per_row,
                    rem == self.cols % 64,
                    mask == low_mask(rem),
                    r < self.rows,
                    start == r * wpr,
                    start + wpr <= self.data@.len(),
                    self.data@.len() <= usize::MAX,
                    row == self@[r as int],
                    base == count_cells(self@.subrange(0, r as int)),
                    base <= r * self.cols,
                    r * self.cols + self.cols <= usize::MAX,
                    w <= wpr,
                    64 * w <= self.cols || w == wpr,
                    sum == base + count_true(row.subrange(0, if 64 * w <= self.cols { 64 * w } else { self.cols as int })),
                decreases wpr - w,
            {
                let mut v = self.data[start + w];
                let ghost raw = v;
                if w + 1 == self.words_per_row {
                    v = v & mask;
                }
                let ghost lo = 64 * w as int;
                let ghost hi = if lo + 64 <= self.cols { lo + 64 } else { self.cols as int };
                proof {
                    assert(lo <= self.cols);
                    assert forall|j: u64| j < hi - lo implies #[trigger] bit_of(v, j) == row[lo + j] by {
                        assert((lo + j) / 64 == w && (lo + j) % 64 == j);
                        if w + 1 == wpr {
                            lemma_bit_low_mask(raw, rem, j);
                        }
                    }
                    assert forall|j: u64| hi - lo <= j < 64 implies !#[trigger] bit_of(v, j) by {
                        assert(w + 1 == wpr);
                        assert(lo + j >= self.cols);
                        lemma_bit_low_mask(raw, rem, j);
                    }
                    lemma_count_word(row, lo, (hi - lo) as nat, v);
                    lemma_count_true_le(row.subrange(0, hi));
                }
                sum = sum + word_ones(v) as usize;
                w = w + 1;
            }
            proof {
                assert(row.subrange(0, self.cols as int) =~= row);
                assert(self@.subrange(0, r + 1).drop_last() =~= self@.subrange(0, r as int));
            }
            r = r + 1;
        }
        assert(self@.subrange(0, self.rows as int) =~= self@);
        sum
    }

    /// Column `col` as a vector, top to bottom.
    pub fn column(&self, col: usize) -> (r: Result<Vec<bool>, MatrixError>)
        requires
            self.wf(),
        ensures
            col < self.col_count() ==> (r matches Ok(v) && v@ == column_of(self@, col as int)),
            col >= self.col_count() ==> r == Err::<Vec<bool>, MatrixError>(
                MatrixError::IndexOutOfBounds,
            ),
    {
        if col >= self.cols {
            return Err(MatrixError::IndexOutOfBounds);
        }
        let mut v: Vec<bool> = Vec::with_capacity(self.rows);
        let mut r: usize = 0;
        while r < self.rows
            invariant
                self.wf(),
                col < self.cols,
                r <= self.rows,
                v@ == column_of(self@, col as int).subrange(0, r as int),
            decreases self.rows - r,
        {
            let b = self.get_bit(r, col);
            v.push(b);
            r = r + 1;
            assert(v@ =~= column_of(self@, col as int).subrange(0, r as int));
        }
        assert(v@ =~= column_of(self@, col as int));
        Ok(v)
    }

    /// Overwrites column `col` with `src`, one entry per row, top to bottom.
    pub fn set_column(&mut self, col: usize, src: &[bool]) -> (r: Result<(), MatrixError>)
        requires
            old(self).wf(),
        ensures
            final(self).wf(),
            final(self).row_count() == old(self).row_count(),
            final(self).col_count() == old(self).col_count(),
            col >= old(self).col_count() ==> r == Err::<(), MatrixError>(
                MatrixError::IndexOutOfBounds,
            ) && *final(self) == *old(self),
            col < old(self).col_count() && src@.len() != old(self).row_count() ==> r == Err::<
                (),
                MatrixError,
            >(MatrixError::ShapeMismatch) && *final(self) == *old(self),
            col < old(self).col_count() && src@.len() == old(self).row_count() ==> r == Ok::<
                (),
                MatrixError,
            >(()) && final(self)@ == with_column(old(self)@, col as int, src@),
    {
        if col >= self.cols {
            return Err(MatrixError::IndexOutOfBounds);
        }
        if src.len() != self.rows {
            return Err(MatrixError::ShapeMismatch);
        }
        let ghost target = with_column(old(self)@, col as int, src@);
        let mut r: usize = 0;
        while r < self.rows
            invariant
                self.wf(),
                self.rows == old(self).rows,
                self.cols == old(self).cols,
                col < self.cols,
                src@.len() == self.rows,
                r <= self.rows,
                target == with_column(old(self)@, col as int, src@),
                forall|r2: int| 0 <= r2 < self.rows ==> #[trigger] self@[r2] == if r2 < r {
                    target[r2]
                } else {
                    old(self)@[r2]
                },
            decreases self.rows - r,
        {
            let ghost before = self@;
            self.put_bit(r, col, src[r]);
            proof {
                assert forall|r2: int| 0 <= r2 < self.rows implies #[trigger] self@[r2] == if r2 < r + 1 {
                    target[r2]
                } else {
                    old(self)@[r2]
                } by {
                    if r2 != r {
                        assert(self@[r2] == before[r2]);
                    }
                }
            }
            r = r + 1;
        }
        assert(self@ =~~= target);
        Ok(())
    }

    /// The cells as a vector of rows, each a vector of cells left to right.
    pub fn to_vec(&self) -> (r: Vec<Vec<bool>>)
        requires
            self.wf(),
        ensures
            r.deep_view() == self@,
    {
        let mut out: Vec<Vec<bool>> = Vec::with_capacity(self.rows);
        let mut r: usize = 0;
        while r < self.rows
            invariant
                self.wf(),
                r <= self.rows,
                out@.len() == r,
                forall|k: int| 0 <= k < r ==> (#[trigger] out@[k])@ == self@[k],
            decreases self.rows - r,
        {
            let mut row: Vec<bool> = Vec::with_capacity(self.cols);
            let mut c: usize = 0;
            while c < self.cols
                invariant
                    self.wf(),
                    r < self.rows,
                    c <= self.cols,
                    row@ == self@[r as int].subrange(0, c as int),
                decreases self.cols - c,
            {
                let b = self.get_bit(r, c);
                row.push(b);
                c = c + 1;
                assert(row@ =~= self@[r as int].subrange(0, c as int));
            }
            assert(row@ =~= self@[r as int]);
            out.push(row);
            r = r + 1;
        }
        assert(out.deep_view() =~~= self@);
        out
    }

    /// Consumes the matrix and returns its cells as a vector of rows.
    pub fn into_vec(self) -> (r: Vec<Vec<bool>>)
        requires
            self.wf(),
        ensures
            r.deep_view() == self@,
    {
        self.to_vec()
    }

    /// Builds a matrix from a vector of rows of equal length; with no rows the
    /// matrix has no columns either.
    pub fn from_vec(v: Vec<Vec<bool>>) -> (r: Result<BitMatrix, MatrixError>)
        requires
            v@.len() > 0 ==> v@.len() * v@[0]@.len() <= usize::MAX,
        ensures
            is_rectangular(v.deep_view()) <==> r is Ok,
            !is_rectangular(v.deep_view()) ==> r == Err::<BitMatrix, MatrixError>(
                MatrixError::ShapeMismatch,
            ),
            r matches Ok(m) ==> m.wf() && m@ == v.deep_view() && m.row_count() == v@.len()
                && m.col_count() == width_of(v.deep_view()),
    {
        let rows = v.len();
        let cols: usize = if rows == 0 {
            0
        } else {
            v[0].len()
        };
        let mut i: usize = 0;
        while i < rows
            invariant
                rows == v@.len(),
                rows > 0 ==> cols == v@[0]@.len(),
                i <= rows,
                forall|k: int| 0 <= k < i ==> (#[trigger] v@[k])@.len() == cols,
            decreases rows - i,
        {
            if v[i].len() != cols {
                proof {
                    assert(v.deep_view()[i as int].len() != v.deep_view()[0].len());
                }
                return Err(MatrixError::ShapeMismatch);
            }
            i = i + 1;
        }
        assert(is_rectangular(v.deep_view()));
        let mut m = BitMatrix::new(rows, cols);
        let mut r: usize = 0;
        while r < rows
            invariant
                m.wf(),
                m.rows == rows,
                m.cols == cols,
                rows == v@.len(),
                r <= rows,
                forall|k: int| 0 <= k < rows ==> (#[trigger] v@[k])@.len() == cols,
                forall|r2: int, c2: int|
                    0 <= r2 < rows && 0 <= c2 < cols ==> #[trigger] m@[r2][c2] == (r2 < r
                        && v@[r2]@[c2]),
            decreases rows - r,
        {
            let mut c: usize = 0;
            while c < cols
                invariant
                    m.wf(),
                    m.rows == rows,
                    m.cols == cols,
                    rows == v@.len(),
                    r < rows,
                    c <= cols,
                    forall|k: int| 0 <= k < rows ==> (#[trigger] v@[k])@.len() == cols,
                    forall|r2: int, c2: int|
                        0 <= r2 < rows && 0 <= c2 < cols ==> #[trigger] m@[r2][c2] == ((r2 < r
                            || (r2 == r && c2 < c)) && v@[r2]@[c2]),
                decreases cols - c,
            {
                if v[r][c] {
                    m.put_bit(r, c, true);
                }
                c = c + 1;
            }
            r = r + 1;
        }
        assert(m@ =~~= v.deep_view());
        Ok(m)
    }

    /// The words that store row `row`: bit `j` of word `i` is cell `64 * i + j`,
    /// and bits past the last column are zero.
    pub fn row_words(&self, row: usize) -> (r: Result<&[u64], MatrixError>)
        requires
            self.wf(),
        ensures
            row >= self.row_count() ==> r == Err::<&[u64], MatrixError>(
                MatrixError::IndexOutOfBounds,
            ),
            row < self.row_count() ==> (r matches Ok(ws) && ws@.len() == words_for(self.col_count())
                && forall|i: int, j: u64|
                0 <= i < ws@.len() && j < 64 ==> #[trigger] bit_of(ws@[i], j) == (64 * i + j
                    < self.col_count() && self@[row as int][64 * i + j])),
    {
        if row >= self.rows {
            return Err(MatrixError::IndexOutOfBounds);
        }
        proof {
            lemma_row_in_range(self.rows as int, self.words_per_row as int, row as int);
        }
        let start: usize = row * self.words_per_row;
        let ws = vstd::slice::slice_subrange(self.data.as_slice(), start, start + self.words_per_row);
        proof {
            let wpr = self.words_per_row as int;
            assert forall|i: int, j: u64| 0 <= i < ws@.len() && j < 64 implies #[trigger] bit_of(
                ws@[i],
                j,
            ) == (64 * i + j < self.col_count() && self@[row as int][64 * i + j]) by {
                let c = 64 * i + j;
                assert(c / 64 == i && c % 64 == j);
                assert(self.cell(row as int, c) == bit_of(ws@[i], j));
            }
        }
        Ok(ws)
    }

    /// The cells of row `row`, left to right, read one at a time.
    pub fn iter_row(&self, row: usize) -> (r: Result<RowIter<'_>, MatrixError>)
        requires
            self.wf(),
        ensures
            row >= self.row_count() ==> r == Err::<RowIter<'_>, MatrixError>(
                MatrixError::IndexOutOfBounds,
            ),
            row < self.row_count() ==> (r matches Ok(it) && it.valid() && it.remaining()
                == self@[row as int]),
    {
        if row >= self.rows {
            return Err(MatrixError::IndexOutOfBounds);
        }
        let it = RowIter { m: self, row, col: 0 };
        assert(it.remaining() =~= self@[row as int]);
        Ok(it)
    }

    /// The cells of column `col`, top to bottom, read one at a time.
    pub fn iter_col(&self, col: usize) -> (r: Result<ColIter<'_>, MatrixError>)
        requires
            self.wf(),
        ensures
            col >= self.col_count() ==> r == Err::<ColIter<'_>, MatrixError>(
                MatrixError::IndexOutOfBounds,
            ),
            col < self.col_count() ==> (r matches Ok(it) && it.valid() && it.remaining()
                == column_of(self@, col as int)),
    {
        if col >= self.cols {
            return Err(MatrixError::IndexOutOfBounds);
        }
        let it = ColIter { m: self, col, row: 0 };
        assert(it.remaining() =~= column_of(self@, col as int));
        Ok(it)
    }
}

/// A cursor over the cells of one row of a matrix, left to right.
pub struct RowIter<'a> {
    m: &'a BitMatrix,
    row: usize,
    col: usize,
}

impl<'a> RowIter<'a> {
    /// The cursor stands on a row of a well-formed matrix.
    pub closed spec fn valid(&self) -> bool {
        self.m.wf() && self.row < self.m.rows && self.col <= self.m.cols
    }

    /// The cells not yet read.
    pub closed spec fn remaining(&self) -> Seq<bool> {
        self.m@[self.row as int].subrange(self.col as int, self.m.cols as int)
    }

    /// The next cell, or `None` once the row is exhausted.
    pub fn next(&mut self) -> (r: Option<bool>)
        requires
            old(self).valid(),
        ensures
            final(self).valid(),
            old(self).remaining().len() == 0 ==> r is None && final(self).remaining() == old(self).remaining(),
            old(self).remaining().len() > 0 ==> r == Some(old(self).remaining()[0]) && final(self).remaining() == old(self).remaining().drop_first(),
    {
        if self.col >= self.m.cols {
            return None;
        }
        let v = self.m.get_bit(self.row, self.col);
        self.col = self.col + 1;
        assert(self.remaining() =~= old(self).remaining().drop_first());
        Some(v)
    }
}

/// A cursor over the cells of one column of a matrix, top to bottom.
pub struct ColIter<'a> {
    m: &'a BitMatrix,
    col: usize,
    row: usize,
}

impl<'a> ColIter<'a> {
    /// The cursor stands on a column of a well-formed matrix.
    pub closed spec fn valid(&self) -> bool {
        self.m.wf() && self.col < self.m.cols && self.row <= self.m.rows
    }

    /// The cells not yet read.
    pub closed spec fn remaining(&self) -> Seq<bool> {
        column_of(self.m@, self.col as int).subrange(self.row as int, self.m.rows as int)
    }

    /// The next cell, or `None` once the column is exhausted.
    pub fn next(&mut self) -> (r: Option<bool>)
        requires
            old(self).valid(),
        ensures
            final(self).valid(),
            old(self).remaining().len() == 0 ==> r is None && final(self).remaining() == old(self).remaining(),
            old(self).remaining().len() > 0 ==> r == Some(old(self).remaining()[0]) && final(self).remaining() == old(self).remaining().drop_first(),
    {
        if self.row >= self.m.rows {
            return None;
        }
        let v = self.m.get_bit(self.row, self.col);
        self.row = self.row + 1;
        assert(self.remaining() =~= old(self).remaining().drop_first());
        Some(v)
    }
}

} // verus!
