use vstd::prelude::*;

use crate::matrix::{
    all_false, and_cells, and_row, is_rectangular, or_cells, or_row, width_of, xor_cells,
    xor_row, BitMatrix,
};

verus! {

/// Each cell of the AND, OR and XOR of two matrices of one shape is the AND, OR
/// and XOR of the two cells at that place.
pub proof fn cellwise_ops(a: &BitMatrix, b: &BitMatrix, r: int, c: int)
    requires
        a.wf(),
        b.wf(),
        a.same_shape(b),
        0 <= r < a.row_count(),
        0 <= c < a.col_count(),
    ensures
        and_cells(a@, b@)[r][c] == (a@[r][c] && b@[r][c]),
        or_cells(a@, b@)[r][c] == (a@[r][c] || b@[r][c]),
        xor_cells(a@, b@)[r][c] == (a@[r][c] != b@[r][c]),
{
}

/// AND and OR of matrices are commutative.
pub proof fn and_or_commutative(a: &BitMatrix, b: &BitMatrix)
    requires
        a.wf(),
        b.wf(),
        a.same_shape(b),
    ensures
        and_cells(a@, b@) == and_cells(b@, a@),
        or_cells(a@, b@) == or_cells(b@, a@),
{
    assert(and_cells(a@, b@) =~~= and_cells(b@, a@));
    assert(or_cells(a@, b@) =~~= or_cells(b@, a@));
}

/// AND and OR of matrices are associative.
pub proof fn and_or_associative(a: &BitMatrix, b: &BitMatrix, c: &BitMatrix)
    requires
        a.wf(),
        b.wf(),
        c.wf(),
        a.same_shape(b),
        a.same_shape(c),
    ensures
        and_cells(and_cells(a@, b@), c@) == and_cells(a@, and_cells(b@, c@)),
        or_cells(or_cells(a@, b@), c@) == or_cells(a@, or_cells(b@, c@)),
{
    assert(and_cells(and_cells(a@, b@), c@) =~~= and_cells(a@, and_cells(b@, c@)));
    assert(or_cells(or_cells(a@, b@), c@) =~~= or_cells(a@, or_cells(b@, c@)));
}

/// A matrix ANDed or ORed with itself is unchanged; XORed with itself it is all
/// false.
pub proof fn self_ops(a: &BitMatrix)
    requires
        a.wf(),
    ensures
        and_cells(a@, a@) == a@,
        or_cells(a@, a@) == a@,
        xor_cells(a@, a@) == all_false(a.row_count(), a.col_count()),
{
    assert(and_cells(a@, a@) =~~= a@);
    assert(or_cells(a@, a@) =~~= a@);
    assert(xor_cells(a@, a@) =~~= all_false(a.row_count(), a.col_count()));
}

/// A row ANDed or ORed with itself is unchanged; XORed with itself it is all
/// false.
pub proof fn self_row_ops(a: &BitMatrix, r: int)
    requires
        a.wf(),
        0 <= r < a.row_count(),
    ensures
        and_row(a@[r], a@[r]) == a@[r],
        or_row(a@[r], a@[r]) == a@[r],
        xor_row(a@[r], a@[r]) == Seq::new(a.col_count(), |c: int| false),
{
    assert(and_row(a@[r], a@[r]) =~= a@[r]);
    assert(or_row(a@[r], a@[r]) =~= a@[r]);
    assert(xor_row(a@[r], a@[r]) =~= Seq::new(a.col_count(), |c: int| false));
}

/// Building a matrix from the rows that `to_vec` gives back yields the same
/// matrix: those rows form a rectangle of the matrix's own shape, small enough to
/// build from, and any well-formed matrix of that shape with those cells stores
/// the very same words. A matrix with no rows but some columns is the exception:
/// its rows carry no width, and the rebuilt matrix has no columns.
pub proof fn round_trip(m: &BitMatrix, n: &BitMatrix)
    requires
        m.wf(),
        m.row_count() > 0 || m.col_count() == 0,
        n.wf(),
        n@ == m@,
        n.row_count() == m@.len(),
        n.col_count() == width_of(m@),
    ensures
        is_rectangular(m@),
        m@.len() == m.row_count(),
        width_of(m@) == m.col_count(),
        m@.len() > 0 ==> m@.len() * m@[0].len() <= usize::MAX,
        n.same_storage(m),
{
    m.lemma_size();
    n.lemma_cells_determine_storage(m);
}

} // verus!
