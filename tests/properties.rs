use bitset_matrix::{block_and, block_or, block_xor, BitMatrix, MatrixError};

fn filled(rows: usize, cols: usize, pick: fn(usize, usize) -> bool) -> BitMatrix {
    let mut m = BitMatrix::new(rows, cols);
    for r in 0..rows {
        for c in 0..cols {
            m.set(r, c, pick(r, c)).unwrap();
        }
    }
    m
}

fn true_cells(v: &[Vec<bool>]) -> usize {
    v.iter().map(|r| r.iter().filter(|b| **b).count()).sum()
}

fn drain_row(m: &BitMatrix, row: usize) -> Vec<bool> {
    let mut it = m.iter_row(row).unwrap();
    let mut out = Vec::new();
    while let Some(b) = it.next() {
        out.push(b);
    }
    out
}

fn drain_col(m: &BitMatrix, col: usize) -> Vec<bool> {
    let mut it = m.iter_col(col).unwrap();
    let mut out = Vec::new();
    while let Some(b) = it.next() {
        out.push(b);
    }
    out
}

#[test]
fn bounds_are_checked() {
    let mut m = BitMatrix::new(3, 70);
    assert_eq!(m.get(3, 0), Err(MatrixError::IndexOutOfBounds));
    assert_eq!(m.get(0, 70), Err(MatrixError::IndexOutOfBounds));
    assert_eq!(m.set(3, 0, true), Err(MatrixError::IndexOutOfBounds));
    assert_eq!(m.set(0, 70, true), Err(MatrixError::IndexOutOfBounds));
    assert_eq!(m.count_ones(), 0);
    assert_eq!(m.get(2, 69), Ok(false));
    assert_eq!(m.set(2, 69, true), Ok(()));
    assert_eq!(m.get(2, 69), Ok(true));
    assert_eq!(m.set(2, 69, false), Ok(()));
    assert_eq!(m.get(2, 69), Ok(false));
}

#[test]
fn empty_matrices_refuse_every_index() {
    let m = BitMatrix::new(0, 0);
    assert_eq!(m.rows(), 0);
    assert_eq!(m.cols(), 0);
    assert_eq!(m.count_ones(), 0);
    assert_eq!(m.get(0, 0), Err(MatrixError::IndexOutOfBounds));
    let n = BitMatrix::new(2, 0);
    assert_eq!(n.get(1, 0), Err(MatrixError::IndexOutOfBounds));
    assert_eq!(n.to_vec(), vec![Vec::<bool>::new(), Vec::new()]);
    assert!(n.iter_row(1).is_ok());
    assert!(n.iter_col(0).is_err());
}

#[test]
fn count_matches_cells_after_mutations() {
    let mut a = filled(5, 130, |r, c| (r * 7 + c) % 3 == 0);
    let b = filled(5, 130, |r, c| (r + c) % 2 == 0);
    a.bitor_assign(&b).unwrap();
    assert_eq!(a.count_ones(), true_cells(&a.to_vec()));
    a.bitxor_assign(&b).unwrap();
    assert_eq!(a.count_ones(), true_cells(&a.to_vec()));
    a.row_or_assign(0, 4).unwrap();
    a.row_xor_assign(1, 2).unwrap();
    a.col_xor_assign(129, 0).unwrap();
    assert_eq!(a.count_ones(), true_cells(&a.to_vec()));
}

#[test]
fn full_rows_count_exactly() {
    let a = filled(3, 70, |_, _| true);
    assert_eq!(a.count_ones(), 210);
    let b = filled(2, 128, |_, _| true);
    assert_eq!(b.count_ones(), 256);
    let mut c = filled(2, 70, |_, _| true);
    c.bitxor_assign(&BitMatrix::new(2, 70)).unwrap();
    assert_eq!(c.count_ones(), 140);
}

#[test]
fn cellwise_and_or_xor() {
    let a = filled(3, 100, |r, c| (r * c) % 3 == 0);
    let b = filled(3, 100, |r, c| (r + c) % 4 == 0);
    let and = a.bitand(&b).unwrap();
    let or = a.bitor(&b).unwrap();
    let xor = a.bitxor(&b).unwrap();
    for r in 0..3 {
        for c in 0..100 {
            let x = a.get(r, c).unwrap();
            let y = b.get(r, c).unwrap();
            assert_eq!(and.get(r, c).unwrap(), x && y);
            assert_eq!(or.get(r, c).unwrap(), x || y);
            assert_eq!(xor.get(r, c).unwrap(), x != y);
        }
    }
}

#[test]
fn algebraic_laws_hold() {
    let a = filled(2, 90, |r, c| (r + 2 * c) % 3 == 0);
    let b = filled(2, 90, |r, c| (r * c) % 5 == 1);
    let c = filled(2, 90, |r, c| c % 2 == r);
    assert_eq!(a.bitand(&b).unwrap().to_vec(), b.bitand(&a).unwrap().to_vec());
    assert_eq!(a.bitor(&b).unwrap().to_vec(), b.bitor(&a).unwrap().to_vec());
    assert_eq!(
        a.bitand(&b).unwrap().bitand(&c).unwrap().to_vec(),
        a.bitand(&b.bitand(&c).unwrap()).unwrap().to_vec()
    );
    assert_eq!(
        a.bitor(&b).unwrap().bitor(&c).unwrap().to_vec(),
        a.bitor(&b.bitor(&c).unwrap()).unwrap().to_vec()
    );
    assert_eq!(a.bitxor(&a).unwrap().count_ones(), 0);
    assert_eq!(a.bitand(&a).unwrap().to_vec(), a.to_vec());
    assert_eq!(a.bitor(&a).unwrap().to_vec(), a.to_vec());
}

#[test]
fn row_ops_with_self() {
    let mut m = filled(3, 70, |r, c| (r + c) % 3 == 0);
    let before = m.to_vec();
    m.row_and_assign(1, 1).unwrap();
    m.row_or_assign(1, 1).unwrap();
    assert_eq!(m.to_vec(), before);
    m.row_xor_assign(1, 1).unwrap();
    assert_eq!(drain_row(&m, 1), vec![false; 70]);
    assert_eq!(drain_row(&m, 0), before[0]);
    assert_eq!(drain_row(&m, 2), before[2]);
}

#[test]
fn row_ops_combine_two_rows() {
    let mut m = BitMatrix::from_vec(vec![
        vec![true, true, false, false],
        vec![true, false, true, false],
    ])
    .unwrap();
    let mut n = m.clone();
    let mut o = m.clone();
    m.row_and_assign(0, 1).unwrap();
    n.row_or_assign(0, 1).unwrap();
    o.row_xor_assign(0, 1).unwrap();
    assert_eq!(drain_row(&m, 0), vec![true, false, false, false]);
    assert_eq!(drain_row(&n, 0), vec![true, true, true, false]);
    assert_eq!(drain_row(&o, 0), vec![false, true, true, false]);
    assert_eq!(drain_row(&o, 1), vec![true, false, true, false]);
    assert_eq!(m.row_and_assign(2, 0), Err(MatrixError::IndexOutOfBounds));
    assert_eq!(m.row_or_assign(0, 2), Err(MatrixError::IndexOutOfBounds));
    assert_eq!(m.row_xor_assign(5, 5), Err(MatrixError::IndexOutOfBounds));
}

#[test]
fn shape_mismatch_changes_nothing() {
    let mut a = filled(2, 70, |r, c| (r + c) % 2 == 0);
    let b = filled(2, 71, |_, _| true);
    let c = filled(3, 70, |_, _| true);
    let before = a.clone();
    assert_eq!(a.bitand_assign(&b), Err(MatrixError::ShapeMismatch));
    assert_eq!(a.bitor_assign(&c), Err(MatrixError::ShapeMismatch));
    assert_eq!(a.bitxor_assign(&b), Err(MatrixError::ShapeMismatch));
    assert_eq!(a.bitand(&c), Err(MatrixError::ShapeMismatch));
    assert_eq!(a.bitor(&b), Err(MatrixError::ShapeMismatch));
    assert_eq!(a.bitxor(&c), Err(MatrixError::ShapeMismatch));
    assert_eq!(a, before);
    assert_eq!(b.count_ones(), 142);
}

#[test]
fn round_trip_through_rows() {
    for (rows, cols) in [(0, 0), (3, 0), (1, 1), (2, 64), (3, 65), (2, 130)] {
        let m = filled(rows, cols, |r, c| (r * 3 + c) % 4 == 1);
        let back = BitMatrix::from_vec(m.to_vec()).unwrap();
        assert_eq!(back, m);
        assert_eq!(back.rows(), rows);
        assert_eq!(back.cols(), cols);
    }
    let m = filled(2, 5, |r, c| r == c);
    assert_eq!(m.clone().into_vec(), m.to_vec());
}

#[test]
fn from_vec_refuses_ragged_rows() {
    let v = vec![vec![true, false], vec![true]];
    assert_eq!(BitMatrix::from_vec(v).unwrap_err(), MatrixError::ShapeMismatch);
    let empty = BitMatrix::from_vec(Vec::new()).unwrap();
    assert_eq!(empty.rows(), 0);
    assert_eq!(empty.cols(), 0);
}

#[test]
fn scenario_three_by_one_thirty() {
    let mut m = BitMatrix::new(3, 130);
    m.set(1, 1, true).unwrap();
    m.set(1, 129, true).unwrap();
    assert_eq!(m.count_ones(), 2);
    assert_eq!(m.get(1, 1), Ok(true));
    assert_eq!(m.get(1, 128), Ok(false));
}

#[test]
fn scenario_two_by_seventy() {
    let mut a = BitMatrix::new(2, 70);
    let mut b = BitMatrix::new(2, 70);
    a.set(0, 1, true).unwrap();
    a.set(0, 69, true).unwrap();
    b.set(0, 1, true).unwrap();
    b.set(0, 2, true).unwrap();
    let c = a.bitand(&b).unwrap();
    let mut expected = vec![false; 70];
    expected[1] = true;
    assert_eq!(drain_row(&c, 0), expected);
    a.bitor_assign(&b).unwrap();
    a.bitxor_assign(&b).unwrap();
    let mut restored = vec![false; 70];
    restored[1] = false;
    restored[69] = true;
    // bit 1 was in both, so OR then XOR with b clears it
    assert_eq!(drain_row(&a, 0), restored);
    assert_eq!(a.count_ones(), 1);
}

#[test]
fn scenario_column_ops() {
    let mut m = BitMatrix::new(4, 10);
    m.set(0, 1, true).unwrap();
    m.set(1, 1, true).unwrap();
    m.set(2, 2, true).unwrap();
    m.set(3, 2, true).unwrap();
    m.col_or_assign(3, 1).unwrap();
    assert_eq!(m.column(3).unwrap(), vec![true, true, false, false]);
    m.col_xor_assign(3, 2).unwrap();
    assert_eq!(m.column(3).unwrap(), vec![true, true, true, true]);
    assert_eq!(drain_col(&m, 3), vec![true, true, true, true]);
}

#[test]
fn column_ops_with_self() {
    let mut m = BitMatrix::new(3, 5);
    m.set_column(4, &[true, false, true]).unwrap();
    m.col_and_assign(4, 4).unwrap();
    assert_eq!(m.column(4).unwrap(), vec![true, false, true]);
    m.col_or_assign(4, 4).unwrap();
    assert_eq!(m.column(4).unwrap(), vec![true, false, true]);
    m.col_xor_assign(4, 4).unwrap();
    assert_eq!(m.column(4).unwrap(), vec![false, false, false]);
    assert_eq!(m.col_and_assign(5, 0), Err(MatrixError::IndexOutOfBounds));
    assert_eq!(m.col_or_assign(0, 5), Err(MatrixError::IndexOutOfBounds));
    assert_eq!(m.col_xor_assign(9, 9), Err(MatrixError::IndexOutOfBounds));
}

#[test]
fn column_access_errors() {
    let mut m = BitMatrix::new(3, 5);
    assert_eq!(m.column(5), Err(MatrixError::IndexOutOfBounds));
    assert_eq!(m.set_column(5, &[true, true, true]), Err(MatrixError::IndexOutOfBounds));
    assert_eq!(m.set_column(5, &[true]), Err(MatrixError::IndexOutOfBounds));
    assert_eq!(m.set_column(1, &[true]), Err(MatrixError::ShapeMismatch));
    assert_eq!(m.count_ones(), 0);
    assert!(m.iter_row(3).is_err());
    assert!(m.iter_col(5).is_err());
}

#[test]
fn row_words_expose_layout() {
    let mut m = BitMatrix::new(2, 70);
    m.set(1, 0, true).unwrap();
    m.set(1, 65, true).unwrap();
    m.set(0, 63, true).unwrap();
    assert_eq!(m.row_words(1).unwrap(), &[1u64, 2u64][..]);
    assert_eq!(m.row_words(0).unwrap(), &[1u64 << 63, 0u64][..]);
    assert_eq!(m.row_words(2), Err(MatrixError::IndexOutOfBounds));
}

#[test]
fn block_kernels_use_the_shorter_length() {
    let mut d = vec![0b1100u64, 0b1010, 7];
    block_and(&mut d, &[0b1010, 0b0110]);
    assert_eq!(d, vec![0b1000, 0b0010, 7]);
    let mut d = vec![0b1100u64, 0b1010];
    block_or(&mut d, &[0b1010, 0b0101, 99]);
    assert_eq!(d, vec![0b1110, 0b1111]);
    let mut d = vec![0b1100u64, 0b1010, 5];
    block_xor(&mut d, &[0b1010, 0b1010]);
    assert_eq!(d, vec![0b0110, 0, 5]);
}

#[test]
fn word_counts_use_every_word() {
    let m = filled(1, 192, |_, c| c % 64 == 63);
    assert_eq!(m.count_ones(), 3);
    let n = filled(4, 1, |r, _| r != 2);
    assert_eq!(n.count_ones(), 3);
}
