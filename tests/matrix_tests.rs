use bitset_matrix::{BitMatrix, MatrixError};

fn row_cells(m: &BitMatrix, row: usize) -> Vec<bool> {
    let mut it = m.iter_row(row).unwrap();
    let mut out = Vec::new();
    while let Some(b) = it.next() {
        out.push(b);
    }
    out
}

fn col_cells(m: &BitMatrix, col: usize) -> Vec<bool> {
    let mut it = m.iter_col(col).unwrap();
    let mut out = Vec::new();
    while let Some(b) = it.next() {
        out.push(b);
    }
    out
}

#[test]
fn basic_set_get() {
    let mut m = BitMatrix::new(3, 130); // more than 2 words per row
    assert_eq!(m.rows(), 3);
    assert_eq!(m.cols(), 130);
    assert!(!m.get(1, 1).unwrap());
    m.set(1, 1, true).unwrap();
    assert!(m.get(1, 1).unwrap());
    m.set(1, 129, true).unwrap();
    assert!(m.get(1, 129).unwrap());
    assert_eq!(m.count_ones(), 2);
}

#[test]
fn row_ops_and_matrix_ops() {
    let mut a = BitMatrix::new(2, 70);
    let mut b = BitMatrix::new(2, 70);
    a.set(0, 1, true).unwrap();
    a.set(0, 69, true).unwrap();
    b.set(0, 1, true).unwrap();
    b.set(0, 2, true).unwrap();

    a.row_and_assign(0, 0).unwrap(); // no-op
    assert!(a.get(0, 1).unwrap());
    a.row_and_assign(0, 0).unwrap(); // still ok

    // matrix and/or/xor
    let c = a.bitand(&b).unwrap();
    assert!(c.get(0, 1).unwrap());
    assert!(!c.get(0, 2).unwrap());

    a.bitor_assign(&b).unwrap();
    assert!(a.get(0, 2).unwrap());

    a.bitxor_assign(&b).unwrap();
    // XORing twice with b reverts bits that were only in b
    assert!(!a.get(0, 2).unwrap());
}

#[test]
fn column_get_set() {
    let mut m = BitMatrix::new(4, 10);
    m.set_column(3, &[true, false, true, false]).unwrap();
    let col = m.column(3).unwrap();
    assert_eq!(col, vec![true, false, true, false]);
}

#[test]
fn column_ops_and_iterators() {
    let mut m = BitMatrix::new(4, 10);
    // a few bits in cols 1 and 2
    m.set(0, 1, true).unwrap();
    m.set(1, 1, true).unwrap();
    m.set(2, 2, true).unwrap();
    m.set(3, 2, true).unwrap();

    // OR column 3 with column 1
    m.col_or_assign(3, 1).unwrap();
    assert!(m.get(0, 3).unwrap());
    assert!(m.get(1, 3).unwrap());
    assert!(!m.get(2, 3).unwrap());

    // XOR column 3 with column 2
    m.col_xor_assign(3, 2).unwrap();
    // rows 2 and 3 had col 2 set
    assert!(m.get(2, 3).unwrap());
    assert!(m.get(3, 3).unwrap());

    // AND column 3 with column 2 (clear bits where col 2 is false)
    m.col_and_assign(3, 2).unwrap();
    assert!(!m.get(0, 3).unwrap());
    assert!(!m.get(1, 3).unwrap());

    // iterators
    let row0 = row_cells(&m, 0);
    assert_eq!(row0.len(), 10);
    let col2 = col_cells(&m, 2);
    assert_eq!(col2.len(), 4);

    // to/from vec conversions
    let v = m.to_vec();
    let m2 = BitMatrix::from_vec(v.clone()).unwrap();
    assert_eq!(m2.to_vec(), v);
}

#[test]
fn masks_keep_bounds() {
    let mut m = BitMatrix::new(1, 70); // 70 -> 2 words, last word only 6 valid bits
    m.set(0, 69, true).unwrap();
    assert!(m.get(0, 69).unwrap());
    // outside of bounds is refused
    assert_eq!(m.get(0, 70), Err(MatrixError::IndexOutOfBounds));
}

#[test]
fn simd_and_matches_scalar() {
    let mut a = BitMatrix::new(4, 130);
    let mut b = BitMatrix::new(4, 130);
    for r in 0..4 {
        for c in 0..130 {
            if (r * c) % 5 == 0 {
                a.set(r, c, true).unwrap();
            }
            if (r + c) % 7 == 0 {
                b.set(r, c, true).unwrap();
            }
        }
    }
    let mut c = a.clone();
    c.bitand_assign(&b).unwrap();

    for r in 0..4 {
        for col in 0..130 {
            let expected = a.get(r, col).unwrap() & b.get(r, col).unwrap();
            assert_eq!(c.get(r, col).unwrap(), expected);
        }
    }
}
