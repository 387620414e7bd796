use rust_web::f2linalg::{F2, Mat2};

fn bits(m: &Mat2) -> Vec<Vec<u8>> {
    m.data.iter().map(|row| row.iter().map(|c| c.to_u8()).collect()).collect()
}

#[test]
fn f2_conversions() {
    assert_eq!(F2::from_u8(0), F2::Zero);
    assert_eq!(F2::from_u8(1), F2::One);
    assert_eq!(F2::from_u8(2), F2::One);
    assert_eq!(F2::from_u8(255), F2::One);
    assert_eq!(F2::Zero.to_u8(), 0);
    assert_eq!(F2::One.to_u8(), 1);
    assert_eq!(F2::Zero.to_string(), "0");
    assert_eq!(F2::One.to_string(), "1");
}

#[test]
fn constructors_and_shape() {
    let z = Mat2::zeros(2, 3);
    assert_eq!(bits(&z), vec![vec![0, 0, 0], vec![0, 0, 0]]);
    assert_eq!(z.rows(), 2);
    assert_eq!(z.cols(), 3);
    assert_eq!(bits(&Mat2::id(3)), vec![vec![1, 0, 0], vec![0, 1, 0], vec![0, 0, 1]]);
    assert_eq!(bits(&Mat2::unit_vector(3, 1)), vec![vec![0], vec![1], vec![0]]);
    assert_eq!(bits(&Mat2::unit_vector(3, 3)), vec![vec![0], vec![0], vec![0]]);
    let raw = Mat2::new(vec![vec![F2::One, F2::Zero]]);
    assert_eq!(raw, Mat2::from_u8(vec![vec![1, 0]]));
    let empty = Mat2::zeros(0, 4);
    assert_eq!(empty.rows(), 0);
    assert_eq!(empty.cols(), 0);
    assert_eq!(Mat2::from_u8(vec![vec![3, 0]]), Mat2::from_u8(vec![vec![1, 0]]));
}

#[test]
fn text_of_matrix() {
    let m = Mat2::from_u8(vec![vec![1, 0, 1], vec![0, 1, 1]]);
    assert_eq!(m.to_string(), "[ 1 0 1 ]\n[ 0 1 1 ]\n");
    assert_eq!(Mat2::zeros(0, 0).to_string(), "");
    assert_eq!(Mat2::new(vec![vec![]]).to_string(), "[ ]\n");
}

#[test]
fn get_and_set_check_bounds() {
    let mut m = Mat2::from_u8(vec![vec![1, 0], vec![0, 1]]);
    assert_eq!(m.get(0, 0), Some(F2::One));
    assert_eq!(m.get(1, 0), Some(F2::Zero));
    assert_eq!(m.get(2, 0), None);
    assert_eq!(m.get(0, 2), None);
    assert!(m.set(0, 1, F2::One));
    assert_eq!(bits(&m), vec![vec![1, 1], vec![0, 1]]);
    // writing what is there changes nothing
    assert!(m.set(0, 1, F2::One));
    assert_eq!(bits(&m), vec![vec![1, 1], vec![0, 1]]);
    assert!(!m.set(2, 0, F2::One));
    assert!(!m.set(0, 2, F2::One));
    assert_eq!(bits(&m), vec![vec![1, 1], vec![0, 1]]);
}

#[test]
fn submatrix_within_and_beyond() {
    let m = Mat2::from_u8(vec![vec![1, 0, 1], vec![0, 1, 1], vec![1, 1, 0]]);
    let s = m.submatrix(1, 1, 2, 2).unwrap();
    assert_eq!(bits(&s), vec![vec![1, 1], vec![1, 0]]);
    assert_eq!(m.submatrix(0, 0, 3, 3).unwrap(), m);
    assert_eq!(bits(&m.submatrix(3, 3, 0, 0).unwrap()), Vec::<Vec<u8>>::new());
    assert!(m.submatrix(2, 0, 2, 1).is_none());
    assert!(m.submatrix(0, 2, 1, 2).is_none());
    assert!(m.submatrix(usize::MAX, 0, 1, 1).is_none());
    assert!(m.submatrix(1, usize::MAX, 1, 2).is_none());
}

#[test]
fn stacks() {
    let a = Mat2::from_u8(vec![vec![1, 0], vec![0, 1]]);
    let b = Mat2::from_u8(vec![vec![1, 1], vec![0, 0]]);
    assert_eq!(bits(&a.vstack(&b)), vec![vec![1, 0], vec![0, 1], vec![1, 1], vec![0, 0]]);
    assert_eq!(bits(&a.hstack(&b)), vec![vec![1, 0, 1, 1], vec![0, 1, 0, 0]]);
    let c = Mat2::from_u8(vec![vec![1], vec![1]]);
    assert_eq!(bits(&a.hstack(&c)), vec![vec![1, 0, 1], vec![0, 1, 1]]);
}

#[test]
fn row_and_column_operations() {
    let mut m = Mat2::from_u8(vec![vec![1, 0, 1], vec![0, 1, 1]]);
    m.row_add(0, 1);
    assert_eq!(bits(&m), vec![vec![1, 0, 1], vec![1, 1, 0]]);
    m.row_add(1, 0);
    assert_eq!(bits(&m), vec![vec![0, 1, 1], vec![1, 1, 0]]);
    m.row_swap(0, 1);
    assert_eq!(bits(&m), vec![vec![1, 1, 0], vec![0, 1, 1]]);
    m.col_add(0, 2);
    assert_eq!(bits(&m), vec![vec![1, 1, 1], vec![0, 1, 1]]);
    m.col_swap(0, 1);
    assert_eq!(bits(&m), vec![vec![1, 1, 1], vec![1, 0, 1]]);
    // a row added to itself vanishes, and so does a column
    m.row_add(1, 1);
    assert_eq!(bits(&m), vec![vec![1, 1, 1], vec![0, 0, 0]]);
    m.col_add(1, 1);
    assert_eq!(bits(&m), vec![vec![1, 0, 1], vec![0, 0, 0]]);
    m.row_swap(1, 1);
    assert_eq!(bits(&m), vec![vec![1, 0, 1], vec![0, 0, 0]]);
}

#[test]
fn permutations() {
    let mut m = Mat2::from_u8(vec![vec![1, 0, 0], vec![0, 1, 0], vec![1, 1, 1]]);
    m.permute_rows(&[2, 0, 1]);
    assert_eq!(bits(&m), vec![vec![1, 1, 1], vec![1, 0, 0], vec![0, 1, 0]]);
    m.permute_cols(&[1, 2, 0]);
    assert_eq!(bits(&m), vec![vec![1, 1, 1], vec![0, 0, 1], vec![1, 0, 0]]);
    // rows and columns that the list does not cover become zero
    m.permute_rows(&[1]);
    assert_eq!(bits(&m), vec![vec![0, 0, 1], vec![0, 0, 0], vec![0, 0, 0]]);
    m.permute_cols(&[2, 2]);
    assert_eq!(bits(&m), vec![vec![1, 1, 0], vec![0, 0, 0], vec![0, 0, 0]]);
}

#[test]
fn gauss_reduces_and_tracks() {
    let start = Mat2::from_u8(vec![vec![0, 1, 1], vec![1, 1, 0], vec![1, 0, 1]]);
    let mut m = start.clone();
    let mut x = Mat2::id(3);
    let mut y = Mat2::id(3);
    let mut pivots = vec![7];
    let rank = m.gauss(true, Some(&mut x), Some(&mut y), 6, &mut pivots);
    assert_eq!(rank, 2);
    assert_eq!(pivots, vec![0, 1]);
    assert_eq!(bits(&m), vec![vec![1, 0, 1], vec![0, 1, 1], vec![0, 0, 0]]);
    // x holds the row operations and y undoes them
    assert_eq!(x.clone() * start.clone(), m);
    assert_eq!(y.clone() * m.clone(), start);
    assert_eq!(y * x, Mat2::id(3));

    let mut e = Mat2::from_u8(vec![vec![1, 1, 0], vec![0, 1, 1]]);
    let mut p = Vec::new();
    assert_eq!(e.gauss(false, None, None, 6, &mut p), 2);
    assert_eq!(bits(&e), vec![vec![1, 1, 0], vec![0, 1, 1]]);
    assert_eq!(e.gauss(true, None, None, 1, &mut p), 2);
    assert_eq!(bits(&e), vec![vec![1, 0, 1], vec![0, 1, 1]]);
    assert_eq!(p, vec![0, 1]);

    let mut skip = Mat2::from_u8(vec![vec![0, 0, 1, 1], vec![0, 0, 1, 0]]);
    assert_eq!(skip.gauss(true, None, None, 6, &mut p), 2);
    assert_eq!(p, vec![2, 3]);
    assert_eq!(bits(&skip), vec![vec![0, 0, 1, 0], vec![0, 0, 0, 1]]);
}

#[test]
fn rank_of_identity_and_zero() {
    assert_eq!(Mat2::id(4).rank(), 4);
    assert_eq!(Mat2::zeros(3, 5).rank(), 0);
    assert_eq!(Mat2::id(0).rank(), 0);
    assert_eq!(Mat2::from_u8(vec![vec![1, 1], vec![1, 1]]).rank(), 1);
}

#[test]
fn rank_two_with_one_nullspace_vector() {
    let m = Mat2::from_u8(vec![vec![1, 1, 0], vec![0, 1, 1]]);
    assert_eq!(m.rank(), 2);
    let basis = m.nullspace(false);
    assert_eq!(basis.len(), 1);
    assert_eq!(bits(&basis[0]), vec![vec![1], vec![1], vec![1]]);
}

#[test]
fn nullspace_has_one_vector_for_each_free_column() {
    let m = Mat2::from_u8(vec![
        vec![1, 0, 1, 1, 0],
        vec![0, 1, 1, 0, 1],
        vec![1, 1, 0, 1, 1],
    ]);
    let basis = m.nullspace(true);
    assert_eq!(basis.len(), 5 - m.rank());
    assert_eq!(bits(&basis[0]), vec![vec![1], vec![1], vec![1], vec![0], vec![0]]);
    assert_eq!(bits(&basis[1]), vec![vec![1], vec![0], vec![0], vec![1], vec![0]]);
    assert_eq!(bits(&basis[2]), vec![vec![0], vec![1], vec![0], vec![0], vec![1]]);
    for v in &basis {
        assert_eq!(m.clone() * v.clone(), Mat2::zeros(3, 1));
    }
    // no sum of some of the vectors is zero
    for mask in 1u8..8 {
        let mut sum = Mat2::zeros(5, 1);
        for (k, v) in basis.iter().enumerate() {
            if mask & (1 << k) != 0 {
                sum = sum + v.clone();
            }
        }
        assert_ne!(sum, Mat2::zeros(5, 1));
    }
    assert_eq!(Mat2::zeros(2, 3).nullspace(false).len(), 3);
}

#[test]
fn inverse_of_larger_matrices() {
    let m = Mat2::from_u8(vec![vec![1, 1, 0], vec![0, 1, 1], vec![0, 0, 1]]);
    let inv = m.inverse().unwrap();
    assert_eq!(bits(&inv), vec![vec![1, 1, 1], vec![0, 1, 1], vec![0, 0, 1]]);
    assert_eq!(m.clone() * inv.clone(), Mat2::id(3));
    assert_eq!(inv * m, Mat2::id(3));
    // singular
    assert!(Mat2::zeros(3, 3).inverse().is_none());
    assert!(Mat2::from_u8(vec![vec![1, 1, 0], vec![0, 1, 1], vec![1, 0, 1]]).inverse().is_none());
    // not square
    assert!(Mat2::from_u8(vec![vec![1, 0, 0], vec![0, 1, 0]]).inverse().is_none());
    // without rows
    assert_eq!(Mat2::zeros(0, 0).inverse().unwrap().rows(), 0);
    assert_eq!(Mat2::id(1).inverse().unwrap(), Mat2::id(1));
}

#[test]
fn solve_gives_the_solution_that_is_zero_at_free_columns() {
    let m = Mat2::from_u8(vec![vec![1, 1, 0], vec![0, 1, 1]]);
    let b = Mat2::from_u8(vec![vec![1], vec![1]]);
    let x = m.solve(&b).unwrap();
    assert_eq!(bits(&x), vec![vec![0], vec![1], vec![0]]);
    assert_eq!(m.clone() * x, b);
    // a right-hand side that needs the full reduction
    let t = Mat2::from_u8(vec![vec![1, 1], vec![0, 1]]);
    let c = Mat2::from_u8(vec![vec![0], vec![1]]);
    let y = t.solve(&c).unwrap();
    assert_eq!(bits(&y), vec![vec![1], vec![1]]);
    assert_eq!(t * y, c);
    // no solution
    let s = Mat2::from_u8(vec![vec![1, 0], vec![1, 0], vec![0, 1]]);
    assert!(s.solve(&Mat2::from_u8(vec![vec![1], vec![0], vec![1]])).is_none());
    assert_eq!(
        bits(&s.solve(&Mat2::from_u8(vec![vec![1], vec![1], vec![1]])).unwrap()),
        vec![vec![1], vec![1]]
    );
}

#[test]
fn factor_has_the_rank_as_inner_dimension() {
    let m = Mat2::from_u8(vec![vec![1, 1, 0], vec![0, 1, 1], vec![1, 0, 1]]);
    let (m0, m1) = m.factor();
    assert_eq!(m0.rows(), 3);
    assert_eq!(m0.cols(), 2);
    assert_eq!(m1.rows(), 2);
    assert_eq!(m1.cols(), 3);
    assert_eq!(m0 * m1, m);
    let (z0, z1) = Mat2::zeros(2, 3).factor();
    assert_eq!(z0.rows(), 2);
    assert_eq!(z0.cols(), 0);
    assert_eq!(z1.rows(), 0);
    let (i0, i1) = Mat2::id(2).factor();
    assert_eq!(i0, Mat2::id(2));
    assert_eq!(i1, Mat2::id(2));
}

#[test]
fn sums_and_products_obey_the_laws() {
    let a = Mat2::from_u8(vec![vec![1, 0, 1], vec![0, 1, 1]]);
    let b = Mat2::from_u8(vec![vec![1, 1, 0], vec![1, 0, 1]]);
    assert_eq!(a.clone() + b.clone(), b.clone() + a.clone());
    assert_eq!(a.clone() + a.clone(), Mat2::zeros(2, 3));
    let c = Mat2::from_u8(vec![vec![1, 1], vec![0, 1], vec![1, 0]]);
    let d = Mat2::from_u8(vec![vec![0, 1], vec![1, 1]]);
    assert_eq!((a.clone() * c.clone()) * d.clone(), a.clone() * (c.clone() * d));
    assert_eq!(Mat2::id(2) * a.clone(), a);
    assert_eq!(c.clone() * Mat2::id(2), c);
}

#[test]
fn equality_compares_shape_and_cells() {
    assert_eq!(Mat2::zeros(2, 2), Mat2::from_u8(vec![vec![0, 0], vec![0, 0]]));
    assert_ne!(Mat2::zeros(2, 2), Mat2::zeros(2, 3));
    assert_ne!(Mat2::zeros(2, 2), Mat2::zeros(3, 2));
    assert_ne!(Mat2::zeros(2, 2), Mat2::id(2));
    let m = Mat2::id(3);
    assert_eq!(m.clone(), m);
}
