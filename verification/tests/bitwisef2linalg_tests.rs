use rust_web::bitwisef2linalg::Mat2;

#[test]
fn test_matrix_creation() {
    let mat = Mat2::from_u8(vec![
        vec![1, 0, 1],
        vec![0, 1, 0],
    ]);

    assert_eq!(mat.rows(), 2);
    assert_eq!(mat.cols(), 3);
    assert_eq!(mat.get(0, 0), true);
    assert_eq!(mat.get(0, 1), false);
    assert_eq!(mat.get(1, 2), false);
}

#[test]
fn test_addition() {
    let a = Mat2::from_u8(vec![
        vec![1, 0, 1],
        vec![0, 1, 0],
    ]);

    let b = Mat2::from_u8(vec![
        vec![1, 1, 0],
        vec![1, 1, 1],
    ]);

    let c = a + b;
    assert_eq!(c.get(0, 0), false);
    assert_eq!(c.get(0, 1), true);
    assert_eq!(c.get(1, 0), true);
    assert_eq!(c.get(1, 1), false);
}

#[test]
fn test_multiplication() {
    let a = Mat2::from_u8(vec![
        vec![1, 0, 1],
        vec![0, 1, 1],
    ]);

    let b = Mat2::from_u8(vec![
        vec![1, 0],
        vec![1, 1],
        vec![0, 1],
    ]);

    let c = a * b;
    assert_eq!(c.rows(), 2);
    assert_eq!(c.cols(), 2);
    assert_eq!(c.get(0, 0), true);
    assert_eq!(c.get(0, 1), true);
    assert_eq!(c.get(1, 0), true);
    assert_eq!(c.get(1, 1), false);
}

#[test]
fn test_rank() {
    let mat = Mat2::from_u8(vec![
        vec![1, 0, 1],
        vec![0, 1, 1],
        vec![1, 1, 0],
    ]);

    assert_eq!(mat.rank(), 2);
}

#[test]
fn test_nullspace() {
    let mat = Mat2::from_u8(vec![
        vec![1, 1, 0],
        vec![1, 0, 1],
    ]);

    let nullspace = mat.nullspace(false);
    assert_eq!(nullspace.len(), 1);

    let vec = &nullspace[0];
    assert_eq!(vec.get(0, 0), true);
    assert_eq!(vec.get(0, 1), true);
    assert_eq!(vec.get(0, 2), true);
}

#[test]
fn bitwise_rank_two_with_one_nullspace_vector() {
    let m = Mat2::from_u8(vec![vec![1, 1, 0], vec![0, 1, 1]]);
    assert_eq!(m.rank(), 2);
    let basis = m.nullspace(false);
    assert_eq!(basis.len(), 1);
    assert_eq!(basis[0].to_u8_vec(), vec![vec![1, 1, 1]]);
    assert_eq!(basis[0].rows(), 1);
    assert_eq!(basis[0].cols(), 3);
}

#[test]
fn bitwise_round_trip_through_bytes() {
    let data = vec![vec![1, 0, 1, 1], vec![0, 0, 1, 0], vec![1, 1, 1, 1]];
    let m = Mat2::from_u8(data.clone());
    assert_eq!(m.to_u8_vec(), data);
    assert_eq!(Mat2::from_u8(m.to_u8_vec()), m);
    let e = Mat2::new(3, 0);
    assert_eq!(Mat2::from_u8(e.to_u8_vec()), e);
    let none = Mat2::new(0, 0);
    assert_eq!(Mat2::from_u8(none.to_u8_vec()), none);
    // without rows the bytes do not tell the number of columns
    let flat = Mat2::new(0, 5);
    assert_ne!(Mat2::from_u8(flat.to_u8_vec()), flat);
    // every byte other than 0 is a one
    assert_eq!(Mat2::from_u8(vec![vec![7, 0, 255]]).to_u8_vec(), vec![vec![1, 0, 1]]);
}

#[test]
fn bitwise_constructors() {
    let z = Mat2::zeros(2, 3);
    assert_eq!(z.to_u8_vec(), vec![vec![0, 0, 0], vec![0, 0, 0]]);
    assert_eq!(Mat2::new(2, 3), z);
    let id = Mat2::id(3);
    assert_eq!(id.to_u8_vec(), vec![vec![1, 0, 0], vec![0, 1, 0], vec![0, 0, 1]]);
    let u = Mat2::unit_vector(4, 2);
    assert_eq!(u.to_u8_vec(), vec![vec![0, 0, 1, 0]]);
    assert_eq!(Mat2::from_u8(vec![]).rows(), 0);
    assert_eq!(Mat2::from_u8(vec![]).cols(), 0);
}

#[test]
fn bitwise_set_changes_one_cell() {
    let mut m = Mat2::zeros(2, 2);
    m.set(1, 0, true);
    assert_eq!(m.to_u8_vec(), vec![vec![0, 0], vec![1, 0]]);
    m.set(1, 0, true);
    assert_eq!(m.to_u8_vec(), vec![vec![0, 0], vec![1, 0]]);
    m.set(1, 0, false);
    assert_eq!(m, Mat2::zeros(2, 2));
}

#[test]
fn bitwise_stacks() {
    let a = Mat2::from_u8(vec![vec![1, 0], vec![0, 1]]);
    let b = Mat2::from_u8(vec![vec![1, 1], vec![0, 0]]);
    assert_eq!(a.vstack(&b).to_u8_vec(), vec![vec![1, 0], vec![0, 1], vec![1, 1], vec![0, 0]]);
    let h = a.hstack(&b);
    assert_eq!(h.to_u8_vec(), vec![vec![1, 0, 1, 1], vec![0, 1, 0, 0]]);
    assert_eq!(h.rows(), 2);
    assert_eq!(h.cols(), 4);
    assert_eq!(a.vstack(&b).rows(), 4);
}

#[test]
fn bitwise_row_and_column_operations() {
    let mut m = Mat2::from_u8(vec![vec![1, 0, 1], vec![0, 1, 1]]);
    m.row_add(0, 1);
    assert_eq!(m.to_u8_vec(), vec![vec![1, 0, 1], vec![1, 1, 0]]);
    m.row_swap(0, 1);
    assert_eq!(m.to_u8_vec(), vec![vec![1, 1, 0], vec![1, 0, 1]]);
    m.col_add(0, 2);
    assert_eq!(m.to_u8_vec(), vec![vec![1, 1, 1], vec![1, 0, 0]]);
    m.col_add(2, 0);
    assert_eq!(m.to_u8_vec(), vec![vec![0, 1, 1], vec![1, 0, 0]]);
    m.col_swap(2, 0);
    assert_eq!(m.to_u8_vec(), vec![vec![1, 1, 0], vec![0, 0, 1]]);
    // a row added to itself vanishes
    m.row_add(0, 0);
    assert_eq!(m.to_u8_vec(), vec![vec![0, 0, 0], vec![0, 0, 1]]);
    m.col_add(2, 2);
    assert_eq!(m, Mat2::zeros(2, 3));
}

#[test]
fn bitwise_gauss_reduces_and_tracks() {
    let mut m = Mat2::from_u8(vec![vec![0, 1, 1], vec![1, 1, 0], vec![1, 0, 1]]);
    let mut x = Mat2::id(3);
    let mut pivots = vec![9, 9];
    let rank = m.gauss(true, Some(&mut x), None, 0, &mut pivots);
    assert_eq!(rank, 2);
    assert_eq!(pivots, vec![0, 1]);
    assert_eq!(m.to_u8_vec(), vec![vec![1, 0, 1], vec![0, 1, 1], vec![0, 0, 0]]);
    // x holds the row operations: x * start == reduced
    let start = Mat2::from_u8(vec![vec![0, 1, 1], vec![1, 1, 0], vec![1, 0, 1]]);
    assert_eq!(x * start, m);

    let mut e = Mat2::from_u8(vec![vec![1, 1, 0], vec![0, 1, 1]]);
    let mut p = Vec::new();
    assert_eq!(e.gauss(false, None, None, 0, &mut p), 2);
    assert_eq!(e.to_u8_vec(), vec![vec![1, 1, 0], vec![0, 1, 1]]);
    assert_eq!(e.gauss(true, None, None, 0, &mut p), 2);
    assert_eq!(e.to_u8_vec(), vec![vec![1, 0, 1], vec![0, 1, 1]]);
    assert_eq!(p, vec![0, 1]);
}

#[test]
fn bitwise_nullspace_vectors_are_annihilated() {
    let m = Mat2::from_u8(vec![
        vec![1, 0, 1, 1, 0],
        vec![0, 1, 1, 0, 1],
        vec![1, 1, 0, 1, 1],
    ]);
    let rank = m.rank();
    let basis = m.nullspace(true);
    assert_eq!(basis.len(), 5 - rank);
    for v in &basis {
        let mut column = Mat2::zeros(5, 1);
        for j in 0..5 {
            column.set(j, 0, v.get(0, j));
        }
        assert_eq!(m.clone() * column, Mat2::zeros(3, 1));
    }
    assert_eq!(basis[0].to_u8_vec(), vec![vec![1, 1, 1, 0, 0]]);
    assert_eq!(basis[1].to_u8_vec(), vec![vec![1, 0, 0, 1, 0]]);
    assert_eq!(basis[2].to_u8_vec(), vec![vec![0, 1, 0, 0, 1]]);
    assert!(Mat2::id(4).nullspace(false).is_empty());
    assert_eq!(Mat2::zeros(2, 3).nullspace(false).len(), 3);
    assert_eq!(Mat2::new(0, 2).nullspace(false).len(), 2);
}

#[test]
fn bitwise_rank_of_identity_and_zero() {
    assert_eq!(Mat2::id(5).rank(), 5);
    assert_eq!(Mat2::zeros(3, 4).rank(), 0);
    assert_eq!(Mat2::id(0).rank(), 0);
}

#[test]
fn bitwise_sum_laws() {
    let a = Mat2::from_u8(vec![vec![1, 0, 1], vec![0, 1, 1]]);
    let b = Mat2::from_u8(vec![vec![1, 1, 0], vec![1, 0, 1]]);
    assert_eq!(a.clone() + b.clone(), b.clone() + a.clone());
    assert_eq!(a.clone() + a.clone(), Mat2::zeros(2, 3));
    let c = Mat2::from_u8(vec![vec![1, 1], vec![0, 1], vec![1, 0]]);
    let d = Mat2::from_u8(vec![vec![0, 1], vec![1, 1]]);
    assert_eq!((a.clone() * c.clone()) * d.clone(), a * (c * d));
}

#[test]
fn bitwise_text_of_matrix() {
    let m = Mat2::from_u8(vec![vec![1, 0, 1], vec![0, 1, 1]]);
    assert_eq!(m.to_string(), "1 . 1 \n. 1 1 \n");
    assert_eq!(Mat2::new(0, 3).to_string(), "");
    assert_eq!(Mat2::new(1, 0).to_string(), "\n");
}

#[test]
fn bitwise_equality_compares_shape_and_bits() {
    assert_ne!(Mat2::zeros(2, 2), Mat2::zeros(2, 3));
    assert_ne!(Mat2::zeros(2, 2), Mat2::zeros(3, 2));
    assert_ne!(Mat2::zeros(0, 2), Mat2::zeros(0, 3));
    assert_ne!(Mat2::zeros(2, 2), Mat2::id(2));
    assert_eq!(Mat2::id(3).clone(), Mat2::id(3));
}
