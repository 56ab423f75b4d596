use kyber_algebra::kyberpoly::KyberRingElt;
use kyber_algebra::matrix::{matmul, Matrix2D};
use kyber_algebra::ring::Ring;

#[test]
fn matrix_test_add() {
    let m1 = Matrix2D::<i64>::new((2, 2), vec![1, 2, 3, 4]);
    let m2 = Matrix2D::<i64>::new((2, 2), vec![4, 3, 2, 1]);
    assert_eq!(m1.add(&m2), Matrix2D::<i64>::new((2, 2), vec![5, 5, 5, 5]));
}

#[test]
fn matrix_test_sub() {
    let m1 = Matrix2D::<i64>::new((2, 2), vec![1, 2, 3, 4]);
    let m2 = Matrix2D::<i64>::new((2, 2), vec![4, 3, 2, 1]);
    assert_eq!(m1.sub(&m2), Matrix2D::<i64>::new((2, 2), vec![-3, -1, 1, 3]));
}

#[test]
fn matrix_test_neg() {
    let m1 = Matrix2D::<i64>::new((2, 2), vec![1, 2, 3, 4]);
    assert_eq!(m1.neg(), Matrix2D::<i64>::new((2, 2), vec![-1, -2, -3, -4]));
}

#[test]
fn test_matmul() {
    let mut m1 = Matrix2D::<i64>::new((2, 2), vec![1, 2, 3, 4]);
    let m2 = Matrix2D::<i64>::new((2, 2), vec![4, 3, 2, 1]);
    assert_eq!(matmul(&m1, &m2), Matrix2D::<i64>::new((2, 2), vec![8, 5, 20, 13]));

    let m3 = Matrix2D::<i64>::new((2, 1), vec![4, 3]);
    println!("{:?}", m1.values);
    m1.matmul(&m3);
    assert_eq!(m1, Matrix2D::<i64>::new((2, 1), vec![10, 24]));
}

/// Matrix multiplication is associative on integer matrices.
#[test]
fn test_matmul_assoc_ints() {
    let a = Matrix2D::<i64>::new((2, 3), vec![1, -2, 3, 0, 4, 5]);
    let b = Matrix2D::<i64>::new((3, 2), vec![2, 1, 0, -1, 3, 2]);
    let c = Matrix2D::<i64>::new((2, 2), vec![1, 2, 3, 4]);
    let ab_c = matmul(&matmul(&a, &b), &c);
    let a_bc = matmul(&a, &matmul(&b, &c));
    assert_eq!(ab_c, a_bc);
}

/// Matrix multiplication distributes over matrix addition on integer
/// matrices, on both sides.
#[test]
fn test_matmul_distributes_ints() {
    let a = Matrix2D::<i64>::new((2, 2), vec![1, 2, 3, 4]);
    let b = Matrix2D::<i64>::new((2, 2), vec![4, 3, 2, 1]);
    let c = Matrix2D::<i64>::new((2, 2), vec![-1, 5, 0, 2]);
    assert_eq!(matmul(&a, &b.add(&c)), matmul(&a, &b).add(&matmul(&a, &c)));
    assert_eq!(matmul(&a.add(&b), &c), matmul(&a, &c).add(&matmul(&b, &c)));
}

fn elt(coefs: Vec<u32>) -> KyberRingElt {
    KyberRingElt::new(7681, 4, coefs)
}

/// Matrix multiplication is associative on matrices of ring elements.
#[test]
fn test_matmul_assoc_ring_elements() {
    let a = Matrix2D::new(
        (2, 2),
        vec![
            elt(vec![1, 2, 3, 4]),
            elt(vec![0, 2000, 7680, 0]),
            elt(vec![5, 0, 0, 1]),
            elt(vec![9, 9, 9, 9]),
        ],
    );
    let b = Matrix2D::new(
        (2, 2),
        vec![
            elt(vec![1, 1000, 2, 1]),
            elt(vec![0, 1, 0, 0]),
            elt(vec![7000, 0, 3, 0]),
            elt(vec![2, 2, 2, 2]),
        ],
    );
    let c = Matrix2D::new(
        (2, 1),
        vec![elt(vec![11, 0, 0, 7]), elt(vec![0, 0, 500, 0])],
    );
    let ab_c = matmul(&matmul(&a, &b), &c);
    let a_bc = matmul(&a, &matmul(&b, &c));
    assert_eq!(ab_c, a_bc);
}

/// Matrix multiplication distributes over matrix addition on matrices of
/// ring elements.
#[test]
fn test_matmul_distributes_ring_elements() {
    let a = Matrix2D::new((1, 2), vec![elt(vec![1, 2, 3, 4]), elt(vec![0, 2000, 7680, 0])]);
    let b = Matrix2D::new((2, 1), vec![elt(vec![1, 1000, 2, 1]), elt(vec![7000, 0, 3, 0])]);
    let c = Matrix2D::new((2, 1), vec![elt(vec![0, 0, 500, 0]), elt(vec![2, 2, 2, 2])]);
    assert_eq!(matmul(&a, &b.add(&c)), matmul(&a, &b).add(&matmul(&a, &c)));

    let d = Matrix2D::new((1, 2), vec![elt(vec![5, 0, 0, 1]), elt(vec![9, 9, 9, 9])]);
    assert_eq!(matmul(&a.add(&d), &b), matmul(&a, &b).add(&matmul(&d, &b)));
}

/// Row-major entry access, reading and writing.
#[test]
fn test_entry_access() {
    let mut m = Matrix2D::<i64>::new((2, 2), vec![1, 2, 3, 4]);
    assert_eq!(*m.entry(1, 0), 3);
    m.set_entry(1, 0, 30);
    assert_eq!(*m.entry(1, 0), 30);
    assert_eq!(*m.entry(1, 1), 4);
}

/// A module product: a ring-element matrix times a ring-element vector,
/// checked against a hand-computed cell.
#[test]
fn test_matmul_ring_vector() {
    let a = Matrix2D::new((1, 1), vec![elt(vec![0, 0, 0, 1])]);
    let v = Matrix2D::new((1, 1), vec![elt(vec![0, 1, 0, 0])]);
    let av = matmul(&a, &v);
    assert_eq!(av, Matrix2D::new((1, 1), vec![elt(vec![7680, 0, 0, 0])]));
}
