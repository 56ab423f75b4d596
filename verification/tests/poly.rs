use kyber_algebra::kyberpoly::KyberRingElt;
use kyber_algebra::ring::Ring;

#[test]
fn kyberpoly_test_add() {
    let p1 = KyberRingElt::new(7681, 4, vec![0, 2000, 7680]);
    let p2 = KyberRingElt::new(7681, 4, vec![1, 1000, 2, 1]);
    assert_eq!(p1.add(&p2), KyberRingElt::new(7681, 4, vec![1, 3000, 1, 1]));
}

#[test]
fn kyberpoly_test_sub() {
    let p1 = KyberRingElt::new(7681, 4, vec![0, 2000, 7680]);
    let p2 = KyberRingElt::new(7681, 4, vec![1, 1000, 2, 1]);
    assert_eq!(p1.sub(&p2), KyberRingElt::new(7681, 4, vec![7680, 1000, 7678, 7680]));
}

#[test]
fn kyberpoly_test_neg() {
    let p1 = KyberRingElt::new(7681, 4, vec![0, 2000, 7680]);
    assert_eq!(p1.neg(), KyberRingElt::new(7681, 4, vec![0, 5681, 1]));
}

#[test]
fn test_mul_1() {
    let p1 = KyberRingElt::new(7681, 4, vec![1, 0, 0]);
    let p2 = KyberRingElt::new(7681, 4, vec![1, 1000, 2, 1]);
    assert_eq!(p1.mul(&p2), KyberRingElt::new(7681, 4, vec![1, 1000, 2, 1]));
}

#[test]
fn test_mul_2() {
    let p1 = KyberRingElt::new(7681, 4, vec![0, 2000, 7680]);
    let p2 = KyberRingElt::new(7681, 4, vec![1, 1000, 2, 1]);
    println!("{:?}", p1);
    assert_eq!(p1.mul(&p2), KyberRingElt::new(7681, 4, vec![5683, 2001, 2939, 3000]));
}

/// An element plus its negation is the zero element.
#[test]
fn test_add_neg_is_zero() {
    let p1 = KyberRingElt::new(7681, 4, vec![0, 2000, 7680, 31]);
    let z = p1.add(&p1.neg());
    assert_eq!(z, KyberRingElt::new(7681, 4, vec![0, 0, 0, 0]));
}

/// Multiplying X^(n-1) by X gives the element representing -1: the
/// defining relation X^n == -1 of the quotient ring.
#[test]
fn test_mul_defining_relation() {
    let xn1 = KyberRingElt::new(7681, 4, vec![0, 0, 0, 1]);
    let x = KyberRingElt::new(7681, 4, vec![0, 1, 0, 0]);
    assert_eq!(xn1.mul(&x), KyberRingElt::new(7681, 4, vec![7680, 0, 0, 0]));
}

/// The constructor pads a short coefficient vector with zeros and
/// truncates a long one to the degree.
#[test]
fn test_new_pads_and_truncates() {
    let short = KyberRingElt::new(7681, 4, vec![5]);
    assert_eq!(short.coefs, vec![5, 0, 0, 0]);
    let long = KyberRingElt::new(7681, 2, vec![1, 2, 3, 4]);
    assert_eq!(long.coefs, vec![1, 2]);
    assert_eq!(long.n, 2);
}

/// The in-place forms match their pure counterparts.
#[test]
fn test_assign_forms() {
    let p1 = KyberRingElt::new(7681, 4, vec![0, 2000, 7680]);
    let p2 = KyberRingElt::new(7681, 4, vec![1, 1000, 2, 1]);
    let mut acc = KyberRingElt::new(7681, 4, vec![0, 2000, 7680]);
    acc.add_assign(&p2);
    assert_eq!(acc, p1.add(&p2));
    acc.sub_assign(&p2);
    assert_eq!(acc, p1);
}

/// A fold over elements is their elementwise sum; an empty fold yields
/// the sentinel element.
#[test]
fn test_sum_fold() {
    let p1 = KyberRingElt::new(7681, 4, vec![0, 2000, 7680]);
    let p2 = KyberRingElt::new(7681, 4, vec![1, 1000, 2, 1]);
    let p3 = KyberRingElt::new(7681, 4, vec![7000, 7000, 0, 0]);
    let s = KyberRingElt::sum(vec![p1, p2, p3]);
    assert_eq!(s, KyberRingElt::new(7681, 4, vec![7001, 2319, 1, 1]));
    let empty = KyberRingElt::sum(vec![]);
    assert_eq!(empty, KyberRingElt::default());
}
