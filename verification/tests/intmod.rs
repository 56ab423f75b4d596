use kyber_algebra::arithmetic::{IntMod, PRIME};

/// test modular addition
#[test]
fn test_intmod_add() {
    let mut x = IntMod { value: 7, modulus: PRIME };
    x.add(1000);
    assert_eq!(x, IntMod { value: 1007, modulus: PRIME });
    x.add(8000);
    assert_eq!(x, IntMod { value: 1326, modulus: PRIME });
    x.add(1 << 30);
    assert_eq!(x, IntMod { value: 798, modulus: PRIME });
}

/// test substraction
#[test]
fn test_intmod_sub() {
    let mut x = IntMod { value: 798, modulus: PRIME };
    x.sub(1000);
    assert_eq!(x, IntMod { value: 7479, modulus: PRIME });
    x.sub(7000);
    assert_eq!(x, IntMod { value: 479, modulus: PRIME });
    x.sub(700_000);
    assert_eq!(x, IntMod { value: 7131, modulus: PRIME });
}

/// test multiplication
#[test]
fn test_intmod_mul() {
    let mut x = IntMod { value: 7131, modulus: PRIME };
    x.mul(3);
    assert_eq!(x, IntMod { value: 6031, modulus: PRIME });
    x.mul(1 << 20);
    assert_eq!(x, IntMod { value: 2531, modulus: PRIME });
}

/// test addition
#[test]
fn test_intmod_pow() {
    let mut x = IntMod { value: 2531, modulus: PRIME };
    x.pow(1000);
    assert_eq!(x, IntMod { value: 6517, modulus: PRIME });
    x.pow(x.value.clone());
    assert_eq!(x, IntMod { value: 1372, modulus: PRIME });
}

/// Adding twice equals adding the reduced sum of the deltas once.
#[test]
fn test_add_chain_collapses() {
    let mut x = IntMod { value: 7, modulus: PRIME };
    x.add(5000);
    x.add(6000);
    let mut y = IntMod { value: 7, modulus: PRIME };
    y.add(11000 % (PRIME as u32));
    assert_eq!(x, y);
}

/// Subtracting and then adding the same delta restores the value.
#[test]
fn test_sub_then_add_restores() {
    let mut x = IntMod { value: 798, modulus: PRIME };
    x.sub(1000);
    x.add(1000);
    assert_eq!(x, IntMod { value: 798, modulus: PRIME });
    x.sub(700_000);
    x.add(700_000);
    assert_eq!(x, IntMod { value: 798, modulus: PRIME });
}

/// Exponent laws: a zeroth power is 1, a first power is the value itself,
/// and exponents add through a reduced multiplication.
#[test]
fn test_pow_laws() {
    let mut z = IntMod { value: 2531, modulus: PRIME };
    z.pow(0);
    assert_eq!(z, IntMod { value: 1, modulus: PRIME });

    let mut o = IntMod { value: 2531, modulus: PRIME };
    o.pow(1);
    assert_eq!(o, IntMod { value: 2531, modulus: PRIME });

    let mut lhs = IntMod { value: 2531, modulus: PRIME };
    lhs.pow(7);
    let mut a = IntMod { value: 2531, modulus: PRIME };
    a.pow(3);
    let mut b = IntMod { value: 2531, modulus: PRIME };
    b.pow(4);
    a.mul(b.value);
    assert_eq!(lhs, a);
}

/// The constructor reduces its input, and a modulus of 1 collapses
/// everything to zero.
#[test]
fn test_new_reduces() {
    let x = IntMod::new(10000, PRIME);
    assert_eq!(x, IntMod { value: 2319, modulus: PRIME });
    let mut y = IntMod::new(5, 1);
    assert_eq!(y.value, 0);
    y.add(123);
    assert_eq!(y.value, 0);
}
