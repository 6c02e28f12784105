use gf_linalg::finite_field::{FieldError, GFElement};

#[test]
fn test_display() {
    let a = GFElement::new(2, 3);
    let expected = "2";
    assert_eq!(a.render(), expected);
}

#[test]
fn test_add() {
    // (a + b) mod 3, including wrap-around and negative inputs
    let cases: [(i32, i32, i32); 6] = [(0, 0, 0), (2, 1, 0), (1, 1, 2), (0, 0, 0), (3, 4, 1), (3, -5, 1)];
    for (a_val, b_val, expected) in cases {
        let a = GFElement::new(a_val, 3);
        let b = GFElement::new(b_val, 3);
        let c = GFElement::new(expected, 3);
        assert_eq!(a.add(b), c);
    }
}

#[test]
fn test_sub() {
    let cases: [(i32, i32, i32); 2] = [(3, 1, 2), (1, 2, 2)];
    for (a_val, b_val, expected) in cases {
        let a = GFElement::new(a_val, 3);
        let b = GFElement::new(b_val, 3);
        let c = GFElement::new(expected, 3);
        assert_eq!(a.sub(b), c);
    }
}

#[test]
fn test_mul() {
    let cases: [(i32, i32, i32); 4] = [(1, 1, 1), (2, 0, 0), (2, 2, 1), (2, 3, 0)];
    for (a_val, b_val, expected) in cases {
        let a = GFElement::new(a_val, 3);
        let b = GFElement::new(b_val, 3);
        let c = GFElement::new(expected, 3);
        assert_eq!(a.mul(b), c);
    }
}

#[test]
fn test_div() {
    let cases: [(i32, i32, i32, i32); 5] =
        [(1, 1, 3, 1), (2, 2, 3, 1), (1, 2, 3, 2), (2, 3, 7, 3), (5, 9, 13, 2)];
    for (dividend, divisor, modulus, expected) in cases {
        let dividend = GFElement::new(dividend, modulus);
        let divisor = GFElement::new(divisor, modulus);
        let expected = GFElement::new(expected, modulus);
        assert_eq!(dividend.div(divisor), Ok(expected));
    }
}

#[test]
fn test_construct_canonical_range() {
    // construct(v, m).value always lands in [0, m)
    for v in [-25, -7, -1, 0, 1, 6, 7, 29] {
        let e = GFElement::new(v, 7);
        assert!(0 <= e.value && e.value < 7);
        assert_eq!(e.modulus, 7);
    }
}

#[test]
fn test_construct_periodic() {
    // construct(v, m) == construct(v + k * m, m) for any k
    for k in [-3, -1, 0, 1, 5] {
        assert_eq!(GFElement::new(4, 7), GFElement::new(4 + k * 7, 7));
        assert_eq!(GFElement::new(-2, 5), GFElement::new(-2 + k * 5, 5));
    }
}

#[test]
fn test_construct_negative() {
    assert_eq!(GFElement::new(-5, 3).value, 1);
    assert_eq!(GFElement::new(-1, 2147483647).value, 2147483646);
}

#[test]
fn test_add_commutative_concrete() {
    let a = GFElement::new(5, 11);
    let b = GFElement::new(9, 11);
    assert_eq!(a.add(b), b.add(a));
}

#[test]
fn test_add_associative_concrete() {
    let a = GFElement::new(5, 11);
    let b = GFElement::new(9, 11);
    let c = GFElement::new(10, 11);
    assert_eq!(a.add(b).add(c), a.add(b.add(c)));
}

#[test]
fn test_add_zero_identity() {
    let a = GFElement::new(8, 11);
    assert_eq!(a.add(GFElement::new(0, 11)), a);
}

#[test]
fn test_mul_one_identity() {
    let a = GFElement::new(8, 11);
    assert_eq!(a.mul(GFElement::new(1, 11)), a);
}

#[test]
fn test_div_then_mul_restores() {
    // (a / b) * b == a for non-zero b under a prime modulus
    for a_val in 0..13 {
        for b_val in 1..13 {
            let a = GFElement::new(a_val, 13);
            let b = GFElement::new(b_val, 13);
            assert_eq!(a.div(b).unwrap().mul(b), a);
        }
    }
}

#[test]
fn test_div_by_zero_fails() {
    let a = GFElement::new(5, 7);
    let zero = GFElement::new(0, 7);
    assert_eq!(a.div(zero), Err(FieldError::DivisionByZero));
}

#[test]
fn test_no_inverse_for_zero_divisor() {
    // 2 shares a factor with 4, so it has no inverse mod 4
    let a = GFElement::new(3, 4);
    let b = GFElement::new(2, 4);
    assert_eq!(a.div(b), Err(FieldError::NoInverseExists));
    assert_eq!(b.mult_inverse(), Err(FieldError::NoInverseExists));
}

#[test]
fn test_mult_inverse_smallest() {
    // 9 * 3 == 27 == 1 mod 13
    assert_eq!(GFElement::new(9, 13).mult_inverse(), Ok(GFElement::new(3, 13)));
}

#[test]
fn test_mul_large_modulus() {
    // (m - 1)^2 == 1 mod m, near the top of the i32 range
    let m = 2147483647;
    let a = GFElement::new(m - 1, m);
    assert_eq!(a.mul(a), GFElement::new(1, m));
}

#[test]
fn test_modulus_one() {
    // mod 1 every value reduces to zero
    let a = GFElement::new(41, 1);
    assert_eq!(a.value, 0);
    assert_eq!(a.add(a).value, 0);
    assert_eq!(a.render(), "0");
}
