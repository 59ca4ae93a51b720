use arraylang::number::Number;

#[test]
fn overflow_handling_with_lhs() {
    let lhs = Number {
        sign: true,
        value: vec![usize::MAX, usize::MAX],
    };

    let rhs = Number {
        sign: true,
        value: vec![1],
    };

    let n = Number {
        sign: true,
        value: vec![0, 0, 1],
    };

    assert_eq!(lhs.add(&rhs), n);
}

#[test]
fn overflow_handling_with_rhs() {
    let lhs = Number {
        sign: true,
        value: vec![1],
    };

    let rhs = Number {
        sign: true,
        value: vec![usize::MAX, usize::MAX],
    };

    let n = Number {
        sign: true,
        value: vec![0, 0, 1],
    };

    assert_eq!(lhs.add(&rhs), n);
}

#[test]
fn addition_negative_greater_rhs() {
    let lhs = Number {
        sign: true,
        value: vec![1],
    };
    let rhs = Number {
        sign: false,
        value: vec![usize::MAX, usize::MAX],
    };

    let n = Number {
        sign: false,
        value: vec![usize::MAX - 1, usize::MAX],
    };

    assert_eq!(lhs.add(&rhs), n);
}

#[test]
fn addition_negative_greater_lhs() {
    let lhs = Number {
        sign: false,
        value: vec![usize::MAX, usize::MAX],
    };

    let rhs = Number {
        sign: true,
        value: vec![1],
    };

    let n = Number {
        sign: false,
        value: vec![usize::MAX - 1, usize::MAX],
    };

    assert_eq!(lhs.add(&rhs), n);
}

#[test]
fn decimal_of_sum_matches_decimal_arithmetic() {
    // a carry must propagate across every limb
    let lhs = Number {
        sign: true,
        value: vec![usize::MAX, usize::MAX],
    };
    let rhs = Number {
        sign: true,
        value: vec![1],
    };
    let sum = lhs.add(&rhs);
    // 2^128 in decimal
    assert_eq!(sum.to_decimal(), "340282366920938463463374607431768211456");
}

#[test]
fn decimal_round_trip() {
    let n = Number::from_decimal("12345678901234567890123456789");
    assert_eq!(n.to_decimal(), "12345678901234567890123456789");
}

#[test]
fn decimal_of_zero_and_negative() {
    let zero = Number::zero();
    assert_eq!(zero.to_decimal(), "0");
    let five = Number::from_decimal("5");
    let neg = five.neg();
    assert_eq!(neg.to_decimal(), "-5");
}

#[test]
fn addition_commutes() {
    let a = Number {
        sign: true,
        value: vec![7, 3],
    };
    let b = Number {
        sign: false,
        value: vec![9],
    };
    assert_eq!(a.add(&b), b.add(&a));
}

#[test]
fn subtraction_anticommutes() {
    let a = Number {
        sign: true,
        value: vec![7, 3],
    };
    let b = Number {
        sign: true,
        value: vec![9],
    };
    assert_eq!(a.sub(&b), b.sub(&a).neg());
}

#[test]
fn subtraction_to_decimal() {
    let a = Number::from_decimal("100");
    let b = Number::from_decimal("58");
    assert_eq!(a.sub(&b).to_decimal(), "42");
    assert_eq!(b.sub(&a).to_decimal(), "-42");
}

#[test]
fn multiplication_and_division() {
    let a = Number::from_decimal("12");
    let b = Number::from_decimal("5");
    assert_eq!(a.mul(&b).to_decimal(), "60");
    let (q, m) = a.div_mod(&b);
    assert_eq!(q.to_decimal(), "2");
    assert_eq!(m.to_decimal(), "2");
}

#[test]
fn division_truncates_toward_zero() {
    let a = Number::from_decimal("7").neg();
    let b = Number::from_decimal("2");
    let (q, m) = a.div_mod(&b);
    assert_eq!(q.to_decimal(), "-3");
    assert_eq!(m.to_decimal(), "-1");
}

#[test]
fn comparisons() {
    let a = Number::from_decimal("3").neg();
    let b = Number::from_decimal("2");
    assert!(a.lt(&b));
    assert!(!b.lt(&a));
    assert!(a.le(&a));
    assert!(a.equals(&a));
    assert!(!a.equals(&b));
    assert!(Number::zero().is_zero());
    assert!(!b.is_zero());
}

#[test]
fn zero_from_decimal_is_canonical() {
    let z = Number::from_decimal("0");
    assert!(z.is_zero());
    assert_eq!(z, Number::zero());
    // zero keeps the non-negative sign even when negated
    assert_eq!(z.neg(), Number::zero());
}

#[test]
fn leading_zeros_are_normalized_away() {
    let n = Number::from_decimal("007");
    assert_eq!(n.to_decimal(), "7");
}

#[test]
fn multiplication_of_negatives() {
    let a = Number::from_decimal("6").neg();
    let b = Number::from_decimal("7").neg();
    assert_eq!(a.mul(&b).to_decimal(), "42");
    assert_eq!(a.mul(&b.neg()).to_decimal(), "-42");
}
