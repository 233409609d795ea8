use cushion::errors::MathError;
use cushion::math::BigNumber;

#[test]
fn test_new() {
    assert_eq!(BigNumber::new(10, 0).value, 10);
    assert_eq!(BigNumber::new(10, 1).value, 10);
}

#[test]
fn test_unit() {
    assert_eq!(BigNumber::unit(0).to_string(), "1");
}

#[test]
fn test_display() {
    assert_eq!(BigNumber::new(10, 0).to_string(), "10");
    assert_eq!(BigNumber::new(10, 1).to_string(), "1.0");
    assert_eq!(BigNumber::new(10, 2).to_string(), "0.10");
    assert_eq!(BigNumber::new(10, 3).to_string(), "0.010");
    assert_eq!(BigNumber::new(10, 4).to_string(), "0.0010");
    assert_eq!(BigNumber::new(10, 5).to_string(), "0.00010");
    assert_eq!(BigNumber::new(10, 6).to_string(), "0.000010");

    assert_eq!(BigNumber::new(999999, 0).to_string(), "999999");
    assert_eq!(BigNumber::new(999999, 1).to_string(), "99999.9");
    assert_eq!(BigNumber::new(999999, 2).to_string(), "9999.99");
    assert_eq!(BigNumber::new(999999, 3).to_string(), "999.999");
    assert_eq!(BigNumber::new(999999, 4).to_string(), "99.9999");
    assert_eq!(BigNumber::new(999999, 5).to_string(), "9.99999");
    assert_eq!(BigNumber::new(999999, 6).to_string(), "0.999999");
}

#[test]
fn test_new_from_string() {
    assert_eq!(
        BigNumber::new_from_string(&"10".to_string()).unwrap(),
        BigNumber::new(10, 0)
    );
    assert_eq!(
        BigNumber::new_from_string(&"10.000".to_string()).unwrap(),
        BigNumber::new(10000, 3)
    );
    assert_eq!(
        BigNumber::new_from_string(&"99.9999".to_string()).unwrap(),
        BigNumber::new(999999, 4)
    );
}

#[test]
fn test_mul() {
    assert_eq!(
        BigNumber::new(1000, 3).mul(&BigNumber::new(1000, 3)).to_string(),
        "1.000"
    );
    assert_eq!(
        BigNumber::new(10000, 3).mul(&BigNumber::new(1000, 3)).to_string(),
        "10.000"
    );
    assert_eq!(
        BigNumber::new(3000, 3).mul(&BigNumber::new(3333, 3)).to_string(),
        "9.999"
    );
    assert_eq!(
        BigNumber::unit(3).mul(&BigNumber::new(3000, 0)).to_string(),
        "3000.000"
    );
    assert_eq!(
        BigNumber::unit(3).mul(&BigNumber::new(3000, 1)).to_string(),
        "300.000"
    );
    assert_eq!(
        BigNumber::unit(3).mul(&BigNumber::new(3000, 2)).to_string(),
        "30.000"
    );
    assert_eq!(
        BigNumber::unit(3).mul(&BigNumber::new(3000, 3)).to_string(),
        "3.000"
    );
    assert_eq!(
        BigNumber::unit(3).mul(&BigNumber::new(3000, 4)).to_string(),
        "0.3000"
    );
}

#[test]
fn test_div() {
    assert_eq!(
        BigNumber::new(1000, 3).div(&BigNumber::new(1000, 3)).to_string(),
        "1.000"
    );
    assert_eq!(
        BigNumber::new(1000, 3).div(&BigNumber::new(10000, 3)).to_string(),
        "0.100"
    );
    assert_eq!(
        BigNumber::new(10000, 3).div(&BigNumber::new(3000, 3)).to_string(),
        "3.333"
    );
    println!(
        "{} {}",
        BigNumber::new(100000, 4).to_string(),
        BigNumber::new(3000, 3).to_string()
    );
    assert_eq!(
        BigNumber::new(100000, 4).div(&BigNumber::new(3000, 3)).to_string(),
        "3.3333"
    );
    assert_eq!(
        BigNumber::new(10000, 3).div(&BigNumber::new(30000, 4)).to_string(),
        "3.3333"
    );
}

#[test]
fn test_fraction() {
    assert_eq!(
        BigNumber::unit(3)
            .div(&BigNumber::new(2, 0))
            .mul(&BigNumber::new(3000, 0))
            .to_string(),
        "1500.000"
    );
    assert_eq!(
        BigNumber::unit(3)
            .div(&BigNumber::new(3, 0))
            .mul(&BigNumber::new(3000, 0))
            .to_string(),
        "999.000"
    );
    assert_eq!(
        BigNumber::unit(3)
            .div(&BigNumber::new(3, 0))
            .mul(&BigNumber::new(3000000, 3))
            .to_string(),
        "999.000"
    );
    assert_eq!(
        BigNumber::unit(3)
            .mul(&BigNumber::new(1000000, 3))
            .div(&BigNumber::new(3000000, 6))
            .to_string(),
        "333.333333"
    );
}

#[test]
fn test_pow() {
    assert_eq!(BigNumber::new(1000, 3).pow(2).to_string(), "1.000");
    assert_eq!(BigNumber::new(2000, 3).pow(2).to_string(), "4.000");
    assert_eq!(BigNumber::new(2000, 3).pow(3).to_string(), "8.000");

    assert_eq!(BigNumber::new(1000, 3).pow(-2).to_string(), "1.000");
    assert_eq!(BigNumber::new(2000, 3).pow(-2).to_string(), "0.250");
    assert_eq!(BigNumber::new(2000, 3).pow(-3).to_string(), "0.125");

    assert_eq!(BigNumber::new(2000, 3).pow(-3).to_string(), "0.125");

    let x = 100;
    assert_eq!(
        BigNumber::unit(6)
            .mul(&BigNumber::new(x / 2, 0))
            .div(&BigNumber::new(x, 0))
            .mul(&BigNumber::new(19000000, 6))
            .to_string(),
        "9.500000"
    );
}

#[test]
fn test_parse_example() {
    let parsed = BigNumber::new_from_string(&"10.000".to_string()).unwrap();
    assert_eq!(parsed.value, 10000);
    assert_eq!(parsed.exp, 3);
}

#[test]
fn test_parse_rejects_bad_text() {
    assert_eq!(
        BigNumber::new_from_string(&"abc".to_string()),
        Err(MathError::NumberParsingFailed)
    );
    assert_eq!(
        BigNumber::new_from_string(&"".to_string()),
        Err(MathError::NumberParsingFailed)
    );
    assert_eq!(
        BigNumber::new_from_string(&"10.".to_string()),
        Err(MathError::NumberParsingFailed)
    );
    assert_eq!(
        BigNumber::new_from_string(&".5".to_string()),
        Err(MathError::NumberParsingFailed)
    );
    assert_eq!(
        BigNumber::new_from_string(&"1.2.3".to_string()),
        Err(MathError::NumberParsingFailed)
    );
    assert_eq!(
        BigNumber::new_from_string(&"10,5".to_string()),
        Err(MathError::NumberParsingFailed)
    );
    // The combined magnitude must fit 64 bits.
    assert_eq!(
        BigNumber::new_from_string(&"99999999999999999999".to_string()),
        Err(MathError::NumberParsingFailed)
    );
}

#[test]
fn test_round_trip() {
    let samples = [
        BigNumber::new(0, 0),
        BigNumber::new(0, 5),
        BigNumber::new(10, 1),
        BigNumber::new(10, 4),
        BigNumber::new(999999, 6),
        BigNumber::new(123456789, 2),
        BigNumber::new(u64::MAX, 0),
        BigNumber::new(u64::MAX, 19),
        BigNumber::new(7, 30),
    ];
    for x in samples.iter() {
        let text = x.to_string();
        assert_eq!(BigNumber::new_from_string(&text), Ok(*x));
    }
}

#[test]
fn test_mul_commutative_values() {
    let a = BigNumber::new(12345, 2);
    let b = BigNumber::new(678, 4);
    assert_eq!(a.mul(&b), b.mul(&a));
}

#[test]
fn test_mul_div_recovers() {
    // Dividing the product back by a factor of at least one loses at most
    // one unit in the last place.
    let a = BigNumber::new(10007, 3);
    let b = BigNumber::new(3000, 3);
    let back = a.mul(&b).div(&b);
    assert_eq!(back.exp, 3);
    assert!(back.value == 10007 || back.value == 10006);
}

#[test]
fn test_pow_zero_is_unit() {
    let x = BigNumber::new(2718, 3);
    assert_eq!(x.pow(0), BigNumber::unit(3));
}

#[test]
fn test_pow_negative_is_reciprocal() {
    let x = BigNumber::new(2000, 3);
    assert_eq!(x.pow(-3), BigNumber::unit(3).div(&x.pow(3)));
}

#[test]
fn test_lt_mixed_scales() {
    // 0.999 < 1.0 and not the other way round, across scales.
    assert!(BigNumber::new(999, 3).lt(&BigNumber::new(10, 1)));
    assert!(!BigNumber::new(10, 1).lt(&BigNumber::new(999, 3)));
    // Equal values at different scales are not strictly ordered.
    assert!(!BigNumber::new(10, 1).lt(&BigNumber::new(1000, 3)));
    assert!(!BigNumber::new(1000, 3).lt(&BigNumber::new(10, 1)));
}
