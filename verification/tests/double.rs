use coindcx_scalper::double::Double;

fn d(x: f64) -> Double {
    Double { bits: x.to_bits() }
}

fn f(x: Double) -> f64 {
    f64::from_bits(x.bits)
}

fn same(x: Double, y: f64) -> bool {
    if y.is_nan() {
        f(x).is_nan()
    } else {
        x.bits == y.to_bits()
    }
}

fn corner_values() -> Vec<f64> {
    let mut v = vec![
        0.0,
        -0.0,
        1.0,
        -1.0,
        0.1,
        0.3,
        0.005,
        0.995,
        10000.0,
        65432.1,
        -65432.1,
        1.0e-300,
        1.0e300,
        f64::MAX,
        f64::MIN,
        f64::MIN_POSITIVE,
        f64::from_bits(1),
        f64::from_bits(0x000f_ffff_ffff_ffff),
        f64::INFINITY,
        f64::NEG_INFINITY,
        f64::NAN,
    ];
    for i in 0..60 {
        v.push(f64::from_bits(0x3ff0_0000_0000_0000 + i * 0x0012_3456_789a_bcde));
        v.push(f64::from_bits(0x3ff0_0000_0000_0001 + i * 0x0010_0000_0000_0000));
    }
    v
}

#[test]
fn every_operation_agrees_with_the_machine_on_corner_values() {
    let values = corner_values();
    for &x in &values {
        for &y in &values {
            assert!(same(d(x).plus(d(y)), x + y), "{x:e} + {y:e}");
            assert!(same(d(x).minus(d(y)), x - y), "{x:e} - {y:e}");
            assert!(same(d(x).times(d(y)), x * y), "{x:e} * {y:e}");
            assert!(same(d(x).over(d(y)), x / y), "{x:e} / {y:e}");
            assert_eq!(d(x).lt(d(y)), x < y, "{x:e} < {y:e}");
            assert_eq!(d(x).gt(d(y)), x > y, "{x:e} > {y:e}");
            assert_eq!(d(x).le(d(y)), x <= y, "{x:e} <= {y:e}");
        }
    }
}

#[test]
fn every_operation_agrees_with_the_machine_on_scattered_values() {
    let mut state: u64 = 0x9e37_79b9_7f4a_7c15;
    let mut next = move || {
        state ^= state << 13;
        state ^= state >> 7;
        state ^= state << 17;
        state
    };
    for i in 0..200_000u64 {
        let a = next();
        let mut b = next();
        if i % 2 == 0 {
            // Exponents close to each other, so that sums and quotients exercise rounding.
            b = (b & 0x800f_ffff_ffff_ffff) | (a & 0x7ff0_0000_0000_0000);
            b = b.wrapping_add((i % 64) << 52);
        }
        let (x, y) = (f64::from_bits(a), f64::from_bits(b));
        assert!(same(d(x).plus(d(y)), x + y), "{x:e} + {y:e}");
        assert!(same(d(x).minus(d(y)), x - y), "{x:e} - {y:e}");
        assert!(same(d(x).times(d(y)), x * y), "{x:e} * {y:e}");
        assert!(same(d(x).over(d(y)), x / y), "{x:e} / {y:e}");
        assert_eq!(d(x).lt(d(y)), x < y);
    }
}
