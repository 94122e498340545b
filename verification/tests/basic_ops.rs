use arbitrary_fixed::ArbitraryFixed;
use arbitrary_fixed::ArithmeticError;

fn fixed(f: f32) -> ArbitraryFixed {
    ArbitraryFixed::from_f32_bits(f.to_bits())
}

fn float(a: ArbitraryFixed) -> f32 {
    f32::from_bits(a.to_f32_bits())
}

fn words(data: [u32; 4]) -> ArbitraryFixed {
    ArbitraryFixed { data }
}

#[test]
fn test_add() {
    let (fa, fb): (f32, f32) = (3.0, 5.3);
    let (a, b): (ArbitraryFixed, ArbitraryFixed) = (fixed(fa), fixed(fb));
    assert_eq!(a + b, fixed(fa + fb));
}

#[test]
fn test_sub() {
    let (fa, fb): (f32, f32) = (3.0, 5.3);
    let (a, b): (ArbitraryFixed, ArbitraryFixed) = (fixed(fa), fixed(fb));
    assert_eq!(a - b, fixed(fa - fb));
}

#[test]
fn test_mul() {
    let (fa, fb): (f32, f32) = (3.0, 5.3);
    let (a, b): (ArbitraryFixed, ArbitraryFixed) = (fixed(fa), fixed(fb));
    assert_eq!(a * b, fixed(fa * fb));
}

#[test]
fn test_div() {
    let fa: f32 = 1.0;
    let fb: f32 = 1481000.0;
    let a: ArbitraryFixed = fixed(fa);
    let b: ArbitraryFixed = fixed(fb);
    assert_eq!(float((a / b).unwrap()), fa / fb);
}

#[test]
fn test_inv() {
    let fa: f32 = 5.4;
    let a: ArbitraryFixed = fixed(fa);
    assert_eq!(float(a.inv()), (1.0 / fa));
}

#[test]
fn test_rem() {
    let fa: f32 = 3.0;
    let fb: f32 = 5.3;
    let a: ArbitraryFixed = fixed(fa);
    let b: ArbitraryFixed = fixed(fb);
    assert_eq!(float((a % b).unwrap()), (fa % fb));
}

#[test]
fn add_exact_words() {
    let a = fixed(3.0);
    let b = fixed(5.3);
    assert_eq!((a + b).data, [0x00000000, 0x00000000, 0x4cccd000, 0x00000008]);
    assert_eq!((a - b).data, [0x00000000, 0x00000000, 0xb3333000, 0xfffffffd]);
    assert_eq!((a * b).data, [0x00000000, 0x00000000, 0xe6667000, 0x0000000f]);
}

#[test]
fn add_carries_across_every_word() {
    let a = words([0xffffffff, 0xffffffff, 0xffffffff, 0x00000000]);
    let b = words([0x00000001, 0x00000000, 0x00000000, 0x00000000]);
    assert_eq!(a + b, ArbitraryFixed::one());
    let c = words([0xffffffff, 0x00000000, 0xffffffff, 0x00000000]);
    assert_eq!((c + c).data, [0xfffffffe, 0x00000001, 0xfffffffe, 0x00000001]);
}

#[test]
fn add_wraps_at_the_extremes() {
    let max = words([0xffffffff, 0xffffffff, 0xffffffff, 0x7fffffff]);
    let min = words([0x00000000, 0x00000000, 0x00000000, 0x80000000]);
    assert_eq!(max + ArbitraryFixed::epsilon(), min);
    assert_eq!(min - ArbitraryFixed::epsilon(), max);
    assert_eq!(min + min, ArbitraryFixed::zero());
}

#[test]
fn neg_of_extremes() {
    let min = words([0x00000000, 0x00000000, 0x00000000, 0x80000000]);
    let max = words([0xffffffff, 0xffffffff, 0xffffffff, 0x7fffffff]);
    assert_eq!(-min, min);
    assert_eq!((-max).data, [0x00000001, 0x00000000, 0x00000000, 0x80000000]);
    assert_eq!(-ArbitraryFixed::zero(), ArbitraryFixed::zero());
    assert_eq!((-ArbitraryFixed::one()).data, [0, 0, 0, 0xffffffff]);
    assert_eq!(min.abs(), min);
    assert_eq!((-ArbitraryFixed::one()).abs(), ArbitraryFixed::one());
}

#[test]
fn mul_signs_and_rounding() {
    let a = fixed(1.5);
    let b = fixed(-2.25);
    assert_eq!((a * b).data, [0x00000000, 0x00000000, 0xa0000000, 0xfffffffc]);
    assert_eq!(b * a, a * b);
    assert_eq!(b * b, fixed(5.0625));
    let eps = ArbitraryFixed::epsilon();
    let half = fixed(0.5);
    // a product below the smallest value is rounded toward zero, whatever its sign
    assert_eq!(eps * half, ArbitraryFixed::zero());
    assert_eq!((-eps) * half, ArbitraryFixed::zero());
    assert_eq!(eps * eps, ArbitraryFixed::zero());
}

#[test]
fn mul_by_one_and_wraparound() {
    let min = words([0x00000000, 0x00000000, 0x00000000, 0x80000000]);
    let one = ArbitraryFixed::one();
    assert_eq!(min * one, min);
    assert_eq!(one * min, min);
    let big = ArbitraryFixed::from(0x10000u32);
    // 2^16 * 2^16 = 2^32 has no room: the product wraps to zero
    assert_eq!(big * big, ArbitraryFixed::zero());
    let x = words([0x89abcdef, 0x01234567, 0xdeadbeef, 0x00001234]);
    assert_eq!(x * one, x);
    assert_eq!((-x) * one, -x);
}

#[test]
fn div_exact_words() {
    let one = ArbitraryFixed::one();
    let three = ArbitraryFixed::from(3u32);
    assert_eq!(
        (one / three).unwrap().data,
        [0x55555554, 0x55555555, 0x55555555, 0x00000000]
    );
    assert_eq!(
        ((-one) / three).unwrap().data,
        [0xaaaaaaac, 0xaaaaaaaa, 0xaaaaaaaa, 0xffffffff]
    );
    assert_eq!(
        (ArbitraryFixed::from(7u32) / -ArbitraryFixed::from(2u32)).unwrap().data,
        [0xfffffffd, 0xffffffff, 0x7fffffff, 0xfffffffc]
    );
    assert_eq!(
        (ArbitraryFixed::from(10u32) / ArbitraryFixed::from(4u32)).unwrap().data,
        [0x00000001, 0x00000000, 0x80000000, 0x00000002]
    );
    assert_eq!(
        (fixed(1.0) / fixed(1481000.0)).unwrap().data,
        [0xe6b255c1, 0x0ba1ed71, 0x00000b54, 0x00000000]
    );
    assert_eq!(
        (one / one).unwrap().data,
        [0xffffffff, 0xffffffff, 0xffffffff, 0x00000000]
    );
    assert_eq!((ArbitraryFixed::zero() / one).unwrap(), ArbitraryFixed::zero());
}

#[test]
fn div_by_zero_is_refused() {
    let one = ArbitraryFixed::one();
    let zero = ArbitraryFixed::zero();
    assert_eq!(one / zero, Err(ArithmeticError::DivisionByZero));
    assert_eq!(zero / zero, Err(ArithmeticError::DivisionByZero));
    assert_eq!(one % zero, Err(ArithmeticError::DivisionByZero));
}

#[test]
fn div_at_the_extremes() {
    let one = ArbitraryFixed::one();
    let min = words([0x00000000, 0x00000000, 0x00000000, 0x80000000]);
    assert_eq!(
        (one / min).unwrap().data,
        [0xfe8223fa, 0xf969889e, 0x30c76666, 0xfffc5700]
    );
    // the quotient 2^90 has no room
    let tiny = words([0x00000040, 0, 0, 0]);
    assert_eq!((one / tiny).unwrap(), ArbitraryFixed::zero());
}

#[test]
fn div_then_mul_is_close() {
    let pairs: [(f32, f32); 4] = [(1.0, 3.0), (-7.25, 0.375), (1000.5, -17.0), (0.001, 5.3)];
    for (fa, fb) in pairs {
        let a = fixed(fa);
        let b = fixed(fb);
        let back = (a / b).unwrap() * b;
        let error = (back - a).abs();
        assert!(error < words([0x00010000, 0, 0, 0]));
    }
}

#[test]
fn inv_exact_words() {
    assert_eq!(
        ArbitraryFixed::from(2u32).inv().data,
        [0xffffffff, 0xffffffff, 0x7fffffff, 0x00000000]
    );
    assert_eq!(
        (-ArbitraryFixed::from(4u32)).inv().data,
        [0x00000001, 0x00000000, 0xc0000000, 0xffffffff]
    );
    assert_eq!(
        ArbitraryFixed::from(3u32).inv().data,
        [0x55555555, 0x55555555, 0x55555555, 0x00000000]
    );
    assert_eq!(
        fixed(5.4).inv().data,
        [0xb25fdee7, 0x0705fc6f, 0x2f684bcc, 0x00000000]
    );
}

#[test]
fn inv_of_zero_and_of_what_is_too_small() {
    assert_eq!(ArbitraryFixed::zero().inv(), ArbitraryFixed::zero());
    // 2^-40: the reciprocal 2^40 has no room
    let tiny = words([0, 0x01000000, 0, 0]);
    assert_eq!(tiny.inv(), ArbitraryFixed::zero());
    let min = words([0x00000000, 0x00000000, 0x00000000, 0x80000000]);
    assert_eq!(min.inv().data, [0x894c7de0, 0x56d9d628, 0x1ee75abc, 0xd8ebc0a9]);
}

#[test]
fn inv_times_value_is_close_to_one() {
    for f in [5.4f32, -3.0, 0.001, 1234.5, -0.75] {
        let a = fixed(f);
        let error = (a.inv() * a - ArbitraryFixed::one()).abs();
        assert!(error < words([0x00010000, 0, 0, 0]));
    }
}

#[test]
fn rem_rounds_the_quotient_down() {
    let two = ArbitraryFixed::from(2u32);
    assert_eq!((fixed(7.5) % two).unwrap(), fixed(1.5));
    // -7.5 / 2 = -3.75, whose whole part is -4: the remainder is 0.5, not -1.5
    assert_eq!((fixed(-7.5) % two).unwrap(), fixed(0.5));
    assert_eq!((fixed(3.0) % fixed(5.3)).unwrap(), fixed(3.0));
}

#[test]
fn remainder_law_on_values() {
    let pairs: [(f32, f32); 4] = [(7.5, 2.0), (-7.5, 2.0), (3.0, 5.3), (-100.25, -0.3)];
    for (fa, fb) in pairs {
        let a = fixed(fa);
        let b = fixed(fb);
        let whole = (a / b).unwrap().truncate_to_integer();
        assert_eq!(whole * b + (a % b).unwrap(), a);
    }
}

#[test]
fn truncate_clears_the_fraction() {
    assert_eq!(fixed(3.75).truncate_to_integer(), fixed(3.0));
    assert_eq!(fixed(-3.75).truncate_to_integer(), fixed(-4.0));
    assert_eq!(fixed(-4.0).truncate_to_integer(), fixed(-4.0));
    assert_eq!(fixed(0.999).truncate_to_integer(), ArbitraryFixed::zero());
}

#[test]
fn add_then_sub_gives_back() {
    let values = [
        words([0x89abcdef, 0x01234567, 0xdeadbeef, 0x00001234]),
        words([0xffffffff, 0xffffffff, 0xffffffff, 0x7fffffff]),
        words([0x00000000, 0x00000000, 0x00000000, 0x80000000]),
        words([0x00000001, 0x00000000, 0x00000000, 0x00000000]),
        ArbitraryFixed::zero(),
    ];
    for a in values {
        for b in values {
            assert_eq!(a + b - b, a);
            assert_eq!(a + b, b + a);
            assert_eq!(a * b, b * a);
        }
        assert_eq!(-(-a), a);
        assert_eq!(a + ArbitraryFixed::zero(), a);
        assert_eq!(a * ArbitraryFixed::one(), a);
    }
}

fn bits(a: ArbitraryFixed) -> u128 {
    let d = a.data;
    (d[0] as u128) | (d[1] as u128) << 32 | (d[2] as u128) << 64 | (d[3] as u128) << 96
}

#[test]
fn reciprocal_within_its_bound() {
    let one = ArbitraryFixed::one();
    let values = [
        fixed(5.4),
        fixed(-5.4),
        fixed(1.0),
        fixed(3.0),
        fixed(0.001),
        fixed(-1234.5),
        fixed(65536.0),
        words([0, 0, 4, 0]),
        words([0x12345678, 0x9abcdef0, 0x0fedcba9, 0x3fffffff]),
    ];
    for a in values {
        let product = a.inv() * a;
        let magnitude = bits(a.abs());
        let below = (4 * magnitude + 4) >> 96;
        assert!(product <= one + ArbitraryFixed::epsilon());
        let short = bits(one + ArbitraryFixed::epsilon() - product);
        assert!(short <= below + 2);
    }
}

#[test]
fn division_within_its_bound() {
    let pairs: [(f32, f32); 8] = [
        (1.0, 3.0),
        (-7.25, 0.375),
        (1000.5, -17.0),
        (0.001, 5.3),
        (1.0, 1481000.0),
        (-123456.0, -0.001),
        (0.0, 2.0),
        (65535.0, 65536.0),
    ];
    for (fa, fb) in pairs {
        let a = fixed(fa);
        let b = fixed(fb);
        let back = (a / b).unwrap() * b;
        let error = bits((back - a).abs());
        let bound = ((16 * (bits(a.abs()) + bits(b.abs()))) >> 96) + 1;
        assert!(error <= bound);
    }
}

#[test]
fn default_is_zero() {
    assert_eq!(ArbitraryFixed::default(), ArbitraryFixed::zero());
    assert_eq!(ArbitraryFixed::default().data, [0, 0, 0, 0]);
}

#[test]
fn products_of_whole_numbers_are_exact() {
    let three = ArbitraryFixed::from(3u32);
    let five = ArbitraryFixed::from(5u32);
    assert_eq!(three * five, ArbitraryFixed::from(15u32));
    assert_eq!((-three) * five, -ArbitraryFixed::from(15u32));
    assert_eq!((-three) * (-five), ArbitraryFixed::from(15u32));
    assert_eq!(three * ArbitraryFixed::zero(), ArbitraryFixed::zero());
    assert_eq!(
        ArbitraryFixed::from(46341u32) * ArbitraryFixed::from(46341u32),
        ArbitraryFixed::from(2147488281u32)
    );
}
