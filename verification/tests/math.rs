use arbitrary_fixed::ArbitraryFixed;

fn fixed(f: f32) -> ArbitraryFixed {
    ArbitraryFixed::from_f32_bits(f.to_bits())
}

fn float(a: ArbitraryFixed) -> f32 {
    f32::from_bits(a.to_f32_bits())
}

#[test]
fn test_sqrt() {
    let fa: f32 = 13318.0;
    let a: ArbitraryFixed = fixed(fa);
    assert_eq!(float(a.sqrt()), fa.sqrt());
}

#[test]
fn sqrt_exact_words() {
    assert_eq!(
        fixed(13318.0).sqrt().data,
        [0x2f519903, 0xa7d9aeee, 0x6754ea5c, 0x00000073]
    );
    assert_eq!(
        ArbitraryFixed::from(2u32).sqrt().data,
        [0xb2fb1368, 0xf3bcc908, 0x6a09e667, 0x00000001]
    );
    assert_eq!(
        ArbitraryFixed::from(4u32).sqrt().data,
        [0x00000001, 0x00000000, 0x00000000, 0x00000002]
    );
    assert_eq!(
        fixed(0.25).sqrt().data,
        [0xffffffff, 0xffffffff, 0x7fffffff, 0x00000000]
    );
}

#[test]
fn sqrt_of_zero_is_zero() {
    assert_eq!(ArbitraryFixed::zero().sqrt(), ArbitraryFixed::zero());
}

#[test]
fn sqrt_squared_is_close() {
    for f in [13318.0f32, 2.0, 0.25, 1.0, 1000000.0, 0.0001] {
        let a = fixed(f);
        let root = a.sqrt();
        let error = (root * root - a).abs();
        assert!(error < ArbitraryFixed { data: [0, 0x00000100, 0, 0] });
    }
}

#[test]
fn sqrt_outside_its_domain() {
    // a negative value and one too large to iterate on without wrapping:
    // the iteration runs all the same
    assert_eq!(
        (-ArbitraryFixed::one()).sqrt().data,
        [0x5e506cf9, 0x7dfa0a44, 0xff5555d2, 0x0000007f]
    );
    assert_eq!(
        ArbitraryFixed { data: [0xffffffff, 0xffffffff, 0xffffffff, 0x7fffffff] }.sqrt().data,
        [0x63adc57d, 0xf60331dc, 0x384c7421, 0xffd8362d]
    );
}

fn bits(a: ArbitraryFixed) -> u128 {
    let d = a.data;
    (d[0] as u128) | (d[1] as u128) << 32 | (d[2] as u128) << 64 | (d[3] as u128) << 96
}

#[test]
fn sqrt_within_its_bound() {
    let values = [
        fixed(13318.0),
        fixed(2.0),
        fixed(4.0),
        fixed(0.25),
        fixed(1.0),
        fixed(1000000.0),
        fixed(0.0001),
        fixed(3.0e-10),
        ArbitraryFixed { data: [0x1000, 0, 0, 0] },
        ArbitraryFixed { data: [0xffffffff, 0xffffffff, 0xffffffff, 0x0fffffff] },
        ArbitraryFixed { data: [0x89abcdef, 0x01234567, 0xdeadbeef, 0x00001234] },
    ];
    for a in values {
        let root = a.sqrt();
        assert!(!root.is_negative());
        let error = bits((root * root - a).abs());
        let slack = ((193 * (bits(a) >> 8) + 768 * (bits(root) >> 8)) >> 88) + 5;
        assert!(error <= slack);
    }
}
