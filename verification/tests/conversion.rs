use arbitrary_fixed::ArbitraryFixed;
use arbitrary_fixed::ParseError;

#[test]
fn from_small_integers() {
    assert_eq!(ArbitraryFixed::from(0u32), ArbitraryFixed::zero());
    assert_eq!(ArbitraryFixed::from(1u32), ArbitraryFixed::one());
    assert_eq!(ArbitraryFixed::from(64u32).data, [0, 0, 0, 64]);
    assert!(ArbitraryFixed::from(0x80000000u32).is_negative());
    assert_eq!(ArbitraryFixed::from(-1i128).data, [0, 0, 0, 0xffffffff]);
    assert_eq!(ArbitraryFixed::from(-1i128), -ArbitraryFixed::one());
    assert_eq!(ArbitraryFixed::from(0x1_0000_0005i128).data, [0, 0, 0, 5]);
    assert_eq!(ArbitraryFixed::from(i128::MIN), ArbitraryFixed::zero());
}

#[test]
fn from_text_in_a_radix() {
    assert_eq!(ArbitraryFixed::from_str_radix("12", 10), Ok(ArbitraryFixed::from(12u32)));
    assert_eq!(ArbitraryFixed::from_str_radix("-12", 10), Ok(-ArbitraryFixed::from(12u32)));
    assert_eq!(ArbitraryFixed::from_str_radix("+ff", 16), Ok(ArbitraryFixed::from(255u32)));
    assert_eq!(ArbitraryFixed::from_str_radix("101", 2), Ok(ArbitraryFixed::from(5u32)));
    assert_eq!(ArbitraryFixed::from_str_radix("zz", 36), Ok(ArbitraryFixed::from(1295u32)));
    assert_eq!(ArbitraryFixed::from_str_radix("0", 10), Ok(ArbitraryFixed::zero()));
}

#[test]
fn from_text_that_is_refused() {
    assert_eq!(ArbitraryFixed::from_str_radix("", 10), Err(ParseError::Empty));
    assert_eq!(ArbitraryFixed::from_str_radix("12x", 10), Err(ParseError::InvalidDigit));
    assert_eq!(ArbitraryFixed::from_str_radix("-", 10), Err(ParseError::InvalidDigit));
    assert_eq!(ArbitraryFixed::from_str_radix("9", 8), Err(ParseError::InvalidDigit));
    assert_eq!(ArbitraryFixed::from_str_radix("12", 1), Err(ParseError::InvalidRadix));
    assert_eq!(ArbitraryFixed::from_str_radix("12", 0), Err(ParseError::InvalidRadix));
    assert_eq!(ArbitraryFixed::from_str_radix("12", 37), Err(ParseError::InvalidRadix));
    assert_eq!(
        ArbitraryFixed::from_str_radix("170141183460469231731687303715884105728", 10),
        Err(ParseError::PosOverflow)
    );
    assert_eq!(
        ArbitraryFixed::from_str_radix("-170141183460469231731687303715884105729", 10),
        Err(ParseError::NegOverflow)
    );
}

#[test]
fn from_parsed_keeps_the_failure() {
    assert_eq!(ArbitraryFixed::from_parsed(Ok(7)), Ok(ArbitraryFixed::from(7u32)));
    assert_eq!(ArbitraryFixed::from_parsed(Err(ParseError::Other)), Err(ParseError::Other));
    assert_eq!(ArbitraryFixed::from_parsed(Err(ParseError::Empty)), Err(ParseError::Empty));
}

#[test]
fn from_float_bits_exact_words() {
    let cases: [(f32, [u32; 4]); 8] = [
        (5.3, [0x00000000, 0x00000000, 0x4cccd000, 0x00000005]),
        (0.1, [0x00000000, 0x00000000, 0x199999a0, 0x00000000]),
        (-0.1, [0x00000000, 0x00000000, 0xe6666660, 0xffffffff]),
        (1e-20, [0x2f394200, 0x00000000, 0x00000000, 0x00000000]),
        (1.5, [0x00000000, 0x00000000, 0x80000000, 0x00000001]),
        (0.75, [0x00000000, 0x00000000, 0xc0000000, 0x00000000]),
        (123456.789, [0x00000000, 0x00000000, 0xca000000, 0x0001e240]),
        (5.4, [0x00000000, 0x00000000, 0x66666800, 0x00000005]),
    ];
    for (f, data) in cases {
        assert_eq!(ArbitraryFixed::from_f32_bits(f.to_bits()).data, data);
    }
}

#[test]
fn from_float_bits_out_of_range() {
    let zero = ArbitraryFixed::zero();
    assert_eq!(ArbitraryFixed::from_f32_bits(0.0f32.to_bits()), zero);
    assert_eq!(ArbitraryFixed::from_f32_bits((-0.0f32).to_bits()), zero);
    // too small to be told from zero
    assert_eq!(ArbitraryFixed::from_f32_bits(1e-30f32.to_bits()), zero);
    assert_eq!(ArbitraryFixed::from_f32_bits(f32::MIN_POSITIVE.to_bits()), zero);
    assert_eq!(ArbitraryFixed::from_f32_bits(1e-45f32.to_bits()), zero);
    // too large: the bits that pass the top are lost
    assert_eq!(ArbitraryFixed::from_f32_bits(4294967296.0f32.to_bits()), zero);
    assert_eq!(ArbitraryFixed::from_f32_bits(3.4e38f32.to_bits()), zero);
    assert_eq!(ArbitraryFixed::from_f32_bits(f32::INFINITY.to_bits()), zero);
    assert_eq!(ArbitraryFixed::from_f32_bits(f32::NAN.to_bits()), zero);
    let min = ArbitraryFixed { data: [0, 0, 0, 0x80000000] };
    assert_eq!(ArbitraryFixed::from_f32_bits(2147483648.0f32.to_bits()), min);
    assert_eq!(ArbitraryFixed::from_f32_bits((-2147483648.0f32).to_bits()), min);
}

#[test]
fn to_float_bits_rounds_to_nearest_even() {
    let cases: [([u32; 4], u32); 13] = [
        ([0x00000000, 0x00000000, 0x00000100, 0x00000001], 0x3f800000),
        ([0x00000001, 0x00000000, 0x00000100, 0x00000001], 0x3f800001),
        ([0x00000000, 0x00000000, 0x00000300, 0x00000001], 0x3f800002),
        ([0xffffffff, 0xffffffff, 0xffffffff, 0x00000001], 0x40000000),
        ([0x00000001, 0x00000000, 0x00000000, 0x00000000], 0x0f800000),
        ([0x00000003, 0x00000000, 0x00000000, 0x00000000], 0x10400000),
        ([0x01000001, 0x00000000, 0x00000000, 0x00000000], 0x1b800000),
        ([0x02000003, 0x00000000, 0x00000000, 0x00000000], 0x1c000001),
        ([0x02000002, 0x00000000, 0x00000000, 0x00000000], 0x1c000000),
        ([0x00000000, 0x00000000, 0x00000000, 0x80000000], 0xcf000000),
        ([0xffffffff, 0xffffffff, 0xffffffff, 0x7fffffff], 0x4f000000),
        ([0xffffffff, 0xffffffff, 0xffffffff, 0xffffffff], 0x8f800000),
        ([0x00000000, 0x00000000, 0x00000000, 0xffffffff], 0xbf800000),
    ];
    for (data, bits) in cases {
        assert_eq!(ArbitraryFixed { data }.to_f32_bits(), bits);
    }
    assert_eq!(ArbitraryFixed::zero().to_f32_bits(), 0);
}

#[test]
fn float_round_trip() {
    for f in [3.0f32, 5.3, -2.3, 15.9, 0.1, -0.1, 1e-20, 123456.789, -2147483648.0, 0.0] {
        let a = ArbitraryFixed::from_f32_bits(f.to_bits());
        assert_eq!(f32::from_bits(a.to_f32_bits()), f);
    }
}

#[test]
fn scenarios_in_floating_point() {
    let fixed = |f: f32| ArbitraryFixed::from_f32_bits(f.to_bits());
    let float = |a: ArbitraryFixed| f32::from_bits(a.to_f32_bits());
    let a = fixed(3.0);
    let b = fixed(5.3);
    assert!((float(a + b) - 8.3).abs() < 1e-6);
    assert!((float(a - b) + 2.3).abs() < 1e-6);
    assert!((float(a * b) - 15.9).abs() < 1e-5);
    assert!((float((fixed(1.0) / fixed(1481000.0)).unwrap()) - 6.75e-7).abs() < 1e-9);
    assert!((float(fixed(5.4).inv()) - 0.185185).abs() < 1e-6);
    assert!((float(fixed(13318.0).sqrt()) - 115.4036).abs() < 1e-4);
    assert!((float((a % b).unwrap()) - 3.0).abs() < 1e-6);
}

#[test]
fn renderings_as_text() {
    let a = ArbitraryFixed::from_f32_bits(5.4f32.to_bits());
    assert_eq!(a.debug_string(), "ArbitraryFixed { data: [00000000, 00000000, 66666800, 00000005] }");
    assert_eq!(
        ArbitraryFixed::from(64u32).glsl_const("FIX_SIXTY_FOUR"),
        "const uint FIX_SIXTY_FOUR[4] = uint[4](0x00000000u, 0x00000000u, 0x00000000u, 0x00000040u);"
    );
    let half = (-ArbitraryFixed::from(1u32)).rshift1();
    assert_eq!(
        half.glsl_const("FIX_NEG_HALF"),
        "const uint FIX_NEG_HALF[4] = uint[4](0x00000000u, 0x00000000u, 0x80000000u, 0xffffffffu);"
    );
    let digits = ArbitraryFixed { data: [0x01234567, 0x89abcdef, 0xfedcba98, 0x76543210] };
    assert_eq!(
        digits.debug_string(),
        "ArbitraryFixed { data: [01234567, 89abcdef, fedcba98, 76543210] }"
    );
}

#[test]
fn from_double_bits_exact_words() {
    let cases: [(f64, [u32; 4]); 9] = [
        (5.3, [0x00000000, 0xccccc000, 0x4ccccccc, 0x00000005]),
        (-0.1, [0x00000000, 0x66666600, 0xe6666666, 0xffffffff]),
        (1e-20, [0x2f394219, 0x00000000, 0x00000000, 0x00000000]),
        (1e-30, [0x00000000, 0x00000000, 0x00000000, 0x00000000]),
        (2147483648.0, [0x00000000, 0x00000000, 0x00000000, 0x80000000]),
        (-2147483648.0, [0x00000000, 0x00000000, 0x00000000, 0x80000000]),
        (1e300, [0x00000000, 0x00000000, 0x00000000, 0x00000000]),
        (3.0, [0x00000000, 0x00000000, 0x00000000, 0x00000003]),
        (0.0, [0x00000000, 0x00000000, 0x00000000, 0x00000000]),
    ];
    for (f, data) in cases {
        assert_eq!(ArbitraryFixed::from_f64_bits(f.to_bits()).data, data);
    }
    assert_eq!(ArbitraryFixed::from_f64_bits(f64::INFINITY.to_bits()), ArbitraryFixed::zero());
    assert_eq!(ArbitraryFixed::from_f64_bits(f64::NAN.to_bits()), ArbitraryFixed::zero());
    assert_eq!(ArbitraryFixed::from_f64_bits(5e-324f64.to_bits()), ArbitraryFixed::zero());
}

#[test]
fn division_constants_are_the_doubles() {
    assert_eq!(
        ArbitraryFixed::from_f64_bits(2.82352941176f64.to_bits()),
        ArbitraryFixed::div_intercept()
    );
    assert_eq!(
        ArbitraryFixed::from_f64_bits(1.88235294118f64.to_bits()),
        ArbitraryFixed::div_slope()
    );
    assert_eq!(ArbitraryFixed::div_intercept().data, arbitrary_fixed::constants::DIV_SEED_INTERCEPT);
    assert_eq!(ArbitraryFixed::div_slope().data, arbitrary_fixed::constants::DIV_SEED_SLOPE);
    assert_eq!(arbitrary_fixed::constants::DIV_ITERATIONS, 6);
    assert_eq!(arbitrary_fixed::constants::INV_ITERATIONS, 8);
    assert_eq!(arbitrary_fixed::constants::SQRT_ITERATIONS, 8);
    assert_eq!(arbitrary_fixed::SIZE, 4);
    assert_eq!(arbitrary_fixed::SCALING_FACTOR, 96);
}

#[test]
fn to_double_bits_rounds_to_nearest_even() {
    let cases: [([u32; 4], u64); 11] = [
        ([0x00000001, 0x00000000, 0x00000000, 0x00000000], 0x39f0000000000000),
        ([0x00000003, 0x00000000, 0x00000000, 0x00000000], 0x3a08000000000000),
        ([0xffffffff, 0xffffffff, 0xffffffff, 0x7fffffff], 0x41e0000000000000),
        ([0x00000000, 0x00000000, 0x00000000, 0x80000000], 0xc1e0000000000000),
        ([0xffffffff, 0xffffffff, 0xffffffff, 0xffffffff], 0xb9f0000000000000),
        ([0x00000001, 0x00000000, 0x00000000, 0x00000001], 0x3ff0000000000000),
        ([0x00000000, 0x00000800, 0x00000000, 0x00000001], 0x3ff0000000000000),
        ([0x00000001, 0x00000800, 0x00000000, 0x00000001], 0x3ff0000000000001),
        ([0x00000000, 0x00001800, 0x00000000, 0x00000001], 0x3ff0000000000002),
        ([0x55555554, 0x55555555, 0x55555555, 0x00000000], 0x3fd5555555555555),
        ([0xb2fb1368, 0xf3bcc908, 0x6a09e667, 0x00000001], 0x3ff6a09e667f3bcd),
    ];
    for (data, bits) in cases {
        assert_eq!(ArbitraryFixed { data }.to_f64_bits(), bits);
    }
    assert_eq!(ArbitraryFixed::zero().to_f64_bits(), 0);
}

#[test]
fn double_round_trip() {
    for f in [3.0f64, 5.3, -2.3, 15.9, 0.1, -0.1, 123456.789, -2147483648.0, 0.0, 2.82352941176] {
        let a = ArbitraryFixed::from_f64_bits(f.to_bits());
        assert_eq!(f64::from_bits(a.to_f64_bits()), f);
    }
    let root = ArbitraryFixed::from(2u32).sqrt();
    assert_eq!(f64::from_bits(root.to_f64_bits()), 2.0f64.sqrt());
}
