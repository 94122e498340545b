use arbitrary_fixed::ArbitraryFixed;

fn words(data: [u32; 4]) -> ArbitraryFixed {
    ArbitraryFixed { data }
}

#[test]
fn shift_left_across_words() {
    let a = words([0x89abcdef, 0x01234567, 0xdeadbeef, 0x00001234]);
    assert_eq!(a.lshift(0), a);
    assert_eq!(a.lshift(4).data, [0x9abcdef0, 0x12345678, 0xeadbeef0, 0x0001234d]);
    assert_eq!(a.lshift(32).data, [0, 0x89abcdef, 0x01234567, 0xdeadbeef]);
    assert_eq!(a.lshift(36).data, [0, 0x9abcdef0, 0x12345678, 0xeadbeef0]);
    assert_eq!(a.lshift(127).data, [0, 0, 0, 0x80000000]);
    assert_eq!(a.lshift(128), ArbitraryFixed::zero());
    assert_eq!(a.lshift(1000), ArbitraryFixed::zero());
    assert_eq!(a.lshift1(), a.lshift(1));
    assert_eq!(a.lshift1(), a + a);
}

#[test]
fn shift_right_keeps_the_sign() {
    let a = words([0x89abcdef, 0x01234567, 0xdeadbeef, 0x00001234]);
    assert_eq!(a.rshift(0), a);
    assert_eq!(a.rshift(4).data, [0x789abcde, 0xf0123456, 0x4deadbee, 0x00000123]);
    assert_eq!(a.rshift(32).data, [0x01234567, 0xdeadbeef, 0x00001234, 0]);
    assert_eq!(a.rshift(100).data, [0x00000123, 0, 0, 0]);
    assert_eq!(a.rshift(128), ArbitraryFixed::zero());
    let n = words([0x89abcdef, 0x01234567, 0xdeadbeef, 0x80001234]);
    assert_eq!(n.rshift(4).data, [0x789abcde, 0xf0123456, 0x4deadbee, 0xf8000123]);
    assert_eq!(n.rshift(32).data, [0x01234567, 0xdeadbeef, 0x80001234, 0xffffffff]);
    assert_eq!(n.rshift(100).data, [0xf8000123, 0xffffffff, 0xffffffff, 0xffffffff]);
    assert_eq!(n.rshift(127).data, [0xffffffff, 0xffffffff, 0xffffffff, 0xffffffff]);
    assert_eq!(n.rshift(128).data, [0xffffffff, 0xffffffff, 0xffffffff, 0xffffffff]);
    assert_eq!(n.rshift(5000).data, [0xffffffff, 0xffffffff, 0xffffffff, 0xffffffff]);
    assert_eq!(n.rshift1(), n.rshift(1));
}

#[test]
fn shift_right_rounds_down() {
    let minus_eps = words([0xffffffff, 0xffffffff, 0xffffffff, 0xffffffff]);
    assert_eq!(minus_eps.rshift1(), minus_eps);
    assert_eq!(ArbitraryFixed::epsilon().rshift1(), ArbitraryFixed::zero());
    let minus_half = (-ArbitraryFixed::one()).rshift1();
    assert_eq!(minus_half.data, [0, 0, 0x80000000, 0xffffffff]);
    assert_eq!(minus_half, ArbitraryFixed::from_f32_bits((-0.5f32).to_bits()));
}
