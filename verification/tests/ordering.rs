use arbitrary_fixed::ArbitraryFixed;
use std::cmp::Ordering;

fn fixed(f: f32) -> ArbitraryFixed {
    ArbitraryFixed::from_f32_bits(f.to_bits())
}

#[test]
fn order_of_numbers() {
    let values = [fixed(-100.5), fixed(-0.001), fixed(0.0), fixed(0.001), fixed(3.0), fixed(5.3)];
    for i in 0..values.len() {
        for j in 0..values.len() {
            assert_eq!(values[i].partial_cmp(&values[j]), Some(i.cmp(&j)));
            assert_eq!(values[i] < values[j], i < j);
            assert_eq!(values[i] > values[j], i > j);
            assert_eq!(values[i] == values[j], i == j);
            assert_eq!(values[i] <= values[j], i <= j);
        }
    }
}

#[test]
fn exactly_one_relation_holds() {
    let values = [
        ArbitraryFixed { data: [0, 0, 0, 0x80000000] },
        ArbitraryFixed { data: [0xffffffff, 0xffffffff, 0xffffffff, 0x7fffffff] },
        ArbitraryFixed { data: [1, 0, 0, 0] },
        ArbitraryFixed { data: [0, 0, 1, 0] },
        ArbitraryFixed::zero(),
        (-ArbitraryFixed::one()),
    ];
    for a in values {
        for b in values {
            let count = [a < b, a == b, a > b].iter().filter(|x| **x).count();
            assert_eq!(count, 1);
            assert_eq!(a == b, a.data == b.data);
        }
    }
}

#[test]
fn order_where_the_difference_wraps() {
    let zero = ArbitraryFixed::zero();
    let min = ArbitraryFixed { data: [0, 0, 0, 0x80000000] };
    let max = ArbitraryFixed { data: [0xffffffff, 0xffffffff, 0xffffffff, 0x7fffffff] };
    // two values 2^127 apart are each less than the other
    assert_eq!(zero.partial_cmp(&min), Some(Ordering::Less));
    assert_eq!(min.partial_cmp(&zero), Some(Ordering::Less));
    // the largest value less the smallest wraps to a negative difference
    assert_eq!(max.partial_cmp(&min), Some(Ordering::Less));
    assert_eq!(min.partial_cmp(&max), Some(Ordering::Greater));
}

#[test]
fn queries_on_the_bit_pattern() {
    assert!(ArbitraryFixed::zero().is_zero());
    assert!(!ArbitraryFixed::one().is_zero());
    assert!(!ArbitraryFixed { data: [0, 0, 1, 0] }.is_zero());
    assert!(ArbitraryFixed::one().is_one());
    assert!(!ArbitraryFixed::zero().is_one());
    assert!(!ArbitraryFixed::one().is_negative());
    assert!((-ArbitraryFixed::one()).is_negative());
    assert!(ArbitraryFixed { data: [0, 0, 0, 0x80000000] }.is_negative());
    assert!(!ArbitraryFixed { data: [0xffffffff, 0xffffffff, 0xffffffff, 0x7fffffff] }.is_negative());
    assert_eq!(ArbitraryFixed::one().data, [0, 0, 0, 1]);
    assert_eq!(ArbitraryFixed::two().data, [0, 0, 0, 2]);
    assert_eq!(ArbitraryFixed::epsilon().data, [1, 0, 0, 0]);
}

#[test]
fn most_significant_bit() {
    assert_eq!(ArbitraryFixed::zero().msb(), -1);
    assert_eq!(ArbitraryFixed::epsilon().msb(), 0);
    assert_eq!(ArbitraryFixed::one().msb(), 96);
    assert_eq!(ArbitraryFixed { data: [0, 0x80000000, 0, 0] }.msb(), 63);
    assert_eq!(ArbitraryFixed { data: [0xffffffff, 3, 0, 0] }.msb(), 33);
    assert_eq!(ArbitraryFixed { data: [0xffffffff, 0, 0, 0] }.msb(), 31);
    assert_eq!((-ArbitraryFixed::one()).msb(), 127);
    assert_eq!(fixed(5.3).msb(), 98);
}
