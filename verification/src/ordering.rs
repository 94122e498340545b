//! Equality and order of values.

use crate::model::{in_range, lemma_raw_words, lemma_view_injective, wrap};
use crate::ArbitraryFixed;
use crate::SIZE;
use std::cmp::Ordering;
use vstd::prelude::*;
use vstd::std_specs::cmp::{PartialEqSpec, PartialOrdSpec};

verus! {

impl PartialEq for ArbitraryFixed {
    /// Two values are equal when all their words are.
    fn eq(&self, other: &Self) -> (r: bool) {
        let mut i: usize = 0;
        while i < SIZE
            invariant
                i <= SIZE,
                forall|k: int| 0 <= k < i ==> self.data[k] == other.data[k],
            decreases SIZE - i,
        {
            if self.data[i] != other.data[i] {
                proof {
                    if self@ == other@ {
                        lemma_view_injective(*self, *other);
                    }
                }
                return false;
            }
            i += 1;
        }
        proof {
            assert(self.data@ =~= other.data@);
            assert(self.data =~= other.data);
        }
        true
    }
}

/// What `==` means in contracts: the stored integers are the same.
impl vstd::std_specs::cmp::PartialEqSpecImpl for ArbitraryFixed {
    open spec fn obeys_eq_spec() -> bool {
        true
    }

    open spec fn eq_spec(&self, other: &Self) -> bool {
        self@ == other@
    }
}

impl Eq for ArbitraryFixed {

}

impl PartialOrd for ArbitraryFixed {
    /// A value is less than another when their wrapped difference is
    /// negative, equal when it is zero, greater otherwise.
    fn partial_cmp(&self, other: &Self) -> (r: Option<Ordering>) {
        let a = *self - *other;
        if a.is_negative() {
            Some(Ordering::Less)
        } else if a.is_zero() {
            Some(Ordering::Equal)
        } else {
            Some(Ordering::Greater)
        }
    }
}

/// What `<` and `>` mean in contracts: the sign of the wrapped difference.
impl vstd::std_specs::cmp::PartialOrdSpecImpl for ArbitraryFixed {
    open spec fn obeys_partial_cmp_spec() -> bool {
        true
    }

    open spec fn partial_cmp_spec(&self, other: &Self) -> Option<Ordering> {
        let d = wrap(self@ - other@);
        if d < 0 {
            Some(Ordering::Less)
        } else if d == 0 {
            Some(Ordering::Equal)
        } else {
            Some(Ordering::Greater)
        }
    }
}

/// Of `a < b`, `a == b` and `a > b` exactly one holds, and `a == b` holds
/// only of a value and itself.
pub proof fn lemma_exactly_one_relation(a: ArbitraryFixed, b: ArbitraryFixed)
    ensures
        a.partial_cmp_spec(&b) == Some(Ordering::Less) || a.eq_spec(&b) || a.partial_cmp_spec(&b)
            == Some(Ordering::Greater),
        !(a.partial_cmp_spec(&b) == Some(Ordering::Less) && a.eq_spec(&b)),
        !(a.partial_cmp_spec(&b) == Some(Ordering::Greater) && a.eq_spec(&b)),
        !(a.partial_cmp_spec(&b) == Some(Ordering::Less) && a.partial_cmp_spec(&b) == Some(
            Ordering::Greater,
        )),
        a.eq_spec(&b) <==> a.partial_cmp_spec(&b) == Some(Ordering::Equal),
        a.eq_spec(&b) <==> a == b,
{
    lemma_raw_words(a);
    lemma_raw_words(b);
    if a@ == b@ {
        lemma_view_injective(a, b);
    }
}

/// Where the difference of the stored integers does not wrap either way,
/// the order is that of the stored integers, and so of the numbers they
/// stand for. Two values that are `2^127` apart are each less than the
/// other.
pub proof fn lemma_order_of_integers(a: ArbitraryFixed, b: ArbitraryFixed)
    requires
        in_range(a@ - b@),
        in_range(b@ - a@),
    ensures
        a.partial_cmp_spec(&b) == Some(Ordering::Less) <==> a@ < b@,
        a.partial_cmp_spec(&b) == Some(Ordering::Greater) <==> a@ > b@,
        a.partial_cmp_spec(&b) == Some(Ordering::Less) <==> b.partial_cmp_spec(&a) == Some(
            Ordering::Greater,
        ),
{
    lemma_raw_words(a);
    lemma_raw_words(b);
}

/// Among values whose differences do not wrap, the order is transitive.
pub proof fn lemma_order_transitive(a: ArbitraryFixed, b: ArbitraryFixed, c: ArbitraryFixed)
    requires
        in_range(a@ - b@),
        in_range(b@ - a@),
        in_range(b@ - c@),
        in_range(c@ - b@),
        in_range(a@ - c@),
        in_range(c@ - a@),
        a.partial_cmp_spec(&b) == Some(Ordering::Less),
        b.partial_cmp_spec(&c) == Some(Ordering::Less),
    ensures
        a.partial_cmp_spec(&c) == Some(Ordering::Less),
{
    lemma_order_of_integers(a, b);
    lemma_order_of_integers(b, c);
    lemma_order_of_integers(a, c);
}

} // verus!
