use vstd::prelude::*;

use crate::num::Num;
use core::cmp::Ordering;

verus! {

/// How two numbers compare natively: `None` when either is NaN, else by their
/// place on the number line (so the two zeros are equal).
pub open spec fn native_cmp(a: Num, b: Num) -> Option<Ordering> {
    if a.is_nan_spec() || b.is_nan_spec() {
        None
    } else if a.key() < b.key() {
        Some(Ordering::Less)
    } else if a.key() > b.key() {
        Some(Ordering::Greater)
    } else {
        Some(Ordering::Equal)
    }
}

/// Native equality: never true of a NaN, true of the two zeros.
pub open spec fn native_eq(a: Num, b: Num) -> bool {
    native_cmp(a, b) == Some(Ordering::Equal)
}

/// The ordering used for ranking. Where the native comparison answers, it
/// stands; otherwise a finite left operand is greater, and an infinite or NaN
/// one is less.
pub open spec fn total_cmp(a: Num, b: Num) -> Ordering {
    match native_cmp(a, b) {
        Some(o) => o,
        None => if a.is_finite_spec() {
            Ordering::Greater
        } else {
            Ordering::Less
        },
    }
}

pub open spec fn reversed(o: Ordering) -> Ordering {
    match o {
        Ordering::Less => Ordering::Greater,
        Ordering::Equal => Ordering::Equal,
        Ordering::Greater => Ordering::Less,
    }
}

/// A number wrapped so that it can be ranked.
#[derive(Clone, Copy, Debug)]
pub struct OrderedFloat {
    pub value: Num,
}

impl OrderedFloat {
    pub fn new(value: Num) -> (r: OrderedFloat)
        ensures
            r.value == value,
    {
        OrderedFloat { value }
    }

    pub fn native_cmp(&self, other: &OrderedFloat) -> (r: Option<Ordering>)
        ensures
            r == native_cmp(self.value, other.value),
    {
        if self.value.is_nan() || other.value.is_nan() {
            return None;
        }
        let a = self.value.key_exec();
        let b = other.value.key_exec();
        if a < b {
            Some(Ordering::Less)
        } else if a > b {
            Some(Ordering::Greater)
        } else {
            Some(Ordering::Equal)
        }
    }

    /// Native equality of the wrapped numbers.
    pub fn eq(&self, other: &OrderedFloat) -> (r: bool)
        ensures
            r == native_eq(self.value, other.value),
    {
        match self.native_cmp(other) {
            Some(Ordering::Equal) => true,
            _ => false,
        }
    }

    pub fn cmp(&self, other: &OrderedFloat) -> (r: Ordering)
        ensures
            r == total_cmp(self.value, other.value),
    {
        match self.native_cmp(other) {
            Some(o) => o,
            None => {
                if self.value.is_finite() {
                    return Ordering::Greater;
                }
                if self.value.is_infinite() {
                    return Ordering::Less;
                }
                Ordering::Less
            },
        }
    }
}

impl From<Num> for OrderedFloat {
    fn from(value: Num) -> (r: OrderedFloat) {
        OrderedFloat::new(value)
    }
}

impl vstd::std_specs::convert::FromSpecImpl<Num> for OrderedFloat {
    open spec fn obeys_from_spec() -> bool {
        true
    }

    open spec fn from_spec(value: Num) -> OrderedFloat {
        OrderedFloat { value }
    }
}

/// Where the native comparison fails because exactly one operand is NaN and
/// the other is finite, or where it does not fail at all, swapping the
/// operands reverses the ordering.
pub proof fn lemma_total_cmp_antisymmetric(a: Num, b: Num)
    requires
        !(a.is_nan_spec() && b.is_nan_spec()),
        !(a.is_nan_spec() && b.is_infinite_spec()),
        !(b.is_nan_spec() && a.is_infinite_spec()),
    ensures
        total_cmp(b, a) == reversed(total_cmp(a, b)),
{
}

/// "Less" under the ranking order is transitive on every chain but two
/// shapes, where the rules of the order themselves break it: an infinity
/// below a NaN below a number no greater than that infinity (`+inf, NaN, 1.0`
/// or `-inf, NaN, -inf`), and a finite number below an infinity below a NaN
/// (`1.0, +inf, NaN`).
pub proof fn lemma_total_cmp_transitive(a: Num, b: Num, c: Num)
    requires
        !(a.is_infinite_spec() && b.is_nan_spec() && !c.is_nan_spec() && a.key() >= c.key()),
        !(a.is_finite_spec() && b.is_infinite_spec() && c.is_nan_spec()),
        total_cmp(a, b) == Ordering::Less,
        total_cmp(b, c) == Ordering::Less,
    ensures
        total_cmp(a, c) == Ordering::Less,
{
}

/// A NaN ranks below every number, and every finite number ranks above a NaN.
pub proof fn lemma_nan_lowest(a: Num, b: Num)
    requires
        a.is_nan_spec(),
    ensures
        total_cmp(a, b) == Ordering::Less,
        b.is_finite_spec() ==> total_cmp(b, a) == Ordering::Greater,
{
}

} // verus!
