use vstd::prelude::*;
use core::cmp::Ordering;
use vstd::std_specs::cmp::PartialOrdSpecImpl;
use vstd::std_specs::ops::{AddSpecImpl, SubSpecImpl};

verus! {

/// The capacity of an edge of a flow network: a number, or unbounded.
#[derive(Debug, Clone, Copy, PartialEq, Eq, Structural, Ord)]
pub enum Capacity {
    Finite(u64),
    Infinity,
}

/// Sum of two capacities; unbounded when either is.
pub open spec fn cap_add(a: Capacity, b: Capacity) -> Capacity {
    match (a, b) {
        (Capacity::Finite(x), Capacity::Finite(y)) => Capacity::Finite((x + y) as u64),
        _ => Capacity::Infinity,
    }
}

/// A sum of two capacities that fits.
pub open spec fn cap_add_ok(a: Capacity, b: Capacity) -> bool {
    match (a, b) {
        (Capacity::Finite(x), Capacity::Finite(y)) => x + y <= u64::MAX,
        _ => true,
    }
}

/// Difference of two capacities: unbounded minus anything stays unbounded.
pub open spec fn cap_sub(a: Capacity, b: Capacity) -> Capacity {
    match (a, b) {
        (Capacity::Finite(x), Capacity::Finite(y)) => Capacity::Finite((x - y) as u64),
        _ => Capacity::Infinity,
    }
}

/// A difference that is defined: no underflow, and nothing unbounded is
/// taken from a finite capacity.
pub open spec fn cap_sub_ok(a: Capacity, b: Capacity) -> bool {
    match (a, b) {
        (Capacity::Finite(x), Capacity::Finite(y)) => x >= y,
        (Capacity::Finite(_), Capacity::Infinity) => false,
        _ => true,
    }
}

/// `a <= b`, where every finite capacity is below the unbounded one.
pub open spec fn cap_le(a: Capacity, b: Capacity) -> bool {
    match (a, b) {
        (Capacity::Finite(x), Capacity::Finite(y)) => x <= y,
        (_, Capacity::Infinity) => true,
        (Capacity::Infinity, Capacity::Finite(_)) => false,
    }
}

/// The smaller of two capacities.
pub open spec fn cap_min(a: Capacity, b: Capacity) -> Capacity {
    if cap_le(a, b) { a } else { b }
}

/// The comparison of two capacities.
pub open spec fn cap_order(a: Capacity, b: Capacity) -> Option<Ordering> {
    match (a, b) {
        (Capacity::Finite(x), Capacity::Finite(y)) => Some(
            if x < y { Ordering::Less } else if x == y { Ordering::Equal } else { Ordering::Greater },
        ),
        (Capacity::Finite(_), Capacity::Infinity) => Some(Ordering::Less),
        (Capacity::Infinity, Capacity::Finite(_)) => Some(Ordering::Greater),
        (Capacity::Infinity, Capacity::Infinity) => Some(Ordering::Equal),
    }
}

impl Capacity {
    /// The finite value. Panics on an unbounded capacity, which is therefore
    /// excluded.
    pub fn unwrap(self) -> (r: u64)
        requires
            self is Finite,
        ensures
            self == Capacity::Finite(r),
    {
        match self {
            Capacity::Finite(x) => x,
            Capacity::Infinity => {
                proof {
                    assert(false);
                }
                0
            },
        }
    }

    /// The smaller of `self` and `other`.
    pub fn min(self, other: Capacity) -> (r: Capacity)
        ensures
            r == cap_min(self, other),
    {
        match (self, other) {
            (Capacity::Finite(x), Capacity::Finite(y)) => if x <= y { self } else { other },
            (_, Capacity::Infinity) => self,
            (Capacity::Infinity, Capacity::Finite(_)) => other,
        }
    }

    /// Whether the capacity is zero.
    pub fn is_zero(self) -> (r: bool)
        ensures
            r == (self == Capacity::Finite(0)),
    {
        match self {
            Capacity::Finite(x) => x == 0,
            Capacity::Infinity => false,
        }
    }
}

impl PartialOrd for Capacity {
    fn partial_cmp(&self, other: &Self) -> (r: Option<Ordering>) {
        match self {
            Capacity::Finite(x) => match other {
                Capacity::Finite(y) => if *x < *y {
                    Some(Ordering::Less)
                } else if *x == *y {
                    Some(Ordering::Equal)
                } else {
                    Some(Ordering::Greater)
                },
                Capacity::Infinity => Some(Ordering::Less),
            },
            Capacity::Infinity => match other {
                Capacity::Finite(_) => Some(Ordering::Greater),
                Capacity::Infinity => Some(Ordering::Equal),
            },
        }
    }
}

impl PartialOrdSpecImpl for Capacity {
    open spec fn obeys_partial_cmp_spec() -> bool {
        true
    }

    open spec fn partial_cmp_spec(&self, other: &Self) -> Option<Ordering> {
        cap_order(*self, *other)
    }
}

impl core::ops::Add for Capacity {
    type Output = Capacity;

    fn add(self, rhs: Self) -> (r: Capacity) {
        match self {
            Capacity::Finite(x) => match rhs {
                Capacity::Finite(y) => Capacity::Finite(x + y),
                Capacity::Infinity => Capacity::Infinity,
            },
            Capacity::Infinity => Capacity::Infinity,
        }
    }
}

impl AddSpecImpl for Capacity {
    open spec fn obeys_add_spec() -> bool {
        true
    }

    open spec fn add_req(self, rhs: Capacity) -> bool {
        cap_add_ok(self, rhs)
    }

    open spec fn add_spec(self, rhs: Capacity) -> Capacity {
        cap_add(self, rhs)
    }
}

impl core::ops::Sub for Capacity {
    type Output = Capacity;

    fn sub(self, rhs: Self) -> (r: Capacity) {
        match self {
            Capacity::Finite(x) => match rhs {
                Capacity::Finite(y) => Capacity::Finite(x - y),
                Capacity::Infinity => {
                    proof {
                        assert(false);
                    }
                    Capacity::Infinity
                },
            },
            Capacity::Infinity => match rhs {
                Capacity::Finite(_) => Capacity::Infinity,
                Capacity::Infinity => Capacity::Infinity,
            },
        }
    }
}

impl SubSpecImpl for Capacity {
    open spec fn obeys_sub_spec() -> bool {
        true
    }

    open spec fn sub_req(self, rhs: Capacity) -> bool {
        cap_sub_ok(self, rhs)
    }

    open spec fn sub_spec(self, rhs: Capacity) -> Capacity {
        cap_sub(self, rhs)
    }
}

} // verus!
