//! Positions on the plane and their row-major order.

use std::cmp::Ordering;
use std::ops::{Add, Neg, Sub};
use vstd::prelude::*;
use vstd::std_specs::cmp::PartialOrdSpecImpl;
use vstd::std_specs::ops::{AddSpecImpl, NegSpecImpl, SubSpecImpl};

verus! {

/// A cell position. Positions are ordered row by row: first by `y`, then by
/// `x`, which is why the row is the first field.
#[derive(Debug, Clone, Copy, PartialEq, Eq, Ord, Hash, Structural)]
pub struct Pos2 {
    pub y: i32,
    pub x: i32,
}

/// `a` comes strictly before `b` in row-major order.
pub open spec fn pos_lt(a: Pos2, b: Pos2) -> bool {
    a.y < b.y || (a.y == b.y && a.x < b.x)
}

/// `a` comes before `b` in row-major order, or is `b`.
pub open spec fn pos_le(a: Pos2, b: Pos2) -> bool {
    a.y < b.y || (a.y == b.y && a.x <= b.x)
}

impl Pos2 {
    #[inline]
    pub fn zero() -> (p: Self)
        ensures
            p.x == 0,
            p.y == 0,
    {
        Self { x: 0, y: 0 }
    }

    #[inline]
    pub fn one() -> (p: Self)
        ensures
            p.x == 1,
            p.y == 1,
    {
        Self { x: 1, y: 1 }
    }

    /// Strictly before `other` in row-major order.
    #[inline]
    pub fn before(&self, other: &Pos2) -> (b: bool)
        ensures
            b == pos_lt(*self, *other),
    {
        self.y < other.y || (self.y == other.y && self.x < other.x)
    }
}

impl Default for Pos2 {
    #[inline]
    fn default() -> (p: Self)
        ensures
            p.x == 0,
            p.y == 0,
    {
        Self::zero()
    }
}

impl PartialOrd for Pos2 {
    #[inline]
    fn partial_cmp(&self, other: &Self) -> (r: Option<Ordering>) {
        if self.y < other.y {
            Some(Ordering::Less)
        } else if self.y > other.y {
            Some(Ordering::Greater)
        } else if self.x < other.x {
            Some(Ordering::Less)
        } else if self.x > other.x {
            Some(Ordering::Greater)
        } else {
            Some(Ordering::Equal)
        }
    }
}

impl PartialOrdSpecImpl for Pos2 {
    open spec fn obeys_partial_cmp_spec() -> bool {
        true
    }

    open spec fn partial_cmp_spec(&self, other: &Self) -> Option<Ordering> {
        if pos_lt(*self, *other) {
            Some(Ordering::Less)
        } else if pos_lt(*other, *self) {
            Some(Ordering::Greater)
        } else {
            Some(Ordering::Equal)
        }
    }
}

impl Neg for Pos2 {
    type Output = Self;

    #[inline]
    fn neg(self) -> (r: Self) {
        Self { x: -self.x, y: -self.y }
    }
}

impl NegSpecImpl for Pos2 {
    open spec fn obeys_neg_spec() -> bool {
        true
    }

    open spec fn neg_req(self) -> bool {
        self.x > i32::MIN && self.y > i32::MIN
    }

    open spec fn neg_spec(self) -> Self {
        Pos2 { x: (-self.x) as i32, y: (-self.y) as i32 }
    }
}

impl Add for Pos2 {
    type Output = Self;

    #[inline]
    fn add(self, rhs: Self) -> (r: Self) {
        Self { x: self.x + rhs.x, y: self.y + rhs.y }
    }
}

impl AddSpecImpl for Pos2 {
    open spec fn obeys_add_spec() -> bool {
        true
    }

    open spec fn add_req(self, rhs: Self) -> bool {
        &&& i32::MIN <= self.x + rhs.x <= i32::MAX
        &&& i32::MIN <= self.y + rhs.y <= i32::MAX
    }

    open spec fn add_spec(self, rhs: Self) -> Self {
        Pos2 { x: (self.x + rhs.x) as i32, y: (self.y + rhs.y) as i32 }
    }
}

impl Sub for Pos2 {
    type Output = Pos2;

    #[inline]
    fn sub(self, rhs: Self) -> (r: Self) {
        Self { x: self.x - rhs.x, y: self.y - rhs.y }
    }
}

impl SubSpecImpl for Pos2 {
    open spec fn obeys_sub_spec() -> bool {
        true
    }

    open spec fn sub_req(self, rhs: Self) -> bool {
        &&& i32::MIN <= self.x - rhs.x <= i32::MAX
        &&& i32::MIN <= self.y - rhs.y <= i32::MAX
    }

    open spec fn sub_spec(self, rhs: Self) -> Self {
        Pos2 { x: (self.x - rhs.x) as i32, y: (self.y - rhs.y) as i32 }
    }
}

} // verus!
