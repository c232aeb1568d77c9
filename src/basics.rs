//! Small integer and rectangle helpers.

use vstd::prelude::*;

verus! {

/// `a + 2`.
pub fn add_two(a: i32) -> (r: i32)
    requires
        a <= i32::MAX - 2,
    ensures
        r == a + 2,
{
    a + 2
}

/// `a + b`, proved free of overflow.
pub fn internal_adder(a: i32, b: i32) -> (r: i32)
    requires
        i32::MIN <= a + b <= i32::MAX,
    ensures
        r == a + b,
{
    a + b
}

/// `a + 2`, by way of `internal_adder`.
pub fn adds_two(a: i32) -> (r: i32)
    requires
        a <= i32::MAX - 2,
    ensures
        r == a + 2,
{
    internal_adder(a, 2)
}

/// An axis-aligned rectangle given by its two side lengths.
#[derive(Clone, Copy, Debug, PartialEq, Eq, Structural)]
pub struct Rectangle {
    pub height: u32,
    pub width: u32,
}

impl Rectangle {
    /// True when `other` fits strictly inside `self` in both directions.
    pub fn can_hold(&self, other: &Rectangle) -> (r: bool)
        ensures
            r == (self.height > other.height && self.width > other.width),
    {
        self.height > other.height && self.width > other.width
    }
}

} // verus!
