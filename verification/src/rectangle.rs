//! Rectangles with whole-numbered sides.

use core::cmp::Ordering;
use vstd::prelude::*;
use vstd::std_specs::cmp::PartialOrdSpecImpl;

verus! {

#[derive(Debug, Clone, PartialEq, Eq, Structural)]
pub struct Rectangle {
    pub width: u32,
    pub height: u32,
}

impl Rectangle {
    pub fn area(&self) -> (a: u32)
        requires
            self.width * self.height <= u32::MAX,
        ensures
            a == self.width * self.height,
    {
        self.width * self.height
    }

    /// Whether `other` fits inside with room to spare on every side.
    pub fn can_hold(&self, other: &Rectangle) -> (b: bool)
        ensures
            b == (self.width > other.width && self.height > other.height),
    {
        self.width > other.width && self.height > other.height
    }
}

impl PartialOrdSpecImpl for Rectangle {
    open spec fn obeys_partial_cmp_spec() -> bool {
        true
    }

    /// Rectangles are ordered by height, and by width where the heights agree.
    open spec fn partial_cmp_spec(&self, other: &Rectangle) -> Option<Ordering> {
        if self.height < other.height {
            Some(Ordering::Less)
        } else if self.height > other.height {
            Some(Ordering::Greater)
        } else if self.width < other.width {
            Some(Ordering::Less)
        } else if self.width > other.width {
            Some(Ordering::Greater)
        } else {
            Some(Ordering::Equal)
        }
    }
}

impl PartialOrd for Rectangle {
    fn partial_cmp(&self, other: &Self) -> (r: Option<Ordering>) {
        match self.height.partial_cmp(&other.height) {
            Some(Ordering::Equal) => {},
            ord => {
                return ord;
            },
        }
        self.width.partial_cmp(&other.width)
    }
}

} // verus!
