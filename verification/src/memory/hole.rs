//! Half-open ranges of page indices.

use core::cmp::Ordering;
use vstd::prelude::*;
use vstd::std_specs::cmp::PartialOrdSpecImpl;

verus! {

/// The half-open range `[beg, end)` of page indices.
#[derive(Copy, Clone, Debug, PartialEq, Eq, Structural)]
pub struct Hole {
    pub beg: u32,
    pub end: u32,
}

impl Hole {
    /// A range is well formed when it holds at least one page.
    pub open spec fn wf(self) -> bool {
        self.beg < self.end
    }

    /// The number of pages in the range.
    pub open spec fn pages(self) -> int {
        self.end - self.beg
    }

    /// Whether page `p` lies in the range.
    pub open spec fn covers(self, p: int) -> bool {
        self.beg <= p < self.end
    }

    /// Two ranges are adjacent when one starts where the other ends.
    pub open spec fn adjacent(self, other: Hole) -> bool {
        self.beg == other.end || self.end == other.beg
    }

    /// The range that `self` becomes when the adjacent range `other` is
    /// merged into it.
    pub open spec fn merged(self, other: Hole) -> Hole {
        if self.beg == other.end {
            Hole { beg: other.beg, end: self.end }
        } else {
            Hole { beg: self.beg, end: other.end }
        }
    }

    /// `self` lies wholly before `other`.
    pub open spec fn before(self, other: Hole) -> bool {
        self.end <= other.beg
    }

    /// The range `[beg, end)`, or an error if it would be empty.
    pub fn new(beg: u32, end: u32) -> (r: Result<Hole, &'static str>)
        ensures
            beg < end ==> r == Ok::<Hole, &'static str>(Hole { beg, end }),
            beg >= end ==> r == Err::<Hole, &'static str>("invalid range"),
    {
        if beg >= end {
            Err("invalid range")
        } else {
            Ok(Hole { beg, end })
        }
    }

    /// The range given by a pair of bounds.
    pub fn from_range(range: (u32, u32)) -> (r: Result<Hole, &'static str>)
        ensures
            range.0 < range.1 ==> r == Ok::<Hole, &'static str>(Hole { beg: range.0, end: range.1 }),
            range.0 >= range.1 ==> r == Err::<Hole, &'static str>("invalid range"),
    {
        let (beg, end) = range;
        Self::new(beg, end)
    }

    /// The number of pages in a well-formed range.
    pub fn get_size(&self) -> (size: u32)
        requires
            self.wf(),
        ensures
            size == self.pages(),
            size > 0,
    {
        self.end - self.beg
    }

    /// Whether the two ranges share an endpoint.
    pub fn test_adjacency(&self, other: &Self) -> (adj: bool)
        ensures
            adj == self.adjacent(*other),
    {
        self.beg == other.end || self.end == other.beg
    }

    /// Extends `self` by the adjacent range `other`; leaves `self` as it is
    /// and fails when the two are not adjacent.
    pub fn merge_into_self(&mut self, other: &Self) -> (r: Result<(), &'static str>)
        ensures
            old(self).adjacent(*other) ==> r == Ok::<(), &'static str>(()) && *final(self)
                == old(self).merged(*other),
            !old(self).adjacent(*other) ==> r == Err::<(), &'static str>("Cannot Merge")
                && *final(self) == *old(self),
    {
        if !self.test_adjacency(other) {
            Err("Cannot Merge")
        } else {
            if self.beg == other.end {
                self.beg = other.beg;
            } else {
                self.end = other.end;
            }
            Ok(())
        }
    }

    /// Drops the first `size` pages of the range; fails, changing nothing,
    /// unless more than `size` pages are there.
    pub fn shrink_head(&mut self, size: u32) -> (r: Result<(), &'static str>)
        requires
            old(self).wf(),
        ensures
            size < old(self).pages() ==> r == Ok::<(), &'static str>(()) && *final(self) == (Hole {
                beg: (old(self).beg + size) as u32,
                end: old(self).end,
            }),
            size >= old(self).pages() ==> r == Err::<(), &'static str>("hole is not large enough")
                && *final(self) == *old(self),
    {
        if size >= self.get_size() {
            Err("hole is not large enough")
        } else {
            self.beg += size;
            Ok(())
        }
    }

    /// Cuts the first `size` pages off the range and returns them; fails,
    /// changing nothing, unless `size` is positive and more than `size`
    /// pages are there.
    pub fn split_head(&mut self, size: u32) -> (r: Result<Self, &'static str>)
        requires
            old(self).wf(),
        ensures
            0 < size < old(self).pages() ==> r == Ok::<Hole, &'static str>(
                Hole { beg: old(self).beg, end: (old(self).beg + size) as u32 },
            ) && *final(self) == (Hole {
                beg: (old(self).beg + size) as u32,
                end: old(self).end,
            }),
            size >= old(self).pages() ==> r == Err::<Hole, &'static str>("hole is not large enough")
                && *final(self) == *old(self),
            size == 0 ==> r == Err::<Hole, &'static str>("invalid range") && *final(self) == *old(
                self,
            ),
    {
        if size >= self.get_size() {
            Err("hole is not large enough")
        } else {
            let hole = Self::new(self.beg, self.beg + size);
            if hole.is_ok() {
                self.beg += size;
            }
            hole
        }
    }

    /// The bounds as a pair.
    pub fn to_tuple(&self) -> (range: (u32, u32))
        ensures
            range == (self.beg, self.end),
    {
        (self.beg, self.end)
    }
}

impl PartialOrdSpecImpl for Hole {
    open spec fn obeys_partial_cmp_spec() -> bool {
        true
    }

    /// Ranges are ordered by position: one is less than another when it
    /// lies wholly before it. Two ranges that overlap without being equal
    /// are not comparable.
    open spec fn partial_cmp_spec(&self, other: &Hole) -> Option<Ordering> {
        if self.before(*other) {
            Some(Ordering::Less)
        } else if other.before(*self) {
            Some(Ordering::Greater)
        } else if *self == *other {
            Some(Ordering::Equal)
        } else {
            None
        }
    }
}

impl PartialOrd for Hole {
    fn partial_cmp(&self, other: &Self) -> (r: Option<Ordering>) {
        if self.end <= other.beg {
            Some(Ordering::Less)
        } else if self.beg >= other.end {
            Some(Ordering::Greater)
        } else if self.beg == other.beg && self.end == other.end {
            Some(Ordering::Equal)
        } else {
            None
        }
    }
}

} // verus!
