//! Keeps the chunks inside a rectangle.

use crate::mca::entry::{EntryError, EntryView, McaEntry};
use crate::patterns::ChunkPattern;
use vstd::prelude::*;

verus! {

/// A rectangle of chunks, both corners included.
pub struct RangeView {
    pub sx: int,
    pub sz: int,
    pub ex: int,
    pub ez: int,
}

/// Keeps a chunk exactly if its place in the world lies in the rectangle.
pub struct RangePattern {
    sx: i32,
    sz: i32,
    ex: i32,
    ez: i32,
}

impl View for RangePattern {
    type V = RangeView;

    closed spec fn view(&self) -> RangeView {
        RangeView {
            sx: self.sx as int,
            sz: self.sz as int,
            ex: self.ex as int,
            ez: self.ez as int,
        }
    }
}

/// The smaller of two numbers.
pub open spec fn lesser(a: int, b: int) -> int {
    if a <= b {
        a
    } else {
        b
    }
}

/// The larger of two numbers.
pub open spec fn greater(a: int, b: int) -> int {
    if a <= b {
        b
    } else {
        a
    }
}

impl RangePattern {
    /// The rectangle with `(a, b)` and `(c, d)` as opposite corners, in
    /// whichever order they are given.
    pub fn new(a: i32, b: i32, c: i32, d: i32) -> (p: Self)
        ensures
            p@ == (RangeView {
                sx: lesser(a as int, c as int),
                sz: lesser(b as int, d as int),
                ex: greater(a as int, c as int),
                ez: greater(b as int, d as int),
            }),
    {
        let (sx, ex) = if a <= c {
            (a, c)
        } else {
            (c, a)
        };
        let (sz, ez) = if b <= d {
            (b, d)
        } else {
            (d, b)
        };
        Self { sx, sz, ex, ez }
    }
}

impl ChunkPattern for RangePattern {
    open spec fn answer(&self, entry: EntryView) -> Result<bool, EntryError> {
        let gx = entry.region_x * 32 + entry.index % 32;
        let gz = entry.region_z * 32 + entry.index / 32;
        Ok(self@.sx <= gx <= self@.ex && self@.sz <= gz <= self@.ez)
    }

    fn matches(&self, entry: &McaEntry<'_>) -> (r: Result<bool, EntryError>) {
        let gx = entry.global_x();
        let gz = entry.global_z();
        Ok(
            gx >= self.sx as i64 && gx <= self.ex as i64 && gz >= self.sz as i64 && gz
                <= self.ez as i64,
        )
    }
}

} // verus!
