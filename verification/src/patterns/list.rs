//! Keeps the chunks whose coordinates are on a list.

use crate::mca::entry::{EntryError, EntryView, McaEntry};
use crate::patterns::ChunkPattern;
use vstd::prelude::*;

verus! {

/// Whether `(x, z)` is on the list.
pub open spec fn on_list(coords: Seq<(i32, i32)>, x: int, z: int) -> bool {
    exists|k: int| 0 <= k < coords.len() && (#[trigger] coords[k]).0 == x && coords[k].1 == z
}

/// Keeps a chunk exactly if its place in the world is on the list.
pub struct ListPattern {
    coords: Vec<(i32, i32)>,
}

impl View for ListPattern {
    type V = Seq<(i32, i32)>;

    closed spec fn view(&self) -> Seq<(i32, i32)> {
        self.coords@
    }
}

impl ListPattern {
    /// A predicate that keeps the chunks at `coords`.
    pub fn new(coords: Vec<(i32, i32)>) -> (p: Self)
        ensures
            p@ == coords@,
    {
        Self { coords }
    }
}

impl ChunkPattern for ListPattern {
    open spec fn answer(&self, entry: EntryView) -> Result<bool, EntryError> {
        Ok(
            on_list(
                self@,
                entry.region_x * 32 + entry.index % 32,
                entry.region_z * 32 + entry.index / 32,
            ),
        )
    }

    fn matches(&self, entry: &McaEntry<'_>) -> (r: Result<bool, EntryError>) {
        let gx = entry.global_x();
        let gz = entry.global_z();
        let mut k: usize = 0;
        while k < self.coords.len()
            invariant
                k <= self.coords@.len(),
                gx == entry@.region_x * 32 + entry@.index % 32,
                gz == entry@.region_z * 32 + entry@.index / 32,
                forall|j: int|
                    0 <= j < k ==> !(gx == (#[trigger] self.coords@[j]).0 && gz
                        == self.coords@[j].1),
            decreases self.coords@.len() - k,
        {
            let c = self.coords[k];
            if c.0 as i64 == gx && c.1 as i64 == gz {
                assert(self@[k as int].0 == gx && self@[k as int].1 == gz);
                return Ok(true);
            }
            k += 1;
        }
        Ok(false)
    }
}

} // verus!
