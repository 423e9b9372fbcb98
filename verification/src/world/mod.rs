//! Trimming a world, one region file at a time.

pub mod forced;
pub mod nesting;
pub mod region;

use crate::mca::reader::{fits_i32, region_coords, region_entries, McaReader, HEADER_LEN};
use crate::patterns::inhabited::{InhabitedTimePattern, InhabitedView};
use crate::patterns::list::ListPattern;
use crate::patterns::Pattern;
use crate::world::region::is_valid_mca;
use vstd::prelude::*;
use vstd::string::StringSliceAdditionalSpecFns;

verus! {

/// How progress is shown while a world is trimmed.
#[derive(Debug, Clone, Copy, PartialEq, Eq)]
pub enum ProgressMode {
    Off,
    Global,
    Region,
}

/// Game ticks in a second.
pub const TICKS_PER_SECOND: i64 = 20;

/// The threshold in ticks for a threshold in seconds, or `None` where the
/// number of ticks does not fit in 64 bits.
pub fn seconds_to_ticks(seconds: i64) -> (ticks: Option<i64>)
    ensures
        ticks is Some <==> i64::MIN <= seconds * 20 <= i64::MAX,
        ticks matches Some(t) ==> t == seconds * 20,
{
    seconds.checked_mul(TICKS_PER_SECOND)
}

/// The chain that a dimension is trimmed with: the force-loaded chunks
/// first, which costs nothing to ask, then the time that players spent.
pub fn keep_chain(forced: Vec<(i32, i32)>, threshold: i64, remove_unknown: bool) -> (chain: Vec<
    Pattern,
>)
    ensures
        chain@.len() == 2,
        chain@[0] matches Pattern::List(list) && list@ == forced@,
        chain@[1] matches Pattern::Inhabited(rule) && rule@ == (InhabitedView {
            threshold,
            remove_unknown,
        }),
{
    let mut chain: Vec<Pattern> = Vec::new();
    chain.push(Pattern::List(ListPattern::new(forced)));
    chain.push(Pattern::Inhabited(InhabitedTimePattern::new(threshold, remove_unknown)));
    chain
}

/// How many chunks a region file holds, as far as it will be read: none for
/// a file that is too short or whose path names no region.
pub open spec fn chunks_in(path: Seq<u8>, file: Seq<u8>) -> nat {
    match region_coords(path) {
        Some((x, z)) => if file.len() >= HEADER_LEN && fits_i32(x) && fits_i32(z) {
            region_entries(file, x, z).len()
        } else {
            0
        },
        None => 0,
    }
}

/// Counts the chunks of one region file, to size the progress display.
pub fn count_chunks(path: &str, file: &[u8]) -> (n: u64)
    ensures
        n == chunks_in(path.spec_bytes(), file@),
{
    if !is_valid_mca(file.len() as u64) {
        return 0;
    }
    match McaReader::open(path, file) {
        Ok(mut reader) => match reader.entries() {
            Ok(entries) => {
                assert(entries@.len() == crate::mca::reader::entry_views(entries@).len());
                entries.len() as u64
            },
            Err(_) => 0,
        },
        Err(_) => 0,
    }
}

/// The share of the work that is done, in whole percent. An empty world
/// counts as one chunk, so that the share is defined.
pub open spec fn percent_spec(done: int, total: int) -> int {
    if total <= 0 {
        done * 100
    } else {
        done * 100 / total
    }
}

/// The share of the work that is done, in whole percent.
pub fn percent_done(done: u64, total: u64) -> (pct: u64)
    requires
        done * 100 <= u64::MAX,
    ensures
        pct == percent_spec(done as int, total as int),
{
    let total = if total == 0 {
        1
    } else {
        total
    };
    done * 100 / total
}

/// The percentage to report after `done` chunks, where it has risen above
/// the last one reported; nothing where it has not.
pub fn next_report(last_pct: u64, done: u64, total: u64) -> (report: Option<u64>)
    requires
        done * 100 <= u64::MAX,
    ensures
        report == (if percent_spec(done as int, total as int) > last_pct {
            Some(percent_spec(done as int, total as int) as u64)
        } else {
            None
        }),
{
    let pct = percent_done(done, total);
    if pct > last_pct {
        Some(pct)
    } else {
        None
    }
}

/// Whether a file of the input is to be deleted when the world is trimmed
/// in place: its name is not among those that were written.
pub fn is_stale(name: &String, written: &Vec<String>) -> (stale: bool)
    ensures
        stale == !(exists|k: int| 0 <= k < written@.len() && (#[trigger] written@[k])@ == name@),
{
    let mut k: usize = 0;
    while k < written.len()
        invariant
            k <= written@.len(),
            forall|j: int| 0 <= j < k ==> (#[trigger] written@[j])@ != name@,
        decreases written@.len() - k,
    {
        if written[k] == *name {
            return false;
        }
        k += 1;
    }
    true
}

} // verus!
