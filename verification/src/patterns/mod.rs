//! Keep-predicates on chunks, and the chain that asks them in order.

pub mod inhabited;
pub mod list;
pub mod range;

use crate::mca::entry::{EntryError, EntryView, McaEntry};
use crate::patterns::inhabited::InhabitedTimePattern;
use crate::patterns::list::ListPattern;
use crate::patterns::range::RangePattern;
use vstd::prelude::*;

verus! {

/// A predicate that says whether a chunk is to be kept.
pub trait ChunkPattern {
    /// What the predicate answers for a slot: keep, do not keep, or the
    /// reason why the slot could not be judged.
    spec fn answer(&self, entry: EntryView) -> Result<bool, EntryError>;

    /// Judges a slot.
    fn matches(&self, entry: &McaEntry<'_>) -> (r: Result<bool, EntryError>)
        ensures
            r == self.answer(entry@),
    ;
}

/// One of the predicates that this library has.
pub enum Pattern {
    List(ListPattern),
    Inhabited(InhabitedTimePattern),
    Range(RangePattern),
}

impl ChunkPattern for Pattern {
    open spec fn answer(&self, entry: EntryView) -> Result<bool, EntryError> {
        match self {
            Pattern::List(p) => p.answer(entry),
            Pattern::Inhabited(p) => p.answer(entry),
            Pattern::Range(p) => p.answer(entry),
        }
    }

    fn matches(&self, entry: &McaEntry<'_>) -> (r: Result<bool, EntryError>) {
        match self {
            Pattern::List(p) => p.matches(entry),
            Pattern::Inhabited(p) => p.matches(entry),
            Pattern::Range(p) => p.matches(entry),
        }
    }
}

/// Whether predicate `k` of the chain says keep. A predicate that fails
/// does not say keep.
pub open spec fn says_keep<P: ChunkPattern>(patterns: Seq<P>, entry: EntryView, k: int) -> bool {
    patterns[k].answer(entry) == Ok::<bool, EntryError>(true)
}

/// The first predicate from `k` on that says keep.
pub open spec fn first_match_from<P: ChunkPattern>(
    patterns: Seq<P>,
    entry: EntryView,
    k: nat,
) -> Option<nat>
    decreases patterns.len() - k,
{
    if k >= patterns.len() {
        None
    } else if says_keep(patterns, entry, k as int) {
        Some(k)
    } else {
        first_match_from(patterns, entry, k + 1)
    }
}

/// The first predicate of the chain that says keep.
pub open spec fn first_match<P: ChunkPattern>(patterns: Seq<P>, entry: EntryView) -> Option<nat> {
    first_match_from(patterns, entry, 0)
}

/// Whether the chain keeps the chunk: some predicate says keep.
pub open spec fn keeps<P: ChunkPattern>(patterns: Seq<P>, entry: EntryView) -> bool {
    first_match(patterns, entry) is Some
}

/// How many predicates are asked: all up to and with the first that says
/// keep, or all of them.
pub open spec fn asked<P: ChunkPattern>(patterns: Seq<P>, entry: EntryView) -> nat {
    match first_match(patterns, entry) {
        Some(k) => k + 1,
        None => patterns.len(),
    }
}

/// How many of the first `n` predicates fail on the entry.
pub open spec fn count_failed<P: ChunkPattern>(patterns: Seq<P>, entry: EntryView, n: nat) -> nat
    decreases n,
{
    if n == 0 {
        0
    } else if patterns[n - 1].answer(entry) is Err {
        count_failed(patterns, entry, (n - 1) as nat) + 1
    } else {
        count_failed(patterns, entry, (n - 1) as nat)
    }
}

/// What the chain found for one chunk.
#[derive(Debug, Clone, Copy, PartialEq, Eq)]
pub struct Verdict {
    /// Whether the chunk is kept.
    pub keep: bool,
    /// How many predicates were asked.
    pub evaluated: usize,
    /// How many of them failed.
    pub failed: usize,
}

/// Asks the predicates in order and stops at the first that says keep. A
/// predicate that fails counts as one that does not say keep.
pub fn evaluate<P: ChunkPattern>(patterns: &[P], entry: &McaEntry<'_>) -> (v: Verdict)
    ensures
        v.keep == keeps(patterns@, entry@),
        v.evaluated == asked(patterns@, entry@),
        v.failed == count_failed(patterns@, entry@, asked(patterns@, entry@)),
{
    let mut k: usize = 0;
    let mut failed: usize = 0;
    while k < patterns.len()
        invariant
            k <= patterns@.len(),
            failed <= k,
            failed == count_failed(patterns@, entry@, k as nat),
            first_match(patterns@, entry@) == first_match_from(patterns@, entry@, k as nat),
        decreases patterns@.len() - k,
    {
        match patterns[k].matches(entry) {
            Ok(true) => {
                return Verdict { keep: true, evaluated: k + 1, failed };
            },
            Ok(false) => {},
            Err(_) => {
                failed += 1;
            },
        }
        k += 1;
    }
    Verdict { keep: false, evaluated: k, failed }
}

/// Where the first predicate that says keep lies: no predicate before it
/// says keep, and none at all where there is no first.
proof fn lemma_first_match_from<P: ChunkPattern>(patterns: Seq<P>, entry: EntryView, k: nat)
    ensures
        match first_match_from(patterns, entry, k) {
            Some(m) => k <= m < patterns.len() && says_keep(patterns, entry, m as int)
                && forall|j: int| k <= j < m ==> !says_keep(patterns, entry, j),
            None => forall|j: int| k <= j < patterns.len() ==> !says_keep(patterns, entry, j),
        },
    decreases patterns.len() - k,
{
    if k < patterns.len() && !says_keep(patterns, entry, k as int) {
        lemma_first_match_from(patterns, entry, k + 1);
    }
}

/// The chain is a disjunction that stops early: a chunk is kept exactly if
/// some predicate says keep, and then no predicate after the first that
/// says so is asked.
pub proof fn law_chain_short_circuits<P: ChunkPattern>(patterns: Seq<P>, entry: EntryView)
    ensures
        keeps(patterns, entry) <==> exists|k: int|
            0 <= k < patterns.len() && says_keep(patterns, entry, k),
        forall|k: int|
            0 <= k < patterns.len() && says_keep(patterns, entry, k) ==> asked(patterns, entry)
                <= k + 1,
        !keeps(patterns, entry) ==> asked(patterns, entry) == patterns.len(),
{
    lemma_first_match_from(patterns, entry, 0);
}

} // verus!
