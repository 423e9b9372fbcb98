//! Keeps the chunks in which players have spent enough time, and the
//! scanner that finds that time in a chunk's payload.

use crate::mca::bytes::{be_i64, be_read_i64, be_write_u16, i64_be_bytes, u16_be_bytes};
use crate::mca::bytes::lemma_be_i64_round_trip;
use crate::mca::entry::{
    method_is_external,
    slot_decompressed,
    slot_header,
    EntryError,
    EntryView,
    McaEntry,
};
use crate::patterns::ChunkPattern;
use vstd::prelude::*;
use vstd::slice::slice_subrange;

verus! {

/// Tag type of a signed 64-bit number.
pub const LONG_TAG: u8 = 4;

/// The field name `InhabitedTime`.
pub open spec fn inhabited_time_name() -> Seq<u8> {
    seq![
        0x49u8, 0x6Eu8, 0x68u8, 0x61u8, 0x62u8, 0x69u8, 0x74u8, 0x65u8, 0x64u8, 0x54u8, 0x69u8,
        0x6Du8, 0x65u8,
    ]
}

/// The bytes that stand before the value of a 64-bit field called `name`:
/// the tag type, the length of the name in two bytes, the name.
pub open spec fn long_tag_prefix(name: Seq<u8>) -> Seq<u8> {
    seq![LONG_TAG] + u16_be_bytes(name.len() as int) + name
}

/// Whether `prefix` stands at `i` in the payload with eight bytes after it.
pub open spec fn tag_at(payload: Seq<u8>, prefix: Seq<u8>, i: int) -> bool {
    &&& 0 <= i
    &&& i + prefix.len() + 8 <= payload.len()
    &&& payload.subrange(i, i + prefix.len()) == prefix
}

/// The number in the eight bytes after the prefix that stands at `i`.
pub open spec fn value_after(payload: Seq<u8>, prefix: Seq<u8>, i: int) -> i64 {
    be_i64(payload.subrange(i + prefix.len(), i + prefix.len() + 8)) as i64
}

/// The value after the first place from `i` on where `prefix` stands.
pub open spec fn scan_from(payload: Seq<u8>, prefix: Seq<u8>, i: nat) -> Option<i64>
    decreases payload.len() - i,
{
    if i + prefix.len() + 8 > payload.len() {
        None
    } else if tag_at(payload, prefix, i as int) {
        Some(value_after(payload, prefix, i as int))
    } else {
        scan_from(payload, prefix, i + 1)
    }
}

/// The value of the first 64-bit field called `name` in the payload, found
/// by its bytes alone. A name too long for its two length bytes names no
/// field.
pub open spec fn find_long_spec(payload: Seq<u8>, name: Seq<u8>) -> Option<i64> {
    if name.len() > 0xFFFF {
        None
    } else {
        scan_from(payload, long_tag_prefix(name), 0)
    }
}

/// Whether `prefix` stands at `at` in `data`.
fn stands_at(data: &[u8], at: usize, prefix: &[u8]) -> (b: bool)
    requires
        at + prefix@.len() <= data@.len(),
    ensures
        b == (data@.subrange(at as int, at + prefix@.len()) == prefix@),
{
    let ghost here = data@.subrange(at as int, at + prefix@.len());
    let n = data.len();
    let mut k: usize = 0;
    while k < prefix.len()
        invariant
            k <= prefix@.len(),
            at + prefix@.len() <= data@.len() == n,
            here == data@.subrange(at as int, at + prefix@.len()),
            forall|j: int| 0 <= j < k ==> here[j] == prefix@[j],
        decreases prefix@.len() - k,
    {
        if data[at + k] != prefix[k] {
            assert(here[k as int] != prefix@[k as int]);
            return false;
        }
        k += 1;
    }
    assert(here =~= prefix@);
    true
}

/// Finds the first 64-bit field called `name` in a payload by looking for
/// the bytes that must stand before its value, and reads the value.
pub fn find_long(payload: &[u8], name: &[u8]) -> (r: Option<i64>)
    ensures
        r == find_long_spec(payload@, name@),
{
    if name.len() > 0xFFFF {
        return None;
    }
    let mut prefix: Vec<u8> = Vec::new();
    prefix.push(LONG_TAG);
    let lenbuf = be_write_u16(name.len() as u16);
    prefix.extend_from_slice(lenbuf.as_slice());
    prefix.extend_from_slice(name);
    assert(prefix@ =~= long_tag_prefix(name@));
    let plen = prefix.len();
    let n = payload.len();
    if n < plen + 8 {
        return None;
    }
    let mut i: usize = 0;
    while i <= n - plen - 8
        invariant
            plen == prefix@.len(),
            n == payload@.len(),
            plen + 8 <= n,
            name@.len() <= 0xFFFF,
            prefix@ == long_tag_prefix(name@),
            scan_from(payload@, prefix@, 0) == scan_from(payload@, prefix@, i as nat),
        decreases n - i,
    {
        if stands_at(payload, i, prefix.as_slice()) {
            let v = be_read_i64(slice_subrange(payload, i + plen, i + plen + 8));
            assert(tag_at(payload@, prefix@, i as int));
            assert(v == value_after(payload@, prefix@, i as int));
            return Some(v);
        }
        i += 1;
    }
    None
}

/// The name `InhabitedTime` as bytes.
fn inhabited_name() -> (name: Vec<u8>)
    ensures
        name@ == inhabited_time_name(),
{
    let name: Vec<u8> = vec![
        0x49u8, 0x6Eu8, 0x68u8, 0x61u8, 0x62u8, 0x69u8, 0x74u8, 0x65u8, 0x64u8, 0x54u8, 0x69u8,
        0x6Du8, 0x65u8,
    ];
    assert(name@ =~= inhabited_time_name());
    name
}

/// The value of the field `InhabitedTime` in an unpacked chunk.
pub fn find_inhabited_fast(data: &[u8]) -> (r: Option<i64>)
    ensures
        r == find_long_spec(data@, inhabited_time_name()),
{
    let name = inhabited_name();
    find_long(data, name.as_slice())
}

/// A threshold on the time that players have spent in a chunk.
#[derive(Debug, Clone, Copy, PartialEq, Eq)]
pub struct InhabitedView {
    /// Ticks from which on a chunk is kept.
    pub threshold: i64,
    /// Whether a chunk whose time cannot be read is given up.
    pub remove_unknown: bool,
}

/// Keeps a chunk whose `InhabitedTime` is at least the threshold. A chunk
/// whose time cannot be read is kept unless `remove_unknown` is set.
pub struct InhabitedTimePattern {
    threshold: i64,
    remove_unknown: bool,
}

impl View for InhabitedTimePattern {
    type V = InhabitedView;

    closed spec fn view(&self) -> InhabitedView {
        InhabitedView { threshold: self.threshold, remove_unknown: self.remove_unknown }
    }
}

impl InhabitedTimePattern {
    /// A predicate with this threshold, in ticks.
    pub fn new(threshold: i64, remove_unknown: bool) -> (p: Self)
        ensures
            p@ == (InhabitedView { threshold, remove_unknown }),
    {
        Self { threshold, remove_unknown }
    }
}

/// What the threshold says of an unpacked payload.
pub open spec fn judged(rule: InhabitedView, data: Seq<u8>) -> bool {
    if data.len() == 0 {
        !rule.remove_unknown
    } else {
        match find_long_spec(data, inhabited_time_name()) {
            Some(t) => t >= rule.threshold,
            None => !rule.remove_unknown,
        }
    }
}

impl ChunkPattern for InhabitedTimePattern {
    open spec fn answer(&self, entry: EntryView) -> Result<bool, EntryError> {
        match slot_header(entry.file, entry.start) {
            Err(e) => Err(e),
            Ok(h) => if method_is_external(h.method) {
                Ok(!self@.remove_unknown)
            } else {
                match slot_decompressed(entry.file, entry.start) {
                    Err(e) => Err(e),
                    Ok(data) => Ok(judged(self@, data)),
                }
            },
        }
    }

    fn matches(&self, entry: &McaEntry<'_>) -> (r: Result<bool, EntryError>) {
        match entry.is_external() {
            Err(e) => {
                return Err(e);
            },
            Ok(true) => {
                return Ok(!self.remove_unknown);
            },
            Ok(false) => {},
        }
        let de = match entry.all_data_uncompressed() {
            Ok(de) => de,
            Err(e) => {
                return Err(e);
            },
        };
        if de.len() == 0 {
            return Ok(!self.remove_unknown);
        }
        if let Some(t) = find_inhabited_fast(de.as_slice()) {
            return Ok(t >= self.threshold);
        }
        Ok(!self.remove_unknown)
    }
}

/// Where the scanner finds its value: at the first place where the prefix
/// stands with eight bytes after it, and nowhere if there is no such place.
proof fn lemma_scan_from(payload: Seq<u8>, prefix: Seq<u8>, i: nat)
    ensures
        match scan_from(payload, prefix, i) {
            Some(v) => exists|at: int|
                i <= at && #[trigger] tag_at(payload, prefix, at) && v == value_after(
                    payload,
                    prefix,
                    at,
                ) && forall|j: int| i <= j < at ==> !tag_at(payload, prefix, j),
            None => forall|j: int| i <= j ==> !tag_at(payload, prefix, j),
        },
    decreases payload.len() - i,
{
    if i + prefix.len() + 8 <= payload.len() && !tag_at(payload, prefix, i as int) {
        lemma_scan_from(payload, prefix, i + 1);
        match scan_from(payload, prefix, i + 1) {
            Some(v) => {
                let at = choose|at: int|
                    i + 1 <= at && #[trigger] tag_at(payload, prefix, at) && v == value_after(
                        payload,
                        prefix,
                        at,
                    ) && forall|j: int| i + 1 <= j < at ==> !tag_at(payload, prefix, j);
                assert(forall|j: int| i <= j < at ==> !tag_at(payload, prefix, j));
            },
            None => {},
        }
    } else if i + prefix.len() + 8 <= payload.len() {
        assert(tag_at(payload, prefix, i as int));
    }
}

/// The scanner returns the value that follows the first occurrence of the
/// tag header, and nothing for a payload in which the header does not
/// occur with eight bytes after it.
pub proof fn law_find_long_first_occurrence(payload: Seq<u8>, name: Seq<u8>)
    requires
        name.len() <= 0xFFFF,
    ensures
        match find_long_spec(payload, name) {
            Some(v) => exists|at: int|
                #[trigger] tag_at(payload, long_tag_prefix(name), at) && v == value_after(
                    payload,
                    long_tag_prefix(name),
                    at,
                ) && forall|j: int| 0 <= j < at ==> !tag_at(payload, long_tag_prefix(name), j),
            None => forall|j: int| !tag_at(payload, long_tag_prefix(name), j),
        },
        (forall|j: int| !tag_at(payload, long_tag_prefix(name), j)) ==> find_long_spec(
            payload,
            name,
        ) is None,
{
    lemma_scan_from(payload, long_tag_prefix(name), 0);
}

/// A payload that is the tag header of `name` and the eight bytes of a
/// number yields that number.
pub proof fn law_find_long_reads_value(name: Seq<u8>, value: i64)
    requires
        name.len() <= 0xFFFF,
    ensures
        find_long_spec(long_tag_prefix(name) + i64_be_bytes(value as int), name) == Some(value),
{
    let prefix = long_tag_prefix(name);
    let payload = prefix + i64_be_bytes(value as int);
    lemma_be_i64_round_trip(value as int);
    assert(payload.subrange(0, prefix.len() as int) =~= prefix);
    assert(payload.subrange(prefix.len() as int, prefix.len() as int + 8) =~= i64_be_bytes(
        value as int,
    ));
    assert(tag_at(payload, prefix, 0));
}

} // verus!
