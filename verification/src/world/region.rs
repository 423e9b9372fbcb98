//! One region file and the entities and poi files beside it: the chunks
//! that the chain keeps are copied, the others are left out.

use crate::mca::entry::{slot_header, slot_serialized, EntryView, McaEntry, SLOT_COUNT};
use crate::mca::reader::{
    entries_upto,
    entry_at,
    entry_views,
    fits_i32,
    location_word,
    region_coords,
    region_entries,
    slot_populated,
    slot_size,
    slot_start,
    slot_timestamp,
    McaReader,
    ReaderError,
    HEADER_LEN,
};
use crate::mca::writer::{
    holds_slot,
    law_file_header_is_consistent,
    law_file_is_aligned,
    law_file_preserves_slot,
    lemma_append_holds,
    lemma_append_keeps,
    lemma_append_wf,
    lemma_file_words,
    lemma_held_slot_is_populated,
    lemma_padded_len,
    padded_len,
    McaWriter,
    WriterView,
};
use crate::patterns::{asked, count_failed, evaluate, keeps, ChunkPattern};
use vstd::prelude::*;
use vstd::string::StringSliceAdditionalSpecFns;

verus! {

/// Why a region file was passed over.
#[derive(Debug, Clone, Copy, PartialEq, Eq)]
pub enum RegionSkip {
    /// The file is shorter than its two tables.
    TooShort,
    /// The path names no region.
    Name(ReaderError),
}

/// What became of a region file and the files beside it.
pub struct RegionOutput {
    /// The region file with the kept chunks.
    pub region: Vec<u8>,
    /// The entities file with the slots of the kept chunks, where there was
    /// an entities file to read.
    pub entities: Option<Vec<u8>>,
    /// The poi file with the slots of the kept chunks, where there was a
    /// poi file to read.
    pub poi: Option<Vec<u8>>,
    /// Chunks that the chain kept.
    pub kept: u64,
    /// Chunks that the chain gave up.
    pub removed: u64,
    /// Slots of the chunks on which a predicate that was asked failed, by
    /// rising index.
    pub unjudged: Vec<u32>,
    /// Slots of the kept chunks that could not be read, and so are not in
    /// the region file, by rising index.
    pub uncopied: Vec<u32>,
    /// Slots of the copied chunks whose slot in the entities file could not
    /// be read, by rising index.
    pub entities_uncopied: Vec<u32>,
    /// Slots of the copied chunks whose slot in the poi file could not be
    /// read, by rising index.
    pub poi_uncopied: Vec<u32>,
}

/// Whether a file is long enough to be a region file.
pub fn is_valid_mca(len: u64) -> (ok: bool)
    ensures
        ok == (len >= HEADER_LEN),
{
    len >= HEADER_LEN as u64
}

/// For each entry, what the chain says of it.
pub open spec fn kept_flags<P: ChunkPattern>(es: Seq<EntryView>, patterns: Seq<P>) -> Seq<bool> {
    Seq::new(es.len(), |k: int| keeps(patterns, es[k]))
}

/// The slots of those of the first `k` entries on which a predicate that
/// the chain asked failed.
pub open spec fn unjudged_slots<P: ChunkPattern>(
    es: Seq<EntryView>,
    patterns: Seq<P>,
    k: nat,
) -> Seq<u32>
    decreases k,
{
    if k == 0 {
        Seq::empty()
    } else if count_failed(patterns, es[k - 1], asked(patterns, es[k - 1])) > 0 {
        unjudged_slots(es, patterns, (k - 1) as nat).push(es[k - 1].index as u32)
    } else {
        unjudged_slots(es, patterns, (k - 1) as nat)
    }
}

/// The slots of those of the first `k` entries that are kept and cannot be
/// read.
pub open spec fn uncopied_slots(es: Seq<EntryView>, kept: Seq<bool>, k: nat) -> Seq<u32>
    decreases k,
{
    if k == 0 {
        Seq::empty()
    } else if kept[k - 1] && slot_serialized(es[k - 1].file, es[k - 1].start) is Err {
        uncopied_slots(es, kept, (k - 1) as nat).push(es[k - 1].index as u32)
    } else {
        uncopied_slots(es, kept, (k - 1) as nat)
    }
}

/// The slots of the chunks taken whose slot in the file beside the region
/// file cannot be read; none where there is no file to mirror.
pub open spec fn mirror_uncopied(
    other: Option<&[u8]>,
    es: Seq<EntryView>,
    taken: Seq<bool>,
    x_pos: int,
    z_pos: int,
) -> Seq<u32> {
    match usable(other) {
        Some(file) => uncopied_slots(
            mirror_entries(es, file, x_pos, z_pos),
            mirror_flags(es, taken, file),
            es.len(),
        ),
        None => Seq::empty(),
    }
}

/// For each entry, whether it is kept and could be copied: a kept chunk
/// that cannot be read is not copied.
pub open spec fn copied_flags(es: Seq<EntryView>, kept: Seq<bool>) -> Seq<bool> {
    Seq::new(es.len(), |k: int| kept[k] && slot_serialized(es[k].file, es[k].start) is Ok)
}

/// How many of the first `k` flags are set.
pub open spec fn count_kept(kept: Seq<bool>, k: nat) -> nat
    decreases k,
{
    if k == 0 {
        0
    } else if kept[k - 1] {
        count_kept(kept, (k - 1) as nat) + 1
    } else {
        count_kept(kept, (k - 1) as nat)
    }
}

/// The output after the first `k` entries were gone through: each kept
/// entry copied in turn.
pub open spec fn copied(es: Seq<EntryView>, kept: Seq<bool>, k: nat) -> WriterView
    decreases k,
{
    if k == 0 {
        WriterView::fresh()
    } else if kept[k - 1] {
        copied(es, kept, (k - 1) as nat).copy(es[k - 1])
    } else {
        copied(es, kept, (k - 1) as nat)
    }
}

/// The output beside it after the first `k` entries were gone through: for
/// each entry that was taken, the slot of the same index in `other` copied
/// in turn,
/// where `other` has a chunk there.
pub open spec fn mirrored(
    es: Seq<EntryView>,
    taken: Seq<bool>,
    other: Seq<u8>,
    x_pos: int,
    z_pos: int,
    k: nat,
) -> WriterView
    decreases k,
{
    if k == 0 {
        WriterView::fresh()
    } else if taken[k - 1] && slot_populated(other, es[k - 1].index as int) {
        mirrored(es, taken, other, x_pos, z_pos, (k - 1) as nat).copy(
            entry_at(other, x_pos, z_pos, es[k - 1].index as int),
        )
    } else {
        mirrored(es, taken, other, x_pos, z_pos, (k - 1) as nat)
    }
}

/// The file beside a region file that is read: one that is there and long
/// enough.
pub open spec fn usable(other: Option<&[u8]>) -> Option<Seq<u8>> {
    match other {
        Some(file) => if file@.len() >= HEADER_LEN {
            Some(file@)
        } else {
            None
        },
        None => None,
    }
}

/// Whether `out` is the file that mirrors `other`, or nothing where there
/// is no file to mirror.
pub open spec fn mirrors(
    out: Option<Vec<u8>>,
    other: Option<&[u8]>,
    es: Seq<EntryView>,
    taken: Seq<bool>,
    x_pos: int,
    z_pos: int,
) -> bool {
    match usable(other) {
        Some(file) => out matches Some(v) && v@ == mirrored(
            es,
            taken,
            file,
            x_pos,
            z_pos,
            es.len(),
        ).file(),
        None => out is None,
    }
}

/// Asks the chain about each entry.
fn select<P: ChunkPattern>(entries: &Vec<McaEntry<'_>>, patterns: &[P]) -> (r: (
    Vec<bool>,
    u64,
    Vec<u32>,
))
    ensures
        r.0@ == kept_flags(entry_views(entries@), patterns@),
        r.1 == count_kept(r.0@, entries@.len()),
        r.1 <= entries@.len(),
        r.2@ == unjudged_slots(entry_views(entries@), patterns@, entries@.len()),
{
    let mut flags: Vec<bool> = Vec::new();
    let mut unjudged: Vec<u32> = Vec::new();
    let mut kept: u64 = 0;
    let mut k: usize = 0;
    while k < entries.len()
        invariant
            k <= entries@.len(),
            flags@.len() == k,
            forall|j: int| 0 <= j < k ==> flags@[j] == keeps(patterns@, #[trigger] entries@[j]@),
            kept == count_kept(flags@, k as nat),
            kept <= k,
            unjudged@ == unjudged_slots(entry_views(entries@), patterns@, k as nat),
        decreases entries@.len() - k,
    {
        let verdict = evaluate(patterns, &entries[k]);
        if verdict.failed > 0 {
            unjudged.push(entries[k].region_index());
        }
        let ghost before = flags@;
        flags.push(verdict.keep);
        proof {
            lemma_count_kept_prefix(before, flags@, k as nat);
        }
        if verdict.keep {
            kept += 1;
        }
        k += 1;
    }
    assert(flags@ =~= kept_flags(entry_views(entries@), patterns@));
    (flags, kept, unjudged)
}

/// Flags that agree on the first `k` places count the same there.
proof fn lemma_count_kept_prefix(a: Seq<bool>, b: Seq<bool>, k: nat)
    requires
        k <= a.len(),
        k <= b.len(),
        forall|j: int| 0 <= j < k ==> a[j] == b[j],
    ensures
        count_kept(a, k) == count_kept(b, k),
    decreases k,
{
    if k > 0 {
        lemma_count_kept_prefix(a, b, (k - 1) as nat);
    }
}

/// Copies the kept entries into a new file.
fn copy_kept(entries: &Vec<McaEntry<'_>>, kept: &Vec<bool>) -> (r: (Vec<u8>, Vec<u32>, Vec<bool>))
    requires
        kept@.len() == entries@.len(),
    ensures
        r.0@ == copied(entry_views(entries@), kept@, entries@.len()).file(),
        r.1@ == uncopied_slots(entry_views(entries@), kept@, entries@.len()),
        r.2@ == copied_flags(entry_views(entries@), kept@),
{
    let mut writer = McaWriter::open();
    let mut uncopied: Vec<u32> = Vec::new();
    let mut taken: Vec<bool> = Vec::new();
    let mut k: usize = 0;
    while k < entries.len()
        invariant
            k <= entries@.len(),
            kept@.len() == entries@.len(),
            writer@.wf(),
            writer@ == copied(entry_views(entries@), kept@, k as nat),
            uncopied@ == uncopied_slots(entry_views(entries@), kept@, k as nat),
            taken@.len() == k,
            forall|j: int|
                0 <= j < k ==> taken@[j] == (kept@[j] && slot_serialized(
                    (#[trigger] entries@[j])@.file,
                    entries@[j]@.start,
                ) is Ok),
        decreases entries@.len() - k,
    {
        let mut copied_now = false;
        if kept[k] {
            if writer.write_entry(&entries[k]).is_err() {
                uncopied.push(entries[k].region_index());
            } else {
                copied_now = true;
            }
        }
        taken.push(copied_now);
        k += 1;
    }
    assert(taken@ =~= copied_flags(entry_views(entries@), kept@));
    (writer.finalize(), uncopied, taken)
}

/// Copies, for each entry that was taken, the slot of the same index in the
/// file of `reader` into a new file.
fn copy_mirror(entries: &Vec<McaEntry<'_>>, taken: &Vec<bool>, reader: &mut McaReader<'_>) -> (r: (
    Vec<u8>,
    Vec<u32>,
))
    requires
        taken@.len() == entries@.len(),
        old(reader)@.file.len() >= HEADER_LEN,
    ensures
        final(reader)@ == old(reader)@,
        r.0@ == mirrored(
            entry_views(entries@),
            taken@,
            old(reader)@.file,
            old(reader)@.x_pos,
            old(reader)@.z_pos,
            entries@.len(),
        ).file(),
        r.1@ == uncopied_slots(
            mirror_entries(
                entry_views(entries@),
                old(reader)@.file,
                old(reader)@.x_pos,
                old(reader)@.z_pos,
            ),
            mirror_flags(entry_views(entries@), taken@, old(reader)@.file),
            entries@.len(),
        ),
{
    let mut writer = McaWriter::open();
    let mut uncopied: Vec<u32> = Vec::new();
    let mut k: usize = 0;
    while k < entries.len()
        invariant
            k <= entries@.len(),
            taken@.len() == entries@.len(),
            reader@ == old(reader)@,
            reader@.file.len() >= HEADER_LEN,
            writer@.wf(),
            writer@ == mirrored(
                entry_views(entries@),
                taken@,
                reader@.file,
                reader@.x_pos,
                reader@.z_pos,
                k as nat,
            ),
            uncopied@ == uncopied_slots(
                mirror_entries(
                    entry_views(entries@),
                    reader@.file,
                    reader@.x_pos,
                    reader@.z_pos,
                ),
                mirror_flags(entry_views(entries@), taken@, reader@.file),
                k as nat,
            ),
        decreases entries@.len() - k,
    {
        if taken[k] {
            let index = entries[k].region_index();
            match reader.get(index as usize) {
                Ok(Some(entry)) => {
                    if writer.write_entry(&entry).is_err() {
                        uncopied.push(index);
                    }
                },
                _ => {},
            }
        }
        k += 1;
    }
    (writer.finalize(), uncopied)
}

/// Mirrors the entries that were taken into the file beside the region
/// file, where there is one that is long enough.
fn mirror_file(name: &str, entries: &Vec<McaEntry<'_>>, taken: &Vec<bool>, other: Option<&[u8]>) -> (r: (
    Option<Vec<u8>>,
    Vec<u32>,
))
    requires
        taken@.len() == entries@.len(),
        region_coords(name.spec_bytes()) matches Some((x, z)) && fits_i32(x) && fits_i32(z),
    ensures
        mirrors(
            r.0,
            other,
            entry_views(entries@),
            taken@,
            region_coords(name.spec_bytes())->Some_0.0,
            region_coords(name.spec_bytes())->Some_0.1,
        ),
        r.1@ == mirror_uncopied(
            other,
            entry_views(entries@),
            taken@,
            region_coords(name.spec_bytes())->Some_0.0,
            region_coords(name.spec_bytes())->Some_0.1,
        ),
{
    match other {
        Some(file) => {
            if !is_valid_mca(file.len() as u64) {
                return (None, Vec::new());
            }
            match McaReader::open(name, file) {
                Ok(mut reader) => {
                    let (out, uncopied) = copy_mirror(entries, taken, &mut reader);
                    (Some(out), uncopied)
                },
                Err(_) => (None, Vec::new()),
            }
        },
        None => (None, Vec::new()),
    }
}

/// Trims one region file, and the entities and poi files of the same name
/// with it.
///
/// Every chunk that the chain keeps is copied, as it is stored and in the
/// order of the slots, into a new region file. For each chunk that was
/// copied the slot of the same index in the entities file and in the poi
/// file is copied into a new file of that kind, where the file has a chunk
/// there. A region
/// file that is shorter than its tables, or whose path names no region, is
/// passed over; an entities or poi file that is shorter than its tables
/// counts as absent. A predicate that fails on a chunk counts as one that
/// does not keep it, and a kept chunk that cannot be read is not copied;
/// the slots of both are handed back.
pub fn process_region<P: ChunkPattern>(
    name: &str,
    region: &[u8],
    entities: Option<&[u8]>,
    poi: Option<&[u8]>,
    patterns: &[P],
) -> (r: Result<RegionOutput, RegionSkip>)
    ensures
        match r {
            Err(RegionSkip::TooShort) => region@.len() < HEADER_LEN,
            Err(RegionSkip::Name(e)) => region@.len() >= HEADER_LEN && (match e {
                ReaderError::InvalidName => region_coords(name.spec_bytes()) is None,
                ReaderError::CoordinateOutOfRange => region_coords(
                    name.spec_bytes(),
                ) matches Some((x, z)) && !(fits_i32(x) && fits_i32(z)),
                ReaderError::ShortHeader => false,
            }),
            Ok(out) => {
                &&& region@.len() >= HEADER_LEN
                &&& region_coords(name.spec_bytes()) matches Some((x, z))
                &&& fits_i32(x)
                &&& fits_i32(z)
                &&& ({
                    let es = region_entries(region@, x, z);
                    let kept = kept_flags(es, patterns@);
                    &&& out.region@ == copied(es, kept, es.len()).file()
                    &&& mirrors(out.entities, entities, es, copied_flags(es, kept), x, z)
                    &&& mirrors(out.poi, poi, es, copied_flags(es, kept), x, z)
                    &&& out.kept == count_kept(kept, es.len())
                    &&& out.kept + out.removed == es.len()
                    &&& out.unjudged@ == unjudged_slots(es, patterns@, es.len())
                    &&& out.uncopied@ == uncopied_slots(es, kept, es.len())
                    &&& out.entities_uncopied@ == mirror_uncopied(
                        entities,
                        es,
                        copied_flags(es, kept),
                        x,
                        z,
                    )
                    &&& out.poi_uncopied@ == mirror_uncopied(poi, es, copied_flags(es, kept), x, z)
                })
            },
        },
{
    if !is_valid_mca(region.len() as u64) {
        return Err(RegionSkip::TooShort);
    }
    let mut reader = match McaReader::open(name, region) {
        Ok(reader) => reader,
        Err(e) => {
            return Err(RegionSkip::Name(e));
        },
    };
    let entries = match reader.entries() {
        Ok(entries) => entries,
        Err(_) => Vec::new(),
    };
    let (kept, kept_total, unjudged) = select(&entries, patterns);
    let (region_out, uncopied, taken) = copy_kept(&entries, &kept);
    let (entities_out, entities_uncopied) = mirror_file(name, &entries, &taken, entities);
    let (poi_out, poi_uncopied) = mirror_file(name, &entries, &taken, poi);
    Ok(
        RegionOutput {
            region: region_out,
            entities: entities_out,
            poi: poi_out,
            kept: kept_total,
            removed: entries.len() as u64 - kept_total,
            unjudged,
            uncopied,
            entities_uncopied,
            poi_uncopied,
        },
    )
}

/// Whether the entries stand by rising index, each index that of a slot.
pub open spec fn indices_rise(es: Seq<EntryView>) -> bool {
    &&& forall|k: int| 0 <= k < es.len() ==> (#[trigger] es[k]).index < SLOT_COUNT
    &&& forall|j: int, k: int|
        0 <= j < k < es.len() ==> (#[trigger] es[j]).index < (#[trigger] es[k]).index
}

/// Whether the slot at `start` can be read and takes, with its padding,
/// fewer than the 256 sectors that a location word can count.
pub open spec fn fits_location_word(file: Seq<u8>, start: nat) -> bool {
    match slot_serialized(file, start) {
        Ok(bytes) => padded_len(bytes.len() as int) < 256 * 4096,
        Err(_) => false,
    }
}

/// The byte at which the copy of entry `k` starts in the output, if the
/// entry is copied.
pub open spec fn copy_start(es: Seq<EntryView>, kept: Seq<bool>, k: nat) -> int {
    copied(es, kept, k).bytes.len() as int
}

/// The slots of `other` that answer to the entries, index by index.
pub open spec fn mirror_entries(es: Seq<EntryView>, other: Seq<u8>, x_pos: int, z_pos: int) -> Seq<
    EntryView,
> {
    Seq::new(es.len(), |k: int| entry_at(other, x_pos, z_pos, es[k].index as int))
}

/// For each entry, whether it is taken and `other` has a chunk at its index.
pub open spec fn mirror_flags(es: Seq<EntryView>, taken: Seq<bool>, other: Seq<u8>) -> Seq<bool> {
    Seq::new(es.len(), |k: int| taken[k] && slot_populated(other, es[k].index as int))
}

/// The populated slots below `n` are listed by rising index, each as the
/// handle on its slot, and none is left out.
pub proof fn lemma_entries_upto(file: Seq<u8>, x_pos: int, z_pos: int, n: nat)
    requires
        n <= SLOT_COUNT,
    ensures
        entries_upto(file, x_pos, z_pos, n).len() <= n,
        indices_rise(entries_upto(file, x_pos, z_pos, n)),
        forall|k: int|
            0 <= k < entries_upto(file, x_pos, z_pos, n).len() ==> {
                let e = #[trigger] entries_upto(file, x_pos, z_pos, n)[k];
                &&& e.index < n
                &&& slot_populated(file, e.index as int)
                &&& e == entry_at(file, x_pos, z_pos, e.index as int)
            },
        forall|i: int|
            0 <= i < n && slot_populated(file, i) ==> exists|k: int|
                0 <= k < entries_upto(file, x_pos, z_pos, n).len() && (#[trigger] entries_upto(
                    file,
                    x_pos,
                    z_pos,
                    n,
                )[k]).index == i,
    decreases n,
{
    if n > 0 {
        let prev = entries_upto(file, x_pos, z_pos, (n - 1) as nat);
        let es = entries_upto(file, x_pos, z_pos, n);
        lemma_entries_upto(file, x_pos, z_pos, (n - 1) as nat);
        assert forall|i: int| 0 <= i < n && slot_populated(file, i) implies exists|k: int|
            0 <= k < es.len() && (#[trigger] es[k]).index == i by {
            if i == n - 1 {
                assert(es[es.len() - 1].index == i);
            } else {
                let k = choose|k: int| 0 <= k < prev.len() && (#[trigger] prev[k]).index == i;
                assert(es[k].index == i);
            }
        }
    }
}

/// The output is well formed at every step, and only grows.
pub proof fn lemma_copied_wf(es: Seq<EntryView>, kept: Seq<bool>, k: nat)
    requires
        k <= es.len(),
        kept.len() == es.len(),
        indices_rise(es),
    ensures
        copied(es, kept, k).wf(),
        k > 0 ==> copied(es, kept, (k - 1) as nat).bytes.len() <= copied(es, kept, k).bytes.len(),
    decreases k,
{
    if k > 0 {
        lemma_copied_wf(es, kept, (k - 1) as nat);
        let prev = copied(es, kept, (k - 1) as nat);
        let e = es[k - 1];
        if kept[k - 1] {
            match slot_serialized(e.file, e.start) {
                Ok(bytes) => {
                    lemma_append_wf(prev, e.index as int, e.modified, bytes);
                    lemma_padded_len(bytes.len() as int);
                },
                Err(_) => {},
            }
        }
    }
}

/// The output never shrinks.
pub proof fn lemma_copied_grows(es: Seq<EntryView>, kept: Seq<bool>, k: nat, n: nat)
    requires
        k <= n <= es.len(),
        kept.len() == es.len(),
        indices_rise(es),
    ensures
        copied(es, kept, k).bytes.len() <= copied(es, kept, n).bytes.len(),
    decreases n,
{
    if k < n {
        lemma_copied_wf(es, kept, n);
        lemma_copied_grows(es, kept, k, (n - 1) as nat);
    }
}

/// A kept entry that can be read is held by the output from the step at
/// which it was copied on.
pub proof fn lemma_copied_holds(es: Seq<EntryView>, kept: Seq<bool>, k: nat, n: nat)
    requires
        k < n <= es.len(),
        kept.len() == es.len(),
        indices_rise(es),
        kept[k as int],
        slot_serialized(es[k as int].file, es[k as int].start) is Ok,
    ensures
        holds_slot(
            copied(es, kept, n),
            es[k as int].index as int,
            copy_start(es, kept, k),
            slot_serialized(es[k as int].file, es[k as int].start)->Ok_0,
        ),
        copied(es, kept, n).timestamps[es[k as int].index as int] == es[k as int].modified,
    decreases n,
{
    let e = es[k as int];
    let bytes = slot_serialized(e.file, e.start)->Ok_0;
    let prev = copied(es, kept, (n - 1) as nat);
    lemma_copied_wf(es, kept, (n - 1) as nat);
    if n == k + 1 {
        lemma_append_holds(prev, e.index as int, e.modified, bytes);
    } else {
        lemma_copied_holds(es, kept, k, (n - 1) as nat);
        let last = es[n - 1];
        if kept[n - 1] {
            match slot_serialized(last.file, last.start) {
                Ok(more) => {
                    lemma_append_keeps(
                        prev,
                        last.index as int,
                        last.modified,
                        more,
                        e.index as int,
                        copy_start(es, kept, k),
                        bytes,
                    );
                },
                Err(_) => {},
            }
        }
    }
}

/// A slot that no copied entry has the index of is noted nowhere.
pub proof fn lemma_copied_untouched(es: Seq<EntryView>, kept: Seq<bool>, n: nat, index: int)
    requires
        n <= es.len(),
        kept.len() == es.len(),
        indices_rise(es),
        0 <= index < SLOT_COUNT,
        forall|k: int|
            0 <= k < n ==> !(kept[k] && (#[trigger] es[k]).index == index && slot_serialized(
                es[k].file,
                es[k].start,
            ) is Ok),
    ensures
        copied(es, kept, n).offsets[index] == 0,
        copied(es, kept, n).sizes[index] == 0,
        copied(es, kept, n).timestamps[index] == 0,
    decreases n,
{
    if n > 0 {
        lemma_copied_untouched(es, kept, (n - 1) as nat, index);
        lemma_copied_wf(es, kept, (n - 1) as nat);
        assert(!(kept[n - 1] && es[n - 1].index == index && slot_serialized(
            es[n - 1].file,
            es[n - 1].start,
        ) is Ok));
    }
}

/// The file beside the region file is made as the region file is, from the
/// slots that answer to the entries and the flags that hold for them.
pub proof fn lemma_mirrored_is_copied(
    es: Seq<EntryView>,
    taken: Seq<bool>,
    other: Seq<u8>,
    x_pos: int,
    z_pos: int,
    k: nat,
)
    requires
        k <= es.len(),
        taken.len() == es.len(),
    ensures
        mirrored(es, taken, other, x_pos, z_pos, k) == copied(
            mirror_entries(es, other, x_pos, z_pos),
            mirror_flags(es, taken, other),
            k,
        ),
    decreases k,
{
    if k > 0 {
        lemma_mirrored_is_copied(es, taken, other, x_pos, z_pos, (k - 1) as nat);
    }
}

/// Alignment, for every file that `process_region` writes: the region
/// file, and the entities or poi file made from `other`, are whole numbers
/// of sectors, the first two of them the tables.
pub proof fn law_outputs_are_whole_sectors(
    region: Seq<u8>,
    other: Seq<u8>,
    x_pos: int,
    z_pos: int,
    kept: Seq<bool>,
)
    requires
        kept.len() == region_entries(region, x_pos, z_pos).len(),
    ensures
        ({
            let es = region_entries(region, x_pos, z_pos);
            let out = copied(es, kept, es.len()).file();
            let beside = mirrored(es, copied_flags(es, kept), other, x_pos, z_pos, es.len()).file();
            &&& out.len() % 4096 == 0
            &&& out.len() >= HEADER_LEN
            &&& beside.len() % 4096 == 0
            &&& beside.len() >= HEADER_LEN
        }),
{
    let es = region_entries(region, x_pos, z_pos);
    lemma_entries_upto(region, x_pos, z_pos, SLOT_COUNT as nat);
    lemma_copied_wf(es, kept, es.len());
    let es2 = mirror_entries(es, other, x_pos, z_pos);
    let kept2 = mirror_flags(es, copied_flags(es, kept), other);
    lemma_mirrored_is_copied(es, copied_flags(es, kept), other, x_pos, z_pos, es.len());
    assert(indices_rise(es2));
    lemma_copied_wf(es2, kept2, es.len());
}

/// Preservation and alignment, for the region file that `process_region`
/// writes: the bytes of every kept chunk that can be read lie in the
/// output as they lie in the input, the four length bytes and what they
/// announce; they start on a sector boundary, at sector 2 or later; and the
/// output is a whole number of sectors.
pub proof fn law_kept_chunks_are_preserved(
    region: Seq<u8>,
    x_pos: int,
    z_pos: int,
    kept: Seq<bool>,
    k: int,
)
    requires
        kept.len() == region_entries(region, x_pos, z_pos).len(),
        0 <= k < kept.len(),
        kept[k],
        slot_header(region, region_entries(region, x_pos, z_pos)[k].start) is Ok,
    ensures
        ({
            let es = region_entries(region, x_pos, z_pos);
            let out = copied(es, kept, es.len()).file();
            let from = es[k].start as int;
            let to = copy_start(es, kept, k as nat);
            let stored = 4 + slot_header(region, es[k].start)->Ok_0.length;
            &&& es[k].file == region
            &&& from == slot_start(region, es[k].index as int)
            &&& out.len() % 4096 == 0
            &&& to % 4096 == 0
            &&& to / 4096 >= 2
            &&& from + stored <= region.len() ==> to + stored <= out.len() && out.subrange(
                to,
                to + stored,
            ) == region.subrange(from, from + stored)
            &&& slot_serialized(region, es[k].start) matches Ok(bytes) && to + bytes.len()
                <= out.len() && out.subrange(to, to + bytes.len()) == bytes
        }),
{
    let es = region_entries(region, x_pos, z_pos);
    lemma_entries_upto(region, x_pos, z_pos, SLOT_COUNT as nat);
    let bytes = slot_serialized(region, es[k].start)->Ok_0;
    let end = copied(es, kept, es.len());
    lemma_copied_wf(es, kept, es.len());
    lemma_copied_holds(es, kept, k as nat, es.len());
    lemma_padded_len(bytes.len() as int);
    law_file_preserves_slot(end, es[k].index as int, copy_start(es, kept, k as nat), bytes);
    law_file_is_aligned(end, es[k].index as int, copy_start(es, kept, k as nat), bytes);
}

/// Header consistency, for the region file that `process_region` writes:
/// the location word of a kept chunk gives, in its upper 24 bits times
/// 4096, the byte at which the chunk starts in the output and, in its lower
/// 8 bits times 4096, the bytes set aside for it with its padding; its
/// timestamp word is that of the input. This holds of a chunk that starts
/// below 64 GiB in the output and takes fewer than 256 sectors.
pub proof fn law_header_is_consistent(
    region: Seq<u8>,
    x_pos: int,
    z_pos: int,
    kept: Seq<bool>,
    k: int,
)
    requires
        kept.len() == region_entries(region, x_pos, z_pos).len(),
        0 <= k < kept.len(),
        kept[k],
        fits_location_word(region, region_entries(region, x_pos, z_pos)[k].start),
        copy_start(region_entries(region, x_pos, z_pos), kept, k as nat) < 0x10_0000_0000,
    ensures
        ({
            let es = region_entries(region, x_pos, z_pos);
            let out = copied(es, kept, es.len()).file();
            let bytes = slot_serialized(region, es[k].start)->Ok_0;
            &&& slot_start(out, es[k].index as int) == copy_start(es, kept, k as nat)
            &&& slot_size(out, es[k].index as int) == padded_len(bytes.len() as int)
            &&& slot_timestamp(out, es[k].index as int) == slot_timestamp(
                region,
                es[k].index as int,
            )
            &&& slot_populated(out, es[k].index as int)
        }),
{
    let es = region_entries(region, x_pos, z_pos);
    lemma_entries_upto(region, x_pos, z_pos, SLOT_COUNT as nat);
    let bytes = slot_serialized(region, es[k].start)->Ok_0;
    let end = copied(es, kept, es.len());
    lemma_copied_wf(es, kept, es.len());
    lemma_copied_holds(es, kept, k as nat, es.len());
    lemma_padded_len(bytes.len() as int);
    law_file_header_is_consistent(
        end,
        es[k].index as int,
        copy_start(es, kept, k as nat),
        bytes,
    );
    assert(bytes.len() > 0);
}

/// A slot of which no chunk is copied is empty in the output: its location
/// word and its timestamp word are zero.
pub proof fn law_left_out_slots_are_empty(
    region: Seq<u8>,
    x_pos: int,
    z_pos: int,
    kept: Seq<bool>,
    index: int,
)
    requires
        kept.len() == region_entries(region, x_pos, z_pos).len(),
        0 <= index < SLOT_COUNT,
        forall|k: int|
            0 <= k < kept.len() && (#[trigger] region_entries(region, x_pos, z_pos)[k]).index
                == index ==> !kept[k] || slot_serialized(
                region,
                region_entries(region, x_pos, z_pos)[k].start,
            ) is Err,
    ensures
        ({
            let es = region_entries(region, x_pos, z_pos);
            let out = copied(es, kept, es.len()).file();
            &&& location_word(out, index) == 0
            &&& slot_timestamp(out, index) == 0
            &&& !slot_populated(out, index)
        }),
{
    let es = region_entries(region, x_pos, z_pos);
    lemma_entries_upto(region, x_pos, z_pos, SLOT_COUNT as nat);
    lemma_copied_wf(es, kept, es.len());
    lemma_copied_untouched(es, kept, es.len(), index);
    lemma_file_words(copied(es, kept, es.len()), index);
}

/// A slot that the output has a chunk in is the slot of an entry that was
/// taken and could be read.
pub proof fn lemma_populated_was_copied(es: Seq<EntryView>, taken: Seq<bool>, index: int)
    requires
        taken.len() == es.len(),
        indices_rise(es),
        0 <= index < SLOT_COUNT,
        slot_populated(copied(es, taken, es.len()).file(), index),
    ensures
        exists|k: int|
            0 <= k < es.len() && taken[k] && (#[trigger] es[k]).index == index && slot_serialized(
                es[k].file,
                es[k].start,
            ) is Ok,
{
    let n = es.len();
    lemma_copied_wf(es, taken, n);
    lemma_file_words(copied(es, taken, n), index);
    if forall|k: int|
        0 <= k < n ==> !(taken[k] && (#[trigger] es[k]).index == index && slot_serialized(
            es[k].file,
            es[k].start,
        ) is Ok) {
        lemma_copied_untouched(es, taken, n, index);
        assert(false);
    }
}

/// The slot of an entry that was taken and could be read has a chunk in
/// the output, where the output stays below 64 GiB.
pub proof fn lemma_copied_is_populated(es: Seq<EntryView>, taken: Seq<bool>, k: int)
    requires
        taken.len() == es.len(),
        indices_rise(es),
        0 <= k < es.len(),
        taken[k],
        slot_serialized(es[k].file, es[k].start) is Ok,
        copied(es, taken, es.len()).bytes.len() < 0x10_0000_0000,
    ensures
        slot_populated(copied(es, taken, es.len()).file(), es[k].index as int),
{
    let n = es.len();
    let bytes = slot_serialized(es[k].file, es[k].start)->Ok_0;
    lemma_copied_wf(es, taken, n);
    lemma_copied_holds(es, taken, k as nat, n);
    lemma_copied_grows(es, taken, k as nat, n);
    lemma_padded_len(bytes.len() as int);
    lemma_held_slot_is_populated(
        copied(es, taken, n),
        es[k].index as int,
        copy_start(es, taken, k as nat),
        bytes,
    );
}

/// What the region file that `process_region` writes has a chunk for: the
/// slots of the kept chunks that can be read and no others, each of them a
/// slot that the input has a chunk for. This holds where the output stays
/// below 64 GiB.
pub proof fn law_region_keeps_the_kept_chunks(
    region: Seq<u8>,
    x_pos: int,
    z_pos: int,
    kept: Seq<bool>,
    index: int,
)
    requires
        kept.len() == region_entries(region, x_pos, z_pos).len(),
        0 <= index < SLOT_COUNT,
        copied(region_entries(region, x_pos, z_pos), kept, kept.len()).bytes.len()
            < 0x10_0000_0000,
    ensures
        ({
            let es = region_entries(region, x_pos, z_pos);
            let out = copied(es, kept, es.len()).file();
            &&& slot_populated(out, index) <==> exists|k: int|
                0 <= k < es.len() && kept[k] && (#[trigger] es[k]).index == index
                    && slot_serialized(region, es[k].start) is Ok
            &&& slot_populated(out, index) ==> slot_populated(region, index)
        }),
{
    let es = region_entries(region, x_pos, z_pos);
    lemma_entries_upto(region, x_pos, z_pos, SLOT_COUNT as nat);
    if slot_populated(copied(es, kept, es.len()).file(), index) {
        lemma_populated_was_copied(es, kept, index);
    }
    if exists|k: int|
        0 <= k < es.len() && kept[k] && (#[trigger] es[k]).index == index && slot_serialized(
            region,
            es[k].start,
        ) is Ok {
        let k = choose|k: int|
            0 <= k < es.len() && kept[k] && (#[trigger] es[k]).index == index && slot_serialized(
                region,
                es[k].start,
            ) is Ok;
        lemma_copied_is_populated(es, kept, k);
    }
}

/// What the entities or poi file that `process_region` writes has a chunk
/// for: the slots for which the chunk of the region file was kept and
/// copied, and the file read has a chunk that can be read, and no others.
/// This holds where the output stays below 64 GiB.
pub proof fn law_mirror_keeps_the_slots_of_copied_chunks(
    region: Seq<u8>,
    other: Seq<u8>,
    x_pos: int,
    z_pos: int,
    kept: Seq<bool>,
    index: int,
)
    requires
        kept.len() == region_entries(region, x_pos, z_pos).len(),
        0 <= index < SLOT_COUNT,
        mirrored(
            region_entries(region, x_pos, z_pos),
            copied_flags(region_entries(region, x_pos, z_pos), kept),
            other,
            x_pos,
            z_pos,
            kept.len(),
        ).bytes.len() < 0x10_0000_0000,
    ensures
        ({
            let es = region_entries(region, x_pos, z_pos);
            let out = mirrored(es, copied_flags(es, kept), other, x_pos, z_pos, es.len()).file();
            slot_populated(out, index) <==> slot_populated(other, index) && slot_serialized(
                other,
                slot_start(other, index) as nat,
            ) is Ok && exists|k: int|
                0 <= k < es.len() && kept[k] && (#[trigger] es[k]).index == index
                    && slot_serialized(region, es[k].start) is Ok
        }),
{
    let es = region_entries(region, x_pos, z_pos);
    let n = es.len();
    let taken = copied_flags(es, kept);
    lemma_entries_upto(region, x_pos, z_pos, SLOT_COUNT as nat);
    let es2 = mirror_entries(es, other, x_pos, z_pos);
    let taken2 = mirror_flags(es, taken, other);
    lemma_mirrored_is_copied(es, taken, other, x_pos, z_pos, n);
    assert(indices_rise(es2));
    if slot_populated(copied(es2, taken2, n).file(), index) {
        lemma_populated_was_copied(es2, taken2, index);
        let k = choose|k: int|
            0 <= k < n && taken2[k] && (#[trigger] es2[k]).index == index && slot_serialized(
                es2[k].file,
                es2[k].start,
            ) is Ok;
        assert(kept[k] && es[k].index == index);
    }
    if slot_populated(other, index) && slot_serialized(other, slot_start(other, index) as nat)
        is Ok && exists|k: int|
        0 <= k < n && kept[k] && (#[trigger] es[k]).index == index && slot_serialized(
            region,
            es[k].start,
        ) is Ok {
        let k = choose|k: int|
            0 <= k < n && kept[k] && (#[trigger] es[k]).index == index && slot_serialized(
                region,
                es[k].start,
            ) is Ok;
        assert(taken2[k] && es2[k].index == index);
        lemma_copied_is_populated(es2, taken2, k);
    }
}

/// Mirroring: a slot that is not empty in the entities or poi file that
/// `process_region` writes is not empty in the region file that it writes.
/// This holds where the region file written stays below 64 GiB.
pub proof fn law_mirror_is_subset(
    region: Seq<u8>,
    other: Seq<u8>,
    x_pos: int,
    z_pos: int,
    kept: Seq<bool>,
    index: int,
)
    requires
        kept.len() == region_entries(region, x_pos, z_pos).len(),
        0 <= index < SLOT_COUNT,
        copied(region_entries(region, x_pos, z_pos), kept, kept.len()).bytes.len()
            < 0x10_0000_0000,
        slot_populated(
            mirrored(
                region_entries(region, x_pos, z_pos),
                copied_flags(region_entries(region, x_pos, z_pos), kept),
                other,
                x_pos,
                z_pos,
                kept.len(),
            ).file(),
            index,
        ),
    ensures
        slot_populated(
            copied(region_entries(region, x_pos, z_pos), kept, kept.len()).file(),
            index,
        ),
{
    let es = region_entries(region, x_pos, z_pos);
    let n = es.len();
    let taken = copied_flags(es, kept);
    lemma_entries_upto(region, x_pos, z_pos, SLOT_COUNT as nat);
    let es2 = mirror_entries(es, other, x_pos, z_pos);
    let taken2 = mirror_flags(es, taken, other);
    lemma_mirrored_is_copied(es, taken, other, x_pos, z_pos, n);
    assert(indices_rise(es2));
    lemma_populated_was_copied(es2, taken2, index);
    let k = choose|k: int|
        0 <= k < n && taken2[k] && (#[trigger] es2[k]).index == index && slot_serialized(
            es2[k].file,
            es2[k].start,
        ) is Ok;
    assert(taken[k]);
    assert(es[k].index == index);
    lemma_copied_is_populated(es, kept, k);
}

/// Which slots are handed back as not copied: those of the entries that
/// are kept and cannot be read, and no others.
pub proof fn law_uncopied_slots(es: Seq<EntryView>, kept: Seq<bool>, n: nat, index: u32)
    requires
        n <= es.len(),
        kept.len() == es.len(),
        indices_rise(es),
    ensures
        uncopied_slots(es, kept, n).contains(index) <==> exists|k: int|
            0 <= k < n && kept[k] && (#[trigger] es[k]).index == index && slot_serialized(
                es[k].file,
                es[k].start,
            ) is Err,
    decreases n,
{
    if n > 0 {
        let before = uncopied_slots(es, kept, (n - 1) as nat);
        law_uncopied_slots(es, kept, (n - 1) as nat, index);
        let last = es[n - 1];
        if kept[n - 1] && slot_serialized(last.file, last.start) is Err {
            let now = before.push(last.index as u32);
            assert(now.last() == last.index as u32);
            if now.contains(index) {
                let at = choose|at: int| 0 <= at < now.len() && now[at] == index;
                if at < before.len() {
                    assert(before[at] == index);
                } else {
                    assert(es[n - 1].index == index);
                }
            }
            if before.contains(index) {
                let at = choose|at: int| 0 <= at < before.len() && before[at] == index;
                assert(now[at] == index);
            }
            if last.index == index {
                assert(now[now.len() - 1] == index);
            }
        }
    }
}

/// Which slots are handed back as not judged: those of the entries on
/// which a predicate that the chain asked failed, and no others.
pub proof fn law_unjudged_slots<P: ChunkPattern>(
    es: Seq<EntryView>,
    patterns: Seq<P>,
    n: nat,
    index: u32,
)
    requires
        n <= es.len(),
        indices_rise(es),
    ensures
        unjudged_slots(es, patterns, n).contains(index) <==> exists|k: int|
            0 <= k < n && (#[trigger] es[k]).index == index && count_failed(
                patterns,
                es[k],
                asked(patterns, es[k]),
            ) > 0,
    decreases n,
{
    if n > 0 {
        let before = unjudged_slots(es, patterns, (n - 1) as nat);
        law_unjudged_slots(es, patterns, (n - 1) as nat, index);
        let last = es[n - 1];
        if count_failed(patterns, last, asked(patterns, last)) > 0 {
            let now = before.push(last.index as u32);
            assert(now.last() == last.index as u32);
            if now.contains(index) {
                let at = choose|at: int| 0 <= at < now.len() && now[at] == index;
                if at < before.len() {
                    assert(before[at] == index);
                } else {
                    assert(es[n - 1].index == index);
                }
            }
            if before.contains(index) {
                let at = choose|at: int| 0 <= at < before.len() && before[at] == index;
                assert(now[at] == index);
            }
            if last.index == index {
                assert(now[now.len() - 1] == index);
            }
        }
    }
}

} // verus!
