//! Writing a region file: slots are appended whole, sector by sector, and
//! the two tables are filled in at the end.

use crate::mca::bytes::{lemma_be_u32_round_trip, u32_be_bytes, u32_to_be};
use crate::mca::entry::{slot_serialized, EntryError, EntryView, McaEntry, SLOT_COUNT};
use crate::mca::reader::{location_word, slot_populated, slot_size, slot_start, slot_timestamp};
use crate::mca::reader::{HEADER_LEN, SECTOR_LEN};
use vstd::prelude::*;

verus! {

/// `n` zero bytes.
pub open spec fn zeros(n: nat) -> Seq<u8> {
    Seq::new(n, |i: int| 0u8)
}

/// Zero bytes that bring `n` bytes up to a whole number of sectors.
pub open spec fn pad_len(n: int) -> int {
    (4096 - n % 4096) % 4096
}

/// `n` bytes and their padding.
pub open spec fn padded_len(n: int) -> int {
    n + pad_len(n)
}

/// The location word that is stored for a slot: the sector it starts at,
/// cut to 24 bits, in the upper 24 bits, the number of its sectors, cut to
/// 8 bits, in the lower 8.
pub open spec fn stored_location_word(offset: u64, size: u32) -> u32 {
    (((offset / 4096) % 0x100_0000) * 256 + (size / 4096) % 256) as u32
}

/// A region file in the making.
pub struct WriterView {
    /// The file so far: room for the two tables, then the slots.
    pub bytes: Seq<u8>,
    /// For each slot the byte it starts at, or 0.
    pub offsets: Seq<u64>,
    /// For each slot the bytes it takes with its padding, or 0.
    pub sizes: Seq<u32>,
    /// For each slot its timestamp, or 0.
    pub timestamps: Seq<u32>,
}

impl WriterView {
    /// What every writer keeps: the file is whole sectors, the first two
    /// of them for the tables, and each table has a word for each slot.
    pub open spec fn wf(self) -> bool {
        &&& self.bytes.len() >= HEADER_LEN
        &&& self.bytes.len() % 4096 == 0
        &&& self.offsets.len() == SLOT_COUNT
        &&& self.sizes.len() == SLOT_COUNT
        &&& self.timestamps.len() == SLOT_COUNT
    }

    /// A file with no slot: 8192 zero bytes.
    pub open spec fn fresh() -> WriterView {
        WriterView {
            bytes: zeros(HEADER_LEN as nat),
            offsets: Seq::new(SLOT_COUNT as nat, |i: int| 0u64),
            sizes: Seq::new(SLOT_COUNT as nat, |i: int| 0u32),
            timestamps: Seq::new(SLOT_COUNT as nat, |i: int| 0u32),
        }
    }

    /// The file after `serialized` was appended for slot `index`: the bytes
    /// as they are, zeros up to the next sector, and the slot's place
    /// noted in the tables. The size that the tables hold is cut to 32 bits.
    pub open spec fn append(self, index: int, modified: u32, serialized: Seq<u8>) -> WriterView {
        WriterView {
            bytes: self.bytes + serialized + zeros(pad_len(serialized.len() as int) as nat),
            offsets: self.offsets.update(
                index,
                (self.bytes.len() % 0x1_0000_0000_0000_0000) as u64,
            ),
            sizes: self.sizes.update(
                index,
                (padded_len(serialized.len() as int) % 0x1_0000_0000) as u32,
            ),
            timestamps: self.timestamps.update(index, modified),
        }
    }

    /// The file after the slot of `entry` was copied to it: appended as it
    /// is stored, or nothing at all where the slot cannot be read.
    pub open spec fn copy(self, entry: EntryView) -> WriterView {
        match slot_serialized(entry.file, entry.start) {
            Ok(bytes) => self.append(entry.index as int, entry.modified, bytes),
            Err(_) => self,
        }
    }

    /// Byte `k` of the two tables: big-endian location words, then
    /// big-endian timestamps.
    pub open spec fn header_byte(self, k: int) -> u8 {
        if k < 4096 {
            u32_be_bytes(stored_location_word(self.offsets[k / 4], self.sizes[k / 4]) as int)[k
                % 4]
        } else {
            u32_be_bytes(self.timestamps[(k - 4096) / 4] as int)[k % 4]
        }
    }

    /// The finished file: the two tables, then the slots as appended.
    pub open spec fn file(self) -> Seq<u8> {
        Seq::new(
            self.bytes.len(),
            |k: int|
                if k < HEADER_LEN {
                    self.header_byte(k)
                } else {
                    self.bytes[k]
                },
        )
    }
}

/// Appending keeps a file well formed.
pub proof fn lemma_append_wf(w: WriterView, index: int, modified: u32, serialized: Seq<u8>)
    requires
        w.wf(),
        0 <= index < SLOT_COUNT,
    ensures
        w.append(index, modified, serialized).wf(),
        w.append(index, modified, serialized).bytes.len() == w.bytes.len() + padded_len(
            serialized.len() as int,
        ),
{
}

/// A region file being written. Every writer that `open` made and
/// `write_entry` changed is well formed, as `WriterView::wf` says.
pub struct McaWriter {
    buf: Vec<u8>,
    offsets: Vec<u64>,
    sizes: Vec<u32>,
    timestamps: Vec<u32>,
}

impl View for McaWriter {
    type V = WriterView;

    closed spec fn view(&self) -> WriterView {
        WriterView {
            bytes: self.buf@,
            offsets: self.offsets@,
            sizes: self.sizes@,
            timestamps: self.timestamps@,
        }
    }
}

/// A table of zero offsets.
fn zero_offsets() -> (t: Vec<u64>)
    ensures
        t@ == Seq::new(SLOT_COUNT as nat, |i: int| 0u64),
{
    let mut t: Vec<u64> = Vec::new();
    let mut i: usize = 0;
    while i < 1024
        invariant
            i <= 1024,
            t@.len() == i,
            forall|j: int| 0 <= j < i ==> t@[j] == 0u64,
        decreases 1024 - i,
    {
        t.push(0);
        i += 1;
    }
    assert(t@ =~= Seq::new(SLOT_COUNT as nat, |i: int| 0u64));
    t
}

/// A table of zero words.
fn zero_table() -> (t: Vec<u32>)
    ensures
        t@ == Seq::new(SLOT_COUNT as nat, |i: int| 0u32),
{
    let mut t: Vec<u32> = Vec::new();
    let mut i: usize = 0;
    while i < 1024
        invariant
            i <= 1024,
            t@.len() == i,
            forall|j: int| 0 <= j < i ==> t@[j] == 0u32,
        decreases 1024 - i,
    {
        t.push(0);
        i += 1;
    }
    assert(t@ =~= Seq::new(SLOT_COUNT as nat, |i: int| 0u32));
    t
}

/// Appends `n` zero bytes.
fn push_zeros(buf: &mut Vec<u8>, n: usize)
    ensures
        final(buf)@ == old(buf)@ + zeros(n as nat),
{
    let mut i: usize = 0;
    assert(buf@ =~= old(buf)@ + zeros(0));
    while i < n
        invariant
            i <= n,
            buf@ == old(buf)@ + zeros(i as nat),
        decreases n - i,
    {
        buf.push(0);
        i += 1;
        assert(buf@ =~= old(buf)@ + zeros(i as nat));
    }
}

impl McaWriter {
    /// A file with no slot yet.
    pub fn open() -> (w: Self)
        ensures
            w@ == WriterView::fresh(),
            w@.wf(),
    {
        let mut buf: Vec<u8> = Vec::new();
        push_zeros(&mut buf, HEADER_LEN);
        assert(buf@ =~= zeros(HEADER_LEN as nat));
        Self { buf, offsets: zero_offsets(), sizes: zero_table(), timestamps: zero_table() }
    }

    /// Copies the slot of `entry` to the end of the file, as it is stored,
    /// and notes its place under the entry's index. Fails, and changes
    /// nothing, exactly where the slot cannot be read.
    pub fn write_entry(&mut self, entry: &McaEntry<'_>) -> (r: Result<(), EntryError>)
        requires
            old(self)@.wf(),
        ensures
            final(self)@.wf(),
            final(self)@ == old(self)@.copy(entry@),
            match r {
                Ok(()) => slot_serialized(entry@.file, entry@.start) matches Ok(bytes)
                    && final(self)@ == old(self)@.append(
                    entry@.index as int,
                    entry@.modified,
                    bytes,
                ),
                Err(e) => slot_serialized(entry@.file, entry@.start) == Err::<Seq<u8>, EntryError>(
                    e,
                ) && final(self)@ == old(self)@,
            },
    {
        let mut chunk = match entry.serialized_bytes() {
            Ok(bytes) => bytes,
            Err(e) => {
                return Err(e);
            },
        };
        let ghost serialized = chunk@;
        let written = chunk.len();
        let pad = (SECTOR_LEN - written % SECTOR_LEN) % SECTOR_LEN;
        push_zeros(&mut chunk, pad);
        let start = self.buf.len();
        let idx = entry.region_index() as usize;
        let ghost before = self@;
        self.buf.extend_from_slice(chunk.as_slice());
        assert(self.buf@ =~= before.bytes + serialized + zeros(pad as nat));
        self.offsets.set(idx, start as u64);
        self.sizes.set(idx, ((written as u64 + pad as u64) % 0x1_0000_0000) as u32);
        self.timestamps.set(idx, entry.modified_time());
        Ok(())
    }

    /// Writes the two tables and hands out the finished file.
    pub fn finalize(self) -> (file: Vec<u8>)
        requires
            self@.wf(),
        ensures
            file@ == self@.file(),
    {
        let ghost view = self@;
        let mut buf = self.buf;
        let mut i: usize = 0;
        while i < 1024
            invariant
                i <= 1024,
                view.wf(),
                view == self@,
                buf@.len() == view.bytes.len(),
                forall|k: int| 0 <= k < 4 * i ==> buf@[k] == view.header_byte(k),
                forall|k: int| 4096 <= k < 4096 + 4 * i ==> buf@[k] == view.header_byte(k),
                forall|k: int| 4 * i <= k < 4096 ==> buf@[k] == view.bytes[k],
                forall|k: int| 4096 + 4 * i <= k < buf@.len() ==> buf@[k] == view.bytes[k],
            decreases 1024 - i,
        {
            let off = ((self.offsets[i] / 4096) % 0x100_0000) as u32;
            let size = self.sizes[i] / 4096;
            let word = u32_to_be(off * 256 + size % 256);
            let stamp = u32_to_be(self.timestamps[i]);
            buf.set(4 * i, word[0]);
            buf.set(4 * i + 1, word[1]);
            buf.set(4 * i + 2, word[2]);
            buf.set(4 * i + 3, word[3]);
            buf.set(4096 + 4 * i, stamp[0]);
            buf.set(4096 + 4 * i + 1, stamp[1]);
            buf.set(4096 + 4 * i + 2, stamp[2]);
            buf.set(4096 + 4 * i + 3, stamp[3]);
            i += 1;
        }
        assert(buf@ =~= view.file());
        buf
    }
}

/// Whether the file holds `bytes` as the slot `index`: they lie at `start`,
/// on a sector boundary behind the tables, with zeros up to the next
/// sector, and the tables note the place.
pub open spec fn holds_slot(w: WriterView, index: int, start: int, bytes: Seq<u8>) -> bool {
    let n = bytes.len() as int;
    &&& 0 <= index < SLOT_COUNT
    &&& HEADER_LEN <= start
    &&& start % 4096 == 0
    &&& start + padded_len(n) <= w.bytes.len()
    &&& w.bytes.subrange(start, start + n) == bytes
    &&& w.bytes.subrange(start + n, start + padded_len(n)) == zeros(pad_len(n) as nat)
    &&& w.offsets[index] == start % 0x1_0000_0000_0000_0000
    &&& w.sizes[index] == padded_len(n) % 0x1_0000_0000
}

/// What was appended is held, at the former end of the file.
pub proof fn lemma_append_holds(w: WriterView, index: int, modified: u32, bytes: Seq<u8>)
    requires
        w.wf(),
        0 <= index < SLOT_COUNT,
    ensures
        holds_slot(w.append(index, modified, bytes), index, w.bytes.len() as int, bytes),
        w.append(index, modified, bytes).timestamps[index] == modified,
{
    let after = w.append(index, modified, bytes);
    let start = w.bytes.len() as int;
    let n = bytes.len() as int;
    assert(after.bytes.subrange(start, start + n) =~= bytes);
    assert(after.bytes.subrange(start + n, start + padded_len(n)) =~= zeros(pad_len(n) as nat));
}

/// What the file held under another index, it still holds after an append.
pub proof fn lemma_append_keeps(
    w: WriterView,
    index: int,
    modified: u32,
    bytes: Seq<u8>,
    other: int,
    start: int,
    held: Seq<u8>,
)
    requires
        w.wf(),
        0 <= index < SLOT_COUNT,
        other != index,
        holds_slot(w, other, start, held),
    ensures
        holds_slot(w.append(index, modified, bytes), other, start, held),
        w.append(index, modified, bytes).timestamps[other] == w.timestamps[other],
{
    let after = w.append(index, modified, bytes);
    let n = held.len() as int;
    assert(after.bytes.subrange(start, start + n) =~= w.bytes.subrange(start, start + n));
    assert(after.bytes.subrange(start + n, start + padded_len(n)) =~= w.bytes.subrange(
        start + n,
        start + padded_len(n),
    ));
}

/// The words of the finished file are the words that the tables hold:
/// each location word is made of the noted start and size, each timestamp
/// word is the noted timestamp.
pub proof fn lemma_file_words(w: WriterView, index: int)
    requires
        w.wf(),
        0 <= index < SLOT_COUNT,
    ensures
        w.file().len() == w.bytes.len(),
        location_word(w.file(), index) == stored_location_word(
            w.offsets[index],
            w.sizes[index],
        ),
        slot_timestamp(w.file(), index) == w.timestamps[index],
{
    let file = w.file();
    let word = stored_location_word(w.offsets[index], w.sizes[index]) as int;
    let stamp = w.timestamps[index] as int;
    lemma_be_u32_round_trip(word);
    lemma_be_u32_round_trip(stamp);
    assert forall|j: int| 0 <= j < 4 implies file[4 * index + j] == u32_be_bytes(word)[j] by {
        assert((4 * index + j) / 4 == index && (4 * index + j) % 4 == j);
    }
    assert forall|j: int| 0 <= j < 4 implies file[4096 + 4 * index + j] == u32_be_bytes(
        stamp,
    )[j] by {
        assert((4096 + 4 * index + j - 4096) / 4 == index && (4096 + 4 * index + j) % 4 == j);
    }
    assert(file.subrange(4 * index, 4 * index + 4) =~= u32_be_bytes(word));
    assert(file.subrange(4096 + 4 * index, 4096 + 4 * index + 4) =~= u32_be_bytes(stamp));
}

/// Preservation: the finished file holds the bytes of a slot where they
/// were appended.
pub proof fn law_file_preserves_slot(w: WriterView, index: int, start: int, bytes: Seq<u8>)
    requires
        w.wf(),
        holds_slot(w, index, start, bytes),
    ensures
        w.file().subrange(start, start + bytes.len()) == bytes,
{
    assert(w.file().subrange(start, start + bytes.len()) =~= w.bytes.subrange(
        start,
        start + bytes.len(),
    ));
}

/// Padding brings a length up to the next whole sector, and no further.
pub proof fn lemma_padded_len(n: int)
    requires
        0 <= n,
    ensures
        padded_len(n) % 4096 == 0,
        n <= padded_len(n) < n + 4096,
        0 <= pad_len(n) < 4096,
{
}

/// A location word made of a start and a size that fit gives both back.
proof fn lemma_location_word_parts(start: int, padded: int)
    requires
        0 <= start < 0x10_0000_0000,
        start % 4096 == 0,
        0 <= padded < 256 * 4096,
        padded % 4096 == 0,
    ensures
        ({
            let word = ((start / 4096) % 0x100_0000) * 256 + (padded / 4096) % 256;
            &&& 0 <= word < 0x1_0000_0000
            &&& word / 256 * 4096 == start
            &&& word % 256 * 4096 == padded
        }),
{
    let sectors = start / 4096;
    let count = padded / 4096;
    assert(start == sectors * 4096);
    assert(padded == count * 4096);
    assert(0 <= count < 256);
    assert(count % 256 == count);
    assert(0 <= sectors < 0x100_0000);
    assert(sectors % 0x100_0000 == sectors);
    let word = sectors * 256 + count;
    assert(word / 256 == sectors && word % 256 == count);
}

/// A slot that the file holds below 64 GiB is not empty in the finished
/// file: its location word is not zero.
pub proof fn lemma_held_slot_is_populated(w: WriterView, index: int, start: int, bytes: Seq<u8>)
    requires
        w.wf(),
        holds_slot(w, index, start, bytes),
        start < 0x10_0000_0000,
    ensures
        slot_populated(w.file(), index),
{
    lemma_file_words(w, index);
    let sectors = start / 4096;
    assert(start == sectors * 4096);
    assert(2 <= sectors < 0x100_0000);
    assert(sectors % 0x100_0000 == sectors);
    assert(w.offsets[index] == start);
    let count = (w.sizes[index] / 4096) % 256;
    assert(stored_location_word(w.offsets[index], w.sizes[index]) == sectors * 256 + count);
}

/// Header consistency: in the finished file the upper 24 bits of a slot's
/// location word, times 4096, are the byte at which the slot starts, and
/// the lower 8 bits, times 4096, are the bytes set aside for it, padding
/// included. This holds of a slot that starts below 64 GiB and takes fewer
/// than 256 sectors; beyond that a location word has no room for the
/// numbers.
pub proof fn law_file_header_is_consistent(w: WriterView, index: int, start: int, bytes: Seq<u8>)
    requires
        w.wf(),
        holds_slot(w, index, start, bytes),
        start < 0x10_0000_0000,
        padded_len(bytes.len() as int) < 256 * 4096,
    ensures
        slot_start(w.file(), index) == start,
        slot_size(w.file(), index) == padded_len(bytes.len() as int),
        slot_timestamp(w.file(), index) == w.timestamps[index],
{
    let padded = padded_len(bytes.len() as int);
    lemma_padded_len(bytes.len() as int);
    lemma_location_word_parts(start, padded);
    let word = ((start / 4096) % 0x100_0000) * 256 + (padded / 4096) % 256;
    assert(w.offsets[index] == start);
    assert(w.sizes[index] == padded);
    assert(stored_location_word(w.offsets[index], w.sizes[index]) == word);
    lemma_file_words(w, index);
    assert(location_word(w.file(), index) == word);
}

/// Alignment: the finished file is a whole number of sectors, and a slot
/// that it holds starts on a sector boundary, at sector 2 or later.
pub proof fn law_file_is_aligned(w: WriterView, index: int, start: int, bytes: Seq<u8>)
    requires
        w.wf(),
    ensures
        w.file().len() % 4096 == 0,
        w.file().len() >= HEADER_LEN,
        holds_slot(w, index, start, bytes) ==> start % 4096 == 0 && start / 4096 >= 2,
{
}

} // verus!
