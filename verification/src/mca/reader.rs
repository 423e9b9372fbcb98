//! Reading a region file: its coordinates from its name, its two tables,
//! and the slots that hold a chunk.

use crate::mca::bytes::{be_u32, read_be_u32};
use crate::mca::entry::{EntryView, McaEntry, SLOT_COUNT};
use vstd::prelude::*;
use vstd::string::StringSliceAdditionalSpecFns;

verus! {

/// Bytes of the two tables at the head of a region file.
pub const HEADER_LEN: usize = 8192;

/// Bytes of a sector, the unit in which slots are laid out.
pub const SECTOR_LEN: usize = 4096;

/// Why a region file could not be read.
#[derive(Debug, Copy, Clone, Eq, PartialEq)]
pub enum ReaderError {
    /// The path does not end in `r.<x>.<z>.mca`.
    InvalidName,
    /// A coordinate in the name does not fit in 32 bits.
    CoordinateOutOfRange,
    /// The file is shorter than its two tables.
    ShortHeader,
}

/// A reader as a value: the file and the coordinates of the region.
pub struct ReaderView {
    pub file: Seq<u8>,
    pub x_pos: int,
    pub z_pos: int,
}

/// Whether the byte is one of `0` to `9`.
pub open spec fn is_digit(b: u8) -> bool {
    0x30 <= b <= 0x39
}

/// How many digits stand at the end of `s`.
pub open spec fn trailing_digits(s: Seq<u8>) -> nat
    decreases s.len(),
{
    if s.len() > 0 && is_digit(s.last()) {
        1 + trailing_digits(s.drop_last())
    } else {
        0
    }
}

/// The number that a run of digits spells.
pub open spec fn decimal(digits: Seq<u8>) -> nat
    decreases digits.len(),
{
    if digits.len() == 0 {
        0
    } else {
        (decimal(digits.drop_last()) * 10 + (digits.last() - 0x30)) as nat
    }
}

/// The signed decimal that `s` ends in, and how many bytes it takes: the
/// longest run of digits at the end, with a minus sign if one stands
/// before it.
pub open spec fn trailing_number(s: Seq<u8>) -> Option<(int, nat)> {
    let k = trailing_digits(s);
    let first = s.len() - k;
    if k == 0 {
        None
    } else if first > 0 && s[first - 1] == 0x2D {
        Some((-(decimal(s.subrange(first, s.len() as int)) as int), k + 1))
    } else {
        Some((decimal(s.subrange(first, s.len() as int)) as int, k))
    }
}

/// The coordinates that a path names: it ends in `r.`, a signed decimal,
/// a dot, a signed decimal and `.mca`. Anything may stand before the `r`.
pub open spec fn region_coords(path: Seq<u8>) -> Option<(int, int)> {
    let n = path.len() as int;
    if n < 4 || path.subrange(n - 4, n) != seq![0x2Eu8, 0x6Du8, 0x63u8, 0x61u8] {
        None
    } else {
        match trailing_number(path.take(n - 4)) {
            None => None,
            Some((z, z_len)) => {
                let dot = n - 4 - z_len - 1;
                if dot < 0 || path[dot] != 0x2E {
                    None
                } else {
                    match trailing_number(path.take(dot)) {
                        None => None,
                        Some((x, x_len)) => {
                            let r = dot - x_len - 2;
                            if r >= 0 && path[r] == 0x72 && path[r + 1] == 0x2E {
                                Some((x, z))
                            } else {
                                None
                            }
                        },
                    }
                }
            },
        }
    }
}

/// Whether the number fits a 32-bit coordinate.
pub open spec fn fits_i32(v: int) -> bool {
    -0x8000_0000 <= v <= 0x7FFF_FFFF
}

/// The location word of slot `i`.
pub open spec fn location_word(file: Seq<u8>, i: int) -> int {
    be_u32(file.subrange(4 * i, 4 * i + 4))
}

/// The byte at which slot `i` starts: the upper 24 bits of its location
/// word, in sectors.
pub open spec fn slot_start(file: Seq<u8>, i: int) -> int {
    location_word(file, i) / 256 * 4096
}

/// The bytes set aside for slot `i`: the lower 8 bits of its location
/// word, in sectors.
pub open spec fn slot_size(file: Seq<u8>, i: int) -> int {
    location_word(file, i) % 256 * 4096
}

/// The timestamp word of slot `i`.
pub open spec fn slot_timestamp(file: Seq<u8>, i: int) -> int {
    be_u32(file.subrange(4096 + 4 * i, 4096 + 4 * i + 4))
}

/// Whether slot `i` holds a chunk: its location word is not zero.
pub open spec fn slot_populated(file: Seq<u8>, i: int) -> bool {
    location_word(file, i) != 0
}

/// A location word is zero exactly if both the start and the size that it
/// gives are zero.
pub proof fn lemma_empty_slot(file: Seq<u8>, i: int)
    ensures
        slot_populated(file, i) <==> !(slot_start(file, i) == 0 && slot_size(file, i) == 0),
{
    let word = location_word(file, i);
    assert(word == (word / 256) * 256 + word % 256);
}

/// The handle on slot `i` of a region file.
pub open spec fn entry_at(file: Seq<u8>, x_pos: int, z_pos: int, i: int) -> EntryView {
    EntryView {
        file,
        start: slot_start(file, i) as nat,
        length: slot_size(file, i) as nat,
        index: i as nat,
        modified: slot_timestamp(file, i) as u32,
        region_x: x_pos,
        region_z: z_pos,
    }
}

/// The handles on the populated slots below `n`, by rising index.
pub open spec fn entries_upto(file: Seq<u8>, x_pos: int, z_pos: int, n: nat) -> Seq<EntryView>
    decreases n,
{
    if n == 0 {
        Seq::empty()
    } else if slot_populated(file, n - 1) {
        entries_upto(file, x_pos, z_pos, (n - 1) as nat).push(entry_at(file, x_pos, z_pos, n - 1))
    } else {
        entries_upto(file, x_pos, z_pos, (n - 1) as nat)
    }
}

/// The handles on all populated slots, by rising index.
pub open spec fn region_entries(file: Seq<u8>, x_pos: int, z_pos: int) -> Seq<EntryView> {
    entries_upto(file, x_pos, z_pos, SLOT_COUNT as nat)
}

/// The values that a run of handles stands for.
pub open spec fn entry_views(entries: Seq<McaEntry<'_>>) -> Seq<EntryView> {
    Seq::new(entries.len(), |k: int| entries[k]@)
}

/// The two tables, decoded.
struct HeaderTables {
    offsets: Vec<u64>,
    sizes: Vec<u32>,
    timestamps: Vec<u32>,
}

/// A region file open for reading. The tables are decoded when a slot is
/// first asked for.
pub struct McaReader<'a> {
    file: &'a [u8],
    x_pos: i32,
    z_pos: i32,
    tables: Option<HeaderTables>,
}

impl<'a> View for McaReader<'a> {
    type V = ReaderView;

    closed spec fn view(&self) -> ReaderView {
        ReaderView { file: self.file@, x_pos: self.x_pos as int, z_pos: self.z_pos as int }
    }
}

/// The digits at the end of the first `end` bytes, read as a number: how
/// many there are, and their value where it is at most `0x8000_0000`.
fn scan_digits(path: &[u8], end: usize) -> (r: (usize, Option<u64>))
    requires
        end <= path@.len(),
    ensures
        r.0 == trailing_digits(path@.take(end as int)),
        r.0 <= end,
        match r.1 {
            Some(v) => v == decimal(path@.subrange(end - r.0, end as int)) && v <= 0x8000_0000,
            None => decimal(path@.subrange(end - r.0, end as int)) > 0x8000_0000,
        },
{
    let mut first: usize = end;
    while first > 0 && path[first - 1] >= 0x30 && path[first - 1] <= 0x39
        invariant
            first <= end <= path@.len(),
            forall|k: int| first <= k < end ==> is_digit(#[trigger] path@[k]),
            trailing_digits(path@.take(end as int)) == (end - first) + trailing_digits(
                path@.take(first as int),
            ),
        decreases first,
    {
        proof {
            let s = path@.take(first as int);
            assert(s.last() == path@[first - 1]);
            assert(s.drop_last() =~= path@.take(first - 1));
        }
        first -= 1;
    }
    proof {
        let s = path@.take(first as int);
        if first > 0 {
            assert(s.last() == path@[first - 1]);
        }
        assert(trailing_digits(s) == 0);
    }
    let ghost digits = path@.subrange(first as int, end as int);
    let mut value: u64 = 0;
    let mut over = false;
    let mut j: usize = first;
    while j < end
        invariant
            first <= j <= end <= path@.len(),
            digits == path@.subrange(first as int, end as int),
            forall|k: int| first <= k < end ==> is_digit(#[trigger] path@[k]),
            !over ==> value == decimal(digits.take(j - first)) && value <= 0x8000_0000,
            over ==> decimal(digits.take(j - first)) > 0x8000_0000,
        decreases end - j,
    {
        proof {
            let s = digits.take(j - first + 1);
            assert(s.last() == path@[j as int]);
            assert(s.drop_last() =~= digits.take(j - first));
        }
        if !over {
            let next = value * 10 + (path[j] - 0x30) as u64;
            if next > 0x8000_0000 {
                over = true;
            } else {
                value = next;
            }
        }
        j += 1;
    }
    proof {
        assert(digits.take(end - first) =~= digits);
    }
    (
        end - first,
        if over {
            None
        } else {
            Some(value)
        },
    )
}

/// What `scan_number` found at the end of a prefix of the path.
enum Field {
    /// No digit stands there.
    Missing,
    /// A number that does not fit in 32 bits, and the bytes it takes.
    TooLarge(usize),
    /// A number, and the bytes it takes.
    Number(i32, usize),
}

/// The signed decimal at the end of the first `end` bytes.
fn scan_number(path: &[u8], end: usize) -> (f: Field)
    requires
        end <= path@.len(),
    ensures
        match f {
            Field::Missing => trailing_number(path@.take(end as int)) is None,
            Field::TooLarge(len) => trailing_number(path@.take(end as int)) matches Some((v, l))
                && !fits_i32(v) && l == len && len <= end,
            Field::Number(n, len) => trailing_number(path@.take(end as int)) == Some(
                (n as int, len as nat),
            ) && len <= end,
        },
{
    let (k, value) = scan_digits(path, end);
    let first = end - k;
    proof {
        let s = path@.take(end as int);
        assert(s.subrange(first as int, s.len() as int) =~= path@.subrange(
            first as int,
            end as int,
        ));
        if first > 0 {
            assert(s[first - 1] == path@[first - 1]);
        }
    }
    if k == 0 {
        return Field::Missing;
    }
    let negative = first > 0 && path[first - 1] == 0x2D;
    let len = if negative {
        k + 1
    } else {
        k
    };
    match value {
        None => Field::TooLarge(len),
        Some(v) => {
            if negative {
                Field::Number((-(v as i64)) as i32, len)
            } else if v == 0x8000_0000 {
                Field::TooLarge(len)
            } else {
                Field::Number(v as i32, len)
            }
        },
    }
}

/// The coordinates that a path names, if it names any.
fn parse_region_name(path: &[u8]) -> (r: Result<(i32, i32), ReaderError>)
    ensures
        match r {
            Ok((x, z)) => region_coords(path@) == Some((x as int, z as int)),
            Err(ReaderError::InvalidName) => region_coords(path@) is None,
            Err(ReaderError::CoordinateOutOfRange) => region_coords(path@) matches Some((x, z))
                && !(fits_i32(x) && fits_i32(z)),
            Err(ReaderError::ShortHeader) => false,
        },
{
    let n = path.len();
    if n < 4 {
        return Err(ReaderError::InvalidName);
    }
    let ghost tail = path@.subrange(n - 4, n as int);
    let ghost suffix = seq![0x2Eu8, 0x6Du8, 0x63u8, 0x61u8];
    proof {
        assert(tail[0] == path@[n - 4] && tail[1] == path@[n - 3] && tail[2] == path@[n - 2]
            && tail[3] == path@[n - 1]);
        assert(suffix[0] == 0x2E && suffix[1] == 0x6D && suffix[2] == 0x63 && suffix[3] == 0x61);
    }
    if !(path[n - 4] == 0x2E && path[n - 3] == 0x6D && path[n - 2] == 0x63 && path[n - 1]
        == 0x61) {
        return Err(ReaderError::InvalidName);
    }
    assert(tail =~= suffix);
    let z_field = scan_number(path, n - 4);
    let z_len = match z_field {
        Field::Missing => {
            return Err(ReaderError::InvalidName);
        },
        Field::TooLarge(len) => len,
        Field::Number(_, len) => len,
    };
    if n - 4 - z_len < 1 || path[n - 4 - z_len - 1] != 0x2E {
        return Err(ReaderError::InvalidName);
    }
    let dot = n - 4 - z_len - 1;
    let x_field = scan_number(path, dot);
    let x_len = match x_field {
        Field::Missing => {
            return Err(ReaderError::InvalidName);
        },
        Field::TooLarge(len) => len,
        Field::Number(_, len) => len,
    };
    if dot - x_len < 2 || path[dot - x_len - 2] != 0x72 || path[dot - x_len - 1] != 0x2E {
        return Err(ReaderError::InvalidName);
    }
    match (x_field, z_field) {
        (Field::Number(x, _), Field::Number(z, _)) => Ok((x, z)),
        _ => Err(ReaderError::CoordinateOutOfRange),
    }
}

impl<'a> McaReader<'a> {
    #[verifier::type_invariant]
    spec fn tables_are_of_file(self) -> bool {
        self.tables matches Some(t) ==> {
            &&& self.file@.len() >= HEADER_LEN
            &&& t.offsets@.len() == SLOT_COUNT
            &&& t.sizes@.len() == SLOT_COUNT
            &&& t.timestamps@.len() == SLOT_COUNT
            &&& forall|i: int|
                0 <= i < SLOT_COUNT ==> #[trigger] t.offsets@[i] == slot_start(self.file@, i)
            &&& forall|i: int|
                0 <= i < SLOT_COUNT ==> #[trigger] t.sizes@[i] == slot_size(self.file@, i)
            &&& forall|i: int|
                0 <= i < SLOT_COUNT ==> #[trigger] t.timestamps@[i] == slot_timestamp(
                    self.file@,
                    i,
                )
        }
    }

    /// Opens the region file `file` that lies at `path`. The coordinates of
    /// the region are taken from the path; the tables are not read yet.
    pub fn open(path: &str, file: &'a [u8]) -> (r: Result<Self, ReaderError>)
        ensures
            match r {
                Ok(reader) => region_coords(path.spec_bytes()) == Some(
                    (reader@.x_pos, reader@.z_pos),
                ) && reader@.file == file@ && fits_i32(reader@.x_pos) && fits_i32(reader@.z_pos),
                Err(ReaderError::InvalidName) => region_coords(path.spec_bytes()) is None,
                Err(ReaderError::CoordinateOutOfRange) => region_coords(
                    path.spec_bytes(),
                ) matches Some((x, z)) && !(fits_i32(x) && fits_i32(z)),
                Err(ReaderError::ShortHeader) => false,
            },
    {
        match parse_region_name(path.as_bytes()) {
            Ok((x_pos, z_pos)) => Ok(Self { file, x_pos, z_pos, tables: None }),
            Err(e) => Err(e),
        }
    }

    /// Decodes the two tables.
    fn read_header(&mut self) -> (r: Result<(), ReaderError>)
        ensures
            final(self)@ == old(self)@,
            r is Ok <==> old(self)@.file.len() >= HEADER_LEN,
            r is Ok ==> final(self).tables is Some,
            r is Err ==> r == Err::<(), ReaderError>(ReaderError::ShortHeader),
    {
        let file = self.file;
        if file.len() < HEADER_LEN {
            return Err(ReaderError::ShortHeader);
        }
        let mut offsets: Vec<u64> = Vec::new();
        let mut sizes: Vec<u32> = Vec::new();
        let mut timestamps: Vec<u32> = Vec::new();
        let mut i: usize = 0;
        while i < 1024
            invariant
                file@.len() >= HEADER_LEN,
                i <= 1024,
                offsets@.len() == i,
                sizes@.len() == i,
                timestamps@.len() == i,
                forall|j: int| 0 <= j < i ==> #[trigger] offsets@[j] == slot_start(file@, j),
                forall|j: int| 0 <= j < i ==> #[trigger] sizes@[j] == slot_size(file@, j),
                forall|j: int|
                    0 <= j < i ==> #[trigger] timestamps@[j] == slot_timestamp(file@, j),
            decreases 1024 - i,
        {
            let word = read_be_u32(file, i * 4);
            let stamp = read_be_u32(file, 4096 + i * 4);
            offsets.push((word / 256) as u64 * 4096);
            sizes.push((word % 256) * 4096);
            timestamps.push(stamp);
            i += 1;
        }
        self.tables = Some(HeaderTables { offsets, sizes, timestamps });
        Ok(())
    }

    /// Decodes the two tables unless that was done before.
    fn ensure(&mut self) -> (r: Result<(), ReaderError>)
        ensures
            final(self)@ == old(self)@,
            r is Ok <==> old(self)@.file.len() >= HEADER_LEN,
            r is Ok ==> final(self).tables is Some,
            r is Err ==> r == Err::<(), ReaderError>(ReaderError::ShortHeader),
    {
        proof {
            use_type_invariant(&*self);
        }
        if self.tables.is_none() {
            return self.read_header();
        }
        Ok(())
    }

    /// Column of the region.
    pub fn x_pos(&self) -> (x: i32)
        ensures
            x == self@.x_pos,
    {
        self.x_pos
    }

    /// Row of the region.
    pub fn z_pos(&self) -> (z: i32)
        ensures
            z == self@.z_pos,
    {
        self.z_pos
    }

    /// Handles on the slots that hold a chunk, by rising index. Fails on a
    /// file that is shorter than its two tables, and on no other.
    pub fn entries(&mut self) -> (r: Result<Vec<McaEntry<'a>>, ReaderError>)
        ensures
            final(self)@ == old(self)@,
            r is Ok <==> old(self)@.file.len() >= HEADER_LEN,
            r is Err ==> r == Err::<Vec<McaEntry<'a>>, ReaderError>(ReaderError::ShortHeader),
            r matches Ok(v) ==> entry_views(v@) == region_entries(
                old(self)@.file,
                old(self)@.x_pos,
                old(self)@.z_pos,
            ),
    {
        match self.ensure() {
            Ok(()) => {},
            Err(e) => {
                return Err(e);
            },
        }
        proof {
            use_type_invariant(&*self);
        }
        let file = self.file;
        let x_pos = self.x_pos;
        let z_pos = self.z_pos;
        let mut out: Vec<McaEntry<'a>> = Vec::new();
        match &self.tables {
            None => {},
            Some(t) => {
                let mut i: usize = 0;
                assert(entry_views(out@) =~= entries_upto(file@, x_pos as int, z_pos as int, 0));
                while i < 1024
                    invariant
                        i <= 1024,
                        t.offsets@.len() == SLOT_COUNT,
                        t.sizes@.len() == SLOT_COUNT,
                        t.timestamps@.len() == SLOT_COUNT,
                        forall|j: int|
                            0 <= j < SLOT_COUNT ==> #[trigger] t.offsets@[j] == slot_start(
                                file@,
                                j,
                            ),
                        forall|j: int|
                            0 <= j < SLOT_COUNT ==> #[trigger] t.sizes@[j] == slot_size(file@, j),
                        forall|j: int|
                            0 <= j < SLOT_COUNT ==> #[trigger] t.timestamps@[j] == slot_timestamp(
                                file@,
                                j,
                            ),
                        entry_views(out@) == entries_upto(
                            file@,
                            x_pos as int,
                            z_pos as int,
                            i as nat,
                        ),
                    decreases 1024 - i,
                {
                    let off = t.offsets[i];
                    let size = t.sizes[i];
                    let stamp = t.timestamps[i];
                    proof {
                        lemma_empty_slot(file@, i as int);
                    }
                    if !(off == 0 && size == 0) {
                        let ghost before = out@;
                        let entry = McaEntry::new(
                            file,
                            off,
                            size as usize,
                            i as u32,
                            stamp,
                            x_pos,
                            z_pos,
                        );
                        out.push(entry);
                        assert(entry_views(out@) =~= entry_views(before).push(entry@));
                    }
                    i += 1;
                }
            },
        }
        Ok(out)
    }

    /// The handle on slot `index`, or `None` where the slot holds no chunk.
    /// Fails on a file that is shorter than its two tables, and on no other.
    pub fn get(&mut self, index: usize) -> (r: Result<Option<McaEntry<'a>>, ReaderError>)
        requires
            index < SLOT_COUNT,
        ensures
            final(self)@ == old(self)@,
            r is Ok <==> old(self)@.file.len() >= HEADER_LEN,
            r is Err ==> r == Err::<Option<McaEntry<'a>>, ReaderError>(ReaderError::ShortHeader),
            r matches Ok(found) ==> {
                &&& found is Some <==> slot_populated(old(self)@.file, index as int)
                &&& found matches Some(entry) ==> entry@ == entry_at(
                    old(self)@.file,
                    old(self)@.x_pos,
                    old(self)@.z_pos,
                    index as int,
                )
            },
    {
        match self.ensure() {
            Ok(()) => {},
            Err(e) => {
                return Err(e);
            },
        }
        proof {
            use_type_invariant(&*self);
        }
        match &self.tables {
            None => Ok(None),
            Some(t) => {
                let off = t.offsets[index];
                let size = t.sizes[index];
                let stamp = t.timestamps[index];
                proof {
                    lemma_empty_slot(self.file@, index as int);
                }
                if off == 0 && size == 0 {
                    return Ok(None);
                }
                Ok(
                    Some(
                        McaEntry::new(
                            self.file,
                            off,
                            size as usize,
                            index as u32,
                            stamp,
                            self.x_pos,
                            self.z_pos,
                        ),
                    ),
                )
            },
        }
    }
}

/// Whether every byte is a digit.
pub open spec fn all_digits(s: Seq<u8>) -> bool {
    forall|i: int| 0 <= i < s.len() ==> is_digit(#[trigger] s[i])
}

/// Whether the bytes are a signed decimal: one digit or more, with or
/// without a minus sign before them.
pub open spec fn is_signed_decimal(s: Seq<u8>) -> bool {
    if s.len() > 0 && s[0] == 0x2D {
        s.len() > 1 && all_digits(s.skip(1))
    } else {
        s.len() > 0 && all_digits(s)
    }
}

/// The number that a signed decimal spells.
pub open spec fn signed_value(s: Seq<u8>) -> int {
    if s.len() > 0 && s[0] == 0x2D {
        -(decimal(s.skip(1)) as int)
    } else {
        decimal(s) as int
    }
}

/// The file name `r.<x>.<z>.mca`.
pub open spec fn region_file_name(x: Seq<u8>, z: Seq<u8>) -> Seq<u8> {
    seq![0x72u8, 0x2Eu8] + x + seq![0x2Eu8] + z + seq![0x2Eu8, 0x6Du8, 0x63u8, 0x61u8]
}

/// Whether the path is `head` and then the file name `r.<x>.<z>.mca`, with
/// signed decimals for `x` and `z`.
pub open spec fn ends_in_region_name(path: Seq<u8>, head: Seq<u8>, x: Seq<u8>, z: Seq<u8>) -> bool {
    &&& path == head + region_file_name(x, z)
    &&& is_signed_decimal(x)
    &&& is_signed_decimal(z)
}

/// Digits behind something that does not end in a digit are all the digits
/// at the end.
proof fn lemma_trailing_digits_of_run(s: Seq<u8>, digits: Seq<u8>)
    requires
        all_digits(digits),
        s.len() == 0 || !is_digit(s.last()),
    ensures
        trailing_digits(s + digits) == digits.len(),
    decreases digits.len(),
{
    if digits.len() == 0 {
        assert(s + digits =~= s);
    } else {
        assert((s + digits).last() == digits.last());
        assert((s + digits).drop_last() =~= s + digits.drop_last());
        lemma_trailing_digits_of_run(s, digits.drop_last());
    }
}

/// The digits at the end are digits, and no digit stands before them.
proof fn lemma_trailing_digits(s: Seq<u8>)
    ensures
        trailing_digits(s) <= s.len(),
        all_digits(s.subrange(s.len() - trailing_digits(s), s.len() as int)),
        trailing_digits(s) < s.len() ==> !is_digit(s[s.len() - trailing_digits(s) - 1]),
    decreases s.len(),
{
    if s.len() > 0 && is_digit(s.last()) {
        let t = s.drop_last();
        lemma_trailing_digits(t);
        let k = trailing_digits(t);
        let run = s.subrange(s.len() - (k + 1), s.len() as int);
        assert forall|i: int| 0 <= i < run.len() implies is_digit(#[trigger] run[i]) by {
            if i < k {
                assert(run[i] == t.subrange(t.len() - k, t.len() as int)[i]);
            }
        }
    }
}

/// A signed decimal behind a dot is the number that the bytes end in.
proof fn lemma_trailing_number_of_field(s: Seq<u8>, number: Seq<u8>)
    requires
        is_signed_decimal(number),
        s.len() > 0,
        s.last() == 0x2E,
    ensures
        trailing_number(s + number) == Some((signed_value(number), number.len())),
{
    let whole = s + number;
    if number[0] == 0x2D {
        let digits = number.skip(1);
        let front = s.push(0x2D);
        assert(whole =~= front + digits);
        lemma_trailing_digits_of_run(front, digits);
        assert(whole.subrange(whole.len() - digits.len(), whole.len() as int) =~= digits);
        assert(whole[whole.len() - digits.len() - 1] == 0x2D);
    } else {
        lemma_trailing_digits_of_run(s, number);
        assert(whole.subrange(whole.len() - number.len(), whole.len() as int) =~= number);
        assert(whole[whole.len() - number.len() - 1] == 0x2E);
    }
}

/// The number that the bytes end in is spelled by a signed decimal at
/// their end.
proof fn lemma_field_of_trailing_number(s: Seq<u8>)
    requires
        trailing_number(s) is Some,
    ensures
        ({
            let (v, len) = trailing_number(s)->Some_0;
            let number = s.subrange(s.len() - len, s.len() as int);
            &&& 0 < len <= s.len()
            &&& is_signed_decimal(number)
            &&& signed_value(number) == v
        }),
{
    lemma_trailing_digits(s);
    let k = trailing_digits(s);
    let first = s.len() - k;
    let digits = s.subrange(first, s.len() as int);
    if first > 0 && s[first - 1] == 0x2D {
        let number = s.subrange(first - 1, s.len() as int);
        assert(number.skip(1) =~= digits);
        assert(number[0] == 0x2D);
    } else {
        assert(digits[0] == s[first]);
    }
}

/// A path that ends in `r.<x>.<z>.mca`, with signed decimals for `x` and
/// `z`, names the region `(x, z)`, whatever stands before the `r`.
pub proof fn law_region_name_is_read(head: Seq<u8>, x: Seq<u8>, z: Seq<u8>)
    requires
        is_signed_decimal(x),
        is_signed_decimal(z),
    ensures
        region_coords(head + region_file_name(x, z)) == Some((signed_value(x), signed_value(z))),
{
    let path = head + region_file_name(x, z);
    let n = path.len() as int;
    let to_x = head + seq![0x72u8, 0x2Eu8];
    let to_z = to_x + x + seq![0x2Eu8];
    assert(path.subrange(n - 4, n) =~= seq![0x2Eu8, 0x6Du8, 0x63u8, 0x61u8]);
    assert(path.take(n - 4) =~= to_z + z);
    lemma_trailing_number_of_field(to_z, z);
    let dot = n - 4 - z.len() - 1;
    assert(path[dot] == 0x2E);
    assert(path.take(dot) =~= to_x + x);
    lemma_trailing_number_of_field(to_x, x);
    let r = dot - x.len() - 2;
    assert(r == head.len());
    assert(path[r] == 0x72 && path[r + 1] == 0x2E);
}

/// A path names a region only if it ends in `r.<x>.<z>.mca` with signed
/// decimals for `x` and `z`, and then it names the region `(x, z)`.
pub proof fn law_region_coords_come_from_a_name(path: Seq<u8>)
    requires
        region_coords(path) is Some,
    ensures
        exists|head: Seq<u8>, x: Seq<u8>, z: Seq<u8>|
            #[trigger] ends_in_region_name(path, head, x, z) && region_coords(path) == Some(
                (signed_value(x), signed_value(z)),
            ),
{
    let n = path.len() as int;
    let before_suffix = path.take(n - 4);
    lemma_field_of_trailing_number(before_suffix);
    let z_len = trailing_number(before_suffix)->Some_0.1;
    let z = before_suffix.subrange(before_suffix.len() - z_len, before_suffix.len() as int);
    let dot = n - 4 - z_len - 1;
    let before_dot = path.take(dot);
    lemma_field_of_trailing_number(before_dot);
    let x_len = trailing_number(before_dot)->Some_0.1;
    let x = before_dot.subrange(before_dot.len() - x_len, before_dot.len() as int);
    let r = dot - x_len - 2;
    let head = path.take(r);
    assert(path.subrange(n - 4, n) == seq![0x2Eu8, 0x6Du8, 0x63u8, 0x61u8]);
    assert(path.subrange(n - 4, n)[0] == path[n - 4]);
    assert(path.subrange(n - 4, n)[1] == path[n - 3]);
    assert(path.subrange(n - 4, n)[2] == path[n - 2]);
    assert(path.subrange(n - 4, n)[3] == path[n - 1]);
    assert(path =~= head + region_file_name(x, z));
    assert(ends_in_region_name(path, head, x, z));
}

} // verus!
