//! One chunk slot of a region file: where it starts, what its header says,
//! its bytes as stored and its payload unpacked.

use crate::mca::bytes::{be_u16, be_u32, read_be_u16, read_be_u32};
use crate::mca::inflate::{gzip_decode, spec_gzip_decode, spec_zlib_decode, zlib_decode};
use crate::mca::lz4::{decode_spec, Lz4Error};
use vstd::prelude::*;
use vstd::slice::{slice_subrange, slice_to_vec};

pub use crate::mca::lz4::{decode_lz4_blocks, lz4_checksum};

verus! {

/// Slots in a region file.
pub const SLOT_COUNT: u32 = 1024;

/// How the payload of a slot is packed. The external methods say that the
/// payload lies in a file of its own, beside the region file.
#[derive(Debug, Copy, Clone, Eq, PartialEq)]
pub enum CompressionMethod {
    Gzip,
    Zlib,
    Raw,
    Lz4,
    Custom,
    ExternalGzip,
    ExternalZlib,
    ExternalRaw,
    ExternalLz4,
}

/// Why a slot could not be read.
#[derive(Debug, Copy, Clone, Eq, PartialEq)]
pub enum EntryError {
    /// The file ends inside the header of the slot.
    UnexpectedEof,
    /// The method byte is none of the known codes.
    UnknownCompression(u8),
    /// The announced length is too small for the method byte and the name.
    BadLength,
    /// The payload is no zlib or gzip stream.
    Inflate,
    /// The payload is no run of framed blocks.
    Lz4(Lz4Error),
}

/// What the header of a slot says.
pub struct SlotHeader {
    /// Bytes that follow the four length bytes.
    pub length: int,
    pub method: CompressionMethod,
    /// The codec name as it lies in the file, for the custom method.
    pub name: Option<Seq<u8>>,
}

/// A chunk slot as a value: the file it lies in and the numbers that the
/// location and timestamp tables give for it.
pub struct EntryView {
    pub file: Seq<u8>,
    pub start: nat,
    pub length: nat,
    pub index: nat,
    pub modified: u32,
    pub region_x: int,
    pub region_z: int,
}

/// What `String::from_utf8_lossy` makes of these bytes.
pub uninterp spec fn spec_utf8_lossy(bytes: Seq<u8>) -> Seq<char>;

/// `String::from_utf8_lossy`, owned: the text depends on the bytes alone.
#[verifier::external_body]
fn utf8_lossy(bytes: &[u8]) -> (s: String)
    ensures
        s@ == spec_utf8_lossy(bytes@),
{
    String::from_utf8_lossy(bytes).into_owned()
}

/// The method that a method byte stands for. The byte is a signed number:
/// 1 to 4 and 127 are the in-band methods, -127 to -124 (here 129 to 132)
/// the external ones.
pub open spec fn method_of_code(code: u8) -> Option<CompressionMethod> {
    if code == 1 {
        Some(CompressionMethod::Gzip)
    } else if code == 2 {
        Some(CompressionMethod::Zlib)
    } else if code == 3 {
        Some(CompressionMethod::Raw)
    } else if code == 4 {
        Some(CompressionMethod::Lz4)
    } else if code == 127 {
        Some(CompressionMethod::Custom)
    } else if code == 129 {
        Some(CompressionMethod::ExternalGzip)
    } else if code == 130 {
        Some(CompressionMethod::ExternalZlib)
    } else if code == 131 {
        Some(CompressionMethod::ExternalRaw)
    } else if code == 132 {
        Some(CompressionMethod::ExternalLz4)
    } else {
        None
    }
}

/// Whether the payload lies outside the region file.
pub open spec fn method_is_external(method: CompressionMethod) -> bool {
    method is ExternalGzip || method is ExternalZlib || method is ExternalRaw
        || method is ExternalLz4
}

/// The header of the slot that starts at byte `start` of `file`: four bytes
/// of length, one method byte and, for the custom method, two bytes of name
/// length and the name.
pub open spec fn slot_header(file: Seq<u8>, start: nat) -> Result<SlotHeader, EntryError> {
    let s = start as int;
    if s + 5 > file.len() {
        Err(EntryError::UnexpectedEof)
    } else {
        let length = be_u32(file.subrange(s, s + 4));
        match method_of_code(file[s + 4]) {
            None => Err(EntryError::UnknownCompression(file[s + 4])),
            Some(method) => if method is Custom {
                if s + 7 > file.len() {
                    Err(EntryError::UnexpectedEof)
                } else {
                    let n = be_u16(file.subrange(s + 5, s + 7));
                    if s + 7 + n > file.len() {
                        Err(EntryError::UnexpectedEof)
                    } else {
                        Ok(SlotHeader { length, method, name: Some(file.subrange(s + 7, s + 7 + n)) })
                    }
                }
            } else {
                Ok(SlotHeader { length, method, name: None })
            },
        }
    }
}

/// The slot as stored: the four length bytes and the bytes they announce,
/// or as many of them as the file still holds.
pub open spec fn slot_serialized(file: Seq<u8>, start: nat) -> Result<Seq<u8>, EntryError> {
    match slot_header(file, start) {
        Err(e) => Err(e),
        Ok(h) => {
            let end = if start + 4 + h.length <= file.len() {
                start + 4 + h.length
            } else {
                file.len() as int
            };
            Ok(file.subrange(start as int, end))
        },
    }
}

/// Bytes between the method byte and the payload.
pub open spec fn name_field_len(h: SlotHeader) -> int {
    match h.name {
        Some(name) => 2 + name.len() as int,
        None => 0,
    }
}

/// The method and the packed payload of the slot: what follows the method
/// byte and the name field, as long as the header announces, or as much of
/// it as the file still holds.
pub open spec fn slot_data(file: Seq<u8>, start: nat) -> Result<
    (CompressionMethod, Seq<u8>),
    EntryError,
> {
    match slot_header(file, start) {
        Err(e) => Err(e),
        Ok(h) => {
            let data_len = h.length - 1 - name_field_len(h);
            let pos = start + 5 + name_field_len(h);
            if data_len < 0 {
                Err(EntryError::BadLength)
            } else {
                let end = if pos + data_len <= file.len() {
                    pos + data_len
                } else {
                    file.len() as int
                };
                Ok((h.method, file.subrange(pos, end)))
            }
        },
    }
}

/// What a packed payload unpacks to under a method. A payload that the
/// region file does not hold, or holds under a codec of its own, unpacks to
/// nothing.
pub open spec fn unpacked(method: CompressionMethod, data: Seq<u8>) -> Result<
    Seq<u8>,
    EntryError,
> {
    match method {
        CompressionMethod::Raw => Ok(data),
        CompressionMethod::Zlib => match spec_zlib_decode(data) {
            Some(out) => Ok(out),
            None => Err(EntryError::Inflate),
        },
        CompressionMethod::Gzip => match spec_gzip_decode(data) {
            Some(out) => Ok(out),
            None => Err(EntryError::Inflate),
        },
        CompressionMethod::Lz4 => match decode_spec(data) {
            Ok(out) => Ok(out),
            Err(e) => Err(EntryError::Lz4(e)),
        },
        _ => Ok(Seq::empty()),
    }
}

/// The payload of the slot, unpacked.
pub open spec fn slot_decompressed(file: Seq<u8>, start: nat) -> Result<Seq<u8>, EntryError> {
    match slot_data(file, start) {
        Err(e) => Err(e),
        Ok((method, data)) => unpacked(method, data),
    }
}

/// Whether the payload of the slot lies outside the region file.
pub open spec fn slot_is_external(file: Seq<u8>, start: nat) -> Result<bool, EntryError> {
    match slot_header(file, start) {
        Err(e) => Err(e),
        Ok(h) => Ok(method_is_external(h.method)),
    }
}

/// Whether what `read_header` returned is what the header says.
pub open spec fn header_matches(
    got: (u32, CompressionMethod, Option<String>),
    h: SlotHeader,
) -> bool {
    &&& got.0 == h.length
    &&& got.1 == h.method
    &&& got.2 is Some <==> h.name is Some
    &&& got.2 matches Some(text) ==> text@ == spec_utf8_lossy(h.name->Some_0)
}

/// A handle on one chunk slot. It borrows the bytes of the region file, so
/// handles can be copied and used side by side.
#[derive(Clone, Copy)]
pub struct McaEntry<'a> {
    file: &'a [u8],
    start: u64,
    length: usize,
    index: u32,
    modified: u32,
    region_x: i32,
    region_z: i32,
}

impl<'a> View for McaEntry<'a> {
    type V = EntryView;

    closed spec fn view(&self) -> EntryView {
        EntryView {
            file: self.file@,
            start: self.start as nat,
            length: self.length as nat,
            index: self.index as nat,
            modified: self.modified,
            region_x: self.region_x as int,
            region_z: self.region_z as int,
        }
    }
}

/// The method for a method byte.
fn method_from_code(code: u8) -> (m: Option<CompressionMethod>)
    ensures
        m == method_of_code(code),
{
    if code == 1 {
        Some(CompressionMethod::Gzip)
    } else if code == 2 {
        Some(CompressionMethod::Zlib)
    } else if code == 3 {
        Some(CompressionMethod::Raw)
    } else if code == 4 {
        Some(CompressionMethod::Lz4)
    } else if code == 127 {
        Some(CompressionMethod::Custom)
    } else if code == 129 {
        Some(CompressionMethod::ExternalGzip)
    } else if code == 130 {
        Some(CompressionMethod::ExternalZlib)
    } else if code == 131 {
        Some(CompressionMethod::ExternalRaw)
    } else if code == 132 {
        Some(CompressionMethod::ExternalLz4)
    } else {
        None
    }
}

impl<'a> McaEntry<'a> {
    #[verifier::type_invariant]
    spec fn index_in_table(self) -> bool {
        self.index < SLOT_COUNT
    }

    /// A handle on slot `index` of the region `(region_x, region_z)`, whose
    /// bytes start at `start` in `file`.
    pub fn new(
        file: &'a [u8],
        start: u64,
        length: usize,
        index: u32,
        modified: u32,
        region_x: i32,
        region_z: i32,
    ) -> (entry: Self)
        requires
            index < SLOT_COUNT,
        ensures
            entry@ == (EntryView {
                file: file@,
                start: start as nat,
                length: length as nat,
                index: index as nat,
                modified,
                region_x: region_x as int,
                region_z: region_z as int,
            }),
    {
        Self { file, start, length, index, modified, region_x, region_z }
    }

    /// The slot's place in the tables.
    pub fn region_index(&self) -> (index: u32)
        ensures
            index == self@.index,
            index < SLOT_COUNT,
    {
        proof {
            use_type_invariant(self);
        }
        self.index
    }

    /// Column of the chunk within its region.
    pub fn x_pos(&self) -> (x: i32)
        ensures
            x == self@.index % 32,
    {
        (self.index % 32) as i32
    }

    /// Row of the chunk within its region.
    pub fn z_pos(&self) -> (z: i32)
        ensures
            z == self@.index / 32,
    {
        (self.index / 32) as i32
    }

    /// Column of the chunk in the world.
    pub fn global_x(&self) -> (x: i64)
        ensures
            x == self@.region_x * 32 + self@.index % 32,
    {
        self.region_x as i64 * 32 + (self.index % 32) as i64
    }

    /// Row of the chunk in the world.
    pub fn global_z(&self) -> (z: i64)
        ensures
            z == self@.region_z * 32 + self@.index / 32,
    {
        proof {
            use_type_invariant(self);
        }
        self.region_z as i64 * 32 + (self.index / 32) as i64
    }

    /// The timestamp that the region file keeps for the slot.
    pub fn modified_time(&self) -> (modified: u32)
        ensures
            modified == self@.modified,
    {
        self.modified
    }

    /// The position of the slot as an index into the file, where five bytes
    /// can be read there.
    fn checked_start(&self) -> (s: Option<usize>)
        ensures
            s is Some <==> self@.start + 5 <= self@.file.len(),
            s matches Some(at) ==> at == self@.start,
    {
        let n = self.file.len();
        if self.start > n as u64 || n as u64 - self.start < 5 {
            None
        } else {
            Some(self.start as usize)
        }
    }

    /// Reads the header of the slot: the announced length, the method and,
    /// for the custom method, the codec name.
    pub fn read_header(&self) -> (r: Result<(u32, CompressionMethod, Option<String>), EntryError>)
        ensures
            match r {
                Ok(got) => slot_header(self@.file, self@.start) matches Ok(h) && header_matches(
                    got,
                    h,
                ),
                Err(e) => slot_header(self@.file, self@.start) == Err::<SlotHeader, EntryError>(e),
            },
    {
        let s = match self.checked_start() {
            Some(s) => s,
            None => {
                return Err(EntryError::UnexpectedEof);
            },
        };
        let n = self.file.len();
        let len = read_be_u32(self.file, s);
        let code = self.file[s + 4];
        let cm = match method_from_code(code) {
            Some(cm) => cm,
            None => {
                return Err(EntryError::UnknownCompression(code));
            },
        };
        let mut custom: Option<String> = None;
        if let CompressionMethod::Custom = cm {
            if n - s < 7 {
                return Err(EntryError::UnexpectedEof);
            }
            let name_len = read_be_u16(self.file, s + 5) as usize;
            if n - s - 7 < name_len {
                return Err(EntryError::UnexpectedEof);
            }
            custom = Some(utf8_lossy(slice_subrange(self.file, s + 7, s + 7 + name_len)));
        }
        Ok((len, cm, custom))
    }

    /// The slot as stored, for copying it as it is: the four length bytes
    /// and the bytes they announce.
    pub fn serialized_bytes(&self) -> (r: Result<Vec<u8>, EntryError>)
        ensures
            match r {
                Ok(v) => slot_serialized(self@.file, self@.start) == Ok::<Seq<u8>, EntryError>(v@),
                Err(e) => slot_serialized(self@.file, self@.start) == Err::<Seq<u8>, EntryError>(
                    e,
                ),
            },
    {
        let (len, _, _) = match self.read_header() {
            Ok(h) => h,
            Err(e) => {
                return Err(e);
            },
        };
        let s = self.start as usize;
        let n = self.file.len();
        let total = 4u64 + len as u64;
        let end = if total <= (n - s) as u64 {
            s + total as usize
        } else {
            n
        };
        Ok(slice_to_vec(slice_subrange(self.file, s, end)))
    }

    /// The method, the packed payload and, for the custom method, the codec
    /// name.
    pub fn data_bytes(&self) -> (r: Result<(CompressionMethod, Vec<u8>, Option<String>), EntryError>)
        ensures
            match r {
                Ok((method, data, custom)) => {
                    &&& slot_data(self@.file, self@.start) == Ok::<
                        (CompressionMethod, Seq<u8>),
                        EntryError,
                    >((method, data@))
                    &&& slot_header(self@.file, self@.start) matches Ok(h) && header_matches(
                        (h.length as u32, method, custom),
                        h,
                    )
                },
                Err(e) => slot_data(self@.file, self@.start) == Err::<
                    (CompressionMethod, Seq<u8>),
                    EntryError,
                >(e),
            },
    {
        let (len, cm, custom) = match self.read_header() {
            Ok(h) => h,
            Err(e) => {
                return Err(e);
            },
        };
        let s = self.start as usize;
        let n = self.file.len();
        let mut skip: usize = 0;
        if let CompressionMethod::Custom = cm {
            skip = 2 + read_be_u16(self.file, s + 5) as usize;
        }
        if (len as u64) < 1 + skip as u64 {
            return Err(EntryError::BadLength);
        }
        let data_len = len as u64 - 1 - skip as u64;
        let pos = s + 5 + skip;
        let end = if data_len <= (n - pos) as u64 {
            pos + data_len as usize
        } else {
            n
        };
        Ok((cm, slice_to_vec(slice_subrange(self.file, pos, end)), custom))
    }

    /// The payload, unpacked. Empty for a payload that lies outside the
    /// region file or is packed by a codec of its own.
    pub fn all_data_uncompressed(&self) -> (r: Result<Vec<u8>, EntryError>)
        ensures
            match r {
                Ok(v) => slot_decompressed(self@.file, self@.start) == Ok::<Seq<u8>, EntryError>(
                    v@,
                ),
                Err(e) => slot_decompressed(self@.file, self@.start) == Err::<
                    Seq<u8>,
                    EntryError,
                >(e),
            },
    {
        let (cm, data, _) = match self.data_bytes() {
            Ok(d) => d,
            Err(e) => {
                return Err(e);
            },
        };
        match cm {
            CompressionMethod::Raw => Ok(data),
            CompressionMethod::Zlib => match zlib_decode(data.as_slice()) {
                Ok(out) => Ok(out),
                Err(_) => Err(EntryError::Inflate),
            },
            CompressionMethod::Gzip => match gzip_decode(data.as_slice()) {
                Ok(out) => Ok(out),
                Err(_) => Err(EntryError::Inflate),
            },
            CompressionMethod::Lz4 => match decode_lz4_blocks(data.as_slice()) {
                Ok(out) => Ok(out),
                Err(e) => Err(EntryError::Lz4(e)),
            },
            _ => Ok(Vec::new()),
        }
    }

    /// Whether the payload lies outside the region file.
    pub fn is_external(&self) -> (r: Result<bool, EntryError>)
        ensures
            r == slot_is_external(self@.file, self@.start),
    {
        let (_, cm, _) = match self.read_header() {
            Ok(h) => h,
            Err(e) => {
                return Err(e);
            },
        };
        Ok(
            match cm {
                CompressionMethod::ExternalGzip
                | CompressionMethod::ExternalZlib
                | CompressionMethod::ExternalRaw
                | CompressionMethod::ExternalLz4 => true,
                _ => false,
            },
        )
    }
}

} // verus!
