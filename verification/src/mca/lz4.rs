//! The framed-block codec: a payload is a run of `LZ4Block` frames, each
//! with its own checksum, and nothing after the last frame.

use crate::mca::bytes::{le_read_u32, le_u32, le_write_u32, u32_le_bytes};
use crate::mca::bytes::{lemma_le_u32_bytes_of_value, lemma_le_u32_round_trip};
use vstd::prelude::*;
use vstd::slice::{slice_subrange, slice_to_vec};

verus! {

/// Bytes before the body of a frame: magic, token, two lengths, checksum.
pub const LZ4_HEADER_LEN: usize = 21;

/// Seed of the checksum.
pub const LZ4_XXHASH_SEED: u32 = 0x9747b28c;

/// The checksum keeps the low 28 bits of the hash.
pub const LZ4_CHECKSUM_MASK: u32 = 0x0FFF_FFFF;

/// Token nibble of a frame whose body is the payload itself.
pub const LZ4_METHOD_RAW: u8 = 0x10;

/// Token nibble of a frame whose body is an LZ4 block.
pub const LZ4_METHOD_LZ4: u8 = 0x20;

/// The longest run of bytes 0xFF that a compressed body may hold. The
/// block decoder adds up the bytes of a length in 32 bits, 255 for each
/// byte 0xFF; over a run of this length the sum stays within 32 bits.
pub const LZ4_MAX_FF_RUN: usize = 16_843_008;

/// Why a framed payload was turned down.
#[derive(Debug, Clone, Copy, PartialEq, Eq)]
pub enum Lz4Error {
    /// A frame does not start with `LZ4Block`.
    BadMagic,
    /// A frame announces more body bytes than the input holds.
    Truncated,
    /// The token names neither a raw nor a compressed body.
    UnsupportedMethod,
    /// A raw frame whose two lengths differ.
    LengthMismatch,
    /// A compressed body holds a run of more than `LZ4_MAX_FF_RUN` bytes
    /// 0xFF, more than the block decoder can add up as a length.
    LengthOverflow,
    /// The body is no LZ4 block that fits the announced length.
    Decompress,
    /// The decoded bytes do not hash to the stored checksum.
    ChecksumMismatch,
    /// Fewer bytes than a frame header are left after the last frame.
    TrailingBytes,
}

/// `lz4_flex::block::DecompressError`; it is carried, never looked into.
#[verifier::external_type_specification]
#[verifier::external_body]
pub struct ExDecompressError(lz4_flex::block::DecompressError);

/// What `xxhash_rust::xxh32::xxh32` returns for these bytes and this seed.
pub uninterp spec fn spec_xxh32(input: Seq<u8>, seed: u32) -> u32;

/// What `lz4_flex::block::decompress_size_prepended` decodes from this
/// input, `None` where it reports an error.
pub uninterp spec fn spec_lz4_size_prepended(input: Seq<u8>) -> Option<Seq<u8>>;

/// `xxhash_rust::xxh32::xxh32` is a function of the bytes and the seed.
pub assume_specification[ xxhash_rust::xxh32::xxh32 ](input: &[u8], seed: u32) -> (h: u32)
    ensures
        h == spec_xxh32(input@, seed),
;

/// `lz4_flex::block::decompress_size_prepended`: reads the first four bytes
/// as the size of the output, least significant byte first, and decodes the
/// rest as one LZ4 block. Whether it succeeds, and with what, depends on the
/// input alone. The safe decoder that the crate builds by default reports
/// malformed input and a size that is too small as errors. Its sum of
/// length bytes, kept in 32 bits, grows by at most 255 for each byte of a
/// run of 0xFF in the block, so it cannot overflow on a block whose runs
/// are bounded as asked here.
#[verifier::external_body]
fn lz4_decompress_size_prepended(input: &[u8]) -> (r: Result<
    Vec<u8>,
    lz4_flex::block::DecompressError,
>)
    requires
        longest_ff_run(input@.skip(4)) <= LZ4_MAX_FF_RUN,
    ensures
        r is Ok <==> spec_lz4_size_prepended(input@) is Some,
        r matches Ok(v) ==> spec_lz4_size_prepended(input@) == Some(v@),
{
    lz4_flex::block::decompress_size_prepended(input)
}

/// How many bytes 0xFF stand at the end of `s`, one after another.
pub open spec fn ff_run_at_end(s: Seq<u8>) -> nat
    decreases s.len(),
{
    if s.len() > 0 && s.last() == 0xFF {
        ff_run_at_end(s.drop_last()) + 1
    } else {
        0
    }
}

/// The length of the longest run of bytes 0xFF in `s`.
pub open spec fn longest_ff_run(s: Seq<u8>) -> nat
    decreases s.len(),
{
    if s.len() == 0 {
        0
    } else if ff_run_at_end(s) > longest_ff_run(s.drop_last()) {
        ff_run_at_end(s)
    } else {
        longest_ff_run(s.drop_last())
    }
}

/// The eight bytes `LZ4Block`.
pub open spec fn lz4_magic() -> Seq<u8> {
    seq![0x4Cu8, 0x5Au8, 0x34u8, 0x42u8, 0x6Cu8, 0x6Fu8, 0x63u8, 0x6Bu8]
}

/// The checksum of decoded bytes: their 32-bit hash under the codec's seed,
/// cut to 28 bits.
pub open spec fn lz4_checksum_spec(data: Seq<u8>) -> u32 {
    spec_xxh32(data, LZ4_XXHASH_SEED) & LZ4_CHECKSUM_MASK
}

/// What a body decodes to under a token and an announced decoded length,
/// before the checksum is looked at.
pub open spec fn block_decoded(token: u8, declared: int, body: Seq<u8>) -> Result<
    Seq<u8>,
    Lz4Error,
> {
    if token & 0xF0 == LZ4_METHOD_RAW {
        if declared == body.len() {
            Ok(body)
        } else {
            Err(Lz4Error::LengthMismatch)
        }
    } else if token & 0xF0 == LZ4_METHOD_LZ4 {
        if longest_ff_run(body) > LZ4_MAX_FF_RUN {
            Err(Lz4Error::LengthOverflow)
        } else {
            match spec_lz4_size_prepended(u32_le_bytes(declared) + body) {
                Some(out) => Ok(out),
                None => Err(Lz4Error::Decompress),
            }
        }
    } else {
        Err(Lz4Error::UnsupportedMethod)
    }
}

/// Length of the body that the frame at `at` announces.
pub open spec fn frame_body_len(input: Seq<u8>, at: int) -> int {
    le_u32(input.subrange(at + 9, at + 13))
}

/// Decoded length that the frame at `at` announces.
pub open spec fn frame_declared_len(input: Seq<u8>, at: int) -> int {
    le_u32(input.subrange(at + 13, at + 17))
}

/// Checksum that the frame at `at` stores.
pub open spec fn frame_checksum(input: Seq<u8>, at: int) -> int {
    le_u32(input.subrange(at + 17, at + 21))
}

/// The payload of the frame that starts at `at`, where a whole frame header
/// is there to read.
pub open spec fn frame_payload(input: Seq<u8>, at: int) -> Result<Seq<u8>, Lz4Error>
    recommends
        0 <= at,
        at + LZ4_HEADER_LEN <= input.len(),
{
    let body_len = frame_body_len(input, at);
    if input.subrange(at, at + 8) != lz4_magic() {
        Err(Lz4Error::BadMagic)
    } else if at + LZ4_HEADER_LEN + body_len > input.len() {
        Err(Lz4Error::Truncated)
    } else {
        let body = input.subrange(at + LZ4_HEADER_LEN, at + LZ4_HEADER_LEN + body_len);
        match block_decoded(input[at + 8], frame_declared_len(input, at), body) {
            Err(e) => Err(e),
            Ok(out) => if lz4_checksum_spec(out) == frame_checksum(input, at) {
                Ok(out)
            } else {
                Err(Lz4Error::ChecksumMismatch)
            },
        }
    }
}

/// `front` followed by what `rest` holds, or the error of `rest`.
pub open spec fn prepend(front: Seq<u8>, rest: Result<Seq<u8>, Lz4Error>) -> Result<
    Seq<u8>,
    Lz4Error,
> {
    match rest {
        Ok(tail) => Ok(front + tail),
        Err(e) => Err(e),
    }
}

/// The payloads of the frames from `at` to the end of the input, one after
/// another, or the first error met on the way.
pub open spec fn decode_from(input: Seq<u8>, at: nat) -> Result<Seq<u8>, Lz4Error>
    decreases input.len() - at,
{
    if at + LZ4_HEADER_LEN > input.len() {
        if at == input.len() {
            Ok(Seq::empty())
        } else {
            Err(Lz4Error::TrailingBytes)
        }
    } else {
        match frame_payload(input, at as int) {
            Err(e) => Err(e),
            Ok(out) => {
                let next = at + LZ4_HEADER_LEN + frame_body_len(input, at as int);
                prepend(out, decode_from(input, next as nat))
            },
        }
    }
}

/// What a framed payload decodes to.
pub open spec fn decode_spec(input: Seq<u8>) -> Result<Seq<u8>, Lz4Error> {
    decode_from(input, 0)
}

/// One frame: magic, token, the body's length, the announced decoded
/// length, the checksum, the body.
pub open spec fn frame(token: u8, declared: int, checksum: int, body: Seq<u8>) -> Seq<u8> {
    lz4_magic() + seq![token] + u32_le_bytes(body.len() as int) + u32_le_bytes(declared)
        + u32_le_bytes(checksum) + body
}

/// The checksum of decoded bytes.
pub fn lz4_checksum(data: &[u8]) -> (sum: u32)
    ensures
        sum == lz4_checksum_spec(data@),
        sum <= LZ4_CHECKSUM_MASK,
{
    let h = xxhash_rust::xxh32::xxh32(data, LZ4_XXHASH_SEED);
    assert(h & 0x0FFF_FFFFu32 <= 0x0FFF_FFFFu32) by (bit_vector);
    h & LZ4_CHECKSUM_MASK
}

/// Whether the eight bytes at `at` are `LZ4Block`.
fn has_magic(inp: &[u8], at: usize) -> (b: bool)
    requires
        at + 8 <= inp@.len(),
    ensures
        b == (inp@.subrange(at as int, at + 8) == lz4_magic()),
{
    let ghost here = inp@.subrange(at as int, at + 8);
    let b = inp[at] == 0x4C && inp[at + 1] == 0x5A && inp[at + 2] == 0x34 && inp[at + 3] == 0x42
        && inp[at + 4] == 0x6C && inp[at + 5] == 0x6F && inp[at + 6] == 0x63 && inp[at + 7]
        == 0x6B;
    proof {
        assert(here.len() == 8 && lz4_magic().len() == 8);
        assert(forall|k: int| 0 <= k < 8 ==> here[k] == inp@[at + k]);
        if b {
            assert(here =~= lz4_magic());
        } else {
            assert(here[0] == inp@[at + 0] && here[1] == inp@[at + 1] && here[2] == inp@[at + 2]
                && here[3] == inp@[at + 3] && here[4] == inp@[at + 4] && here[5] == inp@[at + 5]
                && here[6] == inp@[at + 6] && here[7] == inp@[at + 7]);
        }
    }
    b
}

/// Measures the longest run of bytes 0xFF.
fn measure_ff_run(data: &[u8]) -> (longest: usize)
    ensures
        longest == longest_ff_run(data@),
{
    let n = data.len();
    let mut run: usize = 0;
    let mut longest: usize = 0;
    let mut k: usize = 0;
    assert(data@.take(0) =~= Seq::<u8>::empty());
    while k < n
        invariant
            n == data@.len(),
            k <= n,
            run == ff_run_at_end(data@.take(k as int)),
            longest == longest_ff_run(data@.take(k as int)),
            run <= k,
            longest <= k,
        decreases n - k,
    {
        proof {
            let next = data@.take(k + 1);
            assert(next.last() == data@[k as int]);
            assert(next.drop_last() =~= data@.take(k as int));
        }
        if data[k] == 0xFF {
            run += 1;
        } else {
            run = 0;
        }
        if run > longest {
            longest = run;
        }
        k += 1;
    }
    assert(data@.take(n as int) =~= data@);
    longest
}

/// Decodes one body under its token and announced length.
fn decode_block(token: u8, declared: u32, body: &[u8]) -> (r: Result<Vec<u8>, Lz4Error>)
    ensures
        match r {
            Ok(v) => block_decoded(token, declared as int, body@) == Ok::<Seq<u8>, Lz4Error>(v@),
            Err(e) => block_decoded(token, declared as int, body@) == Err::<Seq<u8>, Lz4Error>(e),
        },
{
    let method = token & 0xF0;
    if method == LZ4_METHOD_RAW {
        if declared as u64 != body.len() as u64 {
            return Err(Lz4Error::LengthMismatch);
        }
        Ok(slice_to_vec(body))
    } else if method == LZ4_METHOD_LZ4 {
        if measure_ff_run(body) > LZ4_MAX_FF_RUN {
            return Err(Lz4Error::LengthOverflow);
        }
        let size_buf = le_write_u32(declared);
        let mut with_prepended: Vec<u8> = Vec::new();
        with_prepended.extend_from_slice(size_buf.as_slice());
        with_prepended.extend_from_slice(body);
        assert(with_prepended@ =~= u32_le_bytes(declared as int) + body@);
        assert(with_prepended@.skip(4) =~= body@);
        match lz4_decompress_size_prepended(with_prepended.as_slice()) {
            Ok(v) => Ok(v),
            Err(_) => Err(Lz4Error::Decompress),
        }
    } else {
        Err(Lz4Error::UnsupportedMethod)
    }
}

/// Decodes a run of frames into the bytes they carry.
///
/// Succeeds exactly on inputs that are whole frames from the first byte to
/// the last, each with a known method and a matching checksum; otherwise
/// the error is that of the first frame that is wrong.
pub fn decode_lz4_blocks(inp: &[u8]) -> (r: Result<Vec<u8>, Lz4Error>)
    ensures
        match r {
            Ok(v) => decode_spec(inp@) == Ok::<Seq<u8>, Lz4Error>(v@),
            Err(e) => decode_spec(inp@) == Err::<Seq<u8>, Lz4Error>(e),
        },
{
    let n = inp.len();
    let mut i: usize = 0;
    let mut out: Vec<u8> = Vec::new();
    assert(out@ + Seq::<u8>::empty() =~= Seq::<u8>::empty());
    while n - i >= LZ4_HEADER_LEN
        invariant
            n == inp@.len(),
            i <= n,
            decode_spec(inp@) == prepend(out@, decode_from(inp@, i as nat)),
        decreases n - i,
    {
        if !has_magic(inp, i) {
            return Err(Lz4Error::BadMagic);
        }
        let token = inp[i + 8];
        let body_len = le_read_u32(slice_subrange(inp, i + 9, i + 13)) as usize;
        let declared = le_read_u32(slice_subrange(inp, i + 13, i + 17));
        let checksum = le_read_u32(slice_subrange(inp, i + 17, i + 21));
        let start = i + LZ4_HEADER_LEN;
        if body_len > n - start {
            return Err(Lz4Error::Truncated);
        }
        let body = slice_subrange(inp, start, start + body_len);
        let decoded = match decode_block(token, declared, body) {
            Ok(v) => v,
            Err(e) => {
                return Err(e);
            },
        };
        if lz4_checksum(decoded.as_slice()) != checksum {
            return Err(Lz4Error::ChecksumMismatch);
        }
        let ghost before = out@;
        out.extend_from_slice(decoded.as_slice());
        proof {
            let rest = decode_from(inp@, (start + body_len) as nat);
            assert(out@ =~= before + decoded@);
            if rest is Ok {
                assert(out@ + rest->Ok_0 =~= before + (decoded@ + rest->Ok_0));
            }
        }
        i = start + body_len;
    }
    if i != n {
        return Err(Lz4Error::TrailingBytes);
    }
    proof {
        assert(out@ + Seq::<u8>::empty() =~= out@);
    }
    Ok(out)
}

/// Where the fields of a single frame lie, and what a reader finds there.
proof fn lemma_frame_fields(token: u8, declared: int, checksum: int, body: Seq<u8>)
    requires
        body.len() < 0x1_0000_0000,
        0 <= declared < 0x1_0000_0000,
        0 <= checksum < 0x1_0000_0000,
    ensures
        ({
            let input = frame(token, declared, checksum, body);
            &&& input.len() == LZ4_HEADER_LEN + body.len()
            &&& input.subrange(0, 8) == lz4_magic()
            &&& input[8] == token
            &&& frame_body_len(input, 0) == body.len()
            &&& frame_declared_len(input, 0) == declared
            &&& frame_checksum(input, 0) == checksum
            &&& input.subrange(21, 21 + body.len() as int) == body
        }),
{
    let input = frame(token, declared, checksum, body);
    let n = body.len() as int;
    let a = u32_le_bytes(n);
    let b = u32_le_bytes(declared);
    let c = u32_le_bytes(checksum);
    lemma_le_u32_round_trip(n);
    lemma_le_u32_round_trip(declared);
    lemma_le_u32_round_trip(checksum);
    assert(input == lz4_magic() + seq![token] + a + b + c + body);
    assert(lz4_magic().len() == 8);
    assert(input.len() == LZ4_HEADER_LEN + n);
    assert(input.subrange(0, 8) =~= lz4_magic());
    assert(input.subrange(9, 13) =~= a);
    assert(input.subrange(13, 17) =~= b);
    assert(input.subrange(17, 21) =~= c);
    assert(input.subrange(21, 21 + n) =~= body);
}

/// What holds of an input that is exactly one frame: it decodes to what the
/// body decodes to if that hashes to the stored checksum, fails with
/// `ChecksumMismatch` if it hashes to anything else, and fails as the body
/// does if the body does not decode.
pub proof fn law_single_frame(token: u8, declared: int, checksum: int, body: Seq<u8>)
    requires
        body.len() < 0x1_0000_0000,
        0 <= declared < 0x1_0000_0000,
        0 <= checksum < 0x1_0000_0000,
    ensures
        decode_spec(frame(token, declared, checksum, body)) == (match block_decoded(
            token,
            declared,
            body,
        ) {
            Err(e) => Err::<Seq<u8>, Lz4Error>(e),
            Ok(out) => if lz4_checksum_spec(out) == checksum {
                Ok(out)
            } else {
                Err(Lz4Error::ChecksumMismatch)
            },
        }),
{
    let input = frame(token, declared, checksum, body);
    let n = body.len() as int;
    lemma_frame_fields(token, declared, checksum, body);
    assert(decode_from(input, (21 + n) as nat) == Ok::<Seq<u8>, Lz4Error>(Seq::empty()));
    match block_decoded(token, declared, body) {
        Ok(out) => {
            assert(out + Seq::<u8>::empty() =~= out);
        },
        Err(_) => {},
    }
}

/// A payload framed raw, with its own checksum, decodes to itself.
pub proof fn law_raw_frame_round_trip(token: u8, payload: Seq<u8>)
    requires
        token & 0xF0 == LZ4_METHOD_RAW,
        payload.len() < 0x1_0000_0000,
    ensures
        decode_spec(
            frame(token, payload.len() as int, lz4_checksum_spec(payload) as int, payload),
        ) == Ok::<Seq<u8>, Lz4Error>(payload),
{
    law_single_frame(token, payload.len() as int, lz4_checksum_spec(payload) as int, payload);
}

/// A payload framed compressed, with its own checksum, decodes to itself:
/// `body` is any LZ4 block, with no run of more than `LZ4_MAX_FF_RUN` bytes
/// 0xFF, that the block decoder, told the payload's length, expands to the
/// payload.
pub proof fn law_compressed_frame_round_trip(token: u8, body: Seq<u8>, payload: Seq<u8>)
    requires
        token & 0xF0 == LZ4_METHOD_LZ4,
        body.len() < 0x1_0000_0000,
        longest_ff_run(body) <= LZ4_MAX_FF_RUN,
        payload.len() < 0x1_0000_0000,
        spec_lz4_size_prepended(u32_le_bytes(payload.len() as int) + body) == Some(payload),
    ensures
        decode_spec(frame(token, payload.len() as int, lz4_checksum_spec(payload) as int, body))
            == Ok::<Seq<u8>, Lz4Error>(payload),
{
    assert(LZ4_METHOD_LZ4 != LZ4_METHOD_RAW);
    law_single_frame(token, payload.len() as int, lz4_checksum_spec(payload) as int, body);
}

/// A frame whose body decodes, but whose stored checksum is any other
/// number than the checksum of what it decodes to, fails with
/// `ChecksumMismatch`.
pub proof fn law_wrong_checksum_is_rejected(
    token: u8,
    declared: int,
    checksum: int,
    body: Seq<u8>,
)
    requires
        body.len() < 0x1_0000_0000,
        0 <= declared < 0x1_0000_0000,
        0 <= checksum < 0x1_0000_0000,
        block_decoded(token, declared, body) matches Ok(out) && lz4_checksum_spec(out)
            != checksum,
    ensures
        decode_spec(frame(token, declared, checksum, body)) == Err::<Seq<u8>, Lz4Error>(
            Lz4Error::ChecksumMismatch,
        ),
{
    law_single_frame(token, declared, checksum, body);
}

/// A frame that decodes, with one byte of its stored checksum replaced by
/// another byte, fails with `ChecksumMismatch`.
pub proof fn law_tampered_checksum_is_rejected(
    token: u8,
    declared: int,
    body: Seq<u8>,
    at: int,
    byte: u8,
)
    requires
        body.len() < 0x1_0000_0000,
        0 <= declared < 0x1_0000_0000,
        block_decoded(token, declared, body) is Ok,
        17 <= at < 21,
        byte != frame(
            token,
            declared,
            lz4_checksum_spec(block_decoded(token, declared, body)->Ok_0) as int,
            body,
        )[at],
    ensures
        decode_spec(
            frame(
                token,
                declared,
                lz4_checksum_spec(block_decoded(token, declared, body)->Ok_0) as int,
                body,
            ).update(at, byte),
        ) == Err::<Seq<u8>, Lz4Error>(Lz4Error::ChecksumMismatch),
{
    let good = lz4_checksum_spec(block_decoded(token, declared, body)->Ok_0) as int;
    let whole = frame(token, declared, good, body);
    let changed = whole.update(at, byte);
    lemma_frame_fields(token, declared, good, body);
    lemma_le_u32_round_trip(good);
    let stored = changed.subrange(17, 21);
    lemma_le_u32_bytes_of_value(stored);
    let bad = le_u32(stored);
    assert(whole.subrange(17, 21) =~= u32_le_bytes(good));
    assert(stored[at - 17] == byte);
    assert(whole.subrange(17, 21)[at - 17] == whole[at]);
    assert(bad != good);
    assert(changed =~= frame(token, declared, bad, body));
    law_single_frame(token, declared, bad, body);
}

/// A raw frame whose body was replaced by other bytes of the same length
/// fails with `ChecksumMismatch`, unless the new bytes happen to have the
/// checksum of the old ones.
pub proof fn law_changed_raw_body_is_rejected(token: u8, payload: Seq<u8>, changed: Seq<u8>)
    requires
        token & 0xF0 == LZ4_METHOD_RAW,
        payload.len() < 0x1_0000_0000,
        changed.len() == payload.len(),
        lz4_checksum_spec(changed) != lz4_checksum_spec(payload),
    ensures
        decode_spec(
            frame(token, payload.len() as int, lz4_checksum_spec(payload) as int, changed),
        ) == Err::<Seq<u8>, Lz4Error>(Lz4Error::ChecksumMismatch),
{
    law_single_frame(token, payload.len() as int, lz4_checksum_spec(payload) as int, changed);
}

/// A run of bytes 0xFF in `s` is no longer than the longest.
pub proof fn law_longest_ff_run_bounds_every_run(s: Seq<u8>, from: int, to: int)
    requires
        0 <= from <= to <= s.len(),
        forall|i: int| from <= i < to ==> s[i] == 0xFF,
    ensures
        to - from <= longest_ff_run(s),
    decreases s.len(),
{
    if s.len() > 0 {
        if to == s.len() {
            lemma_ff_run_at_end(s, from);
        } else {
            law_longest_ff_run_bounds_every_run(s.drop_last(), from, to);
        }
    }
}

/// The bytes counted at the end are bytes 0xFF.
proof fn lemma_ff_run_is_there(s: Seq<u8>)
    ensures
        ff_run_at_end(s) <= s.len(),
        forall|i: int| s.len() - ff_run_at_end(s) <= i < s.len() ==> s[i] == 0xFF,
    decreases s.len(),
{
    if s.len() > 0 && s.last() == 0xFF {
        let t = s.drop_last();
        lemma_ff_run_is_there(t);
        assert forall|i: int| s.len() - ff_run_at_end(s) <= i < s.len() implies s[i]
            == 0xFF by {
            if i < t.len() {
                assert(t[i] == s[i]);
            }
        }
    }
}

/// Whether `n` bytes 0xFF stand one after another from `from` on.
pub open spec fn is_ff_run(s: Seq<u8>, from: int, n: nat) -> bool {
    &&& 0 <= from
    &&& from + n <= s.len()
    &&& forall|i: int| from <= i < from + n ==> s[i] == 0xFF
}

/// The longest run is a run: so many bytes 0xFF stand one after another
/// somewhere in `s`.
pub proof fn law_longest_ff_run_is_a_run(s: Seq<u8>)
    ensures
        exists|from: int| #[trigger] is_ff_run(s, from, longest_ff_run(s)),
    decreases s.len(),
{
    if s.len() == 0 {
        assert(is_ff_run(s, 0, longest_ff_run(s)));
    } else if ff_run_at_end(s) > longest_ff_run(s.drop_last()) {
        lemma_ff_run_is_there(s);
        assert(is_ff_run(s, s.len() - ff_run_at_end(s), longest_ff_run(s)));
    } else {
        let t = s.drop_last();
        law_longest_ff_run_is_a_run(t);
        let from = choose|from: int| #[trigger] is_ff_run(t, from, longest_ff_run(t));
        assert forall|i: int| from <= i < from + longest_ff_run(s) implies s[i] == 0xFF by {
            assert(t[i] == s[i]);
        }
        assert(is_ff_run(s, from, longest_ff_run(s)));
    }
}

/// Bytes 0xFF from `from` to the end are a run at the end.
proof fn lemma_ff_run_at_end(s: Seq<u8>, from: int)
    requires
        0 <= from <= s.len(),
        forall|i: int| from <= i < s.len() ==> s[i] == 0xFF,
    ensures
        s.len() - from <= ff_run_at_end(s),
    decreases s.len(),
{
    if from < s.len() {
        lemma_ff_run_at_end(s.drop_last(), from);
    }
}

/// Decoding does not depend on what stands before the place it starts at.
proof fn lemma_decode_from_shift(front: Seq<u8>, rest: Seq<u8>, at: nat)
    ensures
        decode_from(front + rest, front.len() + at) == decode_from(rest, at),
    decreases rest.len() - at,
{
    let whole = front + rest;
    let p = front.len() as int;
    let a = at as int;
    if a + LZ4_HEADER_LEN <= rest.len() {
        assert(whole.subrange(p + a, p + a + 8) =~= rest.subrange(a, a + 8));
        assert(whole.subrange(p + a + 9, p + a + 13) =~= rest.subrange(a + 9, a + 13));
        assert(whole.subrange(p + a + 13, p + a + 17) =~= rest.subrange(a + 13, a + 17));
        assert(whole.subrange(p + a + 17, p + a + 21) =~= rest.subrange(a + 17, a + 21));
        assert(whole[p + a + 8] == rest[a + 8]);
        let n = frame_body_len(rest, a);
        assert(frame_body_len(whole, p + a) == n);
        if a + LZ4_HEADER_LEN + n <= rest.len() {
            assert(whole.subrange(p + a + 21, p + a + 21 + n) =~= rest.subrange(
                a + 21,
                a + 21 + n,
            ));
            assert(frame_payload(whole, p + a) == frame_payload(rest, a));
            lemma_decode_from_shift(front, rest, (at + LZ4_HEADER_LEN + n) as nat);
        }
    }
}

/// Frames one after another: a frame that decodes on its own, followed by
/// more input, decodes to its payload followed by what the rest decodes to,
/// and fails as the rest fails.
pub proof fn law_frames_in_a_row(
    token: u8,
    declared: int,
    checksum: int,
    body: Seq<u8>,
    rest: Seq<u8>,
)
    requires
        body.len() < 0x1_0000_0000,
        0 <= declared < 0x1_0000_0000,
        0 <= checksum < 0x1_0000_0000,
        decode_spec(frame(token, declared, checksum, body)) is Ok,
    ensures
        decode_spec(frame(token, declared, checksum, body) + rest) == prepend(
            decode_spec(frame(token, declared, checksum, body))->Ok_0,
            decode_spec(rest),
        ),
{
    let first = frame(token, declared, checksum, body);
    let whole = first + rest;
    let n = body.len() as int;
    law_single_frame(token, declared, checksum, body);
    lemma_frame_fields(token, declared, checksum, body);
    assert(whole.subrange(0, 8) =~= first.subrange(0, 8));
    assert(whole.subrange(9, 13) =~= first.subrange(9, 13));
    assert(whole.subrange(13, 17) =~= first.subrange(13, 17));
    assert(whole.subrange(17, 21) =~= first.subrange(17, 21));
    assert(whole.subrange(21, 21 + n) =~= first.subrange(21, 21 + n));
    assert(whole[8] == first[8]);
    assert(frame_payload(whole, 0) == frame_payload(first, 0));
    lemma_decode_from_shift(first, rest, 0);
}

} // verus!
