//! How deep the lists and compounds of a tag stream lie inside one another,
//! measured on the bytes before anything is parsed.

use crate::mca::bytes::{be_u16, be_u32, read_be_u16, read_be_u32};
use vstd::prelude::*;

verus! {

/// Tag type that ends a compound.
pub const TAG_END: u8 = 0;

/// Tag type of a text.
pub const TAG_STRING: u8 = 8;

/// Tag type of a list.
pub const TAG_LIST: u8 = 9;

/// Tag type of a compound.
pub const TAG_COMPOUND: u8 = 10;

/// The last tag type there is.
pub const TAG_LAST: u8 = 12;

/// A list or a compound that lies open while the stream is read.
#[derive(Debug, Clone, Copy, PartialEq, Eq)]
pub enum Frame {
    /// A compound: named tags follow, up to an end tag.
    Compound,
    /// A list: `left` more payloads of the tag type `elem` follow.
    List { elem: u8, left: u32 },
}

/// Where a reader of the stream stands.
pub struct Walk {
    /// The byte that is read next.
    pub pos: int,
    /// The lists and compounds that lie open, the outermost first.
    pub open: Seq<Frame>,
    /// The most that lay open at once so far.
    pub deepest: nat,
}

/// The larger of two numbers.
pub open spec fn larger(a: nat, b: nat) -> nat {
    if a >= b {
        a
    } else {
        b
    }
}

/// `end` where it lies within the bytes.
pub open spec fn within(bytes: Seq<u8>, end: int) -> Option<int> {
    if end <= bytes.len() {
        Some(end)
    } else {
        None
    }
}

/// Bytes of the payload of a number tag: 1 for a byte, 2 for a short, 4
/// for an int or a float, 8 for a long or a double.
pub open spec fn number_width(tag: u8) -> int {
    if tag == 1 {
        1
    } else if tag == 2 {
        2
    } else if tag == 3 || tag == 5 {
        4
    } else {
        8
    }
}

/// Bytes of one item of an array tag: 1 for bytes, 4 for ints, 8 for
/// longs.
pub open spec fn item_width(tag: u8) -> int {
    if tag == 7 {
        1
    } else if tag == 11 {
        4
    } else {
        8
    }
}

/// Where the payload that starts at `at` ends, for a tag that holds no
/// other tags: a number, a text with its two length bytes, or an array with
/// its four. Nothing where the payload does not lie within the bytes or an
/// array's length is negative.
pub open spec fn leaf_end(bytes: Seq<u8>, tag: u8, at: int) -> Option<int> {
    if 1 <= tag <= 6 {
        within(bytes, at + number_width(tag))
    } else if tag == TAG_STRING {
        if at + 2 <= bytes.len() {
            within(bytes, at + 2 + be_u16(bytes.subrange(at, at + 2)))
        } else {
            None
        }
    } else if tag == 7 || tag == 11 || tag == 12 {
        if at + 4 <= bytes.len() && be_u32(bytes.subrange(at, at + 4)) < 0x8000_0000 {
            within(bytes, at + 4 + be_u32(bytes.subrange(at, at + 4)) * item_width(tag))
        } else {
            None
        }
    } else {
        None
    }
}

/// The reader after it has met the payload of a tag of type `tag`: a
/// compound or a list lies open from then on, any other payload is behind
/// it. A list starts with the type of its items and their number; the
/// reader stops at a list whose header breaks off, whose number is
/// negative, or whose items are of no type there is.
pub open spec fn open_value(bytes: Seq<u8>, w: Walk, tag: u8) -> Option<Walk> {
    if tag == TAG_COMPOUND {
        Some(
            Walk {
                pos: w.pos,
                open: w.open.push(Frame::Compound),
                deepest: larger(w.deepest, w.open.len() + 1),
            },
        )
    } else if tag == TAG_LIST {
        let elem = bytes[w.pos];
        let count = be_u32(bytes.subrange(w.pos + 1, w.pos + 5));
        if w.pos + 5 <= bytes.len() && elem <= TAG_LAST && count < 0x8000_0000 && (elem != TAG_END
            || count == 0) {
            Some(
                Walk {
                    pos: w.pos + 5,
                    open: w.open.push(Frame::List { elem, left: count as u32 }),
                    deepest: larger(w.deepest, w.open.len() + 1),
                },
            )
        } else {
            None
        }
    } else {
        match leaf_end(bytes, tag, w.pos) {
            Some(end) => Some(Walk { pos: end, open: w.open, deepest: w.deepest }),
            None => None,
        }
    }
}

/// The reader after the next tag of the compound that lies open innermost:
/// an end tag closes the compound; any other tag has a name, two length
/// bytes and the text, and then its payload.
pub open spec fn read_field(bytes: Seq<u8>, w: Walk) -> Option<Walk> {
    if w.pos >= bytes.len() {
        None
    } else if bytes[w.pos] == TAG_END {
        Some(Walk { pos: w.pos + 1, open: w.open.drop_last(), deepest: w.deepest })
    } else if bytes[w.pos] > TAG_LAST || w.pos + 3 > bytes.len() {
        None
    } else {
        let after_name = w.pos + 3 + be_u16(bytes.subrange(w.pos + 1, w.pos + 3));
        if after_name > bytes.len() {
            None
        } else {
            open_value(
                bytes,
                Walk { pos: after_name, open: w.open, deepest: w.deepest },
                bytes[w.pos],
            )
        }
    }
}

/// One step of the reader: the next tag of a compound, or the next item of
/// a list, or the end of a list that has no item left. Of a compound that
/// is an item of a list, the first tag is read in the same step. The reader
/// stops where nothing lies open and where the stream breaks off.
pub open spec fn step(bytes: Seq<u8>, w: Walk) -> Option<Walk> {
    if w.open.len() == 0 {
        None
    } else {
        match w.open.last() {
            Frame::Compound => read_field(bytes, w),
            Frame::List { elem, left } => if left == 0 {
                Some(Walk { pos: w.pos, open: w.open.drop_last(), deepest: w.deepest })
            } else {
                let rest = w.open.drop_last().push(Frame::List { elem, left: (left - 1) as u32 });
                if elem == TAG_COMPOUND {
                    read_field(
                        bytes,
                        Walk {
                            pos: w.pos,
                            open: rest.push(Frame::Compound),
                            deepest: larger(w.deepest, rest.len() + 1),
                        },
                    )
                } else {
                    open_value(bytes, Walk { pos: w.pos, open: rest, deepest: w.deepest }, elem)
                }
            },
        }
    }
}

/// What is left to do: bytes to read, and lists and compounds to close.
pub open spec fn left_to_do(bytes: Seq<u8>, w: Walk) -> nat {
    if 0 <= w.pos <= bytes.len() {
        (2 * (bytes.len() - w.pos) + w.open.len()) as nat
    } else {
        0
    }
}

/// The most that lies open at once from `w` on. Where the stream breaks
/// off, one more than what lies open is counted: a parser may have stepped
/// into a compound before it finds that nothing follows.
pub open spec fn deepest_from(bytes: Seq<u8>, w: Walk) -> nat
    decreases left_to_do(bytes, w),
{
    match step(bytes, w) {
        Some(next) => if left_to_do(bytes, next) < left_to_do(bytes, w) {
            deepest_from(bytes, next)
        } else {
            w.deepest
        },
        None => if w.open.len() == 0 {
            w.deepest
        } else {
            larger(w.deepest, w.open.len() + 1)
        },
    }
}

/// The reader inside the root of the stream: a compound with a name.
pub open spec fn at_root(bytes: Seq<u8>) -> Option<Walk> {
    if bytes.len() >= 3 && bytes[0] == TAG_COMPOUND && 3 + be_u16(bytes.subrange(1, 3))
        <= bytes.len() {
        Some(
            Walk {
                pos: 3 + be_u16(bytes.subrange(1, 3)),
                open: seq![Frame::Compound],
                deepest: 1,
            },
        )
    } else {
        None
    }
}

/// How deep a tag stream nests: the most lists and compounds that lie
/// open at once while its root compound is read tag by tag, each payload
/// taken at the length that its tag gives. Reading ends with the root, or
/// where the stream breaks off.
pub open spec fn nbt_nesting(bytes: Seq<u8>) -> nat {
    match at_root(bytes) {
        Some(w) => deepest_from(bytes, w),
        None => 0,
    }
}

/// Every step reads a byte or closes a list or a compound.
pub proof fn lemma_step_gets_on(bytes: Seq<u8>, w: Walk)
    requires
        0 <= w.pos <= bytes.len(),
        step(bytes, w) is Some,
    ensures
        w.pos <= step(bytes, w)->Some_0.pos <= bytes.len(),
        left_to_do(bytes, step(bytes, w)->Some_0) < left_to_do(bytes, w),
        w.deepest <= step(bytes, w)->Some_0.deepest,
{
}

/// The depth of a stream is at least what lay open before, and never more
/// than one above the number of its bytes.
pub proof fn lemma_deepest_from(bytes: Seq<u8>, w: Walk)
    requires
        0 <= w.pos <= bytes.len(),
        w.open.len() <= w.pos,
        w.deepest <= w.pos,
    ensures
        w.deepest <= deepest_from(bytes, w) <= bytes.len() + 1,
    decreases left_to_do(bytes, w),
{
    if step(bytes, w) is Some {
        let next = step(bytes, w)->Some_0;
        lemma_step_gets_on(bytes, w);
        lemma_step_keeps_count(bytes, w);
        lemma_deepest_from(bytes, next);
    }
}

/// As many bytes are read as lists and compounds lie open.
proof fn lemma_step_keeps_count(bytes: Seq<u8>, w: Walk)
    requires
        0 <= w.pos <= bytes.len(),
        w.open.len() <= w.pos,
        w.deepest <= w.pos,
        step(bytes, w) is Some,
    ensures
        step(bytes, w)->Some_0.open.len() <= step(bytes, w)->Some_0.pos,
        step(bytes, w)->Some_0.deepest <= step(bytes, w)->Some_0.pos,
{
}

/// A stream nests no deeper than it has bytes, and one level more where it
/// breaks off.
pub proof fn law_nesting_is_bounded_by_length(bytes: Seq<u8>)
    ensures
        nbt_nesting(bytes) <= bytes.len() + 1,
{
    if at_root(bytes) is Some {
        lemma_deepest_from(bytes, at_root(bytes)->Some_0);
    }
}

/// The reader after `k` steps from `w`, where it gets that far.
pub open spec fn after_steps(bytes: Seq<u8>, w: Walk, k: nat) -> Option<Walk>
    decreases k,
{
    if k == 0 {
        Some(w)
    } else {
        match after_steps(bytes, w, (k - 1) as nat) {
            Some(before) => step(bytes, before),
            None => None,
        }
    }
}

/// What holds of the reader wherever it stands: it is within the bytes, it
/// has read as many bytes as lie open, what lies open has been counted, and
/// the depth from there on is the depth of the stream.
spec fn on_the_way(bytes: Seq<u8>, w: Walk) -> bool {
    &&& 0 <= w.pos <= bytes.len()
    &&& w.open.len() <= w.pos
    &&& w.deepest <= w.pos
    &&& w.open.len() <= w.deepest
    &&& deepest_from(bytes, w) == nbt_nesting(bytes)
}

/// A step keeps the reader on the way.
proof fn lemma_step_stays_on_the_way(bytes: Seq<u8>, w: Walk)
    requires
        on_the_way(bytes, w),
        step(bytes, w) is Some,
    ensures
        on_the_way(bytes, step(bytes, w)->Some_0),
{
    lemma_step_gets_on(bytes, w);
    lemma_step_keeps_count(bytes, w);
}

/// The reader is on the way after any number of steps.
proof fn lemma_after_steps(bytes: Seq<u8>, k: nat)
    requires
        at_root(bytes) is Some,
        after_steps(bytes, at_root(bytes)->Some_0, k) is Some,
    ensures
        on_the_way(bytes, after_steps(bytes, at_root(bytes)->Some_0, k)->Some_0),
    decreases k,
{
    if k > 0 {
        lemma_after_steps(bytes, (k - 1) as nat);
        lemma_step_stays_on_the_way(
            bytes,
            after_steps(bytes, at_root(bytes)->Some_0, (k - 1) as nat)->Some_0,
        );
    }
}

/// The depth of a stream is the most that lies open at once: wherever the
/// reader stands on its way through the root, no more lists and compounds
/// lie open than the stream is deep.
pub proof fn law_nesting_bounds_what_lies_open(bytes: Seq<u8>, k: nat)
    requires
        at_root(bytes) is Some,
        after_steps(bytes, at_root(bytes)->Some_0, k) is Some,
    ensures
        after_steps(bytes, at_root(bytes)->Some_0, k)->Some_0.open.len() <= nbt_nesting(bytes),
{
    lemma_after_steps(bytes, k);
    let w = after_steps(bytes, at_root(bytes)->Some_0, k)->Some_0;
    lemma_deepest_from(bytes, w);
}

/// The reader as it runs.
struct Walker {
    pos: usize,
    open: Vec<Frame>,
    deepest: usize,
}

impl View for Walker {
    type V = Walk;

    closed spec fn view(&self) -> Walk {
        Walk { pos: self.pos as int, open: self.open@, deepest: self.deepest as nat }
    }
}

/// Whether what the reader returned is what the step gives.
spec fn agrees(got: Option<Walker>, want: Option<Walk>) -> bool {
    match got {
        Some(w) => want == Some(w@),
        None => want is None,
    }
}

/// Where the payload of a tag that holds no tags ends.
fn find_leaf_end(input: &[u8], tag: u8, at: usize) -> (end: Option<usize>)
    requires
        at <= input@.len(),
    ensures
        end is Some <==> leaf_end(input@, tag, at as int) is Some,
        end matches Some(e) ==> leaf_end(input@, tag, at as int) == Some(e as int),
{
    let room = input.len() - at;
    if 1 <= tag && tag <= 6 {
        let width: usize = if tag == 1 {
            1
        } else if tag == 2 {
            2
        } else if tag == 3 || tag == 5 {
            4
        } else {
            8
        };
        if room >= width {
            Some(at + width)
        } else {
            None
        }
    } else if tag == TAG_STRING {
        if room < 2 {
            return None;
        }
        let len = read_be_u16(input, at) as usize;
        if room - 2 >= len {
            Some(at + 2 + len)
        } else {
            None
        }
    } else if tag == 7 || tag == 11 || tag == 12 {
        if room < 4 {
            return None;
        }
        let count = read_be_u32(input, at);
        if count >= 0x8000_0000 {
            return None;
        }
        let width: u64 = if tag == 7 {
            1
        } else if tag == 11 {
            4
        } else {
            8
        };
        let bytes = count as u64 * width;
        if (room - 4) as u64 >= bytes {
            Some(at + 4 + bytes as usize)
        } else {
            None
        }
    } else {
        None
    }
}

/// Meets the payload of a tag.
fn enter_value(input: &[u8], w: Walker, tag: u8) -> (r: Option<Walker>)
    requires
        w.pos <= input@.len(),
    ensures
        agrees(r, open_value(input@, w@, tag)),
{
    let Walker { pos, mut open, deepest } = w;
    if tag == TAG_COMPOUND {
        open.push(Frame::Compound);
        let deepest = if open.len() > deepest {
            open.len()
        } else {
            deepest
        };
        Some(Walker { pos, open, deepest })
    } else if tag == TAG_LIST {
        if input.len() - pos < 5 {
            return None;
        }
        let elem = input[pos];
        let count = read_be_u32(input, pos + 1);
        if elem > TAG_LAST || count >= 0x8000_0000 || (elem == TAG_END && count != 0) {
            return None;
        }
        open.push(Frame::List { elem, left: count });
        let deepest = if open.len() > deepest {
            open.len()
        } else {
            deepest
        };
        Some(Walker { pos: pos + 5, open, deepest })
    } else {
        match find_leaf_end(input, tag, pos) {
            Some(end) => Some(Walker { pos: end, open, deepest }),
            None => None,
        }
    }
}

/// Reads the next tag of the compound that lies open innermost.
fn next_field(input: &[u8], w: Walker) -> (r: Option<Walker>)
    requires
        w.pos <= input@.len(),
        w.open@.len() > 0,
    ensures
        agrees(r, read_field(input@, w@)),
{
    let Walker { pos, mut open, deepest } = w;
    let n = input.len();
    if pos >= n {
        return None;
    }
    let tag = input[pos];
    if tag == TAG_END {
        let ghost before = open@;
        open.pop();
        assert(open@ =~= before.drop_last());
        return Some(Walker { pos: pos + 1, open, deepest });
    }
    if tag > TAG_LAST || n - pos < 3 {
        return None;
    }
    let name_len = read_be_u16(input, pos + 1) as usize;
    if n - pos - 3 < name_len {
        return None;
    }
    enter_value(input, Walker { pos: pos + 3 + name_len, open, deepest }, tag)
}

/// Takes one step.
fn take_step(input: &[u8], w: Walker) -> (r: Option<Walker>)
    requires
        w.pos <= input@.len(),
        w.open@.len() > 0,
    ensures
        agrees(r, step(input@, w@)),
{
    let Walker { pos, mut open, deepest } = w;
    let ghost before = open@;
    let top = open[open.len() - 1];
    match top {
        Frame::Compound => next_field(input, Walker { pos, open, deepest }),
        Frame::List { elem, left } => {
            open.pop();
            assert(open@ =~= before.drop_last());
            if left == 0 {
                return Some(Walker { pos, open, deepest });
            }
            open.push(Frame::List { elem, left: left - 1 });
            if elem == TAG_COMPOUND {
                open.push(Frame::Compound);
                let deepest = if open.len() > deepest {
                    open.len()
                } else {
                    deepest
                };
                next_field(input, Walker { pos, open, deepest })
            } else {
                enter_value(input, Walker { pos, open, deepest }, elem)
            }
        },
    }
}

/// Whether a tag stream nests no deeper than `limit`.
pub fn nests_within(input: &[u8], limit: usize) -> (ok: bool)
    ensures
        ok == (nbt_nesting(input@) <= limit),
{
    let n = input.len();
    if n < 3 || input[0] != TAG_COMPOUND {
        return true;
    }
    let name_len = read_be_u16(input, 1) as usize;
    if n - 3 < name_len {
        return true;
    }
    let mut open: Vec<Frame> = Vec::new();
    open.push(Frame::Compound);
    let mut w = Walker { pos: 3 + name_len, open, deepest: 1 };
    assert(w@.open =~= seq![Frame::Compound]);
    loop
        invariant
            n == input@.len(),
            w.pos <= n,
            nbt_nesting(input@) == deepest_from(input@, w@),
        decreases left_to_do(input@, w@),
    {
        if w.open.len() == 0 {
            return w.deepest <= limit;
        }
        let deepest = w.deepest;
        let open_now = w.open.len();
        let ghost here = w@;
        match take_step(input, w) {
            Some(next) => {
                proof {
                    lemma_step_gets_on(input@, here);
                }
                w = next;
            },
            None => {
                return deepest <= limit && open_now < limit;
            },
        }
    }
}

} // verus!
