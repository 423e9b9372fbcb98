//! The chunks that a dimension keeps loaded: read from the sidecar file
//! that lists its force-load tickets.

use crate::mca::inflate::{gzip_decode, spec_gzip_decode};
use crate::world::nesting::{nbt_nesting, nests_within};
use vstd::prelude::*;
use vstd::string::StringExecFns;

verus! {

/// A tag tree as far as the tickets need it: compounds, lists, texts and
/// the two arrays of numbers. Every other tag is `Other`.
pub enum Tag {
    Text(String),
    Ints(Vec<i32>),
    Longs(Vec<i64>),
    List(Vec<Tag>),
    /// The named fields of a compound, in no particular order.
    Compound(Vec<(String, Tag)>),
    Other,
}

/// `fastnbt::Value`, a parsed tag tree. What it holds goes by the name
/// `nbt_tree`, and is read through the five wrappers below.
#[verifier::external_type_specification]
#[verifier::external_body]
pub struct ExNbtValue(fastnbt::Value);

/// `fastnbt::error::Error`; it is carried, never looked into.
#[verifier::external_type_specification]
#[verifier::external_body]
pub struct ExNbtError(fastnbt::error::Error);

/// The deepest that a ticket file may nest and still be parsed: as deep as
/// the game itself lets a tag tree nest.
pub const MAX_NESTING: usize = 512;

/// What a parsed tag tree holds: texts, the two arrays of numbers, lists of
/// trees, and compounds as maps from field names to trees. Every other tag
/// is `Other`.
pub enum Tree {
    Text(Seq<char>),
    Ints(Seq<i32>),
    Longs(Seq<i64>),
    List(Seq<Tree>),
    Compound(Map<Seq<char>, Tree>),
    Other,
}

/// What a `fastnbt::Value` holds: `String` as `Text`, `IntArray` as `Ints`,
/// `LongArray` as `Longs`, `List` as `List`, `Compound` as `Compound`, and
/// every other variant as `Other`.
pub uninterp spec fn nbt_tree(value: fastnbt::Value) -> Tree;

/// What `fastnbt::from_bytes` parses from these bytes, as far as a `Tree`
/// holds it; `None` where it reports an error.
pub uninterp spec fn spec_nbt_parse(input: Seq<u8>) -> Option<Tree>;

/// What the fields that a compound hands out have to do with the map that
/// it holds: every field is an entry of the map, and every entry of the map
/// is among the fields. Nothing is said of their order.
pub open spec fn fields_of(fields: Seq<(String, &fastnbt::Value)>, map: Map<Seq<char>, Tree>) -> bool {
    &&& forall|i: int|
        0 <= i < fields.len() ==> map.contains_key((#[trigger] fields[i]).0@) && map[fields[i].0@]
            == nbt_tree(*fields[i].1)
    &&& forall|name: Seq<char>| #[trigger]
        map.contains_key(name) ==> exists|i: int|
            0 <= i < fields.len() && (#[trigger] fields[i]).0@ == name
}

/// `fastnbt::from_bytes` for a `fastnbt::Value`: parses one tag tree.
/// Whether it succeeds, and what the tree holds, depends on the bytes alone.
/// The parser calls itself anew only for a list or a compound that it
/// steps into, and reads the stream tag by tag as `nbt_nesting` does,
/// stopping where that stops or before; so on a stream that nests no
/// deeper than asked here it never has more lists and compounds open than
/// that, and one more.
#[verifier::external_body]
fn nbt_from_bytes(input: &[u8]) -> (r: Result<fastnbt::Value, fastnbt::error::Error>)
    requires
        nbt_nesting(input@) <= MAX_NESTING,
    ensures
        r is Ok <==> spec_nbt_parse(input@) is Some,
        r matches Ok(value) ==> spec_nbt_parse(input@) == Some(nbt_tree(value)),
{
    fastnbt::from_bytes::<fastnbt::Value>(input)
}

/// The text of a `fastnbt::Value::String`; nothing for any other variant.
#[verifier::external_body]
fn value_text(value: &fastnbt::Value) -> (r: Option<String>)
    ensures
        match r {
            Some(text) => nbt_tree(*value) == Tree::Text(text@),
            None => !(nbt_tree(*value) is Text),
        },
{
    match value {
        fastnbt::Value::String(s) => Some(s.clone()),
        _ => None,
    }
}

/// The numbers of a `fastnbt::Value::IntArray`; nothing for any other
/// variant.
#[verifier::external_body]
fn value_ints(value: &fastnbt::Value) -> (r: Option<Vec<i32>>)
    ensures
        match r {
            Some(ints) => nbt_tree(*value) == Tree::Ints(ints@),
            None => !(nbt_tree(*value) is Ints),
        },
{
    match value {
        fastnbt::Value::IntArray(a) => Some(a.to_vec()),
        _ => None,
    }
}

/// The numbers of a `fastnbt::Value::LongArray`; nothing for any other
/// variant.
#[verifier::external_body]
fn value_longs(value: &fastnbt::Value) -> (r: Option<Vec<i64>>)
    ensures
        match r {
            Some(longs) => nbt_tree(*value) == Tree::Longs(longs@),
            None => !(nbt_tree(*value) is Longs),
        },
{
    match value {
        fastnbt::Value::LongArray(a) => Some(a.to_vec()),
        _ => None,
    }
}

/// The items of a `fastnbt::Value::List`, in their order; nothing for any
/// other variant.
#[verifier::external_body]
fn value_items(value: &fastnbt::Value) -> (r: Option<&Vec<fastnbt::Value>>)
    ensures
        match r {
            Some(items) => nbt_tree(*value) == Tree::List(
                Seq::new(items@.len(), |i: int| nbt_tree(items@[i])),
            ),
            None => !(nbt_tree(*value) is List),
        },
{
    match value {
        fastnbt::Value::List(items) => Some(items),
        _ => None,
    }
}

/// The named fields of a `fastnbt::Value::Compound`, each entry of its hash
/// map once, in the order in which the map is walked; nothing for any other
/// variant.
#[verifier::external_body]
fn value_fields(value: &fastnbt::Value) -> (r: Option<Vec<(String, &fastnbt::Value)>>)
    ensures
        match r {
            Some(fields) => nbt_tree(*value) matches Tree::Compound(map) && fields_of(
                fields@,
                map,
            ),
            None => !(nbt_tree(*value) is Compound),
        },
{
    match value {
        fastnbt::Value::Compound(fields) => Some(
            fields.iter().map(|(name, field)| (name.clone(), field)).collect(),
        ),
        _ => None,
    }
}

/// Whether every name of the map is the name of a field.
pub open spec fn names_are_among(map: Map<Seq<char>, Tree>, fields: Seq<(String, Tag)>) -> bool {
    forall|name: Seq<char>| #[trigger]
        map.contains_key(name) ==> exists|i: int|
            0 <= i < fields.len() && (#[trigger] fields[i]).0@ == name
}

/// Whether a tag holds what a tree holds, down to `depth` levels, with
/// `Other` for what lies deeper. The fields of a compound may stand in any
/// order: every field is an entry of the tree's map, and every entry of the
/// map is among the fields.
pub open spec fn holds_tree(tag: Tag, tree: Tree, depth: nat) -> bool
    decreases depth,
{
    if depth == 0 {
        tag is Other
    } else {
        match (tree, tag) {
            (Tree::Text(s), Tag::Text(t)) => t@ == s,
            (Tree::Ints(v), Tag::Ints(t)) => t@ == v,
            (Tree::Longs(v), Tag::Longs(t)) => t@ == v,
            (Tree::List(trees), Tag::List(tags)) => {
                &&& tags@.len() == trees.len()
                &&& forall|i: int|
                    0 <= i < trees.len() ==> holds_tree(
                        #[trigger] tags@[i],
                        trees[i],
                        (depth - 1) as nat,
                    )
            },
            (Tree::Compound(map), Tag::Compound(fields)) => {
                &&& forall|i: int|
                    0 <= i < fields@.len() ==> map.contains_key((#[trigger] fields@[i]).0@)
                        && holds_tree(fields@[i].1, map[fields@[i].0@], (depth - 1) as nat)
                &&& names_are_among(map, fields@)
            },
            (Tree::Other, Tag::Other) => true,
            _ => false,
        }
    }
}

/// The parsed tree as a `Tag`, down to `depth` levels; what lies deeper is
/// `Other`.
fn tag_of_value(value: &fastnbt::Value, depth: usize) -> (tag: Tag)
    ensures
        holds_tree(tag, nbt_tree(*value), depth as nat),
    decreases depth,
{
    if depth == 0 {
        return Tag::Other;
    }
    if let Some(text) = value_text(value) {
        return Tag::Text(text);
    }
    if let Some(ints) = value_ints(value) {
        return Tag::Ints(ints);
    }
    if let Some(longs) = value_longs(value) {
        return Tag::Longs(longs);
    }
    if let Some(items) = value_items(value) {
        let mut tags: Vec<Tag> = Vec::new();
        let mut i: usize = 0;
        while i < items.len()
            invariant
                depth > 0,
                i <= items@.len(),
                tags@.len() == i,
                forall|j: int|
                    0 <= j < i ==> holds_tree(
                        #[trigger] tags@[j],
                        nbt_tree(items@[j]),
                        (depth - 1) as nat,
                    ),
            decreases items@.len() - i,
        {
            tags.push(tag_of_value(&items[i], depth - 1));
            i += 1;
        }
        return Tag::List(tags);
    }
    if let Some(fields) = value_fields(value) {
        let ghost map = nbt_tree(*value)->Compound_0;
        let mut tags: Vec<(String, Tag)> = Vec::new();
        let mut i: usize = 0;
        while i < fields.len()
            invariant
                depth > 0,
                i <= fields@.len(),
                tags@.len() == i,
                fields_of(fields@, map),
                forall|j: int|
                    0 <= j < i ==> (#[trigger] tags@[j]).0@ == fields@[j].0@ && holds_tree(
                        tags@[j].1,
                        map[fields@[j].0@],
                        (depth - 1) as nat,
                    ),
            decreases fields@.len() - i,
        {
            let name = fields[i].0.clone();
            let tag = tag_of_value(fields[i].1, depth - 1);
            tags.push((name, tag));
            i += 1;
        }
        proof {
            assert(nbt_tree(*value) == Tree::Compound(map));
            assert forall|j: int| 0 <= j < tags@.len() implies map.contains_key(
                (#[trigger] tags@[j]).0@,
            ) && holds_tree(tags@[j].1, map[tags@[j].0@], (depth - 1) as nat) by {
                assert(map.contains_key(fields@[j].0@));
            }
            assert forall|name: Seq<char>| #[trigger] map.contains_key(name) implies exists|
                j: int,
            |
                0 <= j < tags@.len() && (#[trigger] tags@[j]).0@ == name by {
                let j = choose|j: int| 0 <= j < fields@.len() && (#[trigger] fields@[j]).0@ == name;
                assert(tags@[j].0@ == name);
            }
            assert(names_are_among(map, tags@));
        }
        return Tag::Compound(tags);
    }
    Tag::Other
}

/// The ticket type of a force-loaded chunk.
pub open spec fn forced_type() -> Seq<char> {
    "minecraft:forced"@
}

/// The first field of that name.
pub open spec fn field(fields: Seq<(String, Tag)>, name: Seq<char>) -> Option<Tag>
    decreases fields.len(),
{
    if fields.len() == 0 {
        None
    } else if fields[0].0@ == name {
        Some(fields[0].1)
    } else {
        field(fields.drop_first(), name)
    }
}

/// The field of that name of a compound; nothing for any other tag.
pub open spec fn member(tag: Tag, name: Seq<char>) -> Option<Tag> {
    match tag {
        Tag::Compound(fields) => field(fields@, name),
        _ => None,
    }
}

/// The low 32 bits of a number, read as a signed number.
pub open spec fn low32(v: i64) -> i32 {
    v as i32
}

/// The legacy list read as pairs: numbers `2p` and `2p + 1` are the
/// coordinates of chunk `p`; a number left over at the end is dropped.
pub open spec fn legacy_pairs(longs: Seq<i64>) -> Seq<(i32, i32)> {
    Seq::new(longs.len() / 2, |p: int| (low32(longs[2 * p]), low32(longs[2 * p + 1])))
}

/// The chunk that a ticket pins: a compound whose `type` is the text
/// `minecraft:forced` and whose `chunk_pos` is an array of two numbers.
pub open spec fn ticket_chunk(ticket: Tag) -> Option<(i32, i32)> {
    match (member(ticket, "type"@), member(ticket, "chunk_pos"@)) {
        (Some(Tag::Text(kind)), Some(Tag::Ints(pos))) => if kind@ == forced_type() && pos@.len()
            == 2 {
            Some((pos@[0], pos@[1]))
        } else {
            None
        },
        _ => None,
    }
}

/// The chunks that the first `k` tickets pin, in the order of the tickets.
pub open spec fn ticket_chunks(tickets: Seq<Tag>, k: nat) -> Seq<(i32, i32)>
    decreases k,
{
    if k == 0 {
        Seq::empty()
    } else {
        match ticket_chunk(tickets[k - 1]) {
            Some(c) => ticket_chunks(tickets, (k - 1) as nat).push(c),
            None => ticket_chunks(tickets, (k - 1) as nat),
        }
    }
}

/// The chunks of the legacy list `Forced` under a `data` compound.
pub open spec fn legacy_chunks(data: Tag) -> Seq<(i32, i32)> {
    match member(data, "Forced"@) {
        Some(Tag::Longs(longs)) => legacy_pairs(longs@),
        _ => Seq::empty(),
    }
}

/// The chunks of the list `tickets` under a `data` compound.
pub open spec fn modern_chunks(data: Tag) -> Seq<(i32, i32)> {
    match member(data, "tickets"@) {
        Some(Tag::List(tickets)) => ticket_chunks(tickets@, tickets@.len()),
        _ => Seq::empty(),
    }
}

/// The force-loaded chunks that a tag tree names: those of the legacy list
/// first, then those of the tickets, both read from the compound `data` of
/// the root.
pub open spec fn forced_chunks_spec(root: Tag) -> Seq<(i32, i32)> {
    match member(root, "data"@) {
        Some(Tag::Compound(fields)) => legacy_chunks(Tag::Compound(fields)) + modern_chunks(
            Tag::Compound(fields),
        ),
        _ => Seq::empty(),
    }
}

/// The field of that name of a compound.
fn get_member<'a>(tag: &'a Tag, name: &str) -> (r: Option<&'a Tag>)
    ensures
        match r {
            Some(t) => member(*tag, name@) == Some(*t),
            None => member(*tag, name@) is None,
        },
{
    let wanted = String::from_str(name);
    match tag {
        Tag::Compound(fields) => {
            let mut k: usize = 0;
            assert(fields@.skip(0) =~= fields@);
            while k < fields.len()
                invariant
                    k <= fields@.len(),
                    wanted@ == name@,
                    *tag == Tag::Compound(*fields),
                    field(fields@, name@) == field(fields@.skip(k as int), name@),
                decreases fields@.len() - k,
            {
                proof {
                    assert(fields@.skip(k as int).drop_first() =~= fields@.skip(k + 1));
                    assert(fields@.skip(k as int)[0] == fields@[k as int]);
                }
                if fields[k].0 == wanted {
                    return Some(&fields[k].1);
                }
                k += 1;
            }
            None
        },
        _ => None,
    }
}

/// The chunk that a ticket pins.
fn read_ticket(ticket: &Tag) -> (r: Option<(i32, i32)>)
    ensures
        r == ticket_chunk(*ticket),
{
    let forced = String::from_str("minecraft:forced");
    match (get_member(ticket, "type"), get_member(ticket, "chunk_pos")) {
        (Some(Tag::Text(kind)), Some(Tag::Ints(pos))) => {
            if *kind == forced && pos.len() == 2 {
                Some((pos[0], pos[1]))
            } else {
                None
            }
        },
        _ => None,
    }
}

/// The force-loaded chunks that a tag tree names: the pairs of the legacy
/// list `Forced`, then the chunks of the `tickets` of type
/// `minecraft:forced`, both under the root's compound `data`.
pub fn forced_chunks(root: &Tag) -> (coords: Vec<(i32, i32)>)
    ensures
        coords@ == forced_chunks_spec(*root),
{
    let mut coords: Vec<(i32, i32)> = Vec::new();
    let data = match get_member(root, "data") {
        Some(data) => data,
        None => {
            return coords;
        },
    };
    match data {
        Tag::Compound(_) => {},
        _ => {
            return coords;
        },
    }
    if let Some(Tag::Longs(longs)) = get_member(data, "Forced") {
        let mut p: usize = 0;
        while p < longs.len() / 2
            invariant
                p <= longs@.len() / 2,
                coords@.len() == p,
                forall|q: int| 0 <= q < p ==> coords@[q] == legacy_pairs(longs@)[q],
            decreases longs@.len() / 2 - p,
        {
            let x = #[verifier::truncate] (longs[2 * p] as i32);
            let z = #[verifier::truncate] (longs[2 * p + 1] as i32);
            coords.push((x, z));
            p += 1;
        }
        assert(coords@ =~= legacy_pairs(longs@));
    }
    assert(coords@ == legacy_chunks(*data));
    if let Some(Tag::List(tickets)) = get_member(data, "tickets") {
        let mut k: usize = 0;
        assert(coords@ =~= legacy_chunks(*data) + ticket_chunks(tickets@, 0));
        while k < tickets.len()
            invariant
                k <= tickets@.len(),
                coords@ == legacy_chunks(*data) + ticket_chunks(tickets@, k as nat),
            decreases tickets@.len() - k,
        {
            let ghost before = coords@;
            if let Some(c) = read_ticket(&tickets[k]) {
                coords.push(c);
                assert(coords@ =~= legacy_chunks(*data) + ticket_chunks(
                    tickets@,
                    (k + 1) as nat,
                ));
            }
            k += 1;
        }
    } else {
        assert(coords@ =~= legacy_chunks(*data) + modern_chunks(*data));
    }
    coords
}

/// Levels of a tag tree that the tickets lie in: the root, its compound
/// `data`, the two lists under it, a ticket, and the fields of a ticket.
pub const TICKET_DEPTH: usize = 5;

/// The entry of that name of a compound; nothing for any other tree.
pub open spec fn tree_member(tree: Tree, name: Seq<char>) -> Option<Tree> {
    match tree {
        Tree::Compound(map) => if map.contains_key(name) {
            Some(map[name])
        } else {
            None
        },
        _ => None,
    }
}

/// The chunk that a ticket pins: a compound whose `type` is the text
/// `minecraft:forced` and whose `chunk_pos` is an array of two numbers.
pub open spec fn ticket_in_tree(ticket: Tree) -> Option<(i32, i32)> {
    match (tree_member(ticket, "type"@), tree_member(ticket, "chunk_pos"@)) {
        (Some(Tree::Text(kind)), Some(Tree::Ints(pos))) => if kind == forced_type() && pos.len()
            == 2 {
            Some((pos[0], pos[1]))
        } else {
            None
        },
        _ => None,
    }
}

/// The chunks that the first `k` tickets pin, in the order of the tickets.
pub open spec fn tickets_in_tree(tickets: Seq<Tree>, k: nat) -> Seq<(i32, i32)>
    decreases k,
{
    if k == 0 {
        Seq::empty()
    } else {
        match ticket_in_tree(tickets[k - 1]) {
            Some(c) => tickets_in_tree(tickets, (k - 1) as nat).push(c),
            None => tickets_in_tree(tickets, (k - 1) as nat),
        }
    }
}

/// The chunks of the legacy list `Forced` under a `data` compound.
pub open spec fn legacy_in_tree(data: Tree) -> Seq<(i32, i32)> {
    match tree_member(data, "Forced"@) {
        Some(Tree::Longs(longs)) => legacy_pairs(longs),
        _ => Seq::empty(),
    }
}

/// The chunks of the list `tickets` under a `data` compound.
pub open spec fn modern_in_tree(data: Tree) -> Seq<(i32, i32)> {
    match tree_member(data, "tickets"@) {
        Some(Tree::List(tickets)) => tickets_in_tree(tickets, tickets.len()),
        _ => Seq::empty(),
    }
}

/// The force-loaded chunks that a parsed tree names: those of the legacy
/// list first, then those of the tickets, both read from the compound
/// `data` of the root.
pub open spec fn forced_in_tree(root: Tree) -> Seq<(i32, i32)> {
    match tree_member(root, "data"@) {
        Some(Tree::Compound(map)) => legacy_in_tree(Tree::Compound(map)) + modern_in_tree(
            Tree::Compound(map),
        ),
        _ => Seq::empty(),
    }
}

/// The force-loaded chunks that a ticket file names: those of the tree that
/// its gzip stream unpacks to, and none where the file cannot be unpacked,
/// or what it unpacks to nests deeper than `MAX_NESTING` or cannot be
/// parsed.
pub open spec fn forced_in_file(data: Seq<u8>) -> Seq<(i32, i32)> {
    match spec_gzip_decode(data) {
        None => Seq::empty(),
        Some(unpacked) => if nbt_nesting(unpacked) > MAX_NESTING {
            Seq::empty()
        } else {
            match spec_nbt_parse(unpacked) {
                None => Seq::empty(),
                Some(root) => forced_in_tree(root),
            }
        },
    }
}

/// The first field of a name is a field of that name, and there is none
/// where no field has the name.
proof fn lemma_field(fields: Seq<(String, Tag)>, name: Seq<char>)
    ensures
        match field(fields, name) {
            Some(tag) => exists|j: int|
                0 <= j < fields.len() && (#[trigger] fields[j]).0@ == name && fields[j].1 == tag,
            None => forall|j: int| 0 <= j < fields.len() ==> (#[trigger] fields[j]).0@ != name,
        },
    decreases fields.len(),
{
    if fields.len() > 0 && fields[0].0@ != name {
        let rest = fields.drop_first();
        lemma_field(rest, name);
        match field(rest, name) {
            Some(tag) => {
                let j = choose|j: int|
                    0 <= j < rest.len() && (#[trigger] rest[j]).0@ == name && rest[j].1 == tag;
                assert(fields[j + 1] == rest[j]);
            },
            None => {
                assert forall|j: int| 0 <= j < fields.len() implies (#[trigger] fields[j]).0@
                    != name by {
                    if j > 0 {
                        assert(rest[j - 1] == fields[j]);
                    }
                }
            },
        }
    } else if fields.len() > 0 {
        assert(fields[0].0@ == name);
    }
}

/// A tag that holds a tree has the entry of a name where the tree has it,
/// and holds it one level less deep.
proof fn lemma_member(tag: Tag, tree: Tree, name: Seq<char>, depth: nat)
    requires
        depth >= 1,
        holds_tree(tag, tree, depth),
    ensures
        match tree_member(tree, name) {
            Some(sub) => member(tag, name) matches Some(found) && holds_tree(
                found,
                sub,
                (depth - 1) as nat,
            ),
            None => member(tag, name) is None,
        },
{
    match (tree, tag) {
        (Tree::Compound(map), Tag::Compound(fields)) => {
            lemma_field(fields@, name);
            if map.contains_key(name) {
                let i = choose|i: int| 0 <= i < fields@.len() && (#[trigger] fields@[i]).0@ == name;
                assert(field(fields@, name) is Some);
                let found = field(fields@, name)->Some_0;
                let j = choose|j: int|
                    0 <= j < fields@.len() && (#[trigger] fields@[j]).0@ == name && fields@[j].1
                        == found;
                assert(holds_tree(fields@[j].1, map[fields@[j].0@], (depth - 1) as nat));
            } else {
                if field(fields@, name) is Some {
                    let found = field(fields@, name)->Some_0;
                    let j = choose|j: int|
                        0 <= j < fields@.len() && (#[trigger] fields@[j]).0@ == name
                            && fields@[j].1 == found;
                    assert(map.contains_key(fields@[j].0@));
                }
            }
        },
        _ => {},
    }
}

/// A ticket that holds a tree pins the chunk that the tree pins.
proof fn lemma_ticket(tag: Tag, tree: Tree)
    requires
        holds_tree(tag, tree, 2),
    ensures
        ticket_chunk(tag) == ticket_in_tree(tree),
{
    lemma_member(tag, tree, "type"@, 2);
    lemma_member(tag, tree, "chunk_pos"@, 2);
}

/// Tickets that hold trees pin the chunks that the trees pin.
proof fn lemma_tickets(tags: Seq<Tag>, trees: Seq<Tree>, k: nat)
    requires
        tags.len() == trees.len(),
        k <= tags.len(),
        forall|i: int| 0 <= i < trees.len() ==> holds_tree(#[trigger] tags[i], trees[i], 2),
    ensures
        ticket_chunks(tags, k) == tickets_in_tree(trees, k),
    decreases k,
{
    if k > 0 {
        lemma_tickets(tags, trees, (k - 1) as nat);
        assert(holds_tree(tags[k - 1], trees[k - 1], 2));
        lemma_ticket(tags[k - 1], trees[k - 1]);
    }
}

/// A tag that holds a tree down to the level of the tickets' fields names
/// the force-loaded chunks that the tree names.
proof fn lemma_forced(tag: Tag, tree: Tree)
    requires
        holds_tree(tag, tree, TICKET_DEPTH as nat),
    ensures
        forced_chunks_spec(tag) == forced_in_tree(tree),
{
    lemma_member(tag, tree, "data"@, 5);
    match tree_member(tree, "data"@) {
        Some(Tree::Compound(map)) => {
            let data_tree = Tree::Compound(map);
            let data = member(tag, "data"@)->Some_0;
            assert(holds_tree(data, data_tree, 4));
            assert(data is Compound);
            lemma_member(data, data_tree, "Forced"@, 4);
            lemma_member(data, data_tree, "tickets"@, 4);
            match tree_member(data_tree, "tickets"@) {
                Some(Tree::List(trees)) => {
                    let list = member(data, "tickets"@)->Some_0;
                    assert(holds_tree(list, Tree::List(trees), 3));
                    let tags = list->List_0;
                    lemma_tickets(tags@, trees, trees.len());
                },
                _ => {},
            }
        },
        Some(other) => {
            let data = member(tag, "data"@)->Some_0;
            assert(holds_tree(data, other, 4));
        },
        None => {},
    }
}

/// Reads the force-loaded chunks from the bytes of a ticket file: a gzip
/// stream that holds one tag tree. A file that cannot be unpacked or
/// parsed, or that nests deeper than `MAX_NESTING`, names no chunk.
pub fn parse_force_loaded(data: &[u8]) -> (coords: Vec<(i32, i32)>)
    ensures
        coords@ == forced_in_file(data@),
{
    let unpacked = match gzip_decode(data) {
        Ok(unpacked) => unpacked,
        Err(_) => {
            return Vec::new();
        },
    };
    if !nests_within(unpacked.as_slice(), MAX_NESTING) {
        return Vec::new();
    }
    match nbt_from_bytes(unpacked.as_slice()) {
        Ok(value) => {
            let root = tag_of_value(&value, TICKET_DEPTH);
            proof {
                lemma_forced(root, nbt_tree(value));
            }
            forced_chunks(&root)
        },
        Err(_) => Vec::new(),
    }
}

} // verus!
