use rust_thanos::world::forced::{forced_chunks, parse_force_loaded, Tag};
use rust_thanos::world::nesting::nests_within;
use std::io::Write;

fn gzip(data: &[u8]) -> Vec<u8> {
    let mut enc = flate2::write::GzEncoder::new(Vec::new(), flate2::Compression::default());
    enc.write_all(data).unwrap();
    enc.finish().unwrap()
}

fn named(tag: u8, name: &str) -> Vec<u8> {
    let mut out = vec![tag];
    out.extend_from_slice(&(name.len() as u16).to_be_bytes());
    out.extend_from_slice(name.as_bytes());
    out
}

fn text(s: &str) -> Vec<u8> {
    let mut out = (s.len() as u16).to_be_bytes().to_vec();
    out.extend_from_slice(s.as_bytes());
    out
}

fn ticket_nbt(kind: &str, pos: &[i32]) -> Vec<u8> {
    let mut out = named(8, "type");
    out.extend_from_slice(&text(kind));
    out.extend_from_slice(&named(11, "chunk_pos"));
    out.extend_from_slice(&(pos.len() as i32).to_be_bytes());
    for p in pos {
        out.extend_from_slice(&p.to_be_bytes());
    }
    out.push(0);
    out
}

fn chunks_dat(forced: Option<&[i64]>, tickets: Option<&[Vec<u8>]>) -> Vec<u8> {
    let mut out = named(10, "");
    out.extend_from_slice(&named(3, "DataVersion"));
    out.extend_from_slice(&3700i32.to_be_bytes());
    out.extend_from_slice(&named(10, "data"));
    if let Some(longs) = forced {
        out.extend_from_slice(&named(12, "Forced"));
        out.extend_from_slice(&(longs.len() as i32).to_be_bytes());
        for l in longs {
            out.extend_from_slice(&l.to_be_bytes());
        }
    }
    if let Some(tickets) = tickets {
        out.extend_from_slice(&named(9, "tickets"));
        out.push(10);
        out.extend_from_slice(&(tickets.len() as i32).to_be_bytes());
        for t in tickets {
            out.extend_from_slice(t);
        }
    }
    out.push(0);
    out.push(0);
    out
}

fn field(name: &str, tag: Tag) -> (String, Tag) {
    (name.to_string(), tag)
}

fn ticket(kind: &str, pos: Vec<i32>) -> Tag {
    Tag::Compound(vec![
        field("type", Tag::Text(kind.to_string())),
        field("chunk_pos", Tag::Ints(pos)),
    ])
}

fn root(data: Vec<(String, Tag)>) -> Tag {
    Tag::Compound(vec![field("DataVersion", Tag::Other), field("data", Tag::Compound(data))])
}

#[test]
fn legacy_list_is_read_as_pairs() {
    let tree = root(vec![field("Forced", Tag::Longs(vec![1, -2, 3, 4]))]);
    assert_eq!(forced_chunks(&tree), vec![(1, -2), (3, 4)]);
}

#[test]
fn legacy_list_drops_a_number_left_over() {
    let tree = root(vec![field("Forced", Tag::Longs(vec![1, 2, 3]))]);
    assert_eq!(forced_chunks(&tree), vec![(1, 2)]);
    let tree = root(vec![field("Forced", Tag::Longs(vec![9]))]);
    assert_eq!(forced_chunks(&tree), Vec::new());
}

#[test]
fn legacy_numbers_are_cut_to_32_bits() {
    let tree = root(vec![field(
        "Forced",
        Tag::Longs(vec![0x1_0000_0005, -1, 0x8000_0000, 0x7FFF_FFFF_FFFF_FFFF]),
    )]);
    assert_eq!(forced_chunks(&tree), vec![(5, -1), (i32::MIN, -1)]);
}

#[test]
fn tickets_of_the_forced_type_are_read() {
    let tree = root(vec![field(
        "tickets",
        Tag::List(vec![
            ticket("minecraft:forced", vec![7, -8]),
            ticket("minecraft:portal", vec![1, 1]),
            ticket("minecraft:forced", vec![1, 2, 3]),
            ticket("minecraft:forced", vec![1]),
            Tag::Other,
            Tag::Compound(vec![field("type", Tag::Text("minecraft:forced".to_string()))]),
            Tag::Compound(vec![
                field("type", Tag::Ints(vec![0, 0])),
                field("chunk_pos", Tag::Ints(vec![0, 0])),
            ]),
            Tag::Compound(vec![
                field("type", Tag::Text("minecraft:forced".to_string())),
                field("chunk_pos", Tag::Longs(vec![0, 0])),
            ]),
            ticket("minecraft:forced", vec![9, 10]),
        ]),
    )]);
    assert_eq!(forced_chunks(&tree), vec![(7, -8), (9, 10)]);
}

#[test]
fn both_formats_are_collected_legacy_first() {
    let tree = root(vec![
        field("tickets", Tag::List(vec![ticket("minecraft:forced", vec![7, 8])])),
        field("Forced", Tag::Longs(vec![1, 2])),
    ]);
    assert_eq!(forced_chunks(&tree), vec![(1, 2), (7, 8)]);
}

#[test]
fn trees_of_another_shape_name_no_chunk() {
    assert_eq!(forced_chunks(&Tag::Other), Vec::new());
    assert_eq!(forced_chunks(&Tag::Compound(Vec::new())), Vec::new());
    assert_eq!(
        forced_chunks(&Tag::Compound(vec![field("data", Tag::List(Vec::new()))])),
        Vec::new()
    );
    assert_eq!(
        forced_chunks(&Tag::Compound(vec![field("Forced", Tag::Longs(vec![1, 2]))])),
        Vec::new()
    );
    let tree = root(vec![
        field("Forced", Tag::Ints(vec![1, 2])),
        field("tickets", Tag::Compound(Vec::new())),
    ]);
    assert_eq!(forced_chunks(&tree), Vec::new());
}

#[test]
fn ticket_file_is_unpacked_and_parsed() {
    let file = gzip(&chunks_dat(
        Some(&[1, -2, 0x1_0000_0003, 4]),
        Some(&[
            ticket_nbt("minecraft:forced", &[7, -8]),
            ticket_nbt("minecraft:portal", &[5, 5]),
        ]),
    ));
    assert_eq!(parse_force_loaded(&file), vec![(1, -2), (3, 4), (7, -8)]);
    let file = gzip(&chunks_dat(Some(&[10, 11]), None));
    assert_eq!(parse_force_loaded(&file), vec![(10, 11)]);
    let file = gzip(&chunks_dat(None, Some(&[ticket_nbt("minecraft:forced", &[0, 0])])));
    assert_eq!(parse_force_loaded(&file), vec![(0, 0)]);
}

#[test]
fn what_lies_deeper_than_a_ticket_is_passed_over() {
    let mut ticket = named(10, "owner");
    ticket.extend_from_slice(&named(10, "home"));
    ticket.extend_from_slice(&named(11, "chunk_pos"));
    ticket.extend_from_slice(&2i32.to_be_bytes());
    ticket.extend_from_slice(&100i32.to_be_bytes());
    ticket.extend_from_slice(&200i32.to_be_bytes());
    ticket.push(0);
    ticket.push(0);
    ticket.extend_from_slice(&ticket_nbt("minecraft:forced", &[3, -4]));
    let file = gzip(&chunks_dat(None, Some(&[ticket])));
    assert_eq!(parse_force_loaded(&file), vec![(3, -4)]);
}

#[test]
fn later_field_of_a_name_wins_in_a_ticket_file() {
    let mut ticket = named(8, "type");
    ticket.extend_from_slice(&text("minecraft:portal"));
    ticket.extend_from_slice(&ticket_nbt("minecraft:forced", &[5, 6]));
    let file = gzip(&chunks_dat(Some(&[1, 2]), Some(&[ticket])));
    assert_eq!(parse_force_loaded(&file), vec![(1, 2), (5, 6)]);
}

/// A ticket file with a chain of `levels` compounds, each inside the one
/// before, beside the legacy list.
fn nested_in_compounds(levels: usize) -> Vec<u8> {
    let mut out = named(10, "");
    out.extend_from_slice(&named(10, "data"));
    out.extend_from_slice(&named(12, "Forced"));
    out.extend_from_slice(&2i32.to_be_bytes());
    out.extend_from_slice(&1i64.to_be_bytes());
    out.extend_from_slice(&2i64.to_be_bytes());
    for _ in 0..levels {
        out.extend_from_slice(&named(10, "in"));
    }
    for _ in 0..levels {
        out.push(0);
    }
    out.push(0);
    out.push(0);
    out
}

/// A ticket file with a chain of `levels` lists, each the one item of the
/// list before, beside the legacy list.
fn nested_in_lists(levels: usize) -> Vec<u8> {
    let mut out = named(10, "");
    out.extend_from_slice(&named(10, "data"));
    out.extend_from_slice(&named(12, "Forced"));
    out.extend_from_slice(&2i32.to_be_bytes());
    out.extend_from_slice(&1i64.to_be_bytes());
    out.extend_from_slice(&2i64.to_be_bytes());
    out.extend_from_slice(&named(9, "in"));
    for _ in 1..levels {
        out.push(9);
        out.extend_from_slice(&1i32.to_be_bytes());
    }
    out.push(0);
    out.extend_from_slice(&0i32.to_be_bytes());
    out.push(0);
    out.push(0);
    out
}

#[test]
fn nesting_counts_what_lies_open_at_once() {
    assert!(nests_within(&[], 0));
    assert!(nests_within(&[10, 0, 0, 0], 1));
    assert!(!nests_within(&[10, 0, 0, 0], 0));
    let flat = chunks_dat(Some(&[1, 2]), Some(&[ticket_nbt("minecraft:forced", &[7, -8])]));
    assert!(nests_within(&flat, 4));
    assert!(!nests_within(&flat, 3));
    for levels in [1usize, 2, 7, 300] {
        for stream in [nested_in_compounds(levels), nested_in_lists(levels)] {
            assert!(nests_within(&stream, levels + 2));
            assert!(!nests_within(&stream, levels + 1));
        }
    }
}

#[test]
fn stream_that_breaks_off_counts_one_level_more() {
    let mut stream = nested_in_compounds(5);
    stream.truncate(stream.len() - 7);
    assert!(nests_within(&stream, 8));
    assert!(!nests_within(&stream, 7));
    assert!(nests_within(&[10, 0, 0], 2));
    assert!(!nests_within(&[10, 0, 0], 1));
    assert!(nests_within(&[10, 0], 0));
    assert!(nests_within(&[3, 0, 0, 0, 0, 0, 0], 0));
}

#[test]
fn ticket_file_is_parsed_down_to_the_deepest_nesting_allowed() {
    for stream in [nested_in_compounds(510), nested_in_lists(510)] {
        assert!(nests_within(&stream, 512));
        assert_eq!(parse_force_loaded(&gzip(&stream)), vec![(1, 2)]);
    }
}

#[test]
fn ticket_file_that_nests_deeper_names_no_chunk() {
    for stream in [nested_in_compounds(511), nested_in_lists(511)] {
        assert!(!nests_within(&stream, 512));
        assert_eq!(parse_force_loaded(&gzip(&stream)), Vec::new());
    }
    let deep = nested_in_lists(200_000);
    assert_eq!(parse_force_loaded(&gzip(&deep)), Vec::new());
}

#[test]
fn ticket_file_that_cannot_be_read_names_no_chunk() {
    assert_eq!(parse_force_loaded(&[]), Vec::new());
    assert_eq!(parse_force_loaded(b"no gzip stream"), Vec::new());
    assert_eq!(parse_force_loaded(&gzip(b"no tag tree")), Vec::new());
    assert_eq!(parse_force_loaded(&chunks_dat(Some(&[1, 2]), None)), Vec::new());
    let mut cut = chunks_dat(Some(&[1, 2]), None);
    cut.truncate(cut.len() - 6);
    assert_eq!(parse_force_loaded(&gzip(&cut)), Vec::new());
}
