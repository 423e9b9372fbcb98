use rust_thanos::mca::entry::{EntryError, McaEntry};
use rust_thanos::patterns::inhabited::InhabitedTimePattern;
use rust_thanos::patterns::list::ListPattern;
use rust_thanos::patterns::range::RangePattern;
use rust_thanos::patterns::{evaluate, ChunkPattern, Pattern, Verdict};

fn chunk(method: u8, inhabited: i64) -> Vec<u8> {
    let mut data = b"\x0a\x00\x00\x04\x00\x0dInhabitedTime".to_vec();
    data.extend_from_slice(&inhabited.to_be_bytes());
    data.push(0);
    let mut file = Vec::new();
    file.extend_from_slice(&((data.len() + 1) as u32).to_be_bytes());
    file.push(method);
    file.extend_from_slice(&data);
    file
}

#[test]
fn list_keeps_the_listed_coordinates() {
    let file = chunk(3, 0);
    let p = ListPattern::new(vec![(5, 5), (33, -63), (0, 0)]);
    // Slot 33 of region (1, -2) is chunk (33, -63).
    assert_eq!(p.matches(&McaEntry::new(&file, 0, 0, 33, 0, 1, -2)), Ok(true));
    assert_eq!(p.matches(&McaEntry::new(&file, 0, 0, 0, 0, 0, 0)), Ok(true));
    assert_eq!(p.matches(&McaEntry::new(&file, 0, 0, 34, 0, 1, -2)), Ok(false));
    assert_eq!(p.matches(&McaEntry::new(&file, 0, 0, 33, 0, -2, 1)), Ok(false));
    assert_eq!(
        ListPattern::new(Vec::new()).matches(&McaEntry::new(&file, 0, 0, 0, 0, 0, 0)),
        Ok(false)
    );
}

#[test]
fn list_never_reads_the_payload() {
    let broken = [0xFFu8; 3];
    let p = ListPattern::new(vec![(1, 0)]);
    assert_eq!(p.matches(&McaEntry::new(&broken, 0, 0, 1, 0, 0, 0)), Ok(true));
}

#[test]
fn list_does_not_take_far_chunks_for_near_ones() {
    let file = chunk(3, 0);
    // Chunk 2147483647 * 32 + 31 lies beyond 32 bits; cut to 32 bits it
    // would read as -1.
    let p = ListPattern::new(vec![(-1, 0)]);
    assert_eq!(
        p.matches(&McaEntry::new(&file, 0, 0, 31, 0, i32::MAX, 0)),
        Ok(false)
    );
}

#[test]
fn range_keeps_the_rectangle_with_its_borders() {
    let file = chunk(3, 0);
    let p = RangePattern::new(10, -5, 2, -20);
    let at = |index: u32, rx: i32, rz: i32| p.matches(&McaEntry::new(&file, 0, 0, index, 0, rx, rz));
    // Region (0, -1) holds chunks x 0..31, z -32..-1; slot z * 32 + x.
    assert_eq!(at(27 * 32 + 2, 0, -1), Ok(true)); // (2, -5)
    assert_eq!(at(12 * 32 + 10, 0, -1), Ok(true)); // (10, -20)
    assert_eq!(at(20 * 32 + 6, 0, -1), Ok(true)); // (6, -12)
    assert_eq!(at(27 * 32 + 1, 0, -1), Ok(false)); // (1, -5)
    assert_eq!(at(27 * 32 + 11, 0, -1), Ok(false)); // (11, -5)
    assert_eq!(at(28 * 32 + 5, 0, -1), Ok(false)); // (5, -4)
    assert_eq!(at(11 * 32 + 5, 0, -1), Ok(false)); // (5, -21)
}

#[test]
fn threshold_keeps_from_equality_on() {
    let file = chunk(3, 42);
    let e = McaEntry::new(&file, 0, 0, 0, 0, 0, 0);
    for remove_unknown in [false, true] {
        assert_eq!(InhabitedTimePattern::new(41, remove_unknown).matches(&e), Ok(true));
        assert_eq!(InhabitedTimePattern::new(42, remove_unknown).matches(&e), Ok(true));
        assert_eq!(InhabitedTimePattern::new(43, remove_unknown).matches(&e), Ok(false));
        assert_eq!(InhabitedTimePattern::new(i64::MIN, remove_unknown).matches(&e), Ok(true));
    }
}

#[test]
fn unknown_time_follows_remove_unknown() {
    let external = chunk(130, 1000);
    let empty = [0u8, 0, 0, 1, 3];
    let nameless = [0u8, 0, 0, 4, 3, 1, 2, 3];
    for file in [&external[..], &empty[..], &nameless[..]] {
        let e = McaEntry::new(file, 0, 0, 0, 0, 0, 0);
        assert_eq!(InhabitedTimePattern::new(0, false).matches(&e), Ok(true));
        assert_eq!(InhabitedTimePattern::new(0, true).matches(&e), Ok(false));
    }
}

#[test]
fn unreadable_chunk_is_an_error() {
    let file = chunk(77, 42);
    let e = McaEntry::new(&file, 0, 0, 0, 0, 0, 0);
    assert_eq!(
        InhabitedTimePattern::new(0, false).matches(&e),
        Err(EntryError::UnknownCompression(77))
    );
    let zlib = chunk(2, 42);
    let e = McaEntry::new(&zlib, 0, 0, 0, 0, 0, 0);
    assert_eq!(InhabitedTimePattern::new(0, false).matches(&e), Err(EntryError::Inflate));
}

#[test]
fn chain_stops_at_the_first_predicate_that_keeps() {
    let file = chunk(3, 42);
    let e = McaEntry::new(&file, 0, 0, 0, 0, 0, 0);
    let chain = vec![
        Pattern::List(ListPattern::new(vec![(0, 0)])),
        Pattern::Inhabited(InhabitedTimePattern::new(100, true)),
        Pattern::Range(RangePattern::new(0, 0, 1, 1)),
    ];
    assert_eq!(evaluate(&chain, &e), Verdict { keep: true, evaluated: 1, failed: 0 });
    let chain = vec![
        Pattern::List(ListPattern::new(vec![(9, 9)])),
        Pattern::Inhabited(InhabitedTimePattern::new(10, true)),
        Pattern::Range(RangePattern::new(0, 0, 1, 1)),
    ];
    assert_eq!(evaluate(&chain, &e), Verdict { keep: true, evaluated: 2, failed: 0 });
    let chain = vec![
        Pattern::List(ListPattern::new(vec![(9, 9)])),
        Pattern::Inhabited(InhabitedTimePattern::new(100, true)),
        Pattern::Range(RangePattern::new(0, 0, 1, 1)),
    ];
    assert_eq!(evaluate(&chain, &e), Verdict { keep: true, evaluated: 3, failed: 0 });
    let chain = vec![
        Pattern::List(ListPattern::new(vec![(9, 9)])),
        Pattern::Inhabited(InhabitedTimePattern::new(100, true)),
        Pattern::Range(RangePattern::new(5, 5, 6, 6)),
    ];
    assert_eq!(evaluate(&chain, &e), Verdict { keep: false, evaluated: 3, failed: 0 });
    let none: Vec<Pattern> = Vec::new();
    assert_eq!(evaluate(&none, &e), Verdict { keep: false, evaluated: 0, failed: 0 });
}

#[test]
fn failing_predicate_counts_as_one_that_does_not_keep() {
    let file = chunk(77, 42);
    let e = McaEntry::new(&file, 0, 0, 0, 0, 0, 0);
    let chain = vec![
        Pattern::Inhabited(InhabitedTimePattern::new(0, false)),
        Pattern::List(ListPattern::new(vec![(0, 0)])),
    ];
    assert_eq!(evaluate(&chain, &e), Verdict { keep: true, evaluated: 2, failed: 1 });
    let chain = vec![
        Pattern::List(ListPattern::new(vec![(0, 0)])),
        Pattern::Inhabited(InhabitedTimePattern::new(0, false)),
    ];
    assert_eq!(evaluate(&chain, &e), Verdict { keep: true, evaluated: 1, failed: 0 });
    let chain = vec![Pattern::Inhabited(InhabitedTimePattern::new(0, false))];
    assert_eq!(evaluate(&chain, &e), Verdict { keep: false, evaluated: 1, failed: 1 });
}

#[test]
fn chain_of_one_kind_needs_no_wrapper() {
    let file = chunk(3, 42);
    let e = McaEntry::new(&file, 0, 0, 0, 0, 0, 0);
    let chain = [
        InhabitedTimePattern::new(50, true),
        InhabitedTimePattern::new(40, true),
        InhabitedTimePattern::new(30, true),
    ];
    assert_eq!(evaluate(&chain, &e), Verdict { keep: true, evaluated: 2, failed: 0 });
}
