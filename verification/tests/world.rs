use rust_thanos::mca::entry::McaEntry;
use rust_thanos::mca::reader::{McaReader, ReaderError};
use rust_thanos::mca::writer::McaWriter;
use rust_thanos::patterns::list::ListPattern;
use rust_thanos::patterns::Pattern;
use rust_thanos::world::region::{process_region, RegionSkip};
use rust_thanos::world::{
    count_chunks, is_stale, keep_chain, next_report, percent_done, seconds_to_ticks, ProgressMode,
};

fn chunk(inhabited: i64, filler: usize) -> Vec<u8> {
    let mut data = b"\x04\x00\x0dInhabitedTime".to_vec();
    data.extend_from_slice(&inhabited.to_be_bytes());
    data.extend_from_slice(&vec![0x55u8; filler]);
    let mut file = Vec::new();
    file.extend_from_slice(&((data.len() + 1) as u32).to_be_bytes());
    file.push(3);
    file.extend_from_slice(&data);
    file
}

fn region(slots: &[(u32, u32, Vec<u8>)]) -> Vec<u8> {
    let mut w = McaWriter::open();
    for (index, stamp, bytes) in slots {
        w.write_entry(&McaEntry::new(bytes, 0, bytes.len(), *index, *stamp, 0, 0))
            .unwrap();
    }
    w.finalize()
}

fn word(file: &[u8], at: usize) -> u32 {
    u32::from_be_bytes([file[at], file[at + 1], file[at + 2], file[at + 3]])
}

fn populated(file: &[u8]) -> Vec<u32> {
    (0..1024u32)
        .filter(|i| word(file, *i as usize * 4) != 0)
        .collect()
}

#[test]
fn kept_chunk_is_the_only_slot_of_the_output() {
    let input = region(&[(0, 0, chunk(42, 0))]);
    let chain = keep_chain(Vec::new(), 10, false);
    let out = process_region("r.0.0.mca", &input, None, None, &chain).unwrap();
    assert_eq!(populated(&out.region), vec![0]);
    assert_eq!((out.kept, out.removed), (1, 0));
    assert_eq!(out.region, input);
    assert!(out.entities.is_none());
    assert!(out.poi.is_none());
}

#[test]
fn removed_chunk_leaves_two_empty_tables() {
    let input = region(&[(0, 0, chunk(42, 0))]);
    let chain = keep_chain(Vec::new(), 100, true);
    let out = process_region("r.0.0.mca", &input, None, None, &chain).unwrap();
    assert_eq!(populated(&out.region), Vec::<u32>::new());
    assert_eq!(out.region.len(), 8192);
    assert_eq!(out.region, vec![0u8; 8192]);
    assert_eq!((out.kept, out.removed), (0, 1));
}

#[test]
fn chunk_at_the_threshold_is_kept() {
    let input = region(&[(0, 0, chunk(42, 0))]);
    for remove_unknown in [false, true] {
        let chain = keep_chain(Vec::new(), 42, remove_unknown);
        let out = process_region("r.0.0.mca", &input, None, None, &chain).unwrap();
        assert_eq!(populated(&out.region), vec![0]);
    }
    let chain = keep_chain(Vec::new(), 43, true);
    let out = process_region("r.0.0.mca", &input, None, None, &chain).unwrap();
    assert_eq!(populated(&out.region), Vec::<u32>::new());
}

#[test]
fn output_is_repacked_without_gaps_and_keeps_bytes_and_timestamps() {
    let a = chunk(5, 10);
    let b = chunk(500, 5000);
    let c = chunk(1, 3);
    let d = chunk(900, 100);
    let input = region(&[
        (10, 111, a.clone()),
        (20, 222, b.clone()),
        (30, 333, c.clone()),
        (1023, 444, d.clone()),
    ]);
    let chain = keep_chain(Vec::new(), 100, true);
    let out = process_region("r.0.0.mca", &input, None, None, &chain).unwrap();
    let file = &out.region;
    assert_eq!((out.kept, out.removed), (2, 2));
    assert_eq!(populated(file), vec![20, 1023]);
    assert_eq!(file.len() % 4096, 0);
    assert_eq!(file.len(), (2 + 2 + 1) * 4096);
    assert_eq!(word(file, 20 * 4), (2 << 8) | 2);
    assert_eq!(word(file, 1023 * 4), (4 << 8) | 1);
    assert_eq!(word(file, 4096 + 20 * 4), 222);
    assert_eq!(word(file, 4096 + 1023 * 4), 444);
    for gone in [10usize, 30] {
        assert_eq!(word(file, gone * 4), 0);
        assert_eq!(word(file, 4096 + gone * 4), 0);
    }
    assert_eq!(&file[2 * 4096..2 * 4096 + b.len()], &b[..]);
    assert_eq!(&file[4 * 4096..4 * 4096 + d.len()], &d[..]);
    let mut reader = McaReader::open("r.0.0.mca", file).unwrap();
    let entries = reader.entries().unwrap();
    assert_eq!(entries[0].serialized_bytes().unwrap(), b);
    assert_eq!(entries[1].serialized_bytes().unwrap(), d);
}

#[test]
fn force_loaded_chunk_is_kept_whatever_its_time() {
    let input = region(&[(0, 0, chunk(1, 0)), (33, 0, chunk(1, 0)), (34, 0, chunk(1, 0))]);
    // Region (2, -1): slot 33 is chunk (65, -31).
    let chain = keep_chain(vec![(65, -31)], 1000, true);
    let out = process_region("world/region/r.2.-1.mca", &input, None, None, &chain).unwrap();
    assert_eq!(populated(&out.region), vec![33]);
    assert_eq!((out.kept, out.removed), (1, 2));
}

#[test]
fn entities_and_poi_follow_the_region() {
    let input = region(&[
        (1, 0, chunk(500, 0)),
        (2, 0, chunk(5, 0)),
        (3, 0, chunk(500, 0)),
        (4, 0, chunk(500, 0)),
    ]);
    let near = b"\x00\x00\x00\x03\x03na".to_vec();
    let gone = b"\x00\x00\x00\x03\x03go".to_vec();
    let far = b"\x00\x00\x00\x03\x03fa".to_vec();
    let lone = b"\x00\x00\x00\x03\x03lo".to_vec();
    let entities = region(&[(9, 9, lone), (4, 4, far.clone()), (2, 2, gone), (1, 1, near.clone())]);
    let spot = b"\x00\x00\x00\x03\x03sp".to_vec();
    let poi = region(&[(3, 7, spot.clone())]);
    let chain = keep_chain(Vec::new(), 100, true);
    let out = process_region("r.0.0.mca", &input, Some(&entities), Some(&poi), &chain).unwrap();
    assert_eq!(populated(&out.region), vec![1, 3, 4]);
    let ents = out.entities.unwrap();
    assert_eq!(populated(&ents), vec![1, 4]);
    assert_eq!(&ents[2 * 4096..2 * 4096 + 7], &near[..]);
    assert_eq!(&ents[3 * 4096..3 * 4096 + 7], &far[..]);
    assert_eq!(word(&ents, 4096 + 4), 1);
    assert_eq!(word(&ents, 4096 + 16), 4);
    assert_eq!(ents.len(), 4 * 4096);
    let pois = out.poi.unwrap();
    assert_eq!(populated(&pois), vec![3]);
    assert_eq!(&pois[2 * 4096..2 * 4096 + 7], &spot[..]);
    assert_eq!(word(&pois, 4096 + 12), 7);
}

#[test]
fn short_file_beside_the_region_counts_as_absent() {
    let input = region(&[(1, 0, chunk(500, 0))]);
    let short = vec![0u8; 8191];
    let empty = vec![0u8; 8192];
    let chain = keep_chain(Vec::new(), 100, true);
    let out = process_region("r.0.0.mca", &input, Some(&short), Some(&empty), &chain).unwrap();
    assert!(out.entities.is_none());
    assert_eq!(out.poi, Some(vec![0u8; 8192]));
}

#[test]
fn kept_chunk_that_cannot_be_read_is_left_out_of_every_file() {
    let mut input = region(&[(0, 0, chunk(500, 0)), (1, 0, chunk(500, 0))]);
    // Spoil the method byte of slot 0, which lies at sector 2.
    input[8192 + 4] = 99;
    let entities = region(&[(0, 5, b"\x00\x00\x00\x03\x03en".to_vec())]);
    let chain = keep_chain(vec![(0, 0)], 100, true);
    let out = process_region("r.0.0.mca", &input, Some(&entities), None, &chain).unwrap();
    assert_eq!((out.kept, out.removed), (2, 0));
    assert_eq!(populated(&out.region), vec![1]);
    assert_eq!(word(&out.region, 4), (2 << 8) | 1);
    // What lies beside a chunk that was not copied is not copied either.
    assert_eq!(out.entities, Some(vec![0u8; 8192]));
    assert_eq!(out.uncopied, vec![0]);
    assert_eq!(out.unjudged, Vec::<u32>::new());
    assert_eq!(out.entities_uncopied, Vec::<u32>::new());
    assert_eq!(out.poi_uncopied, Vec::<u32>::new());
}

#[test]
fn chunks_that_cannot_be_judged_or_copied_are_handed_back() {
    let mut input = region(&[
        (3, 0, chunk(500, 0)),
        (5, 0, chunk(500, 0)),
        (9, 0, chunk(500, 0)),
        (700, 0, chunk(500, 0)),
    ]);
    // Spoil the method bytes of slots 5 and 700, at sectors 3 and 5.
    input[3 * 4096 + 4] = 99;
    input[5 * 4096 + 4] = 98;
    let mut entities = region(&[
        (3, 0, b"\x00\x00\x00\x03\x03aa".to_vec()),
        (9, 0, b"\x00\x00\x00\x03\x03bb".to_vec()),
        (700, 0, b"\x00\x00\x00\x03\x03cc".to_vec()),
    ]);
    // Spoil the method byte of the entities slot 9, at sector 3.
    entities[3 * 4096 + 4] = 97;
    // Chunk (28, 21) is slot 700 of region (0, 0).
    let chain = keep_chain(vec![(28, 21)], 100, true);
    let out = process_region("r.0.0.mca", &input, Some(&entities), None, &chain).unwrap();
    assert_eq!((out.kept, out.removed), (3, 1));
    assert_eq!(populated(&out.region), vec![3, 9]);
    assert_eq!(out.unjudged, vec![5]);
    assert_eq!(out.uncopied, vec![700]);
    assert_eq!(out.entities_uncopied, vec![9]);
    assert_eq!(out.poi_uncopied, Vec::<u32>::new());
    assert_eq!(populated(&out.entities.unwrap()), vec![3]);
}

#[test]
fn slots_beside_the_region_are_among_those_of_the_region() {
    let mut input = region(&[
        (1, 0, chunk(500, 0)),
        (2, 0, chunk(5, 0)),
        (3, 0, chunk(500, 0)),
        (4, 0, chunk(500, 0)),
    ]);
    // Slot 4, at sector 5, cannot be read; it is kept as force-loaded.
    input[5 * 4096 + 4] = 0;
    let beside = region(&[
        (1, 0, b"\x00\x00\x00\x03\x03aa".to_vec()),
        (2, 0, b"\x00\x00\x00\x03\x03bb".to_vec()),
        (4, 0, b"\x00\x00\x00\x03\x03cc".to_vec()),
        (5, 0, b"\x00\x00\x00\x03\x03dd".to_vec()),
    ]);
    let chain = keep_chain(vec![(4, 0)], 100, true);
    let out =
        process_region("r.0.0.mca", &input, Some(&beside), Some(&beside), &chain).unwrap();
    let kept = populated(&out.region);
    assert_eq!(kept, vec![1, 3]);
    for file in [out.entities.unwrap(), out.poi.unwrap()] {
        let slots = populated(&file);
        assert_eq!(slots, vec![1]);
        assert!(slots.iter().all(|i| kept.contains(i)));
    }
}

#[test]
fn chain_of_any_predicates_trims_a_region() {
    let input = region(&[(0, 0, chunk(1, 0)), (1, 0, chunk(1, 0))]);
    let chain = vec![Pattern::List(ListPattern::new(vec![(1, 0)]))];
    let out = process_region("r.0.0.mca", &input, None, None, &chain).unwrap();
    assert_eq!(populated(&out.region), vec![1]);
    let none: Vec<Pattern> = Vec::new();
    let out = process_region("r.0.0.mca", &input, None, None, &none).unwrap();
    assert_eq!((out.kept, out.removed), (0, 2));
    assert_eq!(out.region, vec![0u8; 8192]);
}

#[test]
fn region_is_passed_over_for_its_length_or_its_name() {
    let chain = keep_chain(Vec::new(), 0, false);
    let file = vec![0u8; 8192];
    assert_eq!(
        process_region("r.0.0.mca", &file[..8191], None, None, &chain).err(),
        Some(RegionSkip::TooShort)
    );
    assert_eq!(
        process_region("region.mca", &file[..100], None, None, &chain).err(),
        Some(RegionSkip::TooShort)
    );
    assert_eq!(
        process_region("region.mca", &file, None, None, &chain).err(),
        Some(RegionSkip::Name(ReaderError::InvalidName))
    );
    assert_eq!(
        process_region("r.0.4294967296.mca", &file, None, None, &chain).err(),
        Some(RegionSkip::Name(ReaderError::CoordinateOutOfRange))
    );
    assert!(process_region("r.0.0.mca", &file, None, None, &chain).is_ok());
}

#[test]
fn chain_asks_the_list_first_and_the_time_second() {
    let chain = keep_chain(vec![(1, 2)], 600, true);
    assert_eq!(chain.len(), 2);
    assert!(matches!(chain[0], Pattern::List(_)));
    assert!(matches!(chain[1], Pattern::Inhabited(_)));
}

#[test]
fn chunks_are_counted_per_region_file() {
    let input = region(&[(0, 0, chunk(1, 0)), (7, 0, chunk(1, 0)), (9, 0, chunk(1, 0))]);
    assert_eq!(count_chunks("r.0.0.mca", &input), 3);
    assert_eq!(count_chunks("r.0.mca", &input), 0);
    assert_eq!(count_chunks("r.0.0.mca", &input[..8000]), 0);
    assert_eq!(count_chunks("r.0.0.mca", &vec![0u8; 8192]), 0);
}

#[test]
fn seconds_become_ticks_or_overflow() {
    assert_eq!(seconds_to_ticks(300), Some(6000));
    assert_eq!(seconds_to_ticks(0), Some(0));
    assert_eq!(seconds_to_ticks(-2), Some(-40));
    assert_eq!(seconds_to_ticks(i64::MAX / 20), Some(i64::MAX / 20 * 20));
    assert_eq!(seconds_to_ticks(i64::MAX / 20 + 1), None);
    assert_eq!(seconds_to_ticks(i64::MIN / 20), Some(i64::MIN / 20 * 20));
    assert_eq!(seconds_to_ticks(i64::MIN / 20 - 1), None);
}

#[test]
fn progress_is_whole_percent_and_reported_when_it_rises() {
    assert_eq!(percent_done(0, 200), 0);
    assert_eq!(percent_done(1, 200), 0);
    assert_eq!(percent_done(2, 200), 1);
    assert_eq!(percent_done(199, 200), 99);
    assert_eq!(percent_done(200, 200), 100);
    assert_eq!(percent_done(3, 0), 300);
    assert_eq!(next_report(0, 1, 200), None);
    assert_eq!(next_report(0, 2, 200), Some(1));
    assert_eq!(next_report(1, 3, 200), None);
    assert_eq!(next_report(99, 200, 200), Some(100));
    assert_eq!(next_report(100, 200, 200), None);
}

#[test]
fn stale_files_are_those_that_were_not_written() {
    let written = vec!["r.0.0.mca".to_string(), "r.1.0.mca".to_string()];
    assert!(!is_stale(&"r.0.0.mca".to_string(), &written));
    assert!(!is_stale(&"r.1.0.mca".to_string(), &written));
    assert!(is_stale(&"r.0.1.mca".to_string(), &written));
    assert!(is_stale(&"r.0.0.mca".to_string(), &Vec::new()));
}

#[test]
fn progress_modes_are_three() {
    let modes = [ProgressMode::Off, ProgressMode::Global, ProgressMode::Region];
    assert_ne!(modes[0], modes[1]);
    assert_ne!(modes[1], modes[2]);
    assert_ne!(modes[0], modes[2]);
}
