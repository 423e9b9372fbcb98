use rust_thanos::mca::reader::{McaReader, ReaderError};

fn region_with(words: &[(usize, u32, u32)], len: usize) -> Vec<u8> {
    let mut file = vec![0u8; len];
    for (slot, location, stamp) in words {
        file[slot * 4..slot * 4 + 4].copy_from_slice(&location.to_be_bytes());
        file[4096 + slot * 4..4096 + slot * 4 + 4].copy_from_slice(&stamp.to_be_bytes());
    }
    file
}

#[test]
fn coordinates_come_from_the_name() {
    let file = vec![0u8; 8192];
    let r = McaReader::open("r.0.0.mca", &file).unwrap();
    assert_eq!((r.x_pos(), r.z_pos()), (0, 0));
    let r = McaReader::open("/some/world/region/r.-12.34.mca", &file).unwrap();
    assert_eq!((r.x_pos(), r.z_pos()), (-12, 34));
    let r = McaReader::open("r.007.-0.mca", &file).unwrap();
    assert_eq!((r.x_pos(), r.z_pos()), (7, 0));
    let r = McaReader::open("r.2147483647.-2147483648.mca", &file).unwrap();
    assert_eq!((r.x_pos(), r.z_pos()), (i32::MAX, i32::MIN));
    let r = McaReader::open("xr.1.2.mca", &file).unwrap();
    assert_eq!((r.x_pos(), r.z_pos()), (1, 2));
    let r = McaReader::open("r.9.9.r.3.4.mca", &file).unwrap();
    assert_eq!((r.x_pos(), r.z_pos()), (3, 4));
}

#[test]
fn other_names_are_rejected() {
    let file = vec![0u8; 8192];
    for name in [
        "",
        ".mca",
        "r.0.0.mcx",
        "r.0.0.mca.bak",
        "r.0.mca",
        "r..0.mca",
        "r.0..mca",
        "r.a.0.mca",
        "r.0.b.mca",
        "r.+1.0.mca",
        "r.--1.0.mca",
        "r.1-.0.mca",
        "r.-.0.mca",
        "s.0.0.mca",
        "r0.0.mca",
        "r.0.0mca",
        "0.0.mca",
        "r.0.0.MCA",
    ] {
        assert_eq!(
            McaReader::open(name, &file).err(),
            Some(ReaderError::InvalidName),
            "{}",
            name
        );
    }
}

#[test]
fn coordinates_beyond_32_bits_are_rejected() {
    let file = vec![0u8; 8192];
    for name in [
        "r.2147483648.0.mca",
        "r.0.-2147483649.mca",
        "r.99999999999999999999999999.0.mca",
    ] {
        assert_eq!(
            McaReader::open(name, &file).err(),
            Some(ReaderError::CoordinateOutOfRange),
            "{}",
            name
        );
    }
}

#[test]
fn empty_tables_list_no_entry() {
    let file = vec![0u8; 8192];
    let mut r = McaReader::open("r.0.0.mca", &file).unwrap();
    assert_eq!(r.entries().unwrap().len(), 0);
    for i in [0usize, 1, 512, 1023] {
        assert!(r.get(i).unwrap().is_none());
    }
}

#[test]
fn short_file_has_no_tables() {
    let file = vec![0u8; 8191];
    let mut r = McaReader::open("r.0.0.mca", &file).unwrap();
    assert_eq!(r.entries().err(), Some(ReaderError::ShortHeader));
    assert_eq!(r.get(0).err(), Some(ReaderError::ShortHeader));
    let empty: Vec<u8> = Vec::new();
    let mut r = McaReader::open("r.0.0.mca", &empty).unwrap();
    assert_eq!(r.entries().err(), Some(ReaderError::ShortHeader));
}

#[test]
fn entries_are_the_slots_with_a_word_that_is_not_zero_by_rising_index() {
    let file = region_with(
        &[
            (1023, (5 << 8) | 1, 30),
            (0, (2 << 8) | 1, 10),
            (40, (3 << 8) | 2, 20),
            (7, 3 << 8, 99),
            (8, 4, 98),
            (9, 0, 97),
        ],
        6 * 4096,
    );
    let mut r = McaReader::open("r.3.-4.mca", &file).unwrap();
    let entries = r.entries().unwrap();
    let found: Vec<(u32, u32, i64, i64)> = entries
        .iter()
        .map(|e| (e.region_index(), e.modified_time(), e.global_x(), e.global_z()))
        .collect();
    assert_eq!(
        found,
        vec![
            (0, 10, 96, -128),
            (7, 99, 103, -128),
            (8, 98, 104, -128),
            (40, 20, 104, -127),
            (1023, 30, 127, -97)
        ]
    );
    assert!(r.get(9).unwrap().is_none());
    assert!(r.get(1).unwrap().is_none());
    assert_eq!(r.get(7).unwrap().unwrap().region_index(), 7);
    assert_eq!(r.get(8).unwrap().unwrap().modified_time(), 98);
    assert_eq!(r.get(40).unwrap().unwrap().region_index(), 40);
    assert_eq!(r.entries().unwrap().len(), 5);
}

#[test]
fn entry_reads_at_the_sector_that_the_location_word_names() {
    let mut file = region_with(&[(5, (3 << 8) | 1, 0)], 4 * 4096);
    file[3 * 4096..3 * 4096 + 8].copy_from_slice(&[0, 0, 0, 4, 3, b'a', b'b', b'c']);
    let mut r = McaReader::open("r.0.0.mca", &file).unwrap();
    let e = r.get(5).unwrap().unwrap();
    assert_eq!(e.serialized_bytes().unwrap(), vec![0, 0, 0, 4, 3, b'a', b'b', b'c']);
    assert_eq!(e.all_data_uncompressed().unwrap(), b"abc".to_vec());
}

#[test]
fn largest_sector_number_does_not_wrap() {
    let file = region_with(&[(0, 0xFFFF_FF01, 0)], 8192);
    let mut r = McaReader::open("r.0.0.mca", &file).unwrap();
    let entries = r.entries().unwrap();
    assert_eq!(entries.len(), 1);
    assert!(entries[0].read_header().is_err());
}
