use rust_thanos::mca::entry::McaEntry;
use rust_thanos::patterns::inhabited::{find_inhabited_fast, find_long, InhabitedTimePattern};
use rust_thanos::patterns::ChunkPattern;

fn tagged(name: &[u8], value: i64) -> Vec<u8> {
    let mut out = vec![0x04u8];
    out.extend_from_slice(&(name.len() as u16).to_be_bytes());
    out.extend_from_slice(name);
    out.extend_from_slice(&value.to_be_bytes());
    out
}

#[test]
fn scan_inhabited_long() {
    let mut data = Vec::new();
    data.extend_from_slice(b"\x04\x00\x0eInhabitedTime\x00\x00\x00\x00\x00\x00\x00\x2a");
    let mut file = Vec::new();
    file.extend_from_slice(&((data.len() + 1) as u32).to_be_bytes());
    file.push(3);
    file.extend_from_slice(&data);
    let entry = McaEntry::new(&file, 0, data.len(), 0, 0, 0, 0);
    let pattern = InhabitedTimePattern::new(10, false);
    assert!(!data.is_empty());
    // The length bytes above say 14 for a name of 13 bytes, so no field of
    // that name is found, and the chunk counts as one whose time is unknown.
    assert_eq!(find_inhabited_fast(&data), None);
    assert_eq!(pattern.matches(&entry), Ok(true));
    assert_eq!(InhabitedTimePattern::new(10, true).matches(&entry), Ok(false));
}

#[test]
fn scanner_reads_the_value_behind_the_tag_header() {
    for value in [0i64, 42, -1, i64::MAX, i64::MIN, 0x0102_0304_0506_0708] {
        let payload = tagged(b"InhabitedTime", value);
        assert_eq!(payload[..3], [0x04, 0x00, 0x0D]);
        assert_eq!(find_long(&payload, b"InhabitedTime"), Some(value));
        assert_eq!(find_inhabited_fast(&payload), Some(value));
    }
}

#[test]
fn scanner_finds_the_first_occurrence() {
    let mut payload = b"\x0a\x00\x00junk".to_vec();
    payload.extend_from_slice(&tagged(b"InhabitedTime", 7));
    payload.extend_from_slice(b"between");
    payload.extend_from_slice(&tagged(b"InhabitedTime", 8));
    payload.push(0);
    assert_eq!(find_inhabited_fast(&payload), Some(7));
}

#[test]
fn scanner_finds_nothing_without_the_header() {
    assert_eq!(find_inhabited_fast(&[]), None);
    assert_eq!(find_inhabited_fast(b"InhabitedTime"), None);
    assert_eq!(find_inhabited_fast(&tagged(b"inhabitedTime", 1)), None);
    assert_eq!(find_inhabited_fast(&tagged(b"InhabitedTim", 1)), None);
    let mut int_tag = tagged(b"InhabitedTime", 1);
    int_tag[0] = 0x03;
    assert_eq!(find_inhabited_fast(&int_tag), None);
}

#[test]
fn scanner_needs_eight_bytes_behind_the_header() {
    let mut payload = tagged(b"InhabitedTime", 5);
    payload.pop();
    assert_eq!(find_inhabited_fast(&payload), None);
    payload.push(0);
    payload.push(0);
    assert_eq!(find_inhabited_fast(&payload), Some(5 & !0xFF));
}

#[test]
fn scanner_takes_any_name() {
    let mut payload = tagged(b"LastUpdate", 99);
    payload.extend_from_slice(&tagged(b"", -3));
    assert_eq!(find_long(&payload, b"LastUpdate"), Some(99));
    assert_eq!(find_long(&payload, b""), Some(-3));
    assert_eq!(find_long(&payload, b"InhabitedTime"), None);
    let long_name = vec![b'n'; 0x1_0000];
    assert_eq!(find_long(&payload, &long_name), None);
    let name = vec![b'n'; 0x0102];
    let payload = tagged(&name, 4);
    assert_eq!(payload[..3], [0x04, 0x01, 0x02]);
    assert_eq!(find_long(&payload, &name), Some(4));
}
