use rust_thanos::world::keep_chain;
use rust_thanos::world::region::{is_valid_mca, process_region, RegionSkip};

#[test]
fn tiny_mca_is_skipped_without_error() {
    // a tiny file (<8192 bytes)
    let tiny = vec![0u8; 100];
    assert!(!is_valid_mca(tiny.len() as u64));
    let chain = keep_chain(Vec::new(), 0, false);
    let out = process_region("region/r.0.0.mca", &tiny, None, None, &chain);
    // Should complete, and produce no file
    assert_eq!(out.err(), Some(RegionSkip::TooShort));
}
