use mapq_pipeline::error::PipelineError;
use mapq_pipeline::region::{RegionEntry, RegionIndex};

fn entry(key: &str, start: u64, end: u64) -> RegionEntry {
    RegionEntry { key: key.to_string(), start, end }
}

fn build(entries: Vec<RegionEntry>) -> RegionIndex {
    match RegionIndex::build(&entries) {
        Ok(index) => index,
        Err(error) => panic!("unexpected error: {:?}", error),
    }
}

#[test]
fn single_region_overlap_and_miss() {
    let index = build(vec![entry("chr1", 100, 200)]);
    assert!(index.overlaps("chr1", 150, 160));
    assert!(!index.overlaps("chr1", 300, 310));
}

#[test]
fn empty_source_overlaps_nothing() {
    let index = build(Vec::new());
    assert_eq!(index.key_count(), 0);
    assert!(!index.contains_key("chr1"));
    assert!(!index.overlaps("chr1", 0, u64::MAX));
    assert!(!index.overlaps("", 0, 1));
    assert!(!index.overlaps("chr1", 150, 160));
}

#[test]
fn absent_key_is_no_overlap() {
    let index = build(vec![entry("chr1", 100, 200)]);
    assert!(!index.overlaps("chr2", 150, 160));
    assert!(!index.overlaps("CHR1", 150, 160));
    assert!(!index.overlaps("chr", 150, 160));
}

#[test]
fn half_open_spans_that_touch_do_not_overlap() {
    let index = build(vec![entry("chr1", 100, 200)]);
    assert!(!index.overlaps("chr1", 200, 300));
    assert!(!index.overlaps("chr1", 0, 100));
    assert!(index.overlaps("chr1", 199, 300));
    assert!(index.overlaps("chr1", 0, 101));
    assert!(index.overlaps("chr1", 100, 101));
    assert!(index.overlaps("chr1", 0, 1000));
}

#[test]
fn empty_query_overlaps_nothing() {
    let index = build(vec![entry("chr1", 100, 200)]);
    assert!(!index.overlaps("chr1", 150, 150));
    assert!(!index.overlaps("chr1", 100, 100));
}

#[test]
fn inverted_query_overlaps_nothing() {
    let index = build(vec![entry("chr1", 100, 200)]);
    assert!(!index.overlaps("chr1", 160, 150));
    assert!(!index.overlaps("chr1", u64::MAX, 0));
}

#[test]
fn empty_region_covers_nothing_but_keeps_its_key() {
    let index = build(vec![entry("chr1", 150, 150)]);
    assert!(index.contains_key("chr1"));
    assert_eq!(index.key_count(), 1);
    assert!(!index.overlaps("chr1", 100, 200));
    assert!(!index.overlaps("chr1", 150, 151));
}

#[test]
fn empty_region_beside_a_real_one() {
    let index = build(vec![entry("chr1", 150, 150), entry("chr1", 400, 500)]);
    assert!(!index.overlaps("chr1", 100, 200));
    assert!(index.overlaps("chr1", 450, 460));
}

#[test]
fn start_after_end_is_an_invalid_interval() {
    let entries = vec![entry("chr1", 100, 200), entry("chr2", 20, 10)];
    match RegionIndex::build(&entries) {
        Ok(_) => panic!("an inverted region was accepted"),
        Err(error) => assert_eq!(error, PipelineError::InvalidInterval),
    }
}

#[test]
fn keys_are_independent() {
    let index = build(vec![
        entry("chr1", 100, 200),
        entry("chr2", 1000, 2000),
        entry("chr1", 5000, 6000),
    ]);
    assert_eq!(index.key_count(), 2);
    assert!(index.overlaps("chr1", 150, 160));
    assert!(index.overlaps("chr1", 5500, 5501));
    assert!(!index.overlaps("chr1", 1500, 1600));
    assert!(index.overlaps("chr2", 1500, 1600));
    assert!(!index.overlaps("chr2", 150, 160));
}

#[test]
fn order_of_entries_does_not_matter() {
    let forward = build(vec![entry("k", 10, 20), entry("k", 30, 40), entry("k", 50, 60)]);
    let backward = build(vec![entry("k", 50, 60), entry("k", 30, 40), entry("k", 10, 20)]);
    let mut point: u64 = 0;
    while point < 70 {
        assert_eq!(
            forward.overlaps("k", point, point + 1),
            backward.overlaps("k", point, point + 1)
        );
        point += 1;
    }
}

#[test]
fn index_agrees_with_a_scan_over_the_entries() {
    let spans: Vec<(u64, u64)> =
        vec![(5, 9), (0, 3), (20, 25), (22, 40), (7, 8), (100, 101), (60, 60), (3, 5)];
    let entries: Vec<RegionEntry> = spans.iter().map(|s| entry("k", s.0, s.1)).collect();
    let index = build(entries);
    let mut start: u64 = 0;
    while start < 110 {
        let mut end: u64 = start;
        while end < start + 6 {
            let expected = spans
                .iter()
                .any(|s| s.0 < s.1 && start < end && s.0 < end && start < s.1);
            assert_eq!(index.overlaps("k", start, end), expected);
            end += 1;
        }
        start += 1;
    }
}

#[test]
fn repeated_entries_are_harmless() {
    let index = build(vec![entry("k", 10, 20), entry("k", 10, 20)]);
    assert_eq!(index.key_count(), 1);
    assert!(index.overlaps("k", 19, 20));
    assert!(!index.overlaps("k", 20, 21));
}

#[test]
fn coordinates_at_the_top_of_the_range() {
    let index = build(vec![entry("k", u64::MAX - 1, u64::MAX)]);
    assert!(index.overlaps("k", 0, u64::MAX));
    assert!(index.overlaps("k", u64::MAX - 1, u64::MAX));
    assert!(!index.overlaps("k", 0, u64::MAX - 1));
}
