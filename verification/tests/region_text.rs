use mapq_pipeline::error::PipelineError;
use mapq_pipeline::region::{RegionEntry, RegionIndex};
use mapq_pipeline::region_text::{parse_coordinate, parse_region_line, parse_regions};

fn entry(key: &str, start: u64, end: u64) -> RegionEntry {
    RegionEntry { key: key.to_string(), start, end }
}

#[test]
fn coordinates_are_plain_decimals() {
    assert_eq!(parse_coordinate("0"), Some(0));
    assert_eq!(parse_coordinate("100"), Some(100));
    assert_eq!(parse_coordinate("007"), Some(7));
    assert_eq!(parse_coordinate("+5"), Some(5));
    assert_eq!(parse_coordinate("1234567890"), Some(1234567890));
}

#[test]
fn coordinates_fill_sixty_four_bits_and_no_more() {
    assert_eq!(parse_coordinate("18446744073709551615"), Some(u64::MAX));
    assert_eq!(parse_coordinate("18446744073709551616"), None);
    assert_eq!(parse_coordinate("99999999999999999999"), None);
    assert_eq!(parse_coordinate("184467440737095516150"), None);
    assert_eq!(parse_coordinate("00000000000000000000000000001"), Some(1));
}

#[test]
fn what_is_no_coordinate() {
    assert_eq!(parse_coordinate(""), None);
    assert_eq!(parse_coordinate("+"), None);
    assert_eq!(parse_coordinate("-"), None);
    assert_eq!(parse_coordinate("-1"), None);
    assert_eq!(parse_coordinate("++1"), None);
    assert_eq!(parse_coordinate("1+"), None);
    assert_eq!(parse_coordinate(" 1"), None);
    assert_eq!(parse_coordinate("1 "), None);
    assert_eq!(parse_coordinate("12a"), None);
    assert_eq!(parse_coordinate("1_000"), None);
    assert_eq!(parse_coordinate("1.5"), None);
    assert_eq!(parse_coordinate("0x10"), None);
    assert_eq!(parse_coordinate("\u{661}\u{662}"), None);
}

#[test]
fn coordinates_agree_with_the_standard_parser() {
    let samples = [
        "0", "1", "42", "+42", "-42", "", "+", "4 2", "18446744073709551615",
        "18446744073709551616", "000", "+000", "9a", "a9", "\t1", "1\r",
    ];
    for text in samples.iter() {
        assert_eq!(parse_coordinate(text), text.parse::<u64>().ok());
    }
}

#[test]
fn a_line_of_three_fields() {
    assert_eq!(parse_region_line("chr1\t100\t200"), Ok(Some(entry("chr1", 100, 200))));
}

#[test]
fn further_fields_are_ignored() {
    assert_eq!(
        parse_region_line("chr1\t100\t200\tname\t0\t+"),
        Ok(Some(entry("chr1", 100, 200)))
    );
    assert_eq!(parse_region_line("chr1\t100\t200\t"), Ok(Some(entry("chr1", 100, 200))));
}

#[test]
fn lines_with_fewer_than_three_fields_are_skipped() {
    assert_eq!(parse_region_line(""), Ok(None));
    assert_eq!(parse_region_line("chr1"), Ok(None));
    assert_eq!(parse_region_line("chr1\t100"), Ok(None));
    assert_eq!(parse_region_line("chr1 100 200"), Ok(None));
    assert_eq!(parse_region_line("track name=regions"), Ok(None));
    assert_eq!(parse_region_line("chr1\tnot a number"), Ok(None));
}

#[test]
fn a_bad_coordinate_is_malformed_input() {
    assert_eq!(parse_region_line("chr1\tx\t200"), Err(PipelineError::MalformedInput));
    assert_eq!(parse_region_line("chr1\t100\ty"), Err(PipelineError::MalformedInput));
    assert_eq!(parse_region_line("chr1\t100\t"), Err(PipelineError::MalformedInput));
    assert_eq!(parse_region_line("chr1\t\t200"), Err(PipelineError::MalformedInput));
    assert_eq!(parse_region_line("\t\t"), Err(PipelineError::MalformedInput));
    assert_eq!(parse_region_line("chr1\t-1\t200"), Err(PipelineError::MalformedInput));
    assert_eq!(parse_region_line("chr1\t1\t2 \t"), Err(PipelineError::MalformedInput));
    assert_eq!(
        parse_region_line("chr1\t1\t18446744073709551616"),
        Err(PipelineError::MalformedInput)
    );
}

#[test]
fn a_line_does_not_check_the_order_of_its_coordinates() {
    assert_eq!(parse_region_line("chr1\t200\t100"), Ok(Some(entry("chr1", 200, 100))));
}

#[test]
fn keys_are_taken_as_they_stand() {
    assert_eq!(parse_region_line("\t1\t2"), Ok(Some(entry("", 1, 2))));
    assert_eq!(parse_region_line(" chr1 \t1\t2"), Ok(Some(entry(" chr1 ", 1, 2))));
    assert_eq!(parse_region_line("chr\u{e9}\u{4e2d}\t1\t2"), Ok(Some(entry("chr\u{e9}\u{4e2d}", 1, 2))));
}

#[test]
fn regions_are_collected_in_order() {
    let lines: Vec<String> = vec![
        "chr1\t100\t200".to_string(),
        "# a comment".to_string(),
        "chr2\t5\t6\textra".to_string(),
        "".to_string(),
        "chr1\t300\t400".to_string(),
    ];
    assert_eq!(
        parse_regions(&lines),
        Ok(vec![entry("chr1", 100, 200), entry("chr2", 5, 6), entry("chr1", 300, 400)])
    );
}

#[test]
fn no_lines_no_regions() {
    assert_eq!(parse_regions(&Vec::new()), Ok(Vec::new()));
}

#[test]
fn one_malformed_line_fails_the_reading() {
    let lines: Vec<String> =
        vec!["chr1\t100\t200".to_string(), "chr1\tabc\t200".to_string(), "chr1\t1\t2".to_string()];
    assert_eq!(parse_regions(&lines), Err(PipelineError::MalformedInput));
}

#[test]
fn text_to_index() {
    let lines: Vec<String> = vec!["chr1\t100\t200".to_string(), "chrX\t7\t9".to_string()];
    let entries = match parse_regions(&lines) {
        Ok(entries) => entries,
        Err(error) => panic!("unexpected error: {:?}", error),
    };
    let index = match RegionIndex::build(&entries) {
        Ok(index) => index,
        Err(error) => panic!("unexpected error: {:?}", error),
    };
    assert!(index.overlaps("chr1", 199, 250));
    assert!(index.overlaps("chrX", 8, 9));
    assert!(!index.overlaps("chrX", 9, 10));
}

#[test]
fn inverted_region_in_text_is_refused_by_the_index() {
    let lines: Vec<String> = vec!["chr1\t200\t100".to_string()];
    let entries = match parse_regions(&lines) {
        Ok(entries) => entries,
        Err(error) => panic!("unexpected error: {:?}", error),
    };
    match RegionIndex::build(&entries) {
        Ok(_) => panic!("an inverted region was accepted"),
        Err(error) => assert_eq!(error, PipelineError::InvalidInterval),
    }
}
