use ironbed::bedgraph::{BgIterator, BgLine, ParseError};
use ironbed::chrom_geo::{ChromPos, ChromSeg};

fn lines(v: &[&str]) -> Vec<String> {
    v.iter().map(|s| s.to_string()).collect()
}

// The merge of 1.bg, 2.bg and 3.bg, used by several tests below.
fn merged_lines() -> Vec<String> {
    lines(&[
        "chr1\t900\t1000\t0\t60\t0",
        "chr1\t1000\t1500\t10\t60\t0",
        "chr1\t1500\t1600\t0\t60\t0",
        "chr1\t1700\t1980\t0\t50\t0",
        "chr1\t1980\t2000\t0\t50\t80",
        "chr1\t2000\t2050\t20\t50\t80",
        "chr1\t2050\t2070\t20\t0\t80",
        "chr1\t2070\t2090\t20\t0\t0",
        "chr1\t2090\t2100\t20\t0\t20",
    ])
}

// A two-sequence track: four records ending at or before chr2:4000, four
// beginning after it.
fn long_lines() -> Vec<String> {
    lines(&[
        "chr1\t100\t200\t1",
        "chr1\t500\t800\t2",
        "chr2\t1000\t2000\t3",
        "chr2\t3500\t4000\t4",
        "chr2\t4100\t4200\t5",
        "chr2\t5000\t6000\t6",
        "chr3\t100\t200\t7",
        "chr3\t300\t400\t8",
    ])
}

fn collect(mut bg: BgIterator) -> Vec<BgLine> {
    let mut out = Vec::new();
    while let Some(l) = bg.next().unwrap() {
        out.push(l);
    }
    out
}

#[test]
fn starts_after() {
    let bg = BgIterator::new(merged_lines());
    let pos = ChromPos { chrom: "chr1".to_string(), index: 1980 };
    let test_values: Vec<bool> = collect(bg).iter().map(|x| x.starts_after(&pos)).collect();
    let expected_values = vec![false, false, false, false, false, true, true, true, true];
    assert_eq!(test_values, expected_values);
    let bg = BgIterator::new(long_lines());
    let pos = ChromPos { chrom: "chr2".to_string(), index: 4000 };
    let test_values: Vec<bool> = collect(bg).iter().map(|x| x.starts_after(&pos)).collect();
    let expected_values = vec![false, false, false, false, true, true, true, true];
    assert_eq!(test_values, expected_values);
}

#[test]
fn ends_before() {
    let bg = BgIterator::new(merged_lines());
    let pos = ChromPos { chrom: "chr1".to_string(), index: 1980 };
    let test_values: Vec<bool> = collect(bg).iter().map(|x| x.ends_before(&pos)).collect();
    let expected_values = vec![true, true, true, true, false, false, false, false, false];
    assert_eq!(test_values, expected_values);
    let bg = BgIterator::new(long_lines());
    let pos = ChromPos { chrom: "chr2".to_string(), index: 4000 };
    let test_values: Vec<bool> = collect(bg).iter().map(|x| x.ends_before(&pos)).collect();
    let expected_values = vec![true, true, true, true, false, false, false, false];
    assert_eq!(test_values, expected_values);
}

#[test]
fn line_count() {
    let bedgraph = BgIterator::new(merged_lines());
    let count = collect(bedgraph).len();
    assert_eq!(count, 9);
}

#[test]
fn iterator_next() {
    let mut bedgraph = BgIterator::new(lines(&["chr1\t1000\t1500\t10", "chr1\t2000\t2100\t20"]));
    let last_line = bedgraph.next().unwrap().unwrap();
    assert_eq!(last_line.coords, ChromSeg { chrom: "chr1".to_string(), start: 1000, stop: 1500 });
    assert_eq!(last_line.data, Some("10".to_string()));
    let last_line = bedgraph.next().unwrap().unwrap();
    assert_eq!(last_line.coords, ChromSeg { chrom: "chr1".to_string(), start: 2000, stop: 2100 });
    assert_eq!(last_line.data, Some("20".to_string()));
    let last_line = bedgraph.next().unwrap();
    assert_eq!(last_line, None);
}

#[test]
fn min_iterators() {
    let bedgraph1 = BgIterator::new(lines(&["chr1\t1000\t1500\t10", "chr1\t2000\t2100\t20"]));
    let bedgraph2 = BgIterator::new(lines(&["chr1\t900\t1600\t60", "chr1\t1700\t2050\t50"]));
    let bedgraph3 = BgIterator::new(lines(&["chr1\t1980\t2070\t80", "chr1\t2090\t2100\t20"]));
    let mut readers: Vec<BgIterator> = vec![bedgraph1, bedgraph2, bedgraph3];
    let first: Vec<BgLine> = readers.iter_mut().map(|x| x.next().unwrap().unwrap()).collect();
    let min_start: ChromPos = first.iter().map(|x| x.coords.start_pos()).min().unwrap();
    assert_eq!(min_start, ChromPos { chrom: "chr1".to_string(), index: 900 });
    let min_stop: ChromPos = first.iter().map(|x| x.coords.stop_pos()).min().unwrap();
    assert_eq!(min_stop, ChromPos { chrom: "chr1".to_string(), index: 1500 });
}

#[test]
fn parse_three_columns() {
    let l = BgLine::new("chr7 15 90").unwrap();
    assert_eq!(l.coords, ChromSeg { chrom: "chr7".to_string(), start: 15, stop: 90 });
    assert_eq!(l.data, None);
}

#[test]
fn parse_joins_extra_columns() {
    let l = BgLine::new("chr7 15 90 a  b\tc").unwrap();
    assert_eq!(l.data, Some("a\tb\tc".to_string()));
}

#[test]
fn parse_malformed_line() {
    match BgLine::new("chr1 100") {
        Err(ParseError::MalformedLine { n_cols }) => assert_eq!(n_cols, 2),
        _ => panic!("expected MalformedLine"),
    }
    match BgLine::new("") {
        Err(ParseError::MalformedLine { n_cols }) => assert_eq!(n_cols, 0),
        _ => panic!("expected MalformedLine"),
    }
}

#[test]
fn parse_invalid_coordinate() {
    match BgLine::new("chr1 abc 200") {
        Err(ParseError::InvalidCoordinate { text }) => assert_eq!(text, "abc"),
        _ => panic!("expected InvalidCoordinate"),
    }
    match BgLine::new("chr1 100 -200") {
        Err(ParseError::InvalidCoordinate { text }) => assert_eq!(text, "-200"),
        _ => panic!("expected InvalidCoordinate"),
    }
}

#[test]
fn parse_u32_bounds() {
    // the largest unsigned 32-bit value parses; one more does not
    let l = BgLine::new("chrZ 0 4294967295").unwrap();
    assert_eq!(l.coords.stop, 4294967295);
    match BgLine::new("chrZ 0 4294967296") {
        Err(ParseError::InvalidCoordinate { text }) => assert_eq!(text, "4294967296"),
        _ => panic!("expected InvalidCoordinate"),
    }
    let l = BgLine::new("chrZ +7 9").unwrap();
    assert_eq!(l.coords.start, 7);
}

#[test]
fn to_line_format() {
    let l = BgLine::new("chr1  900 1000\t0 60  0").unwrap();
    assert_eq!(l.to_line(), "chr1\t900\t1000\t0\t60\t0");
    let l = BgLine::new("chrM 0 366924").unwrap();
    assert_eq!(l.to_line(), "chrM\t0\t366924");
}

#[test]
fn stream_error_carries_line_number() {
    let mut bg = BgIterator::new(lines(&["chr1 0 10", "chr1 oops 20"]));
    assert!(bg.next().unwrap().is_some());
    let err = bg.next().unwrap_err();
    assert_eq!(err.lineno, 2);
    match err.error {
        ParseError::InvalidCoordinate { text } => assert_eq!(text, "oops"),
        _ => panic!("expected InvalidCoordinate"),
    }
}
