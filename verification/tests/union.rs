use ironbed::bedgraph::{BgIterator, BgLine, ParseError};
use ironbed::chrom_sizes::ChromSizes;
use ironbed::union::{run_union, BgUnion, UnionConfig};

fn lines(v: &[&str]) -> Vec<String> {
    v.iter().map(|s| s.to_string()).collect()
}

fn bg(v: &[&str]) -> BgIterator {
    BgIterator::new(lines(v))
}

fn one_bg() -> BgIterator {
    bg(&["chr1\t1000\t1500\t10", "chr1\t2000\t2100\t20"])
}

fn two_bg() -> BgIterator {
    bg(&["chr1\t900\t1600\t60", "chr1\t1700\t2050\t50"])
}

fn three_bg() -> BgIterator {
    bg(&["chr1\t1980\t2070\t80", "chr1\t2090\t2100\t20"])
}

fn empty_one_bg() -> BgIterator {
    bg(&["chr1\t100\t200", "chr1\t300\t400"])
}

fn empty_two_bg() -> BgIterator {
    bg(&["chr1\t150\t350"])
}

fn drain(mut u: BgUnion) -> Vec<BgLine> {
    let mut out = Vec::new();
    while let Some(l) = u.next().unwrap() {
        out.push(l);
    }
    out
}

fn parse_all(v: &[&str]) -> Vec<BgLine> {
    v.iter().map(|s| BgLine::new(s).unwrap()).collect()
}

#[test]
fn union_defaults() {
    let inputs = vec![one_bg(), two_bg(), three_bg()];
    let union = BgUnion::new(inputs).unwrap();
    let expected = parse_all(&[
        "chr1\t900\t1000\t0\t60\t0",
        "chr1\t1000\t1500\t10\t60\t0",
        "chr1\t1500\t1600\t0\t60\t0",
        "chr1\t1700\t1980\t0\t50\t0",
        "chr1\t1980\t2000\t0\t50\t80",
        "chr1\t2000\t2050\t20\t50\t80",
        "chr1\t2050\t2070\t20\t0\t80",
        "chr1\t2070\t2090\t20\t0\t0",
        "chr1\t2090\t2100\t20\t0\t20",
    ]);
    assert_eq!(drain(union), expected);
}

#[test]
fn union_defaults2() {
    let inputs = vec![empty_one_bg(), empty_two_bg()];
    let union = BgUnion::new(inputs).unwrap();
    let expected = parse_all(&[
        "chr1\t100\t150\t0\t0",
        "chr1\t150\t200\t0\t0",
        "chr1\t200\t300\t0\t0",
        "chr1\t300\t350\t0\t0",
        "chr1\t350\t400\t0\t0",
    ]);
    assert_eq!(drain(union), expected);
}

#[test]
fn union_filler1() {
    let inputs = vec![one_bg(), two_bg(), three_bg()];
    let config =
        UnionConfig { report_empty: false, filler: "NA".to_string(), genome: None };
    let union = BgUnion::with_config(inputs, config).unwrap();
    let expected = parse_all(&[
        "chr1\t900\t1000\tNA\t60\tNA",
        "chr1\t1000\t1500\t10\t60\tNA",
        "chr1\t1500\t1600\tNA\t60\tNA",
        "chr1\t1700\t1980\tNA\t50\tNA",
        "chr1\t1980\t2000\tNA\t50\t80",
        "chr1\t2000\t2050\t20\t50\t80",
        "chr1\t2050\t2070\t20\tNA\t80",
        "chr1\t2070\t2090\t20\tNA\tNA",
        "chr1\t2090\t2100\t20\tNA\t20",
    ]);
    assert_eq!(drain(union), expected);
}

#[test]
fn union_filler2() {
    let inputs = vec![empty_one_bg(), empty_two_bg()];
    let config =
        UnionConfig { report_empty: false, filler: "apple".to_string(), genome: None };
    let union = BgUnion::with_config(inputs, config).unwrap();
    let expected = parse_all(&[
        "chr1\t100\t150\tapple\tapple",
        "chr1\t150\t200\tapple\tapple",
        "chr1\t200\t300\tapple\tapple",
        "chr1\t300\t350\tapple\tapple",
        "chr1\t350\t400\tapple\tapple",
    ]);
    assert_eq!(drain(union), expected);
}

// One stream merged alone yields one row per record, values kept.
#[test]
fn single_stream_rows() {
    let union = BgUnion::new(vec![one_bg()]).unwrap();
    let expected = parse_all(&["chr1\t1000\t1500\t10", "chr1\t2000\t2100\t20"]);
    assert_eq!(drain(union), expected);
}

// The emitted positions are strictly increasing with no overlaps.
#[test]
fn rows_strictly_increasing() {
    let union = BgUnion::new(vec![one_bg(), two_bg(), three_bg()]).unwrap();
    let rows = drain(union);
    assert!(rows.len() > 1);
    for w in rows.windows(2) {
        assert!(w[0].coords.stop_pos() <= w[1].coords.start_pos());
    }
    for r in &rows {
        assert!(r.coords.start < r.coords.stop);
    }
}

// Re-running the merge on the same inputs yields identical output.
#[test]
fn merge_idempotent() {
    let config =
        UnionConfig { report_empty: false, filler: "0".to_string(), genome: None };
    let first = run_union(vec![one_bg(), two_bg(), three_bg()], config).unwrap();
    let config =
        UnionConfig { report_empty: false, filler: "0".to_string(), genome: None };
    let second = run_union(vec![one_bg(), two_bg(), three_bg()], config).unwrap();
    assert_eq!(first, second);
}

// Two files: boundaries fall at 900, 1000, 1500, 1600, 1700, 2000, 2050
// and 2100, with the right value or filler in each column.
#[test]
fn scenario_two_files() {
    let union = BgUnion::new(vec![one_bg(), two_bg()]).unwrap();
    let expected = parse_all(&[
        "chr1\t900\t1000\t0\t60",
        "chr1\t1000\t1500\t10\t60",
        "chr1\t1500\t1600\t0\t60",
        "chr1\t1700\t2000\t0\t50",
        "chr1\t2000\t2050\t20\t50",
        "chr1\t2050\t2100\t20\t0",
    ]);
    assert_eq!(drain(union), expected);
}

// A range covered by no source: silent by default; with empty reporting
// and a genome table, exactly one filler-only row spans it.
#[test]
fn scenario_empty_range() {
    let f1 = &["chr1\t0\t500\t1"];
    let f2 = &["chr1\t0\t800\t2"];
    let quiet = UnionConfig { report_empty: false, filler: "0".to_string(), genome: None };
    let rows = run_union(vec![bg(f1), bg(f2)], quiet).unwrap();
    let expected = parse_all(&["chr1\t0\t500\t1\t2", "chr1\t500\t800\t0\t2"]);
    assert_eq!(rows, expected);

    let genome = ChromSizes::new("g.sizes", &lines(&["chr1\t2000"])).unwrap();
    let loud = UnionConfig { report_empty: true, filler: "0".to_string(), genome: Some(genome) };
    let rows = run_union(vec![bg(f1), bg(f2)], loud).unwrap();
    let expected = parse_all(&[
        "chr1\t0\t500\t1\t2",
        "chr1\t500\t800\t0\t2",
        "chr1\t800\t2000\t0\t0",
    ]);
    assert_eq!(rows, expected);
}

// A malformed line surfaces as an error from the merge, not a panic or a
// silent end of stream.
#[test]
fn scenario_malformed_line() {
    // bad first line: construction itself reports it
    let err = BgUnion::new(vec![bg(&["chr1 100"])]).unwrap_err();
    assert_eq!(err.source, 0);
    assert_eq!(err.lineno, 1);
    match err.error {
        ParseError::MalformedLine { n_cols } => assert_eq!(n_cols, 2),
        _ => panic!("expected MalformedLine"),
    }
    // bad later line: the pull that reaches it reports it
    let mut union =
        BgUnion::new(vec![bg(&["chr1\t0\t100\t5", "chr1\t200"])]).unwrap();
    let err = union.next().unwrap_err();
    assert_eq!(err.source, 0);
    assert_eq!(err.lineno, 2);
    match err.error {
        ParseError::MalformedLine { n_cols } => assert_eq!(n_cols, 2),
        _ => panic!("expected MalformedLine"),
    }
}

// A source that runs out keeps its filler column while others continue.
#[test]
fn scenario_exhausted_source() {
    let a = bg(&["chr1\t0\t100\ta1", "chr1\t100\t300\ta2"]);
    let b = bg(&["chr1\t0\t300\tb1"]);
    let c = bg(&["chr1\t0\t50\tc1"]);
    let union = BgUnion::new(vec![a, b, c]).unwrap();
    let expected = parse_all(&[
        "chr1\t0\t50\ta1\tb1\tc1",
        "chr1\t50\t100\ta1\tb1\t0",
        "chr1\t100\t300\ta2\tb1\t0",
    ]);
    assert_eq!(drain(union), expected);
}

// Empty-region reporting with a genome table also reports the uncovered
// head and tail of each sequence, and crosses sequences in table order.
#[test]
fn genome_boundaries_reported() {
    let f1 = &["chr1\t100\t200\tx"];
    let genome = ChromSizes::new("g.sizes", &lines(&["chr1\t300", "chr2\t50"])).unwrap();
    let config = UnionConfig { report_empty: true, filler: ".".to_string(), genome: Some(genome) };
    let rows = run_union(vec![bg(f1)], config).unwrap();
    let expected = parse_all(&[
        "chr1\t0\t100\t.",
        "chr1\t100\t200\tx",
        "chr1\t200\t300\t.",
        "chr2\t0\t50\t.",
    ]);
    assert_eq!(rows, expected);
}

#[test]
fn union_of_nothing() {
    let union = BgUnion::new(vec![]).unwrap();
    assert_eq!(drain(union), Vec::<BgLine>::new());
}

// Sequence names order lexicographically, so "chr15" sorts before "chr4",
// and the merge crosses from one sequence to the next in that order.
#[test]
fn lexicographic_chrom_order() {
    let f1 = bg(&["chr15\t0\t10\ta", "chr4\t5\t10\tb"]);
    let f2 = bg(&["chr4\t0\t10\tc"]);
    let union = BgUnion::new(vec![f1, f2]).unwrap();
    let expected = parse_all(&[
        "chr15\t0\t10\ta\t0",
        "chr4\t0\t5\t0\tc",
        "chr4\t5\t10\tb\tc",
    ]);
    assert_eq!(drain(union), expected);
}

// Without a genome table, empty reporting still fills gaps between
// records inside the covered range.
#[test]
fn empty_reporting_without_genome() {
    let f1 = bg(&["chr1\t0\t10\tx", "chr1\t20\t30\ty"]);
    let config = UnionConfig { report_empty: true, filler: "0".to_string(), genome: None };
    let rows = run_union(vec![f1], config).unwrap();
    let expected = parse_all(&["chr1\t0\t10\tx", "chr1\t10\t20\t0", "chr1\t20\t30\ty"]);
    assert_eq!(rows, expected);
}
