use ironbed::chrom_geo::{ChromPos, ChromSeg};

#[test]
fn start_stop() {
    let seg = ChromSeg { chrom: "chr3".to_string(), start: 100, stop: 250 };
    assert_eq!(seg.start_pos(), ChromPos { chrom: "chr3".to_string(), index: 100 });
    assert_eq!(seg.stop_pos(), ChromPos { chrom: "chr3".to_string(), index: 250 });
}

#[test]
fn sort() {
    let mut chrom_vec = vec![
        ChromPos { chrom: "chr4".to_string(), index: 1000 },
        ChromPos { chrom: "chr1".to_string(), index: 5000 },
        ChromPos { chrom: "chr15".to_string(), index: 100 },
        ChromPos { chrom: "chr1".to_string(), index: 3000 },
    ];
    let sorted = vec![
        ChromPos { chrom: "chr1".to_string(), index: 3000 },
        ChromPos { chrom: "chr1".to_string(), index: 5000 },
        ChromPos { chrom: "chr15".to_string(), index: 100 },
        ChromPos { chrom: "chr4".to_string(), index: 1000 },
    ];
    chrom_vec.sort_unstable();
    assert_eq!(chrom_vec, sorted);
}

#[test]
fn min_max() {
    let chrom_vec = vec![
        ChromPos { chrom: "chr4".to_string(), index: 1000 },
        ChromPos { chrom: "chr1".to_string(), index: 5000 },
        ChromPos { chrom: "chr15".to_string(), index: 100 },
        ChromPos { chrom: "chr1".to_string(), index: 3000 },
    ];
    let min = chrom_vec.iter().min().unwrap();
    let max = chrom_vec.iter().max().unwrap();
    assert_eq!(*min, ChromPos { chrom: "chr1".to_string(), index: 3000 });
    assert_eq!(*max, ChromPos { chrom: "chr4".to_string(), index: 1000 });
}

#[test]
fn compare_operators() {
    let a = ChromPos { chrom: "chr15".to_string(), index: 9999 };
    let b = ChromPos { chrom: "chr4".to_string(), index: 0 };
    assert!(a < b);
    assert!(b > a);
    let c = ChromPos { chrom: "chr4".to_string(), index: 1 };
    assert!(b < c);
    assert!(b <= c && b != c);
}
