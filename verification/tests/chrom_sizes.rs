use ironbed::chrom_sizes::{ChromSizes, SizesError};

fn lines(v: &[&str]) -> Vec<String> {
    v.iter().map(|s| s.to_string()).collect()
}

#[test]
fn test_hg38_chrom_sizes() {
    let text = lines(&[
        "chr1\t248956422",
        "chr2\t242193529",
        "chrX\t156040895",
        "chr19\t58617616",
        "chr19_GL383573v1_alt\t385657",
        "chrUn_KI270580v1\t1553",
        "chrUn_KI270394v1\t970",
    ]);
    let hg38 = ChromSizes::new("test/chrom.sizes/hg38.chrom.sizes", &text).unwrap();
    let pairs: Vec<(&str, u32)> = vec![
        ("chr1", 248956422),
        ("chr2", 242193529),
        ("chrX", 156040895),
        ("chr19", 58617616),
        ("chr19_GL383573v1_alt", 385657),
        ("chrUn_KI270580v1", 1553),
        ("chrUn_KI270394v1", 970),
    ];
    for (chrom, size) in pairs {
        assert_eq!(hg38.get(chrom).unwrap(), size);
    }
}

#[test]
fn test_tair10_chrom_sizes() {
    let text = lines(&[
        "Chr1\t30427671",
        "Chr2\t19698289",
        "Chr3\t23459830",
        "Chr4\t18585056",
        "Chr5\t26975502",
        "ChrC\t154478",
        "ChrM\t366924",
    ]);
    let tair10 = ChromSizes::new("test/chrom.sizes/tair10.chrom.sizes", &text).unwrap();
    let pairs: Vec<(&str, u32)> = vec![
        ("Chr1", 30427671),
        ("Chr2", 19698289),
        ("Chr3", 23459830),
        ("Chr4", 18585056),
        ("Chr5", 26975502),
        ("ChrC", 154478),
        ("ChrM", 366924),
    ];
    for (chrom, size) in pairs {
        assert_eq!(tair10.get(chrom).unwrap(), size);
    }
}

#[test]
fn test_badfield1_chrom_sizes() {
    let text = lines(&[
        "Chr1\t30427671",
        "Chr2\t19698289",
        "Chr3\t23459830",
        "Chr4\t18585056",
        "Chr5\t26975502",
        "ChrC",
        "ChrM\t366924",
    ]);
    match ChromSizes::new("test/chrom.sizes/bad_field1.chrom.sizes", &text) {
        Err(SizesError::WrongFieldCount { lineno, n_cols }) => {
            assert_eq!(lineno, 6);
            assert_eq!(n_cols, 1);
        }
        _ => panic!("Expected Err from ChromSizes::new(), received Ok(_) instead"),
    }
}

#[test]
fn test_badfield2_chrom_sizes() {
    let text = lines(&[
        "Chr1\t30427671",
        "Chr2\t19698289",
        "Chr3\t23459830\textra",
        "Chr4\t18585056",
    ]);
    match ChromSizes::new("test/chrom.sizes/bad_field2.chrom.sizes", &text) {
        Err(SizesError::WrongFieldCount { lineno, n_cols }) => {
            assert_eq!(lineno, 3);
            assert_eq!(n_cols, 3);
        }
        _ => panic!("Expected Err from ChromSizes::new(), received Ok(_) instead"),
    }
}

#[test]
fn test_badsize1_chrom_sizes() {
    let text = lines(&[
        "Chr1\t30427671",
        "Chr2\t-19698289",
        "Chr3\t23459830",
    ]);
    match ChromSizes::new("test/chrom.sizes/bad_size1.chrom.sizes", &text) {
        Err(SizesError::InvalidSize { lineno, text }) => {
            assert_eq!(lineno, 2);
            assert_eq!(text, "-19698289");
        }
        _ => panic!("Expected Err from ChromSizes::new(), received Ok(_) instead"),
    }
}

#[test]
fn test_badsize2_chrom_sizes() {
    let text = lines(&[
        "Chr1\t30427671",
        "Chr2\t19698289",
        "Chr3\t23459830",
        "Chr4\tapple",
        "Chr5\t26975502",
    ]);
    match ChromSizes::new("test/chrom.sizes/bad_size2.chrom.sizes", &text) {
        Err(SizesError::InvalidSize { lineno, text }) => {
            assert_eq!(lineno, 4);
            assert_eq!(text, "apple");
        }
        _ => panic!("Expected Err from ChromSizes::new(), received Ok(_) instead"),
    }
}

#[test]
fn sizes_lookup_missing() {
    let text = lines(&["chr1 1000", "chr2 2000"]);
    let sizes = ChromSizes::new("small.sizes", &text).unwrap();
    assert_eq!(sizes.get("chr3"), None);
    assert_eq!(sizes.get("chr1"), Some(1000));
}

#[test]
fn sizes_last_entry_wins() {
    let text = lines(&["chr1 1000", "chr1 5000"]);
    let sizes = ChromSizes::new("dup.sizes", &text).unwrap();
    assert_eq!(sizes.get("chr1"), Some(5000));
}
