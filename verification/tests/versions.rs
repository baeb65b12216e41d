use strata::version::{is_newer, parse_u64, parse_version};

fn chars(text: &str) -> Vec<char> {
    text.chars().collect()
}

#[test]
fn version_triple_reads_three_numbers() {
    assert_eq!(parse_version("1.22.333"), (1, 22, 333));
    assert_eq!(parse_version("4.5.6.7"), (4, 5, 6));
    assert_eq!(parse_version("2"), (2, 0, 0));
    assert_eq!(parse_version(""), (0, 0, 0));
    assert_eq!(parse_version("1..3"), (1, 0, 3));
    assert_eq!(parse_version("x.7.y"), (0, 7, 0));
}

#[test]
fn version_pieces_parse_like_u64() {
    assert_eq!(parse_u64(&chars("+5")), Some(5));
    assert_eq!(parse_u64(&chars("007")), Some(7));
    assert_eq!(parse_u64(&chars("+")), None);
    assert_eq!(parse_u64(&chars("")), None);
    assert_eq!(parse_u64(&chars("-1")), None);
    assert_eq!(parse_u64(&chars(" 1")), None);
    assert_eq!(parse_u64(&chars("18446744073709551615")), Some(u64::MAX));
    assert_eq!(parse_u64(&chars("18446744073709551616")), None);
    assert_eq!(parse_u64(&chars("99999999999999999999x")), None);
}

#[test]
fn overflowing_piece_counts_as_zero() {
    assert_eq!(parse_version("18446744073709551616.1"), (0, 1, 0));
}

#[test]
fn newer_is_an_order() {
    // transitive
    assert!(is_newer("1.0.0", "0.9.9"));
    assert!(is_newer("0.9.9", "0.9.1"));
    assert!(is_newer("1.0.0", "0.9.1"));
    // asymmetric
    assert!(!is_newer("0.9.9", "1.0.0"));
    // total up to equal triples
    assert!(!is_newer("1.0", "1.0.0") && !is_newer("1.0.0", "1.0"));
    // a missing patch number is zero
    assert_eq!(parse_version("3.4"), parse_version("3.4.0"));
}

#[test]
fn major_outweighs_minor_and_patch() {
    assert!(is_newer("2.0.0", "1.99.99"));
    assert!(is_newer("0.10.0", "0.9.0"));
    assert!(!is_newer("v1.0.0", "0.1.0"));
}
