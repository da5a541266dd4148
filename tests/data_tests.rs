use gensbock::alignment::{make_alignment, CigarOp};
use gensbock::data::{data_document, json_fits_limits, splice_data};

fn splice(f: &str, a: &str, v: &str) -> String {
    let c = |s: &str| s.chars().collect::<Vec<char>>();
    splice_data(&c(f), &c(a), &c(v)).into_iter().collect()
}

#[test]
fn splice_all_three_parts() {
    assert_eq!(splice("[1,2]", "[[3],[4]]", "[5]"), "[1,2,3,4,5]");
}

#[test]
fn splice_without_variants() {
    assert_eq!(splice("[1,2]", "[[3],[4]]", "[]"), "[1,2,3,4]");
}

#[test]
fn splice_without_alignments() {
    assert_eq!(splice("[1]", "[]", "[5,6]"), "[1,5,6]");
    assert_eq!(splice("[1]", "[[],[]]", "[5,6]"), "[1,,,5,6]");
}

#[test]
fn alignment_shape_is_checked() {
    let ok = make_alignment(&b"ACGT".to_vec(), 0, vec![CigarOp::Match(2), CigarOp::Ins(1), CigarOp::SoftClip(1)], 0, String::new(), false, 0, 0, 0);
    assert!(ok.is_well_formed());
    let short = make_alignment(&b"ACG".to_vec(), 0, vec![CigarOp::HardClip(1), CigarOp::Match(3)], 0, String::new(), false, 0, 0, 0);
    assert!(!short.is_well_formed());
    let long = make_alignment(&b"A".to_vec(), 0, vec![CigarOp::Del(u32::MAX), CigarOp::Del(1)], 0, String::new(), false, 0, 0, 0);
    assert!(!long.is_well_formed());
}

fn document(f: &str, a: &str, v: &str) -> Option<String> {
    let c = |s: &str| s.chars().collect::<Vec<char>>();
    data_document(&c(f), &c(a), &c(v)).map(|d| d.into_iter().collect())
}

#[test]
fn data_document_is_parsed_and_printed_back() {
    assert_eq!(document("[1, 2]", "[[3], [4]]", "[5]").as_deref(), Some("[1,2,3,4,5]"));
    assert_eq!(document("[{\"b\": 1, \"a\": 2}]", "[]", "[3]").as_deref(), Some("[{\"a\":2,\"b\":1},3]"));
}

#[test]
fn data_document_rejects_broken_json() {
    assert_eq!(document("[1]", "[[],[]]", "[5,6]"), None);
}

fn chars(s: &str) -> Vec<char> {
    s.chars().collect()
}

#[test]
fn nesting_limit_of_json_text() {
    let deep = |n: usize| format!("{}{}", "[".repeat(n), "]".repeat(n));
    assert!(json_fits_limits(&chars(&deep(128))));
    assert!(!json_fits_limits(&chars(&deep(129))));
    // Brackets inside strings do not nest.
    let quoted = format!("[\"{}\"]", "[".repeat(300));
    assert!(json_fits_limits(&chars(&quoted)));
    // An escaped quote does not end the string.
    let escaped = format!("[\"\\\"{}\"]", "{".repeat(300));
    assert!(json_fits_limits(&chars(&escaped)));
    // Closers past depth 0 do not make room for more nesting.
    let unbalanced = format!("]]]]{}", "[".repeat(129));
    assert!(!json_fits_limits(&chars(&unbalanced)));
}

#[test]
fn exponent_limit_of_json_text() {
    assert!(json_fits_limits(&chars("[1e123456789, 2E-5]")));
    assert!(!json_fits_limits(&chars("[1e1234567890]")));
    assert!(!json_fits_limits(&chars("[1E+1234567890]")));
    assert!(json_fits_limits(&chars("[12345678901234567890]")));
}

#[test]
fn data_document_refuses_text_past_the_limits() {
    assert_eq!(document("[1e99999999999999999999]", "[]", "[2]"), None);
    let deep = format!("{}1", "[".repeat(100_000));
    assert_eq!(document(&deep, "[]", "[2]"), None);
}
