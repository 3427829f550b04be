use std::path::PathBuf;

use winnow::code::CodeAtom;
use winnow::emit::{
    build_rule, build_tier1_rule, distinct_fns, escape_str, hex_bytes, hex_masked,
    sanitize_ident, RuleInputs, Tier1Inputs,
};
use winnow::mask::{MaskByte, MaskedAtom};

#[test]
fn sanitize_ident_replaces_non_identifier_chars() {
    assert_eq!(sanitize_ident("a-b.c"), "a_b_c");
}

#[test]
fn sanitize_ident_prefixes_a_leading_digit() {
    assert_eq!(sanitize_ident("123abc"), "_123abc");
}

#[test]
fn sanitize_ident_falls_back_when_empty() {
    assert_eq!(sanitize_ident(""), "winnow_rule");
}

#[test]
fn escape_str_escapes_quotes() {
    assert_eq!(escape_str(r#"he said "hi""#), r#"he said \"hi\""#);
}

#[test]
fn escape_str_escapes_backslashes_before_quotes() {
    assert_eq!(escape_str(r"C:\path"), r"C:\\path");
}

#[test]
fn hex_bytes_formats_uppercase_pairs() {
    assert_eq!(hex_bytes(&[0x00, 0xFF, 0x1A]), "00 FF 1A");
}

#[test]
fn hex_masked_renders_wildcards() {
    let bytes = vec![
        MaskByte::Exact(0x01),
        MaskByte::Wildcard,
        MaskByte::Exact(0xFF),
    ];
    assert_eq!(hex_masked(&bytes), "01 ?? FF");
}

#[test]
fn build_rule_includes_strings_and_condition() {
    let path = PathBuf::from("/tmp/sample.elf");
    let inputs = RuleInputs {
        sample_name: "sample",
        sample_path: path.to_str().unwrap(),
        sample_sha256: "deadbeef".to_string(),
        min_anchors: 2,
        strong_fn_count: 1,
        anchor_strings: vec!["panic at \"src/main.rs\"".to_string()],
        code_atoms: vec![CodeAtom {
            fn_start: 0x1000,
            bytes: vec![0x90; 8],
        }],
    };

    let text = build_rule(&inputs);
    assert!(text.starts_with("rule winnow_sample {"));
    assert!(text.contains("$panic0 = \"panic at \\\"src/main.rs\\\"\" ascii"));
    assert!(text.contains("$code0 = { 90 90 90 90 90 90 90 90 }"));
    assert!(text.contains("any of ($panic*) and any of ($code*)"));
}

#[test]
fn build_tier1_rule_condition_never_references_panic_strings() {
    let path = PathBuf::from("/tmp/sample.elf");
    let inputs = Tier1Inputs {
        sample_name: "sample",
        sample_path: path.to_str().unwrap(),
        sample_sha256: "deadbeef".to_string(),
        min_anchors: 2,
        strong_fn_count: 1,
        panic_strings: vec!["src/main.rs".to_string()],
        masked_atoms: vec![MaskedAtom {
            fn_start: 0x1000,
            bytes: vec![MaskByte::Exact(0x90)],
        }],
        behavior_strings: vec![("hello world".to_string(), 0x2000)],
        corpus_size: 75,
    };

    let text = build_tier1_rule(&inputs);
    let condition = text
        .lines()
        .find(|l| l.trim_start().starts_with("uint32(0)"))
        .expect("condition line present");
    assert!(condition.contains("$mcode*"));
    assert!(condition.contains("$behavior*"));
    assert!(!condition.contains("$panic"));
}

#[test]
fn build_tier1_rule_records_disjoint_independence_partition() {
    let path = PathBuf::from("/tmp/sample.elf");
    let inputs = Tier1Inputs {
        sample_name: "sample",
        sample_path: path.to_str().unwrap(),
        sample_sha256: "deadbeef".to_string(),
        min_anchors: 2,
        strong_fn_count: 2,
        panic_strings: vec!["src/main.rs".to_string()],
        masked_atoms: vec![MaskedAtom {
            fn_start: 0x1000,
            bytes: vec![MaskByte::Exact(0x90)],
        }],
        behavior_strings: vec![("evil.example".to_string(), 0x2000)],
        corpus_size: 75,
    };

    let text = build_tier1_rule(&inputs);
    assert!(text.contains("independence = \"structural: code factor from function(s) {0x1000}"));
    assert!(text.contains("string factor from function(s) {0x2000}"));
    assert!(text.contains("$behavior0 = \"evil.example\" ascii // fn 0x2000"));
}

#[test]
fn sanitize_ident_keeps_identifier_text() {
    assert_eq!(sanitize_ident("Sample_01"), "Sample_01");
    assert_eq!(sanitize_ident("-"), "_");
}

#[test]
fn escape_str_leaves_plain_text_unchanged() {
    assert_eq!(escape_str("plain text"), "plain text");
    assert_eq!(escape_str(""), "");
}

#[test]
fn hex_bytes_of_nothing_is_empty() {
    assert_eq!(hex_bytes(&[]), "");
    assert_eq!(hex_bytes(&[0xAB]), "AB");
}

#[test]
fn distinct_fns_sorts_and_dedups() {
    assert_eq!(distinct_fns(&[0x2000, 0x1000, 0x2000]), "{0x1000, 0x2000}");
    assert_eq!(distinct_fns(&[]), "{}");
}

#[test]
fn build_rule_full_text_for_one_string_and_one_atom() {
    let inputs = RuleInputs {
        sample_name: "a-b",
        sample_path: "/x/a-b",
        sample_sha256: "00".to_string(),
        min_anchors: 3,
        strong_fn_count: 4,
        anchor_strings: vec!["p".to_string()],
        code_atoms: vec![CodeAtom {
            fn_start: 0x10,
            bytes: vec![0x0A, 0xFF],
        }],
    };
    let text = build_rule(&inputs);
    assert!(text.starts_with("rule winnow_a_b {\n"));
    assert!(text.contains("    min_anchors = 3\n"));
    assert!(text.contains("    strong_functions = 4\n"));
    assert!(text.contains("    $panic0 = \"p\" ascii\n"));
    assert!(text.contains("    $code0 = { 0A FF } // fn 0x10\n"));
    assert!(text.ends_with("}\n"));
}

#[test]
fn hex_masked_of_exact_bytes_matches_hex_bytes() {
    let bs = [0x00u8, 0x7F, 0xC3, 0x1A];
    let exact: Vec<MaskByte> = bs.iter().map(|&b| MaskByte::Exact(b)).collect();
    assert_eq!(hex_masked(&exact), hex_bytes(&bs));
    assert_eq!(hex_masked(&[MaskByte::Wildcard]), "??");
    assert_eq!(hex_masked(&[]), "");
}

#[test]
fn hex_masked_of_a_concatenation_joins_with_a_space() {
    let p = vec![MaskByte::Exact(0x48), MaskByte::Wildcard];
    let q = vec![MaskByte::Wildcard, MaskByte::Exact(0xC3)];
    let both = [p.clone(), q.clone()].concat();
    assert_eq!(hex_masked(&both), format!("{} {}", hex_masked(&p), hex_masked(&q)));
}
