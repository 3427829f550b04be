use winnow::elfview::Section;
use winnow::ingest::FnRange;
use winnow::plan::{collect_tier2, select_tier1, strong_functions, AtomOutcome, Tier1Verdict};
use winnow::rarity::Corpus;

fn fn_range(start: u64, end: u64, tier: &str, anchors: &[&str]) -> FnRange {
    FnRange {
        start,
        end,
        size: end - start,
        tier: tier.to_string(),
        anchor_count: anchors.len(),
        anchor_files: anchors.iter().map(|s| s.to_string()).collect(),
    }
}

fn lea_rax(target_vaddr: u64, next_ip: u64) -> Vec<u8> {
    let disp = (target_vaddr as i64 - next_ip as i64) as i32;
    let d = disp.to_le_bytes();
    vec![0x48, 0x8D, 0x05, d[0], d[1], d[2], d[3]]
}

const TEXT: u64 = 0x1000;
const RODATA: u64 = 0x8000;

/// Function A (`0x1000..0x1014`): twenty NOPs, all exact bytes.
/// Function B (`0x1014..0x1020`): `lea rax,[rip+"hello world"]; mov edx, 11`.
fn two_function_text() -> Section {
    let mut data = vec![0x90u8; 20];
    data.extend_from_slice(&lea_rax(RODATA, 0x1014 + 7));
    data.extend_from_slice(&[0xBA, 0x0B, 0x00, 0x00, 0x00]);
    Section { vaddr: TEXT, data }
}

fn rodata() -> Section {
    Section {
        vaddr: RODATA,
        data: b"hello world".to_vec(),
    }
}

fn benign() -> Corpus {
    Corpus::from_files(vec![("benign".to_string(), vec![0xEE; 64])])
}

#[test]
fn strong_functions_picks_the_strong_tier_in_order() {
    let fns = vec![
        fn_range(0x10, 0x20, "weak", &[]),
        fn_range(0x20, 0x30, "strong", &[]),
        fn_range(0x30, 0x40, "Strong", &[]),
        fn_range(0x40, 0x50, "strong", &[]),
    ];
    assert_eq!(strong_functions(&fns), vec![1, 3]);
    assert!(strong_functions(&Vec::new()).is_empty());
}

#[test]
fn collect_tier2_sorts_and_dedups_panic_paths() {
    let mut data = vec![0x90u8; 6];
    data.extend_from_slice(&[0xE8, 0, 0, 0, 0]);
    data.extend_from_slice(&[0x90u8; 9]);
    let text = Section { vaddr: TEXT, data };
    let fns = vec![
        fn_range(0x1000, 0x100B, "strong", &["src/b.rs", "src/a.rs"]),
        fn_range(0x100B, 0x1014, "weak", &["src/z.rs"]),
        fn_range(0x100B, 0x1014, "strong", &["src/a.rs"]),
    ];
    let strong = strong_functions(&fns);
    let m = collect_tier2(&fns, &strong, &text);
    assert_eq!(m.panic_strings, vec!["src/a.rs".to_string(), "src/b.rs".to_string()]);
    assert_eq!(m.code_atoms.len(), 2);
    assert_eq!(m.code_atoms[0].fn_start, 0x1000);
    assert_eq!(m.code_atoms[0].bytes.len(), 11);
    assert_eq!(m.code_atoms[1].fn_start, 0x100B);
    assert_eq!(m.code_atoms[1].bytes, vec![0x90u8; 9]);
}

#[test]
fn tier1_is_earned_when_code_and_string_come_from_different_functions() {
    let text = two_function_text();
    let rd = rodata();
    let fns = vec![
        fn_range(0x1000, 0x1014, "strong", &["src/main.rs"]),
        fn_range(0x1014, 0x1020, "strong", &["src/main.rs"]),
    ];
    let strong = strong_functions(&fns);
    let sel = select_tier1(&fns, &strong, &text, Some(&rd), &[], &benign(), &vec!["src/main.rs".to_string()]);

    assert_eq!(sel.verdict, Tier1Verdict::Earned);
    assert_eq!(sel.atoms.len(), 2);
    assert!(matches!(sel.atoms[0].outcome, AtomOutcome::Reduced(_)));
    assert!(matches!(sel.atoms[1].outcome, AtomOutcome::Dropped));
    assert_eq!(sel.masked_atoms.len(), 1);
    assert_eq!(sel.masked_atoms[0].fn_start, 0x1000);
    assert_eq!(sel.masked_atoms[0].bytes.len(), 20);
    assert_eq!(sel.behavior_strings, vec![("hello world".to_string(), 0x1014)]);
    assert!(sel.shared_fns.is_empty());
    assert_eq!(sel.candidates.len(), 1);
    assert!(sel.candidates[0].rare);
}

#[test]
fn tier1_declines_when_one_function_carries_both_factors() {
    let mut data = vec![0x90u8; 20];
    data.extend_from_slice(&lea_rax(RODATA, 0x1014 + 7));
    data.extend_from_slice(&[0xBA, 0x0B, 0x00, 0x00, 0x00]);
    let text = Section { vaddr: TEXT, data };
    let rd = rodata();
    let fns = vec![fn_range(0x1000, 0x1020, "strong", &["src/main.rs"])];
    let strong = strong_functions(&fns);
    let sel = select_tier1(&fns, &strong, &text, Some(&rd), &[], &benign(), &Vec::new());

    assert_eq!(sel.verdict, Tier1Verdict::NotIndependent);
    assert!(sel.masked_atoms.is_empty());
    assert_eq!(sel.shared_fns, vec![0x1000]);
    assert_eq!(sel.behavior_strings.len(), 1);
}

#[test]
fn tier1_declines_without_a_rare_string() {
    let text = two_function_text();
    let rd = rodata();
    let fns = vec![
        fn_range(0x1000, 0x1014, "strong", &[]),
        fn_range(0x1014, 0x1020, "strong", &[]),
    ];
    let strong = strong_functions(&fns);
    let corpus = Corpus::from_files(vec![("libc".to_string(), b"say hello world".to_vec())]);
    let sel = select_tier1(&fns, &strong, &text, Some(&rd), &[], &corpus, &Vec::new());

    assert_eq!(sel.verdict, Tier1Verdict::NoString);
    assert_eq!(sel.candidates.len(), 1);
    assert!(!sel.candidates[0].rare);
    assert!(sel.behavior_strings.is_empty());
    assert_eq!(sel.masked_atoms.len(), 1);
}

#[test]
fn tier1_never_counts_a_panic_string_as_behavioral() {
    let text = two_function_text();
    let rd = rodata();
    let fns = vec![
        fn_range(0x1000, 0x1014, "strong", &[]),
        fn_range(0x1014, 0x1020, "strong", &[]),
    ];
    let strong = strong_functions(&fns);
    let sel = select_tier1(&fns, &strong, &text, Some(&rd), &[], &benign(), &vec!["hello world".to_string()]);

    assert!(sel.candidates.is_empty());
    assert_eq!(sel.verdict, Tier1Verdict::NoString);
}

#[test]
fn tier1_without_rodata_harvests_no_strings() {
    let text = two_function_text();
    let fns = vec![
        fn_range(0x1000, 0x1014, "strong", &[]),
        fn_range(0x1014, 0x1020, "strong", &[]),
    ];
    let strong = strong_functions(&fns);
    let sel = select_tier1(&fns, &strong, &text, None, &[], &benign(), &Vec::new());

    assert!(sel.candidates.is_empty());
    assert_eq!(sel.verdict, Tier1Verdict::NoString);
}

#[test]
fn tier1_declines_without_a_surviving_code_atom() {
    let text = two_function_text();
    let rd = rodata();
    let fns = vec![fn_range(0x1014, 0x1020, "strong", &[])];
    let strong = strong_functions(&fns);
    let sel = select_tier1(&fns, &strong, &text, Some(&rd), &[], &benign(), &Vec::new());
    assert_eq!(sel.verdict, Tier1Verdict::NoCode);

    let fns = vec![fn_range(0x3000, 0x3010, "strong", &[])];
    let strong = strong_functions(&fns);
    let sel = select_tier1(&fns, &strong, &text, Some(&rd), &[], &benign(), &Vec::new());
    assert!(matches!(sel.atoms[0].outcome, AtomOutcome::Unavailable));
    assert_eq!(sel.verdict, Tier1Verdict::NoCodeNoString);
}
