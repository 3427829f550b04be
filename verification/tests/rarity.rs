use winnow::mask::{MaskByte, MaskedAtom};
use winnow::rarity::{contains_subslice, longest_exact_run, masked_match_anywhere, Corpus, MIN_EXACT, REDUCED_LEN};

fn corpus(files: Vec<(&str, &[u8])>) -> Corpus {
    Corpus::from_files(
        files
            .into_iter()
            .map(|(n, d)| (n.to_string(), d.to_vec()))
            .collect(),
    )
}

fn exact_atom(bytes: &[u8]) -> MaskedAtom {
    MaskedAtom {
        fn_start: 0,
        bytes: bytes.iter().map(|&b| MaskByte::Exact(b)).collect(),
    }
}

#[test]
fn reduce_atom_shrinks_to_a_discriminative_window() {
    let atom = exact_atom(&(0u8..100).collect::<Vec<_>>());
    let c = corpus(vec![("benign", &[0xEE; 4096])]);
    let r = c.reduce_atom(&atom).expect("a clean window exists");
    assert_eq!(r.orig_len, 100);
    assert_eq!(r.bytes.len(), REDUCED_LEN);
    assert_eq!(r.exact_bytes, REDUCED_LEN);
}

#[test]
fn reduce_atom_drops_when_every_window_collides() {
    let seq: Vec<u8> = (0u8..100).collect();
    let atom = exact_atom(&seq);
    let c = corpus(vec![("benign", &seq)]);
    assert!(c.reduce_atom(&atom).is_none());
}

#[test]
fn reduce_atom_keeps_a_short_atom_whole() {
    let atom = exact_atom(&(0u8..40).collect::<Vec<_>>());
    let c = corpus(vec![("benign", &[0xEE; 256])]);
    let r = c.reduce_atom(&atom).expect("clean");
    assert_eq!(r.bytes.len(), 40);
    assert_eq!(r.start_offset, 0);
}

#[test]
fn reduce_atom_drops_a_mostly_wildcard_atom() {
    let mut bytes = vec![MaskByte::Wildcard; 100];
    for b in bytes.iter_mut().take(10) {
        *b = MaskByte::Exact(0x42);
    }
    let atom = MaskedAtom { fn_start: 0, bytes };
    let c = corpus(vec![("benign", &[0xEE; 256])]);
    assert!(c.reduce_atom(&atom).is_none());
}

#[test]
fn contains_subslice_edge_cases() {
    assert!(!contains_subslice(b"abc", b""));
    assert!(!contains_subslice(b"ab", b"abc"));
    assert!(contains_subslice(b"abcdef", b"cde"));
}

#[test]
fn string_is_rare_when_absent_from_every_file() {
    let c = corpus(vec![("a", b"hello world"), ("b", b"goodbye")]);
    assert!(c.string_is_rare("needle"));
}

#[test]
fn string_is_not_rare_when_present_in_any_file() {
    let c = corpus(vec![("a", b"hello world"), ("b", b"goodbye")]);
    assert!(!c.string_is_rare("hello"));
}

#[test]
fn masked_atom_collision_matches_through_wildcards() {
    let atom = MaskedAtom {
        fn_start: 0,
        bytes: vec![
            MaskByte::Exact(0xAA),
            MaskByte::Wildcard,
            MaskByte::Exact(0xCC),
        ],
    };
    let c = corpus(vec![("benign", &[0x00, 0xAA, 0xBB, 0xCC, 0x00])]);
    assert_eq!(c.masked_atom_collisions(&atom), vec!["benign".to_string()]);
}

#[test]
fn masked_atom_no_collision_when_an_exact_byte_differs() {
    let atom = MaskedAtom {
        fn_start: 0,
        bytes: vec![
            MaskByte::Exact(0xAA),
            MaskByte::Wildcard,
            MaskByte::Exact(0xCC),
        ],
    };
    let c = corpus(vec![("benign", &[0xAA, 0xBB, 0xDD])]);
    assert!(c.masked_atom_collisions(&atom).is_empty());
}

#[test]
fn all_wildcard_pattern_never_reports_a_collision() {
    let atom = MaskedAtom {
        fn_start: 0,
        bytes: vec![MaskByte::Wildcard; 4],
    };
    let c = corpus(vec![("benign", &[0, 1, 2, 3, 4, 5])]);
    assert!(c.masked_atom_collisions(&atom).is_empty());
}

#[test]
fn masked_atom_matches_when_longest_run_is_mid_pattern() {
    let atom = MaskedAtom {
        fn_start: 0,
        bytes: vec![
            MaskByte::Wildcard,
            MaskByte::Wildcard,
            MaskByte::Exact(0xAA),
            MaskByte::Exact(0xBB),
            MaskByte::Exact(0xCC),
            MaskByte::Wildcard,
        ],
    };
    let c = corpus(vec![("benign", &[0x11, 0x22, 0xAA, 0xBB, 0xCC, 0x33])]);
    assert_eq!(c.masked_atom_collisions(&atom), vec!["benign".to_string()]);
}

#[test]
fn masked_atom_run_too_close_to_start_cannot_seed_a_window() {
    let atom = MaskedAtom {
        fn_start: 0,
        bytes: vec![
            MaskByte::Wildcard,
            MaskByte::Wildcard,
            MaskByte::Exact(0xAA),
            MaskByte::Exact(0xBB),
            MaskByte::Exact(0xCC),
            MaskByte::Wildcard,
        ],
    };
    let c = corpus(vec![("benign", &[0xAA, 0xBB, 0xCC, 0x00, 0x00, 0x00])]);
    assert!(c.masked_atom_collisions(&atom).is_empty());
}

#[test]
fn longest_exact_run_picks_the_longest_contiguous_run() {
    let pat = vec![
        MaskByte::Exact(0x01),
        MaskByte::Wildcard,
        MaskByte::Exact(0x02),
        MaskByte::Exact(0x03),
        MaskByte::Wildcard,
        MaskByte::Wildcard,
        MaskByte::Exact(0x04),
        MaskByte::Exact(0x05),
        MaskByte::Exact(0x06),
    ];
    assert_eq!(longest_exact_run(&pat), Some((6, vec![0x04, 0x05, 0x06])));
}

#[test]
fn longest_exact_run_is_none_for_all_wildcards() {
    assert_eq!(longest_exact_run(&[MaskByte::Wildcard; 5]), None);
}

#[test]
fn longest_exact_run_prefers_the_first_of_equal_runs() {
    let pat = vec![
        MaskByte::Exact(0x01),
        MaskByte::Exact(0x02),
        MaskByte::Wildcard,
        MaskByte::Exact(0x03),
        MaskByte::Exact(0x04),
    ];
    assert_eq!(longest_exact_run(&pat), Some((0, vec![0x01, 0x02])));
}

#[test]
fn collisions_list_every_matching_file_in_corpus_order() {
    let atom = exact_atom(&[0x10, 0x20]);
    let c = corpus(vec![
        ("one", &[0x10, 0x20]),
        ("two", &[0x00]),
        ("three", &[0x99, 0x10, 0x20]),
    ]);
    assert_eq!(
        c.masked_atom_collisions(&atom),
        vec!["one".to_string(), "three".to_string()]
    );
}

#[test]
fn masked_match_needs_room_for_the_whole_pattern() {
    let pat = vec![MaskByte::Exact(0x01), MaskByte::Wildcard];
    assert!(!masked_match_anywhere(&[0x00, 0x01], &pat));
    assert!(masked_match_anywhere(&[0x01, 0x7F], &pat));
}

#[test]
fn reduced_window_is_the_first_clean_one_of_the_strongest_bucket() {
    // Exact bytes 0..100; the corpus holds the atom's first 70 bytes, so
    // windows starting at 0..=6 collide and the first clean one starts at 7.
    let seq: Vec<u8> = (0u8..100).collect();
    let atom = exact_atom(&seq);
    let c = corpus(vec![("benign", &seq[..70])]);
    let r = c.reduce_atom(&atom).expect("a clean window exists");
    assert_eq!(r.start_offset, 7);
    assert_eq!(r.bytes.len(), REDUCED_LEN);
    assert!(r.exact_bytes >= MIN_EXACT);
}

#[test]
fn corpus_len_counts_files() {
    let c = corpus(vec![("a", b"x"), ("b", b"y"), ("c", b"z")]);
    assert_eq!(c.len(), 3);
}
