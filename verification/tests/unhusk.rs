use winnow::ingest::{unhusk_candidates, unhusk_next, UnhuskRun, UnhuskStep};
use winnow::plan::{tier2_refusal, Refusal};

#[test]
fn unhusk_override_is_the_only_candidate() {
    assert_eq!(unhusk_candidates(Some("/opt/unhusk".to_string())), vec!["/opt/unhusk".to_string()]);
}

#[test]
fn unhusk_default_candidates_are_path_then_sibling_build() {
    assert_eq!(
        unhusk_candidates(None),
        vec!["unhusk".to_string(), "../unhusk/target/release/unhusk".to_string()]
    );
}

#[test]
fn unhusk_success_is_parsed() {
    let c = unhusk_candidates(None);
    match unhusk_next(&c, 0, UnhuskRun::Succeeded(b"{}".to_vec())) {
        UnhuskStep::Parse(out) => assert_eq!(out, b"{}".to_vec()),
        _ => panic!("expected Parse"),
    }
}

#[test]
fn unhusk_failure_moves_to_the_next_candidate() {
    let c = unhusk_candidates(None);
    match unhusk_next(&c, 0, UnhuskRun::SpawnFailed("No such file or directory".to_string())) {
        UnhuskStep::TryNext(n) => assert_eq!(n, 1),
        _ => panic!("expected TryNext"),
    }
}

#[test]
fn unhusk_last_failure_is_reported() {
    let c = unhusk_candidates(None);
    let run = UnhuskRun::Exited {
        status: "exit status: 1".to_string(),
        stderr: "boom\n".to_string(),
    };
    match unhusk_next(&c, 1, run) {
        UnhuskStep::Fail(m) => {
            assert_eq!(m, "unhusk (../unhusk/target/release/unhusk) exited with exit status: 1: boom\n")
        }
        _ => panic!("expected Fail"),
    }
}

#[test]
fn unhusk_failing_override_is_not_followed_by_other_candidates() {
    let c = unhusk_candidates(Some("/opt/unhusk".to_string()));
    match unhusk_next(&c, 0, UnhuskRun::SpawnFailed("denied".to_string())) {
        UnhuskStep::Fail(m) => assert_eq!(m, "could not spawn /opt/unhusk: denied"),
        _ => panic!("expected Fail"),
    }
}

#[test]
fn refusal_ladder_checks_strong_then_text_then_strings() {
    assert_eq!(tier2_refusal(0, None, None), Some(Refusal::NoStrongFunctions));
    assert_eq!(tier2_refusal(0, Some(false), Some(0)), Some(Refusal::NoStrongFunctions));
    assert_eq!(tier2_refusal(2, None, None), None);
    assert_eq!(tier2_refusal(2, Some(false), None), Some(Refusal::NoText));
    assert_eq!(tier2_refusal(2, Some(true), Some(0)), Some(Refusal::NoPanicStrings));
    assert_eq!(tier2_refusal(2, Some(true), Some(3)), None);
}

#[test]
fn refusal_exit_codes() {
    assert_eq!(Refusal::NoStrongFunctions.exit_code(), 1);
    assert_eq!(Refusal::NoText.exit_code(), 1);
    assert_eq!(Refusal::NoPanicStrings.exit_code(), 2);
}
