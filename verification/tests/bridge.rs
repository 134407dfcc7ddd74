use zoxide::bridge::{interpret, render, PREFIX_LEN};
use zoxide::entry::SCORE_ONE;
use zoxide::error::{
    classify, exit_code, ErrorKind, Outcome, EXIT_CANCELLED, EXIT_FAILURE, EXIT_NO_MATCH,
    EXIT_SUCCESS,
};
use zoxide::ranking::Match;
use zoxide::text::{
    byte_len, bytes_eq, contains_upper, find_from, same_text, stands_at, to_lower,
};

fn hit(index: usize, path: &str, score: u128) -> Match {
    Match { index, path: path.to_string(), score }
}

fn candidates() -> Vec<Match> {
    vec![
        hit(2, "/home/user", 20 * SCORE_ONE),
        hit(0, "/tmp", 5 * SCORE_ONE + 3_999),
        hit(1, "/srv/www", 1),
    ]
}

#[test]
fn render_writes_one_line_for_each_candidate() {
    let out = render(&candidates());
    assert_eq!(out, b"  20 /home/user\n   5 /tmp\n   0 /srv/www\n".to_vec());
}

#[test]
fn render_of_no_candidates_is_empty() {
    assert!(render(&Vec::new()).is_empty());
}

#[test]
fn score_column_is_right_aligned_and_capped() {
    assert_eq!(render(&vec![hit(0, "/a", 0)]), b"   0 /a\n".to_vec());
    assert_eq!(render(&vec![hit(0, "/a", 9 * SCORE_ONE)]), b"   9 /a\n".to_vec());
    assert_eq!(render(&vec![hit(0, "/a", 10 * SCORE_ONE)]), b"  10 /a\n".to_vec());
    assert_eq!(render(&vec![hit(0, "/a", 407 * SCORE_ONE)]), b" 407 /a\n".to_vec());
    assert_eq!(render(&vec![hit(0, "/a", 1_000 * SCORE_ONE)]), b"1000 /a\n".to_vec());
    assert_eq!(render(&vec![hit(0, "/a", 9_999 * SCORE_ONE)]), b"9999 /a\n".to_vec());
    assert_eq!(render(&vec![hit(0, "/a", 10_000 * SCORE_ONE)]), b"9999 /a\n".to_vec());
    assert_eq!(render(&vec![hit(0, "/a", u128::MAX)]), b"9999 /a\n".to_vec());
}

#[test]
fn interpret_finds_the_chosen_candidate() {
    let found = candidates();
    assert_eq!(interpret(Some(0), b"   5 /tmp\n", &found), Ok(1));
    assert_eq!(interpret(Some(0), b"  20 /home/user\n", &found), Ok(0));
    assert_eq!(interpret(Some(0), b"   0 /srv/www", &found), Ok(2));
}

#[test]
fn interpret_reads_the_first_line_only() {
    let found = candidates();
    assert_eq!(interpret(Some(0), b"   5 /tmp\n  20 /home/user\n", &found), Ok(1));
}

#[test]
fn interpret_ignores_what_the_column_holds() {
    let found = candidates();
    assert_eq!(interpret(Some(0), b"xxxxx/tmp\n", &found), Ok(1));
}

#[test]
fn every_rendered_line_is_interpreted_as_its_candidate() {
    let found = candidates();
    let out = render(&found);
    let mut start = 0;
    let mut k = 0;
    while k < found.len() {
        assert_eq!(interpret(Some(0), &out[start..], &found), Ok(k));
        start += PREFIX_LEN + found[k].path.len() + 1;
        k += 1;
    }
    assert_eq!(start, out.len());
}

#[test]
fn a_failed_selector_is_a_cancellation() {
    let found = candidates();
    assert_eq!(interpret(Some(1), b"   5 /tmp\n", &found), Err(ErrorKind::Cancelled));
    assert_eq!(interpret(Some(130), b"", &found), Err(ErrorKind::Cancelled));
    assert_eq!(interpret(Some(-1), b"", &found), Err(ErrorKind::Cancelled));
    assert_eq!(interpret(None, b"   5 /tmp\n", &found), Err(ErrorKind::Cancelled));
}

#[test]
fn a_line_that_names_no_candidate_is_no_match() {
    let found = candidates();
    assert_eq!(interpret(Some(0), b"   5 /gone\n", &found), Err(ErrorKind::NoMatch));
    assert_eq!(interpret(Some(0), b"   5 /tmp \n", &found), Err(ErrorKind::NoMatch));
    assert_eq!(interpret(Some(0), b"/tmp\n", &found), Err(ErrorKind::NoMatch));
    assert_eq!(interpret(Some(0), b"", &found), Err(ErrorKind::NoMatch));
    assert_eq!(interpret(Some(0), b"\n   5 /tmp\n", &found), Err(ErrorKind::NoMatch));
    assert_eq!(interpret(Some(0), b"   5 /tmp\n", &Vec::new()), Err(ErrorKind::NoMatch));
}

#[test]
fn silent_kinds_become_a_no_op_with_their_code() {
    assert_eq!(classify(Err(ErrorKind::NoMatch)), Outcome::NoOp { code: EXIT_NO_MATCH });
    assert_eq!(classify(Err(ErrorKind::Cancelled)), Outcome::NoOp { code: EXIT_CANCELLED });
    assert!(ErrorKind::NoMatch.silent());
    assert!(ErrorKind::Cancelled.silent());
    assert_eq!(ErrorKind::NoMatch.diagnostic(), "");
    assert_eq!(ErrorKind::Cancelled.diagnostic(), "");
}

#[test]
fn other_kinds_become_a_failure() {
    let kinds = vec![ErrorKind::Corrupt, ErrorKind::IoFailure, ErrorKind::InvalidInput];
    for kind in kinds {
        assert_eq!(classify(Err(kind)), Outcome::Failure { kind });
        assert!(!kind.silent());
        assert!(!kind.diagnostic().is_empty());
        assert_eq!(exit_code(classify(Err(kind))), EXIT_FAILURE);
    }
}

#[test]
fn exit_codes_tell_the_outcomes_apart() {
    assert_eq!(classify(Ok(())), Outcome::Success);
    assert_eq!(exit_code(Outcome::Success), 0);
    assert_eq!(exit_code(classify(Err(ErrorKind::NoMatch))), 2);
    assert_eq!(exit_code(classify(Err(ErrorKind::Cancelled))), 130);
    assert_eq!(exit_code(classify(Err(ErrorKind::Corrupt))), 1);
    assert_eq!(exit_code(Outcome::NoOp { code: 7 }), 7);
    assert_eq!(EXIT_SUCCESS, 0);
}

#[test]
fn find_from_returns_the_first_place() {
    assert_eq!(find_from(b"abcabc", b"bc", 0), Some(1));
    assert_eq!(find_from(b"abcabc", b"bc", 1), Some(1));
    assert_eq!(find_from(b"abcabc", b"bc", 2), Some(4));
    assert_eq!(find_from(b"abcabc", b"bc", 5), None);
    assert_eq!(find_from(b"abcabc", b"abcabc", 0), Some(0));
    assert_eq!(find_from(b"abcabc", b"abcabcd", 0), None);
    assert_eq!(find_from(b"abc", b"", 3), Some(3));
    assert_eq!(find_from(b"abc", b"", 4), None);
    assert_eq!(find_from(b"", b"", 0), Some(0));
    assert_eq!(find_from(b"aab", b"ab", 0), Some(1));
}

#[test]
fn stands_at_compares_in_place() {
    assert!(stands_at(b"hello", b"ell", 1));
    assert!(!stands_at(b"hello", b"ell", 0));
    assert!(stands_at(b"hello", b"", 5));
}

#[test]
fn to_lower_folds_ascii_letters_only() {
    assert_eq!(to_lower(b"/Home/USER_09[Z]@`{"), b"/home/user_09[z]@`{".to_vec());
    assert_eq!(to_lower("É".as_bytes()), "É".as_bytes().to_vec());
    assert!(contains_upper(b"/a/B"));
    assert!(contains_upper(b"Z"));
    assert!(contains_upper(b"A"));
    assert!(!contains_upper(b"/a/b@[`{"));
    assert!(!contains_upper("é".as_bytes()));
}

#[test]
fn texts_compare_by_their_bytes() {
    assert!(same_text("/a", "/a"));
    assert!(!same_text("/a", "/b"));
    assert!(!same_text("/a", "/a/"));
    assert!(same_text("", ""));
    assert!(bytes_eq(b"ab", b"ab"));
    assert!(!bytes_eq(b"ab", b"ac"));
    assert_eq!(byte_len("/é"), 3);
}
