use zoxide::entry::{RANK_ONE, SCORE_ONE};
use zoxide::error::ErrorKind;
use zoxide::query::{find_basename, is_match, match_keywords};
use zoxide::ranking::{best, query, ranked, Answer, Match, Query};
use zoxide::store::Store;

const NOW: u64 = 1_700_000_000;
const DAY: u64 = 86_400;

fn words(keywords: &[&str]) -> Vec<String> {
    keywords.iter().map(|k| k.to_string()).collect()
}

fn bytes(keywords: &[&str]) -> Vec<Vec<u8>> {
    keywords.iter().map(|k| k.as_bytes().to_vec()).collect()
}

fn ask(keywords: &[&str]) -> Query {
    Query { keywords: words(keywords), exclude: None, include_missing: false }
}

fn paths(found: &[Match]) -> Vec<String> {
    found.iter().map(|m| m.path.clone()).collect()
}

fn two_dirs() -> Store {
    let mut store = Store::new();
    store.upsert("/a", 5 * RANK_ONE, NOW - 30);
    store.upsert("/b", 10 * RANK_ONE, NOW - 2 * DAY);
    store
}

#[test]
fn upper_case_keyword_matches_case_sensitively() {
    assert!(is_match("/x/Foobar", &words(&["Foo"])));
    assert!(!is_match("/x/foobar", &words(&["Foo"])));
}

#[test]
fn lower_case_keyword_matches_either_case() {
    assert!(is_match("/x/Foobar", &words(&["foo"])));
    assert!(is_match("/x/foobar", &words(&["foo"])));
    assert!(is_match("/x/FOOBAR", &words(&["foo"])));
}

#[test]
fn one_upper_case_keyword_makes_all_keywords_case_sensitive() {
    assert!(is_match("/src/Foo", &words(&["src", "Foo"])));
    assert!(!is_match("/Src/Foo", &words(&["src", "Foo"])));
    assert!(is_match("/Src/foo", &words(&["src", "foo"])));
}

#[test]
fn letters_outside_ascii_are_not_folded() {
    assert!(is_match("/x/éa", &words(&["éa"])));
    assert!(!is_match("/x/Éa", &words(&["éa"])));
    assert!(is_match("/x/ÉA", &words(&["Éa"])));
}

#[test]
fn keywords_must_stand_in_their_order() {
    assert!(is_match("/ab/xx/cdyy", &words(&["ab", "cd"])));
    assert!(!is_match("/cd/xx/ab", &words(&["ab", "cd"])));
}

#[test]
fn last_keyword_must_stand_in_the_final_component() {
    assert!(!is_match("/ab/cdxx/yy", &words(&["ab", "cd"])));
    assert!(is_match("/ab/cdxx/cd", &words(&["ab", "cd"])));
    assert!(!is_match("/foo/bar", &words(&["foo"])));
    assert!(is_match("/foo/bar", &words(&["bar"])));
    assert!(is_match("/foo/bar", &words(&["foo", "bar"])));
}

#[test]
fn keywords_do_not_overlap() {
    assert!(!is_match("/aa", &words(&["aa", "a"])));
    assert!(is_match("/aaa", &words(&["aa", "a"])));
    assert!(!is_match("/abab", &words(&["aba", "bab"])));
}

#[test]
fn last_keyword_stands_behind_the_others_within_the_final_component() {
    assert!(is_match("/x/abab", &words(&["ab", "ab"])));
    assert!(!is_match("/x/ab", &words(&["ab", "ab"])));
    assert!(!is_match("/cdyy", &words(&["yy", "cd"])));
    assert!(is_match("/ab/ab", &words(&["ab", "ab"])));
}

#[test]
fn no_keywords_match_every_path() {
    assert!(is_match("/anything", &words(&[])));
    assert!(is_match("", &words(&[])));
}

#[test]
fn an_empty_keyword_matches_every_path() {
    assert!(is_match("/a/b", &words(&[""])));
    assert!(is_match("/", &words(&[""])));
    assert!(is_match("/a/b", &words(&["a", ""])));
}

#[test]
fn a_keyword_may_span_the_separator_only_if_it_is_not_the_last() {
    assert!(is_match("/foo/bar", &words(&["o/b", "ar"])));
    assert!(!is_match("/foo/bar", &words(&["o/b"])));
}

#[test]
fn match_keywords_works_on_bytes_as_they_are() {
    assert!(match_keywords(b"/x/Foo", &bytes(&["Foo"])));
    assert!(!match_keywords(b"/x/Foo", &bytes(&["foo"])));
    assert!(match_keywords(b"", &bytes(&[])));
    assert!(!match_keywords(b"", &bytes(&["a"])));
}

#[test]
fn basename_starts_behind_the_last_separator() {
    assert_eq!(find_basename(b"/foo/bar"), 5);
    assert_eq!(find_basename(b"/foo/"), 5);
    assert_eq!(find_basename(b"/"), 1);
    assert_eq!(find_basename(b"foo"), 0);
    assert_eq!(find_basename(b""), 0);
}

#[test]
fn recent_visit_beats_higher_rank() {
    let store = two_dirs();
    let on_disk = vec![true, true];
    let found = ranked(&store, &ask(&[]), &on_disk, NOW);
    assert_eq!(found.len(), 2);
    assert_eq!(found[0], Match { index: 0, path: "/a".to_string(), score: 20 * SCORE_ONE });
    assert_eq!(found[1], Match { index: 1, path: "/b".to_string(), score: 5 * SCORE_ONE });
    let top = best(&store, &ask(&[]), &on_disk, NOW).ok().unwrap();
    assert_eq!(top.path, "/a");
    assert_eq!(top.score, 20 * SCORE_ONE);
}

#[test]
fn excluded_path_is_never_returned() {
    let store = two_dirs();
    let on_disk = vec![true, true];
    let request = Query { keywords: words(&[]), exclude: Some("/a".to_string()), include_missing: false };
    let top = best(&store, &request, &on_disk, NOW).ok().unwrap();
    assert_eq!(top.path, "/b");
    assert_eq!(paths(&ranked(&store, &request, &on_disk, NOW)), vec!["/b".to_string()]);
}

#[test]
fn excluding_the_only_match_is_no_match() {
    let mut store = Store::new();
    store.upsert("/only", 100 * RANK_ONE, NOW);
    let request = Query { keywords: words(&["only"]), exclude: Some("/only".to_string()), include_missing: true };
    assert_eq!(best(&store, &request, &vec![true], NOW).err(), Some(ErrorKind::NoMatch));
    assert!(ranked(&store, &request, &vec![true], NOW).is_empty());
}

#[test]
fn exclusion_is_by_the_exact_path() {
    let store = two_dirs();
    let request = Query { keywords: words(&[]), exclude: Some("/A".to_string()), include_missing: false };
    let top = best(&store, &request, &vec![true, true], NOW).ok().unwrap();
    assert_eq!(top.path, "/a");
}

#[test]
fn paths_not_on_disk_are_left_out() {
    let store = two_dirs();
    let top = best(&store, &ask(&[]), &vec![false, true], NOW).ok().unwrap();
    assert_eq!(top.path, "/b");
    assert_eq!(best(&store, &ask(&[]), &vec![false, false], NOW).err(), Some(ErrorKind::NoMatch));
}

#[test]
fn paths_without_a_flag_count_as_missing() {
    let store = two_dirs();
    assert_eq!(paths(&ranked(&store, &ask(&[]), &vec![true], NOW)), vec!["/a".to_string()]);
    assert!(ranked(&store, &ask(&[]), &Vec::new(), NOW).is_empty());
}

#[test]
fn missing_paths_are_listed_on_request() {
    let store = two_dirs();
    let request = Query { keywords: words(&[]), exclude: None, include_missing: true };
    let found = ranked(&store, &request, &vec![false, false], NOW);
    assert_eq!(paths(&found), vec!["/a".to_string(), "/b".to_string()]);
}

#[test]
fn only_matching_paths_are_ranked() {
    let mut store = Store::new();
    store.upsert("/home/user/projects", RANK_ONE, NOW);
    store.upsert("/home/user/Pictures", 9 * RANK_ONE, NOW);
    store.upsert("/var/projects/web", 5 * RANK_ONE, NOW);
    let on_disk = vec![true, true, true];
    let found = ranked(&store, &ask(&["pro"]), &on_disk, NOW);
    assert_eq!(paths(&found), vec!["/home/user/projects".to_string()]);
    let found = ranked(&store, &ask(&["pro", "web"]), &on_disk, NOW);
    assert_eq!(paths(&found), vec!["/var/projects/web".to_string()]);
    let found = ranked(&store, &ask(&["P"]), &on_disk, NOW);
    assert_eq!(paths(&found), vec!["/home/user/Pictures".to_string()]);
}

#[test]
fn ranking_goes_from_the_highest_score_down() {
    let mut store = Store::new();
    store.upsert("/one", RANK_ONE, NOW);
    store.upsert("/nine", 9 * RANK_ONE, NOW);
    store.upsert("/five", 5 * RANK_ONE, NOW);
    store.upsert("/old", 30 * RANK_ONE, NOW - 30 * DAY);
    let on_disk = vec![true, true, true, true];
    let found = ranked(&store, &ask(&[]), &on_disk, NOW);
    assert_eq!(
        paths(&found),
        vec!["/nine".to_string(), "/five".to_string(), "/old".to_string(), "/one".to_string()]
    );
    assert_eq!(found[0].score, 36 * SCORE_ONE);
    assert_eq!(found[1].score, 20 * SCORE_ONE);
    assert_eq!(found[2].score, 30 * SCORE_ONE / 4);
    assert_eq!(found[2].index, 3);
    assert_eq!(found[3].score, 4 * SCORE_ONE);
    let top = best(&store, &ask(&[]), &on_disk, NOW).ok().unwrap();
    assert_eq!(top, Match { index: 1, path: "/nine".to_string(), score: 36 * SCORE_ONE });
}

#[test]
fn equal_scores_prefer_the_shorter_path() {
    let mut store = Store::new();
    store.upsert("/work/deep/down", 2 * RANK_ONE, NOW);
    store.upsert("/work", 2 * RANK_ONE, NOW);
    store.upsert("/work/deep", 2 * RANK_ONE, NOW);
    let on_disk = vec![true, true, true];
    let request = Query { keywords: words(&[]), exclude: None, include_missing: false };
    let found = ranked(&store, &request, &on_disk, NOW);
    assert_eq!(
        paths(&found),
        vec!["/work".to_string(), "/work/deep".to_string(), "/work/deep/down".to_string()]
    );
    assert_eq!(best(&store, &request, &on_disk, NOW).ok().unwrap().path, "/work");
}

#[test]
fn equal_scores_and_lengths_keep_the_order_of_the_store() {
    let mut store = Store::new();
    store.upsert("/bb", RANK_ONE, NOW);
    store.upsert("/aa", RANK_ONE, NOW);
    store.upsert("/cc", RANK_ONE, NOW);
    let on_disk = vec![true, true, true];
    let found = ranked(&store, &ask(&[]), &on_disk, NOW);
    assert_eq!(paths(&found), vec!["/bb".to_string(), "/aa".to_string(), "/cc".to_string()]);
    assert_eq!(best(&store, &ask(&[]), &on_disk, NOW).ok().unwrap().path, "/bb");
}

#[test]
fn best_is_the_head_of_the_ranking() {
    let mut store = Store::new();
    let mut k: u64 = 0;
    while k < 40 {
        let path = format!("/dir{}/x{}", k % 7, (k * 37) % 11);
        store.upsert(&path, (k * 7919) % 13 * RANK_ONE + 1, NOW - (k * 50_000) % 900_000);
        k += 1;
    }
    let on_disk = vec![true; store.len()];
    let found = ranked(&store, &ask(&["x"]), &on_disk, NOW);
    assert_eq!(found.len(), store.len());
    let top = best(&store, &ask(&["x"]), &on_disk, NOW).ok().unwrap();
    assert_eq!(found[0], top);
    let mut i = 1;
    while i < found.len() {
        assert!(found[i - 1].score >= found[i].score);
        i += 1;
    }
}

#[test]
fn queries_do_not_change_the_store() {
    let mut store = Store::new();
    store.upsert("/a", 20_000 * RANK_ONE, NOW);
    let _ = ranked(&store, &ask(&[]), &vec![true], NOW);
    let _ = best(&store, &ask(&[]), &vec![true], NOW);
    assert_eq!(store.entries()[0].rank, 20_000 * RANK_ONE);
}

#[test]
fn no_match_is_an_error_for_a_single_answer() {
    let store = two_dirs();
    let on_disk = vec![true, true];
    assert_eq!(best(&store, &ask(&["zzz"]), &on_disk, NOW).err(), Some(ErrorKind::NoMatch));
    assert_eq!(query(&store, &ask(&["zzz"]), &on_disk, NOW, false), Err(ErrorKind::NoMatch));
    assert_eq!(best(&Store::new(), &ask(&[]), &Vec::new(), NOW).err(), Some(ErrorKind::NoMatch));
}

#[test]
fn no_match_is_an_empty_list() {
    let store = two_dirs();
    let on_disk = vec![true, true];
    assert_eq!(query(&store, &ask(&["zzz"]), &on_disk, NOW, true), Ok(Answer::List(Vec::new())));
}

#[test]
fn query_answers_in_the_mode_asked_for() {
    let store = two_dirs();
    let on_disk = vec![true, true];
    let single = query(&store, &ask(&[]), &on_disk, NOW, false);
    assert_eq!(
        single,
        Ok(Answer::Single(Match { index: 0, path: "/a".to_string(), score: 20 * SCORE_ONE }))
    );
    let list = query(&store, &ask(&[]), &on_disk, NOW, true);
    assert_eq!(
        list,
        Ok(Answer::List(vec![
            Match { index: 0, path: "/a".to_string(), score: 20 * SCORE_ONE },
            Match { index: 1, path: "/b".to_string(), score: 5 * SCORE_ONE },
        ]))
    );
}
