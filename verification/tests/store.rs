use zoxide::aging::{decay, AGE_MIN, AGE_THRESHOLD};
use zoxide::entry::{score_of, DirEntry, DAY, HOUR, RANK_ONE, SCORE_ONE, WEEK};
use zoxide::error::ErrorKind;
use zoxide::store::Store;

fn entry(path: &str, rank: u64, last_accessed: u64) -> DirEntry {
    DirEntry { path: path.to_string(), rank, last_accessed }
}

#[test]
fn new_store_is_empty() {
    let store = Store::new();
    assert!(store.is_empty());
    assert_eq!(store.len(), 0);
    assert_eq!(store.total_rank(), 0);
    assert_eq!(store.get("/a"), None);
    assert!(!store.contains("/a"));
}

#[test]
fn upsert_inserts_with_the_weight_as_rank() {
    let mut store = Store::new();
    store.upsert("/a", 5 * RANK_ONE, 100);
    assert_eq!(store.len(), 1);
    assert_eq!(store.get("/a"), Some(entry("/a", 5 * RANK_ONE, 100)));
    assert!(store.contains("/a"));
    assert!(!store.contains("/A"));
}

#[test]
fn upsert_adds_the_weight_and_replaces_the_timestamp() {
    let mut store = Store::new();
    store.upsert("/a", 5 * RANK_ONE, 100);
    store.upsert("/b", RANK_ONE, 150);
    store.upsert("/a", 2 * RANK_ONE, 90);
    assert_eq!(store.len(), 2);
    assert_eq!(store.get("/a"), Some(entry("/a", 7 * RANK_ONE, 90)));
    assert_eq!(store.get("/b"), Some(entry("/b", RANK_ONE, 150)));
    assert_eq!(store.entries()[0].path, "/a");
    assert_eq!(store.entries()[1].path, "/b");
}

#[test]
fn upsert_holds_the_rank_at_the_largest_rank() {
    let mut store = Store::new();
    store.upsert("/a", u64::MAX - 1, 1);
    store.upsert("/a", 5, 2);
    assert_eq!(store.get("/a"), Some(entry("/a", u64::MAX, 2)));
}

#[test]
fn add_twice_sums_both_weights() {
    let mut store = Store::new();
    store.add("/p", 1_000);
    store.add("/p", 1_000);
    assert_eq!(store.get("/p"), Some(entry("/p", 2 * RANK_ONE, 1_000)));
    store.add("/p", 2_000);
    assert_eq!(store.get("/p"), Some(entry("/p", 3 * RANK_ONE, 2_000)));
}

#[test]
fn add_weighted_sums_the_given_weights() {
    let mut store = Store::new();
    store.add_weighted("/p", 1_500, 10);
    store.add_weighted("/p", 2_250, 20);
    assert_eq!(store.get("/p"), Some(entry("/p", 3_750, 20)));
}

#[test]
fn remove_takes_the_entry_out() {
    let mut store = Store::new();
    store.upsert("/a", RANK_ONE, 1);
    store.upsert("/b", RANK_ONE, 2);
    store.upsert("/c", RANK_ONE, 3);
    assert_eq!(store.remove("/b"), Ok(()));
    assert_eq!(store.len(), 2);
    assert_eq!(store.get("/b"), None);
    assert_eq!(store.entries()[0].path, "/a");
    assert_eq!(store.entries()[1].path, "/c");
}

#[test]
fn remove_of_an_unknown_path_is_invalid_input() {
    let mut store = Store::new();
    store.upsert("/a", RANK_ONE, 1);
    assert_eq!(store.remove("/b"), Err(ErrorKind::InvalidInput));
    assert_eq!(store.len(), 1);
    assert_eq!(store.get("/a"), Some(entry("/a", RANK_ONE, 1)));
}

#[test]
fn total_rank_is_the_sum_of_all_ranks() {
    let mut store = Store::new();
    store.upsert("/a", 5, 1);
    store.upsert("/b", 7, 1);
    store.upsert("/a", 1, 1);
    assert_eq!(store.total_rank(), 13);
}

#[test]
fn total_rank_does_not_overflow() {
    let mut store = Store::new();
    store.upsert("/a", u64::MAX, 1);
    store.upsert("/b", u64::MAX, 1);
    assert_eq!(store.total_rank(), 2 * (u64::MAX as u128));
}

#[test]
fn decay_scales_by_three_quarters_rounded_down() {
    assert_eq!(decay(0), 0);
    assert_eq!(decay(1_000), 750);
    assert_eq!(decay(4_001), 3_000);
    assert_eq!(decay(3), 2);
    assert_eq!(decay(u64::MAX), 13_835_058_055_282_163_711);
}

#[test]
fn age_leaves_a_store_at_the_ceiling_alone() {
    let mut store = Store::new();
    store.upsert("/a", AGE_THRESHOLD - 1, 1);
    store.upsert("/b", 1, 2);
    store.age();
    assert_eq!(store.get("/a"), Some(entry("/a", AGE_THRESHOLD - 1, 1)));
    assert_eq!(store.get("/b"), Some(entry("/b", 1, 2)));
}

#[test]
fn age_scales_and_prunes_above_the_ceiling() {
    let mut store = Store::new();
    store.upsert("/big", AGE_THRESHOLD, 1);
    store.upsert("/small", AGE_MIN, 2);
    store.upsert("/kept", 1_334, 3);
    store.upsert("/dropped", 1_333, 4);
    store.age();
    assert_eq!(store.len(), 2);
    assert_eq!(store.get("/big"), Some(entry("/big", 7_500_000, 1)));
    assert_eq!(store.get("/kept"), Some(entry("/kept", 1_000, 3)));
    assert_eq!(store.get("/small"), None);
    assert_eq!(store.get("/dropped"), None);
}

#[test]
fn age_is_a_no_op_once_below_the_ceiling() {
    let mut store = Store::new();
    store.upsert("/a", AGE_THRESHOLD, 1);
    store.upsert("/b", 4_000, 2);
    store.age();
    let total = store.total_rank();
    assert_eq!(total, 7_503_000);
    store.age();
    assert_eq!(store.total_rank(), total);
    assert_eq!(store.get("/b"), Some(entry("/b", 3_000, 2)));
}

#[test]
fn repeated_adds_keep_the_total_under_the_ceiling() {
    let mut store = Store::new();
    let mut now = 0;
    while now < 12_000 {
        store.add("/a", now);
        store.add("/b", now);
        assert!(store.total_rank() <= AGE_THRESHOLD as u128);
        now += 1;
    }
    assert!(store.total_rank() > 0);
}

#[test]
fn aging_never_raises_a_rank() {
    let mut store = Store::new();
    store.upsert("/a", 9_999_000, 1);
    store.upsert("/b", 2_000, 2);
    store.add("/c", 3);
    assert_eq!(store.get("/a"), Some(entry("/a", 7_499_250, 1)));
    assert_eq!(store.get("/b"), Some(entry("/b", 1_500, 2)));
    assert_eq!(store.get("/c"), None);
    assert!(store.total_rank() <= AGE_THRESHOLD as u128);
}

#[test]
fn a_heavy_import_can_stay_above_the_ceiling_after_one_step() {
    let mut store = Store::new();
    store.add_weighted("/a", 100_000 * RANK_ONE, 1);
    assert_eq!(store.get("/a"), Some(entry("/a", 75_000 * RANK_ONE, 1)));
}

#[test]
fn import_adds_every_record() {
    let mut store = Store::new();
    store.upsert("/a", RANK_ONE, 5);
    let records = vec![entry("/a", 2 * RANK_ONE, 9), entry("/b", 3 * RANK_ONE, 7)];
    assert_eq!(store.import(&records), Ok(()));
    assert_eq!(store.get("/a"), Some(entry("/a", 3 * RANK_ONE, 9)));
    assert_eq!(store.get("/b"), Some(entry("/b", 3 * RANK_ONE, 7)));
}

#[test]
fn import_of_a_record_without_a_path_changes_nothing() {
    let mut store = Store::new();
    store.upsert("/a", RANK_ONE, 5);
    let records = vec![entry("/b", RANK_ONE, 9), entry("", RANK_ONE, 7)];
    assert_eq!(store.import(&records), Err(ErrorKind::InvalidInput));
    assert_eq!(store.len(), 1);
    assert_eq!(store.get("/b"), None);
}

#[test]
fn import_of_nothing_changes_nothing() {
    let mut store = Store::new();
    store.upsert("/a", RANK_ONE, 5);
    assert_eq!(store.import(&Vec::new()), Ok(()));
    assert_eq!(store.len(), 1);
}

#[test]
fn from_entries_keeps_the_entries_in_order() {
    let made = Store::from_entries(vec![entry("/b", 2, 1), entry("/a", 1, 2)]);
    let store = made.ok().unwrap();
    assert_eq!(store.entries()[0], entry("/b", 2, 1));
    assert_eq!(store.entries()[1], entry("/a", 1, 2));
}

#[test]
fn from_entries_refuses_a_path_that_occurs_twice() {
    let made = Store::from_entries(vec![entry("/a", 2, 1), entry("/b", 1, 2), entry("/a", 3, 3)]);
    assert_eq!(made.err(), Some(ErrorKind::InvalidInput));
}

#[test]
fn entries_can_be_cloned_and_built() {
    let e = DirEntry::new("/a", 4, 2);
    assert_eq!(e, entry("/a", 4, 2));
    assert_eq!(e.clone(), e);
}

#[test]
fn score_within_the_hour_is_four_times_the_rank() {
    assert_eq!(score_of(5 * RANK_ONE, 1_000_000 - 30, 1_000_000), 20 * SCORE_ONE);
    assert_eq!(score_of(RANK_ONE, 100, 100 + HOUR - 1), 4 * SCORE_ONE);
    assert_eq!(score_of(1, 0, 0), 16);
}

#[test]
fn score_within_the_day_is_twice_the_rank() {
    assert_eq!(score_of(RANK_ONE, 100, 100 + HOUR), 2 * SCORE_ONE);
    assert_eq!(score_of(RANK_ONE, 100, 100 + DAY - 1), 2 * SCORE_ONE);
}

#[test]
fn score_within_the_week_is_half_the_rank() {
    assert_eq!(score_of(RANK_ONE, 100, 100 + DAY), SCORE_ONE / 2);
    assert_eq!(score_of(10 * RANK_ONE, 0, 2 * DAY), 5 * SCORE_ONE);
    assert_eq!(score_of(RANK_ONE, 100, 100 + WEEK - 1), SCORE_ONE / 2);
}

#[test]
fn score_after_a_week_is_a_quarter_of_the_rank() {
    assert_eq!(score_of(RANK_ONE, 100, 100 + WEEK), SCORE_ONE / 4);
    assert_eq!(score_of(3, 0, u64::MAX), 3);
}

#[test]
fn score_of_a_visit_in_the_future_counts_as_fresh() {
    assert_eq!(score_of(RANK_ONE, 200, 100), 4 * SCORE_ONE);
}

#[test]
fn score_fits_for_the_largest_rank() {
    assert_eq!(score_of(u64::MAX, 0, 0), 16 * (u64::MAX as u128));
    assert_eq!(entry("/a", 2, 10).score(10), 32);
}
