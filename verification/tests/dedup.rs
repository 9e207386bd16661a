use dnsblk::{check_domain, SeenDomains, LOG_DEDUP_WINDOW};

const SECOND: i64 = 1_000_000_000;

#[test]
fn the_window_is_1200_milliseconds() {
    assert_eq!(LOG_DEDUP_WINDOW, 1_200_000_000);
}

#[test]
fn the_first_sighting_is_reported() {
    let mut seen = SeenDomains::new();
    assert!(seen.get("a").is_none());
    assert_eq!(check_domain(&mut seen, "a", 5), Some(0));
    let known = seen.get("a").unwrap();
    assert_eq!(known.last, 5);
    assert_eq!(known.suppressed, 0);
}

#[test]
fn a_repeat_within_the_window_is_suppressed() {
    let mut seen = SeenDomains::new();
    assert_eq!(check_domain(&mut seen, "a", 0), Some(0));
    assert_eq!(check_domain(&mut seen, "a", LOG_DEDUP_WINDOW - 1), None);
    assert_eq!(seen.get("a").unwrap().suppressed, 1);
    assert_eq!(seen.get("a").unwrap().last, LOG_DEDUP_WINDOW - 1);
}

#[test]
fn a_repeat_at_the_end_of_the_window_is_reported() {
    let mut seen = SeenDomains::new();
    assert_eq!(check_domain(&mut seen, "a", 0), Some(0));
    assert_eq!(check_domain(&mut seen, "a", LOG_DEDUP_WINDOW), Some(0));
}

#[test]
fn each_suppressed_check_starts_the_window_anew() {
    let mut seen = SeenDomains::new();
    assert_eq!(check_domain(&mut seen, "a", 0), Some(0));
    assert_eq!(check_domain(&mut seen, "a", SECOND), None);
    assert_eq!(check_domain(&mut seen, "a", 2 * SECOND), None);
    assert_eq!(check_domain(&mut seen, "a", 3 * SECOND), None);
    assert_eq!(check_domain(&mut seen, "a", 5 * SECOND), Some(3));
    assert_eq!(check_domain(&mut seen, "a", 7 * SECOND), Some(0));
}

#[test]
fn time_that_goes_back_counts_as_none() {
    let mut seen = SeenDomains::new();
    assert_eq!(check_domain(&mut seen, "a", 10 * SECOND), Some(0));
    assert_eq!(check_domain(&mut seen, "a", 2 * SECOND), None);
    assert_eq!(seen.get("a").unwrap().last, 2 * SECOND);
}

#[test]
fn domains_are_counted_apart() {
    let mut seen = SeenDomains::new();
    assert_eq!(check_domain(&mut seen, "a", 0), Some(0));
    assert_eq!(check_domain(&mut seen, "b", 1), Some(0));
    assert_eq!(check_domain(&mut seen, "a", 2), None);
    assert_eq!(seen.get("b").unwrap().suppressed, 0);
    assert_eq!(seen.get("b").unwrap().last, 1);
    assert_eq!(seen.get("a").unwrap().suppressed, 1);
}

#[test]
fn a_report_forgets_the_domains_of_old() {
    let mut seen = SeenDomains::new();
    assert_eq!(check_domain(&mut seen, "old", 0), Some(0));
    assert_eq!(check_domain(&mut seen, "edge", SECOND), Some(0));
    assert_eq!(check_domain(&mut seen, "new", SECOND + LOG_DEDUP_WINDOW), Some(0));
    assert!(seen.get("old").is_none());
    assert!(seen.get("edge").is_some());
    assert!(seen.get("new").is_some());
}

#[test]
fn a_forgotten_count_is_lost() {
    let mut seen = SeenDomains::new();
    assert_eq!(check_domain(&mut seen, "a", 0), Some(0));
    assert_eq!(check_domain(&mut seen, "a", 1), None);
    assert_eq!(check_domain(&mut seen, "b", 9 * SECOND), Some(0));
    assert_eq!(check_domain(&mut seen, "a", 10 * SECOND), Some(0));
}

#[test]
fn a_suppressed_check_forgets_nothing() {
    let mut seen = SeenDomains::new();
    assert_eq!(check_domain(&mut seen, "old", 0), Some(0));
    assert_eq!(check_domain(&mut seen, "a", SECOND), Some(0));
    assert_eq!(check_domain(&mut seen, "a", 2 * SECOND), None);
    assert!(seen.get("old").is_some());
}

#[test]
fn where_time_does_not_reach_back_only_now_is_kept() {
    let mut seen = SeenDomains::new();
    assert_eq!(check_domain(&mut seen, "a", i64::MIN), Some(0));
    assert_eq!(check_domain(&mut seen, "b", i64::MIN + 1), Some(0));
    assert!(seen.get("a").is_none());
    assert!(seen.get("b").is_some());
    assert!(seen.room_for("b", i64::MIN + 1));
}
