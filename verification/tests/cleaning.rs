use harbor::clean::{clean, cutoff};
use harbor::model::{Artifact, Index, Timestamp};
use harbor::store::new_artifact;

fn at(secs: i64) -> Timestamp {
    Timestamp { secs, nanos: 0 }
}

fn art(data: &str, tag: &str, secs: i64) -> Artifact {
    new_artifact(data.as_bytes(), "c0ffee00", "repo", tag, Some(data), at(secs))
}

fn descs(v: &[Artifact]) -> Vec<String> {
    v.iter().map(|a| a.description.clone()).collect()
}

fn sample() -> Index {
    let mut index = Index::default();
    index.add(art("b1", "b", 100));
    index.add(art("a1", "a", 200));
    index.add(art("b2", "b", 300));
    index.add(art("a2", "a", 150));
    index.add(art("b3", "b", 300));
    index.add(art("c1", "c", 50));
    index
}

#[test]
fn clean_without_rules_removes_nothing() {
    let index = sample();
    let (left, removed) = clean(&index, None, None);
    assert_eq!(descs(&left.artifacts), descs(&index.artifacts));
    assert!(removed.is_empty());
}

#[test]
fn clean_by_age_removes_older_artifacts_in_index_order() {
    let index = sample();
    let (left, removed) = clean(&index, Some(at(150)), None);
    assert_eq!(descs(&left.artifacts), vec!["a1", "b2", "a2", "b3"]);
    assert_eq!(descs(&removed), vec!["b1", "c1"]);
}

#[test]
fn clean_keeps_newest_per_tag_grouped_by_first_occurrence() {
    let index = sample();
    let (left, removed) = clean(&index, None, Some(2));
    assert_eq!(descs(&left.artifacts), vec!["b2", "b3", "a1", "a2", "c1"]);
    assert_eq!(descs(&removed), vec!["b1"]);
}

#[test]
fn clean_keep_one_breaks_ties_by_index_order() {
    let index = sample();
    let (left, removed) = clean(&index, None, Some(1));
    assert_eq!(descs(&left.artifacts), vec!["b2", "a1", "c1"]);
    assert_eq!(descs(&removed), vec!["b3", "b1", "a2"]);
}

#[test]
fn clean_keep_zero_removes_everything() {
    let index = sample();
    let (left, removed) = clean(&index, None, Some(0));
    assert!(left.artifacts.is_empty());
    assert_eq!(descs(&removed), vec!["b2", "b3", "b1", "a1", "a2", "c1"]);
}

#[test]
fn clean_by_age_then_count() {
    let index = sample();
    let (left, removed) = clean(&index, Some(at(100)), Some(1));
    assert_eq!(descs(&left.artifacts), vec!["b2", "a1"]);
    assert_eq!(descs(&removed), vec!["c1", "b3", "b1", "a2"]);
    assert_eq!(left.artifacts.len() + removed.len(), index.artifacts.len());
}

#[test]
fn cleaning_again_removes_nothing() {
    let index = sample();
    let (left, _) = clean(&index, Some(at(100)), Some(1));
    let (again, removed) = clean(&left, Some(at(100)), Some(1));
    assert!(removed.is_empty());
    assert_eq!(descs(&again.artifacts), descs(&left.artifacts));
}

#[test]
fn clean_gives_the_same_order_every_time() {
    let index = sample();
    let (a, ra) = clean(&index, None, Some(2));
    let (b, rb) = clean(&index, None, Some(2));
    assert_eq!(descs(&a.artifacts), descs(&b.artifacts));
    assert_eq!(descs(&ra), descs(&rb));
}

#[test]
fn cutoff_is_whole_days_earlier() {
    let now = Timestamp { secs: 1_700_000_000, nanos: 123 };
    assert_eq!(cutoff(now, 1), Some(Timestamp { secs: 1_700_000_000 - 86_400, nanos: 123 }));
    assert_eq!(cutoff(now, 0), Some(now));
    assert_eq!(cutoff(now, 30), Some(Timestamp { secs: 1_700_000_000 - 30 * 86_400, nanos: 123 }));
}

#[test]
fn cutoff_out_of_range_is_none() {
    let now = Timestamp { secs: 1_700_000_000, nanos: 0 };
    assert_eq!(cutoff(now, u64::MAX / 2), None);
    assert_eq!(cutoff(now, 200_000_000), None);
    assert_eq!(cutoff(now, u64::MAX), None);
    assert_eq!(cutoff(now, (i64::MAX as u64) + 1), None);
}

#[test]
fn huge_age_limits_remove_nothing() {
    let index = sample();
    let now = Timestamp { secs: 1_700_000_000, nanos: 0 };
    for days in [u64::MAX, u64::MAX / 2, 200_000_000] {
        let (left, removed) = clean(&index, cutoff(now, days), None);
        assert!(removed.is_empty());
        assert_eq!(descs(&left.artifacts), descs(&index.artifacts));
    }
}

#[test]
fn cutoff_at_the_start_of_the_calendar() {
    let first = -8_334_601_228_800i64;
    let now = Timestamp { secs: first + 86_400, nanos: 5 };
    assert_eq!(cutoff(now, 1), Some(Timestamp { secs: first, nanos: 5 }));
    assert_eq!(cutoff(now, 2), None);
    let last = 8_210_266_876_799i64;
    let end = Timestamp { secs: last, nanos: 0 };
    assert_eq!(cutoff(end, 1), Some(Timestamp { secs: last - 86_400, nanos: 0 }));
}

#[test]
fn removed_and_kept_hold_every_artifact_once() {
    let index = sample();
    let (left, removed) = clean(&index, Some(at(100)), Some(1));
    let mut all: Vec<String> = descs(&removed);
    all.extend(descs(&left.artifacts));
    all.sort();
    let mut orig = descs(&index.artifacts);
    orig.sort();
    assert_eq!(all, orig);
}
