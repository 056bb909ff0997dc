use harbor::clean::{clean, cutoff};
use harbor::model::{Artifact, HarborError, Index, Timestamp};
use harbor::query::{list, show, stats};
use harbor::store::{commit_from_git, new_artifact, require_input};

const COMMIT: &str = "0123456789abcdef0123456789abcdef01234567";

fn at(secs: i64) -> Timestamp {
    Timestamp { secs, nanos: 0 }
}

fn make(data: &[u8], tag: &str, desc: Option<&str>, secs: i64) -> Artifact {
    new_artifact(data, COMMIT, "demo", tag, desc, at(secs))
}

#[test]
fn store_and_list() {
    let mut index = Index::default();
    let artifact = make(b"BUILD OK\n", "build-log", Some("test build"), 1_700_000_000);
    assert_eq!(artifact.tag, "build-log");
    assert_eq!(artifact.description, "test build");
    assert!(artifact.size_bytes > 0);
    index.add(artifact);

    let all = list(&index, None, None);
    assert_eq!(all.len(), 1);

    let by_tag = list(&index, None, Some("build-log"));
    assert_eq!(by_tag.len(), 1);

    let by_tag_miss = list(&index, None, Some("nope"));
    assert_eq!(by_tag_miss.len(), 0);
}

#[test]
fn show_artifact() {
    let mut index = Index::default();
    let artifact = make(b"hello harbor", "output", None, 1_700_000_000);
    index.add(artifact.clone());
    let found = show(&index, &artifact.id).unwrap();
    assert_eq!(found.id, artifact.id);
    assert_eq!(found.size_bytes, 12);
}

#[test]
fn clean_by_keep() {
    let mut index = Index::default();
    for i in 0..3 {
        let data = format!("data {i}");
        index.add(make(data.as_bytes(), "log", None, 1_700_000_000 + i));
    }
    let all = list(&index, None, None);
    assert_eq!(all.len(), 3);

    let (left, removed) = clean(&index, None, Some(1));
    assert_eq!(removed.len(), 2);

    let remaining = list(&left, None, None);
    assert_eq!(remaining.len(), 1);
}

#[test]
fn stats_counting() {
    let mut index = Index::default();
    index.add(make(b"aaa", "alpha", None, 1_700_000_000));
    index.add(make(b"bbb", "beta", None, 1_700_000_001));
    let s = stats(&index);
    assert_eq!(s.artifact_count, 2);
    assert_eq!(s.unique_tags, 2);
    assert_eq!(s.unique_commits, 1);
}

#[test]
fn artifact_fields_follow_content_and_commit() {
    let a = make(b"BUILD OK\n", "build-log", None, 5);
    assert_eq!(a.sha256, "67265cd51a49771fcb5abac8e8a9fa6f6ba49a01ff57813016c7f5d2e9aa8d57");
    assert_eq!(a.id, "01234567_67265cd5");
    assert_eq!(a.commit, COMMIT);
    assert_eq!(a.repo_name, "demo");
    assert_eq!(a.description, "");
    assert_eq!(a.size_bytes, 9);
    assert_eq!(a.stored_at, at(5));
    assert_eq!(a.sha256.len(), 64);
}

#[test]
fn artifact_id_of_a_short_commit() {
    let a = new_artifact(b"", "abc", "demo", "t", None, at(0));
    assert_eq!(a.id, "abc_e3b0c442");
    assert_eq!(a.size_bytes, 0);
}

#[test]
fn same_content_same_id() {
    let a = make(b"aaa", "x", None, 1);
    let b = make(b"aaa", "y", Some("other"), 2);
    assert_eq!(a.id, b.id);
    assert_ne!(a.id, make(b"bbb", "x", None, 1).id);
}

#[test]
fn empty_stdin_is_refused() {
    match require_input(b"", true) {
        Err(HarborError::Validation(m)) => assert_eq!(m, "No input data. Provide --file or pipe to stdin."),
        other => panic!("unexpected {other:?}"),
    }
    assert!(require_input(b"", false).is_ok());
    assert!(require_input(b"x", true).is_ok());
}

#[test]
fn commit_from_git_output() {
    assert_eq!(commit_from_git(true, b"  abc123\n").unwrap(), "abc123");
    match commit_from_git(false, b"abc") {
        Err(HarborError::Validation(m)) => assert_eq!(m, "Not a git repository or no commits yet"),
        other => panic!("unexpected {other:?}"),
    }
    assert_eq!(commit_from_git(true, b"a\xffb").unwrap(), "a\u{fffd}b");
    assert_eq!(
        commit_from_git(true, "\u{3000}\t abc def\u{a0}\u{2028}\n".as_bytes()).unwrap(),
        "abc def"
    );
    assert_eq!(commit_from_git(true, b" \n ").unwrap(), "");
}

#[test]
fn listing_filters_by_commit_prefix_and_tag() {
    let mut index = Index::default();
    index.add(new_artifact(b"1", "aaaa1111", "r", "x", None, at(1)));
    index.add(new_artifact(b"2", "aaaa2222", "r", "y", None, at(2)));
    index.add(new_artifact(b"3", "bbbb3333", "r", "x", None, at(3)));
    assert_eq!(list(&index, Some("aaaa"), None).len(), 2);
    assert_eq!(list(&index, Some("aaaa"), Some("x")).len(), 1);
    assert_eq!(list(&index, Some("aaaa2"), None)[0].commit, "aaaa2222");
    assert_eq!(list(&index, Some(""), None).len(), 3);
    assert_eq!(list(&index, Some("c"), None).len(), 0);
    let all = list(&index, None, None);
    assert_eq!(all.len(), 3);
    assert_eq!(all[2].commit, "bbbb3333");
    let xs = list(&index, None, Some("x"));
    assert_eq!(xs[0].commit, "aaaa1111");
    assert_eq!(xs[1].commit, "bbbb3333");
}

#[test]
fn show_takes_first_prefix_match() {
    let mut index = Index::default();
    let a = new_artifact(b"1", "aaaa1111", "r", "x", None, at(1));
    let b = new_artifact(b"2", "aaaa2222", "r", "y", None, at(2));
    index.add(a.clone());
    index.add(b.clone());
    assert_eq!(show(&index, "aaaa").unwrap().id, a.id);
    assert_eq!(show(&index, "aaaa2").unwrap().id, b.id);
    assert_eq!(show(&index, &b.id).unwrap().id, b.id);
}

#[test]
fn show_unknown_id_is_refused() {
    let index = Index::default();
    match show(&index, "zzz") {
        Err(e) => {
            assert_eq!(e.exit_code(), 1);
            assert_eq!(e.error_code(), "validation_error");
            match e {
                HarborError::Validation(m) => assert_eq!(m, "Artifact not found: zzz"),
                other => panic!("unexpected {other:?}"),
            }
        }
        Ok(a) => panic!("unexpected {a:?}"),
    }
}

#[test]
fn added_artifact_is_found() {
    let mut index = Index::default();
    index.add(make(b"one", "t", None, 1));
    let a = make(b"two", "t", None, 2);
    index.add(a.clone());
    assert_eq!(show(&index, &a.id).unwrap().sha256, a.sha256);
}

#[test]
fn error_codes() {
    let io = HarborError::Io(std::io::Error::new(std::io::ErrorKind::Other, "boom"));
    assert_eq!(io.exit_code(), 2);
    assert_eq!(io.error_code(), "io_error");
    let json = HarborError::Json(serde_json::from_str::<u8>("x").unwrap_err());
    assert_eq!(json.exit_code(), 1);
    assert_eq!(json.error_code(), "json_error");
}

#[test]
fn stats_total_and_sorted_tags() {
    let mut index = Index::default();
    index.add(new_artifact(b"12345", "c1", "r", "zeta", None, at(1)));
    index.add(new_artifact(b"123", "c2", "r", "alpha", None, at(2)));
    index.add(new_artifact(b"1", "c1", "r", "zeta", None, at(3)));
    index.add(new_artifact(b"12", "c3", "r", "Beta", None, at(4)));
    let s = stats(&index);
    assert_eq!(s.artifact_count, 4);
    assert_eq!(s.total_size_bytes, 11);
    assert_eq!(s.tags, vec!["Beta".to_string(), "alpha".to_string(), "zeta".to_string()]);
    assert_eq!(s.unique_tags, 3);
    assert_eq!(s.unique_commits, 3);
}

#[test]
fn stats_after_store_and_in_any_order() {
    let mut index = Index::default();
    index.add(new_artifact(b"12345", "c1", "r", "zeta", None, at(1)));
    index.add(new_artifact(b"123", "c2", "r", "alpha", None, at(2)));
    let before = stats(&index);
    index.add(new_artifact(b"1", "c2", "r", "mid", None, at(3)));
    let after = stats(&index);
    assert_eq!(after.artifact_count, before.artifact_count + 1);
    assert_eq!(after.total_size_bytes, before.total_size_bytes + 1);
    assert_eq!(after.tags, vec!["alpha".to_string(), "mid".to_string(), "zeta".to_string()]);
    assert_eq!(after.unique_commits, before.unique_commits);
    let mut reversed = Index::default();
    for a in index.artifacts.iter().rev() {
        reversed.add(a.clone());
    }
    let other = stats(&reversed);
    assert_eq!(other.tags, after.tags);
    assert_eq!(other.total_size_bytes, after.total_size_bytes);
    assert_eq!(other.unique_commits, after.unique_commits);
}

#[test]
fn stats_of_empty_index() {
    let s = stats(&Index::default());
    assert_eq!(s.artifact_count, 0);
    assert_eq!(s.total_size_bytes, 0);
    assert!(s.tags.is_empty());
    assert_eq!(s.unique_commits, 0);
}
