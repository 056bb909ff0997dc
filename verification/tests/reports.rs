use harbor::model::{Artifact, Timestamp};
use harbor::query::WarehouseStats;
use harbor::report::{render_clean, render_list, render_show, render_stats, render_stored};

fn art(id: &str, tag: &str, commit: &str, size: u64, desc: &str) -> Artifact {
    Artifact {
        id: id.to_string(),
        repo_name: "repo".to_string(),
        commit: commit.to_string(),
        tag: tag.to_string(),
        description: desc.to_string(),
        size_bytes: size,
        sha256: "67265cd51a49771fcb5abac8e8a9fa6f6ba49a01ff57813016c7f5d2e9aa8d57".to_string(),
        stored_at: Timestamp { secs: 0, nanos: 0 },
    }
}

#[test]
fn stored_report() {
    let a = art("0123abcd_67265cd5", "build-log", "0123abcdef0123456789", 9, "Release build");
    assert_eq!(
        render_stored(&a),
        "Stored artifact:\n  ID:     0123abcd_67265cd5\n  Tag:    build-log\n  Commit: 0123abcdef01\n  Size:   9 bytes\n  SHA256: 67265cd51a49771f\u{2026}\n  Desc:   Release build\n"
    );
    let b = art("x", "t", "abc", 0, "");
    assert_eq!(
        render_stored(&b),
        "Stored artifact:\n  ID:     x\n  Tag:    t\n  Commit: abc\n  Size:   0 bytes\n  SHA256: 67265cd51a49771f\u{2026}\n"
    );
}

#[test]
fn list_report() {
    assert_eq!(render_list(&vec![]), "No artifacts found.\n");
    let v = vec![art("i1", "log", "0123456789ab", 12, ""), art("i2", "bin", "ab", 3, "nightly")];
    assert_eq!(
        render_list(&v),
        "2 artifact(s):\n\n  i1 [log] @01234567 (12 bytes)\n  i2 [bin] @ab (3 bytes) \u{2014} nightly\n"
    );
}

#[test]
fn show_report() {
    let a = art("i1", "log", "c", 1, "");
    assert_eq!(render_show(&a, "hello harbor"), "\u{2500}\u{2500} i1 [log] \u{2500}\u{2500}\n\nhello harbor\n");
}

#[test]
fn clean_report() {
    assert_eq!(render_clean(&vec![], true), "Nothing to clean.\n");
    let v = vec![art("i1", "log", "c", 10, ""), art("i2", "log", "c", 20, "")];
    assert_eq!(render_clean(&v, true), "Would remove 2 artifact(s):\n  - i1 [log] (10 bytes)\n  - i2 [log] (20 bytes)\n");
    assert_eq!(render_clean(&v[..1].to_vec(), false), "Removed 1 artifact(s):\n  - i1 [log] (10 bytes)\n");
}

#[test]
fn stats_report() {
    let st = WarehouseStats {
        artifact_count: 3,
        total_size_bytes: 1024,
        unique_tags: 2,
        unique_commits: 1,
        tags: vec!["alpha".to_string(), "beta".to_string()],
    };
    assert_eq!(
        render_stats(&st),
        "Harbor warehouse:\n  Artifacts: 3\n  Total size: 1024 bytes\n  Unique tags: 2\n  Unique commits: 1\n  Tags: alpha, beta\n"
    );
    let empty = WarehouseStats { artifact_count: 0, total_size_bytes: 0, unique_tags: 0, unique_commits: 0, tags: vec![] };
    assert_eq!(
        render_stats(&empty),
        "Harbor warehouse:\n  Artifacts: 0\n  Total size: 0 bytes\n  Unique tags: 0\n  Unique commits: 0\n"
    );
}
