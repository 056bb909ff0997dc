use harbor::cli::{Cli, Command};
use harbor::paths::{blob_path, blobs_dir, gitignore_path, harbor_root, index_path, join_path, path_file_name, repo_name};
use harbor::text::{hex_lower, push_decimal, text_compare, text_starts_with, TextOrder};

#[test]
fn decimal_numerals() {
    for (n, s) in [(0u64, "0"), (7, "7"), (10, "10"), (1234567890, "1234567890"), (u64::MAX, "18446744073709551615")] {
        let mut out = String::from("n=");
        push_decimal(&mut out, n);
        assert_eq!(out, format!("n={s}"));
    }
}

#[test]
fn hex_digits() {
    assert_eq!(hex_lower(&[0x00, 0x0f, 0xa5, 0xff]), "000fa5ff");
    assert_eq!(hex_lower(&[]), "");
}

#[test]
fn text_order_is_byte_order() {
    assert!(matches!(text_compare("a", "b"), TextOrder::Less));
    assert!(matches!(text_compare("ab", "a"), TextOrder::Greater));
    assert!(matches!(text_compare("B", "a"), TextOrder::Less));
    assert!(matches!(text_compare("x", "x"), TextOrder::Equal));
    assert!(matches!(text_compare("z", "\u{e9}"), TextOrder::Less));
    assert!(text_starts_with("abcdef", "abc"));
    assert!(!text_starts_with("ab", "abc"));
}

#[test]
fn path_joining() {
    assert_eq!(join_path(b"/repo", b"x"), b"/repo/x".to_vec());
    assert_eq!(join_path(b"/repo/", b"x"), b"/repo/x".to_vec());
    assert_eq!(join_path(b"", b"x"), b"x".to_vec());
    assert_eq!(join_path(b"/repo", b"/abs"), b"/abs".to_vec());
    assert_eq!(join_path(b"a", b""), b"a/".to_vec());
}

#[test]
fn warehouse_paths() {
    assert_eq!(harbor_root(b"/r"), b"/r/.harbor".to_vec());
    assert_eq!(index_path(b"/r"), b"/r/.harbor/index.json".to_vec());
    assert_eq!(blobs_dir(b"/r"), b"/r/.harbor/blobs".to_vec());
    assert_eq!(gitignore_path(b"/r"), b"/r/.harbor/.gitignore".to_vec());
    assert_eq!(blob_path(b"/r", "abc_123"), b"/r/.harbor/blobs/abc_123".to_vec());
}

#[test]
fn file_names() {
    assert_eq!(path_file_name(b"/usr/bin/"), Some(b"bin".to_vec()));
    assert_eq!(path_file_name(b"tmp/foo.txt"), Some(b"foo.txt".to_vec()));
    assert_eq!(path_file_name(b"foo.txt/."), Some(b"foo.txt".to_vec()));
    assert_eq!(path_file_name(b"foo.txt/.//"), Some(b"foo.txt".to_vec()));
    assert_eq!(path_file_name(b"foo.txt/.."), None);
    assert_eq!(path_file_name(b"/"), None);
    assert_eq!(path_file_name(b""), None);
    assert_eq!(path_file_name(b"."), None);
    assert_eq!(path_file_name(b"./a"), Some(b"a".to_vec()));
}

#[test]
fn repository_names() {
    assert_eq!(repo_name(b"/home/me/harbor"), "harbor");
    assert_eq!(repo_name(b"/"), "unknown");
    assert_eq!(repo_name(b"/x/\xff"), "\u{fffd}");
}

#[test]
fn json_format_flag() {
    let mk = |f: &str| Cli { command: Command::Stats, repo: None, format: f.to_string() };
    assert!(mk("json").is_json());
    assert!(!mk("text").is_json());
    assert!(!mk("JSON").is_json());
    assert!(!mk("json ").is_json());
}
