use cargo_new_release::repo::{
    extract_username, new_pr_url, origin_url_ok, parse_ls_tree_line, subproject_hashes,
    upstream_url_ok,
};

#[test]
fn two_subproject_hashes_are_extracted_in_order() {
    let diff = "diff --git a/src/tools/cargo b/src/tools/cargo\n\
                -Subproject commit 0a1b2c3d4e\n\
                +Subproject commit f9e8d7c6b5\n";
    let (a, b) = subproject_hashes(diff).unwrap();
    assert_eq!(a, "0a1b2c3d4e");
    assert_eq!(b, "f9e8d7c6b5");
}

#[test]
fn wrong_subproject_hash_count_is_rejected() {
    assert!(subproject_hashes("Subproject commit 0a1b2c\n").is_none());
    assert!(subproject_hashes("nothing here\n").is_none());
    let three = "Subproject commit aa\nSubproject commit bb\nSubproject commit cc\n";
    assert!(subproject_hashes(three).is_none());
}

#[test]
fn ls_tree_line_yields_pinned_hash() {
    let line = "160000 commit deadbeef0123\tsrc/tools/cargo";
    assert_eq!(parse_ls_tree_line(line).unwrap(), "deadbeef0123");
    assert!(parse_ls_tree_line("100644 blob deadbeef src/tools/cargo").is_none());
    assert!(parse_ls_tree_line("160000 commit deadbeef other/path").is_none());
    assert!(parse_ls_tree_line("160000 commit").is_none());
}

#[test]
fn remote_url_checks() {
    assert!(upstream_url_ok("https://github.com/rust-lang/cargo.git"));
    assert!(!upstream_url_ok("https://github.com/someone/cargo.git"));
    assert!(origin_url_ok("git@github.com:someone/cargo.git"));
    assert!(!origin_url_ok("git@github.com:someone/other.git"));
}

#[test]
fn username_is_extracted_from_origin() {
    assert_eq!(
        extract_username("https://github.com/some-user/cargo.git").unwrap(),
        "some-user"
    );
    assert!(extract_username("https://github.com/some-user/other.git").is_none());
}

#[test]
fn new_pr_address() {
    assert_eq!(
        new_pr_url("some-user"),
        "https://github.com/some-user/cargo/pull/new/version-bump"
    );
}
