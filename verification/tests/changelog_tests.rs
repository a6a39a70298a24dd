use cargo_new_release::changelog::{
    beta_label, insert_at_added, insert_new_section, partition_prs, prep_changelog_text,
    retarget_head_links, to_links, ChangelogError,
};
use cargo_new_release::version::Version;

#[test]
fn beta_label_text() {
    assert_eq!(beta_label(70), "rust-1.70.0");
}

#[test]
fn retarget_rewrites_both_links() {
    let doc = "# Changelog\n\n## Cargo 1.71 (2023-07-13)\n\
               [abcdef12...HEAD](https://github.com/rust-lang/cargo/compare/abcdef12...HEAD)\n\n\
               ### Added\n";
    let (out, hash) = retarget_head_links(doc, 70).unwrap();
    assert_eq!(hash, "abcdef12");
    assert_eq!(
        out,
        "# Changelog\n\n## Cargo 1.71 (2023-07-13)\n\
         [abcdef12...rust-1.70.0](https://github.com/rust-lang/cargo/compare/abcdef12...rust-1.70.0)\n\n\
         ### Added\n"
    );
}

#[test]
fn retarget_rejects_wrong_count() {
    let one = "only [abcdef12...HEAD] here\n";
    assert_eq!(retarget_head_links(one, 70).err().unwrap(), ChangelogError::HeadLinkCount);
    let three = "[ab...HEAD] [cd...HEAD] [ef...HEAD]\n";
    assert_eq!(retarget_head_links(three, 70).err().unwrap(), ChangelogError::HeadLinkCount);
    assert_eq!(retarget_head_links("none\n", 70).err().unwrap(), ChangelogError::HeadLinkCount);
}

#[test]
fn retarget_rejects_mismatched_hashes() {
    let doc = "[abcdef12...HEAD](compare/12345678...HEAD)\n";
    assert_eq!(retarget_head_links(doc, 70).err().unwrap(), ChangelogError::HeadLinkMismatch);
}

#[test]
fn dedup_documented_pr() {
    let changelog = "## Cargo 1.70\n- Old fix \n  [#42](https://github.com/rust-lang/cargo/pull/42)\n### Added\n";
    let prs = vec![
        (
            42,
            String::from("https://github.com/rust-lang/cargo/pull/42"),
            String::from("Old fix"),
        ),
        (
            43,
            String::from("https://github.com/rust-lang/cargo/pull/43"),
            String::from("New fix"),
        ),
    ];
    let (fresh, skipped) = partition_prs(changelog, prs);
    assert_eq!(fresh.len(), 1);
    assert_eq!(fresh[0].0, 43);
    assert_eq!(skipped.len(), 1);
    assert_eq!(skipped[0].0, 42);
}

#[test]
fn link_lines_render_exactly() {
    let prs = vec![
        (
            42,
            String::from("https://github.com/rust-lang/cargo/pull/42"),
            String::from("Fix it"),
        ),
    ];
    assert_eq!(
        to_links(&prs),
        "- Fix it \n  [#42](https://github.com/rust-lang/cargo/pull/42)\n"
    );
}

#[test]
fn insert_before_added_marker() {
    let doc = "intro\n### Added\nrest\n";
    let out = insert_at_added(doc, "- New \n").unwrap();
    assert_eq!(out, "intro\n- New \n### Added\nrest\n");
    assert_eq!(
        insert_at_added("no marker\n", "x").err().unwrap(),
        ChangelogError::MissingAddedSection
    );
}

#[test]
fn insert_section_after_title() {
    let doc = "# Changelog\nrest\n";
    let out = insert_new_section(doc, "SECTION").unwrap();
    assert_eq!(out, "# Changelog\nSECTIONrest\n");
    assert_eq!(
        insert_new_section("wrong start\n", "x").err().unwrap(),
        ChangelogError::MissingTitle
    );
}

#[test]
fn prep_rejects_short_beta_hash() {
    let next = Version { major: 0, minor: 73, patch: 0 };
    assert_eq!(
        prep_changelog_text("# Changelog\n", &next, "abc", "", "").err().unwrap(),
        ChangelogError::ShortBetaHash
    );
}

#[test]
fn prep_changelog_full_scenario() {
    let changelog = "# Changelog\n\n## Cargo 1.71 (2023-07-13)\n\
        [abcdef12...HEAD](https://github.com/rust-lang/cargo/compare/abcdef12...HEAD)\n\n\
        ### Added\n\n- Old fix \n  [#42](https://github.com/rust-lang/cargo/pull/42)\n";
    let next = Version { major: 0, minor: 73, patch: 0 };
    let beta_full = "fedcba9876543210fedcba9876543210fedcba98";
    let master_log = "commit aaa\n    Auto merge of #100 - a:b, r=c\n    Nightly change\n";
    let beta_log = "commit bbb\n    Beta change (#42)\n\
                    commit ccc\n    Another beta change (#101)\n";
    let up = prep_changelog_text(changelog, &next, beta_full, master_log, beta_log).unwrap();

    assert_eq!(up.beta_hash_start, "abcdef12");
    assert_eq!(up.master_new.len(), 1);
    assert_eq!(up.master_new[0].0, 100);
    assert_eq!(up.master_skipped.len(), 0);
    // PR 42 is already documented: skipped, not kept.
    assert_eq!(up.beta_new.len(), 1);
    assert_eq!(up.beta_new[0].0, 101);
    assert_eq!(up.beta_skipped.len(), 1);
    assert_eq!(up.beta_skipped[0].0, 42);

    let expected = "# Changelog\n\
        \n## Cargo 1.72 (2023-08-24)\n\
        [fedcba98...HEAD](https://github.com/rust-lang/cargo/compare/fedcba98...HEAD)\n\n\
        - Nightly change \n  [#100](https://github.com/rust-lang/cargo/pull/100)\n\
        \n\n### Added\n\n### Changed\n\n### Fixed\n\n### Nightly only\n\n\
        \n## Cargo 1.71 (2023-07-13)\n\
        [abcdef12...rust-1.71.0](https://github.com/rust-lang/cargo/compare/abcdef12...rust-1.71.0)\n\n\
        - Another beta change \n  [#101](https://github.com/rust-lang/cargo/pull/101)\n\
        ### Added\n\n- Old fix \n  [#42](https://github.com/rust-lang/cargo/pull/42)\n";
    assert_eq!(up.text, expected);
}
