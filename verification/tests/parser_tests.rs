use cargo_new_release::logparse::{commits_in_log, commits_in_log_issues, commits_in_log_strict, BlockIssue};

#[test]
fn single_auto_merge_commit() {
    let log = "commit abc\n    Auto merge of #123 - someone:feat, r=bors\n    Add new flag\n";
    let records = commits_in_log(log);
    assert_eq!(records.len(), 1);
    assert_eq!(records[0].0, 123);
    assert_eq!(records[0].1, "https://github.com/rust-lang/cargo/pull/123");
    assert_eq!(records[0].2, "Add new flag");
}

#[test]
fn empty_input_empty_output() {
    assert_eq!(commits_in_log("").len(), 0);
    let strict = commits_in_log_strict("");
    assert!(strict.is_ok());
    assert_eq!(strict.unwrap().len(), 0);
}

#[test]
fn one_record_per_block_in_order() {
    let log = "commit aaa111\n    Auto merge of #1 - x:one, r=r\n    First\n\
               commit bbb222\n    Merge pull request #2 from y/two\n    Second\n";
    let records = commits_in_log(log);
    assert_eq!(records.len(), 2);
    assert_eq!(records[0].0, 1);
    assert_eq!(records[0].1, "https://github.com/rust-lang/cargo/pull/1");
    assert_eq!(records[0].2, "First");
    assert_eq!(records[1].0, 2);
    assert_eq!(records[1].1, "https://github.com/rust-lang/cargo/pull/2");
    assert_eq!(records[1].2, "Second");
}

#[test]
fn auto_merge_without_description_line() {
    let log = "commit abc\n    Auto merge of #55 - a:b, r=c\n";
    let records = commits_in_log(log);
    assert_eq!(records.len(), 1);
    assert_eq!(records[0].0, 55);
    assert_eq!(records[0].2, "");
}

#[test]
fn trailing_paren_description() {
    let log = "commit abc\n    Fix the frobnicator (#45)\n";
    let records = commits_in_log(log);
    assert_eq!(records.len(), 1);
    assert_eq!(records[0].0, 45);
    assert_eq!(records[0].1, "https://github.com/rust-lang/cargo/pull/45");
    assert_eq!(records[0].2, "Fix the frobnicator");
}

#[test]
fn marker_phrase_wins_over_trailing_paren() {
    // Leftmost match wins: the marker phrase sits before the trailing
    // `(#9)` fragment.
    let log = "commit abc\n    Revert Merge pull request #10 from x (#9)\n    Next line\n";
    let records = commits_in_log(log);
    assert_eq!(records.len(), 1);
    assert_eq!(records[0].0, 10);
    assert_eq!(records[0].2, "Next line");
}

#[test]
fn unmatched_line_is_reported() {
    let log = "commit deadbeef\n    A plain commit message\n";
    assert_eq!(commits_in_log(log).len(), 0);
    let strict = commits_in_log_strict(log);
    assert!(strict.is_err());
    let err = strict.err().unwrap();
    assert!(matches!(err.issue, BlockIssue::UnmatchedLine));
    assert_eq!(err.line, "A plain commit message");
    assert_eq!(err.hash, "deadbeef");
}

#[test]
fn block_without_message_lines_is_reported() {
    let log = "commit deadbeef\nnot-indented metadata\n";
    assert_eq!(commits_in_log(log).len(), 0);
    let strict = commits_in_log_strict(log);
    assert!(strict.is_err());
    let err = strict.err().unwrap();
    assert!(matches!(err.issue, BlockIssue::NoMessageLines));
    assert_eq!(err.hash, "deadbeef");
}

#[test]
fn number_too_large_is_reported() {
    let log = "commit abc\n    Auto merge of #99999999999 - x:y, r=z\n";
    assert_eq!(commits_in_log(log).len(), 0);
    let strict = commits_in_log_strict(log);
    assert!(strict.is_err());
    let err = strict.err().unwrap();
    assert!(matches!(err.issue, BlockIssue::NumberTooLarge));
}

#[test]
fn skipping_keeps_later_blocks() {
    let log = "commit a1\n    No convention here\n\
               commit b2\n    Auto merge of #8 - q:w, r=e\n    Kept\n";
    let records = commits_in_log(log);
    assert_eq!(records.len(), 1);
    assert_eq!(records[0].0, 8);
    // The strict variant stops at the first failing block instead.
    assert!(commits_in_log_strict(log).is_err());
}

#[test]
fn blank_blocks_are_discarded() {
    let log = "\n\ncommit abc\n    Auto merge of #3 - a:b, r=c\n    Desc\n\ncommit \n   \n";
    let records = commits_in_log(log);
    assert_eq!(records.len(), 1);
    assert_eq!(records[0].0, 3);
}

#[test]
fn metadata_lines_are_not_messages() {
    // Lines without leading spaces (author, date) are metadata; the
    // first indented non-blank line is the one matched.
    let log = "commit abc\nAuthor: Someone <s@example.com>\nDate: yesterday\n\n    Auto merge of #21 - a:b, r=c\n    The description\n";
    let records = commits_in_log(log);
    assert_eq!(records.len(), 1);
    assert_eq!(records[0].0, 21);
    assert_eq!(records[0].2, "The description");
}

#[test]
fn skipped_blocks_are_reported_as_issues() {
    let log = "commit a1\n    No convention here\n\
               commit b2\n    Auto merge of #8 - q:w, r=e\n    Kept\n";
    let issues = commits_in_log_issues(log);
    assert_eq!(issues.len(), 1);
    assert!(matches!(issues[0].issue, BlockIssue::UnmatchedLine));
    assert_eq!(issues[0].line, "No convention here");
    assert_eq!(issues[0].hash, "a1");
    assert_eq!(commits_in_log_issues("").len(), 0);
}
