//! The commit-log parser: turns raw version-control log text into ordered
//! pull-request records `(number, url, description)`.
//!
//! The log is split into commit blocks at lines beginning with the
//! `commit ` marker. In each non-blank block the first line is the block's
//! own header (it carries the commit identifier); the message lines are
//! the later lines that are non-blank and indented by at least one space,
//! each taken trimmed. The first message line must follow one of two
//! merge conventions:
//!
//! * it contains `Auto merge of #N` or `Merge pull request #N`: the
//!   record's number is `N` and its description is the next message line
//!   (or empty if there is none);
//! * it ends in `(#N)`: the record's number is `N` and its description is
//!   the line with the trailing `(#N)` removed, right-trimmed.
//!
//! Of two possible matches the leftmost wins, and at equal positions
//! the marker-phrase convention wins. A block whose first
//! message line matches neither convention, a block with no message lines
//! at all, and a number that does not fit in 32 bits are failures for
//! that block; `commits_in_log` skips such blocks, while
//! `commits_in_log_strict` stops at the first one and reports it.

use vstd::prelude::*;

use crate::text::{
    all_space, digits_val, dec_str, find_pos, find_where, first_token, is_digit, is_all_space,
    lemma_find_pos, lemma_find_pos_is, lemma_find_pos_none, lemma_find_where,
    lemma_find_where_is, lemma_find_where_none, match_at, matches_at, parse_u32_digits,
    spec_lines, split_lines, trim_end_of, trim_end_spec, trim_spec, trim_of, u64_to_string,
};

verus! {

/// A line opening a new commit block.
pub open spec fn is_header_line(l: Seq<char>) -> bool {
    match_at(l, "commit "@, 0)
}

pub open spec fn header_pred() -> spec_fn(Seq<char>) -> bool {
    |l: Seq<char>| is_header_line(l)
}

/// The header line with the block marker removed, as block content.
pub open spec fn strip_header(l: Seq<char>) -> Seq<char> {
    l.subrange("commit "@.len() as int, l.len() as int)
}

/// The commit blocks after a header at line `from`: each block is the
/// stripped header line followed by the lines up to the next header.
pub open spec fn blocks_from(lv: Seq<Seq<char>>, from: int) -> Seq<Seq<Seq<char>>>
    decreases lv.len() - from,
    via blocks_from_dec
{
    if from < 0 || from >= lv.len() {
        Seq::empty()
    } else {
        let end = match find_where(lv, header_pred(), from + 1) {
            Some(k) => k,
            None => lv.len() as int,
        };
        let blk = seq![strip_header(lv[from])] + lv.subrange(from + 1, end);
        seq![blk] + blocks_from(lv, end)
    }
}

#[via_fn]
proof fn blocks_from_dec(lv: Seq<Seq<char>>, from: int) {
    if 0 <= from < lv.len() {
        lemma_find_where(lv, header_pred(), from + 1);
    }
}

/// The commit blocks of a log given as lines: whatever precedes the first
/// header line forms a headerless leading block (blank in well-formed
/// logs), and each header line opens a block of its own.
pub open spec fn spec_blocks(lv: Seq<Seq<char>>) -> Seq<Seq<Seq<char>>> {
    match find_where(lv, header_pred(), 0) {
        None => seq![lv],
        Some(k) => seq![lv.subrange(0, k)] + blocks_from(lv, k),
    }
}

/// A block all of whose lines are whitespace; such blocks are discarded.
pub open spec fn block_blank(blk: Seq<Seq<char>>) -> bool {
    forall|i: int| 0 <= i < blk.len() ==> all_space(blk[i])
}

/// A message line: non-blank and indented by at least one space.
pub open spec fn is_message_line(l: Seq<char>) -> bool {
    l.len() > 0 && l[0] == ' ' && !all_space(l)
}

pub open spec fn message_pred() -> spec_fn(Seq<char>) -> bool {
    |l: Seq<char>| is_message_line(l)
}

/// The message lines of a block, trimmed: every line after the header
/// that is non-blank and indented.
pub open spec fn message_lines(blk: Seq<Seq<char>>) -> Seq<Seq<char>> {
    if blk.len() == 0 {
        Seq::empty()
    } else {
        blk.subrange(1, blk.len() as int).filter(message_pred()).map_values(
            |l: Seq<char>| trim_spec(l),
        )
    }
}

pub open spec fn nonblank_line_pred() -> spec_fn(Seq<char>) -> bool {
    |l: Seq<char>| !all_space(l)
}

/// The commit identifier of a block: the first whitespace-separated token
/// of its first non-blank line (empty for a blank block).
pub open spec fn block_hash(blk: Seq<Seq<char>>) -> Seq<char> {
    match find_where(blk, nonblank_line_pred(), 0) {
        Some(i) => first_token(blk[i]),
        None => Seq::empty(),
    }
}

/// The marker-phrase convention matches at position `i`: one of the two
/// marker phrases, `#`, and at least one digit.
pub open spec fn alt1_at(l: Seq<char>, i: int) -> bool {
    (match_at(l, "Auto merge of #"@, i) && i + "Auto merge of #"@.len() < l.len() && is_digit(
        l[i + "Auto merge of #"@.len()],
    )) || (match_at(l, "Merge pull request #"@, i) && i + "Merge pull request #"@.len() < l.len()
        && is_digit(l[i + "Merge pull request #"@.len()]))
}

/// The trailing-parenthesis convention matches at position `i`: `(#`,
/// one or more digits, and `)` as the last character of the line.
pub open spec fn alt2_at(l: Seq<char>, i: int) -> bool {
    &&& 0 <= i
    &&& i + 4 <= l.len()
    &&& l[i] == '('
    &&& l[i + 1] == '#'
    &&& l[l.len() - 1] == ')'
    &&& forall|j: int| i + 2 <= j < l.len() - 1 ==> is_digit(l[j])
}

/// Either convention matches at position `i`.
pub open spec fn merge_at(l: Seq<char>, i: int) -> bool {
    alt1_at(l, i) || alt2_at(l, i)
}

/// The leftmost position where a merge convention matches, if any.
pub open spec fn find_merge(l: Seq<char>) -> Option<int> {
    find_pos(l.len() as int, |i: int| merge_at(l, i), 0)
}

/// Where the number's digits begin for a marker-phrase match at `i`.
pub open spec fn alt1_digit_start(l: Seq<char>, i: int) -> int {
    if match_at(l, "Auto merge of #"@, i) {
        i + "Auto merge of #"@.len()
    } else {
        i + "Merge pull request #"@.len()
    }
}

/// The end of the digit run beginning at `from`: the first non-digit
/// position, or the end of the line.
pub open spec fn digit_run_end(l: Seq<char>, from: int) -> int {
    match find_pos(l.len() as int, |j: int| !is_digit(l[j]), from) {
        Some(k) => k,
        None => l.len() as int,
    }
}

/// Why a commit block yielded no record.
#[derive(Debug)]
pub enum BlockIssue {
    /// The block has no message lines at all.
    NoMessageLines,
    /// The first message line matches neither merge convention.
    UnmatchedLine,
    /// The captured digit run does not fit an unsigned 32-bit number.
    NumberTooLarge,
}

/// A failure to parse one commit block, identifying the offending line
/// (empty when the block had none) and the block's commit identifier.
#[derive(Debug)]
pub struct LogParseError {
    pub issue: BlockIssue,
    pub line: String,
    pub hash: String,
}

/// Ghost form of a block failure: the issue, the offending line, the hash.
pub struct SpecParseError {
    pub issue: BlockIssue,
    pub line: Seq<char>,
    pub hash: Seq<char>,
}

impl View for LogParseError {
    type V = SpecParseError;

    open spec fn view(&self) -> SpecParseError {
        SpecParseError { issue: self.issue, line: self.line@, hash: self.hash@ }
    }
}

impl DeepView for LogParseError {
    type V = SpecParseError;

    open spec fn deep_view(&self) -> SpecParseError {
        self.view()
    }
}

/// The fixed address that a pull-request number expands to.
pub open spec fn url_spec(n: nat) -> Seq<char> {
    "https://github.com/rust-lang/cargo/pull/"@ + dec_str(n)
}

/// What parsing one non-blank commit block yields: a record
/// `(number, url, description)` or the issue that block raises.
pub open spec fn spec_parse_block(blk: Seq<Seq<char>>) -> Result<
    (u32, Seq<char>, Seq<char>),
    (BlockIssue, Seq<char>),
> {
    let msgs = message_lines(blk);
    if msgs.len() == 0 {
        Err((BlockIssue::NoMessageLines, Seq::empty()))
    } else {
        let first = msgs[0];
        match find_merge(first) {
            None => Err((BlockIssue::UnmatchedLine, first)),
            Some(i) => {
                if alt1_at(first, i) {
                    let ds = alt1_digit_start(first, i);
                    let de = digit_run_end(first, ds);
                    let n = digits_val(first.subrange(ds, de));
                    if n <= u32::MAX as nat {
                        Ok(
                            (
                                n as u32,
                                url_spec(n),
                                if msgs.len() > 1 {
                                    msgs[1]
                                } else {
                                    Seq::empty()
                                },
                            ),
                        )
                    } else {
                        Err((BlockIssue::NumberTooLarge, first))
                    }
                } else {
                    let n = digits_val(first.subrange(i + 2, first.len() - 1));
                    if n <= u32::MAX as nat {
                        Ok((n as u32, url_spec(n), trim_end_spec(first.subrange(0, i))))
                    } else {
                        Err((BlockIssue::NumberTooLarge, first))
                    }
                }
            },
        }
    }
}

/// Maps a block to its record, discarding blank and failing blocks.
pub open spec fn ok_block_map() -> spec_fn(Seq<Seq<char>>) -> Option<(u32, Seq<char>, Seq<char>)> {
    |blk: Seq<Seq<char>>|
        if block_blank(blk) {
            None
        } else {
            match spec_parse_block(blk) {
                Ok(p) => Some(p),
                Err(_) => None,
            }
        }
}

/// A block that is neither blank nor parseable.
pub open spec fn bad_block_pred() -> spec_fn(Seq<Seq<char>>) -> bool {
    |blk: Seq<Seq<char>>| !block_blank(blk) && spec_parse_block(blk) is Err
}

/// The records of a whole log under the skipping policy: one per
/// non-blank block that follows a merge convention, in log order.
pub open spec fn spec_log_records(s: Seq<char>) -> Seq<(u32, Seq<char>, Seq<char>)> {
    spec_blocks(spec_lines(s)).filter_map(ok_block_map())
}

/// Filtering a sequence extended by one element keeps the filtered
/// prefix and appends the element exactly when it satisfies the predicate.
pub proof fn lemma_filter_push<A>(s: Seq<A>, p: spec_fn(A) -> bool, x: A)
    ensures
        (s.push(x)).filter(p) == s.filter(p) + (if p(x) {
            seq![x]
        } else {
            Seq::<A>::empty()
        }),
{
    reveal(Seq::filter);
    assert(s.push(x).drop_last() =~= s);
    assert(s.push(x).last() == x);
    if p(x) {
        assert(s.filter(p).push(x) =~= s.filter(p) + seq![x]);
    } else {
        assert(s.filter(p) =~= s.filter(p) + Seq::<A>::empty());
    }
}

fn line_is_header(l: &str) -> (r: bool)
    ensures
        r == is_header_line(l@),
{
    matches_at(l, "commit ", 0)
}

fn is_digit_char(c: char) -> (r: bool)
    ensures
        r == is_digit(c),
{
    let u = c as u32;
    48 <= u && u <= 57
}

/// The trimmed message lines of one block's lines.
fn message_lines_of(blk: &Vec<String>) -> (r: Vec<String>)
    ensures
        r.deep_view() == message_lines(blk.deep_view()),
{
    let ghost bv = blk.deep_view();
    let ghost tr = |l: Seq<char>| trim_spec(l);
    let mut r: Vec<String> = Vec::new();
    if blk.len() == 0 {
        proof {
            assert(r.deep_view() =~~= message_lines(bv));
        }
        return r;
    }
    let mut i: usize = 1;
    proof {
        assert(bv.subrange(1, 1).filter(message_pred()) =~= Seq::<Seq<char>>::empty());
        assert(r.deep_view() =~~= bv.subrange(1, 1).filter(message_pred()).map_values(tr));
    }
    while i < blk.len()
        invariant
            1 <= i <= blk.len(),
            bv == blk.deep_view(),
            bv.len() == blk.len(),
            tr == (|l: Seq<char>| trim_spec(l)),
            r.deep_view() == bv.subrange(1, i as int).filter(message_pred()).map_values(tr),
        decreases blk.len() - i,
    {
        let ghost r0 = r.deep_view();
        let ghost prev = bv.subrange(1, i as int);
        let s = blk[i].as_str();
        proof {
            assert(bv[i as int] == blk@[i as int]@);
        }
        let keep = s.unicode_len() > 0 && s.get_char(0) == ' ' && !is_all_space(s);
        if keep {
            r.push(trim_of(s));
        }
        proof {
            assert(keep == is_message_line(bv[i as int]));
            assert(bv.subrange(1, i + 1) =~= prev.push(bv[i as int]));
            lemma_filter_push(prev, message_pred(), bv[i as int]);
            if keep {
                assert(prev.push(bv[i as int]).filter(message_pred()) =~= prev.filter(
                    message_pred(),
                ).push(bv[i as int]));
                assert(r.deep_view() =~~= r0.push(trim_spec(bv[i as int])));
                assert(prev.filter(message_pred()).push(bv[i as int]).map_values(tr) =~= prev
                    .filter(message_pred()).map_values(tr).push(tr(bv[i as int])));
            } else {
                assert(prev.push(bv[i as int]).filter(message_pred()) =~= prev.filter(
                    message_pred(),
                ));
            }
        }
        i += 1;
    }
    proof {
        assert(bv.subrange(1, bv.len() as int) == bv.subrange(1, i as int));
    }
    r
}

/// The commit identifier of one block's lines.
fn block_hash_of(blk: &Vec<String>) -> (r: String)
    ensures
        r@ == block_hash(blk.deep_view()),
{
    let ghost bv = blk.deep_view();
    let mut i: usize = 0;
    while i < blk.len()
        invariant
            bv == blk.deep_view(),
            bv.len() == blk.len(),
            0 <= i <= blk.len(),
            forall|j: int| 0 <= j < i ==> all_space(bv[j]),
        decreases blk.len() - i,
    {
        proof {
            assert(bv[i as int] == blk@[i as int]@);
        }
        if !is_all_space(blk[i].as_str()) {
            proof {
                assert(nonblank_line_pred()(bv[i as int]));
                assert forall|j: int| 0 <= j < i implies !(nonblank_line_pred()(bv[j])) by {}
                lemma_find_where_is(bv, nonblank_line_pred(), 0, i as int);
            }
            return crate::text::first_token_of(blk[i].as_str());
        }
        i += 1;
    }
    proof {
        assert forall|j: int| 0 <= j < bv.len() implies !(nonblank_line_pred()(bv[j])) by {}
        lemma_find_where_none(bv, nonblank_line_pred(), 0);
    }
    String::new()
}

fn check_alt1(l: &str, i: usize) -> (r: bool)
    ensures
        r == alt1_at(l@, i as int),
{
    let n = l.unicode_len();
    proof {
        reveal_strlit("Auto merge of #");
        reveal_strlit("Merge pull request #");
    }
    if matches_at(l, "Auto merge of #", i) {
        proof {
            // The two marker phrases differ in their first character, so
            // the other phrase cannot also match here.
            if match_at(l@, "Merge pull request #"@, i as int) {
                assert(l@.subrange(i as int, i + "Auto merge of #"@.len())[0] == 'A');
                assert(l@.subrange(i as int, i + "Merge pull request #"@.len())[0] == 'M');
            }
        }
        let d = i + "Auto merge of #".unicode_len();
        if d < n {
            is_digit_char(l.get_char(d))
        } else {
            false
        }
    } else if matches_at(l, "Merge pull request #", i) {
        let d = i + "Merge pull request #".unicode_len();
        if d < n {
            is_digit_char(l.get_char(d))
        } else {
            false
        }
    } else {
        false
    }
}

fn check_alt2(l: &str, i: usize) -> (r: bool)
    ensures
        r == alt2_at(l@, i as int),
{
    let n = l.unicode_len();
    if n < 4 || i > n - 4 {
        return false;
    }
    if l.get_char(i) == '(' && l.get_char(i + 1) == '#' && l.get_char(n - 1) == ')' {
        let mut j: usize = i + 2;
        while j < n - 1
            invariant
                n == l@.len(),
                i + 4 <= n,
                i + 2 <= j <= n - 1,
                forall|k: int| i + 2 <= k < j ==> is_digit(l@[k]),
            decreases n - j,
        {
            if !is_digit_char(l.get_char(j)) {
                return false;
            }
            j += 1;
        }
        true
    } else {
        false
    }
}

/// Finds the leftmost merge-convention match in `l`.
fn find_merge_in(l: &str) -> (r: Option<usize>)
    ensures
        match r {
            Some(k) => find_merge(l@) == Some(k as int),
            None => find_merge(l@) is None,
        },
{
    let ghost p = |i: int| merge_at(l@, i);
    let n = l.unicode_len();
    let mut k: usize = 0;
    while k < n
        invariant
            n == l@.len(),
            0 <= k <= n,
            p == (|i: int| merge_at(l@, i)),
            forall|j: int| 0 <= j < k ==> !(#[trigger] p(j)),
        decreases n - k,
    {
        let a1 = check_alt1(l, k);
        let a2 = check_alt2(l, k);
        if a1 || a2 {
            proof {
                assert(p(k as int));
                lemma_find_pos_is(n as int, p, 0, k as int);
            }
            return Some(k);
        }
        proof {
            assert(!p(k as int));
        }
        k += 1;
    }
    proof {
        lemma_find_pos_none(n as int, p, 0);
    }
    None
}

/// The address of the pull request numbered `n`.
fn pr_url(n: u32) -> (r: String)
    ensures
        r@ == url_spec(n as nat),
{
    let mut s = String::from_str("https://github.com/rust-lang/cargo/pull/");
    let num = u64_to_string(n as u64);
    s.append(num.as_str());
    s
}

/// Parses one commit block, given as its lines (the first being the
/// stripped header). Returns the `(number, url, description)` record, or
/// the failure for this block with the offending line and commit
/// identifier filled in.
pub fn parse_commit_block(blk: &Vec<String>) -> (r: Result<(u32, String, String), LogParseError>)
    ensures
        match r {
            Ok(p) => spec_parse_block(blk.deep_view()) == Ok::<
                (u32, Seq<char>, Seq<char>),
                (BlockIssue, Seq<char>),
            >((p.0, p.1@, p.2@)),
            Err(e) => {
                &&& spec_parse_block(blk.deep_view()) == Err::<
                    (u32, Seq<char>, Seq<char>),
                    (BlockIssue, Seq<char>),
                >((e.issue, e.line@))
                &&& e.hash@ == block_hash(blk.deep_view())
            },
        },
{
    let ghost bv = blk.deep_view();
    let msgs = message_lines_of(blk);
    if msgs.len() == 0 {
        proof {
            assert(message_lines(bv).len() == 0);
        }
        return Err(
            LogParseError {
                issue: BlockIssue::NoMessageLines,
                line: String::new(),
                hash: block_hash_of(blk),
            },
        );
    }
    let fs = msgs[0].as_str();
    proof {
        assert(fs@ == msgs.deep_view()[0]);
        assert(msgs.deep_view()[0] == message_lines(bv)[0]);
    }
    let ghost first = message_lines(bv)[0];
    match find_merge_in(fs) {
        None => Err(
            LogParseError {
                issue: BlockIssue::UnmatchedLine,
                line: msgs[0].clone(),
                hash: block_hash_of(blk),
            },
        ),
        Some(i) => {
            if check_alt1(fs, i) {
                let n = fs.unicode_len();
                let ds: usize = if matches_at(fs, "Auto merge of #", i) {
                    i + "Auto merge of #".unicode_len()
                } else {
                    i + "Merge pull request #".unicode_len()
                };
                proof {
                    assert(ds as int == alt1_digit_start(first, i as int));
                }
                let mut de: usize = ds;
                while de < n && is_digit_char(fs.get_char(de))
                    invariant
                        n == fs@.len(),
                        ds <= de <= n,
                        forall|k: int| ds <= k < de ==> is_digit(fs@[k]),
                    decreases n - de,
                {
                    de += 1;
                }
                proof {
                    let q = |j: int| !is_digit(first[j]);
                    if de < n {
                        assert(q(de as int));
                        assert forall|j: int| ds <= j < de implies !(#[trigger] q(j)) by {}
                        lemma_find_pos_is(n as int, q, ds as int, de as int);
                    } else {
                        assert forall|j: int| ds <= j < n implies !(#[trigger] q(j)) by {}
                        lemma_find_pos_none(n as int, q, ds as int);
                    }
                    assert(de as int == digit_run_end(first, ds as int));
                }
                match parse_u32_digits(fs, ds, de) {
                    Some(v) => {
                        let descr = if msgs.len() > 1 {
                            proof {
                                assert(msgs.deep_view()[1] == message_lines(bv)[1]);
                            }
                            msgs[1].clone()
                        } else {
                            String::new()
                        };
                        Ok((v, pr_url(v), descr))
                    },
                    None => Err(
                        LogParseError {
                            issue: BlockIssue::NumberTooLarge,
                            line: msgs[0].clone(),
                            hash: block_hash_of(blk),
                        },
                    ),
                }
            } else {
                let n = fs.unicode_len();
                proof {
                    let p = |j: int| merge_at(first, j);
                    lemma_find_pos(first.len() as int, p, 0);
                    assert(p(i as int));
                    assert(alt2_at(first, i as int));
                }
                match parse_u32_digits(fs, i + 2, n - 1) {
                    Some(v) => {
                        let descr = trim_end_of(fs.substring_char(0, i));
                        Ok((v, pr_url(v), descr))
                    },
                    None => Err(
                        LogParseError {
                            issue: BlockIssue::NumberTooLarge,
                            line: msgs[0].clone(),
                            hash: block_hash_of(blk),
                        },
                    ),
                }
            }
        },
    }
}

pub open spec fn nonblank_pred() -> spec_fn(Seq<Seq<char>>) -> bool {
    |b: Seq<Seq<char>>| !block_blank(b)
}

/// The non-blank commit blocks of a log.
pub open spec fn spec_log_blocks(s: Seq<char>) -> Seq<Seq<Seq<char>>> {
    spec_blocks(spec_lines(s)).filter(nonblank_pred())
}

/// The record a parseable block yields.
pub open spec fn ok_of(blk: Seq<Seq<char>>) -> (u32, Seq<char>, Seq<char>) {
    match spec_parse_block(blk) {
        Ok(p) => p,
        Err(_) => (0u32, Seq::empty(), Seq::empty()),
    }
}

/// A parseable block's record carries the address derived from its
/// number.
proof fn lemma_block_url(blk: Seq<Seq<char>>)
    requires
        spec_parse_block(blk) is Ok,
    ensures
        ok_of(blk).1 == url_spec(ok_of(blk).0 as nat),
{
}

/// Under the hypothesis that every non-blank block parses, collecting
/// the parseable blocks' records is mapping over the non-blank blocks.
proof fn lemma_filter_map_all_ok(bs: Seq<Seq<Seq<char>>>)
    requires
        forall|i: int|
            0 <= i < bs.len() && !block_blank(#[trigger] bs[i]) ==> spec_parse_block(bs[i]) is Ok,
    ensures
        bs.filter_map(ok_block_map()) == bs.filter(nonblank_pred()).map_values(
            |b: Seq<Seq<char>>| ok_of(b),
        ),
    decreases bs.len(),
{
    reveal(Seq::filter);
    let f = ok_block_map();
    let mv = |b: Seq<Seq<char>>| ok_of(b);
    if bs.len() == 0 {
        assert(bs.filter_map(f) =~= bs.filter(nonblank_pred()).map_values(mv));
    } else {
        let rest = bs.drop_last();
        let last = bs.last();
        assert forall|i: int|
            0 <= i < rest.len() && !block_blank(#[trigger] rest[i]) implies spec_parse_block(
            rest[i],
        ) is Ok by {
            assert(rest[i] == bs[i]);
        }
        lemma_filter_map_all_ok(rest);
        if block_blank(last) {
            assert(f(last) is None);
            assert(bs.filter(nonblank_pred()) == rest.filter(nonblank_pred()));
        } else {
            assert(spec_parse_block(last) is Ok);
            assert(f(last) == Some(ok_of(last)));
            assert(bs.filter_map(f) == rest.filter_map(f) + seq![ok_of(last)]);
            assert(bs.filter(nonblank_pred()) == rest.filter(nonblank_pred()).push(last));
            assert(rest.filter(nonblank_pred()).push(last).map_values(mv) =~= rest.filter(
                nonblank_pred(),
            ).map_values(mv).push(ok_of(last)));
            assert(rest.filter_map(f) + seq![ok_of(last)] =~= rest.filter_map(f).push(
                ok_of(last),
            ));
        }
    }
}

/// One record per commit block: for well-formed log text -- every
/// non-blank commit block follows a merge convention -- the parser
/// yields exactly one record per non-blank block, in log order, each
/// carrying that block's number and the address derived from it.
pub proof fn lemma_one_record_per_block(s: Seq<char>)
    requires
        forall|i: int|
            0 <= i < spec_log_blocks(s).len() ==> spec_parse_block(
                #[trigger] spec_log_blocks(s)[i],
            ) is Ok,
    ensures
        spec_log_records(s).len() == spec_log_blocks(s).len(),
        forall|i: int|
            0 <= i < spec_log_blocks(s).len() ==> spec_log_records(s)[i] == ok_of(
                #[trigger] spec_log_blocks(s)[i],
            ),
        forall|i: int|
            0 <= i < spec_log_records(s).len() ==> (#[trigger] spec_log_records(s)[i]).1
                == url_spec(spec_log_records(s)[i].0 as nat),
{
    let bs = spec_blocks(spec_lines(s));
    let nb = spec_log_blocks(s);
    assert forall|i: int|
        0 <= i < bs.len() && !block_blank(#[trigger] bs[i]) implies spec_parse_block(
        bs[i],
    ) is Ok by {
        bs.lemma_filter_contains(nonblank_pred(), i);
        let j = bs.filter(nonblank_pred()).lemma_contains_to_index(bs[i]);
        assert(spec_parse_block(nb[j]) is Ok);
    }
    lemma_filter_map_all_ok(bs);
    assert forall|i: int|
        0 <= i < spec_log_records(s).len() implies (#[trigger] spec_log_records(s)[i]).1
        == url_spec(spec_log_records(s)[i].0 as nat) by {
        assert(spec_log_records(s)[i] == ok_of(nb[i]));
        bs.lemma_filter_pred(nonblank_pred(), i);
        bs.lemma_filter_contains_rev(nonblank_pred(), nb[i]);
        let k = bs.lemma_contains_to_index(nb[i]);
        assert(spec_parse_block(nb[i]) is Ok);
        lemma_block_url(nb[i]);
    }
}

/// The trailing-parenthesis description rule: when the first message
/// line matches the `(#N)` convention at position `i` (and the
/// marker-phrase convention does not match there), the record's
/// description is the line up to the `(#N)` fragment, right-trimmed.
pub proof fn lemma_paren_description(blk: Seq<Seq<char>>, i: int)
    requires
        message_lines(blk).len() > 0,
        find_merge(message_lines(blk)[0]) == Some(i),
        !alt1_at(message_lines(blk)[0], i),
        spec_parse_block(blk) is Ok,
    ensures
        ok_of(blk).2 == trim_end_spec(message_lines(blk)[0].subrange(0, i)),
{
}

/// Empty log text yields no records, and is not an error.
pub proof fn lemma_empty_log()
    ensures
        spec_log_records(Seq::<char>::empty()) == Seq::<(u32, Seq<char>, Seq<char>)>::empty(),
        spec_log_strict(Seq::<char>::empty()) == Ok::<Seq<(u32, Seq<char>, Seq<char>)>, SpecParseError>(
            Seq::<(u32, Seq<char>, Seq<char>)>::empty(),
        ),
{
    let s = Seq::<char>::empty();
    let lv = spec_lines(s);
    assert(lv =~= Seq::<Seq<char>>::empty());
    let bs = spec_blocks(lv);
    assert(bs == seq![lv]);
    assert(block_blank(lv));
    assert(!(bad_block_pred()(bs[0])));
    Seq::lemma_filter_map_singleton(lv, ok_block_map());
    assert(seq![lv] =~= Seq::<Seq<Seq<char>>>::empty().push(lv));
    assert(bs.filter_map(ok_block_map()) =~= Seq::<(u32, Seq<char>, Seq<char>)>::empty());
    assert forall|j: int| 0 <= j < bs.len() implies !(#[trigger] bad_block_pred()(bs[j])) by {
        assert(bs[j] == lv);
    }
    lemma_find_where_none(bs, bad_block_pred(), 0);
}

/// Splits log text into its commit blocks, each given as its lines with
/// the header line stripped of the block marker.
pub fn split_blocks(log: &str) -> (r: Vec<Vec<String>>)
    ensures
        r.deep_view() == spec_blocks(spec_lines(log@)),
{
    let lines = split_lines(log);
    let ghost lv = spec_lines(log@);
    let nl = lines.len();
    let mut heads: Vec<usize> = Vec::new();
    let mut i: usize = 0;
    while i < nl
        invariant
            lv == lines.deep_view(),
            nl == lines.len(),
            lv.len() == nl,
            0 <= i <= nl,
            forall|a: int, b: int| 0 <= a < b < heads.len() ==> heads@[a] < heads@[b],
            forall|a: int|
                0 <= a < heads.len() ==> (#[trigger] heads@[a]) < i && is_header_line(
                    lv[heads@[a] as int],
                ),
            forall|j: int|
                0 <= j < i && is_header_line(lv[j]) ==> exists|a: int|
                    0 <= a < heads.len() && (#[trigger] heads@[a]) as int == j,
        decreases nl - i,
    {
        proof {
            assert(lv[i as int] == lines@[i as int]@);
        }
        let ghost h0 = heads@;
        if line_is_header(lines[i].as_str()) {
            heads.push(i);
        }
        proof {
            assert forall|j: int| 0 <= j < i + 1 && is_header_line(lv[j]) implies exists|a: int|
                0 <= a < heads.len() && (#[trigger] heads@[a]) as int == j by {
                if j < i {
                    let a = choose|a: int| 0 <= a < h0.len() && (#[trigger] h0[a]) as int == j;
                    assert(heads@[a] as int == j);
                } else {
                    assert(heads@[heads@.len() - 1] as int == j);
                }
            }
        }
        i += 1;
    }
    let mut blocks: Vec<Vec<String>> = Vec::new();
    let fh: usize = if heads.len() > 0 {
        heads[0]
    } else {
        nl
    };
    let mut pre: Vec<String> = Vec::new();
    let mut t: usize = 0;
    while t < fh
        invariant
            lv == lines.deep_view(),
            nl == lines.len(),
            lv.len() == nl,
            0 <= t <= fh <= nl,
            pre.deep_view() == lv.subrange(0, t as int),
        decreases fh - t,
    {
        let ghost p0 = pre.deep_view();
        pre.push(lines[t].clone());
        proof {
            assert(pre.deep_view() =~~= p0.push(lv[t as int]));
            assert(lv.subrange(0, t + 1) =~= lv.subrange(0, t as int).push(lv[t as int]));
        }
        t += 1;
    }
    blocks.push(pre);
    proof {
        if heads.len() > 0 {
            assert forall|q: int| 0 <= q < fh as int implies !(header_pred()(lv[q])) by {
                if is_header_line(lv[q]) {
                    let a = choose|a: int|
                        0 <= a < heads@.len() && (#[trigger] heads@[a]) as int == q;
                    assert(heads@[0] <= heads@[a]);
                }
            }
            lemma_find_where_is(lv, header_pred(), 0, fh as int);
        } else {
            assert forall|q: int| 0 <= q < lv.len() implies !(header_pred()(lv[q])) by {}
            lemma_find_where_none(lv, header_pred(), 0);
            assert(lv.subrange(0, nl as int) =~= lv);
        }
        assert(spec_blocks(lv) =~~= seq![lv.subrange(0, fh as int)] + blocks_from(
            lv,
            fh as int,
        ));
        assert(blocks.deep_view() =~~= seq![lv.subrange(0, fh as int)]);
    }
    let mut j: usize = 0;
    while j < heads.len()
        invariant
            lv == lines.deep_view(),
            nl == lines.len(),
            lv.len() == nl,
            0 <= j <= heads.len(),
            forall|a: int, b: int| 0 <= a < b < heads.len() ==> heads@[a] < heads@[b],
            forall|a: int|
                0 <= a < heads.len() ==> (#[trigger] heads@[a]) < nl && is_header_line(
                    lv[heads@[a] as int],
                ),
            forall|q: int|
                0 <= q < nl && is_header_line(lv[q]) ==> exists|a: int|
                    0 <= a < heads.len() && (#[trigger] heads@[a]) as int == q,
            spec_blocks(lv) == blocks.deep_view() + blocks_from(
                lv,
                if j < heads.len() {
                    heads@[j as int] as int
                } else {
                    lv.len() as int
                },
            ),
        decreases heads.len() - j,
    {
        let ghost b0 = blocks.deep_view();
        let h = heads[j];
        let end: usize = if j + 1 < heads.len() {
            heads[j + 1]
        } else {
            nl
        };
        let hl = lines[h].as_str();
        let m = hl.unicode_len();
        let plen = "commit ".unicode_len();
        proof {
            assert(lv[h as int] == lines@[h as int]@);
            assert(is_header_line(lv[h as int]));
        }
        let mut blk: Vec<String> = Vec::new();
        blk.push(String::from_str(hl.substring_char(plen, m)));
        proof {
            assert(blk.deep_view() =~~= seq![strip_header(lv[h as int])] + lv.subrange(
                h + 1,
                h + 1,
            ));
        }
        let mut t: usize = h + 1;
        while t < end
            invariant
                lv == lines.deep_view(),
                nl == lines.len(),
                lv.len() == nl,
                h + 1 <= t <= end <= nl,
                blk.deep_view() == seq![strip_header(lv[h as int])] + lv.subrange(
                    h + 1,
                    t as int,
                ),
            decreases end - t,
        {
            let ghost k0 = blk.deep_view();
            blk.push(lines[t].clone());
            proof {
                assert(blk.deep_view() =~~= k0.push(lv[t as int]));
                assert(seq![strip_header(lv[h as int])] + lv.subrange(h + 1, t + 1) =~= (
                seq![strip_header(lv[h as int])] + lv.subrange(h + 1, t as int)).push(
                    lv[t as int],
                ));
            }
            t += 1;
        }
        blocks.push(blk);
        proof {
            if j + 1 < heads.len() {
                let e = heads@[j + 1] as int;
                assert forall|q: int| h + 1 <= q < e implies !(header_pred()(lv[q])) by {
                    if is_header_line(lv[q]) {
                        let a = choose|a: int|
                            0 <= a < heads@.len() && (#[trigger] heads@[a]) as int == q;
                        if a <= j {
                            assert(heads@[a] <= heads@[j as int]);
                        } else {
                            assert(heads@[j + 1] <= heads@[a]);
                        }
                    }
                }
                assert(is_header_line(lv[e]));
                lemma_find_where_is(lv, header_pred(), h + 1, e);
            } else {
                assert forall|q: int| h + 1 <= q < lv.len() implies !(header_pred()(lv[q])) by {
                    if is_header_line(lv[q]) {
                        let a = choose|a: int|
                            0 <= a < heads@.len() && (#[trigger] heads@[a]) as int == q;
                        assert(heads@[a] <= heads@[j as int]);
                    }
                }
                lemma_find_where_none(lv, header_pred(), h + 1);
            }
            assert(blocks_from(lv, h as int) == seq![
                seq![strip_header(lv[h as int])] + lv.subrange(h + 1, end as int),
            ] + blocks_from(lv, end as int));
            assert(blocks.deep_view() =~~= b0.push(
                seq![strip_header(lv[h as int])] + lv.subrange(h + 1, end as int),
            ));
            assert(b0 + blocks_from(lv, h as int) =~~= blocks.deep_view() + blocks_from(
                lv,
                end as int,
            ));
        }
        j += 1;
    }
    proof {
        assert(blocks_from(lv, lv.len() as int) =~~= Seq::<Seq<Seq<char>>>::empty());
        assert(blocks.deep_view() + blocks_from(lv, lv.len() as int) =~~= blocks.deep_view());
    }
    blocks
}

/// Is every line of the block whitespace-only?
fn block_is_blank_exec(blk: &Vec<String>) -> (r: bool)
    ensures
        r == block_blank(blk.deep_view()),
{
    let ghost bv = blk.deep_view();
    let mut t: usize = 0;
    while t < blk.len()
        invariant
            bv == blk.deep_view(),
            bv.len() == blk.len(),
            0 <= t <= blk.len(),
            forall|j: int| 0 <= j < t ==> all_space(bv[j]),
        decreases blk.len() - t,
    {
        proof {
            assert(bv[t as int] == blk@[t as int]@);
        }
        if !is_all_space(blk[t].as_str()) {
            return false;
        }
        t += 1;
    }
    true
}

/// Parses commit-log text into pull-request records
/// `(number, url, description)`, in log order, one per non-blank commit
/// block that follows a merge convention. Blocks that raise an issue are
/// skipped (the strict variant, `commits_in_log_strict`, stops instead).
pub fn commits_in_log(log: &str) -> (r: Vec<(u32, String, String)>)
    ensures
        r.deep_view() == spec_log_records(log@),
{
    let blocks = split_blocks(log);
    let ghost bs = spec_blocks(spec_lines(log@));
    let mut r: Vec<(u32, String, String)> = Vec::new();
    let mut i: usize = 0;
    proof {
        assert(bs.take(0) =~= Seq::<Seq<Seq<char>>>::empty());
        assert(r.deep_view() =~~= bs.take(0).filter_map(ok_block_map()));
    }
    while i < blocks.len()
        invariant
            bs == blocks.deep_view(),
            bs.len() == blocks.len(),
            0 <= i <= blocks.len(),
            r.deep_view() == bs.take(i as int).filter_map(ok_block_map()),
        decreases blocks.len() - i,
    {
        let ghost r0 = r.deep_view();
        let blk = &blocks[i];
        proof {
            assert(bs[i as int] == blocks@[i as int].deep_view());
        }
        if !block_is_blank_exec(blk) {
            match parse_commit_block(blk) {
                Ok(p) => {
                    let ghost pv = (p.0, p.1@, p.2@);
                    r.push(p);
                    proof {
                        assert(r.deep_view() =~~= r0.push(pv));
                    }
                },
                Err(_e) => {},
            }
        }
        proof {
            bs.lemma_filter_map_take_succ(ok_block_map(), i as int);
            assert(r.deep_view() =~~= bs.take(i + 1).filter_map(ok_block_map()));
        }
        i += 1;
    }
    proof {
        assert(bs.take(bs.len() as int) =~= bs);
    }
    r
}

/// Maps a block to the failure it raises, discarding blank and
/// parseable blocks.
pub open spec fn err_block_map() -> spec_fn(Seq<Seq<char>>) -> Option<SpecParseError> {
    |blk: Seq<Seq<char>>|
        if block_blank(blk) {
            None
        } else {
            match spec_parse_block(blk) {
                Ok(_) => None,
                Err(e) => Some(SpecParseError { issue: e.0, line: e.1, hash: block_hash(blk) }),
            }
        }
}

/// The failures of a whole log: one per non-blank block that raises
/// one, in log order. These are the blocks `commits_in_log` skips.
pub open spec fn spec_log_issues(s: Seq<char>) -> Seq<SpecParseError> {
    spec_blocks(spec_lines(s)).filter_map(err_block_map())
}

/// Collects the failures that `commits_in_log` skips over, in log
/// order, so that a caller can report them.
pub fn commits_in_log_issues(log: &str) -> (r: Vec<LogParseError>)
    ensures
        r.deep_view() == spec_log_issues(log@),
{
    let blocks = split_blocks(log);
    let ghost bs = spec_blocks(spec_lines(log@));
    let mut r: Vec<LogParseError> = Vec::new();
    let mut i: usize = 0;
    proof {
        assert(bs.take(0) =~= Seq::<Seq<Seq<char>>>::empty());
        assert(r.deep_view() =~~= bs.take(0).filter_map(err_block_map()));
    }
    while i < blocks.len()
        invariant
            bs == blocks.deep_view(),
            bs.len() == blocks.len(),
            0 <= i <= blocks.len(),
            r.deep_view() == bs.take(i as int).filter_map(err_block_map()),
        decreases blocks.len() - i,
    {
        let ghost r0 = r.deep_view();
        let blk = &blocks[i];
        proof {
            assert(bs[i as int] == blocks@[i as int].deep_view());
        }
        if !block_is_blank_exec(blk) {
            match parse_commit_block(blk) {
                Ok(_p) => {},
                Err(e) => {
                    let ghost ev = e@;
                    r.push(e);
                    proof {
                        assert(r.deep_view() =~~= r0.push(ev));
                    }
                },
            }
        }
        proof {
            bs.lemma_filter_map_take_succ(err_block_map(), i as int);
            assert(r.deep_view() =~~= bs.take(i + 1).filter_map(err_block_map()));
        }
        i += 1;
    }
    proof {
        assert(bs.take(bs.len() as int) =~= bs);
    }
    r
}

/// What the strict parse of a whole log yields: the records of every
/// non-blank block, or the failure of the first block that raises one.
pub open spec fn spec_log_strict(s: Seq<char>) -> Result<
    Seq<(u32, Seq<char>, Seq<char>)>,
    SpecParseError,
> {
    let bs = spec_blocks(spec_lines(s));
    match find_where(bs, bad_block_pred(), 0) {
        None => Ok(bs.filter_map(ok_block_map())),
        Some(i) => Err(
            match spec_parse_block(bs[i]) {
                Err((issue, line)) => SpecParseError {
                    issue: issue,
                    line: line,
                    hash: block_hash(bs[i]),
                },
                Ok(_) => SpecParseError {
                    issue: BlockIssue::NoMessageLines,
                    line: Seq::empty(),
                    hash: block_hash(bs[i]),
                },
            },
        ),
    }
}

/// Parses commit-log text into pull-request records, stopping at the
/// first non-blank commit block that raises an issue.
pub fn commits_in_log_strict(log: &str) -> (r: Result<Vec<(u32, String, String)>, LogParseError>)
    ensures
        match r {
            Ok(v) => spec_log_strict(log@) == Ok::<
                Seq<(u32, Seq<char>, Seq<char>)>,
                SpecParseError,
            >(v.deep_view()),
            Err(e) => spec_log_strict(log@) == Err::<
                Seq<(u32, Seq<char>, Seq<char>)>,
                SpecParseError,
            >(e@),
        },
{
    let blocks = split_blocks(log);
    let ghost bs = spec_blocks(spec_lines(log@));
    let mut r: Vec<(u32, String, String)> = Vec::new();
    let mut i: usize = 0;
    proof {
        assert(bs.take(0) =~= Seq::<Seq<Seq<char>>>::empty());
        assert(r.deep_view() =~~= bs.take(0).filter_map(ok_block_map()));
    }
    while i < blocks.len()
        invariant
            bs == spec_blocks(spec_lines(log@)),
            bs == blocks.deep_view(),
            bs.len() == blocks.len(),
            0 <= i <= blocks.len(),
            r.deep_view() == bs.take(i as int).filter_map(ok_block_map()),
            forall|j: int| 0 <= j < i ==> !(bad_block_pred()(bs[j])),
        decreases blocks.len() - i,
    {
        let ghost r0 = r.deep_view();
        let blk = &blocks[i];
        proof {
            assert(bs[i as int] == blocks@[i as int].deep_view());
        }
        if !block_is_blank_exec(blk) {
            match parse_commit_block(blk) {
                Ok(p) => {
                    let ghost pv = (p.0, p.1@, p.2@);
                    r.push(p);
                    proof {
                        assert(r.deep_view() =~~= r0.push(pv));
                    }
                },
                Err(e) => {
                    proof {
                        assert(bad_block_pred()(bs[i as int]));
                        lemma_find_where_is(bs, bad_block_pred(), 0, i as int);
                    }
                    return Err(e);
                },
            }
        }
        proof {
            bs.lemma_filter_map_take_succ(ok_block_map(), i as int);
            assert(r.deep_view() =~~= bs.take(i + 1).filter_map(ok_block_map()));
        }
        i += 1;
    }
    proof {
        lemma_find_where_none(bs, bad_block_pred(), 0);
        assert(bs.take(bs.len() as int) =~= bs);
    }
    Ok(r)
}

} // verus!
