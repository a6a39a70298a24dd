//! Character-sequence utilities shared by the parsers in this crate:
//! whitespace classification, substring matching and search, trimming,
//! line splitting, digit runs and decimal rendering.
//!
//! Throughout this crate "whitespace" means the ASCII whitespace
//! characters; the inputs these tools handle (version-control output,
//! manifest and changelog text) contain no other kind.

use vstd::prelude::*;

verus! {

/// Whitespace as this library understands it: the ASCII whitespace
/// characters (space, tab, line feed, carriage return, vertical tab,
/// form feed).
pub open spec fn spec_is_space(c: char) -> bool {
    c == ' ' || c == '\t' || c == '\n' || c == '\r' || c == '\u{b}' || c == '\u{c}'
}

pub fn is_space(c: char) -> (r: bool)
    ensures
        r == spec_is_space(c),
{
    c == ' ' || c == '\t' || c == '\n' || c == '\r' || c == '\u{b}' || c == '\u{c}'
}

/// Every character of `s` is whitespace, i.e. `s` trims to the empty string.
pub open spec fn all_space(s: Seq<char>) -> bool {
    forall|i: int| 0 <= i < s.len() ==> spec_is_space(s[i])
}

/// The pattern `pat` occurs in `s` starting at index `i`.
pub open spec fn match_at(s: Seq<char>, pat: Seq<char>, i: int) -> bool {
    0 <= i && i + pat.len() <= s.len() && s.subrange(i, i + pat.len()) == pat
}

/// `s` contains `pat` somewhere.
pub open spec fn contains_seq(s: Seq<char>, pat: Seq<char>) -> bool {
    exists|i: int| match_at(s, pat, i)
}

/// Index of the first element at or after `from` satisfying `p`, if any.
pub open spec fn find_where<A>(s: Seq<A>, p: spec_fn(A) -> bool, from: int) -> Option<int>
    decreases s.len() - from,
{
    if from < 0 || from >= s.len() {
        None
    } else if p(s[from]) {
        Some(from)
    } else {
        find_where(s, p, from + 1)
    }
}

/// What `find_where` returns: the least index at or after `from` whose
/// element satisfies `p`, or `None` when no such index exists.
pub proof fn lemma_find_where<A>(s: Seq<A>, p: spec_fn(A) -> bool, from: int)
    requires
        0 <= from,
    ensures
        match find_where(s, p, from) {
            Some(k) => from <= k < s.len() && p(s[k]) && forall|j: int|
                from <= j < k ==> !p(s[j]),
            None => forall|j: int| from <= j < s.len() ==> !p(s[j]),
        },
    decreases s.len() - from,
{
    if from < s.len() && !p(s[from]) {
        lemma_find_where(s, p, from + 1);
    }
}

/// Conversely, an index with those properties is what `find_where` returns.
pub proof fn lemma_find_where_is<A>(s: Seq<A>, p: spec_fn(A) -> bool, from: int, k: int)
    requires
        0 <= from <= k < s.len(),
        p(s[k]),
        forall|j: int| from <= j < k ==> !p(s[j]),
    ensures
        find_where(s, p, from) == Some(k),
    decreases k - from,
{
    if from < k {
        lemma_find_where_is(s, p, from + 1, k);
    }
}

/// And when no index from `from` on satisfies `p`, `find_where` returns `None`.
pub proof fn lemma_find_where_none<A>(s: Seq<A>, p: spec_fn(A) -> bool, from: int)
    requires
        0 <= from,
        forall|j: int| from <= j < s.len() ==> !p(s[j]),
    ensures
        find_where(s, p, from) == None::<int>,
    decreases s.len() - from,
{
    if from < s.len() {
        lemma_find_where_none(s, p, from + 1);
    }
}

/// Least position in `[from, n)` satisfying `p`, if any.
pub open spec fn find_pos(n: int, p: spec_fn(int) -> bool, from: int) -> Option<int>
    decreases n - from,
{
    if from < 0 || from >= n {
        None
    } else if p(from) {
        Some(from)
    } else {
        find_pos(n, p, from + 1)
    }
}

/// What `find_pos` returns: the least position at or after `from`
/// satisfying `p`, or `None` when there is none below `n`.
pub proof fn lemma_find_pos(n: int, p: spec_fn(int) -> bool, from: int)
    requires
        0 <= from,
    ensures
        match find_pos(n, p, from) {
            Some(k) => from <= k < n && p(k) && forall|j: int| from <= j < k ==> !(#[trigger] p(j)),
            None => forall|j: int| from <= j < n ==> !(#[trigger] p(j)),
        },
    decreases n - from,
{
    if from < n && !p(from) {
        lemma_find_pos(n, p, from + 1);
    }
}

/// Conversely, a position with those properties is what `find_pos` returns.
pub proof fn lemma_find_pos_is(n: int, p: spec_fn(int) -> bool, from: int, k: int)
    requires
        0 <= from <= k < n,
        p(k),
        forall|j: int| from <= j < k ==> !(#[trigger] p(j)),
    ensures
        find_pos(n, p, from) == Some(k),
    decreases k - from,
{
    if from < k {
        lemma_find_pos_is(n, p, from + 1, k);
    }
}

/// And when no position at or after `from` satisfies `p`, `find_pos` is `None`.
pub proof fn lemma_find_pos_none(n: int, p: spec_fn(int) -> bool, from: int)
    requires
        0 <= from,
        forall|j: int| from <= j < n ==> !(#[trigger] p(j)),
    ensures
        find_pos(n, p, from) == None::<int>,
    decreases n - from,
{
    if from < n {
        lemma_find_pos_none(n, p, from + 1);
    }
}

/// Does `pat` occur in `s` at position `i`?
pub fn matches_at(s: &str, pat: &str, i: usize) -> (r: bool)
    ensures
        r == match_at(s@, pat@, i as int),
{
    let n = s.unicode_len();
    let m = pat.unicode_len();
    if i > n || m > n - i {
        assert(!match_at(s@, pat@, i as int));
        return false;
    }
    let mut j: usize = 0;
    while j < m
        invariant
            n == s@.len(),
            m == pat@.len(),
            i + m <= n,
            0 <= j <= m,
            forall|k: int| 0 <= k < j ==> s@[i + k] == pat@[k],
        decreases m - j,
    {
        if s.get_char(i + j) != pat.get_char(j) {
            assert(!match_at(s@, pat@, i as int)) by {
                if match_at(s@, pat@, i as int) {
                    assert(s@.subrange(i as int, i + m)[j as int] == pat@[j as int]);
                }
            }
            return false;
        }
        j += 1;
    }
    assert(s@.subrange(i as int, i + m) =~= pat@);
    true
}

/// Least position at or after `from` where `pat` occurs in `s`, if any.
pub fn find_match_from(s: &str, pat: &str, from: usize) -> (r: Option<usize>)
    ensures
        match r {
            Some(k) => from <= k && match_at(s@, pat@, k as int) && forall|j: int|
                from <= j < k ==> !match_at(s@, pat@, j),
            None => forall|j: int| from <= j ==> !match_at(s@, pat@, j),
        },
{
    let n = s.unicode_len();
    let mut k: usize = from;
    while k < n
        invariant
            n == s@.len(),
            from <= k,
            forall|j: int| from <= j < k ==> !match_at(s@, pat@, j),
        decreases n - k,
    {
        if matches_at(s, pat, k) {
            return Some(k);
        }
        k += 1;
    }
    if matches_at(s, pat, k) {
        // An empty pattern also occurs at the end of the text.
        return Some(k);
    }
    assert(forall|j: int| from <= j ==> !match_at(s@, pat@, j)) by {
        assert forall|j: int| from <= j && match_at(s@, pat@, j) implies false by {
            assert(j + pat@.len() <= s@.len());
            assert(j < k || j == k || !match_at(s@, pat@, j));
        }
    }
    None
}

/// Leftmost occurrence of `pat` in `s`, if any.
pub open spec fn find_sub(s: Seq<char>, pat: Seq<char>) -> Option<int> {
    find_pos(s.len() as int, |i: int| match_at(s, pat, i), 0)
}

/// Finds the leftmost occurrence of `pat` in `s`.
pub fn find_sub_in(s: &str, pat: &str) -> (r: Option<usize>)
    requires
        pat@.len() > 0,
    ensures
        match r {
            Some(k) => find_sub(s@, pat@) == Some(k as int) && match_at(s@, pat@, k as int),
            None => find_sub(s@, pat@) is None,
        },
{
    let ghost p = |i: int| match_at(s@, pat@, i);
    match find_match_from(s, pat, 0) {
        Some(k) => {
            proof {
                assert(p(k as int));
                assert forall|j: int| 0 <= j < k implies !(#[trigger] p(j)) by {}
                lemma_find_pos_is(s@.len() as int, p, 0, k as int);
            }
            Some(k)
        },
        None => {
            proof {
                assert forall|j: int| 0 <= j < s@.len() implies !(#[trigger] p(j)) by {}
                lemma_find_pos_none(s@.len() as int, p, 0);
            }
            None
        },
    }
}

/// `s` with trailing whitespace removed.
pub open spec fn trim_end_spec(s: Seq<char>) -> Seq<char>
    decreases s.len(),
{
    if s.len() > 0 && spec_is_space(s.last()) {
        trim_end_spec(s.drop_last())
    } else {
        s
    }
}

/// `s` with leading whitespace removed.
pub open spec fn trim_start_spec(s: Seq<char>) -> Seq<char>
    decreases s.len(),
{
    if s.len() > 0 && spec_is_space(s.first()) {
        trim_start_spec(s.drop_first())
    } else {
        s
    }
}

/// `s` with leading and trailing whitespace removed.
pub open spec fn trim_spec(s: Seq<char>) -> Seq<char> {
    trim_start_spec(trim_end_spec(s))
}

/// Trimming the end keeps the prefix up to the last non-space character.
pub proof fn lemma_trim_end_subrange(s: Seq<char>, e: int)
    requires
        0 <= e <= s.len(),
        forall|i: int| e <= i < s.len() ==> spec_is_space(s[i]),
        e > 0 ==> !spec_is_space(s[e - 1]),
    ensures
        trim_end_spec(s) == s.subrange(0, e),
    decreases s.len(),
{
    if s.len() == 0 {
        assert(s.subrange(0, 0) =~= s);
    } else if spec_is_space(s.last()) {
        assert(e < s.len());
        lemma_trim_end_subrange(s.drop_last(), e);
        assert(s.drop_last().subrange(0, e) =~= s.subrange(0, e));
    } else {
        assert(e == s.len());
        assert(s.subrange(0, e) =~= s);
    }
}

/// Trimming the start keeps the suffix from the first non-space character.
pub proof fn lemma_trim_start_subrange(s: Seq<char>, a: int)
    requires
        0 <= a <= s.len(),
        forall|i: int| 0 <= i < a ==> spec_is_space(s[i]),
        a < s.len() ==> !spec_is_space(s[a]),
    ensures
        trim_start_spec(s) == s.subrange(a, s.len() as int),
    decreases s.len(),
{
    if s.len() == 0 {
        assert(s.subrange(0, 0) =~= s);
    } else if spec_is_space(s.first()) {
        assert(a > 0);
        lemma_trim_start_subrange(s.drop_first(), a - 1);
        assert(s.drop_first().subrange(a - 1, s.drop_first().len() as int) =~= s.subrange(
            a,
            s.len() as int,
        ));
    } else {
        assert(a == 0);
        assert(s.subrange(0, s.len() as int) =~= s);
    }
}

/// Trimming never lengthens a sequence.
pub proof fn lemma_trim_start_len(s: Seq<char>)
    ensures
        trim_start_spec(s).len() <= s.len(),
    decreases s.len(),
{
    if s.len() > 0 && spec_is_space(s.first()) {
        lemma_trim_start_len(s.drop_first());
    }
}

/// Is every character of `s` whitespace?
pub fn is_all_space(s: &str) -> (r: bool)
    ensures
        r == all_space(s@),
{
    let n = s.unicode_len();
    let mut i: usize = 0;
    while i < n
        invariant
            n == s@.len(),
            0 <= i <= n,
            forall|j: int| 0 <= j < i ==> spec_is_space(s@[j]),
        decreases n - i,
    {
        if !is_space(s.get_char(i)) {
            return false;
        }
        i += 1;
    }
    true
}

/// A copy of `s` with leading and trailing whitespace removed.
pub fn trim_of(s: &str) -> (r: String)
    ensures
        r@ == trim_spec(s@),
{
    let n = s.unicode_len();
    let mut e: usize = n;
    while e > 0 && is_space(s.get_char(e - 1))
        invariant
            n == s@.len(),
            0 <= e <= n,
            forall|i: int| e <= i < n ==> spec_is_space(s@[i]),
        decreases e,
    {
        e -= 1;
    }
    proof {
        lemma_trim_end_subrange(s@, e as int);
    }
    let mut a: usize = 0;
    while a < e && is_space(s.get_char(a))
        invariant
            n == s@.len(),
            0 <= a <= e <= n,
            forall|i: int| 0 <= i < a ==> spec_is_space(s@[i]),
        decreases e - a,
    {
        a += 1;
    }
    proof {
        let t = s@.subrange(0, e as int);
        assert forall|i: int| 0 <= i < a implies spec_is_space(t[i]) by {}
        if (a as int) < e {
            assert(!spec_is_space(t[a as int]));
        }
        lemma_trim_start_subrange(t, a as int);
        assert(t.subrange(a as int, t.len() as int) =~= s@.subrange(a as int, e as int));
    }
    String::from_str(s.substring_char(a, e))
}

/// A decimal digit.
pub open spec fn is_digit(c: char) -> bool {
    48 <= c as u32 <= 57
}

/// The digit with value `d`.
pub open spec fn digit_char(d: int) -> char {
    if d == 0 {
        '0'
    } else if d == 1 {
        '1'
    } else if d == 2 {
        '2'
    } else if d == 3 {
        '3'
    } else if d == 4 {
        '4'
    } else if d == 5 {
        '5'
    } else if d == 6 {
        '6'
    } else if d == 7 {
        '7'
    } else if d == 8 {
        '8'
    } else {
        '9'
    }
}

/// The number denoted by a sequence of decimal digits (most significant
/// first); the empty sequence denotes zero.
pub open spec fn digits_val(s: Seq<char>) -> nat
    decreases s.len(),
{
    if s.len() == 0 {
        0
    } else {
        digits_val(s.drop_last()) * 10 + (if s.last() as u32 >= 48 {
            (s.last() as u32 - 48) as nat
        } else {
            0
        })
    }
}

/// A digit run denotes at least as much as any of its prefixes.
pub proof fn lemma_digits_val_prefix(s: Seq<char>, k: int)
    requires
        0 <= k <= s.len(),
    ensures
        digits_val(s.subrange(0, k)) <= digits_val(s),
    decreases s.len(),
{
    if k < s.len() {
        assert(s.drop_last().subrange(0, k) =~= s.subrange(0, k));
        lemma_digits_val_prefix(s.drop_last(), k);
    } else {
        assert(s.subrange(0, k) =~= s);
    }
}

/// The decimal rendering of `n`, without leading zeros (`0` renders as "0").
pub open spec fn dec_str(n: nat) -> Seq<char>
    decreases n,
{
    if n < 10 {
        seq![digit_char(n as int)]
    } else {
        dec_str(n / 10) + seq![digit_char((n % 10) as int)]
    }
}

/// The one-character string for the digit `d`.
pub fn digit_str(d: u64) -> (r: &'static str)
    requires
        d < 10,
    ensures
        r@ == seq![digit_char(d as int)],
{
    proof {
        reveal_strlit("0");
        reveal_strlit("1");
        reveal_strlit("2");
        reveal_strlit("3");
        reveal_strlit("4");
        reveal_strlit("5");
        reveal_strlit("6");
        reveal_strlit("7");
        reveal_strlit("8");
        reveal_strlit("9");
    }
    let r = match d {
        0 => "0",
        1 => "1",
        2 => "2",
        3 => "3",
        4 => "4",
        5 => "5",
        6 => "6",
        7 => "7",
        8 => "8",
        _ => "9",
    };
    assert(r@ =~= seq![digit_char(d as int)]);
    r
}

/// Renders `n` in decimal.
pub fn u64_to_string(n: u64) -> (r: String)
    ensures
        r@ == dec_str(n as nat),
    decreases n,
{
    if n < 10 {
        String::from_str(digit_str(n))
    } else {
        let mut s = u64_to_string(n / 10);
        s.append(digit_str(n % 10));
        s
    }
}

/// Reads the digit run `s[from..to]` as an unsigned 32-bit number.
/// Returns `None` exactly when the denoted value does not fit.
pub fn parse_u32_digits(s: &str, from: usize, to: usize) -> (r: Option<u32>)
    requires
        from <= to <= s@.len(),
        forall|i: int| from <= i < to ==> is_digit(s@[i]),
    ensures
        match r {
            Some(v) => v as nat == digits_val(s@.subrange(from as int, to as int)),
            None => digits_val(s@.subrange(from as int, to as int)) > u32::MAX,
        },
{
    let ghost whole = s@.subrange(from as int, to as int);
    let mut acc: u64 = 0;
    let mut j: usize = from;
    while j < to
        invariant
            from <= j <= to <= s@.len(),
            forall|i: int| from <= i < to ==> is_digit(s@[i]),
            whole == s@.subrange(from as int, to as int),
            acc as nat == digits_val(s@.subrange(from as int, j as int)),
            acc <= u32::MAX,
        decreases to - j,
    {
        let c = s.get_char(j);
        let d: u64 = (c as u32 - 48) as u64;
        let acc2: u64 = acc * 10 + d;
        proof {
            let prev = s@.subrange(from as int, j as int);
            let cur = s@.subrange(from as int, j + 1);
            assert(cur.drop_last() =~= prev);
            assert(cur.last() == s@[j as int]);
            assert(digits_val(cur) == digits_val(prev) * 10 + (d as nat));
        }
        if acc2 > u32::MAX as u64 {
            proof {
                lemma_digits_val_prefix(whole, j + 1 - from);
                assert(whole.subrange(0, j + 1 - from) =~= s@.subrange(from as int, j + 1));
            }
            return None;
        }
        acc = acc2;
        j += 1;
    }
    Some(acc as u32)
}

/// Reads the digit run `s[from..to]` as an unsigned 64-bit number.
/// Returns `None` exactly when the denoted value does not fit.
pub fn parse_u64_digits(s: &str, from: usize, to: usize) -> (r: Option<u64>)
    requires
        from <= to <= s@.len(),
        forall|i: int| from <= i < to ==> is_digit(s@[i]),
    ensures
        match r {
            Some(v) => v as nat == digits_val(s@.subrange(from as int, to as int)),
            None => digits_val(s@.subrange(from as int, to as int)) > u64::MAX,
        },
{
    let ghost whole = s@.subrange(from as int, to as int);
    let mut acc: u128 = 0;
    let mut j: usize = from;
    while j < to
        invariant
            from <= j <= to <= s@.len(),
            forall|i: int| from <= i < to ==> is_digit(s@[i]),
            whole == s@.subrange(from as int, to as int),
            acc as nat == digits_val(s@.subrange(from as int, j as int)),
            acc <= u64::MAX,
        decreases to - j,
    {
        let c = s.get_char(j);
        let d: u128 = (c as u32 - 48) as u128;
        let acc2: u128 = acc * 10 + d;
        proof {
            let prev = s@.subrange(from as int, j as int);
            let cur = s@.subrange(from as int, j + 1);
            assert(cur.drop_last() =~= prev);
            assert(cur.last() == s@[j as int]);
            assert(digits_val(cur) == digits_val(prev) * 10 + (d as nat));
        }
        if acc2 > u64::MAX as u128 {
            proof {
                lemma_digits_val_prefix(whole, j + 1 - from);
                assert(whole.subrange(0, j + 1 - from) =~= s@.subrange(from as int, j + 1));
            }
            return None;
        }
        acc = acc2;
        j += 1;
    }
    Some(acc as u64)
}

/// A predicate picking out the newline character.
pub open spec fn nl_pred() -> spec_fn(char) -> bool {
    |c: char| c == '\n'
}

/// A predicate picking out whitespace characters.
pub open spec fn space_pred() -> spec_fn(char) -> bool {
    |c: char| spec_is_space(c)
}

/// The lines of `s`, split on line feeds; a trailing line feed does not
/// produce a final empty line (as with Rust's `str::lines`).
pub open spec fn spec_lines(s: Seq<char>) -> Seq<Seq<char>>
    decreases s.len(),
    via spec_lines_dec
{
    if s.len() == 0 {
        Seq::empty()
    } else {
        match find_where(s, nl_pred(), 0) {
            Some(k) => seq![s.subrange(0, k)] + spec_lines(s.subrange(k + 1, s.len() as int)),
            None => seq![s],
        }
    }
}

#[via_fn]
proof fn spec_lines_dec(s: Seq<char>) {
    if s.len() > 0 {
        lemma_find_where(s, nl_pred(), 0);
    }
}

/// Splits `s` into its lines.
pub fn split_lines(s: &str) -> (r: Vec<String>)
    ensures
        r.deep_view() == spec_lines(s@),
{
    let n = s.unicode_len();
    let mut r: Vec<String> = Vec::new();
    let mut pos: usize = 0;
    proof {
        assert(s@.subrange(0, n as int) =~= s@);
        assert(r.deep_view() + spec_lines(s@) =~~= spec_lines(s@));
    }
    while pos < n
        invariant
            n == s@.len(),
            0 <= pos <= n,
            spec_lines(s@) == r.deep_view() + spec_lines(s@.subrange(pos as int, n as int)),
        decreases n - pos,
    {
        let ghost r0 = r.deep_view();
        let mut k: usize = pos;
        while k < n && s.get_char(k) != '\n'
            invariant
                n == s@.len(),
                pos <= k <= n,
                forall|j: int| pos <= j < k ==> s@[j] != '\n',
            decreases n - k,
        {
            k += 1;
        }
        let line = String::from_str(s.substring_char(pos, k));
        r.push(line);
        proof {
            let t = s@.subrange(pos as int, n as int);
            if k < n {
                assert(t[k - pos] == s@[k as int]);
                assert forall|j: int| 0 <= j < k - pos implies !(nl_pred()(t[j])) by {
                    assert(t[j] == s@[pos + j]);
                }
                lemma_find_where_is(t, nl_pred(), 0, k - pos);
                assert(t.subrange(0, k - pos) =~= s@.subrange(pos as int, k as int));
                assert(t.subrange(k - pos + 1, t.len() as int) =~= s@.subrange(
                    k + 1,
                    n as int,
                ));
                assert(spec_lines(t) == seq![s@.subrange(pos as int, k as int)] + spec_lines(
                    s@.subrange(k + 1, n as int),
                ));
                assert(r.deep_view() =~~= r0.push(s@.subrange(pos as int, k as int)));
                assert(r.deep_view() + spec_lines(s@.subrange(k + 1, n as int)) =~~= r0
                    + spec_lines(t));
            } else {
                assert forall|j: int| 0 <= j < t.len() implies !(nl_pred()(t[j])) by {
                    assert(t[j] == s@[pos + j]);
                }
                lemma_find_where_none(t, nl_pred(), 0);
                assert(spec_lines(t) == seq![t]);
                assert(r.deep_view() =~~= r0.push(t));
                assert(s@.subrange(n as int, n as int).len() == 0);
                assert(r.deep_view() + spec_lines(s@.subrange(n as int, n as int)) =~~= r0
                    + spec_lines(t));
            }
        }
        if k < n {
            pos = k + 1;
        } else {
            pos = n;
        }
    }
    proof {
        assert(s@.subrange(n as int, n as int).len() == 0);
        assert(r.deep_view() + spec_lines(s@.subrange(pos as int, n as int)) =~~= r.deep_view());
    }
    r
}

/// The whitespace-separated tokens of `s`.
pub open spec fn spec_tokens(s: Seq<char>) -> Seq<Seq<char>>
    decreases s.len(),
    via spec_tokens_dec
{
    let t = trim_start_spec(s);
    if t.len() == 0 {
        Seq::empty()
    } else {
        match find_where(t, space_pred(), 0) {
            Some(k) => seq![t.subrange(0, k)] + spec_tokens(t.subrange(k, t.len() as int)),
            None => seq![t],
        }
    }
}

#[via_fn]
proof fn spec_tokens_dec(s: Seq<char>) {
    let t = trim_start_spec(s);
    lemma_trim_start_len(s);
    if t.len() > 0 {
        lemma_find_where(t, space_pred(), 0);
        lemma_trim_start_first(s);
    }
}

/// A trimmed-at-the-start sequence, if non-empty, begins with a non-space.
pub proof fn lemma_trim_start_first(s: Seq<char>)
    requires
        trim_start_spec(s).len() > 0,
    ensures
        !spec_is_space(trim_start_spec(s).first()),
    decreases s.len(),
{
    if s.len() > 0 && spec_is_space(s.first()) {
        lemma_trim_start_first(s.drop_first());
    }
}

/// Splits `s` into its whitespace-separated tokens.
pub fn split_tokens(s: &str) -> (r: Vec<String>)
    ensures
        r.deep_view() == spec_tokens(s@),
{
    let n = s.unicode_len();
    let mut r: Vec<String> = Vec::new();
    let mut pos: usize = 0;
    proof {
        assert(s@.subrange(0, n as int) =~= s@);
        assert(r.deep_view() + spec_tokens(s@) =~~= spec_tokens(s@));
    }
    while pos < n
        invariant
            n == s@.len(),
            0 <= pos <= n,
            spec_tokens(s@) == r.deep_view() + spec_tokens(s@.subrange(pos as int, n as int)),
        decreases n - pos,
    {
        let ghost r0 = r.deep_view();
        let mut a: usize = pos;
        while a < n && is_space(s.get_char(a))
            invariant
                n == s@.len(),
                pos <= a <= n,
                forall|j: int| pos <= j < a ==> spec_is_space(s@[j]),
            decreases n - a,
        {
            a += 1;
        }
        let ghost u = s@.subrange(pos as int, n as int);
        proof {
            assert forall|j: int| 0 <= j < a - pos implies spec_is_space(u[j]) by {
                assert(u[j] == s@[pos + j]);
            }
            if a < n {
                assert(u[a - pos] == s@[a as int]);
            }
            lemma_trim_start_subrange(u, a - pos);
            assert(u.subrange(a - pos, u.len() as int) =~= s@.subrange(a as int, n as int));
        }
        if a == n {
            proof {
                assert(trim_start_spec(u).len() == 0);
                assert(r.deep_view() + spec_tokens(u) =~~= r.deep_view());
            }
            pos = n;
        } else {
            let mut k: usize = a;
            while k < n && !is_space(s.get_char(k))
                invariant
                    n == s@.len(),
                    a <= k <= n,
                    forall|j: int| a <= j < k ==> !spec_is_space(s@[j]),
                decreases n - k,
            {
                k += 1;
            }
            let tok = String::from_str(s.substring_char(a, k));
            r.push(tok);
            proof {
                let t = s@.subrange(a as int, n as int);
                assert forall|j: int| 0 <= j < k - a implies !(space_pred()(t[j])) by {
                    assert(t[j] == s@[a + j]);
                }
                if k < n {
                    assert(t[k - a] == s@[k as int]);
                    lemma_find_where_is(t, space_pred(), 0, k - a);
                    assert(t.subrange(0, k - a) =~= s@.subrange(a as int, k as int));
                    assert(t.subrange(k - a, t.len() as int) =~= s@.subrange(k as int, n as int));
                    assert(spec_tokens(u) == seq![s@.subrange(a as int, k as int)] + spec_tokens(
                        s@.subrange(k as int, n as int),
                    ));
                } else {
                    lemma_find_where_none(t, space_pred(), 0);
                    assert(spec_tokens(u) == seq![t]);
                    assert(t =~= s@.subrange(a as int, k as int));
                    assert(s@.subrange(k as int, n as int).len() == 0);
                    assert(spec_tokens(s@.subrange(k as int, n as int)) =~= Seq::<Seq<char>>::empty());
                }
                assert(r.deep_view() =~~= r0.push(s@.subrange(a as int, k as int)));
                assert(r.deep_view() + spec_tokens(s@.subrange(k as int, n as int)) =~~= r0
                    + spec_tokens(u));
            }
            pos = k;
        }
    }
    proof {
        assert(trim_start_spec(s@.subrange(pos as int, n as int)).len() == 0);
        assert(r.deep_view() + spec_tokens(s@.subrange(pos as int, n as int)) =~~= r.deep_view());
    }
    r
}

/// The first whitespace-separated token of `s` (empty when `s` has none).
pub open spec fn first_token(s: Seq<char>) -> Seq<char> {
    if spec_tokens(s).len() > 0 {
        spec_tokens(s)[0]
    } else {
        Seq::empty()
    }
}

/// Extracts the first whitespace-separated token of `s`.
pub fn first_token_of(s: &str) -> (r: String)
    ensures
        r@ == first_token(s@),
{
    let toks = split_tokens(s);
    if toks.len() > 0 {
        let r = toks[0].clone();
        proof {
            assert(toks.deep_view()[0] == toks[0]@);
        }
        r
    } else {
        String::new()
    }
}

/// Do two pieces of text hold the same characters?
pub fn str_eq(a: &str, b: &str) -> (r: bool)
    ensures
        r == (a@ == b@),
{
    let n = a.unicode_len();
    if n != b.unicode_len() {
        return false;
    }
    let mut i: usize = 0;
    while i < n
        invariant
            n == a@.len(),
            n == b@.len(),
            0 <= i <= n,
            forall|j: int| 0 <= j < i ==> a@[j] == b@[j],
        decreases n - i,
    {
        if a.get_char(i) != b.get_char(i) {
            return false;
        }
        i += 1;
    }
    assert(a@ =~= b@);
    true
}

/// A lowercase hexadecimal digit.
pub open spec fn is_hex(c: char) -> bool {
    is_digit(c) || (97 <= c as u32 <= 102)
}

pub fn is_hex_char(c: char) -> (r: bool)
    ensures
        r == is_hex(c),
{
    let u = c as u32;
    (48 <= u && u <= 57) || (97 <= u && u <= 102)
}

/// `pat` is a suffix of `s`.
pub open spec fn ends_with_spec(s: Seq<char>, pat: Seq<char>) -> bool {
    pat.len() <= s.len() && s.subrange(s.len() - pat.len(), s.len() as int) == pat
}

pub fn ends_with(s: &str, pat: &str) -> (r: bool)
    ensures
        r == ends_with_spec(s@, pat@),
{
    let n = s.unicode_len();
    let m = pat.unicode_len();
    if m > n {
        return false;
    }
    matches_at(s, pat, n - m)
}

/// A copy of `s` with trailing whitespace removed.
pub fn trim_end_of(s: &str) -> (r: String)
    ensures
        r@ == trim_end_spec(s@),
{
    let n = s.unicode_len();
    let mut e: usize = n;
    while e > 0 && is_space(s.get_char(e - 1))
        invariant
            n == s@.len(),
            0 <= e <= n,
            forall|i: int| e <= i < n ==> spec_is_space(s@[i]),
        decreases e,
    {
        e -= 1;
    }
    proof {
        lemma_trim_end_subrange(s@, e as int);
    }
    String::from_str(s.substring_char(0, e))
}

} // verus!
