//! Extraction from version-control output and repository configuration:
//! the two pinned subproject hashes of a pointer-change patch, the
//! pinned hash of a tree listing, the remote-URL checks, and the account
//! name embedded in a remote URL.

use vstd::prelude::*;

use crate::text::{
    ends_with, ends_with_spec, find_pos, is_digit, is_hex, is_hex_char, lemma_find_pos,
    lemma_find_pos_is, lemma_find_pos_none, match_at, matches_at, spec_tokens, split_tokens,
    str_eq,
};

verus! {

/// A `Subproject commit <hash>` capture begins at `i`.
pub open spec fn subproject_at(s: Seq<char>, i: int) -> bool {
    match_at(s, "Subproject commit "@, i) && i + "Subproject commit "@.len() < s.len() && is_hex(
        s[i + "Subproject commit "@.len()],
    )
}

/// The end of the hash run beginning at `from`.
pub open spec fn hex_run_end(s: Seq<char>, from: int) -> int {
    match find_pos(s.len() as int, |j: int| !is_hex(s[j]), from) {
        Some(k) => k,
        None => s.len() as int,
    }
}

/// What extracting the pinned hashes from a pointer-change patch
/// yields: the patch must hold exactly two `Subproject commit <hash>`
/// captures; their hashes come back in patch order. Any other count
/// yields nothing.
pub open spec fn spec_subproject_hashes(s: Seq<char>) -> Option<(Seq<char>, Seq<char>)> {
    let p = |i: int| subproject_at(s, i);
    let mlen = "Subproject commit "@.len() as int;
    match find_pos(s.len() as int, p, 0) {
        None => None,
        Some(i1) => {
            let e1 = hex_run_end(s, i1 + mlen);
            match find_pos(s.len() as int, p, e1) {
                None => None,
                Some(i2) => {
                    let e2 = hex_run_end(s, i2 + mlen);
                    if find_pos(s.len() as int, p, e2) is Some {
                        None
                    } else {
                        Some((s.subrange(i1 + mlen, e1), s.subrange(i2 + mlen, e2)))
                    }
                },
            }
        },
    }
}

/// Finds the next `Subproject commit <hash>` capture at or after `from`.
fn find_subproject(s: &str, from: usize) -> (r: Option<usize>)
    ensures
        ({
            let p = |i: int| subproject_at(s@, i);
            match r {
                Some(k) => find_pos(s@.len() as int, p, from as int) == Some(k as int)
                    && subproject_at(s@, k as int),
                None => find_pos(s@.len() as int, p, from as int) is None,
            }
        }),
{
    let ghost p = |i: int| subproject_at(s@, i);
    let n = s.unicode_len();
    let mut k: usize = from;
    while k < n
        invariant
            n == s@.len(),
            from <= k,
            p == (|i: int| subproject_at(s@, i)),
            forall|j: int| from <= j < k ==> !(#[trigger] p(j)),
        decreases n - k,
    {
        let hit = if matches_at(s, "Subproject commit ", k) {
            let d = k + "Subproject commit ".unicode_len();
            d < n && is_hex_char(s.get_char(d))
        } else {
            false
        };
        if hit {
            proof {
                assert(p(k as int));
                lemma_find_pos_is(n as int, p, from as int, k as int);
            }
            return Some(k);
        }
        proof {
            assert(!p(k as int));
        }
        k += 1;
    }
    proof {
        lemma_find_pos_none(n as int, p, from as int);
    }
    None
}

/// The end of the hash run from `from`, found by scanning forward.
fn hex_run_end_of(s: &str, from: usize) -> (r: usize)
    requires
        from <= s@.len(),
    ensures
        r as int == hex_run_end(s@, from as int),
        from <= r <= s@.len(),
{
    let ghost q = |j: int| !is_hex(s@[j]);
    let n = s.unicode_len();
    let mut k: usize = from;
    while k < n && is_hex_char(s.get_char(k))
        invariant
            n == s@.len(),
            from <= k <= n,
            forall|j: int| from <= j < k ==> is_hex(s@[j]),
        decreases n - k,
    {
        k += 1;
    }
    proof {
        if k < n {
            assert(q(k as int));
            assert forall|j: int| from <= j < k implies !(#[trigger] q(j)) by {}
            lemma_find_pos_is(n as int, q, from as int, k as int);
        } else {
            assert forall|j: int| from <= j < n implies !(#[trigger] q(j)) by {}
            lemma_find_pos_none(n as int, q, from as int);
        }
    }
    k
}

/// Extracts the two pinned subproject hashes of a pointer-change patch,
/// in order; `None` exactly when the patch does not hold two (and only
/// two) `Subproject commit <hash>` captures.
pub fn subproject_hashes(diff: &str) -> (r: Option<(String, String)>)
    ensures
        match r {
            Some(p) => spec_subproject_hashes(diff@) == Some((p.0@, p.1@)),
            None => spec_subproject_hashes(diff@) is None,
        },
{
    let n = diff.unicode_len();
    let mlen = "Subproject commit ".unicode_len();
    let i1 = match find_subproject(diff, 0) {
        Some(k) => k,
        None => {
            return None;
        },
    };
    let e1 = hex_run_end_of(diff, i1 + mlen);
    let i2 = match find_subproject(diff, e1) {
        Some(k) => k,
        None => {
            return None;
        },
    };
    let e2 = hex_run_end_of(diff, i2 + mlen);
    if let Some(_k3) = find_subproject(diff, e2) {
        return None;
    }
    let h1 = String::from_str(diff.substring_char(i1 + mlen, e1));
    let h2 = String::from_str(diff.substring_char(i2 + mlen, e2));
    proof {
        let p = |i: int| subproject_at(diff@, i);
        lemma_find_pos(diff@.len() as int, p, e1 as int);
    }
    Some((h1, h2))
}

/// The pinned hash in a tree listing's line for the vendored
/// subproject, if the line has the expected shape
/// `160000 commit <hash> src/tools/cargo`.
pub open spec fn spec_ls_tree_hash(l: Seq<char>) -> Option<Seq<char>> {
    let ts = spec_tokens(l);
    if ts.len() >= 4 && ts[0] == "160000"@ && ts[1] == "commit"@ && ts[3] == "src/tools/cargo"@ {
        Some(ts[2])
    } else {
        None
    }
}

/// Reads the pinned hash out of a tree listing's line.
pub fn parse_ls_tree_line(line: &str) -> (r: Option<String>)
    ensures
        match r {
            Some(h) => spec_ls_tree_hash(line@) == Some(h@),
            None => spec_ls_tree_hash(line@) is None,
        },
{
    let toks = split_tokens(line);
    if toks.len() < 4 {
        return None;
    }
    proof {
        assert(toks.deep_view()[0] == toks@[0]@);
        assert(toks.deep_view()[1] == toks@[1]@);
        assert(toks.deep_view()[2] == toks@[2]@);
        assert(toks.deep_view()[3] == toks@[3]@);
    }
    if str_eq(toks[0].as_str(), "160000") && str_eq(toks[1].as_str(), "commit") && str_eq(
        toks[3].as_str(),
        "src/tools/cargo",
    ) {
        Some(toks[2].clone())
    } else {
        None
    }
}

/// The expected upstream remote: the project's canonical repository.
pub fn upstream_url_ok(url: &str) -> (r: bool)
    ensures
        r == ends_with_spec(url@, "rust-lang/cargo.git"@),
{
    ends_with(url, "rust-lang/cargo.git")
}

/// The expected origin remote: some fork of the project.
pub fn origin_url_ok(url: &str) -> (r: bool)
    ensures
        r == ends_with_spec(url@, "/cargo.git"@),
{
    ends_with(url, "/cargo.git")
}

/// A character an account name may hold.
pub open spec fn name_char(c: char) -> bool {
    is_digit(c) || (97 <= c as u32 <= 122) || (65 <= c as u32 <= 90) || c == '-'
}

fn is_name_char(c: char) -> (r: bool)
    ensures
        r == name_char(c),
{
    let u = c as u32;
    (48 <= u && u <= 57) || (97 <= u && u <= 122) || (65 <= u && u <= 90) || c == '-'
}

/// The end of the run of name characters beginning at `from`.
pub open spec fn name_run_end(s: Seq<char>, from: int) -> int {
    match find_pos(s.len() as int, |j: int| !name_char(s[j]), from) {
        Some(k) => k,
        None => s.len() as int,
    }
}

/// An account name followed by `/cargo` begins at `i`.
pub open spec fn user_at(s: Seq<char>, i: int) -> bool {
    0 <= i < s.len() && name_char(s[i]) && match_at(s, "/cargo"@, name_run_end(s, i))
}

/// The account name in a remote URL: the leftmost run of name
/// characters immediately followed by `/cargo`.
pub open spec fn spec_username(s: Seq<char>) -> Option<Seq<char>> {
    match find_pos(s.len() as int, |i: int| user_at(s, i), 0) {
        Some(i) => Some(s.subrange(i, name_run_end(s, i))),
        None => None,
    }
}

/// Extracts the account name from a remote URL.
pub fn extract_username(url: &str) -> (r: Option<String>)
    ensures
        match r {
            Some(u) => spec_username(url@) == Some(u@),
            None => spec_username(url@) is None,
        },
{
    let ghost p = |i: int| user_at(url@, i);
    let n = url.unicode_len();
    let mut i: usize = 0;
    while i < n
        invariant
            n == url@.len(),
            0 <= i <= n,
            p == (|i: int| user_at(url@, i)),
            forall|j: int| 0 <= j < i ==> !(#[trigger] p(j)),
        decreases n - i,
    {
        if is_name_char(url.get_char(i)) {
            let ghost q = |j: int| !name_char(url@[j]);
            let mut e: usize = i;
            while e < n && is_name_char(url.get_char(e))
                invariant
                    n == url@.len(),
                    i <= e <= n,
                    forall|j: int| i <= j < e ==> name_char(url@[j]),
                decreases n - e,
            {
                e += 1;
            }
            proof {
                if e < n {
                    assert(q(e as int));
                    assert forall|j: int| i <= j < e implies !(#[trigger] q(j)) by {}
                    lemma_find_pos_is(n as int, q, i as int, e as int);
                } else {
                    assert forall|j: int| i <= j < n implies !(#[trigger] q(j)) by {}
                    lemma_find_pos_none(n as int, q, i as int);
                }
            }
            assert(e as int == name_run_end(url@, i as int));
            if matches_at(url, "/cargo", e) {
                proof {
                    assert(p(i as int));
                    lemma_find_pos_is(n as int, p, 0, i as int);
                }
                return Some(String::from_str(url.substring_char(i, e)));
            }
            proof {
                assert(!p(i as int));
            }
        } else {
            proof {
                assert(!p(i as int));
            }
        }
        i += 1;
    }
    proof {
        lemma_find_pos_none(n as int, p, 0);
    }
    None
}

/// The address at which a new pull request for the working branch is
/// opened, for the given account.
pub fn new_pr_url(username: &str) -> (r: String)
    ensures
        r@ == "https://github.com/"@ + username@ + "/cargo/pull/new/version-bump"@,
{
    let mut s = String::from_str("https://github.com/");
    s.append(username);
    s.append("/cargo/pull/new/version-bump");
    s
}

} // verus!
