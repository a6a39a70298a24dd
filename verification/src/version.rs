//! The project's semantic version and the version-bump rule: the
//! manifest's `version = "0.x.y"` field always has major component zero,
//! and a bump increments the minor component and resets the patch to
//! zero.

use vstd::prelude::*;

use crate::text::{
    dec_str, digits_val, find_sub, find_sub_in, find_where, is_digit, lemma_find_where_is,
    lemma_find_where_none, parse_u64_digits, u64_to_string,
};

verus! {

/// A semantic version `major.minor.patch`.
#[derive(Clone, Copy, PartialEq, Eq, Structural, Debug)]
pub struct Version {
    pub major: u64,
    pub minor: u64,
    pub patch: u64,
}

/// Why a version could not be read or bumped.
#[derive(Clone, Copy, PartialEq, Eq, Structural, Debug)]
pub enum VersionError {
    /// The `version = "` marker does not occur in the manifest.
    MarkerNotFound,
    /// No closing quote follows the marker.
    UnterminatedVersion,
    /// The quoted text is not a plain `major.minor.patch` version.
    InvalidVersion,
    /// The version's major component is not zero.
    MajorNotZero,
    /// The minor component cannot be incremented without overflow.
    MinorOverflow,
}

/// The decimal rendering of a version.
pub open spec fn version_str(v: Version) -> Seq<char> {
    dec_str(v.major as nat) + seq!['.'] + dec_str(v.minor as nat) + seq!['.'] + dec_str(
        v.patch as nat,
    )
}

/// Renders a version as `major.minor.patch`.
pub fn version_to_string(v: &Version) -> (r: String)
    ensures
        r@ == version_str(*v),
{
    proof {
        reveal_strlit(".");
        assert("."@ =~= seq!['.']);
    }
    let mut s = u64_to_string(v.major);
    s.append(".");
    s.append(u64_to_string(v.minor).as_str());
    s.append(".");
    s.append(u64_to_string(v.patch).as_str());
    s
}

/// A numeric version component: one or more digits, no leading zero
/// (except `0` itself).
pub open spec fn component_ok(s: Seq<char>) -> bool {
    &&& s.len() > 0
    &&& forall|i: int| 0 <= i < s.len() ==> is_digit(s[i])
    &&& (s.len() > 1 ==> s[0] != '0')
}

pub open spec fn dot_pred() -> spec_fn(char) -> bool {
    |c: char| c == '.'
}

/// Reads `major.minor.patch` from `s`: three numeric components that fit
/// 64 bits, separated by dots, nothing else.
pub open spec fn spec_parse_version(s: Seq<char>) -> Option<Version> {
    match find_where(s, dot_pred(), 0) {
        None => None,
        Some(i) => match find_where(s, dot_pred(), i + 1) {
            None => None,
            Some(j) => {
                let a = s.subrange(0, i);
                let b = s.subrange(i + 1, j);
                let c = s.subrange(j + 1, s.len() as int);
                if component_ok(a) && component_ok(b) && component_ok(c) && digits_val(a)
                    <= u64::MAX as nat && digits_val(b) <= u64::MAX as nat && digits_val(c)
                    <= u64::MAX as nat {
                    Some(
                        Version {
                            major: digits_val(a) as u64,
                            minor: digits_val(b) as u64,
                            patch: digits_val(c) as u64,
                        },
                    )
                } else {
                    None
                }
            },
        },
    }
}

/// Checks that `s[from..to]` is a numeric component.
fn check_component(s: &str, from: usize, to: usize) -> (r: bool)
    requires
        from <= to <= s@.len(),
    ensures
        r == component_ok(s@.subrange(from as int, to as int)),
{
    let ghost t = s@.subrange(from as int, to as int);
    if from == to {
        return false;
    }
    let c0 = s.get_char(from);
    if to - from > 1 && c0 == '0' {
        assert(t[0] == '0');
        return false;
    }
    let mut k: usize = from;
    while k < to
        invariant
            from <= k <= to <= s@.len(),
            t == s@.subrange(from as int, to as int),
            forall|i: int| from <= i < k ==> is_digit(s@[i]),
        decreases to - k,
    {
        let u = s.get_char(k) as u32;
        if !(48 <= u && u <= 57) {
            assert(!is_digit(t[k - from]));
            return false;
        }
        k += 1;
    }
    assert forall|i: int| 0 <= i < t.len() implies is_digit(t[i]) by {
        assert(t[i] == s@[from + i]);
    }
    true
}

/// Parses `major.minor.patch`; `None` exactly on text that is not a
/// plain three-component version with 64-bit components.
pub fn parse_version(s: &str) -> (r: Option<Version>)
    ensures
        r == spec_parse_version(s@),
{
    let n = s.unicode_len();
    let mut i: usize = 0;
    while i < n && s.get_char(i) != '.'
        invariant
            n == s@.len(),
            0 <= i <= n,
            forall|k: int| 0 <= k < i ==> s@[k] != '.',
        decreases n - i,
    {
        i += 1;
    }
    if i == n {
        proof {
            assert forall|k: int| 0 <= k < n implies !(dot_pred()(s@[k])) by {}
            lemma_find_where_none(s@, dot_pred(), 0);
        }
        return None;
    }
    proof {
        assert(dot_pred()(s@[i as int]));
        assert forall|k: int| 0 <= k < i implies !(dot_pred()(s@[k])) by {}
        lemma_find_where_is(s@, dot_pred(), 0, i as int);
    }
    let mut j: usize = i + 1;
    while j < n && s.get_char(j) != '.'
        invariant
            n == s@.len(),
            i + 1 <= j <= n,
            forall|k: int| i + 1 <= k < j ==> s@[k] != '.',
        decreases n - j,
    {
        j += 1;
    }
    if j == n {
        proof {
            assert forall|k: int| i + 1 <= k < n implies !(dot_pred()(s@[k])) by {}
            lemma_find_where_none(s@, dot_pred(), i + 1);
        }
        return None;
    }
    proof {
        assert(dot_pred()(s@[j as int]));
        assert forall|k: int| i + 1 <= k < j implies !(dot_pred()(s@[k])) by {}
        lemma_find_where_is(s@, dot_pred(), i + 1, j as int);
    }
    let ok_a = check_component(s, 0, i);
    let ok_b = check_component(s, i + 1, j);
    let ok_c = check_component(s, j + 1, n);
    if !(ok_a && ok_b && ok_c) {
        return None;
    }
    proof {
        assert forall|k: int| 0 <= k < i implies is_digit(s@[k]) by {
            assert(s@.subrange(0, i as int)[k] == s@[k]);
        }
        assert forall|k: int| i + 1 <= k < j implies is_digit(s@[k]) by {
            assert(s@.subrange(i + 1, j as int)[k - i - 1] == s@[k]);
        }
        assert forall|k: int| j + 1 <= k < n implies is_digit(s@[k]) by {
            assert(s@.subrange(j + 1, n as int)[k - j - 1] == s@[k]);
        }
    }
    let va = match parse_u64_digits(s, 0, i) {
        Some(v) => v,
        None => {
            return None;
        },
    };
    let vb = match parse_u64_digits(s, i + 1, j) {
        Some(v) => v,
        None => {
            return None;
        },
    };
    let vc = match parse_u64_digits(s, j + 1, n) {
        Some(v) => v,
        None => {
            return None;
        },
    };
    Some(Version { major: va, minor: vb, patch: vc })
}

/// The version-bump rule: the next version after `0.x.y` is `0.(x+1).0`;
/// a version with a non-zero major component is rejected.
pub fn bump(v: &Version) -> (r: Result<Version, VersionError>)
    ensures
        match r {
            Ok(n) => v.major == 0 && v.minor < u64::MAX && n == (Version {
                major: 0,
                minor: (v.minor + 1) as u64,
                patch: 0,
            }),
            Err(e) => (e == VersionError::MajorNotZero && v.major != 0) || (e
                == VersionError::MinorOverflow && v.major == 0 && v.minor == u64::MAX),
        },
{
    if v.major != 0 {
        Err(VersionError::MajorNotZero)
    } else if v.minor == u64::MAX {
        Err(VersionError::MinorOverflow)
    } else {
        Ok(Version { major: 0, minor: v.minor + 1, patch: 0 })
    }
}

/// The message of the version-bump commit.
pub fn bump_commit_message(v: &Version) -> (r: String)
    ensures
        r@ == "Bump to "@ + version_str(*v),
{
    let mut s = String::from_str("Bump to ");
    s.append(version_to_string(v).as_str());
    s
}

/// The message of the changelog commit, naming the release two minor
/// versions behind the bumped one.
pub fn changelog_commit_message(v: &Version) -> (r: String)
    requires
        v.minor >= 2,
    ensures
        r@ == "Update changelog for 1."@ + dec_str((v.minor - 2) as nat),
{
    let mut s = String::from_str("Update changelog for 1.");
    s.append(u64_to_string(v.minor - 2).as_str());
    s
}

/// The suggested title of the release pull request.
pub fn pr_title(v: &Version) -> (r: String)
    ensures
        r@ == "Bump to "@ + version_str(*v) + ", update changelog"@,
{
    let mut s = String::from_str("Bump to ");
    s.append(version_to_string(v).as_str());
    s.append(", update changelog");
    s
}

/// The `version = "` marker that locates the version field.
pub open spec fn version_marker() -> Seq<char> {
    "version = \""@
}

/// What rewriting the manifest yields: the text with the first quoted
/// version after the marker replaced by its bump, plus the bumped
/// version; or the reason the manifest was rejected.
pub open spec fn spec_bump_manifest(s: Seq<char>) -> Result<(Seq<char>, Version), VersionError> {
    match find_sub(s, version_marker()) {
        None => Err(VersionError::MarkerNotFound),
        Some(m) => {
            let vstart = m + version_marker().len();
            match find_where(s, |c: char| c == '"', vstart) {
                None => Err(VersionError::UnterminatedVersion),
                Some(q) => match spec_parse_version(s.subrange(vstart, q)) {
                    None => Err(VersionError::InvalidVersion),
                    Some(v) => {
                        if v.major != 0 {
                            Err(VersionError::MajorNotZero)
                        } else if v.minor == u64::MAX {
                            Err(VersionError::MinorOverflow)
                        } else {
                            let next = Version { major: 0, minor: (v.minor + 1) as u64, patch: 0 };
                            Ok(
                                (
                                    s.subrange(0, vstart) + version_str(next) + s.subrange(
                                        q,
                                        s.len() as int,
                                    ),
                                    next,
                                ),
                            )
                        }
                    },
                },
            }
        },
    }
}

/// Rewrites the manifest text, bumping the version in its
/// `version = "x.y.z"` field and leaving all other content unchanged.
/// Returns the new text and the bumped version.
pub fn bump_manifest(toml: &str) -> (r: Result<(String, Version), VersionError>)
    ensures
        match r {
            Ok(p) => spec_bump_manifest(toml@) == Ok::<(Seq<char>, Version), VersionError>(
                (p.0@, p.1),
            ),
            Err(e) => spec_bump_manifest(toml@) == Err::<(Seq<char>, Version), VersionError>(e),
        },
{
    let n = toml.unicode_len();
    proof {
        reveal_strlit("version = \"");
    }
    let m = match find_sub_in(toml, "version = \"") {
        Some(m) => m,
        None => {
            return Err(VersionError::MarkerNotFound);
        },
    };
    proof {
        let p = |i: int| crate::text::match_at(toml@, "version = \""@, i);
        crate::text::lemma_find_pos(toml@.len() as int, p, 0);
        assert(p(m as int));
    }
    let vstart = m + "version = \"".unicode_len();
    let ghost qp = |c: char| c == '"';
    let mut q: usize = vstart;
    while q < n && toml.get_char(q) != '"'
        invariant
            n == toml@.len(),
            vstart <= q <= n,
            forall|k: int| vstart <= k < q ==> toml@[k] != '"',
        decreases n - q,
    {
        q += 1;
    }
    if q == n {
        proof {
            assert forall|k: int| vstart <= k < n implies !(#[trigger] qp(toml@[k])) by {}
            lemma_find_where_none(toml@, qp, vstart as int);
        }
        return Err(VersionError::UnterminatedVersion);
    }
    proof {
        assert(qp(toml@[q as int]));
        assert forall|k: int| vstart <= k < q implies !(#[trigger] qp(toml@[k])) by {}
        lemma_find_where_is(toml@, qp, vstart as int, q as int);
    }
    let v = match parse_version(toml.substring_char(vstart, q)) {
        Some(v) => v,
        None => {
            return Err(VersionError::InvalidVersion);
        },
    };
    if v.major != 0 {
        return Err(VersionError::MajorNotZero);
    }
    if v.minor == u64::MAX {
        return Err(VersionError::MinorOverflow);
    }
    let next = Version { major: 0, minor: v.minor + 1, patch: 0 };
    let mut out = String::from_str(toml.substring_char(0, vstart));
    out.append(version_to_string(&next).as_str());
    out.append(toml.substring_char(q, n));
    Ok((out, next))
}

} // verus!
