//! Changelog surgery: retargeting the two `hash...HEAD` comparison
//! links at a new beta label, deduplicating pull requests already
//! documented, rendering link lists, and splicing the generated markdown
//! into the document's fixed anchor points.

use vstd::prelude::*;

use crate::date::{date_iso, next_version_date, plus_days, release_cadence, release_epoch};
use crate::logparse::{commits_in_log, spec_log_records};
use crate::text::{
    contains_seq, dec_str, find_pos, find_sub, find_sub_in, is_hex, is_hex_char,
    lemma_find_pos, lemma_find_pos_is, lemma_find_pos_none, match_at, matches_at, u64_to_string,
};
use crate::version::Version;

verus! {

/// Why the changelog text was rejected.
#[derive(Clone, Copy, PartialEq, Eq, Structural, Debug)]
pub enum ChangelogError {
    /// The document does not hold exactly two `hash...HEAD` links.
    HeadLinkCount,
    /// The two `hash...HEAD` links name different hashes.
    HeadLinkMismatch,
    /// The `### Added` section marker is missing.
    MissingAddedSection,
    /// The document does not open with the changelog title line.
    MissingTitle,
    /// The beta branch hash is too short to abbreviate.
    ShortBetaHash,
}

/// A comparison link's `...HEAD` tail begins at `i`, with at least one
/// hash character before it.
pub open spec fn head_link_at(s: Seq<char>, i: int) -> bool {
    match_at(s, "...HEAD"@, i) && 0 < i && is_hex(s[i - 1])
}

/// The start of the maximal run of hash characters ending just before `i`.
pub open spec fn hex_run_start(s: Seq<char>, i: int) -> int
    decreases i,
{
    if 0 < i <= s.len() && is_hex(s[i - 1]) {
        hex_run_start(s, i - 1)
    } else {
        i
    }
}

/// The label the comparison links are retargeted at.
pub open spec fn beta_label_spec(m: nat) -> Seq<char> {
    "rust-1."@ + dec_str(m) + ".0"@
}

/// The release-branch label `rust-1.<m>.0`.
pub fn beta_label(m: u64) -> (r: String)
    ensures
        r@ == beta_label_spec(m as nat),
{
    let mut s = String::from_str("rust-1.");
    s.append(u64_to_string(m).as_str());
    s.append(".0");
    s
}

/// What retargeting the comparison links yields: the document must hold
/// exactly two `hash...HEAD` links naming the same hash; each has its
/// `HEAD` replaced by the beta label, and the shared hash is returned
/// with the new text.
pub open spec fn spec_retarget(s: Seq<char>, m: nat) -> Result<
    (Seq<char>, Seq<char>),
    ChangelogError,
> {
    let p = |i: int| head_link_at(s, i);
    match find_pos(s.len() as int, p, 0) {
        None => Err(ChangelogError::HeadLinkCount),
        Some(i1) => match find_pos(s.len() as int, p, i1 + 7) {
            None => Err(ChangelogError::HeadLinkCount),
            Some(i2) => {
                if find_pos(s.len() as int, p, i2 + 7) is Some {
                    Err(ChangelogError::HeadLinkCount)
                } else {
                    let h1 = s.subrange(hex_run_start(s, i1), i1);
                    let h2 = s.subrange(hex_run_start(s, i2), i2);
                    if h1 != h2 {
                        Err(ChangelogError::HeadLinkMismatch)
                    } else {
                        Ok(
                            (
                                s.subrange(0, i1 + 3) + beta_label_spec(m) + s.subrange(
                                    i1 + 7,
                                    i2 + 3,
                                ) + beta_label_spec(m) + s.subrange(i2 + 7, s.len() as int),
                                h1,
                            ),
                        )
                    }
                }
            },
        },
    }
}

/// Finds the next `...HEAD` tail with a hash character before it, at or
/// after `from`.
fn find_head_link(s: &str, from: usize) -> (r: Option<usize>)
    ensures
        ({
            let p = |i: int| head_link_at(s@, i);
            match r {
                Some(k) => find_pos(s@.len() as int, p, from as int) == Some(k as int)
                    && head_link_at(s@, k as int),
                None => find_pos(s@.len() as int, p, from as int) is None,
            }
        }),
{
    let ghost p = |i: int| head_link_at(s@, i);
    let n = s.unicode_len();
    let mut k: usize = from;
    while k < n
        invariant
            n == s@.len(),
            from <= k,
            p == (|i: int| head_link_at(s@, i)),
            forall|j: int| from <= j < k ==> !(#[trigger] p(j)),
        decreases n - k,
    {
        let hit = matches_at(s, "...HEAD", k) && k > 0 && is_hex_char(s.get_char(k - 1));
        if hit {
            proof {
                assert(p(k as int));
                lemma_find_pos_is(n as int, p, from as int, k as int);
            }
            return Some(k);
        }
        proof {
            assert(!p(k as int));
        }
        k += 1;
    }
    proof {
        lemma_find_pos_none(n as int, p, from as int);
    }
    None
}

/// The start of the hash run ending just before `i`, found by walking
/// backwards.
fn hash_run_start_of(s: &str, i: usize) -> (r: usize)
    requires
        i <= s@.len(),
    ensures
        r as int == hex_run_start(s@, i as int),
        r <= i,
{
    let mut h: usize = i;
    while h > 0 && is_hex_char(s.get_char(h - 1))
        invariant
            i <= s@.len(),
            0 <= h <= i,
            hex_run_start(s@, h as int) == hex_run_start(s@, i as int),
        decreases h,
    {
        h -= 1;
    }
    h
}

/// Retargets the two `hash...HEAD` comparison links at `rust-1.<m>.0`,
/// returning the rewritten document and the shared hash.
pub fn retarget_head_links(changelog: &str, m: u64) -> (r: Result<(String, String), ChangelogError>)
    ensures
        match r {
            Ok(p) => spec_retarget(changelog@, m as nat) == Ok::<
                (Seq<char>, Seq<char>),
                ChangelogError,
            >((p.0@, p.1@)),
            Err(e) => spec_retarget(changelog@, m as nat) == Err::<
                (Seq<char>, Seq<char>),
                ChangelogError,
            >(e),
        },
{
    proof {
        reveal_strlit("...HEAD");
    }
    let n = changelog.unicode_len();
    let i1 = match find_head_link(changelog, 0) {
        Some(k) => k,
        None => {
            return Err(ChangelogError::HeadLinkCount);
        },
    };
    let i2 = match find_head_link(changelog, i1 + 7) {
        Some(k) => k,
        None => {
            return Err(ChangelogError::HeadLinkCount);
        },
    };
    if let Some(_k3) = find_head_link(changelog, i2 + 7) {
        return Err(ChangelogError::HeadLinkCount);
    }
    proof {
        let p = |i: int| head_link_at(changelog@, i);
        lemma_find_pos(changelog@.len() as int, p, i1 + 7);
    }
    let hs1 = hash_run_start_of(changelog, i1);
    let hs2 = hash_run_start_of(changelog, i2);
    let h1 = String::from_str(changelog.substring_char(hs1, i1));
    let h2 = changelog.substring_char(hs2, i2);
    if !crate::text::str_eq(h1.as_str(), h2) {
        return Err(ChangelogError::HeadLinkMismatch);
    }
    let label = beta_label(m);
    let mut out = String::from_str(changelog.substring_char(0, i1 + 3));
    out.append(label.as_str());
    out.append(changelog.substring_char(i1 + 7, i2 + 3));
    out.append(label.as_str());
    out.append(changelog.substring_char(i2 + 7, n));
    Ok((out, h1))
}

/// The inline marker that records pull request `n` in the changelog.
pub open spec fn pr_marker(n: nat) -> Seq<char> {
    "[#"@ + dec_str(n) + "]"@
}

/// Pull request `n` is already documented in the changelog.
pub open spec fn documented(changelog: Seq<char>, n: nat) -> bool {
    contains_seq(changelog, pr_marker(n))
}

/// The `[#n]` marker for a pull-request number.
pub fn pr_marker_of(n: u32) -> (r: String)
    ensures
        r@ == pr_marker(n as nat),
{
    let mut s = String::from_str("[#");
    s.append(u64_to_string(n as u64).as_str());
    s.append("]");
    s
}

/// Is `pat` contained in `s`?
pub fn contains_sub(s: &str, pat: &str) -> (r: bool)
    ensures
        r == contains_seq(s@, pat@),
{
    match crate::text::find_match_from(s, pat, 0) {
        Some(k) => {
            proof {
                assert(match_at(s@, pat@, k as int));
            }
            true
        },
        None => {
            proof {
                assert forall|i: int| !match_at(s@, pat@, i) by {
                    if i < 0 {
                    } else {
                        assert(!match_at(s@, pat@, i));
                    }
                }
            }
            false
        },
    }
}

/// A record already documented in the given changelog text.
pub open spec fn documented_pred(c: Seq<char>) -> spec_fn((u32, Seq<char>, Seq<char>)) -> bool {
    |p: (u32, Seq<char>, Seq<char>)| documented(c, p.0 as nat)
}

/// Splits records into those not yet documented in the changelog (kept,
/// in order) and those already documented (skipped, in order).
pub fn partition_prs(changelog: &str, prs: Vec<(u32, String, String)>) -> (r: (
    Vec<(u32, String, String)>,
    Vec<(u32, String, String)>,
))
    ensures
        r.0.deep_view() == prs.deep_view().filter(
            |p: (u32, Seq<char>, Seq<char>)| !(documented_pred(changelog@)(p)),
        ),
        r.1.deep_view() == prs.deep_view().filter(documented_pred(changelog@)),
{
    let ghost pv = prs.deep_view();
    let ghost dp = documented_pred(changelog@);
    let ghost np = |p: (u32, Seq<char>, Seq<char>)| !(documented_pred(changelog@)(p));
    let mut fresh: Vec<(u32, String, String)> = Vec::new();
    let mut dupe: Vec<(u32, String, String)> = Vec::new();
    let mut i: usize = 0;
    proof {
        assert(pv.take(0) =~= Seq::<(u32, Seq<char>, Seq<char>)>::empty());
        assert(pv.take(0).filter(dp) =~= Seq::<(u32, Seq<char>, Seq<char>)>::empty()) by {
            reveal(Seq::filter);
        }
        assert(pv.take(0).filter(np) =~= Seq::<(u32, Seq<char>, Seq<char>)>::empty()) by {
            reveal(Seq::filter);
        }
        assert(fresh.deep_view() =~~= pv.take(0).filter(np));
        assert(dupe.deep_view() =~~= pv.take(0).filter(dp));
    }
    while i < prs.len()
        invariant
            pv == prs.deep_view(),
            pv.len() == prs.len(),
            dp == documented_pred(changelog@),
            np == (|p: (u32, Seq<char>, Seq<char>)| !(documented_pred(changelog@)(p))),
            0 <= i <= prs.len(),
            fresh.deep_view() == pv.take(i as int).filter(np),
            dupe.deep_view() == pv.take(i as int).filter(dp),
        decreases prs.len() - i,
    {
        let ghost f0 = fresh.deep_view();
        let ghost d0 = dupe.deep_view();
        let num = prs[i].0;
        let marker = pr_marker_of(num);
        let hit = contains_sub(changelog, marker.as_str());
        proof {
            assert(pv[i as int] == (prs@[i as int].0, prs@[i as int].1@, prs@[i as int].2@));
            assert(hit == dp(pv[i as int]));
        }
        let entry = (prs[i].0, prs[i].1.clone(), prs[i].2.clone());
        proof {
            assert((entry.0, entry.1@, entry.2@) == pv[i as int]);
        }
        if hit {
            dupe.push(entry);
            proof {
                assert(dupe.deep_view() =~~= d0.push(pv[i as int]));
            }
        } else {
            fresh.push(entry);
            proof {
                assert(fresh.deep_view() =~~= f0.push(pv[i as int]));
            }
        }
        proof {
            assert(pv.take(i + 1) =~= pv.take(i as int).push(pv[i as int]));
            crate::logparse::lemma_filter_push(pv.take(i as int), dp, pv[i as int]);
            crate::logparse::lemma_filter_push(pv.take(i as int), np, pv[i as int]);
        }
        i += 1;
    }
    proof {
        assert(pv.take(pv.len() as int) =~= pv);
    }
    (fresh, dupe)
}

/// Deduplication: a record whose `[#n]` marker already occurs in the
/// changelog is excluded from the kept records and included in the
/// skipped ones.
pub proof fn lemma_dedup_documented(c: Seq<char>, prs: Seq<(u32, Seq<char>, Seq<char>)>, i: int)
    requires
        0 <= i < prs.len(),
        documented(c, prs[i].0 as nat),
    ensures
        !prs.filter(|p: (u32, Seq<char>, Seq<char>)| !(documented_pred(c)(p))).contains(prs[i]),
        prs.filter(documented_pred(c)).contains(prs[i]),
{
    prs.lemma_filter_contains(documented_pred(c), i);
    let np = |p: (u32, Seq<char>, Seq<char>)| !(documented_pred(c)(p));
    let f = prs.filter(np);
    if f.contains(prs[i]) {
        let j = choose|j: int| 0 <= j < f.len() && f[j] == prs[i];
        prs.lemma_filter_pred(np, j);
    }
}

/// Parses a commit log and keeps only the pull requests not yet
/// documented in the changelog; the already-documented ones are returned
/// second, for diagnostics.
pub fn find_prs(changelog: &str, log: &str) -> (r: (
    Vec<(u32, String, String)>,
    Vec<(u32, String, String)>,
))
    ensures
        r.0.deep_view() == spec_log_records(log@).filter(
            |p: (u32, Seq<char>, Seq<char>)| !(documented_pred(changelog@)(p)),
        ),
        r.1.deep_view() == spec_log_records(log@).filter(documented_pred(changelog@)),
{
    let commits = commits_in_log(log);
    partition_prs(changelog, commits)
}

/// One rendered changelog link line for a record.
pub open spec fn link_line(p: (u32, Seq<char>, Seq<char>)) -> Seq<char> {
    "- "@ + p.2 + " \n  [#"@ + dec_str(p.0 as nat) + "]("@ + p.1 + ")\n"@
}

/// The rendered link lines of a record list, in order.
pub open spec fn links_text(prs: Seq<(u32, Seq<char>, Seq<char>)>) -> Seq<char>
    decreases prs.len(),
{
    if prs.len() == 0 {
        Seq::empty()
    } else {
        links_text(prs.drop_last()) + link_line(prs.last())
    }
}

/// Renders the link lines for a record list.
pub fn to_links(prs: &Vec<(u32, String, String)>) -> (r: String)
    ensures
        r@ == links_text(prs.deep_view()),
{
    let ghost pv = prs.deep_view();
    let mut out = String::new();
    let mut i: usize = 0;
    proof {
        assert(pv.take(0) =~= Seq::<(u32, Seq<char>, Seq<char>)>::empty());
        assert(out@ =~= links_text(pv.take(0)));
    }
    while i < prs.len()
        invariant
            pv == prs.deep_view(),
            pv.len() == prs.len(),
            0 <= i <= prs.len(),
            out@ == links_text(pv.take(i as int)),
        decreases prs.len() - i,
    {
        proof {
            assert(pv[i as int] == (prs@[i as int].0, prs@[i as int].1@, prs@[i as int].2@));
        }
        out.append("- ");
        out.append(prs[i].2.as_str());
        out.append(" \n  [#");
        out.append(u64_to_string(prs[i].0 as u64).as_str());
        out.append("](");
        out.append(prs[i].1.as_str());
        out.append(")\n");
        proof {
            assert(pv.take(i + 1) =~= pv.take(i as int).push(pv[i as int]));
            assert(pv.take(i + 1).drop_last() =~= pv.take(i as int));
            assert(out@ =~= links_text(pv.take(i + 1)));
        }
        i += 1;
    }
    proof {
        assert(pv.take(pv.len() as int) =~= pv);
    }
    out
}

/// What inserting text before the `### Added` marker yields.
pub open spec fn spec_insert_added(s: Seq<char>, links: Seq<char>) -> Result<
    Seq<char>,
    ChangelogError,
> {
    match find_sub(s, "### Added\n"@) {
        None => Err(ChangelogError::MissingAddedSection),
        Some(i) => Ok(s.subrange(0, i) + links + s.subrange(i, s.len() as int)),
    }
}

/// Inserts `links` immediately before the first `### Added` marker.
pub fn insert_at_added(changelog: &str, links: &str) -> (r: Result<String, ChangelogError>)
    ensures
        match r {
            Ok(out) => spec_insert_added(changelog@, links@) == Ok::<Seq<char>, ChangelogError>(
                out@,
            ),
            Err(e) => spec_insert_added(changelog@, links@) == Err::<Seq<char>, ChangelogError>(e),
        },
{
    proof {
        reveal_strlit("### Added\n");
    }
    let n = changelog.unicode_len();
    match find_sub_in(changelog, "### Added\n") {
        None => Err(ChangelogError::MissingAddedSection),
        Some(i) => {
            let mut out = String::from_str(changelog.substring_char(0, i));
            out.append(links);
            out.append(changelog.substring_char(i, n));
            Ok(out)
        },
    }
}

/// The generated section for version `0.<m>.0`'s release notes.
pub open spec fn section_text(m: nat, date: Seq<char>, hash: Seq<char>, links: Seq<char>) -> Seq<
    char,
> {
    "\n## Cargo 1."@ + dec_str(m) + " ("@ + date + ")\n["@ + hash
        + "...HEAD](https://github.com/rust-lang/cargo/compare/"@ + hash + "...HEAD)\n\n"@ + links
        + "\n\n### Added\n\n### Changed\n\n### Fixed\n\n### Nightly only\n\n"@
}

/// Renders the new version's section.
pub fn section_of(m: u64, date: &str, hash: &str, links: &str) -> (r: String)
    ensures
        r@ == section_text(m as nat, date@, hash@, links@),
{
    let mut s = String::from_str("\n## Cargo 1.");
    s.append(u64_to_string(m).as_str());
    s.append(" (");
    s.append(date);
    s.append(")\n[");
    s.append(hash);
    s.append("...HEAD](https://github.com/rust-lang/cargo/compare/");
    s.append(hash);
    s.append("...HEAD)\n\n");
    s.append(links);
    s.append("\n\n### Added\n\n### Changed\n\n### Fixed\n\n### Nightly only\n\n");
    s
}

/// What inserting the new section after the title line yields; a
/// document that does not open with the title is rejected.
pub open spec fn spec_insert_section(s: Seq<char>, section: Seq<char>) -> Result<
    Seq<char>,
    ChangelogError,
> {
    if match_at(s, "# Changelog\n"@, 0) {
        Ok(
            s.subrange(0, "# Changelog\n"@.len() as int) + section + s.subrange(
                "# Changelog\n"@.len() as int,
                s.len() as int,
            ),
        )
    } else {
        Err(ChangelogError::MissingTitle)
    }
}

/// Inserts the new version's section immediately after the changelog's
/// title line.
pub fn insert_new_section(changelog: &str, section: &str) -> (r: Result<String, ChangelogError>)
    ensures
        match r {
            Ok(out) => spec_insert_section(changelog@, section@) == Ok::<
                Seq<char>,
                ChangelogError,
            >(out@),
            Err(e) => spec_insert_section(changelog@, section@) == Err::<
                Seq<char>,
                ChangelogError,
            >(e),
        },
{
    let n = changelog.unicode_len();
    if matches_at(changelog, "# Changelog\n", 0) {
        let tl = "# Changelog\n".unicode_len();
        let mut out = String::from_str(changelog.substring_char(0, tl));
        out.append(section);
        out.append(changelog.substring_char(tl, n));
        Ok(out)
    } else {
        Err(ChangelogError::MissingTitle)
    }
}

/// Everything the changelog preparation computes, ready to write back.
pub struct ChangelogUpdate {
    /// The rewritten changelog document.
    pub text: String,
    /// The hash the two comparison links shared.
    pub beta_hash_start: String,
    /// Nightly-channel pull requests newly documented.
    pub master_new: Vec<(u32, String, String)>,
    /// Nightly-channel pull requests already documented, skipped.
    pub master_skipped: Vec<(u32, String, String)>,
    /// Beta-channel pull requests newly documented.
    pub beta_new: Vec<(u32, String, String)>,
    /// Beta-channel pull requests already documented, skipped.
    pub beta_skipped: Vec<(u32, String, String)>,
}

/// What preparing the changelog for version `0.<nm>.0` yields, from the
/// document and the two commit logs alone: the comparison links are
/// retargeted at the beta label `rust-1.<nm - 2>.0`; the undocumented
/// pull requests of each log are collected; the beta links are inserted
/// before `### Added`; and the new version's section, dated by the
/// release cadence and headed by the abbreviated beta hash, goes right
/// after the title line.
pub open spec fn spec_prep(
    changelog: Seq<char>,
    nm: nat,
    beta_full_hash: Seq<char>,
    master_log: Seq<char>,
    beta_log: Seq<char>,
) -> Result<
    (
        Seq<char>,
        Seq<char>,
        Seq<(u32, Seq<char>, Seq<char>)>,
        Seq<(u32, Seq<char>, Seq<char>)>,
        Seq<(u32, Seq<char>, Seq<char>)>,
        Seq<(u32, Seq<char>, Seq<char>)>,
    ),
    ChangelogError,
> {
    if beta_full_hash.len() < 8 {
        Err(ChangelogError::ShortBetaHash)
    } else {
        match spec_retarget(changelog, (nm - 2) as nat) {
            Err(e) => Err(e),
            Ok((c1, beta_hash_start)) => {
                let short = beta_full_hash.subrange(0, 8);
                let master_new = spec_log_records(master_log).filter(
                    |p: (u32, Seq<char>, Seq<char>)| !(documented_pred(c1)(p)),
                );
                let master_skipped = spec_log_records(master_log).filter(documented_pred(c1));
                let beta_new = spec_log_records(beta_log).filter(
                    |p: (u32, Seq<char>, Seq<char>)| !(documented_pred(c1)(p)),
                );
                let beta_skipped = spec_log_records(beta_log).filter(documented_pred(c1));
                match spec_insert_added(c1, links_text(beta_new)) {
                    Err(e) => Err(e),
                    Ok(c2) => {
                        let date = date_iso(
                            plus_days(release_epoch(), (nm - 1) as nat * release_cadence()),
                        );
                        let section = section_text(
                            (nm - 1) as nat,
                            date,
                            short,
                            links_text(master_new),
                        );
                        match spec_insert_section(c2, section) {
                            Err(e) => Err(e),
                            Ok(c3) => Ok(
                                (c3, beta_hash_start, master_new, master_skipped, beta_new,
                                beta_skipped),
                            ),
                        }
                    },
                }
            },
        }
    }
}

/// Prepares the changelog for the bumped version `next`: the pure text
/// work of the release-notes step, given the document, the beta branch's
/// pinned hash, and the two commit logs (nightly and beta).
pub fn prep_changelog_text(
    changelog: &str,
    next: &Version,
    beta_full_hash: &str,
    master_log: &str,
    beta_log: &str,
) -> (r: Result<ChangelogUpdate, ChangelogError>)
    requires
        2 <= next.minor <= 1_000_000,
    ensures
        match r {
            Ok(u) => spec_prep(changelog@, next.minor as nat, beta_full_hash@, master_log@,
                beta_log@) == Ok::<_, ChangelogError>(
                (
                    u.text@,
                    u.beta_hash_start@,
                    u.master_new.deep_view(),
                    u.master_skipped.deep_view(),
                    u.beta_new.deep_view(),
                    u.beta_skipped.deep_view(),
                ),
            ),
            Err(e) => spec_prep(changelog@, next.minor as nat, beta_full_hash@, master_log@,
                beta_log@) == Err::<
                (
                    Seq<char>,
                    Seq<char>,
                    Seq<(u32, Seq<char>, Seq<char>)>,
                    Seq<(u32, Seq<char>, Seq<char>)>,
                    Seq<(u32, Seq<char>, Seq<char>)>,
                    Seq<(u32, Seq<char>, Seq<char>)>,
                ),
                ChangelogError,
            >(e),
        },
{
    if beta_full_hash.unicode_len() < 8 {
        return Err(ChangelogError::ShortBetaHash);
    }
    let (c1, beta_hash_start) = match retarget_head_links(changelog, next.minor - 2) {
        Ok(p) => p,
        Err(e) => {
            return Err(e);
        },
    };
    let short = beta_full_hash.substring_char(0, 8);
    let (master_new, master_skipped) = find_prs(c1.as_str(), master_log);
    let (beta_new, beta_skipped) = find_prs(c1.as_str(), beta_log);
    let beta_links = to_links(&beta_new);
    let c2 = match insert_at_added(c1.as_str(), beta_links.as_str()) {
        Ok(c) => c,
        Err(e) => {
            return Err(e);
        },
    };
    let date = next_version_date(next);
    let master_links = to_links(&master_new);
    let section = section_of(next.minor - 1, date.as_str(), short, master_links.as_str());
    let c3 = match insert_new_section(c2.as_str(), section.as_str()) {
        Ok(c) => c,
        Err(e) => {
            return Err(e);
        },
    };
    Ok(
        ChangelogUpdate {
            text: c3,
            beta_hash_start,
            master_new,
            master_skipped,
            beta_new,
            beta_skipped,
        },
    )
}

} // verus!
