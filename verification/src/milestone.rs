//! The milestone assigner's decisions, separated from the calls that
//! carry them out: which pull requests still need a milestone, how the
//! queue of pending assignments is grouped by release version, and how a
//! creation conflict resolves to the already-existing milestone.

use vstd::prelude::*;

use crate::text::{find_where, lemma_find_where, lemma_find_where_is, str_eq};

verus! {

/// What to do about one pull request's milestone.
#[derive(Clone, Copy, PartialEq, Eq, Structural, Debug)]
pub enum MilestoneAction {
    /// Already milestoned with the expected version: skip it.
    AlreadyMilestoned,
    /// Milestoned, but with some other title: skip it, and say so.
    MilestoneMismatch,
    /// No milestone yet: queue it for assignment.
    Queue,
}

/// The decision rule: a pull request with no milestone is queued; one
/// whose milestone matches the expected version is skipped as done; one
/// with any other milestone is skipped with a warning.
pub open spec fn spec_milestone_action(
    cur: Option<(Seq<char>, Seq<char>)>,
    version: Seq<char>,
) -> MilestoneAction {
    match cur {
        None => MilestoneAction::Queue,
        Some(p) => if p.1 == version {
            MilestoneAction::AlreadyMilestoned
        } else {
            MilestoneAction::MilestoneMismatch
        },
    }
}

/// Decides what to do about one pull request, given its current
/// milestone `(number, title)` as the tracker reports it, if any.
pub fn milestone_action(current: &Option<(String, String)>, version: &str) -> (r: MilestoneAction)
    ensures
        r == spec_milestone_action(current.deep_view(), version@),
{
    match current {
        None => MilestoneAction::Queue,
        Some(p) => {
            if str_eq(p.1.as_str(), version) {
                MilestoneAction::AlreadyMilestoned
            } else {
                MilestoneAction::MilestoneMismatch
            }
        },
    }
}

/// The pull requests still to be milestoned, from index `i` on: those
/// whose reported milestone is `None`, in order.
pub open spec fn queue_spec(
    ns: Seq<u32>,
    cs: Seq<Option<(Seq<char>, Seq<char>)>>,
    i: int,
) -> Seq<u32>
    decreases ns.len() - i,
{
    if i < 0 || i >= ns.len() || i >= cs.len() {
        Seq::empty()
    } else {
        let rest = queue_spec(ns, cs, i + 1);
        if cs[i] is None {
            seq![ns[i]] + rest
        } else {
            rest
        }
    }
}

/// Keeps the pull requests with no milestone yet, in order.
pub fn prs_to_queue(prs: &Vec<u32>, currents: &Vec<Option<(String, String)>>) -> (r: Vec<u32>)
    requires
        prs.len() == currents.len(),
    ensures
        r@ == queue_spec(prs@, currents.deep_view(), 0),
{
    let ghost ns = prs@;
    let ghost cs = currents.deep_view();
    let mut r: Vec<u32> = Vec::new();
    let mut i: usize = prs.len();
    proof {
        assert(r@ =~= queue_spec(ns, cs, prs.len() as int));
    }
    while i > 0
        invariant
            ns == prs@,
            cs == currents.deep_view(),
            ns.len() == prs.len(),
            cs.len() == prs.len(),
            0 <= i <= prs.len(),
            r@ == queue_spec(ns, cs, i as int),
        decreases i,
    {
        i -= 1;
        let keep = match &currents[i] {
            None => true,
            Some(_) => false,
        };
        proof {
            assert(cs[i as int] == currents@[i as int].deep_view());
        }
        if keep {
            r.insert(0, prs[i]);
            proof {
                assert(r@ =~= seq![ns[i as int]] + queue_spec(ns, cs, i + 1));
            }
        }
    }
    r
}

/// An entry keyed by a release-version title.
pub open spec fn ver_pred(v: Seq<char>) -> spec_fn((Seq<char>, Seq<u32>)) -> bool {
    |e: (Seq<char>, Seq<u32>)| e.0 == v
}

/// What queueing one pull request under a version yields: the number is
/// appended to the version's entry, or a new entry is opened at the end.
pub open spec fn spec_push_pr(
    q: Seq<(Seq<char>, Seq<u32>)>,
    v: Seq<char>,
    pr: u32,
) -> Seq<(Seq<char>, Seq<u32>)> {
    match find_where(q, ver_pred(v), 0) {
        Some(i) => q.update(i, (v, q[i].1.push(pr))),
        None => q.push((v, seq![pr])),
    }
}

/// No two entries share a title.
pub open spec fn queue_wf(q: Seq<(Seq<char>, Seq<u32>)>) -> bool {
    forall|a: int, b: int| 0 <= a < b < q.len() ==> (#[trigger] q[a]).0 != (#[trigger] q[b]).0
}

/// The queue of pending milestone assignments, grouped by release
/// version, in the order the versions were first seen. Titles are
/// unique.
pub struct MilestoneQueue {
    pub entries: Vec<(String, Vec<u32>)>,
}

impl MilestoneQueue {
    /// An empty queue.
    pub fn new() -> (r: MilestoneQueue)
        ensures
            r.entries.deep_view() == Seq::<(Seq<char>, Seq<u32>)>::empty(),
    {
        let r = MilestoneQueue { entries: Vec::new() };
        proof {
            assert(r.entries.deep_view() =~~= Seq::<(Seq<char>, Seq<u32>)>::empty());
        }
        r
    }

    /// Queues one pull request under a version title.
    pub fn push_pr(&mut self, version: &str, pr: u32)
        requires
            queue_wf(old(self).entries.deep_view()),
        ensures
            final(self).entries.deep_view() == spec_push_pr(
                old(self).entries.deep_view(),
                version@,
                pr,
            ),
            queue_wf(final(self).entries.deep_view()),
    {
        let ghost q0 = self.entries.deep_view();
        let n = self.entries.len();
        let mut idx: usize = 0;
        while idx < n && !str_eq(self.entries[idx].0.as_str(), version)
            invariant
                n == self.entries.len(),
                q0 == self.entries.deep_view(),
                q0.len() == n,
                0 <= idx <= n,
                forall|j: int| 0 <= j < idx ==> !(ver_pred(version@)(q0[j])),
            decreases n - idx,
        {
            proof {
                assert(q0[idx as int] == (self.entries@[idx as int].0@,
                self.entries@[idx as int].1@));
            }
            idx += 1;
        }
        if idx < n {
            proof {
                assert(q0[idx as int] == (self.entries@[idx as int].0@,
                self.entries@[idx as int].1@));
                assert(ver_pred(version@)(q0[idx as int]));
                lemma_find_where_is(q0, ver_pred(version@), 0, idx as int);
            }
            let mut pair = self.entries.remove(idx);
            pair.1.push(pr);
            self.entries.insert(idx, pair);
            proof {
                assert(self.entries.deep_view() =~~= spec_push_pr(q0, version@, pr));
                assert forall|a: int, b: int|
                    0 <= a < b < self.entries.deep_view().len() implies (
                #[trigger] self.entries.deep_view()[a]).0 != (
                #[trigger] self.entries.deep_view()[b]).0 by {
                    assert(self.entries.deep_view()[a].0 == q0[a].0);
                    assert(self.entries.deep_view()[b].0 == q0[b].0);
                }
            }
        } else {
            proof {
                crate::text::lemma_find_where_none(q0, ver_pred(version@), 0);
            }
            let mut prs: Vec<u32> = Vec::new();
            prs.push(pr);
            self.entries.push((String::from_str(version), prs));
            proof {
                assert(self.entries.deep_view() =~~= q0.push((version@, seq![pr])));
                assert forall|a: int, b: int|
                    0 <= a < b < self.entries.deep_view().len() implies (
                #[trigger] self.entries.deep_view()[a]).0 != (
                #[trigger] self.entries.deep_view()[b]).0 by {
                    if b < q0.len() {
                        assert(self.entries.deep_view()[a].0 == q0[a].0);
                        assert(self.entries.deep_view()[b].0 == q0[b].0);
                    } else {
                        assert(self.entries.deep_view()[b].0 == version@);
                        assert(self.entries.deep_view()[a].0 == q0[a].0);
                        assert(!(ver_pred(version@)(q0[a])));
                    }
                }
            }
        }
    }
}

/// What the tracker answered a milestone-creation request with.
#[derive(Clone, Copy, PartialEq, Eq, Structural, Debug)]
pub enum CreateOutcome {
    /// The milestone was created, with this number.
    Created(i64),
    /// The title already exists: the tracker refused the duplicate.
    Conflict,
}

/// An entry of the tracker's milestone list: a title and its number.
pub open spec fn title_pred(title: Seq<char>) -> spec_fn((Seq<char>, i64)) -> bool {
    |e: (Seq<char>, i64)| e.0 == title
}

/// The number of the first listed milestone with the given title.
pub open spec fn spec_find_milestone(list: Seq<(Seq<char>, i64)>, title: Seq<char>) -> Option<
    i64,
> {
    match find_where(list, title_pred(title), 0) {
        Some(i) => Some(list[i].1),
        None => None,
    }
}

/// Finds the first listed milestone with the given title.
pub fn find_milestone(list: &Vec<(String, i64)>, title: &str) -> (r: Option<i64>)
    ensures
        r == spec_find_milestone(list.deep_view(), title@),
{
    let ghost lv = list.deep_view();
    let mut i: usize = 0;
    while i < list.len()
        invariant
            lv == list.deep_view(),
            lv.len() == list.len(),
            0 <= i <= list.len(),
            forall|j: int| 0 <= j < i ==> !(title_pred(title@)(lv[j])),
        decreases list.len() - i,
    {
        proof {
            assert(lv[i as int] == (list@[i as int].0@, list@[i as int].1));
        }
        if str_eq(list[i].0.as_str(), title) {
            proof {
                assert(title_pred(title@)(lv[i as int]));
                lemma_find_where_is(lv, title_pred(title@), 0, i as int);
            }
            return Some(list[i].1);
        }
        i += 1;
    }
    proof {
        crate::text::lemma_find_where_none(lv, title_pred(title@), 0);
    }
    None
}

/// What resolving a creation outcome yields: a fresh creation's number
/// is taken as is; on a conflict, the already-existing milestone with
/// that title is looked up in the tracker's list, and only a list that
/// does not hold the title at all fails.
pub open spec fn spec_resolve(
    outcome: CreateOutcome,
    list: Seq<(Seq<char>, i64)>,
    title: Seq<char>,
) -> Option<i64> {
    match outcome {
        CreateOutcome::Created(n) => Some(n),
        CreateOutcome::Conflict => spec_find_milestone(list, title),
    }
}

/// Resolves a milestone-creation outcome to the milestone's number:
/// the created number, or, on a conflict, the number of the listed
/// milestone with the same title.
pub fn resolve_milestone(outcome: &CreateOutcome, list: &Vec<(String, i64)>, title: &str) -> (r:
    Option<i64>)
    ensures
        r == spec_resolve(*outcome, list.deep_view(), title@),
{
    match outcome {
        CreateOutcome::Created(n) => Some(*n),
        CreateOutcome::Conflict => find_milestone(list, title),
    }
}

/// Milestone creation is idempotent: when the tracker already records
/// the title -- say the creation that succeeded gave it number `n` -- and
/// titles are unique, the conflict fallback resolves to that same `n`,
/// and never to a fresh number.
pub proof fn lemma_create_idempotent(list: Seq<(Seq<char>, i64)>, title: Seq<char>, k: int)
    requires
        0 <= k < list.len(),
        list[k].0 == title,
        forall|a: int, b: int| 0 <= a < b < list.len() ==> list[a].0 != list[b].0,
    ensures
        spec_resolve(CreateOutcome::Conflict, list, title) == Some(list[k].1),
{
    lemma_find_where(list, title_pred(title), 0);
    match find_where(list, title_pred(title), 0) {
        Some(i) => {
            if i != k {
                assert(list[i].0 == title && list[k].0 == title);
            }
        },
        None => {
            assert(title_pred(title)(list[k]));
        },
    }
}

} // verus!
