//! Per-pass policy.
//!
//! Turns the status of the tracked change and the ancestry oracle's answer
//! into the accepted-branch set and the `missing means absent` switch, and
//! composes one whole judgment pass (`Tree::make`). Also validates change
//! identifiers before any tree work begins.

use vstd::prelude::*;
use vstd::string::StringSliceAdditionalSpecFns;

use crate::names::contains_name;
use crate::names::push_unique;
use crate::names::views;
use crate::topology::expansion_ok;
use crate::topology::has_parent;
use crate::topology::topology_shape;
use crate::topology::BuildError;
use crate::topology::SuccessorGraph;
use crate::tree::acceptance_rule;
use crate::tree::Acceptance;
use crate::tree::Tree;

verus! {

/// Status of the tracked change, as reported by the upstream API.
pub enum ChangeStatus {
    /// Still open: the change has reached no branch yet.
    Open,
    /// Closed without merging: terminal, the change is dead.
    Closed,
    /// Merged into its base branch. The merge commit is absent for legacy
    /// changes the upstream API cannot resolve.
    Merged { merge_commit: Option<String> },
}

/// The `missing means absent` switch of one pass: false exactly when the
/// change is merged but absence cannot be proven (the merge commit is
/// unknown, or the ancestry query failed), so unresolved branches must
/// read Unknown rather than Rejected.
pub open spec fn mma_spec(status: ChangeStatus, query_ok: bool) -> bool {
    match status {
        ChangeStatus::Merged { merge_commit } => match merge_commit {
            Some(_) => query_ok,
            None => false,
        },
        _ => true,
    }
}

/// The accepted-branch set of one pass. For a merge with a known commit:
/// the branches the ancestry oracle reported, restricted to the candidate
/// branches, plus the base branch itself — the upstream API already
/// confirmed the merge into the base, which overrides a possibly stale or
/// unreachable ancestry answer. Otherwise empty.
pub open spec fn accepted_set_spec(
    base: Seq<char>,
    status: ChangeStatus,
    candidates: Seq<Seq<char>>,
    reported: Seq<Seq<char>>,
) -> Set<Seq<char>> {
    match status {
        ChangeStatus::Merged { merge_commit } => match merge_commit {
            Some(_) => reported.to_set().intersect(candidates.to_set()).insert(base),
            None => Set::empty(),
        },
        _ => Set::empty(),
    }
}

/// Outcome of the accepted-branch determination.
pub struct Resolution {
    /// The accepted branch names, without duplicates.
    pub accepted: Vec<String>,
    /// Whether a branch missing from `accepted` is known absent.
    pub missing_means_absent: bool,
}

/// Determines the accepted-branch set and the `missing means absent`
/// switch from the change status and the ancestry oracle's answer.
/// `reported` is what the oracle returned; `query_ok` is false when the
/// query failed and `reported` may be incomplete.
pub fn accepted_branches(
    base: &String,
    status: &ChangeStatus,
    candidates: &Vec<String>,
    reported: &Vec<String>,
    query_ok: bool,
) -> (r: Resolution)
    ensures
        views(r.accepted@).no_duplicates(),
        views(r.accepted@).to_set() == accepted_set_spec(
            base@,
            *status,
            views(candidates@),
            views(reported@),
        ),
        r.missing_means_absent == mma_spec(*status, query_ok),
        (*status matches ChangeStatus::Merged { merge_commit: Some(_) }) ==> views(
            r.accepted@,
        ).contains(base@),
{
    match status {
        ChangeStatus::Merged { merge_commit: Some(_) } => {
            let mut accepted: Vec<String> = Vec::new();
            let n = reported.len();
            let mut i: usize = 0;
            proof {
                assert(views(accepted@).to_set() =~= views(reported@).take(0).to_set().intersect(
                    views(candidates@).to_set(),
                ));
            }
            while i < n
                invariant
                    i <= n,
                    n == reported@.len(),
                    views(accepted@).no_duplicates(),
                    views(accepted@).to_set() == views(reported@).take(i as int).to_set().intersect(
                        views(candidates@).to_set(),
                    ),
                decreases n - i,
            {
                let ghost pre = views(accepted@);
                let ghost taken = views(reported@).take(i as int);
                let ghost nm = views(reported@)[i as int];
                proof {
                    assert(views(reported@).take(i + 1) =~= taken.push(nm));
                    crate::names::lemma_push_to_set(taken, nm);
                    assert(views(reported@).take(i + 1).to_set() == taken.to_set().insert(nm));
                }
                if contains_name(candidates, &reported[i]) {
                    push_unique(&mut accepted, &reported[i]);
                    proof {
                        assert(views(candidates@).to_set().contains(nm));
                        assert(views(accepted@).to_set() =~= views(reported@).take(
                            i + 1,
                        ).to_set().intersect(views(candidates@).to_set()));
                    }
                } else {
                    proof {
                        assert(!views(candidates@).to_set().contains(nm));
                        assert(views(accepted@).to_set() =~= views(reported@).take(
                            i + 1,
                        ).to_set().intersect(views(candidates@).to_set()));
                    }
                }
                i = i + 1;
            }
            push_unique(&mut accepted, base);
            proof {
                assert(views(reported@).take(n as int) =~= views(reported@));
            }
            Resolution { accepted, missing_means_absent: query_ok }
        },
        ChangeStatus::Merged { merge_commit: None } => {
            let accepted: Vec<String> = Vec::new();
            proof {
                assert(views(accepted@).to_set() =~= Set::<Seq<char>>::empty());
            }
            Resolution { accepted, missing_means_absent: false }
        },
        _ => {
            let accepted: Vec<String> = Vec::new();
            proof {
                assert(views(accepted@).to_set() =~= Set::<Seq<char>>::empty());
            }
            Resolution { accepted, missing_means_absent: true }
        },
    }
}

impl Tree {
    /// One whole judgment pass: expands the topology from the base branch
    /// and judges every node from the change status and the ancestry
    /// oracle's answer. `reported` is the set of branches the oracle found
    /// to contain the merge commit (ignored unless the change is merged
    /// with a known commit); `query_ok` is false when that query failed
    /// and the set may be incomplete.
    pub fn make(
        base: &String,
        status: &ChangeStatus,
        graph: &SuccessorGraph,
        reported: &Vec<String>,
        query_ok: bool,
    ) -> (r: Result<Tree, BuildError>)
        ensures
            r is Ok <==> expansion_ok(base@, graph.rules@),
            match r {
                Ok(t) => {
                    &&& topology_shape(t, base@, graph.rules@)
                    &&& forall|i: int|
                        0 <= i < t.names@.len() ==> #[trigger] t.acceptance@[i]
                            == acceptance_rule(
                            t.names@[i]@,
                            accepted_set_spec(base@, *status, t.node_names(), views(reported@)),
                            mma_spec(*status, query_ok),
                        )
                },
                Err(e) => e == BuildError::CycleDetected,
            },
    {
        match Tree::expand(base, graph) {
            Ok(mut t) => {
                let ghost expanded = t;
                let candidates = t.candidates();
                let resolution = accepted_branches(base, status, &candidates, reported, query_ok);
                t.fill_accepted(&resolution.accepted, resolution.missing_means_absent);
                proof {
                    assert(t.names@ == expanded.names@);
                    assert(t.children@ == expanded.children@);
                    assert forall|i: int|
                        0 <= i < t.names@.len() - 1 implies #[trigger] has_parent(t, i) by {
                        crate::topology::lemma_has_parent_same_children(expanded, t, i);
                    }
                    assert(topology_shape(t, base@, graph.rules@));
                }
                Ok(t)
            },
            Err(e) => Err(e),
        }
    }
}

/// The numeric value of the decimal digit string `s` (most significant
/// digit first).
pub open spec fn digits_value(s: Seq<u8>) -> int
    decreases s.len(),
{
    if s.len() == 0 {
        0
    } else {
        digits_value(s.drop_last()) * 10 + (s.last() - 0x30)
    }
}

/// Every byte is an ASCII decimal digit.
pub open spec fn all_digits(s: Seq<u8>) -> bool {
    forall|i: int| 0 <= i < s.len() ==> 0x30 <= #[trigger] s[i] <= 0x39
}

proof fn lemma_digits_value_nonneg(s: Seq<u8>)
    requires
        all_digits(s),
    ensures
        digits_value(s) >= 0,
    decreases s.len(),
{
    if s.len() > 0 {
        assert(all_digits(s.drop_last()));
        lemma_digits_value_nonneg(s.drop_last());
    }
}

proof fn lemma_digits_value_prefix_le(s: Seq<u8>, j: int)
    requires
        all_digits(s),
        0 <= j <= s.len(),
    ensures
        digits_value(s.take(j)) <= digits_value(s),
    decreases s.len() - j,
{
    if j < s.len() {
        assert(s.take(j + 1).drop_last() =~= s.take(j));
        assert(s.take(j + 1).last() == s[j]);
        assert(all_digits(s.take(j)));
        lemma_digits_value_nonneg(s.take(j));
        assert(digits_value(s.take(j + 1)) == digits_value(s.take(j)) * 10 + (s[j] - 0x30));
        lemma_digits_value_prefix_le(s, j + 1);
    } else {
        assert(s.take(j) =~= s);
    }
}

/// Validates and parses a change identifier: accepted exactly when the
/// string consists of one or more ASCII decimal digits and its value fits
/// the identifier type. Malformed identifiers are rejected here, before
/// any tree work begins.
pub fn parse_change_number(s: &str) -> (r: Option<u64>)
    ensures
        match r {
            Some(v) => s.spec_bytes().len() > 0 && all_digits(s.spec_bytes()) && digits_value(
                s.spec_bytes(),
            ) == v as int,
            None => s.spec_bytes().len() == 0 || !all_digits(s.spec_bytes()) || digits_value(
                s.spec_bytes(),
            ) > u64::MAX as int,
        },
{
    let bytes = s.as_bytes();
    let n = bytes.len();
    if n == 0 {
        return None;
    }
    let mut value: u64 = 0;
    let mut i: usize = 0;
    while i < n
        invariant
            i <= n,
            n == s.spec_bytes().len(),
            bytes@ == s.spec_bytes(),
            all_digits(s.spec_bytes().take(i as int)),
            value as int == digits_value(s.spec_bytes().take(i as int)),
        decreases n - i,
    {
        let b = bytes[i];
        if b < 0x30 || b > 0x39 {
            proof {
                assert(s.spec_bytes()[i as int] == b);
            }
            return None;
        }
        let d = (b - 0x30) as u64;
        let ghost whole = s.spec_bytes();
        let ghost tk1 = whole.take(i + 1);
        proof {
            assert(tk1.drop_last() =~= whole.take(i as int));
            assert(tk1.last() == whole[i as int]);
            assert(all_digits(tk1)) by {
                assert forall|k: int| 0 <= k < tk1.len() implies 0x30 <= #[trigger] tk1[k]
                    <= 0x39 by {
                    assert(tk1[k] == whole[k]);
                    if k < i as int {
                        assert(whole.take(i as int)[k] == whole[k]);
                    }
                }
            }
            assert(digits_value(tk1) == value as int * 10 + (b - 0x30));
        }
        let stepped = match value.checked_mul(10) {
            Some(m) => m.checked_add(d),
            None => None,
        };
        match stepped {
            Some(next) => {
                value = next;
            },
            None => {
                proof {
                    assert(digits_value(tk1) > u64::MAX as int);
                    if all_digits(whole) {
                        lemma_digits_value_prefix_le(whole, i + 1);
                    }
                }
                return None;
            },
        }
        i = i + 1;
    }
    proof {
        assert(s.spec_bytes().take(n as int) =~= s.spec_bytes());
    }
    Some(value)
}

/// Merged with a known commit: the base branch is in the accepted set no
/// matter what the ancestry oracle reported.
pub proof fn lemma_base_always_accepted(
    base: Seq<char>,
    status: ChangeStatus,
    candidates: Seq<Seq<char>>,
    reported: Seq<Seq<char>>,
)
    requires
        status matches ChangeStatus::Merged { merge_commit: Some(_) },
    ensures
        accepted_set_spec(base, status, candidates, reported).contains(base),
{
}

/// Merged with an unknown commit: absence cannot be proven, so every node
/// is judged Unknown (none Rejected), nothing is accepted, and a non-empty
/// tree stays pending.
pub proof fn lemma_unknown_commit_all_unknown(
    t: Tree,
    base: Seq<char>,
    status: ChangeStatus,
    reported: Seq<Seq<char>>,
    query_ok: bool,
)
    requires
        t.wf(),
        t.node_count() > 0,
        status matches ChangeStatus::Merged { merge_commit: None },
        forall|i: int|
            0 <= i < t.acceptance@.len() ==> #[trigger] t.acceptance@[i] == acceptance_rule(
                t.names@[i]@,
                accepted_set_spec(base, status, t.node_names(), reported),
                mma_spec(status, query_ok),
            ),
    ensures
        forall|i: int|
            0 <= i < t.acceptance@.len() ==> #[trigger] t.acceptance@[i] == Acceptance::Unknown,
        t.still_pending(),
        t.accepted_names() == Seq::<Seq<char>>::empty(),
{
    assert(t.acceptance@[0] != Acceptance::Accepted);
    crate::tree::lemma_accepted_prefix_none(t.names@, t.acceptance@, t.names@.len() as int);
}

/// A change that is not merged: every node is judged Rejected, nothing is
/// accepted, and the pass is pending exactly when the tree has any node.
pub proof fn lemma_not_merged_all_rejected(
    t: Tree,
    base: Seq<char>,
    status: ChangeStatus,
    reported: Seq<Seq<char>>,
    query_ok: bool,
)
    requires
        t.wf(),
        !(status matches ChangeStatus::Merged { .. }),
        forall|i: int|
            0 <= i < t.acceptance@.len() ==> #[trigger] t.acceptance@[i] == acceptance_rule(
                t.names@[i]@,
                accepted_set_spec(base, status, t.node_names(), reported),
                mma_spec(status, query_ok),
            ),
    ensures
        forall|i: int|
            0 <= i < t.acceptance@.len() ==> #[trigger] t.acceptance@[i] == Acceptance::Rejected,
        t.accepted_names() == Seq::<Seq<char>>::empty(),
        t.still_pending() <==> t.node_count() > 0,
{
    crate::tree::lemma_accepted_prefix_none(t.names@, t.acceptance@, t.names@.len() as int);
    if t.node_count() > 0 {
        assert(t.acceptance@[0] != Acceptance::Accepted);
    }
}

} // verus!
