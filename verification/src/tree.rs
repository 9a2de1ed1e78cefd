//! The acceptance tree.
//!
//! One tree is computed per tracking pass. It mirrors the branch successor
//! graph: one node per reachable branch, each carrying a tri-state judgment
//! of whether the tracked change has reached that branch.
//!
//! Nodes live in an arena of parallel vectors indexed by node id. Children
//! are created before their parent, so every child index is smaller than the
//! index of its parent and the structure is acyclic by construction; the
//! root is the last node.

use vstd::prelude::*;

use crate::names::contains_name;
use crate::names::views;

verus! {

/// Tri-state judgment of whether the tracked change has reached a branch.
#[derive(Clone, Copy, PartialEq, Eq, Structural, Debug)]
pub enum Acceptance {
    /// The branch's tip contains the change.
    Accepted,
    /// The branch is known not to contain the change yet.
    Rejected,
    /// Absence could not be proven (degraded ancestry information).
    Unknown,
}

/// The acceptance tree for one tracking pass.
pub struct Tree {
    /// Branch name per node.
    pub names: Vec<String>,
    /// Judgment per node.
    pub acceptance: Vec<Acceptance>,
    /// Decorative external link per node.
    pub ci_links: Vec<Option<String>>,
    /// Arena indices of each node's children, in successor order.
    pub children: Vec<Vec<usize>>,
}

/// The propagation judgment for one branch name, given the accepted-branch
/// set and the `missing means absent` policy switch.
pub open spec fn acceptance_rule(
    name: Seq<char>,
    accepted: Set<Seq<char>>,
    missing_means_absent: bool,
) -> Acceptance {
    if accepted.contains(name) {
        Acceptance::Accepted
    } else if missing_means_absent {
        Acceptance::Rejected
    } else {
        Acceptance::Unknown
    }
}

/// Names of the accepted nodes among the first `k` nodes, in node order.
pub open spec fn accepted_prefix(
    names: Seq<String>,
    acceptance: Seq<Acceptance>,
    k: int,
) -> Seq<Seq<char>>
    decreases k,
{
    if k <= 0 {
        Seq::empty()
    } else {
        accepted_prefix(names, acceptance, k - 1) + if acceptance[k - 1]
            == Acceptance::Accepted {
            seq![names[k - 1]@]
        } else {
            Seq::empty()
        }
    }
}

/// The view of an optional string.
pub open spec fn opt_view(o: Option<String>) -> Option<Seq<char>> {
    match o {
        Some(s) => Some(s@),
        None => None,
    }
}

impl Tree {
    /// The parallel vectors describe the same nodes, and children point at
    /// earlier nodes only (so the arena encodes a forest, rooted at the
    /// last node).
    pub open spec fn wf(self) -> bool {
        &&& self.acceptance@.len() == self.names@.len()
        &&& self.ci_links@.len() == self.names@.len()
        &&& self.children@.len() == self.names@.len()
        &&& forall|i: int, k: int|
            0 <= i < self.children@.len() && 0 <= k < self.children@[i]@.len()
                ==> #[trigger] self.children@[i]@[k] < i
    }

    pub open spec fn node_count(self) -> nat {
        self.names@.len()
    }

    /// The names of all nodes, in node order: the candidate branches.
    pub open spec fn node_names(self) -> Seq<Seq<char>> {
        views(self.names@)
    }

    /// Names of the nodes currently judged Accepted, in node order.
    pub open spec fn accepted_names(self) -> Seq<Seq<char>> {
        accepted_prefix(self.names@, self.acceptance@, self.names@.len() as int)
    }

    /// Whether any node is not (yet) judged Accepted.
    pub open spec fn still_pending(self) -> bool {
        exists|i: int|
            0 <= i < self.acceptance@.len() && self.acceptance@[i] != Acceptance::Accepted
    }

    /// Judges every node: Accepted if its name is among `branches`, else
    /// Rejected under the `missing means absent` policy, else Unknown.
    /// Applied uniformly to every node, regardless of depth.
    pub fn fill_accepted(&mut self, branches: &Vec<String>, missing_means_absent: bool)
        requires
            old(self).wf(),
        ensures
            final(self).wf(),
            final(self).names == old(self).names,
            final(self).ci_links == old(self).ci_links,
            final(self).children == old(self).children,
            forall|i: int|
                0 <= i < final(self).acceptance@.len() ==> final(self).acceptance@[i]
                    == acceptance_rule(
                    final(self).names@[i]@,
                    views(branches@).to_set(),
                    missing_means_absent,
                ),
    {
        let ghost accepted_set = views(branches@).to_set();
        let n = self.names.len();
        let mut acceptance: Vec<Acceptance> = Vec::new();
        let mut i: usize = 0;
        while i < n
            invariant
                i <= n,
                n == self.names@.len(),
                acceptance@.len() == i,
                accepted_set == views(branches@).to_set(),
                forall|k: int|
                    0 <= k < i ==> acceptance@[k] == acceptance_rule(
                        self.names@[k]@,
                        accepted_set,
                        missing_means_absent,
                    ),
            decreases n - i,
        {
            let present = contains_name(branches, &self.names[i]);
            let judgment = if present {
                proof {
                    assert(accepted_set.contains(self.names@[i as int]@));
                }
                Acceptance::Accepted
            } else {
                proof {
                    assert(!accepted_set.contains(self.names@[i as int]@));
                }
                if missing_means_absent {
                    Acceptance::Rejected
                } else {
                    Acceptance::Unknown
                }
            };
            acceptance.push(judgment);
            i = i + 1;
        }
        self.acceptance = acceptance;
    }

    /// Adds the name of every Accepted node to `vec` and reports whether any
    /// node is not Accepted (the propagation front has not reached every
    /// branch affirmatively, so tracking must continue).
    pub fn collect_branches(&self, vec: &mut Vec<String>) -> (pending: bool)
        requires
            self.wf(),
        ensures
            views(final(vec)@) == views(old(vec)@) + self.accepted_names(),
            pending == self.still_pending(),
    {
        let mut pending = false;
        let n = self.names.len();
        let mut i: usize = 0;
        while i < n
            invariant
                i <= n,
                self.wf(),
                n == self.names@.len(),
                views(vec@) == views(old(vec)@) + accepted_prefix(
                    self.names@,
                    self.acceptance@,
                    i as int,
                ),
                pending == exists|k: int|
                    0 <= k < i && self.acceptance@[k] != Acceptance::Accepted,
            decreases n - i,
        {
            if self.acceptance[i] == Acceptance::Accepted {
                let ghost pre = vec@;
                vec.push(self.names[i].clone());
                proof {
                    assert(views(vec@) =~= views(pre).push(self.names@[i as int]@));
                    assert(views(vec@) =~= views(old(vec)@) + accepted_prefix(
                        self.names@,
                        self.acceptance@,
                        i + 1,
                    ));
                }
            } else {
                pending = true;
            }
            i = i + 1;
        }
        pending
    }

    /// The names of every node, in node order: the candidate branches whose
    /// tips the ancestry oracle is asked about.
    pub fn candidates(&self) -> (r: Vec<String>)
        ensures
            views(r@) == self.node_names(),
    {
        let mut out: Vec<String> = Vec::new();
        let n = self.names.len();
        let mut i: usize = 0;
        while i < n
            invariant
                i <= n,
                n == self.names@.len(),
                views(out@) =~= self.node_names().take(i as int),
            decreases n - i,
        {
            let ghost pre = out@;
            out.push(self.names[i].clone());
            proof {
                assert(views(out@) =~= views(pre).push(self.names@[i as int]@));
                assert(views(out@) =~= self.node_names().take(i + 1));
            }
            i = i + 1;
        }
        assert(views(out@) =~= self.node_names());
        out
    }

    /// Stores, for every node, the external link recorded for its branch in
    /// `links` (a table supplied by the surrounding service). Decorative:
    /// names, judgments and topology are untouched.
    pub fn set_ci_links(&mut self, links: &Vec<(String, String)>)
        requires
            old(self).wf(),
        ensures
            final(self).wf(),
            final(self).names == old(self).names,
            final(self).acceptance == old(self).acceptance,
            final(self).children == old(self).children,
            forall|i: int|
                0 <= i < final(self).ci_links@.len() ==> opt_view(final(self).ci_links@[i])
                    == link_lookup(links@, final(self).names@[i]@),
    {
        let n = self.names.len();
        let mut ci_links: Vec<Option<String>> = Vec::new();
        let mut i: usize = 0;
        while i < n
            invariant
                i <= n,
                n == self.names@.len(),
                ci_links@.len() == i,
                forall|k: int|
                    0 <= k < i ==> opt_view(ci_links@[k]) == link_lookup(
                        links@,
                        self.names@[k]@,
                    ),
            decreases n - i,
        {
            ci_links.push(find_link(links, &self.names[i]));
            i = i + 1;
        }
        self.ci_links = ci_links;
    }
}

/// The link recorded for branch `n` in the lookup table, if any (first
/// matching entry wins).
pub open spec fn link_lookup(links: Seq<(String, String)>, n: Seq<char>) -> Option<Seq<char>>
    decreases links.len(),
{
    if links.len() == 0 {
        None
    } else if links[0].0@ == n {
        Some(links[0].1@)
    } else {
        link_lookup(links.drop_first(), n)
    }
}

/// Linear search of the link table.
fn find_link(links: &Vec<(String, String)>, n: &String) -> (r: Option<String>)
    ensures
        opt_view(r) == link_lookup(links@, n@),
{
    let mut i: usize = 0;
    assert(links@.skip(0) =~= links@);
    while i < links.len()
        invariant
            0 <= i <= links@.len(),
            link_lookup(links@, n@) == link_lookup(links@.skip(i as int), n@),
        decreases links@.len() - i,
    {
        proof {
            assert(links@.skip(i as int)[0] == links@[i as int]);
        }
        if links[i].0.eq(n) {
            return Some(links[i].1.clone());
        }
        proof {
            assert(links@.skip(i as int).drop_first() =~= links@.skip(i + 1));
        }
        i = i + 1;
    }
    None
}

/// One tracking pass judges every node by `acceptance_rule` over one
/// accepted set; the lemmas below state the tree-level laws of that rule.
///
/// Collecting after a fill returns exactly the nodes whose name lies in the
/// accepted set, in node order, whatever the shape or depth of the tree.
pub proof fn lemma_collect_exactly_accepted(
    t: Tree,
    accepted: Set<Seq<char>>,
    missing_means_absent: bool,
)
    requires
        t.wf(),
        forall|i: int|
            0 <= i < t.acceptance@.len() ==> t.acceptance@[i] == acceptance_rule(
                t.names@[i]@,
                accepted,
                missing_means_absent,
            ),
    ensures
        t.accepted_names() == t.node_names().filter(|n: Seq<char>| accepted.contains(n)),
        t.accepted_names().to_set() == t.node_names().to_set().intersect(accepted),
{
    lemma_accepted_prefix_filter(
        t.names@,
        t.acceptance@,
        accepted,
        missing_means_absent,
        t.names@.len() as int,
    );
    assert(t.node_names().take(t.names@.len() as int) =~= t.node_names());
}

proof fn lemma_accepted_prefix_filter(
    names: Seq<String>,
    acceptance: Seq<Acceptance>,
    accepted: Set<Seq<char>>,
    missing_means_absent: bool,
    k: int,
)
    requires
        0 <= k <= names.len(),
        acceptance.len() == names.len(),
        forall|i: int|
            0 <= i < acceptance.len() ==> acceptance[i] == acceptance_rule(
                names[i]@,
                accepted,
                missing_means_absent,
            ),
    ensures
        accepted_prefix(names, acceptance, k) == views(names).take(k).filter(
            |n: Seq<char>| accepted.contains(n),
        ),
        accepted_prefix(names, acceptance, k).to_set() == views(names).take(k).to_set().intersect(
            accepted,
        ),
    decreases k,
{
    reveal(Seq::filter);
    let pred = |n: Seq<char>| accepted.contains(n);
    let taken = views(names).take(k);
    if k == 0 {
        assert(taken =~= Seq::<Seq<char>>::empty());
        assert(taken.filter(pred) =~= Seq::<Seq<char>>::empty());
        assert(accepted_prefix(names, acceptance, 0).to_set() =~= taken.to_set().intersect(
            accepted,
        ));
    } else {
        lemma_accepted_prefix_filter(names, acceptance, accepted, missing_means_absent, k - 1);
        let prev = views(names).take(k - 1);
        assert(taken.drop_last() =~= prev);
        assert(taken.last() == names[k - 1]@);
        // one unfolding of filter on `taken`
        if pred(names[k - 1]@) {
            assert(taken.filter(pred) == prev.filter(pred).push(names[k - 1]@));
            assert(accepted_prefix(names, acceptance, k) =~= taken.filter(pred));
        } else {
            assert(taken.filter(pred) == prev.filter(pred));
            assert(accepted_prefix(names, acceptance, k) =~= taken.filter(pred));
        }
        assert(accepted_prefix(names, acceptance, k).to_set() =~= taken.to_set().intersect(
            accepted,
        )) by {
            let cur = accepted_prefix(names, acceptance, k);
            let prevset = accepted_prefix(names, acceptance, k - 1);
            assert forall|x: Seq<char>| cur.to_set().contains(x) implies taken.to_set().contains(x)
                && accepted.contains(x) by {
                let j = choose|j: int| 0 <= j < cur.len() && cur[j] == x;
                if j < prevset.len() {
                    assert(prevset.to_set().contains(x));
                    assert(prev.to_set().contains(x));
                    let m = choose|m: int| 0 <= m < prev.len() && prev[m] == x;
                    assert(taken[m] == x);
                } else {
                    assert(x == names[k - 1]@ && pred(x));
                    assert(taken[k - 1] == x);
                }
            }
            assert forall|x: Seq<char>|
                taken.to_set().contains(x) && accepted.contains(x) implies cur.to_set().contains(
                x,
            ) by {
                let j = choose|j: int| 0 <= j < taken.len() && taken[j] == x;
                if j < k - 1 {
                    assert(prev[j] == x);
                    assert(prev.to_set().contains(x));
                    assert(prevset.to_set().contains(x));
                    let m = choose|m: int| 0 <= m < prevset.len() && prevset[m] == x;
                    assert(cur[m] == x);
                } else {
                    assert(x == names[k - 1]@);
                    assert(cur[cur.len() - 1] == x);
                }
            }
        }
    }
}

/// When no node is judged Accepted, nothing is collected.
pub proof fn lemma_accepted_prefix_none(names: Seq<String>, acceptance: Seq<Acceptance>, k: int)
    requires
        forall|i: int| 0 <= i < k ==> #[trigger] acceptance[i] != Acceptance::Accepted,
    ensures
        accepted_prefix(names, acceptance, k) == Seq::<Seq<char>>::empty(),
    decreases k,
{
    if k > 0 {
        lemma_accepted_prefix_none(names, acceptance, k - 1);
        assert(accepted_prefix(names, acceptance, k) =~= Seq::<Seq<char>>::empty());
    }
}

/// With an empty accepted set, every node stays short of Accepted, so a
/// non-empty tree is always still pending.
pub proof fn lemma_pending_with_empty_accepted(t: Tree, missing_means_absent: bool)
    requires
        t.wf(),
        t.node_count() > 0,
        forall|i: int|
            0 <= i < t.acceptance@.len() ==> t.acceptance@[i] == acceptance_rule(
                t.names@[i]@,
                Set::<Seq<char>>::empty(),
                missing_means_absent,
            ),
    ensures
        t.still_pending(),
{
    assert(t.acceptance@[0] != Acceptance::Accepted);
}

} // verus!
