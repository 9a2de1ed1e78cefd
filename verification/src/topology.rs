//! Topology expansion.
//!
//! The branch successor graph is an external oracle; the surrounding
//! service materializes its answers as a list of rules (branch name and its
//! immediate successors). Starting from the base branch of the change, the
//! builder expands that graph depth first into the acceptance tree,
//! creating one node per visited branch name.
//!
//! The expansion keeps a visited set; reaching the same branch name twice
//! means the supplied graph does not unfold into a tree from the base (a
//! cycle, or a branch reachable along two paths), and is reported as a hard
//! construction error.

use vstd::prelude::*;

use crate::names::index_of_name;
use crate::names::push_unique;
use crate::names::views;
use crate::tree::Acceptance;
use crate::tree::Tree;

verus! {

/// One answer of the branch successor oracle: the immediate successor
/// branches of `name`, in order.
pub struct BranchRule {
    pub name: String,
    pub successors: Vec<String>,
}

/// The materialized branch successor graph.
pub struct SuccessorGraph {
    pub rules: Vec<BranchRule>,
}

/// Why the topology could not be built.
#[derive(Clone, Copy, PartialEq, Eq, Structural, Debug)]
pub enum BuildError {
    /// The expansion reached the same branch name twice: the successor
    /// graph does not unfold into a tree from the base branch.
    CycleDetected,
}

/// The successors of `name`: the list of the first rule for `name`, or
/// empty when no rule mentions it (a leaf branch).
pub open spec fn successors_spec(rules: Seq<BranchRule>, name: Seq<char>) -> Seq<Seq<char>>
    decreases rules.len(),
{
    if rules.len() == 0 {
        Seq::empty()
    } else if rules[0].name@ == name {
        views(rules[0].successors@)
    } else {
        successors_spec(rules.drop_first(), name)
    }
}

/// Every branch name mentioned by the rules from position `i` on, in
/// order of appearance (rule name first, then its successors).
pub open spec fn mentioned_from(rules: Seq<BranchRule>, i: int) -> Seq<Seq<char>>
    decreases rules.len() - i,
{
    if i < 0 || i >= rules.len() {
        Seq::empty()
    } else {
        seq![rules[i].name@] + views(rules[i].successors@) + mentioned_from(rules, i + 1)
    }
}

/// Whether some rule mentions the branch name `x`.
pub open spec fn graph_mentions(rules: Seq<BranchRule>, x: Seq<char>) -> bool {
    exists|i: int|
        0 <= i < rules.len() && (rules[i].name@ == x || views(rules[i].successors@).contains(x))
}

/// `acc` extended with the elements of `rest` not yet present, keeping
/// first-occurrence order.
pub open spec fn dedup_into(acc: Seq<Seq<char>>, rest: Seq<Seq<char>>) -> Seq<Seq<char>>
    decreases rest.len(),
{
    if rest.len() == 0 {
        acc
    } else {
        dedup_into(
            if acc.contains(rest[0]) {
                acc
            } else {
                acc.push(rest[0])
            },
            rest.drop_first(),
        )
    }
}

/// The universe of the expansion: the base branch followed by every branch
/// name the graph mentions, without duplicates, in first-occurrence order.
/// The base branch is id 0.
pub open spec fn universe_spec(base: Seq<char>, rules: Seq<BranchRule>) -> Seq<Seq<char>> {
    dedup_into(seq![base], mentioned_from(rules, 0))
}

proof fn lemma_dedup_append(acc: Seq<Seq<char>>, a: Seq<Seq<char>>, b: Seq<Seq<char>>)
    ensures
        dedup_into(acc, a + b) == dedup_into(dedup_into(acc, a), b),
    decreases a.len(),
{
    if a.len() == 0 {
        assert(a + b =~= b);
    } else {
        let step = if acc.contains(a[0]) {
            acc
        } else {
            acc.push(a[0])
        };
        assert((a + b)[0] == a[0]);
        assert((a + b).drop_first() =~= a.drop_first() + b);
        lemma_dedup_append(step, a.drop_first(), b);
    }
}

/// Builds the name universe of one expansion: base branch first, then
/// every name the graph mentions, deduplicated.
pub fn build_universe(base: &String, g: &SuccessorGraph) -> (r: Vec<String>)
    ensures
        views(r@) == universe_spec(base@, g.rules@),
        views(r@).no_duplicates(),
        r@.len() >= 1 && views(r@)[0] == base@,
        views(r@).contains(base@),
        forall|i: int|
            0 <= i < g.rules@.len() ==> views(r@).contains(#[trigger] g.rules@[i].name@),
        forall|i: int, j: int|
            0 <= i < g.rules@.len() && 0 <= j < g.rules@[i].successors@.len() ==> views(
                r@,
            ).contains(#[trigger] views(g.rules@[i].successors@)[j]),
        forall|k: int|
            0 <= k < r@.len() ==> #[trigger] views(r@)[k] == base@ || graph_mentions(
                g.rules@,
                views(r@)[k],
            ),
{
    let mut names: Vec<String> = Vec::new();
    names.push(base.clone());
    assert(views(names@) =~= seq![base@]);
    let n = g.rules.len();
    let mut i: usize = 0;
    while i < n
        invariant
            i <= n,
            n == g.rules@.len(),
            views(names@).no_duplicates(),
            names@.len() >= 1 && views(names@)[0] == base@,
            universe_spec(base@, g.rules@) == dedup_into(
                views(names@),
                mentioned_from(g.rules@, i as int),
            ),
            forall|r: int|
                0 <= r < i ==> views(names@).contains(#[trigger] g.rules@[r].name@),
            forall|r: int, j: int|
                0 <= r < i && 0 <= j < g.rules@[r].successors@.len() ==> views(names@).contains(
                    #[trigger] views(g.rules@[r].successors@)[j],
                ),
            forall|k: int|
                0 <= k < names@.len() ==> #[trigger] views(names@)[k] == base@ || graph_mentions(
                    g.rules@,
                    views(names@)[k],
                ),
        decreases n - i,
    {
        let ghost rules = g.rules@;
        let ghost pre = views(names@);
        let ghost mentioned_here = seq![rules[i as int].name@] + views(
            rules[i as int].successors@,
        );
        proof {
            assert(mentioned_from(rules, i as int) == mentioned_here + mentioned_from(
                rules,
                i + 1,
            ));
            lemma_dedup_append(pre, mentioned_here, mentioned_from(rules, i + 1));
        }
        let rule_successor_count = g.rules[i].successors.len();
        push_unique(&mut names, &g.rules[i].name);
        proof {
            assert(mentioned_here[0] == rules[i as int].name@);
            assert(mentioned_here.drop_first() =~= views(rules[i as int].successors@));
            assert(dedup_into(pre, mentioned_here) == dedup_into(
                views(names@),
                views(rules[i as int].successors@),
            ));
            assert(views(rules[i as int].successors@).skip(0) =~= views(
                rules[i as int].successors@,
            ));
            assert(graph_mentions(rules, rules[i as int].name@)) by {
                assert(0 <= i < rules.len() && rules[i as int].name@ == rules[i as int].name@);
            }
        }
        let mut j: usize = 0;
        while j < rule_successor_count
            invariant
                j <= rule_successor_count,
                i < n,
                n == g.rules@.len(),
                rules == g.rules@,
                rule_successor_count == rules[i as int].successors@.len(),
                views(names@).no_duplicates(),
                names@.len() >= 1 && views(names@)[0] == base@,
                dedup_into(pre, mentioned_here) == dedup_into(
                    views(names@),
                    views(rules[i as int].successors@).skip(j as int),
                ),
                views(names@).contains(rules[i as int].name@),
                forall|r: int|
                    0 <= r < i ==> views(names@).contains(#[trigger] g.rules@[r].name@),
                forall|r: int, jj: int|
                    0 <= r < i && 0 <= jj < g.rules@[r].successors@.len() ==> views(
                        names@,
                    ).contains(#[trigger] views(g.rules@[r].successors@)[jj]),
                forall|jj: int|
                    0 <= jj < j ==> views(names@).contains(
                        #[trigger] views(rules[i as int].successors@)[jj],
                    ),
                forall|k: int|
                    0 <= k < names@.len() ==> #[trigger] views(names@)[k] == base@
                        || graph_mentions(g.rules@, views(names@)[k]),
            decreases rule_successor_count - j,
        {
            let ghost before = views(names@);
            let ghost succ_views = views(rules[i as int].successors@);
            proof {
                assert(succ_views.skip(j as int)[0] == succ_views[j as int]);
                assert(succ_views.skip(j as int).drop_first() =~= succ_views.skip(j + 1));
            }
            push_unique(&mut names, &g.rules[i].successors[j]);
            proof {
                assert(dedup_into(before, succ_views.skip(j as int)) == dedup_into(
                    views(names@),
                    succ_views.skip(j + 1),
                ));
                assert(graph_mentions(rules, succ_views[j as int])) by {
                    assert(0 <= i < rules.len() && views(rules[i as int].successors@).contains(
                        succ_views[j as int],
                    )) by {
                        assert(views(rules[i as int].successors@)[j as int] == succ_views[j as int]);
                    }
                }
            }
            j = j + 1;
        }
        proof {
            assert(views(rules[i as int].successors@).skip(rule_successor_count as int)
                =~= Seq::<Seq<char>>::empty());
            assert(dedup_into(views(names@), Seq::<Seq<char>>::empty()) == views(names@));
            assert(universe_spec(base@, g.rules@) == dedup_into(
                views(names@),
                mentioned_from(rules, i + 1),
            ));
        }
        i = i + 1;
    }
    proof {
        assert(mentioned_from(g.rules@, n as int) =~= Seq::<Seq<char>>::empty());
        assert(views(names@)[0] == base@);
    }
    names
}

/// How many entries of a visited set are still unvisited.
pub open spec fn count_falses(s: Seq<bool>) -> nat
    decreases s.len(),
{
    if s.len() == 0 {
        0
    } else {
        (if s[0] {
            0nat
        } else {
            1nat
        }) + count_falses(s.drop_first())
    }
}

proof fn lemma_count_falses_update(s: Seq<bool>, i: int)
    requires
        0 <= i < s.len(),
        !s[i],
    ensures
        count_falses(s.update(i, true)) == count_falses(s) - 1,
    decreases s.len(),
{
    let u = s.update(i, true);
    if i == 0 {
        assert(u.drop_first() =~= s.drop_first());
    } else {
        assert(u[0] == s[0]);
        assert(u.drop_first() =~= s.drop_first().update(i - 1, true));
        lemma_count_falses_update(s.drop_first(), i - 1);
    }
}

/// The depth-first discipline of the topology expansion, over the id graph
/// `succ`: the pending ids on `stack` are expanded front first; an id must
/// be unvisited when reached, and expanding it marks it and prepends its
/// successors. True exactly when no id is reached twice — i.e. when the
/// graph unfolds into a tree from the ids initially on the stack.
pub open spec fn dfs_ok(succ: Seq<Seq<int>>, visited: Seq<bool>, stack: Seq<int>) -> bool
    decreases count_falses(visited), stack.len(),
    via dfs_ok_decreases
{
    if stack.len() == 0 {
        true
    } else {
        let id = stack[0];
        if !(0 <= id < visited.len() && id < succ.len()) {
            false
        } else if visited[id] {
            false
        } else {
            dfs_ok(succ, visited.update(id, true), succ[id] + stack.drop_first())
        }
    }
}

#[via_fn]
proof fn dfs_ok_decreases(succ: Seq<Seq<int>>, visited: Seq<bool>, stack: Seq<int>) {
    if stack.len() > 0 {
        let id = stack[0];
        if 0 <= id < visited.len() && id < succ.len() && !visited[id] {
            lemma_count_falses_update(visited, id);
        }
    }
}

/// Position of `x` in `u` (the length of `u` when absent).
pub open spec fn position_of(u: Seq<Seq<char>>, x: Seq<char>) -> int
    decreases u.len(),
{
    if u.len() == 0 {
        0
    } else if u[0] == x {
        0
    } else {
        1 + position_of(u.drop_first(), x)
    }
}

proof fn lemma_position_of_contains(u: Seq<Seq<char>>, x: Seq<char>)
    requires
        u.contains(x),
    ensures
        0 <= position_of(u, x) < u.len(),
        u[position_of(u, x)] == x,
    decreases u.len(),
{
    if u[0] != x {
        assert(u.drop_first().contains(x)) by {
            let j = choose|j: int| 0 <= j < u.len() && u[j] == x;
            assert(u.drop_first()[j - 1] == x);
        }
        lemma_position_of_contains(u.drop_first(), x);
    }
}

proof fn lemma_position_of_unique(u: Seq<Seq<char>>, x: Seq<char>, j: int)
    requires
        u.no_duplicates(),
        0 <= j < u.len(),
        u[j] == x,
    ensures
        position_of(u, x) == j,
    decreases u.len(),
{
    if u[0] == x {
        if j != 0 {
            assert(u[j] == u[0]);
            assert(false);
        }
    } else {
        assert(u.drop_first().no_duplicates()) by {
            assert forall|a: int, b: int|
                0 <= a < u.drop_first().len() && 0 <= b < u.drop_first().len() && a != b implies u
                .drop_first()[a] != u.drop_first()[b] by {
                assert(u.drop_first()[a] == u[a + 1]);
                assert(u.drop_first()[b] == u[b + 1]);
            }
        }
        assert(u.drop_first()[j - 1] == x);
        lemma_position_of_unique(u.drop_first(), x, j - 1);
    }
}

/// The successor ids of universe entry `j`: the positions in `u` of the
/// successors of the branch named `u[j]`.
pub open spec fn successor_positions(rules: Seq<BranchRule>, u: Seq<Seq<char>>, j: int) -> Seq<
    int,
> {
    Seq::new(
        successors_spec(rules, u[j]).len(),
        |k: int| position_of(u, successors_spec(rules, u[j])[k]),
    )
}

/// The successor graph translated to universe ids.
pub open spec fn succ_ids_spec(rules: Seq<BranchRule>, u: Seq<Seq<char>>) -> Seq<Seq<int>> {
    Seq::new(u.len(), |j: int| successor_positions(rules, u, j))
}

/// The ids held by the id-graph vectors.
pub open spec fn id_views(s: Seq<Vec<usize>>) -> Seq<Seq<int>> {
    s.map_values(|v: Vec<usize>| v@.map_values(|x: usize| x as int))
}

/// Whether the successor graph unfolds into a tree from the base branch:
/// the depth-first expansion over the name universe (where the base is id
/// 0) never reaches the same name twice.
pub open spec fn expansion_ok(base: Seq<char>, rules: Seq<BranchRule>) -> bool {
    let u = universe_spec(base, rules);
    dfs_ok(succ_ids_spec(rules, u), Seq::new(u.len(), |j: int| false), seq![0int])
}

/// Linear search for the rule of branch `n`.
fn find_successors<'a>(g: &'a SuccessorGraph, n: &String) -> (r: Option<&'a Vec<String>>)
    ensures
        match r {
            Some(sv) => views(sv@) == successors_spec(g.rules@, n@) && exists|i: int|
                0 <= i < g.rules@.len() && (#[trigger] g.rules@[i]).name@ == n@ && *sv
                    == g.rules@[i].successors,
            None => successors_spec(g.rules@, n@) == Seq::<Seq<char>>::empty(),
        },
{
    let mut i: usize = 0;
    assert(g.rules@.skip(0) =~= g.rules@);
    while i < g.rules.len()
        invariant
            0 <= i <= g.rules@.len(),
            successors_spec(g.rules@, n@) == successors_spec(g.rules@.skip(i as int), n@),
            forall|r: int| 0 <= r < i ==> #[trigger] g.rules@[r].name@ != n@,
        decreases g.rules@.len() - i,
    {
        proof {
            assert(g.rules@.skip(i as int)[0] == g.rules@[i as int]);
        }
        if g.rules[i].name.eq(n) {
            return Some(&g.rules[i].successors);
        }
        proof {
            assert(g.rules@.skip(i as int).drop_first() =~= g.rules@.skip(i + 1));
        }
        i = i + 1;
    }
    None
}

/// Translates the successor graph to universe ids: entry `j` holds the ids
/// of the successors of universe name `j`.
fn successor_ids(g: &SuccessorGraph, names: &Vec<String>) -> (succ: Vec<Vec<usize>>)
    requires
        views(names@).no_duplicates(),
        forall|i: int, j: int|
            0 <= i < g.rules@.len() && 0 <= j < g.rules@[i].successors@.len() ==> views(
                names@,
            ).contains(#[trigger] views(g.rules@[i].successors@)[j]),
    ensures
        succ@.len() == names@.len(),
        forall|j: int, k: int|
            0 <= j < succ@.len() && 0 <= k < succ@[j]@.len() ==> #[trigger] succ@[j]@[k]
                < names@.len(),
        id_views(succ@) == succ_ids_spec(g.rules@, views(names@)),
        forall|j: int, k: int|
            0 <= j < succ@.len() && 0 <= k < succ@[j]@.len() ==> views(names@)[
                #[trigger] succ@[j]@[k] as int
            ] == successors_spec(g.rules@, views(names@)[j])[k],
{
    let ghost u = views(names@);
    let n = names.len();
    let mut succ: Vec<Vec<usize>> = Vec::new();
    let mut j: usize = 0;
    while j < n
        invariant
            j <= n,
            n == names@.len(),
            u == views(names@),
            views(names@).no_duplicates(),
            forall|i: int, jj: int|
                0 <= i < g.rules@.len() && 0 <= jj < g.rules@[i].successors@.len() ==> views(
                    names@,
                ).contains(#[trigger] views(g.rules@[i].successors@)[jj]),
            succ@.len() == j,
            forall|jj: int, k: int|
                0 <= jj < j && 0 <= k < succ@[jj]@.len() ==> #[trigger] succ@[jj]@[k]
                    < names@.len(),
            forall|jj: int|
                0 <= jj < j ==> #[trigger] id_views(succ@)[jj] == successor_positions(
                    g.rules@,
                    u,
                    jj,
                ),
            forall|jj: int, k: int|
                0 <= jj < j && 0 <= k < succ@[jj]@.len() ==> views(names@)[
                    #[trigger] succ@[jj]@[k] as int
                ] == successors_spec(g.rules@, views(names@)[jj])[k],
        decreases n - j,
    {
        let ghost expected = successors_spec(g.rules@, u[j as int]);
        let mut ids: Vec<usize> = Vec::new();
        match find_successors(g, &names[j]) {
            None => {
                proof {
                    assert(expected =~= Seq::<Seq<char>>::empty());
                    assert(ids@.map_values(|x: usize| x as int) =~= successor_positions(
                        g.rules@,
                        u,
                        j as int,
                    ));
                }
            },
            Some(sv) => {
                proof {
                    assert(views(sv@) == expected);
                }
                let m = sv.len();
                let mut k: usize = 0;
                while k < m
                    invariant
                        k <= m,
                        m == sv@.len(),
                        u == views(names@),
                        views(names@).no_duplicates(),
                        views(sv@) == expected,
                        expected == successors_spec(g.rules@, u[j as int]),
                        forall|kk: int|
                            0 <= kk < sv@.len() ==> u.contains(#[trigger] views(sv@)[kk]),
                        ids@.len() == k,
                        forall|kk: int|
                            0 <= kk < k ==> #[trigger] ids@[kk] < names@.len() && u[
                                ids@[kk] as int
                            ] == expected[kk] && ids@[kk] as int == position_of(u, expected[kk]),
                    decreases m - k,
                {
                    let idx_opt = index_of_name(names, &sv[k]);
                    proof {
                        assert(views(sv@)[k as int] == sv@[k as int]@);
                        assert(u.contains(views(sv@)[k as int]));
                    }
                    let idx = idx_opt.unwrap();
                    proof {
                        assert(u[idx as int] == views(sv@)[k as int]);
                        lemma_position_of_unique(u, expected[k as int], idx as int);
                    }
                    ids.push(idx);
                    k = k + 1;
                }
                proof {
                    assert(ids@.map_values(|x: usize| x as int) =~= successor_positions(
                        g.rules@,
                        u,
                        j as int,
                    ));
                }
            },
        }
        let ghost pre_succ = succ@;
        let ghost ids_snapshot = ids@;
        succ.push(ids);
        proof {
            assert forall|jj: int| 0 <= jj < j + 1 implies #[trigger] id_views(succ@)[jj]
                == successor_positions(g.rules@, u, jj) by {
                assert(id_views(succ@)[jj] == succ@[jj]@.map_values(|x: usize| x as int));
                if jj < j {
                    assert(succ@[jj] == pre_succ[jj]);
                    assert(id_views(pre_succ)[jj] == pre_succ[jj]@.map_values(
                        |x: usize| x as int,
                    ));
                } else {
                    assert(succ@[jj]@ == ids_snapshot);
                    assert(ids_snapshot.map_values(|x: usize| x as int) == successor_positions(
                        g.rules@,
                        u,
                        j as int,
                    ));
                }
            }
        }
        j = j + 1;
    }
    proof {
        assert(id_views(succ@) =~= succ_ids_spec(g.rules@, views(names@)));
    }
    succ
}

/// `b` carries `a` unchanged as its start.
pub open spec fn seq_extends<A>(a: Seq<A>, b: Seq<A>) -> bool {
    a.len() <= b.len() && forall|i: int| 0 <= i < a.len() ==> a[i] == b[i]
}

/// The expansion only appends nodes.
pub open spec fn tree_extends(told: Tree, tnew: Tree) -> bool {
    &&& seq_extends(told.names@, tnew.names@)
    &&& seq_extends(told.acceptance@, tnew.acceptance@)
    &&& seq_extends(told.ci_links@, tnew.ci_links@)
    &&& seq_extends(told.children@, tnew.children@)
}

/// Well-formedness of the id graph the expansion walks.
pub open spec fn expand_wf(names: Seq<String>, succ: Seq<Vec<usize>>) -> bool {
    &&& succ.len() == names.len()
    &&& views(names).no_duplicates()
    &&& forall|j: int, k: int|
        0 <= j < succ.len() && 0 <= k < succ[j]@.len() ==> #[trigger] succ[j]@[k] < names.len()
}

/// Node `i` of `t` realizes universe entry `j`: same name, and one child
/// per successor id, created earlier and named accordingly.
pub open spec fn node_is(names: Seq<String>, succ: Seq<Vec<usize>>, t: Tree, i: int, j: int) -> bool {
    &&& 0 <= i < t.names@.len()
    &&& 0 <= j < names.len()
    &&& t.names@[i]@ == views(names)[j]
    &&& t.children@[i]@.len() == succ[j]@.len()
    &&& forall|k: int|
        0 <= k < succ[j]@.len() ==> #[trigger] t.children@[i]@[k] < i && t.names@[t.children@[i]@[
            k
        ] as int]@ == views(names)[succ[j]@[k] as int]
}

/// Node `i` of `t` realizes some universe entry.
pub open spec fn node_ok(names: Seq<String>, succ: Seq<Vec<usize>>, t: Tree, i: int) -> bool {
    exists|j: int| node_is(names, succ, t, i, j)
}

/// Invariant of a tree under construction.
pub open spec fn tree_building(names: Seq<String>, succ: Seq<Vec<usize>>, t: Tree) -> bool {
    &&& t.wf()
    &&& views(t.names@).no_duplicates()
    &&& forall|i: int| 0 <= i < t.names@.len() ==> #[trigger] node_ok(names, succ, t, i)
    &&& forall|i: int|
        0 <= i < t.acceptance@.len() ==> #[trigger] t.acceptance@[i] == Acceptance::Unknown
    &&& forall|i: int| 0 <= i < t.ci_links@.len() ==> #[trigger] t.ci_links@[i] is None
}

/// The branch name `x` belongs to an already visited universe entry.
pub open spec fn marked(names: Seq<String>, visited: Seq<bool>, x: Seq<char>) -> bool {
    exists|j: int| 0 <= j < names.len() && visited[j] && views(names)[j] == x
}

/// Every node of `t` bears the name of a visited universe entry.
pub open spec fn nodes_marked(names: Seq<String>, visited: Seq<bool>, t: Tree) -> bool {
    forall|i: int| 0 <= i < t.names@.len() ==> marked(names, visited, #[trigger] t.names@[i]@)
}

proof fn lemma_marked_monotone(names: Seq<String>, va: Seq<bool>, vb: Seq<bool>, x: Seq<char>)
    requires
        va.len() == names.len(),
        vb.len() == names.len(),
        forall|j: int| 0 <= j < names.len() && va[j] ==> #[trigger] vb[j],
        marked(names, va, x),
    ensures
        marked(names, vb, x),
{
    let jw = choose|jw: int| 0 <= jw < names.len() && va[jw] && views(names)[jw] == x;
    assert(0 <= jw < names.len() && vb[jw] && views(names)[jw] == x);
}

/// Expands the subtree of universe entry `id`: depth first, children
/// before their own node, failing when an already visited entry is reached
/// again.
fn expand_node(
    names: &Vec<String>,
    succ: &Vec<Vec<usize>>,
    visited: &mut Vec<bool>,
    t: &mut Tree,
    id: usize,
) -> (r: Result<usize, BuildError>)
    requires
        expand_wf(names@, succ@),
        old(visited)@.len() == names@.len(),
        tree_building(names@, succ@, *old(t)),
        nodes_marked(names@, old(visited)@, *old(t)),
        id < names@.len(),
    ensures
        final(visited)@.len() == names@.len(),
        tree_building(names@, succ@, *final(t)),
        nodes_marked(names@, final(visited)@, *final(t)),
        tree_extends(*old(t), *final(t)),
        forall|j: int| 0 <= j < names@.len() && old(visited)@[j] ==> #[trigger] final(visited)@[j],
        count_falses(final(visited)@) <= count_falses(old(visited)@),
        forall|i: int|
            old(t).names@.len() <= i < final(t).names@.len() ==> !marked(
                names@,
                old(visited)@,
                #[trigger] final(t).names@[i]@,
            ),
        forall|rest: Seq<int>|
            #[trigger] dfs_ok(id_views(succ@), old(visited)@, seq![id as int] + rest) == (
            r.is_ok() && dfs_ok(id_views(succ@), final(visited)@, rest)),
        r.is_ok() ==> forall|i: int|
            old(t).names@.len() <= i < final(t).names@.len() - 1 ==> #[trigger] has_parent(
                *final(t),
                i,
            ),
        match r {
            Ok(idx) => final(t).names@.len() > old(t).names@.len() && idx + 1 == final(t).names@.len()
                && final(t).names@[idx as int]@ == views(names@)[id as int],
            Err(e) => e == BuildError::CycleDetected,
        },
    decreases count_falses(old(visited)@),
{
    let ghost idsg = id_views(succ@);
    proof {
        assert(idsg.len() == succ@.len());
    }
    if visited[id] {
        proof {
            assert forall|rest: Seq<int>|
                #[trigger] dfs_ok(idsg, old(visited)@, seq![id as int] + rest) == false by {
                let s = seq![id as int] + rest;
                assert(s[0] == id as int);
                assert(old(visited)@[id as int]);
            }
        }
        return Err(BuildError::CycleDetected);
    }
    visited[id] = true;
    proof {
        lemma_count_falses_update(old(visited)@, id as int);
    }
    let ghost v1 = visited@;
    proof {
        assert forall|rest: Seq<int>|
            #[trigger] dfs_ok(idsg, old(visited)@, seq![id as int] + rest) == dfs_ok(
                idsg,
                v1,
                idsg[id as int].skip(0) + rest,
            ) by {
            let s = seq![id as int] + rest;
            assert(s[0] == id as int);
            assert(s.drop_first() =~= rest);
            assert(!old(visited)@[id as int]);
            assert(idsg[id as int].skip(0) =~= idsg[id as int]);
            assert(idsg[id as int] + s.drop_first() == idsg[id as int].skip(0) + rest);
        }
    }
    proof {
        assert forall|i: int| 0 <= i < t.names@.len() implies marked(
            names@,
            v1,
            #[trigger] t.names@[i]@,
        ) by {
            assert forall|j: int| 0 <= j < names@.len() && old(visited)@[j] implies #[trigger] v1[
                j
            ] by {}
            lemma_marked_monotone(names@, old(visited)@, v1, t.names@[i]@);
        }
    }
    let successor_count = succ[id].len();
    let mut kids: Vec<usize> = Vec::new();
    let mut k: usize = 0;
    while k < successor_count
        invariant
            expand_wf(names@, succ@),
            id < names@.len(),
            idsg == id_views(succ@),
            successor_count == succ@[id as int]@.len(),
            visited@.len() == names@.len(),
            old(visited)@.len() == names@.len(),
            tree_building(names@, succ@, *t),
            nodes_marked(names@, visited@, *t),
            nodes_marked(names@, old(visited)@, *old(t)),
            tree_extends(*old(t), *t),
            k <= successor_count,
            kids@.len() == k,
            forall|x: int|
                0 <= x < k ==> #[trigger] kids@[x] < t.names@.len() && t.names@[
                    kids@[x] as int
                ]@ == views(names@)[succ@[id as int]@[x] as int],
            v1 == old(visited)@.update(id as int, true),
            !old(visited)@[id as int],
            visited@[id as int],
            forall|jv: int| 0 <= jv < names@.len() && v1[jv] ==> #[trigger] visited@[jv],
            count_falses(visited@) <= count_falses(v1),
            count_falses(v1) < count_falses(old(visited)@),
            forall|i: int|
                old(t).names@.len() <= i < t.names@.len() ==> !marked(
                    names@,
                    v1,
                    #[trigger] t.names@[i]@,
                ),
            forall|i: int|
                old(t).names@.len() <= i < t.names@.len() ==> #[trigger] has_parent(*t, i)
                    || exists|x: int| 0 <= x < kids@.len() && kids@[x] == i,
            forall|rest: Seq<int>|
                #[trigger] dfs_ok(idsg, old(visited)@, seq![id as int] + rest) == dfs_ok(
                    idsg,
                    visited@,
                    idsg[id as int].skip(k as int) + rest,
                ),
        decreases successor_count - k,
    {
        let child_id = succ[id][k];
        proof {
            assert(succ@[id as int]@[k as int] < names@.len());
            assert(idsg[id as int] == succ@[id as int]@.map_values(|x: usize| x as int));
            assert(idsg[id as int][k as int] == child_id as int);
        }
        let ghost vk = visited@;
        let ghost tk = *t;
        let r_child = expand_node(names, succ, visited, t, child_id);
        proof {
            assert(idsg[id as int].skip(k as int) =~= seq![child_id as int] + idsg[
                id as int
            ].skip(k + 1));
            // unmarked (w.r.t. v1) stays the right notion for the child's new nodes
            assert forall|i: int|
                old(t).names@.len() <= i < t.names@.len() implies !marked(
                names@,
                v1,
                #[trigger] t.names@[i]@,
            ) by {
                if i < tk.names@.len() {
                    assert(tk.names@[i] == t.names@[i]);
                } else {
                    assert(!marked(names@, vk, t.names@[i]@));
                    if marked(names@, v1, t.names@[i]@) {
                        lemma_marked_monotone(names@, v1, vk, t.names@[i]@);
                    }
                }
            }
            // visited marks only grow across the child call
            assert forall|j: int|
                0 <= j < names@.len() && old(visited)@[j] implies #[trigger] visited@[j] by {
                assert(v1[j]);
                assert(vk[j]);
            }
        }
        match r_child {
            Err(e) => {
                proof {
                    assert forall|rest: Seq<int>|
                        #[trigger] dfs_ok(idsg, old(visited)@, seq![id as int] + rest) == false by {
                        let rest2 = idsg[id as int].skip(k + 1) + rest;
                        assert(dfs_ok(idsg, vk, seq![child_id as int] + rest2) == (
                        r_child.is_ok() && dfs_ok(idsg, visited@, rest2)));
                        assert(seq![child_id as int] + rest2 =~= idsg[id as int].skip(k as int)
                            + rest);
                        assert(dfs_ok(idsg, old(visited)@, seq![id as int] + rest) == dfs_ok(
                            idsg,
                            vk,
                            idsg[id as int].skip(k as int) + rest,
                        ));
                    }
                    // the not-yet-marked nodes are not marked at entry either
                    assert forall|i: int|
                        old(t).names@.len() <= i < t.names@.len() implies !marked(
                        names@,
                        old(visited)@,
                        #[trigger] t.names@[i]@,
                    ) by {
                        if marked(names@, old(visited)@, t.names@[i]@) {
                            assert forall|j: int|
                                0 <= j < names@.len() && old(visited)@[j] implies #[trigger] v1[
                                j
                            ] by {}
                            lemma_marked_monotone(names@, old(visited)@, v1, t.names@[i]@);
                        }
                    }
                }
                return Err(e);
            },
            Ok(ci) => {
                let ghost kids_pre = kids@;
                kids.push(ci);
                proof {
                    // every node added so far has a parent already, or sits
                    // on the kids list awaiting this node
                    assert forall|i: int|
                        old(t).names@.len() <= i < t.names@.len() implies #[trigger] has_parent(
                        *t,
                        i,
                    ) || exists|x: int| 0 <= x < kids@.len() && kids@[x] == i by {
                        if i < tk.names@.len() {
                            if has_parent(tk, i) {
                                lemma_has_parent_extends(tk, *t, i);
                            } else {
                                let x = choose|x: int|
                                    0 <= x < kids_pre.len() && kids_pre[x] == i;
                                assert(kids@[x] == i);
                            }
                        } else if i < t.names@.len() - 1 {
                            assert(has_parent(*t, i));
                        } else {
                            assert(ci as int == t.names@.len() - 1);
                            assert(kids@[kids@.len() - 1] == i);
                        }
                    }
                    assert forall|rest: Seq<int>|
                        #[trigger] dfs_ok(idsg, old(visited)@, seq![id as int] + rest) == dfs_ok(
                        idsg,
                        visited@,
                        idsg[id as int].skip(k + 1) + rest,
                    ) by {
                        let rest2 = idsg[id as int].skip(k + 1) + rest;
                        assert(dfs_ok(idsg, vk, seq![child_id as int] + rest2) == (
                        r_child.is_ok() && dfs_ok(idsg, visited@, rest2)));
                        assert(seq![child_id as int] + rest2 =~= idsg[id as int].skip(k as int)
                            + rest);
                        assert(dfs_ok(idsg, old(visited)@, seq![id as int] + rest) == dfs_ok(
                            idsg,
                            vk,
                            idsg[id as int].skip(k as int) + rest,
                        ));
                    }
                    assert(t.names@[ci as int]@ == views(names@)[child_id as int]);
                }
            },
        }
        k = k + 1;
    }
    let ghost tpre = *t;
    t.names.push(names[id].clone());
    t.acceptance.push(Acceptance::Unknown);
    t.ci_links.push(None);
    t.children.push(kids);
    let idx = t.names.len() - 1;
    proof {
        let nm = views(names@)[id as int];
        assert(t.names@[idx as int]@ == nm);
        // the new name is on no other node
        assert forall|i: int| 0 <= i < idx as int implies t.names@[i]@ != nm by {
            assert(t.names@[i] == tpre.names@[i]);
            if i < old(t).names@.len() {
                assert(marked(names@, old(visited)@, tpre.names@[i]@));
                if tpre.names@[i]@ == nm {
                    let jw = choose|jw: int|
                        0 <= jw < names@.len() && old(visited)@[jw] && views(names@)[jw]
                            == tpre.names@[i]@;
                    assert(views(names@)[jw] == views(names@)[id as int]);
                    assert(jw == id as int);
                    assert(false);
                }
            } else {
                assert(!marked(names@, v1, tpre.names@[i]@));
                if tpre.names@[i]@ == nm {
                    assert(v1[id as int] && views(names@)[id as int] == tpre.names@[i]@);
                    assert(marked(names@, v1, tpre.names@[i]@));
                    assert(false);
                }
            }
        }
        assert(views(t.names@) =~= views(tpre.names@).push(nm));
        assert(views(t.names@).no_duplicates());
        // every old node still realizes its universe entry
        assert forall|i: int| 0 <= i < idx as int implies #[trigger] node_ok(
            names@,
            succ@,
            *t,
            i,
        ) by {
            assert(node_ok(names@, succ@, tpre, i));
            let j = choose|j: int| node_is(names@, succ@, tpre, i, j);
            assert(node_is(names@, succ@, *t, i, j)) by {
                assert(t.names@[i] == tpre.names@[i]);
                assert(t.children@[i] == tpre.children@[i]);
                assert forall|kk: int| 0 <= kk < succ@[j]@.len() implies #[trigger] t.children@[
                    i
                ]@[kk] < i && t.names@[t.children@[i]@[kk] as int]@ == views(names@)[succ@[j]@[
                    kk
                ] as int] by {
                    assert(tpre.children@[i]@[kk] < i);
                    assert(t.names@[tpre.children@[i]@[kk] as int] == tpre.names@[tpre.children@[
                        i
                    ]@[kk] as int]);
                }
            }
        }
        // the new node realizes entry `id`
        assert(node_is(names@, succ@, *t, idx as int, id as int)) by {
            assert(t.children@[idx as int]@ == kids@);
            assert forall|kk: int| 0 <= kk < succ@[id as int]@.len() implies #[trigger] t.children@[
                idx as int
            ]@[kk] < idx as int && t.names@[t.children@[idx as int]@[kk] as int]@ == views(
                names@,
            )[succ@[id as int]@[kk] as int] by {
                assert(kids@[kk] < tpre.names@.len());
                assert(t.names@[kids@[kk] as int] == tpre.names@[kids@[kk] as int]);
            }
        }
        assert(node_ok(names@, succ@, *t, idx as int));
        // every node's name is now marked
        assert forall|i: int| 0 <= i < t.names@.len() implies marked(
            names@,
            visited@,
            #[trigger] t.names@[i]@,
        ) by {
            if i < idx as int {
                assert(marked(names@, visited@, tpre.names@[i]@));
            } else {
                assert((id as int) < names@.len() && visited@[id as int] && views(names@)[
                    id as int
                ] == nm);
            }
        }
        // nothing new was marked at entry
        assert forall|i: int|
            old(t).names@.len() <= i < t.names@.len() implies !marked(
            names@,
            old(visited)@,
            #[trigger] t.names@[i]@,
        ) by {
            if i < idx as int {
                if marked(names@, old(visited)@, t.names@[i]@) {
                    assert forall|j: int|
                        0 <= j < names@.len() && old(visited)@[j] implies #[trigger] v1[j] by {}
                    lemma_marked_monotone(names@, old(visited)@, v1, t.names@[i]@);
                }
            } else {
                if marked(names@, old(visited)@, nm) {
                    let jw = choose|jw: int|
                        0 <= jw < names@.len() && old(visited)@[jw] && views(names@)[jw] == nm;
                    assert(jw == id as int);
                    assert(false);
                }
            }
        }
        // every earlier node now has a parent: either it already had one,
        // or it sat on the kids list and the new node adopted it
        assert forall|i: int|
            old(t).names@.len() <= i < t.names@.len() - 1 implies #[trigger] has_parent(
            *t,
            i,
        ) by {
            if has_parent(tpre, i) {
                assert(tree_extends(tpre, *t));
                lemma_has_parent_extends(tpre, *t, i);
            } else {
                let x = choose|x: int| 0 <= x < kids@.len() && kids@[x] == i;
                assert(t.children@[idx as int]@[x] == i);
                assert(i < idx as int);
            }
        }
        // the whole successor list was consumed: the continuation equality
        assert forall|rest: Seq<int>|
            #[trigger] dfs_ok(idsg, old(visited)@, seq![id as int] + rest) == dfs_ok(
                idsg,
                visited@,
                rest,
            ) by {
            assert(idsg[id as int].skip(successor_count as int) =~= Seq::<int>::empty());
            assert(idsg[id as int].skip(successor_count as int) + rest =~= rest);
            assert(dfs_ok(idsg, old(visited)@, seq![id as int] + rest) == dfs_ok(
                idsg,
                visited@,
                idsg[id as int].skip(successor_count as int) + rest,
            ));
        }
    }
    Ok(idx)
}

proof fn lemma_successors_spec_shape(rules: Seq<BranchRule>, x: Seq<char>)
    ensures
        successors_spec(rules, x).len() == 0 || exists|i: int|
            0 <= i < rules.len() && (#[trigger] rules[i]).name@ == x && successors_spec(rules, x)
                == views(rules[i].successors@),
    decreases rules.len(),
{
    if rules.len() != 0 && rules[0].name@ != x {
        lemma_successors_spec_shape(rules.drop_first(), x);
        if successors_spec(rules, x).len() != 0 {
            let i = choose|i: int|
                0 <= i < rules.drop_first().len() && (#[trigger] rules.drop_first()[i]).name@ == x
                    && successors_spec(rules.drop_first(), x) == views(
                    rules.drop_first()[i].successors@,
                );
            assert(rules[i + 1] == rules.drop_first()[i]);
        }
    }
}

/// Node `i` is the child of some later node (children are created before
/// their parent, so a parent always has the larger index).
pub open spec fn has_parent(t: Tree, i: int) -> bool {
    exists|p: int, k: int|
        i < p < t.children@.len() && 0 <= k < t.children@[p]@.len() && #[trigger] t.children@[p]@[
            k
        ] == i
}

/// Trees with the same children arrays have the same parent links.
pub proof fn lemma_has_parent_same_children(a: Tree, b: Tree, i: int)
    requires
        has_parent(a, i),
        a.children@ == b.children@,
    ensures
        has_parent(b, i),
{
    let (p, k) = choose|p: int, k: int|
        i < p < a.children@.len() && 0 <= k < a.children@[p]@.len() && a.children@[p]@[k] == i;
    assert(b.children@[p]@[k] == i);
}

proof fn lemma_has_parent_extends(a: Tree, b: Tree, i: int)
    requires
        has_parent(a, i),
        tree_extends(a, b),
    ensures
        has_parent(b, i),
{
    let (p, k) = choose|p: int, k: int|
        i < p < a.children@.len() && 0 <= k < a.children@[p]@.len() && a.children@[p]@[k] == i;
    assert(b.children@[p] == a.children@[p]);
    assert(b.children@[p]@[k] == i);
}

/// The topology of a tree expanded from `base` over `rules`: the root
/// (the last node) is the base branch, node names are distinct and drawn
/// from the graph, every node's children are exactly the successors of
/// its branch in order, and every node but the root is some node's child
/// (so the arena holds nothing beyond what is reachable from the root).
pub open spec fn topology_shape(t: Tree, base: Seq<char>, rules: Seq<BranchRule>) -> bool {
    &&& t.wf()
    &&& t.node_count() >= 1
    &&& t.names@[t.names@.len() - 1]@ == base
    &&& views(t.names@).no_duplicates()
    &&& forall|i: int| 0 <= i < t.names@.len() - 1 ==> #[trigger] has_parent(t, i)
    &&& forall|i: int|
        0 <= i < t.names@.len() ==> #[trigger] t.names@[i]@ == base || graph_mentions(
            rules,
            t.names@[i]@,
        )
    &&& forall|i: int|
        0 <= i < t.names@.len() ==> #[trigger] t.children@[i]@.len() == successors_spec(
            rules,
            t.names@[i]@,
        ).len()
    &&& forall|i: int, k: int|
        0 <= i < t.names@.len() && 0 <= k < t.children@[i]@.len() ==> #[trigger] t.children@[i]@[
            k
        ] < i && t.names@[t.children@[i]@[k] as int]@ == successors_spec(rules, t.names@[i]@)[k]
}

/// A freshly expanded tree: its topology, with every judgment still
/// Unknown and no link set yet.
pub open spec fn expanded_shape(t: Tree, base: Seq<char>, rules: Seq<BranchRule>) -> bool {
    &&& topology_shape(t, base, rules)
    &&& forall|i: int|
        0 <= i < t.names@.len() ==> #[trigger] t.acceptance@[i] == Acceptance::Unknown
    &&& forall|i: int| 0 <= i < t.names@.len() ==> #[trigger] t.ci_links@[i] is None
}

impl Tree {
    /// Expands the successor graph from the base branch into an acceptance
    /// tree: one node per reachable branch name, children in successor
    /// order, every judgment initially Unknown. Succeeds exactly when the
    /// graph unfolds into a tree from the base (`expansion_ok`); reaching
    /// the same branch twice is a hard construction error.
    pub fn expand(base: &String, graph: &SuccessorGraph) -> (r: Result<Tree, BuildError>)
        ensures
            r is Ok <==> expansion_ok(base@, graph.rules@),
            match r {
                Ok(t) => expanded_shape(t, base@, graph.rules@),
                Err(e) => e == BuildError::CycleDetected,
            },
    {
        let names = build_universe(base, graph);
        let succ = successor_ids(graph, &names);
        let ghost u = views(names@);
        let ghost idsg = id_views(succ@);
        let n = names.len();
        let mut visited: Vec<bool> = Vec::new();
        let mut f: usize = 0;
        while f < n
            invariant
                f <= n,
                visited@.len() == f,
                forall|j: int| 0 <= j < f ==> !(#[trigger] visited@[j]),
            decreases n - f,
        {
            visited.push(false);
            f = f + 1;
        }
        proof {
            assert(visited@ =~= Seq::new(u.len(), |j: int| false));
        }
        let ghost v0 = visited@;
        let mut t = Tree {
            names: Vec::new(),
            acceptance: Vec::new(),
            ci_links: Vec::new(),
            children: Vec::new(),
        };
        proof {
            assert(tree_building(names@, succ@, t));
            assert(nodes_marked(names@, v0, t));
        }
        let res = expand_node(&names, &succ, &mut visited, &mut t, 0);
        proof {
            // the whole-expansion success criterion, instantiated at the
            // empty continuation
            let stack0 = seq![0int];
            assert(dfs_ok(idsg, v0, seq![0int] + Seq::<int>::empty()) == (res is Ok && dfs_ok(
                idsg,
                visited@,
                Seq::<int>::empty(),
            )));
            assert(seq![0int] + Seq::<int>::empty() =~= stack0);
            assert(dfs_ok(idsg, v0, stack0) == (res is Ok));
            assert(idsg == succ_ids_spec(graph.rules@, universe_spec(base@, graph.rules@)));
            assert(expansion_ok(base@, graph.rules@) == (res is Ok));
        }
        match res {
            Ok(idx) => {
                proof {
                    assert(t.names@[idx as int]@ == u[0]);
                    assert forall|i: int, k: int|
                        0 <= i < t.names@.len() && 0 <= k < t.children@[i]@.len() implies #[trigger] t.children@[i]@[
                        k
                    ] < i && t.names@[t.children@[i]@[k] as int]@ == successors_spec(
                        graph.rules@,
                        t.names@[i]@,
                    )[k] by {
                        assert(node_ok(names@, succ@, t, i));
                        let j = choose|j: int| node_is(names@, succ@, t, i, j);
                        assert(idsg[j] == succ@[j]@.map_values(|x: usize| x as int));
                        assert(idsg[j] == successor_positions(graph.rules@, u, j));
                        let nm = t.names@[i]@;
                        assert(nm == u[j]);
                        let expected = successors_spec(graph.rules@, nm);
                        assert(succ@[j]@.len() == expected.len());
                        assert(idsg[j][k] == succ@[j]@[k] as int);
                        assert(idsg[j][k] == position_of(u, expected[k]));
                        lemma_successors_spec_shape(graph.rules@, nm);
                        let ri = choose|ri: int|
                            0 <= ri < graph.rules@.len() && (#[trigger] graph.rules@[ri]).name@
                                == nm && expected == views(graph.rules@[ri].successors@);
                        assert(u.contains(expected[k])) by {
                            assert(views(graph.rules@[ri].successors@)[k] == expected[k]);
                        }
                        lemma_position_of_contains(u, expected[k]);
                        assert(u[succ@[j]@[k] as int] == expected[k]);
                    }
                    assert forall|i: int|
                        0 <= i < t.names@.len() implies #[trigger] t.children@[i]@.len()
                        == successors_spec(graph.rules@, t.names@[i]@).len() by {
                        assert(node_ok(names@, succ@, t, i));
                        let j = choose|j: int| node_is(names@, succ@, t, i, j);
                        assert(idsg[j] == successor_positions(graph.rules@, u, j));
                        assert(idsg[j] == succ@[j]@.map_values(|x: usize| x as int));
                    }
                    assert forall|i: int|
                        0 <= i < t.names@.len() implies #[trigger] t.names@[i]@ == base@
                        || graph_mentions(graph.rules@, t.names@[i]@) by {
                        assert(node_ok(names@, succ@, t, i));
                        let j = choose|j: int| node_is(names@, succ@, t, i, j);
                        assert(views(names@)[j] == base@ || graph_mentions(
                            graph.rules@,
                            views(names@)[j],
                        ));
                    }
                    assert forall|i: int|
                        0 <= i < t.names@.len() - 1 implies #[trigger] has_parent(t, i) by {}
                    assert(expanded_shape(t, base@, graph.rules@));
                }
                Ok(t)
            },
            Err(e) => Err(e),
        }
    }
}

} // verus!
