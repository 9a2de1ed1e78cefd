use pr_tracker::notify::diff;
use pr_tracker::notify::reconcile_subscriber;
use pr_tracker::policy::accepted_branches;
use pr_tracker::policy::parse_change_number;
use pr_tracker::policy::ChangeStatus;
use pr_tracker::topology::BranchRule;
use pr_tracker::topology::BuildError;
use pr_tracker::topology::SuccessorGraph;
use pr_tracker::tree::Acceptance;
use pr_tracker::tree::Tree;

fn s(x: &str) -> String {
    x.to_string()
}

fn names(xs: &[&str]) -> Vec<String> {
    xs.iter().map(|x| x.to_string()).collect()
}

fn rule(name: &str, successors: &[&str]) -> BranchRule {
    BranchRule {
        name: s(name),
        successors: names(successors),
    }
}

fn graph(rules: Vec<BranchRule>) -> SuccessorGraph {
    SuccessorGraph { rules }
}

fn node_index(t: &Tree, name: &str) -> usize {
    t.names.iter().position(|n| n == name).expect("node not found")
}

fn acceptance_of(t: &Tree, name: &str) -> Acceptance {
    t.acceptance[node_index(t, name)]
}

fn collected(t: &Tree) -> (Vec<String>, bool) {
    let mut v = Vec::new();
    let pending = t.collect_branches(&mut v);
    (v, pending)
}

#[test]
fn scenario_partial_propagation() {
    // root -> {staging, release-A}, staging -> {master}; merged into root
    // with a known commit; the oracle reports the commit in master only.
    let g = graph(vec![
        rule("root", &["staging", "release-A"]),
        rule("staging", &["master"]),
    ]);
    let status = ChangeStatus::Merged {
        merge_commit: Some(s("0123abcd")),
    };
    let t = Tree::make(&s("root"), &status, &g, &names(&["master"]), true).unwrap();

    assert_eq!(acceptance_of(&t, "root"), Acceptance::Accepted);
    assert_eq!(acceptance_of(&t, "master"), Acceptance::Accepted);
    assert_eq!(acceptance_of(&t, "staging"), Acceptance::Rejected);
    assert_eq!(acceptance_of(&t, "release-A"), Acceptance::Rejected);

    let (mut accepted, pending) = collected(&t);
    accepted.sort();
    assert_eq!(accepted, names(&["master", "root"]));
    // release-A is rejected, so the pass is still pending
    assert!(pending);
}

#[test]
fn base_branch_always_accepted() {
    // The oracle reports {A, B}; the base branch C is not among them but
    // must still be accepted: the upstream API already confirmed the merge.
    let g = graph(vec![rule("C", &["A", "B"])]);
    let status = ChangeStatus::Merged {
        merge_commit: Some(s("feed")),
    };
    let t = Tree::make(&s("C"), &status, &g, &names(&["A", "B"]), true).unwrap();
    let (mut accepted, pending) = collected(&t);
    accepted.sort();
    assert_eq!(accepted, names(&["A", "B", "C"]));
    assert!(!pending);
}

#[test]
fn unknown_merge_commit_leaves_all_unknown() {
    let g = graph(vec![rule("root", &["next", "stable"])]);
    let status = ChangeStatus::Merged { merge_commit: None };
    let t = Tree::make(&s("root"), &status, &g, &names(&[]), true).unwrap();
    for name in ["root", "next", "stable"] {
        assert_eq!(acceptance_of(&t, name), Acceptance::Unknown);
    }
    let (accepted, pending) = collected(&t);
    assert!(accepted.is_empty());
    assert!(pending);
}

#[test]
fn open_change_rejects_all() {
    let g = graph(vec![rule("root", &["next"])]);
    let t = Tree::make(&s("root"), &ChangeStatus::Open, &g, &names(&[]), true).unwrap();
    for name in ["root", "next"] {
        assert_eq!(acceptance_of(&t, name), Acceptance::Rejected);
    }
    let (accepted, pending) = collected(&t);
    assert!(accepted.is_empty());
    assert!(pending);
}

#[test]
fn closed_change_rejects_all() {
    let g = graph(vec![rule("root", &["next"])]);
    let t = Tree::make(&s("root"), &ChangeStatus::Closed, &g, &names(&[]), true).unwrap();
    assert_eq!(acceptance_of(&t, "root"), Acceptance::Rejected);
    assert_eq!(acceptance_of(&t, "next"), Acceptance::Rejected);
}

#[test]
fn failed_ancestry_query_degrades_to_unknown() {
    // The query failed: the partial set plus the forced base branch is
    // used, but missing branches read Unknown instead of Rejected.
    let g = graph(vec![rule("root", &["next"])]);
    let status = ChangeStatus::Merged {
        merge_commit: Some(s("c0ffee")),
    };
    let t = Tree::make(&s("root"), &status, &g, &names(&[]), false).unwrap();
    assert_eq!(acceptance_of(&t, "root"), Acceptance::Accepted);
    assert_eq!(acceptance_of(&t, "next"), Acceptance::Unknown);
    let (accepted, pending) = collected(&t);
    assert_eq!(accepted, names(&["root"]));
    assert!(pending);
}

#[test]
fn fully_propagated_change_is_final() {
    let g = graph(vec![rule("root", &["a"]), rule("a", &[])]);
    let status = ChangeStatus::Merged {
        merge_commit: Some(s("ff")),
    };
    let t = Tree::make(&s("root"), &status, &g, &names(&["root", "a"]), true).unwrap();
    let (mut accepted, pending) = collected(&t);
    accepted.sort();
    assert_eq!(accepted, names(&["a", "root"]));
    assert!(!pending);
    let r = reconcile_subscriber(&accepted, &names(&["root"]), pending);
    assert_eq!(r.to_notify, names(&["a"]));
    assert!(r.is_final);
}

#[test]
fn tree_shape_follows_graph() {
    let g = graph(vec![
        rule("root", &["staging", "release-A"]),
        rule("staging", &["master"]),
    ]);
    let t = Tree::expand(&s("root"), &g).unwrap();
    // one node per reachable branch, root created last
    assert_eq!(t.names.len(), 4);
    assert_eq!(t.names[t.names.len() - 1], s("root"));
    let root = node_index(&t, "root");
    let kids: Vec<&String> = t.children[root].iter().map(|&c| &t.names[c]).collect();
    assert_eq!(kids, [&s("staging"), &s("release-A")]);
    let staging = node_index(&t, "staging");
    let skids: Vec<&String> = t.children[staging].iter().map(|&c| &t.names[c]).collect();
    assert_eq!(skids, [&s("master")]);
    assert!(t.children[node_index(&t, "master")].is_empty());
    // judgments start unset (Unknown) and no link is set
    assert!(t.acceptance.iter().all(|a| *a == Acceptance::Unknown));
    assert!(t.ci_links.iter().all(|l| l.is_none()));
}

#[test]
fn cycle_is_a_hard_error() {
    let g = graph(vec![rule("a", &["b"]), rule("b", &["a"])]);
    assert!(matches!(Tree::expand(&s("a"), &g), Err(BuildError::CycleDetected)));
}

#[test]
fn reconverging_graph_is_rejected() {
    // z is reachable along two paths: the expansion reaches it twice.
    let g = graph(vec![
        rule("root", &["x", "y"]),
        rule("x", &["z"]),
        rule("y", &["z"]),
    ]);
    assert!(matches!(Tree::expand(&s("root"), &g), Err(BuildError::CycleDetected)));
}

#[test]
fn leaf_only_base_expands_to_single_node() {
    let g = graph(vec![]);
    let t = Tree::expand(&s("solo"), &g).unwrap();
    assert_eq!(t.names, names(&["solo"]));
    assert!(t.children[0].is_empty());
}

#[test]
fn accepted_branches_intersects_and_dedups() {
    // Only candidates survive; duplicates collapse; the base is added.
    let status = ChangeStatus::Merged {
        merge_commit: Some(s("aa")),
    };
    let candidates = names(&["root", "next", "stable"]);
    let reported = names(&["next", "elsewhere", "next", "stable"]);
    let r = accepted_branches(&s("root"), &status, &candidates, &reported, true);
    let mut got = r.accepted.clone();
    got.sort();
    assert_eq!(got, names(&["next", "root", "stable"]));
    assert!(r.missing_means_absent);
}

#[test]
fn not_merged_accepts_nothing() {
    let r = accepted_branches(
        &s("root"),
        &ChangeStatus::Open,
        &names(&["root"]),
        &names(&["root"]),
        true,
    );
    assert!(r.accepted.is_empty());
    assert!(r.missing_means_absent);
    let r = accepted_branches(
        &s("root"),
        &ChangeStatus::Merged { merge_commit: None },
        &names(&["root"]),
        &names(&["root"]),
        true,
    );
    assert!(r.accepted.is_empty());
    assert!(!r.missing_means_absent);
}

#[test]
fn diff_is_set_difference() {
    let d = diff(&names(&["a", "b", "c"]), &names(&["b"]));
    assert_eq!(d, names(&["a", "c"]));
}

#[test]
fn diff_of_identical_sets_is_empty() {
    let now = names(&["a", "b"]);
    assert!(diff(&now, &now).is_empty());
    let r = reconcile_subscriber(&now, &now, false);
    assert!(r.to_notify.is_empty());
    assert!(r.is_final);
}

#[test]
fn notified_branches_are_never_reoffered() {
    let now = names(&["a", "b", "c"]);
    let stored = names(&["a", "c"]);
    let r = reconcile_subscriber(&now, &stored, true);
    assert_eq!(r.to_notify, names(&["b"]));
    assert!(!r.is_final);
    // the updated stored set keeps everything already notified
    for n in &stored {
        assert!(r.new_state.contains(n));
    }
    // a second pass with the updated state re-offers nothing
    let again = reconcile_subscriber(&now, &r.new_state, true);
    assert!(again.to_notify.is_empty());
}

#[test]
fn ci_links_are_looked_up_per_branch() {
    let g = graph(vec![rule("root", &["next"])]);
    let mut t = Tree::expand(&s("root"), &g).unwrap();
    let links = vec![
        (s("root"), s("https://ci.example/root")),
        (s("other"), s("https://ci.example/other")),
    ];
    t.set_ci_links(&links);
    assert_eq!(
        t.ci_links[node_index(&t, "root")],
        Some(s("https://ci.example/root"))
    );
    assert_eq!(t.ci_links[node_index(&t, "next")], None);
}

#[test]
fn candidates_lists_every_node() {
    let g = graph(vec![rule("root", &["a", "b"])]);
    let t = Tree::expand(&s("root"), &g).unwrap();
    let mut c = t.candidates();
    c.sort();
    assert_eq!(c, names(&["a", "b", "root"]));
}

#[test]
fn change_numbers_parse_exactly() {
    assert_eq!(parse_change_number("123"), Some(123));
    assert_eq!(parse_change_number("0"), Some(0));
    assert_eq!(parse_change_number("007"), Some(7));
    assert_eq!(
        parse_change_number("18446744073709551615"),
        Some(u64::MAX)
    );
    assert_eq!(parse_change_number(""), None);
    assert_eq!(parse_change_number("12a"), None);
    assert_eq!(parse_change_number("-1"), None);
    assert_eq!(parse_change_number(" 1"), None);
    assert_eq!(parse_change_number("18446744073709551616"), None);
}

#[test]
fn shrunken_accepted_set_keeps_notified_branches() {
    // A degraded pass can hand back a smaller accepted set; everything
    // already notified stays in the stored record and is not re-offered.
    let now = names(&["a"]);
    let stored = names(&["a", "b"]);
    let r = reconcile_subscriber(&now, &stored, true);
    assert!(r.to_notify.is_empty());
    assert_eq!(r.new_state, names(&["a", "b"]));
}
