use trigger_scores::engine::{
    calculate_trigger_scores, calculate_trigger_scores_map, calculate_trigger_scores_map_inner,
    CommitCache, ScoreTable,
};
use trigger_scores::errors::ScoreError;
use trigger_scores::graph::{ChangeHistory, DependencyGraph, Rule};

fn s(x: &str) -> String {
    String::from(x)
}

fn strs(xs: &[&str]) -> Vec<String> {
    let mut v = Vec::new();
    for x in xs {
        v.push(String::from(*x));
    }
    v
}

fn rule(deps: &[&str], srcs: &[&str]) -> Rule {
    Rule { dep_targets: strs(deps), source_files: strs(srcs) }
}

/// The worked example: A depends on B, A's source is touched by two
/// changes, B's by one.
fn example() -> (DependencyGraph, ChangeHistory) {
    let mut g = DependencyGraph::new();
    assert!(g.add_rule(s("A"), rule(&["B"], &["//p:f1"])));
    assert!(g.add_rule(s("B"), rule(&[], &["//p:f2"])));
    let mut h = ChangeHistory::new();
    assert!(h.add_file(s("p/f1"), strs(&["c1", "c2"])));
    assert!(h.add_file(s("p/f2"), strs(&["c3"])));
    (g, h)
}

#[test]
fn example_graph_scores() {
    let (g, h) = example();
    let table = calculate_trigger_scores_map(&s("A"), &h, &g).unwrap();
    assert_eq!(table.len(), 2);
    let a = table.get(&s("A")).unwrap();
    let b = table.get(&s("B")).unwrap();
    assert_eq!(a.rebuilds, 3);
    assert_eq!(b.rebuilds, 1);
    assert_eq!(a.dependents, 1);
    assert_eq!(b.dependents, 2);
    assert_eq!(a.score, 3);
    assert_eq!(b.score, 2);
    assert_eq!(a.name, s("A"));
    assert_eq!(b.name, s("B"));
}

#[test]
fn scalar_matches_map_rebuilds() {
    let (g, h) = example();
    let n = calculate_trigger_scores(&s("A"), &h, &g).unwrap();
    let table = calculate_trigger_scores_map(&s("A"), &h, &g).unwrap();
    assert_eq!(n, table.get(&s("A")).unwrap().rebuilds);
    assert_eq!(n, 3);
    let nb = calculate_trigger_scores(&s("B"), &h, &g).unwrap();
    assert_eq!(nb, table.get(&s("B")).unwrap().rebuilds);
    assert_eq!(nb, 1);
}

#[test]
fn no_resolvable_sources_zero_rebuilds() {
    let mut g = DependencyGraph::new();
    assert!(g.add_rule(s("X"), rule(&[], &["//nowhere:gone", "@remote//r:f"])));
    let mut h = ChangeHistory::new();
    assert!(h.add_file(s("other/file"), strs(&["c9"])));
    let table = calculate_trigger_scores_map(&s("X"), &h, &g).unwrap();
    let x = table.get(&s("X")).unwrap();
    assert_eq!(x.rebuilds, 0);
    assert_eq!(x.score, 0);
    assert_eq!(calculate_trigger_scores(&s("X"), &h, &g).unwrap(), 0);
}

#[test]
fn single_referrer_dependents() {
    let mut g = DependencyGraph::new();
    assert!(g.add_rule(s("P"), rule(&["Q"], &[])));
    assert!(g.add_rule(s("Q"), rule(&[], &[])));
    let h = ChangeHistory::new();
    let table = calculate_trigger_scores_map(&s("P"), &h, &g).unwrap();
    assert_eq!(table.get(&s("Q")).unwrap().dependents, 2);
    assert_eq!(table.get(&s("P")).unwrap().dependents, 1);
}

#[test]
fn repeated_edge_counts_twice() {
    // the counting rule tallies edge traversals, not distinct referrers:
    // a parent naming the same dependency twice adds two.
    let mut g = DependencyGraph::new();
    assert!(g.add_rule(s("P"), rule(&["Q", "Q"], &[])));
    assert!(g.add_rule(s("Q"), rule(&[], &[])));
    let h = ChangeHistory::new();
    let table = calculate_trigger_scores_map(&s("P"), &h, &g).unwrap();
    assert_eq!(table.get(&s("Q")).unwrap().dependents, 3);
}

#[test]
fn diamond_counts_both_paths() {
    let mut g = DependencyGraph::new();
    assert!(g.add_rule(s("A"), rule(&["B", "C"], &[])));
    assert!(g.add_rule(s("B"), rule(&["D"], &[])));
    assert!(g.add_rule(s("C"), rule(&["D"], &[])));
    assert!(g.add_rule(s("D"), rule(&[], &["//d:f"])));
    let mut h = ChangeHistory::new();
    assert!(h.add_file(s("d/f"), strs(&["c1"])));
    let table = calculate_trigger_scores_map(&s("A"), &h, &g).unwrap();
    assert_eq!(table.get(&s("D")).unwrap().dependents, 3);
    assert_eq!(table.get(&s("B")).unwrap().dependents, 2);
    assert_eq!(table.get(&s("C")).unwrap().dependents, 2);
    assert_eq!(table.get(&s("A")).unwrap().dependents, 1);
    // the memoized set is not double-counted through the second path.
    assert_eq!(table.get(&s("A")).unwrap().rebuilds, 1);
    assert_eq!(table.get(&s("D")).unwrap().score, 1 * 3);
}

#[test]
fn score_is_product_for_every_record() {
    let (g, h) = example();
    let table = calculate_trigger_scores_map(&s("A"), &h, &g).unwrap();
    for name in ["A", "B"] {
        let rec = table.get(&s(name)).unwrap();
        assert_eq!(rec.score, rec.rebuilds * rec.dependents);
    }
}

#[test]
fn external_sources_never_counted() {
    let mut g = DependencyGraph::new();
    assert!(g.add_rule(s("E"), rule(&[], &["@remote//p:f1"])));
    let mut h = ChangeHistory::new();
    // even a history entry under the path an external label would give
    // must stay untouched.
    assert!(h.add_file(s("p/f1"), strs(&["c1", "c2"])));
    let table = calculate_trigger_scores_map(&s("E"), &h, &g).unwrap();
    assert_eq!(table.get(&s("E")).unwrap().rebuilds, 0);
    assert_eq!(calculate_trigger_scores(&s("E"), &h, &g).unwrap(), 0);
}

#[test]
fn wildcard_expands_matching_roots() {
    let mut g = DependencyGraph::new();
    assert!(g.add_rule(s("//p:A"), rule(&["//q:other"], &["//p:fa"])));
    assert!(g.add_rule(s("//p:B"), rule(&["//q:other"], &["//p:fb"])));
    assert!(g.add_rule(s("//q:other"), rule(&[], &["//q:fo"])));
    let mut h = ChangeHistory::new();
    assert!(h.add_file(s("p/fa"), strs(&["c1"])));
    assert!(h.add_file(s("p/fb"), strs(&["c2"])));
    assert!(h.add_file(s("q/fo"), strs(&["c3"])));
    let table = calculate_trigger_scores_map(&s("//p:..."), &h, &g).unwrap();
    // roots are //p:A and //p:B only; //q:other enters as a dependency.
    assert_eq!(table.len(), 3);
    assert_eq!(table.get(&s("//p:A")).unwrap().dependents, 1);
    assert_eq!(table.get(&s("//p:B")).unwrap().dependents, 1);
    // both roots share the run's state: each traversal of the common
    // dependency counts.
    assert_eq!(table.get(&s("//q:other")).unwrap().dependents, 3);
    assert_eq!(table.get(&s("//p:A")).unwrap().rebuilds, 2);
    assert_eq!(table.get(&s("//p:B")).unwrap().rebuilds, 2);
    assert_eq!(table.get(&s("//q:other")).unwrap().rebuilds, 1);
}

#[test]
fn bare_wildcard_marker_is_a_plain_target() {
    let g = DependencyGraph::new();
    let h = ChangeHistory::new();
    let err = calculate_trigger_scores_map(&s("..."), &h, &g).unwrap_err();
    assert!(matches!(err, ScoreError::TargetNotFound(_)));
}

#[test]
fn missing_root_fails() {
    let (g, h) = example();
    let err = calculate_trigger_scores_map(&s("missing"), &h, &g).unwrap_err();
    match err {
        ScoreError::TargetNotFound(l) => assert_eq!(l, s("missing")),
        other => panic!("unexpected error {:?}", other),
    }
}

#[test]
fn missing_dependency_fails() {
    let mut g = DependencyGraph::new();
    assert!(g.add_rule(s("A"), rule(&["ghost"], &[])));
    let h = ChangeHistory::new();
    let err = calculate_trigger_scores_map(&s("A"), &h, &g).unwrap_err();
    match err {
        ScoreError::TargetNotFound(l) => assert_eq!(l, s("ghost")),
        other => panic!("unexpected error {:?}", other),
    }
    let err2 = calculate_trigger_scores(&s("A"), &h, &g).unwrap_err();
    assert!(matches!(err2, ScoreError::TargetNotFound(_)));
}

#[test]
fn cycle_fails_instead_of_recursing() {
    let mut g = DependencyGraph::new();
    assert!(g.add_rule(s("A"), rule(&["B"], &[])));
    assert!(g.add_rule(s("B"), rule(&["A"], &[])));
    let h = ChangeHistory::new();
    let err = calculate_trigger_scores_map(&s("A"), &h, &g).unwrap_err();
    assert!(matches!(err, ScoreError::CycleDetected(_)));
    let err2 = calculate_trigger_scores(&s("A"), &h, &g).unwrap_err();
    assert!(matches!(err2, ScoreError::CycleDetected(_)));
}

#[test]
fn self_cycle_fails() {
    let mut g = DependencyGraph::new();
    assert!(g.add_rule(s("A"), rule(&["A"], &[])));
    let h = ChangeHistory::new();
    let err = calculate_trigger_scores_map(&s("A"), &h, &g).unwrap_err();
    assert!(matches!(err, ScoreError::CycleDetected(_)));
}

#[test]
fn malformed_source_label_fails_loudly() {
    let mut g = DependencyGraph::new();
    assert!(g.add_rule(s("A"), rule(&[], &["no-slashes-no-colon"])));
    let h = ChangeHistory::new();
    let err = calculate_trigger_scores_map(&s("A"), &h, &g).unwrap_err();
    match err {
        ScoreError::MalformedLabel(l) => assert_eq!(l, s("no-slashes-no-colon")),
        other => panic!("unexpected error {:?}", other),
    }
    let err2 = calculate_trigger_scores(&s("A"), &h, &g).unwrap_err();
    assert!(matches!(err2, ScoreError::MalformedLabel(_)));
}

#[test]
fn label_without_repo_prefix_is_malformed() {
    let mut g = DependencyGraph::new();
    assert!(g.add_rule(s("A"), rule(&[], &["p:f"])));
    let h = ChangeHistory::new();
    let err = calculate_trigger_scores_map(&s("A"), &h, &g).unwrap_err();
    assert!(matches!(err, ScoreError::MalformedLabel(_)));
}

#[test]
fn inner_shares_state_and_memoizes() {
    let (g, h) = example();
    let mut cache = CommitCache::new();
    let mut table = ScoreTable::new();
    let first = calculate_trigger_scores_map_inner(&s("A"), &h, &g, &mut cache, &mut table)
        .unwrap();
    assert_eq!(first.len(), 3);
    // a second root hit returns from the memo without another increment.
    let again = calculate_trigger_scores_map_inner(&s("A"), &h, &g, &mut cache, &mut table)
        .unwrap();
    assert_eq!(again.len(), 3);
    assert_eq!(table.get(&s("B")).unwrap().dependents, 2);
    assert_eq!(table.get(&s("A")).unwrap().dependents, 1);
    // scores stay deferred until the map-mode final pass.
    assert_eq!(table.get(&s("A")).unwrap().score, 0);
    assert_eq!(table.get(&s("B")).unwrap().score, 0);
}

#[test]
fn failed_traversal_keeps_memoized_state() {
    let mut g = DependencyGraph::new();
    assert!(g.add_rule(s("Ok1"), rule(&[], &["//p:f1"])));
    assert!(g.add_rule(s("Bad"), rule(&["Bad"], &[])));
    let mut h = ChangeHistory::new();
    assert!(h.add_file(s("p/f1"), strs(&["c1"])));
    let mut cache = CommitCache::new();
    let mut table = ScoreTable::new();
    calculate_trigger_scores_map_inner(&s("Ok1"), &h, &g, &mut cache, &mut table).unwrap();
    // a later root that fails leaves everything already memoized in place.
    let err = calculate_trigger_scores_map_inner(&s("Bad"), &h, &g, &mut cache, &mut table)
        .unwrap_err();
    assert!(matches!(err, ScoreError::CycleDetected(_)));
    let kept = table.get(&s("Ok1")).unwrap();
    assert_eq!(kept.rebuilds, 1);
    assert_eq!(kept.dependents, 1);
    assert_eq!(kept.score, 0);
    assert_eq!(table.len(), 1);
}

#[test]
fn duplicate_changes_count_once() {
    let mut g = DependencyGraph::new();
    assert!(g.add_rule(s("A"), rule(&[], &["//p:f1", "//p:f2"])));
    let mut h = ChangeHistory::new();
    assert!(h.add_file(s("p/f1"), strs(&["c1", "c1", "c2"])));
    assert!(h.add_file(s("p/f2"), strs(&["c2", "c3"])));
    let table = calculate_trigger_scores_map(&s("A"), &h, &g).unwrap();
    assert_eq!(table.get(&s("A")).unwrap().rebuilds, 3);
}

#[test]
fn transitive_source_files_flattens_and_dedups() {
    let mut g = DependencyGraph::new();
    assert!(g.add_rule(s("A"), rule(&["B"], &["//p:shared", "//p:fa"])));
    assert!(g.add_rule(s("B"), rule(&[], &["//p:shared", "//p:fb"])));
    let mut files = g.transitive_source_files(&s("A")).unwrap();
    files.sort();
    assert_eq!(files, strs(&["//p:fa", "//p:fb", "//p:shared"]));
}

#[test]
fn graph_rejects_duplicate_labels() {
    let mut g = DependencyGraph::new();
    assert!(g.add_rule(s("A"), rule(&[], &[])));
    assert!(!g.add_rule(s("A"), rule(&["B"], &[])));
    let mut h = ChangeHistory::new();
    assert!(h.add_file(s("p/f"), strs(&["c1"])));
    assert!(!h.add_file(s("p/f"), strs(&["c2"])));
}
