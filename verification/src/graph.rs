//! The immutable dependency graph and change history, and the graph's
//! transitive-source-files query.

use vstd::prelude::*;

verus! {

use crate::errors::ScoreError;
use crate::model::{
    RuleModel, pairs_to_map, unique_keys, views_of, has_str, no_dup_views, edge_to, path_chain,
    reaches, on_cycle, tsrc, total_changes, lemma_pairs_to_map_dom, lemma_pairs_to_map_index,
    lemma_pairs_to_map_push, lemma_pairs_to_map_finite, lemma_distinct_in_dom, lemma_reaches_refl,
    lemma_reaches_step, lemma_closed_under_reach, lemma_path_member_on_cycle,
};

/// One node of the dependency graph: the labels of the targets it depends
/// on and the source-file labels it declares.
pub struct Rule {
    pub dep_targets: Vec<String>,
    pub source_files: Vec<String>,
}

impl Rule {
    /// The mathematical model of this rule.
    pub open spec fn view_model(self) -> RuleModel {
        RuleModel { deps: views_of(self.dep_targets@), srcs: views_of(self.source_files@) }
    }
}

/// Immutable mapping from target label to rule; keys are unique.
pub struct DependencyGraph {
    rules_by_label: Vec<(String, Rule)>,
}

/// Immutable mapping from repository-relative file path to the change
/// identifiers that touched that file; keys are unique.
pub struct ChangeHistory {
    files: Vec<(String, Vec<String>)>,
}

impl DependencyGraph {
    /// The graph as a sequence of (label, rule-model) entries.
    pub closed spec fn entries(self) -> Seq<(Seq<char>, RuleModel)> {
        self.rules_by_label@.map_values(|p: (String, Rule)| (p.0@, p.1.view_model()))
    }

    /// The graph as a finite map from label to rule model.
    pub open spec fn to_map(self) -> Map<Seq<char>, RuleModel> {
        pairs_to_map(self.entries())
    }

    /// Labels are pairwise distinct.
    pub open spec fn wf(self) -> bool {
        unique_keys(self.entries())
    }

    pub fn new() -> (g: DependencyGraph)
        ensures
            g.wf(),
            g.entries() =~= Seq::<(Seq<char>, RuleModel)>::empty(),
    {
        DependencyGraph { rules_by_label: Vec::new() }
    }

    pub fn len(&self) -> (n: usize)
        ensures
            n == self.entries().len(),
    {
        self.rules_by_label.len()
    }

    pub fn label_at(&self, i: usize) -> (l: &String)
        requires
            i < self.entries().len(),
        ensures
            l@ == self.entries()[i as int].0,
    {
        &self.rules_by_label[i].0
    }

    /// Registers a rule under a fresh label; rejects a duplicate label so
    /// that keys stay unique.
    #[verifier::loop_isolation(false)]
    pub fn add_rule(&mut self, label: String, rule: Rule) -> (added: bool)
        requires
            old(self).wf(),
        ensures
            final(self).wf(),
            added ==> {
                &&& !old(self).to_map().dom().contains(label@)
                &&& final(self).entries() == old(self).entries().push((label@, rule.view_model()))
                &&& final(self).to_map() == old(self).to_map().insert(label@, rule.view_model())
            },
            !added ==> old(self).to_map().dom().contains(label@) && *final(self) == *old(self),
    {
        let n = self.rules_by_label.len();
        let mut i: usize = 0;
        while i < n
            invariant
                0 <= i <= n,
                n == self.entries().len(),
                forall|j: int| 0 <= j < i ==> self.entries()[j].0 != label@,
            decreases n - i,
        {
            if self.rules_by_label[i].0 == label {
                proof {
                    assert(self.entries()[i as int].0 == label@);
                    lemma_pairs_to_map_dom(self.entries());
                }
                return false;
            }
            i = i + 1;
        }
        proof {
            lemma_pairs_to_map_dom(self.entries());
        }
        let ghost olde = self.entries();
        self.rules_by_label.push((label, rule));
        proof {
            assert(self.entries() =~= olde.push((self.rules_by_label@.last().0@, self.rules_by_label@.last().1.view_model())));
            assert forall|x: int, y: int|
                0 <= x < self.entries().len() && 0 <= y < self.entries().len() && x
                    != y implies self.entries()[x].0 != self.entries()[y].0 by {
                if x < olde.len() && y < olde.len() {
                    assert(olde[x].0 != olde[y].0);
                }
            }
            lemma_pairs_to_map_push(olde, self.entries().last().0, self.entries().last().1);
        }
        true
    }

    /// The rule registered under `label`, if any.
    #[verifier::loop_isolation(false)]
    pub fn rule_for(&self, label: &String) -> (r: Option<&Rule>)
        requires
            self.wf(),
        ensures
            match r {
                Option::Some(rl) => {
                    &&& self.to_map().dom().contains(label@)
                    &&& self.to_map()[label@] == rl.view_model()
                },
                Option::None => !self.to_map().dom().contains(label@),
            },
    {
        let n = self.rules_by_label.len();
        let mut i: usize = 0;
        while i < n
            invariant
                0 <= i <= n,
                self.wf(),
                n == self.entries().len(),
                forall|j: int| 0 <= j < i ==> self.entries()[j].0 != label@,
            decreases n - i,
        {
            if self.rules_by_label[i].0 == *label {
                proof {
                    assert(self.entries()[i as int].0 == label@);
                    lemma_pairs_to_map_index(self.entries(), i as int);
                }
                return Some(&self.rules_by_label[i].1);
            }
            i = i + 1;
        }
        proof {
            lemma_pairs_to_map_dom(self.entries());
        }
        None
    }

    /// Flattens the source files of `label` and of everything it
    /// transitively depends on, deduplicated.
    #[verifier::loop_isolation(false)]
    pub fn transitive_source_files(&self, label: &String) -> (r: Result<Vec<String>, ScoreError>)
        requires
            self.wf(),
        ensures
            match r {
                Ok(v) => {
                    &&& no_dup_views(v@)
                    &&& forall|c: Seq<char>| #[trigger] has_str(v@, c) <==> tsrc(self.to_map(), label@, c)
                    &&& forall|x: Seq<char>|
                        #[trigger] reaches(self.to_map(), label@, x) ==> self.to_map().dom().contains(x)
                            && !on_cycle(self.to_map(), x)
                },
                Err(e) => match e {
                    ScoreError::TargetNotFound(l) => reaches(self.to_map(), label@, l@)
                        && !self.to_map().dom().contains(l@),
                    ScoreError::CycleDetected(l) => reaches(self.to_map(), label@, l@)
                        && on_cycle(self.to_map(), l@),
                    ScoreError::MalformedLabel(_) => false,
                },
            },
    {
        let mut visited: Vec<String> = Vec::new();
        let mut out: Vec<String> = Vec::new();
        let path: Vec<String> = Vec::new();
        let res = collect_sources(self, label, &mut visited, &mut out, &path);
        match res {
            Err(e) => Err(e),
            Ok(()) => {
                proof {
                    let gm = self.to_map();
                    assert forall|c: Seq<char>| #[trigger] has_str(out@, c) implies tsrc(
                        gm,
                        label@,
                        c,
                    ) by {
                        let x = choose|x: Seq<char>|
                            has_str(visited@, x) && gm.dom().contains(x) && gm[x].srcs.contains(c);
                        assert(reaches(gm, label@, x));
                    }
                    assert forall|c: Seq<char>| tsrc(gm, label@, c) implies has_str(out@, c) by {
                        let x = choose|x: Seq<char>|
                            reaches(gm, label@, x) && gm.dom().contains(x) && gm[x].srcs.contains(
                                c,
                            );
                        assert(has_str(visited@, x));
                        assert(has_str(visited@, x) && gm.dom().contains(x) && gm[x].srcs.contains(
                            c,
                        ));
                    }
                    assert forall|x: Seq<char>| #[trigger] reaches(gm, label@, x) implies gm.dom().contains(x)
                        && !on_cycle(gm, x) by {
                        assert(has_str(visited@, x));
                        let i = choose|i: int| 0 <= i < visited@.len() && visited@[i]@ == x;
                        assert(gm.dom().contains(visited@[i]@) && !on_cycle(gm, visited@[i]@));
                        assert(visited@[i]@ == x);
                        assert(gm.dom().contains(x));
                        assert(!on_cycle(gm, x));
                    }
                }
                Ok(out)
            },
        }
    }
}

impl ChangeHistory {
    /// The history as a sequence of (path, change identifiers) entries.
    pub closed spec fn entries(self) -> Seq<(Seq<char>, Seq<Seq<char>>)> {
        self.files@.map_values(|p: (String, Vec<String>)| (p.0@, views_of(p.1@)))
    }

    /// The history as a finite map from path to change identifiers.
    pub open spec fn to_map(self) -> Map<Seq<char>, Seq<Seq<char>>> {
        pairs_to_map(self.entries())
    }

    /// Paths are pairwise distinct.
    pub open spec fn wf(self) -> bool {
        unique_keys(self.entries())
    }

    /// Total number of change identifiers listed, over all files.
    pub open spec fn total(self) -> nat {
        total_changes(self.entries())
    }

    pub fn new() -> (h: ChangeHistory)
        ensures
            h.wf(),
            h.entries() =~= Seq::<(Seq<char>, Seq<Seq<char>>)>::empty(),
    {
        ChangeHistory { files: Vec::new() }
    }

    /// Records the change identifiers that touched `path`; rejects a
    /// duplicate path so that keys stay unique.
    #[verifier::loop_isolation(false)]
    pub fn add_file(&mut self, path: String, changes: Vec<String>) -> (added: bool)
        requires
            old(self).wf(),
        ensures
            final(self).wf(),
            added ==> {
                &&& !old(self).to_map().dom().contains(path@)
                &&& final(self).entries() == old(self).entries().push((path@, views_of(changes@)))
                &&& final(self).to_map() == old(self).to_map().insert(path@, views_of(changes@))
            },
            !added ==> old(self).to_map().dom().contains(path@) && *final(self) == *old(self),
    {
        let n = self.files.len();
        let mut i: usize = 0;
        while i < n
            invariant
                0 <= i <= n,
                n == self.entries().len(),
                forall|j: int| 0 <= j < i ==> self.entries()[j].0 != path@,
            decreases n - i,
        {
            if self.files[i].0 == path {
                proof {
                    assert(self.entries()[i as int].0 == path@);
                    lemma_pairs_to_map_dom(self.entries());
                }
                return false;
            }
            i = i + 1;
        }
        proof {
            lemma_pairs_to_map_dom(self.entries());
        }
        let ghost olde = self.entries();
        self.files.push((path, changes));
        proof {
            assert(self.entries() =~= olde.push(
                (self.files@.last().0@, views_of(self.files@.last().1@)),
            ));
            assert forall|x: int, y: int|
                0 <= x < self.entries().len() && 0 <= y < self.entries().len() && x
                    != y implies self.entries()[x].0 != self.entries()[y].0 by {
                if x < olde.len() && y < olde.len() {
                    assert(olde[x].0 != olde[y].0);
                }
            }
            lemma_pairs_to_map_push(olde, self.entries().last().0, self.entries().last().1);
        }
        true
    }

    /// The change identifiers recorded for `path`, if any.
    #[verifier::loop_isolation(false)]
    pub fn history_for(&self, path: &String) -> (r: Option<&Vec<String>>)
        requires
            self.wf(),
        ensures
            match r {
                Option::Some(cs) => {
                    &&& self.to_map().dom().contains(path@)
                    &&& views_of(cs@) == self.to_map()[path@]
                },
                Option::None => !self.to_map().dom().contains(path@),
            },
    {
        let n = self.files.len();
        let mut i: usize = 0;
        while i < n
            invariant
                0 <= i <= n,
                self.wf(),
                n == self.entries().len(),
                forall|j: int| 0 <= j < i ==> self.entries()[j].0 != path@,
            decreases n - i,
        {
            if self.files[i].0 == *path {
                proof {
                    assert(self.entries()[i as int].0 == path@);
                    lemma_pairs_to_map_index(self.entries(), i as int);
                }
                return Some(&self.files[i].1);
            }
            i = i + 1;
        }
        proof {
            lemma_pairs_to_map_dom(self.entries());
        }
        None
    }
}

/// Some string of `v` views to `s@`.
#[verifier::loop_isolation(false)]
    pub fn contains_str(v: &Vec<String>, s: &String) -> (r: bool)
    ensures
        r == has_str(v@, s@),
{
    let n = v.len();
    let mut i: usize = 0;
    while i < n
        invariant
            0 <= i <= n,
            n == v@.len(),
            forall|j: int| 0 <= j < i ==> v@[j]@ != s@,
        decreases n - i,
    {
        if v[i] == *s {
            return true;
        }
        i = i + 1;
    }
    false
}

/// An element-wise copy.
#[verifier::loop_isolation(false)]
    pub fn clone_strings(v: &Vec<String>) -> (r: Vec<String>)
    ensures
        r@ =~= v@,
{
    let n = v.len();
    let mut r: Vec<String> = Vec::new();
    let mut i: usize = 0;
    while i < n
        invariant
            0 <= i <= n,
            n == v@.len(),
            r@ =~= v@.take(i as int),
        decreases n - i,
    {
        r.push(v[i].clone());
        proof {
            assert(r@ =~= v@.take(i + 1int));
        }
        i = i + 1;
    }
    proof {
        assert(v@.take(n as int) =~= v@);
    }
    r
}

/// The visited set and source accumulator of the transitive-sources walk:
/// visited targets exist, lie on no cycle, and are closed under edges; the
/// accumulator holds exactly the sources declared by visited targets.
pub open spec fn visit_inv(
    gm: Map<Seq<char>, RuleModel>,
    vs: Seq<String>,
    os: Seq<String>,
) -> bool {
    &&& no_dup_views(vs)
    &&& no_dup_views(os)
    &&& forall|i: int|
        0 <= i < vs.len() ==> gm.dom().contains(#[trigger] vs[i]@) && !on_cycle(gm, vs[i]@)
    &&& forall|c: Seq<char>, k: int|
        has_str(vs, c) && 0 <= k < gm[c].deps.len() ==> has_str(vs, #[trigger] gm[c].deps[k])
    &&& forall|c: Seq<char>|
        #[trigger] has_str(os, c) <==> exists|x: Seq<char>|
            has_str(vs, x) && gm.dom().contains(x) && gm[x].srcs.contains(c)
}

/// Depth-first walk collecting the transitive source files of `target`
/// into `out`, visiting each target once and failing on a missing target
/// or a dependency cycle.
#[verifier::loop_isolation(false)]
    fn collect_sources(
    g: &DependencyGraph,
    target: &String,
    visited: &mut Vec<String>,
    out: &mut Vec<String>,
    path: &Vec<String>,
) -> (r: Result<(), ScoreError>)
    requires
        g.wf(),
        visit_inv(g.to_map(), old(visited)@, old(out)@),
        no_dup_views(path@),
        forall|i: int| 0 <= i < path@.len() ==> g.to_map().dom().contains(#[trigger] path@[i]@),
        path_chain(g.to_map(), views_of(path@), target@),
        forall|c: Seq<char>| has_str(path@, c) ==> !has_str(old(visited)@, c),
    ensures
        match r {
            Ok(()) => {
                &&& visit_inv(g.to_map(), final(visited)@, final(out)@)
                &&& forall|c: Seq<char>|
                    #[trigger] has_str(final(visited)@, c) <==> has_str(old(visited)@, c)
                        || reaches(g.to_map(), target@, c)
                &&& forall|c: Seq<char>| has_str(path@, c) ==> !has_str(final(visited)@, c)
            },
            Err(e) => match e {
                ScoreError::TargetNotFound(l) => reaches(g.to_map(), target@, l@)
                    && !g.to_map().dom().contains(l@),
                ScoreError::CycleDetected(l) => reaches(g.to_map(), target@, l@) && on_cycle(
                    g.to_map(),
                    l@,
                ),
                ScoreError::MalformedLabel(_) => false,
            },
        },
    decreases g.to_map().dom().len() - path@.len(),
{
    let ghost gm = g.to_map();
    if contains_str(visited, target) {
        proof {
            lemma_reaches_refl(gm, target@);
            let p = Set::new(|x: Seq<char>| has_str(visited@, x));
            assert forall|c: Seq<char>| reaches(gm, target@, c) implies has_str(visited@, c) by {
                lemma_closed_under_reach(gm, p, target@, c);
            }
        }
        return Ok(());
    }
    if contains_str(path, target) {
        proof {
            let i = choose|i: int| 0 <= i < path@.len() && path@[i]@ == target@;
            assert(views_of(path@)[i] == target@);
            lemma_path_member_on_cycle(gm, views_of(path@), target@, i);
            lemma_reaches_refl(gm, target@);
        }
        return Err(ScoreError::CycleDetected(target.clone()));
    }
    let rule = match g.rule_for(target) {
        Some(rl) => rl,
        None => {
            proof {
                lemma_reaches_refl(gm, target@);
            }
            return Err(ScoreError::TargetNotFound(target.clone()));
        },
    };
    let ghost rm = gm[target@];
    let mut path2 = clone_strings(path);
    path2.push(target.clone());
    proof {
        assert(views_of(path2@) =~= views_of(path@).push(target@));
        assert(path2@.len() == path@.len() + 1);
        assert(path2@[path2@.len() - 1]@ == target@);
        assert(has_str(path2@, target@));
        assert forall|c: Seq<char>| has_str(path2@, c) implies !has_str(visited@, c) by {
            let x = choose|x: int| 0 <= x < path2@.len() && path2@[x]@ == c;
            if x < path@.len() {
                assert(path2@[x] == path@[x]);
                assert(has_str(path@, c)) by {
                    assert(path@[x]@ == c);
                }
            } else {
                assert(c == target@);
            }
        }
        assert(no_dup_views(path2@)) by {
            assert forall|x: int, y: int|
                0 <= x < path2@.len() && 0 <= y < path2@.len() && x != y implies path2@[x]@
                != path2@[y]@ by {
                if x < path@.len() && y < path@.len() {
                    assert(path2@[x] == path@[x] && path2@[y] == path@[y]);
                    assert(path@[x]@ != path@[y]@);
                } else if x == path2@.len() - 1 {
                    assert(path2@[y] == path@[y]);
                    if path2@[x]@ == path2@[y]@ {
                        assert(has_str(path@, target@));
                        assert(!has_str(path@, target@));
                    }
                } else {
                    assert(path2@[x] == path@[x]);
                    if path2@[x]@ == path2@[y]@ {
                        assert(has_str(path@, target@));
                        assert(!has_str(path@, target@));
                    }
                }
            }
        }
        assert forall|i: int| 0 <= i < path2@.len() implies gm.dom().contains(
            #[trigger] path2@[i]@,
        ) by {
            if i < path@.len() {
                assert(path2@[i] == path@[i]);
                assert(gm.dom().contains(path@[i]@));
            }
        }
        lemma_pairs_to_map_finite(g.entries());
        lemma_distinct_in_dom(path2@, gm.dom());
    }
    let ghost vs0 = visited@;
    let nd = rule.dep_targets.len();
    let mut k: usize = 0;
    while k < nd
        invariant
            g.wf(),
            gm == g.to_map(),
            rm == gm[target@],
            gm.dom().contains(target@),
            nd == rm.deps.len(),
            0 <= k <= nd,
            rule.view_model() == rm,
            nd == rule.dep_targets@.len(),
            forall|j: int| 0 <= j < nd ==> rule.dep_targets@[j]@ == rm.deps[j],
            visit_inv(gm, visited@, out@),
            views_of(path2@) =~= views_of(path@).push(target@),
            no_dup_views(path2@),
            forall|i: int| 0 <= i < path2@.len() ==> gm.dom().contains(#[trigger] path2@[i]@),
            path2@.len() == path@.len() + 1,
            has_str(path2@, target@),
            forall|c: Seq<char>| has_str(path2@, c) ==> !has_str(visited@, c),
            forall|c: Seq<char>|
                #[trigger] has_str(visited@, c) <==> has_str(vs0, c) || exists|j: int|
                    0 <= j < k && reaches(gm, rm.deps[j], c),
            forall|j: int| 0 <= j < k ==> !reaches(gm, #[trigger] rm.deps[j], target@),
        decreases nd - k,
    {
        let d = &rule.dep_targets[k];
        proof {
            assert(d@ == rm.deps[k as int]);
            assert(path_chain(gm, views_of(path2@), d@)) by {
                let pv2 = views_of(path2@);
                assert(pv2.last() == target@);
                assert(gm[target@].deps.contains(d@)) by {
                    assert(rm.deps[k as int] == d@);
                }
                assert forall|i: int| 0 <= i < pv2.len() - 1 implies edge_to(
                    gm,
                    #[trigger] pv2[i],
                    pv2[i + 1],
                ) by {
                    let pv = views_of(path@);
                    if i < pv.len() - 1 {
                        assert(edge_to(gm, pv[i], pv[i + 1]));
                        assert(pv2[i] == pv[i] && pv2[i + 1] == pv[i + 1]);
                    } else {
                        assert(pv2[i] == pv.last() && pv2[i + 1] == target@);
                        assert(edge_to(gm, pv.last(), target@));
                    }
                }
            }
        }
        let ghost vs_before = visited@;
        let res = collect_sources(g, d, visited, out, &path2);
        match res {
            Err(e) => {
                proof {
                    match &e {
                        ScoreError::TargetNotFound(l) => {
                            lemma_reaches_step(gm, target@, k as int, l@);
                        },
                        ScoreError::CycleDetected(l) => {
                            lemma_reaches_step(gm, target@, k as int, l@);
                        },
                        ScoreError::MalformedLabel(_) => {},
                    }
                }
                return Err(e);
            },
            Ok(()) => {},
        }
        proof {
            assert(!reaches(gm, rm.deps[k as int], target@)) by {
                if reaches(gm, rm.deps[k as int], target@) {
                    assert(has_str(visited@, target@));
                    assert(has_str(path2@, target@));
                    assert(false);
                }
            }
            assert forall|c: Seq<char>| #[trigger] has_str(visited@, c) implies has_str(vs0, c)
                || exists|j: int| 0 <= j < k + 1 && reaches(gm, rm.deps[j], c) by {
                if !has_str(vs0, c) {
                    if has_str(vs_before, c) {
                        let j = choose|j: int| 0 <= j < k && reaches(gm, rm.deps[j], c);
                        assert(0 <= j < k + 1 && reaches(gm, rm.deps[j], c));
                    } else {
                        assert(reaches(gm, rm.deps[k as int], c));
                        assert(0 <= k < k + 1 && reaches(gm, rm.deps[k as int], c));
                    }
                }
            }
            assert forall|c: Seq<char>|
                has_str(vs0, c) || exists|j: int|
                    0 <= j < k + 1 && reaches(gm, rm.deps[j], c) implies #[trigger] has_str(
                visited@,
                c,
            ) by {
                if has_str(vs0, c) {
                    assert(has_str(vs_before, c));
                } else {
                    let j = choose|j: int| 0 <= j < k + 1 && reaches(gm, rm.deps[j], c);
                    if j < k {
                        assert(has_str(vs_before, c));
                    }
                }
            }
        }
        k = k + 1;
    }
    let ns = rule.source_files.len();
    let ghost os0 = out@;
    let mut j: usize = 0;
    while j < ns
        invariant
            gm == g.to_map(),
            rm == gm[target@],
            gm.dom().contains(target@),
            ns == rm.srcs.len(),
            0 <= j <= ns,
            rule.view_model() == rm,
            ns == rule.source_files@.len(),
            forall|i: int| 0 <= i < ns ==> rule.source_files@[i]@ == rm.srcs[i],
            no_dup_views(out@),
            forall|c: Seq<char>|
                #[trigger] has_str(out@, c) <==> has_str(os0, c) || exists|i: int|
                    0 <= i < j && rm.srcs[i] == c,
        decreases ns - j,
    {
        let s = &rule.source_files[j];
        let ghost prev = out@;
        if !contains_str(out, s) {
            out.push(s.clone());
            proof {
                assert(out@.drop_last() =~= prev);
                assert(out@.last()@ == rm.srcs[j as int]);
                assert forall|c: Seq<char>| #[trigger] has_str(out@, c) implies has_str(os0, c)
                    || exists|i: int| 0 <= i < j + 1 && rm.srcs[i] == c by {
                    let x = choose|x: int| 0 <= x < out@.len() && out@[x]@ == c;
                    if x < out@.len() - 1 {
                        assert(has_str(prev, c)) by {
                            assert(prev[x]@ == c);
                        }
                    } else {
                        assert(0 <= j < j + 1 && rm.srcs[j as int] == c);
                    }
                }
                assert forall|c: Seq<char>|
                    has_str(os0, c) || (exists|i: int| 0 <= i < j + 1 && rm.srcs[i] == c) implies
                    #[trigger] has_str(out@, c) by {
                    if has_str(os0, c) || (exists|i: int| 0 <= i < j && rm.srcs[i] == c) {
                        assert(has_str(prev, c));
                        let x = choose|x: int| 0 <= x < prev.len() && prev[x]@ == c;
                        assert(out@[x]@ == c);
                    } else {
                        let i = choose|i: int| 0 <= i < j + 1 && rm.srcs[i] == c;
                        assert(i == j);
                        assert(out@[out@.len() - 1]@ == c);
                    }
                }
                assert(no_dup_views(out@)) by {
                    assert(!has_str(prev, s@));
                    assert forall|x: int, y: int|
                        0 <= x < out@.len() && 0 <= y < out@.len() && x != y implies out@[x]@
                        != out@[y]@ by {
                        if x < out@.len() - 1 && y < out@.len() - 1 {
                            assert(prev[x]@ != prev[y]@);
                        } else if x == out@.len() - 1 {
                            assert(out@[y]@ == prev[y]@);
                            if out@[x]@ == out@[y]@ {
                                assert(has_str(prev, s@));
                            }
                        } else {
                            assert(out@[x]@ == prev[x]@);
                            if out@[x]@ == out@[y]@ {
                                assert(has_str(prev, s@));
                            }
                        }
                    }
                }
            }
        } else {
            proof {
                assert(0 <= j < j + 1 && rm.srcs[j as int] == s@);
            }
        }
        j = j + 1;
    }
    let ghost vs_end = visited@;
    visited.push(target.clone());
    proof {
        assert(visited@.last()@ == target@);
        assert(visited@.drop_last() =~= vs_end);
        // target was never visited during the loop: it sits on path2.
        assert(!has_str(vs_end, target@));
        assert(no_dup_views(visited@)) by {
            assert forall|x: int, y: int|
                0 <= x < visited@.len() && 0 <= y < visited@.len() && x != y implies visited@[x]@
                != visited@[y]@ by {
                if x < visited@.len() - 1 && y < visited@.len() - 1 {
                    assert(vs_end[x]@ != vs_end[y]@);
                } else if x == visited@.len() - 1 {
                    assert(visited@[y]@ == vs_end[y]@);
                    if visited@[x]@ == visited@[y]@ {
                        assert(has_str(vs_end, target@));
                    }
                } else {
                    assert(visited@[x]@ == vs_end[x]@);
                    if visited@[x]@ == visited@[y]@ {
                        assert(has_str(vs_end, target@));
                    }
                }
            }
        }
        assert forall|c: Seq<char>| #[trigger] has_str(visited@, c) implies has_str(vs_end, c) || c
            == target@ by {
            let x = choose|x: int| 0 <= x < visited@.len() && visited@[x]@ == c;
            if x < visited@.len() - 1 {
                assert(vs_end[x]@ == c);
            }
        }
        assert(has_str(visited@, target@)) by {
            assert(visited@[visited@.len() - 1]@ == target@);
        }
        assert forall|c: Seq<char>| has_str(vs_end, c) implies #[trigger] has_str(visited@, c) by {
            let x = choose|x: int| 0 <= x < vs_end.len() && vs_end[x]@ == c;
            assert(visited@[x]@ == c);
        }
        // the fresh target lies on no cycle: none of its dependencies
        // reaches back to it.
        assert(!on_cycle(gm, target@)) by {
            if on_cycle(gm, target@) {
                let kk = choose|kk: int|
                    0 <= kk < gm[target@].deps.len() && reaches(gm, gm[target@].deps[kk], target@);
                assert(!reaches(gm, rm.deps[kk], target@));
            }
        }
        // closure of the enlarged visited set under edges.
        assert forall|c: Seq<char>, k2: int|
            has_str(visited@, c) && 0 <= k2 < gm[c].deps.len() implies has_str(
            visited@,
            #[trigger] gm[c].deps[k2],
        ) by {
            if c == target@ {
                assert(reaches(gm, rm.deps[k2], rm.deps[k2])) by {
                    lemma_reaches_refl(gm, rm.deps[k2]);
                }
                assert(has_str(vs_end, rm.deps[k2]));
            } else {
                assert(has_str(vs_end, c));
                assert(has_str(vs_end, gm[c].deps[k2]));
            }
        }
        // the accumulator now matches the enlarged visited set.
        assert forall|c: Seq<char>| #[trigger] has_str(out@, c) implies exists|x: Seq<char>|
            has_str(visited@, x) && gm.dom().contains(x) && gm[x].srcs.contains(c) by {
            if has_str(os0, c) {
                let x = choose|x: Seq<char>|
                    has_str(vs_end, x) && gm.dom().contains(x) && gm[x].srcs.contains(c);
                assert(has_str(visited@, x) && gm.dom().contains(x) && gm[x].srcs.contains(c));
            } else {
                let i = choose|i: int| 0 <= i < ns && rm.srcs[i] == c;
                assert(rm.srcs.contains(c));
                assert(has_str(visited@, target@) && gm.dom().contains(target@)
                    && gm[target@].srcs.contains(c));
            }
        }
        assert forall|c: Seq<char>|
            (exists|x: Seq<char>| has_str(visited@, x) && gm.dom().contains(x) && gm[x].srcs.contains(c))
            implies #[trigger] has_str(out@, c) by {
            let x = choose|x: Seq<char>|
                has_str(visited@, x) && gm.dom().contains(x) && gm[x].srcs.contains(c);
            if x == target@ {
                let i = choose|i: int| 0 <= i < rm.srcs.len() && rm.srcs[i] == c;
                assert(exists|i2: int| 0 <= i2 < ns && rm.srcs[i2] == c);
            } else {
                assert(has_str(vs_end, x));
                assert(has_str(os0, c));
            }
        }
        // the new visited set is exactly the old one plus what target reaches.
        assert forall|c: Seq<char>| #[trigger] has_str(visited@, c) implies has_str(vs0, c)
            || reaches(gm, target@, c) by {
            if c == target@ {
                lemma_reaches_refl(gm, target@);
            } else if !has_str(vs0, c) {
                let jx = choose|jx: int| 0 <= jx < nd && reaches(gm, rm.deps[jx], c);
                lemma_reaches_step(gm, target@, jx, c);
            }
        }
        assert forall|c: Seq<char>| has_str(vs0, c) || reaches(gm, target@, c) implies #[trigger]
            has_str(visited@, c) by {
            if !has_str(vs0, c) {
                assert(reaches(gm, target@, c));
                if c == target@ {
                } else {
                    let n = choose|n: nat| crate::model::reaches_n(gm, target@, c, n);
                    assert(n > 0);
                    let kx = choose|kx: int|
                        0 <= kx < gm[target@].deps.len() && crate::model::reaches_n(
                            gm,
                            gm[target@].deps[kx],
                            c,
                            (n - 1) as nat,
                        );
                    assert(reaches(gm, rm.deps[kx], c));
                    assert(has_str(vs_end, c));
                }
            }
        }
        // path stays disjoint from the visited set.
        assert forall|c: Seq<char>| has_str(path@, c) implies !has_str(visited@, c) by {
            let x = choose|x: int| 0 <= x < path@.len() && path@[x]@ == c;
            assert(has_str(path2@, c)) by {
                assert(views_of(path2@)[x] == views_of(path@)[x]);
                assert(path2@[x]@ == path@[x]@);
            }
            assert(!has_str(vs_end, c));
            if c == target@ {
                assert(views_of(path2@)[x] == c);
                assert(views_of(path2@)[path2@.len() - 1] == target@);
                assert(path2@[x]@ == path2@[path2@.len() - 1]@);
                assert(x != path2@.len() - 1);
                assert(false);
            }
        }
    }
    Ok(())
}

} // verus!
