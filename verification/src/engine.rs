//! The trigger-score engine: a memoized recursive traversal that, per
//! reachable target, unions the change histories of its transitive source
//! files, counts distinct triggering changes, tallies edge references, and
//! derives `score = rebuilds * dependents`; and a scalar mode returning
//! only the aggregate distinct-change count of one target.

use vstd::prelude::*;

verus! {

use crate::errors::ScoreError;
use crate::graph::{DependencyGraph, ChangeHistory, contains_str, clone_strings};
use crate::labels::{
    resolve_source_file, parse_wildcard, str_starts_with, label_form, LabelForm, is_wildcard,
    wildcard_prefix, is_prefix_of,
};
use crate::model::{
    RuleModel, pairs_to_map, unique_keys, views_of, has_str, no_dup_views, no_dup_chars, str_set,
    edge_to, path_chain, reaches, reaches_n, on_cycle, tsrc, commit_triggers, commits_of,
    rebuilds_of, srcs_wf, occ, refsum, key_occ, total_deps, total_changes, lemma_pairs_to_map_dom,
    lemma_pairs_to_map_index, lemma_pairs_to_map_push, lemma_pairs_to_map_update,
    lemma_pairs_to_map_finite, lemma_distinct_in_dom, lemma_reaches_refl, lemma_reaches_step,
    lemma_closed_under_reach, lemma_path_member_on_cycle, lemma_occ_take,
    lemma_occ_pos, lemma_occ_le_len, lemma_refsum_empty, lemma_refsum_le_total,
    lemma_refsum_insert, lemma_refsum_subset, lemma_refsum_disjoint_union,
    lemma_refsum_zero_when_no_edges, lemma_key_occ_of_entry, lemma_str_set_len,
    lemma_rebuilds_le_total,
};

/// One scored target: how many distinct changes would rebuild it, how many
/// edge traversals referenced it during the run (itself included), and the
/// composite trigger score.
#[derive(Debug, Clone, PartialEq, Eq)]
pub struct Target {
    pub name: String,
    pub rebuilds: usize,
    pub dependents: usize,
    pub score: usize,
}

/// The mathematical model of one score record.
pub ghost struct TargetModel {
    pub name: Seq<char>,
    pub rebuilds: nat,
    pub dependents: nat,
    pub score: nat,
}

impl Target {
    pub open spec fn view_model(self) -> TargetModel {
        TargetModel {
            name: self.name@,
            rebuilds: self.rebuilds as nat,
            dependents: self.dependents as nat,
            score: self.score as nat,
        }
    }
}

/// The memo of one engine run: target label to its resolved set of
/// triggering change identifiers.
#[derive(Debug)]
pub struct CommitCache {
    entries: Vec<(String, Vec<String>)>,
}

impl CommitCache {
    pub closed spec fn entries_view(self) -> Seq<(Seq<char>, Seq<Seq<char>>)> {
        self.entries@.map_values(|p: (String, Vec<String>)| (p.0@, views_of(p.1@)))
    }

    pub open spec fn to_map(self) -> Map<Seq<char>, Seq<Seq<char>>> {
        pairs_to_map(self.entries_view())
    }

    pub open spec fn wf(self) -> bool {
        unique_keys(self.entries_view())
    }

    pub fn new() -> (c: CommitCache)
        ensures
            c.wf(),
            c.entries_view() =~= Seq::<(Seq<char>, Seq<Seq<char>>)>::empty(),
    {
        CommitCache { entries: Vec::new() }
    }

    #[verifier::loop_isolation(false)]
    pub fn get(&self, name: &String) -> (r: Option<&Vec<String>>)
        requires
            self.wf(),
        ensures
            match r {
                Option::Some(v) => {
                    &&& self.to_map().dom().contains(name@)
                    &&& views_of(v@) == self.to_map()[name@]
                },
                Option::None => !self.to_map().dom().contains(name@),
            },
    {
        let n = self.entries.len();
        let mut i: usize = 0;
        while i < n
            invariant
                0 <= i <= n,
                n == self.entries_view().len(),
                forall|j: int| 0 <= j < i ==> self.entries_view()[j].0 != name@,
            decreases n - i,
        {
            if self.entries[i].0 == *name {
                proof {
                    assert(self.entries_view()[i as int].0 == name@);
                    lemma_pairs_to_map_index(self.entries_view(), i as int);
                }
                return Some(&self.entries[i].1);
            }
            i = i + 1;
        }
        proof {
            lemma_pairs_to_map_dom(self.entries_view());
        }
        None
    }

    pub fn insert(&mut self, name: String, commits: Vec<String>)
        requires
            old(self).wf(),
            !old(self).to_map().dom().contains(name@),
        ensures
            final(self).wf(),
            final(self).entries_view() == old(self).entries_view().push(
                (name@, views_of(commits@)),
            ),
            final(self).to_map() == old(self).to_map().insert(name@, views_of(commits@)),
    {
        let ghost olde = self.entries_view();
        proof {
            lemma_pairs_to_map_dom(olde);
        }
        self.entries.push((name, commits));
        proof {
            assert(self.entries_view() =~= olde.push(
                (self.entries@.last().0@, views_of(self.entries@.last().1@)),
            ));
            assert forall|x: int, y: int|
                0 <= x < self.entries_view().len() && 0 <= y < self.entries_view().len() && x
                    != y implies self.entries_view()[x].0 != self.entries_view()[y].0 by {
                if x < olde.len() && y < olde.len() {
                    assert(olde[x].0 != olde[y].0);
                }
            }
            lemma_pairs_to_map_push(olde, self.entries_view().last().0, self.entries_view().last().1);
        }
    }
}

/// The result table of one engine run: target label to score record.
#[derive(Debug)]
pub struct ScoreTable {
    entries: Vec<(String, Target)>,
}

impl ScoreTable {
    pub closed spec fn entries_view(self) -> Seq<(Seq<char>, TargetModel)> {
        self.entries@.map_values(|p: (String, Target)| (p.0@, p.1.view_model()))
    }

    pub open spec fn to_map(self) -> Map<Seq<char>, TargetModel> {
        pairs_to_map(self.entries_view())
    }

    pub open spec fn wf(self) -> bool {
        unique_keys(self.entries_view())
    }

    pub fn new() -> (t: ScoreTable)
        ensures
            t.wf(),
            t.entries_view() =~= Seq::<(Seq<char>, TargetModel)>::empty(),
    {
        ScoreTable { entries: Vec::new() }
    }

    pub fn len(&self) -> (n: usize)
        ensures
            n == self.entries_view().len(),
    {
        self.entries.len()
    }

    /// The stored records, in insertion order.
    pub fn records(&self) -> (r: &Vec<(String, Target)>)
        ensures
            r@.len() == self.entries_view().len(),
            forall|i: int|
                0 <= i < r@.len() ==> (#[trigger] r@[i]).0@ == self.entries_view()[i].0
                    && (r@[i]).1.view_model() == self.entries_view()[i].1,
    {
        &self.entries
    }

    /// The record stored for `name`, if any.
    #[verifier::loop_isolation(false)]
    pub fn get(&self, name: &String) -> (r: Option<&Target>)
        requires
            self.wf(),
        ensures
            match r {
                Option::Some(rec) => {
                    &&& self.to_map().dom().contains(name@)
                    &&& rec.view_model() == self.to_map()[name@]
                },
                Option::None => !self.to_map().dom().contains(name@),
            },
    {
        let n = self.entries.len();
        let mut i: usize = 0;
        while i < n
            invariant
                0 <= i <= n,
                n == self.entries_view().len(),
                forall|j: int| 0 <= j < i ==> self.entries_view()[j].0 != name@,
            decreases n - i,
        {
            if self.entries[i].0 == *name {
                proof {
                    assert(self.entries_view()[i as int].0 == name@);
                    lemma_pairs_to_map_index(self.entries_view(), i as int);
                }
                return Some(&self.entries[i].1);
            }
            i = i + 1;
        }
        proof {
            lemma_pairs_to_map_dom(self.entries_view());
        }
        None
    }

    fn insert(&mut self, name: String, rec: Target)
        requires
            old(self).wf(),
            !old(self).to_map().dom().contains(name@),
        ensures
            final(self).wf(),
            final(self).entries_view() == old(self).entries_view().push((name@, rec.view_model())),
            final(self).to_map() == old(self).to_map().insert(name@, rec.view_model()),
    {
        let ghost olde = self.entries_view();
        proof {
            lemma_pairs_to_map_dom(olde);
        }
        self.entries.push((name, rec));
        proof {
            assert(self.entries_view() =~= olde.push(
                (self.entries@.last().0@, self.entries@.last().1.view_model()),
            ));
            assert forall|x: int, y: int|
                0 <= x < self.entries_view().len() && 0 <= y < self.entries_view().len() && x
                    != y implies self.entries_view()[x].0 != self.entries_view()[y].0 by {
                if x < olde.len() && y < olde.len() {
                    assert(olde[x].0 != olde[y].0);
                }
            }
            lemma_pairs_to_map_push(olde, self.entries_view().last().0, self.entries_view().last().1);
        }
    }

    /// Records one more edge traversal into `name`.
    #[verifier::loop_isolation(false)]
    fn bump_dependents(&mut self, name: &String)
        requires
            old(self).wf(),
            old(self).to_map().dom().contains(name@),
            old(self).to_map()[name@].dependents < usize::MAX,
        ensures
            final(self).wf(),
            final(self).to_map() == old(self).to_map().insert(
                name@,
                (TargetModel {
                    name: old(self).to_map()[name@].name,
                    rebuilds: old(self).to_map()[name@].rebuilds,
                    dependents: (old(self).to_map()[name@].dependents + 1) as nat,
                    score: old(self).to_map()[name@].score,
                }),
            ),
            final(self).entries_view().len() == old(self).entries_view().len(),
            forall|i: int|
                0 <= i < old(self).entries_view().len()
                    ==> (#[trigger] final(self).entries_view()[i]).0
                    == old(self).entries_view()[i].0,
    {
        let ghost olde = self.entries_view();
        proof {
            lemma_pairs_to_map_dom(olde);
        }
        let n = self.entries.len();
        let mut i: usize = 0;
        while i < n
            invariant
                0 <= i <= n,
                self.entries_view() == olde,
                n == self.entries_view().len(),
                forall|j: int| 0 <= j < i ==> self.entries_view()[j].0 != name@,
            decreases n - i,
        {
            if self.entries[i].0 == *name {
                proof {
                    assert(self.entries_view()[i as int].0 == name@);
                    lemma_pairs_to_map_index(self.entries_view(), i as int);
                    assert(self.to_map()[name@] == self.entries_view()[i as int].1);
                    assert(self.entries_view()[i as int].1 == self.entries@[i as int].1.view_model());
                    assert(self.entries@[i as int].1.dependents < usize::MAX);
                }
                let key = self.entries[i].0.clone();
                let nm = self.entries[i].1.name.clone();
                let rb = self.entries[i].1.rebuilds;
                let dp = self.entries[i].1.dependents;
                let sc = self.entries[i].1.score;
                let rec = Target { name: nm, rebuilds: rb, dependents: dp + 1, score: sc };
                self.entries[i] = (key, rec);
                proof {
                    assert(self.entries_view() =~= olde.update(
                        i as int,
                        (olde[i as int].0, rec.view_model()),
                    ));
                    lemma_pairs_to_map_update(olde, i as int, rec.view_model());
                }
                return ;
            }
            i = i + 1;
        }
        proof {
            lemma_pairs_to_map_dom(olde);
            assert(false);
        }
    }
}

/// Pushes each element of `other` not already present, preserving
/// distinctness: the result holds the union of both views.
#[verifier::loop_isolation(false)]
fn extend_unique(acc: &mut Vec<String>, other: &Vec<String>)
    requires
        no_dup_views(old(acc)@),
    ensures
        no_dup_views(final(acc)@),
        forall|c: Seq<char>|
            #[trigger] has_str(final(acc)@, c) <==> has_str(old(acc)@, c) || has_str(other@, c),
{
    let n = other.len();
    let mut i: usize = 0;
    while i < n
        invariant
            0 <= i <= n,
            n == other@.len(),
            no_dup_views(acc@),
            forall|c: Seq<char>|
                #[trigger] has_str(acc@, c) <==> has_str(old(acc)@, c) || exists|j: int|
                    0 <= j < i && other@[j]@ == c,
        decreases n - i,
    {
        let s = &other[i];
        let ghost prev = acc@;
        if !contains_str(acc, s) {
            acc.push(s.clone());
            proof {
                assert(acc@.drop_last() =~= prev);
                assert(acc@.last()@ == other@[i as int]@);
                assert forall|c: Seq<char>| #[trigger] has_str(acc@, c) implies has_str(prev, c)
                    || c == other@[i as int]@ by {
                    let x = choose|x: int| 0 <= x < acc@.len() && acc@[x]@ == c;
                    if x < acc@.len() - 1 {
                        assert(prev[x]@ == c);
                    }
                }
                assert forall|c: Seq<char>| has_str(prev, c) || c == other@[i as int]@ implies
                    #[trigger] has_str(acc@, c) by {
                    if has_str(prev, c) {
                        let x = choose|x: int| 0 <= x < prev.len() && prev[x]@ == c;
                        assert(acc@[x]@ == c);
                    } else {
                        assert(acc@[acc@.len() - 1]@ == c);
                    }
                }
                assert(no_dup_views(acc@)) by {
                    assert(!has_str(prev, s@));
                    assert forall|x: int, y: int|
                        0 <= x < acc@.len() && 0 <= y < acc@.len() && x != y implies acc@[x]@
                        != acc@[y]@ by {
                        if x < acc@.len() - 1 && y < acc@.len() - 1 {
                            assert(prev[x]@ != prev[y]@);
                        } else if x == acc@.len() - 1 {
                            assert(acc@[y]@ == prev[y]@);
                            if acc@[x]@ == acc@[y]@ {
                                assert(has_str(prev, s@));
                            }
                        } else {
                            assert(acc@[x]@ == prev[x]@);
                            if acc@[x]@ == acc@[y]@ {
                                assert(has_str(prev, s@));
                            }
                        }
                    }
                }
            }
        } else {
            proof {
                assert(other@[i as int]@ == s@);
            }
        }
        proof {
            assert forall|c: Seq<char>| #[trigger] has_str(acc@, c) implies has_str(old(acc)@, c)
                || exists|j: int| 0 <= j < i + 1 && other@[j]@ == c by {
                if !has_str(old(acc)@, c) {
                    if has_str(prev, c) {
                        let j = choose|j: int| 0 <= j < i && other@[j]@ == c;
                        assert(0 <= j < i + 1 && other@[j]@ == c);
                    } else {
                        assert(c == other@[i as int]@);
                        assert(0 <= i < i + 1 && other@[i as int]@ == c);
                    }
                }
            }
            assert forall|c: Seq<char>|
                has_str(old(acc)@, c) || (exists|j: int| 0 <= j < i + 1 && other@[j]@ == c) implies
                #[trigger] has_str(acc@, c) by {
                if has_str(old(acc)@, c) || (exists|j: int| 0 <= j < i && other@[j]@ == c) {
                    assert(has_str(prev, c));
                    let x = choose|x: int| 0 <= x < prev.len() && prev[x]@ == c;
                    assert(acc@[x]@ == c);
                } else {
                    let j = choose|j: int| 0 <= j < i + 1 && other@[j]@ == c;
                    assert(j == i);
                    assert(has_str(acc@, other@[i as int]@));
                }
            }
        }
        i = i + 1;
    }
}

/// The shared state of one engine run is coherent: memoized targets exist,
/// lie on no cycle, have well-formed source labels, are closed under
/// edges, and their cached sets hold exactly their triggering changes; the
/// result table covers exactly the memoized targets, with correct names
/// and rebuild counts and every composite score still deferred (zero).
pub open spec fn run_inv(
    gm: Map<Seq<char>, RuleModel>,
    hm: Map<Seq<char>, Seq<Seq<char>>>,
    cache: CommitCache,
    table: ScoreTable,
) -> bool {
    let cm = cache.to_map();
    let tm = table.to_map();
    &&& cache.wf()
    &&& table.wf()
    &&& tm.dom() == cm.dom()
    &&& forall|t: Seq<char>| #[trigger] cm.dom().contains(t) ==> gm.dom().contains(t)
    &&& forall|t: Seq<char>| #[trigger] cm.dom().contains(t) ==> !on_cycle(gm, t)
    &&& forall|t: Seq<char>| #[trigger] cm.dom().contains(t) ==> srcs_wf(gm[t])
    &&& forall|t: Seq<char>, k: int|
        cm.dom().contains(t) && 0 <= k < gm[t].deps.len() ==> cm.dom().contains(
            #[trigger] gm[t].deps[k],
        )
    &&& forall|t: Seq<char>| #[trigger] cm.dom().contains(t) ==> no_dup_chars(cm[t])
    &&& forall|t: Seq<char>, c: Seq<char>|
        cm.dom().contains(t) ==> (#[trigger] cm[t].contains(c) <==> commit_triggers(gm, hm, t, c))
    &&& forall|t: Seq<char>| #[trigger] tm.dom().contains(t) ==> tm[t].name == t
    &&& forall|t: Seq<char>|
        #[trigger] tm.dom().contains(t) ==> tm[t].rebuilds == rebuilds_of(gm, hm, t)
    &&& forall|t: Seq<char>| #[trigger] tm.dom().contains(t) ==> tm[t].dependents >= 1
    &&& forall|t: Seq<char>| #[trigger] tm.dom().contains(t) ==> tm[t].score == 0
}

/// The `dependents` accounting of a traversal step: every record grew by
/// exactly the number of edges into it from newly memoized targets, and a
/// fresh record started at one (itself) plus those edges.
pub open spec fn dependents_delta(
    gs: Seq<(Seq<char>, RuleModel)>,
    tm0: Map<Seq<char>, TargetModel>,
    p0: Set<Seq<char>>,
    tm1: Map<Seq<char>, TargetModel>,
    p1: Set<Seq<char>>,
) -> bool {
    forall|t: Seq<char>|
        #[trigger] tm1.dom().contains(t) ==> tm1[t].dependents as int == (if tm0.dom().contains(t) {
            tm0[t].dependents as int
        } else {
            1
        }) + refsum(gs, p1, t) - refsum(gs, p0, t)
}

/// Every record's `dependents` is bounded by one plus the edges into it
/// from the memoized set and from the in-progress set.
pub open spec fn dependents_bound(
    gs: Seq<(Seq<char>, RuleModel)>,
    tm: Map<Seq<char>, TargetModel>,
    p: Set<Seq<char>>,
    q: Set<Seq<char>>,
) -> bool {
    forall|t: Seq<char>|
        #[trigger] tm.dom().contains(t) ==> tm[t].dependents <= 1 + refsum(gs, p, t) + refsum(
            gs,
            q,
            t,
        )
}

/// One frame of the memoized traversal (map mode): resolves `target`,
/// recursing into its dependencies, unioning triggering changes, counting
/// edge traversals, and memoizing the result.  `path` holds the ancestor
/// chain for cycle detection.
#[verifier::loop_isolation(false)]
fn score_rec(
    target: &String,
    repo: &ChangeHistory,
    deps_graph: &DependencyGraph,
    cache: &mut CommitCache,
    table: &mut ScoreTable,
    path: &Vec<String>,
) -> (r: Result<Vec<String>, ScoreError>)
    requires
        deps_graph.wf(),
        repo.wf(),
        run_inv(deps_graph.to_map(), repo.to_map(), *old(cache), *old(table)),
        no_dup_views(path@),
        forall|i: int|
            0 <= i < path@.len() ==> deps_graph.to_map().dom().contains(#[trigger] path@[i]@),
        path_chain(deps_graph.to_map(), views_of(path@), target@),
        forall|c: Seq<char>| has_str(path@, c) ==> !old(cache).to_map().dom().contains(c),
        total_deps(deps_graph.entries()) < usize::MAX,
        dependents_bound(
            deps_graph.entries(),
            old(table).to_map(),
            old(cache).to_map().dom(),
            str_set(path@),
        ),
    ensures
        match r {
            Ok(v) => {
                &&& run_inv(deps_graph.to_map(), repo.to_map(), *final(cache), *final(table))
                &&& final(cache).to_map().dom() == old(cache).to_map().dom().union(
                    Set::new(|x: Seq<char>| reaches(deps_graph.to_map(), target@, x)),
                )
                &&& forall|c: Seq<char>|
                    has_str(path@, c) ==> !final(cache).to_map().dom().contains(c)
                &&& no_dup_views(v@)
                &&& forall|c: Seq<char>|
                    #[trigger] has_str(v@, c) <==> commit_triggers(
                        deps_graph.to_map(),
                        repo.to_map(),
                        target@,
                        c,
                    )
                &&& dependents_delta(
                    deps_graph.entries(),
                    old(table).to_map(),
                    old(cache).to_map().dom(),
                    final(table).to_map(),
                    final(cache).to_map().dom(),
                )
                &&& final(cache).entries_view().len() >= old(cache).entries_view().len()
                &&& forall|i: int|
                    0 <= i < old(cache).entries_view().len()
                        ==> #[trigger] final(cache).entries_view()[i]
                        == old(cache).entries_view()[i]
                &&& final(table).entries_view().len() >= old(table).entries_view().len()
                &&& forall|i: int|
                    0 <= i < old(table).entries_view().len()
                        ==> (#[trigger] final(table).entries_view()[i]).0
                        == old(table).entries_view()[i].0
            },
            Err(e) => {
                &&& run_inv(deps_graph.to_map(), repo.to_map(), *final(cache), *final(table))
                &&& old(cache).to_map().dom().subset_of(final(cache).to_map().dom())
                &&& final(cache).entries_view().len() >= old(cache).entries_view().len()
                &&& forall|i: int|
                    0 <= i < old(cache).entries_view().len()
                        ==> #[trigger] final(cache).entries_view()[i]
                        == old(cache).entries_view()[i]
                &&& final(table).entries_view().len() >= old(table).entries_view().len()
                &&& forall|i: int|
                    0 <= i < old(table).entries_view().len()
                        ==> (#[trigger] final(table).entries_view()[i]).0
                        == old(table).entries_view()[i].0
                &&& match e {
                    ScoreError::TargetNotFound(l) => reaches(deps_graph.to_map(), target@, l@)
                        && !deps_graph.to_map().dom().contains(l@),
                    ScoreError::MalformedLabel(m) => exists|x: Seq<char>|
                        #[trigger] reaches(deps_graph.to_map(), target@, x)
                            && deps_graph.to_map().dom().contains(x)
                            && deps_graph.to_map()[x].srcs.contains(m@)
                            && label_form(m@) is Malformed,
                    ScoreError::CycleDetected(l) => reaches(deps_graph.to_map(), target@, l@)
                        && on_cycle(deps_graph.to_map(), l@),
                }
            },
        },
    decreases deps_graph.to_map().dom().len() - path@.len(),
{
    let ghost gm = deps_graph.to_map();
    let ghost gs = deps_graph.entries();
    let ghost hm = repo.to_map();
    let ghost p0 = cache.to_map().dom();
    let ghost tm0 = table.to_map();
    let hit = cache.get(target);
    if let Some(cv) = hit {
        let out = clone_strings(cv);
        proof {
            assert forall|x: Seq<char>| reaches(gm, target@, x) implies p0.contains(x) by {
                lemma_closed_under_reach(gm, p0, target@, x);
            }
            assert(p0 =~= p0.union(Set::new(|x: Seq<char>| reaches(gm, target@, x))));
            assert(views_of(out@) =~= views_of(cv@));
            assert(views_of(out@) == cache.to_map()[target@]);
            assert forall|c: Seq<char>| #[trigger] has_str(out@, c) implies commit_triggers(
                gm,
                hm,
                target@,
                c,
            ) by {
                let i = choose|i: int| 0 <= i < out@.len() && out@[i]@ == c;
                assert(views_of(out@)[i] == c);
                assert(cache.to_map()[target@].contains(c));
            }
            assert forall|c: Seq<char>| commit_triggers(gm, hm, target@, c) implies has_str(
                out@,
                c,
            ) by {
                assert(cache.to_map()[target@].contains(c));
                let i = choose|i: int|
                    0 <= i < views_of(out@).len() && views_of(out@)[i] == c;
                assert(out@[i]@ == c);
            }
            assert(no_dup_views(out@)) by {
                assert(no_dup_chars(cache.to_map()[target@]));
                assert forall|i: int, j: int|
                    0 <= i < out@.len() && 0 <= j < out@.len() && i != j implies out@[i]@
                    != out@[j]@ by {
                    assert(views_of(out@)[i] == out@[i]@ && views_of(out@)[j] == out@[j]@);
                }
            }
            assert(refsum(gs, cache.to_map().dom(), target@) == refsum(gs, p0, target@));
        }
        return Ok(out);
    }
    if contains_str(path, target) {
        proof {
            let i = choose|i: int| 0 <= i < path@.len() && path@[i]@ == target@;
            assert(views_of(path@)[i] == target@);
            lemma_path_member_on_cycle(gm, views_of(path@), target@, i);
            lemma_reaches_refl(gm, target@);
        }
        return Err(ScoreError::CycleDetected(target.clone()));
    }
    let rule = match deps_graph.rule_for(target) {
        Some(rl) => rl,
        None => {
            proof {
                lemma_reaches_refl(gm, target@);
            }
            return Err(ScoreError::TargetNotFound(target.clone()));
        },
    };
    let ghost rm = gm[target@];
    let mut path2 = clone_strings(path);
    path2.push(target.clone());
    proof {
        assert(views_of(path2@) =~= views_of(path@).push(target@));
        assert(path2@.len() == path@.len() + 1);
        assert(path2@[path2@.len() - 1]@ == target@);
        assert(has_str(path2@, target@));
        assert forall|c: Seq<char>| has_str(path2@, c) implies has_str(path@, c) || c
            == target@ by {
            let x = choose|x: int| 0 <= x < path2@.len() && path2@[x]@ == c;
            if x < path@.len() {
                assert(path2@[x] == path@[x]);
                assert(path@[x]@ == c);
            }
        }
        assert forall|c: Seq<char>| has_str(path2@, c) implies !cache.to_map().dom().contains(
            c,
        ) by {
            if c != target@ {
                assert(has_str(path@, c));
            }
        }
        assert(no_dup_views(path2@)) by {
            assert forall|x: int, y: int|
                0 <= x < path2@.len() && 0 <= y < path2@.len() && x != y implies path2@[x]@
                != path2@[y]@ by {
                if x < path@.len() && y < path@.len() {
                    assert(path2@[x] == path@[x] && path2@[y] == path@[y]);
                    assert(path@[x]@ != path@[y]@);
                } else if x == path2@.len() - 1 {
                    assert(path2@[y] == path@[y]);
                    if path2@[x]@ == path2@[y]@ {
                        assert(has_str(path@, target@));
                        assert(!has_str(path@, target@));
                    }
                } else {
                    assert(path2@[x] == path@[x]);
                    if path2@[x]@ == path2@[y]@ {
                        assert(has_str(path@, target@));
                        assert(!has_str(path@, target@));
                    }
                }
            }
        }
        assert forall|i: int| 0 <= i < path2@.len() implies gm.dom().contains(
            #[trigger] path2@[i]@,
        ) by {
            if i < path@.len() {
                assert(path2@[i] == path@[i]);
                assert(gm.dom().contains(path@[i]@));
            }
        }
        lemma_pairs_to_map_finite(gs);
        lemma_distinct_in_dom(path2@, gm.dom());
        // the set of in-progress labels grows by target only.
        assert forall|c: Seq<char>| has_str(path@, c) implies has_str(path2@, c) by {
            let x = choose|x: int| 0 <= x < path@.len() && path@[x]@ == c;
            assert(path2@[x]@ == path@[x]@);
        }
        assert(str_set(path2@) =~= str_set(path@).insert(target@));
        assert(!str_set(path@).contains(target@));
    }
    // locate target's own entry, for edge-count bookkeeping.
    let ghost gi = choose|gi: int| 0 <= gi < gs.len() && gs[gi].0 == target@;
    proof {
        lemma_pairs_to_map_dom(gs);
        assert(exists|i: int| 0 <= i < gs.len() && gs[i].0 == target@);
        lemma_pairs_to_map_index(gs, gi);
        assert(gs[gi].1 == rm);
        lemma_key_occ_of_entry(gs, gi, target@);
    }
    let mut acc: Vec<String> = Vec::new();
    let nd = rule.dep_targets.len();
    let mut k: usize = 0;
    proof {
        assert(cache.to_map().dom() =~= p0.union(
            Set::new(
                |x: Seq<char>|
                    exists|j: int| 0 <= j < 0 && reaches(gm, rm.deps[j], x),
            ),
        ));
        assert forall|t: Seq<char>| #[trigger] table.to_map().dom().contains(
            t,
        ) implies table.to_map()[t].dependents as int == (if tm0.dom().contains(t) {
            tm0[t].dependents as int
        } else {
            1
        }) + refsum(gs, cache.to_map().dom(), t) - refsum(gs, p0, t) + occ(
            rm.deps.take(0),
            t,
        ) as int by {
            assert(rm.deps.take(0) =~= Seq::<Seq<char>>::empty());
            assert(occ(rm.deps.take(0), t) == 0);
        }
        assert forall|t: Seq<char>| #[trigger] table.to_map().dom().contains(
            t,
        ) implies table.to_map()[t].dependents <= 1 + refsum(gs, cache.to_map().dom(), t)
            + refsum(gs, str_set(path2@), t) by {
            lemma_refsum_subset(gs, str_set(path@), str_set(path2@), t);
        }
    }
    while k < nd
        invariant
            0 <= k <= nd,
            run_inv(gm, hm, *cache, *table),
            nd == rm.deps.len(),
            rule.view_model() == rm,
            nd == rule.dep_targets@.len(),
            forall|j: int| 0 <= j < nd ==> rule.dep_targets@[j]@ == rm.deps[j],
            gm.dom().contains(target@),
            cache.to_map().dom() == p0.union(
                Set::new(
                    |x: Seq<char>|
                        exists|j: int| 0 <= j < k && reaches(gm, #[trigger] rm.deps[j], x),
                ),
            ),
            forall|c: Seq<char>| has_str(path2@, c) ==> !cache.to_map().dom().contains(c),
            no_dup_views(acc@),
            forall|c: Seq<char>|
                #[trigger] has_str(acc@, c) <==> exists|j: int|
                    0 <= j < k && commit_triggers(gm, hm, #[trigger] rm.deps[j], c),
            forall|j: int| 0 <= j < k ==> !reaches(gm, #[trigger] rm.deps[j], target@),
            cache.entries_view().len() >= old(cache).entries_view().len(),
            forall|i: int|
                0 <= i < old(cache).entries_view().len() ==> #[trigger] cache.entries_view()[i]
                    == old(cache).entries_view()[i],
            table.entries_view().len() >= old(table).entries_view().len(),
            forall|i: int|
                0 <= i < old(table).entries_view().len()
                    ==> (#[trigger] table.entries_view()[i]).0 == old(table).entries_view()[i].0,
            forall|t: Seq<char>|
                #[trigger] table.to_map().dom().contains(t)
                    ==> table.to_map()[t].dependents as int == (if tm0.dom().contains(t) {
                    tm0[t].dependents as int
                } else {
                    1
                }) + refsum(gs, cache.to_map().dom(), t) - refsum(gs, p0, t) + occ(
                    rm.deps.take(k as int),
                    t,
                ) as int,
            dependents_bound(gs, table.to_map(), cache.to_map().dom(), str_set(path2@)),
        decreases nd - k,
    {
        let d = &rule.dep_targets[k];
        let ghost pk = cache.to_map().dom();
        let ghost tmk = table.to_map();
        proof {
            assert(d@ == rm.deps[k as int]);
            assert(path_chain(gm, views_of(path2@), d@)) by {
                let pv2 = views_of(path2@);
                assert(pv2.last() == target@);
                assert(gm[target@].deps.contains(d@)) by {
                    assert(rm.deps[k as int] == d@);
                }
                assert forall|i: int| 0 <= i < pv2.len() - 1 implies edge_to(
                    gm,
                    #[trigger] pv2[i],
                    pv2[i + 1],
                ) by {
                    let pv = views_of(path@);
                    if i < pv.len() - 1 {
                        assert(edge_to(gm, pv[i], pv[i + 1]));
                        assert(pv2[i] == pv[i] && pv2[i + 1] == pv[i + 1]);
                    } else {
                        assert(pv2[i] == pv.last() && pv2[i + 1] == target@);
                        assert(edge_to(gm, pv.last(), target@));
                    }
                }
            }
        }
        let res = score_rec(d, repo, deps_graph, cache, table, &path2);
        let dv = match res {
            Err(e) => {
                proof {
                    match &e {
                        ScoreError::TargetNotFound(l) => {
                            lemma_reaches_step(gm, target@, k as int, l@);
                        },
                        ScoreError::CycleDetected(l) => {
                            lemma_reaches_step(gm, target@, k as int, l@);
                        },
                        ScoreError::MalformedLabel(m) => {
                            let x = choose|x: Seq<char>|
                                #[trigger] reaches(gm, d@, x) && gm.dom().contains(x)
                                    && gm[x].srcs.contains(m@) && label_form(m@) is Malformed;
                            lemma_reaches_step(gm, target@, k as int, x);
                        },
                    }
                }
                return Err(e);
            },
            Ok(v) => v,
        };
        let ghost accb = acc@;
        extend_unique(&mut acc, &dv);
        proof {
            let pk1 = cache.to_map().dom();
            // a dependency that reached back here would sit in the memo,
            // yet target is on the in-progress chain.
            assert(!reaches(gm, rm.deps[k as int], target@)) by {
                if reaches(gm, rm.deps[k as int], target@) {
                    assert(pk1.contains(target@)) by {
                        assert(pk1 == pk.union(
                            Set::new(|x: Seq<char>| reaches(gm, d@, x)),
                        ));
                    }
                    assert(has_str(path2@, target@));
                    assert(!pk1.contains(target@));
                }
            }
            assert forall|j: int| 0 <= j < k + 1 implies !reaches(
                gm,
                #[trigger] rm.deps[j],
                target@,
            ) by {}
            // the memo now covers exactly the first k+1 subtrees.
            assert(cache.to_map().dom() =~= p0.union(
                Set::new(
                    |x: Seq<char>|
                        exists|j: int| 0 <= j < k + 1 && reaches(gm, #[trigger] rm.deps[j], x),
                ),
            )) by {
                assert forall|x: Seq<char>| pk1.contains(x) implies p0.contains(x) || (exists|
                    j: int,
                |
                    0 <= j < k + 1 && reaches(gm, #[trigger] rm.deps[j], x)) by {
                    if pk.contains(x) {
                        if !p0.contains(x) {
                            let j = choose|j: int|
                                0 <= j < k && reaches(gm, #[trigger] rm.deps[j], x);
                            assert(0 <= j < k + 1 && reaches(gm, rm.deps[j], x));
                        }
                    } else {
                        assert(reaches(gm, d@, x));
                        assert(0 <= k < k + 1 && reaches(gm, rm.deps[k as int], x));
                    }
                }
                assert forall|x: Seq<char>|
                    p0.contains(x) || (exists|j: int|
                        0 <= j < k + 1 && reaches(gm, #[trigger] rm.deps[j], x)) implies pk1.contains(
                    x,
                ) by {
                    if p0.contains(x) {
                        assert(pk.contains(x));
                    } else {
                        let j = choose|j: int|
                            0 <= j < k + 1 && reaches(gm, #[trigger] rm.deps[j], x);
                        if j < k {
                            assert(pk.contains(x));
                        } else {
                            assert(reaches(gm, d@, x));
                        }
                    }
                }
            }
            // the accumulator covers exactly the first k+1 subtrees.
            assert forall|c: Seq<char>| #[trigger] has_str(acc@, c) implies exists|j: int|
                0 <= j < k + 1 && commit_triggers(gm, hm, #[trigger] rm.deps[j], c) by {
                if has_str(accb, c) {
                    let j = choose|j: int|
                        0 <= j < k && commit_triggers(gm, hm, #[trigger] rm.deps[j], c);
                    assert(0 <= j < k + 1 && commit_triggers(gm, hm, rm.deps[j], c));
                } else {
                    assert(has_str(dv@, c));
                    assert(commit_triggers(gm, hm, d@, c));
                    assert(0 <= k < k + 1 && commit_triggers(gm, hm, rm.deps[k as int], c));
                }
            }
            assert forall|c: Seq<char>|
                (exists|j: int| 0 <= j < k + 1 && commit_triggers(gm, hm, #[trigger] rm.deps[j], c))
                implies #[trigger] has_str(acc@, c) by {
                let j = choose|j: int|
                    0 <= j < k + 1 && commit_triggers(gm, hm, #[trigger] rm.deps[j], c);
                if j < k {
                    assert(has_str(accb, c));
                } else {
                    assert(commit_triggers(gm, hm, d@, c));
                    assert(has_str(dv@, c));
                }
            }
            // dependents bookkeeping after the child: fold its delta into
            // the running formula.
            assert forall|t: Seq<char>| #[trigger] table.to_map().dom().contains(
                t,
            ) implies table.to_map()[t].dependents as int == (if tm0.dom().contains(t) {
                tm0[t].dependents as int
            } else {
                1
            }) + refsum(gs, pk1, t) - refsum(gs, p0, t) + occ(rm.deps.take(k as int), t) as int by {
                lemma_refsum_subset(gs, p0, pk, t);
                lemma_refsum_subset(gs, pk, pk1, t);
                if tmk.dom().contains(t) {
                    assert(table.to_map()[t].dependents as int == tmk[t].dependents as int
                        + refsum(gs, pk1, t) - refsum(gs, pk, t));
                } else {
                    // t was first recorded inside the k-th subtree: no
                    // processed rule or earlier sibling had an edge into it.
                    assert(table.to_map()[t].dependents as int == 1 + refsum(gs, pk1, t) - refsum(
                        gs,
                        pk,
                        t,
                    ));
                    assert(!tm0.dom().contains(t)) by {
                        if tm0.dom().contains(t) {
                            assert(tmk.dom().contains(t));
                        }
                    }
                    assert(!pk.contains(t));
                    assert(refsum(gs, pk, t) == 0) by {
                        assert forall|i: int|
                            0 <= i < gs.len() && pk.contains(#[trigger] gs[i].0) implies occ(
                            gs[i].1.deps,
                            t,
                        ) == 0 by {
                            lemma_occ_pos(gs[i].1.deps, t);
                            if occ(gs[i].1.deps, t) > 0 {
                                lemma_pairs_to_map_index(gs, i);
                                let kk = choose|kk: int|
                                    0 <= kk < gs[i].1.deps.len() && gs[i].1.deps[kk] == t;
                                assert(gm[gs[i].0].deps[kk] == t);
                                assert(pk.contains(t));
                            }
                        }
                        lemma_refsum_zero_when_no_edges(gs, pk, t);
                    }
                    assert(refsum(gs, p0, t) == 0) by {
                        lemma_refsum_subset(gs, p0, pk, t);
                    }
                    assert(occ(rm.deps.take(k as int), t) == 0) by {
                        lemma_occ_pos(rm.deps.take(k as int), t);
                        if occ(rm.deps.take(k as int), t) > 0 {
                            let jj = choose|jj: int|
                                0 <= jj < rm.deps.take(k as int).len() && rm.deps.take(
                                    k as int,
                                )[jj] == t;
                            assert(rm.deps[jj] == t);
                            lemma_reaches_refl(gm, t);
                            assert(reaches(gm, rm.deps[jj], t));
                            assert(pk.contains(t));
                        }
                    }
                }
            }
        }
        // one more traversal of the edge into d: bump its record.
        proof {
            let pk1 = cache.to_map().dom();
            assert(pk1.contains(d@)) by {
                lemma_reaches_refl(gm, d@);
                assert(reaches(gm, rm.deps[k as int], d@));
            }
            assert(table.to_map().dom().contains(d@));
            // room for the increment: the count stays within the total
            // number of edges of the graph.
            assert(table.to_map()[d@].dependents < usize::MAX) by {
                let t = d@;
                let base: int = if tm0.dom().contains(t) {
                    tm0[t].dependents as int
                } else {
                    1
                };
                assert(base <= 1 + refsum(gs, p0, t) + refsum(gs, str_set(path@), t));
                assert(table.to_map()[t].dependents as int == base + refsum(gs, pk1, t) - refsum(
                    gs,
                    p0,
                    t,
                ) + occ(rm.deps.take(k as int), t) as int);
                lemma_occ_take(rm.deps, t, k as int);
                lemma_occ_le_len(rm.deps, t);
                lemma_refsum_insert(gs, str_set(path@), target@, t);
                assert(refsum(gs, str_set(path2@), t) == refsum(gs, str_set(path@), t) + key_occ(
                    gs,
                    target@,
                    t,
                ));
                lemma_key_occ_of_entry(gs, gi, t);
                assert(key_occ(gs, target@, t) == occ(rm.deps, t));
                assert(occ(rm.deps.take(k as int), t) + 1 <= occ(rm.deps, t)) by {
                    lemma_occ_take(rm.deps, t, k as int);
                    assert(rm.deps[k as int] == t);
                    lemma_occ_take(rm.deps, t, k as int + 1);
                }
                assert(table.to_map()[t].dependents as int + 1 <= 1 + refsum(gs, pk1, t) + refsum(
                    gs,
                    str_set(path2@),
                    t,
                ));
                assert(pk1.disjoint(str_set(path2@))) by {
                    assert forall|c: Seq<char>| pk1.contains(c) implies !str_set(
                        path2@,
                    ).contains(c) by {
                        if str_set(path2@).contains(c) {
                            assert(has_str(path2@, c));
                            assert(!pk1.contains(c));
                        }
                    }
                }
                lemma_refsum_disjoint_union(gs, pk1, str_set(path2@), t);
                lemma_refsum_le_total(gs, pk1.union(str_set(path2@)), t);
                assert(table.to_map()[t].dependents as int + 1 <= 1 + total_deps(gs));
            }
        }
        let ghost tmb = table.to_map();
        table.bump_dependents(d);
        proof {
            let pk1 = cache.to_map().dom();
            // restore the running formula with one more dependency folded in.
            assert forall|t: Seq<char>| #[trigger] table.to_map().dom().contains(
                t,
            ) implies table.to_map()[t].dependents as int == (if tm0.dom().contains(t) {
                tm0[t].dependents as int
            } else {
                1
            }) + refsum(gs, pk1, t) - refsum(gs, p0, t) + occ(
                rm.deps.take(k as int + 1),
                t,
            ) as int by {
                lemma_occ_take(rm.deps, t, k as int);
                assert(table.to_map().dom() =~= tmb.dom());
                if t == d@ {
                    assert(table.to_map()[t].dependents as int == tmb[t].dependents as int + 1);
                    assert(rm.deps[k as int] == t);
                } else {
                    assert(table.to_map()[t] == tmb[t]);
                    assert(rm.deps[k as int] != t);
                }
            }
            // and the bound.
            assert forall|t: Seq<char>| #[trigger] table.to_map().dom().contains(
                t,
            ) implies table.to_map()[t].dependents <= 1 + refsum(gs, pk1, t) + refsum(
                gs,
                str_set(path2@),
                t,
            ) by {
                let base: int = if tm0.dom().contains(t) {
                    tm0[t].dependents as int
                } else {
                    1
                };
                assert(base <= 1 + refsum(gs, p0, t) + refsum(gs, str_set(path@), t));
                lemma_occ_take(rm.deps, t, k as int + 1);
                lemma_refsum_insert(gs, str_set(path@), target@, t);
                lemma_key_occ_of_entry(gs, gi, t);
                assert(occ(rm.deps.take(k as int + 1), t) <= occ(rm.deps, t));
                assert(refsum(gs, str_set(path2@), t) == refsum(gs, str_set(path@), t) + occ(
                    rm.deps,
                    t,
                ));
            }
            // run_inv is untouched by the bump except for the one count.
            assert(run_inv(gm, hm, *cache, *table)) by {
                assert(table.to_map().dom() =~= tmb.dom());
                assert forall|t: Seq<char>| #[trigger] table.to_map().dom().contains(
                    t,
                ) implies table.to_map()[t].name == t && table.to_map()[t].rebuilds == rebuilds_of(
                    gm,
                    hm,
                    t,
                ) && table.to_map()[t].dependents >= 1 by {
                    if t != d@ {
                        assert(table.to_map()[t] == tmb[t]);
                    }
                }
            }
        }
        k = k + 1;
    }
    // own source files: resolve each and union its history.
    let ns = rule.source_files.len();
    let mut j: usize = 0;
    while j < ns
        invariant
            0 <= j <= ns,
            ns == rm.srcs.len(),
            rule.view_model() == rm,
            ns == rule.source_files@.len(),
            forall|i: int| 0 <= i < ns ==> rule.source_files@[i]@ == rm.srcs[i],
            gm.dom().contains(target@),
            no_dup_views(acc@),
            forall|c: Seq<char>|
                #[trigger] has_str(acc@, c) <==> (exists|jj: int|
                    0 <= jj < nd && commit_triggers(gm, hm, #[trigger] rm.deps[jj], c)) || (exists|
                    i: int,
                |
                    0 <= i < j && (match label_form(#[trigger] rm.srcs[i]) {
                        LabelForm::Local(p) => hm.dom().contains(p) && hm[p].contains(c),
                        _ => false,
                    })),
            forall|i: int| 0 <= i < j ==> !(label_form(#[trigger] rm.srcs[i]) is Malformed),
        decreases ns - j,
    {
        let s = &rule.source_files[j];
        proof {
            assert(s@ == rm.srcs[j as int]);
        }
        let resv = resolve_source_file(s);
        let ghost accb = acc@;
        match resv {
            Err(e) => {
                proof {
                    lemma_reaches_refl(gm, target@);
                    assert(rm.srcs[j as int] == s@);
                    assert(gm[target@].srcs.contains(s@));
                    if let ScoreError::MalformedLabel(m) = &e {
                        assert(m@ == s@);
                        assert(reaches(gm, target@, target@) && gm.dom().contains(target@)
                            && gm[target@].srcs.contains(m@) && label_form(m@) is Malformed);
                    }
                }
                return Err(e);
            },
            Ok(None) => {
                proof {
                    assert forall|c: Seq<char>| #[trigger] has_str(acc@, c) implies (exists|
                        jj: int,
                    |
                        0 <= jj < nd && commit_triggers(gm, hm, #[trigger] rm.deps[jj], c)) || (
                    exists|i: int|
                        0 <= i < j + 1 && (match label_form(#[trigger] rm.srcs[i]) {
                            LabelForm::Local(p) => hm.dom().contains(p) && hm[p].contains(c),
                            _ => false,
                        })) by {}
                }
            },
            Ok(Some(p)) => {
                let hist = repo.history_for(&p);
                match hist {
                    None => {
                        proof {
                            assert(label_form(s@) matches LabelForm::Local(q) && p@ == q);
                        }
                    },
                    Some(cs) => {
                        extend_unique(&mut acc, cs);
                        proof {
                            assert(views_of(cs@) == hm[p@]);
                            assert forall|c: Seq<char>| #[trigger] has_str(cs@, c) implies
                                hm[p@].contains(c) by {
                                let x = choose|x: int| 0 <= x < cs@.len() && cs@[x]@ == c;
                                assert(views_of(cs@)[x] == c);
                            }
                            assert forall|c: Seq<char>| hm[p@].contains(c) implies has_str(
                                cs@,
                                c,
                            ) by {
                                let x = choose|x: int|
                                    0 <= x < views_of(cs@).len() && views_of(cs@)[x] == c;
                                assert(cs@[x]@ == c);
                            }
                        }
                    },
                }
            },
        }
        proof {
            assert forall|c: Seq<char>| #[trigger] has_str(acc@, c) implies (exists|jj: int|
                0 <= jj < nd && commit_triggers(gm, hm, #[trigger] rm.deps[jj], c)) || (exists|
                i: int,
            |
                0 <= i < j + 1 && (match label_form(#[trigger] rm.srcs[i]) {
                    LabelForm::Local(p) => hm.dom().contains(p) && hm[p].contains(c),
                    _ => false,
                })) by {
                if has_str(accb, c) {
                    if !(exists|jj: int|
                        0 <= jj < nd && commit_triggers(gm, hm, #[trigger] rm.deps[jj], c)) {
                        let i = choose|i: int|
                            0 <= i < j && (match label_form(#[trigger] rm.srcs[i]) {
                                LabelForm::Local(p) => hm.dom().contains(p) && hm[p].contains(c),
                                _ => false,
                            });
                        assert(0 <= i < j + 1 && (match label_form(rm.srcs[i]) {
                            LabelForm::Local(p) => hm.dom().contains(p) && hm[p].contains(c),
                            _ => false,
                        }));
                    }
                }
            }
            assert forall|c: Seq<char>|
                ((exists|jj: int|
                    0 <= jj < nd && commit_triggers(gm, hm, #[trigger] rm.deps[jj], c)) || (exists|
                    i: int,
                |
                    0 <= i < j + 1 && (match label_form(#[trigger] rm.srcs[i]) {
                        LabelForm::Local(p) => hm.dom().contains(p) && hm[p].contains(c),
                        _ => false,
                    }))) implies #[trigger] has_str(acc@, c) by {
                if (exists|jj: int|
                    0 <= jj < nd && commit_triggers(gm, hm, #[trigger] rm.deps[jj], c)) || (exists|
                    i: int,
                |
                    0 <= i < j && (match label_form(#[trigger] rm.srcs[i]) {
                        LabelForm::Local(p) => hm.dom().contains(p) && hm[p].contains(c),
                        _ => false,
                    })) {
                    assert(has_str(accb, c));
                    assert(has_str(acc@, c));
                } else {
                    let i = choose|i: int|
                        0 <= i < j + 1 && (match label_form(#[trigger] rm.srcs[i]) {
                            LabelForm::Local(p) => hm.dom().contains(p) && hm[p].contains(c),
                            _ => false,
                        });
                    assert(i == j);
                }
            }
        }
        j = j + 1;
    }
    let rb = acc.len();
    let acc2 = clone_strings(&acc);
    let rec = Target { name: target.clone(), rebuilds: rb, dependents: 1, score: 0 };
    let ghost pend = cache.to_map().dom();
    let ghost tmend = table.to_map();
    proof {
        assert(!pend.contains(target@)) by {
            assert(has_str(path2@, target@));
        }
        assert(!table.to_map().dom().contains(target@));
    }
    table.insert(target.clone(), rec);
    cache.insert(target.clone(), acc2);
    proof {
        let p1 = cache.to_map().dom();
        let tm1 = table.to_map();
        assert(p1 =~= pend.insert(target@));
        assert(tm1.dom() =~= tmend.dom().insert(target@));
        // the accumulator holds exactly target's triggering changes.
        assert forall|c: Seq<char>| #[trigger] has_str(acc@, c) implies commit_triggers(
            gm,
            hm,
            target@,
            c,
        ) by {
            if exists|jj: int|
                0 <= jj < nd && commit_triggers(gm, hm, #[trigger] rm.deps[jj], c) {
                let jj = choose|jj: int|
                    0 <= jj < nd && commit_triggers(gm, hm, #[trigger] rm.deps[jj], c);
                let s = choose|s: Seq<char>|
                    #[trigger] tsrc(gm, rm.deps[jj], s) && match label_form(s) {
                        LabelForm::Local(p) => hm.dom().contains(p) && hm[p].contains(c),
                        _ => false,
                    };
                let x = choose|x: Seq<char>|
                    reaches(gm, rm.deps[jj], x) && gm.dom().contains(x) && gm[x].srcs.contains(s);
                lemma_reaches_step(gm, target@, jj, x);
                assert(tsrc(gm, target@, s));
            } else {
                let i = choose|i: int|
                    0 <= i < ns && (match label_form(#[trigger] rm.srcs[i]) {
                        LabelForm::Local(p) => hm.dom().contains(p) && hm[p].contains(c),
                        _ => false,
                    });
                lemma_reaches_refl(gm, target@);
                assert(gm[target@].srcs.contains(rm.srcs[i]));
                assert(tsrc(gm, target@, rm.srcs[i]));
            }
        }
        assert forall|c: Seq<char>| commit_triggers(gm, hm, target@, c) implies has_str(
            acc@,
            c,
        ) by {
            let s = choose|s: Seq<char>|
                #[trigger] tsrc(gm, target@, s) && match label_form(s) {
                    LabelForm::Local(p) => hm.dom().contains(p) && hm[p].contains(c),
                    _ => false,
                };
            let x = choose|x: Seq<char>|
                reaches(gm, target@, x) && gm.dom().contains(x) && gm[x].srcs.contains(s);
            if x == target@ {
                let i = choose|i: int| 0 <= i < rm.srcs.len() && rm.srcs[i] == s;
                assert(0 <= i < ns && (match label_form(rm.srcs[i]) {
                    LabelForm::Local(p) => hm.dom().contains(p) && hm[p].contains(c),
                    _ => false,
                }));
            } else {
                let n = choose|n: nat| reaches_n(gm, target@, x, n);
                assert(n > 0);
                let kk = choose|kk: int|
                    0 <= kk < gm[target@].deps.len() && reaches_n(
                        gm,
                        gm[target@].deps[kk],
                        x,
                        (n - 1) as nat,
                    );
                assert(reaches(gm, rm.deps[kk], x));
                assert(tsrc(gm, rm.deps[kk], s));
                assert(commit_triggers(gm, hm, rm.deps[kk], c));
                assert(0 <= kk < nd && commit_triggers(gm, hm, rm.deps[kk], c));
            }
        }
        // rebuild count: the accumulator is duplicate-free.
        lemma_str_set_len(acc@);
        assert(commits_of(gm, hm, target@) =~= str_set(acc@));
        assert(rebuilds_of(gm, hm, target@) == rb as nat);
        // target lies on no cycle.
        assert(!on_cycle(gm, target@)) by {
            if on_cycle(gm, target@) {
                let kk = choose|kk: int|
                    0 <= kk < gm[target@].deps.len() && reaches(gm, gm[target@].deps[kk], target@);
                assert(!reaches(gm, rm.deps[kk], target@));
            }
        }
        // target's source labels all parse.
        assert(srcs_wf(gm[target@]));
        // the memo now covers the whole subtree of target.
        assert(p1 =~= p0.union(Set::new(|x: Seq<char>| reaches(gm, target@, x)))) by {
            assert forall|x: Seq<char>| p1.contains(x) implies p0.contains(x) || reaches(
                gm,
                target@,
                x,
            ) by {
                if x == target@ {
                    lemma_reaches_refl(gm, target@);
                } else if !p0.contains(x) {
                    assert(pend.contains(x));
                    let jx = choose|jx: int| 0 <= jx < nd && reaches(gm, #[trigger] rm.deps[jx], x);
                    lemma_reaches_step(gm, target@, jx, x);
                }
            }
            assert forall|x: Seq<char>| p0.contains(x) || reaches(gm, target@, x) implies p1.contains(
                x,
            ) by {
                if !p0.contains(x) {
                    assert(reaches(gm, target@, x));
                    if x != target@ {
                        let n = choose|n: nat| reaches_n(gm, target@, x, n);
                        assert(n > 0);
                        let kx = choose|kx: int|
                            0 <= kx < gm[target@].deps.len() && reaches_n(
                                gm,
                                gm[target@].deps[kx],
                                x,
                                (n - 1) as nat,
                            );
                        assert(reaches(gm, rm.deps[kx], x));
                        assert(pend.contains(x));
                    }
                }
            }
        }
        // the in-progress chain stays outside the memo.
        assert forall|c: Seq<char>| has_str(path@, c) implies !p1.contains(c) by {
            let x = choose|x: int| 0 <= x < path@.len() && path@[x]@ == c;
            assert(has_str(path2@, c)) by {
                assert(path2@[x]@ == path@[x]@);
            }
            assert(!pend.contains(c));
            if c == target@ {
                assert(path2@[x]@ == path2@[path2@.len() - 1]@);
                assert(x != path2@.len() - 1);
                assert(false);
            }
        }
        // run_inv for the enlarged state.
        assert(run_inv(gm, hm, *cache, *table)) by {
            assert(tm1.dom() == p1) by {
                assert(tm1.dom() =~= p1);
            }
            assert forall|t: Seq<char>| #[trigger] p1.contains(t) implies gm.dom().contains(t)
                && !on_cycle(gm, t) && srcs_wf(gm[t]) && no_dup_chars(cache.to_map()[t]) by {
                if t != target@ {
                    assert(pend.contains(t));
                } else {
                    assert(cache.to_map()[t] == views_of(acc2@));
                    assert forall|ii: int, jj: int|
                        0 <= ii < views_of(acc2@).len() && 0 <= jj < views_of(acc2@).len() && ii
                            != jj implies views_of(acc2@)[ii] != views_of(acc2@)[jj] by {
                        assert(acc2@[ii]@ == acc@[ii]@ && acc2@[jj]@ == acc@[jj]@);
                        assert(acc@[ii]@ != acc@[jj]@);
                    }
                }
            }
            assert forall|t: Seq<char>, kk: int|
                p1.contains(t) && 0 <= kk < gm[t].deps.len() implies p1.contains(
                #[trigger] gm[t].deps[kk],
            ) by {
                if t == target@ {
                    lemma_reaches_refl(gm, rm.deps[kk]);
                    assert(reaches(gm, rm.deps[kk], rm.deps[kk]));
                    assert(pend.contains(rm.deps[kk]));
                } else {
                    assert(pend.contains(t));
                    assert(pend.contains(gm[t].deps[kk]));
                }
            }
            assert forall|t: Seq<char>, c: Seq<char>|
                p1.contains(t) implies (#[trigger] cache.to_map()[t].contains(c)
                <==> commit_triggers(gm, hm, t, c)) by {
                if t == target@ {
                    assert(cache.to_map()[t] == views_of(acc2@));
                    if cache.to_map()[t].contains(c) {
                        let ii = choose|ii: int|
                            0 <= ii < views_of(acc2@).len() && views_of(acc2@)[ii] == c;
                        assert(acc@[ii]@ == c);
                        assert(has_str(acc@, c));
                    }
                    if commit_triggers(gm, hm, t, c) {
                        assert(has_str(acc@, c));
                        let ii = choose|ii: int| 0 <= ii < acc@.len() && acc@[ii]@ == c;
                        assert(views_of(acc2@)[ii] == c);
                    }
                }
            }
            assert forall|t: Seq<char>| #[trigger] tm1.dom().contains(t) implies tm1[t].name == t
                && tm1[t].rebuilds == rebuilds_of(gm, hm, t) && tm1[t].dependents >= 1 by {
                if t != target@ {
                    assert(tm1[t] == tmend[t]);
                }
            }
        }
        // final dependents accounting.
        assert forall|t: Seq<char>| #[trigger] tm1.dom().contains(
            t,
        ) implies tm1[t].dependents as int == (if tm0.dom().contains(t) {
            tm0[t].dependents as int
        } else {
            1
        }) + refsum(gs, p1, t) - refsum(gs, p0, t) by {
            lemma_refsum_insert(gs, pend, target@, t);
            lemma_key_occ_of_entry(gs, gi, t);
            assert(refsum(gs, p1, t) == refsum(gs, pend.insert(target@), t)) by {
                assert(p1 =~= pend.insert(target@));
            }
            assert(refsum(gs, p1, t) == refsum(gs, pend, t) + occ(rm.deps, t));
            if t == target@ {
                assert(tm1[t].dependents == 1);
                assert(!tm0.dom().contains(t));
                // nothing memoized in this run has an edge back into target.
                assert(refsum(gs, p1, t) == refsum(gs, p0, t)) by {
                    let dd = Set::new(|x: Seq<char>| p1.contains(x) && !p0.contains(x));
                    assert(p1 =~= p0.union(dd));
                    assert(p0.disjoint(dd));
                    lemma_refsum_disjoint_union(gs, p0, dd, t);
                    assert(refsum(gs, dd, t) == 0) by {
                        assert forall|i: int|
                            0 <= i < gs.len() && dd.contains(#[trigger] gs[i].0) implies occ(
                            gs[i].1.deps,
                            t,
                        ) == 0 by {
                            lemma_occ_pos(gs[i].1.deps, t);
                            if occ(gs[i].1.deps, t) > 0 {
                                let x = gs[i].0;
                                lemma_pairs_to_map_index(gs, i);
                                let kk = choose|kk: int|
                                    0 <= kk < gs[i].1.deps.len() && gs[i].1.deps[kk] == t;
                                assert(gm[x].deps[kk] == target@);
                                assert(reaches(gm, target@, x));
                                assert(on_cycle(gm, x));
                                assert(p1.contains(x));
                                assert(!on_cycle(gm, x));
                            }
                        }
                        lemma_refsum_zero_when_no_edges(gs, dd, t);
                    }
                }
            } else {
                assert(tm1[t] == tmend[t]);
                assert(tmend[t].dependents as int == (if tm0.dom().contains(t) {
                    tm0[t].dependents as int
                } else {
                    1
                }) + refsum(gs, pend, t) - refsum(gs, p0, t) + occ(
                    rm.deps.take(nd as int),
                    t,
                ) as int);
                assert(rm.deps.take(nd as int) =~= rm.deps);
            }
        }
        assert(no_dup_views(acc@));
    }
    Ok(acc)
}

/// The roots that a target string denotes: all graph keys sharing the
/// prefix when it carries the trailing wildcard marker, else the string
/// itself.
pub open spec fn roots_of(gm: Map<Seq<char>, RuleModel>, pattern: Seq<char>) -> Set<Seq<char>> {
    if is_wildcard(pattern) {
        Set::new(
            |k: Seq<char>| gm.dom().contains(k) && is_prefix_of(wildcard_prefix(pattern), k),
        )
    } else {
        Set::new(|k: Seq<char>| k == pattern)
    }
}

/// Everything reachable from some root.
pub open spec fn reach_of_roots(
    gm: Map<Seq<char>, RuleModel>,
    roots: Set<Seq<char>>,
) -> Set<Seq<char>> {
    Set::new(
        |x: Seq<char>| exists|rt: Seq<char>| #[trigger] roots.contains(rt) && reaches(gm, rt, x),
    )
}

/// A scoring run over `roots` succeeds exactly when every reachable
/// target exists in the graph, lies on no cycle, and declares only
/// parseable source labels.
pub open spec fn run_ok(gm: Map<Seq<char>, RuleModel>, roots: Set<Seq<char>>) -> bool {
    forall|x: Seq<char>|
        #[trigger] reach_of_roots(gm, roots).contains(x) ==> gm.dom().contains(x) && !on_cycle(
            gm,
            x,
        ) && srcs_wf(gm[x])
}

/// Resolves one root target, sharing the memo and result table of the
/// run: unions the triggering changes of its dependency subtree, creates
/// its score record, and counts every edge traversal into a dependency.
pub fn calculate_trigger_scores_map_inner(
    target: &String,
    repo: &ChangeHistory,
    deps_graph: &DependencyGraph,
    commits_by_target: &mut CommitCache,
    score_by_target: &mut ScoreTable,
) -> (r: Result<Vec<String>, ScoreError>)
    requires
        deps_graph.wf(),
        repo.wf(),
        run_inv(
            deps_graph.to_map(),
            repo.to_map(),
            *old(commits_by_target),
            *old(score_by_target),
        ),
        total_deps(deps_graph.entries()) < usize::MAX,
        forall|t: Seq<char>|
            #[trigger] old(score_by_target).to_map().dom().contains(t) ==> old(
                score_by_target,
            ).to_map()[t].dependents <= 1 + refsum(
                deps_graph.entries(),
                old(commits_by_target).to_map().dom(),
                t,
            ),
    ensures
        match r {
            Ok(v) => {
                &&& run_inv(
                    deps_graph.to_map(),
                    repo.to_map(),
                    *final(commits_by_target),
                    *final(score_by_target),
                )
                &&& final(commits_by_target).to_map().dom() == old(
                    commits_by_target,
                ).to_map().dom().union(
                    Set::new(|x: Seq<char>| reaches(deps_graph.to_map(), target@, x)),
                )
                &&& no_dup_views(v@)
                &&& forall|c: Seq<char>|
                    #[trigger] has_str(v@, c) <==> commit_triggers(
                        deps_graph.to_map(),
                        repo.to_map(),
                        target@,
                        c,
                    )
                &&& dependents_delta(
                    deps_graph.entries(),
                    old(score_by_target).to_map(),
                    old(commits_by_target).to_map().dom(),
                    final(score_by_target).to_map(),
                    final(commits_by_target).to_map().dom(),
                )
                &&& final(commits_by_target).entries_view().len()
                    >= old(commits_by_target).entries_view().len()
                &&& forall|i: int|
                    0 <= i < old(commits_by_target).entries_view().len()
                        ==> #[trigger] final(commits_by_target).entries_view()[i]
                        == old(commits_by_target).entries_view()[i]
                &&& final(score_by_target).entries_view().len()
                    >= old(score_by_target).entries_view().len()
                &&& forall|i: int|
                    0 <= i < old(score_by_target).entries_view().len()
                        ==> (#[trigger] final(score_by_target).entries_view()[i]).0
                        == old(score_by_target).entries_view()[i].0
            },
            Err(e) => {
                &&& run_inv(
                    deps_graph.to_map(),
                    repo.to_map(),
                    *final(commits_by_target),
                    *final(score_by_target),
                )
                &&& old(commits_by_target).to_map().dom().subset_of(
                    final(commits_by_target).to_map().dom(),
                )
                &&& final(commits_by_target).entries_view().len()
                    >= old(commits_by_target).entries_view().len()
                &&& forall|i: int|
                    0 <= i < old(commits_by_target).entries_view().len()
                        ==> #[trigger] final(commits_by_target).entries_view()[i]
                        == old(commits_by_target).entries_view()[i]
                &&& final(score_by_target).entries_view().len()
                    >= old(score_by_target).entries_view().len()
                &&& forall|i: int|
                    0 <= i < old(score_by_target).entries_view().len()
                        ==> (#[trigger] final(score_by_target).entries_view()[i]).0
                        == old(score_by_target).entries_view()[i].0
                &&& match e {
                    ScoreError::TargetNotFound(l) => reaches(deps_graph.to_map(), target@, l@)
                        && !deps_graph.to_map().dom().contains(l@),
                    ScoreError::MalformedLabel(m) => exists|x: Seq<char>|
                        #[trigger] reaches(deps_graph.to_map(), target@, x)
                            && deps_graph.to_map().dom().contains(x)
                            && deps_graph.to_map()[x].srcs.contains(m@)
                            && label_form(m@) is Malformed,
                    ScoreError::CycleDetected(l) => reaches(deps_graph.to_map(), target@, l@)
                        && on_cycle(deps_graph.to_map(), l@),
                }
            },
        },
{
    let path: Vec<String> = Vec::new();
    proof {
        let gs = deps_graph.entries();
        assert(views_of(path@) =~= Seq::<Seq<char>>::empty());
        assert(str_set(path@) =~= Set::<Seq<char>>::empty());
        assert forall|t: Seq<char>| #[trigger] score_by_target.to_map().dom().contains(
            t,
        ) implies score_by_target.to_map()[t].dependents <= 1 + refsum(
            gs,
            commits_by_target.to_map().dom(),
            t,
        ) + refsum(gs, str_set(path@), t) by {
            lemma_refsum_empty(gs, t);
        }
    }
    score_rec(target, repo, deps_graph, commits_by_target, score_by_target, &path)
}

/// Scores every root that `target` denotes (a single target, or every
/// target sharing a wildcard prefix), sharing memo state across roots;
/// after the traversal a final pass derives `score = rebuilds *
/// dependents` for every record.
#[verifier::loop_isolation(false)]
pub fn calculate_trigger_scores_map(
    target: &String,
    repo: &ChangeHistory,
    deps_graph: &DependencyGraph,
) -> (r: Result<ScoreTable, ScoreError>)
    requires
        deps_graph.wf(),
        repo.wf(),
        total_deps(deps_graph.entries()) < usize::MAX,
        total_changes(repo.entries()) * (1 + total_deps(deps_graph.entries())) < usize::MAX,
    ensures
        match r {
            Ok(tb) => {
                &&& tb.wf()
                &&& run_ok(deps_graph.to_map(), roots_of(deps_graph.to_map(), target@))
                &&& tb.to_map().dom() == reach_of_roots(
                    deps_graph.to_map(),
                    roots_of(deps_graph.to_map(), target@),
                )
                &&& forall|t: Seq<char>|
                    #[trigger] tb.to_map().dom().contains(t) ==> {
                        &&& tb.to_map()[t].name == t
                        &&& tb.to_map()[t].rebuilds == rebuilds_of(
                            deps_graph.to_map(),
                            repo.to_map(),
                            t,
                        )
                        &&& tb.to_map()[t].dependents == 1 + refsum(
                            deps_graph.entries(),
                            reach_of_roots(
                                deps_graph.to_map(),
                                roots_of(deps_graph.to_map(), target@),
                            ),
                            t,
                        )
                        &&& tb.to_map()[t].score == tb.to_map()[t].rebuilds * tb.to_map()[t].dependents
                    }
            },
            Err(e) => {
                &&& !run_ok(deps_graph.to_map(), roots_of(deps_graph.to_map(), target@))
                &&& match e {
                    ScoreError::TargetNotFound(l) => !deps_graph.to_map().dom().contains(l@)
                        && exists|rt: Seq<char>|
                        #[trigger] roots_of(deps_graph.to_map(), target@).contains(rt) && reaches(
                            deps_graph.to_map(),
                            rt,
                            l@,
                        ),
                    ScoreError::MalformedLabel(m) => label_form(m@) is Malformed && exists|
                        x: Seq<char>,
                    |
                        #[trigger] reach_of_roots(
                            deps_graph.to_map(),
                            roots_of(deps_graph.to_map(), target@),
                        ).contains(x) && deps_graph.to_map().dom().contains(x)
                            && deps_graph.to_map()[x].srcs.contains(m@),
                    ScoreError::CycleDetected(l) => on_cycle(deps_graph.to_map(), l@) && exists|
                        rt: Seq<char>,
                    |
                        #[trigger] roots_of(deps_graph.to_map(), target@).contains(rt) && reaches(
                            deps_graph.to_map(),
                            rt,
                            l@,
                        ),
                }
            },
        },
{
    let ghost gm = deps_graph.to_map();
    let ghost gs = deps_graph.entries();
    let ghost hm = repo.to_map();
    let ghost roots = roots_of(gm, target@);
    let mut commits_by_target = CommitCache::new();
    let mut score_by_target = ScoreTable::new();
    proof {
        assert(commits_by_target.to_map() =~= Map::<Seq<char>, Seq<Seq<char>>>::empty());
        assert(score_by_target.to_map() =~= Map::<Seq<char>, TargetModel>::empty());
        assert(commits_by_target.to_map().dom() =~= Set::<Seq<char>>::empty());
        assert(score_by_target.to_map().dom() =~= Set::<Seq<char>>::empty());
    }
    let wild = parse_wildcard(target);
    match wild {
        Some(prefix) => {
            let n = deps_graph.len();
            let mut i: usize = 0;
            proof {
                assert(commits_by_target.to_map().dom() =~= reach_of_roots(
                    gm,
                    Set::new(
                        |k: Seq<char>|
                            exists|j: int|
                                0 <= j < 0 && #[trigger] gs[j].0 == k && is_prefix_of(
                                    prefix@,
                                    gs[j].0,
                                ),
                    ),
                ));
            }
            while i < n
                invariant
                    0 <= i <= n,
                    n == gs.len(),
                    run_inv(gm, hm, commits_by_target, score_by_target),
                    commits_by_target.to_map().dom() == reach_of_roots(
                        gm,
                        Set::new(
                            |k: Seq<char>|
                                exists|j: int|
                                    0 <= j < i && #[trigger] gs[j].0 == k && is_prefix_of(
                                        prefix@,
                                        gs[j].0,
                                    ),
                        ),
                    ),
                    forall|t: Seq<char>|
                        #[trigger] score_by_target.to_map().dom().contains(
                            t,
                        ) ==> score_by_target.to_map()[t].dependents == 1 + refsum(
                            gs,
                            commits_by_target.to_map().dom(),
                            t,
                        ),
                decreases n - i,
            {
                let ghost pcur = commits_by_target.to_map().dom();
                let ghost tmcur = score_by_target.to_map();
                let ghost mset = Set::new(
                    |k: Seq<char>|
                        exists|j: int|
                            0 <= j < i && #[trigger] gs[j].0 == k && is_prefix_of(
                                prefix@,
                                gs[j].0,
                            ),
                );
                let lab = deps_graph.label_at(i);
                if str_starts_with(lab, &prefix) {
                    proof {
                        lemma_pairs_to_map_index(gs, i as int);
                        assert(gm.dom().contains(lab@));
                        assert(roots.contains(lab@));
                    }
                    let res = calculate_trigger_scores_map_inner(
                        lab,
                        repo,
                        deps_graph,
                        &mut commits_by_target,
                        &mut score_by_target,
                    );
                    match res {
                        Err(e) => {
                            proof {
                                match &e {
                                    ScoreError::TargetNotFound(l) => {
                                        assert(reach_of_roots(gm, roots).contains(l@));
                                        assert(!run_ok(gm, roots));
                                    },
                                    ScoreError::CycleDetected(l) => {
                                        assert(reach_of_roots(gm, roots).contains(l@));
                                        assert(!run_ok(gm, roots));
                                    },
                                    ScoreError::MalformedLabel(m) => {
                                        let x = choose|x: Seq<char>|
                                            #[trigger] reaches(gm, lab@, x) && gm.dom().contains(x)
                                                && gm[x].srcs.contains(m@) && label_form(
                                                m@,
                                            ) is Malformed;
                                        assert(reach_of_roots(gm, roots).contains(x));
                                        assert(!srcs_wf(gm[x])) by {
                                            let jj = choose|jj: int|
                                                0 <= jj < gm[x].srcs.len() && gm[x].srcs[jj] == m@;
                                            assert(label_form(gm[x].srcs[jj]) is Malformed);
                                        }
                                        assert(!run_ok(gm, roots));
                                    },
                                }
                            }
                            return Err(e);
                        },
                        Ok(_) => {},
                    }
                    proof {
                        let pnew = commits_by_target.to_map().dom();
                        let mset1 = Set::new(
                            |k: Seq<char>|
                                exists|j: int|
                                    0 <= j < i + 1 && #[trigger] gs[j].0 == k && is_prefix_of(
                                        prefix@,
                                        gs[j].0,
                                    ),
                        );
                        assert(pnew =~= reach_of_roots(gm, mset1)) by {
                            assert forall|x: Seq<char>| pnew.contains(x) implies reach_of_roots(
                                gm,
                                mset1,
                            ).contains(x) by {
                                if pcur.contains(x) {
                                    let rt = choose|rt: Seq<char>|
                                        #[trigger] mset.contains(rt) && reaches(gm, rt, x);
                                    let j = choose|j: int|
                                        0 <= j < i && #[trigger] gs[j].0 == rt && is_prefix_of(
                                            prefix@,
                                            gs[j].0,
                                        );
                                    assert(mset1.contains(rt));
                                } else {
                                    assert(reaches(gm, lab@, x));
                                    assert(gs[i as int].0 == lab@ && is_prefix_of(
                                        prefix@,
                                        gs[i as int].0,
                                    ));
                                    assert(mset1.contains(lab@));
                                }
                            }
                            assert forall|x: Seq<char>| reach_of_roots(gm, mset1).contains(
                                x,
                            ) implies pnew.contains(x) by {
                                let rt = choose|rt: Seq<char>|
                                    #[trigger] mset1.contains(rt) && reaches(gm, rt, x);
                                let j = choose|j: int|
                                    0 <= j < i + 1 && #[trigger] gs[j].0 == rt && is_prefix_of(
                                        prefix@,
                                        gs[j].0,
                                    );
                                if j < i {
                                    assert(mset.contains(rt));
                                    assert(pcur.contains(x));
                                } else {
                                    assert(rt == lab@);
                                }
                            }
                        }
                        assert forall|t: Seq<char>|
                            #[trigger] score_by_target.to_map().dom().contains(
                            t,
                        ) implies score_by_target.to_map()[t].dependents == 1 + refsum(
                            gs,
                            pnew,
                            t,
                        ) by {
                            if tmcur.dom().contains(t) {
                                assert(score_by_target.to_map()[t].dependents as int
                                    == tmcur[t].dependents as int + refsum(gs, pnew, t) - refsum(
                                    gs,
                                    pcur,
                                    t,
                                ));
                            } else {
                                assert(score_by_target.to_map()[t].dependents as int == 1 + refsum(
                                    gs,
                                    pnew,
                                    t,
                                ) - refsum(gs, pcur, t));
                                assert(!pcur.contains(t));
                                assert(refsum(gs, pcur, t) == 0) by {
                                    assert forall|ii: int|
                                        0 <= ii < gs.len() && pcur.contains(
                                        #[trigger] gs[ii].0,
                                    ) implies occ(gs[ii].1.deps, t) == 0 by {
                                        lemma_occ_pos(gs[ii].1.deps, t);
                                        if occ(gs[ii].1.deps, t) > 0 {
                                            lemma_pairs_to_map_index(gs, ii);
                                            let kk = choose|kk: int|
                                                0 <= kk < gs[ii].1.deps.len() && gs[ii].1.deps[kk]
                                                    == t;
                                            assert(gm[gs[ii].0].deps[kk] == t);
                                            assert(pcur.contains(t));
                                        }
                                    }
                                    lemma_refsum_zero_when_no_edges(gs, pcur, t);
                                }
                            }
                        }
                    }
                } else {
                    proof {
                        let mset1 = Set::new(
                            |k: Seq<char>|
                                exists|j: int|
                                    0 <= j < i + 1 && #[trigger] gs[j].0 == k && is_prefix_of(
                                        prefix@,
                                        gs[j].0,
                                    ),
                        );
                        assert(mset =~= mset1) by {
                            assert forall|k: Seq<char>| mset1.contains(k) implies mset.contains(
                                k,
                            ) by {
                                let j = choose|j: int|
                                    0 <= j < i + 1 && #[trigger] gs[j].0 == k && is_prefix_of(
                                        prefix@,
                                        gs[j].0,
                                    );
                                assert(j != i);
                            }
                        }
                        assert(commits_by_target.to_map().dom() == reach_of_roots(gm, mset1));
                    }
                }
                i = i + 1;
            }
            proof {
                let msetn = Set::new(
                    |k: Seq<char>|
                        exists|j: int|
                            0 <= j < n && #[trigger] gs[j].0 == k && is_prefix_of(
                                prefix@,
                                gs[j].0,
                            ),
                );
                assert(msetn =~= roots) by {
                    assert forall|k: Seq<char>| roots.contains(k) implies msetn.contains(k) by {
                        lemma_pairs_to_map_dom(gs);
                        let j = choose|j: int| 0 <= j < gs.len() && gs[j].0 == k;
                        assert(is_prefix_of(prefix@, gs[j].0));
                    }
                    assert forall|k: Seq<char>| msetn.contains(k) implies roots.contains(k) by {
                        let j = choose|j: int|
                            0 <= j < n && #[trigger] gs[j].0 == k && is_prefix_of(
                                prefix@,
                                gs[j].0,
                            );
                        lemma_pairs_to_map_index(gs, j);
                    }
                }
                assert(commits_by_target.to_map().dom() == reach_of_roots(gm, roots));
            }
        },
        None => {
            proof {
                assert forall|t: Seq<char>|
                    #[trigger] score_by_target.to_map().dom().contains(
                    t,
                ) implies score_by_target.to_map()[t].dependents <= 1 + refsum(
                    gs,
                    commits_by_target.to_map().dom(),
                    t,
                ) by {}
            }
            let res = calculate_trigger_scores_map_inner(
                target,
                repo,
                deps_graph,
                &mut commits_by_target,
                &mut score_by_target,
            );
            match res {
                Err(e) => {
                    proof {
                        assert(roots.contains(target@));
                        match &e {
                            ScoreError::TargetNotFound(l) => {
                                assert(reach_of_roots(gm, roots).contains(l@));
                                assert(!run_ok(gm, roots));
                            },
                            ScoreError::CycleDetected(l) => {
                                assert(reach_of_roots(gm, roots).contains(l@));
                                assert(!run_ok(gm, roots));
                            },
                            ScoreError::MalformedLabel(m) => {
                                let x = choose|x: Seq<char>|
                                    #[trigger] reaches(gm, target@, x) && gm.dom().contains(x)
                                        && gm[x].srcs.contains(m@) && label_form(m@) is Malformed;
                                assert(reach_of_roots(gm, roots).contains(x));
                                assert(!srcs_wf(gm[x])) by {
                                    let jj = choose|jj: int|
                                        0 <= jj < gm[x].srcs.len() && gm[x].srcs[jj] == m@;
                                    assert(label_form(gm[x].srcs[jj]) is Malformed);
                                }
                                assert(!run_ok(gm, roots));
                            },
                        }
                    }
                    return Err(e);
                },
                Ok(_) => {},
            }
            proof {
                assert(commits_by_target.to_map().dom() =~= reach_of_roots(gm, roots)) by {
                    assert forall|x: Seq<char>| commits_by_target.to_map().dom().contains(
                        x,
                    ) implies reach_of_roots(gm, roots).contains(x) by {
                        assert(reaches(gm, target@, x));
                        assert(roots.contains(target@));
                    }
                    assert forall|x: Seq<char>| reach_of_roots(gm, roots).contains(
                        x,
                    ) implies commits_by_target.to_map().dom().contains(x) by {
                        let rt = choose|rt: Seq<char>|
                            #[trigger] roots.contains(rt) && reaches(gm, rt, x);
                        assert(rt == target@);
                    }
                }
                assert forall|t: Seq<char>|
                    #[trigger] score_by_target.to_map().dom().contains(
                    t,
                ) implies score_by_target.to_map()[t].dependents == 1 + refsum(
                    gs,
                    commits_by_target.to_map().dom(),
                    t,
                ) by {
                    lemma_refsum_empty(gs, t);
                }
            }
        },
    }
    proof {
        // the whole reachable region was scored without failure.
        let pfin = commits_by_target.to_map().dom();
        assert(run_ok(gm, roots)) by {
            assert forall|x: Seq<char>| #[trigger] reach_of_roots(gm, roots).contains(
                x,
            ) implies gm.dom().contains(x) && !on_cycle(gm, x) && srcs_wf(gm[x]) by {
                assert(pfin.contains(x));
            }
        }
    }
    // final pass: derive every composite score.
    let ghost pfin = commits_by_target.to_map().dom();
    let ghost tv0 = score_by_target.entries_view();
    proof {
        assert(unique_keys(tv0));
        assert(pairs_to_map(tv0).dom() == pfin);
        assert forall|t: Seq<char>| #[trigger] pairs_to_map(tv0).dom().contains(
            t,
        ) implies pairs_to_map(tv0)[t].name == t && pairs_to_map(tv0)[t].rebuilds == rebuilds_of(
            gm,
            hm,
            t,
        ) && pairs_to_map(tv0)[t].dependents == 1 + refsum(gs, pfin, t) by {}
    }
    let m = score_by_target.entries.len();
    let mut i2: usize = 0;
    while i2 < m
        invariant
            0 <= i2 <= m,
            m == score_by_target.entries_view().len(),
            m == tv0.len(),
            score_by_target.entries_view().len() == tv0.len(),
            forall|jj: int|
                0 <= jj < m ==> (#[trigger] score_by_target.entries_view()[jj]).0 == tv0[jj].0,
            forall|jj: int|
                i2 <= jj < m ==> (#[trigger] score_by_target.entries_view()[jj]).1 == tv0[jj].1,
            forall|jj: int|
                0 <= jj < i2 ==> {
                    let nw = (#[trigger] score_by_target.entries_view()[jj]).1;
                    let od = tv0[jj].1;
                    &&& nw.name == od.name
                    &&& nw.rebuilds == od.rebuilds
                    &&& nw.dependents == od.dependents
                    &&& nw.score == od.rebuilds * od.dependents
                },
        decreases m - i2,
    {
        let rb = score_by_target.entries[i2].1.rebuilds;
        let dp = score_by_target.entries[i2].1.dependents;
        proof {
            assert(unique_keys(tv0)) by {
                assert forall|x: int, y: int|
                    0 <= x < tv0.len() && 0 <= y < tv0.len() && x != y implies tv0[x].0
                    != tv0[y].0 by {
                    assert(score_by_target.entries_view()[x].0 == tv0[x].0);
                    assert(score_by_target.entries_view()[y].0 == tv0[y].0);
                    assert(score_by_target.entries_view()[x].0
                        != score_by_target.entries_view()[y].0);
                }
            }
            lemma_pairs_to_map_index(tv0, i2 as int);
            let t = tv0[i2 as int].0;
            assert(pairs_to_map(tv0).dom().contains(t));
            assert(pairs_to_map(tv0)[t] == tv0[i2 as int].1);
            assert(score_by_target.entries_view()[i2 as int].1 == tv0[i2 as int].1);
            assert(score_by_target.entries_view()[i2 as int].1
                == score_by_target.entries@[i2 as int].1.view_model());
            assert(rb as nat == tv0[i2 as int].1.rebuilds);
            assert(dp as nat == tv0[i2 as int].1.dependents);
            assert(rb as nat == rebuilds_of(gm, hm, t));
            lemma_rebuilds_le_total(gm, repo.entries(), t);
            assert(dp as nat == 1 + refsum(gs, pfin, t));
            lemma_refsum_le_total(gs, pfin, t);
            assert(rb as int * dp as int <= total_changes(repo.entries()) as int * (1 + total_deps(
                gs,
            )) as int) by (nonlinear_arith)
                requires
                    0 <= rb as int <= total_changes(repo.entries()) as int,
                    0 <= dp as int <= (1 + total_deps(gs)) as int,
            ;
        }
        let sc = rb * dp;
        let key = score_by_target.entries[i2].0.clone();
        let nm = score_by_target.entries[i2].1.name.clone();
        let rec = Target { name: nm, rebuilds: rb, dependents: dp, score: sc };
        let ghost tvb = score_by_target.entries_view();
        score_by_target.entries[i2] = (key, rec);
        proof {
            assert(score_by_target.entries_view() =~= tvb.update(
                i2 as int,
                (tvb[i2 as int].0, rec.view_model()),
            ));
        }
        i2 = i2 + 1;
    }
    proof {
        let tv1 = score_by_target.entries_view();
        assert(unique_keys(tv1)) by {
            assert forall|x: int, y: int|
                0 <= x < tv1.len() && 0 <= y < tv1.len() && x != y implies tv1[x].0
                != tv1[y].0 by {
                assert(tv1[x].0 == tv0[x].0 && tv1[y].0 == tv0[y].0);
                assert(tv0[x].0 != tv0[y].0);
            }
        }
        assert(unique_keys(tv0)) by {
            assert forall|x: int, y: int|
                0 <= x < tv0.len() && 0 <= y < tv0.len() && x != y implies tv0[x].0
                != tv0[y].0 by {
                assert(tv1[x].0 == tv0[x].0 && tv1[y].0 == tv0[y].0);
            }
        }
        let tm1 = pairs_to_map(tv1);
        let tm0m = pairs_to_map(tv0);
        lemma_pairs_to_map_dom(tv1);
        lemma_pairs_to_map_dom(tv0);
        assert(tm1.dom() =~= tm0m.dom()) by {
            assert forall|k: Seq<char>| tm1.dom().contains(k) implies tm0m.dom().contains(k) by {
                let j = choose|j: int| 0 <= j < tv1.len() && tv1[j].0 == k;
                assert(tv0[j].0 == k);
            }
            assert forall|k: Seq<char>| tm0m.dom().contains(k) implies tm1.dom().contains(k) by {
                let j = choose|j: int| 0 <= j < tv0.len() && tv0[j].0 == k;
                assert(tv1[j].0 == k);
            }
        }
        assert forall|t: Seq<char>| #[trigger] tm1.dom().contains(t) implies tm1[t].name == t
            && tm1[t].rebuilds == rebuilds_of(gm, hm, t) && tm1[t].dependents == 1 + refsum(
            gs,
            reach_of_roots(gm, roots),
            t,
        ) && tm1[t].score == tm1[t].rebuilds * tm1[t].dependents by {
            let j = choose|j: int| 0 <= j < tv1.len() && tv1[j].0 == t;
            lemma_pairs_to_map_index(tv1, j);
            lemma_pairs_to_map_index(tv0, j);
            assert(tm1[t] == tv1[j].1);
            assert(tm0m[t] == tv0[j].1);
            assert(pfin == reach_of_roots(gm, roots));
        }
        assert(tm1.dom() == reach_of_roots(gm, roots)) by {
            assert(tm0m.dom() == pfin);
            assert(tm1.dom() =~= reach_of_roots(gm, roots));
        }
    }
    Ok(score_by_target)
}

/// Scalar mode: the number of distinct change identifiers that touch any
/// transitive source file of `target` resolvable in history.
#[verifier::loop_isolation(false)]
pub fn calculate_trigger_scores(
    target: &String,
    repo: &ChangeHistory,
    deps_graph: &DependencyGraph,
) -> (r: Result<usize, ScoreError>)
    requires
        deps_graph.wf(),
        repo.wf(),
    ensures
        match r {
            Ok(n) => {
                &&& n as nat == rebuilds_of(deps_graph.to_map(), repo.to_map(), target@)
                &&& forall|x: Seq<char>|
                    #[trigger] reaches(deps_graph.to_map(), target@, x)
                        ==> deps_graph.to_map().dom().contains(x) && !on_cycle(
                        deps_graph.to_map(),
                        x,
                    ) && srcs_wf(deps_graph.to_map()[x])
            },
            Err(e) => match e {
                ScoreError::TargetNotFound(l) => reaches(deps_graph.to_map(), target@, l@)
                    && !deps_graph.to_map().dom().contains(l@),
                ScoreError::MalformedLabel(m) => exists|x: Seq<char>|
                    #[trigger] reaches(deps_graph.to_map(), target@, x)
                        && deps_graph.to_map().dom().contains(x)
                        && deps_graph.to_map()[x].srcs.contains(m@)
                        && label_form(m@) is Malformed,
                ScoreError::CycleDetected(l) => reaches(deps_graph.to_map(), target@, l@)
                    && on_cycle(deps_graph.to_map(), l@),
            },
        },
{
    let ghost gm = deps_graph.to_map();
    let ghost hm = repo.to_map();
    let source_files = match deps_graph.transitive_source_files(target) {
        Ok(v) => v,
        Err(e) => {
            return Err(e);
        },
    };
    let mut all_commits: Vec<String> = Vec::new();
    let nf = source_files.len();
    let mut i: usize = 0;
    while i < nf
        invariant
            0 <= i <= nf,
            nf == source_files@.len(),
            no_dup_views(all_commits@),
            forall|c: Seq<char>|
                #[trigger] has_str(all_commits@, c) <==> exists|idx: int|
                    0 <= idx < i && (match label_form(#[trigger] source_files@[idx]@) {
                        LabelForm::Local(p) => hm.dom().contains(p) && hm[p].contains(c),
                        _ => false,
                    }),
            forall|idx: int|
                0 <= idx < i ==> !(label_form(#[trigger] source_files@[idx]@) is Malformed),
        decreases nf - i,
    {
        let s = &source_files[i];
        let resv = resolve_source_file(s);
        let ghost accb = all_commits@;
        match resv {
            Err(e) => {
                proof {
                    assert(has_str(source_files@, s@)) by {
                        assert(source_files@[i as int]@ == s@);
                    }
                    assert(tsrc(gm, target@, s@));
                    if let ScoreError::MalformedLabel(mm) = &e {
                        let x = choose|x: Seq<char>|
                            reaches(gm, target@, x) && gm.dom().contains(x) && gm[x].srcs.contains(
                                s@,
                            );
                        assert(reaches(gm, target@, x) && gm.dom().contains(x)
                            && gm[x].srcs.contains(mm@) && label_form(mm@) is Malformed);
                    }
                }
                return Err(e);
            },
            Ok(None) => {},
            Ok(Some(p)) => {
                let hist = repo.history_for(&p);
                match hist {
                    None => {},
                    Some(cs) => {
                        extend_unique(&mut all_commits, cs);
                        proof {
                            assert(views_of(cs@) == hm[p@]);
                            assert forall|c: Seq<char>| #[trigger] has_str(cs@, c) implies
                                hm[p@].contains(c) by {
                                let x = choose|x: int| 0 <= x < cs@.len() && cs@[x]@ == c;
                                assert(views_of(cs@)[x] == c);
                            }
                            assert forall|c: Seq<char>| hm[p@].contains(c) implies has_str(
                                cs@,
                                c,
                            ) by {
                                let x = choose|x: int|
                                    0 <= x < views_of(cs@).len() && views_of(cs@)[x] == c;
                                assert(cs@[x]@ == c);
                            }
                        }
                    },
                }
            },
        }
        proof {
            assert(source_files@[i as int]@ == s@);
            assert forall|c: Seq<char>| #[trigger] has_str(all_commits@, c) implies exists|
                idx: int,
            |
                0 <= idx < i + 1 && (match label_form(#[trigger] source_files@[idx]@) {
                    LabelForm::Local(p) => hm.dom().contains(p) && hm[p].contains(c),
                    _ => false,
                }) by {
                if has_str(accb, c) {
                    let idx = choose|idx: int|
                        0 <= idx < i && (match label_form(#[trigger] source_files@[idx]@) {
                            LabelForm::Local(p) => hm.dom().contains(p) && hm[p].contains(c),
                            _ => false,
                        });
                    assert(0 <= idx < i + 1 && (match label_form(source_files@[idx]@) {
                        LabelForm::Local(p) => hm.dom().contains(p) && hm[p].contains(c),
                        _ => false,
                    }));
                } else {
                    assert(0 <= i < i + 1 && (match label_form(source_files@[i as int]@) {
                        LabelForm::Local(p) => hm.dom().contains(p) && hm[p].contains(c),
                        _ => false,
                    }));
                }
            }
            assert forall|c: Seq<char>|
                (exists|idx: int|
                    0 <= idx < i + 1 && (match label_form(#[trigger] source_files@[idx]@) {
                        LabelForm::Local(p) => hm.dom().contains(p) && hm[p].contains(c),
                        _ => false,
                    })) implies #[trigger] has_str(all_commits@, c) by {
                let idx = choose|idx: int|
                    0 <= idx < i + 1 && (match label_form(#[trigger] source_files@[idx]@) {
                        LabelForm::Local(p) => hm.dom().contains(p) && hm[p].contains(c),
                        _ => false,
                    });
                if idx < i {
                    assert(has_str(accb, c));
                    assert(has_str(all_commits@, c));
                } else {
                    assert(idx == i);
                }
            }
        }
        i = i + 1;
    }
    proof {
        // every reachable rule's sources appear among the transitive files,
        // so they all parse.
        assert forall|x: Seq<char>| #[trigger] reaches(gm, target@, x) implies gm.dom().contains(
            x,
        ) && !on_cycle(gm, x) && srcs_wf(gm[x]) by {
            assert forall|jj: int| 0 <= jj < gm[x].srcs.len() implies !(label_form(
                #[trigger] gm[x].srcs[jj],
            ) is Malformed) by {
                assert(tsrc(gm, target@, gm[x].srcs[jj]));
                assert(has_str(source_files@, gm[x].srcs[jj]));
                let idx = choose|idx: int|
                    0 <= idx < source_files@.len() && source_files@[idx]@ == gm[x].srcs[jj];
            }
        }
        // the accumulator holds exactly the triggering changes.
        assert forall|c: Seq<char>| #[trigger] has_str(all_commits@, c) implies commit_triggers(
            gm,
            hm,
            target@,
            c,
        ) by {
            let idx = choose|idx: int|
                0 <= idx < nf && (match label_form(#[trigger] source_files@[idx]@) {
                    LabelForm::Local(p) => hm.dom().contains(p) && hm[p].contains(c),
                    _ => false,
                });
            assert(has_str(source_files@, source_files@[idx]@)) by {
                assert(source_files@[idx]@ == source_files@[idx]@);
            }
            assert(tsrc(gm, target@, source_files@[idx]@));
        }
        assert forall|c: Seq<char>| commit_triggers(gm, hm, target@, c) implies has_str(
            all_commits@,
            c,
        ) by {
            let s = choose|s: Seq<char>|
                #[trigger] tsrc(gm, target@, s) && match label_form(s) {
                    LabelForm::Local(p) => hm.dom().contains(p) && hm[p].contains(c),
                    _ => false,
                };
            assert(has_str(source_files@, s));
            let idx = choose|idx: int|
                0 <= idx < source_files@.len() && source_files@[idx]@ == s;
        }
        lemma_str_set_len(all_commits@);
        assert(commits_of(gm, hm, target@) =~= str_set(all_commits@));
    }
    Ok(all_commits.len())
}

} // verus!
