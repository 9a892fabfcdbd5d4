//! The mathematical model of the engine: association-list views, the
//! reachability relation of the dependency graph, the set of change
//! identifiers that trigger a target, and the edge-reference count that
//! defines `dependents`.

use vstd::prelude::*;

verus! {

use crate::labels::{label_form, LabelForm};

/// The model of one rule: the labels it depends on and the source files it
/// declares, each as a sequence of characters.
pub ghost struct RuleModel {
    pub deps: Seq<Seq<char>>,
    pub srcs: Seq<Seq<char>>,
}

/// Keys of an association list are pairwise distinct.
pub open spec fn unique_keys<V>(s: Seq<(Seq<char>, V)>) -> bool {
    forall|i: int, j: int| 0 <= i < s.len() && 0 <= j < s.len() && i != j ==> s[i].0 != s[j].0
}

/// The finite map that an association list denotes (later entries win,
/// which is irrelevant under `unique_keys`).
pub open spec fn pairs_to_map<V>(s: Seq<(Seq<char>, V)>) -> Map<Seq<char>, V>
    decreases s.len(),
{
    if s.len() == 0 {
        Map::empty()
    } else {
        pairs_to_map(s.drop_last()).insert(s.last().0, s.last().1)
    }
}

pub proof fn lemma_pairs_to_map_dom<V>(s: Seq<(Seq<char>, V)>)
    ensures
        forall|k: Seq<char>|
            pairs_to_map(s).dom().contains(k) <==> exists|i: int| 0 <= i < s.len() && s[i].0 == k,
    decreases s.len(),
{
    if s.len() > 0 {
        lemma_pairs_to_map_dom(s.drop_last());
        assert forall|k: Seq<char>| pairs_to_map(s).dom().contains(k) implies exists|i: int|
            0 <= i < s.len() && s[i].0 == k by {
            if k == s.last().0 {
                assert(s[s.len() - 1].0 == k);
            } else {
                assert(pairs_to_map(s.drop_last()).dom().contains(k));
                let i = choose|i: int| 0 <= i < s.drop_last().len() && s.drop_last()[i].0 == k;
                assert(s.drop_last()[i] == s[i]);
                assert(s[i].0 == k);
            }
        }
        assert forall|k: Seq<char>|
            (exists|i: int| 0 <= i < s.len() && s[i].0 == k) implies pairs_to_map(
            s,
        ).dom().contains(k) by {
            let i = choose|i: int| 0 <= i < s.len() && s[i].0 == k;
            if i < s.len() - 1 {
                assert(s.drop_last()[i] == s[i]);
                assert(s.drop_last()[i].0 == k);
                assert(pairs_to_map(s.drop_last()).dom().contains(k));
            } else {
                assert(k == s.last().0);
            }
        }
    }
}

pub proof fn lemma_pairs_to_map_index<V>(s: Seq<(Seq<char>, V)>, i: int)
    requires
        unique_keys(s),
        0 <= i < s.len(),
    ensures
        pairs_to_map(s).dom().contains(s[i].0),
        pairs_to_map(s)[s[i].0] == s[i].1,
    decreases s.len(),
{
    lemma_pairs_to_map_dom(s);
    if i < s.len() - 1 {
        assert(unique_keys(s.drop_last())) by {
            assert forall|x: int, y: int|
                0 <= x < s.drop_last().len() && 0 <= y < s.drop_last().len() && x != y implies s.drop_last()[x].0
                != s.drop_last()[y].0 by {
                assert(s[x].0 != s[y].0);
            }
        }
        assert(s.drop_last()[i] == s[i]);
        lemma_pairs_to_map_index(s.drop_last(), i);
        assert(s[i].0 != s.last().0);
    }
}

pub proof fn lemma_pairs_to_map_push<V>(s: Seq<(Seq<char>, V)>, k: Seq<char>, v: V)
    ensures
        pairs_to_map(s.push((k, v))) == pairs_to_map(s).insert(k, v),
{
    assert(s.push((k, v)).drop_last() =~= s);
    assert(s.push((k, v)).last() == (k, v));
}

pub proof fn lemma_pairs_to_map_update<V>(s: Seq<(Seq<char>, V)>, i: int, v: V)
    requires
        unique_keys(s),
        0 <= i < s.len(),
    ensures
        pairs_to_map(s.update(i, (s[i].0, v))) == pairs_to_map(s).insert(s[i].0, v),
        unique_keys(s.update(i, (s[i].0, v))),
    decreases s.len(),
{
    let s2 = s.update(i, (s[i].0, v));
    assert(unique_keys(s2)) by {
        assert forall|x: int, y: int|
            0 <= x < s2.len() && 0 <= y < s2.len() && x != y implies s2[x].0 != s2[y].0 by {
            assert(s2[x].0 == s[x].0 && s2[y].0 == s[y].0);
            assert(s[x].0 != s[y].0);
        }
    }
    if i == s.len() - 1 {
        assert(s2.drop_last() =~= s.drop_last());
        assert(s2.last() == (s[i].0, v));
    } else {
        assert(unique_keys(s.drop_last())) by {
            assert forall|x: int, y: int|
                0 <= x < s.drop_last().len() && 0 <= y < s.drop_last().len() && x != y implies s.drop_last()[x].0
                != s.drop_last()[y].0 by {
                assert(s[x].0 != s[y].0);
            }
        }
        assert(s.drop_last()[i] == s[i]);
        lemma_pairs_to_map_update(s.drop_last(), i, v);
        assert(s2.drop_last() =~= s.drop_last().update(i, (s[i].0, v)));
        assert(s2.last() == s.last());
        assert(s[i].0 != s.last().0);
        assert(pairs_to_map(s2) == pairs_to_map(s.drop_last()).insert(s[i].0, v).insert(
            s.last().0,
            s.last().1,
        ));
        assert(pairs_to_map(s.drop_last()).insert(s[i].0, v).insert(s.last().0, s.last().1)
            =~= pairs_to_map(s.drop_last()).insert(s.last().0, s.last().1).insert(s[i].0, v));
    }
}

/// A sequence of strings, seen as the sequence of their character views.
pub open spec fn views_of(v: Seq<String>) -> Seq<Seq<char>> {
    v.map_values(|s: String| s@)
}

/// Some string in `v` views to `c`.
pub open spec fn has_str(v: Seq<String>, c: Seq<char>) -> bool {
    exists|i: int| 0 <= i < v.len() && v[i]@ == c
}

/// The views in `v` are pairwise distinct.
pub open spec fn no_dup_views(v: Seq<String>) -> bool {
    forall|i: int, j: int| 0 <= i < v.len() && 0 <= j < v.len() && i != j ==> v[i]@ != v[j]@
}

/// The set of character views occurring in `v`.
pub open spec fn str_set(v: Seq<String>) -> Set<Seq<char>> {
    Set::new(|c: Seq<char>| has_str(v, c))
}

pub proof fn lemma_str_set_len(v: Seq<String>)
    ensures
        str_set(v).finite(),
        str_set(v).len() <= v.len(),
        no_dup_views(v) ==> str_set(v).len() == v.len(),
    decreases v.len(),
{
    if v.len() == 0 {
        assert(str_set(v) =~= Set::<Seq<char>>::empty());
    } else {
        let w = v.drop_last();
        lemma_str_set_len(w);
        assert forall|c: Seq<char>| has_str(w, c) implies has_str(v, c) by {
            let i = choose|i: int| 0 <= i < w.len() && w[i]@ == c;
            assert(v[i]@ == c);
        }
        if has_str(w, v.last()@) {
            assert(str_set(v) =~= str_set(w)) by {
                assert forall|c: Seq<char>| has_str(v, c) implies has_str(w, c) by {
                    let i = choose|i: int| 0 <= i < v.len() && v[i]@ == c;
                    if i == v.len() - 1 {
                        assert(has_str(w, c));
                    } else {
                        assert(w[i]@ == c);
                    }
                }
            }
            assert(!no_dup_views(v)) by {
                let i = choose|i: int| 0 <= i < w.len() && w[i]@ == v.last()@;
                assert(v[i]@ == v[v.len() - 1]@);
            }
        } else {
            assert(str_set(v) =~= str_set(w).insert(v.last()@)) by {
                assert forall|c: Seq<char>| has_str(v, c) implies str_set(w).insert(
                    v.last()@,
                ).contains(c) by {
                    let i = choose|i: int| 0 <= i < v.len() && v[i]@ == c;
                    if i < v.len() - 1 {
                        assert(w[i]@ == c);
                    }
                }
                assert(has_str(v, v.last()@)) by {
                    assert(v[v.len() - 1]@ == v.last()@);
                }
            }
            if no_dup_views(v) {
                assert(no_dup_views(w)) by {
                    assert forall|i: int, j: int|
                        0 <= i < w.len() && 0 <= j < w.len() && i != j implies w[i]@ != w[j]@ by {
                        assert(v[i]@ != v[j]@);
                    }
                }
            }
        }
    }
}

/// Number of occurrences of `t` in `s`.
pub open spec fn occ(s: Seq<Seq<char>>, t: Seq<char>) -> nat
    decreases s.len(),
{
    if s.len() == 0 {
        0
    } else {
        occ(s.drop_last(), t) + (if s.last() == t {
            1nat
        } else {
            0nat
        })
    }
}

pub proof fn lemma_occ_take(s: Seq<Seq<char>>, t: Seq<char>, j: int)
    requires
        0 <= j <= s.len(),
    ensures
        occ(s.take(j), t) <= occ(s, t),
        j < s.len() ==> occ(s.take(j + 1), t) == occ(s.take(j), t) + (if s[j] == t {
            1nat
        } else {
            0nat
        }),
    decreases s.len() - j,
{
    if j < s.len() {
        assert(s.take(j + 1).drop_last() =~= s.take(j));
        assert(s.take(j + 1).last() == s[j]);
        lemma_occ_take(s, t, j + 1);
    } else {
        assert(s.take(j) =~= s);
    }
}

/// Total number of dependency edges declared by the listed rules.
pub open spec fn total_deps(gs: Seq<(Seq<char>, RuleModel)>) -> nat
    decreases gs.len(),
{
    if gs.len() == 0 {
        0
    } else {
        total_deps(gs.drop_last()) + gs.last().1.deps.len()
    }
}

/// Number of dependency edges into `t` from rules whose label lies in `p`.
pub open spec fn refsum(gs: Seq<(Seq<char>, RuleModel)>, p: Set<Seq<char>>, t: Seq<char>) -> nat
    decreases gs.len(),
{
    if gs.len() == 0 {
        0
    } else {
        refsum(gs.drop_last(), p, t) + (if p.contains(gs.last().0) {
            occ(gs.last().1.deps, t)
        } else {
            0nat
        })
    }
}

/// Number of dependency edges into `t` declared by the rule labelled `x`
/// (zero if `x` labels no listed rule).
pub open spec fn key_occ(gs: Seq<(Seq<char>, RuleModel)>, x: Seq<char>, t: Seq<char>) -> nat
    decreases gs.len(),
{
    if gs.len() == 0 {
        0
    } else {
        key_occ(gs.drop_last(), x, t) + (if gs.last().0 == x {
            occ(gs.last().1.deps, t)
        } else {
            0nat
        })
    }
}

pub proof fn lemma_occ_le_len(s: Seq<Seq<char>>, t: Seq<char>)
    ensures
        occ(s, t) <= s.len(),
    decreases s.len(),
{
    if s.len() > 0 {
        lemma_occ_le_len(s.drop_last(), t);
    }
}

pub proof fn lemma_refsum_empty(gs: Seq<(Seq<char>, RuleModel)>, t: Seq<char>)
    ensures
        refsum(gs, Set::empty(), t) == 0,
    decreases gs.len(),
{
    if gs.len() > 0 {
        lemma_refsum_empty(gs.drop_last(), t);
    }
}

pub proof fn lemma_refsum_le_total(gs: Seq<(Seq<char>, RuleModel)>, p: Set<Seq<char>>, t: Seq<char>)
    ensures
        refsum(gs, p, t) <= total_deps(gs),
    decreases gs.len(),
{
    if gs.len() > 0 {
        lemma_refsum_le_total(gs.drop_last(), p, t);
        lemma_occ_le_len(gs.last().1.deps, t);
    }
}

pub proof fn lemma_refsum_insert(
    gs: Seq<(Seq<char>, RuleModel)>,
    p: Set<Seq<char>>,
    x: Seq<char>,
    t: Seq<char>,
)
    requires
        !p.contains(x),
    ensures
        refsum(gs, p.insert(x), t) == refsum(gs, p, t) + key_occ(gs, x, t),
    decreases gs.len(),
{
    if gs.len() > 0 {
        lemma_refsum_insert(gs.drop_last(), p, x, t);
    }
}

pub proof fn lemma_refsum_subset(
    gs: Seq<(Seq<char>, RuleModel)>,
    p: Set<Seq<char>>,
    q: Set<Seq<char>>,
    t: Seq<char>,
)
    requires
        p.subset_of(q),
    ensures
        refsum(gs, p, t) <= refsum(gs, q, t),
    decreases gs.len(),
{
    if gs.len() > 0 {
        lemma_refsum_subset(gs.drop_last(), p, q, t);
    }
}

pub proof fn lemma_refsum_disjoint_union(
    gs: Seq<(Seq<char>, RuleModel)>,
    p: Set<Seq<char>>,
    q: Set<Seq<char>>,
    t: Seq<char>,
)
    requires
        p.disjoint(q),
    ensures
        refsum(gs, p.union(q), t) == refsum(gs, p, t) + refsum(gs, q, t),
    decreases gs.len(),
{
    if gs.len() > 0 {
        lemma_refsum_disjoint_union(gs.drop_last(), p, q, t);
    }
}

pub proof fn lemma_key_occ_of_entry(gs: Seq<(Seq<char>, RuleModel)>, i: int, t: Seq<char>)
    requires
        unique_keys(gs),
        0 <= i < gs.len(),
    ensures
        key_occ(gs, gs[i].0, t) == occ(gs[i].1.deps, t),
    decreases gs.len(),
{
    if i == gs.len() - 1 {
        assert(key_occ(gs.drop_last(), gs[i].0, t) == 0) by {
            lemma_key_occ_absent(gs.drop_last(), gs[i].0, t);
        }
    } else {
        assert(unique_keys(gs.drop_last())) by {
            assert forall|x: int, y: int|
                0 <= x < gs.drop_last().len() && 0 <= y < gs.drop_last().len() && x
                    != y implies gs.drop_last()[x].0 != gs.drop_last()[y].0 by {
                assert(gs[x].0 != gs[y].0);
            }
        }
        assert(gs.drop_last()[i] == gs[i]);
        lemma_key_occ_of_entry(gs.drop_last(), i, t);
        assert(gs.last().0 != gs[i].0);
    }
}

pub proof fn lemma_key_occ_absent(gs: Seq<(Seq<char>, RuleModel)>, x: Seq<char>, t: Seq<char>)
    requires
        forall|i: int| 0 <= i < gs.len() ==> gs[i].0 != x,
    ensures
        key_occ(gs, x, t) == 0,
    decreases gs.len(),
{
    if gs.len() > 0 {
        assert forall|i: int| 0 <= i < gs.drop_last().len() implies gs.drop_last()[i].0 != x by {
            assert(gs[i].0 != x);
        }
        lemma_key_occ_absent(gs.drop_last(), x, t);
        assert(gs[gs.len() - 1].0 != x);
    }
}

/// The sequences in `s` are pairwise distinct.
pub open spec fn no_dup_chars(s: Seq<Seq<char>>) -> bool {
    forall|i: int, j: int| 0 <= i < s.len() && 0 <= j < s.len() && i != j ==> s[i] != s[j]
}

pub proof fn lemma_occ_pos(s: Seq<Seq<char>>, t: Seq<char>)
    ensures
        occ(s, t) > 0 <==> s.contains(t),
    decreases s.len(),
{
    if s.len() > 0 {
        lemma_occ_pos(s.drop_last(), t);
        if s.contains(t) && s.last() != t {
            let i = choose|i: int| 0 <= i < s.len() && s[i] == t;
            assert(s.drop_last()[i] == t);
        }
        if occ(s.drop_last(), t) > 0 {
            let i = choose|i: int| 0 <= i < s.drop_last().len() && s.drop_last()[i] == t;
            assert(s[i] == t);
        }
    }
}

pub proof fn lemma_refsum_zero_when_no_edges(
    gs: Seq<(Seq<char>, RuleModel)>,
    p: Set<Seq<char>>,
    t: Seq<char>,
)
    requires
        forall|i: int|
            0 <= i < gs.len() && p.contains(#[trigger] gs[i].0) ==> occ(gs[i].1.deps, t) == 0,
    ensures
        refsum(gs, p, t) == 0,
    decreases gs.len(),
{
    if gs.len() > 0 {
        assert forall|i: int|
            0 <= i < gs.drop_last().len() && p.contains(#[trigger] gs.drop_last()[i].0) implies occ(
            gs.drop_last()[i].1.deps,
            t,
        ) == 0 by {
            assert(gs.drop_last()[i] == gs[i]);
        }
        lemma_refsum_zero_when_no_edges(gs.drop_last(), p, t);
        assert(gs[gs.len() - 1] == gs.last());
    }
}

/// The rebuild count never exceeds the total number of listed changes.
pub proof fn lemma_rebuilds_le_total(
    gm: Map<Seq<char>, RuleModel>,
    hs: Seq<(Seq<char>, Seq<Seq<char>>)>,
    t: Seq<char>,
)
    requires
        unique_keys(hs),
    ensures
        rebuilds_of(gm, pairs_to_map(hs), t) <= total_changes(hs),
{
    let hm = pairs_to_map(hs);
    let listed = Set::new(|c: Seq<char>| listed_change(hs, c));
    lemma_listed_changes_card(hs);
    assert(commits_of(gm, hm, t).subset_of(listed)) by {
        assert forall|c: Seq<char>| commits_of(gm, hm, t).contains(c) implies listed.contains(
            c,
        ) by {
            let s = choose|s: Seq<char>|
                #[trigger] tsrc(gm, t, s) && match label_form(s) {
                    LabelForm::Local(p) => hm.dom().contains(p) && hm[p].contains(c),
                    _ => false,
                };
            match label_form(s) {
                LabelForm::Local(p) => {
                    lemma_pairs_to_map_dom(hs);
                    let i = choose|i: int| 0 <= i < hs.len() && hs[i].0 == p;
                    lemma_pairs_to_map_index(hs, i);
                    assert(hs[i].1.contains(c));
                },
                _ => {},
            }
        }
    }
    vstd::set_lib::lemma_len_subset(commits_of(gm, hm, t), listed);
}

/// `b` is reachable from `a` along at most `n` dependency edges.
pub open spec fn reaches_n(
    g: Map<Seq<char>, RuleModel>,
    a: Seq<char>,
    b: Seq<char>,
    n: nat,
) -> bool
    decreases n,
{
    a == b || (n > 0 && g.dom().contains(a) && exists|k: int|
        0 <= k < g[a].deps.len() && reaches_n(g, g[a].deps[k], b, (n - 1) as nat))
}

/// `b` is reachable from `a` along dependency edges (reflexively).
pub open spec fn reaches(g: Map<Seq<char>, RuleModel>, a: Seq<char>, b: Seq<char>) -> bool {
    exists|n: nat| reaches_n(g, a, b, n)
}

/// `x` lies on a dependency cycle.
pub open spec fn on_cycle(g: Map<Seq<char>, RuleModel>, x: Seq<char>) -> bool {
    g.dom().contains(x) && exists|k: int| 0 <= k < g[x].deps.len() && reaches(g, g[x].deps[k], x)
}

pub proof fn lemma_reaches_refl(g: Map<Seq<char>, RuleModel>, a: Seq<char>)
    ensures
        reaches(g, a, a),
{
    assert(reaches_n(g, a, a, 0));
}

pub proof fn lemma_reaches_step(g: Map<Seq<char>, RuleModel>, a: Seq<char>, k: int, b: Seq<char>)
    requires
        g.dom().contains(a),
        0 <= k < g[a].deps.len(),
        reaches(g, g[a].deps[k], b),
    ensures
        reaches(g, a, b),
{
    let n = choose|n: nat| reaches_n(g, g[a].deps[k], b, n);
    assert(reaches_n(g, a, b, n + 1));
}

pub proof fn lemma_reaches_n_mono(
    g: Map<Seq<char>, RuleModel>,
    a: Seq<char>,
    b: Seq<char>,
    n: nat,
    m: nat,
)
    requires
        reaches_n(g, a, b, n),
        n <= m,
    ensures
        reaches_n(g, a, b, m),
    decreases n,
{
    if a != b {
        let k = choose|k: int| 0 <= k < g[a].deps.len() && reaches_n(g, g[a].deps[k], b, (n - 1) as nat);
        lemma_reaches_n_mono(g, g[a].deps[k], b, (n - 1) as nat, (m - 1) as nat);
    }
}

/// Reachability extended by one edge on the right.
pub proof fn lemma_reaches_extend(
    g: Map<Seq<char>, RuleModel>,
    a: Seq<char>,
    b: Seq<char>,
    k: int,
)
    requires
        reaches(g, a, b),
        g.dom().contains(b),
        0 <= k < g[b].deps.len(),
    ensures
        reaches(g, a, g[b].deps[k]),
{
    let n = choose|n: nat| reaches_n(g, a, b, n);
    lemma_reaches_extend_n(g, a, b, k, n);
}

proof fn lemma_reaches_extend_n(
    g: Map<Seq<char>, RuleModel>,
    a: Seq<char>,
    b: Seq<char>,
    k: int,
    n: nat,
)
    requires
        reaches_n(g, a, b, n),
        g.dom().contains(b),
        0 <= k < g[b].deps.len(),
    ensures
        reaches(g, a, g[b].deps[k]),
    decreases n,
{
    if a == b {
        lemma_reaches_refl(g, g[b].deps[k]);
        lemma_reaches_step(g, b, k, g[b].deps[k]);
    } else {
        let j = choose|j: int| 0 <= j < g[a].deps.len() && reaches_n(g, g[a].deps[j], b, (n - 1) as nat);
        lemma_reaches_extend_n(g, g[a].deps[j], b, k, (n - 1) as nat);
        lemma_reaches_step(g, a, j, g[b].deps[k]);
    }
}

/// A set closed under outgoing edges is closed under reachability.
pub proof fn lemma_closed_under_reach(
    g: Map<Seq<char>, RuleModel>,
    p: Set<Seq<char>>,
    a: Seq<char>,
    b: Seq<char>,
)
    requires
        forall|x: Seq<char>, k: int|
            p.contains(x) && g.dom().contains(x) && 0 <= k < g[x].deps.len() ==> p.contains(
                #[trigger] g[x].deps[k],
            ),
        p.contains(a),
        reaches(g, a, b),
    ensures
        p.contains(b),
{
    let n = choose|n: nat| reaches_n(g, a, b, n);
    lemma_closed_under_reach_n(g, p, a, b, n);
}

proof fn lemma_closed_under_reach_n(
    g: Map<Seq<char>, RuleModel>,
    p: Set<Seq<char>>,
    a: Seq<char>,
    b: Seq<char>,
    n: nat,
)
    requires
        forall|x: Seq<char>, k: int|
            p.contains(x) && g.dom().contains(x) && 0 <= k < g[x].deps.len() ==> p.contains(
                #[trigger] g[x].deps[k],
            ),
        p.contains(a),
        reaches_n(g, a, b, n),
    ensures
        p.contains(b),
    decreases n,
{
    if a != b {
        let k = choose|k: int| 0 <= k < g[a].deps.len() && reaches_n(g, g[a].deps[k], b, (n - 1) as nat);
        lemma_closed_under_reach_n(g, p, g[a].deps[k], b, (n - 1) as nat);
    }
}

/// There is a dependency edge from `a` to `b`.
pub open spec fn edge_to(g: Map<Seq<char>, RuleModel>, a: Seq<char>, b: Seq<char>) -> bool {
    g.dom().contains(a) && g[a].deps.contains(b)
}

/// `pv` is the chain of in-progress ancestors above `t`: consecutive
/// elements are joined by edges, and the last one has an edge to `t`.
pub open spec fn path_chain(g: Map<Seq<char>, RuleModel>, pv: Seq<Seq<char>>, t: Seq<char>) -> bool {
    &&& forall|i: int| 0 <= i < pv.len() - 1 ==> edge_to(g, #[trigger] pv[i], pv[i + 1])
    &&& pv.len() > 0 ==> edge_to(g, pv.last(), t)
}

pub proof fn lemma_chain_reaches(
    g: Map<Seq<char>, RuleModel>,
    pv: Seq<Seq<char>>,
    t: Seq<char>,
    j: int,
)
    requires
        path_chain(g, pv, t),
        0 <= j < pv.len(),
    ensures
        reaches(g, pv[j], t),
    decreases pv.len() - j,
{
    if j == pv.len() - 1 {
        let k = choose|k: int| 0 <= k < g[pv[j]].deps.len() && g[pv[j]].deps[k] == t;
        lemma_reaches_refl(g, t);
        lemma_reaches_step(g, pv[j], k, t);
    } else {
        lemma_chain_reaches(g, pv, t, j + 1);
        let k = choose|k: int| 0 <= k < g[pv[j]].deps.len() && g[pv[j]].deps[k] == pv[j + 1];
        lemma_reaches_step(g, pv[j], k, t);
    }
}

/// A target that occurs on its own ancestor chain lies on a cycle.
pub proof fn lemma_path_member_on_cycle(
    g: Map<Seq<char>, RuleModel>,
    pv: Seq<Seq<char>>,
    t: Seq<char>,
    i: int,
)
    requires
        path_chain(g, pv, t),
        0 <= i < pv.len(),
        pv[i] == t,
    ensures
        on_cycle(g, t),
{
    if i == pv.len() - 1 {
        let k = choose|k: int| 0 <= k < g[t].deps.len() && g[t].deps[k] == t;
        lemma_reaches_refl(g, t);
    } else {
        lemma_chain_reaches(g, pv, t, i + 1);
        let k = choose|k: int| 0 <= k < g[t].deps.len() && g[t].deps[k] == pv[i + 1];
    }
}

/// A duplicate-free sequence drawn from a finite set is no longer than it.
pub proof fn lemma_distinct_in_dom(pv: Seq<String>, d: Set<Seq<char>>)
    requires
        no_dup_views(pv),
        forall|i: int| 0 <= i < pv.len() ==> d.contains(#[trigger] pv[i]@),
        d.finite(),
    ensures
        pv.len() <= d.len(),
    decreases pv.len(),
{
    if pv.len() > 0 {
        let d2 = d.remove(pv.last()@);
        assert forall|i: int| 0 <= i < pv.drop_last().len() implies d2.contains(
            #[trigger] pv.drop_last()[i]@,
        ) by {
            assert(pv.drop_last()[i] == pv[i]);
            assert(pv[i]@ != pv[pv.len() - 1]@);
        }
        assert(no_dup_views(pv.drop_last())) by {
            assert forall|i: int, j: int|
                0 <= i < pv.drop_last().len() && 0 <= j < pv.drop_last().len() && i
                    != j implies pv.drop_last()[i]@ != pv.drop_last()[j]@ by {
                assert(pv[i]@ != pv[j]@);
            }
        }
        assert(d.contains(pv[pv.len() - 1]@));
        assert(d2.len() == d.len() - 1);
        lemma_distinct_in_dom(pv.drop_last(), d2);
    }
}

pub proof fn lemma_pairs_to_map_finite<V>(s: Seq<(Seq<char>, V)>)
    ensures
        pairs_to_map(s).dom().finite(),
        pairs_to_map(s).dom().len() <= s.len(),
    decreases s.len(),
{
    if s.len() > 0 {
        lemma_pairs_to_map_finite(s.drop_last());
    }
}

/// `s` is a transitive source file of `t`: some rule reachable from `t`
/// declares it.
pub open spec fn tsrc(g: Map<Seq<char>, RuleModel>, t: Seq<char>, s: Seq<char>) -> bool {
    exists|x: Seq<char>|
        reaches(g, t, x) && g.dom().contains(x) && g[x].srcs.contains(s)
}

/// Change identifier `c` triggers a rebuild of `t`: some transitive source
/// file of `t` resolves to a local path whose history contains `c`.
pub open spec fn commit_triggers(
    g: Map<Seq<char>, RuleModel>,
    h: Map<Seq<char>, Seq<Seq<char>>>,
    t: Seq<char>,
    c: Seq<char>,
) -> bool {
    exists|s: Seq<char>|
        #[trigger] tsrc(g, t, s) && match label_form(s) {
            LabelForm::Local(p) => h.dom().contains(p) && h[p].contains(c),
            _ => false,
        }
}

/// All change identifiers that trigger a rebuild of `t`.
pub open spec fn commits_of(
    g: Map<Seq<char>, RuleModel>,
    h: Map<Seq<char>, Seq<Seq<char>>>,
    t: Seq<char>,
) -> Set<Seq<char>> {
    Set::new(|c: Seq<char>| commit_triggers(g, h, t, c))
}

/// The `rebuilds` count of `t`: the number of distinct triggering changes.
pub open spec fn rebuilds_of(
    g: Map<Seq<char>, RuleModel>,
    h: Map<Seq<char>, Seq<Seq<char>>>,
    t: Seq<char>,
) -> nat {
    commits_of(g, h, t).len()
}

/// Every source-file label of the rule parses (locally or as external).
pub open spec fn srcs_wf(r: RuleModel) -> bool {
    forall|j: int| 0 <= j < r.srcs.len() ==> !(label_form(#[trigger] r.srcs[j]) is Malformed)
}

/// Total number of change identifiers listed in the history.
pub open spec fn total_changes(hs: Seq<(Seq<char>, Seq<Seq<char>>)>) -> nat
    decreases hs.len(),
{
    if hs.len() == 0 {
        0
    } else {
        total_changes(hs.drop_last()) + hs.last().1.len()
    }
}

/// `c` is listed somewhere in the history.
pub open spec fn listed_change(hs: Seq<(Seq<char>, Seq<Seq<char>>)>, c: Seq<char>) -> bool {
    exists|i: int| 0 <= i < hs.len() && hs[i].1.contains(c)
}

pub proof fn lemma_listed_changes_card(hs: Seq<(Seq<char>, Seq<Seq<char>>)>)
    ensures
        Set::new(|c: Seq<char>| listed_change(hs, c)).finite(),
        Set::new(|c: Seq<char>| listed_change(hs, c)).len() <= total_changes(hs),
    decreases hs.len(),
{
    let full = Set::new(|c: Seq<char>| listed_change(hs, c));
    if hs.len() == 0 {
        assert(full =~= Set::<Seq<char>>::empty());
    } else {
        let w = hs.drop_last();
        lemma_listed_changes_card(w);
        let part = Set::new(|c: Seq<char>| listed_change(w, c));
        let lastset = hs.last().1.to_set();
        vstd::seq_lib::seq_to_set_is_finite::<Seq<char>>(hs.last().1);
        assert(lastset.finite());
        assert(full =~= part.union(lastset)) by {
            assert forall|c: Seq<char>| listed_change(hs, c) implies part.union(lastset).contains(
                c,
            ) by {
                let i = choose|i: int| 0 <= i < hs.len() && hs[i].1.contains(c);
                if i < hs.len() - 1 {
                    assert(w[i].1.contains(c));
                } else {
                    assert(hs.last().1.contains(c));
                    assert(lastset.contains(c));
                }
            }
            assert forall|c: Seq<char>| part.union(lastset).contains(c) implies listed_change(
                hs,
                c,
            ) by {
                if part.contains(c) {
                    let i = choose|i: int| 0 <= i < w.len() && w[i].1.contains(c);
                    assert(hs[i].1.contains(c));
                } else {
                    assert(hs.last().1.contains(c));
                    assert(hs[hs.len() - 1].1.contains(c));
                }
            }
        }
        assert(lastset.len() <= hs.last().1.len()) by {
            lemma_to_set_len_le(hs.last().1);
        }
        vstd::set_lib::lemma_len_union::<Seq<char>>(part, lastset);
        assert(full.len() <= part.len() + lastset.len());
    }
}

proof fn lemma_to_set_len_le<A>(s: Seq<A>)
    ensures
        s.to_set().finite(),
        s.to_set().len() <= s.len(),
    decreases s.len(),
{
    vstd::seq_lib::seq_to_set_is_finite::<A>(s);
    if s.len() == 0 {
        assert(s.to_set() =~= Set::<A>::empty());
    } else {
        lemma_to_set_len_le(s.drop_last());
        assert(s.to_set() =~= s.drop_last().to_set().insert(s.last())) by {
            assert forall|x: A| s.to_set().contains(x) implies s.drop_last().to_set().insert(
                s.last(),
            ).contains(x) by {
                let i = choose|i: int| 0 <= i < s.len() && s[i] == x;
                if i < s.len() - 1 {
                    assert(s.drop_last()[i] == x);
                    assert(s.drop_last().to_set().contains(x));
                }
            }
            assert forall|x: A| s.drop_last().to_set().insert(s.last()).contains(
                x,
            ) implies s.to_set().contains(x) by {
                if s.drop_last().to_set().contains(x) {
                    let i = choose|i: int| 0 <= i < s.drop_last().len() && s.drop_last()[i] == x;
                    assert(s[i] == x);
                } else {
                    assert(s[s.len() - 1] == x);
                }
            }
        }
    }
}

} // verus!
