//! The engine's general laws, stated over the same spec functions that the
//! public contracts use.

use vstd::prelude::*;

verus! {

use crate::labels::{label_form, LabelForm};
use crate::model::{
    RuleModel, reaches, on_cycle, tsrc, commits_of, rebuilds_of, srcs_wf, occ, refsum,
    lemma_closed_under_reach, lemma_refsum_zero_when_no_edges,
};
use crate::engine::{TargetModel, reach_of_roots, run_ok};

/// On a graph whose rules all exist, declare only parseable sources, and
/// lie on no cycle, a scoring run over any roots drawn from the graph
/// succeeds: together with the engine's contract, every such run returns
/// a full result table (and every record then carries `dependents >= 1`).
pub proof fn lemma_acyclic_run_succeeds(
    gm: Map<Seq<char>, RuleModel>,
    roots: Set<Seq<char>>,
)
    requires
        forall|x: Seq<char>, k: int|
            gm.dom().contains(x) && 0 <= k < gm[x].deps.len() ==> gm.dom().contains(
                #[trigger] gm[x].deps[k],
            ),
        forall|x: Seq<char>| #[trigger] gm.dom().contains(x) ==> !on_cycle(gm, x),
        forall|x: Seq<char>| #[trigger] gm.dom().contains(x) ==> srcs_wf(gm[x]),
        forall|rt: Seq<char>| #[trigger] roots.contains(rt) ==> gm.dom().contains(rt),
    ensures
        run_ok(gm, roots),
{
    assert forall|x: Seq<char>| #[trigger] reach_of_roots(gm, roots).contains(
        x,
    ) implies gm.dom().contains(x) && !on_cycle(gm, x) && srcs_wf(gm[x]) by {
        let rt = choose|rt: Seq<char>| #[trigger] roots.contains(rt) && reaches(gm, rt, x);
        lemma_closed_under_reach(gm, gm.dom(), rt, x);
    }
}

/// Scalar mode agrees with map mode: both contracts pin their count to
/// `rebuilds_of`, so the scalar result equals the `rebuilds` field that a
/// map run records for the same sole target over the same history.
pub proof fn lemma_scalar_agrees_with_map(
    gm: Map<Seq<char>, RuleModel>,
    hm: Map<Seq<char>, Seq<Seq<char>>>,
    t: Seq<char>,
    n: nat,
    rec: TargetModel,
)
    requires
        n == rebuilds_of(gm, hm, t),
        rec.rebuilds == rebuilds_of(gm, hm, t),
    ensures
        n == rec.rebuilds,
{
}

/// A target none of whose transitive source files resolves to a path
/// present in history rebuilds for no change at all.
pub proof fn lemma_no_resolvable_sources_no_rebuilds(
    gm: Map<Seq<char>, RuleModel>,
    hm: Map<Seq<char>, Seq<Seq<char>>>,
    t: Seq<char>,
)
    requires
        forall|s: Seq<char>|
            #[trigger] tsrc(gm, t, s) ==> match label_form(s) {
                LabelForm::Local(p) => !hm.dom().contains(p),
                _ => true,
            },
    ensures
        rebuilds_of(gm, hm, t) == 0,
{
    assert(commits_of(gm, hm, t) =~= Set::<Seq<char>>::empty());
}

/// The edge count that `dependents` adds up: when exactly one listed rule
/// both lies in the traversed set and declares edges into `t`, the sum is
/// exactly that rule's edge count.  With the engine's contract
/// (`dependents == 1 + refsum`), a target referenced by one traversed
/// rule through `k` edges ends with `dependents == 1 + k` — every edge
/// counts, even repeated edges from the same parent.
pub proof fn lemma_single_referrer_refsum(
    gs: Seq<(Seq<char>, RuleModel)>,
    p: Set<Seq<char>>,
    t: Seq<char>,
    i: int,
)
    requires
        0 <= i < gs.len(),
        p.contains(gs[i].0),
        forall|j: int|
            0 <= j < gs.len() && j != i ==> !p.contains(#[trigger] gs[j].0) || occ(
                gs[j].1.deps,
                t,
            ) == 0,
    ensures
        refsum(gs, p, t) == occ(gs[i].1.deps, t),
    decreases gs.len(),
{
    if i == gs.len() - 1 {
        assert forall|j: int|
            0 <= j < gs.drop_last().len() && p.contains(#[trigger] gs.drop_last()[j].0) implies occ(
            gs.drop_last()[j].1.deps,
            t,
        ) == 0 by {
            assert(gs.drop_last()[j] == gs[j]);
        }
        lemma_refsum_zero_when_no_edges(gs.drop_last(), p, t);
        assert(gs[gs.len() - 1] == gs.last());
    } else {
        assert forall|j: int|
            0 <= j < gs.drop_last().len() && j != i implies !p.contains(
            #[trigger] gs.drop_last()[j].0,
        ) || occ(gs.drop_last()[j].1.deps, t) == 0 by {
            assert(gs.drop_last()[j] == gs[j]);
        }
        assert(gs.drop_last()[i] == gs[i]);
        lemma_single_referrer_refsum(gs.drop_last(), p, t, i);
        assert(gs[gs.len() - 1] == gs.last());
        assert(!p.contains(gs.last().0) || occ(gs.last().1.deps, t) == 0);
    }
}

/// Every counted change traces back to a local source file found in
/// history: an external-reference source (remote marker prefix) never
/// contributes to `rebuilds`, and history is never consulted for it.
pub proof fn lemma_counted_change_has_local_source(
    gm: Map<Seq<char>, RuleModel>,
    hm: Map<Seq<char>, Seq<Seq<char>>>,
    t: Seq<char>,
    c: Seq<char>,
)
    requires
        commits_of(gm, hm, t).contains(c),
    ensures
        exists|s: Seq<char>|
            #[trigger] tsrc(gm, t, s) && !(label_form(s) is External) && match label_form(s) {
                LabelForm::Local(p) => hm.dom().contains(p) && hm[p].contains(c),
                _ => false,
            },
{
    let s = choose|s: Seq<char>|
        #[trigger] tsrc(gm, t, s) && match label_form(s) {
            LabelForm::Local(p) => hm.dom().contains(p) && hm[p].contains(c),
            _ => false,
        };
    assert(tsrc(gm, t, s) && !(label_form(s) is External) && match label_form(s) {
        LabelForm::Local(p) => hm.dom().contains(p) && hm[p].contains(c),
        _ => false,
    });
}

} // verus!
