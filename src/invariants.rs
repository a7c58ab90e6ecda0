use vstd::prelude::*;
use crate::algos::{dismountable, greedy_ok, pivot};
use crate::bits::{bit, lemma_vbit_or, popcount, vbit, vsubset};
use crate::cache::Cache;
use crate::tedges::TEdge;
use crate::tgraph::{auts_of, lemma_auts_of, preds_step, reach_run, TGraph};

verus! {

/// In every snapshot the placed-edge count is the number of bits of the placed-edge set, an
/// edge is placed exactly when its timestamp is non-zero, and no timestamp exceeds `tmax`.
pub proof fn lemma_placed_edges(g: &TGraph)
    requires
        g.inv(),
    ensures
        popcount(g.edges_bits) == g.nb_edges,
        forall|i: int|
            0 <= i < g.m() ==> (#[trigger] bit(g.edges_bits, i) <==> 1 <= g.times@[i] <= g.tmax),
{
}

proof fn lemma_preds_step_mono(p: Seq<u8>, n: int, u: int, v: int)
    requires
        p.len() == n,
        0 <= u < n,
        0 <= v < n,
    ensures
        preds_step(p, n, u, v).len() == n,
        forall|x: int| 0 <= x < n ==> vsubset(#[trigger] p[x], preds_step(p, n, u, v)[x]),
{
    let s = preds_step(p, n, u, v);
    assert forall|x: int| 0 <= x < n implies vsubset(#[trigger] p[x], s[x]) by {
        assert forall|i: int| 0 <= i < 8 && #[trigger] vbit(p[x], i) implies vbit(s[x], i) by {
            lemma_vbit_or(p[u], p[v], i);
            let full = crate::bits::full_set(n);
            let pu = if p[u] != full { p[u] | p[v] } else { p[u] };
            lemma_vbit_or(p[v], pu, i);
            lemma_vbit_or(p[u], p[v], i);
        }
    }
}

proof fn lemma_reach_run_mono(p: Seq<u8>, q: Seq<u8>, n: int, es: Seq<TEdge>)
    requires
        p.len() == n,
        forall|k: int| 0 <= k < es.len() ==> (#[trigger] es[k]).0 < n && es[k].1 < n,
    ensures
        reach_run(p, q, n, es).0.len() == n,
        forall|x: int| 0 <= x < n ==> vsubset(#[trigger] p[x], reach_run(p, q, n, es).0[x]),
    decreases es.len(),
{
    if es.len() > 0 {
        let es0 = es.drop_last();
        assert forall|k: int| 0 <= k < es0.len() implies (#[trigger] es0[k]).0 < n && es0[k].1 < n by {
            assert(es0[k] == es[k]);
        }
        lemma_reach_run_mono(p, q, n, es0);
        let p1 = reach_run(p, q, n, es0).0;
        let e = es.last();
        assert(e == es[es.len() - 1]);
        lemma_preds_step_mono(p1, n, e.0 as int, e.1 as int);
        let p2 = reach_run(p, q, n, es).0;
        assert forall|x: int| 0 <= x < n implies vsubset(#[trigger] p[x], p2[x]) by {
            assert(vsubset(p[x], p1[x]));
            assert(vsubset(p1[x], p2[x]));
        }
    }
}

/// A round only adds temporal predecessors, and every vertex stays its own predecessor.
pub proof fn lemma_preds_grow(p: &TGraph, c: &TGraph, ind: u32, cache: &Cache)
    requires
        p.wf(cache),
        c.wf(cache),
        c.is_child(p, ind, cache),
    ensures
        forall|x: int|
            0 <= x < p.n ==> vsubset(#[trigger] p.reachability.preds@[x], c.reachability.preds@[x])
                && vbit(c.reachability.preds@[x], x),
{
    crate::tgraph::lemma_nb_edges_bound(c);
    let es = c.edges@.subrange(p.nb_edges as int, c.nb_edges as int);
    assert forall|k: int| 0 <= k < es.len() implies (#[trigger] es[k]).0 < p.n && es[k].1 < p.n by {
        assert(es[k] == c.edges@[p.nb_edges + k]);
    }
    lemma_reach_run_mono(p.reachability.preds@, p.reachability.preds2@, p.n as int, es);
}

/// A round never enlarges the symmetry group, and once a snapshot has lost its symmetries
/// its children have none either.
pub proof fn lemma_group_shrinks(p: &TGraph, c: &TGraph, ind: u32, cache: &Cache)
    requires
        c.is_child(p, ind, cache),
    ensures
        p.gens is None ==> c.gens is None,
        c.gens is Some ==> p.gens is Some && c.gens->0@.len() <= p.gens->0@.len(),
        c.gens is Some ==> c.gens->0@.len() > 1,
{
    if p.gens is Some {
        let g = p.gens->0@;
        lemma_auts_of(cache, c.times@, g);
        if c.gens is Some {
            assert(c.gens->0@.map_values(|v: Vec<u8>| v@).len() == c.gens->0@.len());
        }
    }
}

/// The dismountability test, the pivot test and the deterministic spanner test depend on
/// the snapshot alone: equal snapshots get equal answers.
pub proof fn lemma_tests_depend_on_state(g1: &TGraph, g2: &TGraph, cache: &Cache)
    requires
        g1 == g2,
    ensures
        dismountable(g1) == dismountable(g2),
        pivot(g1, cache) == pivot(g2, cache),
        greedy_ok(g1) == greedy_ok(g2),
{
}

} // verus!
