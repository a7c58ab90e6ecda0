use vstd::prelude::*;
use rand::seq::SliceRandom;
use rand::thread_rng;
use std::collections::HashSet;
use crate::bits::{bit, full_set, lemma_bit_or, lemma_bit_single, lemma_vbit_and, lemma_vbit_or, vbit};
use crate::cache::Cache;
use crate::helper::{all_ones, nb_edges_of, nb_pairs, valid_n};
use crate::tedges::TEdge;
use crate::tgraph::{init_preds, lemma_nb_edges_bound, preds_step, reach_run, TGraph};
use crate::bits::{lemma_bit_zero, lemma_full_set, lemma_vbit_single, lemma_vbits_ext, vsubset};

verus! {

/// `2n - 3`: the fewest edges a temporally connected graph on `n` vertices can have.
pub open spec fn dnmt(n: int) -> int {
    2 * n - 3
}

/// The fast sufficient test of dismountability on the degree bookkeeping of `g`.
pub open spec fn dismountable(g: &TGraph) -> bool {
    let d = g.dismountability;
    d.mins & d.maxs != 0 || exists|u: int|
        0 <= u < g.n && #[trigger] d.missing_ng@[u] != 0 && d.missing_ng@[u] & d.mins
            == d.missing_ng@[u]
}

/// Every vertex is reached from every vertex.
pub open spec fn temporally_connected(g: &TGraph) -> bool {
    forall|x: int| 0 <= x < g.n ==> #[trigger] g.reachability.preds@[x] == full_set(g.n as int)
}

/// Predecessor sets after replaying the first `k` placed edges, leaving out those in
/// `removed` and the one at `skip`.
pub open spec fn replay(g: &TGraph, removed: u32, skip: int, k: int) -> Seq<u8>
    decreases k,
{
    if k <= 0 {
        Seq::new(g.n as nat, |x: int| 1u8 << (x as u8))
    } else {
        let p = replay(g, removed, skip, k - 1);
        let i = k - 1;
        let e = g.edges@[i];
        if i != skip && !bit(removed, i) {
            let pu = p[e.0 as int] | p[e.1 as int];
            p.update(e.0 as int, pu).update(e.1 as int, pu)
        } else {
            p
        }
    }
}

/// The placed edges outside `removed` and `skip` still connect every vertex to every vertex.
pub open spec fn tc_without(g: &TGraph, removed: u32, skip: int) -> bool {
    forall|x: int|
        0 <= x < g.n ==> #[trigger] replay(g, removed, skip, g.nb_edges as int)[x] == full_set(
            g.n as int,
        )
}

/// Pivot-predecessor sets once each of the first `k` edges, if absent, merges the sets
/// of its endpoints (one pass, reading the sets of `g`).
pub open spec fn pivot_merge(g: &TGraph, cache: &Cache, k: int) -> Seq<u8>
    decreases k,
{
    if k <= 0 {
        g.reachability.preds2@
    } else {
        let f = pivot_merge(g, cache, k - 1);
        let i = k - 1;
        let u = cache.edges@[i].0 as int;
        let v = cache.edges@[i].1 as int;
        let q = g.reachability.preds2@;
        if !bit(g.edges_bits, i) {
            f.update(u, f[u] | q[v]).update(v, f[v] | q[u])
        } else {
            f
        }
    }
}

/// The intersection of the first `k` sets of `s`, starting from `acc`.
pub open spec fn and_all(s: Seq<u8>, acc: u8, k: int) -> u8
    decreases k,
{
    if k <= 0 {
        acc
    } else {
        and_all(s, acc, k - 1) & s[k - 1]
    }
}

/// After the one-pass merge over absent edges, some vertex lies in every vertex's set.
pub open spec fn pivot(g: &TGraph, cache: &Cache) -> bool {
    and_all(pivot_merge(g, cache, nb_pairs(g.n as int)), full_set(g.n as int), g.n as int) != 0
}

/// Greedy removal state `(removed, count, stopped)` after trying the first `k` entries
/// of `order`; the search stops once the count reaches `nb_edges - (2n - 3)`, and does
/// not start when that target is not positive.
pub open spec fn removal_run(g: &TGraph, order: Seq<usize>, k: int) -> (u32, int, bool)
    decreases k,
{
    if k <= 0 {
        (0u32, 0, g.nb_edges - dnmt(g.n as int) <= 0)
    } else {
        let (rm, c, stop) = removal_run(g, order, k - 1);
        let i = order[k - 1] as int;
        if stop {
            (rm, c, stop)
        } else if tc_without(g, rm, i) {
            (rm | (1u32 << (i as u32)), c + 1, c + 1 == g.nb_edges - dnmt(g.n as int))
        } else {
            (rm, c, false)
        }
    }
}

/// When `g` is temporally connected, the edges kept by the removal in `order` still connect
/// every vertex to every vertex.
pub open spec fn kept_connected(g: &TGraph, order: Seq<usize>) -> bool {
    temporally_connected(g) ==> tc_without(
        g,
        removal_run(g, order, order.len() as int).0,
        g.nb_edges as int,
    )
}

/// Edges left after trying to remove the placed edges in `order`.
pub open spec fn spanner_size(g: &TGraph, order: Seq<usize>) -> int {
    g.nb_edges - removal_run(g, order, order.len() as int).1
}

/// The insertion order `0 .. k`.
pub open spec fn in_order(k: int) -> Seq<usize> {
    Seq::new(k as nat, |i: int| i as usize)
}

/// `order` lists the placed edges of `g` once each.
pub open spec fn is_order(g: &TGraph, order: Seq<usize>) -> bool {
    order.to_multiset() == in_order(g.nb_edges as int).to_multiset()
}

/// The deterministic part of the near-optimal spanner test.
pub open spec fn greedy_ok(g: &TGraph) -> bool {
    g.nb_edges >= 2 * g.n - 4 && temporally_connected(g) && spanner_size(
        g,
        in_order(g.nb_edges as int),
    ) <= dnmt(g.n as int)
}

/// Relies on rand's `SliceRandom::shuffle` with `thread_rng`: it only swaps entries of
/// the slice, so the same entries come back in a random order.
#[verifier::external_body]
fn shuffle_indices(v: &mut Vec<usize>)
    ensures
        final(v)@.to_multiset() == old(v)@.to_multiset(),
{
    v.shuffle(&mut thread_rng());
}

/// An ordering of `0 .. k` has `k` entries, each below `k`.
proof fn lemma_order_bounded(order: Seq<usize>, k: int)
    requires
        order.to_multiset() == in_order(k).to_multiset(),
        0 <= k,
    ensures
        order.len() == k,
        forall|i: int| 0 <= i < order.len() ==> (#[trigger] order[i] as int) < k,
{
    broadcast use vstd::seq_lib::group_to_multiset_ensures;

    assert(order.len() == order.to_multiset().len());
    assert(in_order(k).len() == in_order(k).to_multiset().len());
    assert forall|i: int| 0 <= i < order.len() implies (#[trigger] order[i] as int) < k by {
        assert(order.contains(order[i]));
        assert(in_order(k).to_multiset().count(order[i]) > 0);
        assert(in_order(k).contains(order[i]));
    }
}

proof fn lemma_removal_stopped(g: &TGraph, order: Seq<usize>, k: int, j: int)
    requires
        0 <= k <= j,
        removal_run(g, order, k).2,
    ensures
        removal_run(g, order, j) == removal_run(g, order, k),
    decreases j,
{
    if j > k {
        lemma_removal_stopped(g, order, k, j - 1);
    }
}

proof fn lemma_step_matches(p: Seq<u8>, n: int, u: int, v: int)
    requires
        valid_n(n),
        p.len() == n,
        0 <= u < n,
        0 <= v < n,
        u != v,
        forall|x: int| 0 <= x < n ==> vsubset(#[trigger] p[x], full_set(n)),
    ensures
        preds_step(p, n, u, v) == p.update(u, p[u] | p[v]).update(v, p[u] | p[v]),
        forall|x: int| 0 <= x < n ==> vsubset(#[trigger] preds_step(p, n, u, v)[x], full_set(n)),
{
    let f = full_set(n);
    let w = p[u] | p[v];
    assert(vsubset(p[u], f));
    assert(vsubset(p[v], f));
    assert forall|i: int| 0 <= i < 8 implies vbit(w, i) == (vbit(p[u], i) || vbit(p[v], i)) by {
        lemma_vbit_or(p[u], p[v], i);
    }
    if p[u] == f {
        assert forall|i: int| 0 <= i < 8 implies vbit(w, i) == vbit(f, i) by {}
        lemma_vbits_ext(w, f);
    }
    let pu = if p[u] != f { w } else { p[u] };
    assert(pu == w);
    let pv2 = p[v] | pu;
    assert forall|i: int| 0 <= i < 8 implies vbit(pv2, i) == vbit(w, i) by {
        lemma_vbit_or(p[v], pu, i);
    }
    lemma_vbits_ext(pv2, w);
    if p[v] == f {
        assert forall|i: int| 0 <= i < 8 implies vbit(w, i) == vbit(f, i) by {}
        lemma_vbits_ext(w, f);
    }
    let r = preds_step(p, n, u, v);
    assert(r =~= p.update(u, w).update(v, w));
    assert forall|x: int| 0 <= x < n implies vsubset(#[trigger] r[x], f) by {
        assert(vsubset(p[x], f));
    }
}

proof fn lemma_replay_matches(g: &TGraph, k: int)
    requires
        g.inv(),
        0 <= k <= g.nb_edges,
    ensures
        replay(g, 0u32, g.nb_edges as int, k) == reach_run(
            init_preds(g.n as int),
            Seq::new(g.n as nat, |x: int| 0u8),
            g.n as int,
            g.edges@.subrange(0, k),
        ).0,
        replay(g, 0u32, g.nb_edges as int, k).len() == g.n,
        forall|x: int|
            0 <= x < g.n ==> vsubset(
                #[trigger] replay(g, 0u32, g.nb_edges as int, k)[x],
                full_set(g.n as int),
            ),
    decreases k,
{
    let n = g.n as int;
    lemma_nb_edges_bound(g);
    if k == 0 {
        assert(g.edges@.subrange(0, 0) =~= Seq::<TEdge>::empty());
        assert(replay(g, 0u32, g.nb_edges as int, 0) =~= init_preds(n));
        assert forall|x: int| 0 <= x < n implies vsubset(
            #[trigger] replay(g, 0u32, g.nb_edges as int, k)[x],
            full_set(n),
        ) by {
            assert forall|i: int| 0 <= i < 8 && #[trigger] vbit(1u8 << (x as u8), i) implies vbit(full_set(n), i) by {
                lemma_vbit_single(x, i);
                lemma_full_set(n, i);
            }
        }
    } else {
        lemma_replay_matches(g, k - 1);
        lemma_bit_zero();
        assert(!bit(0u32, k - 1));
        let e = g.edges@[k - 1];
        let es = g.edges@.subrange(0, k);
        assert(es.drop_last() =~= g.edges@.subrange(0, k - 1));
        assert(es.last() == e);
        let p = replay(g, 0u32, g.nb_edges as int, k - 1);
        lemma_step_matches(p, n, e.0 as int, e.1 as int);
    }
}

/// The incremental predecessor sets are those of a replay of the placed edges, so the
/// tracker's connectivity is that of the placed edges.
pub proof fn lemma_tracker_is_replay(g: &TGraph)
    requires
        g.inv(),
    ensures
        g.reachability.preds@ == replay(g, 0u32, g.nb_edges as int, g.nb_edges as int),
        temporally_connected(g) == tc_without(g, 0u32, g.nb_edges as int),
{
    lemma_replay_matches(g, g.nb_edges as int);
}

/// Two replays agree when they keep the same edges.
proof fn lemma_replay_same(g: &TGraph, r1: u32, s1: int, r2: u32, s2: int, k: int)
    requires
        forall|i: int| 0 <= i < k ==> ((i != s1 && !bit(r1, i)) == (i != s2 && !bit(r2, i))),
    ensures
        replay(g, r1, s1, k) == replay(g, r2, s2, k),
    decreases k,
{
    if k > 0 {
        lemma_replay_same(g, r1, s1, r2, s2, k - 1);
        assert((k - 1 != s1 && !bit(r1, k - 1)) == (k - 1 != s2 && !bit(r2, k - 1)));
    }
}

pub fn select(g: &TGraph, cache: &Cache) -> (r: bool)
    requires
        g.wf(cache),
    ensures
        r ==> !dismountable(g) && !pivot(g, cache) && !greedy_ok(g),
        !dismountable(g) && !pivot(g, cache) && !(g.nb_edges >= 2 * g.n - 4
            && temporally_connected(g)) ==> r,
        !dismountable(g) && !pivot(g, cache) && !(exists|o: Seq<usize>|
            is_order(g, o) && spanner_size(g, o) <= dnmt(g.n as int)) ==> r,
{
    !(g.is_dismountable() || g.has_pivot_vertex(cache) || g.has_optimal_spanner(2))
}

impl TGraph {
    /// Whether every edge is placed.
    pub fn is_clique(&self) -> (r: bool)
        requires
            self.inv(),
        ensures
            r == (self.nb_edges == self.m()),
    {
        let m = nb_edges_of(self.n);
        self.nb_edges as usize == m
    }

    /// The fast dismountability test: a vertex is both a first and a last neighbour, or some
    /// vertex misses only first neighbours.
    pub fn is_dismountable(&self) -> (r: bool)
        requires
            self.inv(),
        ensures
            r == dismountable(self),
    {
        let mins = self.dismountability.mins;
        let maxs = self.dismountability.maxs;
        if mins & maxs != 0 {
            return true;
        }
        let missing_ng = &self.dismountability.missing_ng;
        let mut u: usize = 0;
        while u < self.n as usize
            invariant
                self.inv(),
                missing_ng == &self.dismountability.missing_ng,
                mins == self.dismountability.mins,
                u <= self.n,
                forall|w: int|
                    0 <= w < u ==> !(#[trigger] missing_ng@[w] != 0 && missing_ng@[w] & mins
                        == missing_ng@[w]),
            decreases self.n - u,
        {
            if missing_ng[u] != 0 && missing_ng[u] & mins == missing_ng[u] {
                return true;
            }
            u = u + 1;
        }
        false
    }

    /// Whether every vertex is reached from every vertex.
    pub fn is_tc(&self) -> (r: bool)
        requires
            self.inv(),
        ensures
            r == temporally_connected(self),
            r == tc_without(self, 0u32, self.nb_edges as int),
    {
        proof {
            lemma_tracker_is_replay(self);
        }
        let full = all_ones(self.n);
        let preds = &self.reachability.preds;
        let mut x: usize = 0;
        while x < self.n as usize
            invariant
                self.inv(),
                preds == &self.reachability.preds,
                full == full_set(self.n as int),
                x <= self.n,
                forall|w: int| 0 <= w < x ==> #[trigger] preds@[w] == full,
            decreases self.n - x,
        {
            if preds[x] != full {
                proof {
                    lemma_tracker_is_replay(self);
                }
                return false;
            }
            x = x + 1;
        }
        proof {
            lemma_tracker_is_replay(self);
        }
        true
    }

    /// Whether the placed edges, without those of `removed` and the one at `cand_remove`,
    /// still connect every vertex to every vertex; recomputed from scratch.
    pub fn is_tc_without(&self, removed: u32, cand_remove: usize) -> (r: bool)
        requires
            self.inv(),
        ensures
            r == tc_without(self, removed, cand_remove as int),
    {
        let n = self.n;
        let mut preds: Vec<u8> = Vec::new();
        let mut i: u8 = 0;
        while i < n
            invariant
                valid_n(n as int),
                i <= n,
                preds@ == Seq::new(i as nat, |x: int| 1u8 << (x as u8)),
            decreases n - i,
        {
            preds.push(1u8 << i);
            i = i + 1;
            assert(preds@ =~= Seq::new(i as nat, |x: int| 1u8 << (x as u8)));
        }
        let tedges = self.tedges();
        proof {
            lemma_nb_edges_bound(self);
        }
        let mut k: usize = 0;
        while k < tedges.len()
            invariant
                self.inv(),
                self.nb_edges <= 28,
                self.nb_edges <= self.edges@.len(),
                n == self.n,
                tedges@ == self.edges@.subrange(0, self.nb_edges as int),
                k <= tedges@.len(),
                preds@ == replay(self, removed, cand_remove as int, k as int),
                preds@.len() == n,
            decreases tedges@.len() - k,
        {
            let e = tedges[k];
            assert(e == self.edges@[k as int]);
            if k != cand_remove && removed & (1u32 << (k as u32)) == 0 {
                proof {
                    if k < 32 {
                        assert(!bit(removed, k as int));
                    }
                }
                let pu = preds[e.0 as usize] | preds[e.1 as usize];
                preds.set(e.0 as usize, pu);
                preds.set(e.1 as usize, pu);
            } else {
                proof {
                    if k != cand_remove {
                        assert(bit(removed, k as int));
                    }
                }
            }
            k = k + 1;
        }
        let full = all_ones(n);
        let mut x: usize = 0;
        while x < n as usize
            invariant
                n == self.n,
                valid_n(n as int),
                tedges@.len() == self.nb_edges,
                preds@ == replay(self, removed, cand_remove as int, self.nb_edges as int),
                preds@.len() == n,
                full == full_set(n as int),
                x <= n,
                forall|w: int| 0 <= w < x ==> #[trigger] preds@[w] == full,
            decreases n - x,
        {
            if preds[x] != full {
                return false;
            }
            x = x + 1;
        }
        true
    }

    /// Whether some vertex has no neighbour.
    pub fn has_isolated_vertex(&self) -> (r: bool)
        requires
            self.inv(),
        ensures
            r == exists|x: int| 0 <= x < self.n && #[trigger] self.dismountability.degrees@[x] == 0,
    {
        let degrees = &self.dismountability.degrees;
        let mut x: usize = 0;
        while x < degrees.len()
            invariant
                self.inv(),
                degrees == &self.dismountability.degrees,
                x <= degrees@.len(),
                forall|w: int| 0 <= w < x ==> #[trigger] degrees@[w] != 0,
            decreases degrees@.len() - x,
        {
            if degrees[x] == 0 {
                return true;
            }
            x = x + 1;
        }
        false
    }

    /// Whether a vertex is a pivot once every absent edge has merged, in one pass, the pivot
    /// predecessors of its endpoints.
    pub fn has_pivot_vertex(&self, cache: &Cache) -> (r: bool)
        requires
            self.wf(cache),
        ensures
            r == pivot(self, cache),
    {
        let n = self.n;
        let m = nb_edges_of(n);
        let q = &self.reachability.preds2;
        let mut fpreds2: Vec<u8> = Vec::new();
        let mut x: usize = 0;
        while x < q.len()
            invariant
                x <= q@.len(),
                fpreds2@ == q@.subrange(0, x as int),
            decreases q@.len() - x,
        {
            fpreds2.push(q[x]);
            x = x + 1;
        }
        proof {
            assert(q@.subrange(0, q@.len() as int) == q@);
        }
        let mut i: usize = 0;
        while i < m
            invariant
                self.wf(cache),
                n == self.n,
                q == &self.reachability.preds2,
                m as int == self.m(),
                m <= 28,
                i <= m,
                fpreds2@ == pivot_merge(self, cache, i as int),
                fpreds2@.len() == n,
            decreases m - i,
        {
            if self.edges_bits & (1u32 << (i as u32)) == 0 {
                proof {
                    assert(!bit(self.edges_bits, i as int));
                    crate::helper::lemma_edge_of_valid(n as int, i as int);
                }
                let te = cache.edges[i];
                let u = te.0 as usize;
                let v = te.1 as usize;
                let fu = fpreds2[u] | q[v];
                fpreds2.set(u, fu);
                let fv = fpreds2[v] | q[u];
                fpreds2.set(v, fv);
            } else {
                proof {
                    assert(bit(self.edges_bits, i as int));
                }
            }
            i = i + 1;
        }
        let mut inter: u8 = all_ones(n);
        let mut x: usize = 0;
        while x < fpreds2.len()
            invariant
                fpreds2@.len() == n,
                x <= n,
                inter == and_all(fpreds2@, full_set(n as int), x as int),
            decreases n - x,
        {
            inter = inter & fpreds2[x];
            x = x + 1;
        }
        inter != 0
    }

    /// Edges left after trying to remove the placed edges in the given order, each removal
    /// kept only if every vertex still reaches every vertex, until `nb_edges - (2n - 3)`
    /// edges are gone.
    pub fn spanner_size_in_order(&self, order: &[usize]) -> (r: u8)
        requires
            self.inv(),
            order@.len() <= self.nb_edges,
            forall|i: int| 0 <= i < order@.len() ==> (#[trigger] order@[i] as int) < self.nb_edges,
        ensures
            r as int == spanner_size(self, order@),
            r <= self.nb_edges,
            self.nb_edges <= dnmt(self.n as int) ==> r == self.nb_edges,
            r >= dnmt(self.n as int) || r == self.nb_edges,
            kept_connected(self, order@),
    {
        proof {
            lemma_nb_edges_bound(self);
            lemma_tracker_is_replay(self);
        }
        let target: i32 = self.nb_edges as i32 - (2 * self.n as i32 - 3);
        let mut removed: u32 = 0;
        let mut nb_removed: u8 = 0;
        let mut k: usize = 0;
        if target <= 0 {
            proof {
                lemma_removal_stopped(self, order@, 0, order@.len() as int);
            }
            return self.nb_edges;
        }
        proof {
            crate::bits::lemma_bit_zero();
        }
        while k < order.len()
            invariant_except_break
                removal_run(self, order@, k as int) == (removed, nb_removed as int, false),
                (nb_removed as i32) < target,
            invariant
                forall|i: int| self.nb_edges <= i < 32 ==> !bit(removed, i),
                (nb_removed as i32) <= target,
                temporally_connected(self) ==> tc_without(self, removed, self.nb_edges as int),
                self.inv(),
                self.nb_edges <= 28,
                target == self.nb_edges - dnmt(self.n as int),
                order@.len() <= self.nb_edges,
                forall|i: int| 0 <= i < order@.len() ==> (#[trigger] order@[i] as int) < self.nb_edges,
                k <= order@.len(),
                nb_removed <= k,
            ensures
                removal_run(self, order@, order@.len() as int).1 == nb_removed as int,
                removal_run(self, order@, order@.len() as int).0 == removed,
                nb_removed <= self.nb_edges,
                (nb_removed as i32) <= target,
                temporally_connected(self) ==> tc_without(self, removed, self.nb_edges as int),
            decreases order@.len() - k,
        {
            let i = order[k];
            if self.is_tc_without(removed, i) {
                let ghost old_removed = removed;
                removed = removed | (1u32 << (i as u32));
                proof {
                    assert forall|j: int| self.nb_edges <= j < 32 implies !bit(removed, j) by {
                        lemma_bit_or(old_removed, 1u32 << (i as u32), j);
                        lemma_bit_single(i as int, j);
                    }
                    assert forall|j: int| 0 <= j < self.nb_edges implies ((j != i as int && !bit(
                        old_removed,
                        j,
                    )) == (j != self.nb_edges as int && !bit(removed, j))) by {
                        lemma_bit_or(old_removed, 1u32 << (i as u32), j);
                        lemma_bit_single(i as int, j);
                    }
                    lemma_replay_same(
                        self,
                        old_removed,
                        i as int,
                        removed,
                        self.nb_edges as int,
                        self.nb_edges as int,
                    );
                }
                nb_removed = nb_removed + 1;
                k = k + 1;
                if nb_removed as i32 == target {
                    proof {
                        lemma_removal_stopped(self, order@, k as int, order@.len() as int);
                    }
                    break;
                }
            } else {
                k = k + 1;
            }
        }
        self.nb_edges - nb_removed
    }

    /// Spanner size when the placed edges are tried in insertion order.
    pub fn greedy_spanner_size(&self) -> (r: u8)
        requires
            self.inv(),
        ensures
            r as int == spanner_size(self, in_order(self.nb_edges as int)),
            r <= self.nb_edges,
            self.nb_edges <= dnmt(self.n as int) ==> r == self.nb_edges,
            r >= dnmt(self.n as int) || r == self.nb_edges,
            kept_connected(self, in_order(self.nb_edges as int)),
    {
        let order = insertion_order(self.nb_edges);
        self.spanner_size_in_order(order.as_slice())
    }

    /// Spanner size when the placed edges are tried in a random order.
    pub fn random_spanner_size(&self) -> (r: u8)
        requires
            self.inv(),
        ensures
            exists|o: Seq<usize>|
                is_order(self, o) && r as int == spanner_size(self, o) && kept_connected(self, o),
            r <= self.nb_edges,
            r >= dnmt(self.n as int) || r == self.nb_edges,
    {
        let mut order = insertion_order(self.nb_edges);
        shuffle_indices(&mut order);
        proof {
            lemma_order_bounded(order@, self.nb_edges as int);
        }
        self.spanner_size_in_order(order.as_slice())
    }

    /// Whether a spanner of at most `2n - 3` edges is found: first in insertion order, then in
    /// up to `nb_try - 1` random orders.
    pub fn has_optimal_spanner(&self, nb_try: u32) -> (r: bool)
        requires
            self.inv(),
        ensures
            r ==> self.nb_edges >= 2 * self.n - 4 && temporally_connected(self),
            r ==> exists|o: Seq<usize>|
                is_order(self, o) && spanner_size(self, o) <= dnmt(self.n as int) && kept_connected(
                    self,
                    o,
                ),
            greedy_ok(self) ==> r,
            nb_try <= 1 ==> r == greedy_ok(self),
            self.nb_edges == dnmt(self.n as int) && temporally_connected(self) ==> r,
    {
        let dnmt_n: u8 = 2 * self.n - 3;
        if self.nb_edges < (2 * self.n - 4) || !self.is_tc() {
            return false;
        }
        let g = self.greedy_spanner_size();
        if g <= dnmt_n {
            assert(is_order(self, in_order(self.nb_edges as int)));
            return true;
        }
        let mut i: u32 = 1;
        while i < nb_try
            invariant
                self.inv(),
                dnmt_n == dnmt(self.n as int),
                1 <= i,
                !greedy_ok(self),
                self.nb_edges >= 2 * self.n - 4 && temporally_connected(self),
            decreases nb_try - i,
        {
            if self.random_spanner_size() <= dnmt_n {
                return true;
            }
            i = i + 1;
        }
        false
    }
}

/// The indices `0 .. k`.
fn insertion_order(k: u8) -> (r: Vec<usize>)
    ensures
        r@ == in_order(k as int),
{
    let mut v: Vec<usize> = Vec::new();
    let mut i: u8 = 0;
    while i < k
        invariant
            i <= k,
            v@ == in_order(i as int),
        decreases k - i,
    {
        v.push(i as usize);
        i = i + 1;
        assert(v@ =~= in_order(i as int));
    }
    v
}

/// For each vertex `i < n`, the set `{i}`.
pub fn range_set_vec(n: u8) -> (r: Vec<HashSet<u8>>)
    ensures
        r@.len() == n,
        forall|i: int| 0 <= i < n ==> #[trigger] r@[i]@ == set![i as u8],
{
    let mut preds: Vec<HashSet<u8>> = Vec::new();
    let mut i: u8 = 0;
    while i < n
        invariant
            i <= n,
            preds@.len() == i,
            forall|k: int| 0 <= k < i ==> #[trigger] preds@[k]@ == set![k as u8],
        decreases n - i,
    {
        let mut set: HashSet<u8> = HashSet::new();
        set.insert(i);
        assert(set@ =~= set![i]);
        preds.push(set);
        i = i + 1;
    }
    preds
}

/// `n` empty vertex sets.
pub fn empty_set_vec(n: u8) -> (r: Vec<HashSet<u8>>)
    ensures
        r@.len() == n,
        forall|i: int| 0 <= i < n ==> #[trigger] r@[i]@ == Set::<u8>::empty(),
{
    let mut preds: Vec<HashSet<u8>> = Vec::new();
    let mut i: u8 = 0;
    while i < n
        invariant
            i <= n,
            preds@.len() == i,
            forall|k: int| 0 <= k < i ==> #[trigger] preds@[k]@ == Set::<u8>::empty(),
        decreases n - i,
    {
        let set: HashSet<u8> = HashSet::new();
        preds.push(set);
        i = i + 1;
    }
    preds
}

} // verus!
