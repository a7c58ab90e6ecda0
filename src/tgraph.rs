use vstd::prelude::*;
use itertools::Itertools;
use crate::bits::{
    bit, full_set, lemma_bit_and, lemma_bit_not, lemma_bit_or, lemma_bit_single, lemma_full_set,
    lemma_nbits_const, lemma_nbits_mono, lemma_nbits_ones, lemma_nbits_set, lemma_nbits_zero,
    lemma_vbit_or, lemma_vbit_single, nbits, popcount, vbit, vsubset,
};
use crate::cache::{Cache, cache_prefix, edge_range, get_indicators, is_matching, lemma_cache_entries, lemma_cache_prefix};
use crate::helper::{
    all_ones, bits_to_indices, count_bits, indices_to_bits, set_bits, edge_of, lemma_edge_of_valid, nb_edges_of, nb_pairs, untimed_edge, valid_n,
};
use crate::tedges::TEdge;

verus! {

/// Predecessor sets after an edge `{u, v}` is placed (see `Reachability::update`).
pub open spec fn preds_step(p: Seq<u8>, n: int, u: int, v: int) -> Seq<u8> {
    let full = full_set(n);
    let pu = if p[u] != full {
        p[u] | p[v]
    } else {
        p[u]
    };
    let pv = if p[v] != full {
        p[v] | pu
    } else {
        p[v]
    };
    p.update(u, pu).update(v, pv)
}

/// Pivot-predecessor sets after an edge `{u, v}` is placed, given the predecessor
/// sets `p` before it and `p2` after it.
pub open spec fn preds2_step(p: Seq<u8>, p2: Seq<u8>, q: Seq<u8>, n: int, u: int, v: int) -> Seq<
    u8,
> {
    let full = full_set(n);
    let qu = if p[u] != full && p2[u] == full {
        q[u] | (1u8 << (u as u8))
    } else {
        q[u]
    };
    let qv = if p[v] != full && p2[v] == full {
        q[v] | (1u8 << (v as u8))
    } else {
        q[v]
    };
    q.update(u, qu | qv).update(v, qu | qv)
}

/// Temporal predecessors of each vertex, and its pivot predecessors.
#[derive(Clone, Debug)]
pub struct Reachability {
    pub n: u8,
    /// `preds[x]`: the vertices that reach `x` by a path of non-decreasing timestamps.
    pub preds: Vec<u8>,
    /// `preds2[x]`: the universally reached vertices ("sinks") that reach `x`.
    pub preds2: Vec<u8>,
}

impl Reachability {
    pub open spec fn wf(&self) -> bool {
        &&& valid_n(self.n as int)
        &&& self.preds@.len() == self.n
        &&& self.preds2@.len() == self.n
        &&& forall|x: int| 0 <= x < self.n ==> vbit(#[trigger] self.preds@[x], x)
        &&& forall|x: int| 0 <= x < self.n ==> vsubset(#[trigger] self.preds@[x], full_set(self.n as int))
    }

    /// Every vertex reaches itself, and nothing else yet.
    pub fn new(n: u8) -> (r: Reachability)
        requires
            valid_n(n as int),
        ensures
            r.wf(),
            r.n == n,
            forall|x: int| 0 <= x < n ==> #[trigger] r.preds@[x] == 1u8 << (x as u8),
            forall|x: int| 0 <= x < n ==> #[trigger] r.preds2@[x] == 0,
    {
        let mut preds: Vec<u8> = Vec::new();
        let mut preds2: Vec<u8> = Vec::new();
        let mut i: u8 = 0;
        while i < n
            invariant
                valid_n(n as int),
                i <= n,
                preds@.len() == i,
                preds2@.len() == i,
                forall|x: int| 0 <= x < i ==> #[trigger] preds@[x] == 1u8 << (x as u8),
                forall|x: int| 0 <= x < i ==> #[trigger] preds2@[x] == 0,
            decreases n - i,
        {
            proof {
                lemma_vbit_single(i as int, i as int);
            }
            preds.push(1u8 << i);
            preds2.push(0);
            i = i + 1;
        }
        proof {
            assert forall|x: int| 0 <= x < n implies vbit(#[trigger] preds@[x], x) by {
                lemma_vbit_single(x, x);
            }
            assert forall|x: int| 0 <= x < n implies vsubset(#[trigger] preds@[x], full_set(n as int)) by {
                assert forall|i: int| 0 <= i < 8 && #[trigger] vbit(preds@[x], i) implies vbit(full_set(n as int), i) by {
                    lemma_vbit_single(x, i);
                    lemma_full_set(n as int, i);
                }
            }
        }
        Reachability { n, preds, preds2 }
    }

    /// Records the placed edge `{e.0, e.1}`: each endpoint not yet reached by every vertex
    /// takes over the predecessors of the other; both then share their pivot predecessors.
    pub fn update(&mut self, e: TEdge)
        requires
            old(self).wf(),
            e.0 < old(self).n,
            e.1 < old(self).n,
            e.0 != e.1,
        ensures
            final(self).wf(),
            final(self).n == old(self).n,
            final(self).preds@ == preds_step(old(self).preds@, old(self).n as int, e.0 as int, e.1 as int),
            final(self).preds2@ == preds2_step(
                old(self).preds@,
                final(self).preds@,
                old(self).preds2@,
                old(self).n as int,
                e.0 as int,
                e.1 as int,
            ),
            forall|x: int| 0 <= x < old(self).n ==> vsubset(#[trigger] old(self).preds@[x], final(self).preds@[x]),
    {
        let u = e.0 as usize;
        let v = e.1 as usize;
        let full = all_ones(self.n);
        let ghost p0 = self.preds@;
        let ghost n0 = self.n as int;
        let pu0 = self.preds[u];
        let pv0 = self.preds[v];
        if self.preds[u] != full {
            let pu = self.preds[u] | self.preds[v];
            self.preds.set(u, pu);
        }
        let mut qu = self.preds2[u];
        if pu0 != full && self.preds[u] == full {
            qu = qu | (1u8 << (u as u8));
        }
        if self.preds[v] != full {
            let pv = self.preds[v] | self.preds[u];
            self.preds.set(v, pv);
        }
        let mut qv = self.preds2[v];
        if pv0 != full && self.preds[v] == full {
            qv = qv | (1u8 << (v as u8));
        }
        let q = qu | qv;
        self.preds2.set(u, q);
        self.preds2.set(v, q);
        proof {
            assert(self.preds@ == preds_step(p0, n0, u as int, v as int));
            assert forall|x: int| 0 <= x < n0 implies vsubset(#[trigger] p0[x], self.preds@[x]) by {
                assert forall|i: int| 0 <= i < 8 && #[trigger] vbit(p0[x], i) implies vbit(
                    self.preds@[x],
                    i,
                ) by {
                    lemma_vbit_or(p0[u as int], p0[v as int], i);
                    lemma_vbit_or(p0[v as int], self.preds@[u as int], i);
                }
            }
            assert forall|x: int| 0 <= x < n0 implies vbit(#[trigger] self.preds@[x], x) by {
                assert(vbit(p0[x], x));
            }
            assert forall|x: int| 0 <= x < n0 implies vsubset(#[trigger] self.preds@[x], full_set(n0)) by {
                assert forall|i: int| 0 <= i < 8 && #[trigger] vbit(self.preds@[x], i) implies vbit(full_set(n0), i) by {
                    assert(vsubset(p0[u as int], full_set(n0)));
                    assert(vsubset(p0[v as int], full_set(n0)));
                    assert(vsubset(p0[x], full_set(n0)));
                    lemma_vbit_or(p0[u as int], p0[v as int], i);
                    lemma_vbit_or(p0[v as int], self.preds@[u as int], i);
                    assert(vbit(p0[u as int], i) ==> vbit(full_set(n0), i));
                    assert(vbit(p0[v as int], i) ==> vbit(full_set(n0), i));
                    assert(vbit(p0[x], i) ==> vbit(full_set(n0), i));
                }
            }
        }
    }
}

/// Degree bookkeeping for the dismountability test.
#[derive(Clone, Debug)]
pub struct Dismountability {
    pub n: u8,
    pub degrees: Vec<u8>,
    /// `missing_ng[x]`: the vertices other than `x` not yet adjacent to `x`.
    pub missing_ng: Vec<u8>,
    /// Vertices that are the first neighbour of some vertex.
    pub mins: u8,
    /// Vertices that are the last neighbour of some vertex.
    pub maxs: u8,
}

impl Dismountability {
    pub open spec fn wf(&self) -> bool {
        &&& valid_n(self.n as int)
        &&& self.degrees@.len() == self.n
        &&& self.missing_ng@.len() == self.n
    }

    /// No vertex has a neighbour yet.
    pub fn new(n: u8) -> (r: Dismountability)
        requires
            valid_n(n as int),
        ensures
            r.wf(),
            r.n == n,
            r.mins == 0,
            r.maxs == 0,
            forall|x: int| 0 <= x < n ==> #[trigger] r.degrees@[x] == 0,
            forall|x: int, y: int|
                0 <= x < n && 0 <= y < 8 ==> (#[trigger] vbit(r.missing_ng@[x], y) <==> (y < n && y
                    != x)),
    {
        let full = all_ones(n);
        let mut degrees: Vec<u8> = Vec::new();
        let mut missing_ng: Vec<u8> = Vec::new();
        let mut u: u8 = 0;
        while u < n
            invariant
                valid_n(n as int),
                full == full_set(n as int),
                u <= n,
                degrees@.len() == u,
                missing_ng@.len() == u,
                forall|x: int| 0 <= x < u ==> #[trigger] degrees@[x] == 0,
                forall|x: int, y: int|
                    0 <= x < u && 0 <= y < 8 ==> (#[trigger] vbit(missing_ng@[x], y) <==> (y < n
                        && y != x)),
            decreases n - u,
        {
            let mg = full ^ (1u8 << u);
            proof {
                assert forall|y: int| 0 <= y < 8 implies (vbit(mg, y) <==> (y < n && y != u)) by {
                    lemma_full_set(n as int, y);
                    lemma_vbit_single(u as int, y);
                    let yu = y as u8;
                    assert((full ^ (1u8 << u)) & (1u8 << yu) != 0 <==> ((full & (1u8 << yu) != 0)
                        != ((1u8 << u) & (1u8 << yu) != 0))) by (bit_vector)
                        requires
                            yu < 8,
                            u < 8,
                    ;
                }
            }
            degrees.push(0);
            missing_ng.push(mg);
            u = u + 1;
        }
        Dismountability { n, degrees, missing_ng, mins: 0, maxs: 0 }
    }

    /// Records the placed edge `{e.0, e.1}`.
    pub fn update(&mut self, e: TEdge)
        requires
            old(self).wf(),
            e.0 < old(self).n,
            e.1 < old(self).n,
            e.0 != e.1,
            old(self).degrees@[e.0 as int] < 255,
            old(self).degrees@[e.1 as int] < 255,
        ensures
            final(self).wf(),
            final(self).n == old(self).n,
            final(self).degrees@ == old(self).degrees@.update(
                e.0 as int,
                (old(self).degrees@[e.0 as int] + 1) as u8,
            ).update(e.1 as int, (old(self).degrees@[e.1 as int] + 1) as u8),
            final(self).missing_ng@ == old(self).missing_ng@.update(
                e.0 as int,
                old(self).missing_ng@[e.0 as int] & !(1u8 << e.1),
            ).update(e.1 as int, old(self).missing_ng@[e.1 as int] & !(1u8 << e.0)),
            final(self).mins == dism_mark(
                old(self).mins,
                old(self).degrees@[e.0 as int] + 1 == 1,
                old(self).degrees@[e.1 as int] + 1 == 1,
                e.0,
                e.1,
            ),
            final(self).maxs == dism_mark(
                old(self).maxs,
                old(self).degrees@[e.0 as int] + 1 == old(self).n - 1,
                old(self).degrees@[e.1 as int] + 1 == old(self).n - 1,
                e.0,
                e.1,
            ),
    {
        let u = e.0 as usize;
        let v = e.1 as usize;
        let du = self.degrees[u] + 1;
        self.degrees.set(u, du);
        let dv = self.degrees[v] + 1;
        self.degrees.set(v, dv);
        let mu = self.missing_ng[u] & !(1u8 << e.1);
        self.missing_ng.set(u, mu);
        let mv = self.missing_ng[v] & !(1u8 << e.0);
        self.missing_ng.set(v, mv);
        if du == 1 {
            self.mins = self.mins | (1u8 << e.1);
        }
        if dv == 1 {
            self.mins = self.mins | (1u8 << e.0);
        }
        if du == self.n - 1 {
            self.maxs = self.maxs | (1u8 << e.1);
        }
        if dv == self.n - 1 {
            self.maxs = self.maxs | (1u8 << e.0);
        }
    }
}

/// `s` with `v` added when `at_u` holds, then `u` added when `at_v` holds.
pub open spec fn dism_mark(s: u8, at_u: bool, at_v: bool, u: u8, v: u8) -> u8 {
    let s1 = if at_u {
        s | (1u8 << v)
    } else {
        s
    };
    if at_v {
        s1 | (1u8 << u)
    } else {
        s1
    }
}

/// `p` orders the vertices `0 .. n`.
pub open spec fn is_perm(n: int, p: Seq<u8>) -> bool {
    &&& p.len() == n
    &&& forall|i: int| 0 <= i < n ==> (#[trigger] p[i] as int) < n
    &&& p.no_duplicates()
}

/// Relies on itertools' `Itertools::permutations`: over the distinct values `0 .. n`
/// taken `n` at a time it yields every ordering of them, each once.
#[verifier::external_body]
fn all_permutations(n: u8) -> (r: Vec<Vec<u8>>)
    ensures
        forall|k: int| 0 <= k < r@.len() ==> is_perm(n as int, #[trigger] r@[k]@),
        forall|p: Seq<u8>|
            is_perm(n as int, p) ==> exists|k: int| 0 <= k < r@.len() && #[trigger] r@[k]@ == p,
{
    (0..n).permutations(n as usize).collect()
}

/// Under `p`, edge `i` is sent to an edge with the same timestamp.
pub open spec fn keeps_edge(cache: &Cache, times: Seq<u8>, p: Seq<u8>, i: int) -> bool {
    times[cache.e2i@[p[cache.edges@[i].0 as int] as int]@[p[cache.edges@[i].1 as int] as int] as int]
        == times[i]
}

/// `p` maps every edge to one with the same timestamp.
pub open spec fn is_aut(cache: &Cache, times: Seq<u8>, p: Seq<u8>) -> bool {
    forall|i: int| 0 <= i < cache.m() ==> #[trigger] keeps_edge(cache, times, p, i)
}

/// The permutations of `gs` that keep `times`, in order.
pub open spec fn auts_of(cache: &Cache, times: Seq<u8>, gs: Seq<Vec<u8>>) -> Seq<Seq<u8>>
    decreases gs.len(),
{
    if gs.len() == 0 {
        Seq::empty()
    } else {
        let prev = auts_of(cache, times, gs.drop_last());
        if is_aut(cache, times, gs.last()@) {
            prev.push(gs.last()@)
        } else {
            prev
        }
    }
}

pub proof fn lemma_auts_of(cache: &Cache, times: Seq<u8>, gs: Seq<Vec<u8>>)
    ensures
        auts_of(cache, times, gs).len() <= gs.len(),
        forall|k: int|
            0 <= k < auts_of(cache, times, gs).len() ==> exists|j: int|
                0 <= j < gs.len() && gs[j]@ == #[trigger] auts_of(cache, times, gs)[k],
    decreases gs.len(),
{
    if gs.len() > 0 {
        lemma_auts_of(cache, times, gs.drop_last());
        let prev = auts_of(cache, times, gs.drop_last());
        assert forall|k: int|
            0 <= k < auts_of(cache, times, gs).len() implies exists|j: int|
            0 <= j < gs.len() && gs[j]@ == #[trigger] auts_of(cache, times, gs)[k] by {
            if k < prev.len() {
                let j = choose|j: int| 0 <= j < gs.len() - 1 && gs.drop_last()[j]@ == prev[k];
                assert(gs[j]@ == auts_of(cache, times, gs)[k]);
            } else {
                assert(gs[gs.len() - 1]@ == auts_of(cache, times, gs)[k]);
            }
        }
    }
}

/// Whether the permutation `p` maps every edge to one with the same timestamp.
pub fn is_automorphism(times: &[u8], p: &[u8], cache: &Cache) -> (r: bool)
    requires
        cache.wf(),
        times@.len() == cache.m(),
        is_perm(cache.n as int, p@),
    ensures
        r == is_aut(cache, times@, p@),
{
    let m = nb_edges_of(cache.n);
    let mut i: usize = m;
    while i > 0
        invariant
            cache.wf(),
            m as int == cache.m(),
            times@.len() == m,
            is_perm(cache.n as int, p@),
            i <= m,
            forall|j: int| i <= j < m ==> #[trigger] keeps_edge(cache, times@, p@, j),
        decreases i,
    {
        i = i - 1;
        let e = cache.edges[i];
        proof {
            lemma_edge_of_valid(cache.n as int, i as int);
        }
        let a = p[e.0 as usize] as usize;
        let b = p[e.1 as usize] as usize;
        if a == b {
            proof {
                assert(p@[e.0 as int] == p@[e.1 as int]);
                assert(false);
            }
        }
        proof {
            if a < b {
                crate::helper::lemma_edge_of_pair(cache.n as int, a as int, b as int);
            } else {
                crate::helper::lemma_edge_of_pair(cache.n as int, b as int, a as int);
            }
        }
        let j = cache.e2i[a][b];
        if times[j] != times[i] {
            assert(!keeps_edge(cache, times@, p@, i as int));
            return false;
        }
    }
    true
}

/// The endpoints of the set bits of `ind` below `k`, stamped with `t`, in index order.
pub open spec fn stamped(n: int, ind: u32, k: int, t: u8) -> Seq<TEdge> {
    crate::helper::set_bits(ind, k).map_values(
        |i: int| TEdge(edge_of(n, i).0 as u8, edge_of(n, i).1 as u8, t),
    )
}

/// Each vertex reaches only itself.
pub open spec fn init_preds(n: int) -> Seq<u8> {
    Seq::new(n as nat, |x: int| 1u8 << (x as u8))
}

/// Placing `a` then `b` is placing `a + b`.
pub proof fn lemma_reach_run_append(p: Seq<u8>, q: Seq<u8>, n: int, a: Seq<TEdge>, b: Seq<TEdge>)
    ensures
        reach_run(p, q, n, a + b) == reach_run(
            reach_run(p, q, n, a).0,
            reach_run(p, q, n, a).1,
            n,
            b,
        ),
    decreases b.len(),
{
    if b.len() == 0 {
        assert(a + b =~= a);
    } else {
        lemma_reach_run_append(p, q, n, a, b.drop_last());
        assert((a + b).drop_last() =~= a + b.drop_last());
        assert((a + b).last() == b.last());
    }
}

/// Predecessor and pivot-predecessor sets after placing `es` in order.
pub open spec fn reach_run(p: Seq<u8>, q: Seq<u8>, n: int, es: Seq<TEdge>) -> (Seq<u8>, Seq<u8>)
    decreases es.len(),
{
    if es.len() == 0 {
        (p, q)
    } else {
        let (p1, q1) = reach_run(p, q, n, es.drop_last());
        let e = es.last();
        let p2 = preds_step(p1, n, e.0 as int, e.1 as int);
        (p2, preds2_step(p1, p2, q1, n, e.0 as int, e.1 as int))
    }
}

/// Degree bookkeeping `(degrees, missing_ng, mins, maxs)` after placing `es` in order.
pub open spec fn dism_run(d: Seq<u8>, g: Seq<u8>, mins: u8, maxs: u8, n: int, es: Seq<TEdge>) -> (
    Seq<u8>,
    Seq<u8>,
    u8,
    u8,
)
    decreases es.len(),
{
    if es.len() == 0 {
        (d, g, mins, maxs)
    } else {
        let (d1, g1, mi1, ma1) = dism_run(d, g, mins, maxs, n, es.drop_last());
        let e = es.last();
        let (u, v) = (e.0 as int, e.1 as int);
        (
            d1.update(u, (d1[u] + 1) as u8).update(v, (d1[v] + 1) as u8),
            g1.update(u, g1[u] & !(1u8 << e.1)).update(v, g1[v] & !(1u8 << e.0)),
            dism_mark(mi1, d1[u] + 1 == 1, d1[v] + 1 == 1, e.0, e.1),
            dism_mark(ma1, d1[u] + 1 == n - 1, d1[v] + 1 == n - 1, e.0, e.1),
        )
    }
}

/// A timestamped complete graph under construction: a snapshot after some rounds.
#[derive(Clone, Debug)]
pub struct TGraph {
    pub n: u8,
    pub tmax: u8,
    /// Timestamp of each edge, 0 while unplaced.
    pub times: Vec<u8>,
    /// The placed edges in order of placement, with their timestamps; the rest is filler.
    pub edges: Vec<TEdge>,
    pub edges_bits: u32,
    pub nb_edges: u8,
    /// Edges that the next round may place.
    pub cand_bits: u32,
    pub nb_cand_edges: usize,
    pub reachability: Reachability,
    pub dismountability: Dismountability,
    /// The vertex permutations that keep every timestamp, while there are more than one.
    pub gens: Option<Vec<Vec<u8>>>,
}

impl TGraph {
    pub open spec fn m(&self) -> int {
        nb_pairs(self.n as int)
    }

    /// The invariant of every snapshot.
    pub open spec fn inv(&self) -> bool {
        let n = self.n as int;
        let m = self.m();
        &&& valid_n(n)
        &&& self.times@.len() == m
        &&& self.edges@.len() == m
        &&& forall|i: int| 0 <= i < m ==> (#[trigger] bit(self.edges_bits, i) <==> self.times@[i] != 0)
        &&& forall|i: int| 0 <= i < m ==> #[trigger] self.times@[i] <= self.tmax
        &&& forall|i: int| m <= i < 32 ==> !#[trigger] bit(self.edges_bits, i)
        &&& self.nb_edges as int == popcount(self.edges_bits)
        &&& self.tmax <= self.nb_edges
        &&& forall|i: int| 0 <= i < 32 ==> !(#[trigger] bit(self.cand_bits, i) && bit(self.edges_bits, i))
        &&& self.nb_cand_edges as int == nbits(self.cand_bits, m)
        &&& forall|k: int|
            0 <= k < self.nb_edges ==> (#[trigger] self.edges@[k]).0 < n && self.edges@[k].1 < n
                && self.edges@[k].0 != self.edges@[k].1 && 1 <= self.edges@[k].2 <= self.tmax
        &&& self.reachability.wf()
        &&& self.reachability.n == self.n
        &&& (self.reachability.preds@, self.reachability.preds2@) == reach_run(
            init_preds(n),
            Seq::new(n as nat, |x: int| 0u8),
            n,
            self.edges@.subrange(0, self.nb_edges as int),
        )
        &&& self.dismountability.wf()
        &&& self.dismountability.n == self.n
        &&& forall|x: int| 0 <= x < n ==> #[trigger] self.dismountability.degrees@[x] <= self.nb_edges
        &&& self.gens is Some ==> forall|k: int|
            0 <= k < self.gens->0@.len() ==> is_perm(n, #[trigger] self.gens->0@[k]@)
        &&& self.gens is Some ==> self.gens->0@.len() > 1 || self.nb_edges == 0
    }

    pub open spec fn wf(&self, cache: &Cache) -> bool {
        &&& cache.wf()
        &&& cache.n == self.n
        &&& self.inv()
    }

    /// `self` extends `p` by the round `ind`.
    pub open spec fn is_child(&self, p: &TGraph, ind: u32, cache: &Cache) -> bool {
        let n = p.n as int;
        let m = p.m();
        let t = (p.tmax + 1) as u8;
        let new_edges = stamped(n, ind, m, t);
        &&& self.n == p.n
        &&& self.tmax == t
        &&& self.times@ == Seq::new(
            m as nat,
            |i: int|
                if bit(ind, i) {
                    t
                } else {
                    p.times@[i]
                },
        )
        &&& self.edges_bits == p.edges_bits | ind
        &&& self.nb_edges == p.nb_edges + popcount(ind)
        &&& forall|i: int|
            0 <= i < 32 ==> (#[trigger] bit(self.cand_bits, i) <==> (!bit(self.edges_bits, i)
                && exists|s: int|
                0 <= s < m && bit(ind, s) && bit(cache.adjacent_bits@[s], i)))
        &&& self.edges@.subrange(0, p.nb_edges as int) == p.edges@.subrange(0, p.nb_edges as int)
        &&& self.edges@.subrange(p.nb_edges as int, self.nb_edges as int) == new_edges
        &&& (self.reachability.preds@, self.reachability.preds2@) == reach_run(
            p.reachability.preds@,
            p.reachability.preds2@,
            n,
            new_edges,
        )
        &&& (
            self.dismountability.degrees@,
            self.dismountability.missing_ng@,
            self.dismountability.mins,
            self.dismountability.maxs,
        ) == dism_run(
            p.dismountability.degrees@,
            p.dismountability.missing_ng@,
            p.dismountability.mins,
            p.dismountability.maxs,
            n,
            new_edges,
        )
        &&& match p.gens {
            None => self.gens is None,
            Some(g) => {
                let f = auts_of(cache, self.times@, g@);
                if f.len() > 1 {
                    self.gens is Some && self.gens->0@.map_values(|v: Vec<u8>| v@) == f
                } else {
                    self.gens is None
                }
            },
        }
    }

    /// The empty graph on `n` vertices: every edge is a candidate, every permutation a symmetry.
    pub fn new(n: u8) -> (r: TGraph)
        requires
            valid_n(n as int),
        ensures
            r.inv(),
            r.n == n,
            r.tmax == 0,
            r.nb_edges == 0,
            r.edges_bits == 0,
            r.nb_cand_edges == r.m(),
            r.cand_bits == !0u32,
            r.times@ == Seq::new(r.m() as nat, |i: int| 0u8),
            forall|x: int| 0 <= x < n ==> #[trigger] r.reachability.preds@[x] == 1u8 << (x as u8),
            forall|x: int| 0 <= x < n ==> #[trigger] r.reachability.preds2@[x] == 0,
            forall|x: int| 0 <= x < n ==> #[trigger] r.dismountability.degrees@[x] == 0,
            forall|x: int, y: int|
                0 <= x < n && 0 <= y < 8 ==> (#[trigger] vbit(r.dismountability.missing_ng@[x], y)
                    <==> (y < n && y != x)),
            r.dismountability.mins == 0,
            r.dismountability.maxs == 0,
            r.gens is Some,
            forall|p: Seq<u8>|
                is_perm(n as int, p) ==> exists|k: int|
                    0 <= k < r.gens->0@.len() && #[trigger] r.gens->0@[k]@ == p,
    {
        let m = nb_edges_of(n);
        let mut times: Vec<u8> = Vec::new();
        let mut edges: Vec<TEdge> = Vec::new();
        let mut i: usize = 0;
        while i < m
            invariant
                i <= m,
                times@.len() == i,
                edges@.len() == i,
                forall|j: int| 0 <= j < i ==> #[trigger] times@[j] == 0,
            decreases m - i,
        {
            times.push(0);
            edges.push(TEdge(0, 0, 0));
            i = i + 1;
        }
        proof {
            crate::bits::lemma_bit_zero();
            lemma_nbits_zero(32);
            lemma_nbits_ones(m as int);
        }
        let gens = all_permutations(n);
        let ghost g = gens@;
        assert(times@ =~= Seq::new(m as nat, |i: int| 0u8));
        let reachability = Reachability::new(n);
        proof {
            assert(edges@.subrange(0, 0) =~= Seq::<TEdge>::empty());
            assert(reachability.preds@ =~= init_preds(n as int));
            assert(reachability.preds2@ =~= Seq::new(n as nat, |x: int| 0u8));
        }
        let r = TGraph {
            n,
            tmax: 0,
            times,
            edges,
            edges_bits: 0,
            nb_edges: 0,
            cand_bits: !0u32,
            nb_cand_edges: m,
            reachability,
            dismountability: Dismountability::new(n),
            gens: Some(gens),
        };
        proof {
            assert forall|p: Seq<u8>| is_perm(n as int, p) implies exists|k: int|
                0 <= k < r.gens->0@.len() && #[trigger] r.gens->0@[k]@ == p by {
                let k = choose|k: int| 0 <= k < g.len() && #[trigger] g[k]@ == p;
                assert(r.gens->0@[k]@ == p);
            }
        }
        r
    }

    /// The largest timestamp.
    pub fn tmax(&self) -> (r: u8)
        ensures
            r == self.tmax,
    {
        self.tmax
    }

    /// Whether the snapshot still carries a non-trivial symmetry group.
    pub fn has_symmetries(&self) -> (r: bool)
        ensures
            r == (self.gens is Some),
    {
        self.gens.is_some()
    }

    /// The placed edges with their timestamps, in order of placement.
    pub fn tedges(&self) -> (r: &[TEdge])
        requires
            self.inv(),
        ensures
            r@ == self.edges@.subrange(0, self.nb_edges as int),
    {
        proof {
            lemma_nb_edges_bound(self);
        }
        &self.edges.as_slice()[0..self.nb_edges as usize]
    }

    /// The temporal predecessor set of each vertex.
    pub fn predecessors(&self) -> (r: &Vec<u8>)
        ensures
            r@ == self.reachability.preds@,
    {
        &self.reachability.preds
    }
}

fn copy_bytes(v: &Vec<u8>) -> (r: Vec<u8>)
    ensures
        r@ == v@,
{
    let mut r: Vec<u8> = Vec::new();
    let mut i: usize = 0;
    while i < v.len()
        invariant
            i <= v@.len(),
            r@ == v@.subrange(0, i as int),
        decreases v@.len() - i,
    {
        r.push(v[i]);
        i = i + 1;
    }
    proof {
        assert(v@.subrange(0, v@.len() as int) == v@);
    }
    r
}

fn copy_edges(v: &Vec<TEdge>) -> (r: Vec<TEdge>)
    ensures
        r@ == v@,
{
    let mut r: Vec<TEdge> = Vec::new();
    let mut i: usize = 0;
    while i < v.len()
        invariant
            i <= v@.len(),
            r@ == v@.subrange(0, i as int),
        decreases v@.len() - i,
    {
        r.push(v[i]);
        i = i + 1;
    }
    proof {
        assert(v@.subrange(0, v@.len() as int) == v@);
    }
    r
}

impl TGraph {
    /// The snapshot after one more round, which places the edges of `indicators`
    /// with the next timestamp.
    pub fn extends_by(&self, indicators: &u32, cache: &Cache) -> (r: TGraph)
        requires
            self.wf(cache),
            forall|i: int|
                0 <= i < 32 && #[trigger] bit(*indicators, i) ==> bit(self.cand_bits, i) && i
                    < self.m(),
            is_matching(self.n as int, *indicators),
            popcount(*indicators) >= 1,
        ensures
            r.wf(cache),
            r.is_child(self, *indicators, cache),
            forall|x: int|
                0 <= x < self.n ==> vsubset(
                    #[trigger] self.reachability.preds@[x],
                    r.reachability.preds@[x],
                ),
            self.gens is None ==> r.gens is None,
            r.gens is Some ==> self.gens is Some && r.gens->0@.len() <= self.gens->0@.len(),
    {
        let ind = *indicators;
        let ghost n = self.n as int;
        let m = nb_edges_of(self.n);
        proof {
            lemma_nb_edges_bound(self);
        }
        let t: u8 = self.tmax + 1;
        let mut times = copy_bytes(&self.times);
        let mut edges = copy_edges(&self.edges);
        let mut reachability = Reachability {
            n: self.reachability.n,
            preds: copy_bytes(&self.reachability.preds),
            preds2: copy_bytes(&self.reachability.preds2),
        };
        let mut dismountability = Dismountability {
            n: self.dismountability.n,
            degrees: copy_bytes(&self.dismountability.degrees),
            missing_ng: copy_bytes(&self.dismountability.missing_ng),
            mins: self.dismountability.mins,
            maxs: self.dismountability.maxs,
        };
        let edges_bits = self.edges_bits | ind;
        proof {
            assert forall|j: int| 0 <= j < 32 implies !(bit(self.edges_bits, j) && bit(ind, j)) by {
            }
            crate::bits::lemma_nbits_disjoint_or(self.edges_bits, ind, 32);
            assert forall|j: int| m <= j < 32 implies !bit(edges_bits, j) by {
                lemma_bit_or(self.edges_bits, ind, j);
            }
            lemma_nbits_const(edges_bits, m as int, 32);
            lemma_nbits_mono(edges_bits, m as int, m as int);
            crate::bits::lemma_bit_zero();
            assert(crate::helper::set_bits(ind, 0) == Seq::<int>::empty());
            assert(self.edges@.subrange(self.nb_edges as int, self.nb_edges as int) =~= stamped(
                n,
                ind,
                0,
                t,
            ));
        }
        let mut cand_bits: u32 = 0;
        let mut nb_edges = self.nb_edges;
        let mut i: usize = 0;
        while i < m
            invariant
                self.wf(cache),
                n == self.n as int,
                m as int == self.m(),
                m <= 28,
                i <= m,
                t == self.tmax + 1,
                ind == *indicators,
                edges_bits == self.edges_bits | ind,
                popcount(edges_bits) == self.nb_edges + popcount(ind),
                popcount(edges_bits) <= m,
                forall|j: int| 0 <= j < 32 && #[trigger] bit(ind, j) ==> bit(self.cand_bits, j) && j < m,
                times@ == Seq::new(
                    m as nat,
                    |j: int|
                        if j < i && bit(ind, j) {
                            t
                        } else {
                            self.times@[j]
                        },
                ),
                nb_edges == self.nb_edges + nbits(ind, i as int),
                forall|j: int|
                    0 <= j < 32 ==> (#[trigger] bit(cand_bits, j) <==> exists|s: int|
                        0 <= s < i && bit(ind, s) && bit(cache.adjacent_bits@[s], j)),
                edges@.len() == m,
                edges@.subrange(0, self.nb_edges as int) == self.edges@.subrange(
                    0,
                    self.nb_edges as int,
                ),
                edges@.subrange(self.nb_edges as int, nb_edges as int) == stamped(n, ind, i as int, t),
                forall|k: int|
                    0 <= k < nb_edges ==> (#[trigger] edges@[k]).0 < n && edges@[k].1 < n
                        && edges@[k].0 != edges@[k].1 && 1 <= edges@[k].2 <= t,
                reachability.wf(),
                reachability.n == self.n,
                (reachability.preds@, reachability.preds2@) == reach_run(
                    self.reachability.preds@,
                    self.reachability.preds2@,
                    n,
                    stamped(n, ind, i as int, t),
                ),
                forall|x: int|
                    0 <= x < n ==> vsubset(
                        #[trigger] self.reachability.preds@[x],
                        reachability.preds@[x],
                    ),
                dismountability.wf(),
                dismountability.n == self.n,
                (
                    dismountability.degrees@,
                    dismountability.missing_ng@,
                    dismountability.mins,
                    dismountability.maxs,
                ) == dism_run(
                    self.dismountability.degrees@,
                    self.dismountability.missing_ng@,
                    self.dismountability.mins,
                    self.dismountability.maxs,
                    n,
                    stamped(n, ind, i as int, t),
                ),
                forall|x: int| 0 <= x < n ==> #[trigger] dismountability.degrees@[x] <= nb_edges,
            decreases m - i,
        {
            let ghost old_edges = edges@;
            let ghost old_cand = cand_bits;
            let ghost old_nb = nb_edges;
            let ghost old_reach = reachability.preds@;
            let ghost old_st = stamped(n, ind, i as int, t);
            proof {
                lemma_nbits_mono(ind, i as int + 1, 32);
            }
            if ind & (1u32 << (i as u32)) != 0 {
                assert(bit(ind, i as int));
                times.set(i, t);
                cand_bits = cand_bits | cache.adjacent_bits[i];
                let ce = cache.edges[i];
                proof {
                    lemma_edge_of_valid(n, i as int);
                }
                let ne = TEdge(ce.0, ce.1, t);
                edges.set(nb_edges as usize, ne);
                nb_edges = nb_edges + 1;
                reachability.update(ne);
                dismountability.update(ne);
                proof {
                    assert(crate::helper::set_bits(ind, i + 1) == crate::helper::set_bits(
                        ind,
                        i as int,
                    ).push(i as int));
                    let st = stamped(n, ind, i + 1, t);
                    assert(st =~= old_st.push(ne));
                    assert(st.drop_last() == old_st);
                    assert(edges@.subrange(self.nb_edges as int, nb_edges as int) =~= st);
                    assert(edges@.subrange(0, self.nb_edges as int) =~= self.edges@.subrange(
                        0,
                        self.nb_edges as int,
                    ));
                    assert forall|j: int|
                        0 <= j < 32 implies (#[trigger] bit(cand_bits, j) <==> exists|s: int|
                        0 <= s < i + 1 && bit(ind, s) && bit(cache.adjacent_bits@[s], j)) by {
                        lemma_bit_or(old_cand, cache.adjacent_bits@[i as int], j);
                    }
                    assert forall|x: int|
                        0 <= x < n implies vsubset(
                        #[trigger] self.reachability.preds@[x],
                        reachability.preds@[x],
                    ) by {
                        assert(vsubset(old_reach[x], reachability.preds@[x]));
                    }
                    assert forall|k: int|
                        0 <= k < nb_edges implies (#[trigger] edges@[k]).0 < n && edges@[k].1 < n
                        && edges@[k].0 != edges@[k].1 && 1 <= edges@[k].2 <= t by {
                        if k < old_nb {
                            assert(edges@[k] == old_edges[k]);
                        }
                    }
                }
            } else {
                proof {
                    assert(crate::helper::set_bits(ind, i + 1) == crate::helper::set_bits(
                        ind,
                        i as int,
                    ));
                }
            }
            i = i + 1;
            proof {
                assert(times@ =~= Seq::new(
                    m as nat,
                    |j: int|
                        if j < i && bit(ind, j) {
                            t
                        } else {
                            self.times@[j]
                        },
                ));
            }
        }
        let ghost pre_cand = cand_bits;
        cand_bits = cand_bits & !edges_bits;
        let nb_cand_edges = count_bits(cand_bits) as usize;
        proof {
            lemma_nbits_const(ind, m as int, 32);
            assert forall|j: int|
                0 <= j < 32 implies (#[trigger] bit(cand_bits, j) <==> (!bit(edges_bits, j)
                && exists|s: int| 0 <= s < m && bit(ind, s) && bit(cache.adjacent_bits@[s], j))) by {
                lemma_bit_and(pre_cand, !edges_bits, j);
                lemma_bit_not(edges_bits, j);
            }
            assert forall|j: int| m <= j < 32 implies !bit(cand_bits, j) by {
                if bit(cand_bits, j) {
                    let s = choose|s: int| 0 <= s < m && bit(ind, s) && bit(cache.adjacent_bits@[s], j);
                }
            }
            lemma_nbits_const(cand_bits, m as int, 32);
        }
        let mut gens: Option<Vec<Vec<u8>>> = None;
        match &self.gens {
            Some(gs) => {
                let mut kept: Vec<Vec<u8>> = Vec::new();
                let mut k: usize = 0;
                while k < gs.len()
                    invariant
                        self.wf(cache),
                        self.gens == Some(*gs),
                        times@.len() == m,
                        m as int == self.m(),
                        k <= gs@.len(),
                        n == self.n as int,
                        kept@.map_values(|v: Vec<u8>| v@) == auts_of(
                            cache,
                            times@,
                            gs@.subrange(0, k as int),
                        ),
                    decreases gs@.len() - k,
                {
                    let ghost before = kept@;
                    assert(self.gens->0@[k as int]@ == gs@[k as int]@);
                    assert(is_perm(n, gs@[k as int]@));
                    if is_automorphism(times.as_slice(), gs[k].as_slice(), cache) {
                        kept.push(copy_bytes(&gs[k]));
                        assert(kept@.map_values(|v: Vec<u8>| v@) =~= before.map_values(
                            |v: Vec<u8>| v@,
                        ).push(gs@[k as int]@));
                    }
                    assert(gs@.subrange(0, k + 1).drop_last() =~= gs@.subrange(0, k as int));
                    k = k + 1;
                }
                proof {
                    assert(gs@.subrange(0, gs@.len() as int) == gs@);
                    lemma_auts_of(cache, times@, gs@);
                }
                if kept.len() > 1 {
                    gens = Some(kept);
                }
            },
            None => {},
        }
        let r = TGraph {
            n: self.n,
            tmax: t,
            times,
            edges,
            edges_bits,
            nb_edges,
            cand_bits,
            nb_cand_edges,
            reachability,
            dismountability,
            gens,
        };
        proof {
            assert(nbits(ind, m as int) == popcount(ind));
            assert(r.nb_edges as int == popcount(r.edges_bits));
            assert(r.tmax <= r.nb_edges);
            assert forall|j: int| 0 <= j < m implies (#[trigger] bit(r.edges_bits, j) <==> r.times@[j] != 0) by {
                lemma_bit_or(self.edges_bits, ind, j);
            }
            assert forall|j: int| 0 <= j < 32 implies !(#[trigger] bit(r.cand_bits, j) && bit(r.edges_bits, j)) by {
                lemma_bit_and(pre_cand, !edges_bits, j);
                lemma_bit_not(edges_bits, j);
            }
            if r.gens is Some {
                let g = self.gens->0@;
                let kv = r.gens->0@;
                assert forall|k: int| 0 <= k < kv.len() implies is_perm(n, #[trigger] kv[k]@) by {
                    assert(kv.map_values(|v: Vec<u8>| v@)[k] == kv[k]@);
                    let j = choose|j: int| 0 <= j < g.len() && g[j]@ == #[trigger] auts_of(cache, r.times@, g)[k];
                    assert(self.gens->0@[j]@ == g[j]@);
                }
            }
            let placed = self.edges@.subrange(0, self.nb_edges as int);
            let news = stamped(n, ind, m as int, t);
            assert(r.edges@.subrange(0, r.nb_edges as int) =~= placed + news) by {
                assert(r.edges@.subrange(0, self.nb_edges as int) == placed);
                assert(r.edges@.subrange(self.nb_edges as int, r.nb_edges as int) == news);
            }
            lemma_reach_run_append(
                init_preds(n),
                Seq::new(n as nat, |x: int| 0u8),
                n,
                placed,
                news,
            );
            assert(r.inv());
            assert(r.times@ =~= Seq::new(
                m as nat,
                |j: int|
                    if bit(ind, j) {
                        t
                    } else {
                        self.times@[j]
                    },
            ));
            if self.gens is Some {
                {
                    let g = self.gens->0;
                    let f = auts_of(cache, r.times@, g@);
                    assert(f.len() > 1 ==> r.gens is Some && r.gens->0@.map_values(|v: Vec<u8>| v@) == f);
                    assert(f.len() <= 1 ==> r.gens is None);
                }
            }
            assert(r.is_child(self, ind, cache));
        }
        r
    }
}

/// Edge `i` sent through the permutation `p`.
pub open spec fn image_edge(cache: &Cache, p: Seq<u8>, i: int) -> usize {
    cache.e2i@[p[cache.edges@[i].0 as int] as int]@[p[cache.edges@[i].1 as int] as int]
}

/// `p` sends every edge of `v1` into `v2`.
pub open spec fn maps_into(cache: &Cache, v1: Seq<usize>, v2: Seq<usize>, p: Seq<u8>) -> bool {
    forall|k: int| 0 <= k < v1.len() ==> v2.contains(#[trigger] image_edge(cache, p, v1[k] as int))
}

/// Some earlier matching of `ms` with as many edges as `x` is an image of `x` under a symmetry.
pub open spec fn has_twin(g: &TGraph, cache: &Cache, ms: Seq<Seq<usize>>, x: Seq<usize>) -> bool {
    exists|k: int, j: int|
        0 <= k < ms.len() && 0 <= j < g.gens->0@.len() && ms[k].len() == x.len() && maps_into(
            cache,
            x,
            #[trigger] ms[k],
            #[trigger] g.gens->0@[j]@,
        )
}

/// The edge indices of `x`, ascending.
pub open spec fn index_list(x: u32) -> Seq<usize> {
    set_bits(x, 32).map_values(|i: int| i as usize)
}

/// `b` is a subset of `cand`.
pub open spec fn fits(b: u32, cand: u32) -> bool {
    cand | b == cand
}

/// The entries of `s` that fit in `cand`, in order.
pub open spec fn fitting(cand: u32, s: Seq<u32>) -> Seq<u32>
    decreases s.len(),
{
    if s.len() == 0 {
        Seq::empty()
    } else if fits(s.last(), cand) {
        fitting(cand, s.drop_last()).push(s.last())
    } else {
        fitting(cand, s.drop_last())
    }
}

/// The matchings of `s` that fit the candidates of `g`, each kept unless a symmetry
/// of `g` maps it onto one kept before.
pub open spec fn kept_matchings(g: &TGraph, cache: &Cache, s: Seq<u32>) -> Seq<Seq<usize>>
    decreases s.len(),
{
    if s.len() == 0 {
        Seq::empty()
    } else {
        let prev = kept_matchings(g, cache, s.drop_last());
        let b = s.last();
        if fits(b, g.cand_bits) && !has_twin(g, cache, prev, index_list(b)) {
            prev.push(index_list(b))
        } else {
            prev
        }
    }
}

/// The table entries that the next round of `g` may choose from.
pub open spec fn round_options(g: &TGraph, cache: &Cache) -> Seq<u32> {
    let c = g.nb_cand_edges as int;
    let h = g.n as int / 2;
    cache_prefix(g.n as int, if c < h { c } else { h })
}

/// Whether `perm` sends every edge of `vec1` to an edge of `vec2`.
pub fn same_matching_by_perm(vec1: &[usize], vec2: &[usize], perm: &[u8], cache: &Cache) -> (r: bool)
    requires
        cache.wf(),
        forall|k: int| 0 <= k < vec1@.len() ==> (vec1@[k] as int) < cache.m(),
        is_perm(cache.n as int, perm@),
    ensures
        r == maps_into(cache, vec1@, vec2@, perm@),
{
    let mut k: usize = 0;
    while k < vec1.len()
        invariant
            cache.wf(),
            forall|k: int| 0 <= k < vec1@.len() ==> (vec1@[k] as int) < cache.m(),
            is_perm(cache.n as int, perm@),
            k <= vec1@.len(),
            forall|j: int| 0 <= j < k ==> vec2@.contains(#[trigger] image_edge(cache, perm@, vec1@[j] as int)),
        decreases vec1@.len() - k,
    {
        let i = vec1[k];
        proof {
            lemma_edge_of_valid(cache.n as int, i as int);
        }
        let u2 = perm[cache.edges[i].0 as usize] as usize;
        let v2 = perm[cache.edges[i].1 as usize] as usize;
        let i2 = cache.e2i[u2][v2];
        let mut found = false;
        let mut w: usize = 0;
        while w < vec2.len()
            invariant
                w <= vec2@.len(),
                found == exists|t: int| 0 <= t < w && vec2@[t] == i2,
            decreases vec2@.len() - w,
        {
            if vec2[w] == i2 {
                found = true;
            }
            w = w + 1;
        }
        if !found {
            assert(!vec2@.contains(image_edge(cache, perm@, vec1@[k as int] as int)));
            return false;
        }
        k = k + 1;
    }
    true
}

/// Whether a matching of `matchings` with as many edges as `m` is an image of `m`
/// under a symmetry of `g`.
pub fn contains_same_matching_up_to_automorphisms(
    g: &TGraph,
    matchings: &Vec<Vec<usize>>,
    m: &Vec<usize>,
    cache: &Cache,
) -> (r: bool)
    requires
        g.wf(cache),
        g.gens is Some,
        forall|k: int| 0 <= k < m@.len() ==> (m@[k] as int) < cache.m(),
    ensures
        r == has_twin(g, cache, matchings@.map_values(|v: Vec<usize>| v@), m@),
{
    let ghost ms = matchings@.map_values(|v: Vec<usize>| v@);
    let gens = g.gens.as_ref().unwrap();
    let mut k: usize = matchings.len();
    while k > 0
        invariant
            g.wf(cache),
            g.gens == Some(*gens),
            forall|k: int| 0 <= k < m@.len() ==> (m@[k] as int) < cache.m(),
            k <= matchings@.len(),
            ms == matchings@.map_values(|v: Vec<usize>| v@),
            forall|a: int, j: int|
                k <= a < ms.len() && 0 <= j < gens@.len() && ms[a].len() == m@.len() ==> !maps_into(
                    cache,
                    m@,
                    #[trigger] ms[a],
                    #[trigger] gens@[j]@,
                ),
        decreases k,
    {
        k = k - 1;
        let m2 = &matchings[k];
        assert(ms[k as int] == m2@);
        if m.len() == m2.len() {
            let mut j: usize = 0;
            while j < gens.len()
                invariant
                    g.wf(cache),
                    g.gens == Some(*gens),
                    forall|k: int| 0 <= k < m@.len() ==> (m@[k] as int) < cache.m(),
                    j <= gens@.len(),
                    k < matchings@.len(),
                    ms == matchings@.map_values(|v: Vec<usize>| v@),
                    m@.len() == m2@.len(),
                    ms[k as int] == m2@,
                    forall|t: int| 0 <= t < j ==> !maps_into(cache, m@, m2@, #[trigger] gens@[t]@),
                decreases gens@.len() - j,
            {
                assert(g.gens->0@[j as int]@ == gens@[j as int]@);
                if same_matching_by_perm(m.as_slice(), m2.as_slice(), gens[j].as_slice(), cache) {
                    assert(maps_into(cache, m@, ms[k as int], g.gens->0@[j as int]@));
                    assert(has_twin(g, cache, ms, m@));
                    return true;
                }
                j = j + 1;
            }
        }
    }
    false
}

impl TGraph {
    /// The rounds that the next step may place, one per class of rounds that the
    /// symmetries of `self` map onto each other.
    pub fn get_matchings(&self, cache: &Cache) -> (r: Vec<Vec<usize>>)
        requires
            self.wf(cache),
            self.gens is Some,
        ensures
            r@.map_values(|v: Vec<usize>| v@) == kept_matchings(self, cache, round_options(self, cache)),
    {
        proof {
            lemma_nb_edges_bound(self);
        }
        let opts = get_indicators(self.nb_cand_edges, cache);
        let ghost s = opts@;
        proof {
            let c = self.nb_cand_edges as int;
            let h = self.n as int / 2;
            lemma_cache_entries(self.n as int, if c < h { c } else { h });
        }
        let mut matchings: Vec<Vec<usize>> = Vec::new();
        let mut k: usize = 0;
        while k < opts.len()
            invariant
                self.wf(cache),
                self.gens is Some,
                s == opts@,
                s == round_options(self, cache),
                forall|j: int|
                    0 <= j < s.len() ==> ((#[trigger] s[j]) as int) < edge_range(self.n as int),
                k <= s.len(),
                matchings@.map_values(|v: Vec<usize>| v@) == kept_matchings(
                    self,
                    cache,
                    s.subrange(0, k as int),
                ),
            decreases s.len() - k,
        {
            let bits = opts[k];
            let ghost before = matchings@;
            assert(s.subrange(0, k + 1).drop_last() =~= s.subrange(0, k as int));
            if self.cand_bits | bits == self.cand_bits {
                let matching = bits_to_indices(bits);
                proof {
                    assert(matching@ =~= index_list(bits));
                    crate::helper::lemma_nb_pairs(self.n as int);
                    crate::helper::lemma_set_bits(bits, 32);
                    assert forall|t: int| 0 <= t < matching@.len() implies (matching@[t] as int) < cache.m() by {
                        if matching@[t] as int >= cache.m() {
                            crate::bits::lemma_bits_below(bits, cache.m(), set_bits(bits, 32)[t]);
                        }
                    }
                }
                if !contains_same_matching_up_to_automorphisms(self, &matchings, &matching, cache) {
                    matchings.push(matching);
                    assert(matchings@.map_values(|v: Vec<usize>| v@) =~= before.map_values(
                        |v: Vec<usize>| v@,
                    ).push(index_list(bits)));
                }
            }
            k = k + 1;
        }
        proof {
            assert(s.subrange(0, s.len() as int) == s);
        }
        matchings
    }
}

pub proof fn lemma_kept(g: &TGraph, cache: &Cache, s: Seq<u32>)
    ensures
        kept_matchings(g, cache, s).len() <= s.len(),
        forall|k: int|
            0 <= k < kept_matchings(g, cache, s).len() ==> exists|j: int|
                0 <= j < s.len() && index_list(s[j]) == #[trigger] kept_matchings(g, cache, s)[k]
                    && fits(s[j], g.cand_bits),
    decreases s.len(),
{
    if s.len() > 0 {
        lemma_kept(g, cache, s.drop_last());
        let prev = kept_matchings(g, cache, s.drop_last());
        assert forall|k: int| 0 <= k < kept_matchings(g, cache, s).len() implies exists|j: int|
            0 <= j < s.len() && index_list(s[j]) == #[trigger] kept_matchings(g, cache, s)[k]
                && fits(s[j], g.cand_bits) by {
            if k < prev.len() {
                let j = choose|j: int|
                    0 <= j < s.len() - 1 && index_list(s.drop_last()[j]) == prev[k] && fits(
                        s.drop_last()[j],
                        g.cand_bits,
                    );
                assert(s[j] == s.drop_last()[j]);
            } else {
                assert(index_list(s[s.len() - 1]) == kept_matchings(g, cache, s)[k]);
            }
        }
    }
}

/// A table entry that fits the candidates of `g` is a valid next round of `g`.
pub proof fn lemma_option_valid(g: &TGraph, cache: &Cache, b: u32)
    requires
        g.wf(cache),
        round_options(g, cache).contains(b),
        fits(b, g.cand_bits),
    ensures
        forall|i: int| 0 <= i < 32 && #[trigger] bit(b, i) ==> bit(g.cand_bits, i) && i < g.m(),
        is_matching(g.n as int, b),
        popcount(b) >= 1,
{
    let c = g.nb_cand_edges as int;
    let h = g.n as int / 2;
    lemma_cache_entries(g.n as int, if c < h { c } else { h });
    crate::helper::lemma_nb_pairs(g.n as int);
    assert forall|i: int| 0 <= i < 32 && #[trigger] bit(b, i) implies bit(g.cand_bits, i) && i < g.m() by {
        lemma_bit_or(g.cand_bits, b, i);
        if i >= g.m() {
            crate::bits::lemma_bits_below(b, g.m(), i);
        }
    }
}

/// What the successors of `g` are: one child per fitting table entry when `g` is rigid,
/// one per kept matching otherwise.
pub open spec fn successors_spec(g: &TGraph, cache: &Cache, r: Seq<TGraph>) -> bool {
    let opts = round_options(g, cache);
    &&& forall|k: int| 0 <= k < r.len() ==> (#[trigger] r[k]).wf(cache) && r[k].nb_edges > g.nb_edges
    &&& g.gens is None ==> r.len() == fitting(g.cand_bits, opts).len() && forall|k: int|
        0 <= k < r.len() ==> (#[trigger] r[k]).is_child(g, fitting(g.cand_bits, opts)[k], cache)
    &&& g.gens is Some ==> r.len() == kept_matchings(g, cache, opts).len() && forall|k: int|
        0 <= k < r.len() ==> child_by(g, cache, #[trigger] r[k], kept_matchings(g, cache, opts)[k])
}

/// `h` extends `g` by a round whose edge indices are `x`.
pub open spec fn child_by(g: &TGraph, cache: &Cache, h: TGraph, x: Seq<usize>) -> bool {
    exists|b: u32| index_list(b) == x && fits(b, g.cand_bits) && #[trigger] h.is_child(g, b, cache)
}

impl TGraph {
    /// One child per table entry that fits the candidate set, with no deduplication.
    pub fn successors_rigid(&self, cache: &Cache) -> (r: Vec<TGraph>)
        requires
            self.wf(cache),
        ensures
            r@.len() == fitting(self.cand_bits, round_options(self, cache)).len(),
            forall|k: int|
                0 <= k < r@.len() ==> (#[trigger] r@[k]).wf(cache) && r@[k].nb_edges > self.nb_edges
                    && r@[k].is_child(
                    self,
                    fitting(self.cand_bits, round_options(self, cache))[k],
                    cache,
                ),
    {
        proof {
            lemma_nb_edges_bound(self);
        }
        let opts = get_indicators(self.nb_cand_edges, cache);
        let ghost s = opts@;
        let mut res: Vec<TGraph> = Vec::new();
        let mut k: usize = 0;
        while k < opts.len()
            invariant
                self.wf(cache),
                s == opts@,
                s == round_options(self, cache),
                k <= s.len(),
                res@.len() == fitting(self.cand_bits, s.subrange(0, k as int)).len(),
                forall|j: int|
                    0 <= j < res@.len() ==> (#[trigger] res@[j]).wf(cache) && res@[j].nb_edges
                        > self.nb_edges && res@[j].is_child(
                        self,
                        fitting(self.cand_bits, s.subrange(0, k as int))[j],
                        cache,
                    ),
            decreases s.len() - k,
        {
            let bits = opts[k];
            assert(s.subrange(0, k + 1).drop_last() =~= s.subrange(0, k as int));
            assert(s.subrange(0, k + 1).last() == bits);
            if self.cand_bits | bits == self.cand_bits {
                proof {
                    assert(s.contains(bits));
                    lemma_option_valid(self, cache, bits);
                }
                let h = self.extends_by(&bits, cache);
                res.push(h);
            }
            k = k + 1;
        }
        proof {
            assert(s.subrange(0, s.len() as int) == s);
        }
        res
    }

    /// One child per matching kept by `get_matchings`.
    pub fn successors_aut(&self, cache: &Cache) -> (r: Vec<TGraph>)
        requires
            self.wf(cache),
            self.gens is Some,
        ensures
            r@.len() == kept_matchings(self, cache, round_options(self, cache)).len(),
            forall|k: int|
                0 <= k < r@.len() ==> (#[trigger] r@[k]).wf(cache) && r@[k].nb_edges > self.nb_edges
                    && child_by(
                    self,
                    cache,
                    r@[k],
                    kept_matchings(self, cache, round_options(self, cache))[k],
                ),
    {
        let ms = self.get_matchings(cache);
        let ghost kept = kept_matchings(self, cache, round_options(self, cache));
        let ghost opts = round_options(self, cache);
        proof {
            lemma_kept(self, cache, opts);
        }
        let mut res: Vec<TGraph> = Vec::new();
        let mut k: usize = 0;
        while k < ms.len()
            invariant
                self.wf(cache),
                self.gens is Some,
                ms@.map_values(|v: Vec<usize>| v@) == kept,
                kept == kept_matchings(self, cache, opts),
                opts == round_options(self, cache),
                forall|k: int|
                    0 <= k < kept.len() ==> exists|j: int|
                        0 <= j < opts.len() && index_list(opts[j]) == #[trigger] kept[k] && fits(
                            opts[j],
                            self.cand_bits,
                        ),
                k <= ms@.len(),
                res@.len() == k,
                forall|j: int|
                    0 <= j < k ==> (#[trigger] res@[j]).wf(cache) && res@[j].nb_edges > self.nb_edges
                        && child_by(self, cache, res@[j], kept[j]),
            decreases ms@.len() - k,
        {
            assert(kept[k as int] == ms@[k as int]@);
            let jj = Ghost(choose|j: int|
                0 <= j < opts.len() && index_list(opts[j]) == kept[k as int] && fits(
                    opts[j],
                    self.cand_bits,
                ));
            let ghost b0 = opts[jj@];
            proof {
                crate::helper::lemma_set_bits(b0, 32);
                assert(ms@[k as int]@ == index_list(b0));
                assert forall|t: int| 0 <= t < ms@[k as int]@.len() implies ms@[k as int]@[t] < 32 by {
                    assert(ms@[k as int]@[t] == set_bits(b0, 32)[t] as usize);
                }
            }
            let bits = indices_to_bits(ms[k].as_slice());
            proof {
                assert forall|i: int| 0 <= i < 32 implies bit(bits, i) == bit(b0, i) by {
                    let l = ms@[k as int]@;
                    if bit(b0, i) {
                        let w = choose|w: int| 0 <= w < set_bits(b0, 32).len() && set_bits(b0, 32)[w] == i;
                        assert(l[w] == i as usize);
                    }
                    if l.contains(i as usize) {
                        let w = choose|w: int| 0 <= w < l.len() && l[w] == i as usize;
                        assert(set_bits(b0, 32)[w] == i);
                    }
                }
                crate::bits::lemma_bits_ext(bits, b0);
                assert(opts.contains(b0));
                lemma_option_valid(self, cache, b0);
            }
            let h = self.extends_by(&bits, cache);
            assert(h.is_child(self, bits, cache));
            assert(child_by(self, cache, h, kept[k as int]));
            res.push(h);
            k = k + 1;
        }
        res
    }

    /// The children of `self`: deduplicated under its symmetries while it has any.
    pub fn successors(&self, cache: &Cache) -> (r: Vec<TGraph>)
        requires
            self.wf(cache),
        ensures
            successors_spec(self, cache, r@),
    {
        if self.has_symmetries() {
            let r = self.successors_aut(cache);
            proof {
                assert(successors_spec(self, cache, r@));
            }
            r
        } else {
            let r = self.successors_rigid(cache);
            proof {
                assert forall|k: int| 0 <= k < r@.len() implies (#[trigger] r@[k]).wf(cache) && r@[k].nb_edges > self.nb_edges by {
                    assert(r@[k].wf(cache));
                }
                assert(successors_spec(self, cache, r@));
            }
            r
        }
    }
}

/// At most `M` edges are placed.
pub proof fn lemma_nb_edges_bound(g: &TGraph)
    requires
        g.inv(),
    ensures
        g.nb_edges as int <= g.m(),
        g.m() <= 28,
        g.nb_cand_edges as int <= g.m(),
{
    crate::helper::lemma_nb_pairs(g.n as int);
    lemma_nbits_const(g.edges_bits, g.m(), 32);
    lemma_nbits_mono(g.edges_bits, g.m(), g.m());
    lemma_nbits_mono(g.cand_bits, g.m(), g.m());
}

} // verus!
