use vstd::prelude::*;
use crate::bits::{bit, lemma_bit_or, lemma_bit_single, lemma_bit_zero, popcount};
use crate::helper::{
    are_adjacent, adjacent, count_bits, e2i, edge_index, edge_of, gen_edges, i2e, lemma_edge_of_pair,
    lemma_edge_of_valid, lemma_nb_pairs, nb_edges_of, nb_pairs, untimed_edge, valid_n,
};
use crate::tedges::TEdge;

verus! {

/// Edges `i` and `j` share no endpoint.
pub open spec fn disjoint_edges(n: int, i: int, j: int) -> bool {
    edge_of(n, i).0 != edge_of(n, j).0 && edge_of(n, i).0 != edge_of(n, j).1 && edge_of(n, i).1
        != edge_of(n, j).0 && edge_of(n, i).1 != edge_of(n, j).1
}

/// The edges of `ind` below `nb_pairs(n)` are pairwise disjoint.
pub open spec fn is_matching(n: int, ind: u32) -> bool {
    forall|i: int, j: int|
        0 <= i < j < nb_pairs(n) && #[trigger] bit(ind, i) && #[trigger] bit(ind, j)
            ==> disjoint_edges(n, i, j)
}

/// `2^M`: every edge set of the complete graph on `n` vertices lies below it.
pub open spec fn edge_range(n: int) -> int {
    (1u32 << (nb_pairs(n) as u32)) as int
}

/// The matchings of `k` edges among `1 .. hi`, ascending.
pub open spec fn matchings_below(n: int, k: int, hi: int) -> Seq<u32>
    decreases hi,
{
    if hi <= 1 {
        Seq::empty()
    } else {
        let s = matchings_below(n, k, hi - 1);
        let x = (hi - 1) as u32;
        if popcount(x) == k && is_matching(n, x) {
            s.push(x)
        } else {
            s
        }
    }
}

/// All matchings of `1 ..= k` edges, grouped by size, each group ascending.
pub open spec fn cache_prefix(n: int, k: int) -> Seq<u32>
    decreases k,
{
    if k <= 0 {
        Seq::empty()
    } else {
        cache_prefix(n, k - 1) + matchings_below(n, k, edge_range(n))
    }
}

/// Edge indexer and matching table of the complete graph on `n` vertices.
pub struct Cache {
    pub n: u8,
    /// Every non-empty matching of at most `n / 2` edges, grouped by size.
    pub indicators: Vec<u32>,
    /// `delimiters[c]`: how many of `indicators` have at most `c` edges.
    pub delimiters: Vec<usize>,
    pub edges: Vec<TEdge>,
    pub e2i: Vec<Vec<usize>>,
    /// For each edge, the set of edges that share an endpoint with it (itself included).
    pub adjacent_bits: Vec<u32>,
}

impl Cache {
    pub open spec fn m(&self) -> int {
        nb_pairs(self.n as int)
    }

    pub open spec fn wf(&self) -> bool {
        let n = self.n as int;
        let m = self.m();
        &&& valid_n(n)
        &&& self.indicators@ == cache_prefix(n, n / 2)
        &&& self.delimiters@.len() == m + 1
        &&& forall|c: int|
            0 <= c <= m ==> #[trigger] self.delimiters@[c] as int == cache_prefix(
                n,
                if c < n / 2 {
                    c
                } else {
                    n / 2
                },
            ).len()
        &&& self.edges@.len() == m
        &&& forall|i: int| 0 <= i < m ==> #[trigger] self.edges@[i] == untimed_edge(n, i)
        &&& self.e2i@.len() == n
        &&& forall|u: int| 0 <= u < n ==> (#[trigger] self.e2i@[u])@.len() == n
        &&& forall|u: int, v: int|
            0 <= u < n && 0 <= v < n && u != v ==> #[trigger] self.e2i@[u]@[v] as int
                == edge_index(n, TEdge(u as u8, v as u8, 0))
        &&& self.adjacent_bits@.len() == m
        &&& forall|i: int, j: int|
            0 <= i < m && 0 <= j < 32 ==> (#[trigger] bit(self.adjacent_bits@[i], j) <==> (j < m
                && adjacent(untimed_edge(n, i), untimed_edge(n, j))))
    }
}

/// Whether the edges of `edge_ind` (below `nb_pairs(n)`) are pairwise disjoint.
pub fn is_independent(n: u8, edge_ind: u32) -> (r: bool)
    requires
        valid_n(n as int),
    ensures
        r == is_matching(n as int, edge_ind),
{
    let ghost ni = n as int;
    let m: u8 = nb_edges_of(n) as u8;
    let mut nodes: Vec<u8> = Vec::new();
    let mut x: u8 = 0;
    while x < n
        invariant
            x <= n,
            nodes@.len() == x,
            forall|y: int| 0 <= y < x ==> nodes@[y] == 0,
        decreases n - x,
    {
        nodes.push(0);
        x = x + 1;
    }
    let mut i: u8 = 0;
    while i < m
        invariant
            valid_n(ni),
            ni == n as int,
            m as int == nb_pairs(ni),
            m <= 28,
            i <= m,
            nodes@.len() == n,
            forall|y: int|
                0 <= y < n ==> (#[trigger] nodes@[y] == 1 <==> exists|j: int|
                    0 <= j < i && bit(edge_ind, j) && (edge_of(ni, j).0 == y || edge_of(
                        ni,
                        j,
                    ).1 == y)),
            forall|a: int, b: int|
                0 <= a < b < i && #[trigger] bit(edge_ind, a) && #[trigger] bit(edge_ind, b)
                    ==> disjoint_edges(ni, a, b),
        decreases m - i,
    {
        if edge_ind & (1u32 << (i as u32)) != 0 {
            assert(bit(edge_ind, i as int));
            let e = i2e(n, i);
            if nodes[e.0 as usize] == 1 || nodes[e.1 as usize] == 1 {
                proof {
                    let y: int = if nodes@[e.0 as int] == 1 {
                        e.0 as int
                    } else {
                        e.1 as int
                    };
                    let j = choose|j: int|
                        0 <= j < i && bit(edge_ind, j) && (edge_of(ni, j).0 == y || edge_of(
                            ni,
                            j,
                        ).1 == y);
                    assert(!disjoint_edges(ni, j, i as int));
                }
                return false;
            } else {
                let ghost old_nodes = nodes@;
                nodes.set(e.0 as usize, 1);
                nodes.set(e.1 as usize, 1);
                proof {
                    assert forall|y: int|
                        0 <= y < n implies (#[trigger] nodes@[y] == 1 <==> exists|j: int|
                        0 <= j < i + 1 && bit(edge_ind, j) && (edge_of(ni, j).0 == y || edge_of(
                            ni,
                            j,
                        ).1 == y)) by {
                        if y == e.0 || y == e.1 {
                            assert(edge_of(ni, i as int).0 == y || edge_of(ni, i as int).1 == y);
                        } else {
                            assert(nodes@[y] == old_nodes[y]);
                        }
                    }
                    assert forall|a: int, b: int|
                        0 <= a < b < i + 1 && #[trigger] bit(edge_ind, a) && #[trigger] bit(
                            edge_ind,
                            b,
                        ) implies disjoint_edges(ni, a, b) by {
                        if b == i {
                            if !disjoint_edges(ni, a, b) {
                                if edge_of(ni, a).0 == e.0 || edge_of(ni, a).1 == e.0 {
                                    assert(old_nodes[e.0 as int] == 1);
                                } else {
                                    assert(old_nodes[e.1 as int] == 1);
                                }
                            }
                        }
                    }
                }
            }
        }
        i = i + 1;
    }
    true
}

/// A shorter prefix of the table is a prefix of a longer one.
pub proof fn lemma_cache_prefix(n: int, c: int, k: int)
    requires
        0 <= c <= k,
    ensures
        cache_prefix(n, c).len() <= cache_prefix(n, k).len(),
        cache_prefix(n, k).subrange(0, cache_prefix(n, c).len() as int) == cache_prefix(n, c),
    decreases k,
{
    if c < k {
        lemma_cache_prefix(n, c, k - 1);
        let a = cache_prefix(n, k - 1);
        let b = cache_prefix(n, k);
        assert(b.subrange(0, a.len() as int) == a);
        assert(b.subrange(0, cache_prefix(n, c).len() as int) == a.subrange(
            0,
            cache_prefix(n, c).len() as int,
        ));
    }
}

/// Builds the edge indexer and the table of matchings for `n` vertices.
pub fn compute_cache(n: u8) -> (r: Cache)
    requires
        valid_n(n as int),
    ensures
        r.n == n,
        r.wf(),
{
    let ghost ni = n as int;
    let m = nb_edges_of(n);
    let top: u32 = 1u32 << (m as u32);
    let half: u8 = n / 2;
    proof {
        let mu = m as u32;
        assert(2 <= (1u32 << mu)) by (bit_vector)
            requires
                1 <= mu <= 28,
        ;
        lemma_nb_pairs(ni);
        assert(ni / 2 <= ni * (ni - 1) / 2) by {
            if ni == 2 {
            } else if ni == 3 {
            } else if ni == 4 {
            } else if ni == 5 {
            } else if ni == 6 {
            } else if ni == 7 {
            } else {
            }
        }
    }
    let mut indicators: Vec<u32> = Vec::new();
    let mut delimiters: Vec<usize> = Vec::new();
    delimiters.push(0);
    let mut k: u8 = 1;
    while k <= half
        invariant
            valid_n(ni),
            ni == n as int,
            half == n / 2,
            top as int == edge_range(ni),
            2 <= top,
            1 <= k <= half + 1,
            indicators@ == cache_prefix(ni, k - 1),
            delimiters@.len() == k,
            forall|c: int| 0 <= c < k ==> #[trigger] delimiters@[c] as int == cache_prefix(ni, c).len(),
        decreases half + 1 - k,
    {
        let mut ind: u32 = 1;
        while ind < top
            invariant
                valid_n(ni),
                ni == n as int,
                1 <= ind <= top,
                2 <= top,
                1 <= k <= 4,
                indicators@ == cache_prefix(ni, k - 1) + matchings_below(ni, k as int, ind as int),
            decreases top - ind,
        {
            let ghost before = indicators@;
            if count_bits(ind) == k as u32 && is_independent(n, ind) {
                indicators.push(ind);
                assert(indicators@ == cache_prefix(ni, k - 1) + matchings_below(
                    ni,
                    k as int,
                    ind as int,
                ).push(ind));
            }
            ind = ind + 1;
        }
        delimiters.push(indicators.len());
        k = k + 1;
    }
    let total = indicators.len();
    while delimiters.len() <= m
        invariant
            half as int == ni / 2,
            (half as int) < delimiters@.len() <= m + 1,
            total == cache_prefix(ni, half as int).len(),
            forall|c: int|
                0 <= c < delimiters@.len() ==> #[trigger] delimiters@[c] as int == cache_prefix(
                    ni,
                    if c < ni / 2 {
                        c
                    } else {
                        ni / 2
                    },
                ).len(),
        decreases m + 1 - delimiters@.len(),
    {
        delimiters.push(total);
    }
    let mut tab: Vec<Vec<usize>> = Vec::new();
    let mut u: u8 = 0;
    while u < n
        invariant
            valid_n(ni),
            ni == n as int,
            u <= n,
            tab@.len() == u,
            forall|a: int| 0 <= a < u ==> (#[trigger] tab@[a])@.len() == n,
            forall|a: int, b: int|
                0 <= a < u && 0 <= b < n && a != b ==> #[trigger] tab@[a]@[b] as int == edge_index(
                    ni,
                    TEdge(a as u8, b as u8, 0),
                ),
        decreases n - u,
    {
        let mut row: Vec<usize> = Vec::new();
        let mut v: u8 = 0;
        while v < n
            invariant
                valid_n(ni),
                ni == n as int,
                u < n,
                v <= n,
                row@.len() == v,
                forall|b: int|
                    0 <= b < v && u != b ==> #[trigger] row@[b] as int == edge_index(
                        ni,
                        TEdge(u as u8, b as u8, 0),
                    ),
            decreases n - v,
        {
            if u != v {
                row.push(e2i(n, u, v));
            } else {
                row.push(0);
            }
            v = v + 1;
        }
        tab.push(row);
        u = u + 1;
    }
    let edges = gen_edges(n);
    proof {
        assert forall|i: int| 0 <= i < m implies #[trigger] edges@[i] == untimed_edge(ni, i) by {
            lemma_edge_of_valid(ni, i);
        }
    }
    let mut adjacent_bits: Vec<u32> = Vec::new();
    let mut i: usize = 0;
    while i < m
        invariant
            valid_n(ni),
            m as int == nb_pairs(ni),
            m <= 28,
            i <= m,
            edges@.len() == m,
            forall|t: int| 0 <= t < m ==> #[trigger] edges@[t] == untimed_edge(ni, t),
            adjacent_bits@.len() == i,
            forall|a: int, j: int|
                0 <= a < i && 0 <= j < 32 ==> (#[trigger] bit(adjacent_bits@[a], j) <==> (j < m
                    && adjacent(untimed_edge(ni, a), untimed_edge(ni, j)))),
        decreases m - i,
    {
        let mut adj: u32 = 0;
        let mut j: usize = 0;
        proof {
            lemma_bit_zero();
        }
        while j < m
            invariant
                m <= 28,
                j <= m,
                i < m,
                edges@.len() == m,
                forall|t: int| 0 <= t < m ==> #[trigger] edges@[t] == untimed_edge(ni, t),
                forall|t: int|
                    0 <= t < 32 ==> (#[trigger] bit(adj, t) <==> (t < j && adjacent(
                        untimed_edge(ni, i as int),
                        untimed_edge(ni, t),
                    ))),
            decreases m - j,
        {
            if are_adjacent(&edges[i], &edges[j]) {
                let ghost old_adj = adj;
                adj = adj | (1u32 << (j as u32));
                proof {
                    assert forall|t: int|
                        0 <= t < 32 implies (#[trigger] bit(adj, t) <==> (t < j + 1 && adjacent(
                        untimed_edge(ni, i as int),
                        untimed_edge(ni, t),
                    ))) by {
                        lemma_bit_or(old_adj, 1u32 << (j as u32), t);
                        lemma_bit_single(j as int, t);
                    }
                }
            }
            j = j + 1;
        }
        adjacent_bits.push(adj);
        i = i + 1;
    }
    Cache { n, indicators, delimiters, edges, e2i: tab, adjacent_bits }
}

/// The matchings of at most `min(nb_cand_edges, n / 2)` edges.
pub fn get_indicators(nb_cand_edges: usize, cache: &Cache) -> (r: &[u32])
    requires
        cache.wf(),
        nb_cand_edges as int <= cache.m(),
    ensures
        r@ == cache_prefix(
            cache.n as int,
            if (nb_cand_edges as int) < cache.n as int / 2 {
                nb_cand_edges as int
            } else {
                cache.n as int / 2
            },
        ),
{
    let d = cache.delimiters[nb_cand_edges];
    proof {
        let c = nb_cand_edges as int;
        let h = cache.n as int / 2;
        lemma_cache_prefix(cache.n as int, if c < h { c } else { h }, h);
    }
    &cache.indicators.as_slice()[0..d]
}

/// Each entry of the table is a non-empty matching below `2^M` of at most `k` edges.
pub proof fn lemma_cache_entries(n: int, k: int)
    requires
        valid_n(n),
    ensures
        forall|j: int|
            0 <= j < cache_prefix(n, k).len() ==> {
                let x = #[trigger] cache_prefix(n, k)[j];
                &&& 1 <= popcount(x) <= k
                &&& is_matching(n, x)
                &&& (x as int) < edge_range(n)
            },
        cache_prefix(n, k).len() <= (if k < 0 { 0 } else { k }) * edge_range(n),
    decreases k,
{
    if k > 0 {
        lemma_cache_entries(n, k - 1);
        lemma_matchings_below(n, k, edge_range(n));
        let a = cache_prefix(n, k - 1);
        let b = matchings_below(n, k, edge_range(n));
        assert forall|j: int| 0 <= j < cache_prefix(n, k).len() implies {
            let x = #[trigger] cache_prefix(n, k)[j];
            &&& 1 <= popcount(x) <= k
            &&& is_matching(n, x)
            &&& (x as int) < edge_range(n)
        } by {
            if j < a.len() {
                assert(cache_prefix(n, k)[j] == a[j]);
            } else {
                assert(cache_prefix(n, k)[j] == b[j - a.len()]);
            }
        }
        assert(k * edge_range(n) == (k - 1) * edge_range(n) + edge_range(n)) by (nonlinear_arith);
    }
}

proof fn lemma_matchings_below(n: int, k: int, hi: int)
    requires
        k >= 1,
    ensures
        forall|j: int|
            0 <= j < matchings_below(n, k, hi).len() ==> {
                let x = #[trigger] matchings_below(n, k, hi)[j];
                &&& popcount(x) == k
                &&& is_matching(n, x)
                &&& (x as int) < hi
            },
        matchings_below(n, k, hi).len() <= if hi < 0 { 0 } else { hi },
    decreases hi,
{
    if hi > 1 {
        lemma_matchings_below(n, k, hi - 1);
    }
}

} // verus!
