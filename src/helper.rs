use vstd::prelude::*;
use crate::bits::{bit, full_set, lemma_bit_or, lemma_bit_zero, lemma_bit_single, nbits, popcount};
use crate::tedges::TEdge;

verus! {

/// Index of the first edge whose smaller endpoint is `u`, edges being listed
/// lexicographically: row `r` holds the `n - 1 - r` pairs `(r, v)`, `v > r`.
pub open spec fn row_start(n: int, u: int) -> int
    decreases u,
{
    if u <= 0 {
        0
    } else {
        row_start(n, u - 1) + n - u
    }
}

/// Number of edges of the complete graph on `n` vertices.
pub open spec fn nb_pairs(n: int) -> int {
    row_start(n, n)
}

/// Index of the edge `{u, v}`, `u < v`.
pub open spec fn pair_index(n: int, u: int, v: int) -> int {
    row_start(n, u) + v - u - 1
}

pub open spec fn edge_from(n: int, i: int, k: int) -> (int, int)
    decreases n - k,
{
    if k < n && i >= n - k {
        edge_from(n, i - (n - k), k + 1)
    } else {
        (k - 1, k + i)
    }
}

/// The endpoints of edge `i`.
pub open spec fn edge_of(n: int, i: int) -> (int, int) {
    edge_from(n, i, 1)
}

/// Vertex counts this library handles: every vertex set fits a `u8`, every edge set a `u32`.
pub open spec fn valid_n(n: int) -> bool {
    2 <= n <= 8
}

pub proof fn lemma_row_start_mono(n: int, k: int, j: int)
    requires
        0 <= k <= j <= n,
    ensures
        row_start(n, k) <= row_start(n, j),
    decreases j,
{
    if k < j {
        lemma_row_start_mono(n, k, j - 1);
    }
}

/// `row_start` in closed form.
pub proof fn lemma_row_start_closed(n: int, u: int)
    requires
        0 <= u <= 8,
    ensures
        row_start(n, u) == u * n - u * (u + 1) / 2,
{
    reveal_with_fuel(row_start, 9);
    if u == 0 {
    } else if u == 1 {
    } else if u == 2 {
    } else if u == 3 {
    } else if u == 4 {
    } else if u == 5 {
    } else if u == 6 {
    } else if u == 7 {
    } else {
    }
}

pub proof fn lemma_nb_pairs(n: int)
    requires
        valid_n(n),
    ensures
        nb_pairs(n) == n * (n - 1) / 2,
        1 <= nb_pairs(n) <= 28,
{
    lemma_row_start_closed(n, n);
    assert(n * n - n * (n + 1) / 2 == n * (n - 1) / 2) by {
        reveal_with_fuel(row_start, 9);
        if n == 2 {
        } else if n == 3 {
        } else if n == 4 {
        } else if n == 5 {
        } else if n == 6 {
        } else if n == 7 {
        } else {
        }
    }
    assert(1 <= n * (n - 1) / 2 <= 28) by {
        if n == 2 {
        } else if n == 3 {
        } else if n == 4 {
        } else if n == 5 {
        } else if n == 6 {
        } else if n == 7 {
        } else {
        }
    }
}

proof fn lemma_edge_from_valid(n: int, i: int, k: int)
    requires
        1 <= k <= n - 1,
        0 <= i,
        row_start(n, k - 1) + i < nb_pairs(n),
    ensures
        0 <= edge_from(n, i, k).0 < edge_from(n, i, k).1 < n,
        pair_index(n, edge_from(n, i, k).0, edge_from(n, i, k).1) == row_start(n, k - 1) + i,
    decreases n - k,
{
    if i >= n - k {
        if k == n - 1 {
            assert(row_start(n, n) == row_start(n, n - 1));
        } else {
            lemma_edge_from_valid(n, i - (n - k), k + 1);
        }
    }
}

/// Each index below `nb_pairs(n)` names a pair `u < v < n`, whose index it is.
pub proof fn lemma_edge_of_valid(n: int, i: int)
    requires
        valid_n(n),
        0 <= i < nb_pairs(n),
    ensures
        0 <= edge_of(n, i).0 < edge_of(n, i).1 < n,
        pair_index(n, edge_of(n, i).0, edge_of(n, i).1) == i,
{
    lemma_edge_from_valid(n, i, 1);
}

proof fn lemma_edge_from_pair(n: int, u: int, v: int, k: int)
    requires
        0 <= u < v < n,
        1 <= k <= u + 1,
    ensures
        edge_from(n, pair_index(n, u, v) - row_start(n, k - 1), k) == (u, v),
    decreases u + 1 - k,
{
    if k <= u {
        lemma_row_start_mono(n, k, u);
        lemma_edge_from_pair(n, u, v, k + 1);
    }
}

/// The index of a pair names that pair.
pub proof fn lemma_edge_of_pair(n: int, u: int, v: int)
    requires
        0 <= u < v < n,
    ensures
        edge_of(n, pair_index(n, u, v)) == (u, v),
        0 <= pair_index(n, u, v) < nb_pairs(n),
{
    lemma_edge_from_pair(n, u, v, 1);
    lemma_row_start_mono(n, u + 1, n);
}

/// All edges of the complete graph on `n` vertices, in index order, untimed.
pub fn gen_edges(n: u8) -> (r: Vec<TEdge>)
    requires
        valid_n(n as int),
    ensures
        r@.len() == nb_pairs(n as int),
        forall|k: int|
            #![trigger r@[k]]
            0 <= k < r@.len() ==> r@[k].0 == edge_of(n as int, k).0 && r@[k].1 == edge_of(
                n as int,
                k,
            ).1 && r@[k].2 == 0,
{
    let mut edges: Vec<TEdge> = Vec::new();
    let mut u: u8 = 0;
    while u < n
        invariant
            valid_n(n as int),
            u <= n,
            edges@.len() == row_start(n as int, u as int),
            forall|k: int|
                #![trigger edges@[k]]
                0 <= k < edges@.len() ==> edges@[k].0 == edge_of(n as int, k).0 && edges@[k].1
                    == edge_of(n as int, k).1 && edges@[k].2 == 0,
        decreases n - u,
    {
        let mut v: u8 = u + 1;
        while v < n
            invariant
                valid_n(n as int),
                u < n,
                u + 1 <= v <= n,
                edges@.len() == pair_index(n as int, u as int, v as int),
                forall|k: int|
                    #![trigger edges@[k]]
                    0 <= k < edges@.len() ==> edges@[k].0 == edge_of(n as int, k).0
                        && edges@[k].1 == edge_of(n as int, k).1 && edges@[k].2 == 0,
            decreases n - v,
        {
            proof {
                lemma_edge_of_pair(n as int, u as int, v as int);
            }
            edges.push(TEdge(u, v, 0));
            v = v + 1;
        }
        u = u + 1;
    }
    proof {
        assert(row_start(n as int, n as int) == nb_pairs(n as int));
    }
    edges
}

/// Index of the edge `{u, v}`.
pub fn e2i(n: u8, u: u8, v: u8) -> (r: usize)
    requires
        valid_n(n as int),
        u < n,
        v < n,
        u != v,
    ensures
        u < v ==> r == pair_index(n as int, u as int, v as int),
        v < u ==> r == pair_index(n as int, v as int, u as int),
        (r as int) < nb_pairs(n as int),
{
    let nn = n as usize;
    let a = if u < v {
        u as usize
    } else {
        v as usize
    };
    let b = if u < v {
        v as usize
    } else {
        u as usize
    };
    proof {
        lemma_row_start_closed(n as int, a as int);
        lemma_edge_of_pair(n as int, a as int, b as int);
        assert(a * nn <= 64) by (nonlinear_arith)
            requires
                a <= 8,
                nn <= 8,
        ;
        assert(a * (a + 1) <= 72) by (nonlinear_arith)
            requires
                a <= 8,
        ;
        assert(a * (a + 1) / 2 <= a * nn) by {
            if a == 0 {
            } else if a == 1 {
            } else if a == 2 {
            } else if a == 3 {
            } else if a == 4 {
            } else if a == 5 {
            } else if a == 6 {
            } else {
                assert(a == 7);
            }
        }
    }
    (a * nn - (a * (a + 1)) / 2) + b - a - 1
}

/// The edge of index `i`, untimed.
pub fn i2e(n: u8, i: u8) -> (r: TEdge)
    requires
        valid_n(n as int),
        (i as int) < nb_pairs(n as int),
    ensures
        r.0 as int == edge_of(n as int, i as int).0,
        r.1 as int == edge_of(n as int, i as int).1,
        r.0 < r.1 < n,
        r.2 == 0,
{
    let ghost i0 = i as int;
    let mut i = i;
    let mut k: u8 = 1;
    proof {
        lemma_edge_of_valid(n as int, i0);
    }
    while i >= (n - k)
        invariant
            valid_n(n as int),
            1 <= k <= n - 1,
            0 <= i,
            row_start(n as int, k - 1) + i == i0,
            i0 < nb_pairs(n as int),
            edge_from(n as int, i as int, k as int) == edge_of(n as int, i0),
        decreases n - k,
    {
        if k == n - 1 {
            assert(row_start(n as int, n as int) == row_start(n as int, n - 1));
        }
        i = i - (n - k);
        k = k + 1;
    }
    TEdge(k - 1, k + i, 0)
}


/// Positions of the set bits of `x` below `k`, ascending.
pub open spec fn set_bits(x: u32, k: int) -> Seq<int>
    decreases k,
{
    if k <= 0 {
        Seq::empty()
    } else if bit(x, k - 1) {
        set_bits(x, k - 1).push(k - 1)
    } else {
        set_bits(x, k - 1)
    }
}

/// The untimed edge of index `i`.
pub open spec fn untimed_edge(n: int, i: int) -> TEdge {
    TEdge(edge_of(n, i).0 as u8, edge_of(n, i).1 as u8, 0)
}

/// Two edges share an endpoint.
pub open spec fn adjacent(e: TEdge, f: TEdge) -> bool {
    e.0 == f.0 || e.0 == f.1 || e.1 == f.0 || e.1 == f.1
}

pub proof fn lemma_set_bits(x: u32, k: int)
    requires
        0 <= k <= 32,
    ensures
        set_bits(x, k).len() == nbits(x, k),
        forall|j: int| 0 <= j < set_bits(x, k).len() ==> 0 <= #[trigger] set_bits(x, k)[j] < k,
        forall|j: int| 0 <= j < set_bits(x, k).len() ==> bit(x, #[trigger] set_bits(x, k)[j]),
        forall|i: int| 0 <= i < k && bit(x, i) ==> set_bits(x, k).contains(i),
        forall|a: int, b: int|
            0 <= a < b < set_bits(x, k).len() ==> set_bits(x, k)[a] < set_bits(x, k)[b],
    decreases k,
{
    if k > 0 {
        lemma_set_bits(x, k - 1);
        let s = set_bits(x, k - 1);
        if bit(x, k - 1) {
            assert forall|i: int| 0 <= i < k && bit(x, i) implies set_bits(x, k).contains(i) by {
                if i < k - 1 {
                    let j = choose|j: int| 0 <= j < s.len() && s[j] == i;
                    assert(set_bits(x, k)[j] == i);
                } else {
                    assert(set_bits(x, k)[s.len() as int] == i);
                }
            }
        }
    }
}

/// Number of set bits of `x`.
pub fn count_bits(x: u32) -> (r: u32)
    ensures
        r as int == popcount(x),
        r <= 32,
{
    let mut c: u32 = 0;
    let mut i: u32 = 0;
    while i < 32
        invariant
            i <= 32,
            c as int == nbits(x, i as int),
            c <= i,
        decreases 32 - i,
    {
        if x & (1u32 << i) != 0 {
            c = c + 1;
        }
        i = i + 1;
    }
    c
}

/// The positions of the set bits of `edge_bits`, ascending.
pub fn bits_to_indices(edge_bits: u32) -> (r: Vec<usize>)
    ensures
        r@.len() == set_bits(edge_bits, 32).len(),
        forall|j: int| 0 <= j < r@.len() ==> r@[j] as int == #[trigger] set_bits(edge_bits, 32)[j],
{
    let mut edge_inds: Vec<usize> = Vec::new();
    let mut i: usize = 0;
    while i < 32
        invariant
            i <= 32,
            edge_inds@.len() == set_bits(edge_bits, i as int).len(),
            forall|j: int|
                0 <= j < edge_inds@.len() ==> edge_inds@[j] as int == #[trigger] set_bits(
                    edge_bits,
                    i as int,
                )[j],
        decreases 32 - i,
    {
        if edge_bits & (1u32 << (i as u32)) != 0 {
            edge_inds.push(i);
        }
        i = i + 1;
    }
    edge_inds
}

/// The edge set holding exactly the given indices.
pub fn indices_to_bits(edge_inds: &[usize]) -> (r: u32)
    requires
        forall|j: int| 0 <= j < edge_inds@.len() ==> edge_inds@[j] < 32,
    ensures
        forall|i: int| 0 <= i < 32 ==> (bit(r, i) <==> edge_inds@.contains(i as usize)),
{
    let mut edge_bits: u32 = 0;
    let mut k: usize = 0;
    proof {
        lemma_bit_zero();
    }
    while k < edge_inds.len()
        invariant
            k <= edge_inds@.len(),
            forall|j: int| 0 <= j < edge_inds@.len() ==> edge_inds@[j] < 32,
            forall|i: int|
                0 <= i < 32 ==> (bit(edge_bits, i) <==> edge_inds@.subrange(0, k as int).contains(
                    i as usize,
                )),
        decreases edge_inds@.len() - k,
    {
        let i = edge_inds[k];
        let ghost old_bits = edge_bits;
        edge_bits = edge_bits | (1u32 << (i as u32));
        proof {
            assert forall|j: int|
                0 <= j < 32 implies (bit(edge_bits, j) <==> edge_inds@.subrange(
                0,
                k + 1,
            ).contains(j as usize)) by {
                lemma_bit_or(old_bits, 1u32 << (i as u32), j);
                lemma_bit_single(i as int, j);
                let s0 = edge_inds@.subrange(0, k as int);
                let s1 = edge_inds@.subrange(0, k + 1);
                assert(s1 == s0.push(i));
                if s0.contains(j as usize) {
                    let w = choose|w: int| 0 <= w < s0.len() && s0[w] == j as usize;
                    assert(s1[w] == j as usize);
                }
                if s1.contains(j as usize) && j != i {
                    let w = choose|w: int| 0 <= w < s1.len() && s1[w] == j as usize;
                    assert(s0[w] == j as usize);
                }
                if j == i {
                    assert(s1[k as int] == i);
                }
            }
        }
        k = k + 1;
    }
    proof {
        assert(edge_inds@.subrange(0, edge_inds@.len() as int) == edge_inds@);
    }
    edge_bits
}

/// All subsets of `s`: subset `i` keeps the elements whose position is a set bit of `i`.
pub fn powerset<T: Clone>(s: &[T]) -> (r: Vec<Vec<T>>)
    requires
        s@.len() < 32,
    ensures
        r@.len() == (1u32 << (s@.len() as u32)) as int,
        forall|i: int|
            0 <= i < r@.len() ==> #[trigger] r@[i]@.len() == nbits(i as u32, s@.len() as int),
{
    let len = s.len();
    let total: u32 = 1u32 << (len as u32);
    let mut res: Vec<Vec<T>> = Vec::new();
    let mut i: u32 = 0;
    while i < total
        invariant
            len == s@.len(),
            len < 32,
            total == 1u32 << (len as u32),
            i <= total,
            res@.len() == i,
            forall|k: int| 0 <= k < i ==> #[trigger] res@[k]@.len() == nbits(k as u32, len as int),
        decreases total - i,
    {
        let mut sub: Vec<T> = Vec::new();
        let mut t: usize = 0;
        while t < len
            invariant
                len == s@.len(),
                len < 32,
                t <= len,
                sub@.len() == nbits(i, t as int),
            decreases len - t,
        {
            if (i >> (t as u32)) % 2 == 1 {
                proof {
                    let tu = t as u32;
                    assert((i >> tu) % 2 == 1 <==> i & (1u32 << tu) != 0) by (bit_vector)
                        requires
                            tu < 32,
                    ;
                }
                sub.push(s[t].clone());
            } else {
                proof {
                    let tu = t as u32;
                    assert((i >> tu) % 2 == 1 <==> i & (1u32 << tu) != 0) by (bit_vector)
                        requires
                            tu < 32,
                    ;
                }
            }
            t = t + 1;
        }
        res.push(sub);
        i = i + 1;
    }
    res
}

/// Whether two edges share an endpoint.
pub fn are_adjacent(e: &TEdge, f: &TEdge) -> (r: bool)
    ensures
        r == adjacent(*e, *f),
{
    (e.0 == f.0) || (e.0 == f.1) || (e.1 == f.0) || (e.1 == f.1)
}

/// The edge set of the given edges.
pub fn edges_to_bits(n: u8, edges: &[TEdge]) -> (r: u32)
    requires
        valid_n(n as int),
        forall|k: int| 0 <= k < edges@.len() ==> edges@[k].0 < n && edges@[k].1 < n && edges@[k].0 != edges@[k].1,
    ensures
        forall|i: int|
            0 <= i < 32 ==> (bit(r, i) <==> exists|k: int|
                0 <= k < edges@.len() && #[trigger] edge_index(n as int, edges@[k]) == i),
{
    let mut res: u32 = 0;
    let mut k: usize = 0;
    proof {
        lemma_bit_zero();
    }
    while k < edges.len()
        invariant
            valid_n(n as int),
            k <= edges@.len(),
            forall|k: int| 0 <= k < edges@.len() ==> edges@[k].0 < n && edges@[k].1 < n && edges@[k].0 != edges@[k].1,
            forall|i: int|
                0 <= i < 32 ==> (bit(res, i) <==> exists|j: int|
                    0 <= j < k && #[trigger] edge_index(n as int, edges@[j]) == i),
        decreases edges@.len() - k,
    {
        let e = edges[k];
        let i = e2i(n, e.0, e.1);
        let ghost old_res = res;
        proof {
            lemma_nb_pairs(n as int);
        }
        res = res | (1u32 << (i as u32));
        proof {
            assert forall|j: int|
                0 <= j < 32 implies (bit(res, j) <==> exists|w: int|
                0 <= w < k + 1 && #[trigger] edge_index(n as int, edges@[w]) == j) by {
                lemma_bit_or(old_res, 1u32 << (i as u32), j);
                lemma_bit_single(i as int, j);
                if j == i {
                    assert(edge_index(n as int, edges@[k as int]) == j);
                }
            }
        }
        k = k + 1;
    }
    res
}

/// Index of an edge, whichever way its endpoints are written.
pub open spec fn edge_index(n: int, e: TEdge) -> int {
    if e.0 < e.1 {
        pair_index(n, e.0 as int, e.1 as int)
    } else {
        pair_index(n, e.1 as int, e.0 as int)
    }
}

/// The untimed edges of the set bits of `bits`, in index order.
pub fn bits_to_edges(n: u8, bits: u32) -> (r: Vec<TEdge>)
    requires
        valid_n(n as int),
        forall|i: int| nb_pairs(n as int) <= i < 32 ==> !bit(bits, i),
    ensures
        r@.len() == set_bits(bits, 32).len(),
        forall|j: int|
            0 <= j < r@.len() ==> r@[j] == untimed_edge(n as int, #[trigger] set_bits(bits, 32)[j]),
{
    let mut res: Vec<TEdge> = Vec::new();
    let mut i: u8 = 0;
    while i < 32
        invariant
            valid_n(n as int),
            i <= 32,
            forall|i: int| nb_pairs(n as int) <= i < 32 ==> !bit(bits, i),
            res@.len() == set_bits(bits, i as int).len(),
            forall|j: int|
                0 <= j < res@.len() ==> res@[j] == untimed_edge(
                    n as int,
                    #[trigger] set_bits(bits, i as int)[j],
                ),
        decreases 32 - i,
    {
        if bits & (1u32 << (i as u32)) != 0 {
            proof {
                assert(bit(bits, i as int));
                lemma_edge_of_valid(n as int, i as int);
            }
            res.push(i2e(n, i));
        }
        i = i + 1;
    }
    res
}

/// For each vertex `i < n`, the set `{i}`.
pub fn each_ones(n: u8) -> (r: Vec<u8>)
    requires
        valid_n(n as int),
    ensures
        r@.len() == n,
        forall|i: int| 0 <= i < n ==> #[trigger] r@[i] == 1u8 << (i as u8),
{
    let mut preds: Vec<u8> = Vec::new();
    let mut i: u8 = 0;
    while i < n
        invariant
            valid_n(n as int),
            i <= n,
            preds@.len() == i,
            forall|k: int| 0 <= k < i ==> #[trigger] preds@[k] == 1u8 << (k as u8),
        decreases n - i,
    {
        preds.push(1u8 << i);
        i = i + 1;
    }
    preds
}

/// The set of all `n` vertices.
pub fn all_ones(n: u8) -> (r: u8)
    requires
        valid_n(n as int),
    ensures
        r == full_set(n as int),
{
    proof {
        let nu = n as u32;
        assert(1 <= (1u32 << nu) <= 256) by (bit_vector)
            requires
                nu <= 8,
        ;
    }
    ((1u32 << (n as u32)) - 1) as u8
}

/// Number of edges of the complete graph on `n` vertices.
pub fn nb_edges_of(n: u8) -> (m: usize)
    requires
        valid_n(n as int),
    ensures
        m as int == nb_pairs(n as int),
        1 <= m <= 28,
{
    proof {
        lemma_nb_pairs(n as int);
        let ni = n as int;
        assert(ni * (ni - 1) <= 56) by (nonlinear_arith)
            requires
                2 <= ni <= 8,
        ;
    }
    (n as usize) * (n as usize - 1) / 2
}

} // verus!
