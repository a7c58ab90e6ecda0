use vstd::prelude::*;

verus! {

/// Bit `i` of an edge set.
pub open spec fn bit(x: u32, i: int) -> bool {
    0 <= i < 32 && x & (1u32 << (i as u32)) != 0
}

/// Bit `i` of a vertex set.
pub open spec fn vbit(x: u8, i: int) -> bool {
    0 <= i < 8 && x & (1u8 << (i as u8)) != 0
}

/// Number of set bits of `x` below position `k`.
pub open spec fn nbits(x: u32, k: int) -> nat
    decreases k,
{
    if k <= 0 {
        0
    } else {
        nbits(x, k - 1) + if bit(x, k - 1) {
            1nat
        } else {
            0nat
        }
    }
}

/// Number of set bits of `x`.
pub open spec fn popcount(x: u32) -> nat {
    nbits(x, 32)
}

/// `a` is a subset of `b`, bit by bit.
pub open spec fn vsubset(a: u8, b: u8) -> bool {
    forall|i: int| 0 <= i < 8 && #[trigger] vbit(a, i) ==> vbit(b, i)
}

pub proof fn lemma_bit_or(x: u32, y: u32, i: int)
    requires
        0 <= i < 32,
    ensures
        bit(x | y, i) == (bit(x, i) || bit(y, i)),
{
    let iu = i as u32;
    assert((x | y) & (1u32 << iu) != 0 <==> (x & (1u32 << iu) != 0 || y & (1u32 << iu) != 0))
        by (bit_vector)
        requires
            iu < 32,
    ;
}

pub proof fn lemma_bit_and(x: u32, y: u32, i: int)
    requires
        0 <= i < 32,
    ensures
        bit(x & y, i) == (bit(x, i) && bit(y, i)),
{
    let iu = i as u32;
    assert((x & y) & (1u32 << iu) != 0 <==> (x & (1u32 << iu) != 0 && y & (1u32 << iu) != 0))
        by (bit_vector)
        requires
            iu < 32,
    ;
}

pub proof fn lemma_bit_not(x: u32, i: int)
    requires
        0 <= i < 32,
    ensures
        bit(!x, i) == !bit(x, i),
{
    let iu = i as u32;
    assert((!x) & (1u32 << iu) != 0 <==> !(x & (1u32 << iu) != 0)) by (bit_vector)
        requires
            iu < 32,
    ;
}

pub proof fn lemma_bit_single(j: int, i: int)
    requires
        0 <= i < 32,
        0 <= j < 32,
    ensures
        bit(1u32 << (j as u32), i) == (i == j),
{
    let iu = i as u32;
    let ju = j as u32;
    assert((1u32 << ju) & (1u32 << iu) != 0 <==> iu == ju) by (bit_vector)
        requires
            iu < 32,
            ju < 32,
    ;
}

pub proof fn lemma_vbit_or(x: u8, y: u8, i: int)
    requires
        0 <= i < 8,
    ensures
        vbit(x | y, i) == (vbit(x, i) || vbit(y, i)),
{
    let iu = i as u8;
    assert((x | y) & (1u8 << iu) != 0 <==> (x & (1u8 << iu) != 0 || y & (1u8 << iu) != 0))
        by (bit_vector)
        requires
            iu < 8,
    ;
}

pub proof fn lemma_vbit_and(x: u8, y: u8, i: int)
    requires
        0 <= i < 8,
    ensures
        vbit(x & y, i) == (vbit(x, i) && vbit(y, i)),
{
    let iu = i as u8;
    assert((x & y) & (1u8 << iu) != 0 <==> (x & (1u8 << iu) != 0 && y & (1u8 << iu) != 0))
        by (bit_vector)
        requires
            iu < 8,
    ;
}

pub proof fn lemma_vbit_single(j: int, i: int)
    requires
        0 <= i < 8,
        0 <= j < 8,
    ensures
        vbit(1u8 << (j as u8), i) == (i == j),
{
    let iu = i as u8;
    let ju = j as u8;
    assert((1u8 << ju) & (1u8 << iu) != 0 <==> iu == ju) by (bit_vector)
        requires
            iu < 8,
            ju < 8,
    ;
}

/// The vertex set `{0, .., n-1}`.
pub open spec fn full_set(n: int) -> u8 {
    ((1u32 << (n as u32)) - 1) as u8
}

pub proof fn lemma_full_set(n: int, i: int)
    requires
        1 <= n <= 8,
        0 <= i < 8,
    ensures
        vbit(full_set(n), i) == (i < n),
{
    let nu = n as u32;
    let iu = i as u8;
    let f = full_set(n);
    assert(f == ((1u32 << nu) - 1) as u8);
    assert((((1u32 << nu) - 1) as u8) & (1u8 << iu) != 0 <==> (iu as u32) < nu) by (bit_vector)
        requires
            iu < 8,
            1 <= nu <= 8,
    ;
}

/// Setting a clear bit adds one to the count of every prefix that holds it.
pub proof fn lemma_nbits_set(x: u32, j: int, k: int)
    requires
        0 <= j < 32,
        0 <= k <= 32,
        !bit(x, j),
    ensures
        nbits(x | (1u32 << (j as u32)), k) == nbits(x, k) + if j < k {
            1nat
        } else {
            0nat
        },
    decreases k,
{
    if k > 0 {
        lemma_nbits_set(x, j, k - 1);
        lemma_bit_or(x, 1u32 << (j as u32), k - 1);
        lemma_bit_single(j, k - 1);
    }
}

/// The count of `x | y` for disjoint `x`, `y`.
pub proof fn lemma_nbits_disjoint_or(x: u32, y: u32, k: int)
    requires
        0 <= k <= 32,
        forall|i: int| 0 <= i < k ==> !(bit(x, i) && bit(y, i)),
    ensures
        nbits(x | y, k) == nbits(x, k) + nbits(y, k),
    decreases k,
{
    if k > 0 {
        lemma_nbits_disjoint_or(x, y, k - 1);
        lemma_bit_or(x, y, k - 1);
    }
}

/// Counts agree on two words with the same bits below `k`.
pub proof fn lemma_nbits_same(x: u32, y: u32, k: int)
    requires
        0 <= k <= 32,
        forall|i: int| 0 <= i < k ==> bit(x, i) == bit(y, i),
    ensures
        nbits(x, k) == nbits(y, k),
    decreases k,
{
    if k > 0 {
        lemma_nbits_same(x, y, k - 1);
    }
}

pub proof fn lemma_nbits_mono(x: u32, j: int, k: int)
    requires
        0 <= j <= k,
    ensures
        nbits(x, j) <= nbits(x, k),
        nbits(x, k) <= k,
    decreases k,
{
    if k > 0 {
        if j < k {
            lemma_nbits_mono(x, j, k - 1);
        } else {
            lemma_nbits_mono(x, k - 1, k - 1);
        }
    }
}

/// Bits of a word below `2^m` lie below `m`.
pub proof fn lemma_bits_below(x: u32, m: int, i: int)
    requires
        0 <= m < 32,
        (x as int) < (1u32 << (m as u32)) as int,
        m <= i < 32,
    ensures
        !bit(x, i),
{
    let mu = m as u32;
    let iu = i as u32;
    assert(x & (1u32 << iu) == 0) by (bit_vector)
        requires
            mu < 32,
            x < (1u32 << mu),
            mu <= iu < 32,
    ;
}

/// Counts stop growing past the last set bit.
pub proof fn lemma_nbits_const(x: u32, m: int, k: int)
    requires
        0 <= m <= 32,
        forall|i: int| m <= i < 32 ==> !bit(x, i),
        m <= k <= 32,
    ensures
        nbits(x, k) == nbits(x, m),
    decreases k,
{
    if k > m {
        lemma_nbits_const(x, m, k - 1);
    }
}

pub proof fn lemma_bit_zero()
    ensures
        forall|i: int| !bit(0u32, i),
{
    assert forall|i: int| !bit(0u32, i) by {
        if 0 <= i < 32 {
            let iu = i as u32;
            assert(0u32 & (1u32 << iu) == 0) by (bit_vector);
        }
    }
}

pub proof fn lemma_nbits_zero(k: int)
    requires
        0 <= k <= 32,
    ensures
        nbits(0u32, k) == 0,
    decreases k,
{
    lemma_bit_zero();
    if k > 0 {
        lemma_nbits_zero(k - 1);
    }
}

pub proof fn lemma_nbits_ones(k: int)
    requires
        0 <= k <= 32,
    ensures
        nbits(!0u32, k) == k,
    decreases k,
{
    if k > 0 {
        lemma_nbits_ones(k - 1);
        let iu = (k - 1) as u32;
        assert((!0u32) & (1u32 << iu) != 0) by (bit_vector)
            requires
                iu < 32,
        ;
    }
}

/// Two edge sets with the same bits are equal.
pub proof fn lemma_bits_ext(x: u32, y: u32)
    requires
        forall|i: int| 0 <= i < 32 ==> bit(x, i) == bit(y, i),
    ensures
        x == y,
{
    assert(bit(x, 0) == bit(y, 0));
    assert(bit(x, 1) == bit(y, 1));
    assert(bit(x, 2) == bit(y, 2));
    assert(bit(x, 3) == bit(y, 3));
    assert(bit(x, 4) == bit(y, 4));
    assert(bit(x, 5) == bit(y, 5));
    assert(bit(x, 6) == bit(y, 6));
    assert(bit(x, 7) == bit(y, 7));
    assert(bit(x, 8) == bit(y, 8));
    assert(bit(x, 9) == bit(y, 9));
    assert(bit(x, 10) == bit(y, 10));
    assert(bit(x, 11) == bit(y, 11));
    assert(bit(x, 12) == bit(y, 12));
    assert(bit(x, 13) == bit(y, 13));
    assert(bit(x, 14) == bit(y, 14));
    assert(bit(x, 15) == bit(y, 15));
    assert(bit(x, 16) == bit(y, 16));
    assert(bit(x, 17) == bit(y, 17));
    assert(bit(x, 18) == bit(y, 18));
    assert(bit(x, 19) == bit(y, 19));
    assert(bit(x, 20) == bit(y, 20));
    assert(bit(x, 21) == bit(y, 21));
    assert(bit(x, 22) == bit(y, 22));
    assert(bit(x, 23) == bit(y, 23));
    assert(bit(x, 24) == bit(y, 24));
    assert(bit(x, 25) == bit(y, 25));
    assert(bit(x, 26) == bit(y, 26));
    assert(bit(x, 27) == bit(y, 27));
    assert(bit(x, 28) == bit(y, 28));
    assert(bit(x, 29) == bit(y, 29));
    assert(bit(x, 30) == bit(y, 30));
    assert(bit(x, 31) == bit(y, 31));
    assert(x == y) by (bit_vector)
        requires
            (x & (1u32 << 0u32) != 0) == (y & (1u32 << 0u32) != 0),
            (x & (1u32 << 1u32) != 0) == (y & (1u32 << 1u32) != 0),
            (x & (1u32 << 2u32) != 0) == (y & (1u32 << 2u32) != 0),
            (x & (1u32 << 3u32) != 0) == (y & (1u32 << 3u32) != 0),
            (x & (1u32 << 4u32) != 0) == (y & (1u32 << 4u32) != 0),
            (x & (1u32 << 5u32) != 0) == (y & (1u32 << 5u32) != 0),
            (x & (1u32 << 6u32) != 0) == (y & (1u32 << 6u32) != 0),
            (x & (1u32 << 7u32) != 0) == (y & (1u32 << 7u32) != 0),
            (x & (1u32 << 8u32) != 0) == (y & (1u32 << 8u32) != 0),
            (x & (1u32 << 9u32) != 0) == (y & (1u32 << 9u32) != 0),
            (x & (1u32 << 10u32) != 0) == (y & (1u32 << 10u32) != 0),
            (x & (1u32 << 11u32) != 0) == (y & (1u32 << 11u32) != 0),
            (x & (1u32 << 12u32) != 0) == (y & (1u32 << 12u32) != 0),
            (x & (1u32 << 13u32) != 0) == (y & (1u32 << 13u32) != 0),
            (x & (1u32 << 14u32) != 0) == (y & (1u32 << 14u32) != 0),
            (x & (1u32 << 15u32) != 0) == (y & (1u32 << 15u32) != 0),
            (x & (1u32 << 16u32) != 0) == (y & (1u32 << 16u32) != 0),
            (x & (1u32 << 17u32) != 0) == (y & (1u32 << 17u32) != 0),
            (x & (1u32 << 18u32) != 0) == (y & (1u32 << 18u32) != 0),
            (x & (1u32 << 19u32) != 0) == (y & (1u32 << 19u32) != 0),
            (x & (1u32 << 20u32) != 0) == (y & (1u32 << 20u32) != 0),
            (x & (1u32 << 21u32) != 0) == (y & (1u32 << 21u32) != 0),
            (x & (1u32 << 22u32) != 0) == (y & (1u32 << 22u32) != 0),
            (x & (1u32 << 23u32) != 0) == (y & (1u32 << 23u32) != 0),
            (x & (1u32 << 24u32) != 0) == (y & (1u32 << 24u32) != 0),
            (x & (1u32 << 25u32) != 0) == (y & (1u32 << 25u32) != 0),
            (x & (1u32 << 26u32) != 0) == (y & (1u32 << 26u32) != 0),
            (x & (1u32 << 27u32) != 0) == (y & (1u32 << 27u32) != 0),
            (x & (1u32 << 28u32) != 0) == (y & (1u32 << 28u32) != 0),
            (x & (1u32 << 29u32) != 0) == (y & (1u32 << 29u32) != 0),
            (x & (1u32 << 30u32) != 0) == (y & (1u32 << 30u32) != 0),
            (x & (1u32 << 31u32) != 0) == (y & (1u32 << 31u32) != 0),
    ;
}

/// Two vertex sets with the same bits are equal.
pub proof fn lemma_vbits_ext(x: u8, y: u8)
    requires
        forall|i: int| 0 <= i < 8 ==> vbit(x, i) == vbit(y, i),
    ensures
        x == y,
{
    assert(vbit(x, 0) == vbit(y, 0));
    assert(vbit(x, 1) == vbit(y, 1));
    assert(vbit(x, 2) == vbit(y, 2));
    assert(vbit(x, 3) == vbit(y, 3));
    assert(vbit(x, 4) == vbit(y, 4));
    assert(vbit(x, 5) == vbit(y, 5));
    assert(vbit(x, 6) == vbit(y, 6));
    assert(vbit(x, 7) == vbit(y, 7));
    assert(x == y) by (bit_vector)
        requires
            (x & (1u8 << 0u8) != 0) == (y & (1u8 << 0u8) != 0),
            (x & (1u8 << 1u8) != 0) == (y & (1u8 << 1u8) != 0),
            (x & (1u8 << 2u8) != 0) == (y & (1u8 << 2u8) != 0),
            (x & (1u8 << 3u8) != 0) == (y & (1u8 << 3u8) != 0),
            (x & (1u8 << 4u8) != 0) == (y & (1u8 << 4u8) != 0),
            (x & (1u8 << 5u8) != 0) == (y & (1u8 << 5u8) != 0),
            (x & (1u8 << 6u8) != 0) == (y & (1u8 << 6u8) != 0),
            (x & (1u8 << 7u8) != 0) == (y & (1u8 << 7u8) != 0),
    ;
}

} // verus!
