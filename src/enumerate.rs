use vstd::prelude::*;
use crate::algos::{dismountable, pivot, select, greedy_ok, temporally_connected};
use crate::cache::{Cache, cache_prefix, compute_cache, edge_range, lemma_cache_entries};
use crate::helper::{nb_pairs, valid_n};
use crate::tedges::TEdge;
use crate::tgraph::{
    TGraph, fitting, kept_matchings, lemma_kept, lemma_nb_edges_bound, round_options,
    successors_spec,
};

verus! {

/// Number of placed edges up to which `get_pool` explores before splitting the search.
pub const TCUT: u8 = 5;

/// Bound on the number of children of a snapshot, used to weigh the pending work.
pub open spec fn fan() -> int {
    0x1_0000_0000
}

/// `fan()^d`: the weight of a snapshot with `d` edges left to place.
pub open spec fn weight(d: int) -> int
    decreases d,
{
    if d <= 0 {
        1
    } else {
        fan() * weight(d - 1)
    }
}

/// Total weight of the snapshots of `s` on `m` edges.
pub open spec fn stack_weight(s: Seq<TGraph>, m: int) -> int
    decreases s.len(),
{
    if s.len() == 0 {
        0
    } else {
        stack_weight(s.drop_last(), m) + weight(m - s.last().nb_edges)
    }
}

proof fn lemma_weight_pos(d: int)
    ensures
        weight(d) >= 1,
    decreases d,
{
    if d > 0 {
        lemma_weight_pos(d - 1);
        assert(fan() * weight(d - 1) >= 1) by (nonlinear_arith)
            requires
                weight(d - 1) >= 1,
                fan() >= 1,
        ;
    }
}

proof fn lemma_weight_mono(a: int, b: int)
    requires
        a <= b,
    ensures
        weight(a) <= weight(b),
    decreases b - a,
{
    if a < b {
        lemma_weight_mono(a, b - 1);
        lemma_weight_pos(b - 1);
        if b > 0 {
            assert(weight(b - 1) <= fan() * weight(b - 1)) by (nonlinear_arith)
                requires
                    weight(b - 1) >= 1,
                    fan() >= 1,
            ;
        }
    }
}

/// The children of a snapshot weigh less than it does.
proof fn lemma_children_weight(s: Seq<TGraph>, m: int, d: int)
    requires
        d >= 0,
        s.len() < fan(),
        forall|k: int| 0 <= k < s.len() ==> 0 <= m - (#[trigger] s[k]).nb_edges <= d - 1,
    ensures
        stack_weight(s, m) <= s.len() * weight(d - 1),
        stack_weight(s, m) < weight(d),
    decreases s.len(),
{
    lemma_weight_pos(d - 1);
    let w = weight(d - 1);
    let l = s.len() as int;
    if s.len() > 0 {
        assert(0 <= m - s[0].nb_edges <= d - 1);
        lemma_children_weight(s.drop_last(), m, d);
        lemma_weight_mono(m - s.last().nb_edges, d - 1);
        assert((l - 1) * w + w == l * w) by (nonlinear_arith);
        assert(l * w < fan() * w) by (nonlinear_arith)
            requires
                l < fan(),
                w >= 1,
        ;
    }
}

proof fn lemma_stack_weight_nonneg(s: Seq<TGraph>, m: int)
    ensures
        stack_weight(s, m) >= 0,
    decreases s.len(),
{
    if s.len() > 0 {
        lemma_stack_weight_nonneg(s.drop_last(), m);
        lemma_weight_pos(m - s.last().nb_edges);
    }
}

proof fn lemma_stack_weight_append(a: Seq<TGraph>, b: Seq<TGraph>, m: int)
    ensures
        stack_weight(a + b, m) == stack_weight(a, m) + stack_weight(b, m),
    decreases b.len(),
{
    if b.len() > 0 {
        lemma_stack_weight_append(a, b.drop_last(), m);
        assert((a + b).drop_last() =~= a + b.drop_last());
    } else {
        assert(a + b =~= a);
    }
}

/// Which snapshots the enumeration keeps (and expands).
#[derive(Clone, Copy, Debug, PartialEq, Eq)]
pub enum Selector {
    /// Every snapshot.
    All,
    /// Snapshots that are not dismountable.
    NonDismountable,
    /// Snapshots without a pivot vertex.
    NonPivotable,
    /// Snapshots neither dismountable nor with a pivot vertex.
    NonBoth,
    /// Snapshots that `select` keeps.
    Select,
    /// Snapshots with at most this many placed edges.
    UpTo(u8),
}

impl Selector {
    /// What the selector decides on `g`, where that is a function of `g`.
    pub open spec fn keeps(&self, g: &TGraph, cache: &Cache) -> bool {
        match *self {
            Selector::All => true,
            Selector::NonDismountable => !dismountable(g),
            Selector::NonPivotable => !pivot(g, cache),
            Selector::NonBoth => !pivot(g, cache) && !dismountable(g),
            Selector::Select => !dismountable(g) && !pivot(g, cache) && !greedy_ok(g),
            Selector::UpTo(t) => g.nb_edges <= t,
        }
    }

    /// Whether the enumeration keeps `g`.
    pub fn accepts(&self, g: &TGraph, cache: &Cache) -> (r: bool)
        requires
            g.wf(cache),
        ensures
            *self != Selector::Select ==> r == self.keeps(g, cache),
            *self == Selector::Select ==> (r ==> self.keeps(g, cache)),
            *self == Selector::Select && self.keeps(g, cache) && !(g.nb_edges >= 2 * g.n - 4
                && temporally_connected(g)) ==> r,
    {
        match self {
            Selector::All => true,
            Selector::NonDismountable => !g.is_dismountable(),
            Selector::NonPivotable => !g.has_pivot_vertex(cache),
            Selector::NonBoth => !g.has_pivot_vertex(cache) && !g.is_dismountable(),
            Selector::Select => select(g, cache),
            Selector::UpTo(t) => g.nb_edges <= *t,
        }
    }
}

/// Every snapshot of `s` above position `j` is one that `sel` rejects (known of every
/// selector but `Select`, whose spanner test may draw random orders).
pub open spec fn rejects_above(s: Seq<TGraph>, j: int, sel: Selector, cache: &Cache) -> bool {
    sel != Selector::Select ==> forall|t: int| j < t < s.len() ==> !sel.keeps(&#[trigger] s[t], cache)
}

/// One step of the enumeration from stack `s`: `h`, at position `j`, is the first kept
/// snapshot from the top, and the stack becomes the part below `h` with the children of `h`
/// on top.
pub open spec fn emits(s: Seq<TGraph>, t: Seq<TGraph>, h: TGraph, sel: Selector, cache: &Cache) -> bool {
    exists|j: int, hs: Seq<TGraph>|
        #![trigger successors_spec(&h, cache, hs), rejects_above(s, j, sel, cache)]
        0 <= j < s.len() && s[j] == h && successors_spec(&h, cache, hs) && t == s.subrange(0, j)
            + hs && rejects_above(s, j, sel, cache)
}

/// `outs` is what the enumeration emits from `stacks[0]` until it stops, `stacks` the stacks
/// it passes through.
pub open spec fn full_run(stacks: Seq<Seq<TGraph>>, outs: Seq<TGraph>, sel: Selector, cache: &Cache) -> bool {
    &&& stacks.len() == outs.len() + 1
    &&& forall|i: int|
        0 <= i < outs.len() ==> emits(stacks[i], stacks[i + 1], #[trigger] outs[i], sel, cache)
    &&& rejects_above(stacks.last(), -1, sel, cache)
}

/// How many snapshots of `outs` are complete.
pub open spec fn nb_complete(outs: Seq<TGraph>, m: int) -> int
    decreases outs.len(),
{
    if outs.len() == 0 {
        0
    } else {
        nb_complete(outs.drop_last(), m) + if outs.last().nb_edges == m {
            1int
        } else {
            0int
        }
    }
}

/// `k`, or `u64::MAX` when larger.
pub open spec fn sat(k: int) -> int {
    if k < u64::MAX {
        k
    } else {
        u64::MAX as int
    }
}

/// Depth-first enumeration of the snapshots below a root that a selector keeps.
pub struct TGraphs<'a> {
    pub stack: Vec<TGraph>,
    pub cache: &'a Cache,
    pub select: Selector,
}

impl<'a> TGraphs<'a> {
    pub open spec fn wf(&self) -> bool {
        &&& self.cache.wf()
        &&& forall|k: int| 0 <= k < self.stack@.len() ==> (#[trigger] self.stack@[k]).wf(self.cache)
    }

    /// The work left, which every emitted snapshot lowers.
    pub open spec fn pending(&self) -> int {
        stack_weight(self.stack@, self.cache.m())
    }

    /// The next kept snapshot: snapshots are popped, those rejected are dropped with their
    /// subtrees, and a kept one has its children pushed before it is returned.
    pub fn next_graph(&mut self) -> (r: Option<TGraph>)
        requires
            old(self).wf(),
        ensures
            final(self).wf(),
            final(self).cache == old(self).cache,
            final(self).select == old(self).select,
            r is None ==> final(self).stack@.len() == 0,
            r is None ==> rejects_above(old(self).stack@, -1, old(self).select, old(self).cache),
            r is Some ==> emits(old(self).stack@, final(self).stack@, r->0, old(self).select, old(self).cache),
            old(self).stack@.len() > 0 && old(self).select != Selector::Select
                && old(self).select.keeps(&old(self).stack@.last(), old(self).cache) ==> r is Some,
            old(self).stack@.len() == 1 && old(self).select != Selector::Select
                && !old(self).select.keeps(&old(self).stack@[0], old(self).cache) ==> r is None,
            r is Some ==> final(self).pending() < old(self).pending(),
            final(self).pending() >= 0,
            r is Some ==> r->0.wf(final(self).cache),
            r is Some && final(self).select != Selector::Select ==> final(self).select.keeps(
                &r->0,
                final(self).cache,
            ),
    {
        let ghost m = self.cache.m();
        while self.stack.len() > 0
            invariant
                self.wf(),
                self.cache == old(self).cache,
                self.select == old(self).select,
                m == self.cache.m(),
                self.pending() <= old(self).pending(),
                self.stack@.len() <= old(self).stack@.len(),
                self.stack@ == old(self).stack@.subrange(0, self.stack@.len() as int),
                rejects_above(old(self).stack@, self.stack@.len() - 1, self.select, self.cache),
                old(self).stack@.len() > 0 && old(self).select != Selector::Select
                    && old(self).select.keeps(&old(self).stack@.last(), old(self).cache)
                    ==> self.stack@ == old(self).stack@,
                old(self).stack@.len() == 1 && old(self).select != Selector::Select
                    && !old(self).select.keeps(&old(self).stack@[0], old(self).cache) ==> (
                self.stack@ == old(self).stack@ || self.stack@.len() == 0),
            ensures
                self.wf(),
                self.cache == old(self).cache,
                self.select == old(self).select,
                self.stack@.len() == 0,
                rejects_above(old(self).stack@, -1, self.select, self.cache),
                old(self).stack@.len() > 0 && old(self).select != Selector::Select
                    && old(self).select.keeps(&old(self).stack@.last(), old(self).cache)
                    ==> self.stack@ == old(self).stack@,
            decreases self.stack@.len(),
        {
            let ghost before = self.stack@;
            let ghost j = self.stack@.len() - 1;
            let g = self.stack.pop().unwrap();
            proof {
                assert(old(self).stack@[j] == g);
                assert(self.stack@ =~= old(self).stack@.subrange(0, j));
                assert(before.drop_last() == self.stack@);
                assert(before.last() == g);
                lemma_weight_pos(m - g.nb_edges);
                assert(g.wf(self.cache));
            }
            if self.select.accepts(&g, self.cache) {
                let hs = g.successors(self.cache);
                let ghost hs0 = hs@;
                proof {
                    lemma_nb_edges_bound(&g);
                    lemma_successors_count(&g, self.cache, hs@);
                    lemma_children_weight(hs@, m, m - g.nb_edges);
                }
                let ghost rest = self.stack@;
                let mut hs = hs;
                self.stack.append(&mut hs);
                proof {
                    lemma_stack_weight_append(rest, hs0, m);
                    lemma_stack_weight_nonneg(self.stack@, m);
                    assert forall|j: int| 0 <= j < self.stack@.len() implies (#[trigger] self.stack@[j]).wf(self.cache) by {
                        if j >= rest.len() {
                            assert(self.stack@[j] == hs0[j - rest.len()]);
                        }
                    }
                    assert(self.stack@ == old(self).stack@.subrange(0, j) + hs0);
                    assert(emits(old(self).stack@, self.stack@, g, old(self).select, old(self).cache));
                }
                return Some(g);
            }
        }
        proof {
            lemma_stack_weight_nonneg(self.stack@, m);
        }
        None
    }
}

/// The enumeration of the snapshots below `g` that `select` keeps (all of them when `None`).
pub fn descendants<'a>(g: TGraph, select: Option<Selector>, cache: &'a Cache) -> (r: TGraphs<'a>)
    requires
        g.wf(cache),
    ensures
        r.wf(),
        r.stack@ == seq![g],
        r.cache == cache,
        select is None ==> r.select == Selector::All,
        select is Some ==> r.select == select->0,
{
    let sel = match select {
        None => Selector::All,
        Some(s) => s,
    };
    let mut stack: Vec<TGraph> = Vec::new();
    stack.push(g);
    assert(stack@ =~= seq![g]);
    TGraphs { stack, cache, select: sel }
}

/// How many kept snapshots below `g` are complete (every edge placed); saturates at `u64::MAX`.
fn count_cliques(g: TGraph, select: Selector, cache: &Cache) -> (r: u64)
    requires
        g.wf(cache),
        select != Selector::Select,
    ensures
        !select.keeps(&g, cache) ==> r == 0,
        exists|stacks: Seq<Seq<TGraph>>, outs: Seq<TGraph>|
            stacks[0] == seq![g] && #[trigger] full_run(stacks, outs, select, cache) && r == sat(
                nb_complete(outs, cache.m()),
            ),
{
    let ghost root = g;
    let mut it = descendants(g, Some(select), cache);
    let mut nb: u64 = 0;
    let ghost mut stacks: Seq<Seq<TGraph>> = seq![seq![root]];
    let ghost mut outs: Seq<TGraph> = Seq::empty();
    loop
        invariant_except_break
            stacks.last() == it.stack@,
        invariant
            it.wf(),
            it.cache == cache,
            it.select == select,
            select != Selector::Select,
            !select.keeps(&root, cache) ==> nb == 0 && (it.stack@ == seq![root]
                || it.stack@.len() == 0),
            stacks.len() == outs.len() + 1,
            stacks[0] == seq![root],
            forall|i: int|
                0 <= i < outs.len() ==> emits(stacks[i], stacks[i + 1], #[trigger] outs[i], select, cache),
            nb == sat(nb_complete(outs, cache.m())),
        ensures
            !select.keeps(&root, cache) ==> nb == 0,
            stacks[0] == seq![root] && full_run(stacks, outs, select, cache) && nb == sat(
                nb_complete(outs, cache.m()),
            ),
        decreases it.pending(),
    {
        let ghost before = it.stack@;
        match it.next_graph() {
            Some(h) => {
                proof {
                    lemma_extend_run(stacks, outs, it.stack@, h, select, cache);
                    stacks = stacks.push(it.stack@);
                    outs = outs.push(h);
                    assert(outs.drop_last() == outs.drop_last());
                }
                if h.is_clique() && nb < u64::MAX {
                    nb = nb + 1;
                }
            },
            None => {
                assert(full_run(stacks, outs, select, cache));
                break;
            },
        }
    }
    nb
}

proof fn lemma_extend_run(
    stacks: Seq<Seq<TGraph>>,
    outs: Seq<TGraph>,
    t: Seq<TGraph>,
    h: TGraph,
    sel: Selector,
    cache: &Cache,
)
    requires
        stacks.len() == outs.len() + 1,
        forall|i: int|
            0 <= i < outs.len() ==> emits(stacks[i], stacks[i + 1], #[trigger] outs[i], sel, cache),
        emits(stacks.last(), t, h, sel, cache),
    ensures
        forall|i: int|
            0 <= i < outs.len() + 1 ==> emits(
                stacks.push(t)[i],
                stacks.push(t)[i + 1],
                #[trigger] outs.push(h)[i],
                sel,
                cache,
            ),
        stacks.push(t)[0] == stacks[0],
        outs.push(h).drop_last() == outs,
        outs.push(h).last() == h,
{
    assert(outs.push(h).drop_last() =~= outs);
    assert forall|i: int| 0 <= i < outs.len() + 1 implies emits(
        stacks.push(t)[i],
        stacks.push(t)[i + 1],
        #[trigger] outs.push(h)[i],
        sel,
        cache,
    ) by {
        if i < outs.len() {
            assert(outs.push(h)[i] == outs[i]);
            assert(emits(stacks[i], stacks[i + 1], outs[i], sel, cache));
        }
    }
}

/// Complete snapshots below `g` reached through non-dismountable snapshots only.
pub fn count_nondismountable(g: TGraph) -> (r: u64)
    requires
        g.inv(),
    ensures
        dismountable(&g) ==> r == 0,
        exists|c: Cache, stacks: Seq<Seq<TGraph>>, outs: Seq<TGraph>|
            c.wf() && c.n == g.n && stacks[0] == seq![g] && #[trigger] full_run(
                stacks,
                outs,
                Selector::NonDismountable,
                &c,
            ) && r == sat(nb_complete(outs, c.m())),
{
    let cache = compute_cache(g.n);
    count_cliques(g, Selector::NonDismountable, &cache)
}

/// Complete snapshots below `g` reached through snapshots without a pivot vertex only.
pub fn count_nonpivotable(g: TGraph) -> (r: u64)
    requires
        g.inv(),
    ensures
        exists|c: Cache, stacks: Seq<Seq<TGraph>>, outs: Seq<TGraph>|
            c.wf() && c.n == g.n && stacks[0] == seq![g] && #[trigger] full_run(
                stacks,
                outs,
                Selector::NonPivotable,
                &c,
            ) && r == sat(nb_complete(outs, c.m())),
{
    let cache = compute_cache(g.n);
    count_cliques(g, Selector::NonPivotable, &cache)
}

/// Complete snapshots below `g` reached through snapshots neither dismountable nor with a
/// pivot vertex.
pub fn count_nonboth(g: TGraph) -> (r: u64)
    requires
        g.inv(),
    ensures
        dismountable(&g) ==> r == 0,
        exists|c: Cache, stacks: Seq<Seq<TGraph>>, outs: Seq<TGraph>|
            c.wf() && c.n == g.n && stacks[0] == seq![g] && #[trigger] full_run(
                stacks,
                outs,
                Selector::NonBoth,
                &c,
            ) && r == sat(nb_complete(outs, c.m())),
{
    let cache = compute_cache(g.n);
    count_cliques(g, Selector::NonBoth, &cache)
}

/// Counts the complete snapshots that `select` keeps below `g`; stops at the first one for
/// which no spanner of `2n - 3` edges is found in 1000 tries and returns it.
pub fn check_spanners(g: TGraph, cache: &Cache) -> (r: Result<u64, TGraph>)
    requires
        g.wf(cache),
    ensures
        r is Err ==> r->Err_0.wf(cache) && r->Err_0.nb_edges == cache.m() && !greedy_ok(
            &r->Err_0,
        ),
        r is Ok ==> exists|stacks: Seq<Seq<TGraph>>, outs: Seq<TGraph>|
            stacks[0] == seq![g] && #[trigger] full_run(stacks, outs, Selector::Select, cache)
                && r->Ok_0 == sat(nb_complete(outs, cache.m())),
{
    let ghost root = g;
    let mut it = descendants(g, Some(Selector::Select), cache);
    let mut nb: u64 = 0;
    let ghost mut stacks: Seq<Seq<TGraph>> = seq![seq![root]];
    let ghost mut outs: Seq<TGraph> = Seq::empty();
    loop
        invariant_except_break
            stacks.last() == it.stack@,
        invariant
            it.wf(),
            it.cache == cache,
            it.select == Selector::Select,
            stacks.len() == outs.len() + 1,
            stacks[0] == seq![root],
            forall|i: int|
                0 <= i < outs.len() ==> emits(stacks[i], stacks[i + 1], #[trigger] outs[i], Selector::Select, cache),
            nb == sat(nb_complete(outs, cache.m())),
        ensures
            stacks[0] == seq![root] && full_run(stacks, outs, Selector::Select, cache) && nb == sat(
                nb_complete(outs, cache.m()),
            ),
        decreases it.pending(),
    {
        match it.next_graph() {
            Some(h) => {
                proof {
                    lemma_extend_run(stacks, outs, it.stack@, h, Selector::Select, cache);
                    stacks = stacks.push(it.stack@);
                    outs = outs.push(h);
                }
                if h.is_clique() {
                    if nb < u64::MAX {
                        nb = nb + 1;
                    }
                    if !h.has_optimal_spanner(1000) {
                        return Err(h);
                    }
                }
            },
            None => {
                assert(full_run(stacks, outs, Selector::Select, cache));
                break;
            },
        }
    }
    Ok(nb)
}

/// How many snapshots lie below `g` (itself included); saturates at `u64::MAX`.
pub fn count_all(g: TGraph, cache: &Cache) -> (r: u64)
    requires
        g.wf(cache),
    ensures
        r >= 1,
        exists|stacks: Seq<Seq<TGraph>>, outs: Seq<TGraph>|
            stacks[0] == seq![g] && #[trigger] full_run(stacks, outs, Selector::All, cache) && r
                == sat(outs.len() as int),
{
    let ghost root = g;
    let mut it = descendants(g, None, cache);
    let mut nb: u64 = 0;
    let ghost mut stacks: Seq<Seq<TGraph>> = seq![seq![root]];
    let ghost mut outs: Seq<TGraph> = Seq::empty();
    loop
        invariant_except_break
            stacks.last() == it.stack@,
        invariant
            it.wf(),
            it.cache == cache,
            it.select == Selector::All,
            nb == 0 ==> it.stack@.len() > 0,
            stacks.len() == outs.len() + 1,
            stacks[0] == seq![root],
            forall|i: int|
                0 <= i < outs.len() ==> emits(stacks[i], stacks[i + 1], #[trigger] outs[i], Selector::All, cache),
            nb == sat(outs.len() as int),
        ensures
            nb >= 1,
            stacks[0] == seq![root] && full_run(stacks, outs, Selector::All, cache) && nb == sat(
                outs.len() as int,
            ),
        decreases it.pending(),
    {
        match it.next_graph() {
            Some(h) => {
                proof {
                    lemma_extend_run(stacks, outs, it.stack@, h, Selector::All, cache);
                    stacks = stacks.push(it.stack@);
                    outs = outs.push(h);
                }
                if nb < u64::MAX {
                    nb = nb + 1;
                }
            },
            None => {
                assert(full_run(stacks, outs, Selector::All, cache));
                break;
            },
        }
    }
    nb
}

/// `k`, or `usize::MAX` when larger.
pub open spec fn sat_usize(k: int) -> int {
    if k < usize::MAX {
        k
    } else {
        usize::MAX as int
    }
}

/// The snapshots of `hs` with more than `TCUT` edges, last first.
pub open spec fn over_cut(hs: Seq<TGraph>) -> Seq<TGraph>
    decreases hs.len(),
{
    if hs.len() == 0 {
        Seq::empty()
    } else {
        let rest = over_cut(hs.drop_last());
        if hs.last().nb_edges > TCUT {
            seq![hs.last()] + rest
        } else {
            rest
        }
    }
}

/// The pool gathered from the first `k` children lists of `chs`.
pub open spec fn pool_of(chs: Seq<Seq<TGraph>>, k: int) -> Seq<TGraph>
    decreases k,
{
    if k <= 0 {
        Seq::empty()
    } else {
        pool_of(chs, k - 1) + over_cut(chs[k - 1])
    }
}

/// Splits the search below `g`: the snapshots with more than `TCUT` edges whose parent has at
/// most `TCUT` and is kept, and how many snapshots with at most `TCUT` edges are kept.
pub fn get_pool(g: TGraph) -> (r: (Vec<TGraph>, usize))
    requires
        g.inv(),
    ensures
        forall|k: int|
            0 <= k < r.0@.len() ==> (#[trigger] r.0@[k]).inv() && r.0@[k].n == g.n
                && r.0@[k].nb_edges > TCUT,
        g.nb_edges <= TCUT ==> r.1 >= 1,
        exists|c: Cache, stacks: Seq<Seq<TGraph>>, outs: Seq<TGraph>, chs: Seq<Seq<TGraph>>|
            #![trigger full_run(stacks, outs, Selector::UpTo(TCUT), &c), pool_of(chs, chs.len() as int)]
            c.wf() && c.n == g.n && stacks[0] == seq![g] && full_run(
                stacks,
                outs,
                Selector::UpTo(TCUT),
                &c,
            ) && r.1 as int == sat_usize(outs.len() as int) && chs.len() == outs.len() && (forall|i: int|
                0 <= i < outs.len() ==> successors_spec(&#[trigger] outs[i], &c, chs[i]))
                && r.0@ == pool_of(chs, chs.len() as int),
{
    let n = g.n;
    let ghost root = g;
    let cache = compute_cache(n);
    let mut pool: Vec<TGraph> = Vec::new();
    let mut nbdropped: usize = 0;
    let mut it = descendants(g, Some(Selector::UpTo(TCUT)), &cache);
    let ghost mut stacks: Seq<Seq<TGraph>> = seq![seq![root]];
    let ghost mut outs: Seq<TGraph> = Seq::empty();
    let ghost mut chs: Seq<Seq<TGraph>> = Seq::empty();
    loop
        invariant_except_break
            stacks.last() == it.stack@,
        invariant
            it.wf(),
            it.cache == &cache,
            cache.n == n,
            cache.wf(),
            it.select == Selector::UpTo(TCUT),
            root.nb_edges <= TCUT && nbdropped == 0 ==> it.stack@ == seq![root],
            forall|k: int|
                0 <= k < pool@.len() ==> (#[trigger] pool@[k]).inv() && pool@[k].n == n
                    && pool@[k].nb_edges > TCUT,
            stacks.len() == outs.len() + 1,
            stacks[0] == seq![root],
            forall|i: int|
                0 <= i < outs.len() ==> emits(stacks[i], stacks[i + 1], #[trigger] outs[i], Selector::UpTo(TCUT), &cache),
            nbdropped as int == sat_usize(outs.len() as int),
            chs.len() == outs.len(),
            forall|i: int| 0 <= i < outs.len() ==> successors_spec(&#[trigger] outs[i], &cache, chs[i]),
            pool@ == pool_of(chs, chs.len() as int),
        ensures
            root.nb_edges <= TCUT ==> nbdropped >= 1,
            stacks[0] == seq![root] && full_run(stacks, outs, Selector::UpTo(TCUT), &cache),
            nbdropped as int == sat_usize(outs.len() as int),
            chs.len() == outs.len(),
            forall|i: int| 0 <= i < outs.len() ==> successors_spec(&#[trigger] outs[i], &cache, chs[i]),
            pool@ == pool_of(chs, chs.len() as int),
        decreases it.pending(),
    {
        match it.next_graph() {
            Some(h) => {
                let hs = h.successors(&cache);
                let ghost hs0 = hs@;
                let ghost base = pool@;
                let mut hs = hs;
                proof {
                    assert(pool@ + over_cut(hs@) =~= base + over_cut(hs0));
                }
                while hs.len() > 0
                    invariant
                        cache.wf(),
                        cache.n == n,
                        forall|k: int| 0 <= k < hs@.len() ==> (#[trigger] hs@[k]).wf(&cache),
                        forall|k: int|
                            0 <= k < pool@.len() ==> (#[trigger] pool@[k]).inv() && pool@[k].n == n
                                && pool@[k].nb_edges > TCUT,
                        pool@ + over_cut(hs@) == base + over_cut(hs0),
                    decreases hs@.len(),
                {
                    let ghost before_hs = hs@;
                    let ghost before_pool = pool@;
                    let hh = hs.pop().unwrap();
                    proof {
                        assert(before_hs.drop_last() == hs@);
                        assert(before_hs.last() == hh);
                    }
                    assert(hh.wf(&cache));
                    if hh.nb_edges > TCUT {
                        pool.push(hh);
                        assert(pool@ + over_cut(hs@) =~= before_pool + over_cut(before_hs));
                    }
                }
                proof {
                    assert(pool@ =~= base + over_cut(hs0));
                    lemma_extend_run(stacks, outs, it.stack@, h, Selector::UpTo(TCUT), &cache);
                    let chs2 = chs.push(hs0);
                    assert(chs2.subrange(0, chs.len() as int) =~= chs);
                    lemma_pool_of_prefix(chs, chs2, chs.len() as int);
                    stacks = stacks.push(it.stack@);
                    outs = outs.push(h);
                    chs = chs2;
                    assert forall|i: int| 0 <= i < outs.len() implies successors_spec(&#[trigger] outs[i], &cache, chs[i]) by {
                        if i < outs.len() - 1 {
                            assert(outs[i] == outs.drop_last()[i]);
                        }
                    }
                }
                if nbdropped < usize::MAX {
                    nbdropped = nbdropped + 1;
                }
            },
            None => {
                assert(full_run(stacks, outs, Selector::UpTo(TCUT), &cache));
                break;
            },
        }
    }
    (pool, nbdropped)
}

proof fn lemma_pool_of_prefix(a: Seq<Seq<TGraph>>, b: Seq<Seq<TGraph>>, k: int)
    requires
        0 <= k <= a.len(),
        a.len() <= b.len(),
        b.subrange(0, a.len() as int) == a,
    ensures
        pool_of(a, k) == pool_of(b, k),
    decreases k,
{
    if k > 0 {
        lemma_pool_of_prefix(a, b, k - 1);
        assert(b[k - 1] == b.subrange(0, a.len() as int)[k - 1]);
    }
}

proof fn lemma_successors_count(g: &TGraph, cache: &Cache, hs: Seq<TGraph>)
    requires
        g.wf(cache),
        successors_spec(g, cache, hs),
    ensures
        hs.len() < fan(),
        forall|k: int|
            0 <= k < hs.len() ==> 0 <= cache.m() - (#[trigger] hs[k]).nb_edges <= cache.m() - g.nb_edges - 1,
{
    assert forall|k: int| 0 <= k < hs.len() implies 0 <= cache.m() - (#[trigger] hs[k]).nb_edges by {
        lemma_nb_edges_bound(&hs[k]);
    }
    let opts = round_options(g, cache);
    let c = g.nb_cand_edges as int;
    let h = g.n as int / 2;
    let kk = if c < h { c } else { h };
    lemma_cache_entries(g.n as int, kk);
    lemma_fitting_len(g.cand_bits, opts);
    lemma_kept(g, cache, opts);
    crate::helper::lemma_nb_pairs(g.n as int);
    let mu = nb_pairs(g.n as int) as u32;
    assert((1u32 << mu) <= 0x1000_0000) by (bit_vector)
        requires
            mu <= 28,
    ;
    assert(kk <= 4);
    assert(kk * edge_range(g.n as int) <= 4 * 0x1000_0000) by (nonlinear_arith)
        requires
            0 <= kk <= 4,
            0 <= edge_range(g.n as int) <= 0x1000_0000,
    ;
}

proof fn lemma_fitting_len(cand: u32, s: Seq<u32>)
    ensures
        fitting(cand, s).len() <= s.len(),
    decreases s.len(),
{
    if s.len() > 0 {
        lemma_fitting_len(cand, s.drop_last());
    }
}

} // verus!
