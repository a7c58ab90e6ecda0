use tgraphs::algos::{empty_set_vec, range_set_vec, select};
use tgraphs::cache::compute_cache;
use tgraphs::enumerate::{count_all, descendants, get_pool, Selector};
use tgraphs::tedges::TEdge;
use tgraphs::tgraph::{Dismountability, Reachability, TGraph};

fn complete_graphs(n: u8) -> Vec<TGraph> {
    let cache = compute_cache(n);
    let mut it = descendants(TGraph::new(n), None, &cache);
    let mut out = vec![];
    while let Some(h) = it.next_graph() {
        if h.is_clique() {
            out.push(h);
        }
    }
    out
}

#[test]
fn two_vertices_two_states_one_complete() {
    let cache = compute_cache(2);
    assert_eq!(count_all(TGraph::new(2), &cache), 2);
    assert_eq!(complete_graphs(2).len(), 1);
}

#[test]
fn root_carries_full_symmetric_group() {
    let g = TGraph::new(3);
    assert!(g.has_symmetries());
    assert_eq!(g.gens.as_ref().unwrap().len(), 6);
    assert_eq!(TGraph::new(4).gens.unwrap().len(), 24);
    assert_eq!(g.nb_cand_edges, 3);
    assert_eq!(g.tmax(), 0);
}

#[test]
fn extension_places_a_round() {
    let cache = compute_cache(4);
    let g = TGraph::new(4);
    let h = g.extends_by(&((1 << 0) | (1 << 5)), &cache);
    assert_eq!(h.tmax(), 1);
    assert_eq!(h.nb_edges, 2);
    assert_eq!(h.edges_bits, 0b100001);
    assert_eq!(h.times, vec![1, 0, 0, 0, 0, 1]);
    assert_eq!(h.tedges(), &[TEdge(0, 1, 1), TEdge(2, 3, 1)]);
    assert_eq!(h.cand_bits, 0b011110);
    assert_eq!(h.nb_cand_edges, 4);
    assert_eq!(h.predecessors(), &vec![0b0011, 0b0011, 0b1100, 0b1100]);
    // the symmetries of {01, 23} in S4: 8 permutations
    assert_eq!(h.gens.as_ref().unwrap().len(), 8);
}

#[test]
fn symmetric_rounds_are_deduplicated() {
    let cache = compute_cache(4);
    let g = TGraph::new(4);
    // 6 single edges and 3 perfect matchings, each class one representative:
    // the smallest of each size, {03, 12} being the smallest perfect matching
    assert_eq!(g.get_matchings(&cache), vec![vec![0], vec![2, 3]]);
    assert_eq!(g.successors_aut(&cache).len(), 2);
    assert_eq!(g.successors_rigid(&cache).len(), 9);
    assert_eq!(g.successors(&cache).len(), 2);
}

#[test]
fn reachability_tracker() {
    let mut r = Reachability::new(3);
    assert_eq!(r.preds, vec![1, 2, 4]);
    r.update(TEdge(0, 1, 1));
    assert_eq!(r.preds, vec![3, 3, 4]);
    r.update(TEdge(1, 2, 2));
    // both endpoints take each other's predecessors, and both become reached by all
    assert_eq!(r.preds, vec![3, 7, 7]);
    assert_eq!(r.preds2, vec![0, 6, 6]);
}

#[test]
fn dismountable_after_three_rounds() {
    let mut d = Dismountability::new(4);
    d.update(TEdge(0, 1, 1));
    d.update(TEdge(2, 3, 2));
    d.update(TEdge(1, 2, 3));
    assert_eq!(d.mins, 0b1111);
    assert_eq!(d.maxs, 0);
    assert_eq!(d.missing_ng[0], 0b1100);
    assert_eq!(d.degrees, vec![1, 2, 2, 1]);
    // the witness of the dismountability test: vertex 0 misses only first neighbours
    assert!(d.missing_ng[0] != 0 && d.missing_ng[0] & d.mins == d.missing_ng[0]);
    assert!(!TGraph::new(4).is_dismountable());
}

#[test]
fn greedy_spanner_removes_nothing_at_zero_target() {
    let cache = compute_cache(4);
    // rounds {01, 23}, {02, 13}, {03}: 5 = 2n - 3 edges
    let g = TGraph::new(4)
        .extends_by(&((1 << 0) | (1 << 5)), &cache)
        .extends_by(&((1 << 1) | (1 << 4)), &cache)
        .extends_by(&(1 << 2), &cache);
    assert_eq!(g.nb_edges, 5);
    assert!(g.is_tc());
    assert!(g.is_tc_without(0, 5));
    assert_eq!(g.greedy_spanner_size(), 5);
    assert_eq!(g.random_spanner_size(), 5);
    assert!(g.has_optimal_spanner(1));
}

#[test]
fn two_vertices_enumeration_sequence() {
    let cache = compute_cache(2);
    let mut it = descendants(TGraph::new(2), None, &cache);
    let a = it.next_graph().unwrap();
    assert_eq!(a.nb_edges, 0);
    let b = it.next_graph().unwrap();
    assert_eq!(b.nb_edges, 1);
    assert!(b.is_clique());
    assert!(it.next_graph().is_none());
    assert!(it.next_graph().is_none());
}

#[test]
fn spanner_on_triangle_is_optimal() {
    for h in complete_graphs(3) {
        assert_eq!(h.nb_edges, 3);
        if h.is_tc() {
            assert!(h.has_optimal_spanner(1));
            assert!(h.greedy_spanner_size() <= 3);
            assert!(h.random_spanner_size() <= 3);
        }
    }
}

#[test]
fn spanner_needs_enough_edges() {
    let g = TGraph::new(4);
    assert!(!g.has_optimal_spanner(3));
    assert!(!g.is_tc());
    assert!(g.has_isolated_vertex());
    assert!(!g.is_clique());
}

#[test]
fn some_complete_graph_on_four_vertices_is_connected() {
    let all = complete_graphs(4);
    assert!(!all.is_empty());
    assert!(all.iter().any(|h| h.is_tc()));
    assert!(all.iter().all(|h| h.nb_edges == 6 && h.nb_cand_edges == 0));
}

#[test]
fn pivot_test_on_root_and_complete_graphs() {
    let cache = compute_cache(4);
    assert!(!TGraph::new(4).has_pivot_vertex(&cache));
    let _ = select(&TGraph::new(4), &cache);
    for h in complete_graphs(4) {
        let a = h.has_pivot_vertex(&cache);
        assert_eq!(a, h.has_pivot_vertex(&cache));
        assert_eq!(h.is_dismountable(), h.is_dismountable());
    }
}

#[test]
fn partition_counts_add_up() {
    for n in 2u8..=4 {
        let cache = compute_cache(n);
        let total = count_all(TGraph::new(n), &cache);
        let (pool, base) = get_pool(TGraph::new(n));
        let parts: u64 = pool.into_iter().map(|h| count_all(h, &cache)).sum();
        assert_eq!(total, parts + base as u64);
    }
}

#[test]
fn selectors_prune() {
    let cache = compute_cache(4);
    let mut it = descendants(TGraph::new(4), Some(Selector::UpTo(0)), &cache);
    assert!(it.next_graph().is_some());
    assert!(it.next_graph().is_none());
}

#[test]
fn set_helpers() {
    let r = range_set_vec(3);
    assert_eq!(r.len(), 3);
    assert!(r[2].contains(&2) && r[2].len() == 1);
    let e = empty_set_vec(3);
    assert!(e.iter().all(|s| s.is_empty()));
}
