use tgraphs::helper::{
    all_ones, are_adjacent, bits_to_edges, bits_to_indices, count_bits, e2i, each_ones,
    edges_to_bits, gen_edges, i2e, indices_to_bits, nb_edges_of, powerset,
};
use tgraphs::tedges::TEdge;

#[test]
fn edge_index_round_trip() {
    for n in 2u8..=8 {
        let m = nb_edges_of(n);
        assert_eq!(m, (n as usize) * (n as usize - 1) / 2);
        let edges = gen_edges(n);
        assert_eq!(edges.len(), m);
        for i in 0..m {
            let e = i2e(n, i as u8);
            assert!(e.0 < e.1 && e.1 < n);
            assert_eq!(e2i(n, e.0, e.1), i);
            assert_eq!(e2i(n, e.1, e.0), i);
            assert_eq!(edges[i], e);
        }
    }
}

#[test]
fn edges_of_four_vertices() {
    let edges = gen_edges(4);
    let pairs: Vec<(u8, u8)> = edges.iter().map(|e| (e.0, e.1)).collect();
    assert_eq!(pairs, vec![(0, 1), (0, 2), (0, 3), (1, 2), (1, 3), (2, 3)]);
    assert_eq!(e2i(4, 1, 2), 3);
}

#[test]
fn bit_conversions() {
    assert_eq!(bits_to_indices(0b10110), vec![1, 2, 4]);
    assert_eq!(indices_to_bits(&[1, 2, 4]), 0b10110);
    assert_eq!(indices_to_bits(&[]), 0);
    assert_eq!(count_bits(0b10110), 3);
    assert_eq!(count_bits(u32::MAX), 32);
    let es = bits_to_edges(4, 0b100001);
    assert_eq!(es, vec![TEdge(0, 1, 0), TEdge(2, 3, 0)]);
    assert_eq!(edges_to_bits(4, &es), 0b100001);
}

#[test]
fn vertex_sets() {
    assert_eq!(all_ones(4), 0b1111);
    assert_eq!(all_ones(8), 0xff);
    assert_eq!(each_ones(3), vec![1, 2, 4]);
}

#[test]
fn adjacency_and_equality_of_edges() {
    assert!(are_adjacent(&TEdge(0, 1, 0), &TEdge(1, 2, 0)));
    assert!(!are_adjacent(&TEdge(0, 1, 0), &TEdge(2, 3, 0)));
    assert_eq!(TEdge(0, 1, 3), TEdge(1, 0, 3));
    assert_ne!(TEdge(0, 1, 3), TEdge(0, 1, 2));
}

#[test]
fn powerset_of_three() {
    let p = powerset(&[1, 2, 3]);
    assert_eq!(p.len(), 8);
    assert_eq!(p[0], Vec::<i32>::new());
    assert_eq!(p[5], vec![1, 3]);
    assert_eq!(p[7], vec![1, 2, 3]);
}
