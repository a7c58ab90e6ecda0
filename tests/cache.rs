use tgraphs::cache::{compute_cache, get_indicators, is_independent};

#[test]
pub fn test() {
    println!("{:?}", compute_cache(6).indicators);
}

#[test]
pub fn clementine() {
    for i in 0..10 {
        println!("{}", i);
    }
}

#[test]
fn cache_n4_has_six_edges_and_three_perfect_matchings() {
    let c = compute_cache(4);
    assert_eq!(c.indicators.len(), 9);
    assert_eq!(c.delimiters[1], 6);
    let singles = c.indicators.iter().filter(|x| x.count_ones() == 1).count();
    let pairs = c.indicators.iter().filter(|x| x.count_ones() == 2).count();
    assert_eq!(singles, 6);
    assert_eq!(pairs, 3);
    assert_eq!(&c.indicators[..], &[1, 2, 4, 8, 16, 32, 12, 18, 33]);
}

#[test]
fn cache_sizes_match_known_sequence() {
    assert_eq!(compute_cache(4).indicators.len(), 9);
    assert_eq!(compute_cache(5).indicators.len(), 25);
    assert_eq!(compute_cache(6).indicators.len(), 75);
    assert_eq!(compute_cache(7).indicators.len(), 231);
}

#[test]
fn no_matching_up_to_zero_candidates() {
    let c = compute_cache(5);
    assert!(get_indicators(0, &c).is_empty());
    assert_eq!(get_indicators(1, &c).len(), 10);
    assert_eq!(get_indicators(10, &c).len(), 25);
}

#[test]
fn delimiters_past_half_cover_the_table() {
    let c = compute_cache(5);
    assert_eq!(c.delimiters.len(), 11);
    assert_eq!(c.delimiters[0], 0);
    assert_eq!(c.delimiters[2], 25);
    assert_eq!(c.delimiters[10], 25);
}

#[test]
fn independence_of_edge_sets() {
    // n = 4: edge 0 = (0,1), edge 5 = (2,3), edge 1 = (0,2)
    assert!(is_independent(4, 0));
    assert!(is_independent(4, 1));
    assert!(is_independent(4, (1 << 0) | (1 << 5)));
    assert!(!is_independent(4, (1 << 0) | (1 << 1)));
}

#[test]
fn adjacency_masks() {
    let c = compute_cache(4);
    // edge 0 = (0,1) shares an endpoint with all but (2,3)
    assert_eq!(c.adjacent_bits[0], 0b011111);
    assert_eq!(c.e2i[2][3], 5);
    assert_eq!(c.e2i[3][2], 5);
}
