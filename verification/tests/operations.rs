use hrc::{Bits128, Bits256, Distance, Hrc, MetricPoint};

fn index_of(keys: &[u128], freshens: usize) -> Hrc<Bits128, usize> {
    let mut hrc: Hrc<Bits128, usize> = Hrc::new();
    for (ix, &bits) in keys.iter().enumerate() {
        assert_eq!(hrc.insert(0, Bits128(bits), ix * 10, freshens), ix);
    }
    hrc
}

fn assert_well_formed<D>(hrc: &Hrc<Bits128, usize, D>) {
    let adjacency = hrc.simple_representation();
    assert_eq!(adjacency.len(), hrc.len());
    let mut directed = 0;
    for (a, neighbors) in adjacency.iter().enumerate() {
        for (i, &b) in neighbors.iter().enumerate() {
            assert!(b < hrc.len());
            assert_ne!(a, b);
            assert!(adjacency[b].contains(&a));
            assert!(!neighbors[..i].contains(&b));
        }
        directed += neighbors.len();
    }
    assert_eq!(directed, 2 * hrc.edges());
}

const SCATTERED: [u128; 12] = [
    0x0000, 0x00ff, 0xff00, 0xffff, 0x0f0f, 0xf0f0, 0x3333, 0xcccc, 0x5555, 0xaaaa, 0x0001, 0x8000,
];

#[test]
fn hamming_distance_counts_differing_bits() {
    assert_eq!(Bits128(0).distance(&Bits128(0)), 0);
    assert_eq!(Bits128(0b1011).distance(&Bits128(0b0110)), 3);
    assert_eq!(Bits128(u128::MAX).distance(&Bits128(0)), 128);
    assert_eq!(Bits128(1 << 127).distance(&Bits128(1)), 2);
    let a = Bits256 { low: 0b111, high: 1 << 100 };
    let b = Bits256 { low: 0b100, high: 0 };
    assert_eq!(a.distance(&b), 3);
    assert_eq!(b.distance(&a), 3);
    let ones = Bits256 { low: u128::MAX, high: u128::MAX };
    let zeros = Bits256 { low: 0, high: 0 };
    assert_eq!(ones.distance(&zeros), 256);
}

#[test]
fn distances_are_narrowed_as_by_a_cast() {
    assert_eq!(<u64 as Distance>::narrow(1 << 40), 1 << 40);
    assert_eq!(<u32 as Distance>::narrow((1 << 40) + 7), 7);
    assert_eq!(<u16 as Distance>::narrow(65536 + 258), 258);
    assert_eq!(<u8 as Distance>::narrow(258), 2);
    assert_eq!(<u8 as Distance>::narrow(255), 255);
    assert_eq!(200u8.widen(), 200);
    assert_eq!(60000u16.widen(), 60000);
    assert_eq!(4000000000u32.widen(), 4000000000);
    assert_eq!(u64::MAX.widen(), u64::MAX);
}

#[test]
fn narrow_distances_wrap_in_the_index() {
    let ones = Bits256 { low: u128::MAX, high: u128::MAX };
    let zeros = Bits256 { low: 0, high: 0 };
    let mut narrow: Hrc<Bits256, (), u8> = Hrc::new();
    narrow.insert(0, ones, (), 0);
    assert_eq!(narrow.search(0, &zeros), Some((0, 0u8)));
    let mut wide: Hrc<Bits256, (), u16> = Hrc::new();
    wide.insert(0, ones, (), 0);
    assert_eq!(wide.search(0, &zeros), Some((0, 256u16)));
    wide.insert(0, zeros, (), 0);
    assert_eq!(wide.distance(0, 1), 256);
    assert_eq!(wide.distance(1, 1), 0);
}

#[test]
fn new_and_default_are_empty() {
    let hrc: Hrc<Bits128, usize> = Hrc::default();
    assert!(hrc.is_empty());
    assert!(hrc.has_room());
    assert_eq!(hrc.len(), 0);
    assert_eq!(hrc.edges(), 0);
    assert_eq!(hrc.get(0), None);
    assert_eq!(hrc.get_key(0), None);
    assert_eq!(hrc.get_value(0), None);
    assert_eq!(hrc.histogram(), Vec::<Vec<(usize, usize)>>::new());
    assert_eq!(hrc.simple_representation(), Vec::<Vec<usize>>::new());
    let hrc = hrc.max_cluster_len(5);
    assert!(hrc.is_empty());
}

#[test]
fn entries_are_kept_by_id() {
    let hrc = index_of(&SCATTERED, 0).max_cluster_len(7);
    assert_eq!(hrc.len(), 12);
    assert!(!hrc.is_empty());
    for (ix, &bits) in SCATTERED.iter().enumerate() {
        assert_eq!(hrc.get(ix), Some((&Bits128(bits), &(ix * 10))));
        assert_eq!(hrc.get_key(ix), Some(&Bits128(bits)));
        assert_eq!(hrc.get_value(ix), Some(&(ix * 10)));
    }
    assert_eq!(hrc.get(12), None);
    assert_eq!(hrc.get_key(12), None);
    assert_eq!(hrc.get_value(usize::MAX), None);
    assert_eq!(hrc.distance(1, 2), 16);
    assert_eq!(hrc.distance(3, 3), 0);
    assert_eq!(hrc.distance(0, 10), 1);
}

#[test]
fn second_node_is_linked_to_the_first() {
    let hrc = index_of(&[0b0000, 0b0111], 0);
    assert_eq!(hrc.edges(), 1);
    assert_eq!(hrc.simple_representation(), vec![vec![1], vec![0]]);
    assert_eq!(hrc.histogram(), vec![vec![(1, 2)]]);
    assert_eq!(hrc.search(0, &Bits128(0b0111)), Some((1, 0)));
    assert_eq!(hrc.search(0, &Bits128(0b0001)), Some((0, 1)));
    assert_eq!(hrc.search_from(0, 1, &Bits128(0b0001)), (0, 1));
    assert_eq!(hrc.search_from(0, 0, &Bits128(0b0011)), (1, 1));
    assert_eq!(hrc.search_from(0, 1, &Bits128(0b0100)), (0, 1));
    // A tie stops the descent.
    let tied = index_of(&[0b00, 0b11], 0);
    assert_eq!(tied.search_from(0, 0, &Bits128(0b01)), (0, 1));
    assert_eq!(tied.search_from(0, 1, &Bits128(0b01)), (1, 1));
}

#[test]
fn third_node_joins_its_nearest_neighbor() {
    let hrc = index_of(&[0b0000, 0b0111, 0b1000], 0);
    // Node 2 is nearest to node 0, and node 0 is closer to node 1 than node 2 is.
    assert_eq!(hrc.simple_representation(), vec![vec![1, 2], vec![0], vec![0]]);
    assert_eq!(hrc.edges(), 2);
    assert_eq!(hrc.histogram(), vec![vec![(1, 2), (2, 1)]]);
    assert_well_formed(&hrc);
}

#[test]
fn new_key_is_recalled_from_its_nearest_node() {
    let mut hrc: Hrc<Bits128, usize> = Hrc::new();
    for ix in 0..150usize {
        let bits = (ix as u128 + 1).wrapping_mul(0x9e37_79b9_7f4a_7c15_f39c_c060_5ced_c835) >> 70;
        let key = Bits128(bits);
        let from_first = if ix > 0 { Some(hrc.search_from(0, 0, &key).0) } else { None };
        let node = hrc.insert(0, key, ix, 0);
        if let Some(end) = from_first {
            // The first edge of the new node leads to the nearest node that was found.
            let nearest = hrc.simple_representation()[node][0];
            assert_eq!(hrc.search_from(0, nearest, &key).1, 0);
            if end == nearest {
                assert_eq!(hrc.search_from(0, 0, &key).1, 0);
            }
        }
    }
}

#[test]
fn reinsert_connects_the_nearest_former_neighbor_first() {
    let mut hrc = index_of(&[0b0000, 0b0111, 0b1000], 0);
    hrc.reinsert(0, 0);
    // The former neighbors of node 0 are connected anew by ascending distance.
    assert_eq!(hrc.simple_representation(), vec![vec![2, 1], vec![0], vec![0]]);
    assert_eq!(hrc.edges(), 2);
    assert_well_formed(&hrc);
}

#[test]
fn reinsert_of_the_only_node_changes_nothing() {
    let mut hrc = index_of(&[0b101], 0);
    hrc.reinsert(0, 0);
    assert_eq!(hrc.simple_representation(), vec![Vec::<usize>::new()]);
    assert_eq!(hrc.edges(), 0);
    assert_eq!(hrc.histogram(), vec![vec![(0, 1)]]);
}

#[test]
fn reinsert_keeps_former_neighbors_in_reach() {
    let mut hrc = index_of(&SCATTERED, 0);
    for node in 0..hrc.len() {
        let former = hrc.simple_representation()[node].clone();
        hrc.reinsert(0, node);
        assert_well_formed(&hrc);
        let key = *hrc.get_key(node).unwrap();
        for neighbor in former {
            assert_eq!(hrc.search_from(0, neighbor, &key).1, 0);
        }
    }
}

#[test]
fn knn_results_are_ordered_and_distinct() {
    let hrc = index_of(&SCATTERED, 2);
    assert_well_formed(&hrc);
    for start in 0..hrc.len() {
        for num in 0..15 {
            let query = Bits128(0x0ff0);
            let found = hrc.search_knn_from(0, start, &query, num);
            assert!(found.len() <= num);
            assert_eq!(found.is_empty(), num == 0);
            for (i, &(node, distance)) in found.iter().enumerate() {
                assert_eq!(distance, query.distance(hrc.get_key(node).unwrap()));
                if i > 0 {
                    assert!(found[i - 1].1 <= distance);
                }
                assert!(found[..i].iter().all(|&(other, _)| other != node));
            }
            if num == 1 {
                assert_eq!(found[0], hrc.search_from(0, start, &query));
            }
        }
    }
    // The graph is connected: a wide enough search finds every node.
    assert_eq!(hrc.search_knn_from(0, 3, &Bits128(0), 12).len(), 12);
    assert_eq!(hrc.search_knn_from(0, 3, &Bits128(0), 100).len(), 12);
}

#[test]
fn knn_keeps_equally_near_nodes_in_the_order_found() {
    let hrc = index_of(&[0b01, 0b10, 0b100], 0);
    let query = Bits128(0b00);
    // All nodes are at distance 1: the node at which the search begins comes first,
    // and the others follow as the edges lead to them.
    assert_eq!(hrc.search_knn_from(0, 0, &query, 3), vec![(0, 1), (1, 1), (2, 1)]);
    assert_eq!(hrc.search_knn_from(0, 1, &query, 3), vec![(1, 1), (0, 1), (2, 1)]);
    assert_eq!(hrc.search_knn_from(0, 2, &query, 2), vec![(2, 1), (0, 1)]);
    // A full result gives way to nearer nodes only.
    assert_eq!(hrc.search_knn_from(0, 1, &Bits128(0b01), 1), vec![(0, 0)]);
    assert_eq!(hrc.search_knn_from(0, 1, &Bits128(0b01), 2), vec![(0, 0), (1, 2)]);
}

#[test]
fn knn_of_a_node_begins_with_the_node() {
    let hrc = index_of(&SCATTERED, 2);
    for node in 0..hrc.len() {
        assert_eq!(hrc.search_knn_of(0, node, 0), vec![]);
        for num in 1..14 {
            let found = hrc.search_knn_of(0, node, num);
            assert_eq!(found[0], (node, 0));
            assert!(found.len() <= num);
        }
    }
}

#[test]
fn freshen_nodes_walks_the_cycle() {
    let mut hrc = index_of(&[1, 2, 4], 0);
    assert_eq!(hrc.freshen_nodes(0), Vec::<usize>::new());
    assert_eq!(hrc.freshen_nodes(2), vec![0, 1]);
    assert_eq!(hrc.freshen_nodes(2), vec![2, 0]);
    assert_eq!(hrc.freshen_nodes(4), vec![1, 2, 0, 1]);
    assert_eq!(hrc.freshen_keys(3), vec![Bits128(4), Bits128(1), Bits128(2)]);
    assert_eq!(hrc.freshen_keys(0), Vec::<Bits128>::new());
    assert_eq!(hrc.freshen_nodes(1), vec![2]);
    let mut empty: Hrc<Bits128, ()> = Hrc::new();
    assert_eq!(empty.freshen_nodes(0), Vec::<usize>::new());
}

#[test]
fn freshening_order_is_one_cycle() {
    let mut hrc = index_of(&SCATTERED, 3);
    let mut seen = hrc.freshen_nodes(12);
    seen.sort_unstable();
    assert_eq!(seen, (0..12).collect::<Vec<usize>>());
    // A node spliced in becomes the freshest: the stalest node comes next.
    let stalest = hrc.freshen_nodes(1)[0];
    let node = hrc.insert(0, Bits128(0x7777), 0, 0);
    let order = hrc.freshen_nodes(13);
    assert_eq!(order[12], node);
    assert_ne!(order[0], stalest);
    let mut all = order.clone();
    all.sort_unstable();
    assert_eq!(all, (0..13).collect::<Vec<usize>>());
}

#[test]
fn optimize_connection_makes_a_greedy_path() {
    let mut hrc = index_of(&SCATTERED, 0);
    for a in 0..hrc.len() {
        for b in 0..hrc.len() {
            hrc.optimize_connection_directed(0, a, b);
            let key = *hrc.get_key(b).unwrap();
            assert_eq!(hrc.search_from(0, a, &key), (b, 0));
            let edges = hrc.edges();
            hrc.optimize_connection_directed(0, a, b);
            assert_eq!(hrc.edges(), edges);
            hrc.optimize_connection(0, a, b);
            let key = *hrc.get_key(a).unwrap();
            assert_eq!(hrc.search_from(0, b, &key), (a, 0));
        }
    }
    assert_well_formed(&hrc);
}

#[test]
fn optimize_connection_changes_nothing_where_both_paths_exist() {
    let mut hrc = index_of(&SCATTERED, 2);
    for a in 0..hrc.len() {
        for b in 0..hrc.len() {
            hrc.optimize_connection(0, a, b);
            let forth = hrc.search_from(0, a, hrc.get_key(b).unwrap());
            let back = hrc.search_from(0, b, hrc.get_key(a).unwrap());
            assert_eq!(back, (a, 0));
            if forth == (b, 0) {
                let before = hrc.simple_representation();
                let edges = hrc.edges();
                hrc.optimize_connection(0, a, b);
                assert_eq!(hrc.simple_representation(), before);
                assert_eq!(hrc.edges(), edges);
            }
        }
    }
}

#[test]
fn optimize_connection_links_colocated_nodes() {
    let mut hrc = index_of(&[0b0000, 0b0011, 0b1100, 0b0011], 0);
    hrc.optimize_connection(0, 2, 3);
    let adjacency = hrc.simple_representation();
    // Towards the key of node 3 the descent ends at node 1 or node 3, which share it.
    let found = hrc.search_from(0, 2, &Bits128(0b0011));
    assert_eq!(found.1, 0);
    assert!(found.0 == 3 || adjacency[found.0].contains(&3));
    assert_well_formed(&hrc);
}

#[test]
fn optimize_target_directed_ends_where_the_search_ends() {
    let mut hrc = index_of(&SCATTERED, 1);
    let target = Bits128(0x00fe);
    for from in 0..hrc.len() {
        let found = hrc.optimize_target_directed(0, from, 0, &target);
        // Node 1 is the nearest node overall.
        assert_eq!(found, (1, 1));
        assert_eq!(hrc.search_from(0, from, &target), found);
    }
    let edges = hrc.edges();
    // Nothing is to be done where the descent ends within the distance asked for.
    let found = hrc.optimize_target_directed(0, 0, 200, &target);
    assert_eq!(found, hrc.search_from(0, 0, &target));
    assert_eq!(hrc.edges(), edges);
    assert_well_formed(&hrc);
}

#[test]
fn optimize_recents_connects_the_latest_nodes() {
    let mut hrc = index_of(&SCATTERED, 0);
    hrc.optimize_recents(0, 2, 3);
    let key = *hrc.get_key(2).unwrap();
    assert_eq!(hrc.search_from(0, 11, &key), (2, 0));
    hrc.optimize_recents(0, 5, 100);
    hrc.optimize_recents(0, 5, 0);
    assert_well_formed(&hrc);
}

#[test]
fn optimize_everything_makes_every_key_reachable_from_everywhere() {
    let mut hrc = index_of(&SCATTERED, 2);
    hrc.optimize_everything(0);
    assert_well_formed(&hrc);
    for from in 0..hrc.len() {
        for (to, &bits) in SCATTERED.iter().enumerate() {
            assert_eq!(hrc.search_from(0, from, &Bits128(bits)), (to, 0));
        }
    }
}

#[test]
fn optimize_against_everything_leaves_no_local_minimum_at_the_node() {
    let mut hrc = index_of(&SCATTERED, 0);
    hrc.optimize_against_everything(0, 4);
    let adjacency = hrc.simple_representation();
    let own = Bits128(SCATTERED[4]);
    for (target, &bits) in SCATTERED.iter().enumerate() {
        if target != 4 {
            let key = Bits128(bits);
            assert!(adjacency[4].iter().any(|&m| key.distance(hrc.get_key(m).unwrap()) < key.distance(&own)));
        }
    }
    assert_well_formed(&hrc);
}

#[test]
fn optimize_against_neighborhood_steps_towards_its_neighbors() {
    let mut hrc = index_of(&SCATTERED, 0);
    for node in 0..hrc.len() {
        let others: Vec<usize> = hrc.search_knn_of(0, node, 3).iter().skip(1).map(|found| found.0).collect();
        let edges = hrc.edges();
        hrc.optimize_against_neighborhood(0, node);
        assert!(hrc.edges() >= edges);
        let adjacency = hrc.simple_representation();
        let own = *hrc.get_key(node).unwrap();
        for target in others {
            let key = *hrc.get_key(target).unwrap();
            assert!(adjacency[node].iter().any(|&m| key.distance(hrc.get_key(m).unwrap()) < key.distance(&own)));
        }
    }
    assert_well_formed(&hrc);
}

#[test]
fn local_target_keys_link_the_nearest_closer_node() {
    // Node 2 is a neighbor of node 0 only.
    let mut hrc = index_of(&[0b0000, 0b0111, 0b1000], 0);
    // Node 0 is closer to this target than node 2: nothing is to be done.
    hrc.optimize_local_target_keys(0, 2, &[Bits128(0b0111)]);
    assert_eq!(hrc.simple_representation(), vec![vec![1, 2], vec![0], vec![0]]);
    // Node 1 is closer to this target than node 2, and node 0 is not.
    hrc.optimize_local_target_keys(0, 2, &[Bits128(0b1111)]);
    assert_eq!(hrc.simple_representation(), vec![vec![1, 2], vec![0, 2], vec![0, 1]]);
    assert_eq!(hrc.edges(), 3);
    // A second time a neighbor is closer already, and no node is closer to the other target.
    hrc.optimize_local_target_keys(0, 2, &[Bits128(0b1111), Bits128(0b1110)]);
    assert_eq!(hrc.edges(), 3);
    let mut single = index_of(&[0b1], 0);
    single.optimize_local_target_keys(0, 0, &[Bits128(0b0)]);
    assert_eq!(single.edges(), 0);
}

#[test]
fn train_only_adds_edges() {
    let mut hrc = index_of(&SCATTERED, 0);
    let before = hrc.simple_representation();
    let data = [Bits128(0x00f0), Bits128(0x0ff0), Bits128(0xfff0)];
    hrc.train(&data);
    let after = hrc.simple_representation();
    for (old, new) in before.iter().zip(after.iter()) {
        assert_eq!(&new[..old.len()], &old[..]);
    }
    assert_well_formed(&hrc);
    let mut empty: Hrc<Bits128, ()> = Hrc::new();
    empty.train(&data);
    assert!(empty.is_empty());
}

#[test]
fn histogram_counts_nodes_by_degree() {
    let hrc = index_of(&SCATTERED, 2);
    let histograms = hrc.histogram();
    assert_eq!(histograms.len(), 1);
    let adjacency = hrc.simple_representation();
    let mut nodes = 0;
    for (i, &(degree, count)) in histograms[0].iter().enumerate() {
        assert_eq!(count, adjacency.iter().filter(|list| list.len() == degree).count());
        assert!(count > 0);
        if i > 0 {
            assert!(histograms[0][i - 1].0 < degree);
        }
        nodes += count;
    }
    assert_eq!(nodes, 12);
}

#[test]
fn best_distance_is_kept_unless_one_key_alone_is_better() {
    let target = Bits128(0);
    let keys = [Bits128(0b111), Bits128(0b11), Bits128(0b1111)];
    type Index = Hrc<Bits128, (), u64>;
    // Nothing is better than the threshold.
    assert_eq!(Index::find_non_better_or_non_unqiue_best_distance(1, &target, &keys), Some(1));
    assert_eq!(Index::find_non_better_or_non_unqiue_best_distance(2, &target, &keys), Some(2));
    assert_eq!(Index::find_non_better_or_non_unqiue_best_distance(5, &target, &[]), Some(5));
    // One key alone is better.
    assert_eq!(Index::find_non_better_or_non_unqiue_best_distance(3, &target, &keys), None);
    assert_eq!(Index::find_non_better_or_non_unqiue_best_distance(9, &target, &keys), None);
    // Two keys share the best distance.
    let tied = [Bits128(0b111), Bits128(0b11), Bits128(0b101), Bits128(0b1111)];
    assert_eq!(Index::find_non_better_or_non_unqiue_best_distance(9, &target, &tied), Some(2));
    let narrow = Hrc::<Bits128, (), u8>::find_non_better_or_non_unqiue_best_distance(200, &target, &tied);
    assert_eq!(narrow, Some(2u8));
}

#[test]
fn freshening_inserts_keep_the_graph_well_formed() {
    let mut hrc: Hrc<Bits128, usize> = Hrc::new();
    for ix in 0..200usize {
        let bits = (ix as u128).wrapping_mul(0x9e37_79b9_7f4a_7c15_f39c_c060_5ced_c835) >> 64;
        hrc.insert(0, Bits128(bits), ix, 3);
    }
    assert_well_formed(&hrc);
    assert_eq!(hrc.len(), 200);
    // Connected: a search wide enough finds every node.
    assert_eq!(hrc.search_knn_from(0, 17, &Bits128(0), 200).len(), 200);
}

#[test]
fn own_metric_points_are_indexed() {
    #[derive(Debug, PartialEq)]
    struct OnLine(u64);
    // Outside of verified code the laws of the metric are the implementor's word.
    impl MetricPoint for OnLine {
        fn dist(&self, rhs: &Self) -> u64 {
            self.0.abs_diff(rhs.0)
        }

        fn distance(&self, rhs: &Self) -> u64 {
            self.0.abs_diff(rhs.0)
        }

        fn lemma_dist_symmetric(&self, _rhs: &Self) {}

        fn lemma_dist_self(&self) {}
    }
    let mut hrc: Hrc<OnLine, &str, u32> = Hrc::new();
    hrc.insert(0, OnLine(10), "ten", 2);
    hrc.insert(0, OnLine(20), "twenty", 2);
    hrc.insert(0, OnLine(14), "fourteen", 2);
    assert_eq!(hrc.search(0, &OnLine(15)), Some((2, 1u32)));
    assert_eq!(hrc.get_value(2), Some(&"fourteen"));
    assert_eq!(hrc.search_knn_from(0, 0, &OnLine(21), 3), vec![(1, 1), (2, 7), (0, 11)]);
}
