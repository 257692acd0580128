use hrc::{Bits256, Hrc};
use rand::{Rng, SeedableRng};
use rand_xoshiro::Xoshiro256PlusPlus;

const TRAINING_PAIRS: usize = 64;
const FRESHENS_PER_INSERT: usize = 2;

fn keys_from(rng: &mut Xoshiro256PlusPlus, count: usize) -> Vec<Bits256> {
    rng.sample_iter::<[u8; 32], _>(rand::distributions::Standard)
        .map(|bytes| {
            let mut low = [0u8; 16];
            let mut high = [0u8; 16];
            low.copy_from_slice(&bytes[..16]);
            high.copy_from_slice(&bytes[16..]);
            Bits256 {
                low: u128::from_le_bytes(low),
                high: u128::from_le_bytes(high),
            }
        })
        .take(count)
        .collect()
}

fn distance(a: &Bits256, b: &Bits256) -> u64 {
    ((a.low ^ b.low).count_ones() + (a.high ^ b.high).count_ones()) as u64
}

/// Inserts each key with two freshens and trains the connection of the new node to
/// 64 random nodes.
fn trained_index(keys: &[Bits256], rng: &mut Xoshiro256PlusPlus) -> Hrc<Bits256, ()> {
    let mut hrc: Hrc<Bits256, ()> = Hrc::new();
    for &key in keys {
        let node = hrc.insert(0, key, (), FRESHENS_PER_INSERT);
        for _ in 0..TRAINING_PAIRS {
            let other = rng.gen_range(0..hrc.len());
            hrc.optimize_connection(0, node, other);
        }
    }
    hrc
}

#[test]
fn hamming_keys_are_recalled_after_training() {
    let mut rng = Xoshiro256PlusPlus::seed_from_u64(0);
    let keys = keys_from(&mut rng, 4096);
    let hrc = trained_index(&keys, &mut rng);
    assert_eq!(hrc.len(), 4096);
    let mut missed_by_one = 0;
    for key in keys.iter() {
        let nearest = hrc.search_knn_from(0, 0, key, 1);
        assert_eq!(nearest.len(), 1);
        if nearest[0].1 != 0 {
            missed_by_one += 1;
        }
        // A search for five neighbors finds every key of the training set.
        let found = hrc.search_knn_from(0, 0, key, 5);
        assert_eq!(found[0].1, 0);
    }
    // The greedy descent alone stops short of a few keys that freshening has rewired.
    assert!(missed_by_one * 100 < keys.len());
}

#[test]
fn hamming_keys_are_recalled_by_descent_without_freshening() {
    let mut rng = Xoshiro256PlusPlus::seed_from_u64(0);
    let keys = keys_from(&mut rng, 4096);
    let mut hrc: Hrc<Bits256, ()> = Hrc::new();
    for &key in keys.iter() {
        let node = hrc.insert(0, key, (), 0);
        for _ in 0..TRAINING_PAIRS {
            let other = rng.gen_range(0..hrc.len());
            hrc.optimize_connection(0, node, other);
        }
    }
    // Where no node was taken out and connected anew, the greedy descent from node 0
    // arrives at every key of the training set.
    for (node, key) in keys.iter().enumerate() {
        assert_eq!(hrc.search_knn_from(0, 0, key, 1), vec![(node, 0)]);
    }
}

#[test]
fn hamming_edges_are_symmetric_after_training() {
    let mut rng = Xoshiro256PlusPlus::seed_from_u64(0);
    let keys = keys_from(&mut rng, 4096);
    let hrc = trained_index(&keys, &mut rng);
    let adjacency = hrc.simple_representation();
    assert_eq!(adjacency.len(), 4096);
    let mut directed = 0;
    for (a, neighbors) in adjacency.iter().enumerate() {
        for &b in neighbors {
            assert!(adjacency[b].contains(&a));
            assert_ne!(a, b);
        }
        let mut sorted = neighbors.clone();
        sorted.sort_unstable();
        sorted.dedup();
        assert_eq!(sorted.len(), neighbors.len());
        directed += neighbors.len();
    }
    assert_eq!(directed, 2 * hrc.edges());
}

#[test]
fn hamming_recall_of_held_out_queries() {
    let mut rng = Xoshiro256PlusPlus::seed_from_u64(0);
    let keys = keys_from(&mut rng, 4096);
    let hrc = trained_index(&keys, &mut rng);
    let queries = keys_from(&mut rng, 1024);
    let mut correct = 0;
    for query in queries.iter() {
        let best = keys.iter().map(|key| distance(query, key)).min().unwrap();
        // The nearest of a search for 32 neighbors is the answer of the index.
        let found = hrc.search_knn_from(0, 0, query, 32);
        assert_eq!(found[0].1, distance(query, &keys[found[0].0]));
        if found[0].1 == best {
            correct += 1;
        }
    }
    let recall = correct as f64 / queries.len() as f64;
    assert!(recall > 0.5);
}
