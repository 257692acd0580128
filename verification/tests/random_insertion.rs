use hrc::{Bits256, Hrc};
use rand::{Rng, SeedableRng};

fn random_keys(seed: u64, count: usize) -> Vec<Bits256> {
    // Use a PRNG with good statistical properties for generating 64-bit numbers.
    let mut rng = rand_xoshiro::Xoshiro256PlusPlus::seed_from_u64(seed);
    (&mut rng)
        .sample_iter::<[u8; 32], _>(rand::distributions::Standard)
        .map(|bytes| {
            let mut low = [0u8; 16];
            let mut high = [0u8; 16];
            low.copy_from_slice(&bytes[..16]);
            high.copy_from_slice(&bytes[16..]);
            Bits256 {
                low: u128::from_le_bytes(low),
                high: u128::from_le_bytes(high),
            }
        })
        .take(count)
        .collect()
}

#[test]
fn random_insertion_random_insertion_stats() {
    let mut hrc: Hrc<Bits256, ()> = Hrc::new();

    // Generate random keys.
    let keys = random_keys(0, 1 << 10);

    // Insert keys into the index.
    for (ix, &key) in keys.iter().enumerate() {
        if ix % 1000 == 0 {
            println!("Inserting {}", ix);
        }
        hrc.insert(0, key, (), 2);
    }

    println!("Histogram: {:?}", hrc.histogram());

    for (ix, key) in keys.iter().enumerate() {
        if ix % 100 == 0 {
            println!("Searching {}", ix);
        }
        // Search each key.
        let distance = hrc.search_knn_from(0, 0, key, 5)[0].1;
        // Make sure that the best result is this key.
        assert_eq!(distance, 0);
    }
}

#[test]
fn unit_tests_random_insertion_stats() {
    let mut hrc: Hrc<Bits256, ()> = Hrc::new();

    // Generate random keys.
    let keys = random_keys(0, 1 << 12);

    // Insert keys into the index.
    for (ix, &key) in keys.iter().enumerate() {
        if ix % 1000 == 0 {
            println!("Inserting {}", ix);
        }
        hrc.insert(0, key, (), 2);
    }

    println!("Histogram: {:?}", hrc.histogram());

    for (ix, key) in keys.iter().enumerate() {
        if ix % 100 == 0 {
            println!("Searching {}", ix);
        }
        // Search each key.
        let distance = hrc.search_knn_from(0, 0, key, 5)[0].1;
        // Make sure that the best result is this key.
        assert_eq!(distance, 0);
    }
}
