use hrc::{Bits128, Hrc};

#[test]
fn empty_index_finds_nothing() {
    let hrc: Hrc<Bits128, ()> = Hrc::new();
    assert_eq!(hrc.search(0, &Bits128(5)), None);
    assert_eq!(hrc.len(), 0);
    assert!(hrc.is_empty());
    assert_eq!(hrc.edges(), 0);
}

#[test]
fn singleton_is_found_from_everywhere() {
    let mut hrc: Hrc<Bits128, u32> = Hrc::new();
    let x = Bits128(0b1011);
    let y = Bits128(0b0110);
    assert_eq!(hrc.insert(0, x, 7, 2), 0);
    assert_eq!(hrc.search(0, &x), Some((0, 0)));
    assert_eq!(hrc.search(0, &y), Some((0, 3)));
    assert_eq!(hrc.len(), 1);
    assert_eq!(hrc.edges(), 0);
    assert_eq!(hrc.get(0), Some((&x, &7)));
    assert_eq!(hrc.get(1), None);
}

#[test]
fn two_colocated_keys_are_both_found() {
    let mut hrc: Hrc<Bits128, ()> = Hrc::new();
    let x = Bits128(42);
    hrc.insert(0, x, (), 0);
    hrc.insert(0, x, (), 0);
    let found = hrc.search_knn_from(0, 0, &x, 2);
    assert_eq!(found.len(), 2);
    assert_eq!(found[0].1, 0);
    assert_eq!(found[1].1, 0);
    assert_eq!(hrc.edges(), 1);
}
