use ez_core::rng::{hash_u32, Rng};
use ez_core::terrain::hash_u;

#[test]
fn same_seed_same_numbers() {
    let mut a = Rng::new(42);
    let mut b = Rng::new(42);
    let xs: Vec<u32> = (0..3).map(|_| a.next_u32()).collect();
    let ys: Vec<u32> = (0..3).map(|_| b.next_u32()).collect();
    assert_eq!(xs, ys);
    assert_eq!(xs, vec![2295856151, 571996047, 2708586441]);
}

#[test]
fn ranges_and_picks() {
    let mut r = Rng::new(42);
    assert_eq!(r.range_u32(10, 20), 16);
    let mut e = Rng::new(7);
    assert_eq!(e.range_u32(5, 5), 5);
    assert_eq!(e.range_u32(9, 3), 9);
    let mut f = Rng::new(7);
    assert_eq!(e.next_u32(), f.next_u32(), "empty ranges draw nothing");
    let items = [10, 20, 30];
    let mut g = Rng::new(42);
    assert_eq!(*g.pick(&items), items[(2295856151u32 as usize) % 3]);
    let mut c = g.clone();
    assert_eq!(c.next_u32(), g.next_u32());
}

#[test]
fn hashes_match_the_shaders() {
    assert_eq!(hash_u32(0), 0);
    assert_eq!(hash_u32(1), 0x6889_90c0);
    assert_eq!(hash_u32(42), 388445122);
    for x in [0u32, 1, 42, 0xdead_beef, u32::MAX] {
        assert_eq!(hash_u(x), hash_u32(x));
    }
}
