use algorithms::quick_find::QuickFindUF;
use algorithms::uf::UF;
use algorithms::weighted_halving::WeightedWithHalvingUF;

#[test]
fn weighted_halving_count() {
    let mut uf = WeightedWithHalvingUF::new(2);
    assert_eq!(uf.count(), 2);
    uf.components = 10;
    assert_eq!(uf.count(), 10);
}

#[test]
fn weighted_halving_new() {
    let uf = WeightedWithHalvingUF::new(2);
    assert_eq!(uf.sizes, vec![1, 1]);
    assert_eq!(uf.count(), 2);
    assert_eq!(uf.sites.len(), 2);
    assert_eq!(uf.sizes.len(), 2);
    assert_eq!(uf.sites[0], 0);
    assert_eq!(uf.sites[1], 1);
}

#[test]
fn weighted_halving_connected() {
    let mut uf = WeightedWithHalvingUF::new(3);
    for i in 0..3u32 {
        assert_eq!(uf.connected(i, i), true);
    }

    assert_eq!(uf.sites, vec![0, 1, 2]);
    assert_eq!(uf.connected(0, 2), false);
    assert_eq!(uf.connected(2, 0), false);
    assert_eq!(uf.connected(1, 2), false);
    assert_eq!(uf.connected(2, 1), false);
}

#[test]
fn weighted_halving_union() {
    let mut uf = WeightedWithHalvingUF::new(3);
    uf.union(1, 0);

    assert_eq!(uf.sizes, vec![0, 2, 1]);
    assert_eq!(uf.sites, vec![1, 1, 2]);

    uf.union(0, 2);
    assert_eq!(uf.sizes, vec![0, 3, 0]);
    assert_eq!(uf.sites, vec![1, 1, 1])
}

#[test]
fn union_with_weights() {
    let mut uf = WeightedWithHalvingUF::new(5);
    uf.union(0, 1);
    uf.union(2, 3);
    uf.union(2, 4); // should join to 2 since component 2 is bigger

    assert_eq!(uf.sites, vec![0, 0, 2, 2, 2]);
}

#[test]
fn find() {
    let mut uf = WeightedWithHalvingUF::new(7);
    uf.sites = vec![1, 2, 3, 4, 5, 6, 6];

    // calling find updates roots to grandparents
    assert_eq!(uf.find(0), 6);
    assert_eq!(uf.sites, vec![1, 3, 3, 5, 5, 6, 6]);
    uf.find(0);
    assert_eq!(uf.sites, vec![1, 5, 3, 5, 5, 6, 6]);
}

#[test]
fn fresh_instance_has_singleton_components() {
    let mut uf = WeightedWithHalvingUF::new(4);
    assert_eq!(uf.count(), 4);
    for p in 0..4u32 {
        for q in 0..4u32 {
            assert_eq!(uf.connected(p, q), p == q);
        }
    }
}

#[test]
fn count_drops_only_on_effective_unions() {
    let mut uf = WeightedWithHalvingUF::new(4);
    uf.union(0, 1);
    assert_eq!(uf.count(), 3);
    uf.union(1, 0); // already connected: no decrement
    assert_eq!(uf.count(), 3);
    uf.union(2, 3);
    assert_eq!(uf.count(), 2);
    uf.union(0, 3);
    assert_eq!(uf.count(), 1);
    uf.union(2, 1); // already connected: no decrement
    assert_eq!(uf.count(), 1);
}

#[test]
fn union_is_commutative_in_effect() {
    let mut uf = WeightedWithHalvingUF::new(5);
    uf.union(1, 3);
    assert_eq!(uf.connected(3, 1), true);
    let before = uf.count();
    uf.union(3, 1); // repeating the union the other way round is a no-op
    assert_eq!(uf.count(), before);
    assert_eq!(uf.connected(1, 3), true);
}

#[test]
fn find_keeps_connectivity_intact() {
    let mut uf = WeightedWithHalvingUF::new(6);
    uf.union(0, 1);
    uf.union(1, 2);
    uf.union(3, 4);
    let mut expected = Vec::new();
    for p in 0..6u32 {
        for q in 0..6u32 {
            expected.push(uf.connected(p, q));
        }
    }
    // path halving during these finds rewires parents but must not change
    // any connectivity answer
    for p in 0..6u32 {
        uf.find(p);
    }
    let mut idx: usize = 0;
    for p in 0..6u32 {
        for q in 0..6u32 {
            assert_eq!(uf.connected(p, q), expected[idx]);
            idx += 1;
        }
    }
}

#[test]
fn strategies_agree_on_identical_operations() {
    let ops = [(0u32, 1u32), (2, 3), (3, 4), (1, 0), (0, 3), (5, 5)];
    let mut quick = QuickFindUF::new(6);
    let mut weighted = WeightedWithHalvingUF::new(6);
    for (p, q) in ops {
        quick.union(p, q);
        weighted.union(p, q);
        assert_eq!(quick.count(), weighted.count());
        for x in 0..6u32 {
            for y in 0..6u32 {
                assert_eq!(quick.connected(x, y), weighted.connected(x, y));
            }
        }
    }
}
