use algorithms::quick_find::QuickFindUF;
use algorithms::uf::UF;

#[test]
fn quick_find_count() {
    let mut uf = QuickFindUF::new(2);
    assert_eq!(uf.count(), 2);
    uf.union(0, 1);
    assert_eq!(uf.count(), 1);
}

#[test]
fn quick_find_new() {
    let uf = QuickFindUF::new(2);
    assert_eq!(uf.count(), 2);
}

#[test]
fn quick_find_connected() {
    let mut uf = QuickFindUF::new(3);
    for i in 0..3u32 {
        assert_eq!(uf.connected(i, i), true);
    }
    assert_eq!(uf.connected(0, 2), false);
    assert_eq!(uf.connected(2, 0), false);
    assert_eq!(uf.connected(1, 2), false);
    assert_eq!(uf.connected(2, 1), false);
}

#[test]
fn quick_find_union() {
    let mut uf = QuickFindUF::new(3);
    uf.union(0, 1);

    assert_eq!(uf.connected(0, 1), true);
    assert_eq!(uf.connected(0, 2), false);
    assert_eq!(uf.connected(1, 2), false);
}

#[test]
fn quick_find_union_relabels_whole_component() {
    let mut uf = QuickFindUF::new(4);
    uf.union(0, 1);
    uf.union(2, 3);
    uf.union(0, 2);
    assert_eq!(uf.connected(1, 3), true);
    assert_eq!(uf.count(), 1);
}

#[test]
fn quick_find_reunion_keeps_count() {
    let mut uf = QuickFindUF::new(3);
    uf.union(0, 1);
    assert_eq!(uf.count(), 2);
    uf.union(1, 0);
    assert_eq!(uf.count(), 2);
}
