use std::cmp::Ordering;

use algorithms::term::Term;

#[test]
fn ord() {
    let a = Term::new("aato", 2);
    let b = Term::new("abr", 5);
    let c = Term::new("ab", 5);

    assert_eq!(a.cmp(&b), Ordering::Less);
    assert_eq!(b.cmp(&a), Ordering::Greater);
    assert_eq!(b.cmp(&c), Ordering::Greater);
    assert_eq!(c.cmp(&b), Ordering::Less);
}

#[test]
fn by_prefix_order() {
    let a = Term::new("aato", 2);
    let b = Term::new("abr", 5);
    let c = Term::new("ab", 5);

    assert_eq!(Term::by_prefix_order(2, &a, &b), Ordering::Less);
    assert_eq!(Term::by_prefix_order(2, &b, &a), Ordering::Greater);
    assert_ne!(Term::by_prefix_order(2, &a, &b), Ordering::Equal);

    assert_eq!(Term::by_prefix_order(3, &b, &c), Ordering::Greater);
    assert_eq!(Term::by_prefix_order(3, &c, &b), Ordering::Less);
    assert_ne!(Term::by_prefix_order(3, &b, &c), Ordering::Equal);
}

#[test]
fn by_reserve_weight_order() {
    let a = Term::new("auto", 2);
    let b = Term::new("car", 5);

    assert_eq!(Term::by_reserve_weight_order(&a, &b), Ordering::Greater);
    assert_eq!(Term::by_reserve_weight_order(&b, &a), Ordering::Less);
    assert_ne!(Term::by_reserve_weight_order(&a, &b), Ordering::Equal);
}

#[test]
fn cmp_equal_queries() {
    let a = Term::new("same", 1);
    let b = Term::new("same", 9);
    assert_eq!(a.cmp(&b), Ordering::Equal);
    assert_eq!(a, b);
}

#[test]
fn by_prefix_order_zero_length() {
    let a = Term::new("abc", 1);
    let b = Term::new("xyz", 2);
    assert_eq!(Term::by_prefix_order(0, &a, &b), Ordering::Equal);
}

#[test]
fn by_reserve_weight_order_equal_weights() {
    let a = Term::new("left", 4);
    let b = Term::new("right", 4);
    assert_eq!(Term::by_reserve_weight_order(&a, &b), Ordering::Equal);
}
