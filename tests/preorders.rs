use prest::alt::Alt;
use prest::alt_set::AltSet;
use prest::fast_preorder::{self, FastPreorder};
use prest::linear_preorders;
use prest::precomputed::Precomputed;
use prest::preorder::Preorder;

fn alts_p(xs: &[u32]) -> AltSet {
    let v: Vec<Alt> = xs.iter().map(|&x| Alt(x)).collect();
    AltSet::from_alts(&v)
}

#[test]
fn preorder_stuffing() {
    let p = |size: u32, blocks: Vec<u32>| Preorder::from_blocks(size, blocks).unwrap();

    assert_eq!(p(2, vec![3, 2]).stuff(3, 0x5), p(3, vec![5, 7, 4]));
    assert_eq!(p(2, vec![1, 3]).stuff(3, 0x5), p(3, vec![1, 7, 5]));
    assert_eq!(p(2, vec![1, 2]).stuff(3, 0x5), p(3, vec![1, 7, 4]));

    assert!(p(2, vec![1, 3]).stuff(3, 0x5).is_transitive());
    assert!(p(2, vec![1, 3]).stuff(3, 0x5).is_reflexive());
}

#[test]
fn preorder_basic_sanity() {
    let up: Vec<Alt> = Preorder::from_values(&[0, 1, 2, 3]).upset(Alt(1)).iter();
    assert_eq!(AltSet::from_alts(&up), alts_p(&[1, 2, 3]));

    let up: Vec<Alt> = Preorder::from_values(&[0, 1, 2, 3, 4, 5, 6, 7, 8, 9, 10, 11, 12, 13]).upset(Alt(7)).iter();
    assert_eq!(AltSet::from_alts(&up), alts_p(&[7, 8, 9, 10, 11, 12, 13]));

    fn big_case(m: u32, n: u32) {
        let values: Vec<u32> = (0..n).collect();
        let expected: Vec<Alt> = (m..n).map(Alt).collect();

        assert_eq!(&Preorder::from_values(&values).upset(Alt(m)).iter(), &expected);
    }

    big_case(15, 33);
    big_case(35, 64);
    big_case(337, 1234);
}

#[test]
fn counts() {
    assert_eq!(linear_preorders::all_vec(0).len(), 1);
    assert_eq!(linear_preorders::all_vec(1).len(), 1);
    assert_eq!(linear_preorders::all_vec(2).len(), 2);
    assert_eq!(linear_preorders::all_vec(3).len(), 6);
    assert_eq!(linear_preorders::all_vec(4).len(), 24);
    assert_eq!(linear_preorders::all_vec(5).len(), 120);
    assert_eq!(linear_preorders::all_vec(6).len(), 720);
}

#[test]
fn linear_orders_are_distinct_and_linear() {
    let all = linear_preorders::all_vec(4);
    for (i, p) in all.iter().enumerate() {
        assert!(p.is_strict() && p.is_total() && p.is_transitive() && p.is_reflexive());
        for q in &all[i + 1..] {
            assert!(p != q);
        }
    }
}

#[test]
fn fast_preorder_counts() {
    // the numbers of preorders on 0 to 5 labelled elements
    let expected = [1usize, 1, 4, 29, 355, 6942];
    for (n, &count) in expected.iter().enumerate() {
        let all = fast_preorder::all(n as u32);
        assert_eq!(all.len(), count);
        for fp in &all {
            let p = Preorder::from_fast_preorder(n as u32, *fp);
            assert!(p.is_reflexive());
            assert!(p.is_transitive());
        }
    }
}

#[test]
fn precomputed_tables() {
    let mut pre = Precomputed::new(None);
    pre.precompute(4).unwrap();
    let t = pre.get(3).unwrap();
    assert_eq!(t.preorders.len(), 29);
    // partial orders and weak orders on three labelled elements
    assert_eq!(t.partial_orders.len(), 19);
    assert_eq!(t.weak_orders.len(), 13);
    assert!(pre.get(5).is_err());
    assert!(Precomputed::new(None).precompute(7).is_err());
}

#[test]
fn preorder_constructors_are_reflexive() {
    assert!(Preorder::diagonal(5).is_reflexive());
    assert!(Preorder::from_values(&[3, 1, 4, 1, 5]).is_reflexive());
    assert!(Preorder::from_fast_preorder(3, FastPreorder(0x07_03_01)).is_reflexive());
    let p = Preorder::from_fast_preorder(3, FastPreorder(0x07_03_01));
    let q = p.stuff(5, 0b10110);
    assert!(q.is_reflexive());
    assert!(q.is_transitive());
}

#[test]
fn preorder_properties() {
    let d = Preorder::diagonal(3);
    assert!(d.is_strict());
    assert!(!d.is_total());
    let v = Preorder::from_values(&[2, 1, 2]);
    assert!(!v.is_strict());
    assert!(v.is_total());
    assert!(v.leq(Alt(1), Alt(0)));
    assert!(v.lt(Alt(1), Alt(0)));
    assert!(v.eq(Alt(0), Alt(2)));
    assert_eq!(v.edges(), vec![(Alt(0), Alt(2)), (Alt(1), Alt(0)), (Alt(1), Alt(2)), (Alt(2), Alt(0))]);
    let mut w = Preorder::diagonal(2);
    w.set_leq(Alt(0), Alt(1), true);
    assert!(w.leq(Alt(0), Alt(1)));
    w.set_leq(Alt(0), Alt(1), false);
    assert!(!w.leq(Alt(0), Alt(1)));
    assert!(Preorder::from_blocks(2, vec![4, 1]).is_none());
    assert!(Preorder::from_blocks(2, vec![1]).is_none());
}
