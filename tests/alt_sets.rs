use prest::alt::Alt;
use prest::alt_set::AltSet;

fn alts_a(xs: &[u32]) -> AltSet {
    let v: Vec<Alt> = xs.iter().map(|&x| Alt(x)).collect();
    AltSet::from_alts(&v)
}

#[test]
fn alt_set_basic_sanity() {
    let aas = alts_a(&[2]);
    println!("{:?}", aas);
    assert_eq!(aas, alts_a(&[2]));
}

#[test]
fn alt_set_round_trip() {
    for xs in [&[][..], &[0][..], &[3, 1, 40][..], &[31, 32, 63, 64, 100][..]] {
        let s = alts_a(xs);
        let back = AltSet::from_alts(&s.view().iter());
        assert_eq!(back, s);
        let mut sorted: Vec<u32> = xs.to_vec();
        sorted.sort();
        assert_eq!(s.view().iter(), sorted.iter().map(|&x| Alt(x)).collect::<Vec<_>>());
        assert_eq!(s.size() as usize, xs.len());
    }
}

#[test]
fn alt_set_normalised_equality() {
    let mut a = alts_a(&[1, 40]);
    a.difference_with(alts_a(&[40]).view());
    assert_eq!(a, alts_a(&[1]));
    assert_eq!(AltSet::from_blocks(vec![2, 0, 0]), alts_a(&[1]));
    assert_eq!(AltSet::from_block(0), AltSet::empty());
}

#[test]
fn alt_set_algebra() {
    let mut a = alts_a(&[0, 2, 33]);
    a.union_with(alts_a(&[1, 70]).view());
    assert_eq!(a, alts_a(&[0, 1, 2, 33, 70]));
    a.intersect_with(alts_a(&[1, 2, 3, 70]).view());
    assert_eq!(a, alts_a(&[1, 2, 70]));
    assert!(alts_a(&[1, 2]).view().is_subseteq_of(a.view()));
    assert!(alts_a(&[1, 2]).view().is_strict_subset_of(a.view()));
    assert!(a.view().is_strict_superset_of(alts_a(&[70]).view()));
    assert!(!alts_a(&[40]).view().is_subseteq_of(alts_a(&[1]).view()));
    assert!(alts_a(&[]).view().is_empty());
    assert!(alts_a(&[64]).view().is_nonempty());
    assert!(alts_a(&[5]).view().is_singleton());
    assert_eq!(alts_a(&[5]).view().as_singleton(), Some(Alt(5)));
    assert_eq!(alts_a(&[5, 6]).view().as_singleton(), None);
    assert!(alts_a(&[5]).view().contains(Alt(5)));
    assert!(!alts_a(&[5]).view().contains(Alt(500)));
    assert_eq!(AltSet::full(3), alts_a(&[0, 1, 2]));
    assert_eq!(AltSet::full(32).size(), 32);
    assert_eq!(AltSet::full(0), AltSet::empty());
    assert_eq!(AltSet::singleton(Alt(9)), alts_a(&[9]));
    assert_eq!(AltSet::from_block(0b101), alts_a(&[0, 2]));
}

#[test]
fn alt_enumerations() {
    assert_eq!(Alt::all(3), vec![Alt(0), Alt(1), Alt(2)]);
    assert_eq!(Alt::all_above(Alt(1), 4), vec![Alt(2), Alt(3)]);
    assert_eq!(Alt::all_pairs(2), vec![(Alt(0), Alt(0)), (Alt(0), Alt(1)), (Alt(1), Alt(0)), (Alt(1), Alt(1))]);
    assert_eq!(Alt::distinct_pairs(3), vec![(Alt(0), Alt(1)), (Alt(0), Alt(2)), (Alt(1), Alt(2))]);
    assert_eq!(Alt(4).index(), 4);
}
