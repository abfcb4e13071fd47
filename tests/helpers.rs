use prest::alt::Alt;
use prest::alt_set::AltSet;
use prest::common::{ChoiceRow, Subject};
use prest::digraph::simplify_edges;
use prest::graph::Graph;
use prest::integrity::{self, Issue};
use prest::linear_preorders::fac;
use prest::matrix::Matrix;
use prest::preorder::Preorder;
use prest::set_cover::greedy;
use prest::winners::Winners;

fn alts_h(xs: &[u32]) -> AltSet {
    let v: Vec<Alt> = xs.iter().map(|&x| Alt(x)).collect();
    AltSet::from_alts(&v)
}

fn row_h(menu: &[u32], choice: &[u32]) -> ChoiceRow {
    ChoiceRow { menu: alts_h(menu), default: None, choice: alts_h(choice) }
}

#[test]
fn integrity_issues() {
    let ok = Subject { name: "a".to_string(), alternatives: vec!["x".into(), "y".into()], choices: vec![row_h(&[0, 1], &[1])] };
    assert!(integrity::run(&ok).issues.is_empty());
    let bad = Subject {
        name: "b".to_string(),
        alternatives: vec!["x".into(), "y".into(), "z".into()],
        choices: vec![row_h(&[0, 1], &[2]), row_h(&[0, 1], &[0]), row_h(&[0, 1], &[1])],
    };
    let issues = integrity::find_issues(&bad);
    assert_eq!(issues.len(), 2);
    assert!(matches!(&issues[0], Issue::RepeatedMenu(m) if *m == alts_h(&[0, 1])));
    assert!(matches!(&issues[1], Issue::ChoiceNotInMenu(_, a) if *a == Alt(2)));
}

#[test]
fn matrix_access() {
    let mut m = Matrix::new(2, 3, vec![1, 2, 3, 4, 5, 6]);
    assert_eq!(m.get(1, 2), 6);
    assert_eq!(m.row(1), &[4, 5, 6]);
    assert_eq!(*m.get_ref(0, 1), 2);
    m.set(0, 1, 9);
    assert_eq!(Matrix::from_slice(2, 3, &[1, 9, 3, 4, 5, 6]).values, m.values);
}

#[test]
fn powerset_enumeration() {
    let mut p = AltSet::powerset(3);
    let mut all = Vec::new();
    while let Some(s) = p.next() {
        all.push(s);
    }
    assert_eq!(all.len(), 7);
    assert_eq!(all[0], alts_h(&[0]));
    assert_eq!(all[6], alts_h(&[0, 1, 2]));
    assert!(AltSet::powerset(0).next().is_none());
}

#[test]
fn linear_order_of_values() {
    let p = Preorder::from_values(&[2, 0, 1]);
    assert_eq!(p.as_linear_order(), Some(vec![Alt(0), Alt(2), Alt(1)]));
    assert_eq!(Preorder::from_values(&[1, 1]).as_linear_order(), None);
}

#[test]
fn simplified_digraph() {
    let p = Preorder::from_values(&[0, 1, 2]);
    let mut simple = p.simple_digraph();
    simple.sort();
    assert_eq!(simple, vec![(Alt(0), Alt(1)), (Alt(1), Alt(2))]);
    let mut e = simplify_edges(&[(Alt(0), Alt(1)), (Alt(1), Alt(2)), (Alt(0), Alt(2)), (Alt(0), Alt(1))]);
    e.sort();
    assert_eq!(e, vec![(Alt(0), Alt(1)), (Alt(1), Alt(2))]);
}

#[test]
fn greedy_cover() {
    let sets = vec![alts_h(&[0, 1, 2]), alts_h(&[2, 3]), alts_h(&[3]), alts_h(&[4])];
    let chosen = greedy(&sets);
    assert_eq!(chosen, vec![0, 1, 3]);
    assert!(greedy(&[]).is_empty());
}

#[test]
fn isolated_vertices() {
    let g = Graph { vertices: vec!["a", "b", "c", "d"], edges: vec![(0, 2)] };
    assert_eq!(g.iter_isolated_vertices(), vec![1, 3]);
    assert!(Graph::<u32>::empty().vertices.is_empty());
}

#[test]
fn winners_keep_ties() {
    let mut w = Winners::new();
    w.add(3, "a");
    w.add(5, "b");
    w.add(5, "c");
    w.add(4, "d");
    assert_eq!(w.into_result(), Some((5, vec!["b", "c"])));
    assert_eq!(Winners::<u8>::new().into_result(), None);
}

#[test]
fn deferrals_dropped() {
    let s = Subject { name: "s".into(), alternatives: vec!["x".into(), "y".into()], choices: vec![row_h(&[0, 1], &[]), row_h(&[0, 1], &[0])] };
    assert_eq!(s.drop_deferrals(true).choices.len(), 1);
    assert_eq!(s.drop_deferrals(false).choices.len(), 2);
}

#[test]
fn factorials() {
    assert_eq!(fac(0), 1);
    assert_eq!(fac(5), 120);
    assert_eq!(fac(10), 3628800);
}

#[test]
fn combinations_of_alternatives() {
    let all = AltSet::combinations(4, 2);
    assert_eq!(all.len(), 6);
    assert_eq!(all[0], alts_h(&[0, 1]));
    assert_eq!(all[5], alts_h(&[2, 3]));
    let some = alts_h(&[1, 5, 9]).view().combinations(2);
    assert_eq!(some, vec![alts_h(&[1, 5]), alts_h(&[1, 9]), alts_h(&[5, 9])]);
    assert_eq!(AltSet::combinations(3, 0), vec![AltSet::empty()]);
    assert!(AltSet::combinations(2, 3).is_empty());
}

#[test]
fn random_subsets_stay_within() {
    for _ in 0..20 {
        let s = AltSet::rand_possibly_empty(40);
        assert!(s.view().is_subseteq_of(AltSet::full(40).view()));
    }
}

#[test]
fn preorder_base64() {
    let d = Preorder::diagonal(2);
    assert_eq!(d.to_base64(), "AgEC");
    assert_eq!(Preorder::from_base64("AgEC").unwrap(), d);
    assert!(Preorder::from_base64("not base64!").is_err());
    // blocks with a bit past the last alternative are refused
    assert!(Preorder::from_base64("AgQB").is_err());
}

#[test]
fn restricted_relation() {
    let mut p = Preorder::from_values(&[0, 1, 2]);
    p.restrict(alts_h(&[0, 2]).view());
    assert!(p.leq(Alt(0), Alt(2)));
    assert!(!p.leq(Alt(0), Alt(1)));
    assert!(p.leq(Alt(1), Alt(1)));
    assert!(!p.leq(Alt(1), Alt(2)));
}

#[test]
fn poset_graph_of_weak_order() {
    // 0 ~ 1 < 2
    let p = Preorder::from_values(&[0, 0, 1]);
    let g = p.to_poset_graph();
    assert_eq!(g.vertices, vec![alts_h(&[0, 1]), alts_h(&[2])]);
    assert_eq!(g.edges, vec![(0, 1)]);
    let r = prest::instviz::graph_repr(&p);
    assert_eq!(r.edges, vec![(alts_h(&[0, 1]), alts_h(&[2]))]);
}

#[test]
fn inserting_into_a_set() {
    let s = alts_h(&[1, 3]);
    assert_eq!(prest::approximate_estimation::set_insert(Alt(40), s.view()), alts_h(&[1, 3, 40]));
    assert_eq!(prest::approximate_estimation::set_insert(Alt(1), s.view()), s);
}

#[test]
fn weak_order_classes() {
    // 0 ~ 2 above 1
    let p = Preorder::from_values(&[5, 1, 5]);
    assert_eq!(p.as_weak_order(), Some(vec![vec![Alt(0), Alt(2)], vec![Alt(1)]]));
    assert_eq!(Preorder::diagonal(2).as_weak_order(), None);
}

#[test]
fn names_of_a_set() {
    let names = ["apple", "banana", "cherry"];
    assert_eq!(alts_h(&[0, 2]).view().to_string(&names), "apple,cherry");
    assert_eq!(AltSet::empty().view().to_string(&names), "");
}

#[test]
fn best_scores_with_ties() {
    assert_eq!(prest::winners::run_iter(vec![(1u64, 'a'), (3, 'b'), (2, 'c'), (3, 'd')]), Some((3, vec!['b', 'd'])));
    assert_eq!(prest::winners::run_iter::<char>(vec![]), None);
}
