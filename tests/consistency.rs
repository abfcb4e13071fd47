use prest::alt::Alt;
use prest::alt_set::AltSet;
use prest::common::{ChoiceRow, Subject};
use prest::consistency::deterministic::{self, build_graphs, contraction_consistency, find_cycles, rotate_min, Cycle, Request};
use prest::consistency::stochastic::analyse;

fn alts_c(xs: &[u32]) -> AltSet {
    let v: Vec<Alt> = xs.iter().map(|&x| Alt(x)).collect();
    AltSet::from_alts(&v)
}

fn row_c(menu: &[u32], choice: &[u32]) -> ChoiceRow {
    ChoiceRow { menu: alts_c(menu), default: None, choice: alts_c(choice) }
}

fn testreq(alt_count: u32, choices: Vec<ChoiceRow>) -> Request {
    Request {
        subject: Subject {
            name: String::from("subject"),
            alternatives: (0..alt_count).map(|s| s.to_string()).collect(),
            choices,
        },
        allow_repeated_menus: true,
    }
}

fn value(digits: &[u32]) -> u128 {
    digits.iter().rev().fold(0u128, |acc, &d| (acc << 32) + d as u128)
}

#[test]
fn rotation() {
    assert_eq!(rotate_min(&[3, 1, 2, 4]), &[1, 2, 4, 3]);
    assert_eq!(rotate_min(&[1, 2, 3, 4]), &[1, 2, 3, 4]);
    assert_eq!(rotate_min(&[2, 3, 4, 1]), &[1, 2, 3, 4]);
    assert_eq!(rotate_min(&[3, 4, 1, 2]), &[1, 2, 3, 4]);
    assert_eq!(rotate_min(&[2, 2, 2, 2]), &[2, 2, 2, 2]);
    assert_eq!(rotate_min(&[]), &[] as &[u32]);
    assert_eq!(rotate_min(&[1]), &[1]);
    assert_eq!(rotate_min(&[1, 2]), &[1, 2]);
    assert_eq!(rotate_min(&[2, 1]), &[1, 2]);
}

#[test]
fn test_build() {
    let choices = vec![
        row_c(&[0, 1], &[0, 1]),
        row_c(&[1, 2], &[2]),
        row_c(&[0, 2], &[0]),
        row_c(&[1, 3], &[3]),
        row_c(&[2, 3], &[2]),
        row_c(&[2, 4], &[4]),
        row_c(&[4, 3], &[3]),
    ];
    let (strict, non_strict) = build_graphs(5, &choices);
    assert!(strict.has_edge(Alt(1), Alt(2)));

    let mut cycles = find_cycles(&non_strict);
    cycles.sort();

    assert_eq!(
        cycles,
        &[
            Cycle::new(&[Alt(0), Alt(1)]),
            Cycle::new(&[Alt(0), Alt(1), Alt(2)]),
            Cycle::new(&[Alt(0), Alt(1), Alt(3), Alt(2)]),
            Cycle::new(&[Alt(2), Alt(4), Alt(3)]),
        ]
    );
}

#[test]
fn strict_cycles() {
    let request = testreq(3, vec![row_c(&[0, 1], &[0, 1]), row_c(&[0, 2], &[0]), row_c(&[1, 2], &[2])]);
    let response = deterministic::run(&request).unwrap();
    let rows: Vec<(u32, u128, u128, u128, u128, u128)> = response
        .rows
        .iter()
        .map(|r| {
            (
                r.cycle_length,
                value(&r.garp),
                value(&r.sarp),
                value(&r.garp_binary_menus),
                value(&r.sarp_binary_menus),
                value(&r.binary_intransitivities),
            )
        })
        .collect();
    assert_eq!(rows, vec![(2, 0, 0, 0, 0, 0), (3, 1, 0, 1, 0, 2)]);
    assert_eq!(response.warp_pairs, 0);
}

#[test]
fn warp_pairs_long() {
    let request = testreq(4, vec![row_c(&[0, 1], &[1]), row_c(&[1, 2], &[2]), row_c(&[2, 3], &[3]), row_c(&[3, 0], &[0])]);
    let response = deterministic::run(&request).unwrap();
    assert_eq!(response.warp_pairs, 0);
}

#[test]
fn test_run() {
    let request = testreq(5, vec![
        row_c(&[0, 1], &[0, 1]),
        row_c(&[1, 2], &[2]),
        row_c(&[0, 2], &[0]),
        row_c(&[1, 3], &[3]),
        row_c(&[2, 3], &[2]),
        row_c(&[2, 4], &[4]),
        row_c(&[4, 3], &[3]),
        row_c(&[1, 2, 3], &[3]),
    ]);
    let detailed = deterministic::run(&request).unwrap();
    let column = |f: &dyn Fn(&deterministic::Row) -> u128| -> Vec<(u32, u128)> {
        detailed.rows.iter().map(|r| (r.cycle_length, f(r))).filter(|&(_, v)| v != 0).collect()
    };
    assert_eq!(column(&|r| value(&r.sarp)), vec![(2, 1), (3, 1)]);
    assert_eq!(value(&detailed.warp), 1);
    assert_eq!(column(&|r| value(&r.garp)), vec![(2, 1), (3, 2), (4, 2)]);
    assert_eq!(column(&|r| value(&r.garp_binary_menus)), vec![(3, 2), (4, 1)]);
}

#[test]
fn warp_pairs() {
    let request = testreq(5, vec![
        row_c(&[0, 1], &[0, 1]),
        row_c(&[1, 2], &[]),
        row_c(&[0, 2], &[0]),
        row_c(&[1, 3], &[3]),
        row_c(&[2, 3], &[2]),
        row_c(&[2, 4], &[4]),
        row_c(&[4, 3], &[3]),
        row_c(&[1, 2, 3], &[3]),
    ]);
    assert_eq!(deterministic::run(&request).unwrap().warp_pairs, 1);
}

#[test]
fn inconsistent_augmentation() {
    let request = testreq(5, vec![row_c(&[0, 1, 2], &[0, 1, 2]), row_c(&[0, 1, 2, 3], &[0])]);
    let response = deterministic::run(&request).unwrap();
    assert_eq!(response.warp_pairs, 1);
    assert_eq!(value(&response.warp), 2);
}

#[test]
fn binary_intransitivities_acyclic() {
    let request = testreq(5, vec![row_c(&[0, 1], &[0]), row_c(&[1, 2], &[1]), row_c(&[0, 2], &[2])]);
    let response = deterministic::run(&request).unwrap();
    let total: u128 = response.rows.iter().map(|r| value(&r.binary_intransitivities)).sum();
    assert_eq!(total, 3);
}

#[test]
fn many_cycles() {
    let request = testreq(6, vec![
        row_c(&[0, 1], &[0, 1]),
        row_c(&[0, 2], &[0]),
        row_c(&[0, 3], &[3]),
        row_c(&[0, 4], &[0]),
        row_c(&[0, 5], &[0, 5]),
        row_c(&[1, 2], &[1, 2]),
        row_c(&[1, 3], &[1, 3]),
        row_c(&[1, 4], &[1, 4]),
        row_c(&[1, 5], &[1, 5]),
        row_c(&[2, 3], &[2, 3]),
        row_c(&[2, 4], &[2]),
        row_c(&[2, 5], &[2, 5]),
        row_c(&[3, 4], &[4]),
        row_c(&[3, 5], &[3, 5]),
        row_c(&[4, 5], &[4, 5]),
    ]);
    let detailed = deterministic::run(&request).unwrap();
    let total: u128 = detailed.rows.iter().map(|r| value(&r.garp_binary_menus)).sum();
    assert_eq!(total, 136);
}

fn check_contraction(alt_count: u32, e_intrans: u128, e_pairs: u32, e_all: u32, choices: Vec<ChoiceRow>) {
    let response = deterministic::run(&testreq(alt_count, choices)).unwrap();
    let total: u128 = response.rows.iter().map(|r| value(&r.binary_intransitivities)).sum();
    assert_eq!(total, e_intrans, "total binary intransitivities");
    assert_eq!(response.contraction_consistency_pairs, e_pairs, "contraction consistency (pairs)");
    assert_eq!(response.contraction_consistency_all, e_all, "contraction consistency (all)");
}

#[test]
fn contraction_consistency_basic() {
    check_contraction(5, 0, 1, 2, vec![row_c(&[0, 1, 2, 3, 4], &[0, 1]), row_c(&[0, 1, 2, 3], &[2, 3])]);
}

#[test]
fn contraction_consistency_2() {
    check_contraction(4, 0, 2, 2, vec![
        row_c(&[0, 1, 2, 3], &[0]),
        row_c(&[0, 1, 2], &[1]),
        row_c(&[0, 1, 3], &[]),
        row_c(&[0, 2, 3], &[0, 2]),
    ]);
}

#[test]
fn contraction_consistency_4() {
    check_contraction(5, 0, 5, 6, vec![
        row_c(&[0, 1, 2, 3, 4], &[0, 1]),
        row_c(&[0, 1, 2, 3], &[0]),
        row_c(&[0, 1, 2], &[1]),
        row_c(&[0, 1, 3], &[]),
        row_c(&[0, 2, 3], &[0, 2]),
    ]);
}

#[test]
fn contraction_pairs_direct() {
    let (all, pairs) = contraction_consistency(&[row_c(&[0, 1, 2, 3, 4], &[0, 1]), row_c(&[0, 1, 2, 3], &[2, 3])]);
    assert_eq!((all, pairs), (2, 1));
}

#[test]
fn consistency_scenario_three_rows() {
    let request = testreq(3, vec![row_c(&[0, 1], &[0, 1]), row_c(&[0, 2], &[0]), row_c(&[1, 2], &[2])]);
    let response = deterministic::run(&request).unwrap();
    let by_len: Vec<(u32, u128, u128)> =
        response.rows.iter().map(|r| (r.cycle_length, value(&r.garp), value(&r.sarp))).collect();
    assert_eq!(by_len, vec![(2, 0, 0), (3, 1, 0)]);
    assert_eq!(response.warp_pairs, 0);
}

#[test]
fn repeated_menus_are_refused() {
    let mut request = testreq(3, vec![row_c(&[0, 1], &[0]), row_c(&[0, 1], &[1])]);
    request.allow_repeated_menus = false;
    assert_eq!(deterministic::run(&request).unwrap_err(), deterministic::Error::RepeatedMenus);
}

#[test]
fn transitivity_1() {
    let (t, r) = analyse(3, &[row_c(&[0, 1], &[0]), row_c(&[0, 2], &[2]), row_c(&[1, 2], &[1])]);
    assert_eq!(t.weak, 3);
    assert_eq!(t.moderate, 3);
    assert_eq!(t.strong, 3);
    assert_eq!(r, 0);
}

#[test]
fn regularity_weak() {
    let (t, r) = analyse(3, &[row_c(&[0, 1], &[0]), row_c(&[0, 1, 2], &[1])]);
    assert_eq!(t.weak, 0);
    assert_eq!(t.moderate, 0);
    assert_eq!(t.strong, 0);
    assert_eq!(r, 1);
}

#[test]
fn regularity_strong() {
    let (t, r) = analyse(3, &[row_c(&[0, 1], &[0]), row_c(&[0, 1, 2], &[0])]);
    assert_eq!(t.weak, 0);
    assert_eq!(t.moderate, 0);
    assert_eq!(t.strong, 0);
    assert_eq!(r, 0);
}

#[test]
fn deferrals() {
    let (t, r) = analyse(3, &[row_c(&[0, 1], &[]), row_c(&[0, 1, 2], &[0])]);
    assert_eq!(t.weak, 0);
    assert_eq!(t.moderate, 0);
    assert_eq!(t.strong, 0);
    assert_eq!(r, 1);
}

#[test]
fn tuple_intrans() {
    let choices = vec![row_c(&[0, 1], &[1]), row_c(&[1, 2], &[2]), row_c(&[2, 3], &[3]), row_c(&[3, 0], &[0])];

    let (strict, non_strict) = build_graphs(5, &choices);
    assert_eq!(find_cycles(&non_strict).len(), 1);
    assert_eq!(find_cycles(&strict).len(), 1);

    let request = testreq(4, choices);
    let response_menus = deterministic::run_menus(&request).unwrap();
    let response_alts = deterministic::run_alts(&request).unwrap();

    assert_eq!(
        response_menus.rows.iter().map(|r| (r.tuple_size, r.garp_menu_tuples.len())).collect::<Vec<_>>(),
        vec![(4, 1)],
    );
    assert_eq!(
        response_alts.rows.iter().map(|r| (r.tuple_size, r.garp_alt_tuples.len())).collect::<Vec<_>>(),
        vec![(4, 1)],
    );
}

#[test]
fn binary_intransitivities_size2() {
    // repeated menus, allowed in this request
    let request = testreq(5, vec![row_c(&[0, 1], &[0]), row_c(&[0, 1], &[])]);
    let response = deterministic::run(&request).unwrap();
    let total: u128 = response.rows.iter().map(|r| value(&r.binary_intransitivities)).sum();
    assert_eq!(total, 1);
}

#[test]
fn contraction_consistency_rep1() {
    check_contraction(5, 0, 4, 8, vec![
        row_c(&[0, 1, 2, 3, 4], &[0, 1]),
        row_c(&[0, 1, 2, 3], &[2, 3]),
        row_c(&[0, 1, 2, 3, 4], &[0, 1]),
        row_c(&[0, 1, 2, 3], &[2, 3]),
    ]);
}

#[test]
fn contraction_consistency_3() {
    check_contraction(4, 0, 2, 3, vec![
        row_c(&[0, 1, 2, 3], &[0, 1]),
        row_c(&[0, 1, 2], &[1]),
        row_c(&[0, 1, 3], &[]),
        row_c(&[0, 2, 3], &[0, 2]),
    ]);
}

#[test]
fn houtman_maks_bounds() {
    let choices = vec![
        row_c(&[0, 1], &[0, 1]),
        row_c(&[1, 2], &[2]),
        row_c(&[0, 2], &[0]),
        row_c(&[1, 3], &[3]),
        row_c(&[2, 3], &[2]),
        row_c(&[2, 4], &[4]),
        row_c(&[4, 3], &[3]),
    ];
    let (_strict, non_strict) = build_graphs(5, &choices);
    let cycles = find_cycles(&non_strict);
    let bounds = deterministic::hm_bounds(5, &cycles, &non_strict);
    assert_eq!(bounds, deterministic::BoundEstimate { lower: 1, upper: 2 });
    let none = deterministic::hm_bounds(5, &vec![], &non_strict);
    assert_eq!(none, deterministic::BoundEstimate { lower: 0, upper: 0 });
}
