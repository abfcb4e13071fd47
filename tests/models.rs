use prest::alt::Alt;
use prest::alt_set::AltSet;
use prest::common::{ChoiceRow, Subject};
use prest::codec::encode_to_memory;
use prest::estimation::run_one;
use prest::fast_preorder::FastPreorder;
use prest::model::{traverse_all, Instance, Model, Penalty, PreorderParams};
use prest::precomputed::Precomputed;
use prest::preorder::Preorder;
use std::collections::HashSet;

fn alts_m(xs: &[u32]) -> AltSet {
    let v: Vec<Alt> = xs.iter().map(|&x| Alt(x)).collect();
    AltSet::from_alts(&v)
}

fn row_m(menu: &[u32], choice: &[u32]) -> ChoiceRow {
    ChoiceRow { menu: alts_m(menu), default: None, choice: alts_m(choice) }
}

fn testsubj(alt_count: u32, choices: Vec<ChoiceRow>) -> Subject {
    Subject {
        name: String::from("subject"),
        alternatives: (0..alt_count).map(|s| s.to_string()).collect(),
        choices,
    }
}

#[test]
fn partially_dominant() {
    let inst = Instance::PartiallyDominantChoice {
        p: Preorder::from_fast_preorder(5, FastPreorder(0x1F_0F_07_02_01)),
        fc: true,
    };
    assert_eq!(inst.choice(alts_m(&[4, 2]).view(), None), alts_m(&[2]));
    assert_eq!(inst.choice(alts_m(&[0, 1, 2, 3, 4]).view(), None), alts_m(&[0, 1]));
}

#[test]
fn partially_dominant_without_forced_choice() {
    let inst = Instance::PartiallyDominantChoice { p: Preorder::diagonal(3), fc: false };
    assert_eq!(inst.choice(alts_m(&[0, 1]).view(), None), AltSet::empty());
    let inst = Instance::PartiallyDominantChoice { p: Preorder::diagonal(3), fc: true };
    assert_eq!(inst.choice(alts_m(&[0, 1]).view(), None), alts_m(&[0, 1]));
}

#[test]
fn choice_of_each_model() {
    // 0 < 1 < 2 < 3
    let lin = || Preorder::from_values(&[0, 1, 2, 3]);
    let m = alts_m(&[0, 1, 3]);
    assert_eq!(Instance::PreorderMaximization(lin()).choice(m.view(), None), alts_m(&[3]));
    assert_eq!(Instance::UndominatedChoice(lin()).choice(m.view(), None), alts_m(&[3]));
    assert_eq!(Instance::TopTwo(lin()).choice(m.view(), None), alts_m(&[1, 3]));
    assert_eq!(Instance::TopTwo(lin()).choice(alts_m(&[0, 2]).view(), None), alts_m(&[0, 2]));
    assert_eq!(Instance::Overload { p: lin(), limit: 2 }.choice(m.view(), None), AltSet::empty());
    assert_eq!(Instance::Overload { p: lin(), limit: 3 }.choice(m.view(), None), alts_m(&[3]));
    assert_eq!(
        Instance::Unattractiveness { p: lin(), mask: alts_m(&[0, 1]) }.choice(m.view(), None),
        AltSet::empty()
    );
    assert_eq!(Instance::HybridDomination(Preorder::diagonal(4)).choice(m.view(), None), m);
    assert_eq!(
        Instance::SequentiallyRationalizableChoice(lin(), Preorder::diagonal(4)).choice(m.view(), None),
        alts_m(&[3])
    );
    // the default 0 is dominated by 1 and 3, and 3 is undominated in the menu
    assert_eq!(Instance::StatusQuoUndominatedChoice(lin()).choice(m.view(), Some(Alt(0))), alts_m(&[3]));
    assert_eq!(
        Instance::StatusQuoUndominatedChoice(Preorder::diagonal(4)).choice(m.view(), Some(Alt(1))),
        alts_m(&[1])
    );
}

#[test]
fn choices_lie_in_the_menu() {
    let mut pre = Precomputed::new(None);
    pre.precompute(3).unwrap();
    let all = traverse_all(&pre, Model::PreorderMaximization(PreorderParams { strict: None, total: None }), 3, &[]).unwrap();
    assert_eq!(all.len(), 29);
    for inst in &all {
        for menu in [alts_m(&[0]), alts_m(&[0, 2]), alts_m(&[0, 1, 2])] {
            let c = inst.choice(menu.view(), None);
            assert!(c.view().is_subseteq_of(menu.view()));
        }
        // a reflexive relation chooses x from {x}
        assert_eq!(inst.choice(alts_m(&[1]).view(), None), alts_m(&[1]));
    }
}

#[test]
fn balance() {
    let mut pre = Precomputed::new(None);
    pre.precompute(4).unwrap();
    let all = traverse_all(&pre, Model::PreorderMaximization(PreorderParams { strict: None, total: None }), 4, &[]).unwrap();
    let m = all.iter().filter(|i| i.choice(alts_m(&[2]).view(), None).view().contains(Alt(3))).count();
    let n = all.iter().filter(|i| i.choice(alts_m(&[3]).view(), None).view().contains(Alt(2))).count();
    assert_eq!(m, n);
}

#[test]
fn unattractive() {
    let mut pre = Precomputed::new(None);
    pre.precompute(6).unwrap();
    for size in 0..6 {
        let all = traverse_all(&pre, Model::Unattractiveness(PreorderParams { strict: None, total: None }), size, &[]).unwrap();
        let mut seen = HashSet::new();
        for inst in &all {
            match inst {
                Instance::Unattractiveness { p, mask } => {
                    assert!(p.is_reflexive());
                    assert!(p.is_transitive());
                    seen.insert((format!("{:?}", p), format!("{:?}", mask)));
                }
                _ => panic!("wrong model"),
            }
        }
        assert_eq!(seen.len(), all.len());
    }
}

#[test]
fn penalty_bounds() {
    let rows = vec![row_m(&[0, 1], &[1]), row_m(&[0, 2], &[2]), row_m(&[1, 2], &[1])];
    let inst = Instance::PreorderMaximization(Preorder::from_values(&[0, 1, 2]));
    assert_eq!(inst.penalty(&rows), Penalty::exact(1));
    let src = Instance::SequentiallyRationalizableChoice(Preorder::diagonal(3), Preorder::from_values(&[0, 1, 2]));
    let wrong = vec![row_m(&[0, 1], &[0]), row_m(&[0, 2], &[0]), row_m(&[1, 2], &[1])];
    let p = src.penalty(&wrong);
    assert_eq!(p.upper_bound, 3);
    assert_eq!(p.lower_bound, 1);
    // partially dominant choice is not penalised at singleton menus
    let pdc = Instance::PartiallyDominantChoice { p: Preorder::diagonal(3), fc: false };
    assert_eq!(pdc.penalty(&[row_m(&[0], &[0])]), Penalty::exact(0));
    let mut a = Penalty { lower_bound: 3, upper_bound: 7 };
    a.merge_min(&Penalty { lower_bound: 4, upper_bound: 5 });
    assert_eq!(a, Penalty { lower_bound: 3, upper_bound: 5 });
}

#[test]
fn too_many_alternatives() {
    let pre = Precomputed::new(None);
    assert!(traverse_all(&pre, Model::TopTwo, 11, &[]).is_err());
    assert!(traverse_all(&pre, Model::UndominatedChoice { strict: true }, 3, &[]).is_err());
    assert_eq!(traverse_all(&pre, Model::TopTwo, 3, &[]).unwrap().len(), 6);
}

#[test]
fn undominated() {
    let mut precomputed = Precomputed::new(None);
    precomputed.precompute(5).unwrap();
    let models = [Model::UndominatedChoice { strict: true }];
    let subject = testsubj(5, vec![
        row_m(&[0, 1], &[0, 1]),
        row_m(&[0, 1, 3], &[0, 1]),
        row_m(&[0, 1, 4], &[0, 1]),
        row_m(&[1, 2], &[1, 2]),
        row_m(&[1, 2, 3], &[1, 2]),
        row_m(&[1, 2, 4], &[1, 2]),
        row_m(&[0, 2], &[0, 2]),
        row_m(&[0, 2, 3], &[0]),
        row_m(&[0, 2, 4], &[2]),
        row_m(&[0, 3], &[0]),
        row_m(&[1, 3], &[1]),
        row_m(&[2, 3], &[2]),
        row_m(&[0, 4], &[0]),
        row_m(&[1, 4], &[1]),
        row_m(&[2, 4], &[2]),
        row_m(&[3, 4], &[3]),
    ]);
    let response = run_one(&precomputed, &subject, &models).unwrap().unwrap();
    assert_eq!(response.score, Penalty::exact(2));
    assert_eq!(response.best_instances.len(), 3);

    let m = Model::UndominatedChoice { strict: true };
    let mut found: Vec<(Model, Penalty, Vec<u8>)> =
        response.best_instances.iter().map(|i| (i.model, i.penalty, encode_to_memory(&i.instance))).collect();
    found.sort_by(|a, b| a.2.cmp(&b.2));
    assert_eq!(found, vec![
        (m, Penalty::exact(2), vec![2, 5, 1, 2, 4, 15, 31]),
        (m, Penalty::exact(2), vec![2, 5, 1, 2, 5, 15, 31]),
        (m, Penalty::exact(2), vec![2, 5, 5, 2, 4, 15, 31]),
    ]);
}

#[test]
fn top_two() {
    let subject = testsubj(4, vec![
        row_m(&[0, 1, 2, 3], &[0, 1]),
        row_m(&[0, 1, 2], &[0, 1]),
        row_m(&[0, 1, 3], &[0, 1]),
        row_m(&[0, 2, 3], &[0, 2]),
        row_m(&[1, 2, 3], &[1, 2]),
        row_m(&[0, 1], &[0, 1]),
        row_m(&[0, 2], &[0, 2]),
        row_m(&[0, 3], &[0, 3]),
        row_m(&[1, 2], &[1, 2]),
        row_m(&[1, 3], &[1, 3]),
        row_m(&[2, 3], &[2, 3]),
    ]);
    let models = [Model::TopTwo];
    let mut precomputed = Precomputed::new(None);
    precomputed.precompute(4).unwrap();
    let response = run_one(&precomputed, &subject, &models).unwrap().unwrap();
    assert_eq!(response.score, Penalty::exact(0));
    assert_eq!(response.best_instances.len(), 2);
}

#[test]
fn seqrc() {
    let subject = testsubj(4, vec![
        row_m(&[0, 1, 2, 3], &[1]),
        row_m(&[0, 1, 2], &[1]),
        row_m(&[0, 1, 3], &[1]),
        row_m(&[0, 2, 3], &[0]),
        row_m(&[1, 2, 3], &[2]),
        row_m(&[0, 1], &[1]),
        row_m(&[0, 2], &[0]),
        row_m(&[0, 3], &[0]),
        row_m(&[1, 2], &[2]),
        row_m(&[1, 3], &[1]),
        row_m(&[2, 3], &[2]),
    ]);
    let models = [Model::SequentiallyRationalizableChoice];
    let mut precomputed = Precomputed::new(None);
    precomputed.precompute(4).unwrap();
    let response = run_one(&precomputed, &subject, &models).unwrap().unwrap();
    assert_eq!(response.score, Penalty::exact(0));
    assert_eq!(response.best_instances.len(), 11);

    let model = Model::SequentiallyRationalizableChoice;
    let penalty = Penalty::exact(0);
    let mut found: Vec<(Model, Penalty, Vec<u8>)> =
        response.best_instances.iter().map(|i| (i.model, i.penalty, encode_to_memory(&i.instance))).collect();
    found.sort_by(|a, b| a.2.cmp(&b.2));
    assert_eq!(found, vec![
        (model, penalty, vec![7, 4, 1, 2, 5, 9, 4, 7, 6, 4, 14]),
        (model, penalty, vec![7, 4, 1, 2, 5, 11, 4, 7, 6, 4, 12]),
        (model, penalty, vec![7, 4, 1, 2, 5, 11, 4, 7, 6, 4, 14]),
        (model, penalty, vec![7, 4, 1, 2, 5, 11, 4, 15, 6, 4, 12]),
        (model, penalty, vec![7, 4, 1, 2, 5, 13, 4, 7, 6, 4, 14]),
        (model, penalty, vec![7, 4, 1, 2, 5, 15, 4, 7, 6, 4, 8]),
        (model, penalty, vec![7, 4, 1, 2, 5, 15, 4, 7, 6, 4, 12]),
        (model, penalty, vec![7, 4, 1, 2, 5, 15, 4, 7, 6, 4, 14]),
        (model, penalty, vec![7, 4, 1, 2, 5, 15, 4, 15, 6, 4, 8]),
        (model, penalty, vec![7, 4, 1, 2, 5, 15, 4, 15, 6, 4, 12]),
        (model, penalty, vec![7, 4, 1, 2, 5, 15, 4, 15, 14, 4, 8]),
    ]);
}

#[test]
fn indecisive() {
    let mut precomputed = Precomputed::new(None);
    precomputed.precompute(5).unwrap();

    let models = [Model::PreorderMaximization(PreorderParams { strict: None, total: None })];
    let menus: Vec<Vec<u32>> = vec![
        vec![0, 1, 2, 3, 4], vec![0, 1, 2, 3], vec![0, 1, 2, 4], vec![0, 1, 3, 4], vec![0, 2, 3, 4], vec![1, 2, 3, 4],
        vec![0, 1, 2], vec![0, 1, 3], vec![0, 2, 3], vec![1, 2, 3], vec![0, 1, 4], vec![0, 2, 4], vec![1, 2, 4],
        vec![0, 3, 4], vec![1, 3, 4], vec![2, 3, 4], vec![3, 4], vec![2, 4], vec![1, 4], vec![0, 4], vec![2, 3],
        vec![1, 3], vec![0, 3], vec![1, 2], vec![0, 2], vec![0, 1],
    ];
    let mut rows: Vec<ChoiceRow> = menus.iter().map(|m| row_m(m, &[])).collect();
    for x in [4u32, 3, 2, 1, 0] {
        rows.push(row_m(&[x], &[x]));
    }
    let subject = testsubj(5, rows);

    // a 5-element diagonal, 8 bits per row
    let p = Preorder::from_fast_preorder(5, FastPreorder(0x1008040201));
    {
        let mut choice = alts_m(&[0, 1]);
        assert_eq!(choice, alts_m(&[0, 1]));
        let up0 = p.upset(Alt(0));
        assert_eq!(AltSet::from_alts(&up0.iter()), alts_m(&[0]));
        choice.intersect_with(up0);
        assert_eq!(choice, alts_m(&[0]));
        let up1 = p.upset(Alt(1));
        assert_eq!(AltSet::from_alts(&up1.iter()), alts_m(&[1]));
        choice.intersect_with(up1);
        assert_eq!(choice, alts_m(&[]));
    }

    let instance = Instance::PreorderMaximization(p);
    assert_eq!(instance.choice(alts_m(&[0, 1]).view(), None), alts_m(&[]));

    let response = run_one(&precomputed, &subject, &models).unwrap().unwrap();
    assert_eq!(response.score, Penalty::exact(0));
    assert_eq!(response.best_instances.len(), 1);
    let info = &response.best_instances[0];
    assert_eq!(info.model, Model::PreorderMaximization(PreorderParams { strict: None, total: None }));
    assert_eq!(info.penalty, Penalty::exact(0));
    assert_eq!(encode_to_memory(&info.instance), vec![0, 5, 1, 2, 4, 8, 16]);
}

#[test]
fn determine_model_of_instances() {
    let lin = Preorder::from_values(&[0, 1, 2]);
    assert_eq!(
        Instance::PreorderMaximization(lin).determine_model(),
        Model::PreorderMaximization(PreorderParams { strict: Some(true), total: Some(true) })
    );
    assert_eq!(
        Instance::UndominatedChoice(Preorder::diagonal(3)).determine_model(),
        Model::UndominatedChoice { strict: true }
    );
}
