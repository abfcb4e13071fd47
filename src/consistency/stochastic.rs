//! Stochastic consistency: stochastic transitivity and regularity of choice frequencies.
use vstd::prelude::*;
use crate::alt::Alt;
use crate::alt_set::{alts_below, AltSet};
use crate::common::{ChoiceRow, Subject};

verus! {

/// `an / ad < bn / bd`, for positive denominators.
pub open spec fn ratio_lt(an: int, ad: int, bn: int, bd: int) -> bool {
    an * bd < bn * ad
}

/// Relies on num_rational's `Ratio<u32>`: `Ratio::new` (which panics on a zero
/// denominator) and its order, which is the order of the rational numbers.
#[verifier::external_body]
fn ratio_less(an: u32, ad: u32, bn: u32, bd: u32) -> (r: bool)
    requires
        ad > 0,
        bd > 0,
    ensures
        r == ratio_lt(an as int, ad as int, bn as int, bd as int),
{
    num_rational::Ratio::new(an, ad) < num_rational::Ratio::new(bn, bd)
}

/// The number of the first `k` observations with menu `m`.
pub open spec fn menu_total(rows: Seq<ChoiceRow>, m: Set<Alt>, k: int) -> nat
    decreases k,
{
    if k <= 0 {
        0
    } else {
        menu_total(rows, m, k - 1) + if rows[k - 1].menu.alts() == m { 1nat } else { 0nat }
    }
}

/// The number of the first `k` observations with menu `m` that chose `a`.
pub open spec fn menu_count(rows: Seq<ChoiceRow>, m: Set<Alt>, a: Alt, k: int) -> nat
    decreases k,
{
    if k <= 0 {
        0
    } else {
        menu_count(rows, m, a, k - 1) + if rows[k - 1].menu.alts() == m && rows[k - 1].choice.alts().contains(a) {
            1nat
        } else {
            0nat
        }
    }
}

proof fn lemma_counts_bound(rows: Seq<ChoiceRow>, m: Set<Alt>, a: Alt, k: int)
    requires
        0 <= k,
    ensures
        menu_count(rows, m, a, k) <= menu_total(rows, m, k) <= k,
    decreases k,
{
    if k > 0 {
        lemma_counts_bound(rows, m, a, k - 1);
    }
}

/// How often each alternative was chosen from one menu.
#[derive(Clone, Debug)]
pub struct MenuStats {
    pub menu: AltSet,
    pub alt_counts: Vec<u32>,
    pub total: u32,
}

/// `stats` holds the frequencies of `rows` on `n` alternatives: one entry per distinct
/// menu, with the number of observations of that menu and of each alternative chosen.
pub open spec fn frequencies_of(stats: Seq<MenuStats>, rows: Seq<ChoiceRow>, n: int) -> bool {
    &&& forall|i: int, j: int| 0 <= i < j < stats.len() ==> (#[trigger] stats[i]).menu.alts() != (#[trigger] stats[j]).menu.alts()
    &&& forall|k: int| 0 <= k < rows.len() ==> has_stats(stats, (#[trigger] rows[k]).menu.alts())
    &&& forall|i: int| 0 <= i < stats.len() ==> {
        let s = #[trigger] stats[i];
        &&& s.alt_counts@.len() == n
        &&& s.total == menu_total(rows, s.menu.alts(), rows.len() as int)
        &&& s.total > 0
        &&& forall|a: int| 0 <= a < n ==> s.alt_counts@[a] == menu_count(rows, s.menu.alts(), Alt(a as u32), rows.len() as int)
    }
}

/// Some entry of `stats` is for menu `m`.
pub open spec fn has_stats(stats: Seq<MenuStats>, m: Set<Alt>) -> bool {
    exists|i: int| 0 <= i < stats.len() && (#[trigger] stats[i]).menu.alts() == m
}

/// The position of the entry for `menu`.
fn find_menu(menus: &Vec<AltSet>, menu: &AltSet) -> (r: Option<usize>)
    ensures
        r matches Some(i) ==> i < menus@.len() && menus@[i as int].alts() == menu.alts(),
        r is None ==> forall|i: int| 0 <= i < menus@.len() ==> (#[trigger] menus@[i]).alts() != menu.alts(),
{
    let mut i: usize = 0;
    while i < menus.len()
        invariant
            i <= menus@.len(),
            forall|j: int| 0 <= j < i ==> (#[trigger] menus@[j]).alts() != menu.alts(),
        decreases menus@.len() - i,
    {
        if menus[i] == *menu {
            return Some(i);
        }
        i = i + 1;
    }
    None
}

proof fn lemma_total_positive(rows: Seq<ChoiceRow>, m: Set<Alt>, j: int, k: int)
    requires
        0 <= j < k,
        rows[j].menu.alts() == m,
    ensures
        menu_total(rows, m, k) > 0,
    decreases k,
{
    if k - 1 > j {
        lemma_total_positive(rows, m, j, k - 1);
    }
}

/// Some menu of `menus` is `m`.
pub open spec fn has_menu(menus: Seq<AltSet>, m: Set<Alt>) -> bool {
    exists|i: int| 0 <= i < menus.len() && (#[trigger] menus[i]).alts() == m
}

/// Some observation among the first `k` of `rows` has menu `m`.
pub open spec fn observed(rows: Seq<ChoiceRow>, m: Set<Alt>, k: int) -> bool {
    exists|q: int| 0 <= q < k && (#[trigger] rows[q]).menu.alts() == m
}

/// The distinct menus of `rows`, in order of first appearance.
fn distinct_menus(rows: &[ChoiceRow]) -> (r: Vec<AltSet>)
    ensures
        forall|i: int, j: int| 0 <= i < j < r@.len() ==> (#[trigger] r@[i]).alts() != (#[trigger] r@[j]).alts(),
        forall|k: int| 0 <= k < rows@.len() ==> has_menu(r@, (#[trigger] rows@[k]).menu.alts()),
        forall|i: int| 0 <= i < r@.len() ==> observed(rows@, (#[trigger] r@[i]).alts(), rows@.len() as int),
        r@.len() <= rows@.len(),
{
    let mut menus: Vec<AltSet> = Vec::new();
    let mut k: usize = 0;
    while k < rows.len()
        invariant
            k <= rows@.len(),
            forall|i: int, j: int| 0 <= i < j < menus@.len() ==> (#[trigger] menus@[i]).alts() != (#[trigger] menus@[j]).alts(),
            forall|q: int| 0 <= q < k ==> has_menu(menus@, (#[trigger] rows@[q]).menu.alts()),
            forall|i: int| 0 <= i < menus@.len() ==> observed(rows@, (#[trigger] menus@[i]).alts(), k as int),
            menus@.len() <= k,
        decreases rows@.len() - k,
    {
        let ghost before = menus@;
        match find_menu(&menus, &rows[k].menu) {
            Some(_) => {},
            None => {
                menus.push(rows[k].menu.clone());
            },
        }
        proof {
            let last = before.len() as int;
            assert forall|i: int| 0 <= i < before.len() implies menus@[i] == before[i] by {}
            if menus@.len() > before.len() {
                assert(menus@[last].alts() == rows@[k as int].menu.alts());
                assert forall|i: int, j: int| 0 <= i < j < menus@.len() implies (#[trigger] menus@[i]).alts() != (#[trigger] menus@[j]).alts() by {
                    if j == last {
                        assert(menus@[i] == before[i]);
                    } else {
                        assert(menus@[i] == before[i]);
                        assert(menus@[j] == before[j]);
                    }
                }
            }
            assert forall|q: int| 0 <= q < k + 1 implies has_menu(menus@, (#[trigger] rows@[q]).menu.alts()) by {
                if q < k {
                    assert(has_menu(before, rows@[q].menu.alts()));
                    let i = choose|i: int| 0 <= i < before.len() && (#[trigger] before[i]).alts() == rows@[q].menu.alts();
                    assert(menus@[i] == before[i]);
                } else if menus@.len() > before.len() {
                    assert(menus@[last].alts() == rows@[q].menu.alts());
                }
            }
            assert forall|i: int| 0 <= i < menus@.len() implies observed(rows@, (#[trigger] menus@[i]).alts(), k + 1) by {
                if i < last {
                    assert(menus@[i] == before[i]);
                    assert(observed(rows@, before[i].alts(), k as int));
                    let q = choose|q: int| 0 <= q < k && (#[trigger] rows@[q]).menu.alts() == before[i].alts();
                } else {
                    assert(rows@[k as int].menu.alts() == menus@[i].alts());
                }
            }
        }
        k = k + 1;
    }
    menus
}

/// The number of observations with menu `menu`, and of those that chose `a` when given.
fn count_rows(rows: &[ChoiceRow], menu: &AltSet, a: Option<Alt>) -> (r: u32)
    requires
        rows@.len() <= u32::MAX,
    ensures
        a is None ==> r == menu_total(rows@, menu.alts(), rows@.len() as int),
        a matches Some(x) ==> r == menu_count(rows@, menu.alts(), x, rows@.len() as int),
{
    let mut r: u32 = 0;
    let mut k: usize = 0;
    while k < rows.len()
        invariant
            k <= rows@.len() <= u32::MAX,
            r <= k,
            a is None ==> r == menu_total(rows@, menu.alts(), k as int),
            a matches Some(x) ==> r == menu_count(rows@, menu.alts(), x, k as int),
        decreases rows@.len() - k,
    {
        let cr = &rows[k];
        if cr.menu == *menu {
            match a {
                None => {
                    r = r + 1;
                },
                Some(x) => {
                    if cr.choice.view().contains(x) {
                        r = r + 1;
                    }
                },
            }
        }
        k = k + 1;
    }
    r
}

/// The entry holds the frequencies of its menu in `rows`.
pub open spec fn entry_of(s: MenuStats, rows: Seq<ChoiceRow>, n: int) -> bool {
    &&& s.alt_counts@.len() == n
    &&& s.total == menu_total(rows, s.menu.alts(), rows.len() as int)
    &&& s.total > 0
    &&& forall|a: int| 0 <= a < n ==> #[trigger] s.alt_counts@[a] == menu_count(rows, s.menu.alts(), Alt(a as u32), rows.len() as int)
}

/// The frequencies of one observed menu.
fn stats_for(rows: &[ChoiceRow], menu: &AltSet, alt_count: u32) -> (r: MenuStats)
    requires
        rows@.len() <= u32::MAX,
        observed(rows@, menu.alts(), rows@.len() as int),
    ensures
        r.menu.alts() == menu.alts(),
        entry_of(r, rows@, alt_count as int),
{
    let total = count_rows(rows, menu, None);
    proof {
        let q = choose|q: int| 0 <= q < rows@.len() && (#[trigger] rows@[q]).menu.alts() == menu.alts();
        lemma_total_positive(rows@, menu.alts(), q, rows@.len() as int);
    }
    let mut counts: Vec<u32> = Vec::new();
    let mut a: u32 = 0;
    while a < alt_count
        invariant
            rows@.len() <= u32::MAX,
            a <= alt_count,
            counts@.len() == a,
            forall|j: int| 0 <= j < a ==> #[trigger] counts@[j] == menu_count(rows@, menu.alts(), Alt(j as u32), rows@.len() as int),
        decreases alt_count - a,
    {
        counts.push(count_rows(rows, menu, Some(Alt(a))));
        a = a + 1;
    }
    MenuStats { menu: menu.clone(), alt_counts: counts, total }
}

/// The choice frequencies of each distinct menu of `rows`.
pub fn frequencies(alt_count: u32, rows: &[ChoiceRow]) -> (r: Vec<MenuStats>)
    requires
        rows@.len() <= u32::MAX,
    ensures
        frequencies_of(r@, rows@, alt_count as int),
        r@.len() <= rows@.len(),
{
    let menus = distinct_menus(rows);
    let mut stats: Vec<MenuStats> = Vec::new();
    let mut i: usize = 0;
    while i < menus.len()
        invariant
            rows@.len() <= u32::MAX,
            i <= menus@.len(),
            stats@.len() == i,
            forall|p: int| 0 <= p < menus@.len() ==> observed(rows@, (#[trigger] menus@[p]).alts(), rows@.len() as int),
            forall|p: int, q: int| 0 <= p < q < menus@.len() ==> (#[trigger] menus@[p]).alts() != (#[trigger] menus@[q]).alts(),
            forall|k: int| 0 <= k < rows@.len() ==> has_menu(menus@, (#[trigger] rows@[k]).menu.alts()),
            forall|p: int| 0 <= p < i ==> (#[trigger] stats@[p]).menu.alts() == menus@[p].alts(),
            forall|p: int| 0 <= p < i ==> entry_of(#[trigger] stats@[p], rows@, alt_count as int),
        decreases menus@.len() - i,
    {
        let s = stats_for(rows, &menus[i], alt_count);
        stats.push(s);
        i = i + 1;
    }
    proof {
        assert forall|k: int| 0 <= k < rows@.len() implies has_stats(stats@, (#[trigger] rows@[k]).menu.alts()) by {
            assert(has_menu(menus@, rows@[k].menu.alts()));
            let p = choose|p: int| 0 <= p < menus@.len() && (#[trigger] menus@[p]).alts() == rows@[k].menu.alts();
            assert(stats@[p].menu.alts() == menus@[p].alts());
        }
        assert forall|p: int, q: int| 0 <= p < q < stats@.len() implies (#[trigger] stats@[p]).menu.alts() != (#[trigger] stats@[q]).menu.alts() by {
            assert(menus@[p].alts() != menus@[q].alts());
        }
        assert forall|p: int| 0 <= p < stats@.len() implies {
            let s = #[trigger] stats@[p];
            &&& s.alt_counts@.len() == alt_count
            &&& s.total == menu_total(rows@, s.menu.alts(), rows@.len() as int)
            &&& s.total > 0
            &&& forall|a: int| 0 <= a < alt_count ==> s.alt_counts@[a] == menu_count(rows@, s.menu.alts(), Alt(a as u32), rows@.len() as int)
        } by {
            assert(entry_of(stats@[p], rows@, alt_count as int));
        }
    }
    stats
}

/// The entry of `stats` for menu `m`, if any.
pub open spec fn lookup(stats: Seq<MenuStats>, m: Set<Alt>) -> Option<MenuStats> {
    if has_stats(stats, m) {
        Some(stats[choose|i: int| 0 <= i < stats.len() && (#[trigger] stats[i]).menu.alts() == m])
    } else {
        None
    }
}

/// The menu `{x, y}`.
pub open spec fn pair_menu(x: int, y: int) -> Set<Alt> {
    set![Alt(x as u32), Alt(y as u32)]
}

/// The frequency of `a` in entry `s`, as numerator and denominator.
pub open spec fn freq(s: MenuStats, a: int) -> (int, int) {
    (s.alt_counts@[a] as int, s.total as int)
}

/// `p >= 1/2`.
pub open spec fn at_least_half(p: (int, int)) -> bool {
    !ratio_lt(p.0, p.1, 1, 2)
}

/// `p < q`.
pub open spec fn less(p: (int, int), q: (int, int)) -> bool {
    ratio_lt(p.0, p.1, q.0, q.1)
}

/// The violations of weak, moderate and strong stochastic transitivity by the triple
/// `(a, b, c)`: with `p(a|ab) >= 1/2` and `p(b|bc) >= 1/2`, weak when `p(a|ac) < 1/2`,
/// moderate when `p(a|ac)` is below both, strong when below either.
pub open spec fn triple_violations(stats: Seq<MenuStats>, a: int, b: int, c: int) -> (bool, bool, bool) {
    match (lookup(stats, pair_menu(a, b)), lookup(stats, pair_menu(a, c)), lookup(stats, pair_menu(b, c))) {
        (Some(ab), Some(ac), Some(bc)) => {
            let pa_ab = freq(ab, a);
            let pa_ac = freq(ac, a);
            let pb_bc = freq(bc, b);
            if at_least_half(pa_ab) && at_least_half(pb_bc) {
                (
                    less(pa_ac, (1, 2)),
                    less(pa_ac, pa_ab) && less(pa_ac, pb_bc),
                    less(pa_ac, pa_ab) || less(pa_ac, pb_bc),
                )
            } else {
                (false, false, false)
            }
        },
        _ => (false, false, false),
    }
}

/// The triple numbered `t`, in lexicographic order, of alternatives below `n`.
pub open spec fn triple(n: int, t: int) -> (int, int, int) {
    (t / (n * n), (t / n) % n, t % n)
}

/// The violations by the first `t` triples of alternatives below `n`.
pub open spec fn transitivity_upto(stats: Seq<MenuStats>, n: int, t: int) -> (nat, nat, nat)
    decreases t,
{
    if t <= 0 {
        (0, 0, 0)
    } else {
        let prev = transitivity_upto(stats, n, t - 1);
        let (a, b, c) = triple(n, t - 1);
        let v = triple_violations(stats, a, b, c);
        (
            prev.0 + if v.0 { 1nat } else { 0nat },
            prev.1 + if v.1 { 1nat } else { 0nat },
            prev.2 + if v.2 { 1nat } else { 0nat },
        )
    }
}

proof fn lemma_transitivity_bound(stats: Seq<MenuStats>, n: int, t: int)
    requires
        0 <= t,
    ensures
        transitivity_upto(stats, n, t).0 <= t,
        transitivity_upto(stats, n, t).1 <= t,
        transitivity_upto(stats, n, t).2 <= t,
    decreases t,
{
    if t > 0 {
        lemma_transitivity_bound(stats, n, t - 1);
    }
}

/// The menu `{x, y}`.
fn pair_set(x: u32, y: u32) -> (r: AltSet)
    requires
        x < 2000,
        y < 2000,
    ensures
        r.alts() == pair_menu(x as int, y as int),
{
    let v: Vec<Alt> = vec![Alt(x), Alt(y)];
    let r = AltSet::from_alts(v.as_slice());
    proof {
        assert(v@[0] == Alt(x));
        assert(v@[1] == Alt(y));
        assert forall|z: Alt| #[trigger] v@.to_set().contains(z) == pair_menu(x as int, y as int).contains(z) by {
            if v@.contains(z) {
                let k = choose|k: int| 0 <= k < v@.len() && v@[k] == z;
            }
        }
        assert(v@.to_set() =~= pair_menu(x as int, y as int));
    }
    r
}

/// Counts of stochastic-transitivity violations.
#[derive(Clone, Copy, PartialEq, Eq, Structural, Debug)]
pub struct Transitivity {
    pub weak: u32,
    pub moderate: u32,
    pub strong: u32,
}

/// The entry for `m`, if any.
fn find_stats(stats: &Vec<MenuStats>, m: &AltSet, Ghost(rows): Ghost<Seq<ChoiceRow>>, Ghost(n): Ghost<int>) -> (r: Option<usize>)
    requires
        frequencies_of(stats@, rows, n),
    ensures
        r matches Some(i) ==> i < stats@.len() && lookup(stats@, m.alts()) == Some(stats@[i as int]),
        r is None ==> lookup(stats@, m.alts()) is None,
{
    let mut i: usize = 0;
    while i < stats.len()
        invariant
            i <= stats@.len(),
            frequencies_of(stats@, rows, n),
            forall|j: int| 0 <= j < i ==> (#[trigger] stats@[j]).menu.alts() != m.alts(),
        decreases stats@.len() - i,
    {
        if stats[i].menu == *m {
            proof {
                assert(has_stats(stats@, m.alts()));
                let c = choose|c: int| 0 <= c < stats@.len() && (#[trigger] stats@[c]).menu.alts() == m.alts();
                if c != i {
                    if c < i {
                        assert(stats@[c].menu.alts() != stats@[i as int].menu.alts());
                    } else {
                        assert(stats@[i as int].menu.alts() != stats@[c].menu.alts());
                    }
                }
            }
            return Some(i);
        }
        i = i + 1;
    }
    None
}

/// Counts the triples `(a, b, c)` of alternatives below `alt_count` whose binary menus
/// all occur and that violate weak, moderate or strong stochastic transitivity.
fn transitivity(alt_count: u32, stats: &Vec<MenuStats>, Ghost(rows): Ghost<Seq<ChoiceRow>>) -> (r: Transitivity)
    requires
        alt_count * alt_count * alt_count <= u32::MAX,
        frequencies_of(stats@, rows, alt_count as int),
    ensures
        r.weak == transitivity_upto(stats@, alt_count as int, alt_count * alt_count * alt_count).0,
        r.moderate == transitivity_upto(stats@, alt_count as int, alt_count * alt_count * alt_count).1,
        r.strong == transitivity_upto(stats@, alt_count as int, alt_count * alt_count * alt_count).2,
{
    let n = alt_count;
    proof {
        assert(n < 2000) by (nonlinear_arith)
            requires
                n * n * n <= u32::MAX,
        ;
        assert(n * n <= n * n * n || n == 0) by (nonlinear_arith);
    }
    let total = n * n * n;
    let mut r = Transitivity { weak: 0, moderate: 0, strong: 0 };
    let mut t: u32 = 0;
    while t < total
        invariant
            n == alt_count,
            n < 2000,
            total == n * n * n,
            total <= u32::MAX,
            frequencies_of(stats@, rows, n as int),
            t <= total,
            r.weak == transitivity_upto(stats@, n as int, t as int).0,
            r.moderate == transitivity_upto(stats@, n as int, t as int).1,
            r.strong == transitivity_upto(stats@, n as int, t as int).2,
        decreases total - t,
    {
        proof {
            lemma_transitivity_bound(stats@, n as int, t as int);
            assert(n > 0) by (nonlinear_arith)
                requires
                    t < n * n * n,
            ;
            assert(0 < n * n <= n * n * n) by (nonlinear_arith)
                requires
                    0 < n,
            ;
            vstd::arithmetic::div_mod::lemma_multiply_divide_lt(t as int, (n * n) as int, n as int);
        }
        let a = t / (n * n);
        let b = (t / n) % n;
        let c = t % n;
        let ab = pair_set(a, b);
        let ac = pair_set(a, c);
        let bc = pair_set(b, c);
        let f_ab = find_stats(stats, &ab, Ghost(rows), Ghost(n as int));
        let f_ac = find_stats(stats, &ac, Ghost(rows), Ghost(n as int));
        let f_bc = find_stats(stats, &bc, Ghost(rows), Ghost(n as int));
        let v = match (f_ab, f_ac, f_bc) {
            (Some(i_ab), Some(i_ac), Some(i_bc)) => {
                let s_ab = &stats[i_ab];
                let s_ac = &stats[i_ac];
                let s_bc = &stats[i_bc];
                proof {
                    assert(entry_of(stats@[i_ab as int], rows, n as int));
                    assert(entry_of(stats@[i_ac as int], rows, n as int));
                    assert(entry_of(stats@[i_bc as int], rows, n as int));
                }
                let pa_ab = (s_ab.alt_counts[a as usize], s_ab.total);
                let pa_ac = (s_ac.alt_counts[a as usize], s_ac.total);
                let pb_bc = (s_bc.alt_counts[b as usize], s_bc.total);
                if !ratio_less(pa_ab.0, pa_ab.1, 1, 2) && !ratio_less(pb_bc.0, pb_bc.1, 1, 2) {
                    let below_ab = ratio_less(pa_ac.0, pa_ac.1, pa_ab.0, pa_ab.1);
                    let below_bc = ratio_less(pa_ac.0, pa_ac.1, pb_bc.0, pb_bc.1);
                    (ratio_less(pa_ac.0, pa_ac.1, 1, 2), below_ab && below_bc, below_ab || below_bc)
                } else {
                    (false, false, false)
                }
            },
            _ => (false, false, false),
        };
        proof {
            assert(v == triple_violations(stats@, a as int, b as int, c as int));
        }
        if v.0 {
            r.weak = r.weak + 1;
        }
        if v.1 {
            r.moderate = r.moderate + 1;
        }
        if v.2 {
            r.strong = r.strong + 1;
        }
        t = t + 1;
    }
    r
}

/// The alternatives of entry `sa`'s menu chosen less often there than from the menu of
/// `sb`, when `sa`'s menu is a proper subset of `sb`'s; none otherwise.
pub open spec fn regularity_violations(sa: MenuStats, sb: MenuStats) -> Set<Alt> {
    if sa.menu.alts().subset_of(sb.menu.alts()) && sa.menu.alts() != sb.menu.alts() {
        sa.menu.alts().filter(|a: Alt| less(freq(sa, a.0 as int), freq(sb, a.0 as int)))
    } else {
        Set::empty()
    }
}

/// The regularity violations of the first `t` ordered pairs of entries of `stats`, the
/// pair numbered `t` being `(stats[t / m], stats[t % m])` for `m` entries.
pub open spec fn regularity_upto(stats: Seq<MenuStats>, t: int) -> nat
    decreases t,
{
    if t <= 0 {
        0
    } else {
        let m = stats.len() as int;
        regularity_upto(stats, t - 1) + regularity_violations(stats[(t - 1) % m], stats[(t - 1) / m]).len()
    }
}

/// The regularity violations of one pair of entries.
fn regularity_of(sa: &MenuStats, sb: &MenuStats, n: u32) -> (r: u32)
    requires
        sa.alt_counts@.len() == n,
        sb.alt_counts@.len() == n,
        sa.total > 0,
        sb.total > 0,
        sa.menu.alts().subset_of(alts_below(n as int)),
    ensures
        r == regularity_violations(*sa, *sb).len(),
        r <= n,
{
    if !sa.menu.view().is_strict_subset_of(sb.menu.view()) {
        proof {
            assert(regularity_violations(*sa, *sb) =~= Set::<Alt>::empty());
        }
        return 0;
    }
    let elems = sa.menu.view().iter();
    proof {
        assert forall|j: int| 0 <= j < elems@.len() implies (#[trigger] elems@[j]).0 < crate::alt_set::MAX_BLOCKS * 32 by {}
    }
    let ghost target = regularity_violations(*sa, *sb);
    let mut kept: Vec<Alt> = Vec::new();
    let mut k: usize = 0;
    proof {
        assert(elems@.subrange(0, 0).to_set() =~= Set::<Alt>::empty());
        assert(kept@.to_set() =~= Set::<Alt>::empty());
    }
    while k < elems.len()
        invariant
            k <= elems@.len(),
            forall|j: int| 0 <= j < elems@.len() ==> (#[trigger] elems@[j]).0 < crate::alt_set::MAX_BLOCKS * 32,
            sa.alt_counts@.len() == n,
            sb.alt_counts@.len() == n,
            sa.total > 0,
            sb.total > 0,
            sa.menu.alts().subset_of(alts_below(n as int)),
            sa.menu.alts().subset_of(sb.menu.alts()) && sa.menu.alts() != sb.menu.alts(),
            elems@.to_set() == sa.menu.alts(),
            target == regularity_violations(*sa, *sb),
            kept@.to_set() == target.intersect(elems@.subrange(0, k as int).to_set()),
            forall|j: int| 0 <= j < kept@.len() ==> (#[trigger] kept@[j]).0 < n && kept@[j].0 < crate::alt_set::MAX_BLOCKS * 32,
        decreases elems@.len() - k,
    {
        let a = elems[k];
        proof {
            assert(elems@.to_set().contains(a));
            crate::model::lemma_prefix_set(elems@, k as int);
        }
        let ghost before = kept@;
        if ratio_less(sa.alt_counts[a.0 as usize], sa.total, sb.alt_counts[a.0 as usize], sb.total) {
            kept.push(a);
            proof {
                before.lemma_push_to_set_commute(a);
            }
        }
        proof {
            assert(kept@.to_set() =~= target.intersect(elems@.subrange(0, k + 1).to_set()));
        }
        k = k + 1;
    }
    proof {
        crate::model::lemma_full_prefix(elems@);
        assert(kept@.to_set() =~= target);
        crate::alt_set::lemma_alts_below_finite(n as int);
        vstd::set_lib::lemma_len_subset(target, alts_below(n as int));
    }
    let set = AltSet::from_alts(kept.as_slice());
    set.size()
}

/// Counts, over ordered pairs of observed menus `A ⊂ B`, the alternatives of `A` chosen
/// less often from `A` than from `B`.
fn regularity(alt_count: u32, stats: &Vec<MenuStats>, Ghost(rows): Ghost<Seq<ChoiceRow>>) -> (r: u32)
    requires
        stats@.len() * stats@.len() * (alt_count + 1) <= u32::MAX,
        frequencies_of(stats@, rows, alt_count as int),
        forall|k: int| 0 <= k < rows.len() ==> (#[trigger] rows[k]).menu.alts().subset_of(alts_below(alt_count as int)),
    ensures
        r == regularity_upto(stats@, (stats@.len() * stats@.len()) as int),
{
    proof {
        let l = stats@.len();
        assert(l <= 0xffff) by (nonlinear_arith)
            requires
                l * l * (alt_count + 1) <= u32::MAX,
        ;
    }
    let m = stats.len() as u32;
    let n = alt_count;
    proof {
        assert(m * m <= m * m * (n + 1)) by (nonlinear_arith);
    }
    let total = m * m;
    let mut r: u32 = 0;
    let mut t: u32 = 0;
    while t < total
        invariant
            m == stats@.len(),
            n == alt_count,
            total == m * m,
            m * m * (n + 1) <= u32::MAX,
            frequencies_of(stats@, rows, n as int),
            forall|k: int| 0 <= k < rows.len() ==> (#[trigger] rows[k]).menu.alts().subset_of(alts_below(n as int)),
            t <= total,
            r == regularity_upto(stats@, t as int),
            r <= t * n,
        decreases total - t,
    {
        proof {
            assert(m > 0) by (nonlinear_arith)
                requires
                    t < m * m,
            ;
            vstd::arithmetic::div_mod::lemma_multiply_divide_lt(t as int, m as int, m as int);
        }
        let ib = (t / m) as usize;
        let ia = (t % m) as usize;
        proof {
            assert(entry_of(stats@[ia as int], rows, n as int));
            assert(entry_of(stats@[ib as int], rows, n as int));
            lemma_stats_menu_below(stats@, rows, n as int, ia as int);
            assert((t + 1) * n == t * n + n) by (nonlinear_arith);
            assert(t * n + n <= m * m * (n + 1)) by (nonlinear_arith)
                requires
                    0 <= t < m * m,
                    0 <= n,
            ;

        }
        let v = regularity_of(&stats[ia], &stats[ib], n);
        r = r + v;
        t = t + 1;
    }
    r
}

/// The menu of an entry is the menu of some observation, so below `n`.
proof fn lemma_stats_menu_below(stats: Seq<MenuStats>, rows: Seq<ChoiceRow>, n: int, i: int)
    requires
        0 <= i < stats.len(),
        frequencies_of(stats, rows, n),
        forall|k: int| 0 <= k < rows.len() ==> (#[trigger] rows[k]).menu.alts().subset_of(alts_below(n)),
    ensures
        stats[i].menu.alts().subset_of(alts_below(n)),
{
    let s = stats[i];
    assert(entry_of(s, rows, n));
    if !observed(rows, s.menu.alts(), rows.len() as int) {
        lemma_unobserved_total(rows, s.menu.alts(), rows.len() as int);
    }
    let q = choose|q: int| 0 <= q < rows.len() && (#[trigger] rows[q]).menu.alts() == s.menu.alts();
}

proof fn lemma_unobserved_total(rows: Seq<ChoiceRow>, m: Set<Alt>, k: int)
    requires
        0 <= k <= rows.len(),
        !observed(rows, m, k),
    ensures
        menu_total(rows, m, k) == 0,
    decreases k,
{
    if k > 0 {
        assert(!observed(rows, m, k - 1)) by {
            if observed(rows, m, k - 1) {
                let q = choose|q: int| 0 <= q < k - 1 && (#[trigger] rows[q]).menu.alts() == m;
                assert(observed(rows, m, k));
            }
        }
        lemma_unobserved_total(rows, m, k - 1);
        assert(rows[k - 1].menu.alts() != m) by {
            if rows[k - 1].menu.alts() == m {
                assert(observed(rows, m, k));
            }
        }
    }
}

/// The counts are those of the frequencies `stats` of `rows` on `n` alternatives.
pub open spec fn stochastic_summary(
    stats: Seq<MenuStats>,
    rows: Seq<ChoiceRow>,
    n: int,
    weak: u32,
    moderate: u32,
    strong: u32,
    regularity: u32,
) -> bool {
    &&& frequencies_of(stats, rows, n)
    &&& weak == transitivity_upto(stats, n, n * n * n).0
    &&& moderate == transitivity_upto(stats, n, n * n * n).1
    &&& strong == transitivity_upto(stats, n, n * n * n).2
    &&& regularity == regularity_upto(stats, (stats.len() * stats.len()) as int)
}

/// Stochastic transitivity violations and regularity violations of `choices`.
pub fn analyse(alt_count: u32, choices: &[ChoiceRow]) -> (r: (Transitivity, u32))
    requires
        alt_count * alt_count * alt_count <= u32::MAX,
        choices@.len() * choices@.len() * (alt_count + 1) <= u32::MAX,
        forall|k: int| 0 <= k < choices@.len() ==> (#[trigger] choices@[k]).menu.alts().subset_of(alts_below(alt_count as int)),
    ensures
        exists|stats: Seq<MenuStats>| stochastic_summary(stats, choices@, alt_count as int, r.0.weak, r.0.moderate, r.0.strong, r.1),
{
    proof {
        let l = choices@.len();
        assert(l <= 0xffff) by (nonlinear_arith)
            requires
                l * l * (alt_count + 1) <= u32::MAX,
        ;
    }
    let stats = frequencies(alt_count, choices);
    proof {
        let l = choices@.len();
        let s = stats@.len();
        assert(s * s * (alt_count + 1) <= l * l * (alt_count + 1)) by (nonlinear_arith)
            requires
                0 <= s <= l,
                0 <= alt_count,
        ;
    }
    let t = transitivity(alt_count, &stats, Ghost(choices@));
    let reg = regularity(alt_count, &stats, Ghost(choices@));
    let r = (t, reg);
    proof {
        assert(stochastic_summary(stats@, choices@, alt_count as int, r.0.weak, r.0.moderate, r.0.strong, r.1));
    }
    r
}

/// A subject's stochastic consistency.
#[derive(Clone, Debug)]
pub struct Response {
    pub subject_name: String,
    pub weak_stochastic_transitivity: u32,
    pub moderate_stochastic_transitivity: u32,
    pub strong_stochastic_transitivity: u32,
    pub regularity: u32,
}

/// The stochastic consistency of `subject`.
pub fn run(subject: &Subject) -> (r: Response)
    requires
        subject.alternatives@.len() * subject.alternatives@.len() * subject.alternatives@.len() <= u32::MAX,
        subject.choices@.len() * subject.choices@.len() * (subject.alternatives@.len() + 1) <= u32::MAX,
        forall|k: int| 0 <= k < subject.choices@.len() ==> (#[trigger] subject.choices@[k]).menu.alts().subset_of(alts_below(subject.alternatives@.len() as int)),
    ensures
        r.subject_name@ == subject.name@,
        exists|stats: Seq<MenuStats>| stochastic_summary(
            stats,
            subject.choices@,
            subject.alternatives@.len() as int,
            r.weak_stochastic_transitivity,
            r.moderate_stochastic_transitivity,
            r.strong_stochastic_transitivity,
            r.regularity,
        ),
{
    proof {
        let n = subject.alternatives@.len();
        assert(n < 2000) by (nonlinear_arith)
            requires
                n * n * n <= u32::MAX,
        ;
    }
    let alt_count = subject.alternatives.len() as u32;
    let (t, reg) = analyse(alt_count, subject.choices.as_slice());
    let r = Response {
        subject_name: subject.name.clone(),
        weak_stochastic_transitivity: t.weak,
        moderate_stochastic_transitivity: t.moderate,
        strong_stochastic_transitivity: t.strong,
        regularity: reg,
    };
    proof {
        let stats = choose|stats: Seq<MenuStats>| stochastic_summary(stats, subject.choices@, alt_count as int, t.weak, t.moderate, t.strong, reg);
        assert(stochastic_summary(
            stats,
            subject.choices@,
            subject.alternatives@.len() as int,
            r.weak_stochastic_transitivity,
            r.moderate_stochastic_transitivity,
            r.strong_stochastic_transitivity,
            r.regularity,
        ));
    }
    r
}

} // verus!
