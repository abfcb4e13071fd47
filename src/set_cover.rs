//! Greedy set cover.
use vstd::prelude::*;
use crate::alt::Alt;
use crate::alt_set::AltSet;

verus! {

/// The union of the sets of `sets` whose indices are in `chosen`.
pub open spec fn union_of(sets: Seq<AltSet>, chosen: Set<int>) -> Set<Alt> {
    Set::new(|a: Alt| exists|k: int| chosen.contains(k) && 0 <= k < sets.len() && #[trigger] sets[k].alts().contains(a))
}

/// The indices `0 .. n`.
pub open spec fn all_indices(n: int) -> Set<int> {
    Set::new(|k: int| 0 <= k < n)
}

/// The elements that the first `t` picks cover.
pub open spec fn covered_by(sets: Seq<AltSet>, picks: Seq<usize>, t: int) -> Set<Alt> {
    union_of(sets, picks.subrange(0, t).map_values(|i: usize| i as int).to_set())
}

/// The number of elements of set `i` outside `c`.
pub open spec fn gain(sets: Seq<AltSet>, i: int, c: Set<Alt>) -> int {
    sets[i].alts().difference(c).len() as int
}

/// Pick `t` covers at least one new element, as many as any set not picked before, and
/// more than any such set of lower index.
pub open spec fn greedy_pick(sets: Seq<AltSet>, picks: Seq<usize>, t: int) -> bool {
    let c = covered_by(sets, picks, t);
    &&& gain(sets, picks[t] as int, c) > 0
    &&& forall|i: int|
        0 <= i < sets.len() && !picks.subrange(0, t).contains(i as usize) ==> #[trigger] gain(sets, i, c) <= gain(sets, picks[t] as int, c)
            && (i < picks[t] ==> gain(sets, i, c) < gain(sets, picks[t] as int, c))
}

/// Chooses sets greedily, each time the one that covers the most elements not yet
/// covered, until the chosen sets cover the union of all. Returns their indices in the
/// order chosen.
pub fn greedy(sets: &[AltSet]) -> (r: Vec<usize>)
    ensures
        r@.no_duplicates(),
        forall|j: int| 0 <= j < r@.len() ==> (#[trigger] r@[j]) < sets@.len(),
        union_of(sets@, r@.map_values(|i: usize| i as int).to_set()) == union_of(sets@, all_indices(sets@.len() as int)),
        forall|t: int| 0 <= t < r@.len() ==> #[trigger] greedy_pick(sets@, r@, t),
{
    let mut universe = AltSet::empty();
    let mut k: usize = 0;
    while k < sets.len()
        invariant
            k <= sets@.len(),
            universe.alts() == union_of(sets@, all_indices(k as int)),
        decreases sets@.len() - k,
    {
        let ghost before = universe.alts();
        universe.union_with(sets[k].view());
        proof {
            assert forall|a: Alt| #[trigger] universe.alts().contains(a) == union_of(sets@, all_indices(k + 1)).contains(a) by {
                if union_of(sets@, all_indices(k + 1)).contains(a) {
                    let w = choose|w: int| all_indices(k + 1).contains(w) && 0 <= w < sets@.len() && #[trigger] sets@[w].alts().contains(a);
                    if w < k {
                        assert(all_indices(k as int).contains(w));
                    }
                }
                if before.contains(a) {
                    let w = choose|w: int| all_indices(k as int).contains(w) && 0 <= w < sets@.len() && #[trigger] sets@[w].alts().contains(a);
                    assert(all_indices(k + 1).contains(w));
                }
                if sets@[k as int].alts().contains(a) {
                    assert(all_indices(k + 1).contains(k as int));
                }
            }
            assert(universe.alts() =~= union_of(sets@, all_indices(k + 1)));
        }
        k = k + 1;
    }
    let mut covered = AltSet::empty();
    let mut selected: Vec<usize> = Vec::new();
    let mut chosen: Vec<bool> = Vec::new();
    let mut k: usize = 0;
    while k < sets.len()
        invariant
            k <= sets@.len(),
            chosen@.len() == k,
            forall|j: int| 0 <= j < k ==> !chosen@[j],
        decreases sets@.len() - k,
    {
        chosen.push(false);
        k = k + 1;
    }
    proof {
        assert(covered.alts() =~= union_of(sets@, selected@.map_values(|i: usize| i as int).to_set()));
    }
    while !(covered == universe)
        invariant
            chosen@.len() == sets@.len(),
            universe.alts() == union_of(sets@, all_indices(sets@.len() as int)),
            covered.alts() == union_of(sets@, selected@.map_values(|i: usize| i as int).to_set()),
            selected@.no_duplicates(),
            forall|j: int| 0 <= j < selected@.len() ==> (#[trigger] selected@[j]) < sets@.len(),
            forall|j: int| 0 <= j < sets@.len() ==> (#[trigger] chosen@[j] <==> selected@.contains(j as usize)),
            forall|t: int| 0 <= t < selected@.len() ==> #[trigger] greedy_pick(sets@, selected@, t),
        decreases sets@.len() - selected@.len(),
    {
        proof {
            // an uncovered element lies in some set that is not chosen yet
            lemma_cover_subset(sets@, selected@);
            assert(!(universe.alts() =~= covered.alts()));
            let a = choose|a: Alt| universe.alts().contains(a) != covered.alts().contains(a);
            assert(universe.alts().contains(a));
            let w = choose|w: int| all_indices(sets@.len() as int).contains(w) && 0 <= w < sets@.len() && #[trigger] sets@[w].alts().contains(a);
            lemma_selected_bound(selected@, sets@.len() as int);
        }
        let mut best_score: u32 = 0;
        let mut best_index: usize = 0;
        let mut i: usize = 0;
        while i < sets.len()
            invariant
                chosen@.len() == sets@.len(),
                i <= sets@.len(),
                best_score > 0 ==> best_index < sets@.len() && !chosen@[best_index as int],
                best_score == 0 ==> forall|j: int| 0 <= j < i && !chosen@[j] ==> sets@[j].alts().subset_of(covered.alts()),
                best_score > 0 ==> best_score == gain(sets@, best_index as int, covered.alts()) && best_index < i,
                best_score == 0 ==> best_index == 0,
                forall|j: int| 0 <= j < i && !chosen@[j] ==> #[trigger] gain(sets@, j, covered.alts()) <= best_score
                    && (j < best_index ==> gain(sets@, j, covered.alts()) < best_score),
            decreases sets@.len() - i,
        {
            if !chosen[i] {
                let mut rest = sets[i].clone();
                rest.difference_with(covered.view());
                let score = rest.size();
                proof {
                    assert(rest.alts() == sets@[i as int].alts().difference(covered.alts()));
                    assert(score == gain(sets@, i as int, covered.alts()));
                }
                let ghost old_best = best_score;
                let ghost old_index = best_index;
                if score > best_score {
                    best_score = score;
                    best_index = i;
                }
                proof {
                    assert forall|j: int| 0 <= j < i + 1 && !chosen@[j] implies #[trigger] gain(sets@, j, covered.alts()) <= best_score
                        && (j < best_index ==> gain(sets@, j, covered.alts()) < best_score) by {
                        if j < i {
                            assert(gain(sets@, j, covered.alts()) <= old_best);
                            if score > old_best {
                                assert(gain(sets@, j, covered.alts()) < best_score);
                            } else if j < best_index {
                                assert(best_index == old_index);
                            }
                        } else {
                            assert(j == i);
                            assert(gain(sets@, j, covered.alts()) == score);
                            if old_best > 0 {
                                assert(old_index < i);
                            }
                        }
                    }
                }
                proof {
                    if score == 0 {
                        assert forall|a: Alt| sets@[i as int].alts().contains(a) implies covered.alts().contains(a) by {
                            if !covered.alts().contains(a) {
                                assert(rest.alts().contains(a));
                                vstd::set_lib::lemma_set_empty_equivalency_len(rest.alts());
                            }
                        }
                    }
                }
            }
            i = i + 1;
        }
        proof {
            if best_score == 0 {
                let a = choose|a: Alt| universe.alts().contains(a) != covered.alts().contains(a);
                let w = choose|w: int| all_indices(sets@.len() as int).contains(w) && 0 <= w < sets@.len() && #[trigger] sets@[w].alts().contains(a);
                if chosen@[w] {
                    let j = choose|j: int| 0 <= j < selected@.len() && selected@[j] == w as usize;
                    assert(selected@.map_values(|i: usize| i as int)[j] == w);
                    assert(selected@.map_values(|i: usize| i as int).to_set().contains(w));
                    assert(covered.alts().contains(a));
                } else {
                    assert(sets@[w].alts().subset_of(covered.alts()));
                }
                assert(false);
            }
        }
        let ghost old_sel = selected@;
        let ghost old_cov = covered.alts();
        let ghost chosen_before = chosen@;
        proof {
            assert(!chosen@[best_index as int]);
            assert(!old_sel.contains(best_index));
            assert(old_sel.subrange(0, old_sel.len() as int) =~= old_sel);
        }
        covered.union_with(sets[best_index].view());
        selected.push(best_index);
        chosen.set(best_index, true);
        proof {
            let m_old = old_sel.map_values(|i: usize| i as int);
            let m_new = selected@.map_values(|i: usize| i as int);
            assert forall|j: int| 0 <= j < m_new.len() implies m_new[j] == m_old.push(best_index as int)[j] by {
                if j < old_sel.len() {
                    assert(selected@[j] == old_sel[j]);
                }
            }
            assert(m_new =~= m_old.push(best_index as int));
            m_old.lemma_push_to_set_commute(best_index as int);
            assert forall|a: Alt| #[trigger] covered.alts().contains(a) == union_of(sets@, m_new.to_set()).contains(a) by {
                if union_of(sets@, m_new.to_set()).contains(a) {
                    let w = choose|w: int| m_new.to_set().contains(w) && 0 <= w < sets@.len() && #[trigger] sets@[w].alts().contains(a);
                    if w != best_index as int {
                        assert(m_old.to_set().contains(w));
                    }
                }
                if old_cov.contains(a) {
                    let w = choose|w: int| m_old.to_set().contains(w) && 0 <= w < sets@.len() && #[trigger] sets@[w].alts().contains(a);
                    assert(m_new.to_set().contains(w));
                }
                if sets@[best_index as int].alts().contains(a) {
                    assert(m_new.to_set().contains(best_index as int));
                }
            }
            assert(covered.alts() =~= union_of(sets@, m_new.to_set()));
            assert forall|x: int, y: int| 0 <= x < selected@.len() && 0 <= y < selected@.len() && x != y implies selected@[x] != selected@[y] by {
                if x == old_sel.len() {
                    assert(selected@[y] == old_sel[y]);
                } else if y == old_sel.len() {
                    assert(selected@[x] == old_sel[x]);
                }
            }
            assert forall|t: int| 0 <= t < selected@.len() implies #[trigger] greedy_pick(sets@, selected@, t) by {
                assert(selected@.subrange(0, t) == if t < old_sel.len() { old_sel.subrange(0, t) } else { old_sel });
                if t < old_sel.len() {
                    assert(selected@[t] == old_sel[t]);
                    assert(greedy_pick(sets@, old_sel, t));
                } else {
                    assert(selected@[t] == best_index);
                    assert(covered_by(sets@, selected@, t) == old_cov);
                    assert forall|i: int| 0 <= i < sets@.len() && !selected@.subrange(0, t).contains(i as usize) implies #[trigger] gain(sets@, i, old_cov) <= gain(sets@, best_index as int, old_cov)
                        && (i < best_index ==> gain(sets@, i, old_cov) < gain(sets@, best_index as int, old_cov)) by {
                        assert(!old_sel.contains(i as usize));
                        assert(!chosen_before[i]);
                    }
                }
            }
            lemma_selected_bound(selected@, sets@.len() as int);
            assert forall|j: int| 0 <= j < sets@.len() implies (#[trigger] chosen@[j] <==> selected@.contains(j as usize)) by {
                if j == best_index {
                    assert(selected@[old_sel.len() as int] == j as usize);
                } else {
                    if selected@.contains(j as usize) {
                        let x = choose|x: int| 0 <= x < selected@.len() && selected@[x] == j as usize;
                        assert(old_sel[x] == j as usize);
                    }
                    if old_sel.contains(j as usize) {
                        let x = choose|x: int| 0 <= x < old_sel.len() && old_sel[x] == j as usize;
                        assert(selected@[x] == j as usize);
                    }
                }
            }
        }
    }
    selected
}

/// The chosen sets cover no more than all of them.
proof fn lemma_cover_subset(sets: Seq<AltSet>, selected: Seq<usize>)
    ensures
        union_of(sets, selected.map_values(|i: usize| i as int).to_set()).subset_of(
            union_of(sets, all_indices(sets.len() as int)),
        ),
{
}

/// Distinct indices below `n` are at most `n`.
proof fn lemma_selected_bound(selected: Seq<usize>, n: int)
    requires
        0 <= n,
        selected.no_duplicates(),
        forall|j: int| 0 <= j < selected.len() ==> (#[trigger] selected[j]) < n,
    ensures
        selected.len() <= n,
{
    let s = selected.map_values(|i: usize| i as int).to_set();
    assert(selected.map_values(|i: usize| i as int).no_duplicates());
    selected.map_values(|i: usize| i as int).unique_seq_to_set();
    assert(s.subset_of(all_indices(n)));
    vstd::set_lib::lemma_int_range(0, n);
    assert(all_indices(n) =~= vstd::set_lib::set_int_range(0, n));
    vstd::set_lib::lemma_len_subset(s, all_indices(n));
}

} // verus!
