//! The choice models, their instances, and the penalty of an instance against observations.
use vstd::prelude::*;
use crate::alt::Alt;
use crate::alt_set::{alts_below, set_of, AltSet, AltSetView, MAX_BLOCKS};
use crate::common::ChoiceRow;
use crate::preorder::{differ, identity_rel, lt_spec, pairwise_differ, rank, reflexive, same_relation, strict, total, transitive, Preorder, MAX_ALTS};
use crate::precomputed::{Error as PreorderError, Precomputed};
use crate::linear_preorders::{self, linear_order};

use crate::bits::bit;

verus! {

/// Requirements on the relations a model ranges over: `None` leaves a property open.
#[derive(Clone, Copy, PartialEq, Eq, Structural, PartialOrd, Ord, Hash, Debug)]
pub struct PreorderParams {
    pub strict: Option<bool>,
    pub total: Option<bool>,
}

/// The supported choice models.
#[derive(Clone, Copy, PartialEq, Eq, Structural, PartialOrd, Ord, Hash, Debug)]
pub enum Model {
    PreorderMaximization(PreorderParams),
    Unattractiveness(PreorderParams),
    UndominatedChoice { strict: bool },
    /// With `fc` (forced choice), a menu of incomparable alternatives is chosen whole;
    /// without, nothing is chosen from it.
    PartiallyDominantChoice { fc: bool },
    StatusQuoUndominatedChoice,
    Overload(PreorderParams),
    TopTwo,
    SequentiallyRationalizableChoice,
    HybridDomination { strict: bool },
}

/// A model together with its relation(s) and auxiliary parameters.
#[derive(Clone, Debug, Hash)]
pub enum Instance {
    PreorderMaximization(Preorder),
    Unattractiveness { p: Preorder, mask: AltSet },
    UndominatedChoice(Preorder),
    PartiallyDominantChoice { p: Preorder, fc: bool },
    StatusQuoUndominatedChoice(Preorder),
    Overload { p: Preorder, limit: u32 },
    TopTwo(Preorder),
    SequentiallyRationalizableChoice(Preorder, Preorder),
    HybridDomination(Preorder),
}

/// The alternatives of `m` that are `≥` every alternative of `m`.
pub open spec fn maximization(p: &Preorder, m: Set<Alt>) -> Set<Alt> {
    m.filter(|x: Alt| forall|y: Alt| m.contains(y) ==> p.le(y.0 as int, x.0 as int))
}

/// The alternatives of `m` that no alternative of `m` strictly dominates.
pub open spec fn undominated(p: &Preorder, m: Set<Alt>) -> Set<Alt> {
    m.filter(|x: Alt| forall|y: Alt| m.contains(y) ==> !lt_spec(p, x.0 as int, y.0 as int))
}

/// The undominated alternatives of `m` that dominate some alternative of `m`.
pub open spec fn partially_dominant(p: &Preorder, m: Set<Alt>) -> Set<Alt> {
    m.filter(
        |x: Alt|
            (forall|y: Alt| m.contains(y) ==> !lt_spec(p, x.0 as int, y.0 as int)) && (exists|y: Alt|
                m.contains(y) && lt_spec(p, y.0 as int, x.0 as int)),
    )
}

/// The alternatives of `m` with at most one alternative of `m` strictly above them.
pub open spec fn top_two(p: &Preorder, m: Set<Alt>) -> Set<Alt> {
    m.filter(|x: Alt| !two_above(p, m, x))
}

/// Two distinct alternatives of `m` are strictly above `x`.
pub open spec fn two_above(p: &Preorder, m: Set<Alt>, x: Alt) -> bool {
    exists|y: Alt, z: Alt|
        #![trigger m.contains(y), m.contains(z)]
        m.contains(y) && m.contains(z) && y != z && lt_spec(p, x.0 as int, y.0 as int) && lt_spec(
            p,
            x.0 as int,
            z.0 as int,
        )
}

/// Status-quo biased undominated choice with default `d`.
pub open spec fn status_quo(p: &Preorder, m: Set<Alt>, d: Alt) -> Set<Alt> {
    if forall|y: Alt| m.contains(y) ==> !lt_spec(p, d.0 as int, y.0 as int) {
        set![d]
    } else {
        improvements(p, m, d)
    }
}

/// The alternatives strictly above `d` that nothing of `m` strictly dominates.
pub open spec fn improvements(p: &Preorder, m: Set<Alt>, d: Alt) -> Set<Alt> {
    Set::new(
        |x: Alt|
            x.0 < p.n() && lt_spec(p, d.0 as int, x.0 as int) && forall|y: Alt|
                m.contains(y) ==> !lt_spec(p, x.0 as int, y.0 as int),
    )
}

/// What an instance chooses from menu `m` with default `d`.
pub open spec fn choice_spec(inst: &Instance, m: Set<Alt>, d: Option<Alt>) -> Set<Alt> {
    match inst {
        Instance::PreorderMaximization(p) => maximization(p, m),
        Instance::Unattractiveness { p, mask } => maximization(p, m).intersect(mask.alts()),
        Instance::UndominatedChoice(p) => undominated(p, m),
        Instance::PartiallyDominantChoice { p, fc } => {
            let s = partially_dominant(p, m);
            if s == Set::<Alt>::empty() && *fc {
                m
            } else {
                s
            }
        },
        Instance::HybridDomination(p) => {
            let c = maximization(p, m);
            if c != Set::<Alt>::empty() {
                c
            } else {
                undominated(p, m)
            }
        },
        Instance::StatusQuoUndominatedChoice(p) => status_quo(p, m, d.unwrap()),
        Instance::Overload { p, limit } => if m.len() > *limit {
            Set::<Alt>::empty()
        } else {
            maximization(p, m)
        },
        Instance::TopTwo(p) => if m.len() <= 2 {
            m
        } else {
            top_two(p, m)
        },
        Instance::SequentiallyRationalizableChoice(p, q) => undominated(q, undominated(p, m)),
    }
}

impl Instance {
    /// The number of alternatives the instance's relations range over.
    pub open spec fn alt_count(&self) -> int {
        match self {
            Instance::PreorderMaximization(p) => p.n(),
            Instance::Unattractiveness { p, .. } => p.n(),
            Instance::UndominatedChoice(p) => p.n(),
            Instance::PartiallyDominantChoice { p, .. } => p.n(),
            Instance::StatusQuoUndominatedChoice(p) => p.n(),
            Instance::Overload { p, .. } => p.n(),
            Instance::TopTwo(p) => p.n(),
            Instance::SequentiallyRationalizableChoice(p, _) => p.n(),
            Instance::HybridDomination(p) => p.n(),
        }
    }

    /// The relations are well formed, and those of a sequentially rationalizable
    /// instance range over the same alternatives.
    pub open spec fn wf(&self) -> bool {
        match self {
            Instance::PreorderMaximization(p) => p.wf(),
            Instance::Unattractiveness { p, .. } => p.wf(),
            Instance::UndominatedChoice(p) => p.wf(),
            Instance::PartiallyDominantChoice { p, .. } => p.wf(),
            Instance::StatusQuoUndominatedChoice(p) => p.wf(),
            Instance::Overload { p, .. } => p.wf(),
            Instance::TopTwo(p) => p.wf(),
            Instance::SequentiallyRationalizableChoice(p, q) => p.wf() && q.wf() && p.n() == q.n(),
            Instance::HybridDomination(p) => p.wf(),
        }
    }

    /// `m` and `d` are a valid question for this instance: a non-empty menu of its
    /// alternatives, with a default from the menu where the model needs one.
    pub open spec fn valid_menu(&self, m: Set<Alt>, d: Option<Alt>) -> bool {
        &&& m.subset_of(alts_below(self.alt_count()))
        &&& m != Set::<Alt>::empty()
        &&& (self is StatusQuoUndominatedChoice ==> d.is_some() && m.contains(d.unwrap()))
        &&& (self is SequentiallyRationalizableChoice ==> choice_spec(self, m, d).len() == 1)
    }
}


/// The first `k` elements of `s`, as a set, grow one element at a time.
pub proof fn lemma_prefix_set(s: Seq<Alt>, k: int)
    requires
        0 <= k < s.len(),
    ensures
        s.subrange(0, k + 1).to_set() == s.subrange(0, k).to_set().insert(s[k]),
{
    assert(s.subrange(0, k + 1) =~= s.subrange(0, k).push(s[k]));
    s.subrange(0, k).lemma_push_to_set_commute(s[k]);
}

pub proof fn lemma_full_prefix(s: Seq<Alt>)
    ensures
        s.subrange(0, s.len() as int) == s,
{
    assert(s.subrange(0, s.len() as int) =~= s);
}

/// Some alternative of `elems` is strictly above `x`.
fn any_above(p: &Preorder, x: Alt, elems: &Vec<Alt>) -> (r: bool)
    requires
        p.wf(),
        x.0 < p.n(),
        forall|j: int| 0 <= j < elems@.len() ==> (#[trigger] elems@[j]).0 < p.n(),
    ensures
        r == exists|y: Alt| elems@.to_set().contains(y) && lt_spec(p, x.0 as int, y.0 as int),
{
    let mut k: usize = 0;
    while k < elems.len()
        invariant
            k <= elems@.len(),
            p.wf(),
            x.0 < p.n(),
            forall|j: int| 0 <= j < elems@.len() ==> (#[trigger] elems@[j]).0 < p.n(),
            forall|j: int| 0 <= j < k ==> !lt_spec(p, x.0 as int, (#[trigger] elems@[j]).0 as int),
        decreases elems@.len() - k,
    {
        if p.lt(x, elems[k]) {
            proof {
                assert(elems@.to_set().contains(elems@[k as int]));
            }
            return true;
        }
        k = k + 1;
    }
    proof {
        assert forall|y: Alt| elems@.to_set().contains(y) implies !lt_spec(p, x.0 as int, y.0 as int) by {
            let j = choose|j: int| 0 <= j < elems@.len() && elems@[j] == y;
        }
    }
    false
}

/// Some alternative of `elems` is strictly below `x`.
fn any_below(p: &Preorder, x: Alt, elems: &Vec<Alt>) -> (r: bool)
    requires
        p.wf(),
        x.0 < p.n(),
        forall|j: int| 0 <= j < elems@.len() ==> (#[trigger] elems@[j]).0 < p.n(),
    ensures
        r == exists|y: Alt| elems@.to_set().contains(y) && lt_spec(p, y.0 as int, x.0 as int),
{
    let mut k: usize = 0;
    while k < elems.len()
        invariant
            k <= elems@.len(),
            p.wf(),
            x.0 < p.n(),
            forall|j: int| 0 <= j < elems@.len() ==> (#[trigger] elems@[j]).0 < p.n(),
            forall|j: int| 0 <= j < k ==> !lt_spec(p, (#[trigger] elems@[j]).0 as int, x.0 as int),
        decreases elems@.len() - k,
    {
        if p.lt(elems[k], x) {
            proof {
                assert(elems@.to_set().contains(elems@[k as int]));
            }
            return true;
        }
        k = k + 1;
    }
    proof {
        assert forall|y: Alt| elems@.to_set().contains(y) implies !lt_spec(p, y.0 as int, x.0 as int) by {
            let j = choose|j: int| 0 <= j < elems@.len() && elems@[j] == y;
        }
    }
    false
}

/// Preorder maximization: the alternatives of the menu that are `≥` all of it.
pub fn preorder_maximization(p: &Preorder, menu: AltSetView) -> (r: AltSet)
    requires
        p.wf(),
        menu.wf(),
        menu@.subset_of(alts_below(p.n())),
    ensures
        r.alts() == maximization(p, menu@),
{
    let elems = menu.iter();
    let mut result = AltSet::from_view(menu);
    let mut k: usize = 0;
    while k < elems.len()
        invariant
            k <= elems@.len(),
            p.wf(),
            menu@.subset_of(alts_below(p.n())),
            elems@.to_set() == menu@,
            result.alts() == menu@.filter(|x: Alt| forall|j: int| 0 <= j < k ==> p.le(elems@[j].0 as int, x.0 as int)),
        decreases elems@.len() - k,
    {
        let ghost before = result.alts();
        proof {
            assert(elems@.to_set().contains(elems@[k as int]));
        }
        let up = p.upset(elems[k]);
        result.intersect_with(up);
        proof {
            assert(result.alts() =~= menu@.filter(|x: Alt| forall|j: int| 0 <= j < k + 1 ==> p.le(elems@[j].0 as int, x.0 as int)));
        }
        k = k + 1;
    }
    proof {
        assert forall|x: Alt| menu@.contains(x) implies (forall|j: int| 0 <= j < elems@.len() ==> p.le(elems@[j].0 as int, x.0 as int)) == (forall|y: Alt| menu@.contains(y) ==> p.le(y.0 as int, x.0 as int)) by {
            if forall|j: int| 0 <= j < elems@.len() ==> p.le(elems@[j].0 as int, x.0 as int) {
                assert forall|y: Alt| menu@.contains(y) implies p.le(y.0 as int, x.0 as int) by {
                    assert(elems@.to_set().contains(y));
                    let j = choose|j: int| 0 <= j < elems@.len() && elems@[j] == y;
                }
            }
            if forall|y: Alt| menu@.contains(y) ==> p.le(y.0 as int, x.0 as int) {
                assert forall|j: int| 0 <= j < elems@.len() implies p.le(elems@[j].0 as int, x.0 as int) by {
                    assert(elems@.to_set().contains(elems@[j]));
                }
            }
        }
        assert(result.alts() =~= maximization(p, menu@));
    }
    result
}

/// Undominated choice: the alternatives of the menu with nothing of the menu strictly above.
pub fn undominated_choice(p: &Preorder, menu: AltSetView) -> (r: AltSet)
    requires
        p.wf(),
        menu.wf(),
        menu@.subset_of(alts_below(p.n())),
    ensures
        r.alts() == undominated(p, menu@),
{
    let elems = menu.iter();
    let mut out: Vec<Alt> = Vec::new();
    let mut k: usize = 0;
    proof {
        assert(elems@.subrange(0, 0).to_set() =~= Set::<Alt>::empty());
        assert(out@.to_set() =~= Set::<Alt>::empty());
    }
    while k < elems.len()
        invariant
            k <= elems@.len(),
            p.wf(),
            menu@.subset_of(alts_below(p.n())),
            elems@.to_set() == menu@,
            out@.to_set() == undominated(p, menu@).intersect(elems@.subrange(0, k as int).to_set()),
            forall|j: int| 0 <= j < out@.len() ==> (#[trigger] out@[j]).0 < p.n(),
        decreases elems@.len() - k,
    {
        let x = elems[k];
        proof {
            assert(elems@.to_set().contains(x));
            assert forall|j: int| 0 <= j < elems@.len() implies (#[trigger] elems@[j]).0 < p.n() by {
                assert(elems@.to_set().contains(elems@[j]));
            }
            lemma_prefix_set(elems@, k as int);
        }
        let ghost before = out@;
        if !any_above(p, x, &elems) {
            out.push(x);
            proof {
                before.lemma_push_to_set_commute(x);
            }
        }
        proof {
            assert(out@.to_set() =~= undominated(p, menu@).intersect(elems@.subrange(0, k + 1).to_set()));
        }
        k = k + 1;
    }
    proof {
        lemma_full_prefix(elems@);
        assert(out@.to_set() =~= undominated(p, menu@));
        p.lemma_wf_bound();
    }
    AltSet::from_alts(out.as_slice())
}


/// The alternatives of `elems` whose flag is set.
fn collect_kept(elems: &Vec<Alt>, keep: &Vec<bool>, Ghost(target): Ghost<Set<Alt>>) -> (r: AltSet)
    requires
        elems@.len() == keep@.len(),
        forall|j: int| 0 <= j < elems@.len() ==> keep@[j] == target.contains(#[trigger] elems@[j]),
        target.subset_of(elems@.to_set()),
        forall|j: int| 0 <= j < elems@.len() ==> (#[trigger] elems@[j]).0 < MAX_BLOCKS * 32,
    ensures
        r.alts() == target,
{
    let mut out: Vec<Alt> = Vec::new();
    let mut k: usize = 0;
    proof {
        assert(elems@.subrange(0, 0).to_set() =~= Set::<Alt>::empty());
        assert(out@.to_set() =~= Set::<Alt>::empty());
    }
    while k < elems.len()
        invariant
            k <= elems@.len(),
            elems@.len() == keep@.len(),
            forall|j: int| 0 <= j < elems@.len() ==> keep@[j] == target.contains(#[trigger] elems@[j]),
            forall|j: int| 0 <= j < elems@.len() ==> (#[trigger] elems@[j]).0 < MAX_BLOCKS * 32,
            out@.to_set() == target.intersect(elems@.subrange(0, k as int).to_set()),
            forall|j: int| 0 <= j < out@.len() ==> (#[trigger] out@[j]).0 < MAX_BLOCKS * 32,
        decreases elems@.len() - k,
    {
        proof {
            lemma_prefix_set(elems@, k as int);
        }
        let ghost before = out@;
        if keep[k] {
            out.push(elems[k]);
            proof {
                before.lemma_push_to_set_commute(elems@[k as int]);
            }
        }
        proof {
            assert(out@.to_set() =~= target.intersect(elems@.subrange(0, k + 1).to_set()));
        }
        k = k + 1;
    }
    proof {
        lemma_full_prefix(elems@);
        assert(out@.to_set() =~= target);
    }
    AltSet::from_alts(out.as_slice())
}

/// Two distinct alternatives of `elems` are strictly above `x`.
fn any_two_above(p: &Preorder, x: Alt, elems: &Vec<Alt>) -> (r: bool)
    requires
        p.wf(),
        x.0 < p.n(),
        elems@.no_duplicates(),
        forall|j: int| 0 <= j < elems@.len() ==> (#[trigger] elems@[j]).0 < p.n(),
    ensures
        r == two_above(p, elems@.to_set(), x),
{
    let mut first: Option<Alt> = None;
    let mut k: usize = 0;
    while k < elems.len()
        invariant
            k <= elems@.len(),
            p.wf(),
            x.0 < p.n(),
            elems@.no_duplicates(),
            forall|j: int| 0 <= j < elems@.len() ==> (#[trigger] elems@[j]).0 < p.n(),
            first is None ==> forall|j: int| 0 <= j < k ==> !lt_spec(p, x.0 as int, (#[trigger] elems@[j]).0 as int),
            first is Some ==> exists|j: int| 0 <= j < k && elems@[j] == first.unwrap() && lt_spec(p, x.0 as int, (#[trigger] elems@[j]).0 as int)
                && forall|i: int| 0 <= i < k && i != j ==> !lt_spec(p, x.0 as int, (#[trigger] elems@[i]).0 as int),
        decreases elems@.len() - k,
    {
        if p.lt(x, elems[k]) {
            match first {
                None => {
                    first = Some(elems[k]);
                    proof {
                        assert(elems@[k as int] == first.unwrap());
                    }
                },
                Some(y) => {
                    proof {
                        let j = choose|j: int| 0 <= j < k && elems@[j] == y && lt_spec(p, x.0 as int, (#[trigger] elems@[j]).0 as int)
                            && forall|i: int| 0 <= i < k && i != j ==> !lt_spec(p, x.0 as int, (#[trigger] elems@[i]).0 as int);
                        assert(elems@.to_set().contains(elems@[j]));
                        assert(elems@.to_set().contains(elems@[k as int]));
                        assert(elems@[j] != elems@[k as int]);
                    }
                    return true;
                },
            }
        }
        k = k + 1;
    }
    proof {
        if two_above(p, elems@.to_set(), x) {
            let (y, z) = choose|y: Alt, z: Alt|
                #![trigger elems@.to_set().contains(y), elems@.to_set().contains(z)]
                elems@.to_set().contains(y) && elems@.to_set().contains(z) && y != z && lt_spec(p, x.0 as int, y.0 as int) && lt_spec(p, x.0 as int, z.0 as int);
            let jy = choose|jy: int| 0 <= jy < elems@.len() && elems@[jy] == y;
            let jz = choose|jz: int| 0 <= jz < elems@.len() && elems@[jz] == z;
            assert(lt_spec(p, x.0 as int, elems@[jy].0 as int));
            assert(lt_spec(p, x.0 as int, elems@[jz].0 as int));
        }
    }
    false
}

/// The element sequence of a menu of `p`'s alternatives.
proof fn lemma_elems_below(p: &Preorder, menu: AltSetView, elems: Seq<Alt>)
    requires
        p.wf(),
        menu@.subset_of(alts_below(p.n())),
        elems.to_set() == menu@,
    ensures
        forall|j: int| 0 <= j < elems.len() ==> (#[trigger] elems[j]).0 < p.n(),
        forall|j: int| 0 <= j < elems.len() ==> (#[trigger] elems[j]).0 < MAX_BLOCKS * 32,
{
    p.lemma_wf_bound();
    assert forall|j: int| 0 <= j < elems.len() implies (#[trigger] elems[j]).0 < p.n() by {
        assert(elems.to_set().contains(elems[j]));
    }
}

/// Partially dominant choice, before the forced-choice fallback.
fn partially_dominant_choice(p: &Preorder, menu: AltSetView) -> (r: AltSet)
    requires
        p.wf(),
        menu.wf(),
        menu@.subset_of(alts_below(p.n())),
    ensures
        r.alts() == partially_dominant(p, menu@),
{
    let elems = menu.iter();
    proof {
        lemma_elems_below(p, menu, elems@);
    }
    let mut keep: Vec<bool> = Vec::new();
    let mut k: usize = 0;
    while k < elems.len()
        invariant
            k <= elems@.len(),
            p.wf(),
            elems@.to_set() == menu@,
            forall|j: int| 0 <= j < elems@.len() ==> (#[trigger] elems@[j]).0 < p.n(),
            keep@.len() == k,
            forall|j: int| 0 <= j < k ==> keep@[j] == partially_dominant(p, menu@).contains(#[trigger] elems@[j]),
        decreases elems@.len() - k,
    {
        let x = elems[k];
        let above = any_above(p, x, &elems);
        let below = any_below(p, x, &elems);
        keep.push(!above && below);
        proof {
            assert(elems@.to_set().contains(x));
        }
        k = k + 1;
    }
    proof {
        lemma_elems_below(p, menu, elems@);
    }
    collect_kept(&elems, &keep, Ghost(partially_dominant(p, menu@)))
}

/// The two highest alternatives of the menu (all of it when it has at most two).
fn top_two_choice(p: &Preorder, menu: AltSetView) -> (r: AltSet)
    requires
        p.wf(),
        menu.wf(),
        menu@.subset_of(alts_below(p.n())),
    ensures
        r.alts() == top_two(p, menu@),
{
    let elems = menu.iter();
    proof {
        lemma_elems_below(p, menu, elems@);
    }
    let mut keep: Vec<bool> = Vec::new();
    let mut k: usize = 0;
    while k < elems.len()
        invariant
            k <= elems@.len(),
            p.wf(),
            elems@.to_set() == menu@,
            elems@.no_duplicates(),
            forall|j: int| 0 <= j < elems@.len() ==> (#[trigger] elems@[j]).0 < p.n(),
            keep@.len() == k,
            forall|j: int| 0 <= j < k ==> keep@[j] == top_two(p, menu@).contains(#[trigger] elems@[j]),
        decreases elems@.len() - k,
    {
        let x = elems[k];
        let two = any_two_above(p, x, &elems);
        keep.push(!two);
        proof {
            assert(elems@.to_set().contains(x));
        }
        k = k + 1;
    }
    proof {
        lemma_elems_below(p, menu, elems@);
    }
    collect_kept(&elems, &keep, Ghost(top_two(p, menu@)))
}

/// Status-quo biased undominated choice with default `d`.
fn status_quo_choice(p: &Preorder, menu: AltSetView, d: Alt) -> (r: AltSet)
    requires
        p.wf(),
        menu.wf(),
        menu@.subset_of(alts_below(p.n())),
        menu@.contains(d),
    ensures
        r.alts() == status_quo(p, menu@, d),
{
    let elems = menu.iter();
    proof {
        lemma_elems_below(p, menu, elems@);
        p.lemma_wf_bound();
    }
    if !any_above(p, d, &elems) {
        return AltSet::singleton(d);
    }
    let up = p.upset(d);
    let cands = up.iter();
    let ghost target = improvements(p, menu@, d);
    proof {
        assert forall|j: int| 0 <= j < cands@.len() implies (#[trigger] cands@[j]).0 < p.n() by {
            assert(cands@.to_set().contains(cands@[j]));
        }
    }
    let mut keep: Vec<bool> = Vec::new();
    let mut k: usize = 0;
    while k < cands.len()
        invariant
            k <= cands@.len(),
            p.wf(),
            d.0 < p.n(),
            p.n() <= MAX_ALTS,
            elems@.to_set() == menu@,
            forall|j: int| 0 <= j < elems@.len() ==> (#[trigger] elems@[j]).0 < p.n(),
            forall|j: int| 0 <= j < cands@.len() ==> (#[trigger] cands@[j]).0 < p.n(),
            keep@.len() == k,
            target == improvements(p, menu@, d),
            forall|j: int| 0 <= j < k ==> keep@[j] == target.contains(#[trigger] cands@[j]),
        decreases cands@.len() - k,
    {
        let x = cands[k];
        let above = any_above(p, x, &elems);
        let better = p.lt(d, x);
        keep.push(better && !above);
        k = k + 1;
    }
    proof {
        assert forall|x: Alt| target.contains(x) implies cands@.to_set().contains(x) by {
            assert(up@.contains(x));
        }
        assert(target.subset_of(cands@.to_set()));
    }
    collect_kept(&cands, &keep, Ghost(target))
}

/// A penalty interval; both bounds are inclusive.
#[derive(Clone, Copy, PartialEq, Eq, Structural, PartialOrd, Ord, Hash, Debug)]
pub struct Penalty {
    pub lower_bound: u32,
    pub upper_bound: u32,
}

impl Penalty {
    /// The interval `[value, value]`.
    pub fn exact(value: u32) -> (r: Penalty)
        ensures
            r.lower_bound == value,
            r.upper_bound == value,
    {
        Penalty { lower_bound: value, upper_bound: value }
    }

    /// Takes the smaller of each pair of bounds.
    pub fn merge_min(&mut self, other: &Penalty)
        ensures
            final(self).lower_bound == if other.lower_bound < old(self).lower_bound {
                other.lower_bound
            } else {
                old(self).lower_bound
            },
            final(self).upper_bound == if other.upper_bound < old(self).upper_bound {
                other.upper_bound
            } else {
                old(self).upper_bound
            },
    {
        if other.lower_bound < self.lower_bound {
            self.lower_bound = other.lower_bound;
        }
        if other.upper_bound < self.upper_bound {
            self.upper_bound = other.upper_bound;
        }
    }
}

/// The penalty of one observation: 0 when the instance reproduces it, 1 otherwise;
/// partially dominant choice is never penalised on a singleton menu.
pub open spec fn row_penalty(inst: &Instance, cr: ChoiceRow) -> int {
    if (inst is PartiallyDominantChoice) && cr.menu.alts().len() == 1 {
        0
    } else if choice_spec(inst, cr.menu.alts(), cr.default) == cr.choice.alts() {
        0
    } else {
        1
    }
}

/// The sum of the row penalties.
pub open spec fn total_penalty(inst: &Instance, rows: Seq<ChoiceRow>) -> int
    decreases rows.len(),
{
    if rows.len() == 0 {
        0
    } else {
        total_penalty(inst, rows.drop_last()) + row_penalty(inst, rows.last())
    }
}

pub proof fn lemma_total_penalty_bound(inst: &Instance, rows: Seq<ChoiceRow>)
    ensures
        0 <= total_penalty(inst, rows) <= rows.len(),
    decreases rows.len(),
{
    if rows.len() > 0 {
        lemma_total_penalty_bound(inst, rows.drop_last());
    }
}

impl Instance {
    /// What the instance chooses from `menu`, with the default `default_opt`.
    pub fn choice(&self, menu: AltSetView, default_opt: Option<Alt>) -> (r: AltSet)
        requires
            self.wf(),
            menu.wf(),
            self.valid_menu(menu@, default_opt),
        ensures
            r.alts() == choice_spec(self, menu@, default_opt),
    {
        match self {
            Instance::PreorderMaximization(p) => preorder_maximization(p, menu),
            Instance::Unattractiveness { p, mask } => {
                let mut result = preorder_maximization(p, menu);
                result.intersect_with(mask.view());
                result
            },
            Instance::UndominatedChoice(p) => undominated_choice(p, menu),
            Instance::PartiallyDominantChoice { p, fc } => {
                let result = partially_dominant_choice(p, menu);
                if *fc && result.view().is_empty() {
                    AltSet::from_view(menu)
                } else {
                    result
                }
            },
            Instance::HybridDomination(p) => {
                let c = preorder_maximization(p, menu);
                if c.view().is_nonempty() {
                    c
                } else {
                    undominated_choice(p, menu)
                }
            },
            Instance::StatusQuoUndominatedChoice(p) => {
                let d = default_opt.unwrap();
                status_quo_choice(p, menu, d)
            },
            Instance::Overload { p, limit } => {
                if menu.size() > *limit {
                    AltSet::empty()
                } else {
                    preorder_maximization(p, menu)
                }
            },
            Instance::TopTwo(p) => {
                if menu.size() <= 2 {
                    AltSet::from_view(menu)
                } else {
                    top_two_choice(p, menu)
                }
            },
            Instance::SequentiallyRationalizableChoice(p, q) => {
                let shortlist = undominated_choice(p, menu);
                let sv = shortlist.view();
                undominated_choice(q, sv)
            },
        }
    }

    /// The penalty of the instance against the observations `crs`. The bounds are equal,
    /// except for sequentially rationalizable choice, whose lower bound is at most 1.
    pub fn penalty(&self, crs: &[ChoiceRow]) -> (r: Penalty)
        requires
            self.wf(),
            crs@.len() <= u32::MAX,
            forall|k: int|
                0 <= k < crs@.len() ==> self.valid_menu((#[trigger] crs@[k]).menu.alts(), crs@[k].default),
        ensures
            r.lower_bound <= r.upper_bound,
            r.upper_bound == total_penalty(self, crs@),
            r.lower_bound == if self is SequentiallyRationalizableChoice {
                if r.upper_bound < 1 { r.upper_bound } else { 1 }
            } else {
                r.upper_bound
            },
    {
        let mut upper: u32 = 0;
        let mut k: usize = 0;
        while k < crs.len()
            invariant
                k <= crs@.len() <= u32::MAX,
                self.wf(),
                forall|j: int|
                    0 <= j < crs@.len() ==> self.valid_menu((#[trigger] crs@[j]).menu.alts(), crs@[j].default),
                upper == total_penalty(self, crs@.subrange(0, k as int)),
            decreases crs@.len() - k,
        {
            let cr = &crs[k];
            proof {
                assert(crs@.subrange(0, k + 1).drop_last() =~= crs@.subrange(0, k as int));
                lemma_total_penalty_bound(self, crs@.subrange(0, k as int));
            }
            let standard: u32 = if cr.choice == self.choice(cr.menu.view(), cr.default) {
                0
            } else {
                1
            };
            let is_pdc = match self {
                Instance::PartiallyDominantChoice { .. } => true,
                _ => false,
            };
            let row: u32 = if is_pdc && cr.menu.view().is_singleton() {
                0
            } else {
                standard
            };
            upper = upper + row;
            k = k + 1;
        }
        proof {
            assert(crs@.subrange(0, crs@.len() as int) =~= crs@);
        }
        let lower = match self {
            Instance::SequentiallyRationalizableChoice(_, _) => if upper < 1 {
                upper
            } else {
                1
            },
            _ => upper,
        };
        Penalty { lower_bound: lower, upper_bound: upper }
    }
}


/// Every model chooses within the menu, except status-quo biased undominated choice,
/// which may move to an alternative outside the menu that dominates the default.
pub proof fn lemma_choice_within_menu(inst: &Instance, m: Set<Alt>, d: Option<Alt>)
    requires
        inst.wf(),
        inst.valid_menu(m, d),
        !(inst is StatusQuoUndominatedChoice),
    ensures
        choice_spec(inst, m, d).subset_of(m),
{
    match inst {
        Instance::SequentiallyRationalizableChoice(p, q) => {
            let s = undominated(p, m);
            assert(s.subset_of(m));
            assert(undominated(q, s).subset_of(s));
        },
        _ => {},
    }
}

/// Preorder maximization on a reflexive relation chooses `x` from `{x}`.
pub proof fn lemma_maximization_singleton(p: Preorder, x: Alt, d: Option<Alt>)
    requires
        p.wf(),
        reflexive(&p),
        x.0 < p.n(),
    ensures
        choice_spec(&Instance::PreorderMaximization(p), set![x], d) == set![x],
{
    assert(p.le(x.0 as int, x.0 as int));
    assert(maximization(&p, set![x]) =~= set![x]);
}

/// For preorder maximization, `j` is chosen from `{i}` exactly when `i` is chosen from `{j}`;
/// so over any collection of instances the two counts agree.
pub proof fn lemma_singleton_symmetry(p: Preorder, i: Alt, j: Alt, d: Option<Alt>)
    ensures
        choice_spec(&Instance::PreorderMaximization(p), set![i], d).contains(j)
            == choice_spec(&Instance::PreorderMaximization(p), set![j], d).contains(i),
{
    let ci = maximization(&p, set![i]);
    let cj = maximization(&p, set![j]);
    if ci.contains(j) {
        assert(set![i].contains(j));
        assert(i == j);
    }
    if cj.contains(i) {
        assert(set![j].contains(i));
        assert(i == j);
    }
}


/// Why a model cannot be traversed.
#[derive(Clone, Copy, PartialEq, Eq, Structural, Debug)]
pub enum InstanceError {
    TooManyAlternatives { model: Model, alt_count: u32 },
    NeedPrecomputedPreorders,
}

impl PreorderError {
    /// The error, attributed to `model`.
    pub fn annotate(self, model: Model) -> (r: InstanceError)
        ensures
            r == (match self {
                PreorderError::TooManyAlternatives(n) => InstanceError::TooManyAlternatives { model, alt_count: n },
                PreorderError::NeedPrecomputedPreorders => InstanceError::NeedPrecomputedPreorders,
            }),
    {
        match self {
            PreorderError::TooManyAlternatives(alt_count) => InstanceError::TooManyAlternatives { model, alt_count },
            PreorderError::NeedPrecomputedPreorders => InstanceError::NeedPrecomputedPreorders,
        }
    }
}

/// `p` meets the requirements that `pp` sets.
pub open spec fn satisfies(p: &Preorder, pp: PreorderParams) -> bool {
    &&& (pp.strict matches Some(b) ==> strict(p) == b)
    &&& (pp.total matches Some(b) ==> total(p) == b)
}

/// `pp` asks for linear orders.
pub open spec fn asks_linear(pp: PreorderParams) -> bool {
    pp.strict == Some(true) && pp.total == Some(true)
}

/// `traverse_preorders` fails: too many alternatives for the source that `pp` selects,
/// or no table for them.
pub open spec fn preorders_fail(pp: PreorderParams, n: int, count: int) -> bool {
    if asks_linear(pp) {
        n > 10
    } else {
        n > 7 || n >= count
    }
}

/// The relations that `pp` selects: each meets `pp`.
pub open spec fn selected(v: Seq<Preorder>, pp: PreorderParams, n: int) -> bool {
    forall|k: int|
        0 <= k < v.len() ==> (#[trigger] v[k]).wf() && v[k].n() == n && reflexive(&v[k]) && transitive(&v[k])
            && satisfies(&v[k], pp)
}

/// Whether `p` meets a requirement on a property whose value is `value`.
fn meets(value: bool, requirement: Option<bool>) -> (r: bool)
    ensures
        r == (requirement matches Some(b) ==> value == b),
{
    match requirement {
        None => true,
        Some(b) => value == b,
    }
}

/// Copies the relations of `source` that meet `pp`.
#[verifier::rlimit(50)]
fn filter_preorders(source: &Vec<Preorder>, pp: PreorderParams, Ghost(n): Ghost<int>) -> (r: Vec<Preorder>)
    requires
        crate::precomputed::all_preorders(source@, n),
    ensures
        selected(r@, pp, n),
        pairwise_differ(source@) ==> pairwise_differ(r@),
        forall|j: int| 0 <= j < source@.len() && satisfies(&source@[j], pp) ==> exists|m: int|
            0 <= m < r@.len() && same_relation(#[trigger] &r@[m], &source@[j]),
{
    let mut r: Vec<Preorder> = Vec::new();
    proof {
        crate::precomputed::lemma_kept_empty(source@);
    }
    let mut k: usize = 0;
    while k < source.len()
        invariant
            k <= source@.len(),
            crate::precomputed::all_preorders(source@, n),
            selected(r@, pp, n),
            crate::precomputed::kept_from(r@, source@, k as int),
            pairwise_differ(source@) ==> pairwise_differ(r@),
            forall|j: int| 0 <= j < k && satisfies(&source@[j], pp) ==> exists|m: int|
                0 <= m < r@.len() && same_relation(#[trigger] &r@[m], &source@[j]),
        decreases source@.len() - k,
    {
        let p = &source[k];
        if meets(p.is_strict(), pp.strict) && meets(p.is_total(), pp.total) {
            let q = p.clone();
            proof {
                crate::preorder::lemma_same_as(&q, p);
                assert(strict(&q) == strict(p));
                assert(total(&q) == total(p));
                assert(reflexive(&q) == reflexive(p));
            }
            let ghost before = r@;
            r.push(q);
            proof {
                crate::precomputed::lemma_keep_one(before, source@, k as int, q);
                assert(same_relation(&q, &source@[k as int]));
                assert(r@[before.len() as int] == q);
                assert forall|j: int| 0 <= j < k + 1 && satisfies(&source@[j], pp) implies exists|m: int|
                    0 <= m < r@.len() && same_relation(#[trigger] &r@[m], &source@[j]) by {
                    if j < k {
                        let m = choose|m: int| 0 <= m < before.len() && same_relation(#[trigger] &before[m], &source@[j]);
                        assert(r@[m] == before[m]);
                    } else {
                        assert(same_relation(&r@[before.len() as int], &source@[j]));
                    }
                }
            }
        }
        k = k + 1;
    }
    r
}

/// The relations on `alt_count` alternatives that meet `pp`, from the source that `pp`
/// selects: linear orders, weak orders, partial orders, or all preorders.
pub fn traverse_preorders(precomputed: &Precomputed, pp: PreorderParams, alt_count: u32) -> (r: Result<
    Vec<Preorder>,
    PreorderError,
>)
    requires
        precomputed.wf(),
    ensures
        r is Err <==> preorders_fail(pp, alt_count as int, precomputed.count()),
        r matches Err(e) ==> e == PreorderError::TooManyAlternatives(alt_count),
        r matches Ok(v) ==> selected(v@, pp, alt_count as int),
        r matches Ok(v) ==> (!asks_linear(pp) && alt_count < 7 ==> pairwise_differ(v@)),
        r matches Ok(v) ==> (pp == (PreorderParams { strict: None, total: None }) && alt_count < 7 ==> crate::precomputed::has_identity(
            v@,
            alt_count as int,
        )),
{
    if pp.total == Some(true) && pp.strict == Some(true) {
        if alt_count > 10 {
            return Err(PreorderError::TooManyAlternatives(alt_count));
        }
        let v = linear_preorders::all_vec(alt_count);
        proof {
            assert forall|k: int| 0 <= k < v@.len() implies (#[trigger] v@[k]).wf() && v@[k].n() == alt_count && reflexive(&v@[k]) && satisfies(&v@[k], pp) by {
                assert(linear_order(&v@[k], alt_count as int));
            }
        }
        return Ok(v);
    }
    if alt_count > 7 {
        return Err(PreorderError::TooManyAlternatives(alt_count));
    }
    let tables = match precomputed.get(alt_count) {
        Ok(t) => t,
        Err(e) => {
            return Err(e);
        },
    };
    if pp.total == Some(true) {
        Ok(filter_preorders(&tables.weak_orders, pp, Ghost(alt_count as int)))
    } else if pp.strict == Some(true) {
        Ok(filter_preorders(&tables.partial_orders, pp, Ghost(alt_count as int)))
    } else {
        let v = filter_preorders(&tables.preorders, pp, Ghost(alt_count as int));
        proof {
            if pp == (PreorderParams { strict: None, total: None }) && alt_count < 7 {
                assert(crate::precomputed::has_identity(tables.preorders@, alt_count as int));
                let w = choose|w: int| 0 <= w < tables.preorders@.len() && identity_rel(#[trigger] &tables.preorders@[w], alt_count as int);
                assert(satisfies(&tables.preorders@[w], pp));
                let m = choose|m: int| 0 <= m < v@.len() && same_relation(#[trigger] &v@[m], &tables.preorders@[w]);
                assert(identity_rel(&v@[m], alt_count as int));
                assert(crate::precomputed::has_identity(v@, alt_count as int));
            }
        }
        Ok(v)
    }
}

/// The number of bits of `mask` set below position `n`.
fn count_bits(mask: u32, n: u32) -> (r: u32)
    requires
        n <= 32,
    ensures
        r == rank(mask, n as int),
        r <= n,
{
    let mut r: u32 = 0;
    let mut k: u32 = 0;
    while k < n
        invariant
            k <= n <= 32,
            r == rank(mask, k as int),
            r <= k,
        decreases n - k,
    {
        if (mask >> k) & 1 == 1 {
            r = r + 1;
        }
        k = k + 1;
    }
    r
}

/// An unattractiveness instance on `n` alternatives: a well-formed reflexive relation.
pub open spec fn unattractive_pair(q: &Preorder, n: int) -> bool {
    q.wf() && q.n() == n && reflexive(q) && transitive(q)
}

/// `inst` is an unattractiveness instance copying `pair`.
pub open spec fn unattractive_copy(inst: Instance, pair: (Preorder, AltSet)) -> bool {
    match inst {
        Instance::Unattractiveness { p, mask } => same_relation(&p, &pair.0) && mask.alts() == pair.1.alts(),
        _ => false,
    }
}

/// Two unattractiveness instances differ in their mask or their relation.
pub open spec fn unattractive_differ(x: Instance, y: Instance) -> bool {
    match (x, y) {
        (Instance::Unattractiveness { p, mask }, Instance::Unattractiveness { p: q, mask: m }) => mask.alts() != m.alts() || differ(&p, &q),
        _ => true,
    }
}

/// No two pairs have both the same mask and the same relation.
pub open spec fn pairs_distinct(v: Seq<(Preorder, AltSet)>) -> bool {
    forall|a: int, b: int| 0 <= a < v.len() && 0 <= b < v.len() && a != b ==> (#[trigger] v[a]).1.alts() != (#[trigger] v[b]).1.alts()
        || differ(&v[a].0, &v[b].0)
}

/// For every mask of attractive alternatives other than the full one, the relations on the
/// attractive alternatives that meet `pp`, stuffed into `alt_count` alternatives.
pub fn traverse_unattractive(precomputed: &Precomputed, pp: PreorderParams, alt_count: u32) -> (r: Result<
    Vec<(Preorder, AltSet)>,
    PreorderError,
>)
    requires
        precomputed.wf(),
    ensures
        r is Ok ==> alt_count <= 7,
        alt_count <= 7 && (asks_linear(pp) || alt_count < precomputed.count()) ==> r is Ok,
        r matches Ok(v) ==> forall|k: int| 0 <= k < v@.len() ==> unattractive_pair(&(#[trigger] v@[k]).0, alt_count as int),
        r matches Ok(v) ==> (!asks_linear(pp) && alt_count < 7 ==> pairs_distinct(v@)),
{
    if alt_count > 7 {
        return Err(PreorderError::TooManyAlternatives(alt_count));
    }
    let mut r: Vec<(Preorder, AltSet)> = Vec::new();
    assert(1u32 << alt_count >= 1) by (bit_vector)
        requires
            alt_count <= 7,
    ;
    let last: u32 = (1u32 << alt_count) - 1;
    let mut mask: u32 = 0;
    let ghost mut ms: Seq<u32> = Seq::empty();
    let ghost track = !asks_linear(pp) && alt_count < 7;
    while mask < last
        invariant
            alt_count <= 7,
            precomputed.wf(),
            track == (!asks_linear(pp) && alt_count < 7),
            forall|k: int| 0 <= k < r@.len() ==> unattractive_pair(&(#[trigger] r@[k]).0, alt_count as int),
            ms.len() == r@.len(),
            forall|a: int| 0 <= a < r@.len() ==> #[trigger] ms[a] < mask && r@[a].1.alts() == set_of(seq![ms[a]]),
            track ==> pairs_distinct(r@),
        decreases last - mask,
    {
        let size = count_bits(mask, alt_count);
        let ps = match traverse_preorders(precomputed, pp, size) {
            Ok(ps) => ps,
            Err(e) => {
                return Err(e);
            },
        };
        let ghost s0 = r@.len();
        let mut k: usize = 0;
        while k < ps.len()
            invariant
                alt_count <= 7,
                size == rank(mask, alt_count as int),
                size <= alt_count,
                selected(ps@, pp, size as int),
                track == (!asks_linear(pp) && alt_count < 7),
                track ==> pairwise_differ(ps@),
                k <= ps@.len(),
                forall|j: int| 0 <= j < r@.len() ==> unattractive_pair(&(#[trigger] r@[j]).0, alt_count as int),
                r@.len() == s0 + k,
                ms.len() == r@.len(),
                forall|a: int| 0 <= a < s0 ==> #[trigger] ms[a] < mask && r@[a].1.alts() == set_of(seq![ms[a]]),
                forall|a: int| s0 <= a < r@.len() ==> #[trigger] ms[a] == mask && r@[a].1.alts() == set_of(seq![mask]),
                forall|a: int, i: int, j: int| s0 <= a < r@.len() && 0 <= i < alt_count && 0 <= j < alt_count ==> #[trigger] r@[a].0.le(i, j)
                    == crate::preorder::stuffed(&ps@[a - s0], mask, i, j),
                forall|a: int| s0 <= a < r@.len() ==> (#[trigger] r@[a]).0.n() == alt_count,
                track ==> pairs_distinct(r@),
            decreases ps@.len() - k,
        {
            let q = ps[k].stuff(alt_count, mask);
            proof {
                crate::preorder::lemma_stuff_preorder(&ps@[k as int], alt_count, mask, &q);
            }
            let ghost before = r@;
            let m_set = AltSet::from_block(mask);
            r.push((q, m_set));
            proof {
                ms = ms.push(mask);
                let last_i = before.len() as int;
                assert(r@[last_i] == (q, m_set));
                assert forall|a: int| 0 <= a < s0 implies #[trigger] ms[a] < mask && r@[a].1.alts() == set_of(seq![ms[a]]) by {
                    assert(r@[a] == before[a]);
                }
                assert forall|a: int| s0 <= a < r@.len() implies #[trigger] ms[a] == mask && r@[a].1.alts() == set_of(seq![mask]) by {
                    if a < last_i {
                        assert(r@[a] == before[a]);
                    }
                }
                assert forall|a: int, i: int, j: int| s0 <= a < r@.len() && 0 <= i < alt_count && 0 <= j < alt_count implies #[trigger] r@[a].0.le(i, j)
                    == crate::preorder::stuffed(&ps@[a - s0], mask, i, j) by {
                    if a < last_i {
                        assert(r@[a] == before[a]);
                    }
                }
                assert forall|a: int| s0 <= a < r@.len() implies (#[trigger] r@[a]).0.n() == alt_count by {
                    if a < last_i {
                        assert(r@[a] == before[a]);
                    }
                }
                if track {
                    assert forall|a: int, b: int| 0 <= a < r@.len() && 0 <= b < r@.len() && a != b implies (#[trigger] r@[a]).1.alts() != (#[trigger] r@[b]).1.alts()
                        || differ(&r@[a].0, &r@[b].0) by {
                        if a < last_i && b < last_i {
                            assert(r@[a] == before[a]);
                            assert(r@[b] == before[b]);
                        } else {
                            let (x, y) = if a < last_i { (a, b) } else { (b, a) };
                            assert(y == last_i);
                            assert(r@[x] == before[x]);
                            if x < s0 {
                                assert(ms[x] < mask);
                                crate::preorder::lemma_masks_differ(ms[x], mask);
                            } else {
                                let kx = x - s0;
                                assert(differ(&ps@[kx], &ps@[k as int]));
                                assert forall|i: int, j: int| 0 <= i < alt_count && 0 <= j < alt_count implies #[trigger] r@[x].0.le(i, j)
                                    == crate::preorder::stuffed(&ps@[kx], mask, i, j) by {}
                                crate::preorder::lemma_stuff_injective(&ps@[kx], &ps@[k as int], &r@[x].0, &q, mask, alt_count);
                                crate::precomputed::lemma_differ_sym(&r@[x].0, &q);
                            }
                            if r@[a].1.alts() == r@[b].1.alts() {
                                if x < s0 {
                                    assert(r@[x].1.alts() == set_of(seq![ms[x]]));
                                    assert(r@[y].1.alts() == set_of(seq![mask]));
                                }
                            }
                        }
                    }
                }
            }
            k = k + 1;
        }
        proof {
            assert forall|a: int| 0 <= a < r@.len() implies #[trigger] ms[a] < mask + 1 && r@[a].1.alts() == set_of(seq![ms[a]]) by {
                if a >= s0 {
                    assert(ms[a] == mask);
                }
            }
        }
        mask = mask + 1;
    }
    Ok(r)
}

/// The instance belongs to `model` on `n` alternatives.
pub open spec fn instance_of(inst: &Instance, model: Model, n: int) -> bool {
    &&& inst.wf()
    &&& inst.alt_count() == n
    &&& match (model, inst) {
        (Model::PreorderMaximization(pp), Instance::PreorderMaximization(p)) => reflexive(p) && transitive(p) && satisfies(p, pp),
        (Model::Unattractiveness(_), Instance::Unattractiveness { p, .. }) => reflexive(p) && transitive(p),
        (Model::UndominatedChoice { strict: s }, Instance::UndominatedChoice(p)) => reflexive(p) && transitive(p) && strict(p) == s && !total(p),
        (Model::PartiallyDominantChoice { fc }, Instance::PartiallyDominantChoice { p, fc: g }) => reflexive(p) && transitive(p) && strict(p) && !total(p) && fc == g,
        (Model::HybridDomination { strict: s }, Instance::HybridDomination(p)) => reflexive(p) && transitive(p) && strict(p) == s && !total(p),
        (Model::StatusQuoUndominatedChoice, Instance::StatusQuoUndominatedChoice(p)) => reflexive(p) && transitive(p) && strict(p) && !total(p),
        (Model::Overload(pp), Instance::Overload { p, limit }) => reflexive(p) && transitive(p) && satisfies(p, pp) && limit < n,
        (Model::TopTwo, Instance::TopTwo(p)) => linear_order(p, n),
        (Model::SequentiallyRationalizableChoice, Instance::SequentiallyRationalizableChoice(p, q)) => reflexive(p) && transitive(p) && strict(p) && !total(p)
            && reflexive(q) && transitive(q) && strict(q) && !total(q),
        _ => false,
    }
}

/// Every row of `choices` is a question about `n` alternatives.
pub open spec fn rows_within(choices: Seq<ChoiceRow>, n: int) -> bool {
    forall|k: int|
        0 <= k < choices.len() ==> (#[trigger] choices[k]).menu.alts().subset_of(alts_below(n))
            && choices[k].menu.alts() != Set::<Alt>::empty()
}

/// The relations of a sequentially rationalizable instance reproduce every row.
pub open spec fn reproduces(inst: &Instance, choices: Seq<ChoiceRow>) -> bool {
    forall|k: int| 0 <= k < choices.len() ==> choice_spec(inst, (#[trigger] choices[k]).menu.alts(), choices[k].default) == choices[k].choice.alts()
}

/// The strict partial orders `p` for which a sequentially rationalizable instance
/// could reproduce the rows: each observed choice lies in `p`'s shortlist.
fn shortlists(p: &Preorder, choices: &[ChoiceRow]) -> (r: Option<Vec<AltSet>>)
    requires
        p.wf(),
        rows_within(choices@, p.n()),
    ensures
        r matches Some(s) ==> s@.len() == choices@.len() && forall|k: int|
            0 <= k < s@.len() ==> (#[trigger] s@[k]).alts() == undominated(p, choices@[k].menu.alts()),
{
    let mut s: Vec<AltSet> = Vec::new();
    let mut k: usize = 0;
    while k < choices.len()
        invariant
            p.wf(),
            rows_within(choices@, p.n()),
            k <= choices@.len(),
            s@.len() == k,
            forall|j: int| 0 <= j < k ==> (#[trigger] s@[j]).alts() == undominated(p, choices@[j].menu.alts()),
        decreases choices@.len() - k,
    {
        let cr = &choices[k];
        let c = undominated_choice(p, cr.menu.view());
        if !cr.choice.view().is_subseteq_of(c.view()) {
            return None;
        }
        s.push(c);
        k = k + 1;
    }
    Some(s)
}

/// `q` picks the observed choice out of every shortlist.
fn reproduces_from_shortlists(q: &Preorder, shortlist: &Vec<AltSet>, choices: &[ChoiceRow]) -> (r: bool)
    requires
        q.wf(),
        shortlist@.len() == choices@.len(),
        forall|k: int| 0 <= k < shortlist@.len() ==> (#[trigger] shortlist@[k]).alts().subset_of(alts_below(q.n())),
    ensures
        r == forall|k: int| 0 <= k < choices@.len() ==> undominated(q, (#[trigger] shortlist@[k]).alts()) == choices@[k].choice.alts(),
{
    let mut k: usize = 0;
    while k < choices.len()
        invariant
            q.wf(),
            shortlist@.len() == choices@.len(),
            forall|j: int| 0 <= j < shortlist@.len() ==> (#[trigger] shortlist@[j]).alts().subset_of(alts_below(q.n())),
            k <= choices@.len(),
            forall|j: int| 0 <= j < k ==> undominated(q, (#[trigger] shortlist@[j]).alts()) == choices@[j].choice.alts(),
        decreases choices@.len() - k,
    {
        let c = undominated_choice(q, shortlist[k].view());
        if c != choices[k].choice {
            return false;
        }
        k = k + 1;
    }
    true
}

/// The (first) relation of an instance.
pub open spec fn rel_of(inst: Instance) -> Preorder {
    match inst {
        Instance::PreorderMaximization(p) => p,
        Instance::Unattractiveness { p, .. } => p,
        Instance::UndominatedChoice(p) => p,
        Instance::PartiallyDominantChoice { p, .. } => p,
        Instance::StatusQuoUndominatedChoice(p) => p,
        Instance::Overload { p, .. } => p,
        Instance::TopTwo(p) => p,
        Instance::SequentiallyRationalizableChoice(p, _) => p,
        Instance::HybridDomination(p) => p,
    }
}

/// `inst` is built on the same relation as `p`.
pub open spec fn rel_copy(inst: Instance, p: Preorder) -> bool {
    same_relation(&rel_of(inst), &p)
}

/// No two instances of `v` are built on the same relation.
pub open spec fn distinct_relations(v: Seq<Instance>) -> bool {
    forall|a: int, b: int| 0 <= a < v.len() && 0 <= b < v.len() && a != b ==> differ(&rel_of(v[a]), &rel_of(v[b]))
}

/// The traversal of `model` on `n` alternatives gives one instance per relation of a table.
pub open spec fn one_per_relation(model: Model, n: int) -> bool {
    n < 7 && match model {
        Model::PreorderMaximization(pp) => !asks_linear(pp),
        Model::UndominatedChoice { .. } => true,
        Model::HybridDomination { .. } => true,
        Model::PartiallyDominantChoice { .. } => true,
        Model::StatusQuoUndominatedChoice => true,
        _ => false,
    }
}

/// Instances built on copies of pairwise different relations are built on different relations.
pub proof fn lemma_copies_differ(out: Seq<Instance>, ps: Seq<Preorder>)
    requires
        out.len() == ps.len(),
        forall|j: int| 0 <= j < out.len() ==> rel_copy(#[trigger] out[j], ps[j]),
        pairwise_differ(ps),
    ensures
        distinct_relations(out),
{
    assert forall|a: int, b: int| 0 <= a < out.len() && 0 <= b < out.len() && a != b implies differ(&rel_of(out[a]), &rel_of(out[b])) by {
        let p = rel_of(out[a]);
        let q = rel_of(out[b]);
        assert(rel_copy(out[a], ps[a]));
        assert(rel_copy(out[b], ps[b]));
        assert(differ(&ps[a], &ps[b]));
        crate::precomputed::lemma_same_relation_differ(&ps[a], &ps[b], &q);
        crate::precomputed::lemma_differ_sym(&ps[a], &q);
        crate::precomputed::lemma_same_relation_differ(&q, &ps[a], &p);
        crate::precomputed::lemma_differ_sym(&q, &p);
    }
}

/// The traversal of `model` on `n` alternatives is refused, given tables for `0 .. count`.
pub open spec fn traverse_fails(model: Model, n: int, count: int) -> bool {
    match model {
        Model::PreorderMaximization(pp) => preorders_fail(pp, n, count),
        Model::Overload(pp) => preorders_fail(pp, n, count),
        Model::TopTwo => n > 10,
        Model::Unattractiveness(_) => n > 7,
        _ => n > 7 || n >= count,
    }
}

/// The traversal of `model` on `n` alternatives succeeds, given tables for `0 .. count`.
pub open spec fn traverse_succeeds(model: Model, n: int, count: int) -> bool {
    match model {
        Model::PreorderMaximization(pp) => !preorders_fail(pp, n, count),
        Model::Overload(pp) => !preorders_fail(pp, n, count),
        Model::TopTwo => n <= 10,
        Model::Unattractiveness(pp) => n <= 7 && (asks_linear(pp) || n < count),
        _ => n <= 7 && n < count,
    }
}

/// All instances of `model` on `alt_count` alternatives. For sequentially rationalizable
/// choice, only the pairs of relations that reproduce every row of `choices`.
pub fn traverse_all(
    precomputed: &Precomputed,
    model: Model,
    alt_count: u32,
    choices: &[ChoiceRow],
) -> (r: Result<Vec<Instance>, InstanceError>)
    requires
        precomputed.wf(),
        rows_within(choices@, alt_count as int),
    ensures
        r matches Ok(v) ==> forall|k: int| 0 <= k < v@.len() ==> instance_of(#[trigger] &v@[k], model, alt_count as int),
        r matches Ok(v) ==> (model is SequentiallyRationalizableChoice ==> forall|k: int|
            0 <= k < v@.len() ==> reproduces(#[trigger] &v@[k], choices@)),
        r matches Err(e) ==> (e == InstanceError::TooManyAlternatives { model, alt_count }),
        traverse_fails(model, alt_count as int, precomputed.count()) ==> r is Err,
        r matches Ok(v) ==> (one_per_relation(model, alt_count as int) ==> distinct_relations(v@)),
        r matches Ok(v) ==> (model matches Model::Unattractiveness(pp) ==> (!asks_linear(pp) && alt_count < 7 ==> forall|a: int, b: int|
            0 <= a < v@.len() && 0 <= b < v@.len() && a != b ==> #[trigger] unattractive_differ(v@[a], v@[b]))),
        r matches Ok(v) ==> (model == Model::PreorderMaximization(PreorderParams { strict: None, total: None }) && alt_count < 7
            ==> exists|k: int| 0 <= k < v@.len() && identity_rel(#[trigger] &rel_of(v@[k]), alt_count as int)),
        traverse_succeeds(model, alt_count as int, precomputed.count()) ==> r is Ok,
{
    let partial = PreorderParams { strict: Some(true), total: Some(false) };
    let mut out: Vec<Instance> = Vec::new();
    match model {
        Model::PreorderMaximization(pp) => {
            let ps = match traverse_preorders(precomputed, pp, alt_count) {
                Ok(ps) => ps,
                Err(e) => {
                    return Err(e.annotate(model));
                },
            };
            let mut k: usize = 0;
            while k < ps.len()
                invariant
                    model == Model::PreorderMaximization(pp),
                    selected(ps@, pp, alt_count as int),
                    !asks_linear(pp) && alt_count < 7 ==> pairwise_differ(ps@),
                    k <= ps@.len(),
                    out@.len() == k,
                    forall|j: int| 0 <= j < k ==> rel_copy(#[trigger] out@[j], ps@[j]),
                    forall|j: int| 0 <= j < out@.len() ==> instance_of(#[trigger] &out@[j], model, alt_count as int),
                decreases ps@.len() - k,
            {
                let p = ps[k].clone();
                proof {
                    crate::preorder::lemma_same_as(&p, &ps@[k as int]);
                    assert(same_relation(&p, &ps@[k as int]));
                }
                let ghost before = out@;
                out.push(Instance::PreorderMaximization(p));
                proof {
                    assert forall|j: int| 0 <= j < k + 1 implies rel_copy(#[trigger] out@[j], ps@[j]) by {
                        if j < k {
                            assert(out@[j] == before[j]);
                        }
                    }
                    assert forall|j: int| 0 <= j < out@.len() implies instance_of(#[trigger] &out@[j], model, alt_count as int) by {
                        if j < k {
                            assert(out@[j] == before[j]);
                        }
                    }
                }
                k = k + 1;
            }
            proof {
                if !asks_linear(pp) && alt_count < 7 {
                    lemma_copies_differ(out@, ps@);
                }
                if pp == (PreorderParams { strict: None, total: None }) && alt_count < 7 {
                    assert(crate::precomputed::has_identity(ps@, alt_count as int));
                    let w = choose|w: int| 0 <= w < ps@.len() && identity_rel(#[trigger] &ps@[w], alt_count as int);
                    assert(rel_copy(out@[w], ps@[w]));
                    assert(identity_rel(&rel_of(out@[w]), alt_count as int));
                }
            }
        },
        Model::Unattractiveness(pp) => {
            let pairs = match traverse_unattractive(precomputed, pp, alt_count) {
                Ok(v) => v,
                Err(_) => {
                    return Err(InstanceError::TooManyAlternatives { model, alt_count });
                },
            };
            let mut k: usize = 0;
            while k < pairs.len()
                invariant
                    model == Model::Unattractiveness(pp),
                    forall|j: int| 0 <= j < pairs@.len() ==> unattractive_pair(&(#[trigger] pairs@[j]).0, alt_count as int),
                    k <= pairs@.len(),
                    out@.len() == k,
                    forall|j: int| 0 <= j < k ==> unattractive_copy(#[trigger] out@[j], pairs@[j]),
                    forall|j: int| 0 <= j < out@.len() ==> instance_of(#[trigger] &out@[j], model, alt_count as int),
                decreases pairs@.len() - k,
            {
                let p = pairs[k].0.clone();
                let mask = pairs[k].1.clone();
                proof {
                    crate::preorder::lemma_same_as(&p, &pairs@[k as int].0);
                    assert(same_relation(&p, &pairs@[k as int].0));
                }
                let ghost before = out@;
                out.push(Instance::Unattractiveness { p, mask });
                proof {
                    assert forall|j: int| 0 <= j < k + 1 implies unattractive_copy(#[trigger] out@[j], pairs@[j]) by {
                        if j < k {
                            assert(out@[j] == before[j]);
                        }
                    }
                    assert forall|j: int| 0 <= j < out@.len() implies instance_of(#[trigger] &out@[j], model, alt_count as int) by {
                        if j < k {
                            assert(out@[j] == before[j]);
                        }
                    }
                }
                k = k + 1;
            }
            proof {
                if !asks_linear(pp) && alt_count < 7 {
                    assert forall|a: int, b: int| 0 <= a < out@.len() && 0 <= b < out@.len() && a != b implies #[trigger] unattractive_differ(out@[a], out@[b]) by {
                        assert(unattractive_copy(out@[a], pairs@[a]));
                        assert(unattractive_copy(out@[b], pairs@[b]));
                        if let Instance::Unattractiveness { p: pa, mask: ma } = out@[a] {
                            if let Instance::Unattractiveness { p: pb, mask: mb } = out@[b] {
                                if ma.alts() == mb.alts() {
                                    assert(differ(&pairs@[a].0, &pairs@[b].0));
                                    crate::precomputed::lemma_same_relation_differ(&pairs@[a].0, &pairs@[b].0, &pb);
                                    crate::precomputed::lemma_differ_sym(&pairs@[a].0, &pb);
                                    crate::precomputed::lemma_same_relation_differ(&pb, &pairs@[a].0, &pa);
                                    crate::precomputed::lemma_differ_sym(&pb, &pa);
                                }
                            }
                        }
                    }
                }
            }
        },
        Model::UndominatedChoice { strict: s } | Model::HybridDomination { strict: s } => {
            let pp = PreorderParams { strict: Some(s), total: Some(false) };
            let ps = match traverse_preorders(precomputed, pp, alt_count) {
                Ok(ps) => ps,
                Err(e) => {
                    return Err(e.annotate(model));
                },
            };
            let mut k: usize = 0;
            while k < ps.len()
                invariant
                    model is UndominatedChoice || model is HybridDomination,
                    model matches Model::UndominatedChoice { strict: t } ==> t == s,
                    model matches Model::HybridDomination { strict: t } ==> t == s,
                    pp == (PreorderParams { strict: Some(s), total: Some(false) }),
                    selected(ps@, pp, alt_count as int),
                    alt_count < 7 ==> pairwise_differ(ps@),
                    k <= ps@.len(),
                    out@.len() == k,
                    forall|j: int| 0 <= j < k ==> rel_copy(#[trigger] out@[j], ps@[j]),
                    forall|j: int| 0 <= j < out@.len() ==> instance_of(#[trigger] &out@[j], model, alt_count as int),
                decreases ps@.len() - k,
            {
                let p = ps[k].clone();
                proof {
                    crate::preorder::lemma_same_as(&p, &ps@[k as int]);
                    assert(same_relation(&p, &ps@[k as int]));
                }
                let ghost before = out@;
                match model {
                    Model::UndominatedChoice { .. } => out.push(Instance::UndominatedChoice(p)),
                    _ => out.push(Instance::HybridDomination(p)),
                }
                proof {
                    assert forall|j: int| 0 <= j < k + 1 implies rel_copy(#[trigger] out@[j], ps@[j]) by {
                        if j < k {
                            assert(out@[j] == before[j]);
                        }
                    }
                    assert forall|j: int| 0 <= j < out@.len() implies instance_of(#[trigger] &out@[j], model, alt_count as int) by {
                        if j < k {
                            assert(out@[j] == before[j]);
                        }
                    }
                }
                k = k + 1;
            }
            proof {
                if alt_count < 7 {
                    lemma_copies_differ(out@, ps@);
                }
            }
        },
        Model::PartiallyDominantChoice { fc } => {
            let ps = match traverse_preorders(precomputed, partial, alt_count) {
                Ok(ps) => ps,
                Err(e) => {
                    return Err(e.annotate(model));
                },
            };
            let mut k: usize = 0;
            while k < ps.len()
                invariant
                    model == (Model::PartiallyDominantChoice { fc }),
                    partial == (PreorderParams { strict: Some(true), total: Some(false) }),
                    selected(ps@, partial, alt_count as int),
                    alt_count < 7 ==> pairwise_differ(ps@),
                    k <= ps@.len(),
                    out@.len() == k,
                    forall|j: int| 0 <= j < k ==> rel_copy(#[trigger] out@[j], ps@[j]),
                    forall|j: int| 0 <= j < out@.len() ==> instance_of(#[trigger] &out@[j], model, alt_count as int),
                decreases ps@.len() - k,
            {
                let p = ps[k].clone();
                proof {
                    crate::preorder::lemma_same_as(&p, &ps@[k as int]);
                    assert(same_relation(&p, &ps@[k as int]));
                }
                let ghost before = out@;
                out.push(Instance::PartiallyDominantChoice { p, fc });
                proof {
                    assert forall|j: int| 0 <= j < k + 1 implies rel_copy(#[trigger] out@[j], ps@[j]) by {
                        if j < k {
                            assert(out@[j] == before[j]);
                        }
                    }
                    assert forall|j: int| 0 <= j < out@.len() implies instance_of(#[trigger] &out@[j], model, alt_count as int) by {
                        if j < k {
                            assert(out@[j] == before[j]);
                        }
                    }
                }
                k = k + 1;
            }
            proof {
                if alt_count < 7 {
                    lemma_copies_differ(out@, ps@);
                }
            }
        },
        Model::StatusQuoUndominatedChoice => {
            let ps = match traverse_preorders(precomputed, partial, alt_count) {
                Ok(ps) => ps,
                Err(e) => {
                    return Err(e.annotate(model));
                },
            };
            let mut k: usize = 0;
            while k < ps.len()
                invariant
                    model == Model::StatusQuoUndominatedChoice,
                    partial == (PreorderParams { strict: Some(true), total: Some(false) }),
                    selected(ps@, partial, alt_count as int),
                    alt_count < 7 ==> pairwise_differ(ps@),
                    k <= ps@.len(),
                    out@.len() == k,
                    forall|j: int| 0 <= j < k ==> rel_copy(#[trigger] out@[j], ps@[j]),
                    forall|j: int| 0 <= j < out@.len() ==> instance_of(#[trigger] &out@[j], model, alt_count as int),
                decreases ps@.len() - k,
            {
                let p = ps[k].clone();
                proof {
                    crate::preorder::lemma_same_as(&p, &ps@[k as int]);
                    assert(same_relation(&p, &ps@[k as int]));
                }
                let ghost before = out@;
                out.push(Instance::StatusQuoUndominatedChoice(p));
                proof {
                    assert forall|j: int| 0 <= j < k + 1 implies rel_copy(#[trigger] out@[j], ps@[j]) by {
                        if j < k {
                            assert(out@[j] == before[j]);
                        }
                    }
                    assert forall|j: int| 0 <= j < out@.len() implies instance_of(#[trigger] &out@[j], model, alt_count as int) by {
                        if j < k {
                            assert(out@[j] == before[j]);
                        }
                    }
                }
                k = k + 1;
            }
            proof {
                if alt_count < 7 {
                    lemma_copies_differ(out@, ps@);
                }
            }
        },
        Model::Overload(pp) => {
            let ps = match traverse_preorders(precomputed, pp, alt_count) {
                Ok(ps) => ps,
                Err(e) => {
                    return Err(e.annotate(model));
                },
            };
            let mut k: usize = 0;
            while k < ps.len()
                invariant
                    model == Model::Overload(pp),
                    selected(ps@, pp, alt_count as int),
                    k <= ps@.len(),
                    forall|j: int| 0 <= j < out@.len() ==> instance_of(#[trigger] &out@[j], model, alt_count as int),
                decreases ps@.len() - k,
            {
                // the limit stays below the number of alternatives, so the full menu
                // always overloads
                let mut limit: u32 = 0;
                while limit < alt_count
                    invariant
                        model == Model::Overload(pp),
                        selected(ps@, pp, alt_count as int),
                        k < ps@.len(),
                        limit <= alt_count,
                        forall|j: int| 0 <= j < out@.len() ==> instance_of(#[trigger] &out@[j], model, alt_count as int),
                    decreases alt_count - limit,
                {
                    let p = ps[k].clone();
                    proof {
                        crate::preorder::lemma_same_as(&p, &ps@[k as int]);
                        assert(reflexive(&p) == reflexive(&ps@[k as int]));
                        assert(strict(&p) == strict(&ps@[k as int]));
                        assert(total(&p) == total(&ps@[k as int]));
                    }
                    out.push(Instance::Overload { p, limit });
                    limit = limit + 1;
                }
                k = k + 1;
            }
        },
        Model::TopTwo => {
            if alt_count > 10 {
                return Err(InstanceError::TooManyAlternatives { model, alt_count });
            }
            let mut ps = linear_preorders::all_vec(alt_count);
            while ps.len() > 0
                invariant
                    model == Model::TopTwo,
                    forall|k: int| 0 <= k < ps@.len() ==> linear_order(#[trigger] &ps@[k], alt_count as int),
                    forall|k: int| 0 <= k < out@.len() ==> instance_of(#[trigger] &out@[k], model, alt_count as int),
                decreases ps@.len(),
            {
                let p = ps.pop().unwrap();
                out.push(Instance::TopTwo(p));
            }
        },
        Model::SequentiallyRationalizableChoice => {
            let ps = match traverse_preorders(precomputed, partial, alt_count) {
                Ok(ps) => ps,
                Err(e) => {
                    return Err(e.annotate(model));
                },
            };
            let qs = match traverse_preorders(precomputed, partial, alt_count) {
                Ok(qs) => qs,
                Err(e) => {
                    return Err(e.annotate(model));
                },
            };
            let mut i: usize = 0;
            while i < ps.len()
                invariant
                    model == Model::SequentiallyRationalizableChoice,
                    selected(ps@, partial, alt_count as int),
                    selected(qs@, partial, alt_count as int),
                    partial == (PreorderParams { strict: Some(true), total: Some(false) }),
                    rows_within(choices@, alt_count as int),
                    i <= ps@.len(),
                    forall|k: int| 0 <= k < out@.len() ==> instance_of(#[trigger] &out@[k], model, alt_count as int),
                    forall|k: int| 0 <= k < out@.len() ==> reproduces(#[trigger] &out@[k], choices@),
                decreases ps@.len() - i,
            {
                let p = &ps[i];
                match shortlists(p, choices) {
                    None => {},
                    Some(shortlist) => {
                        proof {
                            assert forall|k: int| 0 <= k < shortlist@.len() implies (#[trigger] shortlist@[k]).alts().subset_of(alts_below(alt_count as int)) by {
                                assert(choices@[k].menu.alts().subset_of(alts_below(alt_count as int)));
                            }
                        }
                        let mut j: usize = 0;
                        while j < qs.len()
                            invariant
                                model == Model::SequentiallyRationalizableChoice,
                                selected(ps@, partial, alt_count as int),
                                selected(qs@, partial, alt_count as int),
                                partial == (PreorderParams { strict: Some(true), total: Some(false) }),
                                rows_within(choices@, alt_count as int),
                                i < ps@.len(),
                                p == &ps@[i as int],
                                j <= qs@.len(),
                                shortlist@.len() == choices@.len(),
                                forall|k: int| 0 <= k < shortlist@.len() ==> (#[trigger] shortlist@[k]).alts() == undominated(p, choices@[k].menu.alts()),
                                forall|k: int| 0 <= k < shortlist@.len() ==> (#[trigger] shortlist@[k]).alts().subset_of(alts_below(alt_count as int)),
                                forall|k: int| 0 <= k < out@.len() ==> instance_of(#[trigger] &out@[k], model, alt_count as int),
                                forall|k: int| 0 <= k < out@.len() ==> reproduces(#[trigger] &out@[k], choices@),
                            decreases qs@.len() - j,
                        {
                            let q = &qs[j];
                            if reproduces_from_shortlists(q, &shortlist, choices) {
                                let p2 = p.clone();
                                let q2 = q.clone();
                                proof {
                                    crate::preorder::lemma_same_as(&p2, p);
                                    crate::preorder::lemma_same_as(&q2, q);
                                    assert(reflexive(&p2) == reflexive(p));
                                    assert(strict(&p2) == strict(p));
                                    assert(total(&p2) == total(p));
                                    assert(reflexive(&q2) == reflexive(q));
                                    assert(strict(&q2) == strict(q));
                                    assert(total(&q2) == total(q));
                                    let inst = Instance::SequentiallyRationalizableChoice(p2, q2);
                                    assert forall|k: int| 0 <= k < choices@.len() implies choice_spec(&inst, (#[trigger] choices@[k]).menu.alts(), choices@[k].default) == choices@[k].choice.alts() by {
                                        assert(undominated(&p2, choices@[k].menu.alts()) =~= undominated(p, choices@[k].menu.alts()));
                                        assert(undominated(&q2, shortlist@[k].alts()) =~= undominated(q, shortlist@[k].alts()));
                                    }
                                }
                                out.push(Instance::SequentiallyRationalizableChoice(p2, q2));
                            }
                            j = j + 1;
                        }
                    },
                }
                i = i + 1;
            }
        },
    }
    Ok(out)
}

impl PreorderParams {
    /// The exact properties of `p`.
    pub fn from_preorder(p: &Preorder) -> (r: PreorderParams)
        requires
            p.wf(),
        ensures
            r == params_of(p),
    {
        PreorderParams { strict: Some(p.is_strict()), total: Some(p.is_total()) }
    }
}

/// The exact properties of `p`, as requirements.
pub open spec fn params_of(p: &Preorder) -> PreorderParams {
    PreorderParams { strict: Some(strict(p)), total: Some(total(p)) }
}

/// The model an instance belongs to.
pub open spec fn model_of(inst: &Instance) -> Model {
    match inst {
        Instance::PreorderMaximization(p) => Model::PreorderMaximization(params_of(p)),
        Instance::Unattractiveness { p, .. } => Model::Unattractiveness(params_of(p)),
        Instance::UndominatedChoice(p) => Model::UndominatedChoice { strict: strict(p) },
        Instance::PartiallyDominantChoice { fc, .. } => Model::PartiallyDominantChoice { fc: *fc },
        Instance::StatusQuoUndominatedChoice(_) => Model::StatusQuoUndominatedChoice,
        Instance::Overload { p, .. } => Model::Overload(params_of(p)),
        Instance::TopTwo(_) => Model::TopTwo,
        Instance::SequentiallyRationalizableChoice(_, _) => Model::SequentiallyRationalizableChoice,
        Instance::HybridDomination(p) => Model::HybridDomination { strict: strict(p) },
    }
}

impl Instance {
    /// The model the instance belongs to, with the properties of its relation.
    pub fn determine_model(&self) -> (r: Model)
        requires
            self.wf(),
        ensures
            r == model_of(self),
    {
        match self {
            Instance::PreorderMaximization(p) => Model::PreorderMaximization(PreorderParams::from_preorder(p)),
            Instance::Unattractiveness { p, .. } => Model::Unattractiveness(PreorderParams::from_preorder(p)),
            Instance::UndominatedChoice(p) => Model::UndominatedChoice { strict: p.is_strict() },
            Instance::PartiallyDominantChoice { fc, .. } => Model::PartiallyDominantChoice { fc: *fc },
            Instance::StatusQuoUndominatedChoice(_) => Model::StatusQuoUndominatedChoice,
            Instance::Overload { p, .. } => Model::Overload(PreorderParams::from_preorder(p)),
            Instance::TopTwo(_) => Model::TopTwo,
            Instance::SequentiallyRationalizableChoice(_, _) => Model::SequentiallyRationalizableChoice,
            Instance::HybridDomination(p) => Model::HybridDomination { strict: p.is_strict() },
        }
    }
}

} // verus!
