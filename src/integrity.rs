//! Integrity checks on a subject's observations.
use vstd::prelude::*;
use crate::alt::Alt;
use crate::alt_set::AltSet;
use crate::common::{ChoiceRow, Subject};

verus! {

/// A problem with the observations.
#[derive(Clone, Debug)]
pub enum Issue {
    /// The menu occurs more than once.
    RepeatedMenu(AltSet),
    /// An alternative chosen, or the default, is not on the menu.
    ChoiceNotInMenu(AltSet, Alt),
}

/// The problems found with one subject.
#[derive(Clone, Debug)]
pub struct Response {
    pub subject_name: String,
    pub issues: Vec<Issue>,
}

/// The menu of observation `k` also occurs at another position.
pub open spec fn menu_repeated(rows: Seq<ChoiceRow>, k: int) -> bool {
    exists|j: int| 0 <= j < rows.len() && j != k && (#[trigger] rows[j]).menu.alts() == rows[k].menu.alts()
}

/// The menu of observation `k` occurs earlier.
pub open spec fn seen_before(rows: Seq<ChoiceRow>, k: int) -> bool {
    exists|j: int| 0 <= j < k && (#[trigger] rows[j]).menu.alts() == rows[k].menu.alts()
}

/// Observation `k` is fine: whatever was chosen, and the default, are on the menu.
pub open spec fn row_sound(cr: ChoiceRow) -> bool {
    &&& cr.choice.alts().subset_of(cr.menu.alts())
    &&& (cr.default matches Some(d) ==> cr.menu.alts().contains(d))
}

/// Whether the menu of observation `k` occurs at another position.
fn is_repeated(rows: &[ChoiceRow], k: usize) -> (r: bool)
    requires
        k < rows@.len(),
    ensures
        r == menu_repeated(rows@, k as int),
{
    let mut j: usize = 0;
    while j < rows.len()
        invariant
            k < rows@.len(),
            j <= rows@.len(),
            forall|q: int| 0 <= q < j && q != k ==> (#[trigger] rows@[q]).menu.alts() != rows@[k as int].menu.alts(),
        decreases rows@.len() - j,
    {
        if j != k && rows[j].menu == rows[k].menu {
            return true;
        }
        j = j + 1;
    }
    false
}

/// Whether the menu of observation `k` occurs earlier.
fn is_seen_before(rows: &[ChoiceRow], k: usize) -> (r: bool)
    requires
        k < rows@.len(),
    ensures
        r == seen_before(rows@, k as int),
{
    let mut j: usize = 0;
    while j < k
        invariant
            k < rows@.len(),
            j <= k,
            forall|q: int| 0 <= q < j ==> (#[trigger] rows@[q]).menu.alts() != rows@[k as int].menu.alts(),
        decreases k - j,
    {
        if rows[j].menu == rows[k].menu {
            return true;
        }
        j = j + 1;
    }
    false
}

/// The problems with the observations: each repeated menu once, then for each observation
/// every chosen alternative off its menu and a default off its menu. There are none
/// exactly when no menu repeats and every observation is sound.
pub fn find_issues(subject: &Subject) -> (r: Vec<Issue>)
    ensures
        r@.len() == 0 <==> (forall|k: int| 0 <= k < subject.choices@.len() ==> !menu_repeated(subject.choices@, k) && row_sound(
            #[trigger] subject.choices@[k],
        )),
{
    let rows = subject.choices.as_slice();
    let mut issues: Vec<Issue> = Vec::new();
    let mut k: usize = 0;
    while k < rows.len()
        invariant
            k <= rows@.len(),
            rows@ == subject.choices@,
            issues@.len() == 0 <==> forall|q: int| 0 <= q < k ==> !(menu_repeated(rows@, q) && !seen_before(rows@, q)),
        decreases rows@.len() - k,
    {
        if is_repeated(rows, k) && !is_seen_before(rows, k) {
            issues.push(Issue::RepeatedMenu(rows[k].menu.clone()));
        }
        k = k + 1;
    }
    proof {
        // a repeated menu has a first occurrence, which was reported
        assert((forall|q: int| 0 <= q < rows@.len() ==> !(menu_repeated(rows@, q) && !seen_before(rows@, q)))
            <==> (forall|q: int| 0 <= q < rows@.len() ==> !menu_repeated(rows@, q))) by {
            if forall|q: int| 0 <= q < rows@.len() ==> !(menu_repeated(rows@, q) && !seen_before(rows@, q)) {
                assert forall|q: int| 0 <= q < rows@.len() implies !menu_repeated(rows@, q) by {
                    if menu_repeated(rows@, q) {
                        lemma_first_occurrence(rows@, q);
                    }
                }
            }
        }
    }
    let ghost reps_ok = issues@.len() == 0;
    let mut k: usize = 0;
    while k < rows.len()
        invariant
            k <= rows@.len(),
            rows@ == subject.choices@,
            issues@.len() == 0 <==> (reps_ok && forall|q: int| 0 <= q < k ==> row_sound(#[trigger] rows@[q])),
        decreases rows@.len() - k,
    {
        let cr = &rows[k];
        let before = issues.len();
        let chosen = cr.choice.view().iter();
        let mut c: usize = 0;
        while c < chosen.len()
            invariant
                c <= chosen@.len(),
                issues@.len() >= before,
                chosen@.to_set() == cr.choice.alts(),
                issues@.len() == before <==> forall|j: int| 0 <= j < c ==> cr.menu.alts().contains(#[trigger] chosen@[j]),
            decreases chosen@.len() - c,
        {
            let a = chosen[c];
            if !cr.menu.view().contains(a) {
                issues.push(Issue::ChoiceNotInMenu(cr.menu.clone(), a));
            }
            c = c + 1;
        }
        proof {
            if issues@.len() == before {
                assert forall|a: Alt| cr.choice.alts().contains(a) implies cr.menu.alts().contains(a) by {
                    assert(chosen@.to_set().contains(a));
                    let j = choose|j: int| 0 <= j < chosen@.len() && chosen@[j] == a;
                }
            } else {
                assert(!cr.choice.alts().subset_of(cr.menu.alts())) by {
                    let j = choose|j: int| 0 <= j < chosen@.len() && !cr.menu.alts().contains(#[trigger] chosen@[j]);
                    assert(chosen@.to_set().contains(chosen@[j]));
                }
            }
        }
        match cr.default {
            Some(d) => {
                if !cr.menu.view().contains(d) {
                    issues.push(Issue::ChoiceNotInMenu(cr.menu.clone(), d));
                }
            },
            None => {},
        }
        k = k + 1;
    }
    issues
}

/// A repeated menu occurs for the first time somewhere.
proof fn lemma_first_occurrence(rows: Seq<ChoiceRow>, q: int)
    requires
        0 <= q < rows.len(),
        menu_repeated(rows, q),
    ensures
        exists|f: int| 0 <= f < rows.len() && menu_repeated(rows, f) && !seen_before(rows, f),
    decreases q,
{
    if seen_before(rows, q) {
        let j = choose|j: int| 0 <= j < q && (#[trigger] rows[j]).menu.alts() == rows[q].menu.alts();
        assert(menu_repeated(rows, j)) by {
            assert(rows[q].menu.alts() == rows[j].menu.alts());
        }
        lemma_first_occurrence(rows, j);
    }
}

/// The integrity report for `subject`.
pub fn run(subject: &Subject) -> (r: Response)
    ensures
        r.subject_name@ == subject.name@,
        r.issues@.len() == 0 <==> (forall|k: int| 0 <= k < subject.choices@.len() ==> !menu_repeated(subject.choices@, k) && row_sound(
            #[trigger] subject.choices@[k],
        )),
{
    Response { subject_name: subject.name.clone(), issues: find_issues(subject) }
}

} // verus!
