//! Observed choices of one subject.
use vstd::prelude::*;
use crate::alt::Alt;
use crate::alt_set::AltSet;

verus! {

/// One observation: the menu offered, the default if any, and what was chosen.
#[derive(Clone, Debug)]
pub struct ChoiceRow {
    pub menu: AltSet,
    pub default: Option<Alt>,
    pub choice: AltSet,
}

/// The observations of one subject.
#[derive(Clone, Debug)]
pub struct Subject {
    pub name: String,
    pub alternatives: Vec<String>,
    pub choices: Vec<ChoiceRow>,
}

impl Subject {
    /// A copy of the subject; with `do_drop`, without the rows where nothing was chosen.
    pub fn drop_deferrals(&self, do_drop: bool) -> (r: Subject)
        ensures
            !do_drop ==> r.choices@.len() == self.choices@.len(),
            do_drop ==> forall|k: int| 0 <= k < r.choices@.len() ==> (#[trigger] r.choices@[k]).choice.alts() != Set::<Alt>::empty(),
            do_drop ==> r.choices@.len() == self.choices@.filter(|cr: ChoiceRow| cr.choice.alts() != Set::<Alt>::empty()).len(),
    {
        let mut choices: Vec<ChoiceRow> = Vec::new();
        let mut k: usize = 0;
        while k < self.choices.len()
            invariant
                k <= self.choices@.len(),
                !do_drop ==> choices@.len() == k,
                do_drop ==> forall|j: int| 0 <= j < choices@.len() ==> (#[trigger] choices@[j]).choice.alts() != Set::<Alt>::empty(),
                do_drop ==> choices@.len() == self.choices@.subrange(0, k as int).filter(|cr: ChoiceRow| cr.choice.alts() != Set::<Alt>::empty()).len(),
            decreases self.choices@.len() - k,
        {
            let cr = &self.choices[k];
            proof {
                let f = |cr: ChoiceRow| cr.choice.alts() != Set::<Alt>::empty();
                assert(self.choices@.subrange(0, k + 1) =~= self.choices@.subrange(0, k as int).push(self.choices@[k as int]));
                self.choices@.subrange(0, k as int).lemma_filter_push(self.choices@[k as int], f);
            }
            if !do_drop || cr.choice.view().is_nonempty() {
                let row = ChoiceRow { menu: cr.menu.clone(), default: cr.default, choice: cr.choice.clone() };
                choices.push(row);
            }
            k = k + 1;
        }
        proof {
            assert(self.choices@.subrange(0, self.choices@.len() as int) =~= self.choices@);
        }
        Subject { name: self.name.clone(), alternatives: self.alternatives.clone(), choices }
    }
}

} // verus!
