//! Helpers of the approximate search for sequentially rationalizable choice.
use vstd::prelude::*;
use crate::alt::Alt;
use crate::alt_set::{AltSet, AltSetView, MAX_BLOCKS};

verus! {

/// `xs ∪ {x}`.
pub fn set_insert(x: Alt, xs: AltSetView) -> (r: AltSet)
    requires
        xs.wf(),
        x.0 < MAX_BLOCKS * 32,
    ensures
        r.alts() == xs@.insert(x),
{
    let mut result = AltSet::from_view(xs);
    let single = AltSet::singleton(x);
    result.union_with(single.view());
    proof {
        assert(result.alts() =~= xs@.insert(x));
    }
    result
}

} // verus!
