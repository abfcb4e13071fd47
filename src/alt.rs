//! Alternatives: indices into the universe of a choice experiment.
use vstd::prelude::*;

verus! {

/// An alternative, identified by its index in `[0, N)`.
#[derive(Clone, Copy, PartialEq, Eq, Structural, PartialOrd, Ord, Hash, Debug)]
pub struct Alt(pub u32);

/// The sequence `[Alt(lo), ..., Alt(hi - 1)]`.
pub open spec fn alt_range(lo: int, hi: int) -> Seq<Alt>
    decreases hi - lo,
{
    if hi <= lo {
        Seq::empty()
    } else {
        alt_range(lo, hi - 1).push(Alt((hi - 1) as u32))
    }
}

pub proof fn lemma_alt_range(lo: int, hi: int)
    requires
        0 <= lo,
        hi <= u32::MAX + 1,
    ensures
        lo <= hi ==> alt_range(lo, hi).len() == hi - lo,
        hi <= lo ==> alt_range(lo, hi).len() == 0,
        forall|k: int| 0 <= k < hi - lo ==> #[trigger] alt_range(lo, hi)[k] == Alt((lo + k) as u32),
    decreases hi - lo,
{
    if lo < hi {
        lemma_alt_range(lo, hi - 1);
    }
}

impl Alt {
    /// The index of this alternative.
    pub fn index(self) -> (r: u32)
        ensures
            r == self.0,
    {
        self.0
    }

    /// All alternatives `0 .. alt_count`, in ascending order.
    pub fn all(alt_count: u32) -> (r: Vec<Alt>)
        ensures
            r@ == alt_range(0, alt_count as int),
    {
        Alt::all_from(0, alt_count)
    }

    fn all_from(lo: u32, alt_count: u32) -> (r: Vec<Alt>)
        ensures
            r@ == alt_range(lo as int, alt_count as int),
    {
        let mut r: Vec<Alt> = Vec::new();
        let mut i: u32 = lo;
        if lo >= alt_count {
            return r;
        }
        while i < alt_count
            invariant
                lo <= i <= alt_count,
                r@ == alt_range(lo as int, i as int),
            decreases alt_count - i,
        {
            r.push(Alt(i));
            i = i + 1;
        }
        r
    }

    /// All alternatives strictly above `a`, up to `alt_count` exclusive, in ascending order.
    pub fn all_above(a: Alt, alt_count: u32) -> (r: Vec<Alt>)
        ensures
            r@ == alt_range(a.0 + 1, alt_count as int),
    {
        if a.0 >= alt_count {
            let r: Vec<Alt> = Vec::new();
            return r;
        }
        Alt::all_from(a.0 + 1, alt_count)
    }

    /// All ordered pairs `(i, j)` of alternatives below `alt_count`, row by row.
    pub fn all_pairs(alt_count: u32) -> (r: Vec<(Alt, Alt)>)
        ensures
            r@.len() == alt_count * alt_count,
            forall|k: int|
                0 <= k < r@.len() ==> #[trigger] r@[k] == (
                    Alt((k / alt_count as int) as u32),
                    Alt((k % alt_count as int) as u32),
                ),
    {
        let mut r: Vec<(Alt, Alt)> = Vec::new();
        let n = alt_count;
        let mut i: u32 = 0;
        while i < n
            invariant
                i <= n,
                n == alt_count,
                r@.len() == i * n,
                forall|k: int|
                    0 <= k < r@.len() ==> #[trigger] r@[k] == (
                        Alt((k / n as int) as u32),
                        Alt((k % n as int) as u32),
                    ),
            decreases n - i,
        {
            let mut j: u32 = 0;
            while j < n
                invariant
                    i < n,
                    j <= n,
                    n == alt_count,
                    r@.len() == i * n + j,
                    forall|k: int|
                        0 <= k < r@.len() ==> #[trigger] r@[k] == (
                            Alt((k / n as int) as u32),
                            Alt((k % n as int) as u32),
                        ),
                decreases n - j,
            {
                proof {
                    vstd::arithmetic::div_mod::lemma_fundamental_div_mod_converse(
                        i * n + j,
                        n as int,
                        i as int,
                        j as int,
                    );
                }
                r.push((Alt(i), Alt(j)));
                j = j + 1;
            }
            proof {
                assert((i + 1) * n == i * n + n) by (nonlinear_arith);
            }
            i = i + 1;
        }
        r
    }

    /// All pairs `(i, j)` with `i < j < alt_count`, ordered by `i` and then by `j`.
    pub fn distinct_pairs(alt_count: u32) -> (r: Vec<(Alt, Alt)>)
        ensures
            forall|k: int| 0 <= k < r@.len() ==> (#[trigger] r@[k]).0.0 < r@[k].1.0 < alt_count,
            forall|i: u32, j: u32| i < j < alt_count ==> #[trigger] r@.contains((Alt(i), Alt(j))),
    {
        let mut r: Vec<(Alt, Alt)> = Vec::new();
        let mut i: u32 = 0;
        while i < alt_count
            invariant
                i <= alt_count,
                forall|k: int| 0 <= k < r@.len() ==> (#[trigger] r@[k]).0.0 < r@[k].1.0 < alt_count,
                forall|p: u32, q: u32| p < i && p < q < alt_count ==> #[trigger] r@.contains((Alt(p), Alt(q))),
            decreases alt_count - i,
        {
            let mut j: u32 = i + 1;
            while j < alt_count
                invariant
                    i < alt_count,
                    i < j <= alt_count,
                    forall|k: int| 0 <= k < r@.len() ==> (#[trigger] r@[k]).0.0 < r@[k].1.0 < alt_count,
                    forall|p: u32, q: u32|
                        (p < i && p < q < alt_count) || (p == i && i < q < j) ==> #[trigger] r@.contains((Alt(p), Alt(q))),
                decreases alt_count - j,
            {
                let ghost old_r = r@;
                r.push((Alt(i), Alt(j)));
                proof {
                    assert(r@[old_r.len() as int] == (Alt(i), Alt(j)));
                    assert forall|p: u32, q: u32|
                        (p < i && p < q < alt_count) || (p == i && i < q < j + 1) implies #[trigger] r@.contains((Alt(p), Alt(q))) by {
                        if p == i && q == j {
                        } else {
                            assert(old_r.contains((Alt(p), Alt(q))));
                            let k = choose|k: int| 0 <= k < old_r.len() && old_r[k] == (Alt(p), Alt(q));
                            assert(r@[k] == old_r[k]);
                        }
                    }
                }
                j = j + 1;
            }
            i = i + 1;
        }
        r
    }
}

} // verus!
