//! Linear orders on the alternatives, enumerated by the Steinhaus–Johnson–Trotter algorithm.
use vstd::prelude::*;
use crate::preorder::{reflexive, strict, total, transitive, Preorder, MAX_ALTS};

verus! {

/// `vals` lists distinct numbers below its length: a permutation.
pub open spec fn is_permutation(vals: Seq<u32>) -> bool {
    &&& forall|k: int| 0 <= k < vals.len() ==> #[trigger] vals[k] < vals.len()
    &&& vals.no_duplicates()
}

/// `p` is a linear order on `n` alternatives.
pub open spec fn linear_order(p: &Preorder, n: int) -> bool {
    &&& p.wf()
    &&& p.n() == n
    &&& reflexive(p)
    &&& transitive(p)
    &&& strict(p)
    &&& total(p)
}

/// The state of the enumeration: the current permutation and the direction in which
/// each element moves (0 when it cannot move).
pub struct LinearPreorders {
    vals: Vec<u32>,
    dirs: Vec<i8>,
    first: bool,
}

/// The linear order ranking each alternative by its value in a permutation.
fn order_of(vals: &Vec<u32>) -> (r: Preorder)
    requires
        vals@.len() <= MAX_ALTS,
        is_permutation(vals@),
    ensures
        linear_order(&r, vals@.len() as int),
        forall|i: int, j: int| 0 <= i < vals@.len() && 0 <= j < vals@.len() ==> #[trigger] r.le(i, j) == (vals@[i] <= vals@[j]),
{
    let r = Preorder::from_values(vals.as_slice());
    proof {
        assert forall|i: int, j: int| 0 <= i < r.n() && 0 <= j < r.n() && i != j implies !(#[trigger] r.le(i, j) && #[trigger] r.le(j, i)) by {
            assert(vals@[i] != vals@[j]);
        }
    }
    r
}

/// All linear orders on `alt_count` alternatives.
pub fn all(alt_count: u32) -> (r: LinearPreorders)
    requires
        alt_count <= 10,
    ensures
        r.wf(),
        r.n() == alt_count,
        r.fresh(),
{
    let mut vals: Vec<u32> = Vec::new();
    let mut dirs: Vec<i8> = Vec::new();
    let mut i: u32 = 0;
    while i < alt_count
        invariant
            i <= alt_count,
            vals@.len() == i,
            dirs@.len() == i,
            forall|k: int| 0 <= k < i ==> #[trigger] vals@[k] == k,
        decreases alt_count - i,
    {
        vals.push(i);
        dirs.push(if i == 0 { 0 } else { -1 });
        i = i + 1;
    }
    proof {
        assert(vals@ =~= Seq::new(vals@.len(), |k: int| k as u32));
    }
    LinearPreorders { vals, dirs, first: true }
}

impl LinearPreorders {
    /// The permutation is valid and its directions line up with it.
    pub closed spec fn wf(&self) -> bool {
        &&& is_permutation(self.vals@)
        &&& self.dirs@.len() == self.vals@.len()
        &&& self.vals@.len() <= 10
    }

    /// Nothing has been produced yet: the next order is the identity permutation's.
    pub closed spec fn fresh(&self) -> bool {
        self.first && self.vals@ == Seq::new(self.vals@.len(), |k: int| k as u32)
    }

    /// The number of alternatives ordered.
    pub closed spec fn n(&self) -> int {
        self.vals@.len() as int
    }

    /// The next linear order, or `None` once all have been produced.
    pub fn next(&mut self) -> (r: Option<Preorder>)
        requires
            old(self).wf(),
        ensures
            final(self).wf(),
            final(self).n() == old(self).n(),
            r matches Some(p) ==> linear_order(&p, old(self).n()),
            old(self).fresh() ==> (r matches Some(p) && forall|i: int, j: int|
                0 <= i < old(self).n() && 0 <= j < old(self).n() ==> #[trigger] p.le(i, j) == (i <= j)),
    {
        if self.first {
            self.first = false;
            let p = order_of(&self.vals);
            proof {
                if old(self).fresh() {
                    assert forall|i: int, j: int| 0 <= i < old(self).n() && 0 <= j < old(self).n() implies #[trigger] p.le(i, j) == (i <= j) by {
                        assert(self.vals@[i] == i as u32);
                        assert(self.vals@[j] == j as u32);
                    }
                }
            }
            return Some(p);
        }
        // the greatest element that can still move
        let mut best: Option<(usize, u32, i8)> = None;
        let mut i: usize = 0;
        while i < self.vals.len()
            invariant
                self.wf(),
                i <= self.vals@.len(),
                best matches Some(b) ==> b.0 < self.vals@.len() && (b.2 == 1 || b.2 == -1),
            decreases self.vals@.len() - i,
        {
            let val = self.vals[i];
            let dir = self.dirs[i];
            if dir == 1 || dir == -1 {
                match best {
                    None => {
                        best = Some((i, val, dir));
                    },
                    Some((_j, j_val, _j_dir)) => {
                        if val > j_val {
                            best = Some((i, val, dir));
                        }
                    },
                }
            }
            i = i + 1;
        }
        match best {
            None => None,
            Some((i, _i_val, i_dir)) => {
                let len = self.vals.len();
                if (i_dir == -1 && i == 0) || (i_dir == 1 && i + 1 >= len) {
                    return None;
                }
                let j: usize = if i_dir == 1 { i + 1 } else { i - 1 };
                let ghost before = self.vals@;
                let vi = self.vals[i];
                let vj = self.vals[j];
                self.vals.set(i, vj);
                self.vals.set(j, vi);
                let di = self.dirs[i];
                let dj = self.dirs[j];
                self.dirs.set(i, dj);
                self.dirs.set(j, di);
                proof {
                    assert forall|a: int, b: int| 0 <= a < self.vals@.len() && 0 <= b < self.vals@.len() && a != b implies self.vals@[a] != self.vals@[b] by {
                        let pa = if a == i { j as int } else if a == j { i as int } else { a };
                        let pb = if b == i { j as int } else if b == j { i as int } else { b };
                        assert(self.vals@[a] == before[pa]);
                        assert(self.vals@[b] == before[pb]);
                    }
                    assert forall|k: int| 0 <= k < self.vals@.len() implies #[trigger] self.vals@[k] < self.vals@.len() by {
                        let pk = if k == i { j as int } else if k == j { i as int } else { k };
                        assert(self.vals@[k] == before[pk]);
                    }
                }
                // the moved element stops at the edge or before a greater element
                let stop = if i_dir == 1 {
                    j + 1 >= len || self.vals[j + 1] > self.vals[j]
                } else {
                    j == 0 || self.vals[j - 1] > self.vals[j]
                };
                if stop {
                    self.dirs.set(j, 0);
                }
                // greater elements start moving towards it
                let mut l: usize = 0;
                while l < len
                    invariant
                        self.wf(),
                        len == self.vals@.len(),
                        j < len,
                        l <= len,
                    decreases len - l,
                {
                    if self.vals[l] > self.vals[j] {
                        if l < j {
                            self.dirs.set(l, 1);
                        } else if l > j {
                            self.dirs.set(l, -1);
                        }
                    }
                    l = l + 1;
                }
                Some(order_of(&self.vals))
            },
        }
    }

    /// The remaining linear orders, at most `limit` of them.
    pub fn take_all(&mut self, limit: u64) -> (r: Vec<Preorder>)
        requires
            old(self).wf(),
        ensures
            final(self).wf(),
            forall|k: int| 0 <= k < r@.len() ==> linear_order(#[trigger] &r@[k], old(self).n()),
            old(self).fresh() && limit >= 1 ==> r@.len() >= 1 && forall|i: int, j: int|
                0 <= i < old(self).n() && 0 <= j < old(self).n() ==> #[trigger] r@[0].le(i, j) == (i <= j),
    {
        let mut r: Vec<Preorder> = Vec::new();
        let mut count: u64 = 0;
        while count < limit
            invariant
                self.wf(),
                self.n() == old(self).n(),
                forall|k: int| 0 <= k < r@.len() ==> linear_order(#[trigger] &r@[k], old(self).n()),
                count == 0 ==> r@.len() == 0 && *self == *old(self),
                count > 0 && old(self).fresh() ==> r@.len() >= 1 && forall|i: int, j: int|
                    0 <= i < old(self).n() && 0 <= j < old(self).n() ==> #[trigger] r@[0].le(i, j) == (i <= j),
            decreases limit - count,
        {
            match self.next() {
                Some(p) => {
                    r.push(p);
                },
                None => {
                    return r;
                },
            }
            count = count + 1;
        }
        r
    }
}

/// `n!`.
pub open spec fn factorial(n: nat) -> nat
    decreases n,
{
    if n == 0 {
        1
    } else {
        n * factorial((n - 1) as nat)
    }
}

/// `n!`, for `n` up to 10.
pub fn fac(n: u64) -> (r: u64)
    requires
        n <= 10,
    ensures
        r == factorial(n as nat),
{
    let mut r: u64 = 1;
    let mut k: u64 = 0;
    while k < n
        invariant
            k <= n <= 10,
            r == factorial(k as nat),
        decreases n - k,
    {
        proof {
            lemma_factorial_mono(k as nat + 1, 10);
            reveal_with_fuel(factorial, 11);
            assert(factorial(10) == 3628800);
            assert(factorial(k as nat + 1) == (k + 1) * factorial(k as nat));
        }
        k = k + 1;
        r = r * k;
    }
    r
}

proof fn lemma_factorial_mono(a: nat, b: nat)
    requires
        a <= b,
    ensures
        1 <= factorial(a) <= factorial(b),
    decreases b,
{
    if a < b {
        lemma_factorial_mono(a, (b - 1) as nat);
        let f = factorial((b - 1) as nat);
        assert(f <= b * f) by (nonlinear_arith)
            requires
                1 <= b,
                0 <= f,
        ;
    } else if a > 0 {
        lemma_factorial_mono((a - 1) as nat, (a - 1) as nat);
        let f = factorial((a - 1) as nat);
        assert(1 <= a * f) by (nonlinear_arith)
            requires
                1 <= a,
                1 <= f,
        ;
    }
}

/// All linear orders on `alt_count` alternatives, in the order of the enumeration.
pub fn all_vec(alt_count: u32) -> (r: Vec<Preorder>)
    requires
        alt_count <= 10,
    ensures
        forall|k: int| 0 <= k < r@.len() ==> linear_order(#[trigger] &r@[k], alt_count as int),
        r@.len() >= 1,
        forall|i: int, j: int| 0 <= i < alt_count && 0 <= j < alt_count ==> #[trigger] r@[0].le(i, j) == (i <= j),
{
    let mut it = all(alt_count);
    let limit = fac(alt_count as u64);
    proof {
        lemma_factorial_mono(0, alt_count as nat);
    }
    it.take_all(limit)
}

} // verus!
