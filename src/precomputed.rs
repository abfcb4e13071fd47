//! Tables of all preorders, partial orders and weak orders, by number of alternatives.
use vstd::prelude::*;
use crate::fast_preorder::{self, FastPreorder};
use crate::preorder::{differ, identity_rel, pairwise_differ, reflexive, same_relation, strict, total, transitive, Preorder};

verus! {

/// Why a table of relations is not available.
#[derive(Clone, Copy, PartialEq, Eq, Structural, Debug)]
pub enum Error {
    TooManyAlternatives(u32),
    NeedPrecomputedPreorders,
}

/// The relations on one number of alternatives.
pub struct Preorders {
    pub preorders: Vec<Preorder>,
    pub partial_orders: Vec<Preorder>,
    pub weak_orders: Vec<Preorder>,
}

/// Every relation of `v` is a well-formed preorder (reflexive and transitive) on `n`
/// alternatives.
pub open spec fn all_preorders(v: Seq<Preorder>, n: int) -> bool {
    forall|k: int| 0 <= k < v.len() ==> (#[trigger] v[k]).wf() && v[k].n() == n && reflexive(&v[k]) && transitive(&v[k])
}

/// Some relation of `v` is the identity on `n` alternatives.
pub open spec fn has_identity(v: Seq<Preorder>, n: int) -> bool {
    exists|k: int| 0 <= k < v.len() && identity_rel(#[trigger] &v[k], n)
}

/// The relations of `v` that are preorders, in order.
fn keep_preorders(v: &Vec<Preorder>, Ghost(n): Ghost<int>) -> (r: Vec<Preorder>)
    requires
        forall|j: int| 0 <= j < v@.len() ==> (#[trigger] v@[j]).wf() && v@[j].n() == n,
    ensures
        all_preorders(r@, n),
        pairwise_differ(v@) ==> pairwise_differ(r@),
        forall|j: int| 0 <= j < v@.len() && reflexive(&v@[j]) && transitive(&v@[j]) ==> exists|m: int|
            0 <= m < r@.len() && same_relation(#[trigger] &r@[m], &v@[j]),
{
    let mut w: Vec<Preorder> = Vec::new();
    proof {
        lemma_kept_empty(v@);
    }
    let mut k: usize = 0;
    while k < v.len()
        invariant
            k <= v@.len(),
            forall|j: int| 0 <= j < v@.len() ==> (#[trigger] v@[j]).wf() && v@[j].n() == n,
            all_preorders(w@, n),
            kept_from(w@, v@, k as int),
            pairwise_differ(v@) ==> pairwise_differ(w@),
            forall|j: int| 0 <= j < k && reflexive(&v@[j]) && transitive(&v@[j]) ==> exists|m: int|
                0 <= m < w@.len() && same_relation(#[trigger] &w@[m], &v@[j]),
        decreases v@.len() - k,
    {
        if v[k].is_reflexive() && v[k].is_transitive() {
            let q = v[k].clone();
            proof {
                crate::preorder::lemma_same_as(&q, &v@[k as int]);
                assert(same_relation(&q, &v@[k as int]));
            }
            let ghost before = w@;
            w.push(q);
            proof {
                lemma_keep_one(before, v@, k as int, q);
                assert(w@[before.len() as int] == q);
                assert forall|j: int| 0 <= j < k + 1 && reflexive(&v@[j]) && transitive(&v@[j]) implies exists|m: int|
                    0 <= m < w@.len() && same_relation(#[trigger] &w@[m], &v@[j]) by {
                    if j < k {
                        let m = choose|m: int| 0 <= m < before.len() && same_relation(#[trigger] &before[m], &v@[j]);
                        assert(w@[m] == before[m]);
                    } else {
                        assert(same_relation(&w@[before.len() as int], &v@[j]));
                    }
                }
            }
        }
        k = k + 1;
    }
    w
}

impl Preorders {
    /// No table holds the same relation twice.
    pub open spec fn distinct(&self) -> bool {
        &&& pairwise_differ(self.preorders@)
        &&& pairwise_differ(self.partial_orders@)
        &&& pairwise_differ(self.weak_orders@)
    }

    /// The tables hold relations on `n` alternatives; the partial orders are strict
    /// and the weak orders total.
    pub open spec fn wf(&self, n: int) -> bool {
        &&& all_preorders(self.preorders@, n)
        &&& all_preorders(self.partial_orders@, n)
        &&& all_preorders(self.weak_orders@, n)
        &&& forall|k: int| 0 <= k < self.partial_orders@.len() ==> strict(#[trigger] &self.partial_orders@[k])
        &&& forall|k: int| 0 <= k < self.weak_orders@.len() ==> total(#[trigger] &self.weak_orders@[k])
        &&& filtered(self.partial_orders@, self.preorders@, true)
        &&& filtered(self.weak_orders@, self.preorders@, false)
    }

    /// Sorts `preorders` into the three tables.
    fn from_preorders(preorders: Vec<Preorder>, Ghost(n): Ghost<int>) -> (r: Preorders)
        requires
            all_preorders(preorders@, n),
        ensures
            r.wf(n),
            r.preorders@ == preorders@,
            pairwise_differ(preorders@) ==> pairwise_differ(r.partial_orders@) && pairwise_differ(r.weak_orders@),
    {
        let mut partial_orders: Vec<Preorder> = Vec::new();
        let mut weak_orders: Vec<Preorder> = Vec::new();
        proof {
            lemma_kept_empty(preorders@);
        }
        let mut k: usize = 0;
        while k < preorders.len()
            invariant
                k <= preorders@.len(),
                all_preorders(preorders@, n),
                all_preorders(partial_orders@, n),
                all_preorders(weak_orders@, n),
                forall|j: int| 0 <= j < partial_orders@.len() ==> strict(#[trigger] &partial_orders@[j]),
                forall|j: int| 0 <= j < weak_orders@.len() ==> total(#[trigger] &weak_orders@[j]),
                kept_from(partial_orders@, preorders@, k as int),
                kept_from(weak_orders@, preorders@, k as int),
                pairwise_differ(preorders@) ==> pairwise_differ(partial_orders@) && pairwise_differ(weak_orders@),
                forall|j: int| 0 <= j < k && strict(&preorders@[j]) ==> exists|m: int|
                    0 <= m < partial_orders@.len() && same_relation(#[trigger] &partial_orders@[m], &preorders@[j]),
                forall|j: int| 0 <= j < k && total(&preorders@[j]) ==> exists|m: int|
                    0 <= m < weak_orders@.len() && same_relation(#[trigger] &weak_orders@[m], &preorders@[j]),
            decreases preorders@.len() - k,
        {
            let p = &preorders[k];
            proof {
                assert(same_relation(&preorders@[k as int], &preorders@[k as int]));
            }
            if p.is_strict() {
                let q = p.clone();
                proof {
                    crate::preorder::lemma_same_as(&q, p);
                    assert(strict(&q) == strict(p));
                    assert(reflexive(&q) == reflexive(p));
                }
                let ghost before = partial_orders@;
                partial_orders.push(q);
                proof {
                    lemma_keep_one(before, preorders@, k as int, q);
                    assert(partial_orders@[before.len() as int] == q);
                    assert(same_relation(&q, &preorders@[k as int]));
                    assert forall|j: int| 0 <= j < k + 1 && strict(&preorders@[j]) implies exists|m: int|
                        0 <= m < partial_orders@.len() && same_relation(#[trigger] &partial_orders@[m], &preorders@[j]) by {
                        if j < k {
                            let m = choose|m: int| 0 <= m < before.len() && same_relation(#[trigger] &before[m], &preorders@[j]);
                            assert(partial_orders@[m] == before[m]);
                        } else {
                            assert(same_relation(&partial_orders@[before.len() as int], &preorders@[j]));
                        }
                    }
                }
            }
            if p.is_total() {
                let q = p.clone();
                proof {
                    crate::preorder::lemma_same_as(&q, p);
                    assert(total(&q) == total(p));
                    assert(reflexive(&q) == reflexive(p));
                }
                let ghost before = weak_orders@;
                weak_orders.push(q);
                proof {
                    lemma_keep_one(before, preorders@, k as int, q);
                    assert(weak_orders@[before.len() as int] == q);
                    assert(same_relation(&q, &preorders@[k as int]));
                    assert forall|j: int| 0 <= j < k + 1 && total(&preorders@[j]) implies exists|m: int|
                        0 <= m < weak_orders@.len() && same_relation(#[trigger] &weak_orders@[m], &preorders@[j]) by {
                        if j < k {
                            let m = choose|m: int| 0 <= m < before.len() && same_relation(#[trigger] &before[m], &preorders@[j]);
                            assert(weak_orders@[m] == before[m]);
                        } else {
                            assert(same_relation(&weak_orders@[before.len() as int], &preorders@[j]));
                        }
                    }
                }
            }
            k = k + 1;
        }
        Preorders { preorders, partial_orders, weak_orders }
    }
}

/// `kept` is `source` filtered by strictness (`by_strict`) or by totality, in order: copies
/// of members of `source` at increasing positions, and a copy of every member that passes.
pub open spec fn filtered(kept: Seq<Preorder>, source: Seq<Preorder>, by_strict: bool) -> bool {
    &&& kept_from(kept, source, source.len() as int)
    &&& forall|j: int| 0 <= j < source.len() && (if by_strict { strict(&source[j]) } else { total(&source[j]) }) ==> exists|m: int|
        0 <= m < kept.len() && same_relation(#[trigger] &kept[m], &source[j])
}

/// Each relation of `kept` is, in order, the same relation as one of the first `k` of
/// `source`, at strictly increasing positions.
pub open spec fn kept_from(kept: Seq<Preorder>, source: Seq<Preorder>, k: int) -> bool {
    exists|pos: Seq<int>| {
        &&& pos.len() == kept.len()
        &&& forall|m: int| 0 <= m < pos.len() ==> 0 <= #[trigger] pos[m] < k
        &&& forall|a: int, b: int| 0 <= a < b < pos.len() ==> pos[a] < pos[b]
        &&& forall|m: int| 0 <= m < pos.len() ==> same_relation(#[trigger] &kept[m], &source[pos[m]])
    }
}

pub proof fn lemma_kept_empty(source: Seq<Preorder>)
    ensures
        kept_from(Seq::<Preorder>::empty(), source, 0),
{
    let pos = Seq::<int>::empty();
    assert(pos.len() == Seq::<Preorder>::empty().len());
}

pub proof fn lemma_same_relation_differ(a: &Preorder, b: &Preorder, c: &Preorder)
    requires
        differ(a, b),
        same_relation(b, c),
    ensures
        differ(a, c),
{
    if same_relation(a, c) {
        assert forall|i: int, j: int| 0 <= i < a.n() && 0 <= j < a.n() implies #[trigger] a.le(i, j) == b.le(i, j) by {
            assert(c.le(i, j) == b.le(i, j));
        }
    }
}

/// Keeping one more relation, a copy of `source[k]`, after copies of earlier ones.
pub proof fn lemma_keep_one(kept: Seq<Preorder>, source: Seq<Preorder>, k: int, q: Preorder)
    requires
        0 <= k < source.len(),
        kept_from(kept, source, k),
        same_relation(&q, &source[k]),
        pairwise_differ(source) ==> pairwise_differ(kept),
    ensures
        kept_from(kept.push(q), source, k + 1),
        pairwise_differ(source) ==> pairwise_differ(kept.push(q)),
{
    let pos = choose|pos: Seq<int>| {
        &&& pos.len() == kept.len()
        &&& forall|m: int| 0 <= m < pos.len() ==> 0 <= #[trigger] pos[m] < k
        &&& forall|a: int, b: int| 0 <= a < b < pos.len() ==> pos[a] < pos[b]
        &&& forall|m: int| 0 <= m < pos.len() ==> same_relation(#[trigger] &kept[m], &source[pos[m]])
    };
    let pos2 = pos.push(k);
    let kept2 = kept.push(q);
    assert forall|m: int| 0 <= m < pos2.len() implies same_relation(#[trigger] &kept2[m], &source[pos2[m]]) by {
        if m < pos.len() {
            assert(kept2[m] == kept[m]);
            assert(pos2[m] == pos[m]);
        }
    }
    assert forall|m: int| 0 <= m < pos2.len() implies 0 <= #[trigger] pos2[m] < k + 1 by {
        if m < pos.len() {
            assert(pos2[m] == pos[m]);
        }
    }
    assert forall|a: int, b: int| 0 <= a < b < pos2.len() implies pos2[a] < pos2[b] by {
        assert(pos2[a] == pos[a]);
        if b < pos.len() {
            assert(pos2[b] == pos[b]);
        }
    }
    if pairwise_differ(source) {
        assert forall|a: int, b: int| 0 <= a < kept2.len() && 0 <= b < kept2.len() && a != b implies differ(&kept2[a], &kept2[b]) by {
            if a < kept.len() && b < kept.len() {
                assert(kept2[a] == kept[a]);
                assert(kept2[b] == kept[b]);
            } else {
                let (x, y) = if a < kept.len() { (a, b) } else { (b, a) };
                // kept2[x] copies source[pos[x]], kept2[y] copies source[k]
                assert(kept2[x] == kept[x]);
                assert(kept2[y] == q);
                assert(differ(&source[pos[x]], &source[k]));
                lemma_same_relation_differ(&source[pos[x]], &source[k], &q);
                lemma_differ_sym(&source[pos[x]], &q);
                lemma_same_relation_differ(&q, &source[pos[x]], &kept[x]);
                lemma_differ_sym(&q, &kept[x]);
            }
        }
    }
}

pub proof fn lemma_differ_sym(a: &Preorder, b: &Preorder)
    requires
        differ(a, b),
    ensures
        differ(b, a),
{
    if same_relation(b, a) {
        assert forall|i: int, j: int| 0 <= i < a.n() && 0 <= j < a.n() implies #[trigger] a.le(i, j) == b.le(i, j) by {
            assert(b.le(i, j) == a.le(i, j));
        }
    }
}

/// Relations decoded from packed rows, one `u64` per relation.
pub fn decode_preorders(size: u32, words: &[u64]) -> (r: Vec<Preorder>)
    requires
        size <= 8,
    ensures
        r@.len() == words@.len(),
        forall|k: int| 0 <= k < r@.len() ==> (#[trigger] r@[k]).wf() && r@[k].n() == size,
{
    let mut r: Vec<Preorder> = Vec::new();
    let mut k: usize = 0;
    while k < words.len()
        invariant
            size <= 8,
            k <= words@.len(),
            r@.len() == k,
            forall|j: int| 0 <= j < r@.len() ==> (#[trigger] r@[j]).wf() && r@[j].n() == size,
        decreases words@.len() - k,
    {
        r.push(Preorder::from_fast_preorder(size, FastPreorder(words[k])));
        k = k + 1;
    }
    r
}

/// The tables for every number of alternatives up to some bound.
pub struct Precomputed {
    preorders: Vec<Preorders>,
    loaded: Option<Vec<u64>>,
}

impl Precomputed {
    /// Every table present is well formed.
    pub closed spec fn wf(&self) -> bool {
        &&& self.preorders@.len() <= 8
        &&& forall|k: int| 0 <= k < self.preorders@.len() ==> (#[trigger] self.preorders@[k]).wf(k)
        &&& forall|k: int| 0 <= k < self.preorders@.len() && k < 7 ==> (#[trigger] self.preorders@[k]).distinct()
        &&& forall|k: int| 0 <= k < self.preorders@.len() && k < 7 ==> has_identity((#[trigger] self.preorders@[k]).preorders@, k)
    }

    /// The tables for `k` alternatives.
    pub closed spec fn table(&self, k: int) -> Preorders {
        self.preorders@[k]
    }

    /// The packed preorders on seven alternatives were given.
    pub closed spec fn has_words(&self) -> bool {
        self.loaded is Some
    }

    /// The number of alternatives for which tables are present: `0 .. count()`.
    pub closed spec fn count(&self) -> int {
        self.preorders@.len() as int
    }

    /// No tables yet. `seven` holds the packed preorders on seven alternatives, if known.
    pub fn new(seven: Option<Vec<u64>>) -> (r: Precomputed)
        ensures
            r.wf(),
            r.count() == 0,
            r.has_words() == seven is Some,
    {
        Precomputed { preorders: Vec::new(), loaded: seven }
    }

    /// Builds the tables up to `max_size` alternatives. Up to six alternatives they are
    /// enumerated; seven need the packed preorders given to `new`; more are refused.
    pub fn precompute(&mut self, max_size: u32) -> (r: Result<(), Error>)
        requires
            old(self).wf(),
        ensures
            final(self).wf(),
            final(self).count() >= old(self).count(),
            final(self).has_words() == old(self).has_words(),
            r is Ok <==> (max_size < old(self).count() || max_size < 7 || (max_size == 7 && old(self).has_words())),
            r is Ok ==> final(self).count() == if max_size < old(self).count() { old(self).count() } else { max_size + 1 },
            r matches Err(e) ==> e == (if max_size >= 8 && (old(self).has_words() || old(self).count() == 8) {
                Error::TooManyAlternatives(max_size)
            } else {
                Error::NeedPrecomputedPreorders
            }),
            r matches Err(e) ==> final(self).count() == if e == Error::NeedPrecomputedPreorders { 7int } else { 8int },
            forall|k: int| 0 <= k < old(self).count() ==> #[trigger] final(self).table(k) == old(self).table(k),
    {
        let mut size: u32 = self.preorders.len() as u32;
        while size <= max_size
            invariant
                self.wf(),
                self.count() >= old(self).count(),
                self.count() == size,
                size <= 8,
                self.has_words() == old(self).has_words(),
                size > old(self).count() ==> size <= max_size + 1 && old(self).count() <= max_size,
                size > 7 ==> old(self).has_words() || old(self).count() == 8,
                forall|k: int| 0 <= k < old(self).count() ==> #[trigger] self.table(k) == old(self).table(k),
            decreases max_size + 1 - size,
        {
            let preorders: Vec<Preorder> = if size < 7 {
                let fast = fast_preorder::all(size);
                let mut v: Vec<Preorder> = Vec::new();
                let mut k: usize = 0;
                while k < fast.len()
                    invariant
                        size < 7,
                        k <= fast@.len(),
                        forall|j: int| 0 <= j < fast@.len() ==> fast_preorder::diagonal_set((#[trigger] fast@[j]).0, size as int),
                        forall|j: int| 0 <= j < fast@.len() ==> fast_preorder::in_cells((#[trigger] fast@[j]).0, size as int),
                        forall|a: int, b: int| 0 <= a < fast@.len() && 0 <= b < fast@.len() && a != b ==> fast@[a].0 != fast@[b].0,
                        forall|j: int| 0 <= j < v@.len() ==> (#[trigger] v@[j]).wf() && v@[j].n() == size,
                        v@.len() == k,
                        forall|j: int, a: int, b: int| 0 <= j < k && 0 <= a < size && 0 <= b < size ==> #[trigger] v@[j].le(a, b) == fast_preorder::fast_bit(fast@[j].0, a, b),
                        pairwise_differ(v@),
                    decreases fast@.len() - k,
                {
                    let p = Preorder::from_fast_preorder(size, fast[k]);
                    proof {
                        assert(fast_preorder::diagonal_set(fast@[k as int].0, size as int));
                        assert forall|i: int| 0 <= i < p.n() implies #[trigger] p.le(i, i) by {
                            assert(fast_preorder::fast_bit(fast@[k as int].0, i, i));
                        }
                    }
                    let ghost before = v@;
                    v.push(p);
                    proof {
                        assert forall|a: int, b: int| 0 <= a < v@.len() && 0 <= b < v@.len() && a != b implies differ(&v@[a], &v@[b]) by {
                            if a < before.len() && b < before.len() {
                                assert(v@[a] == before[a]);
                                assert(v@[b] == before[b]);
                            } else {
                                let (x, y) = if a < before.len() { (a, b) } else { (b, a) };
                                assert(y == k);
                                fast_preorder::lemma_distinct_cells(fast@[x].0, fast@[y].0, size as int);
                                let (i, j) = choose|i: int, j: int| 0 <= i < size && 0 <= j < size && #[trigger] fast_preorder::fast_bit(fast@[x].0, i, j) != fast_preorder::fast_bit(fast@[y].0, i, j);
                                assert(v@[x].le(i, j) == fast_preorder::fast_bit(fast@[x].0, i, j));
                                assert(v@[y].le(i, j) == fast_preorder::fast_bit(fast@[y].0, i, j));
                                assert(!same_relation(&v@[x], &v@[y]));
                                assert(!same_relation(&v@[y], &v@[x]));
                            }
                        }
                    }
                    k = k + 1;
                }
                let kept = keep_preorders(&v, Ghost(size as int));
                proof {
                    let w = choose|w: int| 0 <= w < fast@.len() && fast_preorder::identity_word((#[trigger] fast@[w]).0, size as int);
                    assert forall|a: int, b: int| 0 <= a < size && 0 <= b < size implies #[trigger] v@[w].le(a, b) == (a == b) by {
                        assert(v@[w].le(a, b) == fast_preorder::fast_bit(fast@[w].0, a, b));
                    }
                    assert(identity_rel(&v@[w], size as int));
                    assert(reflexive(&v@[w]));
                    assert(transitive(&v@[w]));
                    let m = choose|m: int| 0 <= m < kept@.len() && same_relation(#[trigger] &kept@[m], &v@[w]);
                    assert(identity_rel(&kept@[m], size as int));
                }
                kept
            } else if size == 7 {
                match &self.loaded {
                    Some(words) => {
                        let v = decode_preorders(7, words.as_slice());
                        keep_preorders(&v, Ghost(7))
                    },
                    None => {
                        proof {
                            assert(self.count() == 7);
                        }
                        return Err(Error::NeedPrecomputedPreorders);
                    },
                }
            } else {
                proof {
                    assert(size == 8);
                    assert(self.count() == 8);
                    assert(Error::TooManyAlternatives(max_size) != Error::NeedPrecomputedPreorders);
                }
                return Err(Error::TooManyAlternatives(max_size));
            };
            let ghost pre = preorders@;
            let tables = Preorders::from_preorders(preorders, Ghost(size as int));
            proof {
                if size < 7 {
                    assert(has_identity(pre, size as int));
                }
            }
            let ghost before = self.preorders@;
            let ghost prev = *self;
            self.preorders.push(tables);
            proof {
                assert forall|k: int| 0 <= k < old(self).count() implies #[trigger] self.table(k) == old(self).table(k) by {
                    assert(prev.table(k) == old(self).table(k));
                    assert(self.preorders@[k] == before[k]);
                }
            }
            if size == max_size {
                return Ok(());
            }
            size = size + 1;
        }
        Ok(())
    }

    /// The tables for `size` alternatives, if present.
    pub fn get(&self, size: u32) -> (r: Result<&Preorders, Error>)
        requires
            self.wf(),
        ensures
            r is Ok <==> size < self.count(),
            r matches Ok(t) ==> t.wf(size as int),
            r matches Ok(t) ==> *t == self.table(size as int),
            r matches Ok(t) ==> (size < 7 ==> t.distinct()),
            r matches Ok(t) ==> (size < 7 ==> has_identity(t.preorders@, size as int)),
            r matches Err(e) ==> e == Error::TooManyAlternatives(size),
    {
        if size as usize >= self.preorders.len() {
            return Err(Error::TooManyAlternatives(size));
        }
        Ok(&self.preorders[size as usize])
    }
}

} // verus!
