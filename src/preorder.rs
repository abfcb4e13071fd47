//! Binary relations on alternatives stored as bit matrices, row by row.
use vstd::prelude::*;
use crate::alt::Alt;
use crate::alt_set::{marks, set_of, AltSetView, Block};
use crate::bits::{bit, lemma_bit_clear, lemma_bit_max, lemma_bit_set};
use crate::fast_preorder::{fast_bit, FastPreorder};
use crate::digraph::{reaches, simplify_edges};

verus! {

/// The largest number of alternatives a relation may range over.
pub const MAX_ALTS: u32 = 0x10000;

/// Blocks per row of a relation on `n` alternatives.
pub open spec fn stride_of(n: int) -> int {
    (n + 31) / 32
}

/// Index of the block holding cell `(i, j)`.
pub open spec fn cell(stride: int, i: int, j: int) -> int {
    i * stride + j / 32
}

pub proof fn lemma_cell(n: int, i: int, j: int)
    requires
        0 <= n <= MAX_ALTS,
        0 <= i < n,
        0 <= j < stride_of(n) * 32,
    ensures
        0 <= j / 32 < stride_of(n),
        i * stride_of(n) <= cell(stride_of(n), i, j) < (i + 1) * stride_of(n),
        (i + 1) * stride_of(n) <= n * stride_of(n),
        (i + 1) * stride_of(n) == i * stride_of(n) + stride_of(n),
        n * stride_of(n) <= MAX_ALTS * 2048,
        stride_of(n) <= 2048,
        j < n ==> j < stride_of(n) * 32,
{
    let s = stride_of(n);
    assert(s <= 2048);
    assert(0 <= j / 32 < s);
    assert((i + 1) * s == i * s + s) by (nonlinear_arith);
    assert((i + 1) * s <= n * s) by (nonlinear_arith)
        requires
            i + 1 <= n,
            0 <= s,
    ;
    assert(n * s <= MAX_ALTS * 2048) by (nonlinear_arith)
        requires
            0 <= n <= MAX_ALTS,
            0 <= s <= 2048,
    ;
}

pub proof fn lemma_total(n: int)
    requires
        0 <= n <= MAX_ALTS,
    ensures
        0 <= stride_of(n) <= 2048,
        0 <= n * stride_of(n) <= MAX_ALTS * 2048,
{
    let s = stride_of(n);
    assert(n * s <= MAX_ALTS * 2048) by (nonlinear_arith)
        requires
            0 <= n <= MAX_ALTS,
            0 <= s <= 2048,
    ;
    assert(0 <= n * s) by (nonlinear_arith)
        requires
            0 <= n,
            0 <= s,
    ;
}

pub proof fn lemma_cell_inj(n: int, p: int, q: int, i: int, j: int)
    requires
        0 <= n <= MAX_ALTS,
        0 <= p < n,
        0 <= i < n,
        0 <= q < stride_of(n) * 32,
        0 <= j < stride_of(n) * 32,
        cell(stride_of(n), p, q) == cell(stride_of(n), i, j),
    ensures
        p == i,
        q / 32 == j / 32,
{
    let s = stride_of(n);
    let x = cell(s, p, q);
    vstd::arithmetic::div_mod::lemma_fundamental_div_mod_converse(x, s, p, q / 32);
    vstd::arithmetic::div_mod::lemma_fundamental_div_mod_converse(x, s, i, j / 32);
}

/// A binary relation `≤` on the alternatives `0 .. size`.
/// Row `i` holds, as a set of alternatives, the `j` with `i ≤ j`.
#[derive(Debug, Hash)]
pub struct Preorder {
    blocks: Vec<Block>,
    size: u32,
}

/// `p` is reflexive.
pub open spec fn reflexive(p: &Preorder) -> bool {
    forall|i: int| 0 <= i < p.n() ==> #[trigger] p.le(i, i)
}

/// `p` is transitive.
pub open spec fn transitive(p: &Preorder) -> bool {
    forall|i: int, j: int, k: int|
        0 <= i < p.n() && 0 <= j < p.n() && 0 <= k < p.n() && #[trigger] p.le(i, j) && #[trigger] p.le(j, k)
            ==> p.le(i, k)
}

/// No two distinct alternatives are equivalent.
pub open spec fn strict(p: &Preorder) -> bool {
    forall|i: int, j: int| 0 <= i < p.n() && 0 <= j < p.n() && i != j ==> !(#[trigger] p.le(i, j) && #[trigger] p.le(j, i))
}

/// Any two distinct alternatives are comparable.
pub open spec fn total(p: &Preorder) -> bool {
    forall|i: int, j: int| 0 <= i < p.n() && 0 <= j < p.n() && i != j ==> (#[trigger] p.le(i, j) || #[trigger] p.le(j, i))
}

/// `x` comes before `y` in row-major order.
pub open spec fn pair_lt(x: (Alt, Alt), y: (Alt, Alt)) -> bool {
    x.0.0 < y.0.0 || (x.0.0 == y.0.0 && x.1.0 < y.1.0)
}

/// `p` and `q` are the same relation.
pub open spec fn same_relation(p: &Preorder, q: &Preorder) -> bool {
    p.n() == q.n() && forall|i: int, j: int| 0 <= i < p.n() && 0 <= j < p.n() ==> #[trigger] p.le(i, j) == q.le(i, j)
}

/// `p` is the identity relation on `n` alternatives.
pub open spec fn identity_rel(p: &Preorder, n: int) -> bool {
    p.n() == n && forall|i: int, j: int| 0 <= i < n && 0 <= j < n ==> #[trigger] p.le(i, j) == (i == j)
}

/// `p` and `q` are different relations.
pub open spec fn differ(p: &Preorder, q: &Preorder) -> bool {
    !same_relation(p, q)
}

/// No two relations of `v` are the same.
pub open spec fn pairwise_differ(v: Seq<Preorder>) -> bool {
    forall|a: int, b: int| 0 <= a < v.len() && 0 <= b < v.len() && a != b ==> differ(&v[a], &v[b])
}

/// `i < j`: `i ≤ j` but not `j ≤ i`.
pub open spec fn lt_spec(p: &Preorder, i: int, j: int) -> bool {
    p.le(i, j) && !p.le(j, i)
}

/// The upset of `i`: the alternatives `j` with `i ≤ j`.
pub open spec fn upset_spec(p: &Preorder, i: int) -> Set<Alt> {
    Set::new(|a: Alt| a.0 < p.n() && p.le(i, a.0 as int))
}

impl Preorder {
    /// The number of alternatives.
    pub closed spec fn n(&self) -> int {
        self.size as int
    }

    /// `i ≤ j`.
    pub closed spec fn le(&self, i: int, j: int) -> bool {
        bit(self.blocks@[cell(stride_of(self.size as int), i, j)], (j % 32) as u32)
    }

    /// Well-formedness: the blocks have the right length, and no bit is set
    /// past the last alternative of a row.
    pub closed spec fn wf(&self) -> bool {
        &&& self.size <= MAX_ALTS
        &&& self.blocks@.len() == self.size * stride_of(self.size as int)
        &&& forall|i: int, j: int|
            0 <= i < self.size && self.size <= j < stride_of(self.size as int) * 32 ==> !#[trigger] bit(
                self.blocks@[cell(stride_of(self.size as int), i, j)],
                (j % 32) as u32,
            )
    }

    /// A well-formed relation has at most `MAX_ALTS` alternatives.
    pub proof fn lemma_wf_bound(&self)
        requires
            self.wf(),
        ensures
            0 <= self.n() <= MAX_ALTS,
    {
    }

    /// The blocks, row by row.
    pub closed spec fn block_seq(&self) -> Seq<u32> {
        self.blocks@
    }

    /// A well-formed relation has at most `MAX_ALTS * 2048` blocks.
    pub proof fn lemma_block_count(&self)
        requires
            self.wf(),
        ensures
            self.block_seq().len() <= MAX_ALTS * 2048,
    {
        lemma_total(self.size as int);
    }

    /// The blocks, row by row.
    pub fn blocks(&self) -> (r: &Vec<Block>)
        ensures
            r@ == self.block_seq(),
    {
        &self.blocks
    }

    /// The number of alternatives, of a relation that need not be well formed.
    pub fn size_unchecked(&self) -> (r: u32)
        ensures
            r == self.n(),
    {
        self.size
    }

    /// The number of alternatives.
    pub fn size(&self) -> (r: u32)
        requires
            self.wf(),
        ensures
            r == self.n(),
            r <= MAX_ALTS,
    {
        self.size
    }

    /// The empty relation on `size` alternatives.
    fn zeros(size: u32) -> (r: Preorder)
        requires
            size <= MAX_ALTS,
        ensures
            r.wf(),
            r.n() == size,
            forall|i: int, j: int| 0 <= i < size && 0 <= j < size ==> !#[trigger] r.le(i, j),
    {
        proof {
            lemma_total(size as int);
        }
        let stride = ((size + 31) / 32) as usize;
        let total = (size as usize) * stride;
        proof {
            lemma_total(size as int);
        }
        let mut blocks: Vec<Block> = Vec::new();
        let mut k: usize = 0;
        while k < total
            invariant
                k <= total,
                blocks@.len() == k,
                forall|p: int| 0 <= p < k ==> blocks@[p] == 0,
            decreases total - k,
        {
            blocks.push(0);
            k = k + 1;
        }
        proof {
            assert forall|i: int, j: int| 0 <= i < size && 0 <= j < stride_of(size as int) * 32 implies !#[trigger] bit(
                blocks@[cell(stride_of(size as int), i, j)],
                (j % 32) as u32,
            ) by {
                lemma_cell(size as int, i, j);
                lemma_bit_max((j % 32) as u32);
            }
        }
        let r = Preorder { blocks, size };
        proof {
            assert forall|i: int, j: int| 0 <= i < size && 0 <= j < size implies !#[trigger] r.le(i, j) by {
                lemma_cell(size as int, i, j);
            }
        }
        r
    }

    /// Sets whether `i ≤ j`.
    pub fn set_leq(&mut self, i: Alt, j: Alt, leq: bool)
        requires
            old(self).wf(),
            i.0 < old(self).n(),
            j.0 < old(self).n(),
        ensures
            final(self).wf(),
            final(self).n() == old(self).n(),
            final(self).le(i.0 as int, j.0 as int) == leq,
            forall|p: int, q: int|
                0 <= p < old(self).n() && 0 <= q < old(self).n() && (p != i.0 || q != j.0) ==> #[trigger] final(self).le(p, q)
                    == old(self).le(p, q),
    {
        proof {
                        lemma_cell(self.size as int, i.0 as int, j.0 as int);
        }
        let stride = ((self.size + 31) / 32) as usize;
        let idx = (i.0 as usize) * stride + (j.0 / 32) as usize;
        let ghost old_blocks = self.blocks@;
        let b = self.blocks[idx];
        let nb = if leq {
            b | (1u32 << (j.0 % 32))
        } else {
            b & !(1u32 << (j.0 % 32))
        };
        self.blocks.set(idx, nb);
        proof {
            let n = self.size as int;
            let s = stride_of(n);
            assert forall|p: int, q: int| 0 <= p < n && 0 <= q < s * 32 implies bit(
                #[trigger] self.blocks@[cell(s, p, q)],
                (q % 32) as u32,
            ) == (if p == i.0 && q == j.0 {
                leq
            } else {
                bit(old_blocks[cell(s, p, q)], (q % 32) as u32)
            }) by {
                lemma_cell(n, p, q);
                if cell(s, p, q) == idx {
                    lemma_cell_inj(n, p, q, i.0 as int, j.0 as int);
                    if leq {
                        lemma_bit_set(b, j.0 % 32, (q % 32) as u32);
                    } else {
                        lemma_bit_clear(b, j.0 % 32, (q % 32) as u32);
                    }
                    if q % 32 == j.0 % 32 {
                        vstd::arithmetic::div_mod::lemma_fundamental_div_mod(q, 32);
                        vstd::arithmetic::div_mod::lemma_fundamental_div_mod(j.0 as int, 32);
                    }
                }
            }
            assert forall|p: int, q: int|
                0 <= p < n && n <= q < s * 32 implies !#[trigger] bit(self.blocks@[cell(s, p, q)], (q % 32) as u32) by {
                lemma_cell(n, p, q);
                assert(bit(self.blocks@[cell(s, p, q)], (q % 32) as u32) == bit(old_blocks[cell(s, p, q)], (q % 32) as u32));
            }
            assert forall|p: int, q: int|
                0 <= p < n && 0 <= q < n && (p != i.0 || q != j.0) implies #[trigger] self.le(p, q) == old(self).le(p, q) by {
                lemma_cell(n, p, q);
            }
            lemma_cell(n, i.0 as int, j.0 as int);
        }
    }

    /// Whether `i ≤ j`.
    pub fn leq(&self, i: Alt, j: Alt) -> (r: bool)
        requires
            self.wf(),
            i.0 < self.n(),
            j.0 < self.n(),
        ensures
            r == self.le(i.0 as int, j.0 as int),
    {
        proof {
                        lemma_cell(self.size as int, i.0 as int, j.0 as int);
        }
        let stride = ((self.size + 31) / 32) as usize;
        let idx = (i.0 as usize) * stride + (j.0 / 32) as usize;
        (self.blocks[idx] >> (j.0 % 32)) & 1 == 1
    }

    /// Whether `i < j`.
    pub fn lt(&self, i: Alt, j: Alt) -> (r: bool)
        requires
            self.wf(),
            i.0 < self.n(),
            j.0 < self.n(),
        ensures
            r == lt_spec(self, i.0 as int, j.0 as int),
    {
        self.leq(i, j) && !self.leq(j, i)
    }

    /// Whether `i` and `j` are equivalent.
    pub fn eq(&self, i: Alt, j: Alt) -> (r: bool)
        requires
            self.wf(),
            i.0 < self.n(),
            j.0 < self.n(),
        ensures
            r == (self.le(i.0 as int, j.0 as int) && self.le(j.0 as int, i.0 as int)),
    {
        self.leq(i, j) && self.leq(j, i)
    }

    /// The identity relation on `size` alternatives.
    pub fn diagonal(size: u32) -> (r: Preorder)
        requires
            size <= MAX_ALTS,
        ensures
            reflexive(&r),
            r.wf(),
            r.n() == size,
            forall|i: int, j: int| 0 <= i < size && 0 <= j < size ==> #[trigger] r.le(i, j) == (i == j),
    {
        let mut r = Preorder::zeros(size);
        let mut k: u32 = 0;
        while k < size
            invariant
                k <= size,
                r.wf(),
                r.n() == size,
                forall|i: int, j: int| 0 <= i < size && 0 <= j < size ==> #[trigger] r.le(i, j) == (i == j && i < k),
            decreases size - k,
        {
            r.set_leq(Alt(k), Alt(k), true);
            k = k + 1;
        }
        r
    }

    /// The relation packed in `p`, on the first `size` alternatives.
    pub fn from_fast_preorder(size: u32, p: FastPreorder) -> (r: Preorder)
        requires
            size <= 8,
        ensures
            r.wf(),
            r.n() == size,
            forall|i: int, j: int| 0 <= i < size && 0 <= j < size ==> #[trigger] r.le(i, j) == fast_bit(p.0, i, j),
    {
        let mut r = Preorder::zeros(size);
        let mut i: u32 = 0;
        while i < size
            invariant
                i <= size <= 8,
                r.wf(),
                r.n() == size,
                forall|a: int, b: int| 0 <= a < size && 0 <= b < size ==> #[trigger] r.le(a, b) == (a < i && fast_bit(p.0, a, b)),
            decreases size - i,
        {
            let mut j: u32 = 0;
            while j < size
                invariant
                    i < size <= 8,
                    j <= size,
                    r.wf(),
                    r.n() == size,
                    forall|a: int, b: int| 0 <= a < size && 0 <= b < size ==> #[trigger] r.le(a, b) == ((a < i || (a == i && b < j)) && fast_bit(p.0, a, b)),
                decreases size - j,
            {
                let v = (p.0 >> (8 * i + j) as u64) & 1 == 1;
                r.set_leq(Alt(i), Alt(j), v);
                j = j + 1;
            }
            i = i + 1;
        }
        r
    }

    /// Whether no two distinct alternatives are equivalent.
    pub fn is_strict(&self) -> (r: bool)
        requires
            self.wf(),
        ensures
            r == strict(self),
    {
        let n = self.size();
        let mut i: u32 = 0;
        while i < n
            invariant
                i <= n,
                n == self.n(),
                self.wf(),
                forall|a: int, b: int| 0 <= a < i && 0 <= b < n && a != b ==> !(#[trigger] self.le(a, b) && #[trigger] self.le(b, a)),
            decreases n - i,
        {
            let mut j: u32 = 0;
            while j < n
                invariant
                    i < n,
                    j <= n,
                    n == self.n(),
                self.wf(),
                    forall|a: int, b: int| 0 <= a < i && 0 <= b < n && a != b ==> !(#[trigger] self.le(a, b) && #[trigger] self.le(b, a)),
                    forall|b: int| 0 <= b < j && i != b ==> !(#[trigger] self.le(i as int, b) && self.le(b, i as int)),
                decreases n - j,
            {
                if i != j && self.leq(Alt(i), Alt(j)) && self.leq(Alt(j), Alt(i)) {
                    return false;
                }
                j = j + 1;
            }
            i = i + 1;
        }
        true
    }

    /// Whether any two distinct alternatives are comparable.
    pub fn is_total(&self) -> (r: bool)
        requires
            self.wf(),
        ensures
            r == total(self),
    {
        let n = self.size();
        let mut i: u32 = 0;
        while i < n
            invariant
                i <= n,
                n == self.n(),
                self.wf(),
                forall|a: int, b: int| 0 <= a < i && 0 <= b < n && a != b ==> (#[trigger] self.le(a, b) || #[trigger] self.le(b, a)),
            decreases n - i,
        {
            let mut j: u32 = 0;
            while j < n
                invariant
                    i < n,
                    j <= n,
                    n == self.n(),
                self.wf(),
                    forall|a: int, b: int| 0 <= a < i && 0 <= b < n && a != b ==> (#[trigger] self.le(a, b) || #[trigger] self.le(b, a)),
                    forall|b: int| 0 <= b < j && i != b ==> (#[trigger] self.le(i as int, b) || self.le(b, i as int)),
                decreases n - j,
            {
                if i != j && !self.leq(Alt(i), Alt(j)) && !self.leq(Alt(j), Alt(i)) {
                    return false;
                }
                j = j + 1;
            }
            i = i + 1;
        }
        true
    }

    /// Whether the relation is transitive.
    pub fn is_transitive(&self) -> (r: bool)
        requires
            self.wf(),
        ensures
            r == transitive(self),
    {
        let n = self.size();
        let mut i: u32 = 0;
        while i < n
            invariant
                i <= n,
                n == self.n(),
                self.wf(),
                forall|a: int, b: int, c: int|
                    0 <= a < i && 0 <= b < n && 0 <= c < n && #[trigger] self.le(a, b) && #[trigger] self.le(b, c) ==> self.le(a, c),
            decreases n - i,
        {
            let mut j: u32 = 0;
            while j < n
                invariant
                    i < n,
                    j <= n,
                    n == self.n(),
                self.wf(),
                    forall|a: int, b: int, c: int|
                        0 <= a < i && 0 <= b < n && 0 <= c < n && #[trigger] self.le(a, b) && #[trigger] self.le(b, c) ==> self.le(a, c),
                    forall|b: int, c: int|
                        0 <= b < j && 0 <= c < n && #[trigger] self.le(i as int, b) && #[trigger] self.le(b, c) ==> self.le(i as int, c),
                decreases n - j,
            {
                let mut k: u32 = 0;
                while k < n
                    invariant
                        i < n,
                        j < n,
                        k <= n,
                        n == self.n(),
                self.wf(),
                        forall|a: int, b: int, c: int|
                            0 <= a < i && 0 <= b < n && 0 <= c < n && #[trigger] self.le(a, b) && #[trigger] self.le(b, c) ==> self.le(a, c),
                        forall|b: int, c: int|
                            0 <= b < j && 0 <= c < n && #[trigger] self.le(i as int, b) && #[trigger] self.le(b, c) ==> self.le(i as int, c),
                        forall|c: int|
                            0 <= c < k && self.le(i as int, j as int) && #[trigger] self.le(j as int, c) ==> self.le(i as int, c),
                    decreases n - k,
                {
                    if self.leq(Alt(i), Alt(j)) && self.leq(Alt(j), Alt(k)) && !self.leq(Alt(i), Alt(k)) {
                        return false;
                    }
                    k = k + 1;
                }
                j = j + 1;
            }
            i = i + 1;
        }
        true
    }

    /// Whether every alternative is `≤` itself.
    pub fn is_reflexive(&self) -> (r: bool)
        requires
            self.wf(),
        ensures
            r == reflexive(self),
    {
        let n = self.size();
        let mut i: u32 = 0;
        while i < n
            invariant
                i <= n,
                n == self.n(),
                self.wf(),
                forall|a: int| 0 <= a < i ==> #[trigger] self.le(a, a),
            decreases n - i,
        {
            if !self.leq(Alt(i), Alt(i)) {
                return false;
            }
            i = i + 1;
        }
        true
    }

    /// Row `i`: the alternatives `j` with `i ≤ j`.
    pub fn upset(&self, i: Alt) -> (r: AltSetView<'_>)
        requires
            self.wf(),
            i.0 < self.n(),
        ensures
            r@ == upset_spec(self, i.0 as int),
            r.wf(),
            r.blocks@.len() == stride_of(self.n()),
    {
        proof {
                        lemma_cell(self.size as int, i.0 as int, 0);
        }
        let stride = ((self.size + 31) / 32) as usize;
        let start = (i.0 as usize) * stride;
        assert(start + stride <= self.blocks@.len());
        let r = AltSetView { blocks: vstd::slice::slice_subrange(self.blocks.as_slice(), start, start + stride) };
        proof {
            let n = self.size as int;
            let s = stride_of(n);
            assert forall|a: Alt| #[trigger] r@.contains(a) == upset_spec(self, i.0 as int).contains(a) by {
                if a.0 < s * 32 {
                    lemma_cell(n, i.0 as int, a.0 as int);
                    assert(r.blocks@[(a.0 / 32) as int] == self.blocks@[cell(s, i.0 as int, a.0 as int)]);
                    assert(marks(r.blocks@, a.0) == bit(self.blocks@[cell(s, i.0 as int, a.0 as int)], a.0 % 32));
                    if a.0 < n {
                        assert(self.le(i.0 as int, a.0 as int) == bit(self.blocks@[cell(s, i.0 as int, a.0 as int)], a.0 % 32));
                    } else {
                        assert(!bit(self.blocks@[cell(s, i.0 as int, a.0 as int)], (a.0 % 32) as u32));
                    }
                } else {
                    assert(a.0 / 32 >= s);
                }
            }
            assert(r@ =~= upset_spec(self, i.0 as int));
        }
        r
    }
}


/// Number of bits of `m` set below position `i`.
pub open spec fn rank(m: u32, i: int) -> int
    decreases i,
{
    if i <= 0 {
        0
    } else {
        rank(m, i - 1) + if bit(m, (i - 1) as u32) { 1int } else { 0int }
    }
}

pub proof fn lemma_rank_mono(m: u32, i: int, k: int)
    requires
        0 <= i <= k,
    ensures
        rank(m, i) <= rank(m, k),
        0 <= rank(m, i),
    decreases k - i,
{
    if i < k {
        lemma_rank_mono(m, i, k - 1);
    }
    lemma_rank_nonneg(m, i);
}

pub proof fn lemma_rank_nonneg(m: u32, i: int)
    ensures
        0 <= rank(m, i),
    decreases i,
{
    if i > 0 {
        lemma_rank_nonneg(m, i - 1);
    }
}

/// `a` and `b` are distinct positions of `m` with a bit set: they have distinct ranks.
pub proof fn lemma_rank_strict(m: u32, a: int, b: int)
    requires
        0 <= a < b,
        bit(m, a as u32),
    ensures
        rank(m, a) < rank(m, b),
{
    lemma_rank_mono(m, a + 1, b);
}

/// The relation that `stuff` builds from `p`: the alternatives outside `mask` are below
/// everything, the others keep their relation from `p`, renumbered in order.
pub open spec fn stuffed(p: &Preorder, mask: u32, i: int, j: int) -> bool {
    if !bit(mask, i as u32) {
        true
    } else if !bit(mask, j as u32) {
        false
    } else {
        p.le(rank(mask, i), rank(mask, j))
    }
}

impl Preorder {
    /// `self` and `o` hold the same blocks for the same size.
    pub closed spec fn same_as(&self, o: &Preorder) -> bool {
        self.size == o.size && self.blocks@ == o.blocks@
    }

    /// The relation `i ≤ j` iff `values[i] <= values[j]`.
    pub fn from_values(values: &[u32]) -> (r: Preorder)
        requires
            values@.len() <= MAX_ALTS,
        ensures
            reflexive(&r),
            r.wf(),
            r.n() == values@.len(),
            forall|i: int, j: int|
                0 <= i < r.n() && 0 <= j < r.n() ==> #[trigger] r.le(i, j) == (values@[i] <= values@[j]),
    {
        let n = values.len() as u32;
        let mut r = Preorder::zeros(n);
        let mut i: u32 = 0;
        while i < n
            invariant
                i <= n,
                n == values@.len(),
                r.wf(),
                r.n() == n,
                forall|a: int, b: int| 0 <= a < n && 0 <= b < n ==> #[trigger] r.le(a, b) == (a < i && values@[a] <= values@[b]),
            decreases n - i,
        {
            let mut j: u32 = 0;
            while j < n
                invariant
                    i < n,
                    j <= n,
                    n == values@.len(),
                    r.wf(),
                    r.n() == n,
                    forall|a: int, b: int| 0 <= a < n && 0 <= b < n ==> #[trigger] r.le(a, b) == ((a < i || (a == i && b < j)) && values@[a] <= values@[b]),
                decreases n - j,
            {
                if values[i as usize] <= values[j as usize] {
                    r.set_leq(Alt(i), Alt(j), true);
                }
                j = j + 1;
            }
            i = i + 1;
        }
        r
    }

    /// Embeds `self` into a relation on `target_size` alternatives: the alternatives whose
    /// bit is set in `mask` take the place of `self`'s, in order; the others are below
    /// everything.
    pub fn stuff(&self, target_size: u32, mask: Block) -> (r: Preorder)
        requires
            self.wf(),
            target_size <= 32,
            self.n() == rank(mask, target_size as int),
        ensures
            r.wf(),
            r.n() == target_size,
            forall|i: int, j: int|
                0 <= i < target_size && 0 <= j < target_size ==> #[trigger] r.le(i, j) == stuffed(self, mask, i, j),
    {
        let mut r = Preorder::zeros(target_size);
        let mut i_src: u32 = 0;
        let mut i_dst: u32 = 0;
        while i_dst < target_size
            invariant
                i_dst <= target_size <= 32,
                self.wf(),
                self.n() == rank(mask, target_size as int),
                i_src == rank(mask, i_dst as int),
                r.wf(),
                r.n() == target_size,
                forall|a: int, b: int|
                    0 <= a < target_size && 0 <= b < target_size ==> #[trigger] r.le(a, b) == (a < i_dst && stuffed(self, mask, a, b)),
            decreases target_size - i_dst,
        {
            proof {
                lemma_rank_mono(mask, i_dst as int + 1, target_size as int);
            }
            if (mask >> i_dst) & 1 == 1 {
                let mut j_src: u32 = 0;
                let mut j_dst: u32 = 0;
                while j_dst < target_size
                    invariant
                        i_dst < target_size <= 32,
                        bit(mask, i_dst),
                        self.wf(),
                        self.n() == rank(mask, target_size as int),
                        i_src == rank(mask, i_dst as int),
                        i_src < self.n(),
                        j_src == rank(mask, j_dst as int),
                        j_dst <= target_size,
                        r.wf(),
                        r.n() == target_size,
                        forall|a: int, b: int|
                            0 <= a < target_size && 0 <= b < target_size ==> #[trigger] r.le(a, b) == ((a < i_dst || (a == i_dst && b < j_dst)) && stuffed(self, mask, a, b)),
                    decreases target_size - j_dst,
                {
                    proof {
                        lemma_rank_mono(mask, j_dst as int + 1, target_size as int);
                    }
                    if (mask >> j_dst) & 1 == 1 {
                        let v = self.leq(Alt(i_src), Alt(j_src));
                        r.set_leq(Alt(i_dst), Alt(j_dst), v);
                        j_src = j_src + 1;
                    }
                    j_dst = j_dst + 1;
                }
                i_src = i_src + 1;
            } else {
                let mut j_dst: u32 = 0;
                while j_dst < target_size
                    invariant
                        i_dst < target_size <= 32,
                        !bit(mask, i_dst),
                        j_dst <= target_size,
                        r.wf(),
                        r.n() == target_size,
                        forall|a: int, b: int|
                            0 <= a < target_size && 0 <= b < target_size ==> #[trigger] r.le(a, b) == ((a < i_dst || (a == i_dst && b < j_dst)) && stuffed(self, mask, a, b)),
                    decreases target_size - j_dst,
                {
                    r.set_leq(Alt(i_dst), Alt(j_dst), true);
                    j_dst = j_dst + 1;
                }
            }
            i_dst = i_dst + 1;
        }
        r
    }

    /// The pairs `(i, j)` with `i ≠ j` and `i ≤ j`, row by row.
    pub fn edges(&self) -> (r: Vec<(Alt, Alt)>)
        requires
            self.wf(),
        ensures
            forall|k: int|
                0 <= k < r@.len() ==> (#[trigger] r@[k]).0.0 < self.n() && r@[k].1.0 < self.n() && r@[k].0 != r@[k].1
                    && self.le(r@[k].0.0 as int, r@[k].1.0 as int),
            forall|i: u32, j: u32|
                i < self.n() && j < self.n() && i != j && self.le(i as int, j as int) ==> #[trigger] r@.contains((Alt(i), Alt(j))),
            forall|a: int, b: int| 0 <= a < b < r@.len() ==> pair_lt(#[trigger] r@[a], #[trigger] r@[b]),
            r@.no_duplicates(),
    {
        let n = self.size();
        let mut r: Vec<(Alt, Alt)> = Vec::new();
        let mut i: u32 = 0;
        while i < n
            invariant
                i <= n,
                n == self.n(),
                self.wf(),
                forall|k: int|
                    0 <= k < r@.len() ==> (#[trigger] r@[k]).0.0 < n && r@[k].1.0 < n && r@[k].0 != r@[k].1
                        && self.le(r@[k].0.0 as int, r@[k].1.0 as int),
                forall|p: u32, q: u32|
                    p < i && q < n && p != q && self.le(p as int, q as int) ==> #[trigger] r@.contains((Alt(p), Alt(q))),
                forall|a: int, b: int| 0 <= a < b < r@.len() ==> pair_lt(#[trigger] r@[a], #[trigger] r@[b]),
                forall|a: int| 0 <= a < r@.len() ==> (#[trigger] r@[a]).0.0 < i,
            decreases n - i,
        {
            let mut j: u32 = 0;
            while j < n
                invariant
                    i < n,
                    j <= n,
                    n == self.n(),
                    self.wf(),
                    forall|k: int|
                        0 <= k < r@.len() ==> (#[trigger] r@[k]).0.0 < n && r@[k].1.0 < n && r@[k].0 != r@[k].1
                            && self.le(r@[k].0.0 as int, r@[k].1.0 as int),
                    forall|p: u32, q: u32|
                        ((p < i) || (p == i && q < j)) && q < n && p != q && self.le(p as int, q as int) ==> #[trigger] r@.contains((Alt(p), Alt(q))),
                    forall|a: int, b: int| 0 <= a < b < r@.len() ==> pair_lt(#[trigger] r@[a], #[trigger] r@[b]),
                    forall|a: int| 0 <= a < r@.len() ==> pair_lt(#[trigger] r@[a], (Alt(i), Alt(j))),
                    forall|a: int| 0 <= a < r@.len() ==> (#[trigger] r@[a]).0.0 <= i,
                decreases n - j,
            {
                if i != j && self.leq(Alt(i), Alt(j)) {
                    let ghost old_r = r@;
                    r.push((Alt(i), Alt(j)));
                    proof {
                        assert(r@[old_r.len() as int] == (Alt(i), Alt(j)));
                        assert forall|a: int, b: int| 0 <= a < b < r@.len() implies pair_lt(#[trigger] r@[a], #[trigger] r@[b]) by {
                            if b < old_r.len() {
                                assert(r@[a] == old_r[a]);
                                assert(r@[b] == old_r[b]);
                            } else {
                                assert(r@[a] == old_r[a]);
                            }
                        }
                        assert forall|p: u32, q: u32|
                            ((p < i) || (p == i && q < j + 1)) && q < n && p != q && self.le(p as int, q as int) implies #[trigger] r@.contains((Alt(p), Alt(q))) by {
                            if p == i && q == j {
                            } else {
                                assert(old_r.contains((Alt(p), Alt(q))));
                                let k = choose|k: int| 0 <= k < old_r.len() && old_r[k] == (Alt(p), Alt(q));
                                assert(r@[k] == old_r[k]);
                            }
                        }
                    }
                }
                j = j + 1;
            }
            i = i + 1;
        }
        proof {
            assert forall|a: int, b: int| 0 <= a < r@.len() && 0 <= b < r@.len() && a != b implies r@[a] != r@[b] by {
                if a < b {
                    assert(pair_lt(r@[a], r@[b]));
                } else {
                    assert(pair_lt(r@[b], r@[a]));
                }
            }
        }
        r
    }
}

/// `blocks` is a valid row-major matrix of a relation on `size` alternatives.
pub open spec fn valid_blocks(size: int, blocks: Seq<u32>) -> bool {
    &&& size <= MAX_ALTS
    &&& blocks.len() == size * stride_of(size)
    &&& forall|i: int, j: int|
        0 <= i < size && size <= j < stride_of(size) * 32 ==> !#[trigger] bit(blocks[cell(stride_of(size), i, j)], (j % 32) as u32)
}

impl Preorder {
    /// The relation whose row-major matrix is `blocks`; `None` if the blocks do not
    /// describe a relation on `size` alternatives.
    pub fn from_blocks(size: u32, blocks: Vec<Block>) -> (r: Option<Preorder>)
        ensures
            r is Some <==> valid_blocks(size as int, blocks@),
            r matches Some(p) ==> p.wf() && p.n() == size && forall|i: int, j: int|
                0 <= i < size && 0 <= j < size ==> #[trigger] p.le(i, j) == bit(
                    blocks@[cell(stride_of(size as int), i, j)],
                    (j % 32) as u32,
                ),
    {
        if size > MAX_ALTS {
            return None;
        }
        proof {
            lemma_total(size as int);
        }
        let stride = ((size + 31) / 32) as usize;
        if blocks.len() != (size as usize) * stride {
            return None;
        }
        let limit = (stride as u32) * 32;
        let mut i: u32 = 0;
        while i < size
            invariant
                size <= MAX_ALTS,
                stride == stride_of(size as int),
                limit == stride * 32,
                blocks@.len() == size * stride,
                i <= size,
                forall|a: int, j: int|
                    0 <= a < i && size <= j < stride_of(size as int) * 32 ==> !#[trigger] bit(blocks@[cell(stride_of(size as int), a, j)], (j % 32) as u32),
            decreases size - i,
        {
            let mut j: u32 = size;
            while j < limit
                invariant
                    size <= MAX_ALTS,
                    stride == stride_of(size as int),
                    limit == stride * 32,
                    blocks@.len() == size * stride,
                    i < size,
                    size <= j <= limit,
                    forall|a: int, b: int|
                        0 <= a < i && size <= b < stride_of(size as int) * 32 ==> !#[trigger] bit(blocks@[cell(stride_of(size as int), a, b)], (b % 32) as u32),
                    forall|b: int| size <= b < j ==> !#[trigger] bit(blocks@[cell(stride_of(size as int), i as int, b)], (b % 32) as u32),
                decreases limit - j,
            {
                proof {
                    lemma_cell(size as int, i as int, j as int);
                }
                let idx = (i as usize) * stride + (j / 32) as usize;
                if (blocks[idx] >> (j % 32)) & 1 == 1 {
                    proof {
                        assert(bit(blocks@[cell(stride_of(size as int), i as int, j as int)], ((j as int) % 32) as u32));
                    }
                    return None;
                }
                j = j + 1;
            }
            i = i + 1;
        }
        Some(Preorder { blocks, size })
    }
}

/// The number of filled positions of `s`.
pub open spec fn count_some(s: Seq<Option<Alt>>) -> nat
    decreases s.len(),
{
    if s.len() == 0 {
        0
    } else {
        count_some(s.drop_last()) + if s.last() is Some { 1nat } else { 0nat }
    }
}

proof fn lemma_count_fill(s: Seq<Option<Alt>>, k: int, x: Alt)
    requires
        0 <= k < s.len(),
        s[k] is None,
    ensures
        count_some(s.update(k, Some(x))) == count_some(s) + 1,
    decreases s.len(),
{
    let t = s.update(k, Some(x));
    if k < s.len() - 1 {
        assert(t.drop_last() =~= s.drop_last().update(k, Some(x)));
        lemma_count_fill(s.drop_last(), k, x);
    } else {
        assert(t.drop_last() =~= s.drop_last());
    }
}

proof fn lemma_count_full(s: Seq<Option<Alt>>)
    requires
        count_some(s) >= s.len(),
    ensures
        forall|j: int| 0 <= j < s.len() ==> #[trigger] s[j] is Some,
    decreases s.len(),
{
    if s.len() > 0 {
        lemma_count_at_most(s.drop_last());
        lemma_count_full(s.drop_last());
        assert forall|j: int| 0 <= j < s.len() implies #[trigger] s[j] is Some by {
            if j < s.len() - 1 {
                assert(s.drop_last()[j] == s[j]);
            }
        }
    }
}

proof fn lemma_count_none(s: Seq<Option<Alt>>)
    requires
        forall|j: int| 0 <= j < s.len() ==> s[j] is None,
    ensures
        count_some(s) == 0,
    decreases s.len(),
{
    if s.len() > 0 {
        lemma_count_none(s.drop_last());
    }
}

proof fn lemma_count_at_most(s: Seq<Option<Alt>>)
    ensures
        count_some(s) <= s.len(),
    decreases s.len(),
{
    if s.len() > 0 {
        lemma_count_at_most(s.drop_last());
    }
}

/// In a strict preorder, an alternative strictly above another has a strictly smaller upset.
pub proof fn lemma_upset_shrinks(p: &Preorder, x: int, y: int)
    requires
        p.wf(),
        reflexive(p),
        transitive(p),
        strict(p),
        0 <= x < p.n(),
        0 <= y < p.n(),
        x != y,
        p.le(x, y),
    ensures
        upset_spec(p, y).len() < upset_spec(p, x).len(),
        upset_spec(p, x).finite(),
{
    p.lemma_wf_bound();
    crate::alt_set::lemma_alts_below_finite(p.n());
    let ux = upset_spec(p, x);
    let uy = upset_spec(p, y);
    assert(ux.subset_of(crate::alt_set::alts_below(p.n())));
    vstd::set_lib::lemma_len_subset(ux, crate::alt_set::alts_below(p.n()));
    let ax = Alt(x as u32);
    assert(ux.contains(ax));
    assert forall|a: Alt| uy.contains(a) implies ux.remove(ax).contains(a) by {
        assert(p.le(y, a.0 as int));
        assert(p.le(x, a.0 as int));
        if a == ax {
            assert(p.le(y, x));
        }
    }
    vstd::set_lib::lemma_len_subset(uy, ux.remove(ax));
}

impl Preorder {
    /// For a total and strict relation, the alternatives from the greatest down: position
    /// `k` holds the alternative whose upset has `k + 1` elements. `None` when the relation
    /// is not total or not strict, or when the upset sizes do not fill the positions exactly
    /// once.
    pub fn as_linear_order(&self) -> (r: Option<Vec<Alt>>)
        requires
            self.wf(),
        ensures
            !(total(self) && strict(self)) ==> r is None,
            reflexive(self) && transitive(self) && total(self) && strict(self) ==> r is Some,
            r matches Some(v) ==> (reflexive(self) && transitive(self) ==> forall|k: int, l: int|
                0 <= k < l < v@.len() ==> lt_spec(self, (#[trigger] v@[l]).0 as int, (#[trigger] v@[k]).0 as int)),
            r matches Some(v) ==> v@.len() == self.n() && forall|k: int|
                0 <= k < v@.len() ==> (#[trigger] v@[k]).0 < self.n() && upset_spec(self, v@[k].0 as int).len() == k + 1,
            r matches Some(v) ==> v@.no_duplicates(),
    {
        if !(self.is_total() && self.is_strict()) {
            return None;
        }
        let n = self.size();
        let mut order: Vec<Option<Alt>> = Vec::new();
        let mut k: u32 = 0;
        while k < n
            invariant
                k <= n,
                order@.len() == k,
                forall|j: int| 0 <= j < k ==> order@[j] is None,
            decreases n - k,
        {
            order.push(None);
            k = k + 1;
        }
        proof {
            lemma_count_none(order@);
        }
        let mut i: u32 = 0;
        while i < n
            invariant
                self.wf(),
                n == self.n(),
                i <= n,
                order@.len() == n,
                total(self),
                strict(self),
                forall|j: int| 0 <= j < n ==> (#[trigger] order@[j] matches Some(a) ==> a.0 < i && upset_spec(self, a.0 as int).len() == j + 1),
                reflexive(self) && transitive(self) ==> count_some(order@) == i,
            decreases n - i,
        {
            let up = self.upset(Alt(i));
            let s = up.size();
            proof {
                crate::alt_set::lemma_alts_below_finite(n as int);
                assert(up@.subset_of(crate::alt_set::alts_below(n as int)));
                vstd::set_lib::lemma_len_subset(up@, crate::alt_set::alts_below(n as int));
                if reflexive(self) {
                    assert(up@.contains(Alt(i)));
                    assert(s > 0);
                }
            }
            if s == 0 {
                return None;
            }
            proof {
                if reflexive(self) && transitive(self) {
                    let j = (s - 1) as int;
                    if order@[j] is Some {
                        let a = order@[j].unwrap();
                        assert(upset_spec(self, a.0 as int).len() == s);
                        assert(a.0 < i);
                        if self.le(a.0 as int, i as int) {
                            lemma_upset_shrinks(self, a.0 as int, i as int);
                        } else {
                            assert(self.le(i as int, a.0 as int));
                            lemma_upset_shrinks(self, i as int, a.0 as int);
                        }
                    }
                    lemma_count_fill(order@, j, Alt(i));
                }
            }
            order.set((s - 1) as usize, Some(Alt(i)));
            i = i + 1;
        }
        proof {
            if reflexive(self) && transitive(self) {
                lemma_count_full(order@);
            }
        }
        let mut r: Vec<Alt> = Vec::new();
        let mut k: usize = 0;
        while k < order.len()
            invariant
                n == self.n(),
                order@.len() == n,
                k <= n,
                r@.len() == k,
                forall|j: int| 0 <= j < n ==> (#[trigger] order@[j] matches Some(a) ==> a.0 < n && upset_spec(self, a.0 as int).len() == j + 1),
                forall|j: int| 0 <= j < k ==> order@[j] == Some(#[trigger] r@[j]),
                reflexive(self) && transitive(self) ==> forall|j: int| 0 <= j < n ==> #[trigger] order@[j] is Some,
            decreases n - k,
        {
            match order[k] {
                Some(a) => {
                    r.push(a);
                },
                None => {
                    return None;
                },
            }
            k = k + 1;
        }
        proof {
            assert forall|a: int, b: int| 0 <= a < r@.len() && 0 <= b < r@.len() && a != b implies r@[a] != r@[b] by {
                assert(order@[a] == Some(r@[a]));
                assert(order@[b] == Some(r@[b]));
            }
            if reflexive(self) && transitive(self) {
                assert forall|k: int, l: int| 0 <= k < l < r@.len() implies lt_spec(self, (#[trigger] r@[l]).0 as int, (#[trigger] r@[k]).0 as int) by {
                    assert(order@[k] == Some(r@[k]));
                    assert(order@[l] == Some(r@[l]));
                    let x = r@[k].0 as int;
                    let y = r@[l].0 as int;
                    assert(x != y);
                    if self.le(x, y) {
                        lemma_upset_shrinks(self, x, y);
                    }
                    assert(self.le(y, x));
                }
            }
        }
        Some(r)
    }
}

impl Preorder {
    /// The Hasse-style simplification of the relation's strict edges: no edge that other
    /// edges imply, the same reachability as `edges()`.
    pub fn simple_digraph(&self) -> (r: Vec<(Alt, Alt)>)
        requires
            self.wf(),
        ensures
            r@.no_duplicates(),
            forall|k: int| 0 <= k < r@.len() ==> (#[trigger] r@[k]).0 != r@[k].1 && self.le(r@[k].0.0 as int, r@[k].1.0 as int)
                && r@[k].0.0 < self.n() && r@[k].1.0 < self.n(),
            forall|i: u32, j: u32| i < self.n() && j < self.n() && i != j && self.le(i as int, j as int) ==> reaches(r@, Alt(i), Alt(j)),
            forall|k: int| 0 <= k < r@.len() ==> !reaches(r@.remove(k), (#[trigger] r@[k]).0, r@[k].1),
    {
        let edges = self.edges();
        let r = simplify_edges(edges.as_slice());
        proof {
            assert forall|k: int| 0 <= k < r@.len() implies (#[trigger] r@[k]).0 != r@[k].1 && self.le(r@[k].0.0 as int, r@[k].1.0 as int)
                && r@[k].0.0 < self.n() && r@[k].1.0 < self.n() by {
                assert(edges@.contains(r@[k]));
                let m = choose|m: int| 0 <= m < edges@.len() && edges@[m] == r@[k];
            }
            assert forall|i: u32, j: u32| i < self.n() && j < self.n() && i != j && self.le(i as int, j as int) implies reaches(r@, Alt(i), Alt(j)) by {
                assert(edges@.contains((Alt(i), Alt(j))));
                let m = choose|m: int| 0 <= m < edges@.len() && edges@[m] == (Alt(i), Alt(j));
                assert(reaches(r@, edges@[m].0, edges@[m].1));
            }
        }
        r
    }
}

impl Preorder {
    /// Keeps the relation among the alternatives of `alts`; every other alternative is
    /// related only to itself.
    pub fn restrict(&mut self, alts: AltSetView)
        requires
            old(self).wf(),
        ensures
            final(self).wf(),
            final(self).n() == old(self).n(),
            forall|i: int, j: int| 0 <= i < old(self).n() && 0 <= j < old(self).n() ==> #[trigger] final(self).le(i, j) == if alts@.contains(Alt(i as u32)) {
                old(self).le(i, j) && alts@.contains(Alt(j as u32))
            } else {
                i == j
            },
    {
        let n = self.size();
        let ghost orig = *self;
        let mut i: u32 = 0;
        while i < n
            invariant
                self.wf(),
                self.n() == n,
                orig.n() == n,
                i <= n,
                forall|a: int, b: int| 0 <= a < n && 0 <= b < n ==> #[trigger] self.le(a, b) == if a < i {
                    if alts@.contains(Alt(a as u32)) {
                        orig.le(a, b) && alts@.contains(Alt(b as u32))
                    } else {
                        a == b
                    }
                } else {
                    orig.le(a, b)
                },
            decreases n - i,
        {
            let keep = alts.contains(Alt(i));
            let mut j: u32 = 0;
            while j < n
                invariant
                    self.wf(),
                    self.n() == n,
                    orig.n() == n,
                    i < n,
                    j <= n,
                    keep == alts@.contains(Alt(i)),
                    forall|a: int, b: int| 0 <= a < n && 0 <= b < n ==> #[trigger] self.le(a, b) == if a < i || (a == i && b < j) {
                        if alts@.contains(Alt(a as u32)) {
                            orig.le(a, b) && alts@.contains(Alt(b as u32))
                        } else {
                            a == b
                        }
                    } else {
                        orig.le(a, b)
                    },
                decreases n - j,
            {
                let v = if keep {
                    self.leq(Alt(i), Alt(j)) && alts.contains(Alt(j))
                } else {
                    i == j
                };
                self.set_leq(Alt(i), Alt(j), v);
                j = j + 1;
            }
            i = i + 1;
        }
    }
}

/// Some class of `classes` holds `a`.
pub open spec fn in_classes(classes: Seq<Vec<Alt>>, a: Alt) -> bool {
    exists|k: int, j: int| 0 <= k < classes.len() && 0 <= j < classes[k]@.len() && #[trigger] classes[k]@[j] == a
}

/// The number of alternatives `≥ a`.
pub open spec fn upset_len(p: &Preorder, a: Alt) -> nat {
    upset_spec(p, a.0 as int).len()
}

impl Preorder {
    /// For a total relation, its classes of alternatives with equally large upsets, from
    /// the greatest down (the smallest upset first); each class in ascending order.
    /// `None` when the relation is not total.
    pub fn as_weak_order(&self) -> (r: Option<Vec<Vec<Alt>>>)
        requires
            self.wf(),
        ensures
            r is Some <==> total(self),
            r matches Some(v) ==> forall|k: int, j: int| 0 <= k < v@.len() && 0 <= j < v@[k]@.len() ==> (#[trigger] v@[k]@[j]).0 < self.n(),
            r matches Some(v) ==> forall|k: int| 0 <= k < v@.len() ==> (#[trigger] v@[k])@.len() > 0,
            r matches Some(v) ==> forall|k1: int, k2: int, j1: int, j2: int|
                0 <= k1 < v@.len() && 0 <= k2 < v@.len() && 0 <= j1 < v@[k1]@.len() && 0 <= j2 < v@[k2]@.len() ==> (k1 < k2
                    <==> upset_len(self, #[trigger] v@[k1]@[j1]) < upset_len(self, #[trigger] v@[k2]@[j2])),
            r matches Some(v) ==> forall|a: u32| a < self.n() ==> #[trigger] in_classes(v@, Alt(a)),
    {
        if !self.is_total() {
            return None;
        }
        let n = self.size();
        let mut sizes: Vec<u32> = Vec::new();
        let mut i: u32 = 0;
        while i < n
            invariant
                self.wf(),
                n == self.n(),
                n <= MAX_ALTS,
                i <= n,
                sizes@.len() == i,
                forall|a: int| 0 <= a < i ==> #[trigger] sizes@[a] == upset_len(self, Alt(a as u32)) && sizes@[a] <= n,
            decreases n - i,
        {
            let up = self.upset(Alt(i));
            let s = up.size();
            proof {
                crate::alt_set::lemma_alts_below_finite(n as int);
                vstd::set_lib::lemma_len_subset(up@, crate::alt_set::alts_below(n as int));
            }
            sizes.push(s);
            i = i + 1;
        }
        let mut classes: Vec<Vec<Alt>> = Vec::new();
        let mut s: u32 = 0;
        while s <= n
            invariant
                self.wf(),
                n == self.n(),
                n <= MAX_ALTS,
                s <= n + 1,
                sizes@.len() == n,
                forall|a: int| 0 <= a < n ==> #[trigger] sizes@[a] == upset_len(self, Alt(a as u32)) && sizes@[a] <= n,
                forall|k: int, j: int| 0 <= k < classes@.len() && 0 <= j < classes@[k]@.len() ==> (#[trigger] classes@[k]@[j]).0 < n,
                forall|k: int| 0 <= k < classes@.len() ==> (#[trigger] classes@[k])@.len() > 0,
                forall|k: int, j: int| 0 <= k < classes@.len() && 0 <= j < classes@[k]@.len() ==> upset_len(self, #[trigger] classes@[k]@[j]) < s,
                forall|k1: int, k2: int, j1: int, j2: int|
                    0 <= k1 < classes@.len() && 0 <= k2 < classes@.len() && 0 <= j1 < classes@[k1]@.len() && 0 <= j2 < classes@[k2]@.len() ==> (k1 < k2
                        <==> upset_len(self, #[trigger] classes@[k1]@[j1]) < upset_len(self, #[trigger] classes@[k2]@[j2])),
                forall|a: u32| a < n && upset_len(self, Alt(a)) < s ==> #[trigger] in_classes(classes@, Alt(a)),
            decreases n + 1 - s,
        {
            let mut class: Vec<Alt> = Vec::new();
            let mut a: u32 = 0;
            while a < n
                invariant
                    n == self.n(),
                    a <= n,
                    sizes@.len() == n,
                    forall|q: int| 0 <= q < n ==> #[trigger] sizes@[q] == upset_len(self, Alt(q as u32)) && sizes@[q] <= n,
                    forall|j: int| 0 <= j < class@.len() ==> (#[trigger] class@[j]).0 < a && upset_len(self, class@[j]) == s,
                    forall|q: u32| q < a && upset_len(self, Alt(q)) == s ==> #[trigger] class@.contains(Alt(q)),
                decreases n - a,
            {
                if sizes[a as usize] == s {
                    let ghost before = class@;
                    class.push(Alt(a));
                    proof {
                        assert(class@[before.len() as int] == Alt(a));
                        assert forall|q: u32| q < a + 1 && upset_len(self, Alt(q)) == s implies #[trigger] class@.contains(Alt(q)) by {
                            if q < a {
                                assert(before.contains(Alt(q)));
                                let w = choose|w: int| 0 <= w < before.len() && before[w] == Alt(q);
                                assert(class@[w] == Alt(q));
                            }
                        }
                    }
                } else {
                    proof {
                        assert(sizes@[a as int] == upset_len(self, Alt(a)));
                    }
                }
                a = a + 1;
            }
            if class.len() > 0 {
                let ghost before = classes@;
                classes.push(class);
                proof {
                    let last = before.len() as int;
                    assert forall|k: int, j: int| 0 <= k < classes@.len() && 0 <= j < classes@[k]@.len() implies (#[trigger] classes@[k]@[j]).0 < n by {
                        if k < last {
                            assert(classes@[k] == before[k]);
                        }
                    }
                    assert forall|k: int| 0 <= k < classes@.len() implies (#[trigger] classes@[k])@.len() > 0 by {
                        if k < last {
                            assert(classes@[k] == before[k]);
                        }
                    }
                    assert forall|k: int, j: int| 0 <= k < classes@.len() && 0 <= j < classes@[k]@.len() implies upset_len(self, #[trigger] classes@[k]@[j]) < s + 1 by {
                        if k < last {
                            assert(classes@[k] == before[k]);
                        }
                    }
                    assert forall|k1: int, k2: int, j1: int, j2: int|
                        0 <= k1 < classes@.len() && 0 <= k2 < classes@.len() && 0 <= j1 < classes@[k1]@.len() && 0 <= j2 < classes@[k2]@.len() implies (k1 < k2
                            <==> upset_len(self, #[trigger] classes@[k1]@[j1]) < upset_len(self, #[trigger] classes@[k2]@[j2])) by {
                        if k1 < last {
                            assert(classes@[k1] == before[k1]);
                        }
                        if k2 < last {
                            assert(classes@[k2] == before[k2]);
                        }
                    }
                    assert forall|q: u32| q < n && upset_len(self, Alt(q)) < s + 1 implies #[trigger] in_classes(classes@, Alt(q)) by {
                        if upset_len(self, Alt(q)) < s {
                            assert(in_classes(before, Alt(q)));
                            let (k, j) = choose|k: int, j: int| 0 <= k < before.len() && 0 <= j < before[k]@.len() && #[trigger] before[k]@[j] == Alt(q);
                            assert(classes@[k] == before[k]);
                        } else {
                            assert(classes@[last]@.contains(Alt(q)));
                            let j = choose|j: int| 0 <= j < classes@[last]@.len() && classes@[last]@[j] == Alt(q);
                        }
                    }
                }
            } else {
                proof {
                    assert forall|q: u32| q < n && upset_len(self, Alt(q)) < s + 1 implies #[trigger] in_classes(classes@, Alt(q)) by {
                        if upset_len(self, Alt(q)) == s {
                            assert(class@.contains(Alt(q)));
                        }
                    }
                }
            }
            s = s + 1;
        }
        proof {
            assert forall|a: u32| a < n implies upset_len(self, Alt(a)) < s by {
                assert(sizes@[a as int] == upset_len(self, Alt(a)));
            }
        }
        Some(classes)
    }
}

impl Clone for Preorder {
    fn clone(&self) -> (r: Preorder)
        ensures
            r.same_as(self),
    {
        let mut v: Vec<Block> = Vec::new();
        let mut idx: usize = 0;
        while idx < self.blocks.len()
            invariant
                idx <= self.blocks@.len(),
                v@ == self.blocks@.subrange(0, idx as int),
            decreases self.blocks@.len() - idx,
        {
            v.push(self.blocks[idx]);
            idx = idx + 1;
        }
        proof {
            assert(v@ =~= self.blocks@);
        }
        Preorder { blocks: v, size: self.size }
    }
}

impl PartialEq for Preorder {
    fn eq(&self, o: &Preorder) -> (r: bool) {
        if self.size != o.size || self.blocks.len() != o.blocks.len() {
            return false;
        }
        let mut idx: usize = 0;
        while idx < self.blocks.len()
            invariant
                idx <= self.blocks@.len(),
                self.blocks@.len() == o.blocks@.len(),
                forall|p: int| 0 <= p < idx ==> self.blocks@[p] == o.blocks@[p],
            decreases self.blocks@.len() - idx,
        {
            if self.blocks[idx] != o.blocks[idx] {
                return false;
            }
            idx = idx + 1;
        }
        proof {
            assert(self.blocks@ =~= o.blocks@);
        }
        true
    }
}

impl vstd::std_specs::cmp::PartialEqSpecImpl for Preorder {
    open spec fn obeys_eq_spec() -> bool {
        true
    }

    open spec fn eq_spec(&self, o: &Preorder) -> bool {
        self.same_as(o)
    }
}

impl Eq for Preorder {

}

/// Blocks with the same size give the same relation.
pub proof fn lemma_same_as(p: &Preorder, q: &Preorder)
    requires
        p.same_as(q),
    ensures
        p.n() == q.n(),
        p.wf() == q.wf(),
        forall|i: int, j: int| #[trigger] p.le(i, j) == q.le(i, j),
        reflexive(p) == reflexive(q),
        transitive(p) == transitive(q),
        strict(p) == strict(q),
        total(p) == total(q),
{
    assert forall|i: int, j: int| #[trigger] p.le(i, j) == q.le(i, j) by {}
    if reflexive(p) {
        assert forall|i: int| 0 <= i < q.n() implies #[trigger] q.le(i, i) by {
            assert(p.le(i, i));
        }
    }
    if reflexive(q) {
        assert forall|i: int| 0 <= i < p.n() implies #[trigger] p.le(i, i) by {
            assert(q.le(i, i));
        }
    }
    if transitive(p) {
        assert forall|i: int, j: int, k: int|
            0 <= i < q.n() && 0 <= j < q.n() && 0 <= k < q.n() && #[trigger] q.le(i, j) && #[trigger] q.le(j, k) implies q.le(i, k) by {
            assert(p.le(i, j) && p.le(j, k));
        }
    }
    if transitive(q) {
        assert forall|i: int, j: int, k: int|
            0 <= i < p.n() && 0 <= j < p.n() && 0 <= k < p.n() && #[trigger] p.le(i, j) && #[trigger] p.le(j, k) implies p.le(i, k) by {
            assert(q.le(i, j) && q.le(j, k));
        }
    }
    if strict(p) {
        assert forall|i: int, j: int| 0 <= i < q.n() && 0 <= j < q.n() && i != j implies !(#[trigger] q.le(i, j) && #[trigger] q.le(j, i)) by {
            assert(!(p.le(i, j) && p.le(j, i)));
        }
    }
    if strict(q) {
        assert forall|i: int, j: int| 0 <= i < p.n() && 0 <= j < p.n() && i != j implies !(#[trigger] p.le(i, j) && #[trigger] p.le(j, i)) by {
            assert(!(q.le(i, j) && q.le(j, i)));
        }
    }
    if total(p) {
        assert forall|i: int, j: int| 0 <= i < q.n() && 0 <= j < q.n() && i != j implies (#[trigger] q.le(i, j) || #[trigger] q.le(j, i)) by {
            assert(p.le(i, j) || p.le(j, i));
        }
    }
    if total(q) {
        assert forall|i: int, j: int| 0 <= i < p.n() && 0 <= j < p.n() && i != j implies (#[trigger] p.le(i, j) || #[trigger] p.le(j, i)) by {
            assert(q.le(i, j) || q.le(j, i));
        }
    }
}

/// `stuff` turns a preorder into a preorder: the result is reflexive and transitive.
pub proof fn lemma_stuff_preorder(p: &Preorder, target_size: u32, mask: u32, q: &Preorder)
    requires
        p.wf(),
        reflexive(p),
        transitive(p),
        target_size <= 32,
        p.n() == rank(mask, target_size as int),
        q.n() == target_size,
        forall|i: int, j: int|
            0 <= i < target_size && 0 <= j < target_size ==> #[trigger] q.le(i, j) == stuffed(p, mask, i, j),
    ensures
        reflexive(q),
        transitive(q),
{
    assert forall|i: int| 0 <= i < q.n() implies #[trigger] q.le(i, i) by {
        if bit(mask, i as u32) {
            lemma_rank_mono(mask, i + 1, target_size as int);
            lemma_rank_mono(mask, 0, i);
        }
    }
    assert forall|i: int, j: int, k: int|
        0 <= i < q.n() && 0 <= j < q.n() && 0 <= k < q.n() && #[trigger] q.le(i, j) && #[trigger] q.le(j, k) implies q.le(i, k) by {
        if bit(mask, i as u32) {
            lemma_rank_mono(mask, i + 1, target_size as int);
            lemma_rank_mono(mask, j + 1, target_size as int);
            lemma_rank_mono(mask, k + 1, target_size as int);
            lemma_rank_mono(mask, 0, i);
            lemma_rank_mono(mask, 0, j);
            lemma_rank_mono(mask, 0, k);
            assert(p.le(rank(mask, i), rank(mask, j)));
            assert(p.le(rank(mask, j), rank(mask, k)));
        }
    }
}


/// Blocks that agree on every bit are equal.
proof fn lemma_same_block_bits(a: u32, b: u32)
    requires
        forall|k: u32| k < 32 ==> #[trigger] bit(a, k) == bit(b, k),
    ensures
        a == b,
{
    assert(bit(a, 0u32) == bit(b, 0u32));
    assert(bit(a, 1u32) == bit(b, 1u32));
    assert(bit(a, 2u32) == bit(b, 2u32));
    assert(bit(a, 3u32) == bit(b, 3u32));
    assert(bit(a, 4u32) == bit(b, 4u32));
    assert(bit(a, 5u32) == bit(b, 5u32));
    assert(bit(a, 6u32) == bit(b, 6u32));
    assert(bit(a, 7u32) == bit(b, 7u32));
    assert(bit(a, 8u32) == bit(b, 8u32));
    assert(bit(a, 9u32) == bit(b, 9u32));
    assert(bit(a, 10u32) == bit(b, 10u32));
    assert(bit(a, 11u32) == bit(b, 11u32));
    assert(bit(a, 12u32) == bit(b, 12u32));
    assert(bit(a, 13u32) == bit(b, 13u32));
    assert(bit(a, 14u32) == bit(b, 14u32));
    assert(bit(a, 15u32) == bit(b, 15u32));
    assert(bit(a, 16u32) == bit(b, 16u32));
    assert(bit(a, 17u32) == bit(b, 17u32));
    assert(bit(a, 18u32) == bit(b, 18u32));
    assert(bit(a, 19u32) == bit(b, 19u32));
    assert(bit(a, 20u32) == bit(b, 20u32));
    assert(bit(a, 21u32) == bit(b, 21u32));
    assert(bit(a, 22u32) == bit(b, 22u32));
    assert(bit(a, 23u32) == bit(b, 23u32));
    assert(bit(a, 24u32) == bit(b, 24u32));
    assert(bit(a, 25u32) == bit(b, 25u32));
    assert(bit(a, 26u32) == bit(b, 26u32));
    assert(bit(a, 27u32) == bit(b, 27u32));
    assert(bit(a, 28u32) == bit(b, 28u32));
    assert(bit(a, 29u32) == bit(b, 29u32));
    assert(bit(a, 30u32) == bit(b, 30u32));
    assert(bit(a, 31u32) == bit(b, 31u32));
    assert(a == b) by (bit_vector)
        requires
            ((a >> 0u32) & 1u32 == 1u32) == ((b >> 0u32) & 1u32 == 1u32),
            ((a >> 1u32) & 1u32 == 1u32) == ((b >> 1u32) & 1u32 == 1u32),
            ((a >> 2u32) & 1u32 == 1u32) == ((b >> 2u32) & 1u32 == 1u32),
            ((a >> 3u32) & 1u32 == 1u32) == ((b >> 3u32) & 1u32 == 1u32),
            ((a >> 4u32) & 1u32 == 1u32) == ((b >> 4u32) & 1u32 == 1u32),
            ((a >> 5u32) & 1u32 == 1u32) == ((b >> 5u32) & 1u32 == 1u32),
            ((a >> 6u32) & 1u32 == 1u32) == ((b >> 6u32) & 1u32 == 1u32),
            ((a >> 7u32) & 1u32 == 1u32) == ((b >> 7u32) & 1u32 == 1u32),
            ((a >> 8u32) & 1u32 == 1u32) == ((b >> 8u32) & 1u32 == 1u32),
            ((a >> 9u32) & 1u32 == 1u32) == ((b >> 9u32) & 1u32 == 1u32),
            ((a >> 10u32) & 1u32 == 1u32) == ((b >> 10u32) & 1u32 == 1u32),
            ((a >> 11u32) & 1u32 == 1u32) == ((b >> 11u32) & 1u32 == 1u32),
            ((a >> 12u32) & 1u32 == 1u32) == ((b >> 12u32) & 1u32 == 1u32),
            ((a >> 13u32) & 1u32 == 1u32) == ((b >> 13u32) & 1u32 == 1u32),
            ((a >> 14u32) & 1u32 == 1u32) == ((b >> 14u32) & 1u32 == 1u32),
            ((a >> 15u32) & 1u32 == 1u32) == ((b >> 15u32) & 1u32 == 1u32),
            ((a >> 16u32) & 1u32 == 1u32) == ((b >> 16u32) & 1u32 == 1u32),
            ((a >> 17u32) & 1u32 == 1u32) == ((b >> 17u32) & 1u32 == 1u32),
            ((a >> 18u32) & 1u32 == 1u32) == ((b >> 18u32) & 1u32 == 1u32),
            ((a >> 19u32) & 1u32 == 1u32) == ((b >> 19u32) & 1u32 == 1u32),
            ((a >> 20u32) & 1u32 == 1u32) == ((b >> 20u32) & 1u32 == 1u32),
            ((a >> 21u32) & 1u32 == 1u32) == ((b >> 21u32) & 1u32 == 1u32),
            ((a >> 22u32) & 1u32 == 1u32) == ((b >> 22u32) & 1u32 == 1u32),
            ((a >> 23u32) & 1u32 == 1u32) == ((b >> 23u32) & 1u32 == 1u32),
            ((a >> 24u32) & 1u32 == 1u32) == ((b >> 24u32) & 1u32 == 1u32),
            ((a >> 25u32) & 1u32 == 1u32) == ((b >> 25u32) & 1u32 == 1u32),
            ((a >> 26u32) & 1u32 == 1u32) == ((b >> 26u32) & 1u32 == 1u32),
            ((a >> 27u32) & 1u32 == 1u32) == ((b >> 27u32) & 1u32 == 1u32),
            ((a >> 28u32) & 1u32 == 1u32) == ((b >> 28u32) & 1u32 == 1u32),
            ((a >> 29u32) & 1u32 == 1u32) == ((b >> 29u32) & 1u32 == 1u32),
            ((a >> 30u32) & 1u32 == 1u32) == ((b >> 30u32) & 1u32 == 1u32),
            ((a >> 31u32) & 1u32 == 1u32) == ((b >> 31u32) & 1u32 == 1u32),
    ;
}

/// Different masks give different sets.
pub proof fn lemma_masks_differ(m1: u32, m2: u32)
    requires
        m1 != m2,
    ensures
        set_of(seq![m1]) != set_of(seq![m2]),
{
    if forall|k: u32| k < 32 ==> #[trigger] bit(m1, k) == bit(m2, k) {
        lemma_same_block_bits(m1, m2);
    }
    let k = choose|k: u32| k < 32 && #[trigger] bit(m1, k) != bit(m2, k);
    assert(k / 32 == 0 && k % 32 == k);
    assert(set_of(seq![m1]).contains(Alt(k)) != set_of(seq![m2]).contains(Alt(k)));
}

/// The `i`-th set bit of `m` below `n`: a position whose rank is `i`.
pub proof fn lemma_select(m: u32, n: int, i: int)
    requires
        0 <= n,
        0 <= i < rank(m, n),
    ensures
        exists|a: int| 0 <= a < n && bit(m, a as u32) && #[trigger] rank(m, a) == i,
    decreases n,
{
    if n > 0 {
        if i < rank(m, n - 1) {
            lemma_select(m, n - 1, i);
            let a = choose|a: int| 0 <= a < n - 1 && bit(m, a as u32) && #[trigger] rank(m, a) == i;
        } else {
            assert(bit(m, (n - 1) as u32));
            assert(rank(m, n - 1) == i);
        }
    }
}

/// Stuffing different relations with one mask gives different relations.
pub proof fn lemma_stuff_injective(p1: &Preorder, p2: &Preorder, q1: &Preorder, q2: &Preorder, mask: u32, n: u32)
    requires
        n <= 32,
        p1.n() == rank(mask, n as int),
        p2.n() == rank(mask, n as int),
        differ(p1, p2),
        q1.n() == n,
        q2.n() == n,
        forall|i: int, j: int| 0 <= i < n && 0 <= j < n ==> #[trigger] q1.le(i, j) == stuffed(p1, mask, i, j),
        forall|i: int, j: int| 0 <= i < n && 0 <= j < n ==> #[trigger] q2.le(i, j) == stuffed(p2, mask, i, j),
    ensures
        differ(q1, q2),
{
    let (i, j) = choose|i: int, j: int| 0 <= i < p1.n() && 0 <= j < p1.n() && #[trigger] p1.le(i, j) != p2.le(i, j);
    lemma_select(mask, n as int, i);
    lemma_select(mask, n as int, j);
    let a = choose|a: int| 0 <= a < n && bit(mask, a as u32) && #[trigger] rank(mask, a) == i;
    let b = choose|b: int| 0 <= b < n && bit(mask, b as u32) && #[trigger] rank(mask, b) == j;
    assert(q1.le(a, b) == p1.le(i, j));
    assert(q2.le(a, b) == p2.le(i, j));
}

} // verus!
