//! Sets of alternatives, stored as little-endian bit blocks.
use vstd::prelude::*;
use crate::alt::Alt;
use itertools::Itertools;
use vstd::string::StringExecFns;
use crate::bits::{
    bit,
    lemma_bit_and,
    lemma_bit_and_not,
    lemma_bit_low_mask,
    lemma_bit_max,
    lemma_bit_or,
    lemma_bit_set,
    lemma_no_bits_zero,
};

verus! {

/// One machine word of membership bits.
pub type Block = u32;

/// The largest number of blocks whose bits are all addressable by a `u32` index.
pub const MAX_BLOCKS: usize = 0x400_0000;

/// Alternative `i` is marked in `blocks`.
pub open spec fn marks(blocks: Seq<u32>, i: u32) -> bool {
    (i / 32) < blocks.len() && bit(blocks[(i / 32) as int], i % 32)
}

/// The set of alternatives marked in `blocks`.
pub open spec fn set_of(blocks: Seq<u32>) -> Set<Alt> {
    Set::new(|a: Alt| marks(blocks, a.0))
}

/// No trailing zero block.
pub open spec fn normalised(blocks: Seq<u32>) -> bool {
    blocks.len() == 0 || blocks.last() != 0
}

/// The alternatives of `s` appear in strictly ascending order.
pub open spec fn ascending(s: Seq<Alt>) -> bool {
    forall|p: int, q: int| 0 <= p < q < s.len() ==> s[p].0 < s[q].0
}

/// The alternatives `{0, ..., n - 1}`.
pub open spec fn alts_below(n: int) -> Set<Alt> {
    Set::new(|a: Alt| a.0 < n)
}

pub proof fn lemma_index(idx: int, k: int)
    requires
        0 <= idx < MAX_BLOCKS,
        0 <= k < 32,
    ensures
        0 <= idx * 32 + k <= u32::MAX,
        ((idx * 32 + k) as u32) / 32 == idx,
        ((idx * 32 + k) as u32) % 32 == k,
{
    assert(idx * 32 + k < MAX_BLOCKS * 32);
    vstd::arithmetic::div_mod::lemma_fundamental_div_mod_converse(idx * 32 + k, 32, idx, k);
}

/// There are at most `n` alternatives below `n`.
pub proof fn lemma_alts_below_finite(n: int)
    requires
        0 <= n <= u32::MAX,
    ensures
        alts_below(n).finite(),
        alts_below(n).len() <= n,
{
    crate::alt::lemma_alt_range(0, n);
    let s = crate::alt::alt_range(0, n);
    assert forall|a: Alt| #[trigger] s.to_set().contains(a) == alts_below(n).contains(a) by {
        if a.0 < n {
            assert(s[a.0 as int] == a);
        }
    }
    assert(s.to_set() =~= alts_below(n));
    s.lemma_cardinality_of_set();
}

/// Equal normalised block sequences are exactly those with equal sets.
pub proof fn lemma_normalised_eq(a: Seq<u32>, b: Seq<u32>)
    requires
        normalised(a),
        normalised(b),
        a.len() <= MAX_BLOCKS,
        b.len() <= MAX_BLOCKS,
        set_of(a) == set_of(b),
    ensures
        a == b,
{
    assert forall|idx: int| 0 <= idx < a.len() && 0 <= idx < b.len() implies a[idx] == b[idx] by {
        assert forall|k: u32| k < 32 implies #[trigger] bit(a[idx] ^ b[idx], k) == false by {
            lemma_index(idx, k as int);
            let i = (idx * 32 + k) as u32;
            assert(set_of(a).contains(Alt(i)) == marks(a, i));
            assert(set_of(b).contains(Alt(i)) == marks(b, i));
            let x = a[idx];
            let y = b[idx];
            assert(((x ^ y) >> k) & 1u32 == 1u32 <==> (((x >> k) & 1u32 == 1u32) != ((y >> k) & 1u32 == 1u32))) by (bit_vector)
                requires k < 32;
        }
        lemma_no_bits_zero(a[idx] ^ b[idx]);
        let x = a[idx];
        let y = b[idx];
        assert(x ^ y == 0 ==> x == y) by (bit_vector);
    }
    if a.len() < b.len() {
        lemma_nonzero_has_element(b, b.len() - 1);
        let i = choose|i: u32| i / 32 == b.len() - 1 && marks(b, i);
        assert(set_of(b).contains(Alt(i)));
        assert(!set_of(a).contains(Alt(i)));
    } else if b.len() < a.len() {
        lemma_nonzero_has_element(a, a.len() - 1);
        let i = choose|i: u32| i / 32 == a.len() - 1 && marks(a, i);
        assert(set_of(a).contains(Alt(i)));
        assert(!set_of(b).contains(Alt(i)));
    }
    assert(a =~= b);
}

/// A non-zero block marks some alternative.
pub proof fn lemma_nonzero_has_element(blocks: Seq<u32>, idx: int)
    requires
        0 <= idx < blocks.len(),
        blocks.len() <= MAX_BLOCKS,
        blocks[idx] != 0,
    ensures
        exists|i: u32| i / 32 == idx && #[trigger] marks(blocks, i),
{
    if forall|k: u32| k < 32 ==> !#[trigger] bit(blocks[idx], k) {
        lemma_no_bits_zero(blocks[idx]);
    }
    let k = choose|k: u32| k < 32 && #[trigger] bit(blocks[idx], k);
    lemma_index(idx, k as int);
    let i = (idx * 32 + k) as u32;
    assert(marks(blocks, i));
}

/// A read-only view of a set of alternatives: a slice of blocks,
/// possibly with trailing zero blocks.
#[derive(Clone, Copy, Debug)]
pub struct AltSetView<'a> {
    pub blocks: &'a [Block],
}

impl<'a> View for AltSetView<'a> {
    type V = Set<Alt>;

    open spec fn view(&self) -> Set<Alt> {
        set_of(self.blocks@)
    }
}

impl<'a> AltSetView<'a> {
    /// Every bit of the view is addressable by a `u32` index.
    pub open spec fn wf(&self) -> bool {
        self.blocks@.len() <= MAX_BLOCKS
    }

    /// The underlying blocks.
    pub fn to_blocks(&self) -> (r: &[Block])
        ensures
            r@ == self.blocks@,
    {
        self.blocks
    }

    /// Membership.
    pub fn contains(&self, a: Alt) -> (r: bool)
        ensures
            r == self@.contains(a),
    {
        let offset = (a.0 / 32) as usize;
        if offset >= self.blocks.len() {
            false
        } else {
            (self.blocks[offset] >> (a.0 % 32)) & 1 == 1
        }
    }

    /// The set has no element.
    pub fn is_empty(&self) -> (r: bool)
        requires
            self.wf(),
        ensures
            r == (self@ == Set::<Alt>::empty()),
    {
        let mut idx: usize = 0;
        while idx < self.blocks.len()
            invariant
                idx <= self.blocks@.len(),
                self.wf(),
                forall|j: int| 0 <= j < idx ==> self.blocks@[j] == 0,
            decreases self.blocks@.len() - idx,
        {
            if self.blocks[idx] != 0 {
                proof {
                    lemma_nonzero_has_element(self.blocks@, idx as int);
                    let i = choose|i: u32| i / 32 == idx && #[trigger] marks(self.blocks@, i);
                    assert(self@.contains(Alt(i)));
                }
                return false;
            }
            idx = idx + 1;
        }
        proof {
            assert forall|a: Alt| !self@.contains(a) by {
                if a.0 / 32 < self.blocks@.len() {
                    lemma_bit_max(a.0 % 32);
                }
            }
            assert(self@ =~= Set::<Alt>::empty());
        }
        true
    }

    /// The set has at least one element.
    pub fn is_nonempty(&self) -> (r: bool)
        requires
            self.wf(),
        ensures
            r == (self@ != Set::<Alt>::empty()),
    {
        !self.is_empty()
    }

    /// Every element of `self` is in `other`.
    pub fn is_subseteq_of(&self, other: AltSetView) -> (r: bool)
        requires
            self.wf(),
            other.wf(),
        ensures
            r == self@.subset_of(other@),
    {
        let mut idx: usize = 0;
        while idx < self.blocks.len()
            invariant
                idx <= self.blocks@.len(),
                self.wf(),
                other.wf(),
                forall|a: Alt| a.0 / 32 < idx && #[trigger] self@.contains(a) ==> other@.contains(a),
            decreases self.blocks@.len() - idx,
        {
            let mine = self.blocks[idx];
            let their = if idx < other.blocks.len() {
                other.blocks[idx]
            } else {
                0
            };
            if mine & !their != 0 {
                proof {
                    if forall|k: u32| k < 32 ==> !#[trigger] bit(mine & !their, k) {
                        lemma_no_bits_zero(mine & !their);
                    }
                    let k = choose|k: u32| k < 32 && #[trigger] bit(mine & !their, k);
                    lemma_bit_and_not(mine, their, k);
                    lemma_index(idx as int, k as int);
                    let i = (idx * 32 + k) as u32;
                    assert(self@.contains(Alt(i)));
                    if idx >= other.blocks@.len() {
                        lemma_bit_max(k);
                    }
                    assert(!other@.contains(Alt(i)));
                }
                return false;
            }
            proof {
                assert forall|a: Alt| a.0 / 32 <= idx && #[trigger] self@.contains(a) implies other@.contains(a) by {
                    if a.0 / 32 == idx {
                        lemma_bit_and_not(mine, their, a.0 % 32);
                        lemma_bit_max(a.0 % 32);
                    }
                }
            }
            idx = idx + 1;
        }
        true
    }

    /// `self` is a proper subset of `other`.
    pub fn is_strict_subset_of(&self, other: AltSetView) -> (r: bool)
        requires
            self.wf(),
            other.wf(),
        ensures
            r == (self@.subset_of(other@) && self@ != other@),
    {
        let a = self.is_subseteq_of(other);
        let b = other.is_subseteq_of(*self);
        proof {
            if a && b {
                assert(self@ =~= other@);
            }
        }
        a && !b
    }

    /// `self` is a proper superset of `other`.
    pub fn is_strict_superset_of(&self, other: AltSetView) -> (r: bool)
        requires
            self.wf(),
            other.wf(),
        ensures
            r == (other@.subset_of(self@) && self@ != other@),
    {
        other.is_strict_subset_of(*self)
    }

    /// The elements in ascending order.
    pub fn iter(&self) -> (r: Vec<Alt>)
        requires
            self.wf(),
        ensures
            ascending(r@),
            r@.to_set() == self@,
            r@.no_duplicates(),
            self@.finite(),
            self@.len() == r@.len(),
            forall|j: int| 0 <= j < r@.len() ==> (#[trigger] r@[j]).0 < self.blocks@.len() * 32,
    {
        let mut r: Vec<Alt> = Vec::new();
        let mut idx: usize = 0;
        while idx < self.blocks.len()
            invariant
                idx <= self.blocks@.len(),
                self.wf(),
                ascending(r@),
                forall|j: int| 0 <= j < r@.len() ==> marks(self.blocks@, (#[trigger] r@[j]).0),
                forall|j: int| 0 <= j < r@.len() ==> (#[trigger] r@[j]).0 < idx * 32,
                forall|i: u32| i < idx * 32 && #[trigger] marks(self.blocks@, i) ==> r@.contains(Alt(i)),
            decreases self.blocks@.len() - idx,
        {
            let b = self.blocks[idx];
            let mut k: u32 = 0;
            while k < 32
                invariant
                    idx < self.blocks@.len(),
                    self.wf(),
                    b == self.blocks@[idx as int],
                    k <= 32,
                    ascending(r@),
                    forall|j: int| 0 <= j < r@.len() ==> marks(self.blocks@, (#[trigger] r@[j]).0),
                    forall|j: int| 0 <= j < r@.len() ==> (#[trigger] r@[j]).0 < idx * 32 + k,
                    forall|i: u32| i < idx * 32 + k && #[trigger] marks(self.blocks@, i) ==> r@.contains(Alt(i)),
                decreases 32 - k,
            {
                proof {
                    lemma_index(idx as int, k as int);
                }
                let ghost x = (idx * 32 + k) as u32;
                if (b >> k) & 1 == 1 {
                    let ghost old_r = r@;
                    r.push(Alt((idx as u32) * 32 + k));
                    proof {
                        assert(r@[old_r.len() as int] == Alt(x));
                        assert forall|j: int| 0 <= j < old_r.len() implies r@[j] == old_r[j] by {}
                        assert forall|i: u32| i < idx * 32 + k + 1 && #[trigger] marks(self.blocks@, i) implies r@.contains(Alt(i)) by {
                            if i == x {
                            } else {
                                assert(old_r.contains(Alt(i)));
                                let j = choose|j: int| 0 <= j < old_r.len() && old_r[j] == Alt(i);
                                assert(r@[j] == Alt(i));
                            }
                        }
                    }
                } else {
                    proof {
                        assert(!marks(self.blocks@, x));
                    }
                }
                k = k + 1;
            }
            idx = idx + 1;
        }
        proof {
            assert forall|a: Alt| #[trigger] r@.to_set().contains(a) == self@.contains(a) by {
                if r@.contains(a) {
                    let j = choose|j: int| 0 <= j < r@.len() && r@[j] == a;
                    assert(marks(self.blocks@, r@[j].0));
                }
                if marks(self.blocks@, a.0) {
                    vstd::arithmetic::div_mod::lemma_fundamental_div_mod(a.0 as int, 32);
                }
            }
            assert(r@.to_set() =~= self@);
            assert forall|p: int, q: int| 0 <= p < r@.len() && 0 <= q < r@.len() && p != q implies r@[p] != r@[q] by {
                if p < q {
                    assert(r@[p].0 < r@[q].0);
                } else {
                    assert(r@[q].0 < r@[p].0);
                }
            }
            assert(r@.no_duplicates());
            r@.unique_seq_to_set();
        }
        r
    }

    /// The number of elements.
    pub fn size(&self) -> (r: u32)
        requires
            self.wf(),
        ensures
            r == self@.len(),
            self@.finite(),
    {
        let elems = self.iter();
        proof {
            self.lemma_len_bound(elems@);
        }
        elems.len() as u32
    }

    proof fn lemma_len_bound(&self, s: Seq<Alt>)
        requires
            self.wf(),
            ascending(s),
            forall|j: int| 0 <= j < s.len() ==> (#[trigger] s[j]).0 < self.blocks@.len() * 32,
        ensures
            s.len() <= MAX_BLOCKS * 32,
    {
        if s.len() > MAX_BLOCKS * 32 {
            self.lemma_ascending_ge(s, MAX_BLOCKS * 32);
        }
    }

    proof fn lemma_ascending_ge(&self, s: Seq<Alt>, j: int)
        requires
            ascending(s),
            0 <= j < s.len(),
        ensures
            s[j].0 >= j,
        decreases j,
    {
        if j > 0 {
            self.lemma_ascending_ge(s, j - 1);
        }
    }

    /// The set has exactly one element.
    pub fn is_singleton(&self) -> (r: bool)
        requires
            self.wf(),
        ensures
            r == (self@.len() == 1),
    {
        self.size() == 1
    }

    /// The only element, if there is exactly one.
    pub fn as_singleton(&self) -> (r: Option<Alt>)
        requires
            self.wf(),
        ensures
            self@.finite(),
            r.is_some() == (self@.len() == 1),
            r.is_some() ==> self@ == set![r.unwrap()],
    {
        let elems = self.iter();
        if elems.len() == 1 {
            let x = elems[0];
            proof {
                assert(elems@ =~= seq![x]);
                assert(seq![x].to_set() =~= set![x]) by {
                    assert(seq![x].contains(x)) by { assert(seq![x][0] == x); }
                }
            }
            Some(x)
        } else {
            None
        }
    }
}

} // verus!

verus! {

/// Block `idx` of `s`, or zero past its end.
pub open spec fn block_at(s: Seq<u32>, idx: int) -> u32 {
    if 0 <= idx < s.len() {
        s[idx]
    } else {
        0
    }
}

pub proof fn lemma_marks_block_at(s: Seq<u32>, i: u32)
    ensures
        marks(s, i) == bit(block_at(s, (i / 32) as int), i % 32),
{
    lemma_bit_max(i % 32);
}

/// Dropping trailing zero blocks keeps the set.
fn normalise_blocks(v: &mut Vec<Block>)
    ensures
        normalised(final(v)@),
        set_of(final(v)@) == set_of(old(v)@),
        final(v)@.len() <= old(v)@.len(),
        forall|j: int| 0 <= j < final(v)@.len() ==> final(v)@[j] == old(v)@[j],
{
    while v.len() > 0 && v[v.len() - 1] == 0
        invariant
            set_of(v@) == set_of(old(v)@),
            v@.len() <= old(v)@.len(),
            forall|j: int| 0 <= j < v@.len() ==> v@[j] == old(v)@[j],
        decreases v@.len(),
    {
        let ghost before = v@;
        v.pop();
        proof {
            assert forall|a: Alt| #[trigger] set_of(v@).contains(a) == set_of(before).contains(a) by {
                lemma_marks_block_at(v@, a.0);
                lemma_marks_block_at(before, a.0);
            }
            assert(set_of(v@) =~= set_of(before));
        }
    }
}

/// A set of alternatives. The blocks never end in a zero block, so two sets
/// are equal exactly when their blocks are.
#[derive(Debug, Hash)]
pub struct AltSet {
    blocks: Vec<Block>,
}

impl AltSet {
    /// The alternatives in the set.
    pub closed spec fn alts(&self) -> Set<Alt> {
        set_of(self.blocks@)
    }

    #[verifier::type_invariant]
    spec fn inv(&self) -> bool {
        normalised(self.blocks@) && self.blocks@.len() <= MAX_BLOCKS
    }

    /// The empty set.
    pub fn empty() -> (r: AltSet)
        ensures
            r.alts() == Set::<Alt>::empty(),
    {
        let r = AltSet { blocks: Vec::new() };
        assert(r.alts() =~= Set::<Alt>::empty());
        r
    }

    /// All alternatives below `alt_count`.
    pub fn full(alt_count: u32) -> (r: AltSet)
        requires
            alt_count <= MAX_BLOCKS * 32,
        ensures
            r.alts() == alts_below(alt_count as int),
    {
        let all = Alt::all(alt_count);
        proof {
            crate::alt::lemma_alt_range(0, alt_count as int);
            assert forall|a: Alt| #[trigger] all@.to_set().contains(a) == alts_below(alt_count as int).contains(a) by {
                if a.0 < alt_count {
                    assert(all@[a.0 as int] == a);
                }
            }
            assert(all@.to_set() =~= alts_below(alt_count as int));
        }
        AltSet::from_alts(all.as_slice())
    }

    /// The set with exactly the alternatives listed.
    pub fn from_alts(alts: &[Alt]) -> (r: AltSet)
        requires
            forall|j: int| 0 <= j < alts@.len() ==> (#[trigger] alts@[j]).0 < MAX_BLOCKS * 32,
        ensures
            r.alts() == alts@.to_set(),
    {
        let mut max_i: u32 = 0;
        let mut j: usize = 0;
        while j < alts.len()
            invariant
                j <= alts@.len(),
                max_i < MAX_BLOCKS * 32,
                forall|p: int| 0 <= p < j ==> (#[trigger] alts@[p]).0 <= max_i,
                forall|p: int| 0 <= p < alts@.len() ==> (#[trigger] alts@[p]).0 < MAX_BLOCKS * 32,
            decreases alts@.len() - j,
        {
            if alts[j].0 > max_i {
                max_i = alts[j].0;
            }
            j = j + 1;
        }
        let nblocks: usize = if alts.len() == 0 {
            0
        } else {
            (max_i / 32 + 1) as usize
        };
        let mut blocks: Vec<Block> = Vec::new();
        let mut k: usize = 0;
        while k < nblocks
            invariant
                k <= nblocks,
                blocks@.len() == k,
                forall|p: int| 0 <= p < k ==> blocks@[p] == 0,
            decreases nblocks - k,
        {
            blocks.push(0);
            k = k + 1;
        }
        proof {
            assert forall|a: Alt| !#[trigger] set_of(blocks@).contains(a) by {
                lemma_marks_block_at(blocks@, a.0);
                lemma_bit_max(a.0 % 32);
            }
        }
        let mut j: usize = 0;
        while j < alts.len()
            invariant
                j <= alts@.len(),
                blocks@.len() == nblocks,
                nblocks <= MAX_BLOCKS,
                alts@.len() > 0 ==> nblocks == max_i / 32 + 1,
                forall|p: int| 0 <= p < alts@.len() ==> (#[trigger] alts@[p]).0 <= max_i,
                forall|a: Alt| #[trigger] set_of(blocks@).contains(a) == alts@.subrange(0, j as int).contains(a),
            decreases alts@.len() - j,
        {
            let i = alts[j].0;
            let idx = (i / 32) as usize;
            let ghost before = blocks@;
            let cur = blocks[idx];
            blocks.set(idx, cur | (1u32 << (i % 32)));
            proof {
                assert forall|a: Alt| #[trigger] set_of(blocks@).contains(a) == alts@.subrange(0, j + 1).contains(a) by {
                    lemma_marks_block_at(blocks@, a.0);
                    lemma_marks_block_at(before, a.0);
                    lemma_bit_set(cur, i % 32, a.0 % 32);
                    assert(set_of(before).contains(a) == alts@.subrange(0, j as int).contains(a));
                    if a.0 / 32 != i / 32 {
                        assert(block_at(blocks@, (a.0 / 32) as int) == block_at(before, (a.0 / 32) as int));
                    } else {
                        assert(block_at(blocks@, (a.0 / 32) as int) == cur | (1u32 << (i % 32)));
                    }
                    let s0 = alts@.subrange(0, j as int);
                    let s1 = alts@.subrange(0, j + 1);
                    assert(s1 =~= s0.push(alts@[j as int]));
                    if s0.contains(a) {
                        let w = choose|w: int| 0 <= w < s0.len() && s0[w] == a;
                        assert(s1[w] == a);
                    }
                    if s1.contains(a) && a != alts@[j as int] {
                        let w = choose|w: int| 0 <= w < s1.len() && s1[w] == a;
                        assert(s0[w] == a);
                    }
                    if a.0 / 32 == i / 32 && a.0 % 32 == i % 32 {
                        vstd::arithmetic::div_mod::lemma_fundamental_div_mod(a.0 as int, 32);
                        vstd::arithmetic::div_mod::lemma_fundamental_div_mod(i as int, 32);
                        assert(a.0 == i);
                        assert(s1[j as int] == a);
                    }
                }
            }
            j = j + 1;
        }
        proof {
            assert(alts@.subrange(0, alts@.len() as int) =~= alts@);
            assert(set_of(blocks@) =~= alts@.to_set());
        }
        normalise_blocks(&mut blocks);
        AltSet { blocks }
    }

    /// The set `{x}`.
    pub fn singleton(x: Alt) -> (r: AltSet)
        requires
            x.0 < MAX_BLOCKS * 32,
        ensures
            r.alts() == set![x],
    {
        let v: Vec<Alt> = vec![x];
        let r = AltSet::from_alts(v.as_slice());
        proof {
            assert(v@[0] == x);
            assert(v@.to_set() =~= set![x]);
        }
        r
    }

    /// The set whose first block is `block`.
    pub fn from_block(block: Block) -> (r: AltSet)
        ensures
            r.alts() == set_of(seq![block]),
    {
        let mut blocks: Vec<Block> = Vec::new();
        blocks.push(block);
        proof {
            assert(blocks@ =~= seq![block]);
        }
        normalise_blocks(&mut blocks);
        AltSet { blocks }
    }

    /// The set marked by `blocks`, little-endian.
    pub fn from_blocks(blocks: Vec<Block>) -> (r: AltSet)
        requires
            blocks@.len() <= MAX_BLOCKS,
        ensures
            r.alts() == set_of(blocks@),
    {
        let mut blocks = blocks;
        normalise_blocks(&mut blocks);
        AltSet { blocks }
    }

    /// The set seen through `v`.
    pub fn from_view(v: AltSetView) -> (r: AltSet)
        requires
            v.wf(),
        ensures
            r.alts() == v@,
    {
        let mut blocks: Vec<Block> = Vec::new();
        let mut idx: usize = 0;
        while idx < v.blocks.len()
            invariant
                idx <= v.blocks@.len(),
                blocks@ == v.blocks@.subrange(0, idx as int),
            decreases v.blocks@.len() - idx,
        {
            blocks.push(v.blocks[idx]);
            idx = idx + 1;
        }
        proof {
            assert(blocks@ =~= v.blocks@);
        }
        AltSet::from_blocks(blocks)
    }

    /// A read-only view of this set.
    pub fn view(&self) -> (r: AltSetView<'_>)
        ensures
            r@ == self.alts(),
            r.wf(),
            normalised(r.blocks@),
    {
        proof {
            use_type_invariant(self);
        }
        AltSetView { blocks: self.blocks.as_slice() }
    }

    /// The number of elements.
    pub fn size(&self) -> (r: u32)
        ensures
            r == self.alts().len(),
            self.alts().finite(),
    {
        self.view().size()
    }

    /// `self := self ∪ rhs`.
    pub fn union_with(&mut self, rhs: AltSetView)
        requires
            rhs.wf(),
        ensures
            final(self).alts() == old(self).alts().union(rhs@),
    {
        proof {
            use_type_invariant(&*self);
        }
        let n = if self.blocks.len() > rhs.blocks.len() {
            self.blocks.len()
        } else {
            rhs.blocks.len()
        };
        let mut v: Vec<Block> = Vec::new();
        let mut idx: usize = 0;
        while idx < n
            invariant
                idx <= n,
                n == if self.blocks@.len() > rhs.blocks@.len() { self.blocks@.len() } else { rhs.blocks@.len() },
                v@.len() == idx,
                forall|p: int| 0 <= p < idx ==> #[trigger] v@[p] == block_at(self.blocks@, p) | block_at(rhs.blocks@, p),
            decreases n - idx,
        {
            let a = if idx < self.blocks.len() { self.blocks[idx] } else { 0 };
            let b = if idx < rhs.blocks.len() { rhs.blocks[idx] } else { 0 };
            v.push(a | b);
            idx = idx + 1;
        }
        proof {
            assert forall|x: Alt| #[trigger] set_of(v@).contains(x) == old(self).alts().union(rhs@).contains(x) by {
                lemma_marks_block_at(v@, x.0);
                lemma_marks_block_at(self.blocks@, x.0);
                lemma_marks_block_at(rhs.blocks@, x.0);
                let p = (x.0 / 32) as int;
                lemma_bit_or(block_at(self.blocks@, p), block_at(rhs.blocks@, p), x.0 % 32);
                if p >= n {
                    lemma_bit_max(x.0 % 32);
                    assert(0u32 | 0u32 == 0u32) by (bit_vector);
                }
            }
            assert(set_of(v@) =~= old(self).alts().union(rhs@));
        }
        normalise_blocks(&mut v);
        self.blocks = v;
    }

    /// `self := self ∩ rhs`.
    pub fn intersect_with(&mut self, rhs: AltSetView)
        ensures
            final(self).alts() == old(self).alts().intersect(rhs@),
    {
        proof {
            use_type_invariant(&*self);
        }
        let n = self.blocks.len();
        let mut v: Vec<Block> = Vec::new();
        let mut idx: usize = 0;
        while idx < n
            invariant
                idx <= n,
                n == self.blocks@.len(),
                v@.len() == idx,
                forall|p: int| 0 <= p < idx ==> #[trigger] v@[p] == self.blocks@[p] & block_at(rhs.blocks@, p),
            decreases n - idx,
        {
            let a = self.blocks[idx];
            let b = if idx < rhs.blocks.len() { rhs.blocks[idx] } else { 0 };
            v.push(a & b);
            idx = idx + 1;
        }
        proof {
            assert forall|x: Alt| #[trigger] set_of(v@).contains(x) == old(self).alts().intersect(rhs@).contains(x) by {
                lemma_marks_block_at(v@, x.0);
                lemma_marks_block_at(self.blocks@, x.0);
                lemma_marks_block_at(rhs.blocks@, x.0);
                let p = (x.0 / 32) as int;
                if p < n {
                    lemma_bit_and(self.blocks@[p], block_at(rhs.blocks@, p), x.0 % 32);
                }
            }
            assert(set_of(v@) =~= old(self).alts().intersect(rhs@));
        }
        normalise_blocks(&mut v);
        self.blocks = v;
    }

    /// `self := self \ rhs`.
    pub fn difference_with(&mut self, rhs: AltSetView)
        ensures
            final(self).alts() == old(self).alts().difference(rhs@),
    {
        proof {
            use_type_invariant(&*self);
        }
        let n = self.blocks.len();
        let mut v: Vec<Block> = Vec::new();
        let mut idx: usize = 0;
        while idx < n
            invariant
                idx <= n,
                n == self.blocks@.len(),
                v@.len() == idx,
                forall|p: int| 0 <= p < idx ==> #[trigger] v@[p] == self.blocks@[p] & !block_at(rhs.blocks@, p),
            decreases n - idx,
        {
            let a = self.blocks[idx];
            let b = if idx < rhs.blocks.len() { rhs.blocks[idx] } else { 0 };
            v.push(a & !b);
            idx = idx + 1;
        }
        proof {
            assert forall|x: Alt| #[trigger] set_of(v@).contains(x) == old(self).alts().difference(rhs@).contains(x) by {
                lemma_marks_block_at(v@, x.0);
                lemma_marks_block_at(self.blocks@, x.0);
                lemma_marks_block_at(rhs.blocks@, x.0);
                let p = (x.0 / 32) as int;
                if p < n {
                    lemma_bit_and_not(self.blocks@[p], block_at(rhs.blocks@, p), x.0 % 32);
                }
            }
            assert(set_of(v@) =~= old(self).alts().difference(rhs@));
        }
        normalise_blocks(&mut v);
        self.blocks = v;
    }
}

impl Clone for AltSet {
    fn clone(&self) -> (r: AltSet)
        ensures
            r.alts() == self.alts(),
    {
        proof {
            use_type_invariant(self);
        }
        let mut v: Vec<Block> = Vec::new();
        let mut idx: usize = 0;
        while idx < self.blocks.len()
            invariant
                idx <= self.blocks@.len(),
                v@ == self.blocks@.subrange(0, idx as int),
            decreases self.blocks@.len() - idx,
        {
            v.push(self.blocks[idx]);
            idx = idx + 1;
        }
        proof {
            assert(v@ =~= self.blocks@);
        }
        AltSet { blocks: v }
    }
}

impl PartialEq for AltSet {
    fn eq(&self, o: &AltSet) -> (r: bool) {
        proof {
            use_type_invariant(self);
            use_type_invariant(o);
        }
        if self.blocks.len() != o.blocks.len() {
            proof {
                if self.alts() == o.alts() {
                    lemma_normalised_eq(self.blocks@, o.blocks@);
                }
            }
            return false;
        }
        let mut idx: usize = 0;
        while idx < self.blocks.len()
            invariant
                idx <= self.blocks@.len(),
                self.blocks@.len() == o.blocks@.len(),
                normalised(self.blocks@),
                normalised(o.blocks@),
                self.blocks@.len() <= MAX_BLOCKS,
                o.blocks@.len() <= MAX_BLOCKS,
                forall|p: int| 0 <= p < idx ==> self.blocks@[p] == o.blocks@[p],
            decreases self.blocks@.len() - idx,
        {
            if self.blocks[idx] != o.blocks[idx] {
                proof {
                    if self.alts() == o.alts() {
                        lemma_normalised_eq(self.blocks@, o.blocks@);
                    }
                }
                return false;
            }
            idx = idx + 1;
        }
        proof {
            assert(self.blocks@ =~= o.blocks@);
        }
        true
    }
}

impl vstd::std_specs::cmp::PartialEqSpecImpl for AltSet {
    open spec fn obeys_eq_spec() -> bool {
        true
    }

    open spec fn eq_spec(&self, o: &AltSet) -> bool {
        self.alts() == o.alts()
    }
}

impl Eq for AltSet {

}

} // verus!

verus! {

/// The non-empty subsets of `{0, ..., n - 1}` for `n < 32`, as single blocks, in
/// ascending order of their block.
pub struct Powerset {
    next_val: Option<u32>,
    last_val: u32,
}

impl Powerset {
    /// The block of the next subset, if any.
    pub closed spec fn upcoming(&self) -> Option<u32> {
        self.next_val
    }

    /// The block of the last subset.
    pub closed spec fn last(&self) -> u32 {
        self.last_val
    }

    /// The next subset, if any.
    pub fn next(&mut self) -> (r: Option<AltSet>)
        requires
            old(self).upcoming() matches Some(v) ==> v <= old(self).last(),
        ensures
            final(self).last() == old(self).last(),
            final(self).upcoming() matches Some(v) ==> v <= final(self).last(),
            match old(self).upcoming() {
                None => r is None && final(self).upcoming() is None,
                Some(v) => r matches Some(s) && s.alts() == set_of(seq![v]) && final(self).upcoming() == (if v
                    == old(self).last() {
                    None::<u32>
                } else {
                    Some((v + 1) as u32)
                }),
            },
    {
        match self.next_val {
            None => None,
            Some(next) => {
                if next == self.last_val {
                    self.next_val = None;
                } else {
                    self.next_val = Some(next + 1);
                }
                Some(AltSet::from_block(next))
            },
        }
    }
}

impl AltSet {
    /// The non-empty subsets of the first `n` alternatives, `n < 32`.
    pub fn powerset(n: u32) -> (r: Powerset)
        requires
            n < 32,
        ensures
            n == 0 ==> r.upcoming() is None,
            n > 0 ==> r.upcoming() == Some(1u32) && r.last() == ((1u64 << n) - 1) as u32,
    {
        if n == 0 {
            return Powerset { next_val: None, last_val: 0 };
        }
        proof {
            assert(1u32 << n >= 2) by (bit_vector)
                requires
                    0 < n < 32,
            ;
            assert(((1u32 << n) - 1) as u32 == ((1u64 << n) - 1) as u32) by (bit_vector)
                requires
                    0 < n < 32,
            ;
        }
        Powerset { next_val: Some(1), last_val: (1u32 << n) - 1 }
    }
}

} // verus!

verus! {

/// The `k`-element subsequences of `s`, in lexicographic order of their positions.
pub open spec fn combos(s: Seq<u32>, k: nat) -> Seq<Seq<u32>>
    decreases s.len(),
{
    if k == 0 {
        seq![Seq::<u32>::empty()]
    } else if s.len() == 0 {
        Seq::empty()
    } else {
        combos(s.drop_first(), (k - 1) as nat).map_values(|c: Seq<u32>| seq![s[0]] + c) + combos(s.drop_first(), k)
    }
}

/// The alternatives whose indices `c` lists.
pub open spec fn alts_of(c: Seq<u32>) -> Set<Alt> {
    Set::new(|a: Alt| c.contains(a.0))
}

/// Every combination draws its elements from `s`.
pub proof fn lemma_combos_within(s: Seq<u32>, k: nat)
    ensures
        forall|i: int, j: int|
            0 <= i < combos(s, k).len() && 0 <= j < combos(s, k)[i].len() ==> s.contains(#[trigger] combos(s, k)[i][j]),
    decreases s.len(),
{
    if k > 0 && s.len() > 0 {
        let t = s.drop_first();
        lemma_combos_within(t, (k - 1) as nat);
        lemma_combos_within(t, k);
        let left = combos(t, (k - 1) as nat).map_values(|c: Seq<u32>| seq![s[0]] + c);
        assert forall|i: int, j: int| 0 <= i < combos(s, k).len() && 0 <= j < combos(s, k)[i].len() implies s.contains(#[trigger] combos(s, k)[i][j]) by {
            if i < left.len() {
                let c = combos(t, (k - 1) as nat)[i];
                assert(combos(s, k)[i] == seq![s[0]] + c);
                if j == 0 {
                    assert(s[0] == combos(s, k)[i][j]);
                } else {
                    assert(combos(s, k)[i][j] == c[j - 1]);
                    assert(t.contains(c[j - 1]));
                    let q = choose|q: int| 0 <= q < t.len() && t[q] == c[j - 1];
                    assert(s[q + 1] == t[q]);
                }
            } else {
                let c = combos(t, k)[i - left.len()];
                assert(combos(s, k)[i] == c);
                assert(t.contains(c[j]));
                let q = choose|q: int| 0 <= q < t.len() && t[q] == c[j];
                assert(s[q + 1] == t[q]);
            }
        }
    }
}

/// Relies on itertools' `combinations`: the `k`-element combinations of `items`, in
/// lexicographic order of their positions, each listed in the order of `items`.
#[verifier::external_body]
fn combinations_of(items: &Vec<u32>, k: usize) -> (r: Vec<Vec<u32>>)
    ensures
        r.deep_view() == combos(items@, k as nat),
{
    items.iter().cloned().combinations(k).collect()
}

/// The sets of the alternatives that `combos` lists.
fn sets_of_combinations(items: &Vec<u32>, k: usize) -> (r: Vec<AltSet>)
    requires
        forall|j: int| 0 <= j < items@.len() ==> (#[trigger] items@[j]) < MAX_BLOCKS * 32,
    ensures
        r@.len() == combos(items@, k as nat).len(),
        forall|i: int| 0 <= i < r@.len() ==> (#[trigger] r@[i]).alts() == alts_of(combos(items@, k as nat)[i]),
{
    let cs = combinations_of(items, k);
    proof {
        lemma_combos_within(items@, k as nat);
    }
    let mut r: Vec<AltSet> = Vec::new();
    let mut i: usize = 0;
    while i < cs.len()
        invariant
            cs.deep_view() == combos(items@, k as nat),
            forall|j: int| 0 <= j < items@.len() ==> (#[trigger] items@[j]) < MAX_BLOCKS * 32,
            forall|a: int, b: int|
                0 <= a < combos(items@, k as nat).len() && 0 <= b < combos(items@, k as nat)[a].len() ==> items@.contains(
                    #[trigger] combos(items@, k as nat)[a][b],
                ),
            i <= cs@.len(),
            r@.len() == i,
            forall|j: int| 0 <= j < i ==> (#[trigger] r@[j]).alts() == alts_of(combos(items@, k as nat)[j]),
        decreases cs@.len() - i,
    {
        let c = &cs[i];
        let mut v: Vec<Alt> = Vec::new();
        let mut j: usize = 0;
        proof {
            assert(c@ == cs.deep_view()[i as int]);
        }
        while j < c.len()
            invariant
                c@ == combos(items@, k as nat)[i as int],
                forall|q: int| 0 <= q < items@.len() ==> (#[trigger] items@[q]) < MAX_BLOCKS * 32,
                forall|b: int| 0 <= b < c@.len() ==> items@.contains(#[trigger] c@[b]),
                j <= c@.len(),
                v@.len() == j,
                forall|q: int| 0 <= q < j ==> (#[trigger] v@[q]) == Alt(c@[q]),
                forall|q: int| 0 <= q < j ==> (#[trigger] v@[q]).0 < MAX_BLOCKS * 32,
            decreases c@.len() - j,
        {
            proof {
                assert(items@.contains(c@[j as int]));
                let q = choose|q: int| 0 <= q < items@.len() && items@[q] == c@[j as int];
            }
            v.push(Alt(c[j]));
            j = j + 1;
        }
        let s = AltSet::from_alts(v.as_slice());
        proof {
            assert forall|a: Alt| #[trigger] v@.to_set().contains(a) == alts_of(c@).contains(a) by {
                if v@.contains(a) {
                    let q = choose|q: int| 0 <= q < v@.len() && v@[q] == a;
                }
                if c@.contains(a.0) {
                    let q = choose|q: int| 0 <= q < c@.len() && c@[q] == a.0;
                    assert(v@[q] == a);
                }
            }
            assert(v@.to_set() =~= alts_of(c@));
        }
        r.push(s);
        i = i + 1;
    }
    r
}

impl AltSet {
    /// The `k`-element subsets of the first `n` alternatives, in lexicographic order.
    pub fn combinations(n: u32, k: u32) -> (r: Vec<AltSet>)
        requires
            n <= MAX_BLOCKS * 32,
        ensures
            r@.len() == combos(Seq::new(n as nat, |i: int| i as u32), k as nat).len(),
            forall|i: int| 0 <= i < r@.len() ==> (#[trigger] r@[i]).alts() == alts_of(combos(Seq::new(n as nat, |i: int| i as u32), k as nat)[i]),
    {
        let mut items: Vec<u32> = Vec::new();
        let mut i: u32 = 0;
        while i < n
            invariant
                i <= n <= MAX_BLOCKS * 32,
                items@ == Seq::new(i as nat, |q: int| q as u32),
            decreases n - i,
        {
            items.push(i);
            proof {
                assert(items@ =~= Seq::new((i + 1) as nat, |q: int| q as u32));
            }
            i = i + 1;
        }
        sets_of_combinations(&items, k as usize)
    }
}

impl<'a> AltSetView<'a> {
    /// The `k`-element subsets of this set, in lexicographic order of its elements.
    pub fn combinations(&self, k: u32) -> (r: Vec<AltSet>)
        requires
            self.wf(),
        ensures
            exists|elems: Seq<u32>| {
                &&& elems.len() == self@.len()
                &&& alts_of(elems) == self@
                &&& r@.len() == combos(elems, k as nat).len()
                &&& forall|i: int| 0 <= i < r@.len() ==> (#[trigger] r@[i]).alts() == alts_of(combos(elems, k as nat)[i])
            },
    {
        let elems = self.iter();
        let mut items: Vec<u32> = Vec::new();
        let mut j: usize = 0;
        while j < elems.len()
            invariant
                j <= elems@.len(),
                items@.len() == j,
                forall|q: int| 0 <= q < j ==> items@[q] == (#[trigger] elems@[q]).0,
                forall|q: int| 0 <= q < elems@.len() ==> (#[trigger] elems@[q]).0 < self.blocks@.len() * 32,
                self.wf(),
            decreases elems@.len() - j,
        {
            items.push(elems[j].0);
            j = j + 1;
        }
        proof {
            assert forall|q: int| 0 <= q < items@.len() implies (#[trigger] items@[q]) < MAX_BLOCKS * 32 by {
                assert(items@[q] == elems@[q].0);
            }
        }
        let r = sets_of_combinations(&items, k as usize);
        proof {
            assert forall|a: Alt| #[trigger] alts_of(items@).contains(a) == self@.contains(a) by {
                if items@.contains(a.0) {
                    let q = choose|q: int| 0 <= q < items@.len() && items@[q] == a.0;
                    assert(elems@[q] == a);
                    assert(elems@.to_set().contains(a));
                }
                if self@.contains(a) {
                    assert(elems@.to_set().contains(a));
                    let q = choose|q: int| 0 <= q < elems@.len() && elems@[q] == a;
                    assert(items@[q] == a.0);
                }
            }
            assert(alts_of(items@) =~= self@);
        }
        r
    }
}

/// Relies on rand's `random`: a `u32` drawn from the thread-local generator.
#[verifier::external_body]
fn random_block() -> (r: u32) {
    rand::random::<u32>()
}

impl AltSet {
    /// A random subset of the first `alt_count` alternatives, possibly empty.
    pub fn rand_possibly_empty(alt_count: u32) -> (r: AltSet)
        requires
            alt_count <= MAX_BLOCKS * 32,
        ensures
            r.alts().subset_of(alts_below(alt_count as int)),
    {
        let nblocks = ((alt_count as u64 + 31) / 32) as usize;
        let mut blocks: Vec<Block> = Vec::new();
        let mut k: usize = 0;
        while k < nblocks
            invariant
                k <= nblocks,
                nblocks == (alt_count + 31) / 32,
                alt_count <= MAX_BLOCKS * 32,
                blocks@.len() == k,
                forall|i: u32| #[trigger] marks(blocks@, i) ==> i < alt_count,
            decreases nblocks - k,
        {
            let b = random_block();
            let last_bits = alt_count % 32;
            let masked = if k + 1 == nblocks && last_bits != 0 {
                assert(1u32 << last_bits >= 1) by (bit_vector)
                    requires
                        last_bits < 32,
                ;
                b & ((1u32 << last_bits) - 1)
            } else {
                b
            };
            let ghost before = blocks@;
            blocks.push(masked);
            proof {
                assert forall|i: u32| #[trigger] marks(blocks@, i) implies i < alt_count by {
                    if i / 32 < k {
                        assert(blocks@[(i / 32) as int] == before[(i / 32) as int]);
                        assert(marks(before, i));
                    } else {
                        vstd::arithmetic::div_mod::lemma_fundamental_div_mod(i as int, 32);
                        vstd::arithmetic::div_mod::lemma_fundamental_div_mod(alt_count as int, 32);
                        if k + 1 == nblocks && last_bits != 0 {
                            lemma_bit_and(b, ((1u32 << last_bits) - 1) as u32, i % 32);
                            lemma_bit_low_mask(last_bits, i % 32);
                        }
                    }
                }
            }
            k = k + 1;
        }
        proof {
            assert forall|a: Alt| set_of(blocks@).contains(a) implies alts_below(alt_count as int).contains(a) by {
                assert(marks(blocks@, a.0));
            }
            assert(blocks@.len() <= MAX_BLOCKS);
        }
        AltSet::from_blocks(blocks)
    }
}

} // verus!

verus! {

/// The names joined by commas.
pub open spec fn joined(names: Seq<Seq<char>>) -> Seq<char>
    decreases names.len(),
{
    if names.len() == 0 {
        Seq::empty()
    } else if names.len() == 1 {
        names[0]
    } else {
        joined(names.drop_last()) + seq![','] + names.last()
    }
}

impl<'a> AltSetView<'a> {
    /// The names of the elements, in ascending order, separated by commas.
    pub fn to_string(&self, alternatives: &[&str]) -> (r: String)
        requires
            self.wf(),
            forall|a: Alt| self@.contains(a) ==> a.0 < alternatives@.len(),
        ensures
            exists|elems: Seq<Alt>| {
                &&& elems.to_set() == self@
                &&& ascending(elems)
                &&& r@ == joined(Seq::new(elems.len(), |k: int| alternatives@[elems[k].0 as int]@))
            },
    {
        let elems = self.iter();
        let ghost names = Seq::new(elems@.len(), |k: int| alternatives@[elems@[k].0 as int]@);
        let mut s = String::new();
        let mut k: usize = 0;
        while k < elems.len()
            invariant
                k <= elems@.len(),
                elems@.to_set() == self@,
                forall|a: Alt| self@.contains(a) ==> a.0 < alternatives@.len(),
                names == Seq::new(elems@.len(), |k: int| alternatives@[elems@[k].0 as int]@),
                s@ == joined(names.subrange(0, k as int)),
            decreases elems@.len() - k,
        {
            proof {
                assert(elems@.to_set().contains(elems@[k as int]));
                assert(names.subrange(0, k + 1).drop_last() =~= names.subrange(0, k as int));
            }
            let name = alternatives[elems[k].0 as usize];
            if k > 0 {
                proof {
                    reveal_strlit(",");
                    assert(","@ == seq![',']);
                }
                s.append(",");
            }
            s.append(name);
            proof {
                if k == 0 {
                    assert(names.subrange(0, 1) =~= seq![names[0]]);
                }
                assert(names.subrange(0, k + 1).last() == name@);
            }
            k = k + 1;
        }
        proof {
            assert(names.subrange(0, elems@.len() as int) =~= names);
        }
        s
    }
}

} // verus!

verus! {

/// Iterating a set and collecting the elements again gives the same set: whatever `iter`
/// may return for `s` (ascending, holding exactly its elements), `from_alts` of it holds
/// exactly the elements of `s`, and so compares equal to `s`.
pub proof fn lemma_iterate_collect(s: &AltSet, elems: Seq<Alt>, back: &AltSet)
    requires
        ascending(elems),
        elems.to_set() == s.alts(),
        back.alts() == elems.to_set(),
    ensures
        back.alts() == s.alts(),
{
}

} // verus!
