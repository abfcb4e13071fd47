//! Facts about single bits of a `u32` block.
use vstd::prelude::*;

verus! {

/// Bit `k` of `b` is set.
pub open spec fn bit(b: u32, k: u32) -> bool {
    (b >> k) & 1u32 == 1u32
}

pub proof fn lemma_bit_or(a: u32, b: u32, k: u32)
    requires
        k < 32,
    ensures
        bit(a | b, k) == (bit(a, k) || bit(b, k)),
{
    assert(((a | b) >> k) & 1u32 == 1u32 <==> ((a >> k) & 1u32 == 1u32 || (b >> k) & 1u32 == 1u32))
        by (bit_vector)
        requires
            k < 32,
    ;
}

pub proof fn lemma_bit_and(a: u32, b: u32, k: u32)
    requires
        k < 32,
    ensures
        bit(a & b, k) == (bit(a, k) && bit(b, k)),
{
    assert(((a & b) >> k) & 1u32 == 1u32 <==> ((a >> k) & 1u32 == 1u32 && (b >> k) & 1u32 == 1u32))
        by (bit_vector)
        requires
            k < 32,
    ;
}

pub proof fn lemma_bit_and_not(a: u32, b: u32, k: u32)
    requires
        k < 32,
    ensures
        bit(a & !b, k) == (bit(a, k) && !bit(b, k)),
{
    assert(((a & !b) >> k) & 1u32 == 1u32 <==> ((a >> k) & 1u32 == 1u32 && (b >> k) & 1u32 != 1u32))
        by (bit_vector)
        requires
            k < 32,
    ;
}

pub proof fn lemma_bit_set(a: u32, j: u32, k: u32)
    requires
        j < 32,
        k < 32,
    ensures
        bit(a | (1u32 << j), k) == (k == j || bit(a, k)),
{
    assert(((a | (1u32 << j)) >> k) & 1u32 == 1u32 <==> (k == j || (a >> k) & 1u32 == 1u32))
        by (bit_vector)
        requires
            j < 32,
            k < 32,
    ;
}

pub proof fn lemma_bit_clear(a: u32, j: u32, k: u32)
    requires
        j < 32,
        k < 32,
    ensures
        bit(a & !(1u32 << j), k) == (k != j && bit(a, k)),
{
    assert(((a & !(1u32 << j)) >> k) & 1u32 == 1u32 <==> (k != j && (a >> k) & 1u32 == 1u32))
        by (bit_vector)
        requires
            j < 32,
            k < 32,
    ;
}

pub proof fn lemma_bit_single(j: u32, k: u32)
    requires
        j < 32,
        k < 32,
    ensures
        bit(1u32 << j, k) == (k == j),
{
    assert(((1u32 << j) >> k) & 1u32 == 1u32 <==> k == j) by (bit_vector)
        requires
            j < 32,
            k < 32,
    ;
}

pub proof fn lemma_bit_low_mask(n: u32, k: u32)
    requires
        n < 32,
        k < 32,
    ensures
        bit(((1u32 << n) - 1) as u32, k) == (k < n),
{
    assert((((1u32 << n) - 1) as u32 >> k) & 1u32 == 1u32 <==> k < n) by (bit_vector)
        requires
            n < 32,
            k < 32,
    ;
}

pub proof fn lemma_bit_max(k: u32)
    requires
        k < 32,
    ensures
        bit(0xFFFF_FFFFu32, k),
        !bit(0u32, k),
{
    assert((0xFFFF_FFFFu32 >> k) & 1u32 == 1u32) by (bit_vector)
        requires
            k < 32,
    ;
    assert(!((0u32 >> k) & 1u32 == 1u32)) by (bit_vector);
}

/// A block with no bit set is zero.
pub proof fn lemma_no_bits_zero(a: u32)
    requires
        forall|k: u32| k < 32 ==> !#[trigger] bit(a, k),
    ensures
        a == 0,
{
        assert(!bit(a, 0u32));
        assert(!bit(a, 1u32));
        assert(!bit(a, 2u32));
        assert(!bit(a, 3u32));
        assert(!bit(a, 4u32));
        assert(!bit(a, 5u32));
        assert(!bit(a, 6u32));
        assert(!bit(a, 7u32));
        assert(!bit(a, 8u32));
        assert(!bit(a, 9u32));
        assert(!bit(a, 10u32));
        assert(!bit(a, 11u32));
        assert(!bit(a, 12u32));
        assert(!bit(a, 13u32));
        assert(!bit(a, 14u32));
        assert(!bit(a, 15u32));
        assert(!bit(a, 16u32));
        assert(!bit(a, 17u32));
        assert(!bit(a, 18u32));
        assert(!bit(a, 19u32));
        assert(!bit(a, 20u32));
        assert(!bit(a, 21u32));
        assert(!bit(a, 22u32));
        assert(!bit(a, 23u32));
        assert(!bit(a, 24u32));
        assert(!bit(a, 25u32));
        assert(!bit(a, 26u32));
        assert(!bit(a, 27u32));
        assert(!bit(a, 28u32));
        assert(!bit(a, 29u32));
        assert(!bit(a, 30u32));
        assert(!bit(a, 31u32));
    assert(a == 0) by (bit_vector)
        requires
            (a >> 0u32) & 1u32 != 1u32,
            (a >> 1u32) & 1u32 != 1u32,
            (a >> 2u32) & 1u32 != 1u32,
            (a >> 3u32) & 1u32 != 1u32,
            (a >> 4u32) & 1u32 != 1u32,
            (a >> 5u32) & 1u32 != 1u32,
            (a >> 6u32) & 1u32 != 1u32,
            (a >> 7u32) & 1u32 != 1u32,
            (a >> 8u32) & 1u32 != 1u32,
            (a >> 9u32) & 1u32 != 1u32,
            (a >> 10u32) & 1u32 != 1u32,
            (a >> 11u32) & 1u32 != 1u32,
            (a >> 12u32) & 1u32 != 1u32,
            (a >> 13u32) & 1u32 != 1u32,
            (a >> 14u32) & 1u32 != 1u32,
            (a >> 15u32) & 1u32 != 1u32,
            (a >> 16u32) & 1u32 != 1u32,
            (a >> 17u32) & 1u32 != 1u32,
            (a >> 18u32) & 1u32 != 1u32,
            (a >> 19u32) & 1u32 != 1u32,
            (a >> 20u32) & 1u32 != 1u32,
            (a >> 21u32) & 1u32 != 1u32,
            (a >> 22u32) & 1u32 != 1u32,
            (a >> 23u32) & 1u32 != 1u32,
            (a >> 24u32) & 1u32 != 1u32,
            (a >> 25u32) & 1u32 != 1u32,
            (a >> 26u32) & 1u32 != 1u32,
            (a >> 27u32) & 1u32 != 1u32,
            (a >> 28u32) & 1u32 != 1u32,
            (a >> 29u32) & 1u32 != 1u32,
            (a >> 30u32) & 1u32 != 1u32,
            (a >> 31u32) & 1u32 != 1u32,
    ;
}

/// Extracting bit `j` of `a` and moving it to position `d`.
pub proof fn lemma_bit_move(a: u32, j: u32, d: u32, k: u32)
    requires
        j < 32,
        d < 32,
        k < 32,
    ensures
        bit(((a >> j) & 1u32) << d, k) == (k == d && bit(a, j)),
{
    assert(((((a >> j) & 1u32) << d) >> k) & 1u32 == 1u32 <==> (k == d && (a >> j) & 1u32 == 1u32))
        by (bit_vector)
        requires
            j < 32,
            d < 32,
            k < 32,
    ;
}

} // verus!
