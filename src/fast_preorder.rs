//! Enumeration of all preorders on at most eight alternatives, packed into one `u64`
//! with one byte per row.
use vstd::prelude::*;
use vstd::hash_map::HashMapWithView;

verus! {

broadcast use vstd::std_specs::hash::group_hash_axioms;

/// A relation on at most eight alternatives: bit `8 * i + j` is set iff `i ≤ j`.
#[derive(Clone, Copy, Debug)]
pub struct FastPreorder(pub u64);

/// Bit `8 * i + j` of `m`.
pub open spec fn fast_bit(m: u64, i: int, j: int) -> bool {
    (m >> ((8 * i + j) as u64)) & 1u64 == 1u64
}

/// Bit `q` of `m`.
pub open spec fn fast_bit64(m: u64, q: int) -> bool {
    (m >> (q as u64)) & 1u64 == 1u64
}

/// Every bit set in `m` is a cell `(i, j)` of alternatives below `n`.
pub open spec fn in_cells(m: u64, n: int) -> bool {
    forall|q: int| 0 <= q < 64 && #[trigger] fast_bit64(m, q) ==> q / 8 < n && q % 8 < n
}

/// Words that agree on every bit are equal.
proof fn lemma_same_bits(a: u64, b: u64)
    requires
        forall|q: int| 0 <= q < 64 ==> #[trigger] fast_bit64(a, q) == fast_bit64(b, q),
    ensures
        a == b,
{
        assert(fast_bit64(a, 0) == fast_bit64(b, 0));
        assert(fast_bit64(a, 1) == fast_bit64(b, 1));
        assert(fast_bit64(a, 2) == fast_bit64(b, 2));
        assert(fast_bit64(a, 3) == fast_bit64(b, 3));
        assert(fast_bit64(a, 4) == fast_bit64(b, 4));
        assert(fast_bit64(a, 5) == fast_bit64(b, 5));
        assert(fast_bit64(a, 6) == fast_bit64(b, 6));
        assert(fast_bit64(a, 7) == fast_bit64(b, 7));
        assert(fast_bit64(a, 8) == fast_bit64(b, 8));
        assert(fast_bit64(a, 9) == fast_bit64(b, 9));
        assert(fast_bit64(a, 10) == fast_bit64(b, 10));
        assert(fast_bit64(a, 11) == fast_bit64(b, 11));
        assert(fast_bit64(a, 12) == fast_bit64(b, 12));
        assert(fast_bit64(a, 13) == fast_bit64(b, 13));
        assert(fast_bit64(a, 14) == fast_bit64(b, 14));
        assert(fast_bit64(a, 15) == fast_bit64(b, 15));
        assert(fast_bit64(a, 16) == fast_bit64(b, 16));
        assert(fast_bit64(a, 17) == fast_bit64(b, 17));
        assert(fast_bit64(a, 18) == fast_bit64(b, 18));
        assert(fast_bit64(a, 19) == fast_bit64(b, 19));
        assert(fast_bit64(a, 20) == fast_bit64(b, 20));
        assert(fast_bit64(a, 21) == fast_bit64(b, 21));
        assert(fast_bit64(a, 22) == fast_bit64(b, 22));
        assert(fast_bit64(a, 23) == fast_bit64(b, 23));
        assert(fast_bit64(a, 24) == fast_bit64(b, 24));
        assert(fast_bit64(a, 25) == fast_bit64(b, 25));
        assert(fast_bit64(a, 26) == fast_bit64(b, 26));
        assert(fast_bit64(a, 27) == fast_bit64(b, 27));
        assert(fast_bit64(a, 28) == fast_bit64(b, 28));
        assert(fast_bit64(a, 29) == fast_bit64(b, 29));
        assert(fast_bit64(a, 30) == fast_bit64(b, 30));
        assert(fast_bit64(a, 31) == fast_bit64(b, 31));
        assert(fast_bit64(a, 32) == fast_bit64(b, 32));
        assert(fast_bit64(a, 33) == fast_bit64(b, 33));
        assert(fast_bit64(a, 34) == fast_bit64(b, 34));
        assert(fast_bit64(a, 35) == fast_bit64(b, 35));
        assert(fast_bit64(a, 36) == fast_bit64(b, 36));
        assert(fast_bit64(a, 37) == fast_bit64(b, 37));
        assert(fast_bit64(a, 38) == fast_bit64(b, 38));
        assert(fast_bit64(a, 39) == fast_bit64(b, 39));
        assert(fast_bit64(a, 40) == fast_bit64(b, 40));
        assert(fast_bit64(a, 41) == fast_bit64(b, 41));
        assert(fast_bit64(a, 42) == fast_bit64(b, 42));
        assert(fast_bit64(a, 43) == fast_bit64(b, 43));
        assert(fast_bit64(a, 44) == fast_bit64(b, 44));
        assert(fast_bit64(a, 45) == fast_bit64(b, 45));
        assert(fast_bit64(a, 46) == fast_bit64(b, 46));
        assert(fast_bit64(a, 47) == fast_bit64(b, 47));
        assert(fast_bit64(a, 48) == fast_bit64(b, 48));
        assert(fast_bit64(a, 49) == fast_bit64(b, 49));
        assert(fast_bit64(a, 50) == fast_bit64(b, 50));
        assert(fast_bit64(a, 51) == fast_bit64(b, 51));
        assert(fast_bit64(a, 52) == fast_bit64(b, 52));
        assert(fast_bit64(a, 53) == fast_bit64(b, 53));
        assert(fast_bit64(a, 54) == fast_bit64(b, 54));
        assert(fast_bit64(a, 55) == fast_bit64(b, 55));
        assert(fast_bit64(a, 56) == fast_bit64(b, 56));
        assert(fast_bit64(a, 57) == fast_bit64(b, 57));
        assert(fast_bit64(a, 58) == fast_bit64(b, 58));
        assert(fast_bit64(a, 59) == fast_bit64(b, 59));
        assert(fast_bit64(a, 60) == fast_bit64(b, 60));
        assert(fast_bit64(a, 61) == fast_bit64(b, 61));
        assert(fast_bit64(a, 62) == fast_bit64(b, 62));
        assert(fast_bit64(a, 63) == fast_bit64(b, 63));
    assert(a == b) by (bit_vector)
        requires
            ((a >> 0u64) & 1u64 == 1u64) == ((b >> 0u64) & 1u64 == 1u64),
            ((a >> 1u64) & 1u64 == 1u64) == ((b >> 1u64) & 1u64 == 1u64),
            ((a >> 2u64) & 1u64 == 1u64) == ((b >> 2u64) & 1u64 == 1u64),
            ((a >> 3u64) & 1u64 == 1u64) == ((b >> 3u64) & 1u64 == 1u64),
            ((a >> 4u64) & 1u64 == 1u64) == ((b >> 4u64) & 1u64 == 1u64),
            ((a >> 5u64) & 1u64 == 1u64) == ((b >> 5u64) & 1u64 == 1u64),
            ((a >> 6u64) & 1u64 == 1u64) == ((b >> 6u64) & 1u64 == 1u64),
            ((a >> 7u64) & 1u64 == 1u64) == ((b >> 7u64) & 1u64 == 1u64),
            ((a >> 8u64) & 1u64 == 1u64) == ((b >> 8u64) & 1u64 == 1u64),
            ((a >> 9u64) & 1u64 == 1u64) == ((b >> 9u64) & 1u64 == 1u64),
            ((a >> 10u64) & 1u64 == 1u64) == ((b >> 10u64) & 1u64 == 1u64),
            ((a >> 11u64) & 1u64 == 1u64) == ((b >> 11u64) & 1u64 == 1u64),
            ((a >> 12u64) & 1u64 == 1u64) == ((b >> 12u64) & 1u64 == 1u64),
            ((a >> 13u64) & 1u64 == 1u64) == ((b >> 13u64) & 1u64 == 1u64),
            ((a >> 14u64) & 1u64 == 1u64) == ((b >> 14u64) & 1u64 == 1u64),
            ((a >> 15u64) & 1u64 == 1u64) == ((b >> 15u64) & 1u64 == 1u64),
            ((a >> 16u64) & 1u64 == 1u64) == ((b >> 16u64) & 1u64 == 1u64),
            ((a >> 17u64) & 1u64 == 1u64) == ((b >> 17u64) & 1u64 == 1u64),
            ((a >> 18u64) & 1u64 == 1u64) == ((b >> 18u64) & 1u64 == 1u64),
            ((a >> 19u64) & 1u64 == 1u64) == ((b >> 19u64) & 1u64 == 1u64),
            ((a >> 20u64) & 1u64 == 1u64) == ((b >> 20u64) & 1u64 == 1u64),
            ((a >> 21u64) & 1u64 == 1u64) == ((b >> 21u64) & 1u64 == 1u64),
            ((a >> 22u64) & 1u64 == 1u64) == ((b >> 22u64) & 1u64 == 1u64),
            ((a >> 23u64) & 1u64 == 1u64) == ((b >> 23u64) & 1u64 == 1u64),
            ((a >> 24u64) & 1u64 == 1u64) == ((b >> 24u64) & 1u64 == 1u64),
            ((a >> 25u64) & 1u64 == 1u64) == ((b >> 25u64) & 1u64 == 1u64),
            ((a >> 26u64) & 1u64 == 1u64) == ((b >> 26u64) & 1u64 == 1u64),
            ((a >> 27u64) & 1u64 == 1u64) == ((b >> 27u64) & 1u64 == 1u64),
            ((a >> 28u64) & 1u64 == 1u64) == ((b >> 28u64) & 1u64 == 1u64),
            ((a >> 29u64) & 1u64 == 1u64) == ((b >> 29u64) & 1u64 == 1u64),
            ((a >> 30u64) & 1u64 == 1u64) == ((b >> 30u64) & 1u64 == 1u64),
            ((a >> 31u64) & 1u64 == 1u64) == ((b >> 31u64) & 1u64 == 1u64),
            ((a >> 32u64) & 1u64 == 1u64) == ((b >> 32u64) & 1u64 == 1u64),
            ((a >> 33u64) & 1u64 == 1u64) == ((b >> 33u64) & 1u64 == 1u64),
            ((a >> 34u64) & 1u64 == 1u64) == ((b >> 34u64) & 1u64 == 1u64),
            ((a >> 35u64) & 1u64 == 1u64) == ((b >> 35u64) & 1u64 == 1u64),
            ((a >> 36u64) & 1u64 == 1u64) == ((b >> 36u64) & 1u64 == 1u64),
            ((a >> 37u64) & 1u64 == 1u64) == ((b >> 37u64) & 1u64 == 1u64),
            ((a >> 38u64) & 1u64 == 1u64) == ((b >> 38u64) & 1u64 == 1u64),
            ((a >> 39u64) & 1u64 == 1u64) == ((b >> 39u64) & 1u64 == 1u64),
            ((a >> 40u64) & 1u64 == 1u64) == ((b >> 40u64) & 1u64 == 1u64),
            ((a >> 41u64) & 1u64 == 1u64) == ((b >> 41u64) & 1u64 == 1u64),
            ((a >> 42u64) & 1u64 == 1u64) == ((b >> 42u64) & 1u64 == 1u64),
            ((a >> 43u64) & 1u64 == 1u64) == ((b >> 43u64) & 1u64 == 1u64),
            ((a >> 44u64) & 1u64 == 1u64) == ((b >> 44u64) & 1u64 == 1u64),
            ((a >> 45u64) & 1u64 == 1u64) == ((b >> 45u64) & 1u64 == 1u64),
            ((a >> 46u64) & 1u64 == 1u64) == ((b >> 46u64) & 1u64 == 1u64),
            ((a >> 47u64) & 1u64 == 1u64) == ((b >> 47u64) & 1u64 == 1u64),
            ((a >> 48u64) & 1u64 == 1u64) == ((b >> 48u64) & 1u64 == 1u64),
            ((a >> 49u64) & 1u64 == 1u64) == ((b >> 49u64) & 1u64 == 1u64),
            ((a >> 50u64) & 1u64 == 1u64) == ((b >> 50u64) & 1u64 == 1u64),
            ((a >> 51u64) & 1u64 == 1u64) == ((b >> 51u64) & 1u64 == 1u64),
            ((a >> 52u64) & 1u64 == 1u64) == ((b >> 52u64) & 1u64 == 1u64),
            ((a >> 53u64) & 1u64 == 1u64) == ((b >> 53u64) & 1u64 == 1u64),
            ((a >> 54u64) & 1u64 == 1u64) == ((b >> 54u64) & 1u64 == 1u64),
            ((a >> 55u64) & 1u64 == 1u64) == ((b >> 55u64) & 1u64 == 1u64),
            ((a >> 56u64) & 1u64 == 1u64) == ((b >> 56u64) & 1u64 == 1u64),
            ((a >> 57u64) & 1u64 == 1u64) == ((b >> 57u64) & 1u64 == 1u64),
            ((a >> 58u64) & 1u64 == 1u64) == ((b >> 58u64) & 1u64 == 1u64),
            ((a >> 59u64) & 1u64 == 1u64) == ((b >> 59u64) & 1u64 == 1u64),
            ((a >> 60u64) & 1u64 == 1u64) == ((b >> 60u64) & 1u64 == 1u64),
            ((a >> 61u64) & 1u64 == 1u64) == ((b >> 61u64) & 1u64 == 1u64),
            ((a >> 62u64) & 1u64 == 1u64) == ((b >> 62u64) & 1u64 == 1u64),
            ((a >> 63u64) & 1u64 == 1u64) == ((b >> 63u64) & 1u64 == 1u64),
    ;
}

/// Two different words with their bits in the cells below `n` differ in some cell.
pub proof fn lemma_distinct_cells(a: u64, b: u64, n: int)
    requires
        a != b,
        in_cells(a, n),
        in_cells(b, n),
    ensures
        exists|i: int, j: int| 0 <= i < n && 0 <= j < n && #[trigger] fast_bit(a, i, j) != fast_bit(b, i, j),
{
    if forall|q: int| 0 <= q < 64 ==> #[trigger] fast_bit64(a, q) == fast_bit64(b, q) {
        lemma_same_bits(a, b);
    }
    let q = choose|q: int| 0 <= q < 64 && #[trigger] fast_bit64(a, q) != fast_bit64(b, q);
    let i = q / 8;
    let j = q % 8;
    assert(q == 8 * i + j);
    assert(fast_bit(a, i, j) == fast_bit64(a, q));
    assert(fast_bit(b, i, j) == fast_bit64(b, q));
}

/// Every alternative below `n` is related to itself in `m`.
pub open spec fn diagonal_set(m: u64, n: int) -> bool {
    forall|i: int| 0 <= i < n ==> #[trigger] fast_bit(m, i, i)
}

/// The number of clear bits of `m` below position `k`.
pub open spec fn zero_count(m: u64, k: int) -> int
    decreases k,
{
    if k <= 0 {
        0
    } else {
        zero_count(m, k - 1) + if (m >> ((k - 1) as u64)) & 1u64 == 1u64 { 0int } else { 1int }
    }
}

proof fn lemma_bit64_set(m: u64, x: u64, q: u64)
    requires
        x < 64,
        q < 64,
    ensures
        ((m | (1u64 << x)) >> q) & 1u64 == 1u64 <==> (q == x || (m >> q) & 1u64 == 1u64),
{
    assert(((m | (1u64 << x)) >> q) & 1u64 == 1u64 <==> (q == x || (m >> q) & 1u64 == 1u64)) by (bit_vector)
        requires
            x < 64,
            q < 64,
    ;
}

proof fn lemma_zero_count_nonneg(m: u64, k: int)
    ensures
        0 <= zero_count(m, k),
    decreases k,
{
    if k > 0 {
        lemma_zero_count_nonneg(m, k - 1);
    }
}

/// Setting a clear bit removes one clear bit.
proof fn lemma_zero_count_set(m: u64, x: u64, k: int)
    requires
        x < 64,
        0 <= k <= 64,
        (m >> x) & 1u64 != 1u64,
    ensures
        zero_count(m | (1u64 << x), k) == zero_count(m, k) - if x < k { 1int } else { 0int },
    decreases k,
{
    if k > 0 {
        lemma_zero_count_set(m, x, k - 1);
        lemma_bit64_set(m, x, (k - 1) as u64);
    }
}

/// Setting a bit keeps the diagonal.
proof fn lemma_diagonal_kept(m: u64, x: u64, n: int)
    requires
        x < 64,
        0 <= n <= 8,
        diagonal_set(m, n),
    ensures
        diagonal_set(m | (1u64 << x), n),
{
    assert forall|i: int| 0 <= i < n implies #[trigger] fast_bit(m | (1u64 << x), i, i) by {
        assert(fast_bit(m, i, i));
        lemma_bit64_set(m, x, (8 * i + i) as u64);
    }
}

proof fn lemma_cell_bound(n: int, i: int, j: int)
    requires
        0 < n <= 8,
        0 <= i < n,
        0 <= j < n,
    ensures
        0 <= i * n + j < n * n <= 64,
{
    assert(0 <= i * n + j < n * n <= 64) by (nonlinear_arith)
        requires
            0 < n <= 8,
            0 <= i < n,
            0 <= j < n,
    ;
}

/// Setting a cell below `n` keeps every bit in the cells below `n`.
proof fn lemma_cells_kept(m: u64, i: int, j: int, n: int)
    requires
        0 <= i < n,
        0 <= j < n,
        n <= 8,
        in_cells(m, n),
    ensures
        in_cells(m | (1u64 << ((8 * i + j) as u64)), n),
{
    let x = (8 * i + j) as u64;
    assert forall|q: int| 0 <= q < 64 && #[trigger] fast_bit64(m | (1u64 << x), q) implies q / 8 < n && q % 8 < n by {
        lemma_bit64_set(m, x, q as u64);
        if q == x {
            vstd::arithmetic::div_mod::lemma_fundamental_div_mod_converse(q, 8, i, j);
        } else {
            assert(fast_bit64(m, q));
        }
    }
}

proof fn lemma_small_words(q: int)
    requires
        0 <= q < 64,
    ensures
        !fast_bit64(0u64, q),
        fast_bit64(1u64, q) ==> q == 0,
{
    let s = q as u64;
    assert(((0u64 >> s) & 1u64 != 1u64) && (((1u64 >> s) & 1u64 == 1u64) ==> s == 0)) by (bit_vector)
        requires
            s < 64,
    ;
}

/// Keys of `order` all have their bits in the cells below `n`.
pub open spec fn all_in_cells(order: Seq<u64>, n: int) -> bool {
    forall|k: int| 0 <= k < order.len() ==> in_cells(#[trigger] order[k], n)
}

/// Whether `i ≤ j` in `m`.
fn ix(m: u64, i: usize, j: usize) -> (r: bool)
    requires
        i < 8,
        j < 8,
    ensures
        r == fast_bit(m, i as int, j as int),
{
    (m >> (8 * i + j) as u64) & 1 == 1
}

/// The first cell after `ij`, in row-major order, that is not set in `matrix`.
fn next(n: usize, matrix: u64, ij: (usize, usize)) -> (r: Option<(usize, usize)>)
    requires
        0 < n <= 8,
        ij.0 < n,
        ij.1 < n,
    ensures
        r matches Some(c) ==> c.0 < n && c.1 < n && c.0 * n + c.1 > ij.0 * n + ij.1
            && !fast_bit(matrix, c.0 as int, c.1 as int),
{
    let (mut i, mut j) = ij;
    loop
        invariant
            0 < n <= 8,
            i < n,
            j < n,
            i * n + j >= ij.0 * n + ij.1,
        decreases n * n - (i * n + j),
    {
        proof {
            assert(i * n + j < n * n) by (nonlinear_arith)
                requires
                    i < n,
                    j < n,
            ;
            assert((i + 1) * n == i * n + n) by (nonlinear_arith);
        }
        j = j + 1;
        if j == n {
            j = 0;
            i = i + 1;
        }
        if i == n {
            return None;
        }
        if !ix(matrix, i, j) {
            return Some((i, j));
        }
    }
}

/// Records `key` with `cell` in `history`, keeping `order` as the keys in first-seen order.
fn record(
    history: &mut HashMapWithView<u64, usize>,
    order: &mut Vec<u64>,
    key: u64,
    cell: usize,
)
    requires
        old(history)@.dom() == old(order)@.to_set(),
        old(order)@.no_duplicates(),
    ensures
        final(history)@ == old(history)@.insert(key, cell),
        final(history)@.dom() == final(order)@.to_set(),
        final(order)@.no_duplicates(),
        final(order)@ == old(order)@ || final(order)@ == old(order)@.push(key),
{
    if !history.contains_key(&key) {
        proof {
            assert(!old(order)@.contains(key));
        }
        let ghost before = order@;
        order.push(key);
        proof {
            before.lemma_push_to_set_commute(key);
            assert forall|a: int, b: int| 0 <= a < order@.len() && 0 <= b < order@.len() && a != b implies order@[a] != order@[b] by {
                if a == before.len() {
                    assert(before.contains(order@[b]));
                } else if b == before.len() {
                    assert(before.contains(order@[a]));
                }
            }
        }
    }
    history.insert(key, cell);
    proof {
        assert(history@.dom() =~= order@.to_set());
    }
}

/// `m` relates each alternative below `n` to itself and to nothing else.
pub open spec fn identity_word(m: u64, n: int) -> bool {
    forall|i: int, j: int| 0 <= i < n && 0 <= j < n ==> #[trigger] fast_bit(m, i, j) == (i == j)
}

/// Keys of `order` all have their diagonal set.
pub open spec fn all_diagonal(order: Seq<u64>, n: int) -> bool {
    forall|k: int| 0 <= k < order.len() ==> diagonal_set(#[trigger] order[k], n)
}

/// Explores the closed relations reachable from `matrix` by deciding the empty cells from
/// `ij` on: each is either left empty or set, together with everything transitivity forces.
fn explore(
    n: usize,
    history: &mut HashMapWithView<u64, usize>,
    order: &mut Vec<u64>,
    matrix: u64,
    ij: (usize, usize),
)
    requires
        0 < n <= 8,
        ij.0 < n,
        ij.1 < n,
        diagonal_set(matrix, n as int),
        in_cells(matrix, n as int),
        old(history)@.dom() == old(order)@.to_set(),
        old(order)@.no_duplicates(),
        all_diagonal(old(order)@, n as int),
        all_in_cells(old(order)@, n as int),
    ensures
        final(history)@.dom() == final(order)@.to_set(),
        final(order)@.no_duplicates(),
        all_diagonal(final(order)@, n as int),
        all_in_cells(final(order)@, n as int),
        final(order)@.contains(matrix),
    decreases n * n - (ij.0 * n + ij.1),
{
    proof {
        lemma_cell_bound(n as int, ij.0 as int, ij.1 as int);
    }
    let cur_ij = ij.0 * n + ij.1;
    match history.get(&matrix) {
        Some(prev_ij) => {
            if cur_ij >= *prev_ij {
                proof {
                    assert(history@.dom().contains(matrix));
                    assert(order@.to_set().contains(matrix));
                }
                return;
            }
        },
        None => {},
    }
    // either leave the cell empty
    match next(n, matrix, ij) {
        Some(ij_next) => {
            proof {
                lemma_cell_bound(n as int, ij_next.0 as int, ij_next.1 as int);
            }
            explore(n, history, order, matrix, ij_next);
        },
        None => {},
    }
    // or set it, and close the result under transitivity
    proof {
        lemma_diagonal_kept(matrix, (8 * ij.0 + ij.1) as u64, n as int);
        lemma_cells_kept(matrix, ij.0 as int, ij.1 as int, n as int);
    }
    let mut new_matrix = matrix | (1u64 << (8 * ij.0 + ij.1) as u64);
    let mut prop: Vec<(usize, usize)> = Vec::new();
    prop.push(ij);
    proof {
        lemma_zero_count_nonneg(new_matrix, 64);
    }
    while prop.len() > 0
        invariant
            0 < n <= 8,
            diagonal_set(new_matrix, n as int),
            in_cells(new_matrix, n as int),
            forall|s: int| 0 <= s < prop@.len() ==> (#[trigger] prop@[s]).0 < n && prop@[s].1 < n,
            0 <= zero_count(new_matrix, 64),
        decreases 2 * zero_count(new_matrix, 64) + prop@.len(),
    {
        let c = prop.pop().unwrap();
        let ghost start = 2 * zero_count(new_matrix, 64) + prop@.len();
        let mut k: usize = 0;
        while k < n
            invariant
                0 < n <= 8,
                c.0 < n,
                c.1 < n,
                k <= n,
                diagonal_set(new_matrix, n as int),
                in_cells(new_matrix, n as int),
                forall|s: int| 0 <= s < prop@.len() ==> (#[trigger] prop@[s]).0 < n && prop@[s].1 < n,
                0 <= zero_count(new_matrix, 64),
                2 * zero_count(new_matrix, 64) + prop@.len() <= start,
            decreases n - k,
        {
            if ix(new_matrix, k, c.0) && !ix(new_matrix, k, c.1) {
                proof {
                    let x = (8 * k + c.1) as u64;
                    lemma_zero_count_set(new_matrix, x, 64);
                    lemma_diagonal_kept(new_matrix, x, n as int);
                    lemma_cells_kept(new_matrix, k as int, c.1 as int, n as int);
                    lemma_zero_count_nonneg(new_matrix | (1u64 << x), 64);
                }
                new_matrix = new_matrix | (1u64 << (8 * k + c.1) as u64);
                prop.push((k, c.1));
            }
            if ix(new_matrix, c.1, k) && !ix(new_matrix, c.0, k) {
                proof {
                    let x = (8 * c.0 + k) as u64;
                    lemma_zero_count_set(new_matrix, x, 64);
                    lemma_diagonal_kept(new_matrix, x, n as int);
                    lemma_cells_kept(new_matrix, c.0 as int, k as int, n as int);
                    lemma_zero_count_nonneg(new_matrix | (1u64 << x), 64);
                }
                new_matrix = new_matrix | (1u64 << (8 * c.0 + k) as u64);
                prop.push((c.0, k));
            }
            k = k + 1;
        }
    }
    match next(n, new_matrix, ij) {
        Some(ij_next) => {
            proof {
                lemma_cell_bound(n as int, ij_next.0 as int, ij_next.1 as int);
            }
            explore(n, history, order, new_matrix, ij_next);
        },
        None => {
            let ghost before = order@;
            record(history, order, new_matrix, cur_ij);
            proof {
                assert(all_diagonal(order@, n as int)) by {
                    assert forall|k: int| 0 <= k < order@.len() implies diagonal_set(#[trigger] order@[k], n as int) by {
                        if k < before.len() {
                            assert(order@[k] == before[k]);
                        }
                    }
                }
                assert(all_in_cells(order@, n as int)) by {
                    assert forall|k: int| 0 <= k < order@.len() implies in_cells(#[trigger] order@[k], n as int) by {
                        if k < before.len() {
                            assert(order@[k] == before[k]);
                        }
                    }
                }
            }
        },
    }
    let keep_prev = match history.get(&matrix) {
        Some(prev) => *prev <= cur_ij,
        None => false,
    };
    if !keep_prev {
        let ghost before = order@;
        record(history, order, matrix, cur_ij);
        proof {
            assert(history@.dom().contains(matrix));
            assert(order@.to_set().contains(matrix));
            assert forall|k: int| 0 <= k < order@.len() implies diagonal_set(#[trigger] order@[k], n as int) by {
                if k < before.len() {
                    assert(order@[k] == before[k]);
                }
            }
            assert forall|k: int| 0 <= k < order@.len() implies in_cells(#[trigger] order@[k], n as int) by {
                if k < before.len() {
                    assert(order@[k] == before[k]);
                }
            }
        }
    } else {
        proof {
            assert(history@.dom().contains(matrix));
            assert(order@.to_set().contains(matrix));
        }
    }
}

/// All preorders on `n` alternatives, each once. Every one is reflexive.
pub fn all(n: u32) -> (r: Vec<FastPreorder>)
    requires
        n <= 8,
    ensures
        forall|a: int, b: int| 0 <= a < r@.len() && 0 <= b < r@.len() && a != b ==> r@[a].0 != r@[b].0,
        forall|k: int| 0 <= k < r@.len() ==> diagonal_set((#[trigger] r@[k]).0, n as int),
        forall|k: int| 0 <= k < r@.len() ==> in_cells((#[trigger] r@[k]).0, n as int),
        n == 0 ==> r@.len() == 1 && r@[0].0 == 0,
        n == 1 ==> r@.len() == 1 && r@[0].0 == 1,
        exists|k: int| 0 <= k < r@.len() && identity_word((#[trigger] r@[k]).0, n as int),
{
    if n == 0 {
        let r: Vec<FastPreorder> = vec![FastPreorder(0)];
        proof {
            assert forall|q: int| 0 <= q < 64 && #[trigger] fast_bit64(r@[0].0, q) implies q / 8 < n && q % 8 < n by {
                lemma_small_words(q);
            }
        }
        return r;
    }
    if n == 1 {
        let r: Vec<FastPreorder> = vec![FastPreorder(1)];
        proof {
            assert((1u64 >> 0u64) & 1u64 == 1u64) by (bit_vector);
            assert(fast_bit(r@[0].0, 0, 0));
            assert forall|q: int| 0 <= q < 64 && #[trigger] fast_bit64(r@[0].0, q) implies q / 8 < n && q % 8 < n by {
                lemma_small_words(q);
            }
        }
        return r;
    }
    let mut matrix: u64 = 0;
    proof {
        assert forall|q: int| 0 <= q < 64 && #[trigger] fast_bit64(matrix, q) implies q / 8 < n && q % 8 < n by {
            lemma_small_words(q);
        }
        assert forall|a: int, b: int| 0 <= a < n && 0 <= b < n implies #[trigger] fast_bit(matrix, a, b) == (a == b && a < 0) by {
            lemma_small_words(8 * a + b);
        }
    }
    let mut i: u32 = 0;
    while i < n
        invariant
            i <= n <= 8,
            diagonal_set(matrix, i as int),
            in_cells(matrix, n as int),
            forall|a: int, b: int| 0 <= a < n && 0 <= b < n ==> #[trigger] fast_bit(matrix, a, b) == (a == b && a < i),
        decreases n - i,
    {
        proof {
            assert forall|a: int, b: int| 0 <= a < n && 0 <= b < n implies #[trigger] fast_bit(matrix | (1u64 << (8 * i + i) as u64), a, b) == (a == b && a < i + 1) by {
                lemma_bit64_set(matrix, (8 * i + i) as u64, (8 * a + b) as u64);
                assert(fast_bit(matrix, a, b) == (a == b && a < i));
                if 8 * a + b == 8 * i + i {
                    vstd::arithmetic::div_mod::lemma_fundamental_div_mod_converse(8 * a + b, 8, a, b);
                    vstd::arithmetic::div_mod::lemma_fundamental_div_mod_converse(8 * a + b, 8, i as int, i as int);
                }
            }
            lemma_diagonal_kept(matrix, (8 * i + i) as u64, i as int);
            lemma_cells_kept(matrix, i as int, i as int, n as int);
            lemma_bit64_set(matrix, (8 * i + i) as u64, (8 * i + i) as u64);
        }
        matrix = matrix | (1u64 << (8 * i + i) as u64);
        i = i + 1;
    }
    let mut history: HashMapWithView<u64, usize> = HashMapWithView::new();
    let mut order: Vec<u64> = Vec::new();
    proof {
        assert(history@.dom() =~= order@.to_set());
    }
    // (0, 0) is on the diagonal, so the search starts at (0, 1)
    explore(n as usize, &mut history, &mut order, matrix, (0, 1));
    let ghost id = matrix;
    proof {
        assert(identity_word(id, n as int));
    }
    let mut r: Vec<FastPreorder> = Vec::new();
    let mut k: usize = 0;
    while k < order.len()
        invariant
            k <= order@.len(),
            order@.no_duplicates(),
            all_diagonal(order@, n as int),
            all_in_cells(order@, n as int),
            r@.len() == k,
            forall|j: int| 0 <= j < k ==> (#[trigger] r@[j]).0 == order@[j],
            order@.contains(id),
            identity_word(id, n as int),
        decreases order@.len() - k,
    {
        r.push(FastPreorder(order[k]));
        k = k + 1;
    }
    proof {
        assert forall|k: int| 0 <= k < r@.len() implies diagonal_set((#[trigger] r@[k]).0, n as int) by {
            assert(r@[k].0 == order@[k]);
        }
        assert forall|k: int| 0 <= k < r@.len() implies in_cells((#[trigger] r@[k]).0, n as int) by {
            assert(r@[k].0 == order@[k]);
        }
        let w = choose|w: int| 0 <= w < order@.len() && order@[w] == id;
        assert(r@[w].0 == id);
    }
    r
}

} // verus!
