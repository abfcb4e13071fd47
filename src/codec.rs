//! The binary codec: unsigned integers as little-endian base-128 varints, and values
//! built from them.
use vstd::prelude::*;
use vstd::arithmetic::power2::pow2;
use base64::engine::Engine;
use base64::prelude::BASE64_STANDARD;
use crate::alt::Alt;
use crate::alt_set::{AltSet, MAX_BLOCKS};
use crate::model::{Instance, Model};
use crate::preorder::Preorder;

verus! {

/// Why decoding failed.
#[derive(Clone, Copy, PartialEq, Eq, Structural, Debug)]
pub enum Error {
    /// The number does not fit in the target type.
    Overflow,
    BadInteger,
    BadEnumTag,
    Unicode,
    /// The input ended too early.
    IO,
    /// The text is not base64.
    Other,
}

/// The varint encoding of `x`: seven bits per byte, least significant first, the high
/// bit set on every byte but the last.
pub open spec fn varint(x: nat) -> Seq<u8>
    decreases x,
{
    if x < 128 {
        seq![x as u8]
    } else {
        seq![(x % 128 + 128) as u8] + varint(x / 128)
    }
}

/// The number whose base-128 digits, least significant first, are the low seven bits
/// of the bytes of `s`.
pub open spec fn digits_of(s: Seq<u8>) -> nat
    decreases s.len(),
{
    if s.len() == 0 {
        0
    } else {
        (s[0] % 128) as nat + 128 * digits_of(s.drop_first())
    }
}

/// `s` is one varint: every byte but the last has its high bit set.
pub open spec fn one_varint(s: Seq<u8>) -> bool {
    &&& s.len() > 0
    &&& s.last() < 128
    &&& forall|k: int| 0 <= k < s.len() - 1 ==> #[trigger] s[k] >= 128
}

/// The encoding of `x` reads back as `x`, and is one varint.
pub proof fn lemma_varint_reads_back(x: nat)
    ensures
        digits_of(varint(x)) == x,
        one_varint(varint(x)),
        varint(x).len() >= 1,
    decreases x,
{
    if x >= 128 {
        lemma_varint_reads_back(x / 128);
        let s = varint(x);
        let t = varint(x / 128);
        assert(s.drop_first() =~= t);
        assert(s[0] == (x % 128 + 128) as u8);
        assert forall|k: int| 0 <= k < s.len() - 1 implies #[trigger] s[k] >= 128 by {
            if k > 0 {
                assert(s[k] == t[k - 1]);
            }
        }
        assert(s.last() == t.last());
        assert(((x % 128 + 128) as u8) % 128 == x % 128);
        assert(digits_of(s) == (s[0] % 128) as nat + 128 * digits_of(t));
    } else {
        let s = varint(x);
        assert(s.drop_first() =~= Seq::<u8>::empty());
        assert(digits_of(s.drop_first()) == 0);
        assert(digits_of(s) == (s[0] % 128) as nat + 128 * digits_of(s.drop_first()));
    }
}

proof fn lemma_low7(b: u8)
    ensures
        b & 0x7f == b % 128,
        (b & 0x7f) < 128,
{
    assert(b & 0x7f == b % 128) by (bit_vector);
}

/// Appends the varint encoding of `x`.
pub fn encode_varint(x: u64, out: &mut Vec<u8>)
    ensures
        final(out)@ == old(out)@ + varint(x as nat),
{
    let mut x = x;
    let ghost x0 = x as nat;
    let ghost start = out@;
    proof {
        assert(out@ =~= start + Seq::<u8>::empty());
    }
    while x >= 0x80
        invariant
            exists|done: Seq<u8>| out@ == start + done && done + varint(x as nat) == varint(x0),
        decreases x,
    {
        let ghost done = choose|done: Seq<u8>| out@ == start + done && done + varint(x as nat) == varint(x0);
        let b = (0x80u64 | (x & 0x7f)) as u8;
        proof {
            assert(0x80u64 | (x & 0x7f) == x % 128 + 128) by (bit_vector);
            assert(x >> 7u64 == x / 128) by (bit_vector);
        }
        out.push(b);
        proof {
            assert(varint(x as nat) == seq![b] + varint((x / 128) as nat));
            assert(out@ == start + done.push(b));
            assert(done.push(b) + varint((x / 128) as nat) =~= done + varint(x as nat));
        }
        x = x >> 7;
    }
    let ghost done = choose|done: Seq<u8>| out@ == start + done && done + varint(x as nat) == varint(x0);
    out.push(x as u8);
    proof {
        assert(varint(x as nat) == seq![x as u8]);
        assert(out@ =~= start + (done + varint(x as nat)));
    }
}

proof fn lemma_digits_push(s: Seq<u8>, b: u8)
    ensures
        digits_of(s.push(b)) == digits_of(s) + (b % 128) as nat * pow2((7 * s.len()) as nat),
    decreases s.len(),
{
    if s.len() == 0 {
        assert(s.push(b).drop_first() =~= Seq::<u8>::empty());
        assert(digits_of(s.push(b).drop_first()) == 0);
        assert(digits_of(s) == 0);
        assert(pow2(0) == 1) by {
            vstd::arithmetic::power2::lemma2_to64();
        }
        assert(s.push(b)[0] == b);
    } else {
        assert(s.push(b)[0] == s[0]);
        lemma_digits_push(s.drop_first(), b);
        assert(s.push(b).drop_first() =~= s.drop_first().push(b));
        let e = (7 * (s.len() - 1)) as nat;
        vstd::arithmetic::power2::lemma_pow2_adds(7, e);
        assert(pow2(7) == 128) by {
            vstd::arithmetic::power2::lemma2_to64();
        }
        let d = (b % 128) as nat;
        assert(128 * (d * pow2(e)) == d * pow2((7 * s.len()) as nat)) by (nonlinear_arith)
            requires
                pow2((7 * s.len()) as nat) == 128 * pow2(e),
        ;
    }
}

/// Reads one varint of at most `bit_width` bits from `bytes`, starting at `pos`.
/// Returns the number and the position after it.
pub fn decode_varint(bytes: &[u8], pos: usize, bit_width: u32) -> (r: Result<(u64, usize), Error>)
    requires
        bit_width <= 64,
        pos <= bytes@.len(),
    ensures
        r matches Ok(x) ==> pos < x.1 <= bytes@.len() && one_varint(bytes@.subrange(pos as int, x.1 as int))
            && x.0 == digits_of(bytes@.subrange(pos as int, x.1 as int)) && x.0 < pow2(bit_width as nat),
{
    let w = bit_width;
    let mut result: u64 = 0;
    let mut ofs: u32 = 0;
    let mut p: usize = pos;
    proof {
        assert(bytes@.subrange(pos as int, pos as int) =~= Seq::<u8>::empty());
        vstd::arithmetic::power2::lemma_pow2(0);
        assert(vstd::arithmetic::power::pow(2, 0) == 1) by {
            reveal(vstd::arithmetic::power::pow);
        }
        vstd::arithmetic::power2::lemma_pow2_pos(w as nat);
    }
    loop
        invariant
            w <= 64,
            w == bit_width,
            pos <= p,
            p - pos <= 10,
            ofs == 7 * (p - pos),
            ofs <= w + 7,
            result == digits_of(bytes@.subrange(pos as int, p as int)),
            result < pow2(ofs as nat),
            result < pow2(w as nat),
            forall|k: int| pos <= k < p ==> #[trigger] bytes@[k] >= 128,
        decreases bytes@.len() + 1 - p,
    {
        if p >= bytes.len() {
            return Err(Error::IO);
        }
        let byte = bytes[p];
        let raw = (byte & 0x7f) as u64;
        proof {
            lemma_low7(byte);
        }
        if ofs > w {
            return Err(Error::Overflow);
        }
        if w - ofs < 7 && raw >= (1u64 << (w - ofs)) {
            return Err(Error::Overflow);
        }
        let ghost prefix = bytes@.subrange(pos as int, p as int);
        proof {
            vstd::arithmetic::power2::lemma2_to64();
            vstd::arithmetic::power2::lemma_pow2_adds(ofs as nat, 7);
            vstd::arithmetic::power2::lemma_pow2_pos(ofs as nat);
            if w - ofs < 7 {
                vstd::bits::lemma_u64_shl_is_mul(1, (w - ofs) as u64);
                vstd::arithmetic::power2::lemma_pow2_adds(ofs as nat, (w - ofs) as nat);
                // raw < 2^(w - ofs), so raw * 2^ofs < 2^w
                let a = pow2(ofs as nat);
                let c = pow2((w - ofs) as nat);
                assert(pow2(w as nat) == a * c);
                assert(result + raw * a < pow2(w as nat)) by (nonlinear_arith)
                    requires
                        result < a,
                        raw + 1 <= c,
                        a * c == pow2(w as nat),
                        a > 0,
                ;
                if w < ofs + 7 {
                    vstd::arithmetic::power2::lemma_pow2_strictly_increases(w as nat, (ofs + 7) as nat);
                }
            } else {
                let a = pow2(ofs as nat);
                assert(a * 128 == pow2((ofs + 7) as nat));
                assert(result + raw * a < a * 128) by (nonlinear_arith)
                    requires
                        result < a,
                        raw < 128,
                        a > 0,
                ;
                if ofs + 7 < w {
                    vstd::arithmetic::power2::lemma_pow2_strictly_increases((ofs + 7) as nat, w as nat);
                }
                assert(result + raw * a < pow2(w as nat));
            }
            if w < 64 {
                vstd::arithmetic::power2::lemma_pow2_strictly_increases(w as nat, 64);
            }
            lemma_digits_push(prefix, byte);
            assert(bytes@.subrange(pos as int, p + 1) =~= prefix.push(byte));
        }
        let contribution: u64 = if raw > 0 {
            proof {
                if ofs >= 64 {
                    assert(w - ofs < 7);
                    vstd::bits::lemma_u64_shl_is_mul(1, (w - ofs) as u64);
                    assert(pow2(0) == 1) by {
                        vstd::arithmetic::power2::lemma2_to64();
                    }
                }
                vstd::bits::lemma_u64_shl_is_mul(raw, ofs as u64);
                assert((raw << (ofs as u64)) == raw * pow2(ofs as nat));
            }
            raw << (ofs as u64)
        } else {
            assert(raw * pow2(ofs as nat) == 0) by (nonlinear_arith)
                requires
                    raw == 0,
            ;
            0
        };
        proof {
            assert(prefix.len() == p - pos);
            assert(raw == byte % 128);
            assert(contribution == raw * pow2(ofs as nat));
            assert(digits_of(prefix.push(byte)) == result + raw * pow2(ofs as nat));
        }
        result = result + contribution;
        p = p + 1;
        ofs = ofs + 7;
        if byte < 0x80 {
            proof {
                let s = bytes@.subrange(pos as int, p as int);
                assert(s.last() == byte);
                assert forall|k: int| 0 <= k < s.len() - 1 implies #[trigger] s[k] >= 128 by {
                    assert(s[k] == bytes@[pos + k]);
                }
            }
            return Ok((result, p));
        }
    }
}

/// Where decoding an encoded number succeeds, it gives back that number and reads exactly
/// its encoding, whatever follows.
pub proof fn lemma_decode_encoding(x: nat, rest: Seq<u8>, v: nat, len: int)
    requires
        0 < len <= varint(x).len() + rest.len(),
        one_varint((varint(x) + rest).subrange(0, len)),
        v == digits_of((varint(x) + rest).subrange(0, len)),
    ensures
        len == varint(x).len(),
        v == x,
{
    lemma_varint_reads_back(x);
    let e = varint(x);
    let s = (e + rest).subrange(0, len);
    let n = e.len() as int;
    if len < n {
        assert(s.last() == e[len - 1]);
        assert(e[len - 1] >= 128);
    } else if len > n {
        assert(s[n - 1] == e[n - 1]);
        assert(e.last() < 128);
        assert(s[n - 1] >= 128);
    }
    assert(s =~= e);
}

/// A value that can be written in the binary format.
pub trait Encode {
    fn encode(&self, out: &mut Vec<u8>);
}

/// A value that can be read from the binary format.
pub trait Decode: Sized {
    /// Reads a value from `bytes` at `pos`; returns it with the position after it.
    fn decode(bytes: &[u8], pos: usize) -> (r: Result<(Self, usize), Error>)
        requires
            pos <= bytes@.len(),
        ensures
            r matches Ok(x) ==> pos < x.1 <= bytes@.len(),
    ;
}

impl Encode for u8 {
    fn encode(&self, out: &mut Vec<u8>) {
        out.push(*self);
    }
}

impl Decode for u8 {
    fn decode(bytes: &[u8], pos: usize) -> (r: Result<(u8, usize), Error>) {
        if pos < bytes.len() {
            Ok((bytes[pos], pos + 1))
        } else {
            Err(Error::IO)
        }
    }
}

impl Encode for u16 {
    fn encode(&self, out: &mut Vec<u8>) {
        encode_varint(*self as u64, out);
    }
}

impl Decode for u16 {
    fn decode(bytes: &[u8], pos: usize) -> (r: Result<(u16, usize), Error>) {
        match decode_varint(bytes, pos, 16) {
            Ok((v, p)) => {
                proof {
                    assert(pow2(16) == 0x10000) by {
                        vstd::arithmetic::power2::lemma2_to64();
                    }
                }
                Ok((v as u16, p))
            },
            Err(e) => Err(e),
        }
    }
}

impl Encode for u32 {
    fn encode(&self, out: &mut Vec<u8>) {
        encode_varint(*self as u64, out);
    }
}

impl Decode for u32 {
    fn decode(bytes: &[u8], pos: usize) -> (r: Result<(u32, usize), Error>) {
        match decode_varint(bytes, pos, 32) {
            Ok((v, p)) => {
                proof {
                    assert(pow2(32) == 0x1_0000_0000) by {
                        vstd::arithmetic::power2::lemma2_to64();
                    }
                }
                Ok((v as u32, p))
            },
            Err(e) => Err(e),
        }
    }
}

impl Encode for u64 {
    fn encode(&self, out: &mut Vec<u8>) {
        encode_varint(*self, out);
    }
}

impl Decode for u64 {
    fn decode(bytes: &[u8], pos: usize) -> (r: Result<(u64, usize), Error>) {
        decode_varint(bytes, pos, 64)
    }
}

impl Encode for usize {
    fn encode(&self, out: &mut Vec<u8>) {
        encode_varint(*self as u64, out);
    }
}

impl Decode for usize {
    fn decode(bytes: &[u8], pos: usize) -> (r: Result<(usize, usize), Error>) {
        match decode_varint(bytes, pos, 64) {
            Ok((v, p)) => {
                if v > usize::MAX as u64 {
                    Err(Error::Overflow)
                } else {
                    Ok((v as usize, p))
                }
            },
            Err(e) => Err(e),
        }
    }
}

impl Encode for bool {
    fn encode(&self, out: &mut Vec<u8>) {
        out.push(if *self { 1 } else { 0 });
    }
}

impl Decode for bool {
    fn decode(bytes: &[u8], pos: usize) -> (r: Result<(bool, usize), Error>) {
        if pos >= bytes.len() {
            return Err(Error::IO);
        }
        match bytes[pos] {
            0 => Ok((false, pos + 1)),
            1 => Ok((true, pos + 1)),
            _ => Err(Error::BadEnumTag),
        }
    }
}

impl Encode for Alt {
    fn encode(&self, out: &mut Vec<u8>) {
        encode_varint(self.0 as u64, out);
    }
}

impl Decode for Alt {
    fn decode(bytes: &[u8], pos: usize) -> (r: Result<(Alt, usize), Error>) {
        match u32::decode(bytes, pos) {
            Ok((v, p)) => Ok((Alt(v), p)),
            Err(e) => Err(e),
        }
    }
}

impl Encode for AltSet {
    /// The number of elements, then each element, in ascending order.
    fn encode(&self, out: &mut Vec<u8>) {
        let elems = self.view().iter();
        encode_varint(elems.len() as u64, out);
        let mut k: usize = 0;
        while k < elems.len()
            invariant
                k <= elems@.len(),
            decreases elems@.len() - k,
        {
            encode_varint(elems[k].0 as u64, out);
            k = k + 1;
        }
    }
}

impl Decode for AltSet {
    fn decode(bytes: &[u8], pos: usize) -> (r: Result<(AltSet, usize), Error>) {
        let (n, mut p) = match usize::decode(bytes, pos) {
            Ok(x) => x,
            Err(e) => {
                return Err(e);
            },
        };
        let mut alts: Vec<Alt> = Vec::new();
        let mut k: usize = 0;
        while k < n
            invariant
                pos < p <= bytes@.len(),
                forall|j: int| 0 <= j < alts@.len() ==> (#[trigger] alts@[j]).0 < MAX_BLOCKS * 32,
            decreases n - k,
        {
            let (a, q) = match Alt::decode(bytes, p) {
                Ok(x) => x,
                Err(e) => {
                    return Err(e);
                },
            };
            if a.0 as usize >= MAX_BLOCKS * 32 {
                return Err(Error::Overflow);
            }
            alts.push(a);
            p = q;
            k = k + 1;
        }
        Ok((AltSet::from_alts(alts.as_slice()), p))
    }
}

/// The encoding of `x`.
pub fn encode_to_memory<T: Encode>(x: &T) -> (r: Vec<u8>) {
    let mut out: Vec<u8> = Vec::new();
    x.encode(&mut out);
    out
}

/// The value encoded at the start of `xs`; what follows it is ignored.
pub fn decode_from_memory<T: Decode>(xs: &[u8]) -> (r: Result<T, Error>) {
    match T::decode(xs, 0) {
        Ok((x, _)) => Ok(x),
        Err(e) => Err(e),
    }
}

/// Writes each item, tagged present, then the absent tag.
pub fn encode_iterator<T: Encode>(items: &[T], out: &mut Vec<u8>) {
    let mut k: usize = 0;
    while k < items.len()
        invariant
            k <= items@.len(),
        decreases items@.len() - k,
    {
        out.push(1);
        items[k].encode(out);
        k = k + 1;
    }
    out.push(0);
}

/// Reads tagged items up to the absent tag.
pub fn decode_iterator<T: Decode>(bytes: &[u8], pos: usize) -> (r: Result<(Vec<T>, usize), Error>)
    requires
        pos <= bytes@.len(),
    ensures
        r matches Ok(x) ==> pos < x.1 <= bytes@.len(),
{
    let mut result: Vec<T> = Vec::new();
    let mut p = pos;
    loop
        invariant
            pos <= p <= bytes@.len(),
        decreases bytes@.len() - p,
    {
        if p >= bytes.len() {
            return Err(Error::IO);
        }
        match bytes[p] {
            0 => {
                return Ok((result, p + 1));
            },
            1 => {
                if p + 1 > bytes.len() {
                    return Err(Error::IO);
                }
                match T::decode(bytes, p + 1) {
                    Ok((item, q)) => {
                        result.push(item);
                        p = q;
                    },
                    Err(e) => {
                        return Err(e);
                    },
                }
            },
            _ => {
                return Err(Error::BadEnumTag);
            },
        }
    }
}

/// A value written as a length-prefixed blob, so that a reader can skip it.
#[derive(Clone, Debug)]
pub struct Packed<T>(pub T);

impl<T> Packed<T> {
    /// The value.
    pub fn unpack(&self) -> (r: &T)
        ensures
            *r == self.0,
    {
        &self.0
    }

    /// The value, by value.
    pub fn into_unpacked(self) -> (r: T)
        ensures
            r == self.0,
    {
        self.0
    }
}

impl<T: Encode> Encode for Packed<T> {
    fn encode(&self, out: &mut Vec<u8>) {
        let inner = encode_to_memory(&self.0);
        encode_varint(inner.len() as u64, out);
        let mut k: usize = 0;
        while k < inner.len()
            invariant
                k <= inner@.len(),
            decreases inner@.len() - k,
        {
            out.push(inner[k]);
            k = k + 1;
        }
    }
}

impl<T: Decode> Decode for Packed<T> {
    fn decode(bytes: &[u8], pos: usize) -> (r: Result<(Packed<T>, usize), Error>) {
        match usize::decode(bytes, pos) {
            Ok((_length, p)) => match T::decode(bytes, p) {
                Ok((x, q)) => Ok((Packed(x), q)),
                Err(e) => Err(e),
            },
            Err(e) => Err(e),
        }
    }
}

} // verus!

verus! {

/// The varints of `s`, one after the other.
pub open spec fn varints(s: Seq<u32>) -> Seq<u8>
    decreases s.len(),
{
    if s.len() == 0 {
        Seq::empty()
    } else {
        varints(s.drop_last()) + varint(s.last() as nat)
    }
}

/// The encoding of a relation: its size, then its blocks row by row.
pub open spec fn preorder_bytes(p: &Preorder) -> Seq<u8> {
    varint(p.n() as nat) + varints(p.block_seq())
}

proof fn lemma_varint_u32_len(x: nat)
    requires
        x < 0x1_0000_0000,
    ensures
        varint(x).len() <= 5,
{
    reveal_with_fuel(varint, 6);
    assert(x / 128 < 0x200_0000);
    assert(x / 128 / 128 < 0x4_0000);
    assert(x / 128 / 128 / 128 < 0x800);
    assert(x / 128 / 128 / 128 / 128 < 16);
}

proof fn lemma_varints_len(s: Seq<u32>)
    ensures
        varints(s).len() <= 5 * s.len(),
    decreases s.len(),
{
    if s.len() > 0 {
        lemma_varints_len(s.drop_last());
        lemma_varint_u32_len(s.last() as nat);
    }
}

/// Appends the encoding of `p`.
pub fn encode_preorder(p: &Preorder, out: &mut Vec<u8>)
    ensures
        final(out)@ == old(out)@ + preorder_bytes(p),
{
    let blocks = p.blocks();
    encode_varint(p.size_unchecked() as u64, out);
    let ghost start = out@;
    let mut k: usize = 0;
    while k < blocks.len()
        invariant
            k <= blocks@.len(),
            blocks@ == p.block_seq(),
            out@ == start + varints(blocks@.subrange(0, k as int)),
        decreases blocks@.len() - k,
    {
        encode_varint(blocks[k] as u64, out);
        proof {
            assert(blocks@.subrange(0, k + 1).drop_last() =~= blocks@.subrange(0, k as int));
        }
        k = k + 1;
    }
    proof {
        assert(blocks@.subrange(0, blocks@.len() as int) =~= blocks@);
    }
}

impl Encode for Preorder {
    /// The size, then the blocks row by row.
    fn encode(&self, out: &mut Vec<u8>) {
        encode_preorder(self, out);
    }
}

impl Decode for Preorder {
    fn decode(bytes: &[u8], pos: usize) -> (r: Result<(Preorder, usize), Error>) {
        decode_preorder(bytes, pos)
    }
}

/// Reads a relation: its size, then its blocks; refuses blocks that do not describe a
/// relation on that many alternatives.
pub fn decode_preorder(bytes: &[u8], pos: usize) -> (r: Result<(Preorder, usize), Error>)
    requires
        pos <= bytes@.len(),
    ensures
        r matches Ok(x) ==> pos < x.1 <= bytes@.len() && x.0.wf(),
{
    {
        let (size, mut p) = match u32::decode(bytes, pos) {
            Ok(x) => x,
            Err(e) => {
                return Err(e);
            },
        };
        if size > crate::preorder::MAX_ALTS {
            return Err(Error::BadInteger);
        }
        proof {
            crate::preorder::lemma_total(size as int);
        }
        let stride = ((size + 31) / 32) as usize;
        let count = (size as usize) * stride;
        let mut blocks: Vec<u32> = Vec::new();
        let mut k: usize = 0;
        while k < count
            invariant
                pos < p <= bytes@.len(),
            decreases count - k,
        {
            let (b, q) = match u32::decode(bytes, p) {
                Ok(x) => x,
                Err(e) => {
                    return Err(e);
                },
            };
            blocks.push(b);
            p = q;
            k = k + 1;
        }
        match Preorder::from_blocks(size, blocks) {
            Some(pre) => Ok((pre, p)),
            None => Err(Error::BadInteger),
        }
    }
}

/// The padded standard base64 text of `bytes`.
pub uninterp spec fn base64_of(bytes: Seq<u8>) -> Seq<char>;

/// Relies on base64's standard engine `encode`: the padded standard-alphabet text of the
/// bytes. It panics only when the length of the text would overflow `usize`.
#[verifier::external_body]
fn base64_encode(bytes: &Vec<u8>) -> (r: String)
    requires
        bytes@.len() <= usize::MAX / 2,
    ensures
        r@ == base64_of(bytes@),
{
    BASE64_STANDARD.encode(bytes)
}

/// Relies on base64's standard engine `decode`: the bytes of padded standard-alphabet
/// text, `None` when the text is not such. The standard engine requires canonical
/// padding and zero trailing bits, so it accepts exactly the texts that its `encode`
/// writes, and gives back the bytes they were written from.
#[verifier::external_body]
fn base64_decode(text: &str) -> (r: Option<Vec<u8>>)
    ensures
        r matches Some(b) ==> base64_of(b@) == text@,
        r is None ==> forall|b: Seq<u8>| #[trigger] base64_of(b) != text@,
{
    BASE64_STANDARD.decode(text).ok()
}

impl Preorder {
    /// The base64 text of the relation's encoding.
    pub fn to_base64(&self) -> (r: String)
        requires
            self.wf(),
        ensures
            r@ == base64_of(preorder_bytes(self)),
    {
        let mut bytes: Vec<u8> = Vec::new();
        encode_preorder(self, &mut bytes);
        proof {
            assert(bytes@ =~= preorder_bytes(self));
            lemma_varints_len(self.block_seq());
            self.lemma_wf_bound();
            lemma_varint_u32_len(self.n() as nat);
            self.lemma_block_count();
            assert(usize::MAX >= 0xffff_ffff);
            assert(bytes@.len() <= 5 + 5 * 0x800_0000);
        }
        base64_encode(&bytes)
    }

    /// The relation whose encoding `s` holds in base64.
    pub fn from_base64(s: &str) -> (r: Result<Preorder, Error>)
        ensures
            r matches Ok(p) ==> p.wf() && exists|b: Seq<u8>| #[trigger] base64_of(b) == s@,
            (forall|b: Seq<u8>| #[trigger] base64_of(b) != s@) ==> r == Err::<Preorder, Error>(Error::Other),
    {
        match base64_decode(s) {
            None => Err(Error::Other),
            Some(bytes) => match decode_preorder(bytes.as_slice(), 0) {
                Ok((p, _)) => Ok(p),
                Err(e) => Err(e),
            },
        }
    }
}

impl Encode for crate::model::PreorderParams {
    fn encode(&self, out: &mut Vec<u8>) {
        encode_option_bool(self.strict, out);
        encode_option_bool(self.total, out);
    }
}

/// `None` as 0; `Some(b)` as 1 then `b`.
fn encode_option_bool(x: Option<bool>, out: &mut Vec<u8>) {
    match x {
        None => out.push(0),
        Some(b) => {
            out.push(1);
            b.encode(out);
        },
    }
}

impl Encode for crate::model::Model {
    /// A tag byte, then the parameters of the model.
    fn encode(&self, out: &mut Vec<u8>) {
        match self {
            Model::PreorderMaximization(p) => {
                out.push(0);
                p.encode(out);
            },
            Model::Unattractiveness(p) => {
                out.push(1);
                p.encode(out);
            },
            Model::UndominatedChoice { strict } => {
                out.push(2);
                strict.encode(out);
            },
            Model::PartiallyDominantChoice { fc } => {
                out.push(3);
                fc.encode(out);
            },
            Model::StatusQuoUndominatedChoice => out.push(4),
            Model::Overload(p) => {
                out.push(5);
                p.encode(out);
            },
            Model::TopTwo => out.push(6),
            Model::SequentiallyRationalizableChoice => out.push(7),
            Model::HybridDomination { strict } => {
                out.push(8);
                strict.encode(out);
            },
        }
    }
}

impl Encode for crate::model::Instance {
    /// A tag byte, then the relations and parameters of the instance.
    fn encode(&self, out: &mut Vec<u8>) {
        match self {
            Instance::PreorderMaximization(p) => {
                out.push(0);
                p.encode(out);
            },
            Instance::Unattractiveness { p, mask } => {
                out.push(1);
                p.encode(out);
                let view = mask.view();
                let blocks = view.to_blocks();
                encode_varint(blocks.len() as u64, out);
                let mut k: usize = 0;
                while k < blocks.len()
                    invariant
                        k <= blocks@.len(),
                    decreases blocks@.len() - k,
                {
                    encode_varint(blocks[k] as u64, out);
                    k = k + 1;
                }
            },
            Instance::UndominatedChoice(p) => {
                out.push(2);
                p.encode(out);
            },
            Instance::PartiallyDominantChoice { p, fc } => {
                out.push(3);
                p.encode(out);
                fc.encode(out);
            },
            Instance::StatusQuoUndominatedChoice(p) => {
                out.push(4);
                p.encode(out);
            },
            Instance::Overload { p, limit } => {
                out.push(5);
                p.encode(out);
                limit.encode(out);
            },
            Instance::TopTwo(p) => {
                out.push(6);
                p.encode(out);
            },
            Instance::SequentiallyRationalizableChoice(p, q) => {
                out.push(7);
                p.encode(out);
                q.encode(out);
            },
            Instance::HybridDomination(p) => {
                out.push(8);
                p.encode(out);
            },
        }
    }
}

impl Encode for crate::model::Penalty {
    fn encode(&self, out: &mut Vec<u8>) {
        self.lower_bound.encode(out);
        self.upper_bound.encode(out);
    }
}

} // verus!
