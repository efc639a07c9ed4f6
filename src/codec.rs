//! The compact binary encoding of decimals.
use crate::decimal::{Decimal, MAX_SCALE_EFFECTIVE, MAX_SIG, MIN_SCALE};
use crate::error::DecimalConvertError;
use vstd::arithmetic::div_mod::*;
use vstd::arithmetic::power::*;
use vstd::prelude::*;

verus! {

/// The little-endian bytes of `n`, up to its highest non-zero byte (one byte for zero).
pub open spec fn le_bytes(n: nat) -> Seq<u8>
    decreases n,
{
    if n < 256 {
        seq![n as u8]
    } else {
        seq![(n % 256) as u8] + le_bytes(n / 256)
    }
}

/// The value of little-endian bytes.
pub open spec fn le_value(s: Seq<u8>) -> nat
    decreases s.len(),
{
    if s.len() == 0 {
        0
    } else {
        s[0] as nat + 256 * le_value(s.drop_first())
    }
}

/// The two header bytes: flags (bit 0 the sign, bit 1 set for a non-negative scale) and `|e|`.
pub open spec fn header(d: Decimal) -> Seq<u8> {
    let flags: int = (if d.e() >= 0 { 2int } else { 0int }) + (if d.s() { 1int } else { 0int });
    let abs_scale: int = if d.e() < 0 { -d.e() } else { d.e() };
    seq![flags as u8, abs_scale as u8]
}

/// The encoding of `d`: small non-negative integers take one or two bytes where `compact`;
/// everything else is the header followed by the significand's bytes.
pub open spec fn encoding(d: Decimal, compact: bool) -> Seq<u8> {
    let body = le_bytes(d.m());
    if compact && body.len() <= 2 && d.e() == 0 && !d.s() {
        body
    } else {
        header(d) + body
    }
}

/// The parts that `decode` reads from `b`: one or two bytes are a non-negative integer; a
/// longer input is a header and up to 16 significand bytes.
pub open spec fn decoded_parts(b: Seq<u8>) -> (int, int, bool) {
    if b.len() <= 2 {
        (le_value(b) as int, 0, false)
    } else {
        let flags = b[0];
        let abs_scale = b[1] as int;
        let end = if b.len() > 18 { 18 } else { b.len() as int };
        (le_value(b.subrange(2, end)) as int, if (flags / 2) % 2 == 1 { abs_scale } else { -abs_scale }, flags % 2 == 1)
    }
}

/// `b` decodes to parts that a `Decimal` can hold.
pub open spec fn decodable(b: Seq<u8>) -> bool {
    let p = decoded_parts(b);
    &&& b.len() >= 1
    &&& p.0 <= MAX_SIG
    &&& MIN_SCALE <= p.1 <= MAX_SCALE_EFFECTIVE
}

/// The bytes of a `u128` number at most 16 of them.
pub proof fn lemma_le_bytes_len(n: nat, k: nat)
    requires
        n < pow(256, k),
        k >= 1,
    ensures
        le_bytes(n).len() <= k,
        le_bytes(n).len() >= 1,
    decreases n,
{
    reveal(pow);
    if n >= 256 {
        lemma_pow_positive(256, (k - 1) as nat);
        if k == 1 {
            assert(pow(256, 1) == 256 * pow(256, 0));
        }
        assert(k > 1);
        lemma_div_below_pow(n, (k - 1) as nat);
        lemma_le_bytes_len(n / 256, (k - 1) as nat);
    }
}

proof fn lemma_div_below_pow(n: nat, j: nat)
    requires
        n < pow(256, j + 1),
    ensures
        n / 256 < pow(256, j),
{
    reveal(pow);
    assert(pow(256, j + 1) == 256 * pow(256, j));
    lemma_pow_positive(256, j);
    lemma_fundamental_div_mod(n as int, 256);
    if n / 256 >= pow(256, j) {
        assert(256 * (n / 256) >= 256 * pow(256, j)) by (nonlinear_arith)
            requires
                n / 256 >= pow(256, j),
        ;
    }
}

/// The bytes of `n` read back give `n`.
pub proof fn lemma_le_round_trip(n: nat)
    ensures
        le_value(le_bytes(n)) == n,
    decreases n,
{
    if n < 256 {
        assert(le_bytes(n).drop_first() =~= Seq::<u8>::empty());
        assert(le_value(Seq::<u8>::empty()) == 0);
    } else {
        lemma_le_round_trip(n / 256);
        let b = le_bytes(n);
        assert(b == seq![(n % 256) as u8] + le_bytes(n / 256));
        assert(b.drop_first() =~= le_bytes(n / 256));
        assert(b[0] == (n % 256) as u8);
        lemma_fundamental_div_mod(n as int, 256);
        assert(le_value(b) == b[0] as nat + 256 * le_value(b.drop_first()));
    }
}

/// Little-endian bytes are below `256^len`.
proof fn lemma_le_value_bound(s: Seq<u8>)
    ensures
        le_value(s) < pow(256, s.len()),
    decreases s.len(),
{
    if s.len() == 0 {
        lemma_pow0(256);
    } else {
        lemma_le_value_bound(s.drop_first());
        lemma_pow_adds(256, 1, (s.len() - 1) as nat);
        lemma_pow1(256);
        assert(pow(256, s.len()) == 256 * pow(256, (s.len() - 1) as nat));
        assert(le_value(s) < pow(256, s.len())) by (nonlinear_arith)
            requires
                le_value(s) == s[0] as nat + 256 * le_value(s.drop_first()),
                le_value(s.drop_first()) < pow(256, (s.len() - 1) as nat),
                s[0] < 256,
                pow(256, s.len()) == 256 * pow(256, (s.len() - 1) as nat),
        ;
    }
}

/// Reading bytes back to front builds their value.
proof fn lemma_le_value_prefix(s: Seq<u8>, i: int)
    requires
        0 <= i < s.len(),
    ensures
        le_value(s.subrange(i, s.len() as int)) == s[i] as nat + 256 * le_value(s.subrange(i + 1, s.len() as int)),
{
    assert(s.subrange(i, s.len() as int).drop_first() =~= s.subrange(i + 1, s.len() as int));
}

/// The `u128` bound as a power of 256.
proof fn lemma_pow256_16()
    ensures
        pow(256, 16) == u128::MAX as int + 1,
{
    assert(pow(256, 16) == 340282366920938463463374607431768211456) by {
        reveal_with_fuel(pow, 17);
    }
}

/// The little-endian bytes of the significand.
fn significand_bytes(m: u128) -> (r: Vec<u8>)
    ensures
        r@ == le_bytes(m as nat),
        1 <= r@.len() <= 16,
{
    let mut out: Vec<u8> = Vec::new();
    let mut v = m;
    proof {
        lemma_pow256_16();
        lemma_le_bytes_len(m as nat, 16);
    }
    while v >= 256
        invariant
            out@ + le_bytes(v as nat) == le_bytes(m as nat),
        decreases v,
    {
        proof {
            assert(le_bytes(v as nat) == seq![(v % 256) as u8] + le_bytes((v / 256) as nat));
            assert(out@.push((v % 256) as u8) + le_bytes((v / 256) as nat) =~= out@ + le_bytes(v as nat));
        }
        out.push((v % 256) as u8);
        v = v / 256;
    }
    out.push(v as u8);
    proof {
        assert(out@ =~= le_bytes(m as nat));
    }
    out
}

impl Decimal {
    fn internal_encode(&self, compact: bool) -> (r: Vec<u8>)
        requires
            self.wf(),
        ensures
            r@ == encoding(*self, compact),
            r@.len() <= 18,
    {
        let (m, scale, negative) = self.into_parts();
        let body = significand_bytes(m);
        if compact && body.len() <= 2 && scale == 0 && !negative {
            return body;
        }
        let flags: u8 = (if scale >= 0 { 2u8 } else { 0u8 }) + (if negative { 1u8 } else { 0u8 });
        let abs_scale: u8 = if scale < 0 { (-scale) as u8 } else { scale as u8 };
        let mut out: Vec<u8> = Vec::new();
        out.push(flags);
        out.push(abs_scale);
        let mut i: usize = 0;
        while i < body.len()
            invariant
                i <= body@.len() <= 16,
                out@ =~= header(*self) + body@.subrange(0, i as int),
            decreases body@.len() - i,
        {
            out.push(body[i]);
            i = i + 1;
        }
        proof {
            assert(body@.subrange(0, body@.len() as int) =~= body@);
        }
        out
    }

    /// The encoding with the full header; at most `MAX_BINARY_SIZE` bytes.
    pub fn encode(&self) -> (r: Vec<u8>)
        requires
            self.wf(),
        ensures
            r@ == encoding(*self, false),
            3 <= r@.len() <= 18,
    {
        self.internal_encode(false)
    }

    /// The encoding where zero and small positive integers take one or two bytes.
    pub fn compact_encode(&self) -> (r: Vec<u8>)
        requires
            self.wf(),
        ensures
            r@ == encoding(*self, true),
            1 <= r@.len() <= 18,
    {
        self.internal_encode(true)
    }

    /// The parts that the binary encoding `bytes` spells.
    fn decode_parts(bytes: &[u8]) -> (r: (u128, i16, bool))
        requires
            bytes@.len() >= 1,
        ensures
            (r.0 as int, r.1 as int, r.2) == decoded_parts(bytes@),
    {
        let len = bytes.len();
        let (start, end): (usize, usize) = if len <= 2 {
            (0, len)
        } else if len > 18 {
            (2, 18)
        } else {
            (2, len)
        };
        let ghost s = bytes@.subrange(start as int, end as int);
        let mut m: u128 = 0;
        let mut i: usize = end;
        proof {
            lemma_pow256_16();
            lemma_le_value_bound(s);
            lemma_pow_increases(256, s.len(), 16);
            assert(bytes@.subrange(end as int, end as int) =~= Seq::<u8>::empty());
            lemma_pow0(256);
        }
        while i > start
            invariant
                start <= i <= end <= bytes@.len(),
                end - start <= 16,
                m == le_value(bytes@.subrange(i as int, end as int)),
                le_value(bytes@.subrange(i as int, end as int)) < pow(256, (end - i) as nat),
                pow(256, 16) == u128::MAX as int + 1,
            decreases i,
        {
            proof {
                lemma_le_value_prefix(bytes@.subrange(start as int, end as int), i - 1 - start);
                assert(bytes@.subrange(start as int, end as int).subrange(i - 1 - start, (end - start) as int) =~= bytes@.subrange(i - 1, end as int));
                assert(bytes@.subrange(start as int, end as int).subrange(i - start, (end - start) as int) =~= bytes@.subrange(i as int, end as int));
                lemma_le_value_bound(bytes@.subrange(i - 1, end as int));
                lemma_pow_increases(256, (end - i + 1) as nat, 16);
            }
            m = m * 256 + bytes[i - 1] as u128;
            i = i - 1;
        }
        if len <= 2 {
            proof {
                assert(bytes@.subrange(0, len as int) =~= bytes@);
            }
            return (m, 0, false);
        }
        let flags = bytes[0];
        let abs_scale = bytes[1] as i16;
        let negative = flags % 2 == 1;
        let scale = if (flags / 2) % 2 == 1 {
            abs_scale
        } else {
            -abs_scale
        };
        (m, scale, negative)
    }

    /// Decodes a `Decimal` from its binary encoding.
    pub fn decode(bytes: &[u8]) -> (r: Decimal)
        requires
            decodable(bytes@),
        ensures
            r.wf(),
            r.canonical(decoded_parts(bytes@).0, decoded_parts(bytes@).1, decoded_parts(bytes@).2),
    {
        let (m, scale, negative) = Decimal::decode_parts(bytes);
        Decimal::from_parts_unchecked(m, scale, negative)
    }

    /// Decodes a `Decimal` from bytes that may not be an encoding: empty input is invalid, and
    /// parts that a `Decimal` cannot hold overflow.
    pub fn try_decode(bytes: &[u8]) -> (r: Result<Decimal, DecimalConvertError>)
        ensures
            r is Ok <==> decodable(bytes@),
            r is Ok ==> r->Ok_0.wf() && r->Ok_0.canonical(decoded_parts(bytes@).0, decoded_parts(bytes@).1,
                decoded_parts(bytes@).2),
            bytes@.len() == 0 ==> r == Err::<Decimal, DecimalConvertError>(DecimalConvertError::Invalid),
            bytes@.len() > 0 && !decodable(bytes@) ==> r == Err::<Decimal, DecimalConvertError>(DecimalConvertError::Overflow),
    {
        if bytes.len() == 0 {
            return Err(DecimalConvertError::Invalid);
        }
        let (m, scale, negative) = Decimal::decode_parts(bytes);
        if m > MAX_SIG || scale < MIN_SCALE || scale > MAX_SCALE_EFFECTIVE {
            return Err(DecimalConvertError::Overflow);
        }
        Ok(Decimal::from_parts_unchecked(m, scale, negative))
    }
}

/// Decoding an encoding gives back the value's parts.
pub proof fn lemma_decode_encode(d: Decimal, compact: bool)
    requires
        d.wf(),
    ensures
        decodable(encoding(d, compact)),
        decoded_parts(encoding(d, compact)) == (d.m() as int, d.e(), d.s()),
{
    let body = le_bytes(d.m());
    lemma_le_round_trip(d.m());
    lemma_pow256_16();
    lemma_le_bytes_len(d.m(), 16);
    let b = encoding(d, compact);
    if compact && body.len() <= 2 && d.e() == 0 && !d.s() {
    } else {
        assert(b.subrange(2, b.len() as int) =~= body);
        let flags: int = (if d.e() >= 0 { 2int } else { 0int }) + (if d.s() { 1int } else { 0int });
        assert(b[0] == flags as u8);
        assert(flags / 2 % 2 == (if d.e() >= 0 { 1int } else { 0int }));
    }
}

} // verus!
