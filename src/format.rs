//! Formatting decimals as text.
use crate::decimal::{cut_spec, ndigits, Decimal, MAX_SCALE_EFFECTIVE, MIN_SCALE};
use crate::error::DecimalFormatError;
use crate::u256::U256;
use crate::u256::{is_digit_count, lemma_pow10_facts, pow10_u128};
use vstd::arithmetic::div_mod::*;
use vstd::arithmetic::power::*;
use vstd::prelude::*;

verus! {

/// The decimal digits of `n`, most significant first, without leading zeros.
pub open spec fn dec_digits(n: nat) -> Seq<u8> {
    let len = ndigits(n as int);
    Seq::new(len as nat, |i: int| (48 + (n as int / pow(10, (len - 1 - i) as nat)) % 10) as u8)
}

/// `k` zero digits.
pub open spec fn zeros(k: nat) -> Seq<u8> {
    Seq::new(k, |i: int| 48u8)
}

/// The number of trailing zero digits of `s`.
pub open spec fn trailing_zeros(s: Seq<u8>) -> nat
    decreases s.len(),
{
    if s.len() > 0 && s.last() == 48 {
        1 + trailing_zeros(s.drop_last())
    } else {
        0
    }
}

/// `s` without its trailing zero digits.
pub open spec fn trim_zeros(s: Seq<u8>) -> Seq<u8> {
    s.subrange(0, s.len() - trailing_zeros(s))
}

/// The digits and point of the parts `c` in plain notation; see `plain_text`.
pub open spec fn body_text(
    c: (int, int, bool),
    omit_int_zero: bool,
    omit_frac_zero: bool,
    precision: Option<usize>,
) -> Seq<u8> {
    let ds = dec_digits(c.0 as nat);
    let len = ds.len() as int;
    let e = c.1;
    if e <= 0 {
        ds + zeros((-e) as nat) + match precision {
            Some(p) => if p != 0 {
                seq![46u8] + zeros(p as nat)
            } else {
                Seq::<u8>::empty()
            },
            None => Seq::<u8>::empty(),
        }
    } else if len <= e {
        (if omit_int_zero {
            Seq::<u8>::empty()
        } else {
            seq![48u8]
        }) + seq![46u8] + zeros((e - len) as nat) + (if omit_frac_zero {
            trim_zeros(ds)
        } else {
            ds
        })
    } else {
        let int_part = ds.subrange(0, len - e);
        let frac = ds.subrange(len - e, len);
        match precision {
            Some(p) => int_part + seq![46u8] + (if p > frac.len() {
                frac + zeros((p - frac.len()) as nat)
            } else {
                frac.subrange(0, p as int)
            }),
            None => if trim_zeros(frac).len() > 0 {
                int_part + seq![46u8] + trim_zeros(frac)
            } else {
                int_part
            },
        }
    }
}

/// The text of `d` in plain notation: an optional `-` (where `sign` asks for it), the integral
/// digits (a lone `0` dropped where `omit_int_zero`), and the fractional digits. With
/// `precision` the value is first rounded half up to that many fractional digits, which are
/// then all written; without it trailing fractional zeros are dropped (for a value below one,
/// only where `omit_frac_zero`).
pub open spec fn plain_text(
    d: Decimal,
    sign: bool,
    omit_int_zero: bool,
    omit_frac_zero: bool,
    precision: Option<usize>,
) -> Seq<u8> {
    if d.m() == 0 {
        seq![48u8]
    } else {
        let c = match precision {
            Some(p) => cut_spec(d, p as int, true),
            None => (d.m() as int, d.e(), d.s()),
        };
        let head = if sign && d.s() {
            seq![45u8]
        } else {
            Seq::<u8>::empty()
        };
        head + body_text(c, omit_int_zero, omit_frac_zero, precision)
    }
}

/// The decimal digits of `n`.
pub fn digits_of(n: u128) -> (r: Vec<u8>)
    requires
        n < pow(10, 38),
    ensures
        r@ == dec_digits(n as nat),
        1 <= r@.len() <= 38,
{
    let len = crate::u256::U256::from_low(n).count_digits();
    proof {
        crate::decimal::lemma_digit_count_unique(n as int, len as int);
        lemma_pow10_facts(38);
        if len > 38 {
            lemma_pow_increases(10, 38, (len - 1) as nat);
        }
    }
    let mut v: Vec<u8> = Vec::new();
    let mut i: u32 = 0;
    while i < len
        invariant
            i <= len <= 38,
            len as int == ndigits(n as int),
            v@ =~= dec_digits(n as nat).subrange(0, i as int),
        decreases len - i,
    {
        let p = pow10_u128(len - 1 - i);
        proof {
            lemma_pow_positive(10, (len - 1 - i) as nat);
        }
        let digit = ((n / p) % 10) as u8;
        v.push(48 + digit);
        i = i + 1;
        proof {
            assert(v@ =~= dec_digits(n as nat).subrange(0, i as int));
        }
    }
    proof {
        assert(v@ =~= dec_digits(n as nat));
    }
    v
}

/// Appends `k` zero digits.
fn push_zeros(v: &mut Vec<u8>, k: usize)
    ensures
        final(v)@ =~= old(v)@ + zeros(k as nat),
{
    let ghost start = v@;
    let mut i: usize = 0;
    while i < k
        invariant
            i <= k,
            v@ =~= start + zeros(i as nat),
        decreases k - i,
    {
        v.push(48);
        i = i + 1;
    }
}

/// Appends `src[a..b]`.
fn push_range(v: &mut Vec<u8>, src: &Vec<u8>, a: usize, b: usize)
    requires
        a <= b <= src@.len(),
    ensures
        final(v)@ =~= old(v)@ + src@.subrange(a as int, b as int),
{
    let ghost start = v@;
    let mut i: usize = a;
    while i < b
        invariant
            a <= i <= b <= src@.len(),
            v@ =~= start + src@.subrange(a as int, i as int),
        decreases b - i,
    {
        v.push(src[i]);
        i = i + 1;
    }
}

/// The end of `s[a..n]` without its trailing zero digits.
fn trimmed_end(s: &Vec<u8>, a: usize, n: usize) -> (r: usize)
    requires
        a <= n <= s@.len(),
    ensures
        a <= r <= n,
        r == n - trailing_zeros(s@.subrange(a as int, n as int)),
{
    let mut j = n;
    while j > a && s[j - 1] == 48
        invariant
            a <= j <= n <= s@.len(),
            trailing_zeros(s@.subrange(a as int, n as int)) == (n - j) + trailing_zeros(s@.subrange(a as int, j as int)),
        decreases j,
    {
        proof {
            assert(s@.subrange(a as int, j as int).drop_last() =~= s@.subrange(a as int, j - 1));
        }
        j = j - 1;
    }
    proof {
        if j > a {
            assert(trailing_zeros(s@.subrange(a as int, j as int)) == 0);
        } else {
            assert(s@.subrange(a as int, j as int).len() == 0);
        }
    }
    j
}

/// Appends a character to a string.
/// Relies on `String::push`: the character is added at the end.
#[verifier::external_body]
fn push_char(s: &mut String, c: char)
    ensures
        final(s)@ == old(s)@.push(c),
{
    s.push(c)
}

/// The characters of ASCII text.
pub open spec fn ascii_chars(b: Seq<u8>) -> Seq<char> {
    Seq::new(b.len(), |i: int| b[i] as char)
}

/// Text of ASCII bytes.
pub fn ascii_text(b: &Vec<u8>) -> (r: String)
    ensures
        r@ == ascii_chars(b@),
{
    let mut s = String::new();
    let mut i: usize = 0;
    while i < b.len()
        invariant
            i <= b@.len(),
            s@ =~= ascii_chars(b@.subrange(0, i as int)),
        decreases b@.len() - i,
    {
        push_char(&mut s, b[i] as char);
        i = i + 1;
        proof {
            assert(s@ =~= ascii_chars(b@.subrange(0, i as int)));
        }
    }
    proof {
        assert(b@.subrange(0, b@.len() as int) =~= b@);
    }
    s
}

/// Writes the digits and point of the parts `(m, scale)`; see `body_text`.
fn write_body(
    m: u128,
    scale: i16,
    omit_integer_zero: bool,
    omit_frac_ending_zero: bool,
    precision: Option<usize>,
) -> (r: Vec<u8>)
    requires
        m < pow(10, 38),
        scale >= -200,
        precision is Some ==> precision->0 <= 256,
    ensures
        forall|s: bool| r@ == #[trigger] body_text((m as int, scale as int, s), omit_integer_zero, omit_frac_ending_zero, precision),
{
    let mut w: Vec<u8> = Vec::new();
    let ds = digits_of(m);
    let len = ds.len();
    proof {
        assert(ds@.subrange(0, len as int) =~= ds@);
    }
    if scale <= 0 {
        push_range(&mut w, &ds, 0, len);
        push_zeros(&mut w, (-scale) as usize);
        if let Some(p) = precision {
            if p != 0 {
                w.push(46);
                push_zeros(&mut w, p);
            }
        }
    } else if len <= scale as usize {
        if !omit_integer_zero {
            w.push(48);
        }
        w.push(46);
        push_zeros(&mut w, scale as usize - len);
        if omit_frac_ending_zero {
            let t = trimmed_end(&ds, 0, len);
            push_range(&mut w, &ds, 0, t);
        } else {
            push_range(&mut w, &ds, 0, len);
        }
    } else {
        let split = len - scale as usize;
        push_range(&mut w, &ds, 0, split);
        match precision {
            Some(p) => {
                w.push(46);
                let after = len - split;
                if p > after {
                    push_range(&mut w, &ds, split, len);
                    push_zeros(&mut w, p - after);
                } else {
                    push_range(&mut w, &ds, split, split + p);
                    proof {
                        assert(ds@.subrange(split as int, len as int).subrange(0, p as int)
                            =~= ds@.subrange(split as int, (split + p) as int));
                    }
                }
            },
            None => {
                let t = trimmed_end(&ds, split, len);
                proof {
                    assert(ds@.subrange(split as int, len as int).subrange(0, t - split) =~= ds@.subrange(split as int, t as int));
                }
                if t > split {
                    w.push(46);
                    push_range(&mut w, &ds, split, t);
                }
            },
        }
    }
    w
}

impl Decimal {
    /// Writes the plain text of the value; see `plain_text`.
    pub fn fmt_internal(
        &self,
        append_sign: bool,
        omit_integer_zero: bool,
        omit_frac_ending_zero: bool,
        precision: Option<usize>,
    ) -> (r: Vec<u8>)
        requires
            self.wf(),
            precision is Some ==> precision->0 <= 256,
        ensures
            r@ == plain_text(*self, append_sign, omit_integer_zero, omit_frac_ending_zero, precision),
    {
        let mut w: Vec<u8> = Vec::new();
        if self.is_zero() {
            w.push(48);
            proof {
                assert(w@ =~= seq![48u8]);
            }
            return w;
        }
        let dec = match precision {
            Some(p) => self.round(p as i16),
            None => *self,
        };
        let (m, scale, neg) = dec.into_parts();
        if append_sign && self.is_sign_negative() {
            w.push(45);
        }
        let ghost head = w@;
        proof {
            lemma_pow10_facts(38);
        }
        let body = write_body(m, scale, omit_integer_zero, omit_frac_ending_zero, precision);
        let ghost c = (m as int, scale as int, neg);
        push_range(&mut w, &body, 0, body.len());
        proof {
            assert(body@.subrange(0, body@.len() as int) =~= body@);
            if append_sign && self.s() {
                assert(head =~= seq![45u8]);
            } else {
                assert(head =~= Seq::<u8>::empty());
            }
        }
        w
    }

    /// The plain text of the value, with a `-` for negative values.
    pub fn to_string(&self) -> (r: String)
        requires
            self.wf(),
        ensures
            r@ == ascii_chars(plain_text(*self, true, false, false, None)),
    {
        ascii_text(&self.fmt_internal(true, false, false, None))
    }

    /// The plain text of the value with `precision` fractional digits where one is given.
    pub fn to_string_with_precision(&self, precision: Option<usize>) -> (r: String)
        requires
            self.wf(),
            precision is Some ==> precision->0 <= 256,
        ensures
            r@ == ascii_chars(plain_text(*self, true, false, false, precision)),
    {
        ascii_text(&self.fmt_internal(true, false, false, precision))
    }

    /// The plain text with sign, omitting a lone integral zero and trailing fractional zeros.
    pub fn simply_format(&self) -> (r: String)
        requires
            self.wf(),
        ensures
            r@ == ascii_chars(plain_text(*self, true, true, true, None)),
    {
        ascii_text(&self.fmt_internal(true, true, true, None))
    }
}


/// The exponent part of scientific notation: `E`, its sign, and its digits, at least two of
/// them where `pad`.
pub open spec fn exp_text(positive: bool, exp: nat, pad: bool) -> Seq<u8> {
    seq![69u8, if positive { 43u8 } else { 45u8 }] + (if pad && exp < 10 {
        seq![48u8]
    } else {
        Seq::<u8>::empty()
    }) + dec_digits(exp)
}

/// Appends the exponent part of scientific notation.
fn write_exp(w: &mut Vec<u8>, positive: bool, exp: u16, pad: bool)
    ensures
        final(w)@ =~= old(w)@ + exp_text(positive, exp as nat, pad),
{
    w.push(69);
    w.push(if positive { 43 } else { 45 });
    if pad && exp < 10 {
        w.push(48);
    }
    proof {
        crate::u256::lemma_pow10_facts(38);
        vstd::arithmetic::power::lemma_pow_increases(10, 5, 38);
        assert(vstd::arithmetic::power::pow(10, 5) == 100000) by {
            reveal_with_fuel(vstd::arithmetic::power::pow, 6);
        }
    }
    let d = digits_of(exp as u128);
    push_range(w, &d, 0, d.len());
    proof {
        assert(d@.subrange(0, d@.len() as int) =~= d@);
    }
}

/// The hexadecimal digits of `n`, most significant first.
pub open spec fn hex_digits(n: nat, upper: bool) -> Seq<u8>
    decreases n,
{
    if n < 16 {
        seq![hex_char(n, upper)]
    } else {
        hex_digits(n / 16, upper).push(hex_char(n % 16, upper))
    }
}

/// The hexadecimal digit for `d < 16`.
pub open spec fn hex_char(d: nat, upper: bool) -> u8 {
    if d < 10 {
        (48 + d) as u8
    } else if upper {
        (55 + d) as u8
    } else {
        (87 + d) as u8
    }
}

/// The hexadecimal digits of `n`.
fn hex_of(n: U256, upper: bool) -> (r: Vec<u8>)
    ensures
        r@ == hex_digits(n@, upper),
    decreases n@,
{
    let sixteen = U256::from_low(16);
    let (q, d) = n.div_rem(sixteen);
    proof {
        crate::u256::lemma_limb_value(d);
    }
    let c: u8 = if d.low < 10 {
        48 + d.low as u8
    } else if upper {
        55 + d.low as u8
    } else {
        87 + d.low as u8
    };
    if n.lt(&sixteen) {
        proof {
            lemma_small_mod(n@, 16);
        }
        let mut v = Vec::new();
        v.push(c);
        proof {
            assert(v@ =~= seq![hex_char(n@, upper)]);
        }
        v
    } else {
        let mut v = hex_of(q, upper);
        v.push(c);
        v
    }
}

/// The scientific text of `d` with `expect_scale` fractional digits and exponent `exp` (its
/// sign given by `positive`): the value is rounded half up to the digits the mantissa keeps,
/// a carry into a new digit moves the exponent by one, and the mantissa is written with
/// exactly `expect_scale` fractional digits, followed by `E±` and at least two exponent digits.
/// `None` where `expect_scale` is below `min_scale` or past 256, or the mantissa's scale cannot
/// be held.
pub open spec fn sci_text(d: Decimal, expect_scale: int, exp: int, positive: bool, min_scale: int) -> Option<Seq<u8>> {
    if expect_scale < min_scale || expect_scale > 256 {
        None
    } else {
        let t0 = if positive { expect_scale - exp } else { expect_scale + exp };
        let t = if t0 < -200 { -200 } else if t0 > 300 { 300 } else { t0 };
        let r = cut_spec(d, t, true);
        let c = cut_spec(d, t, false);
        let carried = ndigits(r.0) > ndigits(c.0);
        let exp2 = if carried {
            if positive {
                if exp < 65535 { exp + 1 } else { exp }
            } else if exp > 0 {
                exp - 1
            } else {
                exp
            }
        } else {
            exp
        };
        let ns = if positive { r.1 + exp2 } else { r.1 - exp2 };
        if ns < MIN_SCALE || ns > MAX_SCALE_EFFECTIVE {
            None
        } else {
            let shifted = if r.0 == 0 {
                Decimal::spec_from_parts(0, 0, false)
            } else {
                Decimal::spec_from_parts(r.0 as nat, ns, r.2)
            };
            Some(plain_text(shifted, true, true, true, Some(expect_scale as usize)) + exp_text(positive, exp2 as nat, true))
        }
    }
}

/// The exponent of `d` in scientific notation, without its sign.
pub open spec fn sci_exp(d: Decimal) -> int {
    let v = ndigits(d.m() as int) - d.e() - 1;
    if v < 0 { -v } else { v }
}

/// What `format_with_sci_forced` writes before the scientific text: for zero with fractional
/// digits, `0.` or ` .` and all but one of the zeros.
pub open spec fn forced_prefix(d: Decimal, expect_scale: int, with_zero_before_dot: bool) -> Seq<u8> {
    if d.m() == 0 && expect_scale > 0 {
        seq![if with_zero_before_dot { 48u8 } else { 32u8 }, 46u8] + zeros((expect_scale - 1) as nat)
    } else {
        Seq::<u8>::empty()
    }
}

/// The scientific text `format_with_sci` writes where the plain form does not fit: the
/// mantissa gets what the width leaves after the sign, `d.`, and the exponent part.
pub open spec fn sci_fallback(d: Decimal, max_width: int, positive: bool) -> Option<Seq<u8>> {
    let exp = sci_exp(d);
    let exp_len = if exp < 100 { 4int } else { 5int };
    let sign_len = if d.s() { 1int } else { 0int };
    let expect_scale = max_width - sign_len - exp_len - 2;
    if expect_scale < -200 {
        None
    } else {
        sci_text(d, expect_scale, exp, positive, 1)
    }
}

/// How `format_with_sci` writes `d` in `max_width` characters: plain notation where the
/// integral digits fit the width (rounding away the fractional digits that do not fit), and for
/// a value below one where its leading zeros fit or are fewer than five; scientific notation
/// otherwise. Gives whether the notation is scientific, whether its exponent is positive, and
/// the fractional digits that plain notation keeps.
pub open spec fn sci_plan(d: Decimal, max_width: int) -> (bool, bool, Option<int>) {
    let precision = ndigits(d.m() as int);
    let sign_len = if d.s() { 1int } else { 0int };
    let max_digits = max_width - sign_len;
    if d.e() < precision {
        let int_len = precision - d.e();
        if max_digits >= int_len {
            if max_digits == int_len {
                (false, true, Some(0))
            } else {
                let scale = max_digits - int_len - 1;
                if scale >= d.e() {
                    (false, true, None)
                } else {
                    (false, true, Some(scale))
                }
            }
        } else {
            (true, true, None)
        }
    } else if d.e() - precision >= 5 {
        if max_digits < d.e() + 1 {
            (true, false, None)
        } else {
            (false, true, None)
        }
    } else {
        (false, true, Some(max_width - 1))
    }
}

/// Whether JSON text of `d` takes scientific notation: where its plain form spans more than 40
/// digits.
pub open spec fn json_uses_sci(d: Decimal) -> bool {
    let precision = ndigits(d.m() as int);
    if d.e() <= 0 {
        precision - d.e() > 40
    } else {
        d.e() - trailing_decimal_zeros(d.m() as nat) > 40
    }
}

/// The number of trailing decimal zeros of `n > 0`.
pub open spec fn trailing_decimal_zeros(n: nat) -> nat
    decreases n,
{
    if n > 0 && n % 10 == 0 {
        1 + trailing_decimal_zeros(n / 10)
    } else {
        0
    }
}

/// The largest value `format_to_hex` takes, `(2^256 - 1) / 16` rounded down to 38 digits.
pub open spec fn hex_max() -> Decimal {
    Decimal::spec_from_parts(72370055773322622139731865630429942408, -38, false)
}

/// An integral value up to `hex_max` is below `10^76` once its scale is spelled out.
proof fn lemma_hex_fits(d: Decimal)
    requires
        d.wf(),
        !d.s(),
        d.m() > 0,
        d.e() <= 0,
        d.cmp_spec(&hex_max()) <= 0,
    ensures
        d.m() * pow(10, (-d.e()) as nat) < pow(10, 76),
        -d.e() <= 75,
{
    Decimal::lemma_spec_from_parts(72370055773322622139731865630429942408, -38, false);
    let m0: int = 72370055773322622139731865630429942408;
    crate::u256::lemma_pow10_facts(38);
    lemma_pow_adds(10, 38, 38);
    lemma_pow0(10);
    vstd::arithmetic::mul::lemma_mul_basics(d.m() as int);
    let k = (-d.e()) as nat;
    if d.e() >= -38 {
        let j = (d.e() + 38) as nat;
        assert(d.m() <= m0 * pow(10, j));
        lemma_pow_adds(10, j, k);
        assert(j + k == 38);
        vstd::arithmetic::mul::lemma_mul_is_associative(m0, pow(10, j), pow(10, k));
        lemma_pow_positive(10, k);
        assert(d.m() * pow(10, k) <= m0 * pow(10, j) * pow(10, k)) by (nonlinear_arith)
            requires
                d.m() <= m0 * pow(10, j),
                pow(10, k) > 0,
        ;
    } else {
        let j = (-38 - d.e()) as nat;
        assert(d.m() * pow(10, j) <= m0);
        lemma_pow_adds(10, j, 38);
        assert(j + 38 == k);
        vstd::arithmetic::mul::lemma_mul_is_associative(d.m() as int, pow(10, j), pow(10, 38));
        assert(d.m() * pow(10, j) * pow(10, 38) <= m0 * pow(10, 38)) by (nonlinear_arith)
            requires
                d.m() * pow(10, j) <= m0,
                pow(10, 38) > 0,
        ;
    }
    assert(m0 * pow(10, 38) < pow(10, 76)) by (nonlinear_arith)
        requires
            m0 < pow(10, 38),
            pow(10, 76) == pow(10, 38) * pow(10, 38),
            pow(10, 38) > 0,
    ;
    if k > 75 {
        lemma_pow_increases(10, 76, k);
        lemma_pow_positive(10, k);
        assert(d.m() * pow(10, k) >= pow(10, k)) by (nonlinear_arith)
            requires
                d.m() >= 1,
                pow(10, k) > 0,
        ;
    }
}

impl Decimal {
    /// The scientific form with `expect_scale` fractional digits and exponent `exp`, whose sign
    /// `positive` gives; an `expect_scale` below `min_scale` is out of range.
    fn fmt_sci_internal(&self, expect_scale: i16, exp: u16, positive: bool, min_scale: i16) -> (r: Result<Vec<u8>, DecimalFormatError>)
        requires
            self.wf(),
            min_scale >= 0,
        ensures
            match sci_text(*self, expect_scale as int, exp as int, positive, min_scale as int) {
                Some(t) => r is Ok && r->Ok_0@ == t,
                None => r == Err::<Vec<u8>, DecimalFormatError>(DecimalFormatError::OutOfRange),
            },
    {
        if expect_scale < min_scale || expect_scale > 256 {
            return Err(DecimalFormatError::OutOfRange);
        }
        let t: i32 = if positive {
            expect_scale as i32 - exp as i32
        } else {
            expect_scale as i32 + exp as i32
        };
        let t: i16 = if t < -200 {
            -200
        } else if t > 300 {
            300
        } else {
            t as i16
        };
        let dec = self.round(t);
        let mut exp = exp;
        if dec.precision() > self.trunc(t).precision() {
            if positive {
                if exp < u16::MAX {
                    exp = exp + 1;
                }
            } else if exp > 0 {
                exp = exp - 1;
            }
        }
        let (m, scale, negative) = dec.into_parts();
        let new_scale: i32 = if positive {
            scale as i32 + exp as i32
        } else {
            scale as i32 - exp as i32
        };
        if new_scale < MIN_SCALE as i32 || new_scale > MAX_SCALE_EFFECTIVE as i32 {
            return Err(DecimalFormatError::OutOfRange);
        }
        let shifted = Decimal::from_parts_unchecked(m, new_scale as i16, negative);
        proof {
            if m == 0 {
                Decimal::lemma_parts_determine(shifted, 0, 0, false);
            } else {
                Decimal::lemma_parts_determine(shifted, m as nat, new_scale as int, negative);
            }
        }
        let mut w = shifted.fmt_internal(true, true, true, Some(expect_scale as usize));
        write_exp(&mut w, positive, exp, true);
        Ok(w)
    }

    /// Formats the value in at most `max_width` characters where it can, switching to
    /// scientific notation where the plain form does not fit.
    pub fn format_with_sci(&self, max_width: u16) -> (r: Result<String, DecimalFormatError>)
        requires
            self.wf(),
        ensures
            self.m() == 0 ==> r is Ok && r->Ok_0@ == seq!['0'],
            self.m() != 0 && !sci_plan(*self, max_width as int).0 && match sci_plan(*self, max_width as int).2 {
                Some(p) => 0 <= p <= 256,
                None => true,
            } ==> r is Ok && r->Ok_0@ == ascii_chars(plain_text(*self, true, true, true,
                match sci_plan(*self, max_width as int).2 {
                    Some(p) => Some(p as usize),
                    None => None,
                })),
            self.m() != 0 && sci_plan(*self, max_width as int).0 ==> match sci_fallback(*self, max_width as int, sci_plan(*self, max_width as int).1) {
                Some(t) => r is Ok && r->Ok_0@ == ascii_chars(t),
                None => r == Err::<String, DecimalFormatError>(DecimalFormatError::OutOfRange),
            },
            r is Err ==> r->Err_0 == DecimalFormatError::OutOfRange,
    {
        if self.is_zero() {
            let mut w: Vec<u8> = Vec::new();
            w.push(48);
            let s = ascii_text(&w);
            proof {
                assert(s@ =~= seq!['0']);
            }
            return Ok(s);
        }
        let precision = self.precision() as i32;
        let scale = self.scale() as i32;
        let sign_len: i32 = if self.is_sign_negative() { 1 } else { 0 };
        let max_digits = max_width as i32 - sign_len;
        let (use_sci, positive_exp, prec): (bool, bool, Option<i32>) = if scale < precision {
            let int_len = precision - scale;
            if max_digits >= int_len {
                if max_digits == int_len {
                    (false, true, Some(0))
                } else {
                    let sc = max_digits - int_len - 1;
                    if sc >= scale {
                        (false, true, None)
                    } else {
                        (false, true, Some(sc))
                    }
                }
            } else {
                (true, true, None)
            }
        } else if scale - precision >= 5 {
            if max_digits < scale + 1 {
                (true, false, None)
            } else {
                (false, true, None)
            }
        } else {
            (false, true, Some(max_width as i32 - 1))
        };
        if use_sci {
            let exp_signed = precision - scale - 1;
            let exp: u16 = if exp_signed < 0 { (-exp_signed) as u16 } else { exp_signed as u16 };
            let exp_len: i32 = if exp < 100 { 4 } else { 5 };
            let expect_scale = max_digits - exp_len - 2;
            if expect_scale < -200 {
                return Err(DecimalFormatError::OutOfRange);
            }
            let w = self.fmt_sci_internal(expect_scale as i16, exp, positive_exp, 1)?;
            return Ok(ascii_text(&w));
        }
        let prec: Option<usize> = match prec {
            Some(p) => {
                if p < 0 || p > 256 {
                    return Err(DecimalFormatError::OutOfRange);
                }
                Some(p as usize)
            },
            None => None,
        };
        Ok(ascii_text(&self.fmt_internal(true, true, true, prec)))
    }

    /// Formats the value in scientific notation with `expect_scale` fractional digits; a zero
    /// with a positive `expect_scale` starts with `0.` or ` .`.
    pub fn format_with_sci_forced(&self, expect_scale: i16, with_zero_before_dot: bool) -> (r: Result<String, DecimalFormatError>)
        requires
            self.wf(),
        ensures
            expect_scale > 56 ==> r == Err::<String, DecimalFormatError>(DecimalFormatError::OutOfRange),
            expect_scale < 0 ==> r == Err::<String, DecimalFormatError>(DecimalFormatError::OutOfRange),
            expect_scale <= 56 ==> match sci_text(*self, expect_scale as int, sci_exp(*self), ndigits(self.m() as int) > self.e(), 0) {
                Some(t) => r is Ok && r->Ok_0@ == ascii_chars(forced_prefix(*self, expect_scale as int, with_zero_before_dot) + t),
                None => r == Err::<String, DecimalFormatError>(DecimalFormatError::OutOfRange),
            },
            r is Err ==> r->Err_0 == DecimalFormatError::OutOfRange,
    {
        if expect_scale > 56 {
            return Err(DecimalFormatError::OutOfRange);
        }
        let precision = self.precision() as i32;
        let scale = self.scale() as i32;
        let exp_signed = precision - scale - 1;
        let exp: u16 = if exp_signed < 0 { (-exp_signed) as u16 } else { exp_signed as u16 };
        let positive_exp = precision > scale;
        let mut w: Vec<u8> = Vec::new();
        if self.is_zero() && expect_scale > 0 {
            if with_zero_before_dot {
                w.push(48);
            } else {
                w.push(32);
            }
            w.push(46);
            push_zeros(&mut w, (expect_scale - 1) as usize);
        }
        proof {
            assert(w@ =~= forced_prefix(*self, expect_scale as int, with_zero_before_dot));
        }
        let body = self.fmt_sci_internal(expect_scale, exp, positive_exp, 0)?;
        push_range(&mut w, &body, 0, body.len());
        proof {
            assert(body@.subrange(0, body@.len() as int) =~= body@);
        }
        Ok(ascii_text(&w))
    }

    /// Formats the value as a JSON number: plain unless that spans more than 40 digits.
    pub fn format_to_json(&self) -> (r: Result<String, DecimalFormatError>)
        requires
            self.wf(),
        ensures
            r is Ok,
            self.m() == 0 ==> r->Ok_0@ == seq!['0'],
            self.m() != 0 && !json_uses_sci(*self) ==> r->Ok_0@ == ascii_chars(plain_text(*self, true, false, true, None)),
            self.m() != 0 && json_uses_sci(*self) ==> r->Ok_0@ == ascii_chars(plain_text(
                Decimal::spec_from_parts(self.m(), ndigits(self.m() as int) - 1, self.s()), true, false, true, None)
                + exp_text(ndigits(self.m() as int) > self.e(), (if ndigits(self.m() as int) - self.e() - 1 >= 0 {
                    ndigits(self.m() as int) - self.e() - 1
                } else {
                    self.e() + 1 - ndigits(self.m() as int)
                }) as nat, false)),
    {
        if self.is_zero() {
            let mut w: Vec<u8> = Vec::new();
            w.push(48);
            let s = ascii_text(&w);
            proof {
                assert(s@ =~= seq!['0']);
            }
            return Ok(s);
        }
        let precision = self.precision() as i32;
        let (m, scale, negative) = self.into_parts();
        let use_sci = if scale <= 0 {
            precision - scale as i32 > 40
        } else {
            let mut v = m;
            let mut zero_count: i32 = 0;
            proof {
                vstd::arithmetic::power::lemma_pow0(10);
                vstd::arithmetic::mul::lemma_mul_basics(m as int);
            }
            while v != 0 && v % 10 == 0
                invariant
                    0 <= zero_count <= 38,
                    trailing_decimal_zeros(m as nat) == zero_count + trailing_decimal_zeros(v as nat),
                    v <= m,
                    m <= crate::decimal::MAX_SIG,
                    v * vstd::arithmetic::power::pow(10, zero_count as nat) == m,
                decreases v,
            {
                proof {
                    vstd::arithmetic::power::lemma_pow_adds(10, zero_count as nat, 1);
                    vstd::arithmetic::power::lemma_pow1(10);
                    lemma_fundamental_div_mod(v as int, 10);
                    vstd::arithmetic::mul::lemma_mul_is_associative((v / 10) as int, 10, vstd::arithmetic::power::pow(10, zero_count as nat));
                    vstd::arithmetic::mul::lemma_mul_is_commutative(10, vstd::arithmetic::power::pow(10, zero_count as nat));
                    crate::u256::lemma_pow10_facts(38);
                    vstd::arithmetic::power::lemma_pow_positive(10, zero_count as nat);
                    if zero_count >= 38 {
                        vstd::arithmetic::power::lemma_pow_increases(10, 38, (zero_count + 1) as nat);
                        crate::u256::lemma_pow10_facts(39);
                        vstd::arithmetic::power::lemma_pow_increases(10, 39, (zero_count + 1) as nat);
                        assert((v / 10) * vstd::arithmetic::power::pow(10, (zero_count + 1) as nat) >= vstd::arithmetic::power::pow(10, (zero_count + 1) as nat)) by (nonlinear_arith)
                            requires
                                v / 10 >= 1,
                                vstd::arithmetic::power::pow(10, (zero_count + 1) as nat) > 0,
                        ;
                    }
                }
                zero_count = zero_count + 1;
                v = v / 10;
            }
            scale as i32 - zero_count > 40
        };
        if !use_sci {
            return Ok(ascii_text(&self.fmt_internal(true, false, true, None)));
        }
        let positive_exp = precision > scale as i32;
        let exp_signed = precision - scale as i32 - 1;
        let exp: u16 = if exp_signed < 0 { (-exp_signed) as u16 } else { exp_signed as u16 };
        let shifted = Decimal::from_parts_unchecked(m, (precision - 1) as i16, negative);
        proof {
            Decimal::lemma_parts_determine(shifted, m as nat, precision - 1, negative);
        }
        let mut w = shifted.fmt_internal(true, false, true, None);
        write_exp(&mut w, positive_exp, exp, false);
        Ok(ascii_text(&w))
    }

    /// Formats the value, rounded to an integer, in hexadecimal; a negative value or one past
    /// `(2^256 - 1) / 16` is out of range.
    pub fn format_to_hex(&self, is_uppercase: bool) -> (r: Result<String, DecimalFormatError>)
        requires
            self.wf(),
        ensures
            self.s() ==> r == Err::<String, DecimalFormatError>(DecimalFormatError::OutOfRange),
            !self.s() && self.cmp_spec(&hex_max()) <= 0 ==> r is Ok,
            !self.s() && self.cmp_spec(&hex_max()) > 0 ==> r == Err::<String, DecimalFormatError>(DecimalFormatError::OutOfRange),
            r is Ok ==> r->Ok_0@ == ascii_chars(hex_digits(
                (cut_spec(*self, 0, true).0 * vstd::arithmetic::power::pow(10, (-cut_spec(*self, 0, true).1) as nat)) as nat, is_uppercase)),
            r is Err ==> r->Err_0 == DecimalFormatError::OutOfRange,
    {
        let max_decimal = Decimal::from_parts_unchecked(72370055773322622139731865630429942408, -38, false);
        proof {
            Decimal::lemma_parts_determine(max_decimal, 72370055773322622139731865630429942408, -38, false);
        }
        if self.is_sign_negative() || self.compare(&max_decimal) > 0 {
            return Err(DecimalFormatError::OutOfRange);
        }
        let integer = self.round(0);
        let (m, scale, _) = integer.into_parts();
        proof {
            crate::u256::lemma_pow10_facts(76);
            crate::u256::lemma_pow10_facts(77);
            vstd::arithmetic::power::lemma_pow_increases(10, 76, 77);
            if self.e() <= 0 && self.m() > 0 {
                lemma_hex_fits(*self);
                vstd::arithmetic::mul::lemma_mul_is_commutative(m as int, pow(10, (-scale) as nat));
            }
            if self.e() > 0 {
                lemma_pow0(10);
                vstd::arithmetic::mul::lemma_mul_basics(m as int);
            }
        }
        if -scale > 77 {
            return Err(DecimalFormatError::OutOfRange);
        }
        proof {
            crate::u256::lemma_pow10_facts((-scale) as nat);
        }
        let value = match crate::u256::pow10((-scale) as u32).checked_mul(U256::from_low(m)) {
            Some(v) => v,
            None => {
                return Err(DecimalFormatError::OutOfRange);
            },
        };
        proof {
            vstd::arithmetic::mul::lemma_mul_is_commutative(m as int, vstd::arithmetic::power::pow(10, (-scale) as nat));
        }
        Ok(ascii_text(&hex_of(value, is_uppercase)))
    }
}
} // verus!
