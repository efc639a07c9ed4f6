//! The decimal value type and its arithmetic kernel.
use crate::u256::{is_digit_count, lemma_limb_order, lemma_limb_value, lemma_pow10_facts, lemma_u256_bound, bound, limb, div_round, pow10, pow10_u128, rounding, U256};
use vstd::arithmetic::div_mod::*;
use vstd::arithmetic::mul::*;
use vstd::arithmetic::power::*;
use vstd::prelude::*;

verus! {

/// Maximum precision of `Decimal`.
pub const MAX_PRECISION: u32 = 38;

/// Maximum binary data size of `Decimal`.
pub const MAX_BINARY_SIZE: usize = 18;

pub const MAX_SCALE: i16 = 130;

pub const MIN_SCALE: i16 = -126;

/// The largest scale a value may carry: small values keep their digits past `MAX_SCALE`.
pub const MAX_SCALE_EFFECTIVE: i16 = 167;

/// The largest significand, `10^38 - 1`.
pub const MAX_SIG: u128 = 99_999_999_999_999_999_999_999_999_999_999_999_999;

/// High precision decimal: `(-1)^negative * int_val * 10^-scale`.
#[derive(Copy, Clone, Debug)]
pub struct Decimal {
    int_val: u128,
    scale: i16,
    negative: bool,
}

/// -1, 0 or 1 as `x` is below, equal to or above `y`.
pub open spec fn three(x: int, y: int) -> int {
    if x < y {
        -1
    } else if x == y {
        0
    } else {
        1
    }
}

/// `k` is the number of decimal digits of `n`.
pub open spec fn ndigits(n: int) -> int {
    choose|k: int| is_digit_count(n, k)
}

/// A digit count is unique, and any count that is met is the one `ndigits` picks.
pub proof fn lemma_digit_count_unique(n: int, k: int)
    requires
        is_digit_count(n, k),
    ensures
        ndigits(n) == k,
{
    assert(is_digit_count(n, ndigits(n)));
    let j = ndigits(n);
    if j < k {
        lemma_pow_increases(10, j as nat, (k - 1) as nat);
    } else if k < j {
        lemma_pow_increases(10, k as nat, (j - 1) as nat);
    }
}

/// `x / c < a` where `x < c * a`.
pub proof fn lemma_div_below(x: int, c: int, a: int)
    requires
        0 <= x < c * a,
        c > 0,
    ensures
        x / c < a,
        x / c >= 0,
{
    lemma_fundamental_div_mod(x, c);
    lemma_mod_bound(x, c);
    lemma_div_pos_is_pos(x, c);
    let q = x / c;
    if q >= a {
        assert(c * q >= c * a) by (nonlinear_arith)
            requires
                q >= a,
                c > 0,
        ;
    }
}

/// The parts that a wide significand `w` at scale `e` is brought to: above `MAX_SCALE` of
/// headroom it is zero, below `MIN_SCALE` it overflows (`None`), and beyond 38 digits it
/// drops the excess digits with half-up rounding.
pub open spec fn adjust_spec(w: int, e: int, s: bool) -> Option<(int, int, bool)> {
    let d = ndigits(w);
    let g = e - d;
    if g >= MAX_SCALE {
        Some((0, 0, false))
    } else if g < MIN_SCALE {
        None
    } else if d > MAX_PRECISION {
        let k = (d - MAX_PRECISION) as nat;
        let q = (w + pow(10, k) / 2) / pow(10, k);
        if q == pow(10, 38) {
            Some((pow(10, 37), e - k - 1, s))
        } else {
            Some((q, e - k, s))
        }
    } else if w == 0 {
        Some((0, 0, false))
    } else {
        Some((w, e, s))
    }
}

/// The parts of `a * b`: the exact product of the significands, brought back by `adjust_spec`.
pub open spec fn mul_spec(a: Decimal, b: Decimal) -> Option<(int, int, bool)> {
    if a.m() == 0 || b.m() == 0 {
        Some((0, 0, false))
    } else {
        adjust_spec(a.m() as int * b.m() as int, a.e() + b.e(), a.s() != b.s())
    }
}

/// The digits by which the dividend of `a / b` is widened beyond 38.
pub open spec fn div_shift(a: Decimal, b: Decimal) -> int {
    if ndigits(b.m() as int) > ndigits(a.m() as int) {
        ndigits(b.m() as int) - ndigits(a.m() as int)
    } else {
        0
    }
}

/// The parts of `a / b`: the dividend is widened to give a 38-digit quotient, which is rounded
/// half up and brought back by `adjust_spec`; division by zero is `None`.
pub open spec fn div_spec(a: Decimal, b: Decimal) -> Option<(int, int, bool)> {
    if b.m() == 0 {
        None
    } else if a.m() == 0 {
        Some((0, 0, false))
    } else {
        let shift = div_shift(a, b);
        let n = a.m() as int * pow(10, (38 + shift) as nat);
        adjust_spec(div_round(n, b.m() as int), a.e() - b.e() + 38 + shift, a.s() != b.s())
    }
}

/// Significands below `10^p` and `10^q` have a product below `10^(p + q)`.
pub proof fn lemma_mul_pow_below(x: int, p: nat, y: int, q: nat)
    requires
        0 <= x < pow(10, p),
        0 <= y < pow(10, q),
    ensures
        x * y < pow(10, p + q),
        x * y >= 0,
{
    lemma_pow_adds(10, p, q);
    lemma_pow_positive(10, p);
    lemma_pow_positive(10, q);
    assert(x * y < pow(10, p) * pow(10, q)) by (nonlinear_arith)
        requires
            0 <= x < pow(10, p),
            0 <= y < pow(10, q),
    ;
    assert(x * y >= 0) by (nonlinear_arith)
        requires
            0 <= x,
            0 <= y,
    ;
}

/// The parts `(m, e, s)`, with zero made canonical.
pub open spec fn canon(m: int, e: int, s: bool) -> Option<(int, int, bool)> {
    if m == 0 {
        Some((0, 0, false))
    } else {
        Some((m, e, s))
    }
}

/// The magnitude sum of two operands at the same scale, with sign `neg`.
pub open spec fn add_same_spec(a: Decimal, b: Decimal, neg: bool) -> Option<(int, int, bool)> {
    let w = a.m() as int + b.m() as int;
    if w < pow(10, 38) && a.e() >= 0 {
        canon(w, a.e(), neg)
    } else {
        adjust_spec(w, a.e(), neg)
    }
}

/// The magnitude sum where `a` has the smaller scale: `a` is rescaled to `b`'s scale; beyond
/// 38 digits of rescale a zero operand leaves the other, and where the rescaled sum would reach
/// `10^77` the operand at the larger scale is negligible.
pub open spec fn rescale_add_spec(a: Decimal, b: Decimal, neg: bool) -> Option<(int, int, bool)> {
    let k = b.e() - a.e();
    let w = a.m() as int * pow(10, k as nat) + b.m() as int;
    if k > 38 {
        if a.m() == 0 {
            canon(b.m() as int, b.e(), neg)
        } else if b.m() == 0 {
            canon(a.m() as int, a.e(), neg)
        } else if k < 77 && w < pow(10, 77) {
            adjust_spec(w, b.e(), neg)
        } else {
            canon(a.m() as int, a.e(), neg)
        }
    } else {
        adjust_spec(w, b.e(), neg)
    }
}

/// The magnitude sum of `a` and `b` with sign `neg`.
pub open spec fn add_internal_spec(a: Decimal, b: Decimal, neg: bool) -> Option<(int, int, bool)> {
    if a.e() == b.e() {
        add_same_spec(a, b, neg)
    } else if a.e() < b.e() {
        rescale_add_spec(a, b, neg)
    } else {
        rescale_add_spec(b, a, neg)
    }
}

/// The magnitude difference `|a| - |b|` where `a` has the smaller scale, with sign `neg`
/// (flipped where `b` is larger).
pub open spec fn rescale_sub_spec(a: Decimal, b: Decimal, neg: bool) -> Option<(int, int, bool)> {
    let k = b.e() - a.e();
    let x = a.m() as int * pow(10, k as nat);
    if k > 38 {
        if k < 77 && x >= b.m() && x - b.m() < pow(10, 77) {
            adjust_spec(x - b.m(), b.e(), neg)
        } else {
            canon(a.m() as int, a.e(), neg)
        }
    } else if x >= b.m() {
        adjust_spec(x - b.m(), b.e(), neg)
    } else {
        adjust_spec(b.m() - x, b.e(), !neg)
    }
}

/// The magnitude difference `|a| - |b|` with sign `neg` (flipped where `b` is larger).
pub open spec fn sub_internal_spec(a: Decimal, b: Decimal, neg: bool) -> Option<(int, int, bool)> {
    if b.m() == 0 {
        Some((a.m() as int, a.e(), a.s()))
    } else if a.m() == 0 {
        canon(b.m() as int, b.e(), !neg)
    } else if a.e() < b.e() {
        rescale_sub_spec(a, b, neg)
    } else if a.e() > b.e() {
        rescale_sub_spec(b, a, !neg)
    } else if a.m() >= b.m() {
        canon(a.m() as int - b.m() as int, a.e(), neg)
    } else {
        canon(b.m() as int - a.m() as int, a.e(), !neg)
    }
}

/// The parts of `a + b`.
pub open spec fn add_spec(a: Decimal, b: Decimal) -> Option<(int, int, bool)> {
    if a.s() != b.s() {
        if b.s() {
            sub_internal_spec(a, b, a.s())
        } else {
            sub_internal_spec(b, a, b.s())
        }
    } else {
        add_internal_spec(a, b, a.s())
    }
}

/// The parts of `a - b`.
pub open spec fn sub_spec(a: Decimal, b: Decimal) -> Option<(int, int, bool)> {
    if a.s() != b.s() {
        add_internal_spec(a, b, a.s())
    } else if a.s() {
        sub_internal_spec(b, a, !a.s())
    } else {
        sub_internal_spec(a, b, a.s())
    }
}

/// The parts of `a % b`: the sign of `a`, at the larger scale of the two.
pub open spec fn rem_spec(a: Decimal, b: Decimal) -> Option<(int, int, bool)> {
    if b.m() == 0 {
        None
    } else if a.m() == 0 {
        Some((0, 0, false))
    } else if a.e() <= b.e() {
        canon((a.m() as int * pow(10, (b.e() - a.e()) as nat)) % (b.m() as int), b.e(), a.s())
    } else if a.e() - b.e() > 38 {
        Some((a.m() as int, a.e(), a.s()))
    } else {
        canon((a.m() as int) % (b.m() as int * pow(10, (a.e() - b.e()) as nat)), a.e(), a.s())
    }
}

/// A requested scale clamped into the range a value may carry.
pub open spec fn clamp_scale(scale: int) -> int {
    if scale < MIN_SCALE {
        MIN_SCALE as int
    } else if scale > MAX_SCALE_EFFECTIVE {
        MAX_SCALE_EFFECTIVE as int
    } else {
        scale
    }
}

/// The parts of `a` cut to `scale` digits after the point; `up` rounds half up, else the
/// dropped digits are discarded.
pub open spec fn cut_spec(a: Decimal, scale: int, up: bool) -> (int, int, bool) {
    let target = clamp_scale(scale);
    let k = a.e() - target;
    if a.m() == 0 {
        (0, 0, false)
    } else if k <= 0 {
        (a.m() as int, a.e(), a.s())
    } else if k > 38 {
        (0, 0, false)
    } else {
        let q = if up {
            (a.m() as int + pow(10, k as nat) / 2) / pow(10, k as nat)
        } else {
            a.m() as int / pow(10, k as nat)
        };
        if q == 0 {
            (0, 0, false)
        } else {
            (q, target, a.s())
        }
    }
}

/// The parts of the least integer at or above `a`.
pub open spec fn ceil_spec(a: Decimal) -> (int, int, bool) {
    if a.e() <= 0 {
        (a.m() as int, a.e(), a.s())
    } else if a.e() > 38 {
        if a.s() {
            (0, 0, false)
        } else {
            (1, 0, false)
        }
    } else {
        let p = pow(10, a.e() as nat);
        let q = if !a.s() && a.m() as int % p != 0 {
            a.m() as int / p + 1
        } else {
            a.m() as int / p
        };
        if q == 0 {
            (0, 0, false)
        } else {
            (q, 0, a.s())
        }
    }
}

/// The parts of the greatest integer at or below `a`.
pub open spec fn floor_spec(a: Decimal) -> (int, int, bool) {
    if a.e() <= 0 {
        (a.m() as int, a.e(), a.s())
    } else if a.e() > 38 {
        if a.s() {
            (1, 0, true)
        } else {
            (0, 0, false)
        }
    } else {
        let p = pow(10, a.e() as nat);
        let q = if a.s() && a.m() as int % p != 0 {
            a.m() as int / p + 1
        } else {
            a.m() as int / p
        };
        if q == 0 {
            (0, 0, false)
        } else {
            (q, 0, a.s())
        }
    }
}

/// The parts of `a` brought to `scale` with at most `precision` significant digits before
/// that scale; `None` where that overflows or the scale cannot be held.
pub open spec fn round_prec_spec(a: Decimal, precision: int, scale: int) -> Option<(int, int, bool)> {
    let e = scale - a.e();
    if a.m() == 0 {
        Some((0, 0, false))
    } else if e >= precision {
        None
    } else if e < -ndigits(a.m() as int) {
        Some((0, 0, false))
    } else if e >= 0 {
        // The value is unchanged; past the largest scale it stays at that scale.
        let t = if scale > MAX_SCALE_EFFECTIVE {
            MAX_SCALE_EFFECTIVE as int
        } else {
            scale
        };
        if a.m() >= pow(10, (precision - e) as nat) {
            None
        } else {
            Some((a.m() as int * pow(10, (t - a.e()) as nat), t, a.s()))
        }
    } else {
        let q = div_round(a.m() as int, pow(10, (-e) as nat));
        if q >= pow(10, precision as nat) {
            None
        } else if scale < MIN_SCALE && q != 0 {
            // Below the smallest scale the rounded value is held at that scale, where it fits.
            let k = (MIN_SCALE - scale) as nat;
            if q * pow(10, k) > MAX_SIG {
                None
            } else {
                Some((q * pow(10, k), MIN_SCALE as int, a.s()))
            }
        } else {
            canon(q, if scale < MIN_SCALE { MIN_SCALE as int } else { scale }, a.s())
        }
    }
}

/// A significand times a positive power is zero exactly where the significand is.
pub proof fn lemma_mag_sign(m: int, p: int)
    requires
        m >= 0,
        p > 0,
    ensures
        m * p >= 0,
        m * p == 0 <==> m == 0,
        m > 0 ==> m * p >= p,
{
    if m > 0 {
        assert(m * p >= p) by (nonlinear_arith)
            requires
                m >= 1,
                p > 0,
        ;
    } else {
        assert(m * p == 0);
    }
}

/// Scaling both sides of a comparison by `10^u` keeps its outcome.
pub proof fn lemma_scaled_three(a: int, b: int, k: nat, u: nat)
    ensures
        three(a * pow(10, k + u), b * pow(10, u)) == three(a * pow(10, k), b),
{
    lemma_pow_adds(10, k, u);
    lemma_pow_positive(10, u);
    let p = pow(10, u);
    let x = a * pow(10, k);
    assert(a * pow(10, k + u) == x * p) by (nonlinear_arith)
        requires
            pow(10, k + u) == pow(10, k) * p,
            x == a * pow(10, k),
    ;
    assert((x * p < b * p) == (x < b)) by (nonlinear_arith)
        requires
            p > 0,
    ;
    assert((x * p == b * p) == (x == b)) by (nonlinear_arith)
        requires
            p > 0,
    ;
}

/// `r` is the well-formed decimal with the parts `t`, or `None` where `t` is.
pub open spec fn gives(r: Option<Decimal>, t: Option<(int, int, bool)>) -> bool {
    match t {
        None => r is None,
        Some((m, e, s)) => r is Some && r->0.wf() && r->0.has_parts(m, e, s),
    }
}

impl Decimal {
    /// The significand.
    pub closed spec fn m(&self) -> nat {
        self.int_val as nat
    }

    /// The scale: the number of digits after the decimal point.
    pub closed spec fn e(&self) -> int {
        self.scale as int
    }

    /// The sign flag.
    pub closed spec fn s(&self) -> bool {
        self.negative
    }

    /// The invariants that every value handed out satisfies.
    pub open spec fn wf(&self) -> bool {
        &&& self.m() <= MAX_SIG
        &&& self.m() == 0 ==> self.e() == 0 && !self.s()
        &&& MIN_SCALE <= self.e() <= MAX_SCALE_EFFECTIVE
    }

    /// The value times `10^t` as a signed integer, for `t` at least the scale.
    pub open spec fn at(&self, t: int) -> int {
        let mag = self.m() * pow(10, (t - self.e()) as nat);
        if self.s() {
            -mag
        } else {
            mag
        }
    }

    /// Three-way comparison of the values: -1, 0 or 1.
    pub open spec fn cmp_spec(&self, other: &Decimal) -> int {
        let t = if self.e() >= other.e() {
            self.e()
        } else {
            other.e()
        };
        three(self.at(t), other.at(t))
    }

    /// Well-formedness holds of every value of the type.
    #[verifier::type_invariant]
    closed spec fn inv(&self) -> bool {
        self.wf()
    }

    /// Whether the parts are `(m, e, s)`.
    pub open spec fn has_parts(&self, m: int, e: int, s: bool) -> bool {
        self.m() == m && self.e() == e && self.s() == s
    }

    /// The value that `from_parts_unchecked(m, e, s)` gives: zero is always `(0, 0, +)`.
    pub open spec fn canonical(&self, m: int, e: int, s: bool) -> bool {
        if m == 0 {
            self.has_parts(0, 0, false)
        } else {
            self.has_parts(m, e, s)
        }
    }

    /// Every value of the type is well formed.
    pub fn well_formed(&self)
        ensures
            self.wf(),
    {
        proof {
            use_type_invariant(self);
        }
    }

    /// The specification decimal of in-range parts has those parts.
    pub proof fn lemma_spec_from_parts(m: nat, e: int, s: bool)
        requires
            m <= u128::MAX,
            i16::MIN <= e <= i16::MAX,
        ensures
            Decimal::spec_from_parts(m, e, s).has_parts(m as int, e, s),
    {
    }

    /// Decimals with the same parts have the same value.
    pub proof fn lemma_same_parts_equal(a: Decimal, b: Decimal)
        requires
            a.m() == b.m(),
            a.e() == b.e(),
            a.s() == b.s(),
        ensures
            a.cmp_spec(&b) == 0,
    {
    }

    /// The decimal with the given parts, as a value of the specification.
    pub closed spec fn spec_from_parts(m: nat, e: int, s: bool) -> Decimal {
        Decimal { int_val: m as u128, scale: e as i16, negative: s }
    }

    /// Parts in range determine the decimal.
    pub proof fn lemma_parts_determine(a: Decimal, m: nat, e: int, s: bool)
        requires
            a.has_parts(m as int, e, s),
        ensures
            a == Decimal::spec_from_parts(m, e, s),
    {
    }

    /// Creates a `Decimal` from parts the caller has checked; zero becomes canonical zero.
    pub fn from_parts_unchecked(int_val: u128, scale: i16, negative: bool) -> (r: Decimal)
        requires
            int_val <= MAX_SIG,
            MIN_SCALE <= scale <= MAX_SCALE_EFFECTIVE,
        ensures
            r.wf(),
            r.canonical(int_val as int, scale as int, negative),
    {
        if int_val != 0 {
            Decimal { int_val, scale, negative }
        } else {
            Decimal { int_val: 0, scale: 0, negative: false }
        }
    }

    /// Creates a `Decimal` from parts, checking the bounds of significand and scale.
    pub fn from_parts(int_val: u128, scale: i16, negative: bool) -> (r: Result<Decimal, crate::error::DecimalConvertError>)
        ensures
            r is Ok <==> (int_val <= MAX_SIG && MIN_SCALE <= scale <= MAX_SCALE_EFFECTIVE),
            r is Ok ==> r->Ok_0.wf() && r->Ok_0.canonical(int_val as int, scale as int, negative),
            r is Err ==> r->Err_0 == crate::error::DecimalConvertError::Overflow,
    {
        if int_val > MAX_SIG {
            return Err(crate::error::DecimalConvertError::Overflow);
        }
        if scale > MAX_SCALE_EFFECTIVE || scale < MIN_SCALE {
            return Err(crate::error::DecimalConvertError::Overflow);
        }
        Ok(Decimal::from_parts_unchecked(int_val, scale, negative))
    }

    pub fn zero() -> (r: Decimal)
        ensures
            r.wf(),
            r.has_parts(0, 0, false),
    {
        Decimal { int_val: 0, scale: 0, negative: false }
    }

    pub fn one() -> (r: Decimal)
        ensures
            r.wf(),
            r.has_parts(1, 0, false),
    {
        Decimal { int_val: 1, scale: 0, negative: false }
    }

    /// Returns `(int_val, scale, negative)`.
    pub fn into_parts(self) -> (r: (u128, i16, bool))
        ensures
            r.0 == self.m(),
            r.1 == self.e(),
            r.2 == self.s(),
    {
        (self.int_val, self.scale, self.negative)
    }

    /// The count of significant digits, one for zero.
    pub fn precision(&self) -> (r: u8)
        requires
            self.wf(),
        ensures
            r as int == ndigits(self.m() as int),
            is_digit_count(self.m() as int, r as int),
            1 <= r <= 38,
    {
        let d = U256::from_low(self.int_val).count_digits();
        proof {
            lemma_digit_count_unique(self.int_val as int, d as int);
            lemma_pow10_facts(38);
            if d > 38 {
                lemma_pow_increases(10, 38, (d - 1) as nat);
            }
        }
        d as u8
    }

    pub fn scale(&self) -> (r: i16)
        ensures
            r == self.e(),
    {
        self.scale
    }

    pub fn is_sign_negative(&self) -> (r: bool)
        ensures
            r == self.s(),
    {
        self.negative
    }

    pub fn is_sign_positive(&self) -> (r: bool)
        ensures
            r == !self.s(),
    {
        !self.negative
    }

    pub fn is_zero(&self) -> (r: bool)
        ensures
            r == (self.m() == 0),
    {
        self.int_val == 0
    }

    /// The absolute value.
    pub fn abs(&self) -> (r: Decimal)
        requires
            self.wf(),
        ensures
            r.wf(),
            r.has_parts(self.m() as int, self.e(), false),
    {
        Decimal { int_val: self.int_val, scale: self.scale, negative: false }
    }

    /// The negation; zero stays zero.
    pub fn neg(&self) -> (r: Decimal)
        requires
            self.wf(),
        ensures
            r.wf(),
            r.canonical(self.m() as int, self.e(), !self.s()),
            self.m() == 0 ==> r.has_parts(0, 0, false),
    {
        Decimal::from_parts_unchecked(self.int_val, self.scale, !self.negative)
    }

    /// Brings a wide intermediate back into a `Decimal`.
    fn adjust_scale(int_val: U256, scale: i16, negative: bool) -> (r: Option<Decimal>)
        requires
            int_val@ < pow(10, 77),
        ensures
            gives(r, adjust_spec(int_val@ as int, scale as int, negative)),
    {
        let digits = int_val.count_digits();
        let w = Ghost(int_val@ as int);
        proof {
            lemma_digit_count_unique(w@, digits as int);
            lemma_pow10_facts(38);
            if digits > 77 {
                lemma_pow_increases(10, 77, (digits - 1) as nat);
            }
        }
        let s = scale as i32 - digits as i32;
        if s >= MAX_SCALE as i32 {
            return Some(Decimal::zero());
        }
        if s < MIN_SCALE as i32 {
            return None;
        }
        if digits > MAX_PRECISION {
            let k = digits - MAX_PRECISION;
            proof {
                lemma_pow10_facts(k as nat);
                lemma_pow_adds(10, 38, k as nat);
                lemma_pow_positive(10, k as nat);
                lemma_u256_bound(int_val);
                assert(pow(10, 38) * pow(10, k as nat) <= pow(10, 77)) by {
                    lemma_pow_increases(10, digits as nat, 77);
                }
            }
            let p = pow10(k);
            let dividend = int_val.add(rounding(k));
            let (q, _) = dividend.div_rem(p);
            proof {
                assert(dividend@ < p@ * (pow(10, 38) + 1)) by (nonlinear_arith)
                    requires
                        dividend@ == int_val@ + p@ / 2,
                        int_val@ < pow(10, 38) * p@,
                        p@ > 0,
                ;
                lemma_div_below(dividend@ as int, p@ as int, pow(10, 38) + 1);
                lemma_limb_value(q);
            }
            let ql = q.low;
            if ql == MAX_SIG + 1 {
                proof {
                    lemma_pow10_facts(37);
                }
                let r = Decimal {
                    int_val: (MAX_SIG + 1) / 10,
                    scale: scale - k as i16 - 1,
                    negative,
                };
                return Some(r);
            }
            proof {
                assert(ql > 0) by {
                    assert(int_val@ >= pow(10, (digits - 1) as nat));
                    lemma_pow_adds(10, 38, (k - 1) as nat);
                    lemma_pow10_facts((k - 1) as nat);
                    assert(pow(10, (digits - 1) as nat) >= p@) by (nonlinear_arith)
                        requires
                            pow(10, (digits - 1) as nat) == pow(10, 38) * pow(10, (k - 1) as nat),
                            p@ == 10 * pow(10, (k - 1) as nat),
                            pow(10, (k - 1) as nat) >= 1,
                            pow(10, 38) >= 10,
                    ;
                    lemma_div_is_ordered(p@ as int, dividend@ as int, p@ as int);
                    lemma_div_by_self(p@ as int);
                }
            }
            let r = Decimal { int_val: ql, scale: scale - k as i16, negative };
            return Some(r);
        }
        proof {
            lemma_pow_increases(10, digits as nat, 38);
            lemma_limb_value(int_val);
        }
        Some(Decimal::from_parts_unchecked(int_val.low, scale, negative))
    }

    /// Calculates the product of two decimals, returning `None` if overflow occurred.
    pub fn checked_mul(&self, other: &Decimal) -> (r: Option<Decimal>)
        requires
            self.wf(),
            other.wf(),
        ensures
            gives(r, mul_spec(*self, *other)),
    {
        if self.is_zero() || other.is_zero() {
            return Some(Decimal::zero());
        }
        let scale = self.scale + other.scale;
        let negative = self.negative ^ other.negative;
        let int_val = U256::mul128(self.int_val, other.int_val);
        proof {
            lemma_pow10_facts(38);
            lemma_mul_pow_below(self.int_val as int, 38, other.int_val as int, 38);
            lemma_pow_increases(10, 76, 77);
        }
        Decimal::adjust_scale(int_val, scale, negative)
    }

    /// Checked decimal division: `None` if `other` is zero or the quotient overflows.
    pub fn checked_div(&self, other: &Decimal) -> (r: Option<Decimal>)
        requires
            self.wf(),
            other.wf(),
        ensures
            gives(r, div_spec(*self, *other)),
    {
        if other.is_zero() {
            return None;
        }
        if self.is_zero() {
            return Some(Decimal::zero());
        }
        let other_precision = other.precision();
        let self_precision = self.precision();
        let shift: u32 = if other_precision > self_precision {
            (other_precision - self_precision) as u32
        } else {
            0
        };
        proof {
            let prec_a = ndigits(self.int_val as int);
            let e = (38 + shift) as nat;
            assert(is_digit_count(self.int_val as int, prec_a));
            assert(prec_a + e <= 76);
            lemma_pow10_facts(e);
            lemma_pow10_facts(76);
            lemma_pow_positive(10, e);
            lemma_pow_adds(10, prec_a as nat, e);
            lemma_pow_increases(10, (prec_a + e) as nat, 76);
            lemma_pow_increases(10, 76, 77);
            let m = self.int_val as int;
            assert(pow(10, e) * m < pow(10, prec_a as nat) * pow(10, e)) by (nonlinear_arith)
                requires
                    0 <= m < pow(10, prec_a as nat),
                    pow(10, e) > 0,
            ;
        }
        let numerator = pow10(MAX_PRECISION + shift).mul(U256::from_low(self.int_val));
        let negative = self.negative ^ other.negative;
        let int_val = numerator.div128_round(other.int_val);
        let scale = self.scale - other.scale + MAX_PRECISION as i16 + shift as i16;
        proof {
            let n = numerator@ as int;
            let d = other.int_val as int;
            lemma_fundamental_div_mod(n, d);
            lemma_mod_bound(n, d);
            lemma_div_is_ordered_by_denominator(n, 1, d);
            lemma_div_basics(n);
            assert(n / d <= n);
            assert(int_val@ == div_round(n, d));
            assert(int_val@ <= n / d + 1);
            assert(int_val@ <= n + 1);
            lemma_mul_is_commutative(pow(10, (38 + shift) as nat), self.int_val as int);
            assert(n < pow(10, 76));
            assert(n + 1 < pow(10, 77)) by {
                lemma_pow10_facts(76);
            }
        }
        Decimal::adjust_scale(int_val, scale, negative)
    }


    /// Builds the decimal `(m, e, s)`, zero made canonical, from a significand that fits.
    fn make(int_val: u128, scale: i16, negative: bool) -> (r: Option<Decimal>)
        requires
            int_val <= MAX_SIG,
            MIN_SCALE <= scale <= MAX_SCALE_EFFECTIVE,
        ensures
            gives(r, canon(int_val as int, scale as int, negative)),
    {
        Some(Decimal::from_parts_unchecked(int_val, scale, negative))
    }

    /// The magnitude sum where `self` has the smaller scale.
    fn rescale_add(&self, other: &Decimal, negative: bool) -> (r: Option<Decimal>)
        requires
            self.wf(),
            other.wf(),
            self.e() < other.e(),
        ensures
            gives(r, rescale_add_spec(*self, *other, negative)),
    {
        let e = (other.scale - self.scale) as u32;
        proof {
            lemma_pow10_facts(38);
            lemma_pow10_facts(76);
            lemma_pow_positive(10, e as nat);
        }
        if e > MAX_PRECISION {
            if self.is_zero() {
                return Decimal::make(other.int_val, other.scale, negative);
            }
            if other.is_zero() {
                return Decimal::make(self.int_val, self.scale, negative);
            }
            if e < 77 {
                if let Some(x) = pow10(e).checked_mul(U256::from_low(self.int_val)) {
                    if let Some(w) = x.checked_add(U256::from_low(other.int_val)) {
                        if w.lt(&pow10(77)) {
                            proof {
                                lemma_mul_is_commutative(pow(10, e as nat), self.m() as int);
                            }
                            return Decimal::adjust_scale(w, other.scale, negative);
                        }
                    }
                }
            }
            proof {
                lemma_mul_is_commutative(pow(10, e as nat), self.m() as int);
                if e < 77 {
                    lemma_pow10_facts(e as nat);
                    let x = self.m() * pow(10, e as nat);
                    let w = x + other.m();
                    if w < pow(10, 77) {
                        assert(pow(10, 77) < bound());
                    }
                }
            }
            return Decimal::make(self.int_val, self.scale, negative);
        }
        proof {
            lemma_pow_increases(10, e as nat, 38);
            lemma_pow_adds(10, 38, e as nat);
            lemma_pow_increases(10, (38 + e) as nat, 76);
            let m = self.m() as int;
            assert(m * pow(10, e as nat) < pow(10, 38) * pow(10, e as nat)) by (nonlinear_arith)
                requires
                    0 <= m < pow(10, 38),
                    pow(10, e as nat) > 0,
            ;
        }
        let x = U256::mul128(self.int_val, pow10_u128(e));
        let w = x.add(U256::from_low(other.int_val));
        Decimal::adjust_scale(w, other.scale, negative)
    }

    /// The magnitude sum of `self` and `other` with sign `negative`.
    fn add_internal(&self, other: &Decimal, negative: bool) -> (r: Option<Decimal>)
        requires
            self.wf(),
            other.wf(),
        ensures
            gives(r, add_internal_spec(*self, *other, negative)),
    {
        if self.scale != other.scale {
            return if self.scale < other.scale {
                self.rescale_add(other, negative)
            } else {
                other.rescale_add(self, negative)
            };
        }
        let int_val = U256::add128(self.int_val, other.int_val);
        proof {
            lemma_pow10_facts(38);
            lemma_pow10_facts(76);
            lemma_pow_increases(10, 39, 77);
            lemma_pow10_facts(39);
        }
        if !int_val.is_decimal_overflowed() && self.scale >= 0 {
            return Decimal::make(int_val.low, self.scale, negative);
        }
        Decimal::adjust_scale(int_val, self.scale, negative)
    }

    /// The magnitude difference where `self` has the smaller scale.
    fn rescale_sub(&self, other: &Decimal, negative: bool) -> (r: Option<Decimal>)
        requires
            self.wf(),
            other.wf(),
            self.e() < other.e(),
        ensures
            gives(r, rescale_sub_spec(*self, *other, negative)),
    {
        let e = (other.scale - self.scale) as u32;
        proof {
            lemma_pow10_facts(38);
            lemma_pow10_facts(76);
            lemma_pow_positive(10, e as nat);
            lemma_mul_is_commutative(pow(10, e as nat), self.m() as int);
        }
        if e > MAX_PRECISION {
            if e < 77 {
                if let Some(x) = pow10(e).checked_mul(U256::from_low(self.int_val)) {
                    if let Some(w) = x.checked_sub(U256::from_low(other.int_val)) {
                        if w.lt(&pow10(77)) {
                            return Decimal::adjust_scale(w, other.scale, negative);
                        }
                    }
                }
            }
            proof {
                lemma_pow10_facts(77);
                if e < 77 {
                    lemma_pow10_facts(e as nat);
                }
            }
            return Decimal::make(self.int_val, self.scale, negative);
        }
        proof {
            lemma_pow_increases(10, e as nat, 38);
            lemma_pow_adds(10, 38, e as nat);
            lemma_pow_increases(10, (38 + e) as nat, 76);
            lemma_pow_increases(10, 76, 77);
            let m = self.m() as int;
            assert(m * pow(10, e as nat) < pow(10, 38) * pow(10, e as nat)) by (nonlinear_arith)
                requires
                    0 <= m < pow(10, 38),
                    pow(10, e as nat) > 0,
            ;
        }
        let x = U256::mul128(self.int_val, pow10_u128(e));
        let o = U256::from_low(other.int_val);
        if !x.lt(&o) {
            Decimal::adjust_scale(x.sub(o), other.scale, negative)
        } else {
            Decimal::adjust_scale(o.sub(x), other.scale, !negative)
        }
    }

    /// The magnitude difference `|self| - |other|` with sign `negative`, flipped where `other`
    /// is the larger.
    fn sub_internal(&self, other: &Decimal, negative: bool) -> (r: Option<Decimal>)
        requires
            self.wf(),
            other.wf(),
        ensures
            gives(r, sub_internal_spec(*self, *other, negative)),
    {
        if other.int_val == 0 {
            return Some(*self);
        }
        if self.int_val == 0 {
            return Decimal::make(other.int_val, other.scale, !negative);
        }
        if self.scale != other.scale {
            return if self.scale < other.scale {
                self.rescale_sub(other, negative)
            } else {
                other.rescale_sub(self, !negative)
            };
        }
        if self.int_val >= other.int_val {
            Decimal::make(self.int_val - other.int_val, self.scale, negative)
        } else {
            Decimal::make(other.int_val - self.int_val, self.scale, !negative)
        }
    }

    /// Adds two decimals, returning `None` if overflow occurred.
    pub fn checked_add(&self, other: &Decimal) -> (r: Option<Decimal>)
        requires
            self.wf(),
            other.wf(),
        ensures
            gives(r, add_spec(*self, *other)),
    {
        if self.negative != other.negative {
            if other.negative {
                self.sub_internal(other, self.negative)
            } else {
                other.sub_internal(self, other.negative)
            }
        } else {
            self.add_internal(other, self.negative)
        }
    }

    /// Subtracts one decimal from another, returning `None` if overflow occurred.
    pub fn checked_sub(&self, other: &Decimal) -> (r: Option<Decimal>)
        requires
            self.wf(),
            other.wf(),
        ensures
            gives(r, sub_spec(*self, *other)),
    {
        if self.negative != other.negative {
            self.add_internal(other, self.negative)
        } else if self.negative {
            other.sub_internal(self, !self.negative)
        } else {
            self.sub_internal(other, self.negative)
        }
    }

    /// Checked remainder: `None` if `other` is zero. The result takes the sign of `self`.
    pub fn checked_rem(&self, other: &Decimal) -> (r: Option<Decimal>)
        requires
            self.wf(),
            other.wf(),
        ensures
            gives(r, rem_spec(*self, *other)),
    {
        if other.is_zero() {
            return None;
        }
        if self.is_zero() {
            return Some(Decimal::zero());
        }
        proof {
            lemma_pow10_facts(38);
        }
        if self.scale == other.scale {
            proof {
                lemma_pow0(10);
                lemma_mul_basics(self.m() as int);
                lemma_mod_bound(self.m() as int, other.m() as int);
            }
            return Decimal::make(self.int_val % other.int_val, self.scale, self.negative);
        }
        if self.scale < other.scale {
            // Widen `self` to the scale of `other` at most 38 digits at a time, reducing each step.
            let mut m = self.int_val;
            let mut cur = self.scale;
            let ghost big_m = other.m() as int;
            proof {
                lemma_pow0(10);
                lemma_mul_basics(self.m() as int);
            }
            loop
                invariant_except_break
                    self.e() <= cur < other.e(),
                invariant
                    m as int % big_m == (self.m() as int * pow(10, (cur - self.e()) as nat)) % big_m,
                    m <= MAX_SIG,
                    big_m == other.int_val,
                    big_m > 0,
                    self.wf(),
                    other.wf(),
                    self.e() < other.e(),
                ensures
                    m as int == (self.m() as int * pow(10, (other.e() - self.e()) as nat)) % big_m,
                decreases other.e() - cur,
            {
                let step: i16 = if other.scale - cur < 38 {
                    other.scale - cur
                } else {
                    38
                };
                proof {
                    lemma_pow_increases(10, step as nat, 38);
                    lemma_pow_positive(10, step as nat);
                }
                let v = U256::mul128(m, pow10_u128(step as u32));
                let (_, rem) = v.div_rem(U256::from_low(other.int_val));
                let ghost t = self.m() as int * pow(10, (cur - self.e()) as nat);
                let ghost p = pow(10, step as nat);
                proof {
                    lemma_mod_bound(v@ as int, big_m);
                    lemma_limb_value(rem);
                    lemma_mul_mod_noop_left(m as int, p, big_m);
                    lemma_mul_mod_noop_left(t, p, big_m);
                    lemma_pow_adds(10, (cur - self.e()) as nat, step as nat);
                    lemma_mul_is_associative(self.m() as int, pow(10, (cur - self.e()) as nat), p);
                    assert(rem@ as int == (t * p) % big_m);
                    lemma_small_mod(rem@, big_m as nat);
                }
                m = rem.low;
                cur = cur + step;
                if cur == other.scale {
                    break;
                }
                if m == 0 {
                    proof {
                        let t2 = self.m() as int * pow(10, (cur - self.e()) as nat);
                        let q = pow(10, (other.e() - cur) as nat);
                        lemma_pow_adds(10, (cur - self.e()) as nat, (other.e() - cur) as nat);
                        lemma_mul_is_associative(self.m() as int, pow(10, (cur - self.e()) as nat), q);
                        lemma_mul_mod_noop_left(t2, q, big_m);
                        assert(t2 % big_m == 0);
                        assert((t2 % big_m) * q == 0);
                    }
                    break;
                }
            }
            proof {
                lemma_mod_bound(self.m() as int * pow(10, (other.e() - self.e()) as nat), big_m);
            }
            return Decimal::make(m, other.scale, self.negative);
        }
        let e = self.scale - other.scale;
        if e as u32 > MAX_PRECISION {
            return Some(*self);
        }
        proof {
            lemma_pow_increases(10, e as nat, 38);
            lemma_pow_positive(10, e as nat);
            assert(other.m() * pow(10, e as nat) > 0) by (nonlinear_arith)
                requires
                    other.m() > 0,
                    pow(10, e as nat) > 0,
            ;

        }
        let other_val = U256::mul128(other.int_val, pow10_u128(e as u32));
        let (_, rem) = U256::from_low(self.int_val).div_rem(other_val);
        proof {
            lemma_mod_bound(self.m() as int, other_val@ as int);
            lemma_limb_value(rem);
            assert(rem@ <= self.m()) by {
                lemma_mod_decreases(self.m(), other_val@);
            }
        }
        Decimal::make(rem.low, self.scale, self.negative)
    }

    /// Cuts `self` to `scale` digits after the point, rounding half up where `up`.
    fn cut(&self, scale: i16, up: bool) -> (r: Decimal)
        requires
            self.wf(),
        ensures
            r.wf(),
            r.has_parts(cut_spec(*self, scale as int, up).0, cut_spec(*self, scale as int, up).1,
                cut_spec(*self, scale as int, up).2),
    {
        if self.is_zero() {
            return Decimal::zero();
        }
        let target = if scale < MIN_SCALE {
            MIN_SCALE
        } else if scale > MAX_SCALE_EFFECTIVE {
            MAX_SCALE_EFFECTIVE
        } else {
            scale
        };
        if self.scale <= target {
            return *self;
        }
        let e = self.scale - target;
        if e as u32 > MAX_PRECISION {
            return Decimal::zero();
        }
        let p = pow10_u128(e as u32);
        proof {
            lemma_pow10_facts(38);
            lemma_pow_increases(10, e as nat, 38);
            lemma_pow_positive(10, e as nat);
            lemma_div_is_ordered(self.m() as int, MAX_SIG as int, p as int);
            lemma_div_is_ordered_by_denominator(MAX_SIG as int + p as int / 2, 1, p as int);
            lemma_div_basics(MAX_SIG as int + p as int / 2);
            assert(MAX_SIG as int + p as int / 2 < limb());
        }
        let q = if up {
            proof {
                lemma_pow1(10);
                lemma_pow_increases(10, 1, e as nat);
                lemma_div_is_ordered(self.m() as int + p as int / 2, MAX_SIG as int + p as int / 2, p as int);
                assert(MAX_SIG as int + p as int / 2 < p * pow(10, 38)) by (nonlinear_arith)
                    requires
                        p >= 10,
                        MAX_SIG as int == pow(10, 38) - 1,
                        pow(10, 38) > 0,
                ;
                lemma_div_below(MAX_SIG as int + p as int / 2, p as int, pow(10, 38));
            }
            (self.int_val + p / 2) / p
        } else {
            self.int_val / p
        };
        Decimal::from_parts_unchecked(q, target, self.negative)
    }

    /// Truncates to `scale` digits after the point; a negative `scale` truncates before it.
    pub fn trunc(&self, scale: i16) -> (r: Decimal)
        requires
            self.wf(),
        ensures
            r.wf(),
            r.has_parts(cut_spec(*self, scale as int, false).0, cut_spec(*self, scale as int, false).1,
                cut_spec(*self, scale as int, false).2),
    {
        self.cut(scale, false)
    }

    /// Rounds half up to `scale` digits after the point; a negative `scale` rounds before it.
    pub fn round(&self, scale: i16) -> (r: Decimal)
        requires
            self.wf(),
        ensures
            r.wf(),
            r.has_parts(cut_spec(*self, scale as int, true).0, cut_spec(*self, scale as int, true).1,
                cut_spec(*self, scale as int, true).2),
    {
        self.cut(scale, true)
    }

    /// The smallest integer that is greater than or equal to `self`.
    pub fn ceil(&self) -> (r: Decimal)
        requires
            self.wf(),
        ensures
            r.wf(),
            r.has_parts(ceil_spec(*self).0, ceil_spec(*self).1, ceil_spec(*self).2),
    {
        if self.scale <= 0 {
            return *self;
        }
        if self.scale as u32 > MAX_PRECISION {
            return if self.negative {
                Decimal::zero()
            } else {
                Decimal::one()
            };
        }
        let p = pow10_u128(self.scale as u32);
        proof {
            lemma_pow10_facts(38);
            lemma_pow10_facts(1);
            lemma_pow1(10);
            lemma_pow_increases(10, 1, self.e() as nat);
            lemma_div_below(self.m() as int, p as int, pow(10, 38) / 10);
            assert(pow(10, 38) / 10 * p <= pow(10, 38) * p / 10) by (nonlinear_arith)
                requires p >= 10;
            assert(self.m() < p * (pow(10, 38) / 10)) by (nonlinear_arith)
                requires
                    self.m() < pow(10, 38),
                    p >= 10,
                    pow(10, 38) == 100000000000000000000000000000000000000,
            ;
        }
        let q = self.int_val / p;
        let q = if !self.negative && self.int_val % p != 0 {
            q + 1
        } else {
            q
        };
        Decimal::from_parts_unchecked(q, 0, self.negative)
    }

    /// The largest integer that is less than or equal to `self`.
    pub fn floor(&self) -> (r: Decimal)
        requires
            self.wf(),
        ensures
            r.wf(),
            r.has_parts(floor_spec(*self).0, floor_spec(*self).1, floor_spec(*self).2),
    {
        if self.scale <= 0 {
            return *self;
        }
        if self.scale as u32 > MAX_PRECISION {
            return if self.negative {
                Decimal { int_val: 1, scale: 0, negative: true }
            } else {
                Decimal::zero()
            };
        }
        let p = pow10_u128(self.scale as u32);
        proof {
            lemma_pow10_facts(38);
            lemma_pow1(10);
            lemma_pow_increases(10, 1, self.e() as nat);
            lemma_div_below(self.m() as int, p as int, pow(10, 38) / 10);
            assert(self.m() < p * (pow(10, 38) / 10)) by (nonlinear_arith)
                requires
                    self.m() < pow(10, 38),
                    p >= 10,
                    pow(10, 38) == 100000000000000000000000000000000000000,
            ;
        }
        let q = self.int_val / p;
        let q = if self.negative && self.int_val % p != 0 {
            q + 1
        } else {
            q
        };
        Decimal::from_parts_unchecked(q, 0, self.negative)
    }

    /// Moves trailing zeros of the significand in or out to bring the scale toward `scale`,
    /// as far as the value, the 38 digits and the scale range allow.
    pub fn normalize_to_scale(&self, scale: i16) -> (r: Decimal)
        requires
            self.wf(),
        ensures
            r.wf(),
            r.s() == self.s(),
            self.m() == 0 ==> r.has_parts(0, 0, false),
            r.e() <= self.e() ==> r.m() * pow(10, (self.e() - r.e()) as nat) == self.m(),
            r.e() >= self.e() ==> self.m() * pow(10, (r.e() - self.e()) as nat) == r.m(),
            self.m() != 0 && r.e() > scale ==> r.e() <= self.e() && (r.m() % 10 != 0 || r.e()
                == MIN_SCALE),
            self.m() != 0 && r.e() < scale ==> r.e() >= self.e() && (r.m() >= pow(10, 37) || r.e()
                == MAX_SCALE_EFFECTIVE),
    {
        if self.is_zero() {
            return Decimal::zero();
        }
        let mut cur = self.scale;
        let mut m = self.int_val;
        proof {
            lemma_pow0(10);
            lemma_mul_basics(m as int);
            lemma_pow10_facts(37);
            lemma_pow10_facts(38);
        }
        while cur > scale && cur > MIN_SCALE && m % 10 == 0
            invariant
                MIN_SCALE <= cur <= self.e(),
                cur < self.e() ==> cur >= scale,
                m * pow(10, (self.e() - cur) as nat) == self.m(),
                0 < m <= MAX_SIG,
            decreases cur - MIN_SCALE,
        {
            proof {
                lemma_fundamental_div_mod(m as int, 10);
                lemma_pow_adds(10, (self.e() - cur) as nat, 1);
                lemma_pow1(10);
                lemma_mul_is_associative((m / 10) as int, 10, pow(10, (self.e() - cur) as nat));
                lemma_mul_is_commutative(10, pow(10, (self.e() - cur) as nat));
            }
            m = m / 10;
            cur = cur - 1;
        }
        let ghost low = cur;
        let ghost m_low = m;
        proof {
            lemma_pow0(10);
            lemma_mul_basics(m as int);
        }
        while cur < scale && cur < MAX_SCALE_EFFECTIVE && m < 10_000_000_000_000_000_000_000_000_000_000_000_000
            invariant
                low <= cur <= MAX_SCALE_EFFECTIVE,
                low < self.e() ==> low >= scale && cur == low,
                low <= self.e(),
                cur == low || cur <= scale,
                low <= scale || low == MIN_SCALE || m_low % 10 != 0,
                m_low * pow(10, (cur - low) as nat) == m,
                m_low * pow(10, (self.e() - low) as nat) == self.m(),
                0 < m <= MAX_SIG,
                pow(10, 37) == 10_000_000_000_000_000_000_000_000_000_000_000_000,
            decreases MAX_SCALE_EFFECTIVE - cur,
        {
            proof {
                lemma_pow_adds(10, (cur - low) as nat, 1);
                lemma_pow1(10);
                lemma_mul_is_associative(m_low as int, pow(10, (cur - low) as nat), 10);
            }
            m = m * 10;
            cur = cur + 1;
        }
        proof {
            if cur == low {
                lemma_pow0(10);
                lemma_mul_basics(m_low as int);
            }
        }
        Decimal::from_parts_unchecked(m, cur, self.negative)
    }

    /// Normalizes the scale toward zero.
    pub fn normalize(&self) -> (r: Decimal)
        requires
            self.wf(),
        ensures
            r.wf(),
            r.s() == self.s(),
            self.m() == 0 ==> r.has_parts(0, 0, false),
            r.e() <= self.e() ==> r.m() * pow(10, (self.e() - r.e()) as nat) == self.m(),
            r.e() >= self.e() ==> self.m() * pow(10, (r.e() - self.e()) as nat) == r.m(),
            crate::laws::rescaled(r, *self),
            crate::laws::normal_form(r, *self),
            self.m() != 0 && r.e() > 0 ==> r.e() <= self.e() && r.m() % 10 != 0,
            self.m() != 0 && r.e() < 0 ==> r.e() >= self.e() && (r.m() >= pow(10, 37) || r.e()
                == MAX_SCALE_EFFECTIVE),
    {
        self.normalize_to_scale(0)
    }

    /// Rounds `self` to `scale` keeping at most `precision` significant digits before that
    /// scale. Returns `true`, leaving `self` unchanged, where that overflows.
    pub fn round_with_precision(&mut self, precision: u8, scale: i16) -> (r: bool)
        requires
            old(self).wf(),
            precision <= 38,
        ensures
            r == (round_prec_spec(*old(self), precision as int, scale as int) is None),
            r ==> *final(self) == *old(self),
            !r ==> final(self).wf() && gives(Some(*final(self)), round_prec_spec(*old(self),
                precision as int, scale as int)),
    {
        if self.is_zero() {
            return false;
        }
        let e = scale as i32 - self.scale as i32;
        if e >= precision as i32 {
            return true;
        }
        let digits = self.precision();
        if e < -(digits as i32) {
            *self = Decimal::zero();
            return false;
        }
        proof {
            lemma_pow10_facts(38);
        }
        if e >= 0 {
            let ceil = pow10_u128((precision as i32 - e) as u32);
            proof {
                lemma_pow_increases(10, (precision - e) as nat, 38);
            }
            if self.int_val >= ceil {
                return true;
            }
            proof {
                lemma_pow_increases(10, e as nat, 38);
                lemma_pow_adds(10, (precision - e) as nat, e as nat);
                lemma_pow_increases(10, precision as nat, 38);
                lemma_pow_positive(10, e as nat);
                assert(self.m() * pow(10, e as nat) < pow(10, (precision - e) as nat) * pow(10, e as nat)) by (nonlinear_arith)
                    requires
                        self.m() < pow(10, (precision - e) as nat),
                        pow(10, e as nat) > 0,
                ;
            }
            let t: i16 = if scale > MAX_SCALE_EFFECTIVE {
                MAX_SCALE_EFFECTIVE
            } else {
                scale
            };
            let et = (t - self.scale) as u32;
            proof {
                lemma_pow_increases(10, et as nat, e as nat);
                lemma_pow_positive(10, et as nat);
                assert(self.m() * pow(10, et as nat) <= self.m() * pow(10, e as nat)) by (nonlinear_arith)
                    requires
                        pow(10, et as nat) <= pow(10, e as nat),
                ;
                lemma_mag_sign(self.m() as int, pow(10, et as nat));
                lemma_pow_increases(10, precision as nat, 38);
                lemma_pow_increases(10, et as nat, 38);
            }
            let v = self.int_val * pow10_u128(et);
            let ghost old_self = *self;
            *self = Decimal { int_val: v, scale: t, negative: self.negative };
            assert(self.e() == t);
            assert(round_prec_spec(old_self, precision as int, scale as int) == Some(
                (old_self.m() as int * pow(10, et as nat), t as int, old_self.s()),
            ));
            assert(self.has_parts(old_self.m() as int * pow(10, et as nat), t as int, old_self.s()));
            assert(gives(Some(*self), round_prec_spec(old_self, precision as int, scale as int)));
            return false;
        }
        let d = pow10_u128((-e) as u32);
        proof {
            lemma_pow_increases(10, (-e) as nat, 38);
            lemma_pow_positive(10, (-e) as nat);
            lemma_pow_increases(10, precision as nat, 38);
        }
        let q = U256::from_low(self.int_val).div128_round(d);
        proof {
            let n = self.m() as int;
            lemma_div_is_ordered_by_denominator(n, 1, d as int);
            lemma_div_basics(n);
            lemma_fundamental_div_mod(n, d as int);
            lemma_mod_bound(n, d as int);
            lemma_u256_bound(q);
            assert(q@ <= n + 1);
            lemma_limb_value(q);
        }
        let ceil = pow10_u128(precision as u32);
        if q.low >= ceil {
            return true;
        }
        if scale < MIN_SCALE && q.low != 0 {
            let k = (MIN_SCALE as i32 - scale as i32) as u32;
            if k > 38 {
                proof {
                    lemma_pow_increases(10, 39, k as nat);
                    lemma_pow10_facts(39);
                    lemma_mag_sign(q.low as int, pow(10, k as nat));
                }
                return true;
            }
            proof {
                lemma_pow_increases(10, k as nat, 38);
                lemma_pow_positive(10, k as nat);
                lemma_mag_sign(q.low as int, pow(10, k as nat));
            }
            let held = U256::mul128(q.low, pow10_u128(k));
            if held.high != 0 || held.low > MAX_SIG {
                proof {
                    lemma_limb_order(held.high as int, held.low as int, 0, MAX_SIG as int);
                }
                return true;
            }
            *self = Decimal::from_parts_unchecked(held.low, MIN_SCALE, self.negative);
            return false;
        }
        let target = if scale < MIN_SCALE {
            MIN_SCALE
        } else {
            scale
        };
        *self = Decimal::from_parts_unchecked(q.low, target, self.negative);
        false
    }

    /// The square root by Newton's iteration from one, `(r + x / r) * 0.5` until a step gives
    /// back its input (at most 1000 steps); `None` for a negative value or where a step
    /// overflows.
    pub fn sqrt(&self) -> (r: Option<Decimal>)
        requires
            self.wf(),
        ensures
            r == crate::iterate::sqrt_spec(*self),
            self.s() ==> r is None,
            self.m() == 0 ==> r is Some && r->0.has_parts(0, 0, false),
            r is Some ==> r->0.wf() && !r->0.s(),
    {
        if self.negative {
            return None;
        }
        if self.is_zero() {
            let z = Decimal::zero();
            proof {
                Decimal::lemma_parts_determine(z, 0, 0, false);
            }
            return Some(z);
        }
        let half = Decimal { int_val: 5, scale: 1, negative: false };
        let mut result = Decimal::one();
        proof {
            Decimal::lemma_parts_determine(half, 5, 1, false);
            Decimal::lemma_parts_determine(result, 1, 0, false);
        }
        let mut last = result;
        let mut iterations: u32 = 0;
        let ghost target = crate::iterate::sqrt_spec(*self);
        while iterations < 1000
            invariant_except_break
                crate::iterate::sqrt_loop(*self, result, last, iterations as nat) == target,
            invariant
                iterations <= 1000,
                result.wf(),
                last.wf(),
                !result.s(),
                self.wf(),
                self.m() != 0,
                !self.s(),
                half.wf(),
                half == crate::iterate::half_dec(),
                target == crate::iterate::sqrt_spec(*self),
            ensures
                Some(result) == target,
            decreases 1000 - iterations,
        {
            let q = self.checked_div(&result);
            proof {
                crate::iterate::lemma_gives_of(q, div_spec(*self, result));
            }
            let q = q?;
            let val = q.normalize();
            proof {
                crate::iterate::lemma_norm(val, q);
            }
            let sum = result.checked_add(&val);
            proof {
                crate::iterate::lemma_gives_of(sum, add_spec(result, val));
            }
            let sum = sum?;
            let next = sum.checked_mul(&half);
            proof {
                crate::iterate::lemma_gives_of(next, mul_spec(sum, half));
            }
            let next = next?;
            if next.negative {
                return None;
            }
            result = next;
            if result.compare(&last) == 0 {
                break;
            }
            last = result;
            iterations = iterations + 1;
        }
        Some(result)
    }
    /// Compares the magnitude of `self`, at the smaller scale, with that of `other`.
    fn rescale_cmp(&self, other: &Decimal) -> (r: i8)
        requires
            self.wf(),
            other.wf(),
            self.e() < other.e(),
            self.m() > 0,
        ensures
            r == three(self.m() * pow(10, (other.e() - self.e()) as nat), other.m() as int),
    {
        let e = other.scale - self.scale;
        proof {
            lemma_pow10_facts(38);
            lemma_pow_positive(10, e as nat);
        }
        if e as u32 > MAX_PRECISION {
            proof {
                lemma_pow_increases(10, 38, e as nat);
                assert(self.m() * pow(10, e as nat) >= pow(10, e as nat)) by (nonlinear_arith)
                    requires
                        self.m() >= 1,
                        pow(10, e as nat) > 0,
                ;
            }
            1
        } else {
            proof {
                lemma_pow_increases(10, e as nat, 38);
            }
            let v = U256::mul128(self.int_val, pow10_u128(e as u32));
            v.cmp128(other.int_val)
        }
    }

    /// Compares the values: -1, 0 or 1 as `self` is below, equal to or above `other`.
    pub fn compare(&self, other: &Decimal) -> (r: i8)
        requires
            self.wf(),
            other.wf(),
        ensures
            r == self.cmp_spec(other),
    {
        let t = Ghost(if self.e() >= other.e() { self.e() } else { other.e() });
        proof {
            lemma_pow_positive(10, (t@ - self.e()) as nat);
            lemma_pow_positive(10, (t@ - other.e()) as nat);
            lemma_mag_sign(self.m() as int, pow(10, (t@ - self.e()) as nat));
            lemma_mag_sign(other.m() as int, pow(10, (t@ - other.e()) as nat));
        }
        if self.negative != other.negative {
            return if self.negative {
                -1
            } else {
                1
            };
        }
        let (left, right) = if self.negative {
            (other, self)
        } else {
            (self, other)
        };
        let ghost ml = left.m() * pow(10, (t@ - left.e()) as nat);
        let ghost mr = right.m() * pow(10, (t@ - right.e()) as nat);
        assert(self.cmp_spec(other) == three(ml, mr));
        if left.is_zero() {
            return if right.is_zero() {
                0
            } else {
                -1
            };
        } else if right.is_zero() {
            return 1;
        }
        if left.scale == right.scale {
            proof {
                lemma_pow0(10);
                assert(t@ == left.e());
                assert(ml == left.m() as int * pow(10, 0));
                assert(mr == right.m() as int * pow(10, 0));
                lemma_mul_basics(left.m() as int);
                lemma_mul_basics(right.m() as int);
                assert(ml == left.int_val as int);
                assert(mr == right.int_val as int);
                assert(self.cmp_spec(other) == three(left.int_val as int, right.int_val as int));
            }
            return if left.int_val < right.int_val {
                -1
            } else if left.int_val == right.int_val {
                0
            } else {
                1
            };
        }
        if left.scale < right.scale {
            let c = left.rescale_cmp(right);
            proof {
                lemma_scaled_three(left.m() as int, right.m() as int, (right.e() - left.e()) as nat, (t@ - right.e()) as nat);
            }
            c
        } else {
            let c = right.rescale_cmp(left);
            proof {
                lemma_scaled_three(right.m() as int, left.m() as int, (left.e() - right.e()) as nat, (t@ - left.e()) as nat);
            }
            -c
        }
    }
}

/// Feeds the parts of a normal form to a hasher.
/// Relies on the `Hash` impl of the tuple `(u128, i16, bool)`, which hashes the three parts in
/// turn; nothing is claimed of the hasher's state.
#[verifier::external_body]
fn hash_parts<H: core::hash::Hasher>(parts: (u128, i16, bool), state: &mut H) {
    core::hash::Hash::hash(&parts, state)
}

impl core::hash::Hash for Decimal {
    /// Hashes the normal form, so that equal values hash alike: `normalize` gives a
    /// `normal_form`, and `laws::lemma_equal_values_normal_forms` shows that equal values have
    /// normal forms with the same parts.
    fn hash<H: core::hash::Hasher>(&self, state: &mut H) {
        self.well_formed();
        hash_parts(self.normalize().into_parts(), state)
    }
}

impl Default for Decimal {
    /// Zero.
    fn default() -> (r: Decimal)
        ensures
            r.wf(),
            r.has_parts(0, 0, false),
    {
        Decimal::zero()
    }
}

impl PartialEq for Decimal {
    fn eq(&self, other: &Decimal) -> (r: bool) {
        proof {
            use_type_invariant(self);
            use_type_invariant(other);
        }
        self.compare(other) == 0
    }
}

impl vstd::std_specs::cmp::PartialEqSpecImpl for Decimal {
    open spec fn obeys_eq_spec() -> bool {
        true
    }

    open spec fn eq_spec(&self, other: &Decimal) -> bool {
        self.cmp_spec(other) == 0
    }
}

impl PartialOrd for Decimal {
    fn partial_cmp(&self, other: &Decimal) -> (r: Option<core::cmp::Ordering>) {
        proof {
            use_type_invariant(self);
            use_type_invariant(other);
        }
        let c = self.compare(other);
        if c < 0 {
            Some(core::cmp::Ordering::Less)
        } else if c == 0 {
            Some(core::cmp::Ordering::Equal)
        } else {
            Some(core::cmp::Ordering::Greater)
        }
    }
}

impl vstd::std_specs::cmp::PartialOrdSpecImpl for Decimal {
    open spec fn obeys_partial_cmp_spec() -> bool {
        true
    }

    open spec fn partial_cmp_spec(&self, other: &Decimal) -> Option<core::cmp::Ordering> {
        if self.cmp_spec(other) < 0 {
            Some(core::cmp::Ordering::Less)
        } else if self.cmp_spec(other) == 0 {
            Some(core::cmp::Ordering::Equal)
        } else {
            Some(core::cmp::Ordering::Greater)
        }
    }
}

} // verus!
