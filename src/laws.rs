//! Properties that hold across the operations of the library.
use crate::decimal::{adjust_spec, div_spec, mul_spec, add_spec, sub_spec, Decimal, MAX_SIG};
use crate::format::{body_text, dec_digits, plain_text, zeros};
use crate::parse::{digits_value, is_digit, lead_zeros_end, plain_frac, plain_int, plain_parts, plain_shape, run_end, sign_len};
use crate::u256::{div_round, is_digit_count};
use vstd::arithmetic::div_mod::*;
use vstd::arithmetic::mul::*;
use vstd::arithmetic::power::*;
use vstd::prelude::*;

verus! {

/// A well-formed zero is `(0, 0, +)`: there is one zero, and it is not negative.
pub proof fn lemma_canonical_zero(d: Decimal)
    requires
        d.wf(),
        d.m() == 0,
    ensures
        d.has_parts(0, 0, false),
{
}

/// `adjust_spec` keeps the sign it is given on every non-zero result.
pub proof fn lemma_adjust_keeps_sign(w: int, e: int, s: bool)
    ensures
        match adjust_spec(w, e, s) {
            Some((m, _, t)) => m != 0 ==> t == s,
            None => true,
        },
{
}

/// A non-zero product or quotient is negative exactly where one operand is; zero is never
/// negative, as every result is well formed.
pub proof fn lemma_mul_div_sign(a: Decimal, b: Decimal)
    requires
        a.wf(),
        b.wf(),
    ensures
        match mul_spec(a, b) {
            Some((m, _, s)) => m != 0 ==> s == (a.s() != b.s()),
            None => true,
        },
        match div_spec(a, b) {
            Some((m, _, s)) => m != 0 ==> s == (a.s() != b.s()),
            None => true,
        },
{
    if a.m() != 0 && b.m() != 0 {
        lemma_adjust_keeps_sign(a.m() as int * b.m() as int, a.e() + b.e(), a.s() != b.s());
    }
    if b.m() != 0 && a.m() != 0 {
        let shift = crate::decimal::div_shift(a, b);
        let n = a.m() as int * vstd::arithmetic::power::pow(10, (38 + shift) as nat);
        lemma_adjust_keeps_sign(
            crate::u256::div_round(n, b.m() as int),
            a.e() - b.e() + 38 + shift,
            a.s() != b.s(),
        );
    }
}


/// `n` has the value of `d`: the same sign, and significands that differ by the power of ten
/// between their scales. `normalize` and `normalize_to_scale` give such an `n`.
pub open spec fn rescaled(n: Decimal, d: Decimal) -> bool {
    &&& n.s() == d.s()
    &&& n.e() <= d.e() ==> n.m() * pow(10, (d.e() - n.e()) as nat) == d.m()
    &&& n.e() >= d.e() ==> d.m() * pow(10, (n.e() - d.e()) as nat) == n.m()
}

/// The value at a larger scale is the value at a smaller one times the power of ten between.
proof fn lemma_at_shift(d: Decimal, t: int, u: int)
    requires
        d.e() <= t <= u,
    ensures
        d.at(u) == d.at(t) * pow(10, (u - t) as nat),
{
    lemma_pow_adds(10, (t - d.e()) as nat, (u - t) as nat);
    lemma_mul_is_associative(d.m() as int, pow(10, (t - d.e()) as nat), pow(10, (u - t) as nat));
    if d.s() {
        lemma_mul_unary_negation(d.m() as int * pow(10, (t - d.e()) as nat), pow(10, (u - t) as nat));
    }
}

/// A rescaled form has the value of the decimal at every scale past both.
proof fn lemma_rescaled_at(n: Decimal, d: Decimal, u: int)
    requires
        rescaled(n, d),
        u >= n.e(),
        u >= d.e(),
    ensures
        n.at(u) == d.at(u),
{
    if n.e() <= d.e() {
        lemma_at_shift(n, d.e(), u);
        lemma_pow0(10);
        lemma_mul_basics(d.m() as int);
        assert(n.at(d.e()) == d.at(d.e()));
        lemma_at_shift(d, d.e(), u);
    } else {
        lemma_at_shift(d, n.e(), u);
        lemma_pow0(10);
        lemma_mul_basics(n.m() as int);
        assert(d.at(n.e()) == n.at(n.e()));
        lemma_at_shift(n, n.e(), u);
    }
}

/// Equal values at one common scale are equal at any smaller common scale.
proof fn lemma_at_cancel(a: Decimal, b: Decimal, t: int, u: int)
    requires
        a.e() <= t,
        b.e() <= t,
        t <= u,
        a.at(u) == b.at(u),
    ensures
        a.at(t) == b.at(t),
{
    lemma_at_shift(a, t, u);
    lemma_at_shift(b, t, u);
    lemma_pow_positive(10, (u - t) as nat);
    lemma_mul_equality_converse(pow(10, (u - t) as nat), a.at(t), b.at(t));
}

proof fn lemma_mul_equality_converse(p: int, x: int, y: int)
    requires
        p > 0,
        x * p == y * p,
    ensures
        x == y,
{
    if x < y {
        lemma_mul_strict_inequality(x, y, p);
    } else if y < x {
        lemma_mul_strict_inequality(y, x, p);
    }
}

/// Decimals whose normal forms have the same parts are equal.
pub proof fn lemma_equal_normal_forms(a: Decimal, b: Decimal, na: Decimal, nb: Decimal)
    requires
        rescaled(na, a),
        rescaled(nb, b),
        na.m() == nb.m(),
        na.e() == nb.e(),
        na.s() == nb.s(),
    ensures
        a.cmp_spec(&b) == 0,
{
    let t = if a.e() >= b.e() { a.e() } else { b.e() };
    let u = if t >= na.e() { t } else { na.e() };
    lemma_rescaled_at(na, a, u);
    lemma_rescaled_at(nb, b, u);
    Decimal::lemma_same_parts_equal(na, nb);
    assert(na.at(u) == nb.at(u));
    lemma_at_cancel(a, b, t, u);
}

/// Where `a` and `b` are non-negative, share a non-negative scale and their significands sum
/// within 38 digits, `(a + b) - b` gives back the parts of `a`. (Past 38 digits the sum is
/// rounded and the identity fails: `1 + 10^40 - 10^40` is `0`.)
pub proof fn lemma_add_sub_inverse(a: Decimal, b: Decimal)
    requires
        a.wf(),
        b.wf(),
        a.e() == b.e(),
        a.e() >= 0,
        !a.s(),
        !b.s(),
        a.m() + b.m() <= MAX_SIG,
    ensures
        match add_spec(a, b) {
            Some((m, e, s)) => sub_spec(Decimal::spec_from_parts(m as nat, e, s), b) == Some(
                (a.m() as int, a.e(), a.s()),
            ),
            None => false,
        },
{
    crate::u256::lemma_pow10_facts(38);
    let w = a.m() + b.m();
    let (m, e, s) = if w == 0 {
        (0int, 0int, false)
    } else {
        (w as int, a.e(), false)
    };
    assert(add_spec(a, b) == Some((m, e, s)));
    Decimal::lemma_spec_from_parts(m as nat, e, s);
    let r = Decimal::spec_from_parts(m as nat, e, s);
    if b.m() == 0 {
        assert(a.m() == 0 ==> a.e() == 0);
    } else {
        assert(r.e() == b.e());
        assert(r.m() >= b.m());
        assert(a.m() == 0 ==> a.e() == 0 && !a.s());
    }
}

/// `n` is the normal form of `d`: it has the value of `d`, and its scale could not move any
/// closer to zero (trailing zeros exhausted above it, 38 digits reached below it).
pub open spec fn normal_form(n: Decimal, d: Decimal) -> bool {
    &&& n.wf()
    &&& rescaled(n, d)
    &&& d.m() == 0 ==> n.has_parts(0, 0, false)
    &&& d.m() != 0 && n.e() > 0 ==> n.m() % 10 != 0
    &&& d.m() != 0 && n.e() < 0 ==> (n.m() >= pow(10, 37) || n.e() == crate::decimal::MAX_SCALE_EFFECTIVE)
}

/// A value is zero exactly where its significand is.
proof fn lemma_at_zero(d: Decimal, t: int)
    requires
        d.e() <= t,
        d.wf(),
    ensures
        (d.at(t) == 0) == (d.m() == 0),
        d.m() != 0 ==> ((d.at(t) < 0) == d.s()),
{
    lemma_pow_positive(10, (t - d.e()) as nat);
    crate::decimal::lemma_mag_sign(d.m() as int, pow(10, (t - d.e()) as nat));
}

/// Equal values have normal forms with the same parts.
pub proof fn lemma_equal_values_normal_forms(a: Decimal, b: Decimal, na: Decimal, nb: Decimal)
    requires
        a.wf(),
        b.wf(),
        a.cmp_spec(&b) == 0,
        normal_form(na, a),
        normal_form(nb, b),
    ensures
        na.m() == nb.m(),
        na.e() == nb.e(),
        na.s() == nb.s(),
{
    let t = if a.e() >= b.e() { a.e() } else { b.e() };
    lemma_at_zero(a, t);
    lemma_at_zero(b, t);
    if a.m() == 0 || b.m() == 0 {
        return;
    }
    let mut u = t;
    if na.e() > u {
        u = na.e();
    }
    if nb.e() > u {
        u = nb.e();
    }
    lemma_at_shift(a, t, u);
    lemma_at_shift(b, t, u);
    lemma_rescaled_at(na, a, u);
    lemma_rescaled_at(nb, b, u);
    assert(a.at(t) == b.at(t));
    assert(a.at(u) == b.at(u));
    lemma_at_zero(a, u);
    lemma_at_zero(na, u);
    lemma_at_zero(nb, u);
    if na.e() <= nb.e() {
        lemma_normal_forms_meet(na, nb, u);
    } else {
        lemma_normal_forms_meet(nb, na, u);
    }
}

/// Two normal forms of one non-zero value, the first at the smaller scale, coincide.
proof fn lemma_normal_forms_meet(x: Decimal, y: Decimal, u: int)
    requires
        x.wf(),
        y.wf(),
        x.m() != 0,
        y.m() != 0,
        x.e() <= y.e() <= u,
        x.at(u) == y.at(u),
        x.e() > 0 ==> x.m() % 10 != 0,
        x.e() < 0 ==> (x.m() >= pow(10, 37) || x.e() == crate::decimal::MAX_SCALE_EFFECTIVE),
        y.e() > 0 ==> y.m() % 10 != 0,
        y.e() < 0 ==> (y.m() >= pow(10, 37) || y.e() == crate::decimal::MAX_SCALE_EFFECTIVE),
    ensures
        x.m() == y.m(),
        x.e() == y.e(),
        x.s() == y.s(),
{
    lemma_at_cancel(x, y, y.e(), u);
    lemma_at_zero(x, y.e());
    lemma_at_zero(y, y.e());
    let k = (y.e() - x.e()) as nat;
    lemma_pow0(10);
    lemma_mul_basics(y.m() as int);
    assert(x.s() == y.s());
    let xm = x.m() as int * pow(10, k);
    if x.s() {
        assert(-xm == -(y.m() as int));
    }
    assert(xm == y.m());
    if k > 0 {
        lemma_pow_adds(10, 1, (k - 1) as nat);
        lemma_pow1(10);
        lemma_mul_is_associative(x.m() as int, 10, pow(10, (k - 1) as nat));
        lemma_mul_is_commutative(x.m() as int, 10);
        lemma_mul_is_associative(10, x.m() as int, pow(10, (k - 1) as nat));
        vstd::arithmetic::div_mod::lemma_mod_multiples_basic(x.m() as int * pow(10, (k - 1) as nat), 10);
        assert(y.m() % 10 == 0);
        assert(y.e() <= 0);
        assert(x.e() < 0);
        crate::u256::lemma_pow10_facts(37);
        lemma_pow_positive(10, (k - 1) as nat);
        assert(y.m() >= x.m() * 10) by (nonlinear_arith)
            requires
                y.m() == 10 * (x.m() * pow(10, (k - 1) as nat)),
                pow(10, (k - 1) as nat) >= 1,
                x.m() >= 1,
        ;
    }
}

/// The first `k` digits of `n` read back as `n` without its last `len - k` digits.
proof fn lemma_dec_digits_prefix(n: nat, k: int)
    requires
        0 <= k <= crate::decimal::ndigits(n as int),
        is_digit_count(n as int, crate::decimal::ndigits(n as int)),
    ensures
        digits_value(dec_digits(n), 0, k) == n as int / pow(10, (crate::decimal::ndigits(n as int) - k) as nat),
    decreases k,
{
    let len = crate::decimal::ndigits(n as int);
    lemma_pow_positive(10, (len - k) as nat);
    if k == 0 {
        lemma_div_below(n as int, pow(10, len as nat), 1);
    } else {
        lemma_dec_digits_prefix(n, k - 1);
        let p = pow(10, (len - k) as nat);
        lemma_pow_positive(10, (len - k) as nat);
        lemma_pow_adds(10, (len - k) as nat, 1);
        lemma_pow1(10);
        lemma_mul_is_commutative(p, 10);
        lemma_div_denominator(n as int, p, 10);
        let y = n as int / p;
        lemma_fundamental_div_mod(y, 10);
        assert(dec_digits(n)[k - 1] == (48 + y % 10) as u8);
    }
}

proof fn lemma_div_below(x: int, c: int, a: int)
    requires
        0 <= x < c * a,
        c > 0,
        a == 1,
    ensures
        x / c == 0,
{
    lemma_basic_div(x, c);
}

/// The digits of `n` read back as `n`.
pub proof fn lemma_dec_digits_value(n: nat)
    requires
        n < pow(10, 38),
    ensures
        digits_value(dec_digits(n), 0, dec_digits(n).len() as int) == n,
        dec_digits(n).len() >= 1,
        forall|i: int| 0 <= i < dec_digits(n).len() ==> is_digit(#[trigger] dec_digits(n)[i]),
        n > 0 ==> dec_digits(n)[0] != 48,
        is_digit_count(n as int, dec_digits(n).len() as int),
{
    let len = crate::decimal::ndigits(n as int);
    crate::u256::lemma_pow10_facts(38);
    assert(exists|k: int| is_digit_count(n as int, k)) by {
        lemma_digit_count_exists(n, 38);
    }
    assert(is_digit_count(n as int, len));
    lemma_dec_digits_prefix(n, len);
    lemma_pow0(10);
    assert forall|i: int| 0 <= i < dec_digits(n).len() implies is_digit(#[trigger] dec_digits(n)[i]) by {
        lemma_pow_positive(10, (len - 1 - i) as nat);
        lemma_mod_bound(n as int / pow(10, (len - 1 - i) as nat), 10);
        lemma_div_pos_is_pos(n as int, pow(10, (len - 1 - i) as nat));
    }
    lemma_pow1(10);
    if n > 0 && len > 1 {
        lemma_pow_positive(10, (len - 1) as nat);
        lemma_pow_adds(10, (len - 1) as nat, 1);
        lemma_div_below_ten(n as int, pow(10, (len - 1) as nat));
    } else if n > 0 {
        lemma_pow0(10);
        lemma_small_mod(n, 10);
    }
}

/// The leading digit of a number of `len` digits is not zero.
proof fn lemma_div_below_ten(n: int, p: int)
    requires
        p <= n < 10 * p,
        p > 0,
    ensures
        1 <= n / p < 10,
        (n / p) % 10 == n / p,
{
    lemma_fundamental_div_mod(n, p);
    lemma_mod_bound(n, p);
    if n / p >= 10 {
        assert(p * (n / p) >= p * 10) by (nonlinear_arith)
            requires
                n / p >= 10,
                p > 0,
        ;
    }
    if n / p < 1 {
        assert(p * (n / p) <= 0) by (nonlinear_arith)
            requires
                n / p < 1,
                p > 0,
                n / p >= 0 || n / p < 0,
        ;
    }
    lemma_small_mod((n / p) as nat, 10);
}

/// Every number below `10^bound` has a digit count.
proof fn lemma_digit_count_exists(n: nat, bound: nat)
    requires
        n < pow(10, bound),
    ensures
        exists|k: int| is_digit_count(n as int, k),
    decreases bound,
{
    if bound == 0 || n < pow(10, (bound - 1) as nat) && bound > 1 {
        if bound == 0 {
            lemma_pow0(10);
            assert(is_digit_count(n as int, 1)) by {
                lemma_pow1(10);
            }
        } else {
            lemma_digit_count_exists(n, (bound - 1) as nat);
        }
    } else if bound == 1 {
        lemma_pow1(10);
        assert(is_digit_count(n as int, 1));
    } else {
        assert(is_digit_count(n as int, bound as int));
    }
}

/// A tail of digits runs to the end.
proof fn lemma_run_end_all_digits(s: Seq<u8>, i: int)
    requires
        0 <= i <= s.len(),
        forall|k: int| i <= k < s.len() ==> is_digit(#[trigger] s[k]),
    ensures
        run_end(s, i) == s.len(),
    decreases s.len() - i,
{
    if i < s.len() {
        lemma_run_end_all_digits(s, i + 1);
    }
}

/// Digits read the same after a prefix.
proof fn lemma_digits_value_shift(a: Seq<u8>, b: Seq<u8>, k: int)
    requires
        0 <= k <= b.len(),
    ensures
        digits_value(a + b, a.len() as int, a.len() + k) == digits_value(b, 0, k),
    decreases k,
{
    if k > 0 {
        lemma_digits_value_shift(a, b, k - 1);
        assert((a + b)[a.len() + k - 1] == b[k - 1]);
    }
}

/// The plain text of an integral value (scale zero) parses back to its parts.
pub proof fn lemma_display_parse_integral(d: Decimal)
    requires
        d.wf(),
        d.e() == 0,
    ensures
        plain_parts(plain_text(d, true, false, false, None), 0) == Some((d.m() as int, d.e(), d.s())),
{
    let t = plain_text(d, true, false, false, None);
    crate::u256::lemma_pow10_facts(38);
    lemma_pow0(10);
    if d.m() == 0 {
        assert(t =~= seq![48u8]);
        assert(run_end(t, 1) == 1);
        assert(run_end(t, 0) == 1);
        assert(digits_value(t, 0, 1) == 0) by {
            assert(digits_value(t, 0, 0) == 0);
        }
        assert(digits_value(t, 1, 1) == 0);
        lemma_mul_basics(pow(10, 0));
    } else {
        let n = d.m();
        let ds = dec_digits(n);
        lemma_dec_digits_value(n);
        let head = if d.s() { seq![45u8] } else { Seq::<u8>::empty() };
        assert(body_text((n as int, 0, d.s()), false, false, None) =~= ds + zeros(0) + Seq::<u8>::empty());
        assert(t =~= head + ds);
        let j = head.len() as int;
        assert(sign_len(t, 0) == j);
        lemma_run_end_all_digits(t, j);
        assert(lead_zeros_end(t, j, t.len() as int) == j);
        assert(plain_int(t, 0) == (j, t.len() as int));
        assert(plain_frac(t, 0) == (t.len() as int, t.len() as int));
        if ds.len() > 38 {
            lemma_pow_increases(10, 38, (ds.len() - 1) as nat);
        }
        lemma_digits_value_shift(head, ds, ds.len() as int);
        assert(digits_value(t, t.len() as int, t.len() as int) == 0);
        lemma_mul_basics(digits_value(t, j, t.len() as int) as int);
        assert(plain_shape(t, 0));
    }
}

/// Digits read from a subrange read the same in place.
proof fn lemma_digits_value_subrange(s: Seq<u8>, a: int, b: int, k: int)
    requires
        0 <= a <= b <= s.len(),
        0 <= k <= b - a,
    ensures
        digits_value(s.subrange(a, b), 0, k) == digits_value(s, a, a + k),
    decreases k,
{
    if k > 0 {
        lemma_digits_value_subrange(s, a, b, k - 1);
    }
}

/// The value of `s[i..i + a + b]` splits into its first `a` digits and its last `b`.
proof fn lemma_digits_value_split(s: Seq<u8>, i: int, a: int, b: int)
    requires
        0 <= i,
        0 <= a,
        0 <= b,
        i + a + b <= s.len(),
    ensures
        digits_value(s, i, i + a + b) == digits_value(s, i, i + a) * pow(10, b as nat) + digits_value(s, i + a, i + a + b),
    decreases b,
{
    if b == 0 {
        lemma_pow0(10);
        lemma_mul_basics(digits_value(s, i, i + a) as int);
    } else {
        lemma_digits_value_split(s, i, a, b - 1);
        lemma_pow_adds(10, (b - 1) as nat, 1);
        lemma_pow1(10);
        let x = digits_value(s, i, i + a) as int;
        let p = pow(10, (b - 1) as nat);
        let y = digits_value(s, i + a, i + a + b - 1) as int;
        lemma_mul_is_associative(x, p, 10);
        lemma_mul_is_distributive_add_other_way(10, x * p, y);
    }
}

/// Digits then a non-digit: the run ends there.
proof fn lemma_run_end_stops(s: Seq<u8>, i: int, e: int)
    requires
        0 <= i <= e < s.len(),
        forall|k: int| i <= k < e ==> is_digit(#[trigger] s[k]),
        !is_digit(s[e]),
    ensures
        run_end(s, i) == e,
    decreases e - i,
{
    if i < e {
        lemma_run_end_stops(s, i + 1, e);
    }
}

/// The plain text of a value with integral digits and no trailing fractional zero parses
/// back to its parts.
#[verifier::rlimit(80)]
pub proof fn lemma_display_parse_fraction(d: Decimal)
    requires
        d.wf(),
        d.e() > 0,
        crate::decimal::ndigits(d.m() as int) > d.e(),
        d.m() % 10 != 0,
    ensures
        plain_parts(plain_text(d, true, false, false, None), 0) == Some((d.m() as int, d.e(), d.s())),
{
    crate::u256::lemma_pow10_facts(38);
    let n = d.m();
    let ds = dec_digits(n);
    lemma_dec_digits_value(n);
    let len = ds.len() as int;
    let e = d.e();
    let int_part = ds.subrange(0, len - e);
    let frac = ds.subrange(len - e, len);
    lemma_pow0(10);
    lemma_div_basics(n as int);
    assert(frac.last() == ds[len - 1]);
    assert(ds[len - 1] == (48 + n as int % 10) as u8);
    assert(frac.drop_last().len() == e - 1);
    assert(crate::format::trailing_zeros(frac) == 0);
    assert(crate::format::trim_zeros(frac) =~= frac);
    let head = if d.s() { seq![45u8] } else { Seq::<u8>::empty() };
    let t = plain_text(d, true, false, false, None);
    assert(t =~= head + int_part + seq![46u8] + frac);
    let j = head.len() as int;
    let ie = j + (len - e);
    assert(sign_len(t, 0) == j);
    assert forall|k: int| j <= k < ie implies is_digit(#[trigger] t[k]) by {
        assert(t[k] == ds[k - j]);
    }
    lemma_run_end_stops(t, j, ie);
    assert forall|k: int| ie + 1 <= k < t.len() implies is_digit(#[trigger] t[k]) by {
        assert(t[k] == ds[k - j - 1]);
    }
    lemma_run_end_all_digits(t, ie + 1);
    assert(t[j] == ds[0]);
    assert(lead_zeros_end(t, j, ie) == j);
    assert(t[t.len() - 1] == ds[len - 1]);
    assert(crate::parse::trail_zeros_start(t, ie + 1, t.len() as int) == t.len());
    assert(plain_shape(t, 0));
    assert(plain_int(t, 0) == (j, ie));
    assert(plain_frac(t, 0) == (ie + 1, t.len() as int));
    if len > 38 {
        lemma_pow_increases(10, 38, (len - 1) as nat);
    }
    let pre = head + int_part + seq![46u8];
    assert(t =~= (head + int_part) + (seq![46u8] + frac));
    assert(t =~= head + (int_part + (seq![46u8] + frac)));
    lemma_digits_value_shift(head, int_part + (seq![46u8] + frac), len - e);
    lemma_digits_value_subrange(int_part + (seq![46u8] + frac), 0, len - e, len - e);
    assert((int_part + (seq![46u8] + frac)).subrange(0, len - e) =~= int_part);
    lemma_digits_value_subrange(ds, 0, len - e, len - e);
    assert(t =~= pre + frac);
    lemma_digits_value_shift(pre, frac, e);
    lemma_digits_value_subrange(ds, len - e, len, e);
    lemma_digits_value_split(ds, 0, len - e, e);
}

/// The plain text of a value below one, with at most 37 fractional digits and no trailing
/// zero, parses back to its parts.
#[verifier::rlimit(80)]
pub proof fn lemma_display_parse_below_one(d: Decimal)
    requires
        d.wf(),
        0 < d.e() <= 37,
        crate::decimal::ndigits(d.m() as int) <= d.e(),
        d.m() % 10 != 0,
    ensures
        plain_parts(plain_text(d, true, false, false, None), 0) == Some((d.m() as int, d.e(), d.s())),
{
    crate::u256::lemma_pow10_facts(38);
    let n = d.m();
    let ds = dec_digits(n);
    lemma_dec_digits_value(n);
    let len = ds.len() as int;
    let e = d.e();
    let head = if d.s() { seq![45u8] } else { Seq::<u8>::empty() };
    let t = plain_text(d, true, false, false, None);
    let frac = zeros((e - len) as nat) + ds;
    assert(t =~= head + seq![48u8, 46u8] + frac);
    let j = head.len() as int;
    assert(sign_len(t, 0) == j);
    lemma_run_end_stops(t, j, j + 1);
    assert forall|k: int| j + 2 <= k < t.len() implies is_digit(#[trigger] t[k]) by {
        if k < j + 2 + (e - len) {
            assert(t[k] == 48);
        } else {
            assert(t[k] == ds[k - j - 2 - (e - len)]);
        }
    }
    lemma_run_end_all_digits(t, j + 2);
    lemma_pow0(10);
    lemma_div_basics(n as int);
    assert(ds[len - 1] == (48 + n as int % 10) as u8);
    assert(t[t.len() - 1] == ds[len - 1]);
    assert(crate::parse::trail_zeros_start(t, j + 2, t.len() as int) == t.len());
    assert(plain_shape(t, 0));
    assert(plain_int(t, 0) == (j, j + 1));
    assert(plain_frac(t, 0) == (j + 2, t.len() as int));
    assert(digits_value(t, j, j + 1) == 0) by {
        assert(digits_value(t, j, j) == 0);
    }
    lemma_mul_basics(pow(10, e as nat));
    let pre = head + seq![48u8, 46u8];
    assert(t =~= pre + frac);
    lemma_digits_value_shift(pre, frac, e);
    crate::parse::lemma_leading_zeros_value(frac, 0, e - len, e);
    assert(frac =~= zeros((e - len) as nat) + ds);
    assert(zeros((e - len) as nat) + ds =~= zeros((e - len) as nat) + ds);
    lemma_digits_value_shift(zeros((e - len) as nat), ds, len);
}

/// A digit count exists below `10^bound`, and `ndigits` is it.
proof fn lemma_ndigits(x: nat, bound: nat)
    requires
        x < pow(10, bound),
    ensures
        is_digit_count(x as int, crate::decimal::ndigits(x as int)),
{
    lemma_digit_count_exists(x, bound);
}

/// Shifting a non-zero number by `j` places adds `j` digits.
proof fn lemma_digits_scaled(m: int, k: int, j: nat)
    requires
        is_digit_count(m, k),
        m >= 1,
    ensures
        is_digit_count(m * pow(10, j), k + j),
{
    lemma_pow_adds(10, k as nat, j);
    lemma_pow_positive(10, j);
    assert(m * pow(10, j) < pow(10, k as nat) * pow(10, j)) by (nonlinear_arith)
        requires
            m < pow(10, k as nat),
            pow(10, j) > 0,
    ;
    if k + j > 1 {
        if k > 1 {
            lemma_pow_adds(10, (k - 1) as nat, j);
            assert(m * pow(10, j) >= pow(10, (k - 1) as nat) * pow(10, j)) by (nonlinear_arith)
                requires
                    m >= pow(10, (k - 1) as nat),
                    pow(10, j) > 0,
            ;
        } else {
            assert(m * pow(10, j) >= pow(10, j)) by (nonlinear_arith)
                requires
                    m >= 1,
                    pow(10, j) > 0,
            ;
        }
    }
}

/// A larger number has at least as many digits.
proof fn lemma_digits_monotone(x: int, kx: int, y: int, ky: int)
    requires
        is_digit_count(x, kx),
        is_digit_count(y, ky),
        x <= y,
    ensures
        kx <= ky,
{
    if kx > ky {
        lemma_pow_increases(10, ky as nat, (kx - 1) as nat);
    }
}

/// Where `a * b` is exact (its significand within 38 digits, its scale in range) and dividing
/// it back stays in range, `(a * b) / b` equals `a`.
#[verifier::rlimit(80)]
pub proof fn lemma_mul_div_inverse(a: Decimal, b: Decimal)
    requires
        a.wf(),
        b.wf(),
        a.m() != 0,
        b.m() != 0,
        crate::decimal::ndigits(a.m() as int * b.m() as int) <= 38,
        crate::decimal::MIN_SCALE <= a.e() + b.e() - crate::decimal::ndigits(a.m() as int * b.m() as int)
            < crate::decimal::MAX_SCALE,
        crate::decimal::MIN_SCALE <= a.e() - crate::decimal::ndigits(a.m() as int)
            < crate::decimal::MAX_SCALE,
    ensures
        match mul_spec(a, b) {
            Some((m, e, s)) => match div_spec(Decimal::spec_from_parts(m as nat, e, s), b) {
                Some((q, f, t)) => Decimal::spec_from_parts(q as nat, f, t).cmp_spec(&a) == 0,
                None => false,
            },
            None => false,
        },
{
    crate::u256::lemma_pow10_facts(38);
    crate::u256::lemma_pow10_facts(76);
    let m1 = a.m() as int;
    let m2 = b.m() as int;
    let p = m1 * m2;
    crate::decimal::lemma_mul_pow_below(m1, 38, m2, 38);
    lemma_pow_increases(10, 76, 77);
    lemma_ndigits(p as nat, 76);
    lemma_ndigits(m1 as nat, 38);
    lemma_ndigits(m2 as nat, 38);
    let dp = crate::decimal::ndigits(p);
    let k1 = crate::decimal::ndigits(m1);
    let e = a.e() + b.e();
    let s = a.s() != b.s();
    assert(p >= 1) by (nonlinear_arith)
        requires
            m1 >= 1,
            m2 >= 1,
            p == m1 * m2,
    ;
    if k1 > 38 {
        lemma_pow_increases(10, 38, (k1 - 1) as nat);
    }
    assert(mul_spec(a, b) == Some((p, e, s)));
    lemma_pow_increases(10, dp as nat, 38);
    assert(p <= crate::decimal::MAX_SIG);
    Decimal::lemma_spec_from_parts(p as nat, e, s);
    let c = Decimal::spec_from_parts(p as nat, e, s);
    // The divisor has no more digits than the product: no shift.
    assert(m2 <= p) by (nonlinear_arith)
        requires
            m1 >= 1,
            m2 >= 1,
            p == m1 * m2,
    ;
    lemma_digits_monotone(m2, crate::decimal::ndigits(m2), p, dp);
    assert(crate::decimal::div_shift(c, b) == 0);
    // The widened dividend divides exactly.
    let w = m1 * pow(10, 38);
    let n = p * pow(10, 38);
    assert(n == m2 * w) by (nonlinear_arith)
        requires
            n == p * pow(10, 38),
            p == m1 * m2,
            w == m1 * pow(10, 38),
    ;
    lemma_fundamental_div_mod_converse(n, m2, w, 0);
    assert(div_round(n, m2) == w);
    // Back into 38 digits: drop the `k1` digits past them.
    lemma_digits_scaled(m1, k1, 38);
    lemma_pow_adds(10, k1 as nat, 38);
    lemma_pow_increases(10, (k1 + 38) as nat, 77);
    lemma_ndigits(w as nat, 77);
    crate::decimal::lemma_digit_count_unique(w, k1 + 38);
    let pk = pow(10, k1 as nat);
    lemma_pow_positive(10, k1 as nat);
    lemma_pow_adds(10, (38 - k1) as nat, k1 as nat);
    let q = m1 * pow(10, (38 - k1) as nat);
    lemma_mul_is_associative(m1, pow(10, (38 - k1) as nat), pk);
    assert(w == q * pk);
    assert(pk / 2 < pk);
    lemma_fundamental_div_mod_converse(w + pk / 2, pk, q, pk / 2);
    assert((w + pk / 2) / pk == q);
    lemma_pow_increases(10, k1 as nat, 38);
    lemma_pow_positive(10, (38 - k1) as nat);
    lemma_mul_is_commutative(pk, pow(10, (38 - k1) as nat));
    assert(q < pow(10, 38)) by (nonlinear_arith)
        requires
            m1 < pk,
            q == m1 * pow(10, (38 - k1) as nat),
            pk * pow(10, (38 - k1) as nat) == pow(10, 38),
            pow(10, (38 - k1) as nat) > 0,
    ;
    let f = a.e() + 38 - k1;
    assert(div_spec(c, b) == Some((q, f, a.s())));
    Decimal::lemma_spec_from_parts(q as nat, f, a.s());
    let r = Decimal::spec_from_parts(q as nat, f, a.s());
    lemma_pow0(10);
    lemma_mul_basics(q);
    assert(r.at(f) == a.at(f));
}
} // verus!
