//! Parsing decimals from text.
use crate::decimal::{Decimal, MAX_SCALE, MAX_SCALE_EFFECTIVE, MAX_SIG, MIN_SCALE};
use crate::error::DecimalParseError;
use crate::u256::pow10_u128;
use vstd::arithmetic::power::*;
use vstd::prelude::*;
use vstd::string::StringSliceAdditionalSpecFns;

verus! {

/// An ASCII decimal digit.
pub open spec fn is_digit(b: u8) -> bool {
    48 <= b <= 57
}

/// ASCII whitespace: space, tab, line feed, form feed, carriage return.
pub open spec fn is_space(b: u8) -> bool {
    b == 32 || b == 9 || b == 10 || b == 12 || b == 13
}

/// The value of the digits `s[i..j]`.
pub open spec fn digits_value(s: Seq<u8>, i: int, j: int) -> nat
    decreases j - i,
{
    if j <= i {
        0
    } else {
        digits_value(s, i, j - 1) * 10 + (s[j - 1] - 48) as nat
    }
}

/// The digits `s[i..j]` that follow `i` up to the first non-digit.
pub open spec fn digit_run(s: Seq<u8>, i: int, j: int) -> bool {
    &&& 0 <= i <= j <= s.len()
    &&& forall|k: int| i <= k < j ==> is_digit(#[trigger] s[k])
    &&& j == s.len() || !is_digit(s[j])
}

/// The end of the digits that start at `i`.
pub open spec fn run_end(s: Seq<u8>, i: int) -> int
    decreases s.len() - i,
{
    if 0 <= i < s.len() && is_digit(s[i]) {
        run_end(s, i + 1)
    } else {
        i
    }
}

/// Where the digits `s[i..end]` start once their leading zeros are dropped, keeping one digit.
pub open spec fn lead_zeros_end(s: Seq<u8>, i: int, end: int) -> int
    decreases end - i,
{
    if i + 1 < end && s[i] == 48 {
        lead_zeros_end(s, i + 1, end)
    } else {
        i
    }
}

/// Where the digits `s[a..b]` end once their trailing zeros are dropped.
pub open spec fn trail_zeros_start(s: Seq<u8>, a: int, b: int) -> int
    decreases b - a,
{
    if b > a && s[b - 1] == 48 {
        trail_zeros_start(s, a, b - 1)
    } else {
        b
    }
}

/// The length of an optional sign at `i`.
pub open spec fn sign_len(s: Seq<u8>, i: int) -> int {
    if 0 <= i < s.len() && (s[i] == 43 || s[i] == 45) {
        1
    } else {
        0
    }
}

/// `s[i..]` is plain decimal text: `[sign]digits[.digits]`, with at least one digit and nothing
/// after it.
pub open spec fn plain_shape(s: Seq<u8>, i: int) -> bool {
    let j = i + sign_len(s, i);
    let ie = run_end(s, j);
    &&& 0 <= i <= s.len()
    &&& ((ie == s.len() && ie > j) || (ie < s.len() && s[ie] == 46 && run_end(s, ie + 1) == s.len()
        && (ie > j || s.len() > ie + 1)))
}

/// The integral digits of plain text at `i`, leading zeros dropped (one kept).
pub open spec fn plain_int(s: Seq<u8>, i: int) -> (int, int) {
    let j = i + sign_len(s, i);
    let ie = run_end(s, j);
    (lead_zeros_end(s, j, ie), ie)
}

/// The fractional digits of plain text at `i`, trailing zeros dropped.
pub open spec fn plain_frac(s: Seq<u8>, i: int) -> (int, int) {
    let ie = run_end(s, i + sign_len(s, i));
    if ie < s.len() {
        (ie + 1, trail_zeros_start(s, ie + 1, s.len() as int))
    } else {
        (ie, ie)
    }
}

/// The parts that plain text at `i` stands for, where its significant digits fit in 38: the
/// integral and fractional digits make the significand, the fractional ones the scale.
pub open spec fn plain_parts(s: Seq<u8>, i: int) -> Option<(int, int, bool)> {
    let (is, ie) = plain_int(s, i);
    let (fs, fe) = plain_frac(s, i);
    if plain_shape(s, i) && (ie - is) + (fe - fs) <= 38 {
        let m = digits_value(s, is, ie) * pow(10, (fe - fs) as nat) + digits_value(s, fs, fe);
        let neg = sign_len(s, i) == 1 && s[i] == 45;
        if m == 0 {
            Some((0, 0, false))
        } else {
            Some((m as int, fe - fs, neg))
        }
    } else {
        None
    }
}

/// The end of the whitespace that starts at `i`.
pub open spec fn space_end(s: Seq<u8>, i: int) -> int
    decreases s.len() - i,
{
    if 0 <= i < s.len() && is_space(s[i]) {
        space_end(s, i + 1)
    } else {
        i
    }
}

/// `NaN`, in any case, stands at `i`.
pub open spec fn nan_at(s: Seq<u8>, i: int) -> bool {
    0 <= i && i + 3 <= s.len() && lower(s[i]) == 110 && lower(s[i + 1]) == 97 && lower(s[i + 2]) == 110
}

/// Whitespace up to a non-space ends where `space_end` says.
proof fn lemma_space_end(s: Seq<u8>, i: int, j: int)
    requires
        0 <= i <= j <= s.len(),
        forall|k: int| i <= k < j ==> is_space(#[trigger] s[k]),
        j == s.len() || !is_space(s[j]),
    ensures
        space_end(s, i) == j,
    decreases j - i,
{
    if i < j {
        lemma_space_end(s, i + 1, j);
    }
}

/// Where the digits `s[i..end]` start once all their leading zeros are dropped.
pub open spec fn zero_run_end(s: Seq<u8>, i: int, end: int) -> int
    decreases end - i,
{
    if i < end && s[i] == 48 {
        zero_run_end(s, i + 1, end)
    } else {
        i
    }
}

/// The exponent `[sign]digits` at `i`: its value and where it ends; `Invalid` without digits,
/// and past three significant digits `Overflow` (or `Underflow` when negative).
pub open spec fn exp_parse(s: Seq<u8>, i: int) -> Result<(int, int), DecimalParseError> {
    let j = i + sign_len(s, i);
    let neg = sign_len(s, i) == 1 && s[i] == 45;
    let ee = run_end(s, j);
    if ee == j {
        Err(DecimalParseError::Invalid)
    } else {
        let z = zero_run_end(s, j, ee);
        if ee - z > 3 {
            Err(if neg { DecimalParseError::Underflow } else { DecimalParseError::Overflow })
        } else {
            let v = digits_value(s, z, ee) as int;
            Ok((if neg { -v } else { v }, ee))
        }
    }
}

/// `s[i..]` starts `[sign]digits` followed by `e` or `E`, with at most 38 significant digits.
pub open spec fn exp_head(s: Seq<u8>, i: int) -> bool {
    let j = i + sign_len(s, i);
    let ie = run_end(s, j);
    &&& 0 <= i <= s.len()
    &&& ie > j
    &&& ie < s.len()
    &&& (s[ie] == 101 || s[ie] == 69)
    &&& ie - lead_zeros_end(s, j, ie) <= 38
}

/// The exponent that text of the shape `exp_head` at `i` has once its mantissa is written
/// `0.d1d2...`: the exponent plus the integral digits (a lone zero counts none).
pub open spec fn exp_head_normalized(s: Seq<u8>, i: int, exp: int) -> int {
    let j = i + sign_len(s, i);
    let ie = run_end(s, j);
    let is = lead_zeros_end(s, j, ie);
    if ie - is == 1 && s[is] == 48 {
        exp
    } else {
        exp + (ie - is)
    }
}

/// Integral plain text at `i` with more than 38 digits: its first 38 digits, rounded half up
/// by the 39th; a carry into a 39th digit drops one more. Its normalized exponent is the digit
/// count (plus one after such a carry).
pub open spec fn long_integer(s: Seq<u8>, i: int) -> Option<(int, int, int)> {
    let (is, ie) = plain_int(s, i);
    if plain_shape(s, i) && ie == s.len() && ie - is > 38 {
        let len = ie - is;
        let v = digits_value(s, is, is + 38) + (if s[is + 38] > 52 { 1int } else { 0int });
        if v > MAX_SIG {
            Some((v / 10, 37 - len, len + 1))
        } else {
            Some((v, 38 - len, len))
        }
    } else {
        None
    }
}

/// Plain text at `i` below one (integral part `0`) with more than 38 significant fractional
/// digits: those 38 digits rounded half up by the next one (a carry into a 39th digit drops one
/// more), at the scale that keeps the leading zeros; and the normalized exponent, minus the
/// count of leading fractional zeros (plus one after such a carry).
pub open spec fn long_fraction(s: Seq<u8>, i: int) -> Option<(int, int, int)> {
    let (is, ie) = plain_int(s, i);
    let (fs, fe) = plain_frac(s, i);
    let z = zero_run_end(s, fs, fe);
    if plain_shape(s, i) && ie - is == 1 && s[is] == 48 && fe - z > 38 {
        let zc = z - fs;
        let v = digits_value(s, z, z + 38) + (if s[z + 38] > 52 { 1int } else { 0int });
        if v > MAX_SIG {
            Some((v / 10, zc + 37, 1 - zc))
        } else {
            Some((v, zc + 38, -zc))
        }
    } else {
        None
    }
}

/// A run of digits ends where `run_end` says.
proof fn lemma_digit_run_end(s: Seq<u8>, i: int, j: int)
    requires
        digit_run(s, i, j),
    ensures
        run_end(s, i) == j,
    decreases j - i,
{
    if i < j {
        lemma_digit_run_end(s, i + 1, j);
    }
}

/// Leading zero digits add nothing to a value.
pub proof fn lemma_leading_zeros_value(s: Seq<u8>, a: int, z: int, b: int)
    requires
        a <= z <= b,
        forall|k: int| a <= k < z ==> s[k] == 48,
    ensures
        digits_value(s, a, b) == digits_value(s, z, b),
    decreases b - a,
{
    if b > z {
        lemma_leading_zeros_value(s, a, z, b - 1);
    } else if b > a {
        lemma_leading_zeros_value(s, a, z - 1, b - 1);
        assert(digits_value(s, z - 1, b - 1) == 0);
    }
}

/// The parts of a decimal string: its sign, where its integral and fractional digits lie, and
/// its exponent.
struct Parts {
    negative: bool,
    int_start: usize,
    int_end: usize,
    frac_start: usize,
    frac_end: usize,
    exp: i16,
}

fn digit_at(s: &[u8], i: usize) -> (r: bool)
    requires
        i < s@.len(),
    ensures
        r == is_digit(s@[i as int]),
{
    s[i] >= 48 && s[i] <= 57
}

/// Reads an optional sign at `i`: whether it is `-`, and where the rest starts.
fn extract_sign(s: &[u8], i: usize) -> (r: (bool, usize))
    requires
        i <= s@.len(),
    ensures
        i < s@.len() && s@[i as int] == 45 ==> r == (true, (i + 1) as usize),
        i < s@.len() && s@[i as int] == 43 ==> r == (false, (i + 1) as usize),
        !(i < s@.len() && (s@[i as int] == 45 || s@[i as int] == 43)) ==> r == (false, i),
        i <= r.1 <= s@.len(),
        r.1 == i + sign_len(s@, i as int),
        r.0 == (sign_len(s@, i as int) == 1 && s@[i as int] == 45),
{
    if i < s.len() && s[i] == 43 {
        (false, i + 1)
    } else if i < s.len() && s[i] == 45 {
        (true, i + 1)
    } else {
        (false, i)
    }
}

/// The end of the digits that start at `i`.
fn eat_digits(s: &[u8], i: usize) -> (r: usize)
    requires
        i <= s@.len(),
    ensures
        digit_run(s@, i as int, r as int),
        r == run_end(s@, i as int),
{
    let mut j = i;
    while j < s.len() && digit_at(s, j)
        invariant
            i <= j <= s@.len(),
            forall|k: int| i <= k < j ==> is_digit(#[trigger] s@[k]),
        decreases s@.len() - j,
    {
        j = j + 1;
    }
    proof {
        lemma_digit_run_end(s@, i as int, j as int);
    }
    j
}

/// The end of the whitespace that starts at `i`.
fn eat_whitespaces(s: &[u8], i: usize) -> (r: usize)
    requires
        i <= s@.len(),
    ensures
        i <= r <= s@.len(),
        forall|k: int| i <= k < r ==> is_space(#[trigger] s@[k]),
        r == s@.len() || !is_space(s@[r as int]),
{
    let mut j = i;
    while j < s.len() && (s[j] == 32 || s[j] == 9 || s[j] == 10 || s[j] == 12 || s[j] == 13)
        invariant
            i <= j <= s@.len(),
            forall|k: int| i <= k < j ==> is_space(#[trigger] s@[k]),
        decreases s@.len() - j,
    {
        j = j + 1;
    }
    j
}

/// Lower-cases an ASCII letter.
pub open spec fn lower(b: u8) -> u8 {
    if 65 <= b <= 90 {
        (b + 32) as u8
    } else {
        b
    }
}

/// Whether `NaN`, in any case, stands at `i`; and where the rest starts.
fn extract_nan(s: &[u8], i: usize) -> (r: (bool, usize))
    requires
        i <= s@.len(),
    ensures
        r.0 == (i + 3 <= s@.len() && lower(s@[i as int]) == 110 && lower(s@[i + 1]) == 97
            && lower(s@[i + 2]) == 110),
        r.1 == if r.0 {
            i + 3
        } else {
            i as int
        },
{
    if s.len() - i < 3 {
        return (false, i);
    }
    let a = s[i];
    let b = s[i + 1];
    let c = s[i + 2];
    let a = if a >= 65 && a <= 90 { a + 32 } else { a };
    let b = if b >= 65 && b <= 90 { b + 32 } else { b };
    let c = if c >= 65 && c <= 90 { c + 32 } else { c };
    if a == 110 && b == 97 && c == 110 {
        (true, i + 3)
    } else {
        (false, i)
    }
}

/// Reads an exponent (`[sign]digits`) at `i`: its value, and where the rest starts.
fn extract_exponent(s: &[u8], i: usize) -> (r: Result<(i16, usize), DecimalParseError>)
    requires
        i <= s@.len(),
    ensures
        r is Ok ==> -999 <= r->Ok_0.0 <= 999 && i < r->Ok_0.1 <= s@.len(),
        r is Err ==> r->Err_0 != DecimalParseError::Empty,
        match exp_parse(s@, i as int) {
            Ok((v, e)) => r is Ok && r->Ok_0.0 == v && r->Ok_0.1 == e,
            Err(err) => r == Err::<(i16, usize), DecimalParseError>(err),
        },
{
    let i0 = i;
    let (negative, i) = extract_sign(s, i);
    let end = eat_digits(s, i);
    if end == i {
        return Err(DecimalParseError::Invalid);
    }
    let mut start = i;
    while start < end && s[start] == 48
        invariant
            i <= start <= end,
            digit_run(s@, i as int, end as int),
            zero_run_end(s@, i as int, end as int) == zero_run_end(s@, start as int, end as int),
        decreases end - start,
    {
        start = start + 1;
    }
    if end - start > 3 {
        return if negative {
            Err(DecimalParseError::Underflow)
        } else {
            Err(DecimalParseError::Overflow)
        };
    }
    let mut result: i16 = 0;
    let mut k = start;
    proof {
        lemma_pow0(10);
    }
    while k < end
        invariant
            start <= k <= end,
            end - start <= 3,
            digit_run(s@, i as int, end as int),
            i <= start,
            0 <= result < pow(10, (k - start) as nat),
            result == digits_value(s@, start as int, k as int),
        decreases end - k,
    {
        proof {
            lemma_pow_adds(10, (k - start) as nat, 1);
            lemma_pow1(10);
            lemma_pow_increases(10, (k - start + 1) as nat, 3);
            reveal_with_fuel(pow, 4);
            assert(is_digit(s@[k as int]));
        }
        result = result * 10 + (s[k] - 48) as i16;
        k = k + 1;
    }
    proof {
        lemma_pow_increases(10, (k - start) as nat, 3);
        assert(pow(10, 3) == 1000) by {
            reveal_with_fuel(pow, 4);
        }
        assert(i0 <= i);
    }
    if negative {
        Ok((-result, end))
    } else {
        Ok((result, end))
    }
}

/// Locates the integral digits, fractional digits and exponent of the number at `i`.
fn parse_decimal(s: &[u8], i: usize) -> (r: Result<(Parts, usize), DecimalParseError>)
    requires
        i <= s@.len(),
    ensures
        r is Ok ==> {
            let p = r->Ok_0.0;
            &&& i <= p.int_start <= p.int_end <= s@.len()
            &&& p.frac_start <= p.frac_end <= s@.len()
            &&& forall|k: int| p.int_start <= k < p.int_end ==> is_digit(#[trigger] s@[k])
            &&& forall|k: int| p.frac_start <= k < p.frac_end ==> is_digit(#[trigger] s@[k])
            &&& -999 <= p.exp <= 999
            &&& (p.int_end - p.int_start > 1 ==> s@[p.int_start as int] != 48)
            &&& i <= r->Ok_0.1 <= s@.len()
        },
        r is Err ==> r->Err_0 != DecimalParseError::Empty,
        plain_shape(s@, i as int) ==> r is Ok && {
            let p = r->Ok_0.0;
            &&& p.negative == (sign_len(s@, i as int) == 1 && s@[i as int] == 45)
            &&& (p.int_start as int, p.int_end as int) == plain_int(s@, i as int)
            &&& (p.frac_start as int, p.frac_end as int) == plain_frac(s@, i as int)
            &&& p.exp == 0
            &&& r->Ok_0.1 == s@.len()
        },
        exp_head(s@, i as int) ==> match exp_parse(s@, plain_int(s@, i as int).1 + 1) {
            Err(err) => r is Err && r->Err_0 == err,
            Ok((v, ee)) => r is Ok && {
                let p = r->Ok_0.0;
                &&& p.negative == (sign_len(s@, i as int) == 1 && s@[i as int] == 45)
                &&& (p.int_start as int, p.int_end as int) == plain_int(s@, i as int)
                &&& p.frac_start == ee && p.frac_end == ee
                &&& p.exp == v
                &&& r->Ok_0.1 == ee
            },
        },
{
    let (negative, i) = extract_sign(s, i);
    if i >= s.len() {
        return Err(DecimalParseError::Invalid);
    }
    let int_end = eat_digits(s, i);
    let mut int_start = i;
    while int_end - int_start > 1 && s[int_start] == 48
        invariant
            i <= int_start <= int_end,
            i < int_end ==> int_start < int_end,
            digit_run(s@, i as int, int_end as int),
            lead_zeros_end(s@, i as int, int_end as int) == lead_zeros_end(s@, int_start as int, int_end as int),
        decreases int_end - int_start,
    {
        int_start = int_start + 1;
    }
    let p = int_end;
    if p < s.len() && (s[p] == 101 || s[p] == 69) {
        if int_end == int_start {
            return Err(DecimalParseError::Invalid);
        }
        let (exp, rest) = extract_exponent(s, p + 1)?;
        let parts = Parts { negative, int_start, int_end, frac_start: rest, frac_end: rest, exp };
        Ok((parts, rest))
    } else if p < s.len() && s[p] == 46 {
        let frac_start = p + 1;
        let digits_end = eat_digits(s, frac_start);
        if int_end == int_start && digits_end == frac_start {
            return Err(DecimalParseError::Invalid);
        }
        let mut frac_end = digits_end;
        while frac_end > frac_start && s[frac_end - 1] == 48
            invariant
                frac_start <= frac_end <= digits_end,
                digits_end <= s@.len(),
                trail_zeros_start(s@, frac_start as int, digits_end as int) == trail_zeros_start(s@, frac_start as int, frac_end as int),
            decreases frac_end,
        {
            frac_end = frac_end - 1;
        }
        if digits_end < s.len() && (s[digits_end] == 101 || s[digits_end] == 69) {
            let (exp, rest) = extract_exponent(s, digits_end + 1)?;
            let parts = Parts { negative, int_start, int_end, frac_start, frac_end, exp };
            Ok((parts, rest))
        } else {
            let parts = Parts { negative, int_start, int_end, frac_start, frac_end, exp: 0 };
            Ok((parts, digits_end))
        }
    } else {
        if int_end == int_start {
            return Err(DecimalParseError::Invalid);
        }
        let parts = Parts { negative, int_start, int_end, frac_start: p, frac_end: p, exp: 0 };
        Ok((parts, p))
    }
}

/// Caps a length for exponent arithmetic: any length past the cap is out of range anyway.
fn capped(n: usize) -> (r: i64)
    ensures
        0 <= r <= 200000,
        n <= 200000 ==> r == n,
        n > 200000 ==> r == 200000,
{
    if n > 200000 {
        200000
    } else {
        n as i64
    }
}

/// Appends the digits `s[i..j]` to `acc`.
fn accumulate(s: &[u8], i: usize, j: usize, acc: u128, Ghost(n): Ghost<nat>) -> (r: u128)
    requires
        i <= j <= s@.len(),
        forall|k: int| i <= k < j ==> is_digit(#[trigger] s@[k]),
        acc < pow(10, n),
        n + (j - i) <= 38,
    ensures
        r < pow(10, (n + (j - i)) as nat),
        r == acc * pow(10, (j - i) as nat) + digits_value(s@, i as int, j as int),
{
    let mut v = acc;
    let mut k = i;
    proof {
        lemma_pow0(10);
    }
    while k < j
        invariant
            i <= k <= j <= s@.len(),
            forall|k: int| i <= k < j ==> is_digit(#[trigger] s@[k]),
            v < pow(10, (n + (k - i)) as nat),
            v == acc * pow(10, (k - i) as nat) + digits_value(s@, i as int, k as int),
            n + (j - i) <= 38,
        decreases j - k,
    {
        proof {
            let e = (n + (k - i)) as nat;
            lemma_pow_adds(10, e, 1);
            lemma_pow1(10);
            lemma_pow_increases(10, e + 1, 38);
            crate::u256::lemma_pow10_facts(38);
            assert(is_digit(s@[k as int]));
            lemma_pow_adds(10, (k - i) as nat, 1);
            vstd::arithmetic::mul::lemma_mul_is_associative(acc as int, pow(10, (k - i) as nat), 10);
            vstd::arithmetic::mul::lemma_mul_is_distributive_add_other_way(10, acc * pow(10, (k - i) as nat), digits_value(s@, i as int, k as int) as int);
        }
        v = v * 10 + (s[k] - 48) as u128;
        k = k + 1;
    }
    v
}

/// Parses the number at `i`, without surrounding whitespace: the value and where the rest
/// starts.
#[verifier::rlimit(60)]
fn parse_str(s: &[u8], i: usize) -> (r: Result<(Decimal, usize), DecimalParseError>)
    requires
        i <= s@.len(),
    ensures
        r is Ok ==> r->Ok_0.0.wf() && i <= r->Ok_0.1 <= s@.len(),
        r is Err ==> r->Err_0 != DecimalParseError::Empty,
        match plain_parts(s@, i as int) {
            Some((m, e, neg)) => r is Ok && r->Ok_0.0.has_parts(m, e, neg) && r->Ok_0.1 == s@.len(),
            None => true,
        },
        match long_fraction(s@, i as int) {
            Some((m, e, ne)) => {
                &&& ne <= -130 ==> r is Err && r->Err_0 == DecimalParseError::Underflow
                &&& ne > -130 ==> r is Ok && r->Ok_0.1 == s@.len() && r->Ok_0.0.canonical(m, e,
                    sign_len(s@, i as int) == 1 && s@[i as int] == 45)
            },
            None => true,
        },
        match long_integer(s@, i as int) {
            Some((m, e, ne)) => {
                &&& ne > 126 ==> r is Err && r->Err_0 == DecimalParseError::Overflow
                &&& ne <= 126 ==> r is Ok && r->Ok_0.1 == s@.len() && r->Ok_0.0.canonical(m, e,
                    sign_len(s@, i as int) == 1 && s@[i as int] == 45)
            },
            None => true,
        },
        exp_head(s@, i as int) ==> match exp_parse(s@, plain_int(s@, i as int).1 + 1) {
            Err(err) => r is Err && r->Err_0 == err,
            Ok((v, ee)) => {
                &&& exp_head_normalized(s@, i as int, v) <= -130 ==> r is Err && r->Err_0 == DecimalParseError::Underflow
                &&& exp_head_normalized(s@, i as int, v) > 126 ==> r is Err && r->Err_0 == DecimalParseError::Overflow
                &&& -130 < exp_head_normalized(s@, i as int, v) <= 126 ==> r is Ok && r->Ok_0.1 == ee
            },
        },
{
    let (parts, rest) = parse_decimal(s, i)?;
    let int_start = parts.int_start;
    let mut int_end = parts.int_end;
    let frac_start = parts.frac_start;
    let mut frac_end = parts.frac_end;
    let mut sig_start = frac_start;
    let exp = parts.exp as i64;
    let mut scale: i64 = -exp;
    let mut normalized_exp: i64 = exp;
    let mut carry = false;
    if int_end - int_start == 1 && s[int_start] == 48 {
        // Only a fractional part: its leading zeros are not significant.
        let mut z = frac_start;
        while z < frac_end && s[z] == 48
            invariant
                frac_start <= z <= frac_end <= s@.len(),
                forall|k: int| frac_start <= k < z ==> s@[k] == 48,
                zero_run_end(s@, frac_start as int, frac_end as int) == zero_run_end(s@, z as int, frac_end as int),
            decreases frac_end - z,
        {
            z = z + 1;
        }
        proof {
            lemma_leading_zeros_value(s@, frac_start as int, z as int, frac_end as int);
            assert(digits_value(s@, int_start as int, int_start as int) == 0);
            assert(digits_value(s@, int_start as int, int_end as int) == 0);
            vstd::arithmetic::mul::lemma_mul_basics(pow(10, (frac_end - frac_start) as nat));
        }
        normalized_exp = normalized_exp - capped(z - frac_start);
        if frac_end - z > 38 {
            carry = s[z + 38] > 52;
            frac_end = z + 38;
        }
        int_end = int_start;
        sig_start = z;
    } else {
        let int_len = int_end - int_start;
        normalized_exp = normalized_exp + capped(int_len);
        if int_len > 38 {
            carry = s[int_start + 38] > 52;
            scale = scale - (capped(int_len) - 38);
            int_end = int_start + 38;
            frac_end = frac_start;
        } else {
            let max_frac = 38 - int_len;
            if frac_end - frac_start > max_frac {
                carry = s[frac_start + max_frac] > 52;
                frac_end = frac_start + max_frac;
            }
        }
    }
    proof {
        lemma_pow0(10);
    }
    let v = accumulate(s, int_start, int_end, 0, Ghost(0));
    let mut value = accumulate(s, sig_start, frac_end, v, Ghost((int_end - int_start) as nat));
    proof {
        vstd::arithmetic::mul::lemma_mul_basics(pow(10, (int_end - int_start) as nat));
        vstd::arithmetic::mul::lemma_mul_basics(pow(10, (frac_end - sig_start) as nat));
        vstd::arithmetic::mul::lemma_mul_basics(v as int);
        lemma_pow0(10);
        assert(digits_value(s@, sig_start as int, sig_start as int) == 0);
    }
    proof {
        lemma_pow_increases(10, ((int_end - int_start) + (frac_end - sig_start)) as nat, 38);
        crate::u256::lemma_pow10_facts(38);
    }
    if carry {
        value = value + 1;
    }
    if value > MAX_SIG {
        normalized_exp = normalized_exp + 1;
        value = value / 10;
        scale = scale - 1;
    }
    if normalized_exp <= -(MAX_SCALE as i64) {
        return Err(DecimalParseError::Underflow);
    }
    if normalized_exp > -(MIN_SCALE as i64) {
        return Err(DecimalParseError::Overflow);
    }
    if value == 0 {
        return Ok((Decimal::zero(), rest));
    }
    scale = scale + capped(frac_end - frac_start);
    if scale > MAX_SCALE_EFFECTIVE as i64 {
        return Err(DecimalParseError::Underflow);
    }
    if scale < MIN_SCALE as i64 {
        return Err(DecimalParseError::Overflow);
    }
    Ok((Decimal::from_parts_unchecked(value, scale as i16, parts.negative), rest))
}

/// Parses a decimal, allowing whitespace around it; `NaN` is invalid.
pub fn from_str(s: &str) -> (r: Result<Decimal, DecimalParseError>)
    ensures
        r is Ok ==> r->Ok_0.wf(),
        (r is Err && r->Err_0 == DecimalParseError::Empty) <==> (forall|k: int|
            0 <= k < s.spec_bytes().len() ==> is_space(#[trigger] s.spec_bytes()[k])),
        match plain_parts(s.spec_bytes(), 0) {
            Some((m, e, neg)) => r is Ok && r->Ok_0.has_parts(m, e, neg),
            None => true,
        },
        match long_fraction(s.spec_bytes(), 0) {
            Some((m, e, ne)) => {
                &&& ne <= -130 ==> r == Err::<Decimal, DecimalParseError>(DecimalParseError::Underflow)
                &&& ne > -130 ==> r is Ok && r->Ok_0.canonical(m, e, sign_len(s.spec_bytes(), 0) == 1
                    && s.spec_bytes()[0] == 45)
            },
            None => true,
        },
        match long_integer(s.spec_bytes(), 0) {
            Some((m, e, ne)) => {
                &&& ne > 126 ==> r == Err::<Decimal, DecimalParseError>(DecimalParseError::Overflow)
                &&& ne <= 126 ==> r is Ok && r->Ok_0.canonical(m, e, sign_len(s.spec_bytes(), 0) == 1
                    && s.spec_bytes()[0] == 45)
            },
            None => true,
        },
        nan_at(s.spec_bytes(), space_end(s.spec_bytes(), 0)) ==> r == Err::<Decimal, DecimalParseError>(
            DecimalParseError::Invalid,
        ),
        exp_head(s.spec_bytes(), space_end(s.spec_bytes(), 0)) ==> match exp_parse(
            s.spec_bytes(),
            plain_int(s.spec_bytes(), space_end(s.spec_bytes(), 0)).1 + 1,
        ) {
            Err(err) => r == Err::<Decimal, DecimalParseError>(err),
            Ok((v, ee)) => {
                let ne = exp_head_normalized(s.spec_bytes(), space_end(s.spec_bytes(), 0), v);
                &&& ne <= -130 ==> r == Err::<Decimal, DecimalParseError>(DecimalParseError::Underflow)
                &&& ne > 126 ==> r == Err::<Decimal, DecimalParseError>(DecimalParseError::Overflow)
                &&& -130 < ne <= 126 ==> (r is Ok <==> space_end(s.spec_bytes(), ee) == s.spec_bytes().len())
                &&& -130 < ne <= 126 && space_end(s.spec_bytes(), ee) != s.spec_bytes().len() ==> r
                    == Err::<Decimal, DecimalParseError>(DecimalParseError::Invalid)
            },
        },
{
    let b = s.as_bytes();
    proof {
        let t = b@;
        if plain_shape(t, 0) {
            let j = sign_len(t, 0);
            if j == 0 && run_end(t, 0) > 0 {
                assert(is_digit(t[0]));
            }
            assert(t.len() > 0);
            assert(!is_space(t[0]));
            assert(lower(t[0]) != 110);
        }
    }
    let i = eat_whitespaces(b, 0);
    proof {
        lemma_space_end(b@, 0, i as int);
    }
    if i == b.len() {
        return Err(DecimalParseError::Empty);
    }
    proof {
        let t = b@;
        if exp_head(t, i as int) {
            let j = i + sign_len(t, i as int);
            if sign_len(t, i as int) == 0 {
                assert(is_digit(t[i as int]));
            }
            assert(lower(t[i as int]) != 110);
        }
    }
    let (is_nan, j) = extract_nan(b, i);
    if is_nan {
        return Err(DecimalParseError::Invalid);
    }
    let (n, k) = parse_str(b, j)?;
    let e = eat_whitespaces(b, k);
    proof {
        lemma_space_end(b@, k as int, e as int);
    }
    if e != b.len() {
        return Err(DecimalParseError::Invalid);
    }
    Ok(n)
}

impl core::str::FromStr for Decimal {
    type Err = DecimalParseError;

    fn from_str(s: &str) -> Result<Decimal, DecimalParseError> {
        from_str(s)
    }
}

} // verus!
