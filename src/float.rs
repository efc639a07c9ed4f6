//! Decimals from the bit patterns of IEEE-754 binary floating-point numbers.
use crate::decimal::{Decimal, MAX_SIG};
use crate::error::DecimalConvertError;
use vstd::arithmetic::power2::*;
use vstd::prelude::*;

verus! {

/// The most significant decimal digits that a binary64 carries.
const F64_DP: u128 = 99_999_999_999_999_999;

/// The most significant decimal digits that a binary32 carries.
const F32_DP: u128 = 999_999_999;

/// The decimal nearest to `bits * 2^exponent2`, keeping the digits that a float of the given
/// width carries; `None` where it cannot be held.
pub fn base2_to_decimal(bits: u128, exponent2: i32, negative: bool, is_f64: bool) -> (r: Option<Decimal>)
    requires
        -1100 <= exponent2 <= 1000,
    ensures
        r is Some ==> r->0.wf() && (r->0.s() ==> negative),
        exponent2 >= 0 && bits * pow2(exponent2 as nat) <= MAX_SIG ==> r is Some && r->0.canonical(
            bits * pow2(exponent2 as nat),
            0,
            negative,
        ),
        exponent2 < 0 && bits as nat % pow2((-exponent2) as nat) == 0 && bits as nat / pow2((-exponent2) as nat)
            <= MAX_SIG ==> r is Some && r->0.canonical((bits as nat / pow2((-exponent2) as nat)) as int, 0, negative),
{
    let ghost exact = exponent2 >= 0 && bits * pow2(exponent2 as nat) <= MAX_SIG;
    let ghost exact2 = exponent2 < 0 && bits as nat % pow2((-exponent2) as nat) == 0 && bits as nat / pow2(
        (-exponent2) as nat,
    ) <= MAX_SIG;
    let ghost v2 = bits as nat / pow2((-exponent2) as nat);
    let ghost bits0 = bits;
    proof {
        if exact2 {
            lemma_pow2_pos((-exponent2) as nat);
        }
    }
    // 2^exponent2 = 10^exponent2 / 5^exponent2.
    let mut exponent5: i32 = -exponent2;
    let mut exponent10: i32 = exponent2;
    let mut bits = bits;
    while exponent5 > 0
        invariant
            -1100 <= exponent10,
            -1000 <= exponent5 <= 1100,
            exponent10 + exponent5 <= 0,
            exact ==> exponent10 == exponent2 && exponent5 == -exponent2 && bits == bits0,
            exact == (exponent2 >= 0 && bits0 * pow2(exponent2 as nat) <= MAX_SIG),
            exact2 == (exponent2 < 0 && bits0 as nat % pow2((-exponent2) as nat) == 0 && bits0 as nat / pow2(
                (-exponent2) as nat,
            ) <= MAX_SIG),
            v2 == bits0 as nat / pow2((-exponent2) as nat),
            exact2 ==> exponent10 + exponent5 == 0 && exponent5 >= 0 && bits as nat % pow2(exponent5 as nat)
                == 0 && bits as nat / pow2(exponent5 as nat) == v2 && v2 <= MAX_SIG,
        decreases exponent5,
    {
        proof {
            if exact2 {
                let q = pow2((exponent5 - 1) as nat);
                lemma_pow2_unfold(exponent5 as nat);
                lemma_pow2_pos((exponent5 - 1) as nat);
                vstd::arithmetic::div_mod::lemma_fundamental_div_mod(bits as int, pow2(exponent5 as nat) as int);
                assert(bits == 2 * (q * v2)) by (nonlinear_arith)
                    requires
                        bits == pow2(exponent5 as nat) * v2,
                        pow2(exponent5 as nat) == 2 * q,
                ;
                assert(bits % 2 == 0);
                assert(bits / 2 == q * v2);
                vstd::arithmetic::div_mod::lemma_mod_multiples_basic(v2 as int, q as int);
                vstd::arithmetic::mul::lemma_mul_is_commutative(q as int, v2 as int);
                vstd::arithmetic::div_mod::lemma_div_multiples_vanish(v2 as int, q as int);
            }
        }
        if bits % 2 == 0 {
            exponent10 = exponent10 + 1;
            exponent5 = exponent5 - 1;
            bits = bits / 2;
        } else {
            exponent5 = exponent5 - 1;
            if bits <= u128::MAX / 5 {
                bits = bits * 5;
            } else {
                // The product would overflow: give up a binary digit instead.
                exponent10 = exponent10 + 1;
                bits = bits / 2;
            }
        }
    }
    // Divide by 5 as multiplying by 2 and dividing by 10.
    proof {
        if exact {
            lemma_pow2_pos(exponent2 as nat);
            lemma2_to64();
            vstd::arithmetic::mul::lemma_mul_basics(bits0 as int);
            assert(bits0 * pow2(0) == bits0);
        }
    }
    proof {
        if exact2 {
            lemma2_to64();
            assert(bits as nat / pow2(0) == bits);
        }
    }
    while exponent5 < 0
        invariant
            exact2 ==> exponent5 == 0 && exponent10 == 0 && bits == v2 && v2 <= MAX_SIG,
            exact2 == (exponent2 < 0 && bits0 as nat % pow2((-exponent2) as nat) == 0 && bits0 as nat / pow2(
                (-exponent2) as nat,
            ) <= MAX_SIG),
            exponent10 + exponent5 >= -3300,
            exponent10 <= 2200,
            -1100 <= exponent5 <= 0,
            exact ==> exponent10 + exponent5 == 0 && 0 <= exponent10 <= exponent2,
            exact ==> bits * pow2(exponent10 as nat) == bits0 * pow2(exponent2 as nat),
            exact ==> bits0 * pow2(exponent2 as nat) <= MAX_SIG,
            exact ==> exponent5 == -exponent10,
            exact == (exponent2 >= 0 && bits0 * pow2(exponent2 as nat) <= MAX_SIG),
        decreases -exponent5,
    {
        proof {
            if exact {
                lemma_pow2_unfold(exponent10 as nat);
                vstd::arithmetic::mul::lemma_mul_is_associative(bits as int, 2, pow2((exponent10 - 1) as nat) as int);
                lemma_pow2_pos((exponent10 - 1) as nat);
                assert(bits * 2 <= bits * 2 * pow2((exponent10 - 1) as nat)) by (nonlinear_arith)
                    requires
                        pow2((exponent10 - 1) as nat) >= 1,
                ;
                crate::u256::lemma_pow10_facts(38);
            }
        }
        if bits < 0x8000_0000_0000_0000_0000_0000_0000_0000 {
            exponent10 = exponent10 - 1;
            exponent5 = exponent5 + 1;
            bits = bits * 2;
        } else {
            exponent5 = exponent5 + 1;
            bits = bits / 5;
        }
    }
    // A positive power of ten that is left only remains where the significand is past 38 digits.
    if exponent10 > 0 {
        return None;
    }
    proof {
        if exact {
            assert(exponent5 == 0);
            assert(exponent10 + exponent5 == 0);
            assert(exponent10 == 0);
            lemma2_to64();
            vstd::arithmetic::mul::lemma_mul_basics(bits as int);
            assert(bits == bits0 * pow2(exponent2 as nat));
        }
    }
    while exponent10 < -38
        invariant
            -3300 <= exponent10 <= 0,
            exact ==> exponent10 == 0 && bits == bits0 * pow2(exponent2 as nat) && bits <= MAX_SIG,
            exact2 ==> exponent10 == 0 && bits == v2 && bits <= MAX_SIG,
            exact2 == (exponent2 < 0 && bits0 as nat % pow2((-exponent2) as nat) == 0 && bits0 as nat / pow2(
                (-exponent2) as nat,
            ) <= MAX_SIG),
            exact == (exponent2 >= 0 && bits0 * pow2(exponent2 as nat) <= MAX_SIG),
        decreases -exponent10,
    {
        let rem10 = bits % 10;
        bits = bits / 10;
        exponent10 = exponent10 + 1;
        if bits == 0 {
            exponent10 = 0;
        } else if rem10 >= 5 {
            bits = bits + 1;
        }
    }
    let mut rem10: u128 = 0;
    let dp = if is_f64 {
        F64_DP
    } else {
        F32_DP
    };
    while exponent10 < 0 && bits > dp
        invariant
            -38 <= exponent10 <= 0,
            rem10 < 10,
            exact ==> rem10 == 0,
            exact2 ==> rem10 == 0,
            exact ==> exponent10 == 0 && bits == bits0 * pow2(exponent2 as nat) && bits <= MAX_SIG,
            exact2 ==> exponent10 == 0 && bits == v2 && bits <= MAX_SIG,
            exact2 == (exponent2 < 0 && bits0 as nat % pow2((-exponent2) as nat) == 0 && bits0 as nat / pow2(
                (-exponent2) as nat,
            ) <= MAX_SIG),
            exact == (exponent2 >= 0 && bits0 * pow2(exponent2 as nat) <= MAX_SIG),
        decreases -exponent10,
    {
        rem10 = bits % 10;
        bits = bits / 10;
        exponent10 = exponent10 + 1;
    }
    if rem10 >= 5 && bits < u128::MAX {
        bits = bits + 1;
    }
    while exponent10 < 0 && bits % 10 == 0
        invariant
            -38 <= exponent10 <= 0,
            exact ==> exponent10 == 0 && bits == bits0 * pow2(exponent2 as nat) && bits <= MAX_SIG,
            exact2 ==> exponent10 == 0 && bits == v2 && bits <= MAX_SIG,
            exact2 == (exponent2 < 0 && bits0 as nat % pow2((-exponent2) as nat) == 0 && bits0 as nat / pow2(
                (-exponent2) as nat,
            ) <= MAX_SIG),
            exact == (exponent2 >= 0 && bits0 * pow2(exponent2 as nat) <= MAX_SIG),
        decreases -exponent10,
    {
        exponent10 = exponent10 + 1;
        bits = bits / 10;
    }
    if bits > MAX_SIG {
        return None;
    }
    Some(Decimal::from_parts_unchecked(bits, (-exponent10) as i16, negative))
}

/// A binary64 bit pattern is an infinity.
pub open spec fn f64_is_infinite(raw: u64) -> bool {
    (raw / 0x10_0000_0000_0000) % 0x800 == 0x7FF && raw % 0x10_0000_0000_0000 == 0
}

/// A binary64 bit pattern is a NaN.
pub open spec fn f64_is_nan(raw: u64) -> bool {
    (raw / 0x10_0000_0000_0000) % 0x800 == 0x7FF && raw % 0x10_0000_0000_0000 != 0
}

/// A binary64 bit pattern is a zero of either sign.
pub open spec fn f64_is_zero(raw: u64) -> bool {
    raw % 0x8000_0000_0000_0000 == 0
}

/// A binary32 bit pattern is an infinity.
pub open spec fn f32_is_infinite(raw: u32) -> bool {
    (raw / 0x80_0000) % 0x100 == 0xFF && raw % 0x80_0000 == 0
}

/// A binary32 bit pattern is a NaN.
pub open spec fn f32_is_nan(raw: u32) -> bool {
    (raw / 0x80_0000) % 0x100 == 0xFF && raw % 0x80_0000 != 0
}

/// A binary32 bit pattern is a zero of either sign.
pub open spec fn f32_is_zero(raw: u32) -> bool {
    raw % 0x8000_0000 == 0
}

/// The value of a finite non-zero binary64 bit pattern where it is an integer of at most 38 digits.
pub open spec fn f64_integral_value(raw: u64) -> Option<int> {
    let biased = (raw / 0x10_0000_0000_0000) % 2048;
    let mant = raw % 0x10_0000_0000_0000;
    if biased == 2047 || (biased == 0 && mant == 0) {
        None
    } else {
        let bits: int = if biased == 0 { mant as int } else { mant + 0x10_0000_0000_0000 };
        let e2: int = (if biased == 0 { 1int } else { biased as int }) - 1023 - 52;
        if e2 >= 0 {
            if bits * pow2(e2 as nat) <= MAX_SIG {
                Some(bits * pow2(e2 as nat))
            } else {
                None
            }
        } else if bits % pow2((-e2) as nat) as int == 0 && bits / pow2((-e2) as nat) as int <= MAX_SIG {
            Some(bits / pow2((-e2) as nat) as int)
        } else {
            None
        }
    }
}

/// The value of a finite non-zero binary32 bit pattern where it is an integer of at most 38 digits.
pub open spec fn f32_integral_value(raw: u32) -> Option<int> {
    let biased = (raw / 0x80_0000) % 256;
    let mant = raw % 0x80_0000;
    if biased == 255 || (biased == 0 && mant == 0) {
        None
    } else {
        let bits: int = if biased == 0 { mant as int } else { mant + 0x80_0000 };
        let e2: int = (if biased == 0 { 1int } else { biased as int }) - 127 - 23;
        if e2 >= 0 {
            if bits * pow2(e2 as nat) <= MAX_SIG {
                Some(bits * pow2(e2 as nat))
            } else {
                None
            }
        } else if bits % pow2((-e2) as nat) as int == 0 && bits / pow2((-e2) as nat) as int <= MAX_SIG {
            Some(bits / pow2((-e2) as nat) as int)
        } else {
            None
        }
    }
}

impl Decimal {
    /// The decimal of the binary64 with bit pattern `raw`: infinities overflow, NaN is invalid.
    pub fn from_f64_bits(raw: u64) -> (r: Result<Decimal, DecimalConvertError>)
        ensures
            f64_is_infinite(raw) ==> r == Err::<Decimal, DecimalConvertError>(DecimalConvertError::Overflow),
            f64_is_nan(raw) ==> r == Err::<Decimal, DecimalConvertError>(DecimalConvertError::Invalid),
            f64_is_zero(raw) ==> r is Ok && r->Ok_0.has_parts(0, 0, false),
            f64_integral_value(raw) is Some ==> r is Ok && r->Ok_0.canonical(
                f64_integral_value(raw)->0,
                0,
                raw / 0x8000_0000_0000_0000 == 1,
            ),
            r is Ok ==> r->Ok_0.wf(),
            r is Err ==> r->Err_0 == DecimalConvertError::Overflow || f64_is_nan(raw),
    {
        let negative = raw / 0x8000_0000_0000_0000 == 1;
        let biased_exponent = ((raw / 0x10_0000_0000_0000) % 0x800) as i32;
        let mantissa = raw % 0x10_0000_0000_0000;
        if biased_exponent == 0x7FF {
            return if mantissa == 0 {
                Err(DecimalConvertError::Overflow)
            } else {
                Err(DecimalConvertError::Invalid)
            };
        }
        if biased_exponent == 0 && mantissa == 0 {
            return Ok(Decimal::zero());
        }
        let mut exponent2 = biased_exponent - 1023;
        let mut bits = mantissa as u128;
        if biased_exponent == 0 {
            exponent2 = exponent2 + 1;
        } else {
            bits = bits + 0x10_0000_0000_0000;
        }
        exponent2 = exponent2 - 52;
        match base2_to_decimal(bits, exponent2, negative, true) {
            Some(d) => Ok(d),
            None => Err(DecimalConvertError::Overflow),
        }
    }

    /// The decimal of the binary32 with bit pattern `raw`: infinities overflow, NaN is invalid.
    pub fn from_f32_bits(raw: u32) -> (r: Result<Decimal, DecimalConvertError>)
        ensures
            f32_is_infinite(raw) ==> r == Err::<Decimal, DecimalConvertError>(DecimalConvertError::Overflow),
            f32_is_nan(raw) ==> r == Err::<Decimal, DecimalConvertError>(DecimalConvertError::Invalid),
            f32_is_zero(raw) ==> r is Ok && r->Ok_0.has_parts(0, 0, false),
            f32_integral_value(raw) is Some ==> r is Ok && r->Ok_0.canonical(
                f32_integral_value(raw)->0,
                0,
                raw / 0x8000_0000 == 1,
            ),
            r is Ok ==> r->Ok_0.wf(),
            r is Err ==> r->Err_0 == DecimalConvertError::Overflow || f32_is_nan(raw),
    {
        let negative = raw / 0x8000_0000 == 1;
        let biased_exponent = ((raw / 0x80_0000) % 0x100) as i32;
        let mantissa = raw % 0x80_0000;
        if biased_exponent == 0xFF {
            return if mantissa == 0 {
                Err(DecimalConvertError::Overflow)
            } else {
                Err(DecimalConvertError::Invalid)
            };
        }
        if biased_exponent == 0 && mantissa == 0 {
            return Ok(Decimal::zero());
        }
        let mut exponent2 = biased_exponent - 127;
        let mut bits = mantissa as u128;
        if biased_exponent == 0 {
            exponent2 = exponent2 + 1;
        } else {
            bits = bits + 0x80_0000;
        }
        exponent2 = exponent2 - 23;
        match base2_to_decimal(bits, exponent2, negative, false) {
            Some(d) => Ok(d),
            None => Err(DecimalConvertError::Overflow),
        }
    }
}

} // verus!
