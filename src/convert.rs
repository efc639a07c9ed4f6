//! Conversions between `Decimal` and the primitive integer types.
use crate::decimal::{cut_spec, Decimal, MAX_PRECISION, MAX_SIG};
use crate::error::DecimalConvertError;
use crate::u256::{lemma_limb_value, lemma_pow10_facts, limb, pow10, U256};
use vstd::arithmetic::power::*;
use vstd::prelude::*;

verus! {

/// The integer that `d` rounds to (half up), as a magnitude.
pub open spec fn rounded_magnitude(d: Decimal) -> int {
    let c = cut_spec(d, 0, true);
    c.0 * pow(10, (-c.1) as nat)
}

impl Decimal {
    /// The decimal of a non-negative integer of at most 38 digits.
    pub fn from_unsigned(v: u128) -> (r: Decimal)
        requires
            v <= MAX_SIG,
        ensures
            r.wf(),
            r.canonical(v as int, 0, false),
            r == Decimal::spec_from_parts(if v == 0 { 0 } else { v as nat }, 0, false),
    {
        let r = Decimal::from_parts_unchecked(v, 0, false);
        proof {
            Decimal::lemma_parts_determine(r, if v == 0 { 0 } else { v as nat }, 0, false);
        }
        r
    }

    /// The decimal of an integer of at most 38 digits.
    pub fn from_signed(v: i128) -> (r: Decimal)
        requires
            -(MAX_SIG as int) <= v <= MAX_SIG,
        ensures
            r.wf(),
            r.canonical(if v < 0 { -v } else { v as int }, 0, v < 0),
            r == Decimal::spec_from_parts(if v < 0 { (-v) as nat } else { v as nat }, 0, v < 0),
    {
        let (m, neg) = if v < 0 {
            ((-v) as u128, true)
        } else {
            (v as u128, false)
        };
        let r = Decimal::from_parts_unchecked(m, 0, neg);
        proof {
            Decimal::lemma_parts_determine(r, m as nat, 0, neg);
        }
        r
    }

    /// The rounded integer value as a `u128`; negative values and values past `u128::MAX`
    /// overflow.
    pub fn to_u128(&self) -> (r: Result<u128, DecimalConvertError>)
        requires
            self.wf(),
        ensures
            r is Ok <==> !self.s() && rounded_magnitude(*self) <= u128::MAX,
            r is Ok ==> r->Ok_0 == rounded_magnitude(*self),
            r is Err ==> r->Err_0 == DecimalConvertError::Overflow,
    {
        if self.is_sign_negative() {
            return Err(DecimalConvertError::Overflow);
        }
        self.rounded_magnitude_u128()
    }

    /// The magnitude of the rounded integer value, where it fits a `u128`.
    fn rounded_magnitude_u128(&self) -> (r: Result<u128, DecimalConvertError>)
        requires
            self.wf(),
        ensures
            r is Ok <==> rounded_magnitude(*self) <= u128::MAX,
            r is Ok ==> r->Ok_0 == rounded_magnitude(*self),
            r is Err ==> r->Err_0 == DecimalConvertError::Overflow,
    {
        let d = self.round(0);
        let (m, scale, _) = d.into_parts();
        proof {
            lemma_pow0(10);
            lemma_pow_positive(10, (-scale) as nat);
        }
        if scale == 0 {
            return Ok(m);
        }
        if -scale > MAX_PRECISION as i16 {
            proof {
                lemma_pow10_facts(38);
                lemma_pow_increases(10, 39, (-scale) as nat);
                lemma_pow10_facts(39);
                assert(m * pow(10, (-scale) as nat) >= pow(10, (-scale) as nat)) by (nonlinear_arith)
                    requires
                        m >= 1,
                        pow(10, (-scale) as nat) > 0,
                ;
            }
            return Err(DecimalConvertError::Overflow);
        }
        proof {
            lemma_pow10_facts((-scale) as nat);
        }
        match pow10((-scale) as u32).checked_mul(U256::from_low(m)) {
            Some(prod) => {
                proof {
                    vstd::arithmetic::mul::lemma_mul_is_commutative(m as int, pow(10, (-scale) as nat));
                }
                if prod.high != 0 {
                    proof {
                        assert(prod.high as int * limb() >= limb()) by (nonlinear_arith)
                            requires
                                prod.high >= 1,
                        ;
                    }
                    Err(DecimalConvertError::Overflow)
                } else {
                    Ok(prod.low)
                }
            },
            None => {
                proof {
                    vstd::arithmetic::mul::lemma_mul_is_commutative(m as int, pow(10, (-scale) as nat));
                }
                Err(DecimalConvertError::Overflow)
            },
        }
    }

    /// The rounded integer value as an `i128`, where it fits.
    pub fn to_i128(&self) -> (r: Result<i128, DecimalConvertError>)
        requires
            self.wf(),
        ensures
            r is Ok <==> (if self.s() {
                rounded_magnitude(*self) <= i128::MAX + 1
            } else {
                rounded_magnitude(*self) <= i128::MAX
            }),
            r is Ok ==> r->Ok_0 == (if self.s() {
                -rounded_magnitude(*self)
            } else {
                rounded_magnitude(*self)
            }),
            r is Err ==> r->Err_0 == DecimalConvertError::Overflow,
    {
        let m = self.rounded_magnitude_u128()?;
        if self.is_sign_negative() {
            if m > i128::MAX as u128 + 1 {
                Err(DecimalConvertError::Overflow)
            } else if m == i128::MAX as u128 + 1 {
                Ok(i128::MIN)
            } else {
                Ok(-(m as i128))
            }
        } else if m > i128::MAX as u128 {
            Err(DecimalConvertError::Overflow)
        } else {
            Ok(m as i128)
        }
    }

    /// The decimal of an `i128` of at most 38 digits.
    pub fn try_from_i128(val: i128) -> (r: Result<Decimal, DecimalConvertError>)
        ensures
            r is Ok <==> -(MAX_SIG as int) <= val <= MAX_SIG,
            r is Ok ==> r->Ok_0.wf() && r->Ok_0.canonical(if val < 0 { -val } else { val as int }, 0, val < 0),
            r is Ok ==> r->Ok_0 == Decimal::spec_from_parts(if val < 0 { (-val) as nat } else { val as nat }, 0, val < 0),
            r is Err ==> r->Err_0 == DecimalConvertError::Overflow,
    {
        if val > MAX_SIG as i128 || val < -(MAX_SIG as i128) {
            Err(DecimalConvertError::Overflow)
        } else {
            Ok(Decimal::from_signed(val))
        }
    }

    /// The decimal of a `u128` of at most 38 digits.
    pub fn try_from_u128(val: u128) -> (r: Result<Decimal, DecimalConvertError>)
        ensures
            r is Ok <==> val <= MAX_SIG,
            r is Ok ==> r->Ok_0.wf() && r->Ok_0.canonical(val as int, 0, false),
            r is Ok ==> r->Ok_0 == Decimal::spec_from_parts(val as nat, 0, false),
            r is Err ==> r->Err_0 == DecimalConvertError::Overflow,
    {
        if val > MAX_SIG {
            Err(DecimalConvertError::Overflow)
        } else {
            Ok(Decimal::from_unsigned(val))
        }
    }
}

} // verus!

verus! {

impl From<u8> for Decimal {
    fn from(val: u8) -> (r: Decimal) {
        proof {
            crate::u256::lemma_pow10_facts(38);
        }
        Decimal::from_unsigned(val as u128)
    }
}

impl vstd::std_specs::convert::FromSpecImpl<u8> for Decimal {
    open spec fn obeys_from_spec() -> bool {
        true
    }

    open spec fn from_spec(v: u8) -> Decimal {
        Decimal::spec_from_parts(v as nat, 0, false)
    }
}

impl From<u16> for Decimal {
    fn from(val: u16) -> (r: Decimal) {
        proof {
            crate::u256::lemma_pow10_facts(38);
        }
        Decimal::from_unsigned(val as u128)
    }
}

impl vstd::std_specs::convert::FromSpecImpl<u16> for Decimal {
    open spec fn obeys_from_spec() -> bool {
        true
    }

    open spec fn from_spec(v: u16) -> Decimal {
        Decimal::spec_from_parts(v as nat, 0, false)
    }
}

impl From<u32> for Decimal {
    fn from(val: u32) -> (r: Decimal) {
        proof {
            crate::u256::lemma_pow10_facts(38);
        }
        Decimal::from_unsigned(val as u128)
    }
}

impl vstd::std_specs::convert::FromSpecImpl<u32> for Decimal {
    open spec fn obeys_from_spec() -> bool {
        true
    }

    open spec fn from_spec(v: u32) -> Decimal {
        Decimal::spec_from_parts(v as nat, 0, false)
    }
}

impl From<u64> for Decimal {
    fn from(val: u64) -> (r: Decimal) {
        proof {
            crate::u256::lemma_pow10_facts(38);
        }
        Decimal::from_unsigned(val as u128)
    }
}

impl vstd::std_specs::convert::FromSpecImpl<u64> for Decimal {
    open spec fn obeys_from_spec() -> bool {
        true
    }

    open spec fn from_spec(v: u64) -> Decimal {
        Decimal::spec_from_parts(v as nat, 0, false)
    }
}

impl From<usize> for Decimal {
    fn from(val: usize) -> (r: Decimal) {
        proof {
            crate::u256::lemma_pow10_facts(38);
        }
        Decimal::from_unsigned(val as u128)
    }
}

impl vstd::std_specs::convert::FromSpecImpl<usize> for Decimal {
    open spec fn obeys_from_spec() -> bool {
        true
    }

    open spec fn from_spec(v: usize) -> Decimal {
        Decimal::spec_from_parts(v as nat, 0, false)
    }
}

impl From<i8> for Decimal {
    fn from(val: i8) -> (r: Decimal) {
        Decimal::from_signed(val as i128)
    }
}

impl vstd::std_specs::convert::FromSpecImpl<i8> for Decimal {
    open spec fn obeys_from_spec() -> bool {
        true
    }

    open spec fn from_spec(v: i8) -> Decimal {
        Decimal::spec_from_parts(if v < 0 { (-v) as nat } else { v as nat }, 0, v < 0)
    }
}

impl From<i16> for Decimal {
    fn from(val: i16) -> (r: Decimal) {
        Decimal::from_signed(val as i128)
    }
}

impl vstd::std_specs::convert::FromSpecImpl<i16> for Decimal {
    open spec fn obeys_from_spec() -> bool {
        true
    }

    open spec fn from_spec(v: i16) -> Decimal {
        Decimal::spec_from_parts(if v < 0 { (-v) as nat } else { v as nat }, 0, v < 0)
    }
}

impl From<i32> for Decimal {
    fn from(val: i32) -> (r: Decimal) {
        Decimal::from_signed(val as i128)
    }
}

impl vstd::std_specs::convert::FromSpecImpl<i32> for Decimal {
    open spec fn obeys_from_spec() -> bool {
        true
    }

    open spec fn from_spec(v: i32) -> Decimal {
        Decimal::spec_from_parts(if v < 0 { (-v) as nat } else { v as nat }, 0, v < 0)
    }
}

impl From<i64> for Decimal {
    fn from(val: i64) -> (r: Decimal) {
        Decimal::from_signed(val as i128)
    }
}

impl vstd::std_specs::convert::FromSpecImpl<i64> for Decimal {
    open spec fn obeys_from_spec() -> bool {
        true
    }

    open spec fn from_spec(v: i64) -> Decimal {
        Decimal::spec_from_parts(if v < 0 { (-v) as nat } else { v as nat }, 0, v < 0)
    }
}

impl From<isize> for Decimal {
    fn from(val: isize) -> (r: Decimal) {
        Decimal::from_signed(val as i128)
    }
}

impl vstd::std_specs::convert::FromSpecImpl<isize> for Decimal {
    open spec fn obeys_from_spec() -> bool {
        true
    }

    open spec fn from_spec(v: isize) -> Decimal {
        Decimal::spec_from_parts(if v < 0 { (-v) as nat } else { v as nat }, 0, v < 0)
    }
}

impl From<bool> for Decimal {
    fn from(val: bool) -> (r: Decimal) {
        Decimal::from_unsigned(if val { 1 } else { 0 })
    }
}

impl vstd::std_specs::convert::FromSpecImpl<bool> for Decimal {
    open spec fn obeys_from_spec() -> bool {
        true
    }

    open spec fn from_spec(v: bool) -> Decimal {
        Decimal::spec_from_parts(if v { 1 } else { 0 }, 0, false)
    }
}

impl TryFrom<i128> for Decimal {
    type Error = DecimalConvertError;

    fn try_from(val: i128) -> Result<Decimal, DecimalConvertError> {
        Decimal::try_from_i128(val)
    }
}

impl TryFrom<u128> for Decimal {
    type Error = DecimalConvertError;

    fn try_from(val: u128) -> Result<Decimal, DecimalConvertError> {
        Decimal::try_from_u128(val)
    }
}

impl TryFrom<Decimal> for u128 {
    type Error = DecimalConvertError;

    fn try_from(val: Decimal) -> Result<u128, DecimalConvertError> {
        val.well_formed();
        val.to_u128()
    }
}

impl TryFrom<Decimal> for i128 {
    type Error = DecimalConvertError;

    fn try_from(val: Decimal) -> Result<i128, DecimalConvertError> {
        val.well_formed();
        val.to_i128()
    }
}

impl TryFrom<Decimal> for u8 {
    type Error = DecimalConvertError;

    fn try_from(val: Decimal) -> Result<u8, DecimalConvertError> {
        val.well_formed();
        let v = val.to_u128()?;
        if v > u8::MAX as u128 {
            Err(DecimalConvertError::Overflow)
        } else {
            Ok(v as u8)
        }
    }
}

impl TryFrom<Decimal> for u16 {
    type Error = DecimalConvertError;

    fn try_from(val: Decimal) -> Result<u16, DecimalConvertError> {
        val.well_formed();
        let v = val.to_u128()?;
        if v > u16::MAX as u128 {
            Err(DecimalConvertError::Overflow)
        } else {
            Ok(v as u16)
        }
    }
}

impl TryFrom<Decimal> for u32 {
    type Error = DecimalConvertError;

    fn try_from(val: Decimal) -> Result<u32, DecimalConvertError> {
        val.well_formed();
        let v = val.to_u128()?;
        if v > u32::MAX as u128 {
            Err(DecimalConvertError::Overflow)
        } else {
            Ok(v as u32)
        }
    }
}

impl TryFrom<Decimal> for u64 {
    type Error = DecimalConvertError;

    fn try_from(val: Decimal) -> Result<u64, DecimalConvertError> {
        val.well_formed();
        let v = val.to_u128()?;
        if v > u64::MAX as u128 {
            Err(DecimalConvertError::Overflow)
        } else {
            Ok(v as u64)
        }
    }
}

impl TryFrom<Decimal> for usize {
    type Error = DecimalConvertError;

    fn try_from(val: Decimal) -> Result<usize, DecimalConvertError> {
        val.well_formed();
        let v = val.to_u128()?;
        if v > usize::MAX as u128 {
            Err(DecimalConvertError::Overflow)
        } else {
            Ok(v as usize)
        }
    }
}

impl TryFrom<Decimal> for i8 {
    type Error = DecimalConvertError;

    fn try_from(val: Decimal) -> Result<i8, DecimalConvertError> {
        val.well_formed();
        let v = val.to_i128()?;
        if v > i8::MAX as i128 || v < i8::MIN as i128 {
            Err(DecimalConvertError::Overflow)
        } else {
            Ok(v as i8)
        }
    }
}

impl TryFrom<Decimal> for i16 {
    type Error = DecimalConvertError;

    fn try_from(val: Decimal) -> Result<i16, DecimalConvertError> {
        val.well_formed();
        let v = val.to_i128()?;
        if v > i16::MAX as i128 || v < i16::MIN as i128 {
            Err(DecimalConvertError::Overflow)
        } else {
            Ok(v as i16)
        }
    }
}

impl TryFrom<Decimal> for i32 {
    type Error = DecimalConvertError;

    fn try_from(val: Decimal) -> Result<i32, DecimalConvertError> {
        val.well_formed();
        let v = val.to_i128()?;
        if v > i32::MAX as i128 || v < i32::MIN as i128 {
            Err(DecimalConvertError::Overflow)
        } else {
            Ok(v as i32)
        }
    }
}

impl TryFrom<Decimal> for i64 {
    type Error = DecimalConvertError;

    fn try_from(val: Decimal) -> Result<i64, DecimalConvertError> {
        val.well_formed();
        let v = val.to_i128()?;
        if v > i64::MAX as i128 || v < i64::MIN as i128 {
            Err(DecimalConvertError::Overflow)
        } else {
            Ok(v as i64)
        }
    }
}

impl TryFrom<Decimal> for isize {
    type Error = DecimalConvertError;

    fn try_from(val: Decimal) -> Result<isize, DecimalConvertError> {
        val.well_formed();
        let v = val.to_i128()?;
        if v > isize::MAX as i128 || v < isize::MIN as i128 {
            Err(DecimalConvertError::Overflow)
        } else {
            Ok(v as isize)
        }
    }
}

impl vstd::std_specs::convert::TryFromSpecImpl<i128> for Decimal {
    open spec fn obeys_try_from_spec() -> bool {
        true
    }

    open spec fn try_from_spec(v: i128) -> Result<Decimal, DecimalConvertError> {
        if -(MAX_SIG as int) <= v <= MAX_SIG {
            Ok(Decimal::spec_from_parts(if v < 0 { (-v) as nat } else { v as nat }, 0, v < 0))
        } else {
            Err(DecimalConvertError::Overflow)
        }
    }
}

impl vstd::std_specs::convert::TryFromSpecImpl<u128> for Decimal {
    open spec fn obeys_try_from_spec() -> bool {
        true
    }

    open spec fn try_from_spec(v: u128) -> Result<Decimal, DecimalConvertError> {
        if v <= MAX_SIG {
            Ok(Decimal::spec_from_parts(v as nat, 0, false))
        } else {
            Err(DecimalConvertError::Overflow)
        }
    }
}

impl vstd::std_specs::convert::TryFromSpecImpl<Decimal> for u128 {
    open spec fn obeys_try_from_spec() -> bool {
        true
    }

    open spec fn try_from_spec(v: Decimal) -> Result<u128, DecimalConvertError> {
        if !v.s() && rounded_magnitude(v) <= u128::MAX {
            Ok(rounded_magnitude(v) as u128)
        } else {
            Err(DecimalConvertError::Overflow)
        }
    }
}

impl vstd::std_specs::convert::TryFromSpecImpl<Decimal> for u8 {
    open spec fn obeys_try_from_spec() -> bool {
        true
    }

    open spec fn try_from_spec(v: Decimal) -> Result<u8, DecimalConvertError> {
        if !v.s() && rounded_magnitude(v) <= u8::MAX {
            Ok(rounded_magnitude(v) as u8)
        } else {
            Err(DecimalConvertError::Overflow)
        }
    }
}

impl vstd::std_specs::convert::TryFromSpecImpl<Decimal> for u16 {
    open spec fn obeys_try_from_spec() -> bool {
        true
    }

    open spec fn try_from_spec(v: Decimal) -> Result<u16, DecimalConvertError> {
        if !v.s() && rounded_magnitude(v) <= u16::MAX {
            Ok(rounded_magnitude(v) as u16)
        } else {
            Err(DecimalConvertError::Overflow)
        }
    }
}

impl vstd::std_specs::convert::TryFromSpecImpl<Decimal> for u32 {
    open spec fn obeys_try_from_spec() -> bool {
        true
    }

    open spec fn try_from_spec(v: Decimal) -> Result<u32, DecimalConvertError> {
        if !v.s() && rounded_magnitude(v) <= u32::MAX {
            Ok(rounded_magnitude(v) as u32)
        } else {
            Err(DecimalConvertError::Overflow)
        }
    }
}

impl vstd::std_specs::convert::TryFromSpecImpl<Decimal> for u64 {
    open spec fn obeys_try_from_spec() -> bool {
        true
    }

    open spec fn try_from_spec(v: Decimal) -> Result<u64, DecimalConvertError> {
        if !v.s() && rounded_magnitude(v) <= u64::MAX {
            Ok(rounded_magnitude(v) as u64)
        } else {
            Err(DecimalConvertError::Overflow)
        }
    }
}

impl vstd::std_specs::convert::TryFromSpecImpl<Decimal> for usize {
    open spec fn obeys_try_from_spec() -> bool {
        true
    }

    open spec fn try_from_spec(v: Decimal) -> Result<usize, DecimalConvertError> {
        if !v.s() && rounded_magnitude(v) <= usize::MAX {
            Ok(rounded_magnitude(v) as usize)
        } else {
            Err(DecimalConvertError::Overflow)
        }
    }
}

impl vstd::std_specs::convert::TryFromSpecImpl<Decimal> for i128 {
    open spec fn obeys_try_from_spec() -> bool {
        true
    }

    open spec fn try_from_spec(v: Decimal) -> Result<i128, DecimalConvertError> {
        let x = if v.s() {
            -rounded_magnitude(v)
        } else {
            rounded_magnitude(v)
        };
        if i128::MIN <= x <= i128::MAX {
            Ok(x as i128)
        } else {
            Err(DecimalConvertError::Overflow)
        }
    }
}

impl vstd::std_specs::convert::TryFromSpecImpl<Decimal> for i8 {
    open spec fn obeys_try_from_spec() -> bool {
        true
    }

    open spec fn try_from_spec(v: Decimal) -> Result<i8, DecimalConvertError> {
        let x = if v.s() {
            -rounded_magnitude(v)
        } else {
            rounded_magnitude(v)
        };
        if i8::MIN <= x <= i8::MAX {
            Ok(x as i8)
        } else {
            Err(DecimalConvertError::Overflow)
        }
    }
}

impl vstd::std_specs::convert::TryFromSpecImpl<Decimal> for i16 {
    open spec fn obeys_try_from_spec() -> bool {
        true
    }

    open spec fn try_from_spec(v: Decimal) -> Result<i16, DecimalConvertError> {
        let x = if v.s() {
            -rounded_magnitude(v)
        } else {
            rounded_magnitude(v)
        };
        if i16::MIN <= x <= i16::MAX {
            Ok(x as i16)
        } else {
            Err(DecimalConvertError::Overflow)
        }
    }
}

impl vstd::std_specs::convert::TryFromSpecImpl<Decimal> for i32 {
    open spec fn obeys_try_from_spec() -> bool {
        true
    }

    open spec fn try_from_spec(v: Decimal) -> Result<i32, DecimalConvertError> {
        let x = if v.s() {
            -rounded_magnitude(v)
        } else {
            rounded_magnitude(v)
        };
        if i32::MIN <= x <= i32::MAX {
            Ok(x as i32)
        } else {
            Err(DecimalConvertError::Overflow)
        }
    }
}

impl vstd::std_specs::convert::TryFromSpecImpl<Decimal> for i64 {
    open spec fn obeys_try_from_spec() -> bool {
        true
    }

    open spec fn try_from_spec(v: Decimal) -> Result<i64, DecimalConvertError> {
        let x = if v.s() {
            -rounded_magnitude(v)
        } else {
            rounded_magnitude(v)
        };
        if i64::MIN <= x <= i64::MAX {
            Ok(x as i64)
        } else {
            Err(DecimalConvertError::Overflow)
        }
    }
}

impl vstd::std_specs::convert::TryFromSpecImpl<Decimal> for isize {
    open spec fn obeys_try_from_spec() -> bool {
        true
    }

    open spec fn try_from_spec(v: Decimal) -> Result<isize, DecimalConvertError> {
        let x = if v.s() {
            -rounded_magnitude(v)
        } else {
            rounded_magnitude(v)
        };
        if isize::MIN <= x <= isize::MAX {
            Ok(x as isize)
        } else {
            Err(DecimalConvertError::Overflow)
        }
    }
}

} // verus!
