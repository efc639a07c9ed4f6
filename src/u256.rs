//! Unsigned 256-bit integer.
use vstd::arithmetic::div_mod::*;
use vstd::arithmetic::mul::*;
use vstd::arithmetic::power::*;
use vstd::arithmetic::power2::*;
use vstd::prelude::*;

verus! {

/// The base of one limb, `2^128`.
pub open spec fn limb() -> int {
    u128::MAX as int + 1
}

/// The bound of a `U256`, `2^256`.
pub open spec fn bound() -> int {
    limb() * limb()
}

/// An unsigned 256-bit integer, held as two 128-bit limbs.
#[derive(Copy, Clone, Debug, PartialEq, Eq, Structural, PartialOrd, Ord)]
pub struct U256 {
    pub high: u128,
    pub low: u128,
}

impl View for U256 {
    type V = nat;

    open spec fn view(&self) -> nat {
        (self.high as int * limb() + self.low as int) as nat
    }
}

/// `n / d` rounded half up: the remainder counts as one unit where it is at least half of `d`.
pub open spec fn div_round(n: int, d: int) -> int {
    if 2 * (n % d) >= d {
        n / d + 1
    } else {
        n / d
    }
}

/// `k` is the number of decimal digits of `n`: the least `k >= 1` with `n < 10^k`.
pub open spec fn is_digit_count(n: int, k: int) -> bool {
    &&& 1 <= k
    &&& n < pow(10, k as nat)
    &&& (k == 1 || n >= pow(10, (k - 1) as nat))
}

/// Facts on the powers of ten that the wide arithmetic relies on.
pub proof fn lemma_pow10_facts(k: nat)
    ensures
        pow(10, k) >= 1,
        k <= 38 ==> pow(10, k) <= pow(10, 38),
        k <= 77 ==> pow(10, k) <= pow(10, 77),
        pow(10, 38) < limb(),
        pow(10, 38) == 100000000000000000000000000000000000000,
        pow(10, 77) < bound(),
        pow(10, 77) + limb() < bound(),
        pow(10, 78) >= bound(),
        pow(10, k + 1) == 10 * pow(10, k),
{
    lemma_pow_positive(10, k);
    if k <= 38 {
        lemma_pow_increases(10, k, 38);
    }
    if k <= 77 {
        lemma_pow_increases(10, k, 77);
    }
    reveal(pow);
    lemma_pow_adds(10, 38, 39);
    lemma_pow_adds(10, 39, 39);
    lemma_pow_adds(10, 1, 38);
    lemma_pow_adds(10, 1, k);
    lemma_pow1(10);
    assert(pow(10, 38) == 100000000000000000000000000000000000000) by {
        reveal_with_fuel(pow, 40);
    }
    assert(pow(10, 39) == 1000000000000000000000000000000000000000) by {
        reveal_with_fuel(pow, 41);
    }
    assert(pow(10, 77) == 100000000000000000000000000000000000000
        * 1000000000000000000000000000000000000000);
    assert(limb() == 340282366920938463463374607431768211456);
    assert(bound() == 340282366920938463463374607431768211456
        * 340282366920938463463374607431768211456);
}

/// `10^k` for `k <= 38`.
pub fn pow10_u128(k: u32) -> (r: u128)
    requires
        k <= 38,
    ensures
        r == pow(10, k as nat),
{
    let mut v: u128 = 1;
    let mut i: u32 = 0;
    proof {
        reveal(pow);
    }
    while i < k
        invariant
            i <= k <= 38,
            v == pow(10, i as nat),
        decreases k - i,
    {
        proof {
            lemma_pow10_facts(i as nat);
            lemma_pow10_facts((i + 1) as nat);
        }
        v = v * 10;
        i = i + 1;
    }
    v
}

/// `10^k` for `k <= 77`.
pub fn pow10(k: u32) -> (r: U256)
    requires
        k <= 77,
    ensures
        r@ == pow(10, k as nat),
{
    if k <= 38 {
        U256::from_low(pow10_u128(k))
    } else if k <= 76 {
        proof {
            lemma_pow_adds(10, 38, (k - 38) as nat);
        }
        U256::mul128(pow10_u128(38), pow10_u128(k - 38))
    } else {
        proof {
            lemma_pow_adds(10, 38, 38);
            lemma_pow10_facts(76);
            lemma_pow10_facts(77);
        }
        U256::mul128(pow10_u128(38), pow10_u128(38)).mul(U256::from_low(10))
    }
}

/// Half of `10^k`: the amount added before dropping `k` digits rounds half up.
pub fn rounding(k: u32) -> (r: U256)
    requires
        k <= 77,
    ensures
        r@ == pow(10, k as nat) / 2,
{
    pow10(k).half()
}

/// A value below one limb is its low limb.
pub proof fn lemma_limb_value(x: U256)
    requires
        x@ < limb(),
    ensures
        x.high == 0,
        x@ == x.low,
{
    if x.high > 0 {
        assert(x.high as int * limb() >= limb()) by (nonlinear_arith)
            requires
                x.high >= 1,
        ;
    }
}

/// The product of two two-limb values, expanded by limbs.
proof fn lemma_expand_product(ah: int, al: int, bh: int, bl: int, l: int)
    ensures
        (ah * l + al) * (bh * l + bl) == al * bl + (al * bh + ah * bl) * l + (ah * bh) * (l * l),
{
    let x = ah * l;
    let y = bh * l;
    lemma_mul_is_distributive_add_other_way(y + bl, x, al);
    lemma_mul_is_distributive_add(x, y, bl);
    lemma_mul_is_distributive_add(al, y, bl);
    lemma_mul_is_associative(ah, l, bh * l);
    lemma_mul_is_commutative(l, bh * l);
    lemma_mul_is_associative(bh, l, l);
    lemma_mul_is_associative(ah, bh, l * l);
    lemma_mul_is_associative(ah, l, bl);
    lemma_mul_is_commutative(l, bl);
    lemma_mul_is_associative(ah, bl, l);
    lemma_mul_is_associative(al, bh, l);
    lemma_mul_is_distributive_add_other_way(l, al * bh, ah * bl);
}

/// Every `U256` lies below `2^256`.
pub proof fn lemma_u256_bound(x: U256)
    ensures
        x@ < bound(),
{
    assert(x.high as int * limb() <= (limb() - 1) * limb()) by (nonlinear_arith)
        requires
            x.high as int <= limb() - 1,
            limb() > 0,
    ;
}

/// Two-limb values order as their high limbs, then their low limbs.
pub proof fn lemma_limb_order(h1: int, l1: int, h2: int, l2: int)
    requires
        0 <= l1 < limb(),
        0 <= l2 < limb(),
        0 <= h1,
        0 <= h2,
    ensures
        (h1 * limb() + l1 < h2 * limb() + l2) == (h1 < h2 || (h1 == h2 && l1 < l2)),
        (h1 * limb() + l1 == h2 * limb() + l2) == (h1 == h2 && l1 == l2),
{
    if h1 < h2 {
        assert(h1 * limb() + limb() <= h2 * limb()) by (nonlinear_arith)
            requires
                h1 < h2,
                limb() > 0,
        ;
    } else if h1 > h2 {
        assert(h2 * limb() + limb() <= h1 * limb()) by (nonlinear_arith)
            requires
                h2 < h1,
                limb() > 0,
        ;
    }
}

/// The product of two 64-bit values fits in one limb.
proof fn lemma_mul64(x: int, y: int)
    requires
        0 <= x < 0x1_0000_0000_0000_0000,
        0 <= y < 0x1_0000_0000_0000_0000,
    ensures
        0 <= x * y < limb(),
{
    assert(0 <= x * y <= (0x1_0000_0000_0000_0000 - 1) * (0x1_0000_0000_0000_0000 - 1))
        by (nonlinear_arith)
        requires
            0 <= x < 0x1_0000_0000_0000_0000,
            0 <= y < 0x1_0000_0000_0000_0000,
    ;
}

/// Splits a value below `2^128` into its two 64-bit halves.
proof fn lemma_split64(a: int)
    requires
        0 <= a,
    ensures
        a == (a / 0x1_0000_0000_0000_0000) * 0x1_0000_0000_0000_0000 + a % 0x1_0000_0000_0000_0000,
        0 <= a % 0x1_0000_0000_0000_0000 < 0x1_0000_0000_0000_0000,
        a < limb() ==> a / 0x1_0000_0000_0000_0000 < 0x1_0000_0000_0000_0000,
{
    lemma_fundamental_div_mod(a, 0x1_0000_0000_0000_0000);
    lemma_mod_bound(a, 0x1_0000_0000_0000_0000);
    if a < limb() {
        lemma_div_is_ordered(a, limb() - 1, 0x1_0000_0000_0000_0000);
        assert((limb() - 1) / 0x1_0000_0000_0000_0000 < 0x1_0000_0000_0000_0000);
    }
}

impl U256 {
    pub fn from_u128(low: u128, high: u128) -> (r: U256)
        ensures
            r.low == low,
            r.high == high,
            r@ == high as int * limb() + low as int,
    {
        U256 { high, low }
    }

    pub fn from_low(val: u128) -> (r: U256)
        ensures
            r@ == val as int,
            r.high == 0,
    {
        U256 { high: 0, low: val }
    }

    pub fn low(&self) -> (r: u128)
        ensures
            r == self.low,
    {
        self.low
    }

    pub fn high(&self) -> (r: u128)
        ensures
            r == self.high,
    {
        self.high
    }

    /// Adds with a carry out: the flag tells whether the sum reached `2^256`.
    pub fn overflowing_add(self, other: U256) -> (r: (U256, bool))
        ensures
            r.1 == (self@ + other@ >= bound()),
            !r.1 ==> r.0@ == self@ + other@,
            r.1 ==> r.0@ == self@ + other@ - bound(),
    {
        let (low, carry) = if self.low <= u128::MAX - other.low {
            (self.low + other.low, 0u128)
        } else {
            (self.low - (u128::MAX - other.low) - 1, 1u128)
        };
        let (h1, o1) = if self.high <= u128::MAX - other.high {
            (self.high + other.high, false)
        } else {
            (self.high - (u128::MAX - other.high) - 1, true)
        };
        let (high, o2) = if h1 <= u128::MAX - carry {
            (h1 + carry, false)
        } else {
            (0u128, true)
        };
        let overflow = o1 || o2;
        let r = U256 { high, low };
        assert(high as int == self.high as int + other.high as int + carry as int - (if overflow {
            limb()
        } else {
            0
        }));
        proof {
            let ov: int = if overflow {
                1
            } else {
                0
            };
            let sh = self.high as int;
            let oh = other.high as int;
            let c = carry as int;
            assert(low as int == self.low as int + other.low as int - c * limb());
            assert(high as int == sh + oh + c - ov * limb());
            assert(high as int * limb() == sh * limb() + oh * limb() + c * limb() - ov * bound())
                by (nonlinear_arith)
                requires
                    high as int == sh + oh + c - ov * limb(),
                    bound() == limb() * limb(),
            ;
            lemma_u256_bound(r);
        }
        (r, overflow)
    }

    /// Subtracts with a borrow out: the flag tells whether `other` exceeded `self`.
    pub fn overflowing_sub(self, other: U256) -> (r: (U256, bool))
        ensures
            r.1 == (self@ < other@),
            !r.1 ==> r.0@ == self@ - other@,
            r.1 ==> r.0@ == self@ - other@ + bound(),
    {
        let (low, borrow) = if self.low >= other.low {
            (self.low - other.low, 0u128)
        } else {
            (u128::MAX - (other.low - self.low) + 1, 1u128)
        };
        let (h1, o1) = if self.high >= other.high {
            (self.high - other.high, false)
        } else {
            (u128::MAX - (other.high - self.high) + 1, true)
        };
        let (high, o2) = if h1 >= borrow {
            (h1 - borrow, false)
        } else {
            (u128::MAX, true)
        };
        let overflow = o1 || o2;
        let r = U256 { high, low };
        proof {
            let ov: int = if overflow {
                1
            } else {
                0
            };
            let sh = self.high as int;
            let oh = other.high as int;
            let c = borrow as int;
            assert(low as int == self.low as int - other.low as int + c * limb());
            assert(high as int == sh - oh - c + ov * limb());
            assert(high as int * limb() == sh * limb() - oh * limb() - c * limb() + ov * bound())
                by (nonlinear_arith)
                requires
                    high as int == sh - oh - c + ov * limb(),
                    bound() == limb() * limb(),
            ;
            lemma_u256_bound(r);
            lemma_u256_bound(self);
            lemma_u256_bound(other);
        }
        (r, overflow)
    }

    pub fn checked_add(&self, other: U256) -> (r: Option<U256>)
        ensures
            r is Some <==> self@ + other@ < bound(),
            r is Some ==> r->0@ == self@ + other@,
    {
        let (res, overflow) = self.overflowing_add(other);
        if overflow {
            None
        } else {
            Some(res)
        }
    }

    pub fn checked_sub(&self, other: U256) -> (r: Option<U256>)
        ensures
            r is Some <==> self@ >= other@,
            r is Some ==> r->0@ == self@ - other@,
    {
        let (res, overflow) = self.overflowing_sub(other);
        if overflow {
            None
        } else {
            Some(res)
        }
    }

    /// Sum that is known to fit.
    pub fn add(self, other: U256) -> (r: U256)
        requires
            self@ + other@ < bound(),
        ensures
            r@ == self@ + other@,
    {
        self.overflowing_add(other).0
    }

    /// Difference that is known not to go below zero.
    pub fn sub(self, other: U256) -> (r: U256)
        requires
            self@ >= other@,
        ensures
            r@ == self@ - other@,
    {
        self.overflowing_sub(other).0
    }

    pub fn add128(left: u128, right: u128) -> (r: U256)
        ensures
            r@ == left as int + right as int,
    {
        proof {
            assert(limb() * limb() >= 2 * limb()) by (nonlinear_arith)
                requires
                    limb() >= 2,
            ;
        }
        U256::from_low(left).add(U256::from_low(right))
    }

    pub fn lt(&self, other: &U256) -> (r: bool)
        ensures
            r == (self@ < other@),
    {
        proof {
            lemma_limb_order(self.high as int, self.low as int, other.high as int, other.low as int);
        }
        self.high < other.high || (self.high == other.high && self.low < other.low)
    }

    /// Compares with a 128-bit value: -1, 0 or 1 as `self` is below, equal to or above it.
    pub fn cmp128(&self, other: u128) -> (r: i8)
        ensures
            r == -1 <==> self@ < other,
            r == 0 <==> self@ == other,
            r == 1 <==> self@ > other,
    {
        proof {
            lemma_limb_order(self.high as int, self.low as int, 0, other as int);
            lemma_limb_order(0, other as int, self.high as int, self.low as int);
        }
        if self.high > 0 {
            1
        } else if self.low < other {
            -1
        } else if self.low == other {
            0
        } else {
            1
        }
    }

    /// The full 256-bit product of two 128-bit values.
    pub fn mul128(left: u128, right: u128) -> (r: U256)
        ensures
            r@ == left as int * right as int,
    {
        let b: u128 = 0x1_0000_0000_0000_0000;
        let a0 = left % b;
        let a1 = left / b;
        let b0 = right % b;
        let b1 = right / b;
        proof {
            lemma_split64(left as int);
            lemma_split64(right as int);
            lemma_mul64(a0 as int, b0 as int);
            lemma_mul64(a0 as int, b1 as int);
            lemma_mul64(a1 as int, b0 as int);
            lemma_mul64(a1 as int, b1 as int);
        }
        let p00 = a0 * b0;
        let p01 = a0 * b1;
        let p10 = a1 * b0;
        let p11 = a1 * b1;
        proof {
            lemma_split64(p01 as int);
            lemma_split64(p10 as int);
        }
        let m01 = U256 { high: p01 / b, low: (p01 % b) * b };
        let m10 = U256 { high: p10 / b, low: (p10 % b) * b };
        let t00 = U256 { high: 0, low: p00 };
        let t11 = U256 { high: p11, low: 0 };
        proof {
            let bb = b as int;
            assert(limb() == bb * bb);
            assert(m01@ == p01 as int * bb) by (nonlinear_arith)
                requires
                    m01@ == (p01 as int / bb) * limb() + (p01 as int % bb) * bb,
                    p01 as int == (p01 as int / bb) * bb + p01 as int % bb,
                    limb() == bb * bb,
            ;
            assert(m10@ == p10 as int * bb) by (nonlinear_arith)
                requires
                    m10@ == (p10 as int / bb) * limb() + (p10 as int % bb) * bb,
                    p10 as int == (p10 as int / bb) * bb + p10 as int % bb,
                    limb() == bb * bb,
            ;
            assert(left as int * right as int == p11 as int * limb() + p01 as int * bb + p10 as int
                * bb + p00 as int) by (nonlinear_arith)
                requires
                    left as int == a1 as int * bb + a0 as int,
                    right as int == b1 as int * bb + b0 as int,
                    p00 as int == a0 as int * b0 as int,
                    p01 as int == a0 as int * b1 as int,
                    p10 as int == a1 as int * b0 as int,
                    p11 as int == a1 as int * b1 as int,
                    limb() == bb * bb,
            ;
            assert((left as int) * (right as int) < bound()) by (nonlinear_arith)
                requires
                    left as int <= limb() - 1,
                    right as int <= limb() - 1,
                    0 <= left,
                    0 <= right,
                    bound() == limb() * limb(),
            ;
        }
        t11.add(m01).add(m10).add(t00)
    }

    /// The product, or `None` where it reaches `2^256`.
    pub fn checked_mul(&self, other: U256) -> (r: Option<U256>)
        ensures
            r is Some <==> self@ * other@ < bound(),
            r is Some ==> r->0@ == self@ * other@,
    {
        if self.high != 0 && other.high != 0 {
            proof {
                assert(self@ * other@ >= limb() * limb()) by (nonlinear_arith)
                    requires
                        self@ >= limb(),
                        other@ >= limb(),
                ;
            }
            return None;
        }
        let (big, small) = if self.high != 0 {
            (*self, other.low)
        } else {
            (other, self.low)
        };
        assert(self@ * other@ == big@ * small as int) by (nonlinear_arith)
            requires
                (self@ == big@ && other@ == small as int) || (other@ == big@ && self@ == small as int),
        ;
        let lo = U256::mul128(big.low, small);
        let hi = U256::mul128(big.high, small);
        proof {
            assert(big@ * small as int == hi@ * limb() + lo@) by (nonlinear_arith)
                requires
                    big@ == big.high as int * limb() + big.low as int,
                    lo@ == big.low as int * small as int,
                    hi@ == big.high as int * small as int,
            ;
        }
        if hi.high != 0 {
            proof {
                assert(hi@ * limb() >= limb() * limb()) by (nonlinear_arith)
                    requires
                        hi@ >= limb(),
                ;
            }
            return None;
        }
        lo.checked_add(U256 { high: hi.low, low: 0 })
    }

    /// Adds modulo `2^256`.
    fn wrapping_add(self, other: U256) -> (r: U256)
        ensures
            r@ == (self@ + other@) as int % bound(),
    {
        let (res, overflow) = self.overflowing_add(other);
        proof {
            lemma_u256_bound(self);
            lemma_u256_bound(other);
            lemma_u256_bound(res);
            if overflow {
                lemma_fundamental_div_mod_converse((self@ + other@) as int, bound(), 1, res@ as int);
            } else {
                lemma_small_mod((self@ + other@) as nat, bound() as nat);
            }
        }
        res
    }

    /// The product modulo `2^256`.
    pub fn wrapping_mul(&self, other: U256) -> (r: U256)
        ensures
            r@ == (self@ * other@) as int % bound(),
    {
        let res = U256::mul128(self.low, other.low);
        let x1 = U256::mul128(self.low, other.high);
        let x2 = U256::mul128(self.high, other.low);
        let t1 = U256 { high: x1.low, low: 0 };
        let t2 = U256 { high: x2.low, low: 0 };
        let r = res.wrapping_add(t1).wrapping_add(t2);
        proof {
            let l = limb();
            let b = bound();
            let al = self.low as int;
            let ah = self.high as int;
            let bl = other.low as int;
            let bh = other.high as int;
            lemma_expand_product(ah, al, bh, bl, l);
            assert(x1@ * l == x1.low as int * l + x1.high as int * b) by (nonlinear_arith)
                requires
                    x1@ == x1.high as int * l + x1.low as int,
                    b == l * l,
            ;
            assert(x2@ * l == x2.low as int * l + x2.high as int * b) by (nonlinear_arith)
                requires
                    x2@ == x2.high as int * l + x2.low as int,
                    b == l * l,
            ;
            let base = res@ + t1@ + t2@;
            assert(self@ * other@ == base + (x1.high as int + x2.high as int + ah * bh) * b)
                by (nonlinear_arith)
                requires
                    self@ * other@ == al * bl + (al * bh + ah * bl) * l + (ah * bh) * b,
                    x1@ == al * bh,
                    x2@ == ah * bl,
                    res@ == al * bl,
                    x1@ * l == x1.low as int * l + x1.high as int * b,
                    x2@ * l == x2.low as int * l + x2.high as int * b,
                    t1@ == x1.low as int * l,
                    t2@ == x2.low as int * l,
                    base == res@ + t1@ + t2@,
            ;
            let k = x1.high as int + x2.high as int + ah * bh;
            assert(self@ * other@ == b * k + base) by (nonlinear_arith)
                requires
                    self@ * other@ == base + k * b,
            ;
            lemma_mod_multiples_vanish(k, base as int, b);
            lemma_u256_bound(t2);
            lemma_small_mod(t2@, b as nat);
            lemma_add_mod_noop((res@ + t1@) as int, t2@ as int, b);
            lemma_mod_twice((res@ + t1@) as int, b);
        }
        r
    }

    /// The product, where it is known to fit.
    pub fn mul(self, other: U256) -> (r: U256)
        requires
            self@ * other@ < bound(),
        ensures
            r@ == self@ * other@,
    {
        self.checked_mul(other).unwrap()
    }

    /// Half of the value, rounded down.
    pub fn half(&self) -> (r: U256)
        ensures
            r@ == self@ / 2,
    {
        let r = U256 { high: self.high / 2, low: self.low / 2 + (self.high % 2) * 0x8000_0000_0000_0000_0000_0000_0000_0000 };
        proof {
            assert(self.high as int == 2 * (self.high as int / 2) + self.high as int % 2);
            assert(self.low as int == 2 * (self.low as int / 2) + self.low as int % 2);
            assert(r@ == (self.high as int / 2) * limb() + self.low as int / 2 + (self.high as int % 2)
                * (limb() / 2));
            assert(self@ == 2 * r@ + self.low as int % 2) by (nonlinear_arith)
                requires
                    self@ == self.high as int * limb() + self.low as int,
                    self.high as int == 2 * (self.high as int / 2) + self.high as int % 2,
                    self.low as int == 2 * (self.low as int / 2) + self.low as int % 2,
                    r@ == (self.high as int / 2) * limb() + self.low as int / 2 + (self.high as int
                        % 2) * (limb() / 2),
                    limb() == 2 * (limb() / 2),
            ;
        }
        r
    }

    /// Quotient and remainder of a division by a non-zero value.
    pub fn div_rem(&self, other: U256) -> (r: (U256, U256))
        requires
            other@ > 0,
        ensures
            r.0@ * other@ + r.1@ == self@,
            r.1@ < other@,
            r.0@ == self@ / other@,
            r.1@ == self@ % other@,
    {
        let (q, rem) = self.div_rem_inner(other);
        proof {
            lemma_fundamental_div_mod_converse(self@ as int, other@ as int, q@ as int, rem@ as int);
        }
        (q, rem)
    }

    fn div_rem_inner(&self, other: U256) -> (r: (U256, U256))
        requires
            other@ > 0,
        ensures
            r.0@ * other@ + r.1@ == self@,
            r.1@ < other@,
    {
        if self.high == 0 && other.high == 0 {
            let q = self.low / other.low;
            let m = self.low % other.low;
            proof {
                lemma_fundamental_div_mod(self.low as int, other.low as int);
                lemma_mod_bound(self.low as int, other.low as int);
                assert(q as int * other.low as int == other.low as int * q as int) by (nonlinear_arith);
            }
            return (U256::from_low(q), U256::from_low(m));
        }
        if self.lt(&other) {
            assert(0 * other@ == 0) by (nonlinear_arith);
            return (U256::from_low(0), *self);
        }
        let n = *self;
        proof {
            lemma_u256_bound(n);
        }
        // Double the divisor while it stays at most half of `n`.
        let mut d = other;
        let mut p = U256::from_low(1);
        let ghost mut j: nat = 0;
        proof {
            lemma_pow2_pos(0);
            reveal(pow);
            assert(pow2(0) == 1);
        }
        while !n.sub(d).lt(&d)
            invariant
                d@ <= n@,
                n@ < bound(),
                other@ > 0,
                d@ == other@ * p@,
                p@ == pow2(j),
                p@ >= 1,
            decreases n@ - d@,
        {
            proof {
                assert(p@ <= d@) by (nonlinear_arith)
                    requires
                        d@ == other@ * p@,
                        other@ >= 1,
                        p@ >= 1,
                ;
                lemma_pow2_unfold(j + 1);
                assert(2 * d@ == other@ * (2 * p@)) by (nonlinear_arith)
                    requires
                        d@ == other@ * p@,
                ;
            }
            d = d.add(d);
            p = p.add(p);
            proof {
                j = j + 1;
            }
        }
        let mut q = U256::from_low(0);
        let mut rem = n;
        loop
            invariant
                q@ * other@ + rem@ == n@,
                rem@ < 2 * d@,
                d@ == other@ * p@,
                p@ == pow2(j),
                p@ >= 1,
                n@ < bound(),
                other@ > 0,
            ensures
                q@ * other@ + rem@ == n@,
                rem@ < other@,
            decreases j,
        {
            if !rem.lt(&d) {
                proof {
                    assert((q@ + p@) * other@ == q@ * other@ + d@) by (nonlinear_arith)
                        requires
                            d@ == other@ * p@,
                    ;
                    assert(q@ + p@ <= (q@ + p@) * other@) by (nonlinear_arith)
                        requires
                            other@ >= 1,
                    ;
                }
                rem = rem.sub(d);
                q = q.add(p);
            }
            if p.high == 0 && p.low == 1 {
                proof {
                    assert(d@ == other@) by (nonlinear_arith)
                        requires
                            d@ == other@ * p@,
                            p@ == 1,
                    ;
                }
                break;
            }
            proof {
                if j == 0 {
                    reveal(pow);
                    assert(pow2(0) == 1);
                }
                lemma_pow2_unfold(j);
                lemma_pow2_pos((j - 1) as nat);
                assert(d@ == 2 * (other@ * pow2((j - 1) as nat))) by (nonlinear_arith)
                    requires
                        d@ == other@ * p@,
                        p@ == 2 * pow2((j - 1) as nat),
                ;
            }
            d = d.half();
            p = p.half();
            proof {
                j = (j - 1) as nat;
            }
        }
        (q, rem)
    }

    /// Division by a 128-bit value with the quotient rounded half up.
    pub fn div128_round(&self, other: u128) -> (r: U256)
        requires
            other > 0,
        ensures
            r@ == div_round(self@ as int, other as int),
    {
        let (result, rem) = self.div_rem(U256::from_low(other));
        if rem.high == 0 && rem.low == 0 {
            result
        } else {
            let sub_result = other - rem.low;
            if rem.low >= sub_result {
                proof {
                    lemma_u256_bound(*self);
                    assert(other >= 2);
                    assert(result@ * 2 <= result@ * other) by (nonlinear_arith)
                        requires
                            other >= 2,
                    ;
                }
                result.add(U256::from_low(1))
            } else {
                result
            }
        }
    }

    /// The number of decimal digits of the value, counting zero as one digit.
    pub fn count_digits(&self) -> (r: u32)
        ensures
            is_digit_count(self@ as int, r as int),
    {
        proof {
            lemma_u256_bound(*self);
            lemma_pow10_facts(78);
            lemma_pow_increases(10, 1, 78);
        }
        let mut k: u32 = 1;
        while k < 78 && !self.lt(&pow10(k))
            invariant
                1 <= k <= 78,
                k > 1 ==> self@ >= pow(10, (k - 1) as nat),
                self@ < pow(10, 78),
            decreases 78 - k,
        {
            k = k + 1;
        }
        k
    }

    /// Whether the value has more than the 38 digits that a significand may hold.
    pub fn is_decimal_overflowed(&self) -> (r: bool)
        ensures
            r == (self@ >= pow(10, 38)),
    {
        proof {
            lemma_pow10_facts(38);
            lemma_limb_order(self.high as int, self.low as int, 0, pow(10, 38));
        }
        if self.high > 0 {
            true
        } else {
            self.low >= pow10_u128(38)
        }
    }
}

} // verus!
