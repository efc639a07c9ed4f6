//! The iterative algorithms, stated over the exact specifications of their steps.
use crate::decimal::{add_spec, div_spec, gives, mul_spec, Decimal};
use crate::laws::{lemma_equal_values_normal_forms, normal_form};
use vstd::prelude::*;

verus! {

/// The decimal with the parts `t`.
pub open spec fn dec_of(t: Option<(int, int, bool)>) -> Option<Decimal> {
    match t {
        Some((m, e, s)) => Some(Decimal::spec_from_parts(m as nat, e, s)),
        None => None,
    }
}

/// `a * b` as a decimal.
pub open spec fn mul_dec(a: Decimal, b: Decimal) -> Option<Decimal> {
    dec_of(mul_spec(a, b))
}

/// `a / b` as a decimal.
pub open spec fn div_dec(a: Decimal, b: Decimal) -> Option<Decimal> {
    dec_of(div_spec(a, b))
}

/// `a + b` as a decimal.
pub open spec fn add_dec(a: Decimal, b: Decimal) -> Option<Decimal> {
    dec_of(add_spec(a, b))
}

/// The decimal one.
pub open spec fn one_dec() -> Decimal {
    Decimal::spec_from_parts(1, 0, false)
}

/// The normal form of `d`.
pub open spec fn norm(d: Decimal) -> Decimal {
    choose|n: Decimal| normal_form(n, d)
}

/// A result that meets its parts is the decimal of those parts.
pub proof fn lemma_gives_of(r: Option<Decimal>, t: Option<(int, int, bool)>)
    requires
        gives(r, t),
    ensures
        r == dec_of(t),
{
    if let Some((m, e, s)) = t {
        Decimal::lemma_parts_determine(r->0, m as nat, e, s);
    }
}

/// A normal form of `d` is `norm(d)`.
pub proof fn lemma_norm(n: Decimal, d: Decimal)
    requires
        d.wf(),
        normal_form(n, d),
    ensures
        n == norm(d),
{
    let c = norm(d);
    assert(normal_form(c, d));
    Decimal::lemma_same_parts_equal(d, d);
    lemma_equal_values_normal_forms(d, d, n, c);
    Decimal::lemma_parts_determine(n, c.m(), c.e(), c.s());
    Decimal::lemma_parts_determine(c, c.m(), c.e(), c.s());
}

/// The squaring loop of `pow_u64`: square `px`, multiply it in where the low bit of `n` is
/// set, halve `n`.
pub open spec fn pow_steps(sum: Decimal, px: Decimal, n: nat) -> Option<Decimal>
    decreases n,
{
    if n == 0 {
        Some(sum)
    } else {
        match mul_dec(px, px) {
            None => None,
            Some(px2) => if n % 2 == 1 {
                match mul_dec(sum, px2) {
                    None => None,
                    Some(s2) => pow_steps(s2, px2, n / 2),
                }
            } else {
                pow_steps(sum, px2, n / 2)
            },
        }
    }
}

/// `x^n` by squaring, each product rounded to 38 digits.
pub open spec fn pow_spec(x: Decimal, n: nat) -> Option<Decimal> {
    if n == 0 {
        Some(one_dec())
    } else if n == 1 {
        Some(x)
    } else if n == 2 {
        mul_dec(x, x)
    } else if n % 2 == 1 {
        match mul_dec(one_dec(), x) {
            None => None,
            Some(s) => pow_steps(s, x, n / 2),
        }
    } else {
        pow_steps(one_dec(), x, n / 2)
    }
}

/// Where `x^y` surely fits 38 digits, so that `x^-y` may take `1 / x^y` directly.
pub open spec fn quick_range(x: Decimal, y: nat) -> bool {
    (y < 42 && x.cmp_spec(&Decimal::spec_from_parts(1163, 0, false)) < 0) || (y < 61 && x.cmp_spec(
        &Decimal::spec_from_parts(125, 0, false),
    ) < 0) || (y < 126 && x.cmp_spec(&Decimal::spec_from_parts(1, -1, false)) < 0)
}

/// `x^e` for an integer `e`: by squaring for `e >= 0`; for `e < 0` as `1 / x^-e` in the quick
/// range, else as `1 / x^(y/2) / x^(y/2)` (and `/ x` for odd `y`), which is zero where
/// `x^(y/2)` overflows.
pub open spec fn pow_int_spec(x: Decimal, e: int) -> Option<Decimal> {
    if e >= 0 {
        pow_spec(x, e as nat)
    } else if x.m() == 0 {
        None
    } else {
        let y = (-e) as nat;
        if quick_range(x, y) {
            match pow_spec(x, y) {
                None => None,
                Some(p) => div_dec(one_dec(), p),
            }
        } else {
            match pow_spec(x, y / 2) {
                None => Some(Decimal::spec_from_parts(0, 0, false)),
                Some(p) => match div_dec(one_dec(), p) {
                    None => None,
                    Some(q1) => match div_dec(q1, p) {
                        None => None,
                        Some(q2) => if y % 2 == 1 {
                            div_dec(q2, x)
                        } else {
                            Some(q2)
                        },
                    },
                },
            }
        }
    }
}

/// The Taylor series of `e^x` from the term `term` and partial sum `sum` of index `i`: each
/// next term is the last divided by its index, times `x`; it stops at a zero term, at a sum
/// that no longer moves, or at index 1000.
pub open spec fn exp_loop(x: Decimal, term: Decimal, sum: Decimal, i: nat) -> Option<Decimal>
    decreases 1000 - i,
{
    if i >= 1000 {
        Some(sum)
    } else {
        match div_dec(term, Decimal::spec_from_parts(i + 1, 0, false)) {
            None => None,
            Some(t1) => match mul_dec(t1, x) {
                None => None,
                Some(t2) => if t2.m() == 0 {
                    Some(sum)
                } else {
                    match add_dec(sum, t2) {
                        None => None,
                        Some(s2) => if sum.cmp_spec(&s2) == 0 {
                            Some(s2)
                        } else {
                            exp_loop(x, t2, s2, i + 1)
                        },
                    }
                },
            },
        }
    }
}

/// `e^x` by its Taylor series `1 + x + x^2/2! + ...`, each step rounded to 38 digits.
pub open spec fn exp_taylor(x: Decimal) -> Option<Decimal> {
    match add_dec(one_dec(), x) {
        None => None,
        Some(s) => exp_loop(x, x, s, 1),
    }
}

/// The decimal `m * 10^-e` of constant parts.
pub open spec fn cst(m: nat, e: int) -> Decimal {
    Decimal::spec_from_parts(m, e, false)
}

/// The integer `n` as a decimal.
pub open spec fn int_dec(n: int) -> Decimal {
    Decimal::spec_from_parts(if n < 0 { (-n) as nat } else { n as nat }, 0, n < 0)
}

/// The first reduction of `ln`: divide by ten while above 1.1, counting in `n`.
pub open spec fn ln_down(x: Decimal, n: int, steps: nat) -> Option<(Decimal, int)>
    decreases 1000 - steps,
{
    if steps >= 1000 || x.cmp_spec(&cst(11, 1)) <= 0 {
        Some((x, n))
    } else {
        match mul_dec(x, cst(1, 1)) {
            None => None,
            Some(y) => ln_down(y, n + 1, steps + 1),
        }
    }
}

/// The second reduction of `ln`: multiply by ten while at most 0.1, counting down in `n`.
pub open spec fn ln_up(x: Decimal, n: int, steps: nat) -> Option<(Decimal, int)>
    decreases 1000 - steps,
{
    if steps >= 1000 || x.cmp_spec(&cst(1, 1)) > 0 {
        Some((x, n))
    } else {
        match mul_dec(x, cst(10, 0)) {
            None => None,
            Some(y) => ln_up(y, n - 1, steps + 1),
        }
    }
}

/// The third reduction of `ln`: multiply by 1.2217 while below 0.9047, counting down in `n`.
pub open spec fn ln_r(x: Decimal, n: int, steps: nat) -> Option<(Decimal, int)>
    decreases 1000 - steps,
{
    if steps >= 1000 || x.cmp_spec(&cst(9047, 4)) >= 0 {
        Some((x, n))
    } else {
        match mul_dec(x, cst(12217, 4)) {
            None => None,
            Some(y) => ln_r(y, n - 1, steps + 1),
        }
    }
}

/// The series `y + y^3/3 + y^5/5 + ...` from the power `p = y^i` and partial sum `sum`: it
/// stops at a zero term, at a sum that no longer moves, or at index 2000.
pub open spec fn ln_series(y2: Decimal, p: Decimal, sum: Decimal, i: nat) -> Option<Decimal>
    decreases 2001 - i,
{
    if i >= 2000 {
        Some(sum)
    } else {
        match mul_dec(p, y2) {
            None => None,
            Some(p2) => match div_dec(p2, Decimal::spec_from_parts(i + 2, 0, false)) {
                None => None,
                Some(t) => if t.m() == 0 {
                    Some(sum)
                } else {
                    match add_dec(sum, t) {
                        None => None,
                        Some(s2) => if sum.cmp_spec(&s2) == 0 {
                            Some(s2)
                        } else {
                            ln_series(y2, p2, s2, i + 2)
                        },
                    }
                },
            },
        }
    }
}

/// `ln` of a reduced `z` and the counts `n1` (powers of ten) and `n2` (powers of 1.2217):
/// `2 * series(y) + n1 * ln(10) + n2 * ln(1.2217)` with `y = (z - 1) / (z + 1)`.
pub open spec fn ln_rebuild(z: Decimal, n1: int, n2: int) -> Option<Decimal> {
    match (dec_of(crate::decimal::sub_spec(z, one_dec())), add_dec(z, one_dec())) {
        (Some(zm), Some(zp)) => match div_dec(zm, zp) {
            None => None,
            Some(y) => match mul_dec(y, y) {
                None => None,
                Some(y2) => match ln_series(y2, y, y, 1) {
                    None => None,
                    Some(sum) => match mul_dec(sum, cst(2, 0)) {
                        None => None,
                        Some(ln_z) => match mul_dec(cst(23025850929940456840179914546843642076, 37), int_dec(n1)) {
                            None => None,
                            Some(t1) => match add_dec(ln_z, t1) {
                                None => None,
                                Some(r1) => match mul_dec(cst(2002433314278771112016301166984297937, 37), int_dec(n2)) {
                                    None => None,
                                    Some(t2) => add_dec(r1, t2),
                                },
                            },
                        },
                    },
                },
            },
        },
        _ => None,
    }
}

/// The natural logarithm: `None` at or below zero, zero at one, otherwise the range
/// reductions followed by the series.
pub open spec fn ln_spec(x: Decimal) -> Option<Decimal> {
    if x.s() || x.m() == 0 {
        None
    } else if x.cmp_spec(&one_dec()) == 0 {
        Some(Decimal::spec_from_parts(0, 0, false))
    } else {
        match ln_down(x, 0, 0) {
            None => None,
            Some((x1, n1)) => match ln_up(x1, n1, 0) {
                None => None,
                Some((x2, n1b)) => match ln_r(x2, 0, 0) {
                    None => None,
                    Some((z, n2)) => ln_rebuild(z, n1b, n2),
                },
            },
        }
    }
}

/// One half.
pub open spec fn half_dec() -> Decimal {
    Decimal::spec_from_parts(5, 1, false)
}

/// Newton's iteration for the square root of `x` from `result`, at most `1000 - i` more
/// steps: `(r + norm(x / r)) * 0.5`, until a step gives the value it started from.
pub open spec fn sqrt_loop(x: Decimal, result: Decimal, last: Decimal, i: nat) -> Option<Decimal>
    decreases 1000 - i,
{
    if i >= 1000 {
        Some(result)
    } else {
        match div_dec(x, result) {
            None => None,
            Some(v) => match add_dec(result, norm(v)) {
                None => None,
                Some(sm) => match mul_dec(sm, half_dec()) {
                    None => None,
                    Some(nx) => if nx.s() {
                        None
                    } else if nx.cmp_spec(&last) == 0 {
                        Some(nx)
                    } else {
                        sqrt_loop(x, nx, nx, i + 1)
                    },
                },
            },
        }
    }
}

/// The square root that Newton's iteration from one reaches.
pub open spec fn sqrt_spec(x: Decimal) -> Option<Decimal> {
    if x.s() {
        None
    } else if x.m() == 0 {
        Some(Decimal::spec_from_parts(0, 0, false))
    } else {
        sqrt_loop(x, one_dec(), one_dec(), 0)
    }
}

} // verus!
