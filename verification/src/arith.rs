//! Arithmetic on doubles: correctly rounded addition, the product with a
//! bit, and the order.

use crate::double::{
    lemma_finite_is_exact, lemma_magnitude_order, lemma_pow2_le, lemma_representable, lemma_split,
    lemma_zero_magnitude, nearest, rounded, with_magnitude, Double, HIDDEN, INFINITE, ONE,
    QUIET_NAN, SIGN,
};
use vstd::arithmetic::div_mod::lemma_fundamental_div_mod;
use vstd::arithmetic::power2::{
    lemma2_to64, lemma2_to64_rest, lemma_pow2_adds, lemma_pow2_pos, lemma_pow2_unfold, pow2,
};
use vstd::bits::{lemma_u64_pow2_no_overflow, lemma_u64_shl_is_mul};
use vstd::prelude::*;

verus! {

// ---------------------------------------------------------------------
// What the operations give
// ---------------------------------------------------------------------
/// `x` with a minus sign where `negative` holds.
pub open spec fn signed(negative: bool, x: nat) -> int {
    if negative {
        -(x as int)
    } else {
        x as int
    }
}

/// The pattern of the infinity with the given sign.
pub open spec fn infinity(negative: bool) -> Double {
    Double { bits: if negative { (SIGN + INFINITE) as u64 } else { INFINITE } }
}

/// The sum of two doubles, rounded to the nearest double, ties to the even
/// significand.
///
/// A sum with a NaN, or of two infinities of opposite sign, is the quiet
/// NaN. An infinity stays what it is when a finite double is added. A sum
/// that is exactly zero is the negative zero where both operands are
/// negative, and the positive zero otherwise. Every other sum is the double
/// nearest to the exact sum of the two values.
pub open spec fn sum(a: Double, b: Double) -> Double {
    if a.is_nan() || b.is_nan() {
        Double { bits: QUIET_NAN }
    } else if a.is_infinite() && b.is_infinite() {
        if a.negative() == b.negative() {
            a
        } else {
            Double { bits: QUIET_NAN }
        }
    } else if a.is_infinite() {
        a
    } else if b.is_infinite() {
        b
    } else if a.value() + b.value() == 0 {
        Double { bits: if a.negative() && b.negative() { SIGN } else { 0 } }
    } else {
        nearest(a.value() + b.value())
    }
}

/// The double with the opposite sign.
pub open spec fn negated(a: Double) -> Double {
    Double { bits: if a.bits >= SIGN { (a.bits - SIGN) as u64 } else { (a.bits + SIGN) as u64 } }
}

/// The difference of two doubles: the sum of the first and the negated
/// second.
pub open spec fn difference(a: Double, b: Double) -> Double {
    sum(a, negated(b))
}

/// The product of a double with a bit, taken as the number 1 or 0.
///
/// A NaN gives the quiet NaN. With the bit set the product is the double
/// itself. With the bit clear it is the zero with the double's sign, but
/// for an infinity, whose product with zero is the quiet NaN.
pub open spec fn gated(w: Double, on: bool) -> Double {
    if w.is_nan() {
        Double { bits: QUIET_NAN }
    } else if on {
        w
    } else if w.is_infinite() {
        Double { bits: QUIET_NAN }
    } else {
        Double { bits: if w.negative() { SIGN } else { 0 } }
    }
}

/// The order of doubles: `a` is a number, `b` is a number, and the value of
/// `a` is above that of `b`. The two zeros are equal, and an infinity lies
/// beyond every finite double of its sign.
pub open spec fn greater(a: Double, b: Double) -> bool {
    !a.is_nan() && !b.is_nan() && a.value() > b.value()
}

/// The double is a number above zero.
pub open spec fn positive(a: Double) -> bool {
    !a.is_nan() && a.value() > 0
}

/// `x` is a number whose absolute value is at most that of the number
/// `bound`.
pub open spec fn bounded(x: Double, bound: Double) -> bool {
    !x.is_nan() && !bound.is_nan() && x.magnitude() <= bound.magnitude()
}

/// The double is a probability: a number between 0 and 1, bounds included.
pub open spec fn is_chance(p: Double) -> bool {
    bounded(p, Double { bits: ONE }) && p.value() >= 0
}

/// The double is a distance: a number that is not below 0.
pub open spec fn is_amount(a: Double) -> bool {
    !a.is_nan() && a.value() >= 0
}

/// `x` lies strictly between `center - amount` and `center + amount`.
pub open spec fn between(x: Double, center: Double, amount: Double) -> bool {
    greater(x, difference(center, amount)) && greater(sum(center, amount), x)
}

/// The bounds between which a mutation may draw, where a value can be drawn
/// between them: both are finite, the upper is above the lower, and their
/// distance is finite.
pub open spec fn drawable(low: Double, high: Double) -> bool {
    &&& low.is_finite()
    &&& high.is_finite()
    &&& greater(high, low)
    &&& difference(high, low).is_finite()
}

// ---------------------------------------------------------------------
// Facts about zero
// ---------------------------------------------------------------------
/// Adding a zero to a number, or taking a zero from it, leaves its value as
/// it is.
pub proof fn lemma_zero_is_neutral(a: Double, zero: Double)
    requires
        zero.is_zero(),
        !a.is_nan(),
    ensures
        !sum(a, zero).is_nan(),
        sum(a, zero).value() == a.value(),
        !difference(a, zero).is_nan(),
        difference(a, zero).value() == a.value(),
{
    let other = negated(zero);
    assert(other.magnitude_bits() == 0);
    lemma_zero_magnitude(zero);
    lemma_zero_magnitude(other);
    lemma2_to64();
    if a.is_finite() {
        lemma_finite_is_exact(a);
    }
}

/// Around any center, no double lies strictly within a distance of zero.
pub proof fn lemma_nothing_within_zero(x: Double, center: Double, amount: Double)
    requires
        amount.is_zero(),
    ensures
        !between(x, center, amount),
{
    if !center.is_nan() {
        lemma_zero_is_neutral(center, amount);
    }
}

// ---------------------------------------------------------------------
// Addition
// ---------------------------------------------------------------------
/// 2 to the power `n`.
fn power_of_two(n: u64) -> (p: u64)
    requires
        n <= 62,
    ensures
        p == pow2(n as nat),
        p >= 1,
{
    proof {
        lemma_u64_pow2_no_overflow(n as nat);
        lemma_u64_shl_is_mul(1, n);
        lemma_pow2_pos(n as nat);
    }
    1u64 << n
}

/// The double with the given sign and with `bits` for its exponent and
/// fraction fields, or the infinity with that sign where `bits` is beyond
/// the finite patterns.
fn pattern(negative: bool, bits: u64) -> (r: Double)
    requires
        bits < SIGN,
    ensures
        bits < INFINITE ==> r.bits == (if negative { SIGN as int } else { 0 }) + bits,
        bits >= INFINITE ==> r == infinity(negative),
{
    let capped: u64 = if bits >= INFINITE {
        INFINITE
    } else {
        bits
    };
    if negative {
        Double { bits: SIGN + capped }
    } else {
        Double { bits: capped }
    }
}

/// The exponent and the significand of a finite pattern without sign.
fn fields(bits: u64) -> (r: (u64, u64))
    requires
        bits < INFINITE,
    ensures
        r.0 == (Double { bits }).exponent(),
        r.1 == (Double { bits }).significand(),
        1 <= r.0 <= 2046,
        r.1 < 0x20_0000_0000_0000,
        r.0 > 1 ==> r.1 >= 0x10_0000_0000_0000,
        bits > 0 ==> r.1 > 0,
{
    let field: u64 = bits / HIDDEN;
    let fraction: u64 = bits % HIDDEN;
    if field == 0 {
        (1, fraction)
    } else {
        (field, HIDDEN + fraction)
    }
}

/// The double nearest to `s` units of 2^(`u` - 1074), with the given sign.
fn round_scaled(negative: bool, s: u128, u: u64) -> (r: Double)
    requires
        0 < s < 0x4_0000_0000_0000_0000_0000_0000_0000,
        u <= 2045,
    ensures
        r == nearest(signed(negative, s as nat * pow2(u as nat))),
{
    let ghost m: nat = s as nat * pow2(u as nat);
    proof {
        lemma_pow2_pos(u as nat);
        assert(m > 0) by (nonlinear_arith)
            requires
                m == s as nat * pow2(u as nat),
                s > 0,
                pow2(u as nat) > 0,
        ;
    }
    if s < 0x20_0000_0000_0000 {
        let mut q: u64 = s as u64;
        let mut k: u64 = u;
        while q < HIDDEN && k > 0
            invariant
                k <= u,
                0 < q < 0x20_0000_0000_0000,
                q * pow2(k as nat) == m,
            decreases k,
        {
            proof {
                lemma_pow2_unfold(k as nat);
                assert((q * 2) * pow2((k - 1) as nat) == q * (2 * pow2((k - 1) as nat)))
                    by (nonlinear_arith);
            }
            q = q * 2;
            k = k - 1;
        }
        proof {
            lemma_representable(negative, q as nat, k as nat);
        }
        pattern(negative, k * HIDDEN + q)
    } else {
        let mut sh: u64 = 1;
        let mut p: u128 = 2;
        proof {
            lemma2_to64();
        }
        while s / p >= 0x20_0000_0000_0000
            invariant
                1 <= sh <= 61,
                p == pow2(sh as nat),
                p >= 2,
                0x10_0000_0000_0000 * p <= s < 0x4_0000_0000_0000_0000_0000_0000_0000,
            decreases 61 - sh,
        {
            proof {
                lemma2_to64_rest();
                lemma_pow2_unfold((sh + 1) as nat);
                assert(0x20_0000_0000_0000 * p <= s) by (nonlinear_arith)
                    requires
                        s / p >= 0x20_0000_0000_0000,
                        p > 0,
                ;
                if sh >= 61 {
                    lemma_pow2_le(61, sh as nat);
                }
            }
            p = p * 2;
            sh = sh + 1;
        }
        let q: u64 = (s / p) as u64;
        let rest: u128 = s % p;
        let half: u128 = p / 2;
        let up: bool = rest > half || (rest == half && q % 2 == 1);
        let q2: u64 = if up {
            q + 1
        } else {
            q
        };
        let k: u64 = u + sh;
        proof {
            let unit = pow2(k as nat);
            let low = rest as nat * pow2(u as nat);
            lemma_pow2_adds(sh as nat, u as nat);
            lemma_pow2_pos(k as nat);
            lemma_pow2_unfold(sh as nat);
            lemma_fundamental_div_mod(s as int, p as int);
            assert(q == s / p);
            assert(q >= 0x10_0000_0000_0000) by (nonlinear_arith)
                requires
                    0x10_0000_0000_0000 * p <= s,
                    q == s / p,
                    p > 0,
            ;
            assert(m == q * unit + low && low < unit && ((2 * low > unit) <==> rest > half) && ((2
                * low == unit) <==> rest == half)) by (nonlinear_arith)
                requires
                    m == s as nat * pow2(u as nat),
                    s == p * q + rest,
                    rest < p,
                    p == 2 * half,
                    unit == p * pow2(u as nat),
                    low == rest as nat * pow2(u as nat),
                    pow2(u as nat) > 0,
            ;
            lemma_split(m, q as nat, k as nat, low);
            assert(rounded(m) == q2 * unit);
            if q2 < 0x20_0000_0000_0000 {
                lemma_representable(negative, q2 as nat, k as nat);
            } else {
                lemma_pow2_unfold((k + 1) as nat);
                assert(q2 * unit == 0x10_0000_0000_0000 * pow2((k + 1) as nat))
                    by (nonlinear_arith)
                    requires
                        q2 == 0x20_0000_0000_0000,
                        pow2((k + 1) as nat) == 2 * unit,
                ;
                lemma_representable(negative, 0x10_0000_0000_0000, (k + 1) as nat);
            }
        }
        if k >= 2046 {
            pattern(negative, INFINITE)
        } else {
            pattern(negative, k * HIDDEN + q2)
        }
    }
}

/// Adding a double that lies more than sixty binades below a normal double
/// leaves the nearest double where it was: at the larger operand.
proof fn lemma_far_apart(hn: bool, hs: nat, he: nat, ln: bool, ls: nat, le: nat)
    requires
        1 <= le,
        le + 60 < he <= 2046,
        0x10_0000_0000_0000 <= hs < 0x20_0000_0000_0000,
        0 < ls < 0x20_0000_0000_0000,
    ensures
        ({
            let high = hs * pow2((he - 1) as nat);
            let low = ls * pow2((le - 1) as nat);
            nearest(signed(hn, high) + signed(ln, low)) == with_magnitude(hn, high)
        }),
{
    let uh = (he - 1) as nat;
    let ul = (le - 1) as nat;
    let unit = pow2(uh);
    let high = hs * unit;
    let low = ls * pow2(ul);
    let gap = (uh - ul - 61) as nat;
    lemma2_to64_rest();
    lemma_pow2_adds(ul, 61 + gap);
    lemma_pow2_adds(61, gap);
    lemma_pow2_pos(gap);
    lemma_pow2_pos(ul);
    lemma_pow2_pos(uh);
    assert(256 * low < unit && low > 0) by (nonlinear_arith)
        requires
            low == ls * pow2(ul),
            0 < ls < 0x20_0000_0000_0000,
            unit == pow2(ul) * (0x2000000000000000 * pow2(gap)),
            pow2(gap) >= 1,
            pow2(ul) >= 1,
    ;
    assert(high >= 0x10_0000_0000_0000 * unit) by (nonlinear_arith)
        requires
            high == hs * unit,
            hs >= 0x10_0000_0000_0000,
            unit > 0,
    ;
    lemma_representable(hn, hs, uh);
    if hn == ln {
        let m = (high + low) as nat;
        assert(signed(hn, high) + signed(ln, low) == signed(hn, m));
        lemma_split(m, hs, uh, low);
    } else if hs > 0x10_0000_0000_0000 {
        let m = (high - low) as nat;
        assert(signed(hn, high) + signed(ln, low) == signed(hn, m));
        assert(m == (hs - 1) * unit + (unit - low)) by (nonlinear_arith)
            requires
                m == hs * unit - low,
        ;
        lemma_split(m, (hs - 1) as nat, uh, (unit - low) as nat);
        assert(rounded(m) == high);
    } else {
        let m = (high - low) as nat;
        let finer = pow2((uh - 1) as nat);
        lemma_pow2_unfold(uh);
        assert(signed(hn, high) + signed(ln, low) == signed(hn, m));
        assert(m == 0x1f_ffff_ffff_ffff * finer + (finer - low)) by (nonlinear_arith)
            requires
                m == hs * unit - low,
                hs == 0x10_0000_0000_0000,
                unit == 2 * finer,
        ;
        lemma_split(m, 0x1f_ffff_ffff_ffff, (uh - 1) as nat, (finer - low) as nat);
        assert(rounded(m) == high) by (nonlinear_arith)
            requires
                rounded(m) == (0x1f_ffff_ffff_ffff + 1) * finer,
                high == hs * unit,
                hs == 0x10_0000_0000_0000,
                unit == 2 * finer,
        ;
    }
}

/// The sum of two finite doubles other than zero, the first of them with
/// the larger exponent, each given by its sign, exponent and significand.
fn add_ordered(hi: Double, hn: bool, he: u64, hs: u64, ln: bool, le: u64, ls: u64) -> (r: Double)
    requires
        hi.is_finite(),
        hi.negative() == hn,
        hi.exponent() == he,
        hi.significand() == hs,
        1 <= le <= he <= 2046,
        0 < hs < 0x20_0000_0000_0000,
        0 < ls < 0x20_0000_0000_0000,
        he > 1 ==> hs >= 0x10_0000_0000_0000,
        le > 1 ==> ls >= 0x10_0000_0000_0000,
    ensures
        ({
            let v = signed(hn, hs as nat * pow2((he - 1) as nat)) + signed(
                ln,
                ls as nat * pow2((le - 1) as nat),
            );
            r == if v == 0 {
                Double { bits: 0 }
            } else {
                nearest(v)
            }
        }),
{
    let d: u64 = he - le;
    let ghost unit = pow2((le - 1) as nat);
    let ghost high = hs as nat * pow2((he - 1) as nat);
    let ghost low = ls as nat * unit;
    proof {
        lemma_pow2_pos((le - 1) as nat);
        lemma_pow2_pos((he - 1) as nat);
        assert(low > 0 && high > 0) by (nonlinear_arith)
            requires
                low == ls as nat * unit,
                high == hs as nat * pow2((he - 1) as nat),
                ls > 0,
                hs > 0,
                unit > 0,
                pow2((he - 1) as nat) > 0,
        ;
    }
    if d > 60 {
        proof {
            lemma_far_apart(hn, hs as nat, he as nat, ln, ls as nat, le as nat);
            lemma_finite_is_exact(hi);
            assert(256 * low < high) by {
                let gap = (he - le - 61) as nat;
                lemma2_to64_rest();
                lemma_pow2_adds((le - 1) as nat, 61 + gap);
                lemma_pow2_adds(61, gap);
                lemma_pow2_pos(gap);
                assert(256 * low < high) by (nonlinear_arith)
                    requires
                        low == ls as nat * unit,
                        high == hs as nat * (unit * (0x2000000000000000 * pow2(gap))),
                        0 < ls < 0x20_0000_0000_0000,
                        hs >= 0x10_0000_0000_0000,
                        unit >= 1,
                        pow2(gap) >= 1,
                ;
            }
        }
        return hi;
    }
    let p: u128 = power_of_two(d) as u128;
    proof {
        lemma2_to64_rest();
        lemma_pow2_le(d as nat, 60);
        assert(hs * p < 0x20_0000_0000_0000 * 0x1000000000000000) by (nonlinear_arith)
            requires
                0 < hs < 0x20_0000_0000_0000,
                0 < p <= 0x1000000000000000,
        ;
    }
    let big: u128 = (hs as u128) * p;
    let small: u128 = ls as u128;
    proof {
        lemma2_to64_rest();
        lemma_pow2_le(d as nat, 60);
        lemma_pow2_adds(d as nat, (le - 1) as nat);
        assert(big < 0x20_0000_0000_0000 * 0x1000000000000000 && big > 0 && high == big * unit)
            by (nonlinear_arith)
            requires
                big == hs * p,
                0 < hs < 0x20_0000_0000_0000,
                0 < p <= 0x1000000000000000,
                high == hs as nat * (p * unit),
        ;
    }
    if hn == ln {
        proof {
            assert(signed(hn, high) + signed(ln, low) == signed(hn, (big + small) as nat * unit))
                by (nonlinear_arith)
                requires
                    hn == ln,
                    high == big * unit,
                    low == small * unit,
            ;
            assert((big + small) as nat * unit > 0) by (nonlinear_arith)
                requires
                    big > 0,
                    unit > 0,
            ;
        }
        round_scaled(hn, big + small, le - 1)
    } else if big > small {
        proof {
            assert(signed(hn, high) + signed(ln, low) == signed(hn, (big - small) as nat * unit))
                by (nonlinear_arith)
                requires
                    hn != ln,
                    big > small,
                    high == big * unit,
                    low == small * unit,
            ;
            assert((big - small) as nat * unit > 0) by (nonlinear_arith)
                requires
                    big > small,
                    unit > 0,
            ;
        }
        round_scaled(hn, big - small, le - 1)
    } else if big < small {
        proof {
            assert(signed(hn, high) + signed(ln, low) == signed(ln, (small - big) as nat * unit))
                by (nonlinear_arith)
                requires
                    hn != ln,
                    big < small,
                    high == big * unit,
                    low == small * unit,
            ;
            assert((small - big) as nat * unit > 0) by (nonlinear_arith)
                requires
                    big < small,
                    unit > 0,
            ;
        }
        round_scaled(ln, small - big, le - 1)
    } else {
        Double { bits: 0 }
    }
}

// ---------------------------------------------------------------------
// Operations
// ---------------------------------------------------------------------
impl Double {
    /// The product with a bit, taken as the number 1 or 0.
    pub fn times_bit(self, on: bool) -> (r: Double)
        ensures
            r == gated(self, on),
    {
        let m: u64 = self.abs_bits();
        if m > INFINITE {
            Double { bits: QUIET_NAN }
        } else if on {
            self
        } else if m == INFINITE {
            Double { bits: QUIET_NAN }
        } else if self.is_negative() {
            Double { bits: SIGN }
        } else {
            Double { bits: 0 }
        }
    }

    /// The double with the opposite sign.
    pub fn negate(self) -> (r: Double)
        ensures
            r == negated(self),
    {
        if self.bits >= SIGN {
            Double { bits: self.bits - SIGN }
        } else {
            Double { bits: self.bits + SIGN }
        }
    }

    /// The difference of two doubles, rounded to nearest, ties to even.
    pub fn minus(self, other: Double) -> (r: Double)
        ensures
            r == difference(self, other),
    {
        self.plus(other.negate())
    }

    /// Whether this double is a number whose absolute value is at most that
    /// of the number `bound`.
    pub fn within(self, bound: Double) -> (r: bool)
        ensures
            r == bounded(self, bound),
    {
        let m: u64 = self.abs_bits();
        let limit: u64 = bound.abs_bits();
        proof {
            if m <= INFINITE && limit <= INFINITE {
                if m < limit {
                    lemma_magnitude_order(self, bound);
                }
                if limit < m {
                    lemma_magnitude_order(bound, self);
                }
            }
        }
        m <= limit && limit <= INFINITE
    }

    /// Whether the pattern stands for a number that is not infinite.
    pub fn finite(self) -> (r: bool)
        ensures
            r == self.is_finite(),
    {
        self.abs_bits() < INFINITE
    }

    /// Whether this double is a number above zero.
    pub fn is_positive(self) -> (r: bool)
        ensures
            r == positive(self),
    {
        proof {
            if !self.is_nan() {
                lemma_zero_magnitude(self);
            }
        }
        self.bits > 0 && self.bits <= INFINITE
    }

    /// Whether this double is above `other`.
    pub fn gt(self, other: Double) -> (r: bool)
        ensures
            r == greater(self, other),
    {
        let am: u64 = self.abs_bits();
        let bm: u64 = other.abs_bits();
        if am > INFINITE || bm > INFINITE {
            return false;
        }
        proof {
            lemma_zero_magnitude(self);
            lemma_zero_magnitude(other);
            if am < bm {
                lemma_magnitude_order(self, other);
            }
            if bm < am {
                lemma_magnitude_order(other, self);
            }
        }
        if self.is_negative() {
            if other.is_negative() {
                am < bm
            } else {
                false
            }
        } else {
            if other.is_negative() {
                am > 0 || bm > 0
            } else {
                am > bm
            }
        }
    }

    /// The sum of two doubles, rounded to nearest, ties to even.
    pub fn plus(self, other: Double) -> (r: Double)
        ensures
            r == sum(self, other),
    {
        let am: u64 = self.abs_bits();
        let bm: u64 = other.abs_bits();
        let an: bool = self.is_negative();
        let bn: bool = other.is_negative();
        if am > INFINITE || bm > INFINITE {
            return Double { bits: QUIET_NAN };
        }
        if am == INFINITE {
            if bm == INFINITE && an != bn {
                return Double { bits: QUIET_NAN };
            }
            return self;
        }
        if bm == INFINITE {
            return other;
        }
        proof {
            lemma_finite_is_exact(self);
            lemma_finite_is_exact(other);
        }
        if bm == 0 {
            if am == 0 {
                return Double { bits: if an && bn { SIGN } else { 0 } };
            }
            return self;
        }
        if am == 0 {
            return other;
        }
        let a = fields(am);
        let b = fields(bm);
        if a.0 >= b.0 {
            add_ordered(self, an, a.0, a.1, bn, b.0, b.1)
        } else {
            add_ordered(other, bn, b.0, b.1, an, a.0, a.1)
        }
    }
}

/// Whether `x` lies strictly between `center - amount` and `center + amount`.
pub fn is_between(x: Double, center: Double, amount: Double) -> (r: bool)
    ensures
        r == between(x, center, amount),
{
    x.gt(center.minus(amount)) && center.plus(amount).gt(x)
}

/// The bounds `center - amount` and `center + amount`, where a value can be
/// drawn between them.
pub fn mutation_range(center: Double, amount: Double) -> (r: Option<(Double, Double)>)
    ensures
        r is Some <==> drawable(difference(center, amount), sum(center, amount)),
        match r {
            Some((low, high)) => low == difference(center, amount) && high == sum(center, amount),
            None => true,
        },
{
    let low: Double = center.minus(amount);
    let high: Double = center.plus(amount);
    if low.finite() && high.finite() && high.gt(low) && high.minus(low).finite() {
        Some((low, high))
    } else {
        None
    }
}

} // verus!
