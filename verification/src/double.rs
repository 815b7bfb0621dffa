//! Double-precision numbers held as their IEEE-754 bit patterns.
//!
//! A pattern has one sign bit, eleven exponent bits and fifty-two fraction
//! bits, from the most significant down. The number that a finite pattern
//! stands for is stated here as an integer: its value in units of 2^-1074,
//! the smallest positive double. Every finite double is a whole number of
//! such units, so sums of doubles are exact in this model.

use vstd::arithmetic::div_mod::{
    lemma_fundamental_div_mod, lemma_fundamental_div_mod_converse, lemma_mod_pos_bound,
};
use vstd::arithmetic::power2::{
    lemma2_to64, lemma2_to64_rest, lemma_pow2_adds, lemma_pow2_pos, lemma_pow2_strictly_increases,
    lemma_pow2_unfold, pow2,
};
use vstd::prelude::*;

verus! {

/// The sign bit.
pub const SIGN: u64 = 0x8000_0000_0000_0000;

/// The lowest exponent bit: 2^52, the hidden leading bit of a normal
/// double's significand.
pub const HIDDEN: u64 = 0x0010_0000_0000_0000;

/// The pattern of positive infinity: every exponent bit, no fraction bit.
pub const INFINITE: u64 = 0x7ff0_0000_0000_0000;

/// The pattern of the number 1.
pub const ONE: u64 = 0x3ff0_0000_0000_0000;

/// The pattern of the number 1/2.
pub const HALF: u64 = 0x3fe0_0000_0000_0000;

/// The pattern that arithmetic gives for a result that is not a number.
pub const QUIET_NAN: u64 = 0x7ff8_0000_0000_0000;

/// A binary64 number, identified by its 64-bit pattern. Two doubles are
/// equal when their patterns are: the two zeros differ, and a NaN equals
/// itself.
#[derive(Clone, Copy, Debug, PartialEq, Eq)]
pub struct Double {
    pub bits: u64,
}

impl Double {
    /// The sign bit is set.
    pub open spec fn negative(self) -> bool {
        self.bits >= SIGN
    }

    /// The pattern without its sign bit.
    pub open spec fn magnitude_bits(self) -> u64 {
        if self.bits >= SIGN {
            (self.bits - SIGN) as u64
        } else {
            self.bits
        }
    }

    /// The pattern stands for positive or negative zero.
    pub open spec fn is_zero(self) -> bool {
        self.magnitude_bits() == 0
    }

    /// The pattern stands for no number.
    pub open spec fn is_nan(self) -> bool {
        self.magnitude_bits() > INFINITE
    }

    /// The pattern stands for positive or negative infinity.
    pub open spec fn is_infinite(self) -> bool {
        self.magnitude_bits() == INFINITE
    }

    /// The pattern stands for a number that is not infinite.
    pub open spec fn is_finite(self) -> bool {
        self.magnitude_bits() < INFINITE
    }

    /// The exponent field, read as 1 where it is 0: subnormal doubles share
    /// the scale of the smallest normal ones.
    pub open spec fn exponent(self) -> nat {
        let field = self.magnitude_bits() / HIDDEN;
        if field == 0 {
            1
        } else {
            field as nat
        }
    }

    /// The fraction field, with the hidden bit in front where the double is
    /// normal.
    pub open spec fn significand(self) -> nat {
        let field = self.magnitude_bits() / HIDDEN;
        let fraction = self.magnitude_bits() % HIDDEN;
        if field == 0 {
            fraction as nat
        } else {
            (HIDDEN + fraction) as nat
        }
    }

    /// The absolute value in units of 2^-1074. Infinity counts as 2^2098
    /// units, one step beyond the largest finite double's binade.
    pub open spec fn magnitude(self) -> nat {
        self.significand() * pow2((self.exponent() - 1) as nat)
    }

    /// The value in units of 2^-1074, for a pattern that is a number.
    pub open spec fn value(self) -> int {
        if self.negative() {
            -(self.magnitude() as int)
        } else {
            self.magnitude() as int
        }
    }

    /// The number with the given bit pattern.
    pub fn from_bits(bits: u64) -> (d: Double)
        ensures
            d.bits == bits,
    {
        Double { bits }
    }

    /// The bit pattern of the number.
    pub fn to_bits(self) -> (bits: u64)
        ensures
            bits == self.bits,
    {
        self.bits
    }

    /// Whether the sign bit is set.
    pub fn is_negative(self) -> (b: bool)
        ensures
            b == self.negative(),
    {
        self.bits >= SIGN
    }

    /// The pattern without its sign bit.
    pub fn abs_bits(self) -> (m: u64)
        ensures
            m == self.magnitude_bits(),
            m < SIGN,
    {
        if self.bits >= SIGN {
            self.bits - SIGN
        } else {
            self.bits
        }
    }
}

// ---------------------------------------------------------------------
// Rounding
// ---------------------------------------------------------------------
/// The exponent of the unit in the last place of magnitude `m`: the least
/// `k` for which `m` is below 2^(53 + k).
pub open spec fn ulp_exponent(m: nat) -> nat
    decreases m,
{
    if m < 0x20_0000_0000_0000 {
        0
    } else {
        1 + ulp_exponent(m / 2)
    }
}

/// The representable magnitude nearest to `m`, the one with the even
/// significand where two are equally near.
pub open spec fn rounded(m: nat) -> nat {
    let unit = pow2(ulp_exponent(m));
    let q = m / unit;
    let r = m % unit;
    if 2 * r > unit || (2 * r == unit && q % 2 == 1) {
        (q + 1) * unit
    } else {
        q * unit
    }
}

/// The double with the given sign and representable magnitude.
pub open spec fn with_magnitude(negative: bool, m: nat) -> Double {
    let k = ulp_exponent(m);
    let sign: int = if negative {
        SIGN as int
    } else {
        0
    };
    Double { bits: (sign + k * HIDDEN + m / pow2(k)) as u64 }
}

/// The double nearest to `v` units of 2^-1074, for `v` other than 0: the
/// rounded magnitude with the sign of `v`, or infinity where that magnitude
/// is beyond every finite double.
pub open spec fn nearest(v: int) -> Double {
    let m = rounded(vstd::math::abs(v) as nat);
    if m >= pow2(2098) {
        Double { bits: if v < 0 { (SIGN + INFINITE) as u64 } else { INFINITE } }
    } else {
        with_magnitude(v < 0, m)
    }
}

// ---------------------------------------------------------------------
// Facts about magnitudes
// ---------------------------------------------------------------------
/// Powers of two grow with their exponents.
pub proof fn lemma_pow2_le(a: nat, b: nat)
    requires
        a <= b,
    ensures
        pow2(a) <= pow2(b),
{
    if a < b {
        lemma_pow2_strictly_increases(a, b);
    }
}

/// The magnitude beyond every finite double, as a significand at the two
/// exponents that can reach it.
pub proof fn lemma_overflow_threshold()
    ensures
        pow2(2098) == 0x20_0000_0000_0000 * pow2(2045),
        pow2(2098) == 0x10_0000_0000_0000 * pow2(2046),
{
    lemma2_to64_rest();
    lemma_pow2_adds(53, 2045);
    lemma_pow2_adds(52, 2046);
}

/// A magnitude between 2^(52 + k) and 2^(53 + k), or below 2^53 where `k`
/// is 0, has its unit in the last place at exponent `k`.
pub proof fn lemma_ulp_exponent(m: nat, k: nat)
    requires
        m < 0x20_0000_0000_0000 * pow2(k),
        k > 0 ==> 0x10_0000_0000_0000 * pow2(k) <= m,
    ensures
        ulp_exponent(m) == k,
    decreases k,
{
    lemma2_to64();
    if k == 0 {
    } else {
        lemma_pow2_unfold(k);
        lemma_pow2_pos((k - 1) as nat);
        let p = pow2((k - 1) as nat) as int;
        assert(0x10_0000_0000_0000 * (2 * p) >= 0x20_0000_0000_0000) by (nonlinear_arith)
            requires
                p >= 1,
        ;
        assert((m / 2) < 0x20_0000_0000_0000 * p && (k - 1 > 0 ==> 0x10_0000_0000_0000 * p <= m
            / 2)) by (nonlinear_arith)
            requires
                m < 0x20_0000_0000_0000 * (2 * p),
                0x10_0000_0000_0000 * (2 * p) <= m,
        ;
        lemma_ulp_exponent(m / 2, (k - 1) as nat);
    }
}

/// A magnitude that splits into a significand `q` at exponent `k` and a
/// remainder below one unit has its unit in the last place at exponent `k`,
/// and dividing by the unit gives the split back.
pub proof fn lemma_split(m: nat, q: nat, k: nat, rest: nat)
    requires
        m == q * pow2(k) + rest,
        rest < pow2(k),
        q < 0x20_0000_0000_0000,
        k > 0 ==> 0x10_0000_0000_0000 <= q,
    ensures
        ulp_exponent(m) == k,
        m / pow2(k) == q,
        m % pow2(k) == rest,
{
    let p = pow2(k) as int;
    lemma_pow2_pos(k);
    lemma_fundamental_div_mod_converse(m as int, p, q as int, rest as int);
    assert(m < 0x20_0000_0000_0000 * p && (k > 0 ==> 0x10_0000_0000_0000 * p <= m))
        by (nonlinear_arith)
        requires
            m == q * p + rest,
            0 <= rest < p,
            q < 0x20_0000_0000_0000,
            k > 0 ==> 0x10_0000_0000_0000 <= q,
    ;
    lemma_ulp_exponent(m, k);
}

/// Rounding goes to a nearest multiple of the unit in the last place: to
/// one that lies at most half a unit away, and where two lie that far away,
/// to the even one. A magnitude below 2^53 is its own rounding.
pub proof fn lemma_rounded_is_nearest(m: nat)
    ensures
        ({
            let unit = pow2(ulp_exponent(m)) as int;
            let distance = vstd::math::abs(rounded(m) - m);
            &&& unit > 0
            &&& rounded(m) % (unit as nat) == 0
            &&& 2 * distance <= unit
            &&& 2 * distance == unit ==> (rounded(m) / (unit as nat)) % 2 == 0
            &&& m < 0x20_0000_0000_0000 ==> rounded(m) == m
        }),
{
    let k = ulp_exponent(m);
    let unit = pow2(k) as int;
    let q = m as int / unit;
    let r = m as int % unit;
    lemma_pow2_pos(k);
    lemma2_to64();
    lemma_fundamental_div_mod(m as int, unit);
    lemma_mod_pos_bound(m as int, unit);
    assert(q >= 0) by (nonlinear_arith)
        requires
            m == unit * q + r,
            0 <= r < unit,
            m >= 0,
    ;
    if 2 * r > unit || (2 * r == unit && q % 2 == 1) {
        assert(rounded(m) == (q + 1) * unit);
        assert((q + 1) * unit - m == unit - r) by (nonlinear_arith)
            requires
                m == unit * q + r,
        ;
        lemma_fundamental_div_mod_converse((q + 1) * unit, unit, q + 1, 0);
    } else {
        assert(rounded(m) == q * unit);
        assert(m - q * unit == r) by (nonlinear_arith)
            requires
                m == unit * q + r,
        ;
        lemma_fundamental_div_mod_converse(q * unit, unit, q, 0);
    }
}

/// A significand `q` at exponent `k` is a representable magnitude, held by
/// the pattern whose exponent and fraction fields together are
/// `k * 2^52 + q`.
pub proof fn lemma_representable(negative: bool, q: nat, k: nat)
    requires
        q < 0x20_0000_0000_0000,
        k > 0 ==> 0x10_0000_0000_0000 <= q,
    ensures
        rounded(q * pow2(k)) == q * pow2(k),
        with_magnitude(negative, q * pow2(k)).bits == ((if negative {
            SIGN as int
        } else {
            0
        }) + k * HIDDEN + q) as u64,
        k <= 2045 ==> q * pow2(k) < pow2(2098),
        k >= 2046 && q >= 0x10_0000_0000_0000 ==> q * pow2(k) >= pow2(2098),
{
    let m = q * pow2(k);
    lemma_pow2_pos(k);
    lemma_split(m, q, k, 0);
    lemma_overflow_threshold();
    if k <= 2045 {
        lemma_pow2_le(k, 2045);
        assert(q * pow2(k) < 0x20_0000_0000_0000 * pow2(2045)) by (nonlinear_arith)
            requires
                q < 0x20_0000_0000_0000,
                0 < pow2(k) <= pow2(2045),
        ;
    } else if q >= 0x10_0000_0000_0000 {
        lemma_pow2_le(2046, k);
        assert(q * pow2(k) >= 0x10_0000_0000_0000 * pow2(2046)) by (nonlinear_arith)
            requires
                q >= 0x10_0000_0000_0000,
                pow2(k) >= pow2(2046),
        ;
    }
}

/// A finite double holds a representable magnitude and is the double that
/// holds it; unless it is a zero, it is the double nearest to its own value.
pub proof fn lemma_finite_is_exact(x: Double)
    requires
        x.is_finite(),
    ensures
        rounded(x.magnitude()) == x.magnitude(),
        x.magnitude() < pow2(2098),
        with_magnitude(x.negative(), x.magnitude()) == x,
        x.magnitude() != 0 ==> nearest(x.value()) == x,
        x.magnitude() == 0 <==> x.magnitude_bits() == 0,
{
    let bits = x.magnitude_bits();
    let field = bits / HIDDEN;
    let fraction = bits % HIDDEN;
    let k = (x.exponent() - 1) as nat;
    assert(bits == field * HIDDEN + fraction);
    assert(field < 2047);
    lemma_representable(x.negative(), x.significand(), k);
    lemma_pow2_pos(k);
    if field == 0 {
        lemma2_to64();
    }
    assert(x.magnitude() == 0 <==> x.significand() == 0) by (nonlinear_arith)
        requires
            x.magnitude() == x.significand() * pow2(k),
            pow2(k) > 0,
    ;
}

/// Among patterns that are numbers, the one with the larger exponent and
/// fraction fields has the larger magnitude.
pub proof fn lemma_magnitude_order(x: Double, y: Double)
    requires
        !x.is_nan(),
        !y.is_nan(),
        x.magnitude_bits() < y.magnitude_bits(),
    ensures
        x.magnitude() < y.magnitude(),
{
    let fx = x.magnitude_bits() / HIDDEN;
    let fy = y.magnitude_bits() / HIDDEN;
    let kx = (x.exponent() - 1) as nat;
    let ky = (y.exponent() - 1) as nat;
    lemma_pow2_pos(kx);
    lemma_pow2_pos(ky);
    if fx == fy {
        assert(x.significand() * pow2(kx) < y.significand() * pow2(kx)) by (nonlinear_arith)
            requires
                x.significand() < y.significand(),
                pow2(kx) > 0,
        ;
    } else {
        assert(fx < fy);
        // The magnitude of x is below 2^52 at the exponent above its own.
        let above = pow2(fx as nat);
        if fx == 0 {
            lemma2_to64();
        } else {
            lemma_pow2_unfold(fx as nat);
        }
        assert(x.magnitude() < 0x10_0000_0000_0000 * above) by (nonlinear_arith)
            requires
                x.magnitude() == x.significand() * pow2(kx),
                fx == 0 ==> x.significand() < 0x10_0000_0000_0000 && pow2(kx) == 1 && above == 1,
                fx != 0 ==> x.significand() < 0x20_0000_0000_0000 && above == 2 * pow2(kx),
                pow2(kx) > 0,
        ;
        lemma_pow2_le(fx as nat, ky);
        assert(y.magnitude() >= 0x10_0000_0000_0000 * above) by (nonlinear_arith)
            requires
                y.magnitude() == y.significand() * pow2(ky),
                y.significand() >= 0x10_0000_0000_0000,
                pow2(ky) >= above,
                above > 0,
        ;
    }
}

/// A pattern that is a number has magnitude zero exactly where its exponent
/// and fraction fields are zero.
pub proof fn lemma_zero_magnitude(x: Double)
    requires
        !x.is_nan(),
    ensures
        x.magnitude() == 0 <==> x.magnitude_bits() == 0,
{
    let k = (x.exponent() - 1) as nat;
    lemma_pow2_pos(k);
    assert(x.magnitude() == 0 <==> x.significand() == 0) by (nonlinear_arith)
        requires
            x.magnitude() == x.significand() * pow2(k),
            pow2(k) > 0,
    ;
}

} // verus!
