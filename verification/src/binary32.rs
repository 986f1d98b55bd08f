//! IEEE 754 binary32 numbers, held as their 32-bit words.
//!
//! Every number that crosses the boundary of this crate is a binary32 word:
//! one sign bit, eight exponent bits, twenty-three fraction bits. Nothing here
//! rounds. The operations are the exact ones: comparison, the sign test, and
//! the integer part after scaling by a small power of two.
//!
//! The model of a word is its value counted in units of `2^-149`, the spacing
//! of the subnormal numbers; every finite binary32 number is a whole multiple
//! of that unit, so the model is an `int`. The two infinities are modelled as
//! `±2^128`, the first power of two beyond the largest finite number, which
//! orders them correctly against every finite number.

use vstd::prelude::*;
use vstd::arithmetic::div_mod::{
    lemma_basic_div,
    lemma_div_by_multiple,
    lemma_div_multiples_vanish_quotient,
    lemma_fundamental_div_mod,
    lemma_mod_bound,
};
use vstd::arithmetic::mul::{
    lemma_mul_basics,
    lemma_mul_inequality,
    lemma_mul_is_associative,
    lemma_mul_is_commutative,
    lemma_mul_nonnegative,
    lemma_mul_strict_inequality,
};
use vstd::arithmetic::power2::{
    lemma2_to64,
    lemma2_to64_rest,
    lemma_pow2_adds,
    lemma_pow2_pos,
    lemma_pow2_strictly_increases,
    pow2,
};
use vstd::bits::{lemma_u64_shl_is_mul, lemma_u64_shr_is_div};

verus! {

/// The word of positive infinity; every word above it, sign aside, is a NaN.
pub const INFINITY_BITS: u32 = 0x7f80_0000;

/// The sign bit.
pub const SIGN_BIT: u32 = 0x8000_0000;

/// The exponent of the unit in which [`Binary32::ulps`] counts: one unit is `2^-149`.
pub open spec fn unit_exponent() -> nat {
    149
}

/// A binary32 number, given by its word.
#[derive(Clone, Copy, Debug, PartialEq, Eq)]
pub struct Binary32 {
    pub bits: u32,
}

impl Binary32 {
    /// The word with the sign bit cleared.
    pub open spec fn abs_bits(self) -> nat {
        (self.bits % 0x8000_0000) as nat
    }

    /// Whether the sign bit is set.
    pub open spec fn negative(self) -> bool {
        self.bits >= 0x8000_0000
    }

    /// The biased exponent field, `0..=255`.
    pub open spec fn exponent(self) -> nat {
        self.abs_bits() / 0x80_0000
    }

    /// The fraction field, `0..2^23`.
    pub open spec fn fraction(self) -> nat {
        self.abs_bits() % 0x80_0000
    }

    /// Whether the word is a NaN: all exponent bits set, and a fraction that is not zero.
    pub open spec fn nan(self) -> bool {
        self.exponent() == 255 && self.fraction() != 0
    }

    /// The absolute value in units of `2^-149`.
    ///
    /// A subnormal number is its fraction; a normal number has the implicit
    /// leading bit and is scaled by its exponent. Infinity comes out as `2^277`
    /// units, that is `2^128`.
    pub open spec fn magnitude(self) -> nat {
        if self.exponent() == 0 {
            self.fraction()
        } else {
            (0x80_0000 + self.fraction()) * pow2((self.exponent() - 1) as nat)
        }
    }

    /// The value in units of `2^-149`. Meaningless for a NaN.
    pub open spec fn ulps(self) -> int {
        if self.negative() {
            -(self.magnitude() as int)
        } else {
            self.magnitude() as int
        }
    }

    /// IEEE 754 `self > other`: false as soon as either side is a NaN.
    pub open spec fn greater(self, other: Binary32) -> bool {
        !self.nan() && !other.nan() && self.ulps() > other.ulps()
    }

    /// IEEE 754 `self >= other`: false as soon as either side is a NaN.
    pub open spec fn at_least(self, other: Binary32) -> bool {
        !self.nan() && !other.nan() && self.ulps() >= other.ulps()
    }

    /// IEEE 754 `self > 0`.
    pub open spec fn positive(self) -> bool {
        !self.nan() && self.ulps() > 0
    }

    /// `floor(self * 2^k)` for a number that is not a NaN.
    pub open spec fn floor_scaled(self, k: nat) -> int {
        (self.ulps() * pow2(k)) / (pow2(unit_exponent()) as int)
    }

    /// The integer part of the number, where that lies in `0..limit`.
    ///
    /// `None` for a NaN, for a number below zero and for one that is `limit` or more.
    pub open spec fn index_below(self, limit: int) -> Option<int> {
        if !self.nan() && 0 <= self.floor_scaled(0) < limit {
            Some(self.floor_scaled(0))
        } else {
            None
        }
    }

    /// The number `+0`.
    pub open spec fn zero() -> Binary32 {
        Binary32 { bits: 0 }
    }
}

/// The magnitude of a word that is not a NaN grows strictly with the word,
/// sign bit aside: binary32 was laid out so that integers order the numbers.
pub proof fn lemma_magnitude_increases(a: Binary32, b: Binary32)
    requires
        a.abs_bits() < b.abs_bits(),
        b.abs_bits() <= INFINITY_BITS,
    ensures
        a.magnitude() < b.magnitude(),
{
    let ea = a.exponent();
    let eb = b.exponent();
    let fa = a.fraction() as int;
    let fb = b.fraction() as int;
    assert(ea <= eb);
    assert(eb <= 255);
    if ea == eb {
        assert(fa < fb);
        if ea != 0 {
            let p = pow2((ea - 1) as nat);
            lemma_pow2_pos((ea - 1) as nat);
            lemma_mul_strict_inequality(0x80_0000 + fa, 0x80_0000 + fb, p as int);
        }
    } else {
        let q = pow2((eb - 1) as nat);
        lemma_pow2_pos((eb - 1) as nat);
        // b is at least 2^23 * 2^(eb - 1)
        lemma_mul_inequality(0x80_0000, 0x80_0000 + fb, q as int);
        assert(b.magnitude() >= 0x80_0000 * q);
        if ea == 0 {
            lemma_mul_inequality(1, q as int, 0x80_0000);
            lemma_mul_is_commutative(q as int, 0x80_0000);
        } else {
            // a is below 2^24 * 2^(ea - 1) = 2^23 * 2^ea <= 2^23 * 2^(eb - 1)
            let p = pow2((ea - 1) as nat);
            lemma_pow2_pos((ea - 1) as nat);
            lemma_mul_strict_inequality(0x80_0000 + fa, 0x100_0000, p as int);
            assert(a.magnitude() < 0x100_0000 * p);
            lemma_pow2_adds(1, (ea - 1) as nat);
            lemma2_to64();
            assert(pow2(ea) == 2 * p);
            lemma_mul_is_associative(0x80_0000, 2, p as int);
            assert(0x100_0000 * p == 0x80_0000 * pow2(ea));
            if ea < eb - 1 {
                lemma_pow2_strictly_increases(ea, (eb - 1) as nat);
            }
            assert(pow2(ea) <= q);
            lemma_mul_inequality(pow2(ea) as int, q as int, 0x80_0000);
            lemma_mul_is_commutative(q as int, 0x80_0000);
            lemma_mul_is_commutative(pow2(ea) as int, 0x80_0000);
        }
    }
}

/// A number other than zero has one word only: two words that are no NaN
/// and have the same value, not zero, are the same word.
pub proof fn lemma_word_of_a_number(a: Binary32, b: Binary32)
    requires
        !a.nan(),
        !b.nan(),
        a.ulps() == b.ulps(),
        a.ulps() != 0,
    ensures
        a == b,
{
    assert(a.abs_bits() <= INFINITY_BITS && b.abs_bits() <= INFINITY_BITS);
    if a.abs_bits() < b.abs_bits() {
        lemma_magnitude_increases(a, b);
    }
    if b.abs_bits() < a.abs_bits() {
        lemma_magnitude_increases(b, a);
    }
    assert(a.abs_bits() == b.abs_bits());
    assert(a.negative() == b.negative());
    assert(a.bits == b.bits);
}

/// Only the two zeros have magnitude zero.
pub proof fn lemma_magnitude_zero(a: Binary32)
    ensures
        a.magnitude() == 0 <==> a.abs_bits() == 0,
{
    if a.exponent() != 0 {
        lemma_pow2_pos((a.exponent() - 1) as nat);
        lemma_mul_strict_inequality(
            0,
            0x80_0000 + a.fraction() as int,
            pow2((a.exponent() - 1) as nat) as int,
        );
    }
}

/// The integer part has the sign of the number: it is negative for a number
/// below zero, zero for zero, and not negative otherwise.
pub proof fn lemma_floor_sign(a: Binary32, k: nat)
    ensures
        a.ulps() < 0 ==> a.floor_scaled(k) < 0,
        a.ulps() == 0 ==> a.floor_scaled(k) == 0,
        a.ulps() >= 0 ==> a.floor_scaled(k) >= 0,
{
    let x = a.ulps() * pow2(k);
    let unit = pow2(unit_exponent()) as int;
    lemma_pow2_pos(k);
    lemma_pow2_pos(unit_exponent());
    if a.ulps() < 0 {
        lemma_mul_strict_inequality(a.ulps(), 0, pow2(k) as int);
        assert(x / unit < 0) by (nonlinear_arith)
            requires
                x < 0,
                unit > 0,
        ;
    } else {
        lemma_mul_nonnegative(a.ulps(), pow2(k) as int);
        assert(x / unit >= 0) by (nonlinear_arith)
            requires
                x >= 0,
                unit > 0,
        ;
        if a.ulps() == 0 {
            lemma_mul_basics(pow2(k) as int);
            lemma_basic_div(0, unit);
        }
    }
}

/// The integer part is a floor: `floor(a * 2^k)` reaches an integer `q`
/// exactly where `a * 2^k` itself does, both counted in units of `2^-149`.
pub proof fn lemma_floor_scaled_reaches(a: Binary32, k: nat, q: int)
    ensures
        a.floor_scaled(k) >= q <==> a.ulps() * pow2(k) >= q * pow2(unit_exponent()),
{
    let x = a.ulps() * pow2(k);
    let unit = pow2(unit_exponent()) as int;
    lemma_pow2_pos(unit_exponent());
    lemma_fundamental_div_mod(x, unit);
    lemma_mod_bound(x, unit);
    let f = x / unit;
    let r = x % unit;
    assert(f >= q <==> x >= q * unit) by (nonlinear_arith)
        requires
            x == unit * f + r,
            0 <= r < unit,
    ;
}

/// Closed forms of `floor(a * 2^k)` for a number that is not negative.
///
/// Below the implicit bit nothing is left of a subnormal number; a normal
/// number is its 24-bit significand moved left or right by `e + k - 150` places.
pub proof fn lemma_floor_scaled(a: Binary32, k: nat)
    requires
        !a.negative(),
        k <= 64,
    ensures
        a.exponent() == 0 ==> a.floor_scaled(k) == 0,
        a.exponent() >= 1 && a.exponent() + k >= 150 ==> a.floor_scaled(k) == (0x80_0000
            + a.fraction()) * pow2((a.exponent() + k - 150) as nat),
        a.exponent() >= 1 && a.exponent() + k < 150 ==> a.floor_scaled(k) == (0x80_0000
            + a.fraction()) as int / (pow2((150 - a.exponent() - k) as nat) as int),
{
    let e = a.exponent();
    let f = a.fraction() as int;
    let unit = pow2(149) as int;
    let pk = pow2(k) as int;
    lemma_pow2_pos(149);
    lemma_pow2_pos(k);
    lemma2_to64();
    if e == 0 {
        // f * 2^k < 2^23 * 2^64 = 2^87 < 2^149
        if k < 64 {
            lemma_pow2_strictly_increases(k, 64);
        }
        lemma_pow2_adds(23, 64);
        lemma_pow2_strictly_increases(87, 149);
        assert(0 <= f * pk < 0x80_0000 * pow2(64)) by (nonlinear_arith)
            requires
                0 <= f < 0x80_0000,
                0 < pk <= pow2(64),
        ;
        lemma_basic_div(f * pk, unit);
    } else {
        let sig = 0x80_0000 + f;
        let n = (e - 1 + k) as nat;
        let pe = pow2((e - 1) as nat) as int;
        lemma_pow2_adds((e - 1) as nat, k);
        lemma_mul_is_associative(sig, pe, pk);
        assert(a.ulps() * pk == sig * (pow2(n) as int));
        lemma_pow2_pos(n);
        if n >= 149 {
            let s = (n - 149) as nat;
            lemma_pow2_adds(s, 149);
            lemma_pow2_pos(s);
            lemma_mul_is_associative(sig, pow2(s) as int, unit);
            lemma_mul_nonnegative(sig, pow2(s) as int);
            lemma_div_by_multiple(sig * pow2(s), unit);
        } else {
            let t = (149 - n) as nat;
            lemma_pow2_adds(n, t);
            lemma_pow2_pos(t);
            lemma_div_multiples_vanish_quotient(pow2(n) as int, sig, pow2(t) as int);
            lemma_mul_is_commutative(pow2(n) as int, sig);
        }
    }
}

impl Binary32 {
    /// Whether the number is a NaN.
    pub fn is_nan(self) -> (r: bool)
        ensures
            r == self.nan(),
    {
        let bits = self.bits;
        assert((bits & 0x7fff_ffff) == bits % 0x8000_0000) by (bit_vector);
        let abs = bits & 0x7fff_ffff;
        assert(abs > 0x7f80_0000 <==> abs / 0x80_0000 == 255 && abs % 0x80_0000 != 0) by (bit_vector)
            requires
                abs <= 0x7fff_ffff,
        ;
        abs > INFINITY_BITS
    }

    /// Whether the number is greater than zero; a NaN is not.
    pub fn is_positive(self) -> (r: bool)
        ensures
            r == self.positive(),
    {
        let bits = self.bits;
        proof {
            assert(bits < 0x8000_0000 ==> bits % 0x8000_0000 == bits) by (bit_vector);
            assert(bits <= 0x7f80_0000 ==> !(bits / 0x80_0000 == 255 && bits % 0x80_0000 != 0))
                by (bit_vector);
            assert(0x7f80_0000 < bits < 0x8000_0000 ==> bits / 0x80_0000 == 255 && bits
                % 0x80_0000 != 0) by (bit_vector);
            lemma_magnitude_zero(self);
        }
        0 < bits && bits <= INFINITY_BITS
    }

    /// IEEE 754 `self > other`, decided on the words alone.
    pub fn exceeds(self, other: Binary32) -> (r: bool)
        ensures
            r == self.greater(other),
    {
        if self.is_nan() || other.is_nan() {
            return false;
        }
        let a = self.bits;
        let b = other.bits;
        assert((a & 0x7fff_ffff) == a % 0x8000_0000) by (bit_vector);
        assert((b & 0x7fff_ffff) == b % 0x8000_0000) by (bit_vector);
        let a_abs = a & 0x7fff_ffff;
        let b_abs = b & 0x7fff_ffff;
        proof {
            assert(a_abs <= 0x7f80_0000 <==> !(a_abs / 0x80_0000 == 255 && a_abs % 0x80_0000 != 0))
                by (bit_vector)
                requires
                    a_abs <= 0x7fff_ffff,
            ;
            assert(b_abs <= 0x7f80_0000 <==> !(b_abs / 0x80_0000 == 255 && b_abs % 0x80_0000 != 0))
                by (bit_vector)
                requires
                    b_abs <= 0x7fff_ffff,
            ;
            lemma_magnitude_zero(self);
            lemma_magnitude_zero(other);
            if a_abs < b_abs {
                lemma_magnitude_increases(self, other);
            }
            if b_abs < a_abs {
                lemma_magnitude_increases(other, self);
            }
        }
        if a < SIGN_BIT {
            if b < SIGN_BIT {
                a_abs > b_abs
            } else {
                a_abs != 0 || b_abs != 0
            }
        } else {
            if b < SIGN_BIT {
                false
            } else {
                a_abs < b_abs
            }
        }
    }

    /// `self * 2^k` cut to an unsigned 64-bit integer: the fraction is dropped,
    /// whatever is below zero or a NaN gives 0, whatever is too large gives the
    /// largest integer.
    pub open spec fn floor_clamped(self, k: nat) -> int {
        if self.nan() || self.ulps() <= 0 {
            0
        } else if self.floor_scaled(k) > u64::MAX {
            u64::MAX as int
        } else {
            self.floor_scaled(k)
        }
    }

    /// Computes [`Self::floor_clamped`] by shifting the significand.
    pub(crate) fn floor_saturating(self, k: u32) -> (r: u64)
        requires
            k <= 64,
        ensures
            r == self.floor_clamped(k as nat),
    {
        if !self.is_positive() {
            return 0;
        }
        let bits = self.bits;
        let e: u32 = (bits >> 23) & 0xff;
        let f: u32 = bits & 0x7f_ffff;
        let sig: u64 = (0x80_0000 | f) as u64;
        proof {
            assert(bits <= 0x7f80_0000 ==> bits % 0x8000_0000 == bits) by (bit_vector);
            assert((bits >> 23) & 0xff == bits / 0x80_0000) by (bit_vector)
                requires
                    bits <= 0x7f80_0000,
            ;
            assert(bits & 0x7f_ffff == bits % 0x80_0000) by (bit_vector);
            assert(0x80_0000 | f == 0x80_0000 + f) by (bit_vector)
                requires
                    f == bits & 0x7f_ffff,
            ;
            assert(e <= 255 && f < 0x80_0000) by (bit_vector)
                requires
                    e == (bits >> 23) & 0xff,
                    f == bits & 0x7f_ffff,
            ;
            lemma_floor_scaled(self, k as nat);
            lemma2_to64();
            lemma2_to64_rest();
        }
        if e == 0 {
            return 0;
        }
        let shift: u32 = e + k;
        if shift >= 191 {
            proof {
                let s = (shift - 150) as nat;
                if s > 41 {
                    lemma_pow2_strictly_increases(41, s);
                }
                assert(sig * pow2(s) > u64::MAX) by (nonlinear_arith)
                    requires
                        sig >= 0x80_0000,
                        pow2(s) >= 0x200_0000_0000,
                ;
            }
            u64::MAX
        } else if shift >= 150 {
            let s: u64 = (shift - 150) as u64;
            proof {
                if s < 40 {
                    lemma_pow2_strictly_increases(s as nat, 40);
                }
                assert(sig * pow2(s as nat) <= u64::MAX) by (nonlinear_arith)
                    requires
                        sig < 0x100_0000,
                        pow2(s as nat) <= 0x100_0000_0000,
                ;
                lemma_u64_shl_is_mul(sig, s);
            }
            sig << s
        } else if shift > 126 {
            let t: u64 = (150 - shift) as u64;
            proof {
                lemma_u64_shr_is_div(sig, t);
            }
            sig >> t
        } else {
            proof {
                let t = (150 - shift) as nat;
                if t > 24 {
                    lemma_pow2_strictly_increases(24, t);
                }
                lemma_basic_div(sig as int, pow2(t) as int);
            }
            0
        }
    }

    /// The integer part of the number as an index below `limit`, or `None`
    /// where the number is a NaN or lies outside `0..limit`.
    pub fn to_index(self, limit: usize) -> (r: Option<usize>)
        ensures
            match r {
                Some(i) => self.index_below(limit as int) == Some(i as int),
                None => self.index_below(limit as int).is_none(),
            },
    {
        if self.is_nan() {
            return None;
        }
        proof {
            lemma_floor_sign(self, 0);
            lemma_magnitude_zero(self);
            lemma2_to64();
        }
        if self.bits > SIGN_BIT {
            return None;
        }
        let whole: u64 = self.floor_saturating(0);
        if whole < limit as u64 {
            Some(whole as usize)
        } else {
            None
        }
    }
}

} // verus!
