//! Double-precision numbers held by their bits.
//!
//! A [`Double`] can be stored, moved and compared. The two orders are those of
//! IEEE 754: the numeric comparison, in which a not-a-number compares with
//! nothing and the two zeros are equal, and the total order, which ranks every
//! bit pattern.

use vstd::arithmetic::power2::{lemma2_to64, lemma_pow2_pos, lemma_pow2_strictly_increases, pow2};
use vstd::bits::{lemma_u64_shl_is_mul, lemma_u64_shr_is_div};
use vstd::prelude::*;

verus! {

/// The sign bit.
pub const SIGN_BIT: u64 = 0x8000_0000_0000_0000;

/// The bits of positive infinity; a larger magnitude is not a number.
pub const INFINITY_BITS: u64 = 0x7FF0_0000_0000_0000;

/// The bits of negative infinity.
pub const NEG_INFINITY_BITS: u64 = 0xFFF0_0000_0000_0000;

/// The bits of minus one.
pub const MINUS_ONE_BITS: u64 = 0xBFF0_0000_0000_0000;

/// Two to the number of fraction bits.
pub const FRACTION_SCALE: u64 = 0x0010_0000_0000_0000;

/// The bits of one.
pub const ONE_BITS: u64 = 0x3FF0_0000_0000_0000;

/// A double-precision number, held by its bits.
#[derive(Clone, Copy, Debug, PartialEq, Eq, Structural)]
pub struct Double {
    /// Sign, exponent and fraction, from the highest bit down.
    pub bits: u64,
}

/// A single-precision number, held by its bits.
#[derive(Clone, Copy, Debug, PartialEq, Eq, Structural)]
pub struct Single {
    /// Sign, exponent and fraction, from the highest bit down.
    pub bits: u32,
}

impl Double {
    /// The bits without the sign.
    pub open spec fn magnitude(self) -> int {
        if self.bits < SIGN_BIT {
            self.bits as int
        } else {
            self.bits - SIGN_BIT
        }
    }

    /// Whether the bits stand for no number.
    pub open spec fn spec_is_nan(self) -> bool {
        self.magnitude() > INFINITY_BITS
    }

    /// Whether the bits stand for a number other than the infinities.
    pub open spec fn spec_is_finite(self) -> bool {
        self.magnitude() < INFINITY_BITS
    }

    /// The magnitude with its sign: increasing in the number, zero for both zeros.
    pub open spec fn signed(self) -> int {
        if self.bits < SIGN_BIT {
            self.magnitude()
        } else {
            -self.magnitude()
        }
    }

    /// The place in the total order of all bit patterns.
    pub open spec fn rank(self) -> int {
        if self.bits < SIGN_BIT {
            self.bits as int
        } else {
            SIGN_BIT - 1 - self.bits
        }
    }

    /// The numeric `<`: false as soon as one side is not a number.
    pub open spec fn spec_lt(self, other: Double) -> bool {
        !self.spec_is_nan() && !other.spec_is_nan() && self.signed() < other.signed()
    }

    /// The numeric `<=`: false as soon as one side is not a number.
    pub open spec fn spec_le(self, other: Double) -> bool {
        !self.spec_is_nan() && !other.spec_is_nan() && self.signed() <= other.signed()
    }

    /// The strict total order.
    pub open spec fn spec_total_lt(self, other: Double) -> bool {
        self.rank() < other.rank()
    }

    /// The exponent field.
    pub open spec fn exponent(self) -> int {
        self.magnitude() / FRACTION_SCALE as int
    }

    /// The fraction with its leading one: the magnitude of a number with exponent
    /// field `e` is this, times two to the power of `e - 1075`.
    pub open spec fn significand(self) -> int {
        self.magnitude() % FRACTION_SCALE as int + FRACTION_SCALE
    }

    /// The magnitude without what follows the point.
    pub open spec fn whole(self) -> int {
        if self.exponent() < 1023 {
            0
        } else if self.exponent() < 1075 {
            self.significand() / (pow2((1075 - self.exponent()) as nat) as int)
        } else {
            self.significand() * pow2((self.exponent() - 1075) as nat)
        }
    }

    /// Whether anything follows the point.
    pub open spec fn fractional(self) -> bool {
        if self.exponent() < 1023 {
            self.magnitude() != 0
        } else {
            self.exponent() < 1075 && self.significand() % (pow2(
                (1075 - self.exponent()) as nat,
            ) as int) != 0
        }
    }

    /// The number rounded towards zero.
    pub open spec fn truncated(self) -> int {
        if self.bits < SIGN_BIT {
            self.whole()
        } else {
            -self.whole()
        }
    }

    /// The number rounded down.
    pub open spec fn floored(self) -> int {
        if self.bits >= SIGN_BIT && self.fractional() {
            -self.whole() - 1
        } else {
            self.truncated()
        }
    }

    /// The number rounded down, within sixty-four bits; zero for no number.
    pub open spec fn floor_clamped(self) -> int {
        if self.spec_is_nan() {
            0
        } else if self.floored() < i64::MIN {
            i64::MIN as int
        } else if self.floored() > i64::MAX {
            i64::MAX as int
        } else {
            self.floored()
        }
    }

    /// The number rounded towards zero, as an index; zero for no number.
    pub open spec fn index_clamped(self) -> int {
        if self.spec_is_nan() || self.truncated() < 0 {
            0
        } else if self.truncated() > usize::MAX {
            usize::MAX as int
        } else {
            self.truncated()
        }
    }

    /// Whether the number is greater than the integer `n`, which is not negative.
    pub open spec fn exceeds(self, n: int) -> bool {
        &&& !self.spec_is_nan()
        &&& self.bits < SIGN_BIT
        &&& self.whole() > n || (self.whole() == n && self.fractional())
    }

    /// The greater of two numbers; a number where the other is none.
    pub open spec fn greater(self, other: Double) -> Double {
        if self.spec_is_nan() || self.spec_lt(other) {
            other
        } else {
            self
        }
    }

    /// A number from its bits.
    pub fn from_bits(bits: u64) -> (d: Double)
        ensures
            d == (Double { bits }),
    {
        Double { bits }
    }

    /// Zero, with a positive sign.
    pub fn zero() -> (d: Double)
        ensures
            d == (Double { bits: 0 }),
    {
        Double { bits: 0 }
    }

    /// One.
    pub fn one() -> (d: Double)
        ensures
            d == (Double { bits: ONE_BITS }),
    {
        Double { bits: ONE_BITS }
    }

    /// Minus one.
    pub fn minus_one() -> (d: Double)
        ensures
            d == (Double { bits: MINUS_ONE_BITS }),
    {
        Double { bits: MINUS_ONE_BITS }
    }

    /// Whether the bits stand for no number.
    #[verifier::when_used_as_spec(spec_is_nan)]
    pub fn is_nan(self) -> (b: bool)
        ensures
            b == self.spec_is_nan(),
    {
        if self.bits < SIGN_BIT {
            self.bits > INFINITY_BITS
        } else {
            self.bits - SIGN_BIT > INFINITY_BITS
        }
    }

    /// Whether the bits stand for a number other than the infinities.
    #[verifier::when_used_as_spec(spec_is_finite)]
    pub fn is_finite(self) -> (b: bool)
        ensures
            b == self.spec_is_finite(),
    {
        if self.bits < SIGN_BIT {
            self.bits < INFINITY_BITS
        } else {
            self.bits - SIGN_BIT < INFINITY_BITS
        }
    }

    /// The numeric `self < other`.
    #[verifier::when_used_as_spec(spec_lt)]
    pub fn lt(self, other: Double) -> (b: bool)
        ensures
            b == self.spec_lt(other),
    {
        if self.is_nan() || other.is_nan() {
            false
        } else if self.bits < SIGN_BIT {
            if other.bits < SIGN_BIT {
                self.bits < other.bits
            } else {
                false
            }
        } else if other.bits < SIGN_BIT {
            self.bits > SIGN_BIT || other.bits > 0
        } else {
            self.bits > other.bits
        }
    }

    /// The numeric `self <= other`.
    #[verifier::when_used_as_spec(spec_le)]
    pub fn le(self, other: Double) -> (b: bool)
        ensures
            b == self.spec_le(other),
    {
        if self.is_nan() || other.is_nan() {
            false
        } else if self.bits < SIGN_BIT {
            if other.bits < SIGN_BIT {
                self.bits <= other.bits
            } else {
                self.bits == 0 && other.bits == SIGN_BIT
            }
        } else if other.bits < SIGN_BIT {
            true
        } else {
            self.bits >= other.bits
        }
    }

    /// The place in the total order of all bit patterns.
    pub fn rank_key(self) -> (k: i128)
        ensures
            k == self.rank(),
    {
        if self.bits < SIGN_BIT {
            self.bits as i128
        } else {
            SIGN_BIT as i128 - 1 - self.bits as i128
        }
    }

    /// The number with the other sign.
    pub open spec fn spec_neg(self) -> Double {
        if self.bits < SIGN_BIT {
            Double { bits: (self.bits + SIGN_BIT) as u64 }
        } else {
            Double { bits: (self.bits - SIGN_BIT) as u64 }
        }
    }

    /// The number with the other sign.
    #[verifier::when_used_as_spec(spec_neg)]
    pub fn neg(self) -> (d: Double)
        ensures
            d == self.spec_neg(),
    {
        if self.bits < SIGN_BIT {
            Double { bits: self.bits + SIGN_BIT }
        } else {
            Double { bits: self.bits - SIGN_BIT }
        }
    }

    /// The number without its sign.
    pub open spec fn spec_abs(self) -> Double {
        if self.bits < SIGN_BIT {
            self
        } else {
            Double { bits: (self.bits - SIGN_BIT) as u64 }
        }
    }

    /// The number without its sign.
    #[verifier::when_used_as_spec(spec_abs)]
    pub fn abs(self) -> (d: Double)
        ensures
            d == self.spec_abs(),
    {
        if self.bits < SIGN_BIT {
            self
        } else {
            Double { bits: self.bits - SIGN_BIT }
        }
    }

    /// The strict total order: `self` stands before `other`.
    #[verifier::when_used_as_spec(spec_total_lt)]
    pub fn total_lt(self, other: Double) -> (b: bool)
        ensures
            b == self.spec_total_lt(other),
    {
        if self.bits < SIGN_BIT {
            if other.bits < SIGN_BIT {
                self.bits < other.bits
            } else {
                false
            }
        } else if other.bits < SIGN_BIT {
            true
        } else {
            self.bits > other.bits
        }
    }

    /// The magnitude without what follows the point, and whether anything does;
    /// at most the largest value of the type.
    pub(crate) fn whole_part(self) -> (r: (u64, bool))
        ensures
            r.0 == (if self.whole() > u64::MAX {
                u64::MAX as int
            } else {
                self.whole()
            }),
            r.1 == self.fractional(),
    {
        let magnitude: u64 = if self.bits < SIGN_BIT {
            self.bits
        } else {
            self.bits - SIGN_BIT
        };
        let e: u64 = magnitude / FRACTION_SCALE;
        let m: u64 = magnitude % FRACTION_SCALE + FRACTION_SCALE;
        if e < 1023 {
            return (0, magnitude != 0);
        }
        if e < 1075 {
            let shift: u64 = 1075 - e;
            proof {
                lemma_u64_shr_is_div(m, shift);
                lemma_pow2_pos(shift as nat);
            }
            let w: u64 = m >> shift;
            proof {
                let p = pow2(shift as nat) as int;
                lemma_pow2_bound(shift as nat);
                lemma_u64_shl_is_mul(1u64, shift);
                vstd::arithmetic::div_mod::lemma_fundamental_div_mod(m as int, p);
            }
            let p: u64 = 1u64 << shift;
            return (w, m % p != 0);
        }
        if e < 1086 {
            let shift: u64 = e - 1075;
            proof {
                lemma2_to64();
                if shift < 10 {
                    lemma_pow2_strictly_increases(shift as nat, 10);
                }
                assert(m * pow2(shift as nat) <= 0x20_0000_0000_0000 * 1024) by (nonlinear_arith)
                    requires
                        m <= 0x20_0000_0000_0000,
                        pow2(shift as nat) <= 1024,
                ;
                lemma_u64_shl_is_mul(m, shift);
            }
            return (m << shift, false);
        }
        if e == 1086 {
            proof {
                lemma2_to64();
                lemma_u64_shl_is_mul(m, 11);
            }
            return (m << 11u64, false);
        }
        proof {
            lemma2_to64();
            let k = (e - 1075) as nat;
            if k > 12 {
                lemma_pow2_strictly_increases(12, k);
            }
            assert(m * pow2(k) >= 0x10_0000_0000_0000 * 4096) by (nonlinear_arith)
                requires
                    m >= 0x10_0000_0000_0000,
                    pow2(k) >= 4096,
            ;
        }
        (u64::MAX, false)
    }

    /// Whether the number is greater than an integer.
    pub fn gt_integer(self, n: usize) -> (b: bool)
        requires
            n < usize::MAX,
        ensures
            b == self.exceeds(n as int),
    {
        let (w, f) = self.whole_part();
        if self.is_nan() || self.bits >= SIGN_BIT {
            return false;
        }
        let n: u64 = n as u64;
        w > n || (w == n && f)
    }

    /// The greater of two numbers; a number where the other is none.
    pub fn max(self, other: Double) -> (d: Double)
        ensures
            d == self.greater(other),
    {
        if self.is_nan() || self.lt(other) {
            other
        } else {
            self
        }
    }

    /// The number rounded towards zero, within 32 bits; zero for no number.
    pub open spec fn i32_clamped(self) -> int {
        if self.spec_is_nan() {
            0
        } else if self.truncated() < i32::MIN {
            i32::MIN as int
        } else if self.truncated() > i32::MAX {
            i32::MAX as int
        } else {
            self.truncated()
        }
    }

    /// The number rounded towards zero, within the type; zero for no number.
    pub fn to_i32(self) -> (v: i32)
        ensures
            v == self.i32_clamped(),
    {
        if self.is_nan() {
            return 0;
        }
        let (w, _f) = self.whole_part();
        if self.bits < SIGN_BIT {
            if w > 0x7FFF_FFFF {
                i32::MAX
            } else {
                w as i32
            }
        } else if w >= 0x8000_0000 {
            i32::MIN
        } else {
            -(w as i32)
        }
    }

    /// The number rounded towards zero, within the type; zero for no number.
    pub fn to_usize(self) -> (v: usize)
        ensures
            v == self.index_clamped(),
    {
        let (w, _f) = self.whole_part();
        if self.is_nan() || self.bits >= SIGN_BIT {
            return 0;
        }
        if w >= usize::MAX as u64 {
            usize::MAX
        } else {
            w as usize
        }
    }

    /// The number rounded down, within the type; zero for no number.
    pub fn floor_i64(self) -> (v: i64)
        ensures
            v == self.floor_clamped(),
    {
        if self.is_nan() {
            return 0;
        }
        let (w, f) = self.whole_part();
        if self.bits < SIGN_BIT {
            if w > 0x7FFF_FFFF_FFFF_FFFF {
                i64::MAX
            } else {
                w as i64
            }
        } else if w >= 0x8000_0000_0000_0000 {
            i64::MIN
        } else if f {
            -(w as i64) - 1
        } else {
            -(w as i64)
        }
    }
}

/// The total order is total and antisymmetric: of two numbers with different
/// bits, exactly one stands before the other.
pub proof fn law_total_order_is_total(a: Double, b: Double)
    ensures
        a != b ==> (a.spec_total_lt(b) <==> !b.spec_total_lt(a)),
        a == b ==> !a.spec_total_lt(b),
{
}

/// The total order is transitive.
pub proof fn law_total_order_is_transitive(a: Double, b: Double, c: Double)
    requires
        a.spec_total_lt(b),
        b.spec_total_lt(c),
    ensures
        a.spec_total_lt(c),
{
}

/// Where the numeric comparison decides, the total order agrees with it.
pub proof fn law_total_order_refines_comparison(a: Double, b: Double)
    requires
        a.spec_lt(b),
    ensures
        a.spec_total_lt(b),
{
}

/// Every number that is not a not-a-number lies between the infinities.
pub proof fn law_infinities_bound(a: Double)
    requires
        !a.spec_is_nan(),
    ensures
        (Double { bits: NEG_INFINITY_BITS }).spec_le(a),
        a.spec_le(Double { bits: INFINITY_BITS }),
{
}

/// A power of two whose shift stays inside the type fits it.
proof fn lemma_pow2_bound(k: nat)
    requires
        k < 64,
    ensures
        0 < pow2(k) <= u64::MAX,
{
    lemma2_to64();
    lemma_pow2_pos(k);
    lemma_pow2_strictly_increases(k, 64);
}

/// Rounding down and rounding towards zero agree on what is not negative, and
/// differ by at most one elsewhere.
pub proof fn law_floor_and_truncation(a: Double)
    ensures
        a.bits < SIGN_BIT ==> a.floored() == a.truncated(),
        a.floored() <= a.truncated() <= a.floored() + 1,
{
}

/// Changing the sign twice changes nothing, and it turns the numeric order around.
pub proof fn law_sign_change(a: Double, b: Double)
    ensures
        a.spec_neg().spec_neg() == a,
        a.spec_lt(b) ==> b.spec_neg().spec_lt(a.spec_neg()),
{
}

/// A magnitude is not negative.
pub(crate) proof fn lemma_whole_not_negative(a: Double)
    ensures
        a.whole() >= 0,
{
    if a.exponent() >= 1075 {
        lemma_pow2_pos((a.exponent() - 1075) as nat);
        assert(a.significand() * pow2((a.exponent() - 1075) as nat) >= 0) by (nonlinear_arith)
            requires
                a.significand() >= 0,
                pow2((a.exponent() - 1075) as nat) > 0,
        ;
    } else if a.exponent() >= 1023 {
        lemma_pow2_pos((1075 - a.exponent()) as nat);
        let p = pow2((1075 - a.exponent()) as nat) as int;
        assert(a.significand() / p >= 0) by (nonlinear_arith)
            requires
                a.significand() >= 0,
                p > 0,
        ;
    }
}

/// A number divided by a positive one, rounded up.
spec fn ceiling(s: int, p: int) -> int {
    s / p + (if s % p != 0 {
        1int
    } else {
        0
    })
}

/// Rounding a quotient up stays below a multiple that bounds the dividend.
proof fn lemma_ceiling(s: int, p: int, q: int)
    requires
        0 <= s <= q * p,
        p > 0,
    ensures
        ceiling(s, p) <= q,
{
    vstd::arithmetic::div_mod::lemma_fundamental_div_mod(s, p);
    let (d, r) = (s / p, s % p);
    assert(0 <= r < p);
    if r != 0 {
        assert(d < q) by (nonlinear_arith)
            requires
                p * d + r <= q * p,
                r > 0,
                p > 0,
        ;
    } else {
        assert(d <= q) by (nonlinear_arith)
            requires
                p * d <= q * p,
                p > 0,
        ;
    }
}

/// A quotient is at least what its dividend is a multiple of.
proof fn lemma_at_least(s: int, p: int, q: int)
    requires
        q * p <= s,
        p > 0,
    ensures
        q <= s / p,
{
    vstd::arithmetic::div_mod::lemma_fundamental_div_mod(s, p);
    let (d, r) = (s / p, s % p);
    assert(q <= d) by (nonlinear_arith)
        requires
            q * p <= p * d + r,
            r < p,
            p > 0,
    ;
}

/// The magnitude rounded up.
spec fn rounded_up(a: Double) -> int {
    a.whole() + (if a.fractional() {
        1int
    } else {
        0
    })
}

/// A larger magnitude is not smaller once rounded, down or up.
proof fn lemma_rounding_grows(a: Double, b: Double)
    requires
        a.magnitude() <= b.magnitude(),
    ensures
        a.whole() <= b.whole(),
        rounded_up(a) <= rounded_up(b),
{
    let scale = FRACTION_SCALE as int;
    let (x, y) = (a.exponent(), b.exponent());
    let (s, t) = (a.significand(), b.significand());
    vstd::arithmetic::div_mod::lemma_fundamental_div_mod(a.magnitude(), scale);
    vstd::arithmetic::div_mod::lemma_fundamental_div_mod(b.magnitude(), scale);
    assert(x <= y);
    assert(scale <= s < 2 * scale && scale <= t < 2 * scale);
    assert(pow2(52) == scale) by {
        vstd::arithmetic::power2::lemma2_to64_rest();
    }
    if x == y {
        assert(s <= t);
        if 1023 <= x && x < 1075 {
            lemma_pow2_pos((1075 - x) as nat);
            let p = pow2((1075 - x) as nat) as int;
            vstd::arithmetic::div_mod::lemma_fundamental_div_mod(t, p);
            let up = ceiling(t, p);
            assert(t <= up * p) by (nonlinear_arith)
                requires
                    t == p * (t / p) + t % p,
                    t % p < p,
                    p > 0,
                    up == t / p + (if t % p != 0 {
                        1int
                    } else {
                        0
                    }),
            ;
            lemma_ceiling(s, p, up);
            vstd::arithmetic::div_mod::lemma_div_is_ordered(s, t, p);
        } else if x >= 1075 {
            let p = pow2((x - 1075) as nat) as int;
            assert(s * p <= t * p) by (nonlinear_arith)
                requires
                    s <= t,
                    p >= 0,
            ;
        }
    } else if y < 1023 {
    } else {
        // What `b` is at least, and `a` at most.
        lemma_whole_not_negative(b);
        if y < 1075 {
            lemma_pow2_pos((1075 - y) as nat);
            lemma_pow2_pos((y - 1023) as nat);
            vstd::arithmetic::power2::lemma_pow2_adds((y - 1023) as nat, (1075 - y) as nat);
            let q = pow2((y - 1023) as nat) as int;
            lemma_at_least(t, pow2((1075 - y) as nat) as int, q);
            if x >= 1023 {
                lemma_pow2_pos((1075 - x) as nat);
                vstd::arithmetic::power2::lemma_pow2_adds((x - 1022) as nat, (1075 - x) as nat);
                vstd::arithmetic::power2::lemma_pow2_unfold(53);
                lemma_ceiling(s, pow2((1075 - x) as nat) as int, pow2((x - 1022) as nat) as int);
                if x - 1022 < y - 1023 {
                    lemma_pow2_strictly_increases((x - 1022) as nat, (y - 1023) as nat);
                }
            }
        } else {
            lemma_pow2_pos((y - 1075) as nat);
            let q = pow2((y - 1075) as nat) as int;
            assert(scale * 1 <= t * q) by (nonlinear_arith)
                requires
                    scale <= t,
                    1 <= q,
                    0 <= scale,
            ;
            if 1023 <= x && x < 1075 {
                lemma_pow2_pos((1075 - x) as nat);
                let p = pow2((1075 - x) as nat) as int;
                vstd::arithmetic::power2::lemma_pow2_unfold((1075 - x) as nat);
                lemma_pow2_pos((1074 - x) as nat);
                assert(s <= scale * p) by (nonlinear_arith)
                    requires
                        s < 2 * scale,
                        2 <= p,
                        0 <= scale,
                ;
                lemma_ceiling(s, p, scale);
            } else if x >= 1075 {
                lemma_pow2_pos((x - 1075) as nat);
                let p = pow2((x - 1075) as nat) as int;
                vstd::arithmetic::power2::lemma_pow2_unfold((x - 1074) as nat);
                let r = pow2((x - 1074) as nat) as int;
                assert(r == 2 * p);
                if x - 1074 < y - 1075 {
                    lemma_pow2_strictly_increases((x - 1074) as nat, (y - 1075) as nat);
                }
                assert(s * p <= t * q) by (nonlinear_arith)
                    requires
                        s < 2 * scale,
                        scale <= t,
                        2 * p <= q,
                        0 < p,
                        0 <= scale,
                ;
            }
        }
    }
}

/// A larger number is not smaller once rounded down.
pub proof fn law_rounding_down_is_monotone(a: Double, b: Double)
    requires
        a.spec_le(b),
    ensures
        a.floored() <= b.floored(),
        a.floor_clamped() <= b.floor_clamped(),
{
    lemma_whole_not_negative(a);
    lemma_whole_not_negative(b);
    if a.bits < SIGN_BIT && b.bits < SIGN_BIT {
        lemma_rounding_grows(a, b);
    } else if a.bits >= SIGN_BIT && b.bits >= SIGN_BIT {
        lemma_rounding_grows(b, a);
    } else if a.bits < SIGN_BIT {
        // Both are zero.
        assert(a.magnitude() == 0 && b.magnitude() == 0);
        assert(a.exponent() == 0 && b.exponent() == 0);
    }
}

} // verus!
