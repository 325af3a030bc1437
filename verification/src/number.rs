//! Numbers of the IEEE-754 binary64 format, held by their bit patterns: their order, and how
//! they are shown.

use crate::text::{signed_decimal, to_signed_decimal};
use vstd::arithmetic::power2::{lemma_pow2_adds, lemma_pow2_pos, lemma_pow2_strictly_increases, pow2};
use vstd::prelude::*;

verus! {

/// A number of the binary64 format: a sign bit, eleven exponent bits and fifty-two fraction
/// bits.
#[derive(Clone, Copy, Debug, PartialEq, Eq, Structural)]
pub struct Real {
    pub bits: u64,
}

/// The bit pattern of positive infinity.
pub const INFINITY_BITS: u64 = 0x7ff0_0000_0000_0000;

/// The bit pattern of negative infinity.
pub const NEG_INFINITY_BITS: u64 = 0xfff0_0000_0000_0000;

/// The bit pattern of a quadrillion, from which on whole numbers are no longer written out.
pub const WHOLE_LIMIT_BITS: u64 = 0x430c_6bf5_2634_0000;

/// The bit pattern of a million, from which on numbers are written with an exponent.
pub const LARGE_BITS: u64 = 0x412e_8480_0000_0000;

/// The bit pattern of a ten-thousandth, below which numbers are written with an exponent.
pub const SMALL_BITS: u64 = 0x3f1a_36e2_eb1c_432d;

impl Real {
    /// Whether the sign bit is set.
    pub open spec fn negative(self) -> bool {
        self.bits >= 0x8000_0000_0000_0000
    }

    /// The bits of the absolute value. They grow with it.
    pub open spec fn magnitude(self) -> int {
        if self.negative() {
            self.bits - 0x8000_0000_0000_0000
        } else {
            self.bits as int
        }
    }

    /// Not a number: the exponent bits are all set and the fraction is not zero.
    pub open spec fn nan(self) -> bool {
        self.magnitude() > INFINITY_BITS
    }

    /// A number that grows with the value, and is zero for both zeros.
    pub open spec fn rank(self) -> int {
        if self.negative() {
            -self.magnitude()
        } else {
            self.magnitude()
        }
    }

    /// Whether this is less than `other`; false where either is not a number.
    pub open spec fn lt(self, other: Real) -> bool {
        !self.nan() && !other.nan() && self.rank() < other.rank()
    }

    /// Whether this is at most `other`; false where either is not a number.
    pub open spec fn le(self, other: Real) -> bool {
        !self.nan() && !other.nan() && self.rank() <= other.rank()
    }

    /// The significand as a whole number.
    pub open spec fn significand(self) -> nat {
        let fraction = self.magnitude() % 0x10_0000_0000_0000;
        if self.magnitude() < 0x10_0000_0000_0000 {
            fraction as nat
        } else {
            (fraction + 0x10_0000_0000_0000) as nat
        }
    }

    /// The power of two that the significand is scaled by, counted from the smallest one,
    /// 2^-1075.
    pub open spec fn scale(self) -> nat {
        if self.magnitude() < 0x10_0000_0000_0000 {
            1
        } else {
            (self.magnitude() / 0x10_0000_0000_0000) as nat
        }
    }

    /// Whether the absolute value, which is `significand * 2^(scale - 1075)`, is the whole
    /// number `n`.
    pub open spec fn absolute_is(self, n: nat) -> bool {
        self.significand() * pow2(self.scale()) == n * pow2(1075)
    }

    /// The absolute value as bits.
    pub fn magnitude_bits(self) -> (r: u64)
        ensures
            r == self.magnitude(),
    {
        if self.bits >= 0x8000_0000_0000_0000 {
            self.bits - 0x8000_0000_0000_0000
        } else {
            self.bits
        }
    }

    /// Whether this is not a number.
    pub fn is_nan(self) -> (r: bool)
        ensures
            r == self.nan(),
    {
        self.magnitude_bits() > INFINITY_BITS
    }

    /// Whether this is less than `other`; false where either is not a number.
    pub fn is_less(self, other: Real) -> (r: bool)
        ensures
            r == self.lt(other),
    {
        if self.is_nan() || other.is_nan() {
            return false;
        }
        let a: u64 = self.magnitude_bits();
        let b: u64 = other.magnitude_bits();
        if self.bits >= 0x8000_0000_0000_0000 {
            if other.bits >= 0x8000_0000_0000_0000 {
                b < a
            } else {
                a != 0 || b != 0
            }
        } else if other.bits >= 0x8000_0000_0000_0000 {
            false
        } else {
            a < b
        }
    }

    /// Whether this is at most `other`; false where either is not a number.
    pub fn is_at_most(self, other: Real) -> (r: bool)
        ensures
            r == self.le(other),
    {
        !self.is_nan() && !other.is_nan() && !other.is_less(self)
    }

    /// Whether this is one of the two zeros.
    pub fn is_zero(self) -> (r: bool)
        ensures
            r == (self.magnitude() == 0),
    {
        self.magnitude_bits() == 0
    }
}

/// How a number is shown.
#[derive(Debug)]
pub enum NumText {
    /// As this text.
    Whole(String),
    /// With six decimals and an exponent.
    Scientific,
    /// With six decimals.
    Fixed,
}

/// A whole number below a quadrillion in absolute value, with its sign.
pub open spec fn is_small_whole(v: Real, n: int) -> bool {
    &&& v.magnitude() < WHOLE_LIMIT_BITS
    &&& v.absolute_is((if n < 0 { -n } else { n }) as nat)
    &&& (n != 0 ==> (n < 0) == v.negative())
}

/// Whether a number that is not a small whole number is written with an exponent.
pub open spec fn is_scientific(v: Real) -> bool {
    !v.nan() && v.magnitude() != 0 && (v.magnitude() >= LARGE_BITS || v.magnitude() < SMALL_BITS)
}

/// Whether `t` is how `v` is shown: whole numbers below a quadrillion without decimals, other
/// numbers with six decimals, and with an exponent where they are large or tiny.
pub open spec fn shows_number(v: Real, t: NumText) -> bool {
    match t {
        NumText::Whole(s) => exists|n: int| #[trigger]
            is_small_whole(v, n) && s@ == signed_decimal(n),
        NumText::Scientific => (forall|n: int| !#[trigger] is_small_whole(v, n)) && is_scientific(v),
        NumText::Fixed => (forall|n: int| !#[trigger] is_small_whole(v, n)) && !is_scientific(v),
    }
}

/// `2^k` for a small `k`.
fn small_power(k: u32) -> (r: u64)
    requires
        k <= 62,
    ensures
        r == pow2(k as nat),
{
    let mut r: u64 = 1;
    let mut i: u32 = 0;
    proof {
        vstd::arithmetic::power2::lemma2_to64();
    }
    while i < k
        invariant
            i <= k <= 62,
            r == pow2(i as nat),
        decreases k - i,
    {
        proof {
            vstd::arithmetic::power2::lemma_pow2_unfold((i + 1) as nat);
            if i + 1 < 62 {
                lemma_pow2_strictly_increases((i + 1) as nat, 62);
            }
            assert(pow2(62) == 0x4000_0000_0000_0000) by {
                vstd::arithmetic::power2::lemma2_to64_rest();
            }
        }
        r = r * 2;
        i = i + 1;
    }
    r
}

/// A product is a multiple of a power of two exactly where the division has no remainder.
proof fn scaled_is_whole(sig: nat, scale: nat, shift: nat, n: nat)
    requires
        scale + shift == 1075,
    ensures
        sig * pow2(scale) == n * pow2(1075) <==> sig == n * pow2(shift),
{
    lemma_pow2_adds(shift, scale);
    lemma_pow2_pos(scale);
    let p = pow2(scale) as int;
    let q = pow2(shift) as int;
    let a = sig as int;
    let b = n as int;
    assert(b * (q * p) == (b * q) * p) by (nonlinear_arith);
    assert(a * p == (b * q) * p <==> a == b * q) by (nonlinear_arith)
        requires
            p > 0,
    ;
}

/// How a number is shown: whole numbers below a quadrillion without decimals, other numbers with
/// six decimals, and with an exponent where they are large or tiny.
pub fn format_num(v: Real) -> (t: NumText)
    ensures
        shows_number(v, t),
{
    let m: u64 = v.magnitude_bits();
    if m == 0 {
        proof {
            lemma_pow2_pos(1);
            assert(v.significand() == 0);
            assert(0 * pow2(1) == 0 * pow2(1075)) by (nonlinear_arith);
            assert(is_small_whole(v, 0));
        }
        return NumText::Whole(to_signed_decimal(0));
    }
    if m < WHOLE_LIMIT_BITS {
        let scale: u64 = m / 0x10_0000_0000_0000;
        if scale >= 1023 {
            let sig: u64 = m % 0x10_0000_0000_0000 + 0x10_0000_0000_0000;
            let shift: u32 = (1075 - scale) as u32;
            assert(scale <= 1072) by {
                assert(WHOLE_LIMIT_BITS / 0x10_0000_0000_0000 == 1072);
            }
            let unit: u64 = small_power(shift);
            proof {
                lemma_pow2_pos(shift as nat);
                assert(v.significand() == sig);
                assert(v.scale() == scale);
            }
            if sig % unit == 0 {
                let whole: u64 = sig / unit;
                proof {
                    vstd::arithmetic::div_mod::lemma_fundamental_div_mod(sig as int, unit as int);
                    assert(unit * whole == whole * unit) by (nonlinear_arith);
                    scaled_is_whole(sig as nat, scale as nat, shift as nat, whole as nat);
                    assert(whole <= sig);
                    assert(whole > 0) by (nonlinear_arith)
                        requires
                            sig == unit * whole,
                            sig > 0,
                            whole >= 0,
                    ;
                }
                let n: i64 = if v.bits >= 0x8000_0000_0000_0000 {
                    -(whole as i64)
                } else {
                    whole as i64
                };
                assert(is_small_whole(v, n as int));
                return NumText::Whole(to_signed_decimal(n));
            }
            proof {
                assert forall|n: int| !#[trigger] is_small_whole(v, n) by {
                    let k = (if n < 0 { -n } else { n }) as nat;
                    scaled_is_whole(sig as nat, scale as nat, shift as nat, k);
                    if sig == k * unit {
                        assert((k * unit) % (unit as int) == 0) by {
                            vstd::arithmetic::div_mod::lemma_mod_multiples_basic(
                                k as int,
                                unit as int,
                            );
                        }
                    }
                }
            }
        } else {
            proof {
                assert forall|n: int| !#[trigger] is_small_whole(v, n) by {
                    let k = (if n < 0 { -n } else { n }) as nat;
                    below_one_is_not_whole(v, k);
                }
            }
        }
    }
    if !v.is_nan() && (m >= LARGE_BITS || m < SMALL_BITS) {
        NumText::Scientific
    } else {
        NumText::Fixed
    }
}

/// A number that is not zero and has an exponent below that of one is no whole number.
proof fn below_one_is_not_whole(v: Real, n: nat)
    requires
        0 < v.magnitude(),
        v.magnitude() / 0x10_0000_0000_0000 < 1023,
    ensures
        !v.absolute_is(n),
{
    let sig = v.significand();
    let scale = v.scale();
    let shift = (1075 - scale) as nat;
    scaled_is_whole(sig, scale, shift, n);
    assert(0 < sig < 0x20_0000_0000_0000) by {
        if v.magnitude() < 0x10_0000_0000_0000 {
            assert(v.magnitude() % 0x10_0000_0000_0000 == v.magnitude());
        }
    }
    assert(pow2(53) == 0x20_0000_0000_0000) by {
        vstd::arithmetic::power2::lemma2_to64_rest();
    }
    if shift > 53 {
        lemma_pow2_strictly_increases(53, shift);
    }
    let q = pow2(shift) as int;
    let a = sig as int;
    let b = n as int;
    if a == b * q {
        if b == 0 {
            assert(b * q == 0) by (nonlinear_arith)
                requires
                    b == 0,
            ;
        } else {
            assert(b * q >= q) by (nonlinear_arith)
                requires
                    b >= 1,
                    q > 0,
            ;
        }
    }
}

// ---------------------------------------------------------------------------------------------
// Laws
// ---------------------------------------------------------------------------------------------

/// Numbers are ordered by their values: among positive ones more bits are more, among negative
/// ones less, every negative one but zero comes before every positive one, the two zeros are
/// level, and what is not a number is not comparable.
pub proof fn numbers_are_ordered_by_value(a: Real, b: Real)
    ensures
        a.nan() <==> 0x7ff0_0000_0000_0000 < a.bits < 0x8000_0000_0000_0000
            || 0xfff0_0000_0000_0000 < a.bits,
        a.nan() || b.nan() ==> !a.lt(b) && !a.le(b),
        !a.nan() && !b.nan() ==> {
            &&& a.lt(b) == !b.le(a)
            &&& a.bits < 0x8000_0000_0000_0000 && b.bits < 0x8000_0000_0000_0000 ==> a.lt(b) == (
            a.bits < b.bits)
            &&& a.bits >= 0x8000_0000_0000_0000 && b.bits >= 0x8000_0000_0000_0000 ==> a.lt(b) == (
            a.bits > b.bits)
            &&& a.bits >= 0x8000_0000_0000_0000 && b.bits < 0x8000_0000_0000_0000 ==> a.lt(b) == (
            a.bits != 0x8000_0000_0000_0000 || b.bits != 0)
            &&& a.bits < 0x8000_0000_0000_0000 && b.bits >= 0x8000_0000_0000_0000 ==> !a.lt(b)
        },
        a.lt(b) ==> a.rank() < b.rank(),
        a.le(b) ==> a.rank() <= b.rank(),
{
}

/// More bits of the absolute value are a larger absolute value.
pub proof fn magnitude_grows_with_value(a: Real, b: Real)
    requires
        a.magnitude() < b.magnitude(),
    ensures
        a.significand() * pow2(a.scale()) < b.significand() * pow2(b.scale()),
{
    let unit: int = 0x10_0000_0000_0000;
    let (p, q) = (a.magnitude(), b.magnitude());
    let (s, t) = (a.significand() as int, b.significand() as int);
    let x = pow2(a.scale()) as int;
    let y = pow2(b.scale()) as int;
    lemma_pow2_pos(a.scale());
    lemma_pow2_pos(b.scale());
    assert(p == unit * (p / unit) + p % unit);
    assert(q == unit * (q / unit) + q % unit);
    if a.scale() == b.scale() {
        assert(s < t);
        assert(s * x < t * y) by (nonlinear_arith)
            requires
                s < t,
                x == y,
                x > 0,
        ;
    } else {
        assert(a.scale() < b.scale());
        assert(s < 2 * unit);
        assert(t >= unit);
        vstd::arithmetic::power2::lemma_pow2_unfold((a.scale() + 1) as nat);
        if a.scale() + 1 < b.scale() {
            lemma_pow2_strictly_increases((a.scale() + 1) as nat, b.scale());
        }
        assert(2 * x <= y);
        assert(s * x < t * y) by (nonlinear_arith)
            requires
                0 <= s < 2 * unit,
                t >= unit,
                unit > 0,
                x > 0,
                2 * x <= y,
        ;
    }
}

/// The limits are a quadrillion, a million, and the number next to a ten-thousandth.
pub proof fn limits_are_powers_of_ten()
    ensures
        (Real { bits: WHOLE_LIMIT_BITS }).absolute_is(1_000_000_000_000_000),
        (Real { bits: LARGE_BITS }).absolute_is(1_000_000),
        (Real { bits: SMALL_BITS }).scale() + 66 == 1075,
        -5_000 < 10_000 * (Real { bits: SMALL_BITS }).significand() - pow2(66) < 5_000,
{
    vstd::arithmetic::power2::lemma2_to64();
    vstd::arithmetic::power2::lemma2_to64_rest();
    let w = Real { bits: WHOLE_LIMIT_BITS };
    assert(w.magnitude() == 0x430c_6bf5_2634_0000);
    assert(w.scale() == 1072);
    assert(w.significand() == 8_000_000_000_000_000);
    scaled_is_whole(w.significand(), 1072, 3, 1_000_000_000_000_000);
    let l = Real { bits: LARGE_BITS };
    assert(l.scale() == 1042);
    assert(l.significand() == 1_000_000 * 0x2_0000_0000);
    scaled_is_whole(l.significand(), 1042, 33, 1_000_000);
    lemma_pow2_adds(33, 33);
    assert(pow2(33) == 0x2_0000_0000);
    assert(0x2_0000_0000int * 0x2_0000_0000int == 73_786_976_294_838_206_464int) by (nonlinear_arith);
    assert((Real { bits: SMALL_BITS }).significand() == 7_378_697_629_483_821);
}

/// A whole number below a quadrillion is shown in base ten, with its sign.
pub proof fn whole_numbers_are_written_out(v: Real, n: nat, t: NumText)
    requires
        shows_number(v, t),
        v.absolute_is(n),
        n < 1_000_000_000_000_000,
    ensures
        t matches NumText::Whole(s) && s@ == if n > 0 && v.bits >= 0x8000_0000_0000_0000 {
            signed_decimal(-n)
        } else {
            signed_decimal(n as int)
        },
{
    let limit = Real { bits: WHOLE_LIMIT_BITS };
    limits_are_powers_of_ten();
    lemma_pow2_pos(1075);
    let p = pow2(1075) as int;
    if v.magnitude() >= limit.magnitude() {
        if v.magnitude() > limit.magnitude() {
            magnitude_grows_with_value(limit, v);
        }
        assert(n * p < 1_000_000_000_000_000 * p) by (nonlinear_arith)
            requires
                n < 1_000_000_000_000_000,
                p > 0,
        ;
        assert(false);
    }
    let whole: int = if n > 0 && v.negative() {
        -n
    } else {
        n as int
    };
    assert(is_small_whole(v, whole));
    if let NumText::Whole(s) = t {
        let m = choose|m: int| #[trigger] is_small_whole(v, m) && s@ == signed_decimal(m);
        let k = (if m < 0 { -m } else { m }) as nat;
        assert(k * p == n * p);
        assert(k == n) by (nonlinear_arith)
            requires
                k * p == n * p,
                p > 0,
        ;
    }
}

/// A number of at least a quadrillion in absolute value is shown with an exponent, and so is any
/// other that is no whole number and is at least a million or below a ten-thousandth; the rest
/// have six decimals.
pub proof fn other_numbers_have_decimals(v: Real, t: NumText)
    requires
        shows_number(v, t),
    ensures
        v.nan() ==> t is Fixed,
        !v.nan() && v.magnitude() >= (Real { bits: WHOLE_LIMIT_BITS }).magnitude() ==> t is Scientific,
        t is Whole ==> !v.nan() && exists|n: nat| v.absolute_is(n),
        !v.nan() && !(t is Whole) ==> (t is Scientific <==> v.magnitude() >= (Real {
            bits: LARGE_BITS,
        }).magnitude() || 0 < v.magnitude() < (Real { bits: SMALL_BITS }).magnitude()),
{
    if let NumText::Whole(s) = t {
        let m = choose|m: int| #[trigger] is_small_whole(v, m) && s@ == signed_decimal(m);
        assert(v.absolute_is((if m < 0 { -m } else { m }) as nat));
    }
    if v.magnitude() == 0 {
        lemma_pow2_pos(1);
        assert(v.significand() == 0);
        assert(0 * pow2(1) == 0 * pow2(1075)) by (nonlinear_arith);
        assert(is_small_whole(v, 0));
    }
}

/// A number is its fraction and, where it has an exponent, the leading one, scaled by the exponent;
/// the sign makes no difference to the absolute value.
pub proof fn numbers_are_scaled_fractions(v: Real, negative: bool, exponent: int, fraction: int)
    requires
        0 <= exponent < 2_048,
        0 <= fraction < 0x10_0000_0000_0000,
        v.bits == (if negative {
            0x8000_0000_0000_0000int
        } else {
            0
        }) + exponent * 0x10_0000_0000_0000 + fraction,
    ensures
        v.negative() == negative,
        exponent == 0 ==> v.significand() == fraction && v.scale() == 1,
        exponent > 0 ==> v.significand() == 0x10_0000_0000_0000 + fraction && v.scale() == exponent,
        forall|n: nat| #[trigger]
            v.absolute_is(n) <==> v.significand() * pow2(v.scale()) == n * pow2(1075),
{
}

} // verus!
