//! Measured quantities (latency in milliseconds, throughput in megabytes per
//! second) as the ranking sees them.
//!
//! A double is a sign and a magnitude, and two magnitudes compare as the
//! integers that their bits spell. A [`Measure`] keeps the bits, and compares
//! by them as the doubles compare.
use vstd::arithmetic::power2::{
    lemma2_to64, lemma_pow2_adds, lemma_pow2_pos, lemma_pow2_strictly_increases, pow2,
};
use vstd::prelude::*;

verus! {

/// Bits of a double below the sign bit.
pub const MAGNITUDE_SPAN: u64 = 0x8000_0000_0000_0000;

/// Magnitude of infinity. What is above it spells no number.
pub const INFINITE_MAGNITUDE: u64 = 0x7FF0_0000_0000_0000;

/// Distance between two doubles whose exponents differ by one.
pub const FRACTION_SPAN: u64 = 0x10_0000_0000_0000;

/// One measured double, held by its bits.
#[derive(Debug, Clone, Copy, PartialEq, Eq, Structural)]
pub struct Measure {
    bits: u64,
}

/// The order key of a double, from its bits: the magnitude, negated under a
/// set sign bit. Both zeros have the key 0.
pub open spec fn key_of_bits(bits: u64) -> int {
    if bits < MAGNITUDE_SPAN {
        bits as int
    } else {
        MAGNITUDE_SPAN - bits
    }
}

/// Whether the bits of a double spell a number, an infinity included.
pub open spec fn spells_number(bits: u64) -> bool {
    -INFINITE_MAGNITUDE <= key_of_bits(bits) <= INFINITE_MAGNITUDE
}

/// The number that a magnitude stands for, in units of the smallest positive
/// double. Infinity counts as the power of two that would follow the largest
/// finite double.
pub open spec fn magnitude_value(magnitude: nat) -> nat {
    let exponent = magnitude / (FRACTION_SPAN as nat);
    let fraction = magnitude % (FRACTION_SPAN as nat);
    if exponent == 0 {
        fraction
    } else {
        (FRACTION_SPAN as nat + fraction) * pow2((exponent - 1) as nat)
    }
}

/// The number that a key stands for, in units of the smallest positive double.
pub open spec fn key_value(key: int) -> int {
    if key >= 0 {
        magnitude_value(key as nat) as int
    } else {
        -(magnitude_value((-key) as nat) as int)
    }
}

impl Measure {
    /// The bits of the double.
    pub closed spec fn bits(self) -> u64 {
        self.bits
    }

    /// Whether this is a number, an infinity included.
    pub open spec fn is_number(self) -> bool {
        spells_number(self.bits())
    }

    /// Whether this is less than `other`. What is no number is neither less nor
    /// greater than anything.
    pub open spec fn less(self, other: Measure) -> bool {
        &&& self.is_number()
        &&& other.is_number()
        &&& key_of_bits(self.bits()) < key_of_bits(other.bits())
    }

    /// The measure whose double has the given bits.
    pub fn from_bits(bits: u64) -> (m: Measure)
        ensures
            m.bits() == bits,
    {
        Measure { bits }
    }

    /// The bits of the double, as they were given.
    pub fn to_bits(self) -> (bits: u64)
        ensures
            bits == self.bits(),
    {
        self.bits
    }

    /// The integer by which this measure is compared.
    pub fn order_key(self) -> (key: i64)
        ensures
            key == key_of_bits(self.bits()),
    {
        if self.bits < MAGNITUDE_SPAN {
            self.bits as i64
        } else {
            -((self.bits - MAGNITUDE_SPAN) as i64)
        }
    }

    /// Whether this is less than `other`.
    pub fn less_than(self, other: Measure) -> (r: bool)
        ensures
            r == self.less(other),
    {
        let infinity: i64 = INFINITE_MAGNITUDE as i64;
        let a: i64 = self.order_key();
        let b: i64 = other.order_key();
        -infinity <= a && a < b && b <= infinity
    }
}

/// A larger magnitude stands for a larger number.
proof fn lemma_magnitude_value_increases(a: nat, b: nat)
    requires
        a < b,
    ensures
        magnitude_value(a) < magnitude_value(b),
{
    let span = FRACTION_SPAN as nat;
    let (ea, fa) = (a / span, a % span);
    let (eb, fb) = (b / span, b % span);
    assert(a == ea * span + fa && b == eb * span + fb) by (nonlinear_arith)
        requires
            span > 0,
            ea == a / span,
            fa == a % span,
            eb == b / span,
            fb == b % span,
    ;
    assert(ea <= eb) by (nonlinear_arith)
        requires
            a < b,
            a == ea * span + fa,
            b == eb * span + fb,
            fb < span,
            fa >= 0,
            span > 0,
    ;
    if ea == eb {
        if ea > 0 {
            let p = pow2((ea - 1) as nat);
            lemma_pow2_pos((ea - 1) as nat);
            assert((span + fa) * p < (span + fb) * p) by (nonlinear_arith)
                requires
                    fa < fb,
                    p > 0,
            ;
        }
    } else {
        let q = pow2((eb - 1) as nat);
        lemma_pow2_pos((eb - 1) as nat);
        assert(span * q <= (span + fb) * q) by (nonlinear_arith);
        if ea == 0 {
            assert(span <= span * q) by (nonlinear_arith)
                requires
                    q >= 1,
            ;
        } else {
            let p = pow2((ea - 1) as nat);
            lemma_pow2_pos((ea - 1) as nat);
            lemma_pow2_adds((ea - 1) as nat, 1);
            lemma2_to64();
            assert(pow2(ea) == p * 2);
            if ea < eb - 1 {
                lemma_pow2_strictly_increases(ea, (eb - 1) as nat);
            }
            assert((span + fa) * p < span * q) by (nonlinear_arith)
                requires
                    fa < span,
                    p > 0,
                    p * 2 <= q,
            ;
        }
    }
}

/// Keys compare as the numbers they stand for, and two keys that differ stand
/// for different numbers.
pub proof fn law_keys_order_as_numbers(a: int, b: int)
    ensures
        a < b <==> key_value(a) < key_value(b),
        a == b <==> key_value(a) == key_value(b),
{
    assert forall|x: int, y: int| x < y implies #[trigger] key_value(x) < #[trigger] key_value(
        y,
    ) by {
        if x >= 0 {
            lemma_magnitude_value_increases(x as nat, y as nat);
        } else if y < 0 {
            lemma_magnitude_value_increases((-y) as nat, (-x) as nat);
        } else {
            lemma_magnitude_value_increases(0, (-x) as nat);
            if y > 0 {
                lemma_magnitude_value_increases(0, y as nat);
            }
        }
    }
}

/// Measures compare as doubles do: numbers by value, and what is no number with
/// nothing.
pub proof fn law_measures_compare_as_doubles(a: Measure, b: Measure)
    ensures
        a.is_number() && b.is_number() ==> (a.less(b) <==> key_value(key_of_bits(a.bits()))
            < key_value(key_of_bits(b.bits()))),
        !a.is_number() ==> !a.less(b) && !b.less(a),
{
    law_keys_order_as_numbers(key_of_bits(a.bits()), key_of_bits(b.bits()));
}

/// A measure gives back the bits it was made from.
pub proof fn law_bits_come_back(bits: u64, m: Measure, back: u64)
    requires
        call_ensures(Measure::from_bits, (bits,), m),
        call_ensures(Measure::to_bits, (m,), back),
    ensures
        back == bits,
{
}

/// Comparison, on the bits: with both signs clear the larger bits are the larger
/// number, with both set the smaller one, a set sign is less than a clear one
/// but for the two zeros, and past the bits of the infinities nothing compares.
pub proof fn law_less_on_bits(a: Measure, b: Measure, r: bool)
    requires
        call_ensures(Measure::less_than, (a, b), r),
    ensures
        r == a.less(b),
        ({
            let x = a.bits();
            let y = b.bits();
            if x < 0x8000_0000_0000_0000 && y < 0x8000_0000_0000_0000 {
                r <==> x < y && y <= 0x7FF0_0000_0000_0000
            } else if x >= 0x8000_0000_0000_0000 && y >= 0x8000_0000_0000_0000 {
                r <==> y < x && x <= 0xFFF0_0000_0000_0000
            } else if x >= 0x8000_0000_0000_0000 {
                r <==> !(x == 0x8000_0000_0000_0000 && y == 0) && x <= 0xFFF0_0000_0000_0000 && y
                    <= 0x7FF0_0000_0000_0000
            } else {
                !r
            }
        }),
{
}

/// The order key grows with the number: it is the bits below the sign, negated
/// under a set sign.
pub proof fn law_order_key(m: Measure, key: i64)
    requires
        call_ensures(Measure::order_key, (m,), key),
    ensures
        m.bits() < 0x8000_0000_0000_0000 ==> key == m.bits(),
        m.bits() >= 0x8000_0000_0000_0000 ==> m.bits() + key == 0x8000_0000_0000_0000,
{
}

} // verus!
