//! Double-precision numbers held by their bit patterns.
//!
//! A measurement is stored, compared and selected here without ever being
//! computed with. [`Double`] keeps the 64 bits of an IEEE 754 double and
//! compares them exactly as the numbers compare: the contracts speak of
//! [`Double::units`], the number as an integer multiple of the smallest
//! positive double.

use vstd::arithmetic::power2::{lemma_pow2_adds, lemma_pow2_pos, pow2};
use vstd::prelude::*;

verus! {

/// The sign bit.
pub const SIGN: u64 = 0x8000_0000_0000_0000;

/// The magnitude bits of an infinity; larger magnitudes are not numbers.
pub const INFINITY: u64 = 0x7FF0_0000_0000_0000;

/// The bits of negative infinity.
pub const NEGATIVE_INFINITY: u64 = 0xFFF0_0000_0000_0000;

/// The weight of the lowest exponent bit.
pub const EXPONENT: u64 = 0x0010_0000_0000_0000;

/// The bits of 0.
pub const ZERO: u64 = 0x0000_0000_0000_0000;

/// The bits of one half.
pub const HALF: u64 = 0x3FE0_0000_0000_0000;

/// The bits of 1.
pub const ONE: u64 = 0x3FF0_0000_0000_0000;

/// The bits of 3.
pub const THREE: u64 = 0x4008_0000_0000_0000;

/// The non-negative number with magnitude bits `m`, in units of 2^-1074.
///
/// An infinity takes the value that follows the largest finite one, so that
/// it is above every finite number.
pub open spec fn units_of(m: nat) -> nat {
    let e = m / (EXPONENT as nat);
    let f = m % (EXPONENT as nat);
    if e == 0 {
        f
    } else {
        (EXPONENT as nat + f) * pow2((e - 1) as nat)
    }
}

/// The number 1 in units of 2^-1074.
pub open spec fn one() -> nat {
    pow2(1074)
}

/// An IEEE 754 double by its bit pattern.
#[derive(Clone, Copy, Debug, PartialEq, Eq, Structural)]
pub struct Double {
    /// Sign, exponent and fraction, as `to_bits` of a double gives them.
    pub bits: u64,
}

impl Double {
    /// The bits below the sign.
    pub open spec fn magnitude(self) -> nat {
        (self.bits % SIGN) as nat
    }

    /// Whether the bits stand for no number.
    pub open spec fn is_nan(self) -> bool {
        self.magnitude() > INFINITY
    }

    /// The number, in units of 2^-1074.
    pub open spec fn units(self) -> int {
        if self.bits < SIGN {
            units_of(self.magnitude()) as int
        } else {
            -(units_of(self.magnitude()) as int)
        }
    }

    /// Whether both are numbers and `self` is the smaller.
    pub open spec fn below(self, other: Double) -> bool {
        !self.is_nan() && !other.is_nan() && self.units() < other.units()
    }

    /// Whether both are numbers and `self` is no larger.
    pub open spec fn at_most(self, other: Double) -> bool {
        !self.is_nan() && !other.is_nan() && self.units() <= other.units()
    }

    /// Whether this is a number smaller than `halves` halves.
    pub open spec fn below_halves(self, halves: int) -> bool {
        !self.is_nan() && 2 * self.units() < halves * one()
    }

    /// Whether this is a number no larger than `halves` halves.
    pub open spec fn at_most_halves(self, halves: int) -> bool {
        !self.is_nan() && 2 * self.units() <= halves * one()
    }

    /// The smaller of two numbers, the first where they are equal, and the
    /// other one where one of them is not a number.
    pub open spec fn lesser(self, other: Double) -> Double {
        if self.is_nan() || other.below(self) {
            other
        } else {
            self
        }
    }

    /// The larger of two numbers, the first where they are equal, and the
    /// other one where one of them is not a number.
    pub open spec fn greater(self, other: Double) -> Double {
        if self.is_nan() || self.below(other) {
            other
        } else {
            self
        }
    }

    /// The position among all doubles in increasing order, with 0 at 0.
    pub open spec fn position(self) -> int {
        if self.bits < SIGN {
            self.magnitude() as int
        } else {
            -(self.magnitude() as int)
        }
    }

    /// The double with these bits.
    pub fn from_bits(bits: u64) -> (d: Double)
        ensures
            d.bits == bits,
    {
        Double { bits }
    }

    /// The bits of this double.
    pub fn to_bits(self) -> (bits: u64)
        ensures
            bits == self.bits,
    {
        self.bits
    }

    /// Whether the bits stand for no number.
    pub fn not_a_number(self) -> (r: bool)
        ensures
            r == self.is_nan(),
    {
        self.bits % SIGN > INFINITY
    }

    fn rank(self) -> (r: i64)
        ensures
            r == self.position(),
    {
        if self.bits < SIGN {
            self.bits as i64
        } else {
            -((self.bits - SIGN) as i64)
        }
    }

    /// `<` on doubles: false where either is not a number.
    pub fn lt(self, other: Double) -> (r: bool)
        ensures
            r == self.below(other),
    {
        proof {
            law_bits_order_as_numbers(self, other);
            law_bits_order_as_numbers(other, self);
        }
        !self.not_a_number() && !other.not_a_number() && self.rank() < other.rank()
    }

    /// `<=` on doubles: false where either is not a number.
    pub fn le(self, other: Double) -> (r: bool)
        ensures
            r == self.at_most(other),
    {
        proof {
            law_bits_order_as_numbers(self, other);
            law_bits_order_as_numbers(other, self);
        }
        !self.not_a_number() && !other.not_a_number() && self.rank() <= other.rank()
    }

    /// The smaller of two numbers; see [`Double::lesser`].
    pub fn min(self, other: Double) -> (r: Double)
        ensures
            r == self.lesser(other),
    {
        if self.not_a_number() || other.lt(self) {
            other
        } else {
            self
        }
    }

    /// The larger of two numbers; see [`Double::greater`].
    pub fn max(self, other: Double) -> (r: Double)
        ensures
            r == self.greater(other),
    {
        if self.not_a_number() || self.lt(other) {
            other
        } else {
            self
        }
    }
}

proof fn lemma_units_of_increases(a: nat, b: nat)
    requires
        a < b,
    ensures
        units_of(a) < units_of(b),
{
    let w = EXPONENT as nat;
    let (ea, fa) = (a / w, a % w);
    let (eb, fb) = (b / w, b % w);
    assert(a == ea * w + fa && b == eb * w + fb) by {
        vstd::arithmetic::div_mod::lemma_fundamental_div_mod(a as int, w as int);
        vstd::arithmetic::div_mod::lemma_fundamental_div_mod(b as int, w as int);
    }
    assert(ea <= eb) by (nonlinear_arith)
        requires
            a < b,
            a == ea * w + fa,
            b == eb * w + fb,
            fa < w,
            fb < w,
    ;
    if ea == eb {
        if ea > 0 {
            let p = pow2((ea - 1) as nat);
            lemma_pow2_pos((ea - 1) as nat);
            assert((w + fa) * p < (w + fb) * p) by (nonlinear_arith)
                requires
                    fa < fb,
                    p > 0,
            ;
        }
    } else {
        let p = pow2((eb - 1) as nat);
        lemma_pow2_pos((eb - 1) as nat);
        assert(w * p <= (w + fb) * p) by (nonlinear_arith)
            requires
                p > 0,
        ;
        if ea == 0 {
            assert(w <= w * p) by (nonlinear_arith)
                requires
                    p > 0,
            ;
        } else {
            let q = pow2((ea - 1) as nat);
            let d = (eb - ea) as nat;
            lemma_pow2_adds((ea - 1) as nat, d);
            lemma_pow2_pos((ea - 1) as nat);
            lemma_pow2_pos((d - 1) as nat);
            lemma_pow2_adds(1, (d - 1) as nat);
            vstd::arithmetic::power2::lemma2_to64();
            assert(pow2(d) >= 2);
            assert(p == q * pow2(d));
            assert((w + fa) * q < w * p) by (nonlinear_arith)
                requires
                    fa < w,
                    q > 0,
                    p == q * pow2(d),
                    pow2(d) >= 2,
            ;
        }
    }
}

/// The bit patterns of two doubles are in the order of the numbers that they
/// stand for: one is below the other exactly where its sign and magnitude
/// say so.
pub proof fn law_bits_order_as_numbers(a: Double, b: Double)
    ensures
        a.units() < b.units() <==> a.position() < b.position(),
{
    let (ma, mb) = (a.magnitude(), b.magnitude());
    if ma < mb {
        lemma_units_of_increases(ma, mb);
    } else if mb < ma {
        lemma_units_of_increases(mb, ma);
    }
    assert(units_of(0) == 0);
    if ma > 0 {
        lemma_units_of_increases(0, ma);
    }
    if mb > 0 {
        lemma_units_of_increases(0, mb);
    }
}

/// The named bit patterns are 0, one half, 1 and 3, and the infinities are
/// above and below every other number.
pub proof fn law_named_doubles()
    ensures
        (Double { bits: ZERO }).units() == 0,
        2 * (Double { bits: HALF }).units() == one(),
        (Double { bits: ONE }).units() == one(),
        (Double { bits: THREE }).units() == 3 * one(),
        forall|d: Double|
            !d.is_nan() && d.bits != INFINITY ==> #[trigger] d.below(Double { bits: INFINITY }),
        forall|d: Double|
            !d.is_nan() && d.bits != NEGATIVE_INFINITY ==> #[trigger] (Double {
                bits: NEGATIVE_INFINITY,
            }).below(d),
{
    vstd::arithmetic::power2::lemma2_to64();
    vstd::arithmetic::power2::lemma2_to64_rest();
    assert(pow2(52) == EXPONENT);
    lemma_pow2_adds(52, 1022);
    lemma_pow2_adds(52, 1021);
    lemma_pow2_adds(1, 1021);
    lemma_pow2_adds(1, 1022);
    let w = EXPONENT as nat;
    assert(ONE as nat / w == 1023 && ONE as nat % w == 0);
    assert(HALF as nat / w == 1022 && HALF as nat % w == 0);
    assert(THREE as nat / w == 1024 && THREE as nat % w == w / 2);
    let p = pow2(1021);
    assert(pow2(1022) == 2 * p);
    assert(pow2(1023) == 2 * pow2(1022));
    assert((w + 0) * pow2(1021) == w * p);
    assert((w + w / 2) * pow2(1023) == 3 * (w * (2 * p))) by (nonlinear_arith)
        requires
            pow2(1023) == 2 * (2 * p),
            w == 0x0010_0000_0000_0000,
    ;
    assert(w * (2 * p) == 2 * (w * p)) by (nonlinear_arith);
    assert forall|d: Double| !d.is_nan() && d.bits != INFINITY implies #[trigger] d.below(
        Double { bits: INFINITY },
    ) by {
        law_bits_order_as_numbers(d, Double { bits: INFINITY });
    }
    assert forall|d: Double| !d.is_nan() && d.bits != NEGATIVE_INFINITY implies #[trigger] (
    Double { bits: NEGATIVE_INFINITY }).below(d) by {
        law_bits_order_as_numbers(Double { bits: NEGATIVE_INFINITY }, d);
    }
}

/// The least number of a sequence: infinity where it holds no number, and
/// the first of them where several are least.
pub open spec fn least(values: Seq<Double>) -> Double
    decreases values.len(),
{
    if values.len() == 0 {
        Double { bits: INFINITY }
    } else {
        least(values.drop_last()).lesser(values.last())
    }
}

/// The greatest number of a sequence: negative infinity where it holds no
/// number, and the first of them where several are greatest.
pub open spec fn greatest(values: Seq<Double>) -> Double
    decreases values.len(),
{
    if values.len() == 0 {
        Double { bits: NEGATIVE_INFINITY }
    } else {
        greatest(values.drop_last()).greater(values.last())
    }
}

/// The values that stand at these places.
pub open spec fn pick(values: Seq<Double>, places: Seq<usize>) -> Seq<Double> {
    places.map_values(|i: usize| values[i as int])
}

/// The least of the values at these places.
pub fn least_at(values: &Vec<Double>, places: &Vec<usize>) -> (r: Double)
    requires
        forall|k: int| 0 <= k < places.len() ==> (#[trigger] places@[k]) < values.len(),
    ensures
        r == least(pick(values@, places@)),
{
    let mut r = Double::from_bits(INFINITY);
    let ghost picked = pick(values@, places@);
    let mut n: usize = 0;
    while n < places.len()
        invariant
            n <= places.len(),
            picked == pick(values@, places@),
            forall|k: int| 0 <= k < places.len() ==> (#[trigger] places@[k]) < values.len(),
            r == least(picked.take(n as int)),
        decreases places.len() - n,
    {
        r = r.min(values[places[n]]);
        proof {
            let next = picked.take(n + 1);
            assert(next.drop_last() =~= picked.take(n as int));
            assert(next.last() == values@[places@[n as int] as int]);
        }
        n = n + 1;
    }
    proof {
        assert(picked.take(n as int) =~= picked);
    }
    r
}

/// The greatest of the values at these places.
pub fn greatest_at(values: &Vec<Double>, places: &Vec<usize>) -> (r: Double)
    requires
        forall|k: int| 0 <= k < places.len() ==> (#[trigger] places@[k]) < values.len(),
    ensures
        r == greatest(pick(values@, places@)),
{
    let mut r = Double::from_bits(NEGATIVE_INFINITY);
    let ghost picked = pick(values@, places@);
    let mut n: usize = 0;
    while n < places.len()
        invariant
            n <= places.len(),
            picked == pick(values@, places@),
            forall|k: int| 0 <= k < places.len() ==> (#[trigger] places@[k]) < values.len(),
            r == greatest(picked.take(n as int)),
        decreases places.len() - n,
    {
        r = r.max(values[places[n]]);
        proof {
            let next = picked.take(n + 1);
            assert(next.drop_last() =~= picked.take(n as int));
            assert(next.last() == values@[places@[n as int] as int]);
        }
        n = n + 1;
    }
    proof {
        assert(picked.take(n as int) =~= picked);
    }
    r
}

/// The least of a sequence that holds a number is one of its numbers and is
/// not above any of them.
pub proof fn law_least_is_a_lower_bound(values: Seq<Double>)
    ensures
        !least(values).is_nan(),
        forall|i: int|
            0 <= i < values.len() && !(#[trigger] values[i]).is_nan() ==> least(values).at_most(
                values[i],
            ),
        (exists|i: int| 0 <= i < values.len() && !(#[trigger] values[i]).is_nan())
            ==> values.contains(least(values)),
    decreases values.len(),
{
    if values.len() > 0 {
        let front = values.drop_last();
        law_least_is_a_lower_bound(front);
        law_named_doubles();
        let (low, last) = (least(front), values.last());
        let all = least(values);
        assert forall|i: int| 0 <= i < values.len() && !(
        #[trigger] values[i]).is_nan() implies all.at_most(values[i]) by {
            if i < front.len() {
                assert(front[i] == values[i]);
                assert(low.at_most(front[i]));
            }
        }
        if exists|i: int| 0 <= i < values.len() && !(#[trigger] values[i]).is_nan() {
            let last_place = values.len() - 1;
            assert(values[last_place] == last);
            if exists|i: int| 0 <= i < front.len() && !(#[trigger] front[i]).is_nan() {
                let k = choose|k: int| 0 <= k < front.len() && front[k] == low;
                assert(values[k] == low);
            } else {
                let i = choose|i: int| 0 <= i < values.len() && !(#[trigger] values[i]).is_nan();
                if i < front.len() {
                    assert(front[i] == values[i]);
                }
                lemma_no_number_leaves_infinity(front);
                assert(low == Double { bits: INFINITY });
            }
        }
    }
}

proof fn lemma_no_number_leaves_infinity(values: Seq<Double>)
    requires
        forall|i: int| 0 <= i < values.len() ==> (#[trigger] values[i]).is_nan(),
    ensures
        least(values) == (Double { bits: INFINITY }),
        greatest(values) == (Double { bits: NEGATIVE_INFINITY }),
    decreases values.len(),
{
    if values.len() > 0 {
        let front = values.drop_last();
        assert forall|i: int| 0 <= i < front.len() implies (#[trigger] front[i]).is_nan() by {
            assert(front[i] == values[i]);
        }
        lemma_no_number_leaves_infinity(front);
        assert(values[values.len() - 1].is_nan());
    }
}

/// The greatest of a sequence that holds a number is one of its numbers and
/// is not below any of them.
pub proof fn law_greatest_is_an_upper_bound(values: Seq<Double>)
    ensures
        !greatest(values).is_nan(),
        forall|i: int|
            0 <= i < values.len() && !(#[trigger] values[i]).is_nan() ==> values[i].at_most(
                greatest(values),
            ),
        (exists|i: int| 0 <= i < values.len() && !(#[trigger] values[i]).is_nan())
            ==> values.contains(greatest(values)),
    decreases values.len(),
{
    if values.len() > 0 {
        let front = values.drop_last();
        law_greatest_is_an_upper_bound(front);
        law_named_doubles();
        let (high, last) = (greatest(front), values.last());
        let all = greatest(values);
        assert forall|i: int| 0 <= i < values.len() && !(
        #[trigger] values[i]).is_nan() implies values[i].at_most(all) by {
            if i < front.len() {
                assert(front[i] == values[i]);
                assert(front[i].at_most(high));
            }
        }
        if exists|i: int| 0 <= i < values.len() && !(#[trigger] values[i]).is_nan() {
            let last_place = values.len() - 1;
            assert(values[last_place] == last);
            if exists|i: int| 0 <= i < front.len() && !(#[trigger] front[i]).is_nan() {
                let k = choose|k: int| 0 <= k < front.len() && front[k] == high;
                assert(values[k] == high);
            } else {
                let i = choose|i: int| 0 <= i < values.len() && !(#[trigger] values[i]).is_nan();
                if i < front.len() {
                    assert(front[i] == values[i]);
                }
                lemma_no_number_leaves_infinity(front);
                assert(high == Double { bits: NEGATIVE_INFINITY });
            }
        }
    }
}

/// Doubles compare as the numbers do: nothing compares with what is no
/// number, changing the sign bit negates the number, and of two doubles the
/// lesser and the greater are the two in order, or both the one that is a
/// number.
pub proof fn law_comparisons_are_those_of_numbers(a: Double, b: Double)
    ensures
        a.is_nan() <==> a.bits % 0x8000_0000_0000_0000 > 0x7FF0_0000_0000_0000,
        a.bits < 0x8000_0000_0000_0000 && b.bits == a.bits + 0x8000_0000_0000_0000 ==> b.units()
            == -a.units() && a.units() >= 0,
        a.below(b) <==> !a.is_nan() && !b.is_nan() && a.units() < b.units(),
        a.at_most(b) <==> !a.is_nan() && !b.is_nan() && a.units() <= b.units(),
        !a.is_nan() && !b.is_nan() ==> {
            let (low, high) = (a.lesser(b), a.greater(b));
            &&& (low == a || low == b) && (high == a || high == b)
            &&& low.units() <= a.units() <= high.units()
            &&& low.units() <= b.units() <= high.units()
        },
        a.is_nan() ==> a.lesser(b) == b && a.greater(b) == b,
        !a.is_nan() && b.is_nan() ==> a.lesser(b) == a && a.greater(b) == a,
{
}

} // verus!
