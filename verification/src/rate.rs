//! Conversion rates, and the output that a bid promises for its input.
//!
//! A rate is an IEEE 754 double, kept as its 64 bits. The output is the product of the
//! input and the rate in double arithmetic, rounded down to a whole amount; it is
//! computed here on integers.
use crate::types::Bid;
use vstd::arithmetic::div_mod::{
    lemma_div_denominator, lemma_div_is_ordered, lemma_div_multiples_vanish,
    lemma_fundamental_div_mod, lemma_mod_multiples_basic,
};
use vstd::arithmetic::power2::{
    lemma2_to64, lemma_pow2_adds, lemma_pow2_pos, lemma_pow2_strictly_increases,
    lemma_pow2_unfold, pow2,
};
use vstd::prelude::*;
use vstd::std_specs::cmp::PartialEqSpecImpl;

verus! {

/// Two to the 52nd: one more than the largest fraction field of a double.
pub const FRACTIONS: u64 = 0x10_0000_0000_0000;

/// Two to the 53rd: whole numbers below it need no rounding to become a double.
pub const EXACT_LIMIT: u128 = 0x20_0000_0000_0000;

/// The exponent field of infinities and of values that are not numbers.
pub const SPECIAL_EXPONENT: u64 = 0x7ff;

/// The bit that makes a double negative.
pub const SIGN_BIT: u64 = 0x8000_0000_0000_0000;

/// A conversion rate: the bits of an IEEE 754 double.
#[derive(Clone, Copy, Debug)]
pub struct ConversionRate {
    pub bits: u64,
}

/// How many low bits of `n` a double cannot keep.
pub open spec fn dropped_bits(n: nat) -> nat
    decreases n,
{
    if n < EXACT_LIMIT {
        0
    } else {
        1 + dropped_bits(n / 2)
    }
}

/// The whole number nearest to `n` that has at most 53 significant bits; of two that are
/// equally near, the one whose last kept bit is zero.
pub open spec fn nearest_double(n: nat) -> nat {
    let unit = pow2(dropped_bits(n));
    let kept = n / unit;
    let rest = n % unit;
    if 2 * rest > unit || (2 * rest == unit && kept % 2 == 1) {
        (kept + 1) * unit
    } else {
        kept * unit
    }
}

/// `n` times two to the power `exponent`, rounded down.
pub open spec fn scaled_floor(n: nat, exponent: int) -> nat {
    if exponent >= 0 {
        n * pow2(exponent as nat)
    } else {
        n / pow2((-exponent) as nat)
    }
}

/// `n`, or the largest amount where `n` exceeds it.
pub open spec fn capped(n: nat) -> u64 {
    if n > u64::MAX {
        u64::MAX
    } else {
        n as u64
    }
}

impl ConversionRate {
    pub open spec fn exponent_field(self) -> u64 {
        (self.bits / FRACTIONS) % 0x800
    }

    pub open spec fn fraction_field(self) -> u64 {
        self.bits % FRACTIONS
    }

    pub open spec fn negative(self) -> bool {
        self.bits >= SIGN_BIT
    }

    pub open spec fn nan(self) -> bool {
        self.exponent_field() == SPECIAL_EXPONENT && self.fraction_field() != 0
    }

    pub open spec fn infinite(self) -> bool {
        self.exponent_field() == SPECIAL_EXPONENT && self.fraction_field() == 0
    }

    /// Positive or negative zero.
    pub open spec fn zero(self) -> bool {
        self.bits == 0 || self.bits == SIGN_BIT
    }

    /// The magnitude of a finite rate is `significand` times two to the power `exponent`.
    pub open spec fn significand(self) -> nat {
        if self.exponent_field() == 0 {
            self.fraction_field() as nat
        } else {
            (FRACTIONS + self.fraction_field()) as nat
        }
    }

    pub open spec fn exponent(self) -> int {
        if self.exponent_field() == 0 {
            -1074
        } else {
            self.exponent_field() - 1075
        }
    }

    /// The value of a finite rate, in units of two to the power -1074: the smallest positive
    /// double is one unit.
    pub open spec fn units(self) -> int {
        let magnitude = self.significand() * pow2((self.exponent() + 1074) as nat);
        if self.negative() {
            -(magnitude as int)
        } else {
            magnitude as int
        }
    }

    /// Whether both rates are numbers and this one is no larger than the other.
    pub open spec fn at_most(self, other: ConversionRate) -> bool {
        &&& !self.nan()
        &&& !other.nan()
        &&& {
            ||| self.infinite() && self.negative()
            ||| other.infinite() && !other.negative()
            ||| !self.infinite() && !other.infinite() && self.units() <= other.units()
        }
    }

    /// The product of `amount` and this rate in double arithmetic, rounded down and
    /// brought into the range of an amount.
    ///
    /// The amount is first rounded to a double, and the product of the two doubles is
    /// rounded again. Products too small for a normal double round differently, but all of
    /// them lie below one, and so does what they round to.
    pub open spec fn output(self, amount: u64) -> u64 {
        if self.nan() || self.negative() {
            0
        } else if self.infinite() {
            if amount == 0 {
                0
            } else {
                u64::MAX
            }
        } else {
            capped(
                scaled_floor(
                    nearest_double(nearest_double(amount as nat) * self.significand()),
                    self.exponent(),
                ),
            )
        }
    }
}

/// Halving the number of kept units drops one more bit.
proof fn lemma_dropped_bits_step(n: nat, unit: nat, k: nat)
    requires
        unit == pow2(k),
        n / unit >= EXACT_LIMIT,
        dropped_bits(n) == k + dropped_bits(n / unit),
    ensures
        2 * unit == pow2(k + 1),
        n / (2 * unit) == (n / unit) / 2,
        dropped_bits(n) == k + 1 + dropped_bits(n / (2 * unit)),
        unit * EXACT_LIMIT <= n,
{
    lemma_pow2_pos(k);
    lemma_pow2_unfold(k + 1);
    lemma_div_denominator(n as int, unit as int, 2);
    assert(unit * 2 == 2 * unit);
    lemma_fundamental_div_mod(n as int, unit as int);
    assert(unit * EXACT_LIMIT <= unit * (n / unit)) by (nonlinear_arith)
        requires
            unit > 0,
            n / unit >= EXACT_LIMIT,
    ;
}

/// The whole number nearest to `n` that a double can hold, as a double operation rounds.
pub fn round_to_double(n: u128) -> (r: u128)
    requires
        n <= 0x80_0000_0000_0000_0000_0000_0000_0000,
    ensures
        r == nearest_double(n as nat),
        r <= 2 * n,
{
    let mut unit: u128 = 1;
    let ghost mut k: nat = 0;
    proof {
        lemma2_to64();
        assert(n as nat / 1 == n as nat);
    }
    while n / unit >= EXACT_LIMIT
        invariant
            n <= 0x80_0000_0000_0000_0000_0000_0000_0000,
            unit == pow2(k),
            unit == 1 || 1 <= unit && unit * FRACTIONS <= n,
            dropped_bits(n as nat) == k + dropped_bits(n as nat / unit as nat),
        decreases n / unit,
    {
        proof {
            lemma_dropped_bits_step(n as nat, unit as nat, k);
            k = k + 1;
        }
        unit = 2 * unit;
    }
    proof {
        lemma_fundamental_div_mod(n as int, unit as int);
    }
    let kept: u128 = n / unit;
    let rest: u128 = n % unit;
    assert(kept * unit == unit * kept) by (nonlinear_arith);
    assert((kept + 1) * unit == unit * kept + unit) by (nonlinear_arith);
    if 2 * rest > unit || (2 * rest == unit && kept % 2 == 1) {
        (kept + 1) * unit
    } else {
        kept * unit
    }
}

/// `n` times two to the power `exponent`, rounded down and capped at the largest amount.
fn scale(n: u128, exponent: i32) -> (r: u64)
    requires
        n <= 0x80_0000_0000_0000_0000_0000_0000_0000,
    ensures
        r == capped(scaled_floor(n as nat, exponent as int)),
{
    let mut value: u128 = n;
    let mut left: i32 = exponent;
    proof {
        lemma2_to64();
    }
    while left > 0 && value <= 0xffff_ffff_ffff_ffff
        invariant
            value <= 0x80_0000_0000_0000_0000_0000_0000_0000,
            exponent >= 0 ==> 0 <= left <= exponent && value * pow2(left as nat) == n * pow2(
                exponent as nat,
            ),
            exponent < 0 ==> left == exponent && value == n,
        decreases left,
    {
        proof {
            lemma_pow2_unfold(left as nat);
            let half = pow2((left - 1) as nat);
            assert(value * (2 * half) == (2 * value) * half) by (nonlinear_arith);
        }
        value = 2 * value;
        left = left - 1;
    }
    if left > 0 {
        proof {
            lemma_pow2_pos(left as nat);
            let factor = pow2(left as nat);
            assert(value * factor >= value) by (nonlinear_arith)
                requires
                    factor >= 1,
                    value >= 0,
            ;
        }
        return u64::MAX;
    }
    assert(value * pow2(0) == value && n as nat / pow2(0) == n as nat) by {
        lemma2_to64();
    }
    while left < 0 && value > 0
        invariant
            value <= n <= 0x80_0000_0000_0000_0000_0000_0000_0000 || exponent >= 0,
            left <= 0,
            exponent >= 0 ==> left == 0 && value == n * pow2(exponent as nat),
            exponent < 0 ==> exponent <= left && value as nat == n as nat / pow2(
                (left - exponent) as nat,
            ),
        decreases -left,
    {
        proof {
            let done = (left - exponent) as nat;
            lemma_pow2_pos(done);
            lemma_pow2_unfold(done + 1);
            lemma_div_denominator(n as int, pow2(done) as int, 2);
            assert(pow2(done) * 2 == 2 * pow2(done));
        }
        value = value / 2;
        left = left + 1;
    }
    proof {
        if exponent < 0 {
            let done = (left - exponent) as nat;
            let rest = (-left) as nat;
            lemma_pow2_adds(done, rest);
            lemma_pow2_pos(done);
            lemma_pow2_pos(rest);
            lemma_div_denominator(n as int, pow2(done) as int, pow2(rest) as int);
            if value == 0 {
                assert(0nat / pow2(rest) == 0) by (nonlinear_arith)
                    requires
                        pow2(rest) > 0,
                ;
            }
        }
    }
    if value > 0xffff_ffff_ffff_ffff {
        u64::MAX
    } else {
        value as u64
    }
}

impl ConversionRate {
    /// The rate whose bits are `bits`.
    pub fn from_bits(bits: u64) -> (rate: ConversionRate)
        ensures
            rate.bits == bits,
    {
        ConversionRate { bits }
    }

    /// The bits of this rate.
    pub fn to_bits(self) -> (bits: u64)
        ensures
            bits == self.bits,
    {
        self.bits
    }

    /// The output that this rate gives for `amount`.
    pub fn convert(self, amount: u64) -> (r: u64)
        ensures
            r == self.output(amount),
    {
        let exponent_field: u64 = (self.bits / FRACTIONS) % 0x800;
        let fraction_field: u64 = self.bits % FRACTIONS;
        if self.bits >= SIGN_BIT {
            return 0;
        }
        if exponent_field == SPECIAL_EXPONENT {
            return if fraction_field != 0 || amount == 0 {
                0
            } else {
                u64::MAX
            };
        }
        let (significand, exponent): (u64, i32) = if exponent_field == 0 {
            (fraction_field, -1074)
        } else {
            (FRACTIONS + fraction_field, exponent_field as i32 - 1075)
        };
        let input: u128 = round_to_double(amount as u128);
        proof {
            assert(input * significand <= 0x1_ffff_ffff_ffff_fffe * 0x20_0000_0000_0000)
                by (nonlinear_arith)
                requires
                    0 <= input <= 0x1_ffff_ffff_ffff_fffe,
                    0 <= significand <= 0x20_0000_0000_0000,
            ;
        }
        let product: u128 = round_to_double(input * significand as u128);
        scale(product, exponent)
    }
}

/// Rates compare as doubles do: what is not a number equals nothing, and the two zeros
/// are equal.
impl PartialEq for ConversionRate {
    fn eq(&self, other: &ConversionRate) -> (r: bool) {
        let self_nan = (self.bits / FRACTIONS) % 0x800 == SPECIAL_EXPONENT && self.bits % FRACTIONS
            != 0;
        let other_nan = (other.bits / FRACTIONS) % 0x800 == SPECIAL_EXPONENT && other.bits
            % FRACTIONS != 0;
        let self_zero = self.bits == 0 || self.bits == SIGN_BIT;
        let other_zero = other.bits == 0 || other.bits == SIGN_BIT;
        !self_nan && !other_nan && (self.bits == other.bits || (self_zero && other_zero))
    }
}

impl PartialEqSpecImpl for ConversionRate {
    open spec fn obeys_eq_spec() -> bool {
        true
    }

    open spec fn eq_spec(&self, other: &ConversionRate) -> bool {
        !self.nan() && !other.nan() && (self.bits == other.bits || (self.zero() && other.zero()))
    }
}

/// A number of the form `a` times two to the power `b` drops at most `b` bits.
proof fn lemma_dropped_bits_bound(a: nat, b: nat)
    requires
        a < EXACT_LIMIT,
    ensures
        dropped_bits(a * pow2(b)) <= b,
    decreases b,
{
    let n = a * pow2(b);
    lemma2_to64();
    if n >= EXACT_LIMIT {
        assert(a * pow2(0) == a);
        assert(b > 0);
        lemma_pow2_unfold(b);
        let half = pow2((b - 1) as nat);
        assert(a * (2 * half) == 2 * (a * half)) by (nonlinear_arith);
        lemma_dropped_bits_bound(a, (b - 1) as nat);
    }
}

/// A whole number with at most 53 significant bits is a double, and rounding keeps it.
pub proof fn law_representable_numbers_are_kept(a: nat, b: nat)
    requires
        a < EXACT_LIMIT,
    ensures
        nearest_double(a * pow2(b)) == a * pow2(b),
{
    let n = a * pow2(b);
    let k = dropped_bits(n);
    lemma_dropped_bits_bound(a, b);
    let unit = pow2(k);
    let times = pow2((b - k) as nat);
    lemma_pow2_adds((b - k) as nat, k);
    lemma_pow2_pos(k);
    assert(a * (times * unit) == (a * times) * unit) by (nonlinear_arith);
    lemma_mod_multiples_basic((a * times) as int, unit as int);
    lemma_fundamental_div_mod(n as int, unit as int);
    assert(unit * (n / unit) == (n / unit) * unit) by (nonlinear_arith);
}

/// Where the exact product of the input and the rate has at most 53 significant bits, the
/// output is that product, rounded down to a whole amount.
pub proof fn law_output_is_exact_product(rate: ConversionRate, amount: u64, a: nat, b: nat)
    requires
        !rate.negative(),
        !rate.nan(),
        !rate.infinite(),
        amount < EXACT_LIMIT,
        a < EXACT_LIMIT,
        amount * rate.significand() == a * pow2(b),
    ensures
        rate.output(amount) == capped(
            scaled_floor(amount as nat * rate.significand(), rate.exponent()),
        ),
{
    lemma2_to64();
    law_representable_numbers_are_kept(amount as nat, 0);
    assert(amount as nat * pow2(0) == amount as nat);
    law_representable_numbers_are_kept(a, b);
}

/// What is kept of a number, in units of the last kept bit, fills 53 bits as soon as
/// anything is dropped.
proof fn lemma_kept_range(n: nat)
    ensures
        n / pow2(dropped_bits(n)) < EXACT_LIMIT,
        dropped_bits(n) > 0 ==> n / pow2(dropped_bits(n)) >= FRACTIONS,
    decreases n,
{
    lemma2_to64();
    let k = dropped_bits(n);
    if n >= EXACT_LIMIT {
        lemma_kept_range(n / 2);
        let j = dropped_bits(n / 2);
        lemma_pow2_unfold(k);
        lemma_pow2_pos(j);
        lemma_div_denominator(n as int, 2, pow2(j) as int);
        if j == 0 {
            assert((n / 2) / 1 == n / 2);
        }
    } else {
        assert(n / 1 == n);
    }
}

/// A larger number drops at least as many bits.
proof fn lemma_dropped_bits_monotone(a: nat, b: nat)
    requires
        a <= b,
    ensures
        dropped_bits(a) <= dropped_bits(b),
    decreases b,
{
    if a >= EXACT_LIMIT {
        lemma_dropped_bits_monotone(a / 2, b / 2);
    }
}

/// Rounding to a double keeps the order of numbers.
pub proof fn law_rounding_keeps_order(a: nat, b: nat)
    requires
        a <= b,
    ensures
        nearest_double(a) <= nearest_double(b),
{
    let ka = dropped_bits(a);
    let kb = dropped_bits(b);
    let ua = pow2(ka);
    let ub = pow2(kb);
    lemma_dropped_bits_monotone(a, b);
    lemma_kept_range(a);
    lemma_kept_range(b);
    lemma_pow2_pos(ka);
    lemma_pow2_pos(kb);
    let qa = a / ua;
    let qb = b / ub;
    lemma_fundamental_div_mod(a as int, ua as int);
    lemma_fundamental_div_mod(b as int, ub as int);
    if ka == kb {
        lemma_div_is_ordered(a as int, b as int, ua as int);
        if qa < qb {
            assert((qa + 1) * ua <= qb * ua && qa * ua <= (qa + 1) * ua && qb * ua <= (qb + 1) * ua)
                by (nonlinear_arith)
                requires
                    qa + 1 <= qb,
                    ua > 0,
            ;
        } else {
            assert(qa * ua <= (qa + 1) * ua) by (nonlinear_arith)
                requires
                    ua > 0,
            ;
        }
    } else {
        lemma_pow2_unfold(kb);
        if ka < kb - 1 {
            lemma_pow2_strictly_increases(ka, (kb - 1) as nat);
        }
        assert((qa + 1) * ua <= EXACT_LIMIT * ua && qa * ua <= (qa + 1) * ua) by (nonlinear_arith)
            requires
                qa + 1 <= EXACT_LIMIT,
                ua > 0,
        ;
        assert(FRACTIONS * ub <= qb * ub && qb * ub <= (qb + 1) * ub) by (nonlinear_arith)
            requires
                FRACTIONS <= qb,
                ub > 0,
        ;
    }
}

/// Rounding moves a number by at most one part in two to the 53rd of it.
pub proof fn law_rounding_is_close(n: nat)
    ensures
        EXACT_LIMIT * (nearest_double(n) - n) <= n,
        EXACT_LIMIT * (n - nearest_double(n)) <= n,
{
    let k = dropped_bits(n);
    let unit = pow2(k);
    let kept = n / unit;
    lemma_pow2_pos(k);
    lemma_kept_range(n);
    lemma_fundamental_div_mod(n as int, unit as int);
    assert((kept + 1) * unit == unit * kept + unit && kept * unit == unit * kept)
        by (nonlinear_arith);
    if k == 0 {
        lemma2_to64();
        assert(n % 1 == 0);
    } else {
        assert(unit * FRACTIONS <= unit * kept) by (nonlinear_arith)
            requires
                kept >= FRACTIONS,
                unit > 0,
        ;
    }
}

/// At one rate, a larger input never promises a smaller output.
pub proof fn law_output_grows_with_input(rate: ConversionRate, small: u64, large: u64)
    requires
        small <= large,
    ensures
        rate.output(small) <= rate.output(large),
{
    let s = nearest_double(small as nat);
    let l = nearest_double(large as nat);
    let m = rate.significand();
    law_rounding_keeps_order(small as nat, large as nat);
    assert(s * m <= l * m) by (nonlinear_arith)
        requires
            s <= l,
            m >= 0,
    ;
    law_rounding_keeps_order(s * m, l * m);
    let ps = nearest_double(s * m);
    let pl = nearest_double(l * m);
    let e = rate.exponent();
    if e >= 0 {
        lemma_pow2_pos(e as nat);
        let factor = pow2(e as nat);
        assert(ps * factor <= pl * factor) by (nonlinear_arith)
            requires
                ps <= pl,
                factor > 0,
        ;
    } else {
        lemma_pow2_pos((-e) as nat);
        lemma_div_is_ordered(ps as int, pl as int, pow2((-e) as nat) as int);
    }
}

/// Rounding a number and doubling it may be done in either order.
proof fn lemma_rounding_doubles(n: nat)
    ensures
        nearest_double(2 * n) == 2 * nearest_double(n),
{
    lemma2_to64();
    let k = dropped_bits(n);
    let unit = pow2(k);
    lemma_pow2_pos(k);
    if 2 * n >= EXACT_LIMIT {
        assert((2 * n) / 2 == n);
        assert(dropped_bits(2 * n) == k + 1);
        lemma_pow2_unfold(k + 1);
        let kept = n / unit;
        let rest = n % unit;
        lemma_div_denominator((2 * n) as int, 2, unit as int);
        lemma_fundamental_div_mod(n as int, unit as int);
        lemma_fundamental_div_mod((2 * n) as int, (2 * unit) as int);
        assert((2 * n) / (2 * unit) == kept);
        assert((2 * unit) * kept == 2 * (unit * kept)) by (nonlinear_arith);
        assert((2 * n) % (2 * unit) == 2 * rest);
        assert((kept + 1) * (2 * unit) == 2 * ((kept + 1) * unit) && kept * (2 * unit) == 2 * (kept
            * unit)) by (nonlinear_arith);
    } else {
        law_representable_numbers_are_kept(n, 0);
        law_representable_numbers_are_kept(2 * n, 0);
        assert(n * pow2(0) == n && (2 * n) * pow2(0) == 2 * n);
    }
}

/// Rounding a number and scaling it by a power of two may be done in either order.
proof fn lemma_rounding_scales(n: nat, j: nat)
    ensures
        nearest_double(n * pow2(j)) == nearest_double(n) * pow2(j),
    decreases j,
{
    lemma2_to64();
    if j == 0 {
        assert(n * pow2(0) == n && nearest_double(n) * pow2(0) == nearest_double(n));
    } else {
        let half = pow2((j - 1) as nat);
        let rounded = nearest_double(n);
        lemma_pow2_unfold(j);
        lemma_rounding_scales(n, (j - 1) as nat);
        lemma_rounding_doubles(n * half);
        assert(n * (2 * half) == 2 * (n * half) && rounded * (2 * half) == 2 * (rounded * half))
            by (nonlinear_arith);
    }
}

/// Scaling and rounding down, by way of units of two to the power -1074.
proof fn lemma_scaled_floor_in_units(n: nat, exponent: int)
    requires
        exponent >= -1074,
    ensures
        scaled_floor(n, exponent) == (n * pow2((exponent + 1074) as nat)) / pow2(1074),
{
    let one = pow2(1074);
    let k = pow2((exponent + 1074) as nat);
    lemma_pow2_pos(1074);
    lemma_pow2_pos((exponent + 1074) as nat);
    if exponent >= 0 {
        let factor = pow2(exponent as nat);
        lemma_pow2_adds(exponent as nat, 1074);
        assert(n * (factor * one) == one * (n * factor)) by (nonlinear_arith);
        lemma_div_multiples_vanish((n * factor) as int, one as int);
    } else {
        let d = pow2((-exponent) as nat);
        lemma_pow2_pos((-exponent) as nat);
        lemma_pow2_adds((exponent + 1074) as nat, (-exponent) as nat);
        assert(n * k == k * n) by (nonlinear_arith);
        lemma_div_denominator((n * k) as int, k as int, d as int);
        lemma_div_multiples_vanish(n as int, k as int);
    }
}

/// For one input, a larger rate never promises a smaller output.
pub proof fn law_output_grows_with_rate(low: ConversionRate, high: ConversionRate, amount: u64)
    requires
        low.at_most(high),
    ensures
        low.output(amount) <= high.output(amount),
{
    if !low.negative() && !low.infinite() {
        let input = nearest_double(amount as nat);
        let ml = low.significand();
        let el = low.exponent();
        let fl = pow2((el + 1074) as nat);
        let pl = nearest_double(input * ml);
        let one = pow2(1074);
        lemma_pow2_pos(1074);
        lemma_pow2_pos((el + 1074) as nat);
        lemma_scaled_floor_in_units(pl, el);
        lemma_rounding_scales(input * ml, (el + 1074) as nat);
        assert((input * ml) * fl == input * (ml * fl)) by (nonlinear_arith);
        if high.infinite() || high.negative() {
            lemma2_to64();
            law_representable_numbers_are_kept(0, 0);
            if amount == 0 {
                assert(input == 0);
                assert(input * (ml * fl) == 0) by (nonlinear_arith)
                    requires
                        input == 0,
                ;
            } else if high.negative() {
                assert(ml * fl == 0);
                assert(input * (ml * fl) == 0) by (nonlinear_arith)
                    requires
                        ml * fl == 0,
                ;
            }
            assert(0nat / one == 0) by (nonlinear_arith)
                requires
                    one > 0,
            ;
        } else {
            let mh = high.significand();
            let eh = high.exponent();
            let fh = pow2((eh + 1074) as nat);
            let ph = nearest_double(input * mh);
            lemma_scaled_floor_in_units(ph, eh);
            lemma_rounding_scales(input * mh, (eh + 1074) as nat);
            assert((input * mh) * fh == input * (mh * fh)) by (nonlinear_arith);
            assert(input * (ml * fl) <= input * (mh * fh)) by (nonlinear_arith)
                requires
                    ml * fl <= mh * fh,
                    input >= 0,
            ;
            law_rounding_keeps_order(input * (ml * fl), input * (mh * fh));
            lemma_div_is_ordered((pl * fl) as int, (ph * fh) as int, one as int);
        }
    }
}

/// A number with at most 53 significant bits that is not below the smallest multiple of
/// `unit` with 53 bits is a multiple of `unit`.
proof fn lemma_representable_is_multiple(a: nat, b: nat, k: nat)
    requires
        a < EXACT_LIMIT,
        a * pow2(b) >= FRACTIONS * pow2(k),
    ensures
        a * pow2(b) == (a * pow2((b - k) as nat)) * pow2(k),
        b >= k,
{
    lemma_pow2_pos(k);
    lemma_pow2_pos(b);
    if b < k {
        lemma_pow2_unfold(k);
        if b < k - 1 {
            lemma_pow2_strictly_increases(b, (k - 1) as nat);
        }
        let half = pow2((k - 1) as nat);
        assert(a * pow2(b) < EXACT_LIMIT * half) by (nonlinear_arith)
            requires
                a < EXACT_LIMIT,
                pow2(b) <= half,
                pow2(b) > 0,
        ;
    } else {
        let times = pow2((b - k) as nat);
        let unit = pow2(k);
        lemma_pow2_adds((b - k) as nat, k);
        assert(a * (times * unit) == (a * times) * unit) by (nonlinear_arith);
    }
}

proof fn lemma_multiple(c: nat, unit: nat)
    requires
        unit > 0,
    ensures
        (c * unit) % unit == 0,
        (c * unit) / unit == c,
{
    assert(c * unit == unit * c) by (nonlinear_arith);
    lemma_div_multiples_vanish(c as int, unit as int);
    lemma_mod_multiples_basic(c as int, unit as int);
}

/// What a number is rounded to has at most 53 significant bits, and no other such number is
/// nearer. Where one is equally near, the two are neighbours, and the one that was chosen is
/// the even one.
pub proof fn law_rounding_is_to_nearest(n: nat, a: nat, b: nat)
    requires
        a < 0x20_0000_0000_0000,
    ensures
        exists|k: nat|
            nearest_double(n) % #[trigger] pow2(k) == 0 && nearest_double(n) / pow2(k)
                < 0x20_0000_0000_0000,
        nearest_double(n) >= n ==> nearest_double(n) - n <= a * pow2(b) - n || nearest_double(n) - n
            <= n - a * pow2(b),
        nearest_double(n) <= n ==> n - nearest_double(n) <= a * pow2(b) - n || n - nearest_double(n)
            <= n - a * pow2(b),
        nearest_double(n) + a * pow2(b) == 2 * n && nearest_double(n) != a * pow2(b) ==> exists|
            k: nat,
        |
            nearest_double(n) % (2 * #[trigger] pow2(k)) == 0 && (a * pow2(b) == nearest_double(n)
                + pow2(k) || a * pow2(b) == nearest_double(n) - pow2(k)),
{
    let k = dropped_bits(n);
    let unit = pow2(k);
    let kept = n / unit;
    let rest = n % unit;
    let r = nearest_double(n);
    let m = a * pow2(b);
    lemma2_to64();
    lemma_pow2_pos(k);
    lemma_kept_range(n);
    lemma_fundamental_div_mod(n as int, unit as int);
    assert(unit * kept == kept * unit && (kept + 1) * unit == kept * unit + unit)
        by (nonlinear_arith);
    assert(0 <= rest < unit);
    if r == kept * unit {
        lemma_multiple(kept, unit);
    } else if kept + 1 < EXACT_LIMIT {
        lemma_multiple(kept + 1, unit);
    } else {
        lemma_pow2_unfold(k + 1);
        assert(EXACT_LIMIT * unit == FRACTIONS * (2 * unit)) by (nonlinear_arith)
            requires
                EXACT_LIMIT == 2 * FRACTIONS,
        ;
        lemma_multiple(FRACTIONS as nat, pow2(k + 1));
    }
    if k == 0 {
        assert(unit == 1 && rest == 0 && r == n);
    } else if kept * unit < m < (kept + 1) * unit {
        assert(kept * unit >= FRACTIONS * unit) by (nonlinear_arith)
            requires
                kept >= FRACTIONS,
                unit > 0,
        ;
        lemma_representable_is_multiple(a, b, k);
        let q = a * pow2((b - k) as nat);
        assert(q > kept && q < kept + 1) by (nonlinear_arith)
            requires
                kept * unit < q * unit,
                q * unit < (kept + 1) * unit,
                unit > 0,
        ;
        assert(false);
    }
    if r + m == 2 * n && r != m {
        assert(2 * rest == unit);
        if r == kept * unit {
            let c = kept / 2;
            assert((2 * c) * unit == c * (2 * unit)) by (nonlinear_arith);
            lemma_multiple(c, 2 * unit);
            assert(m == r + pow2(k));
        } else {
            let c = (kept + 1) / 2;
            assert((2 * c) * unit == c * (2 * unit)) by (nonlinear_arith);
            lemma_multiple(c, 2 * unit);
            assert(m == r - pow2(k));
        }
    }
}

/// The parts of a number of 64 bits: a sign, eleven bits and 52 bits.
proof fn lemma_fields(rate: ConversionRate, e: nat, f: nat)
    requires
        e < 0x800,
        f < 0x10_0000_0000_0000,
        rate.bits == e * 0x10_0000_0000_0000 + f,
    ensures
        rate.exponent_field() == e,
        rate.fraction_field() == f,
        !rate.negative(),
{
}

/// The output is the product of input and rate in double arithmetic, rounded down, for every
/// rate that is a normal double. Such a rate has the bits `e * 2^52 + f` and the value
/// `(2^52 + f) * 2^(e - 1075)`. An output that is too large is the largest amount.
pub proof fn law_output_is_product_rounded_down(
    rate: ConversionRate,
    amount: u64,
    e: nat,
    f: nat,
)
    requires
        0 < e < 0x7ff,
        f < 0x10_0000_0000_0000,
        rate.bits == e * 0x10_0000_0000_0000 + f,
    ensures
        ({
            let product = nearest_double(
                nearest_double(amount as nat) * (0x10_0000_0000_0000 + f),
            );
            let output = rate.output(amount);
            &&& e <= 1075 ==> {
                &&& output * pow2((1075 - e) as nat) <= product
                &&& output < u64::MAX ==> product < (output + 1) * pow2((1075 - e) as nat)
            }
            &&& e >= 1075 ==> {
                let exact = product * pow2((e - 1075) as nat);
                &&& exact <= u64::MAX ==> output == exact
                &&& exact > u64::MAX ==> output == u64::MAX
            }
        }),
{
    lemma_fields(rate, e, f);
    let product = nearest_double(nearest_double(amount as nat) * (0x10_0000_0000_0000 + f));
    let output = rate.output(amount) as nat;
    lemma2_to64();
    if e <= 1075 {
        let d = pow2((1075 - e) as nat);
        lemma_pow2_pos((1075 - e) as nat);
        let whole = product / d;
        lemma_fundamental_div_mod(product as int, d as int);
        if e == 1075 {
            assert(product * 1 == product && product / 1 == product);
        }
        assert(output <= whole);
        assert(output * d <= d * whole) by (nonlinear_arith)
            requires
                output <= whole,
                d > 0,
        ;
        assert((whole + 1) * d == d * whole + d) by (nonlinear_arith);
    }
}

/// Where the exact product of the input and a normal rate has at most 53 significant bits,
/// a bid promises that product, rounded down to a whole amount. The rate has the bits
/// `e * 2^52 + f` and the value `(2^52 + f) * 2^(e - 1075)`.
pub proof fn law_min_output_is_exact(bid: Bid, e: nat, f: nat, a: nat, b: nat)
    requires
        0 < e < 0x7ff,
        f < 0x10_0000_0000_0000,
        bid.conversion_rate.bits == e * 0x10_0000_0000_0000 + f,
        bid.max_input < 0x20_0000_0000_0000,
        a < 0x20_0000_0000_0000,
        bid.max_input * (0x10_0000_0000_0000 + f) == a * pow2(b),
    ensures
        ({
            let product = bid.max_input * (0x10_0000_0000_0000 + f);
            let output = bid.promised_output();
            &&& e <= 1075 ==> {
                &&& output * pow2((1075 - e) as nat) <= product
                &&& output < u64::MAX ==> product < (output + 1) * pow2((1075 - e) as nat)
            }
            &&& e >= 1075 ==> {
                let exact = product * pow2((e - 1075) as nat);
                &&& exact <= u64::MAX ==> output == exact
                &&& exact > u64::MAX ==> output == u64::MAX
            }
        }),
{
    lemma2_to64();
    law_representable_numbers_are_kept(bid.max_input as nat, 0);
    assert(bid.max_input as nat * pow2(0) == bid.max_input as nat);
    law_representable_numbers_are_kept(a, b);
    law_output_is_product_rounded_down(bid.conversion_rate, bid.max_input, e, f);
}

/// How far two roundings in a row move a number.
proof fn lemma_two_roundings(exact: int, once: int, twice: int)
    requires
        exact >= 0,
        0x20_0000_0000_0000 * (once - exact) <= exact,
        0x20_0000_0000_0000 * (exact - once) <= exact,
        0x20_0000_0000_0000 * (twice - once) <= once,
        0x20_0000_0000_0000 * (once - twice) <= once,
    ensures
        0x8_0000_0000_0000 * twice <= 0x8_0000_0000_0001 * exact,
        0x7_ffff_ffff_ffff * exact <= 0x8_0000_0000_0000 * twice,
{
    assert(once <= 2 * exact);
    assert(0x20_0000_0000_0000 * (twice - exact) <= 3 * exact);
    assert(0x20_0000_0000_0000 * (exact - twice) <= 3 * exact);
}

/// For every input, a bid at a normal rate promises the exact product of input and rate but
/// for the rounding of the two double operations: one part in two to the 51st of it, and
/// what is lost in rounding down to a whole amount.
pub proof fn law_min_output_is_close(bid: Bid, e: nat, f: nat)
    requires
        0 < e <= 1075,
        f < 0x10_0000_0000_0000,
        bid.conversion_rate.bits == e * 0x10_0000_0000_0000 + f,
    ensures
        ({
            let product = bid.max_input * (0x10_0000_0000_0000 + f);
            let output = bid.promised_output();
            let unit = pow2((1075 - e) as nat);
            &&& 0x8_0000_0000_0000 * (output * unit) <= 0x8_0000_0000_0001 * product
            &&& output < u64::MAX ==> 0x7_ffff_ffff_ffff * product < 0x8_0000_0000_0000 * ((
            output + 1) * unit)
        }),
{
    let m = (0x10_0000_0000_0000 + f) as nat;
    let x = bid.max_input as nat;
    let input = nearest_double(x);
    let once = input * m;
    let twice = nearest_double(once);
    let product = x * m;
    law_rounding_is_close(x);
    law_rounding_is_close(once);
    law_output_is_product_rounded_down(bid.conversion_rate, bid.max_input, e, f);
    let limit = EXACT_LIMIT as int;
    assert(limit * (once - product) <= product && limit * (product - once) <= product)
        by (nonlinear_arith)
        requires
            limit * (input - x) <= x,
            limit * (x - input) <= x,
            m > 0,
            once == input * m,
            product == x * m,
    ;
    assert(product == bid.max_input * (0x10_0000_0000_0000 + f));
    lemma_two_roundings(product as int, once as int, twice as int);
    let output = bid.promised_output();
    let unit = pow2((1075 - e) as nat);
    assert(output * unit <= twice);
    assert(output < u64::MAX ==> twice < (output + 1) * unit);
}

/// Rates below zero, and what is not a number, give no output; nor do rates too small to be
/// normal doubles. The infinite rate gives the largest amount for every input but zero.
pub proof fn law_special_rates(rate: ConversionRate, amount: u64)
    ensures
        rate.bits >= 0x8000_0000_0000_0000 ==> rate.output(amount) == 0,
        rate.bits > 0x7ff0_0000_0000_0000 ==> rate.output(amount) == 0,
        rate.bits == 0x7ff0_0000_0000_0000 ==> rate.output(amount) == (if amount == 0 {
            0
        } else {
            u64::MAX
        }),
        rate.bits < 0x10_0000_0000_0000 ==> rate.output(amount) == 0,
{
    let bits = rate.bits;
    if bits < FRACTIONS {
        lemma_fields(rate, 0, bits as nat);
        let input = nearest_double(amount as nat);
        let product = input * rate.significand();
        law_rounding_is_close(amount as nat);
        law_rounding_is_close(product);
        assert(product <= 0x2_0000_0000_0000_0000 * 0x10_0000_0000_0000) by (nonlinear_arith)
            requires
                input <= 0x2_0000_0000_0000_0000,
                0 <= rate.significand() <= 0x10_0000_0000_0000,
                product == input * rate.significand(),
        ;
        lemma2_to64();
        lemma_pow2_adds(64, 64);
        lemma_pow2_adds(128, 946);
        lemma_pow2_pos(946);
        let one = pow2(1074);
        assert(one >= pow2(128)) by (nonlinear_arith)
            requires
                one == pow2(128) * pow2(946),
                pow2(946) >= 1,
                pow2(128) >= 0,
        ;
        assert(pow2(128) == 0x1_0000_0000_0000_0000nat * 0x1_0000_0000_0000_0000nat);
        let rounded = nearest_double(product);
        assert(rounded / one == 0) by (nonlinear_arith)
            requires
                0 <= rounded < one,
        ;
    }
}

/// Rates that are no larger by their bits are no larger by their values.
proof fn lemma_bits_order(low: ConversionRate, high: ConversionRate)
    requires
        low.bits <= high.bits < 0x7ff0_0000_0000_0000,
    ensures
        low.at_most(high),
{
    let el = (low.bits / FRACTIONS) as nat;
    let eh = (high.bits / FRACTIONS) as nat;
    lemma_fields(low, el, (low.bits % FRACTIONS) as nat);
    lemma_fields(high, eh, (high.bits % FRACTIONS) as nat);
    let xl = (low.exponent() + 1074) as nat;
    let xh = (high.exponent() + 1074) as nat;
    let ml = low.significand();
    let mh = high.significand();
    lemma_pow2_pos(xl);
    lemma_pow2_pos(xh);
    if xl == xh {
        assert(ml * pow2(xl) <= mh * pow2(xl)) by (nonlinear_arith)
            requires
                ml <= mh,
                pow2(xl) > 0,
        ;
    } else {
        lemma_pow2_unfold(xh);
        let half = pow2((xh - 1) as nat);
        if xl < xh - 1 {
            lemma_pow2_strictly_increases(xl, (xh - 1) as nat);
        }
        assert(ml * pow2(xl) <= mh * (2 * half)) by (nonlinear_arith)
            requires
                0 <= ml <= 2 * mh,
                0 < pow2(xl) <= half,
        ;
    }
}

/// For one input, the output never falls as the rate grows from zero to infinity, which is
/// the order of its bits.
pub proof fn law_output_grows_with_bits(low: ConversionRate, high: ConversionRate, amount: u64)
    requires
        low.bits <= high.bits <= 0x7ff0_0000_0000_0000,
    ensures
        low.output(amount) <= high.output(amount),
{
    if high.bits < 0x7ff0_0000_0000_0000 {
        lemma_bits_order(low, high);
        law_output_grows_with_rate(low, high, amount);
    } else {
        law_special_rates(high, amount);
        if amount == 0 && low.bits < high.bits {
            lemma_bits_order(low, low);
            assert(low.at_most(high));
            law_output_grows_with_rate(low, high, amount);
        }
    }
}

/// Two rates are equal exactly where both are numbers and they have the same bits or are
/// both zero, whatever the sign of a zero.
pub proof fn law_rates_compare_as_doubles(one: ConversionRate, other: ConversionRate)
    ensures
        vstd::std_specs::cmp::PartialEqSpec::eq_spec(&one, &other) <==> {
            &&& one.bits % 0x8000_0000_0000_0000 <= 0x7ff0_0000_0000_0000
            &&& other.bits % 0x8000_0000_0000_0000 <= 0x7ff0_0000_0000_0000
            &&& one.bits == other.bits || (one.bits % 0x8000_0000_0000_0000 == 0 && other.bits
                % 0x8000_0000_0000_0000 == 0)
        },
{
    let a = one.bits;
    let b = other.bits;
    assert(((a / 0x10_0000_0000_0000) % 0x800 == 0x7ff && a % 0x10_0000_0000_0000 != 0) == (a
        % 0x8000_0000_0000_0000 > 0x7ff0_0000_0000_0000)) by (bit_vector);
    assert(((b / 0x10_0000_0000_0000) % 0x800 == 0x7ff && b % 0x10_0000_0000_0000 != 0) == (b
        % 0x8000_0000_0000_0000 > 0x7ff0_0000_0000_0000)) by (bit_vector);
}

} // verus!
