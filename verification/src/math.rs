use vstd::prelude::*;

verus! {

use vstd::arithmetic::mul::{lemma_mul_upper_bound, lemma_mul_nonnegative};
use vstd::arithmetic::div_mod::{
    lemma_fundamental_div_mod, lemma_mod_bound, lemma_div_is_ordered, lemma_div_by_multiple,
    lemma_div_pos_is_pos,
};

/// A non-negative fixed-point decimal number: the pair `(value, exp)` stands
/// for `value * 10^(-exp)`. Two values are combined by first rescaling the
/// one with the smaller `exp` up to the larger, then operating on the
/// magnitudes; divisions truncate toward zero.
#[derive(PartialEq, Eq, Structural, Debug, Clone, Copy)]
pub struct BigNumber {
    pub value: u64,
    pub exp: u8,
}

/// `10^k` over the naturals.
pub open spec fn pow10(k: nat) -> nat
    decreases k,
{
    if k == 0 {
        1
    } else {
        10 * pow10((k - 1) as nat)
    }
}

pub proof fn lemma_pow10_pos(k: nat)
    ensures
        pow10(k) >= 1,
    decreases k,
{
    if k > 0 {
        lemma_pow10_pos((k - 1) as nat);
    }
}

pub proof fn lemma_pow10_monotone(i: nat, j: nat)
    requires
        i <= j,
    ensures
        pow10(i) <= pow10(j),
    decreases j,
{
    if i < j {
        lemma_pow10_monotone(i, (j - 1) as nat);
        lemma_pow10_pos((j - 1) as nat);
    }
}

pub proof fn lemma_pow10_19()
    ensures
        pow10(19) == 10_000_000_000_000_000_000,
{
    reveal_with_fuel(pow10, 20);
}

pub proof fn lemma_pow10_38()
    ensures
        pow10(38) == 100_000_000_000_000_000_000_000_000_000_000_000_000,
{
    lemma_pow10_19();
    lemma_pow10_adds(19, 19);
}

/// `pow10(a + b) == pow10(a) * pow10(b)`.
pub proof fn lemma_pow10_adds(a: nat, b: nat)
    ensures
        pow10(a + b) == pow10(a) * pow10(b),
    decreases a,
{
    if a == 0 {
        assert(pow10(a) == 1);
        assert(pow10(a + b) == pow10(b));
    } else {
        lemma_pow10_adds((a - 1) as nat, b);
        let x = pow10((a - 1) as nat);
        let y = pow10(b);
        assert((a + b - 1) as nat == (a - 1) as nat + b);
        assert(pow10(a + b) == 10 * (x * y));
        assert(10 * (x * y) == (10 * x) * y) by (nonlinear_arith);
        assert(pow10(a) == 10 * x);
    }
}

/// `10^k` as a `u64`, for exponents up to 19.
pub fn pow10_u64(k: u32) -> (r: u64)
    requires
        k <= 19,
    ensures
        r == pow10(k as nat),
{
    let mut r: u64 = 1;
    let mut i: u32 = 0;
    while i < k
        invariant
            i <= k <= 19,
            r == pow10(i as nat),
        decreases k - i,
    {
        proof {
            lemma_pow10_monotone((i + 1) as nat, 19);
            lemma_pow10_19();
        }
        r = r * 10;
        i = i + 1;
    }
    r
}

/// `10^k` as a `u128`, for exponents up to 38.
pub fn pow10_u128(k: u32) -> (r: u128)
    requires
        k <= 38,
    ensures
        r == pow10(k as nat),
{
    let mut r: u128 = 1;
    let mut i: u32 = 0;
    while i < k
        invariant
            i <= k <= 38,
            r == pow10(i as nat),
        decreases k - i,
    {
        proof {
            lemma_pow10_monotone((i + 1) as nat, 38);
            lemma_pow10_38();
        }
        r = r * 10;
        i = i + 1;
    }
    r
}

/// The joint scale of two decimals: the larger of the two exponents.
pub open spec fn joint_exp(a: BigNumber, b: BigNumber) -> nat {
    if a.exp >= b.exp {
        a.exp as nat
    } else {
        b.exp as nat
    }
}

/// The magnitude of `x` rescaled up to scale `s` (which must be >= `x.exp`).
pub open spec fn lifted(x: BigNumber, s: nat) -> nat {
    (x.value as nat) * pow10((s - x.exp) as nat)
}

/// The magnitude of `a * b` at the joint scale: the widened product of the
/// rescaled magnitudes, divided (truncating) by `10^s`.
pub open spec fn mul_value(a: BigNumber, b: BigNumber) -> nat {
    let s = joint_exp(a, b);
    (lifted(a, s) * lifted(b, s)) / pow10(s)
}

/// The result of `a.mul(b)`.
pub open spec fn spec_mul(a: BigNumber, b: BigNumber) -> BigNumber {
    BigNumber { value: mul_value(a, b) as u64, exp: joint_exp(a, b) as u8 }
}

/// The inputs on which `mul` neither overflows nor panics: the joint scale
/// is representable, both rescaled magnitudes fit the native width, and so
/// does the truncated product.
pub open spec fn mul_in_range(a: BigNumber, b: BigNumber) -> bool {
    let s = joint_exp(a, b);
    &&& s <= 38
    &&& s - a.exp <= 19
    &&& s - b.exp <= 19
    &&& lifted(a, s) <= u64::MAX
    &&& lifted(b, s) <= u64::MAX
    &&& mul_value(a, b) <= u64::MAX
}

/// The magnitude of `a / b` at the joint scale: the rescaled numerator,
/// widened by `10^s`, divided (truncating) by the rescaled denominator.
pub open spec fn div_value(a: BigNumber, b: BigNumber) -> nat {
    let s = joint_exp(a, b);
    (pow10(s) * lifted(a, s)) / lifted(b, s)
}

/// The result of `a.div(b)`.
pub open spec fn spec_div(a: BigNumber, b: BigNumber) -> BigNumber {
    BigNumber { value: div_value(a, b) as u64, exp: joint_exp(a, b) as u8 }
}

/// The inputs on which `div` neither overflows, panics, nor divides by zero.
pub open spec fn div_in_range(a: BigNumber, b: BigNumber) -> bool {
    let s = joint_exp(a, b);
    &&& s <= 38
    &&& s - a.exp <= 19
    &&& s - b.exp <= 19
    &&& lifted(a, s) <= u64::MAX
    &&& lifted(b, s) <= u64::MAX
    &&& lifted(b, s) > 0
    &&& pow10(s) * lifted(a, s) <= u128::MAX
    &&& div_value(a, b) <= u64::MAX
}

impl BigNumber {
    /// The value one at the given scale: magnitude `10^exp`.
    pub fn unit(exp: u8) -> (r: Self)
        requires
            exp <= 19,
        ensures
            r == spec_unit(exp),
    {
        proof {
            lemma_pow10_monotone(exp as nat, 19);
            lemma_pow10_19();
        }
        Self { value: pow10_u64(exp as u32), exp }
    }

    /// Direct construction from a magnitude and a scale.
    pub fn new(value: u64, exp: u8) -> (r: Self)
        ensures
            r == (BigNumber { value, exp }),
    {
        BigNumber { value, exp }
    }

    /// Multiplication at the joint scale, truncating toward zero.
    pub fn mul(&self, other: &Self) -> (r: Self)
        requires
            mul_in_range(*self, *other),
        ensures
            r == spec_mul(*self, *other),
    {
        let s: u8 = if self.exp >= other.exp {
            self.exp
        } else {
            other.exp
        };
        let av: u64 = self.value * pow10_u64((s - self.exp) as u32);
        let bv: u64 = other.value * pow10_u64((s - other.exp) as u32);
        proof {
            lemma_mul_upper_bound(av as int, u64::MAX as int, bv as int, u64::MAX as int);
            lemma_pow10_pos(s as nat);
        }
        let prod: u128 = (av as u128) * (bv as u128);
        let q: u128 = prod / pow10_u128(s as u32);
        BigNumber { value: q as u64, exp: s }
    }

    /// Division at the joint scale, truncating toward zero. The divisor's
    /// rescaled magnitude must be nonzero.
    pub fn div(&self, other: &Self) -> (r: Self)
        requires
            div_in_range(*self, *other),
        ensures
            r == spec_div(*self, *other),
    {
        let s: u8 = if self.exp >= other.exp {
            self.exp
        } else {
            other.exp
        };
        let av: u64 = self.value * pow10_u64((s - self.exp) as u32);
        let bv: u64 = other.value * pow10_u64((s - other.exp) as u32);
        let num: u128 = pow10_u128(s as u32) * (av as u128);
        let q: u128 = num / (bv as u128);
        BigNumber { value: q as u64, exp: s }
    }
}

/// The result of `BigNumber::unit(exp)`.
pub open spec fn spec_unit(exp: u8) -> BigNumber {
    BigNumber { value: pow10(exp as nat) as u64, exp }
}

/// The result of raising `x` to the natural power `n`: the unit at `x`'s
/// scale, multiplied by `x` a total of `n` times.
pub open spec fn spec_pow(x: BigNumber, n: nat) -> BigNumber
    decreases n,
{
    if n == 0 {
        spec_unit(x.exp)
    } else {
        spec_mul(spec_pow(x, (n - 1) as nat), x)
    }
}

/// The inputs on which the `pow` accumulation stays within the native
/// width at every step.
pub open spec fn pow_in_range(x: BigNumber, n: nat) -> bool
    decreases n,
{
    if n == 0 {
        x.exp <= 19
    } else {
        pow_in_range(x, (n - 1) as nat) && mul_in_range(spec_pow(x, (n - 1) as nat), x)
    }
}

/// `pow_in_range` covers every shorter accumulation as well.
pub proof fn lemma_pow_in_range_prefix(x: BigNumber, n: nat, i: nat)
    requires
        pow_in_range(x, n),
        i <= n,
    ensures
        pow_in_range(x, i),
    decreases n,
{
    if i < n {
        lemma_pow_in_range_prefix(x, (n - 1) as nat, i);
    }
}

/// The result of raising `x` to a signed power: a negative exponent yields
/// the reciprocal of the corresponding positive power.
pub open spec fn spec_pow_signed(x: BigNumber, e: int) -> BigNumber {
    if e >= 0 {
        spec_pow(x, e as nat)
    } else {
        spec_div(spec_unit(x.exp), spec_pow(x, (- e) as nat))
    }
}

/// The absolute value of a signed exponent.
pub open spec fn abs_exp(e: int) -> nat {
    if e >= 0 {
        e as nat
    } else {
        (- e) as nat
    }
}

impl BigNumber {
    /// Integer power by repeated multiplication: `|exponent|` multiplications
    /// starting from the unit at `self`'s scale; a negative exponent divides
    /// the unit by the accumulated power.
    pub fn pow(&self, exponent: i16) -> (r: Self)
        requires
            exponent != i16::MIN,
            pow_in_range(*self, abs_exp(exponent as int)),
            exponent < 0 ==> div_in_range(
                spec_unit(self.exp),
                spec_pow(*self, abs_exp(exponent as int)),
            ),
        ensures
            r == spec_pow_signed(*self, exponent as int),
    {
        let n: u16 = if exponent >= 0 {
            exponent as u16
        } else {
            (- exponent) as u16
        };
        proof {
            lemma_pow_in_range_prefix(*self, n as nat, 0);
        }
        let mut res = Self::unit(self.exp);
        let mut i: u16 = 0;
        while i < n
            invariant
                i <= n,
                res == spec_pow(*self, i as nat),
                pow_in_range(*self, n as nat),
            decreases n - i,
        {
            proof {
                lemma_pow_in_range_prefix(*self, n as nat, (i + 1) as nat);
            }
            res = res.mul(self);
            i = i + 1;
        }
        if exponent >= 0 {
            res
        } else {
            Self::unit(self.exp).div(&res)
        }
    }
}

/// Whether `a` denotes a strictly smaller decimal value than `b`: the
/// magnitudes are compared after both are rescaled to the joint scale, so
/// the comparison is exact and loses nothing to truncation.
pub open spec fn spec_lt(a: BigNumber, b: BigNumber) -> bool {
    let s = joint_exp(a, b);
    lifted(a, s) < lifted(b, s)
}

/// The inputs on which `lt` can widen both magnitudes to the joint scale.
pub open spec fn cmp_in_range(a: BigNumber, b: BigNumber) -> bool {
    let s = joint_exp(a, b);
    &&& s - a.exp <= 38
    &&& s - b.exp <= 38
    &&& lifted(a, s) <= u128::MAX
    &&& lifted(b, s) <= u128::MAX
}

impl BigNumber {
    /// Strict comparison of the decimal values: both magnitudes are
    /// rescaled to the joint scale before comparing, so decimals of
    /// unequal scale are ordered exactly.
    pub fn lt(&self, other: &Self) -> (r: bool)
        requires
            cmp_in_range(*self, *other),
        ensures
            r == spec_lt(*self, *other),
    {
        let s: u8 = if self.exp >= other.exp {
            self.exp
        } else {
            other.exp
        };
        let av: u128 = (self.value as u128) * pow10_u128((s - self.exp) as u32);
        let bv: u128 = (other.value as u128) * pow10_u128((s - other.exp) as u32);
        av < bv
    }
}

/// A value lifted to its own scale is its magnitude unchanged.
pub proof fn lemma_lifted_at_own_scale(x: BigNumber, s: nat)
    requires
        x.exp == s,
    ensures
        lifted(x, s) == x.value,
{
    assert((s - x.exp) as nat == 0);
    assert(pow10(0) == 1);
    assert(lifted(x, s) == (x.value as nat) * 1);
}

/// A value of scale zero lifted to scale `s` is its magnitude times `10^s`.
pub proof fn lemma_lifted_from_scale_zero(x: BigNumber, s: nat)
    requires
        x.exp == 0,
    ensures
        lifted(x, s) == (x.value as nat) * pow10(s),
{
    assert((s - x.exp) as nat == s);
}

/// Multiplication is commutative: both orders give the same magnitude and
/// the same scale.
pub proof fn lemma_mul_commutative(a: BigNumber, b: BigNumber)
    ensures
        spec_mul(a, b) == spec_mul(b, a),
{
    assert(joint_exp(a, b) == joint_exp(b, a));
    assert(mul_value(a, b) == mul_value(b, a));
}

/// Raising to the power zero yields the unit at the base's scale.
pub proof fn lemma_pow_zero_is_unit(x: BigNumber)
    ensures
        spec_pow(x, 0) == spec_unit(x.exp),
{
}

/// A negative power is the unit at the base's scale divided by the
/// corresponding positive power.
pub proof fn lemma_pow_negative_is_reciprocal(x: BigNumber, e: int)
    requires
        e < 0,
    ensures
        spec_pow_signed(x, e) == spec_div(spec_unit(x.exp), spec_pow(x, (- e) as nat)),
{
}

/// Dividing a product by its second factor recovers the first factor at the
/// joint scale, up to one unit in the last place, whenever the divisor is at
/// least one (a divisor below one can lose more to truncation).
pub proof fn lemma_mul_div_recovers(a: BigNumber, b: BigNumber)
    requires
        mul_in_range(a, b),
        lifted(b, joint_exp(a, b)) >= pow10(joint_exp(a, b)),
    ensures
        spec_div(spec_mul(a, b), b).exp == joint_exp(a, b),
        lifted(a, joint_exp(a, b)) - 1 <= spec_div(spec_mul(a, b), b).value
            <= lifted(a, joint_exp(a, b)),
{
    let s = joint_exp(a, b);
    let pp = pow10(s) as int;
    let av = lifted(a, s) as int;
    let bv = lifted(b, s) as int;
    let m = spec_mul(a, b);
    lemma_pow10_pos(s);
    assert(joint_exp(m, b) == s);
    assert(pow10(0) == 1);
    let mv = m.value as int;
    assert(s <= 255);
    assert(m.exp == s as u8);
    assert((s - m.exp) as nat == 0);
    assert(lifted(m, s) == mv);
    assert(m.value == (av * bv) / pp);
    let d = div_value(m, b) as int;
    assert(div_value(m, b) == (pow10(s) * lifted(m, s)) / lifted(b, s));
    assert(d == (pp * mv) / bv);
    lemma_mul_nonnegative(av, bv);
    lemma_fundamental_div_mod(av * bv, pp);
    lemma_mod_bound(av * bv, pp);
    let rem = (av * bv) % pp;
    assert(av * bv == pp * mv + rem);
    lemma_mul_nonnegative(pp, mv);
    // Upper bound: pp * mv <= av * bv, so d <= (av * bv) / bv == av.
    lemma_div_is_ordered(pp * mv, av * bv, bv);
    lemma_div_by_multiple(av, bv);
    assert(av * bv == bv * av) by (nonlinear_arith);
    assert(d <= av);
    if av == 0 {
        assert(av * bv == 0 * bv);
        lemma_div_pos_is_pos(pp * mv, bv);
        assert(d >= 0);
    } else {
        // Lower bound: pp * mv > av * bv - pp >= (av - 1) * bv, so d >= av - 1.
        assert((av - 1) * bv == av * bv - bv) by (nonlinear_arith);
        assert(pp * mv >= av * bv - pp + 1 - 1);
        assert(pp * mv >= (av - 1) * bv);
        lemma_div_is_ordered((av - 1) * bv, pp * mv, bv);
        lemma_div_by_multiple(av - 1, bv);
        assert(d >= av - 1);
    }
    assert(div_value(m, b) <= lifted(a, s));
    assert(spec_div(m, b).value == div_value(m, b));
}

} // verus!
