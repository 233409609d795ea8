use vstd::prelude::*;

verus! {

use vstd::arithmetic::power::{pow, lemma_pow_positive};
use vstd::arithmetic::div_mod::{lemma_div_multiples_vanish, lemma_div_by_multiple,
    lemma_div_multiples_vanish_quotient, lemma_div_is_ordered, lemma_hoist_over_denominator,
    lemma_fundamental_div_mod, lemma_mod_bound};
use vstd::arithmetic::mul::{lemma_mul_nonnegative, lemma_mul_inequality,
    lemma_mul_is_distributive_sub,
    lemma_mul_strict_inequality_converse, lemma_mul_strictly_positive};
use crate::math::{BigNumber, spec_mul, spec_div, spec_unit, spec_pow, spec_pow_signed,
    pow_in_range, mul_in_range, div_in_range, cmp_in_range, spec_lt, abs_exp, joint_exp,
    lifted, mul_value, div_value, pow10, lemma_pow10_pos, lemma_pow10_monotone, lemma_pow10_19,
    lemma_lifted_at_own_scale, lemma_lifted_from_scale_zero};

/// The growth ratio's numerator as a decimal: `A - 1` carried at the
/// debt asset's scale, as the boundary computation forms it.
pub open spec fn ratio_num(amplification: u64, debt_decimals: u8) -> BigNumber {
    spec_mul(
        spec_unit(debt_decimals),
        BigNumber { value: (amplification - 1) as u64, exp: 0 },
    )
}

/// One boundary of the band ladder: `base * ((A-1)/A)^n`, evaluated in
/// fixed point exactly as `band_boundary` evaluates it, truncations
/// included.
pub open spec fn spec_boundary(
    debt_decimals: u8,
    amplification: u64,
    base_price: u64,
    base_exp: u8,
    n: int,
) -> BigNumber {
    spec_mul(
        spec_div(
            spec_pow_signed(ratio_num(amplification, debt_decimals), n),
            spec_pow_signed(BigNumber { value: amplification, exp: 0 }, n),
        ),
        BigNumber { value: base_price, exp: base_exp },
    )
}

/// The inputs on which every step of the boundary computation stays in
/// range.
pub open spec fn boundary_in_range(
    debt_decimals: u8,
    amplification: u64,
    base_price: u64,
    base_exp: u8,
    n: int,
) -> bool {
    let g = ratio_num(amplification, debt_decimals);
    let h = BigNumber { value: amplification, exp: 0 };
    &&& debt_decimals <= 19
    &&& mul_in_range(
        spec_unit(debt_decimals),
        BigNumber { value: (amplification - 1) as u64, exp: 0 },
    )
    &&& pow_in_range(g, abs_exp(n))
    &&& pow_in_range(h, abs_exp(n))
    &&& (n < 0 ==> div_in_range(spec_unit(g.exp), spec_pow(g, abs_exp(n))))
    &&& (n < 0 ==> div_in_range(spec_unit(h.exp), spec_pow(h, abs_exp(n))))
    &&& div_in_range(spec_pow_signed(g, n), spec_pow_signed(h, n))
    &&& mul_in_range(
        spec_div(spec_pow_signed(g, n), spec_pow_signed(h, n)),
        BigNumber { value: base_price, exp: base_exp },
    )
}

/// One boundary of the band ladder for index `n`:
/// `base * ((A-1)/A)^n`, with `A - 1` carried at the debt asset's scale.
/// The upper boundary of band `n` is this value; its lower boundary is
/// this value at index `n + 1`.
pub fn band_boundary(
    debt_decimals: u8,
    amplification: u64,
    base_price: u64,
    base_exp: u8,
    index: i16,
) -> (r: BigNumber)
    requires
        amplification >= 2,
        index != i16::MIN,
        boundary_in_range(debt_decimals, amplification, base_price, base_exp, index as int),
    ensures
        r == spec_boundary(debt_decimals, amplification, base_price, base_exp, index as int),
{
    BigNumber::unit(debt_decimals).mul(&BigNumber::new(amplification - 1, 0)).pow(index).div(
        &BigNumber::new(amplification, 0).pow(index),
    ).mul(&BigNumber::new(base_price, base_exp))
}

/// The upper price boundary of band `index`: `base * ((A-1)/A)^index`.
pub fn upper_boundary(
    debt_decimals: u8,
    amplification: u64,
    base_price: u64,
    base_exp: u8,
    index: i16,
) -> (r: BigNumber)
    requires
        amplification >= 2,
        index != i16::MIN,
        boundary_in_range(debt_decimals, amplification, base_price, base_exp, index as int),
    ensures
        r == spec_boundary(debt_decimals, amplification, base_price, base_exp, index as int),
{
    band_boundary(debt_decimals, amplification, base_price, base_exp, index)
}

/// The lower price boundary of band `index`: `base * ((A-1)/A)^(index+1)`,
/// which is also the upper boundary of band `index + 1`.
pub fn lower_boundary(
    debt_decimals: u8,
    amplification: u64,
    base_price: u64,
    base_exp: u8,
    index: i16,
) -> (r: BigNumber)
    requires
        amplification >= 2,
        index < i16::MAX,
        boundary_in_range(debt_decimals, amplification, base_price, base_exp, index + 1),
    ensures
        r == spec_boundary(debt_decimals, amplification, base_price, base_exp, index + 1),
{
    band_boundary(debt_decimals, amplification, base_price, base_exp, index + 1)
}

/// A band's standing against the current oracle price: derived at
/// evaluation time from the price and the boundaries, never stored.
#[derive(PartialEq, Eq, Structural, Debug, Clone, Copy)]
pub enum BandStatus {
    /// The price is at or above the upper boundary: the band may be
    /// created, and deposits are open.
    Creatable,
    /// The price is below the upper boundary but not below the lower:
    /// deposits are open, creation is rejected.
    Open,
    /// The price is below the lower boundary: deposits are rejected.
    Liquidating,
}

/// The liquidation guard's classification of a price against a band's
/// two boundaries.
pub open spec fn spec_classify(oracle: BigNumber, upper: BigNumber, lower: BigNumber) -> BandStatus {
    if spec_lt(oracle, lower) {
        BandStatus::Liquidating
    } else if spec_lt(oracle, upper) {
        BandStatus::Open
    } else {
        BandStatus::Creatable
    }
}

/// Classify a fresh oracle price against a band's boundaries: below the
/// lower boundary the band is liquidating; below the upper boundary it is
/// open but not creatable; otherwise it is creatable.
pub fn classify_band(oracle: &BigNumber, upper: &BigNumber, lower: &BigNumber) -> (s: BandStatus)
    requires
        cmp_in_range(*oracle, *lower),
        cmp_in_range(*oracle, *upper),
    ensures
        s == spec_classify(*oracle, *upper, *lower),
{
    if oracle.lt(lower) {
        BandStatus::Liquidating
    } else if oracle.lt(upper) {
        BandStatus::Open
    } else {
        BandStatus::Creatable
    }
}

/// The ratio numerator in closed form: magnitude `(A - 1) * 10^d` at
/// scale `d`. The rescaling division cancels exactly.
proof fn lemma_ratio_num_exact(amplification: u64, d: u8)
    requires
        amplification >= 2,
        d <= 19,
        mul_in_range(spec_unit(d), BigNumber { value: (amplification - 1) as u64, exp: 0 }),
    ensures
        ratio_num(amplification, d).exp == d,
        ratio_num(amplification, d).value == ((amplification - 1) as nat) * pow10(d as nat),
{
    let u = spec_unit(d);
    let c = BigNumber { value: (amplification - 1) as u64, exp: 0 };
    lemma_pow10_pos(d as nat);
    lemma_pow10_monotone(d as nat, 19);
    lemma_pow10_19();
    assert(u.value == pow10(d as nat));
    assert(joint_exp(u, c) == d as nat);
    assert(pow10(0) == 1);
    let pd = pow10(d as nat) as int;
    let x = ((amplification - 1) as int) * pd;
    lemma_lifted_at_own_scale(u, d as nat);
    assert(lifted(u, d as nat) == pd);
    lemma_lifted_from_scale_zero(c, d as nat);
    assert(lifted(c, d as nat) == x);
    lemma_mul_nonnegative((amplification - 1) as int, pd);
    lemma_div_multiples_vanish(x, pd);
    assert(mul_value(u, c) == (pd * x) / pd);
    assert(mul_value(u, c) == x);
}

/// Powers of a decimal whose magnitude is a multiple of its own scale
/// factor stay exact: every multiplication's truncating division cancels,
/// so the n-th power of `c` carried at scale `d` has magnitude
/// `c^n * 10^d`.
proof fn lemma_scaled_pow_exact(g: BigNumber, c: nat, n: nat)
    requires
        c >= 1,
        g.exp <= 19,
        g.value == c * pow10(g.exp as nat),
        pow_in_range(g, n),
    ensures
        spec_pow(g, n).exp == g.exp,
        spec_pow(g, n).value == pow(c as int, n) * pow10(g.exp as nat),
    decreases n,
{
    reveal(pow);
    let d = g.exp as nat;
    let pd = pow10(d) as int;
    lemma_pow10_pos(d);
    lemma_pow10_monotone(d, 19);
    lemma_pow10_19();
    if n == 0 {
        assert(pow(c as int, 0) == 1);
        assert(spec_pow(g, 0) == spec_unit(g.exp));
        assert(spec_unit(g.exp).value == pow10(d));
    } else {
        lemma_scaled_pow_exact(g, c, (n - 1) as nat);
        let q = spec_pow(g, (n - 1) as nat);
        let qv = pow(c as int, (n - 1) as nat) * pd;
        assert(q.value == qv);
        assert(joint_exp(q, g) == d);
        assert(pow10(0) == 1);
        lemma_lifted_at_own_scale(q, d);
        assert(lifted(q, d) == qv);
        lemma_lifted_at_own_scale(g, d);
        assert(lifted(g, d) == c * pd);
        let y = qv * c as int;
        assert(qv * (c as int * pd) == (qv * c as int) * pd) by (nonlinear_arith);
        lemma_pow_positive(c as int, (n - 1) as nat);
        lemma_mul_nonnegative(pow(c as int, (n - 1) as nat), pd);
        lemma_mul_nonnegative(qv, c as int);
        lemma_div_by_multiple(y, pd);
        assert(mul_value(q, g) == (qv * (c as int * pd)) / pd);
        assert(mul_value(q, g) == y);
        assert(pow(c as int, n) == c as int * pow(c as int, (n - 1) as nat));
        assert((pow(c as int, (n - 1) as nat) * pd) * c as int == (c as int * pow(
            c as int,
            (n - 1) as nat,
        )) * pd) by (nonlinear_arith);
        assert(y == pow(c as int, n) * pd);
    }
}

/// The ladder quotient in closed form: dividing the n-th power of the
/// scaled numerator by the n-th power of the amplification truncates
/// `(A-1)^n * 10^d / A^n` at scale `d`.
proof fn lemma_ratio_quotient_exact(dd: u8, amp: u64, n: nat)
    requires
        amp >= 2,
        dd <= 19,
        mul_in_range(spec_unit(dd), BigNumber { value: (amp - 1) as u64, exp: 0 }),
        pow_in_range(ratio_num(amp, dd), n),
        pow_in_range(BigNumber { value: amp, exp: 0 }, n),
        div_in_range(
            spec_pow(ratio_num(amp, dd), n),
            spec_pow(BigNumber { value: amp, exp: 0 }, n),
        ),
    ensures
        spec_div(
            spec_pow(ratio_num(amp, dd), n),
            spec_pow(BigNumber { value: amp, exp: 0 }, n),
        ).exp == dd,
        spec_div(
            spec_pow(ratio_num(amp, dd), n),
            spec_pow(BigNumber { value: amp, exp: 0 }, n),
        ).value == (pow((amp - 1) as int, n) * pow10(dd as nat)) / pow(amp as int, n),
{
    let g = ratio_num(amp, dd);
    let h = BigNumber { value: amp, exp: 0 };
    lemma_ratio_num_exact(amp, dd);
    lemma_scaled_pow_exact(g, (amp - 1) as nat, n);
    assert(pow10(0) == 1);
    assert(h.value == (amp as nat) * pow10(0));
    lemma_scaled_pow_exact(h, amp as nat, n);
    let qn = spec_pow(g, n);
    let hn = spec_pow(h, n);
    let pd = pow10(dd as nat) as int;
    let nn = pow((amp - 1) as int, n) * pd;
    let m = pow(amp as int, n);
    lemma_pow10_pos(dd as nat);
    lemma_pow_positive(amp as int, n);
    lemma_pow_positive((amp - 1) as int, n);
    lemma_mul_nonnegative(pow((amp - 1) as int, n), pd);
    assert(qn.value == nn);
    assert((amp as nat) as int == amp as int);
    assert(pow((amp as nat) as int, n) == pow(amp as int, n));
    assert(h.exp as nat == 0);
    assert(pow10(h.exp as nat) == pow10(0));
    assert(hn.value == m * pow10(0));
    assert(m * 1 == m);
    assert(hn.value == m);
    assert(joint_exp(qn, hn) == dd as nat);
    lemma_lifted_at_own_scale(qn, dd as nat);
    assert(lifted(qn, dd as nat) == nn);
    lemma_lifted_from_scale_zero(hn, dd as nat);
    assert(lifted(hn, dd as nat) == m * pd) by (nonlinear_arith)
        requires lifted(hn, dd as nat) == (hn.value as nat) * pow10(dd as nat), hn.value == m, pd == pow10(dd as nat) {};
    lemma_div_multiples_vanish_quotient(pd, nn, m);
    assert(m * pd == pd * m) by (nonlinear_arith);
    assert(div_value(qn, hn) == (pd * nn) / (pd * m));
    assert(div_value(qn, hn) == nn / m);
}

/// Truncated division of a shrinking numerator: multiplying `n` by
/// `a - 1` and dividing by `m * a` lands strictly below `n / m`, as long
/// as `n` is at least `m * a`.
proof fn lemma_quotient_decreases(a: int, n: int, m: int)
    requires
        a >= 2,
        m >= 1,
        n >= m * a,
        n >= 0,
    ensures
        (n * (a - 1)) / (m * a) < n / m,
{
    let w = n / m;
    lemma_fundamental_div_mod(n, m);
    lemma_mod_bound(n, m);
    assert(m * (w + 1) == m * w + m) by (nonlinear_arith);
    assert(n < m * (w + 1));
    lemma_mul_is_distributive_sub(n, a, 1);
    assert(n * (a - 1) == n * a - n);
    lemma_mul_is_distributive_sub(a, n, m);
    assert(a * (n - m) == a * n - a * m);
    assert(n * a == a * n) by (nonlinear_arith);
    assert(m * a == a * m) by (nonlinear_arith);
    assert(n * a - n <= a * (n - m));
    assert(n - m < m * w);
    assert(n - m <= m * w - 1);
    lemma_mul_inequality(n - m, m * w - 1, a);
    assert((m * w - 1) * a == (m * w) * a - a) by (nonlinear_arith);
    assert(a * (n - m) == (n - m) * a) by (nonlinear_arith);
    assert(n * (a - 1) < (m * w) * a);
    let w2 = (n * (a - 1)) / (m * a);
    lemma_mul_strictly_positive(m, a);
    lemma_mul_nonnegative(n, a - 1);
    lemma_fundamental_div_mod(n * (a - 1), m * a);
    lemma_mod_bound(n * (a - 1), m * a);
    assert((m * a) * w2 <= n * (a - 1));
    assert((m * w) * a == w * (m * a)) by (nonlinear_arith);
    assert((m * a) * w2 == w2 * (m * a)) by (nonlinear_arith);
    assert(w2 * (m * a) < w * (m * a));
    lemma_mul_strict_inequality_converse(w2, w, m * a);
}

/// Multiplying two truncated quotients of the same denominator by the same
/// factor keeps a strict order, as long as the factor is at least the
/// denominator.
proof fn lemma_mul_div_strictly_ordered(w2: int, w1: int, k: int, p: int)
    requires
        w2 < w1,
        0 <= w2,
        p >= 1,
        k >= p,
    ensures
        (w2 * k) / p < (w1 * k) / p,
{
    lemma_mul_is_distributive_sub(k, w1, w2);
    assert(k * (w1 - w2) == k * w1 - k * w2);
    lemma_mul_inequality(1, w1 - w2, k);
    assert(1 * k == k);
    assert((w1 - w2) * k == k * (w1 - w2)) by (nonlinear_arith);
    assert(w1 * k == k * w1) by (nonlinear_arith);
    assert(w2 * k == k * w2) by (nonlinear_arith);
    assert(w1 * k >= w2 * k + k);
    assert(w1 * k >= w2 * k + p);
    lemma_hoist_over_denominator(w2 * k, 1, p as nat);
    assert((w2 * k) / p + 1 == (w2 * k + 1 * p) / p);
    assert(1 * p == p);
    lemma_mul_nonnegative(w2, k);
    lemma_div_is_ordered(w2 * k + p, w1 * k, p);
    assert((w2 * k) / p + 1 <= (w1 * k) / p);
}

/// The scale at which a boundary is carried: the joint scale of the debt
/// asset's decimals and the base price's exponent.
pub open spec fn boundary_scale(debt_decimals: u8, base_exp: u8) -> nat {
    if debt_decimals >= base_exp {
        debt_decimals as nat
    } else {
        base_exp as nat
    }
}

/// Band-ladder ordering: the upper boundary of band `n` lies strictly
/// above its lower boundary, which is the boundary at index `n + 1`.
/// This holds as long as the truncated ratio power still dominates the
/// amplification (so truncation has not collapsed the ladder) and the
/// base price, rescaled to the boundary's scale, is at least one unit of
/// the debt asset's scale.
pub proof fn lemma_boundary_ordering(
    debt_decimals: u8,
    amplification: u64,
    base_price: u64,
    base_exp: u8,
    n: int,
)
    requires
        amplification >= 2,
        n >= 0,
        boundary_in_range(debt_decimals, amplification, base_price, base_exp, n),
        boundary_in_range(debt_decimals, amplification, base_price, base_exp, n + 1),
        pow((amplification - 1) as int, n as nat) * pow10(debt_decimals as nat) >= pow(
            amplification as int,
            (n + 1) as nat,
        ),
        lifted(
            BigNumber { value: base_price, exp: base_exp },
            boundary_scale(debt_decimals, base_exp),
        ) * pow10((boundary_scale(debt_decimals, base_exp) - debt_decimals) as nat) >= pow10(
            boundary_scale(debt_decimals, base_exp),
        ),
    ensures
        spec_lt(
            spec_boundary(debt_decimals, amplification, base_price, base_exp, n + 1),
            spec_boundary(debt_decimals, amplification, base_price, base_exp, n),
        ),
{
    let dd = debt_decimals;
    let amp = amplification;
    let g = ratio_num(amp, dd);
    let h = BigNumber { value: amp, exp: 0 };
    let base = BigNumber { value: base_price, exp: base_exp };
    reveal(pow);
    let c = (amp - 1) as int;
    let pd = pow10(dd as nat) as int;
    let nn = pow(c, n as nat) * pd;
    let m = pow(amp as int, n as nat);
    assert(abs_exp(n) == n as nat);
    assert(abs_exp(n + 1) == (n + 1) as nat);
    lemma_ratio_quotient_exact(dd, amp, n as nat);
    lemma_ratio_quotient_exact(dd, amp, (n + 1) as nat);
    let v1 = spec_div(spec_pow(g, n as nat), spec_pow(h, n as nat));
    let v2 = spec_div(spec_pow(g, (n + 1) as nat), spec_pow(h, (n + 1) as nat));
    let w1 = v1.value as int;
    let w2 = v2.value as int;
    lemma_pow10_pos(dd as nat);
    lemma_pow_positive(amp as int, n as nat);
    lemma_pow_positive(c, n as nat);
    lemma_mul_nonnegative(pow(c, n as nat), pd);
    assert(w1 == nn / m);
    // The next ratio power and amplification power in terms of this one.
    assert(pow(c, (n + 1) as nat) == c * pow(c, n as nat));
    assert(pow(amp as int, (n + 1) as nat) == amp as int * m);
    assert((c * pow(c, n as nat)) * pd == (pow(c, n as nat) * pd) * c) by (nonlinear_arith);
    assert(amp as int * m == m * amp as int) by (nonlinear_arith);
    assert(nn * c == nn * ((amp as int) - 1));
    assert(w2 == (nn * ((amp as int) - 1)) / (m * amp as int));
    lemma_quotient_decreases(amp as int, nn, m);
    assert(w2 < w1);
    // Lift both quotients under the final multiplication by the base price.
    let s2 = boundary_scale(dd, base_exp);
    let ff = pow10((s2 - dd) as nat) as int;
    let b = lifted(base, s2) as int;
    let p2 = pow10(s2) as int;
    lemma_pow10_pos(s2);
    lemma_pow10_pos((s2 - dd) as nat);
    let u1 = spec_boundary(dd, amp, base_price, base_exp, n);
    let u2 = spec_boundary(dd, amp, base_price, base_exp, n + 1);
    assert(v1.exp == dd && v2.exp == dd);
    assert(joint_exp(v1, base) == s2);
    assert(joint_exp(v2, base) == s2);
    assert(lifted(v1, s2) == w1 * ff);
    assert(lifted(v2, s2) == w2 * ff);
    assert((w1 * ff) * b == w1 * (ff * b)) by (nonlinear_arith);
    assert((w2 * ff) * b == w2 * (ff * b)) by (nonlinear_arith);
    assert(b * ff == ff * b) by (nonlinear_arith);
    assert(ff * b >= p2);
    assert(w2 >= 0);
    lemma_mul_div_strictly_ordered(w2, w1, ff * b, p2);
    assert(mul_value(v2, base) < mul_value(v1, base));
    assert(u1.value == mul_value(v1, base));
    assert(u2.value == mul_value(v2, base));
    assert(u1.exp == s2 as u8 && u2.exp == s2 as u8);
    assert(joint_exp(u2, u1) == s2);
    assert(s2 <= 255);
    lemma_lifted_at_own_scale(u2, s2);
    lemma_lifted_at_own_scale(u1, s2);
    assert(lifted(u2, s2) == u2.value);
    assert(lifted(u1, s2) == u1.value);
}

} // verus!
