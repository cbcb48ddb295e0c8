//! Double-precision arithmetic on integers: what `distance * (n / pieces)` comes to when every
//! step is rounded to 53 significant bits, ties to even, and the result is truncated.
use vstd::arithmetic::power2::*;
use vstd::prelude::*;

verus! {

/// Two to the power of 53: the integers up to here are represented exactly.
pub const EXACT_LIMIT: u128 = 0x20_0000_0000_0000;

/// Two to the power of 52: the smallest mantissa of a normalised number.
pub const MANTISSA_MIN: u128 = 0x10_0000_0000_0000;

/// Anything that is rounded here stays below this.
pub const HEADROOM: u128 = 0x100_0000_0000_0000_0000_0000_0000_0000;

/// The integer nearest to `num / den`; of two equally near ones, the even one.
pub open spec fn nearest_even(num: nat, den: nat) -> nat {
    let q = num / den;
    let r = num % den;
    if 2 * r < den || (2 * r == den && q % 2 == 0) {
        q
    } else {
        q + 1
    }
}

/// How many bits of `v` do not fit into 53.
pub open spec fn excess_bits(v: nat) -> nat
    decreases v,
{
    if v < EXACT_LIMIT {
        0
    } else {
        1 + excess_bits(v / 2)
    }
}

/// `v` rounded to 53 significant bits.
pub open spec fn round_integer(v: nat) -> nat {
    let unit = pow2(excess_bits(v));
    nearest_even(v, unit) * unit
}

/// How often `n` has to be doubled before `n / d` has a full mantissa in front of the point.
pub open spec fn fraction_scale(n: nat, d: nat) -> nat
    decreases 2 * (MANTISSA_MIN * d) - n,
{
    if n == 0 || n >= MANTISSA_MIN * d {
        0
    } else {
        1 + fraction_scale(2 * n, d)
    }
}

/// `distance * (n / pieces)` in double precision, truncated to an integer.
pub open spec fn scaled_part(distance: nat, n: nat, pieces: nat) -> nat {
    let dividend = round_integer(n);
    let divisor = round_integer(pieces);
    let scale = pow2(fraction_scale(dividend, divisor));
    let quotient = nearest_even(dividend * scale, divisor);
    round_integer(round_integer(distance) * quotient) / scale
}

/// Rounding to the nearest integer misses by at most a half.
proof fn lemma_nearest_even(num: nat, den: nat)
    requires
        den > 0,
    ensures
        2 * (nearest_even(num, den) * den) <= 2 * num + den,
        2 * num <= 2 * (nearest_even(num, den) * den) + den,
{
    let q = num / den;
    let r = num % den;
    vstd::arithmetic::div_mod::lemma_fundamental_div_mod(num as int, den as int);
    assert(den * q == q * den) by (nonlinear_arith);
    assert((q + 1) * den == q * den + den) by (nonlinear_arith);
}

/// Rounding never leaves an integer bound.
proof fn lemma_nearest_even_upper(num: nat, den: nat, bound: nat)
    requires
        den > 0,
        num <= bound * den,
    ensures
        nearest_even(num, den) <= bound,
{
    let q = num / den;
    let r = num % den;
    vstd::arithmetic::div_mod::lemma_fundamental_div_mod(num as int, den as int);
    assert(q <= bound) by (nonlinear_arith)
        requires
            num <= bound * den,
            num == den * q + r,
            r >= 0,
            den > 0,
    ;
    if q == bound {
        assert(r == 0) by (nonlinear_arith)
            requires
                num <= bound * den,
                num == den * q + r,
                q == bound,
                r >= 0,
        ;
    }
}

/// The excess bits of a number pin down its size.
proof fn lemma_excess_bits(v: nat)
    ensures
        v < EXACT_LIMIT * pow2(excess_bits(v)),
        excess_bits(v) > 0 ==> MANTISSA_MIN * pow2(excess_bits(v)) <= v,
        pow2(excess_bits(v)) <= v + 1,
    decreases v,
{
    lemma_pow2_pos(excess_bits(v));
    if v < EXACT_LIMIT {
        lemma2_to64();
    } else {
        lemma_excess_bits(v / 2);
        lemma_pow2_unfold(excess_bits(v));
        if excess_bits(v / 2) == 0 {
            lemma2_to64();
        }
    }
}

/// Integers up to two to the power of 53 are represented exactly.
proof fn lemma_round_integer_exact(v: nat)
    requires
        v <= EXACT_LIMIT,
    ensures
        round_integer(v) == v,
{
    lemma2_to64();
    reveal_with_fuel(excess_bits, 3);
    if v < EXACT_LIMIT {
        assert(pow2(excess_bits(v)) == 1);
        assert(nearest_even(v, 1) == v);
    } else {
        assert(excess_bits(v / 2) == 0);
        assert(pow2(excess_bits(v)) == 2);
        assert(nearest_even(v, 2) == v / 2);
    }
}

/// Rounding keeps the order of magnitude.
proof fn lemma_round_integer_range(v: nat)
    requires
        v > 0,
    ensures
        0 < round_integer(v) <= 2 * v + 1,
        v <= 2 * round_integer(v) + 1,
{
    lemma2_to64();
    lemma_pow2_pos(excess_bits(v));
    lemma_excess_bits(v);
    lemma_nearest_even(v, pow2(excess_bits(v)));
}

/// Scaling ends with a full mantissa.
proof fn lemma_fraction_scale(n: nat, d: nat)
    requires
        0 < n,
        n < 2 * (MANTISSA_MIN * d),
    ensures
        MANTISSA_MIN * d <= n * pow2(fraction_scale(n, d)) < EXACT_LIMIT * d,
    decreases 2 * (MANTISSA_MIN * d) - n,
{
    let k = fraction_scale(n, d);
    if n >= MANTISSA_MIN * d {
        lemma2_to64();
        assert(k == 0);
        assert(n * pow2(k) == n) by (nonlinear_arith)
            requires
                pow2(k) == 1,
        ;
    } else {
        let half = pow2((k - 1) as nat);
        lemma_fraction_scale(2 * n, d);
        lemma_pow2_unfold(k);
        assert(n * (2 * half) == (2 * n) * half) by (nonlinear_arith);
        assert(n * pow2(k) == (2 * n) * half);
    }
}

/// A part of a distance is no longer than the distance, as long as that is represented exactly.
pub proof fn lemma_scaled_part_at_most(distance: nat, n: nat, pieces: nat)
    requires
        distance < EXACT_LIMIT,
        0 < n < pieces <= EXACT_LIMIT,
    ensures
        scaled_part(distance, n, pieces) <= distance,
{
    lemma_round_integer_exact(distance);
    lemma_round_integer_exact(n);
    lemma_round_integer_exact(pieces);
    let k = fraction_scale(n, pieces);
    let scale = pow2(k);
    lemma_pow2_pos(k);
    let quotient = nearest_even(n * scale, pieces);
    assert(n * scale <= scale * pieces) by (nonlinear_arith)
        requires
            n <= pieces,
    ;
    lemma_nearest_even_upper(n * scale, pieces, scale);
    let exact = distance * quotient;
    assert(exact <= distance * scale) by (nonlinear_arith)
        requires
            exact == distance * quotient,
            quotient <= scale,
    ;
    let e = excess_bits(exact);
    let unit = pow2(e);
    lemma_pow2_pos(e);
    lemma_excess_bits(exact);
    if e > k {
        lemma_pow2_unfold(e);
        if e - 1 > k {
            lemma_pow2_strictly_increases(k, (e - 1) as nat);
        }
        assert(distance * scale < EXACT_LIMIT * scale) by (nonlinear_arith)
            requires
                distance < EXACT_LIMIT,
                scale > 0,
        ;
        assert(false);
    }
    let shift = pow2((k - e) as nat);
    lemma_pow2_adds(e, (k - e) as nat);
    assert(distance * scale == (distance * shift) * unit) by (nonlinear_arith)
        requires
            scale == unit * shift,
    ;
    lemma_nearest_even_upper(exact, unit, distance * shift);
    assert(nearest_even(exact, unit) * unit <= (distance * shift) * unit) by (nonlinear_arith)
        requires
            nearest_even(exact, unit) <= distance * shift,
    ;
    assert(round_integer(exact) <= distance * scale);
    vstd::arithmetic::div_mod::lemma_div_is_ordered(
        round_integer(exact) as int,
        (distance * scale) as int,
        scale as int,
    );
    vstd::arithmetic::div_mod::lemma_div_by_multiple(distance as int, scale as int);
}

/// How far rounding to 53 bits can be off, relative to the number.
proof fn lemma_round_integer_error(v: nat)
    ensures
        2 * (MANTISSA_MIN * round_integer(v)) <= 2 * (MANTISSA_MIN * v) + v,
        2 * (MANTISSA_MIN * v) <= 2 * (MANTISSA_MIN * round_integer(v)) + v,
{
    if v < EXACT_LIMIT {
        lemma_round_integer_exact(v);
    } else {
        lemma_pow2_pos(excess_bits(v));
        lemma_excess_bits(v);
        lemma_nearest_even(v, pow2(excess_bits(v)));
    }
}

/// The part that double precision gives is the exact one rounded down, except that a part which
/// is exactly an integer may come out one lower: all this while `distance * pieces` leaves
/// enough bits to tell neighbouring parts apart.
pub proof fn lemma_scaled_part_error(distance: nat, n: nat, pieces: nat)
    requires
        0 < distance,
        0 < n < pieces,
        distance * pieces < MANTISSA_MIN,
    ensures
        scaled_part(distance, n, pieces) * pieces <= distance * n,
        distance * n <= (scaled_part(distance, n, pieces) + 1) * pieces,
{
    let d = distance;
    let a = pieces;
    assert(d < MANTISSA_MIN && a < MANTISSA_MIN) by (nonlinear_arith)
        requires
            d * a < MANTISSA_MIN,
            d > 0,
            a > 0,
    ;
    lemma_round_integer_exact(d);
    lemma_round_integer_exact(n);
    lemma_round_integer_exact(a);
    let k = fraction_scale(n, a);
    let scale = pow2(k);
    lemma_pow2_pos(k);
    lemma_fraction_scale(n, a);
    let m = nearest_even(n * scale, a);
    lemma_nearest_even(n * scale, a);
    assert(scale >= MANTISSA_MIN) by (nonlinear_arith)
        requires
            n * scale >= MANTISSA_MIN * a,
            n < a,
            n > 0,
    ;
    assert(n * scale <= scale * a) by (nonlinear_arith)
        requires
            n <= a,
    ;
    lemma_nearest_even_upper(n * scale, a, scale);
    let exact = d * m;
    let p = round_integer(exact);
    lemma_round_integer_error(exact);
    let target = d * (n * scale);
    // The quotient is off by half a unit, which the distance multiplies.
    assert(2 * (exact * a) <= 2 * target + d * a && 2 * target <= 2 * (exact * a) + d * a)
        by (nonlinear_arith)
        requires
            2 * (m * a) <= 2 * (n * scale) + a,
            2 * (n * scale) <= 2 * (m * a) + a,
            exact == d * m,
            target == d * (n * scale),
            d > 0,
    ;
    // The product is off by half a unit of its own.
    let pa = p * a;
    let ea = exact * a;
    assert(2 * (MANTISSA_MIN * pa) <= 2 * (MANTISSA_MIN * ea) + ea && 2 * (MANTISSA_MIN * ea) <= 2
        * (MANTISSA_MIN * pa) + ea) by (nonlinear_arith)
        requires
            2 * (MANTISSA_MIN * p) <= 2 * (MANTISSA_MIN * exact) + exact,
            2 * (MANTISSA_MIN * exact) <= 2 * (MANTISSA_MIN * p) + exact,
            pa == p * a,
            ea == exact * a,
            a > 0,
    ;
    let da = d * a;
    let sda = scale * da;
    assert(ea <= sda) by (nonlinear_arith)
        requires
            ea == (d * m) * a,
            sda == scale * (d * a),
            m <= scale,
            d > 0,
            a > 0,
    ;
    assert(MANTISSA_MIN * da <= sda) by (nonlinear_arith)
        requires
            sda == scale * da,
            scale >= MANTISSA_MIN,
            da >= 0,
    ;
    assert(sda < MANTISSA_MIN * scale) by (nonlinear_arith)
        requires
            sda == scale * da,
            da < MANTISSA_MIN,
            scale > 0,
    ;
    assert(pa < target + scale);
    assert(target < pa + scale);
    let part = p / scale;
    let rem = p % scale;
    vstd::arithmetic::div_mod::lemma_fundamental_div_mod(p as int, scale as int);
    let dn = d * n;
    assert(target == dn * scale) by (nonlinear_arith)
        requires
            target == d * (n * scale),
            dn == d * n,
    ;
    assert(part * a <= dn) by (nonlinear_arith)
        requires
            pa < dn * scale + scale,
            pa == p * a,
            p == scale * part + rem,
            rem >= 0,
            a > 0,
            scale > 0,
    ;
    assert(dn <= (part + 1) * a) by (nonlinear_arith)
        requires
            dn * scale < pa + scale,
            pa == p * a,
            p == scale * part + rem,
            rem < scale,
            a > 0,
            scale > 0,
    ;
}

/// The integer nearest to `num / den`.
fn exec_nearest_even(num: u128, den: u128) -> (r: u128)
    requires
        0 < den < HEADROOM,
        num < HEADROOM,
    ensures
        r == nearest_even(num as nat, den as nat),
{
    let q: u128 = num / den;
    let r: u128 = num % den;
    assert(q <= num) by (nonlinear_arith)
        requires
            q == num as int / den as int,
            den > 0,
            num >= 0,
    ;
    if 2 * r < den || (2 * r == den && q % 2 == 0) {
        q
    } else {
        q + 1
    }
}

/// `v` rounded to 53 significant bits.
fn exec_round_integer(v: u128) -> (r: u128)
    requires
        v < HEADROOM,
    ensures
        r == round_integer(v as nat),
        r <= 2 * v + 1,
{
    let mut w: u128 = v;
    let mut unit: u128 = 1;
    proof {
        lemma2_to64();
    }
    let ghost mut k: nat = 0;
    while w >= EXACT_LIMIT
        invariant
            excess_bits(v as nat) == k + excess_bits(w as nat),
            unit == pow2(k),
            unit * w <= v,
            v < HEADROOM,
        decreases w,
    {
        proof {
            lemma_pow2_unfold(k + 1);
            assert((2 * unit) * (w / 2) <= unit * w) by (nonlinear_arith)
                requires
                    2 * (w as int / 2) <= w,
                    unit >= 0,
            ;
            assert(unit <= unit * w) by (nonlinear_arith)
                requires
                    w >= 1,
                    unit >= 0,
            ;
            k = k + 1;
        }
        w = w / 2;
        unit = unit * 2;
    }
    proof {
        lemma_pow2_pos(k);
        lemma_excess_bits(v as nat);
        lemma_nearest_even(v as nat, unit as nat);
    }
    let q = exec_nearest_even(v, unit);
    q * unit
}

/// `distance * (n / pieces)` in double precision, truncated to an integer, and to the largest
/// `u64` where the result is beyond it.
pub fn exec_scaled_part(distance: u64, n: u64, pieces: u64) -> (r: u64)
    requires
        0 < n < pieces,
    ensures
        scaled_part(distance as nat, n as nat, pieces as nat) <= u64::MAX ==> r == scaled_part(
            distance as nat,
            n as nat,
            pieces as nat,
        ),
        scaled_part(distance as nat, n as nat, pieces as nat) > u64::MAX ==> r == u64::MAX,
{
    let dividend = exec_round_integer(n as u128);
    let divisor = exec_round_integer(pieces as u128);
    let factor = exec_round_integer(distance as u128);
    proof {
        lemma2_to64();
        lemma_round_integer_range(n as nat);
        lemma_round_integer_range(pieces as nat);
        lemma_fraction_scale(dividend as nat, divisor as nat);
    }
    let mut scaled: u128 = dividend;
    let mut scale: u128 = 1;
    let ghost mut k: nat = 0;
    while scaled < MANTISSA_MIN * divisor
        invariant
            0 < dividend,
            0 < divisor < 0x4_0000_0000_0000_0000,
            0 < scaled < 2 * (MANTISSA_MIN * divisor),
            fraction_scale(dividend as nat, divisor as nat) == k + fraction_scale(
                scaled as nat,
                divisor as nat,
            ),
            scale == pow2(k),
            scaled == dividend * scale,
            0 < scale <= scaled,
        decreases 2 * (MANTISSA_MIN * divisor) - scaled,
    {
        proof {
            lemma_pow2_unfold(k + 1);
            assert(dividend * (scale * 2) == (dividend * scale) * 2) by (nonlinear_arith);
            k = k + 1;
        }
        scaled = scaled * 2;
        scale = scale * 2;
    }
    let quotient = exec_nearest_even(scaled, divisor);
    proof {
        lemma_nearest_even_upper(scaled as nat, divisor as nat, EXACT_LIMIT as nat);
        assert(factor * quotient <= 0x4_0000_0000_0000_0000 * EXACT_LIMIT) by (nonlinear_arith)
            requires
                factor <= 0x4_0000_0000_0000_0000,
                quotient <= EXACT_LIMIT,
                factor >= 0,
                quotient >= 0,
        ;
    }
    let product = exec_round_integer(factor * quotient);
    let part: u128 = product / scale;
    if part > u64::MAX as u128 {
        u64::MAX
    } else {
        part as u64
    }
}

} // verus!
