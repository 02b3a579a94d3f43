use vstd::arithmetic::div_mod::lemma_fundamental_div_mod;
use vstd::arithmetic::power2::{lemma2_to64, lemma_pow2_pos, lemma_pow2_unfold, pow2};
use vstd::prelude::*;

verus! {

/// Two to the power 52: the least significand of 53 bits.
pub const BIT_52: u128 = 4503599627370496;

/// Two to the power 53: the bound of the significands of 53 bits.
pub const BIT_53: u128 = 9007199254740992;

/// The bound on the operands of `nearest_quotient`: two to the power 66.
pub const OPERAND_BOUND: u128 = 73786976294838206464;

/// `n / d` rounded to the nearest whole number; a quotient exactly halfway
/// between two goes to the even one.
pub open spec fn round_half_even(n: nat, d: nat) -> nat
    recommends
        d > 0,
{
    let q = n / d;
    let r = n % d;
    if 2 * r > d || (2 * r == d && q % 2 == 1) {
        q + 1
    } else {
        q
    }
}

/// The least power of two that brings `x` up to `limit`: the least `d`
/// among 1, 2, 4, .. with `x * d >= limit`.
pub open spec fn up_scale(x: nat, limit: nat) -> nat
    decreases
            (if limit > x {
                limit - x
            } else {
                0
            }),
{
    if x == 0 || x >= limit {
        1
    } else {
        2 * up_scale(2 * x, limit)
    }
}

/// The least power of two that brings the quotient `x / y` below two to the
/// power 53: the least `u` among 1, 2, 4, .. with `x < BIT_53 * y * u`.
pub open spec fn down_scale(y: nat, x: nat) -> nat
    decreases x - y,
{
    if y == 0 || x < BIT_53 * y {
        1
    } else {
        2 * down_scale(2 * y, x)
    }
}

/// The whole number with at most 53 significant bits that is nearest to
/// `n`, halfway cases going to the even significand. Counts below two to
/// the power 53 stand for themselves.
pub open spec fn nearest_count(n: nat) -> nat {
    let u = down_scale(1, n);
    round_half_even(n, u) * u
}

/// The number with 53 significant bits that is nearest to `a / b`, halfway
/// cases going to the even significand, as a numerator over a power of two.
///
/// The quotient is scaled by a power of two until it lies between two to
/// the power 52 and two to the power 53, and is rounded there.
pub open spec fn nearest_quotient(a: nat, b: nat) -> (nat, nat)
    recommends
        b > 0,
{
    if a == 0 {
        (0nat, 1nat)
    } else {
        let d = up_scale(a, (BIT_52 * b) as nat);
        let x = a * d;
        let u = down_scale(b, x);
        let y = b * u;
        (round_half_even(x, y) * u, d)
    }
}

/// Rounding to the nearest whole number errs by at most one half.
pub proof fn lemma_round_half_even_nearest(n: nat, d: nat)
    requires
        d > 0,
    ensures
        -(d as int) <= 2 * (round_half_even(n, d) * d - n) <= d,
        n / d <= round_half_even(n, d) <= n / d + 1,
{
    let q = (n as int) / (d as int);
    let r = (n as int) % (d as int);
    lemma_fundamental_div_mod(n as int, d as int);
    assert(n == d * q + r);
    assert(0 <= r < d);
    assert(d * (q + 1) == d * q + d) by (nonlinear_arith);
    assert(round_half_even(n, d) * d == d * round_half_even(n, d)) by (nonlinear_arith);
}

/// A quotient that is whole is not changed by the rounding.
pub proof fn lemma_round_half_even_exact(m: nat, d: nat)
    requires
        d > 0,
    ensures
        round_half_even(m * d, d) == m,
{
    assert((m * d) % d == 0 && (m * d) / d == m) by (nonlinear_arith)
        requires
            d > 0,
    ;
}

/// `up_scale` is at least one, reaches the limit, and does not overshoot
/// it by a factor of two or more.
pub proof fn lemma_up_scale(x: nat, limit: nat)
    requires
        x > 0,
    ensures
        up_scale(x, limit) >= 1,
        x * up_scale(x, limit) >= limit,
        x >= limit ==> up_scale(x, limit) == 1,
        x < limit ==> x * up_scale(x, limit) < 2 * limit,
    decreases
            (if limit > x {
                limit - x
            } else {
                0
            }),
{
    if x < limit {
        lemma_up_scale(2 * x, limit);
        let inner = up_scale(2 * x, limit);
        assert(x * (2 * inner) == (2 * x) * inner) by (nonlinear_arith);
    }
}

/// `down_scale` is at least one, brings the quotient below two to the
/// power 53, and not below two to the power 52 if it was not there before.
pub proof fn lemma_down_scale(y: nat, x: nat)
    requires
        y > 0,
    ensures
        down_scale(y, x) >= 1,
        x < BIT_53 * (y * down_scale(y, x)),
        x < BIT_53 * y ==> down_scale(y, x) == 1,
        x >= BIT_52 * y ==> x >= BIT_52 * (y * down_scale(y, x)),
    decreases x - y,
{
    if x >= BIT_53 * y {
        lemma_down_scale(2 * y, x);
        let inner = down_scale(2 * y, x);
        assert(y * (2 * inner) == (2 * y) * inner) by (nonlinear_arith);
    }
}

/// A count below two to the power 53 has 53 significant bits already.
pub proof fn lemma_nearest_count_exact(n: nat)
    requires
        n < BIT_53,
    ensures
        nearest_count(n) == n,
{
    assert(down_scale(1, n) == 1);
    lemma_round_half_even_exact(n, 1);
    assert(n * 1 == n);
}

/// The nearest quotient has a significand of 53 bits and differs from
/// `a / b` by at most half a unit of its last bit: with the result `p / q`
/// and the unit `u / q`, the significand `p / u` lies between two to the
/// power 52 and two to the power 53, and `|p / q - a / b| <= u / (2 q)`.
pub proof fn lemma_nearest_quotient(a: nat, b: nat)
    requires
        a > 0,
        b > 0,
    ensures
        ({
            let q = nearest_quotient(a, b).1;
            let u = down_scale(b, a * q);
            let p = nearest_quotient(a, b).0;
            let m = round_half_even(a * q, b * u);
            &&& q >= 1
            &&& u >= 1
            &&& p == m * u
            &&& BIT_52 <= m <= BIT_53
            &&& -((b * u) as int) <= 2 * (m * (b * u) - a * q) <= b * u
        }),
{
    let limit = (BIT_52 * b) as nat;
    lemma_up_scale(a, limit);
    let q = up_scale(a, limit);
    let x = a * q;
    lemma_down_scale(b, x);
    let u = down_scale(b, x);
    let y = b * u;
    assert(y > 0) by (nonlinear_arith)
        requires
            y == b * u,
            b > 0,
            u >= 1,
    ;
    lemma_round_half_even_nearest(x, y);
    let m = round_half_even(x, y);
    assert(x / y >= BIT_52 && x / y < BIT_53) by (nonlinear_arith)
        requires
            y > 0,
            x >= BIT_52 * y,
            x < BIT_53 * y,
    ;
}

/// The power of two that brings `x` into the range from `limit` up to twice
/// `limit` is the one that `up_scale` names.
pub proof fn lemma_up_scale_is(x: nat, limit: nat, k: nat)
    requires
        x > 0,
        limit <= x * pow2(k) < 2 * limit,
    ensures
        up_scale(x, limit) == pow2(k),
    decreases k,
{
    lemma_pow2_pos(k);
    let p = pow2(k);
    if x >= limit {
        assert(p < 2) by (nonlinear_arith)
            requires
                x > 0,
                x * p < 2 * limit,
                limit <= x,
        ;
    } else {
        if k == 0 {
            lemma2_to64();
            assert(x * 1 == x);
        } else {
            lemma_pow2_unfold(k);
            let half = pow2((k - 1) as nat);
            assert((2 * x) * half == x * (2 * half)) by (nonlinear_arith);
            lemma_up_scale_is(2 * x, limit, (k - 1) as nat);
        }
    }
}

/// The power of two that brings `x / y` into the range from two to the
/// power 52 up to two to the power 53 is the one that `down_scale` names.
pub proof fn lemma_down_scale_is(y: nat, x: nat, k: nat)
    requires
        y > 0,
        BIT_52 * (y * pow2(k)) <= x < BIT_53 * (y * pow2(k)),
    ensures
        down_scale(y, x) == pow2(k),
    decreases k,
{
    lemma_pow2_pos(k);
    let p = pow2(k);
    if x < BIT_53 * y {
        assert(p < 2) by (nonlinear_arith)
            requires
                y > 0,
                BIT_52 * (y * p) <= x,
                x < BIT_53 * y,
                BIT_52 * 2 == BIT_53,
        ;
    } else {
        if k == 0 {
            lemma2_to64();
            assert(y * 1 == y);
        } else {
            lemma_pow2_unfold(k);
            let half = pow2((k - 1) as nat);
            assert((2 * y) * half == y * (2 * half)) by (nonlinear_arith);
            lemma_down_scale_is(2 * y, x, (k - 1) as nat);
        }
    }
}

/// The nearest quotient of a ratio below two to the power 53, by its
/// scale: where `2^k` brings `a / b` into the range of the significands,
/// the result is `a * 2^k / b` rounded, over `2^k`.
pub proof fn lemma_nearest_quotient_scaled_up(a: nat, b: nat, k: nat)
    requires
        a > 0,
        b > 0,
        BIT_52 * b <= a * pow2(k) < BIT_53 * b,
    ensures
        nearest_quotient(a, b) == (round_half_even(a * pow2(k), b), pow2(k)),
{
    lemma_up_scale_is(a, (BIT_52 * b) as nat, k);
    let x = a * pow2(k);
    assert(down_scale(b, x) == 1);
    assert(b * 1 == b);
    assert(round_half_even(x, b) * 1 == round_half_even(x, b));
}

/// The nearest quotient of a ratio of two to the power 52 or more, by its
/// scale: where `2^k` brings `a / b` down into the range of the
/// significands, the result is `a / (b * 2^k)` rounded, times `2^k`.
pub proof fn lemma_nearest_quotient_scaled_down(a: nat, b: nat, k: nat)
    requires
        a > 0,
        b > 0,
        BIT_52 * (b * pow2(k)) <= a < BIT_53 * (b * pow2(k)),
    ensures
        nearest_quotient(a, b) == (round_half_even(a, b * pow2(k)) * pow2(k), 1nat),
{
    lemma_pow2_pos(k);
    assert(b <= b * pow2(k)) by (nonlinear_arith)
        requires
            b > 0,
            pow2(k) >= 1,
    ;
    assert(up_scale(a, (BIT_52 * b) as nat) == 1);
    assert(a * 1 == a);
    lemma_down_scale_is(b, a, k);
}

/// The nearest count of 53 bits, by its scale: where `2^k` brings `n` down
/// into the range of the significands, the result is `n / 2^k` rounded,
/// times `2^k`.
pub proof fn lemma_nearest_count_scaled(n: nat, k: nat)
    requires
        BIT_52 * pow2(k) <= n < BIT_53 * pow2(k),
    ensures
        nearest_count(n) == round_half_even(n, pow2(k)) * pow2(k),
{
    assert(1 * pow2(k) == pow2(k));
    lemma_down_scale_is(1, n, k);
}

/// Computes `n / d` rounded to the nearest whole number, halves to even.
pub(crate) fn round_div(n: u128, d: u128) -> (r: u128)
    requires
        d > 0,
        n < 0x8000_0000_0000_0000_0000_0000_0000_0000,
        d < 0x8000_0000_0000_0000_0000_0000_0000_0000,
    ensures
        r == round_half_even(n as nat, d as nat),
{
    let q: u128 = n / d;
    let r: u128 = n % d;
    if 2 * r > d || (2 * r == d && q % 2 == 1) {
        q + 1
    } else {
        q
    }
}

/// Rounds a count to 53 significant bits.
pub(crate) fn round_count(n: u128) -> (r: u128)
    requires
        n <= usize::MAX,
    ensures
        r == nearest_count(n as nat),
        r < OPERAND_BOUND,
        n > 0 ==> r > 0,
{
    let mut u: u128 = 1;
    while n >= BIT_53 * u
        invariant
            n <= usize::MAX,
            u >= 1,
            u == 1 || BIT_52 * u <= n,
            down_scale(1, n as nat) == u * down_scale(u as nat, n as nat),
        decreases n - u,
    {
        proof {
            let inner = down_scale((2 * u) as nat, n as nat);
            assert(u * (2 * inner) == (2 * u) * inner) by (nonlinear_arith);
        }
        u = 2 * u;
    }
    let m: u128 = round_div(n, u);
    proof {
        let rest = down_scale(u as nat, n as nat);
        assert(u * rest == u) by (nonlinear_arith)
            requires
                rest == 1,
        ;
        lemma_round_half_even_nearest(n as nat, u as nat);
        assert(n / u < BIT_53) by (nonlinear_arith)
            requires
                u > 0,
                n < BIT_53 * u,
        ;
        if u == 1 {
            lemma_round_half_even_exact(n as nat, 1);
            assert((n as nat) * 1 == n as nat);
        } else {
            assert(n / u >= BIT_52) by (nonlinear_arith)
                requires
                    u > 0,
                    n >= BIT_52 * u,
            ;
        }
        assert(m * u <= BIT_53 * 4096) by (nonlinear_arith)
            requires
                m <= BIT_53,
                u <= 4096,
        ;
        assert(n > 0 ==> m * u > 0) by (nonlinear_arith)
            requires
                u >= 1,
                n > 0 ==> m > 0,
        ;
    }
    m * u
}

/// Computes the number with 53 significant bits nearest to `a / b`, as a
/// numerator over a power of two.
pub(crate) fn round_quotient(a: u128, b: u128) -> (r: (u128, u128))
    requires
        0 < b < OPERAND_BOUND,
        a < OPERAND_BOUND,
    ensures
        (r.0 as nat, r.1 as nat) == nearest_quotient(a as nat, b as nat),
        1 <= r.1 < 0x80_0000_0000_0000_0000_0000_0000_0000,
        r.0 <= 0x8_0000_0000_0000_0000,
{
    if a == 0 {
        return (0, 1);
    }
    let limit: u128 = BIT_52 * b;
    let mut x: u128 = a;
    let mut d: u128 = 1;
    while x < limit
        invariant
            a > 0,
            0 < b < OPERAND_BOUND,
            limit == BIT_52 * b,
            x == a * d,
            d >= 1,
            0 < x < 0x80_0000_0000_0000_0000_0000_0000_0000,
            d == 1 || x < 2 * limit,
            up_scale(a as nat, limit as nat) == d * up_scale(x as nat, limit as nat),
        decreases
                (if limit > x {
                    limit - x
                } else {
                    0
                }),
    {
        proof {
            let inner = up_scale((2 * x) as nat, limit as nat);
            assert(d * (2 * inner) == (2 * d) * inner) by (nonlinear_arith);
            assert(2 * (a * d) == a * (2 * d)) by (nonlinear_arith);
            assert(d <= a * d) by (nonlinear_arith)
                requires
                    a >= 1,
                    d >= 1,
            ;
        }
        x = 2 * x;
        d = 2 * d;
    }
    proof {
        assert(d <= a * d) by (nonlinear_arith)
            requires
                a >= 1,
                d >= 1,
        ;
    }
    let mut y: u128 = b;
    let mut u: u128 = 1;
    while x >= BIT_53 * y
        invariant
            0 < b < OPERAND_BOUND,
            a < OPERAND_BOUND,
            x == a * d,
            limit == BIT_52 * b,
            0 < x < 0x80_0000_0000_0000_0000_0000_0000_0000,
            y == b * u,
            u >= 1,
            y > 0,
            BIT_52 * y <= x,
            d == 1 || x < 2 * limit,
            u == 1 || d == 1,
            down_scale(b as nat, x as nat) == u * down_scale(y as nat, x as nat),
        decreases x - y,
    {
        proof {
            let inner = down_scale((2 * y) as nat, x as nat);
            assert(u * (2 * inner) == (2 * u) * inner) by (nonlinear_arith);
            assert(2 * (b * u) == b * (2 * u)) by (nonlinear_arith);
            assert(u <= b * u) by (nonlinear_arith)
                requires
                    b >= 1,
                    u >= 1,
            ;
        }
        y = 2 * y;
        u = 2 * u;
    }
    let m: u128 = round_div(x, y);
    proof {
        let up_rest = up_scale(x as nat, limit as nat);
        assert(d * up_rest == d) by (nonlinear_arith)
            requires
                up_rest == 1,
        ;
        let down_rest = down_scale(y as nat, x as nat);
        assert(u * down_rest == u) by (nonlinear_arith)
            requires
                down_rest == 1,
        ;
        lemma_round_half_even_nearest(x as nat, y as nat);
        assert(x / y < BIT_53) by (nonlinear_arith)
            requires
                y > 0,
                x < BIT_53 * y,
        ;
        assert(u <= b * u) by (nonlinear_arith)
            requires
                b >= 1,
                u >= 1,
        ;
        if d == 1 {
            assert(a * 1 == a) by (nonlinear_arith);
            assert(u <= 16384);
        }
        assert(m * u <= BIT_53 * 16384) by (nonlinear_arith)
            requires
                m <= BIT_53,
                u <= 16384,
        ;
    }
    (m * u, d)
}

} // verus!
