//! Reduction policy: the tie-break rule of the shortest-decimal search and
//! the removal of trailing decimal zeros from its result.

use vstd::arithmetic::power2::{lemma_pow2_adds, pow2};
use vstd::arithmetic::div_mod::{
    lemma_div_multiples_vanish,
    lemma_fundamental_div_mod,
    lemma_mod_multiples_basic,
};
use vstd::arithmetic::mul::{lemma_mul_is_associative, lemma_mul_is_commutative};
use vstd::bits::{lemma_u64_shl_is_mul, lemma_u64_shr_is_div};
use vstd::prelude::*;

verus! {

/// `10^k`.
pub open spec fn pow10(k: nat) -> nat
    decreases k,
{
    if k == 0 {
        1
    } else {
        10 * pow10((k - 1) as nat)
    }
}

/// How many decimal zeros end `n` (none for zero).
pub open spec fn trailing_zeros(n: nat) -> nat
    decreases n,
{
    if n == 0 {
        0
    } else if n % 10 == 0 {
        1 + trailing_zeros(n / 10)
    } else {
        0
    }
}

/// Most trailing zeros that one reduction removes.
pub const MAX_REMOVED_ZEROS: u32 = 15;

/// How many zeros the reduction removes from `n`: all of them, up to the cap.
pub open spec fn removed_zeros(n: nat) -> nat {
    if trailing_zeros(n) < MAX_REMOVED_ZEROS {
        trailing_zeros(n)
    } else {
        MAX_REMOVED_ZEROS as nat
    }
}

/// `x` rotated right by `s` bits within 64 bits (`s < 64`).
pub open spec fn rotr_value(x: u64, s: nat) -> int {
    x as int / pow2(s) as int + (x as int % pow2(s) as int) * pow2((64 - s) as nat) as int
}

/// The powers of ten that the code spells out.
pub proof fn lemma_pow10_values()
    ensures
        pow10(0) == 1,
        pow10(1) == 10,
        pow10(2) == 100,
        pow10(3) == 1000,
        pow10(4) == 10000,
        pow10(5) == 100000,
        pow10(6) == 1000000,
        pow10(7) == 10000000,
        pow10(8) == 100000000,
        pow10(9) == 1000000000,
        pow10(16) == 10000000000000000,
        pow10(17) == 100000000000000000,
{
    reveal_with_fuel(pow10, 18);
}

/// `10^k` is positive.
pub proof fn lemma_pow10_positive(k: nat)
    ensures
        pow10(k) > 0,
    decreases k,
{
    if k > 0 {
        lemma_pow10_positive((k - 1) as nat);
    }
}

/// `10^k` grows with `k`.
pub proof fn lemma_pow10_monotone(a: nat, b: nat)
    requires
        a <= b,
    ensures
        pow10(a) <= pow10(b),
    decreases b,
{
    lemma_pow10_positive(b);
    if a < b {
        lemma_pow10_monotone(a, (b - 1) as nat);
    }
}

/// `n` is a multiple of `10^k` exactly when it ends in at least `k` zeros,
/// and dividing by `10^k` then takes `k` of them away.
pub proof fn lemma_trailing_zeros_pow10(n: nat, k: nat)
    requires
        n > 0,
    ensures
        (n % pow10(k) == 0) == (trailing_zeros(n) >= k),
        n % pow10(k) == 0 ==> n / pow10(k) > 0 && trailing_zeros(n / pow10(k)) == trailing_zeros(n)
            - k,
    decreases k,
{
    if k > 0 {
        let p = pow10((k - 1) as nat);
        lemma_pow10_positive((k - 1) as nat);
        assert(pow10(k) == 10 * p);
        if n % 10 == 0 {
            let m = n / 10;
            assert(n == 10 * m);
            assert(m > 0);
            lemma_trailing_zeros_pow10(m, (k - 1) as nat);
            lemma_fundamental_div_mod(m as int, p as int);
            lemma_fundamental_div_mod(n as int, (10 * p) as int);
            if m % p == 0 {
                let q = m / p;
                assert(n == q * (10 * p)) by {
                    lemma_mul_is_associative(10, p as int, q as int);
                    lemma_mul_is_commutative(q as int, (10 * p) as int);
                }
                lemma_mod_multiples_basic(q as int, (10 * p) as int);
                lemma_div_multiples_vanish(q as int, (10 * p) as int);
                lemma_mul_is_commutative(q as int, (10 * p) as int);
            }
            if n % (10 * p) == 0 {
                let big_q = n / (10 * p);
                lemma_mul_is_associative(10, p as int, big_q as int);
                assert(m == big_q * p) by {
                    lemma_mul_is_commutative(p as int, big_q as int);
                }
                lemma_mod_multiples_basic(big_q as int, p as int);
            }
        } else {
            if n % (10 * p) == 0 {
                lemma_fundamental_div_mod(n as int, (10 * p) as int);
                let big_q = n / (10 * p);
                lemma_mul_is_associative(10, p as int, big_q as int);
                lemma_mul_is_commutative(10, (p * big_q) as int);
                lemma_mod_multiples_basic((p * big_q) as int, 10);
            }
        }
    }
}

/// The divisibility test behind the reduction. With `inv` an inverse of
/// `5^k` modulo `2^(64-k)`, multiplying `s` by `inv` modulo `2^64` and
/// rotating right by `k` bits gives a value below `t` exactly when `10^k`
/// divides `s`, and that value is then `s / 10^k`. Here `two_k = 2^k`,
/// `two_rest = 2^(64-k)`, `five_k = 5^k` and `t = floor(2^64 / 10^k) + 1`.
proof fn lemma_divisibility_test(
    s: int,
    inv: int,
    two_k: int,
    two_rest: int,
    c2: int,
    five_k: int,
    a: int,
    t: int,
)
    requires
        0 <= s < two_k * two_rest,
        two_k >= 2,
        c2 >= 1,
        two_rest == two_k * c2,
        five_k >= 1,
        inv >= 0,
        a >= 0,
        inv * five_k == 1 + a * two_rest,
        1 <= t <= two_rest,
        (t - 1) * (two_k * five_k) < two_k * two_rest,
        t * (two_k * five_k) >= two_k * two_rest,
    ensures
        ({
            let m = (s * inv) % (two_k * two_rest);
            let r = m / two_k + (m % two_k) * two_rest;
            &&& (r < t) == (s % (two_k * five_k) == 0)
            &&& r < t ==> r == s / (two_k * five_k)
        }),
{
    let big = two_k * two_rest;
    let d = two_k * five_k;
    assert(two_rest > 0 && big > 0 && d > 0) by (nonlinear_arith)
        requires
            two_k >= 2,
            c2 >= 1,
            two_rest == two_k * c2,
            five_k >= 1,
            big == two_k * two_rest,
            d == two_k * five_k,
    ;
    assert(s * inv >= 0) by (nonlinear_arith)
        requires
            s >= 0,
            inv >= 0,
    ;
    let m = (s * inv) % big;
    let j = (s * inv) / big;
    lemma_fundamental_div_mod(s * inv, big);
    let hi = m / two_k;
    let lo = m % two_k;
    lemma_fundamental_div_mod(m, two_k);
    assert(hi >= 0) by {
        vstd::arithmetic::div_mod::lemma_div_pos_is_pos(m, two_k);
    }
    let r = hi + lo * two_rest;
    if s % d == 0 {
        let q = s / d;
        lemma_fundamental_div_mod(s, d);
        assert(s == d * q);
        assert(q < t) by (nonlinear_arith)
            requires
                s == d * q,
                s < big,
                t * d >= big,
                d > 0,
        ;
        let x = q * two_k;
        assert(q >= 0) by {
            vstd::arithmetic::div_mod::lemma_div_pos_is_pos(s, d);
        }
        assert(x * five_k == s) by (nonlinear_arith)
            requires
                x == q * two_k,
                s == (two_k * five_k) * q,
        ;
        assert(0 <= x < big) by (nonlinear_arith)
            requires
                x * five_k == s,
                0 <= s < big,
                five_k >= 1,
                q >= 0,
                two_k >= 2,
                x == q * two_k,
        ;
        assert(s * inv == x * (inv * five_k)) by (nonlinear_arith)
            requires
                x * five_k == s,
        ;
        assert(x * (1 + a * two_rest) == (q * a) * big + x) by (nonlinear_arith)
            requires
                x == q * two_k,
                big == two_k * two_rest,
        ;
        assert(s * inv == (q * a) * big + x);
        vstd::arithmetic::div_mod::lemma_fundamental_div_mod_converse(s * inv, big, q * a, x);
        assert(m == x);
        vstd::arithmetic::div_mod::lemma_fundamental_div_mod_converse(x, two_k, q, 0);
        assert(hi == q && lo == 0);
        assert(lo * two_rest == 0);
        assert(r == q);
    } else {
        if lo != 0 {
            vstd::arithmetic::mul::lemma_mul_inequality(1, lo, two_rest);
            assert(r >= t);
        } else {
            vstd::arithmetic::mul::lemma_mul_by_zero_is_zero(two_rest);
            assert(r == hi);
            if r < t {
                let u = s / two_k;
                let w = s % two_k;
                lemma_fundamental_div_mod(s, two_k);
                assert(m == two_k * r);
                assert(u >= 0) by {
                    vstd::arithmetic::div_mod::lemma_div_pos_is_pos(s, two_k);
                }
                // the product is a multiple of 2^k, so the low part w of s is too
                let e = j * two_rest + r - u * inv;
                assert(w * inv == two_k * e) by (nonlinear_arith)
                    requires
                        s * inv == big * j + m,
                        m == two_k * r,
                        big == two_k * two_rest,
                        s == two_k * u + w,
                        e == j * two_rest + r - u * inv,
                ;
                assert((w * inv) * five_k == w * (inv * five_k)) by (nonlinear_arith);
                assert(w * (1 + a * two_rest) == w + two_k * (w * a * c2)) by (nonlinear_arith)
                    requires
                        two_rest == two_k * c2,
                ;
                assert((two_k * e) * five_k == two_k * (e * five_k)) by (nonlinear_arith);
                assert(w == two_k * (e * five_k) - two_k * (w * a * c2));
                assert(two_k * (e * five_k) - two_k * (w * a * c2) == two_k * (e * five_k - w * a * c2))
                    by (nonlinear_arith);
                let f = e * five_k - w * a * c2;
                assert(w == 0) by (nonlinear_arith)
                    requires
                        w == two_k * f,
                        0 <= w < two_k,
                ;
                assert(s == two_k * u);
                assert(two_k * (u * inv) == two_k * (j * two_rest + r)) by (nonlinear_arith)
                    requires
                        s * inv == big * j + m,
                        m == two_k * r,
                        big == two_k * two_rest,
                        s == two_k * u,
                ;
                assert(u * inv == j * two_rest + r) by (nonlinear_arith)
                    requires
                        two_k * (u * inv) == two_k * (j * two_rest + r),
                        two_k >= 2,
                ;
                assert((u * inv) * five_k == u * (inv * five_k)) by (nonlinear_arith);
                assert(u * (1 + a * two_rest) == u + two_rest * (u * a)) by (nonlinear_arith);
                assert((j * two_rest + r) * five_k == two_rest * (j * five_k) + r * five_k) by (nonlinear_arith);
                assert(u - r * five_k == two_rest * (j * five_k) - two_rest * (u * a));
                assert(two_rest * (j * five_k) - two_rest * (u * a) == two_rest * (j * five_k - u * a))
                    by (nonlinear_arith);
                let g = j * five_k - u * a;
                assert(0 <= u < two_rest) by (nonlinear_arith)
                    requires
                        s == two_k * u,
                        0 <= s < two_k * two_rest,
                        two_k >= 2,
                ;
                assert(0 <= r * five_k < two_rest) by (nonlinear_arith)
                    requires
                        0 <= r < t,
                        (t - 1) * (two_k * five_k) < two_k * two_rest,
                        five_k >= 1,
                        two_k >= 2,
                ;
                assert(u == r * five_k) by (nonlinear_arith)
                    requires
                        u - r * five_k == two_rest * g,
                        0 <= u < two_rest,
                        0 <= r * five_k < two_rest,
                ;
                assert(s == r * d) by (nonlinear_arith)
                    requires
                        s == two_k * u,
                        u == r * five_k,
                        d == two_k * five_k,
                ;
                vstd::arithmetic::div_mod::lemma_mod_multiples_basic(r, d);
            }
        }
    }
}

/// Tie-break rule of the shortest-decimal search: on a tie between two
/// candidates, the lower one is preferred exactly when the binary
/// significand is odd.
pub fn prefer_round_down(significand: u64) -> (r: bool)
    ensures
        r == (significand % 2 == 1),
{
    significand % 2 != 0
}

/// One round of the reduction tests `10^k` for `k` in 8, 4, 2, 1 with the
/// inverse `inv` of `5^k` modulo `2^(64-k)` and the bound
/// `t = floor(2^64 / 10^k) + 1`.
pub open spec fn round_constants(k: nat, inv: u64, t: u64) -> bool {
    ||| k == 8 && inv == 28999941890838049 && t == 184467440738
    ||| k == 4 && inv == 182622766329724561 && t == 1844674407370956
    ||| k == 2 && inv == 10330176681277348905 && t == 184467440737095517
    ||| k == 1 && inv == 14757395258967641293 && t == 1844674407370955162
}

/// With the constants of a round, the multiply-and-rotate value is below
/// the bound exactly when `10^k` divides `s`, and is then `s / 10^k`.
proof fn lemma_round_test(s: u64, k: nat, inv: u64, t: u64)
    requires
        round_constants(k, inv, t),
    ensures
        ({
            let r = rotr_value(s.wrapping_mul(inv), k);
            &&& (r < t) == (s as nat % pow10(k) == 0)
            &&& r < t ==> r == s as nat / pow10(k)
        }),
{
    vstd::arithmetic::power2::lemma2_to64();
    vstd::arithmetic::power2::lemma2_to64_rest();
    lemma_pow10_values();
    let m = s.wrapping_mul(inv);
    assert(m == (s * inv) % 0x1_0000_0000_0000_0000);
    if k == 8 {
        lemma_divisibility_test(
            s as int,
            inv as int,
            256,
            72057594037927936,
            281474976710656,
            390625,
            157209,
            t as int,
        );
    } else if k == 4 {
        lemma_divisibility_test(
            s as int,
            inv as int,
            16,
            1152921504606846976,
            72057594037927936,
            625,
            99,
            t as int,
        );
    } else if k == 2 {
        lemma_divisibility_test(
            s as int,
            inv as int,
            4,
            4611686018427387904,
            1152921504606846976,
            25,
            56,
            t as int,
        );
    } else {
        lemma_divisibility_test(
            s as int,
            inv as int,
            2,
            9223372036854775808,
            4611686018427387904,
            5,
            8,
            t as int,
        );
    }
}

/// Removes the trailing decimal zeros of `significand`, up to fifteen of
/// them, and adds their count to `exponent`, so that
/// `significand * 10^exponent` keeps its value. Four rounds test for 8, 4,
/// 2 and 1 zeros, each by a multiplication modulo `2^64` and a rotation.
pub fn remove_trailing_zeros(significand: &mut u64, exponent: &mut i32)
    requires
        0 < *old(significand) < 100000000000000000,
        *old(exponent) <= i32::MAX - MAX_REMOVED_ZEROS,
    ensures
        *final(exponent) == *old(exponent) + removed_zeros(*old(significand) as nat),
        *final(significand) as nat * pow10(removed_zeros(*old(significand) as nat))
            == *old(significand) as nat,
        *final(significand) > 0,
        trailing_zeros(*final(significand) as nat) == trailing_zeros(*old(significand) as nat)
            - removed_zeros(*old(significand) as nat),
{
    proof {
        lemma_pow10_values();
    }
    let ghost orig = *significand as nat;

    proof {
        lemma_round_test(*significand, 8, 28999941890838049, 184467440738);
        lemma_trailing_zeros_pow10(*significand as nat, 8);
    }
    let mut r = rotr64(significand.wrapping_mul(28999941890838049), 8);
    let mut b = r < 184467440738;
    let mut s: i32 = if b {
        1
    } else {
        0
    };
    *significand = if b {
        r
    } else {
        *significand
    };
    let ghost after8 = *significand as nat;
    let ghost s_8 = 8 * s;
    proof {
        lemma_round(orig, orig, after8, 0, 8, s_8 as nat);
        lemma_round_test(*significand, 4, 182622766329724561, 1844674407370956);
        lemma_trailing_zeros_pow10(*significand as nat, 4);
    }

    r = rotr64(significand.wrapping_mul(182622766329724561), 4);
    b = r < 1844674407370956;
    s = s * 2 + if b {
        1
    } else {
        0
    };
    *significand = if b {
        r
    } else {
        *significand
    };
    let ghost after4 = *significand as nat;
    let ghost s_4 = 4 * s;
    proof {
        lemma_round(orig, after8, after4, s_8 as nat, 4, s_4 as nat);
        lemma_round_test(*significand, 2, 10330176681277348905, 184467440737095517);
        lemma_trailing_zeros_pow10(*significand as nat, 2);
    }

    r = rotr64(significand.wrapping_mul(10330176681277348905), 2);
    b = r < 184467440737095517;
    s = s * 2 + if b {
        1
    } else {
        0
    };
    *significand = if b {
        r
    } else {
        *significand
    };
    let ghost after2 = *significand as nat;
    let ghost s_2 = 2 * s;
    proof {
        lemma_round(orig, after4, after2, s_4 as nat, 2, s_2 as nat);
        lemma_round_test(*significand, 1, 14757395258967641293, 1844674407370955162);
        lemma_trailing_zeros_pow10(*significand as nat, 1);
    }

    r = rotr64(significand.wrapping_mul(14757395258967641293), 1);
    b = r < 1844674407370955162;
    s = s * 2 + if b {
        1
    } else {
        0
    };
    *significand = if b {
        r
    } else {
        *significand
    };
    let ghost after1 = *significand as nat;
    proof {
        lemma_round(orig, after2, after1, s_2 as nat, 1, s as nat);
        assert(trailing_zeros(after1) == trailing_zeros(orig) - s);
        assert(s as nat == removed_zeros(orig));
    }
    *exponent += s;
}

/// `10^(a+b) == 10^a * 10^b`.
pub proof fn lemma_pow10_add(a: nat, b: nat)
    ensures
        pow10(a + b) == pow10(a) * pow10(b),
    decreases a,
{
    if a == 0 {
        assert(pow10(a) == 1);
        assert(a + b == b);
    } else {
        lemma_pow10_add((a - 1) as nat, b);
        assert(pow10(a) == 10 * pow10((a - 1) as nat));
        assert(pow10(a + b) == 10 * pow10((a - 1 + b) as nat));
        lemma_mul_is_associative(10, pow10((a - 1) as nat) as int, pow10(b) as int);
    }
}

/// One round of the reduction: dividing by `10^k` when it divides keeps
/// `value * 10^removed` equal to the starting significand.
proof fn lemma_round(orig: nat, before: nat, after: nat, s_before: nat, k: nat, s_after: nat)
    requires
        before * pow10(s_before) == orig,
        (after == before && s_after == s_before) || (after * pow10(k) == before && s_after
            == s_before + k),
    ensures
        after * pow10(s_after) == orig,
{
    if s_after != s_before || after != before {
        lemma_pow10_add(k, s_before);
        assert(after * (pow10(k) * pow10(s_before)) == (after * pow10(k)) * pow10(s_before))
            by (nonlinear_arith);
    }
}

/// Rotates `n` right by `r` bits (taken modulo 64).
pub fn rotr64(n: u64, r: u32) -> (res: u64)
    ensures
        res as int == rotr_value(n, (r % 64) as nat),
{
    let s = r & 63;
    assert(s == r % 64 && s < 64 && ((64 - s) as u32) & 63 < 64) by (bit_vector)
        requires
            s == r & 63,
    ;
    let l = (64 - s) & 63;
    let res = (n >> s) | (n << l);
    proof {
        if s == 0 {
            assert(l == 0) by (bit_vector)
                requires
                    s == 0,
                    l == ((64 - s) as u32) & 63,
            ;
            assert(res == n) by (bit_vector)
                requires
                    s == 0,
                    l == 0,
                    res == (n >> s) | (n << l),
            ;
            vstd::arithmetic::power2::lemma2_to64();
            assert(n as int / 1 == n as int && n as int % 1 == 0);
            assert(res as int == rotr_value(n, s as nat));
        } else {
            let sh = s as u64;
            assert(l == 64 - s) by (bit_vector)
                requires
                    1 <= s < 64,
                    l == ((64 - s) as u32) & 63,
            ;
            let hi = n >> sh;
            let lo = (n - ((n >> sh) << sh)) as u64;
            let lw = (64 - sh) as u64;
            assert(lo < (1u64 << sh) && n >> sh << sh <= n && (n << lw) == lo << lw && res == hi + (
            lo << lw)) by (bit_vector)
                requires
                    1 <= sh < 64,
                    lw == 64 - sh,
                    sh == s,
                    hi == n >> sh,
                    lo == (n - ((n >> sh) << sh)) as u64,
                    l == 64 - s,
                    res == (n >> s) | (n << l),
            ;
            lemma_u64_shr_is_div(n, sh);
            vstd::arithmetic::power2::lemma_pow2_pos(sh as nat);
            lemma_fundamental_div_mod(n as int, pow2(sh as nat) as int);
            lemma_u64_shl_is_mul(hi, sh);
            vstd::bits::lemma_u64_pow2_no_overflow(sh as nat);
            lemma_u64_shl_is_mul(1, sh);
            lemma_pow2_adds(sh as nat, (64 - sh) as nat);
            vstd::arithmetic::power2::lemma2_to64();
            assert(lo * pow2((64 - sh) as nat) <= u64::MAX) by (nonlinear_arith)
                requires
                    lo < pow2(sh as nat),
                    pow2(sh as nat) * pow2((64 - sh) as nat) == 0x1_0000_0000_0000_0000int,
            ;
            lemma_u64_shl_is_mul(lo, (64 - sh) as u64);
            assert(hi == n as int / pow2(s as nat) as int);
            assert(lo == n as int % pow2(s as nat) as int);
            assert(res as int == rotr_value(n, s as nat));
        }
    }
    res
}

} // verus!
