//! Canonical text renderer: the digits of a decimal significand and the
//! four layouts of ECMAScript's Number to String conversion.

use crate::policy::{
    lemma_pow10_values,
    pow10,
    remove_trailing_zeros,
    removed_zeros,
    trailing_zeros,
    MAX_REMOVED_ZEROS,
};
use vstd::arithmetic::div_mod::{
    lemma_div_denominator,
    lemma_fundamental_div_mod,
    lemma_mod_breakdown,
    lemma_mod_mod,
};
use vstd::bits::lemma_u64_shr_is_div;
use vstd::prelude::*;

verus! {

/// Longest canonical text of a finite double, without its sign.
pub const MAX_OUTPUT_STRING_LENGTH: usize = 25;

/// ASCII `'0'`.
pub const DIGIT_ZERO: u8 = 48;

/// ASCII `'.'`.
pub const DECIMAL_POINT: u8 = 46;

/// ASCII `'-'`.
pub const MINUS_SIGN: u8 = 45;

/// ASCII `'+'`.
pub const PLUS_SIGN: u8 = 43;

/// ASCII `'e'`.
pub const EXPONENT_MARK: u8 = 101;

/// ASCII code of the decimal digit `d` (`d < 10`).
pub open spec fn digit_char(d: nat) -> u8 {
    (48 + d) as u8
}

/// Decimal digits of `n`, most significant first, without leading zeros
/// (`"0"` for zero).
pub open spec fn digits_of(n: nat) -> Seq<u8>
    decreases n,
{
    if n < 10 {
        seq![digit_char(n)]
    } else {
        digits_of(n / 10).push(digit_char(n % 10))
    }
}

/// The last `w` decimal digits of `n`, with leading zeros where needed.
pub open spec fn padded(n: nat, w: nat) -> Seq<u8>
    decreases w,
{
    if w == 0 {
        Seq::empty()
    } else {
        padded(n / 10, (w - 1) as nat).push(digit_char(n % 10))
    }
}

/// `s` with `text` written over it from position `pos` on.
pub open spec fn splice(s: Seq<u8>, pos: int, text: Seq<u8>) -> Seq<u8> {
    s.subrange(0, pos) + text + s.subrange(pos + text.len(), s.len() as int)
}

/// Writing `a` at `pos` and then `b` just after it writes `a + b` at `pos`.
pub proof fn lemma_splice_concat(s: Seq<u8>, pos: int, a: Seq<u8>, b: Seq<u8>)
    requires
        0 <= pos,
        pos + a.len() + b.len() <= s.len(),
    ensures
        splice(splice(s, pos, a), pos + a.len(), b) == splice(s, pos, a + b),
{
    assert(splice(splice(s, pos, a), pos + a.len(), b) =~= splice(s, pos, a + b));
}

/// Peeling the last decimal digit off a quotient and a remainder.
proof fn lemma_div_mod_step(n: nat, p: nat)
    requires
        p > 0,
    ensures
        (n % (10 * p)) / 10 == (n / 10) % p,
        (n % (10 * p)) % 10 == n % 10,
        n / (10 * p) == (n / 10) / p,
{
    lemma_mod_breakdown(n as int, 10, p as int);
    lemma_mod_mod(n as int, 10, p as int);
    lemma_div_denominator(n as int, 10, p as int);
    lemma_fundamental_div_mod((n % (10 * p)) as int, 10);
}

/// The digits of `n` split before its last `b` digits.
pub proof fn lemma_digits_split(n: nat, b: nat)
    requires
        n >= pow10(b),
    ensures
        digits_of(n) == digits_of(n / pow10(b)) + padded(n % pow10(b), b),
    decreases b,
{
    if b == 0 {
        assert(pow10(0) == 1);
        assert(n / 1 == n && n % 1 == 0);
        assert(padded(n % pow10(b), b) =~= Seq::empty());
        assert(digits_of(n) =~= digits_of(n / pow10(b)) + padded(n % pow10(b), b));
    } else {
        let p = pow10((b - 1) as nat);
        crate::policy::lemma_pow10_positive((b - 1) as nat);
        assert(pow10(b) == 10 * p);
        assert(n >= 10) by (nonlinear_arith)
            requires
                n >= 10 * p,
                p > 0,
        ;
        assert(n / 10 >= p) by (nonlinear_arith)
            requires
                n >= 10 * p,
                p > 0,
        ;
        lemma_digits_split(n / 10, (b - 1) as nat);
        lemma_div_mod_step(n, p);
        assert(digits_of(n) =~= digits_of(n / pow10(b)) + padded(n % pow10(b), b));
    }
}

/// The last `a + b` digits of `n` split before the last `b`.
pub proof fn lemma_padded_split(n: nat, a: nat, b: nat)
    ensures
        padded(n, a + b) == padded(n / pow10(b), a) + padded(n % pow10(b), b),
    decreases b,
{
    if b == 0 {
        assert(pow10(0) == 1);
        assert(n / 1 == n && n % 1 == 0);
        assert(padded(n % pow10(b), b) =~= Seq::empty());
        assert(a + b == a);
        assert(padded(n, a + b) =~= padded(n / pow10(b), a) + padded(n % pow10(b), b));
    } else {
        let p = pow10((b - 1) as nat);
        crate::policy::lemma_pow10_positive((b - 1) as nat);
        assert(pow10(b) == 10 * p);
        lemma_padded_split(n / 10, a, (b - 1) as nat);
        lemma_div_mod_step(n, p);
        assert(padded(n, a + b) == padded(n / 10, (a + b - 1) as nat).push(digit_char(n % 10)));
        assert(padded(n, a + b) =~= padded(n / pow10(b), a) + padded(n % pow10(b), b));
    }
}

/// `padded(n, w)` has `w` digits.
pub proof fn lemma_padded_len(n: nat, w: nat)
    ensures
        padded(n, w).len() == w,
    decreases w,
{
    if w > 0 {
        lemma_padded_len(n / 10, (w - 1) as nat);
    }
}

/// With exactly `w` digits, `n` needs no padding.
pub proof fn lemma_digits_padded(n: nat, w: nat)
    requires
        w >= 1,
        pow10((w - 1) as nat) <= n < pow10(w),
    ensures
        digits_of(n) == padded(n, w),
    decreases w,
{
    let p = pow10((w - 1) as nat);
    assert(pow10(w) == 10 * p);
    if w == 1 {
        lemma_pow10_values();
        assert(n % 10 == n && n / 10 == 0);
        assert(padded(n, 1) == padded(n / 10, 0).push(digit_char(n % 10)));
        assert(digits_of(n) =~= padded(n, w));
    } else {
        crate::policy::lemma_pow10_positive((w - 2) as nat);
        assert(p == 10 * pow10((w - 2) as nat));
        assert(pow10((w - 2) as nat) <= n / 10 < p) by (nonlinear_arith)
            requires
                p == 10 * pow10((w - 2) as nat),
                p <= n < 10 * p,
        ;
        lemma_digits_padded(n / 10, (w - 1) as nat);
    }
}

/// `n` has `k` digits exactly when `10^(k-1) <= n < 10^k` (for `k >= 1`).
pub proof fn lemma_digits_len(n: nat)
    ensures
        digits_of(n).len() >= 1,
        forall|k: nat|
            k >= 1 && pow10((k - 1) as nat) <= n < #[trigger] pow10(k) ==> digits_of(n).len() == k,
        n < pow10(digits_of(n).len()),
        n == 0 || pow10((digits_of(n).len() - 1) as nat) <= n,
    decreases n,
{
    if n >= 10 {
        lemma_digits_len(n / 10);
        let j = digits_of(n / 10).len();
        assert(pow10(j + 1) == 10 * pow10(j));
        assert(n < pow10(j + 1)) by (nonlinear_arith)
            requires
                n / 10 < pow10(j),
                pow10(j + 1) == 10 * pow10(j),
        ;
        assert(pow10((j + 1 - 1) as nat) <= n) by (nonlinear_arith)
            requires
                pow10((j - 1) as nat) <= n / 10,
                pow10(j) == 10 * pow10((j - 1) as nat),
                j >= 1,
        ;
        assert forall|k: nat|
            k >= 1 && pow10((k - 1) as nat) <= n < #[trigger] pow10(k) implies digits_of(n).len()
            == k by {
            lemma_pow10_monotone_distinct(n, k, j + 1);
        }
    } else {
        lemma_pow10_values();
        assert forall|k: nat|
            k >= 1 && pow10((k - 1) as nat) <= n < #[trigger] pow10(k) implies digits_of(n).len()
            == k by {
            if k > 1 {
                crate::policy::lemma_pow10_monotone(1, (k - 1) as nat);
            }
        }
    }
}

/// Two digit counts that both fit `n` are the same.
proof fn lemma_pow10_monotone_distinct(n: nat, a: nat, b: nat)
    requires
        a >= 1,
        b >= 1,
        pow10((a - 1) as nat) <= n < pow10(a),
        pow10((b - 1) as nat) <= n < pow10(b),
    ensures
        a == b,
{
    if a < b {
        crate::policy::lemma_pow10_monotone(a, (b - 1) as nat);
    } else if b < a {
        crate::policy::lemma_pow10_monotone(b, (a - 1) as nat);
    }
}

/// Writes the two digits of `n` (`n < 100`), with a leading zero below ten.
fn convert_2_digits(n: u8, buffer: &mut [u8], pos: usize)
    requires
        n < 100,
        pos + 2 <= old(buffer).len(),
    ensures
        final(buffer)@.len() == old(buffer)@.len(),
        final(buffer)@ == splice(old(buffer)@, pos as int, padded(n as nat, 2)),
{
    buffer[pos] = DIGIT_ZERO + n / 10;
    buffer[pos + 1] = DIGIT_ZERO + n % 10;
    proof {
        let p = padded(n as nat, 2);
        assert(p == padded(n as nat / 10, 1).push(digit_char(n as nat % 10)));
        assert(padded(n as nat / 10, 1) == padded(n as nat / 100, 0).push(
            digit_char((n as nat / 10) % 10),
        ));
        assert(final(buffer)@ =~= splice(old(buffer)@, pos as int, p));
    }
}

/// Writes the digits of `n` (`n < 100`) without a leading zero; returns how
/// many it wrote.
fn convert_head_digits(n: u8, buffer: &mut [u8], pos: usize) -> (count: u8)
    requires
        n < 100,
        pos + 2 <= old(buffer).len(),
    ensures
        count as nat == digits_of(n as nat).len(),
        1 <= count <= 2,
        final(buffer)@.len() == old(buffer)@.len(),
        final(buffer)@ == splice(old(buffer)@, pos as int, digits_of(n as nat)),
{
    if n >= 10 {
        convert_2_digits(n, buffer, pos);
        proof {
            lemma_pow10_values();
            lemma_digits_padded(n as nat, 2);
            lemma_padded_len(n as nat, 2);
        }
        2
    } else {
        buffer[pos] = DIGIT_ZERO + n;
        proof {
            assert(final(buffer)@ =~= splice(old(buffer)@, pos as int, digits_of(n as nat)));
        }
        1
    }
}

/// The last `a + 2` digits of `n` split before the last two.
proof fn lemma_padded_pair(n: nat, a: nat)
    ensures
        padded(n, a + 2) == padded(n / 100, a) + padded(n % 100, 2),
{
    lemma_pow10_values();
    lemma_padded_split(n, a, 2);
}

/// `2^32`, the unit of the fixed-point fractions below.
pub open spec fn fixed_one() -> int {
    0x1_0000_0000
}

/// If `prod / 2^32` approximates `n / d` closely enough, its integer part is
/// `n / d` and its fraction part approximates `(n % d) / d` just as closely.
proof fn lemma_fixed_point_split(n: int, prod: int, d: int)
    requires
        n >= 0,
        prod >= 0,
        d >= 1,
        n * fixed_one() <= prod * d < (n + 1) * fixed_one(),
    ensures
        prod / fixed_one() == n / d,
        (n % d) * fixed_one() <= (prod % fixed_one()) * d < (n % d + 1) * fixed_one(),
{
    let f = fixed_one();
    let big_q = n / d;
    let r = n % d;
    let q = prod / f;
    let z = prod % f;
    lemma_fundamental_div_mod(n, d);
    lemma_fundamental_div_mod(prod, f);
    assert(n * f == big_q * d * f + r * f) by (nonlinear_arith)
        requires
            n == d * big_q + r,
    ;
    assert(prod * d == q * f * d + z * d) by (nonlinear_arith)
        requires
            prod == f * q + z,
    ;
    if q > big_q {
        assert(q * f * d >= big_q * d * f + d * f) by (nonlinear_arith)
            requires
                q >= big_q + 1,
                f > 0,
                d >= 1,
        ;
        assert((r + 1) * f <= d * f) by (nonlinear_arith)
            requires
                r + 1 <= d,
                f > 0,
        ;
        assert(z * d >= 0) by (nonlinear_arith)
            requires
                z >= 0,
                d >= 1,
        ;
        assert(false);
    }
    if q < big_q {
        assert(q * f * d + f * d <= big_q * d * f) by (nonlinear_arith)
            requires
                q + 1 <= big_q,
                f > 0,
                d >= 1,
        ;
        assert(z * d < f * d) by (nonlinear_arith)
            requires
                z < f,
                d >= 1,
        ;
        assert(r * f >= 0) by (nonlinear_arith)
            requires
                r >= 0,
                f > 0,
        ;
        assert(false);
    }
    assert(q == big_q);
    assert(q * f * d == big_q * d * f) by (nonlinear_arith)
        requires
            q == big_q,
    ;
}

/// Taking one more pair of digits from a fixed-point fraction: multiplying
/// by 100 moves the next two digits of `r` into the integer part.
proof fn lemma_fixed_point_pair(r: int, z: int, d: int)
    requires
        r >= 0,
        z >= 0,
        d >= 1,
        r * fixed_one() <= z * (100 * d) < (r + 1) * fixed_one(),
    ensures
        (100 * z) / fixed_one() == r / d,
        (r % d) * fixed_one() <= ((100 * z) % fixed_one()) * d < (r % d + 1) * fixed_one(),
{
    assert(z * (100 * d) == (100 * z) * d) by (nonlinear_arith);
    lemma_fixed_point_split(r, 100 * z, d);
}

/// The high and low halves of a 64-bit word as quotient and remainder.
proof fn lemma_split32(x: u64)
    ensures
        x >> 32u64 == x / 0x1_0000_0000,
        x & 0xFFFF_FFFFu64 == x % 0x1_0000_0000,
{
    assert(x >> 32u64 == x / 0x1_0000_0000 && x & 0xFFFF_FFFFu64 == x % 0x1_0000_0000)
        by (bit_vector);
}

/// `n % (a * b) / a == (n / a) % b`.
proof fn lemma_middle_digits(n: int, a: int, b: int)
    requires
        n >= 0,
        a > 0,
        b > 0,
    ensures
        (n % (a * b)) / a == (n / a) % b,
        (n % (a * b)) % a == n % a,
{
    lemma_mod_breakdown(n, a, b);
    lemma_mod_mod(n, a, b);
    lemma_fundamental_div_mod(n % (a * b), a);
    let m = n % (a * b);
    vstd::arithmetic::div_mod::lemma_mod_pos_bound(n, a);
    assert(m == a * ((n / a) % b) + n % a);
    vstd::arithmetic::mul::lemma_mul_is_commutative(a, (n / a) % b);
    vstd::arithmetic::div_mod::lemma_fundamental_div_mod_converse(
        m,
        a,
        (n / a) % b,
        n % a,
    );
}

/// Writes the last `2 * pairs` digits of `r`, two at a time, from a
/// fixed-point fraction `prod % 2^32` that approximates
/// `r / 10^(2 * pairs)`: each pair is the integer part after a
/// multiplication by 100.
fn convert_fraction_pairs(
    prod: u64,
    pairs: usize,
    Ghost(r): Ghost<nat>,
    buffer: &mut [u8],
    pos: usize,
)
    requires
        pairs <= 4,
        r < pow10(2 * pairs as nat),
        r * fixed_one() <= (prod as int % fixed_one()) * pow10(2 * pairs as nat) < (r + 1)
            * fixed_one(),
        pos + 2 * pairs <= old(buffer).len(),
    ensures
        final(buffer)@.len() == old(buffer)@.len(),
        final(buffer)@ == splice(old(buffer)@, pos as int, padded(r, 2 * pairs as nat)),
{
    let ghost b0 = buffer@;
    let mut prod = prod;
    let mut i: usize = 0;
    proof {
        assert(padded(r / pow10(2 * pairs as nat), 0) =~= Seq::<u8>::empty());
        assert(b0 =~= splice(b0, pos as int, Seq::<u8>::empty()));
        vstd::arithmetic::div_mod::lemma_small_mod(r, pow10(2 * pairs as nat));
        assert(pairs - 0 == pairs);
    }
    while i < pairs
        invariant
            pairs <= 4,
            i <= pairs,
            r < pow10(2 * pairs as nat),
            pos + 2 * pairs <= old(buffer).len(),
            b0 == old(buffer)@,
            buffer@.len() == b0.len(),
            ({
                let rest = r % pow10(2 * (pairs - i) as nat);
                rest * fixed_one() <= (prod as int % fixed_one()) * pow10(2 * (pairs - i) as nat)
                    < (rest + 1) * fixed_one()
            }),
            buffer@ == splice(
                b0,
                pos as int,
                padded(r / pow10(2 * (pairs - i) as nat), 2 * i as nat),
            ),
        decreases pairs - i,
    {
        let ghost j = (pairs - i - 1) as nat;
        let ghost dj = pow10(2 * j);
        let ghost rest = r % pow10(2 * (pairs - i) as nat);
        let ghost z = prod as int % fixed_one();
        proof {
            crate::policy::lemma_pow10_positive(2 * j);
            crate::policy::lemma_pow10_add(2, 2 * j);
            lemma_pow10_values();
            assert(2 * (pairs - i) as nat == 2 + 2 * j);
            assert(pow10(2 * (pairs - i) as nat) == 100 * dj);
            vstd::arithmetic::div_mod::lemma_mod_pos_bound(r as int, (100 * dj) as int);
            vstd::arithmetic::div_mod::lemma_mod_pos_bound(prod as int, fixed_one());
            lemma_fixed_point_pair(rest as int, z, dj as int);
            lemma_split32(prod);
        }
        prod = (prod & 0xFFFF_FFFF) * 100;
        proof {
            lemma_split32(prod);
        }
        let digits = (prod >> 32) as u8;
        proof {
            // the pair taken is digits 2j+1 and 2j of r, counted from the right
            lemma_middle_digits(r as int, dj as int, 100);
            vstd::arithmetic::mul::lemma_mul_is_commutative(dj as int, 100);
            lemma_mod_mod(r as int, dj as int, 100);
            assert(digits as int == (r / dj) % 100);
            assert(rest % dj == r % dj);
        }
        convert_2_digits(digits, buffer, pos + 2 * i);
        proof {
            let done = padded(r / (100 * dj), 2 * i as nat);
            lemma_padded_len(r / (100 * dj), 2 * i as nat);
            lemma_padded_len(digits as nat, 2);
            lemma_splice_concat(b0, pos as int, done, padded(digits as nat, 2));
            lemma_div_denominator(r as int, dj as int, 100);
            vstd::arithmetic::mul::lemma_mul_is_commutative(dj as int, 100);
            lemma_padded_pair(r / dj, 2 * i as nat);
            assert(2 * (pairs - (i + 1)) as nat == 2 * j);
            assert(2 * (i + 1) as nat == 2 * i as nat + 2);
        }
        i = i + 1;
    }
    proof {
        assert(pow10(0) == 1);
        assert(r / 1 == r);
    }
}

/// Writes the eight digits of `n` (`n < 10^8`), with leading zeros. The
/// digits come two at a time from the fixed-point fraction `n / 10^6`,
/// scaled by `2^32`, without a division.
fn convert_8_digits(n: u32, buffer: &mut [u8], pos: usize)
    requires
        n < 100_000_000,
        pos + 8 <= old(buffer).len(),
    ensures
        final(buffer)@.len() == old(buffer)@.len(),
        final(buffer)@ == splice(old(buffer)@, pos as int, padded(n as nat, 8)),
{
    let ghost b0 = buffer@;
    // 281474978 = ceil(2^48 / 1'000'000) + 1
    let mut prod: u64 = (n as u64) * 281474978;
    let ghost full = prod;
    prod = prod >> 16;
    proof {
        lemma_u64_shr_is_div(full, 16);
        vstd::arithmetic::power2::lemma2_to64();
    }
    prod = prod + 1;
    proof {
        lemma_scaled_7_to_8(n as int, true);
        lemma_fixed_point_split(n as int, prod as int, 1_000_000);
        lemma_split32(prod);
        lemma_pow10_values();
    }
    let head = (prod >> 32) as u8;
    convert_2_digits(head, buffer, pos);
    convert_fraction_pairs(prod, 3, Ghost((n % 1_000_000) as nat), buffer, pos + 2);
    proof {
        lemma_padded_len(head as nat, 2);
        lemma_padded_len((n % 1_000_000) as nat, 6);
        lemma_splice_concat(
            b0,
            pos as int,
            padded(head as nat, 2),
            padded((n % 1_000_000) as nat, 6),
        );
        lemma_padded_split(n as nat, 2, 6);
    }
}

/// `prod / 2^32` approximates `n / 10^6` from above closely enough, where
/// `prod = floor(n * 281474978 / 2^16)`, plus one when `plus_one`.
proof fn lemma_scaled_7_to_8(n: int, plus_one: bool)
    requires
        0 <= n < 100_000_000,
        !plus_one ==> n >= 1_000_000,
    ensures
        ({
            let prod = (n * 281474978) / 65536 + if plus_one {
                1int
            } else {
                0
            };
            &&& n * fixed_one() <= prod * 1_000_000 < (n + 1) * fixed_one()
            &&& prod < 0x1_0000_0000_0000_0000
        }),
{
    let full = n * 281474978;
    lemma_fundamental_div_mod(full, 65536);
    let g = full / 65536;
    assert(n * fixed_one() <= (g + 1) * 1_000_000 < (n + 1) * fixed_one()) by (nonlinear_arith)
        requires
            g * 65536 <= full < g * 65536 + 65536,
            full == n * 281474978,
            0 <= n < 100_000_000,
    ;
    if !plus_one {
        assert(n * fixed_one() <= g * 1_000_000) by (nonlinear_arith)
            requires
                g * 65536 <= full < g * 65536 + 65536,
                full == n * 281474978,
                n >= 1_000_000,
        ;
    }
}

/// Writes the digits of `n` (`n < 10^9`) without leading zeros; returns how
/// many it wrote. The leading one or two digits are the integer part of a
/// fixed-point approximation of `n / 10^(2k)`, the other `2k` digits come
/// from its fraction.
fn convert_up_to_9_digits(n: u32, buffer: &mut [u8], pos: usize) -> (count: u8)
    requires
        n < 1_000_000_000,
        pos + 9 <= old(buffer).len(),
    ensures
        count as nat == digits_of(n as nat).len(),
        1 <= count <= 9,
        final(buffer)@.len() == old(buffer)@.len(),
        final(buffer)@ == splice(old(buffer)@, pos as int, digits_of(n as nat)),
{
    let ghost b0 = buffer@;
    let ghost m = n as nat;
    proof {
        lemma_pow10_values();
    }
    if n >= 100_000_000 {
        // 9 digits.
        // 1441151882 = ceil(2^57 / 100'000'000) + 1
        let mut prod: u64 = (n as u64) * 1441151882;
        let ghost full = prod as int;
        prod = prod >> 25;
        proof {
            lemma_u64_shr_is_div(full as u64, 25);
            vstd::arithmetic::power2::lemma2_to64();
            lemma_fundamental_div_mod(full, 33554432);
            let g = prod as int;
            assert(m * fixed_one() <= g * 100_000_000 < (m + 1) * fixed_one()) by (nonlinear_arith)
                requires
                    g * 33554432 <= full < g * 33554432 + 33554432,
                    full == m * 1441151882,
                    100_000_000 <= m < 1_000_000_000,
            ;
            lemma_fixed_point_split(m as int, g, 100_000_000);
            lemma_split32(prod);
        }
        let head_digit = (prod >> 32) as u8;
        let ghost h = digits_of(head_digit as nat);
        buffer[pos] = DIGIT_ZERO + head_digit;
        proof {
            assert(buffer@ =~= splice(b0, pos as int, h));
        }
        convert_fraction_pairs(prod, 4, Ghost(m % 100_000_000), buffer, pos + 1);
        proof {
            lemma_padded_len(m % 100_000_000, 8);
            lemma_splice_concat(b0, pos as int, h, padded(m % 100_000_000, 8));
            lemma_digits_split(m, 8);
        }
        return 9;
    }
    if n >= 1_000_000 {
        // 7 or 8 digits.
        // 281474978 = ceil(2^48 / 1'000'000) + 1
        let mut prod: u64 = (n as u64) * 281474978;
        let ghost full = prod;
        prod = prod >> 16;
        proof {
            lemma_u64_shr_is_div(full, 16);
            vstd::arithmetic::power2::lemma2_to64();
            lemma_scaled_7_to_8(m as int, false);
            lemma_fixed_point_split(m as int, prod as int, 1_000_000);
            lemma_split32(prod);
        }
        let head_digits = (prod >> 32) as u8;
        let hc = convert_head_digits(head_digits, buffer, pos);
        convert_fraction_pairs(prod, 3, Ghost(m % 1_000_000), buffer, pos + hc as usize);
        proof {
            lemma_padded_len(m % 1_000_000, 6);
            lemma_splice_concat(
                b0,
                pos as int,
                digits_of(head_digits as nat),
                padded(m % 1_000_000, 6),
            );
            lemma_digits_split(m, 6);
        }
        return 6 + hc;
    }
    if n >= 10_000 {
        // 5 or 6 digits.
        // 429497 = ceil(2^32 / 10'000)
        let prod: u64 = (n as u64) * 429497;
        proof {
            assert(m * fixed_one() <= (prod as int) * 10_000 < (m + 1) * fixed_one())
                by (nonlinear_arith)
                requires
                    prod == m * 429497,
                    m < 1_000_000,
            ;
            lemma_fixed_point_split(m as int, prod as int, 10_000);
            lemma_split32(prod);
        }
        let head_digits = (prod >> 32) as u8;
        let hc = convert_head_digits(head_digits, buffer, pos);
        convert_fraction_pairs(prod, 2, Ghost(m % 10_000), buffer, pos + hc as usize);
        proof {
            lemma_padded_len(m % 10_000, 4);
            lemma_splice_concat(b0, pos as int, digits_of(head_digits as nat), padded(m % 10_000, 4));
            lemma_digits_split(m, 4);
        }
        return 4 + hc;
    }
    if n >= 100 {
        // 3 or 4 digits.
        // 42949673 = ceil(2^32 / 100)
        let prod: u64 = (n as u64) * 42949673;
        proof {
            assert(m * fixed_one() <= (prod as int) * 100 < (m + 1) * fixed_one())
                by (nonlinear_arith)
                requires
                    prod == m * 42949673,
                    m < 10_000,
            ;
            lemma_fixed_point_split(m as int, prod as int, 100);
            lemma_split32(prod);
        }
        let head_digits = (prod >> 32) as u8;
        let hc = convert_head_digits(head_digits, buffer, pos);
        convert_fraction_pairs(prod, 1, Ghost(m % 100), buffer, pos + hc as usize);
        proof {
            lemma_padded_len(m % 100, 2);
            lemma_splice_concat(b0, pos as int, digits_of(head_digits as nat), padded(m % 100, 2));
            lemma_digits_split(m, 2);
        }
        return 2 + hc;
    }
    // 1 or 2 digits.
    convert_head_digits(n as u8, buffer, pos)
}

/// Writes the digits of `n` (`n < 10^17`) without leading zeros; returns how
/// many it wrote.
fn significand_to_chars(n: u64, buffer: &mut [u8], pos: usize) -> (count: u8)
    requires
        n < 100_000_000_000_000_000,
        pos + 17 <= old(buffer).len(),
    ensures
        count as nat == digits_of(n as nat).len(),
        1 <= count <= 17,
        final(buffer)@.len() == old(buffer)@.len(),
        final(buffer)@ == splice(old(buffer)@, pos as int, digits_of(n as nat)),
{
    let ghost b0 = buffer@;
    proof {
        lemma_pow10_values();
        lemma_digits_len(n as nat);
    }
    if n >= 100_000_000 {
        let first_block = (n / 100_000_000) as u32;
        let second_block = (n % 100_000_000) as u32;
        let first_digits = convert_up_to_9_digits(first_block, buffer, pos);
        convert_8_digits(second_block, buffer, pos + first_digits as usize);
        proof {
            lemma_padded_len(second_block as nat, 8);
            lemma_splice_concat(
                b0,
                pos as int,
                digits_of(first_block as nat),
                padded(second_block as nat, 8),
            );
            lemma_digits_split(n as nat, 8);
        }
        first_digits + 8
    } else {
        convert_up_to_9_digits(n as u32, buffer, pos)
    }
}

/// `c` ASCII zeros.
pub open spec fn zeros(c: nat) -> Seq<u8> {
    Seq::new(c, |_i: int| DIGIT_ZERO)
}

/// `|e|`.
pub open spec fn magnitude(e: int) -> nat {
    if e >= 0 {
        e as nat
    } else {
        (-e) as nat
    }
}

/// The exponent part of the exponential layout: `e`, its sign, its digits.
pub open spec fn exponent_text(e: int) -> Seq<u8> {
    seq![EXPONENT_MARK, if e >= 0 { PLUS_SIGN } else { MINUS_SIGN }] + digits_of(magnitude(e))
}

/// The layout of the digit string `d` with its decimal point at `n`
/// (the value is `0.d * 10^n`), chosen as ECMAScript's Number to String
/// conversion chooses it.
pub open spec fn layout(d: Seq<u8>, n: int) -> Seq<u8> {
    let k = d.len() as int;
    if k <= n && n <= 21 {
        d + zeros((n - k) as nat)
    } else if 0 < n && n <= 21 {
        d.subrange(0, n) + seq![DECIMAL_POINT] + d.subrange(n, k)
    } else if -6 < n && n <= 0 {
        seq![DIGIT_ZERO, DECIMAL_POINT] + zeros((-n) as nat) + d
    } else if k == 1 {
        seq![d[0]] + exponent_text(n - 1)
    } else {
        seq![d[0], DECIMAL_POINT] + d.subrange(1, k) + exponent_text(n - 1)
    }
}

/// Position of the decimal point of `significand * 10^exponent` relative to
/// the significand's digits.
pub open spec fn decimal_point(significand: nat, exponent: int) -> int {
    digits_of(significand).len() + exponent
}

/// Canonical text of `significand * 10^exponent`.
pub open spec fn ecma_text(significand: nat, exponent: int) -> Seq<u8> {
    layout(digits_of(significand), decimal_point(significand, exponent))
}

/// The exponent of the exponential layout has at most three digits.
pub open spec fn exponent_fits(significand: nat, exponent: int) -> bool {
    -999 <= decimal_point(significand, exponent) - 1 <= 999
}

/// A number below `10^w` has at most `w` digits.
pub proof fn lemma_digits_len_bound(n: nat, w: nat)
    requires
        w >= 1,
        n < pow10(w),
    ensures
        digits_of(n).len() <= w,
{
    lemma_digits_len(n);
    let k = digits_of(n).len();
    if k > w {
        crate::policy::lemma_pow10_monotone(w, (k - 1) as nat);
        lemma_pow10_values();
    }
}

/// Every canonical text of a significand below `10^17` whose exponent fits
/// in three digits is at most 25 bytes long.
#[verifier::rlimit(30)]
pub proof fn lemma_text_len_bound(significand: nat, exponent: int)
    requires
        significand < pow10(17),
        exponent_fits(significand, exponent),
    ensures
        ecma_text(significand, exponent).len() <= 25,
{
    lemma_pow10_values();
    lemma_digits_len_bound(significand, 17);
    lemma_digits_len(significand);
    let n = decimal_point(significand, exponent);
    lemma_digits_len_bound(magnitude(n - 1), 3);
}

/// Writes the byte `b` at `pos`.
fn put_byte(b: u8, buffer: &mut [u8], pos: usize)
    requires
        pos + 1 <= old(buffer).len(),
    ensures
        final(buffer)@.len() == old(buffer)@.len(),
        final(buffer)@ == splice(old(buffer)@, pos as int, seq![b]),
{
    buffer[pos] = b;
    proof {
        assert(final(buffer)@ =~= splice(old(buffer)@, pos as int, seq![b]));
    }
}

/// Copies `count` bytes of `src`, from `from` on, to `pos`.
fn copy_bytes(src: &[u8], from: usize, count: usize, buffer: &mut [u8], pos: usize)
    requires
        from + count <= src@.len(),
        pos + count <= old(buffer).len(),
    ensures
        final(buffer)@.len() == old(buffer)@.len(),
        final(buffer)@ == splice(
            old(buffer)@,
            pos as int,
            src@.subrange(from as int, from + count),
        ),
{
    let mut i: usize = 0;
    while i < count
        invariant
            from + count <= src.len(),
            pos + count <= old(buffer).len(),
            i <= count,
            buffer@ == splice(old(buffer)@, pos as int, src@.subrange(from as int, from + i)),
        decreases count - i,
    {
        let ghost before = buffer@;
        buffer[pos + i] = src[from + i];
        proof {
            assert(buffer@ =~= splice(
                old(buffer)@,
                pos as int,
                src@.subrange(from as int, from + i + 1),
            ));
        }
        i = i + 1;
    }
}

/// Writes `count` ASCII zeros from `pos` on.
fn fill_zeros(count: usize, buffer: &mut [u8], pos: usize)
    requires
        pos + count <= old(buffer).len(),
    ensures
        final(buffer)@.len() == old(buffer)@.len(),
        final(buffer)@ == splice(old(buffer)@, pos as int, zeros(count as nat)),
{
    let mut i: usize = 0;
    while i < count
        invariant
            pos + count <= old(buffer).len(),
            i <= count,
            buffer@ == splice(old(buffer)@, pos as int, zeros(i as nat)),
        decreases count - i,
    {
        buffer[pos + i] = DIGIT_ZERO;
        proof {
            assert(buffer@ =~= splice(old(buffer)@, pos as int, zeros((i + 1) as nat)));
        }
        i = i + 1;
    }
}

/// Writes the digits of `exp` (`exp <= 999`) without leading zeros; returns
/// the position just past them.
fn add_exponent(exp: i32, buffer: &mut [u8], pos: usize) -> (end: usize)
    requires
        0 <= exp <= 999,
        pos + 3 <= old(buffer).len(),
    ensures
        end == pos + digits_of(exp as nat).len(),
        final(buffer)@.len() == old(buffer)@.len(),
        final(buffer)@ == splice(old(buffer)@, pos as int, digits_of(exp as nat)),
{
    let ghost b0 = buffer@;
    if exp >= 100 {
        let e = exp as u32;
        // 6554 = ceil(2^16 / 10)
        let d1 = (e * 6554) >> 16;
        assert(d1 == e / 10) by (bit_vector)
            requires
                e <= 999,
                d1 == ((e * 6554) as u32) >> 16,
        ;
        let d2 = e - 10 * d1;
        convert_2_digits(d1 as u8, buffer, pos);
        let last = DIGIT_ZERO + d2 as u8;
        put_byte(last, buffer, pos + 2);
        proof {
            lemma_pow10_values();
            lemma_digits_padded(d1 as nat, 2);
            lemma_padded_len(d1 as nat, 2);
            lemma_splice_concat(b0, pos as int, padded(d1 as nat, 2), seq![last]);
            assert(digits_of(exp as nat) =~= padded(d1 as nat, 2) + seq![last]);
        }
        pos + 3
    } else if exp >= 10 {
        convert_2_digits(exp as u8, buffer, pos);
        proof {
            lemma_pow10_values();
            lemma_digits_padded(exp as nat, 2);
            lemma_padded_len(exp as nat, 2);
        }
        pos + 2
    } else {
        let only = DIGIT_ZERO + exp as u8;
        put_byte(only, buffer, pos);
        proof {
            assert(digits_of(exp as nat) =~= seq![only]);
        }
        pos + 1
    }
}

/// Writes `d + zeros(n - k)`: all digits, then the zeros up to the point.
fn write_plain(rep: &[u8], k: usize, n: usize, buffer: &mut [u8], pos: usize) -> (end: usize)
    requires
        1 <= k <= n <= 21,
        k <= rep@.len(),
        pos + n <= old(buffer).len(),
    ensures
        end == pos + n,
        final(buffer)@.len() == old(buffer)@.len(),
        final(buffer)@ == splice(
            old(buffer)@,
            pos as int,
            rep@.subrange(0, k as int) + zeros((n - k) as nat),
        ),
{
    let ghost b0 = buffer@;
    copy_bytes(rep, 0, k, buffer, pos);
    fill_zeros(n - k, buffer, pos + k);
    proof {
        lemma_splice_concat(b0, pos as int, rep@.subrange(0, k as int), zeros((n - k) as nat));
    }
    pos + n
}

/// Writes the first `n` digits, the point, then the other digits.
fn write_fixed(rep: &[u8], k: usize, n: usize, buffer: &mut [u8], pos: usize) -> (end: usize)
    requires
        1 <= n < k <= rep@.len(),
        k <= 17,
        pos + k + 1 <= old(buffer).len(),
    ensures
        end == pos + k + 1,
        final(buffer)@.len() == old(buffer)@.len(),
        final(buffer)@ == splice(
            old(buffer)@,
            pos as int,
            rep@.subrange(0, n as int) + seq![DECIMAL_POINT] + rep@.subrange(n as int, k as int),
        ),
{
    let ghost b0 = buffer@;
    copy_bytes(rep, 0, n, buffer, pos);
    put_byte(DECIMAL_POINT, buffer, pos + n);
    copy_bytes(rep, n, k - n, buffer, pos + n + 1);
    proof {
        let a = rep@.subrange(0, n as int);
        lemma_splice_concat(b0, pos as int, a, seq![DECIMAL_POINT]);
        lemma_splice_concat(
            b0,
            pos as int,
            a + seq![DECIMAL_POINT],
            rep@.subrange(n as int, k as int),
        );
    }
    pos + k + 1
}

/// Writes `"0."`, `lead` zeros, then all digits.
fn write_small(rep: &[u8], k: usize, lead: usize, buffer: &mut [u8], pos: usize) -> (end: usize)
    requires
        1 <= k <= rep@.len(),
        k <= 17,
        lead < 6,
        pos + 2 + lead + k <= old(buffer).len(),
    ensures
        end == pos + 2 + lead + k,
        final(buffer)@.len() == old(buffer)@.len(),
        final(buffer)@ == splice(
            old(buffer)@,
            pos as int,
            seq![DIGIT_ZERO, DECIMAL_POINT] + zeros(lead as nat) + rep@.subrange(0, k as int),
        ),
{
    let ghost b0 = buffer@;
    put_byte(DIGIT_ZERO, buffer, pos);
    put_byte(DECIMAL_POINT, buffer, pos + 1);
    fill_zeros(lead, buffer, pos + 2);
    copy_bytes(rep, 0, k, buffer, pos + 2 + lead);
    proof {
        let head = seq![DIGIT_ZERO, DECIMAL_POINT];
        lemma_splice_concat(b0, pos as int, seq![DIGIT_ZERO], seq![DECIMAL_POINT]);
        assert(seq![DIGIT_ZERO] + seq![DECIMAL_POINT] =~= head);
        lemma_splice_concat(b0, pos as int, head, zeros(lead as nat));
        lemma_splice_concat(b0, pos as int, head + zeros(lead as nat), rep@.subrange(0, k as int));
    }
    pos + 2 + lead + k
}

/// The part of the exponential layout before its exponent.
pub open spec fn mantissa_text(d: Seq<u8>) -> Seq<u8> {
    if d.len() == 1 {
        seq![d[0]]
    } else {
        seq![d[0], DECIMAL_POINT] + d.subrange(1, d.len() as int)
    }
}

/// Writes the first digit, then `'.'` and the other digits if there are any,
/// then the exponent `exp`.
#[verifier::rlimit(30)]
fn write_exponential(rep: &[u8], k: usize, exp: i32, buffer: &mut [u8], pos: usize) -> (end:
    usize)
    requires
        1 <= k <= rep@.len(),
        k <= 17,
        -999 <= exp <= 999,
        pos + k + 6 <= old(buffer).len(),
    ensures
        end == pos + mantissa_text(rep@.subrange(0, k as int)).len() + exponent_text(
            exp as int,
        ).len(),
        final(buffer)@.len() == old(buffer)@.len(),
        final(buffer)@ == splice(
            old(buffer)@,
            pos as int,
            mantissa_text(rep@.subrange(0, k as int)) + exponent_text(exp as int),
        ),
{
    let ghost b0 = buffer@;
    let ghost d = rep@.subrange(0, k as int);
    let first = rep[0];
    put_byte(first, buffer, pos);
    let mut p = pos + 1;
    if k != 1 {
        put_byte(DECIMAL_POINT, buffer, p);
        copy_bytes(rep, 1, k - 1, buffer, p + 1);
        proof {
            lemma_splice_concat(b0, pos as int, seq![first], seq![DECIMAL_POINT]);
            assert(seq![first] + seq![DECIMAL_POINT] =~= seq![first, DECIMAL_POINT]);
            assert(rep@.subrange(1, k as int) =~= d.subrange(1, k as int));
            lemma_splice_concat(b0, pos as int, seq![first, DECIMAL_POINT], d.subrange(1, k as int));
        }
        p = p + k;
    }
    let ghost mantissa = mantissa_text(d);
    proof {
        assert(mantissa.len() == p - pos);
        assert(buffer@ == splice(b0, pos as int, mantissa));
    }
    let sign = if exp >= 0 {
        PLUS_SIGN
    } else {
        MINUS_SIGN
    };
    put_byte(EXPONENT_MARK, buffer, p);
    put_byte(sign, buffer, p + 1);
    let magnitude_value = if exp >= 0 {
        exp
    } else {
        -exp
    };
    let end = add_exponent(magnitude_value, buffer, p + 2);
    proof {
        let e = exp as int;
        assert(magnitude_value as nat == magnitude(e));
        lemma_splice_concat(b0, pos as int, mantissa, seq![EXPONENT_MARK]);
        lemma_splice_concat(b0, pos as int, mantissa + seq![EXPONENT_MARK], seq![sign]);
        lemma_splice_concat(
            b0,
            pos as int,
            mantissa + seq![EXPONENT_MARK] + seq![sign],
            digits_of(magnitude(e)),
        );
        assert(mantissa + seq![EXPONENT_MARK] + seq![sign] + digits_of(magnitude(e)) =~= mantissa
            + exponent_text(e));
    }
    end
}

/// Writes the canonical text of `significand * 10^exponent` at `pos` and
/// returns the position just past it.
pub fn to_chars_detail(significand: u64, exponent: i32, buffer: &mut [u8], pos: usize) -> (end:
    usize)
    requires
        significand < 100_000_000_000_000_000,
        exponent_fits(significand as nat, exponent as int),
        pos + MAX_OUTPUT_STRING_LENGTH <= old(buffer).len(),
    ensures
        end == pos + ecma_text(significand as nat, exponent as int).len(),
        final(buffer)@.len() == old(buffer)@.len(),
        final(buffer)@ == splice(
            old(buffer)@,
            pos as int,
            ecma_text(significand as nat, exponent as int),
        ),
{
    let mut decimal_rep = [0u8; 17];
    let length = significand_to_chars(significand, &mut decimal_rep, 0) as i32;
    let ghost d = digits_of(significand as nat);
    proof {
        lemma_pow10_values();
        lemma_text_len_bound(significand as nat, exponent as int);
        assert(decimal_rep@.subrange(0, length as int) =~= d);
    }
    let decimal_point = length + exponent;
    let k = length as usize;
    if length <= decimal_point && decimal_point <= 21 {
        write_plain(&decimal_rep, k, decimal_point as usize, buffer, pos)
    } else if 0 < decimal_point && decimal_point <= 21 {
        write_fixed(&decimal_rep, k, decimal_point as usize, buffer, pos)
    } else if decimal_point <= 0 && decimal_point > -6 {
        write_small(&decimal_rep, k, (-decimal_point) as usize, buffer, pos)
    } else {
        write_exponential(&decimal_rep, k, decimal_point - 1, buffer, pos)
    }
}

/// A decimal value `significand * 10^exponent`, as the shortest-decimal
/// search hands it over.
#[derive(Clone, Copy, Debug, PartialEq, Eq)]
pub struct Decimal {
    pub significand: u64,
    pub exponent: i32,
}

/// The significand once its trailing zeros are removed.
pub open spec fn reduced_significand(significand: nat) -> nat {
    significand / pow10(removed_zeros(significand))
}

/// The exponent that keeps the value once the significand is reduced.
pub open spec fn reduced_exponent(significand: nat, exponent: int) -> int {
    exponent + removed_zeros(significand)
}

/// What `to_chars` accepts: a nonzero significand below `10^17` whose
/// exponent, in the exponential layout, fits in three digits.
pub open spec fn valid_decimal(v: Decimal) -> bool {
    0 < v.significand < pow10(17) && exponent_fits(v.significand as nat, v.exponent as int)
}

/// Full text of a double: `"0"` for zero (`None`), else the sign, if
/// negative, and the canonical text of its reduced shortest decimal.
pub open spec fn number_text(negative: bool, value: Option<Decimal>) -> Seq<u8> {
    match value {
        None => seq![DIGIT_ZERO],
        Some(v) => {
            let s = v.significand as nat;
            (if negative {
                seq![MINUS_SIGN]
            } else {
                Seq::empty()
            }) + ecma_text(reduced_significand(s), reduced_exponent(s, v.exponent as int))
        },
    }
}

/// Appending `r` zeros to `m` adds `r` digits.
pub proof fn lemma_digits_shift(m: nat, r: nat)
    requires
        m > 0,
    ensures
        digits_of(m * pow10(r)).len() == digits_of(m).len() + r,
{
    let p = pow10(r);
    crate::policy::lemma_pow10_positive(r);
    assert(m * p >= p) by (nonlinear_arith)
        requires
            m >= 1,
            p > 0,
    ;
    lemma_digits_split(m * p, r);
    vstd::arithmetic::div_mod::lemma_div_multiples_vanish(m as int, p as int);
    vstd::arithmetic::div_mod::lemma_mod_multiples_basic(m as int, p as int);
    vstd::arithmetic::mul::lemma_mul_is_commutative(m as int, p as int);
    lemma_padded_len(0, r);
}

/// Removing trailing zeros moves the digits and the exponent together, so
/// the decimal point stays where it was.
pub proof fn lemma_reduction_keeps_point(significand: nat, exponent: int)
    requires
        0 < significand,
    ensures
        reduced_significand(significand) > 0,
        reduced_significand(significand) * pow10(removed_zeros(significand)) == significand,
        decimal_point(reduced_significand(significand), reduced_exponent(significand, exponent))
            == decimal_point(significand, exponent),
{
    let r = removed_zeros(significand);
    crate::policy::lemma_trailing_zeros_pow10(significand, r);
    crate::policy::lemma_pow10_positive(r);
    let m = reduced_significand(significand);
    lemma_fundamental_div_mod(significand as int, pow10(r) as int);
    vstd::arithmetic::mul::lemma_mul_is_commutative(m as int, pow10(r) as int);
    lemma_digits_shift(m, r);
}

/// After the reduction, the digit string does not end in `'0'`, unless the
/// significand ended in more zeros than one reduction removes.
pub proof fn lemma_reduced_has_no_trailing_zero(significand: nat)
    requires
        0 < significand,
        trailing_zeros(significand) <= MAX_REMOVED_ZEROS,
    ensures
        digits_of(reduced_significand(significand)).last() != DIGIT_ZERO,
{
    let r = removed_zeros(significand);
    crate::policy::lemma_trailing_zeros_pow10(significand, r);
    let m = reduced_significand(significand);
    assert(trailing_zeros(m) == 0);
    assert(m % 10 != 0);
    if m >= 10 {
        assert(digits_of(m).last() == digit_char(m % 10));
    }
}

/// Writes the full text of a double at `pos` and returns the position just
/// past it. `value` is `None` for zero, else the shortest decimal of the
/// double's magnitude, which is reduced here before it is rendered.
pub fn to_chars(negative: bool, value: Option<Decimal>, buffer: &mut [u8], pos: usize) -> (end:
    usize)
    requires
        pos + MAX_OUTPUT_STRING_LENGTH + 1 <= old(buffer).len(),
        value matches Some(v) ==> valid_decimal(v),
    ensures
        end == pos + number_text(negative, value).len(),
        end <= pos + MAX_OUTPUT_STRING_LENGTH + 1,
        final(buffer)@.len() == old(buffer)@.len(),
        final(buffer)@ == splice(old(buffer)@, pos as int, number_text(negative, value)),
{
    let ghost b0 = buffer@;
    match value {
        Some(v) => {
            let mut p = pos;
            if negative {
                put_byte(MINUS_SIGN, buffer, p);
                p = p + 1;
            }
            let ghost b1 = buffer@;
            let ghost sign: Seq<u8> = if negative {
                seq![MINUS_SIGN]
            } else {
                Seq::empty()
            };
            proof {
                if !negative {
                    assert(b1 =~= splice(b0, pos as int, sign));
                }
            }
            let mut significand = v.significand;
            let mut exponent = v.exponent;
            proof {
                lemma_pow10_values();
                lemma_digits_len(v.significand as nat);
                lemma_digits_len_bound(v.significand as nat, 17);
            }
            remove_trailing_zeros(&mut significand, &mut exponent);
            proof {
                let s = v.significand as nat;
                lemma_reduction_keeps_point(s, v.exponent as int);
                lemma_fundamental_div_mod(s as int, pow10(removed_zeros(s)) as int);
                vstd::arithmetic::div_mod::lemma_div_multiples_vanish(
                    significand as int,
                    pow10(removed_zeros(s)) as int,
                );
                vstd::arithmetic::mul::lemma_mul_is_commutative(
                    significand as int,
                    pow10(removed_zeros(s)) as int,
                );
                assert(significand as nat == reduced_significand(s));
                vstd::arithmetic::div_mod::lemma_div_is_ordered_by_denominator(
                    s as int,
                    1,
                    pow10(removed_zeros(s)) as int,
                );
            }
            let end = to_chars_detail(significand, exponent, buffer, p);
            proof {
                let s = v.significand as nat;
                let text = ecma_text(significand as nat, exponent as int);
                lemma_text_len_bound(significand as nat, exponent as int);
                lemma_splice_concat(b0, pos as int, sign, text);
            }
            end
        },
        None => {
            put_byte(DIGIT_ZERO, buffer, pos);
            pos + 1
        },
    }
}

} // verus!
