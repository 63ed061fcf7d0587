//! Powers of 16: the arithmetic of base-16 digits.

use vstd::prelude::*;

verus! {

/// `pow16(k)` is 16 to the `k`.
pub open spec fn pow16(k: nat) -> nat
    decreases k,
{
    if k == 0 {
        1
    } else {
        16 * pow16((k - 1) as nat)
    }
}

/// 16 to a power grows with the power.
pub proof fn lemma_pow16_monotone(a: nat, b: nat)
    requires
        a <= b,
    ensures
        1 <= pow16(a) <= pow16(b),
    decreases b,
{
    if a < b {
        lemma_pow16_monotone(a, (b - 1) as nat);
    } else if b > 0 {
        lemma_pow16_monotone((b - 1) as nat, (b - 1) as nat);
    }
}

/// The number of base-16 digits of `x`; none for 0.
pub open spec fn digits(x: nat) -> nat
    decreases x,
{
    if x == 0 {
        0
    } else {
        1 + digits(x / 16)
    }
}

/// The number of trailing zero base-16 digits of `x`.
pub open spec fn zero_digits(x: nat) -> nat
    decreases x,
{
    if x == 0 || x % 16 != 0 {
        0
    } else {
        1 + zero_digits(x / 16)
    }
}

/// A number below 16 to the `k` has at most `k` digits, and one of at least
/// 16 to the `k` has more.
pub proof fn lemma_digits_bound(x: nat, k: nat)
    ensures
        x < pow16(k) ==> digits(x) <= k,
        x >= pow16(k) ==> digits(x) > k,
    decreases x,
{
    lemma_pow16_monotone(0, k);
    if x > 0 {
        if k > 0 {
            let p = pow16((k - 1) as nat);
            assert(pow16(k) == 16 * p);
            assert(x < 16 * p ==> x / 16 < p) by (nonlinear_arith);
            assert(x >= 16 * p ==> x / 16 >= p) by (nonlinear_arith);
            lemma_digits_bound(x / 16, (k - 1) as nat);
        } else {
            assert(pow16(0) == 1);
        }
    }
}

pub proof fn lemma_pow16_eight()
    ensures
        pow16(8) == 0x1_0000_0000,
        pow16(7) == 0x1000_0000,
{
    reveal_with_fuel(pow16, 9);
}

/// A positive number has fewer trailing zero digits than digits.
pub proof fn lemma_zero_digits_below_digits(x: nat)
    requires
        x > 0,
    ensures
        zero_digits(x) < digits(x),
    decreases x,
{
    if x % 16 == 0 {
        lemma_zero_digits_below_digits(x / 16);
    }
}

/// `t ^ (t - 1)`, the bits of `t` up to its lowest set bit, has one digit more
/// than `t` has trailing zero digits.
pub proof fn lemma_xor_digits(t: u32)
    requires
        t > 0,
    ensures
        digits((t ^ ((t - 1) as u32)) as nat) == zero_digits(t as nat) + 1,
    decreases t,
{
    let d = t ^ ((t - 1) as u32);
    assert(t & 15 == t % 16) by (bit_vector);
    if t % 16 != 0 {
        assert(0 < d < 16) by (bit_vector)
            requires
                d == t ^ ((t - 1) as u32),
                t % 16 != 0,
        ;
        assert(digits((d / 16) as nat) == 0);
    } else {
        let u = t / 16;
        assert(u > 0 && d > 0 && d / 16 == u ^ ((u - 1) as u32)) by (bit_vector)
            requires
                d == t ^ ((t - 1) as u32),
                t % 16 == 0,
                t > 0,
                u == t / 16,
        ;
        lemma_xor_digits(u);
        assert((d as nat) / 16 == (d / 16) as nat);
    }
}

/// Shifting a 64-bit word right by `k` digits divides it by 16 to the `k`.
pub proof fn lemma_shift_digits_u64(x: u64, k: nat)
    requires
        k <= 15,
    ensures
        (x >> ((k * 4) as u64)) as nat == x as nat / pow16(k),
    decreases k,
{
    if k == 0 {
        assert(x >> 0u64 == x) by (bit_vector);
        assert(pow16(0) == 1);
        assert(x as nat / 1 == x as nat);
    } else {
        let j = (k - 1) as nat;
        lemma_shift_digits_u64(x, j);
        let s = (j * 4) as u64;
        assert(x >> ((s + 4) as u64) == (x >> s) >> 4u64) by (bit_vector)
            requires
                s <= 56,
        ;
        let y = x >> s;
        assert(y >> 4u64 == y / 16) by (bit_vector);
        lemma_pow16_monotone(0, j);
        vstd::arithmetic::div_mod::lemma_div_denominator(x as int, pow16(j) as int, 16);
        assert(pow16(k) == pow16(j) * 16);
        assert(((k * 4) as u64) == ((s + 4) as u64));
    }
}

/// Shifting a 32-bit word right by `k` digits divides it by 16 to the `k`.
pub proof fn lemma_shift_digits(x: u32, k: nat)
    requires
        k <= 7,
    ensures
        (x >> ((k * 4) as u32)) as nat == x as nat / pow16(k),
{
    lemma_shift_digits_u64(x as u64, k);
    let s = (k * 4) as u32;
    assert((x >> s) as u64 == (x as u64) >> (s as u64)) by (bit_vector)
        requires
            s <= 28,
    ;
    assert(((k * 4) as u64) == s as u64);
}

/// 16 to a sum of powers is the product of the powers.
pub proof fn lemma_pow16_add(a: nat, b: nat)
    ensures
        pow16(a + b) == pow16(a) * pow16(b),
    decreases b,
{
    if b > 0 {
        lemma_pow16_add(a, (b - 1) as nat);
        assert(pow16(a + b) == 16 * pow16((a + b - 1) as nat));
        assert(pow16(b) == 16 * pow16((b - 1) as nat));
        assert(16 * (pow16(a) * pow16((b - 1) as nat)) == pow16(a) * (16 * pow16((b - 1) as nat)))
            by (nonlinear_arith);
    } else {
        assert(pow16(0) == 1);
        assert(a + b == a);
        assert(pow16(a) * 1 == pow16(a));
    }
}

/// A lower power of 16 divides a higher one, and taking the remainder by
/// the higher first changes nothing.
pub proof fn lemma_pow16_divides(x: nat, a: nat, b: nat)
    requires
        a <= b,
    ensures
        pow16(b) % pow16(a) == 0,
        (x % pow16(b)) % pow16(a) == x % pow16(a),
{
    lemma_pow16_add(a, (b - a) as nat);
    lemma_pow16_monotone(0, a);
    lemma_pow16_monotone(0, (b - a) as nat);
    vstd::arithmetic::div_mod::lemma_mod_multiples_basic(pow16((b - a) as nat) as int, pow16(a) as int);
    assert(pow16(b) == pow16((b - a) as nat) * pow16(a)) by (nonlinear_arith)
        requires
            pow16(b) == pow16(a) * pow16((b - a) as nat),
    ;
    vstd::arithmetic::div_mod::lemma_mod_mod(x as int, pow16(a) as int, pow16((b - a) as nat) as int);
}

/// Taking away a multiple of a power of 16 keeps the remainder by any lower
/// power.
pub proof fn lemma_mod_drop_multiple(x: nat, d: nat, a: nat, b: nat)
    requires
        a <= b,
        x >= d * pow16(b),
    ensures
        ((x - d * pow16(b)) as nat) % pow16(a) == x % pow16(a),
{
    lemma_pow16_add(a, (b - a) as nat);
    lemma_pow16_monotone(0, a);
    let q = d * pow16((b - a) as nat);
    assert(d * pow16(b) == pow16(a) * q) by (nonlinear_arith)
        requires
            pow16(b) == pow16(a) * pow16((b - a) as nat),
            q == d * pow16((b - a) as nat),
    ;
    vstd::arithmetic::div_mod::lemma_mod_multiples_vanish(q as int, (x - d * pow16(b)) as int, pow16(a) as int);
}

/// A positive number is a multiple of 16 to the `k` exactly when it has at
/// least `k` trailing zero digits.
pub proof fn lemma_zero_digits(x: nat, k: nat)
    requires
        x > 0,
    ensures
        (x % pow16(k) == 0) == (k <= zero_digits(x)),
    decreases k,
{
    if k == 0 {
        assert(pow16(0) == 1);
    } else {
        let p = pow16((k - 1) as nat);
        lemma_pow16_monotone(0, (k - 1) as nat);
        assert(pow16(k) == 16 * p);
        vstd::arithmetic::div_mod::lemma_breakdown(x as int, 16, p as int);
        vstd::arithmetic::div_mod::lemma_mod_pos_bound(x as int, 16);
        vstd::arithmetic::div_mod::lemma_mod_pos_bound((x / 16) as int, p as int);
        if x % 16 == 0 {
            vstd::arithmetic::div_mod::lemma_fundamental_div_mod(x as int, 16);
            lemma_zero_digits(x / 16, (k - 1) as nat);
            let q = (x / 16) % p;
            assert(x % pow16(k) == 16 * q);
        } else {
            let q = (x / 16) % p;
            assert(x % pow16(k) == 16 * q + x % 16);
        }
    }
}

/// 16 to the `k` has exactly `k` trailing zero digits.
pub proof fn lemma_zero_digits_pow16(k: nat)
    ensures
        zero_digits(pow16(k)) == k,
{
    lemma_pow16_monotone(0, k);
    lemma_pow16_monotone(0, k + 1);
    assert(pow16(k) % pow16(k) == 0) by {
        vstd::arithmetic::div_mod::lemma_mod_self_0(pow16(k) as int);
    }
    lemma_zero_digits(pow16(k), k);
    lemma_zero_digits(pow16(k), k + 1);
    assert(pow16(k + 1) == 16 * pow16(k));
    vstd::arithmetic::div_mod::lemma_small_mod(pow16(k), pow16(k + 1));
}

/// A number below 16 to the `h` and at least 16 to the `h - 1` has `h`
/// digits.
pub proof fn lemma_digits_exact(x: nat, h: nat)
    requires
        h >= 1,
        pow16((h - 1) as nat) <= x < pow16(h),
    ensures
        digits(x) == h,
{
    lemma_digits_bound(x, h);
    lemma_digits_bound(x, (h - 1) as nat);
}
}
