//! Powers of two and base-two logarithms.

use vstd::prelude::*;

verus! {

/// `2^e`.
pub open spec fn exp2(e: nat) -> nat
    decreases e,
{
    if e == 0 {
        1
    } else {
        2 * exp2((e - 1) as nat)
    }
}

/// Whether `n` is one of 1, 2, 4, 8, ...
pub open spec fn is_pow2(n: nat) -> bool
    decreases n,
{
    if n == 0 {
        false
    } else if n == 1 {
        true
    } else {
        n % 2 == 0 && is_pow2(n / 2)
    }
}

/// The base-two logarithm of `n`, rounded down (0 for 0 and 1).
pub open spec fn log2(n: nat) -> nat
    decreases n,
{
    if n <= 1 {
        0
    } else {
        1 + log2(n / 2)
    }
}

/// Tells whether `n` is a power of two.
pub fn is_power_of_two(n: u32) -> (r: bool)
    ensures
        r == is_pow2(n as nat),
{
    if n == 0 {
        return false;
    }
    let mut m: u32 = n;
    while m > 1 && m % 2 == 0
        invariant
            1 <= m <= n,
            is_pow2(m as nat) == is_pow2(n as nat),
        decreases m,
    {
        m = m / 2;
    }
    m == 1
}

/// A number below `2^b` has a logarithm below `b`.
pub proof fn lemma_log2_bound(n: nat, b: nat)
    requires
        n < exp2(b),
        b >= 1,
    ensures
        log2(n) < b,
    decreases b,
{
    if n > 1 {
        if b == 1 {
            assert(exp2(1) == 2) by { reveal_with_fuel(exp2, 2); }
        } else {
            lemma_log2_bound(n / 2, (b - 1) as nat);
        }
    }
}

/// The base-two logarithm of `n`, rounded down.
pub fn ilog2(n: u32) -> (r: u32)
    requires
        n >= 1,
    ensures
        r == log2(n as nat),
        r < 32,
{
    proof {
        assert(exp2(32) == 0x1_0000_0000) by { reveal_with_fuel(exp2, 33); }
        lemma_log2_bound(n as nat, 32);
    }
    let mut m: u32 = n;
    let mut k: u32 = 0;
    while m > 1
        invariant
            1 <= m <= n,
            k + log2(m as nat) == log2(n as nat),
            log2(n as nat) < 32,
        decreases m,
    {
        m = m / 2;
        k = k + 1;
    }
    k
}

/// `2^e` is at least 1.
pub proof fn lemma_exp2_positive(e: nat)
    ensures
        exp2(e) >= 1,
    decreases e,
{
    if e > 0 {
        lemma_exp2_positive((e - 1) as nat);
    }
}

/// `2^(a+c) = 2^a * 2^c`.
pub proof fn lemma_exp2_add(a: nat, c: nat)
    ensures
        exp2(a + c) == exp2(a) * exp2(c),
    decreases a,
{
    if a > 0 {
        lemma_exp2_add((a - 1) as nat, c);
        assert(((a - 1) as nat + c) as nat == (a + c - 1) as nat);
        assert(exp2(a + c) == 2 * exp2((a + c - 1) as nat));
        assert(exp2(a) == 2 * exp2((a - 1) as nat));
        assert(2 * (exp2((a - 1) as nat) * exp2(c)) == (2 * exp2((a - 1) as nat)) * exp2(c))
            by (nonlinear_arith);
    } else {
        assert(exp2(a) == 1);
        assert(a + c == c);
    }
}

/// A power of two is two raised to its logarithm.
pub proof fn lemma_pow2_exp2(n: nat)
    requires
        is_pow2(n),
    ensures
        n == exp2(log2(n)),
    decreases n,
{
    if n > 1 {
        lemma_pow2_exp2(n / 2);
    }
}

/// Dividing powers of two subtracts their exponents.
pub proof fn lemma_exp2_div(a: nat, c: nat)
    requires
        c <= a,
    ensures
        exp2(a) / exp2(c) == exp2((a - c) as nat),
        exp2(c) <= exp2(a),
{
    lemma_exp2_add((a - c) as nat, c);
    lemma_exp2_positive(c);
    lemma_exp2_positive((a - c) as nat);
    assert(((a - c) as nat + c) as nat == a);
    vstd::arithmetic::div_mod::lemma_fundamental_div_mod_converse(
        exp2(a) as int,
        exp2(c) as int,
        exp2((a - c) as nat) as int,
        0,
    );
    assert(exp2(c) <= exp2(a)) by (nonlinear_arith)
        requires
            exp2(a) == exp2((a - c) as nat) * exp2(c),
            exp2((a - c) as nat) >= 1,
    ;
}

/// A larger exponent gives at least twice the power.
pub proof fn lemma_exp2_monotone(a: nat, c: nat)
    requires
        c < a,
    ensures
        2 * exp2(c) <= exp2(a),
    decreases a,
{
    lemma_exp2_positive(c);
    if c + 1 < a {
        lemma_exp2_monotone((a - 1) as nat, c);
    }
}

/// Halving `n / 2^l` gives `n / 2^(l+1)`.
pub proof fn lemma_halve_level(n: nat, l: nat)
    ensures
        (n / exp2(l)) / 2 == n / exp2(l + 1),
{
    lemma_exp2_positive(l);
    vstd::arithmetic::div_mod::lemma_div_denominator(n as int, exp2(l) as int, 2);
    assert(exp2(l + 1) == exp2(l) * 2);
}

/// For powers of two `b <= n` and a level `l` at most `log2(b)`, the cells of side
/// `b / 2^l` in a row of `n / b` cells span `n / 2^l`.
pub proof fn lemma_level_scale(n: nat, b: nat, l: nat)
    requires
        is_pow2(n),
        is_pow2(b),
        b <= n,
        l <= log2(b),
    ensures
        (n / b) * (b / exp2(l)) == n / exp2(l),
        b / exp2(l) >= 1,
        n / exp2(l) >= 1,
        (n / b) * b == n,
{
    lemma_pow2_exp2(n);
    lemma_pow2_exp2(b);
    let s = log2(n);
    let k = log2(b);
    if k > s {
        lemma_exp2_monotone(k, s);
        lemma_exp2_positive(s);
    }
    assert(k <= s);
    lemma_exp2_div(s, k);
    lemma_exp2_div(k, l);
    lemma_exp2_div(s, l);
    lemma_exp2_add((s - k) as nat, (k - l) as nat);
    assert(((s - k) as nat + (k - l) as nat) as nat == (s - l) as nat);
    lemma_exp2_add((s - k) as nat, k);
    assert(((s - k) as nat + k) as nat == s);
    lemma_exp2_positive((k - l) as nat);
    lemma_exp2_positive((s - l) as nat);
}

/// The size of level `l` of a power-of-two `n`, for `l <= log2(n)`, is at least 1.
pub proof fn lemma_level_positive(n: nat, l: nat)
    requires
        is_pow2(n),
        l <= log2(n),
    ensures
        n / exp2(l) >= 1,
        n / exp2(l) <= n,
{
    lemma_pow2_exp2(n);
    lemma_exp2_div(log2(n), l);
    lemma_exp2_positive((log2(n) - l) as nat);
    lemma_exp2_positive(l);
    vstd::arithmetic::div_mod::lemma_div_is_ordered_by_denominator(n as int, 1, exp2(l) as int);
}

} // verus!
