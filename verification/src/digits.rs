//! Powers of ten and decimal digit counts: the arithmetic that placing a
//! decimal point rests on.

use vstd::prelude::*;

verus! {

/// Ten to the power `e`.
pub open spec fn pow10(e: nat) -> nat
    decreases e,
{
    if e == 0 {
        1
    } else {
        10 * pow10((e - 1) as nat)
    }
}

/// The absolute value of `x`.
pub open spec fn magnitude(x: int) -> nat {
    if x < 0 {
        (-x) as nat
    } else {
        x as nat
    }
}

/// How many decimal digits `n` is written with; zero is written with one.
pub open spec fn digit_count(n: nat) -> nat
    decreases n,
{
    if n < 10 {
        1
    } else {
        1 + digit_count(n / 10)
    }
}

pub proof fn lemma_pow10_positive(e: nat)
    ensures
        pow10(e) >= 1,
    decreases e,
{
    if e > 0 {
        lemma_pow10_positive((e - 1) as nat);
    }
}

pub proof fn lemma_pow10_adds(a: nat, b: nat)
    ensures
        pow10(a + b) == pow10(a) * pow10(b),
    decreases a,
{
    if a == 0 {
        assert(pow10(0) == 1);
        assert(1 * pow10(b) == pow10(b));
    } else {
        lemma_pow10_adds((a - 1) as nat, b);
        let x = pow10((a - 1) as nat);
        let y = pow10(b);
        assert(pow10(a + b) == 10 * pow10((a + b - 1) as nat));
        assert((a - 1) as nat + b == (a + b - 1) as nat);
        assert(10 * (x * y) == (10 * x) * y) by (nonlinear_arith);
    }
}

pub proof fn lemma_pow10_increases(a: nat, b: nat)
    requires
        a <= b,
    ensures
        pow10(a) <= pow10(b),
    decreases b,
{
    if a < b {
        lemma_pow10_increases(a, (b - 1) as nat);
        lemma_pow10_positive((b - 1) as nat);
    }
}

/// The powers of ten at the widths of the machine integers used here.
pub proof fn lemma_pow10_values()
    ensures
        pow10(1) == 10,
        pow10(4) == 10_000,
        pow10(5) == 100_000,
        pow10(18) == 1_000_000_000_000_000_000,
        pow10(19) == 10_000_000_000_000_000_000,
        pow10(20) == 100_000_000_000_000_000_000,
        pow10(28) == 10_000_000_000_000_000_000_000_000_000,
{
    reveal_with_fuel(pow10, 10);
    assert(pow10(9) == 1_000_000_000);
    assert(pow10(18) == 1_000_000_000 * pow10(9));
    assert(pow10(19) == 10 * pow10(18));
    assert(pow10(20) == 10 * pow10(19));
    assert(pow10(28) == 100_000_000 * pow10(20));
}

/// A number lies between the two powers of ten that its digit count names.
pub proof fn lemma_digit_count_bounds(n: nat)
    ensures
        digit_count(n) >= 1,
        n > 0 ==> pow10((digit_count(n) - 1) as nat) <= n,
        n < pow10(digit_count(n)),
    decreases n,
{
    if n >= 10 {
        lemma_digit_count_bounds(n / 10);
        let d = digit_count(n / 10);
        assert(digit_count(n) == d + 1);
        assert(pow10(d + 1) == 10 * pow10(d));
        assert(n < 10 * (n / 10) + 10);
        if d >= 1 {
            assert(pow10(d) == 10 * pow10((d - 1) as nat));
        }
    } else {
        assert(pow10(1) == 10 * pow10(0));
        assert(pow10(0) == 1);
    }
}

/// A number that 64 bits can hold is written with at most 19 digits.
pub proof fn lemma_digit_count_of_64_bits(n: nat)
    requires
        n <= 0x8000_0000_0000_0000,
    ensures
        1 <= digit_count(n) <= 19,
{
    lemma_digit_count_bounds(n);
    if digit_count(n) > 19 {
        lemma_pow10_increases(19, (digit_count(n) - 1) as nat);
        lemma_pow10_values();
    }
}

/// Ten to the power `e`, for the exponents whose power fits in 64 bits.
pub fn pow10_u64(e: u32) -> (r: u64)
    requires
        e <= 19,
    ensures
        r == pow10(e as nat),
{
    let mut r: u64 = 1;
    let mut i: u32 = 0;
    while i < e
        invariant
            i <= e <= 19,
            r == pow10(i as nat),
        decreases e - i,
    {
        proof {
            lemma_pow10_increases(i as nat, 18);
            lemma_pow10_values();
        }
        r = r * 10;
        i = i + 1;
    }
    r
}

/// Counts the decimal digits of `n`.
pub fn count_digits(n: u64) -> (r: u32)
    ensures
        r == digit_count(n as nat),
        1 <= r <= 20,
{
    let mut rest: u64 = n;
    let mut r: u32 = 1;
    proof {
        lemma_digit_count_bounds(n as nat);
        if digit_count(n as nat) > 20 {
            lemma_pow10_increases(20, (digit_count(n as nat) - 1) as nat);
            lemma_pow10_values();
        }
    }
    while rest >= 10
        invariant
            1 <= r,
            r + digit_count(rest as nat) == 1 + digit_count(n as nat),
            digit_count(n as nat) <= 20,
        decreases rest,
    {
        rest = rest / 10;
        r = r + 1;
    }
    r
}

} // verus!
