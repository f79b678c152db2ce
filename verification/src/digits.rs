//! Decimal digit sequences and their numeric values.
//!
//! A JSON number is a string of decimal digits with an optional sign,
//! decimal point and exponent. The parser reasons about the number it
//! denotes through `digits_val`, the integer written by a digit string,
//! and `pow10`, the powers of ten that scale it.

use vstd::prelude::*;

verus! {

use vstd::arithmetic::power::{lemma_pow0, lemma_pow1, lemma_pow_adds, lemma_pow_positive, pow};
use vstd::arithmetic::mul::{lemma_mul_inequality, lemma_mul_is_associative};
use vstd::arithmetic::div_mod::{
    lemma_fundamental_div_mod,
    lemma_mod_multiples_basic,
    lemma_mod_multiples_vanish,
    lemma_small_mod,
    lemma_truncate_middle,
};

/// Ten raised to `n`.
pub open spec fn pow10(n: nat) -> int {
    pow(10, n)
}

/// `c` is the byte of a decimal digit, `'0'` through `'9'`.
pub open spec fn is_digit(c: u8) -> bool {
    0x30 <= c <= 0x39
}

/// Every byte of `s` is a decimal digit.
pub open spec fn all_digits(s: Seq<u8>) -> bool {
    forall|i: int| 0 <= i < s.len() ==> is_digit(#[trigger] s[i])
}

/// The integer written by the digit string `s`, most significant digit
/// first. The empty string writes zero.
pub open spec fn digits_val(s: Seq<u8>) -> int
    decreases s.len(),
{
    if s.len() == 0 {
        0
    } else {
        digits_val(s.drop_last()) * 10 + (s.last() - 0x30)
    }
}

pub proof fn lemma_pow10_pos(n: nat)
    ensures
        pow10(n) >= 1,
{
    lemma_pow_positive(10, n);
}

pub proof fn lemma_pow10_adds(a: nat, b: nat)
    ensures
        pow10(a + b) == pow10(a) * pow10(b),
{
    lemma_pow_adds(10, a, b);
}

/// Every digit of `s` from position `m` on is `'0'`, so `s` writes the
/// number written by its first `m` digits, scaled by a power of ten.
pub proof fn lemma_digits_trailing_zeros(s: Seq<u8>, m: int)
    requires
        0 <= m <= s.len(),
        forall|i: int| m <= i < s.len() ==> #[trigger] s[i] == 0x30,
    ensures
        digits_val(s) == digits_val(s.subrange(0, m)) * pow10((s.len() - m) as nat),
    decreases s.len() - m,
{
    if m == s.len() {
        assert(s.subrange(0, m) =~= s);
        assert(pow10(0) == 1) by { lemma_pow0(10); }
    } else {
        let t = s.drop_last();
        lemma_digits_trailing_zeros(t, m);
        assert(t.subrange(0, m) =~= s.subrange(0, m));
        lemma_pow10_adds((s.len() - 1 - m) as nat, 1);
        assert(pow10(1) == 10) by { lemma_pow1(10); }
        lemma_mul_is_associative(digits_val(s.subrange(0, m)), pow10((s.len() - 1 - m) as nat), 10);
    }
}

/// Leading `'0'` digits do not change the number a digit string writes.
pub proof fn lemma_digits_leading_zeros(s: Seq<u8>, k: int)
    requires
        0 <= k <= s.len(),
        forall|i: int| 0 <= i < k ==> #[trigger] s[i] == 0x30,
    ensures
        digits_val(s) == digits_val(s.subrange(k, s.len() as int)),
    decreases s.len(),
{
    if s.len() == k {
        lemma_digits_trailing_zeros(s, 0);
        assert(s.subrange(0, 0) =~= Seq::<u8>::empty());
        assert(s.subrange(k, s.len() as int) =~= Seq::<u8>::empty());
    } else {
        let t = s.drop_last();
        lemma_digits_leading_zeros(t, k);
        assert(t.subrange(k, t.len() as int) =~= s.subrange(k, s.len() as int).drop_last());
        assert(s.subrange(k, s.len() as int).last() == s.last());
    }
}

/// A digit string of length `n` writes a number in `[0, pow10(n))`.
pub proof fn lemma_digits_val_bounds(s: Seq<u8>)
    requires
        all_digits(s),
    ensures
        0 <= digits_val(s) < pow10(s.len()),
    decreases s.len(),
{
    if s.len() == 0 {
        assert(pow10(0) == 1) by { lemma_pow0(10); }
    } else {
        let t = s.drop_last();
        lemma_digits_val_bounds(t);
        lemma_pow10_adds((s.len() - 1) as nat, 1);
        assert(pow10(1) == 10) by { lemma_pow1(10); }
        lemma_mul_inequality(digits_val(t), pow10((s.len() - 1) as nat) - 1, 10);
    }
}

/// A digit string whose first digit is not `'0'` writes a number of at
/// least `pow10(len - 1)`.
pub proof fn lemma_digits_val_lower(s: Seq<u8>)
    requires
        all_digits(s),
        s.len() >= 1,
        s[0] != 0x30,
    ensures
        digits_val(s) >= pow10((s.len() - 1) as nat),
    decreases s.len(),
{
    assert(is_digit(s[s.len() - 1]));
    if s.len() == 1 {
        assert(pow10(0) == 1) by { lemma_pow0(10); }
        assert(s.drop_last().len() == 0);
        assert(digits_val(s.drop_last()) == 0);
        assert(digits_val(s) == s[0] - 0x30);
    } else {
        let t = s.drop_last();
        lemma_digits_val_lower(t);
        assert(digits_val(t) >= pow10((s.len() - 2) as nat));
        lemma_pow10_adds((s.len() - 2) as nat, 1);
        assert(pow10(1) == 10) by { lemma_pow1(10); }
        assert(pow10((s.len() - 1) as nat) == pow10((s.len() - 2) as nat) * 10);
        lemma_mul_inequality(pow10((s.len() - 2) as nat), digits_val(t), 10);
        assert(digits_val(t) * 10 >= pow10((s.len() - 1) as nat));
        assert(digits_val(s) == digits_val(t) * 10 + (s.last() - 0x30));
    }
}

/// The last digit of a digit string is its value modulo ten.
pub proof fn lemma_digits_val_mod10(s: Seq<u8>)
    requires
        all_digits(s),
        s.len() >= 1,
    ensures
        digits_val(s) % 10 == s.last() - 0x30,
{
    let t = s.drop_last();
    lemma_digits_val_bounds(t);
    lemma_mod_multiples_vanish(digits_val(t), s.last() - 0x30, 10);
    lemma_small_mod((s.last() - 0x30) as nat, 10);
}

/// Scaling by `pow10(t)` turns divisibility by `pow10(t + k)` into
/// divisibility of the unscaled value by `pow10(k)`.
pub proof fn lemma_shift_mod(v: int, t: nat, k: nat)
    requires
        v >= 0,
    ensures
        (v * pow10(t)) % pow10(t + k) == pow10(t) * (v % pow10(k)),
{
    lemma_pow10_pos(t);
    lemma_pow10_pos(k);
    lemma_pow10_adds(t, k);
    lemma_truncate_middle(v, pow10(t), pow10(k));
}

/// A nonnegative value divisible by a positive power of ten is divisible
/// by ten.
pub proof fn lemma_pow10_divisor_of_ten(v: int, k: nat)
    requires
        v >= 0,
        k >= 1,
        v % pow10(k) == 0,
    ensures
        v % 10 == 0,
{
    broadcast use vstd::arithmetic::mul::lemma_mul_is_commutative;

    lemma_pow10_pos(k);
    lemma_fundamental_div_mod(v, pow10(k));
    let q = v / pow10(k);
    lemma_pow10_adds((k - 1) as nat, 1);
    assert(pow10(1) == 10) by { lemma_pow1(10); }
    assert(v == pow10(k) * q);
    assert(v == (pow10((k - 1) as nat) * 10) * q);
    lemma_mul_is_associative(pow10((k - 1) as nat), 10, q);
    lemma_mul_is_associative(pow10((k - 1) as nat), q, 10);
    assert(v == (pow10((k - 1) as nat) * q) * 10);
    lemma_mod_multiples_basic(pow10((k - 1) as nat) * q, 10);
}

} // verus!
