//! Classification of a JSON number for the primality check.
//!
//! A JSON number denotes the exact decimal value `(-1)^neg * M * 10^exp`,
//! where `M` is the integer written by the digit string `mant` (the integer
//! digits followed by the fraction digits) and `exp` is the written exponent
//! minus the number of fraction digits. The check needs to know only:
//! is the value an integer, and if so, which one. `Number` keeps exactly
//! that, with every integer in `[2, u64::MAX]` held exactly; an integer
//! beyond `u64::MAX` is out of reach of trial division and is recorded as
//! `TooLarge` (the service answers that it is not prime).

use vstd::prelude::*;

verus! {

use crate::digits::{
    all_digits,
    digits_val,
    is_digit,
    lemma_digits_leading_zeros,
    lemma_digits_trailing_zeros,
    lemma_digits_val_bounds,
    lemma_digits_val_lower,
    lemma_digits_val_mod10,
    lemma_pow10_adds,
    lemma_pow10_divisor_of_ten,
    lemma_pow10_pos,
    lemma_shift_mod,
    pow10,
};
use vstd::arithmetic::power::{lemma_pow0, lemma_pow1, lemma_pow_increases};
use vstd::arithmetic::mul::{
    lemma_mul_inequality,
    lemma_mul_is_associative,
    lemma_mul_nonnegative,
    lemma_mul_strictly_positive,
};
use vstd::arithmetic::div_mod::{
    lemma_div_by_multiple,
    lemma_div_pos_is_pos,
    lemma_mod_multiples_basic,
    lemma_small_mod,
};

/// What the primality check can learn from a request's number.
#[derive(Clone, Copy, PartialEq, Eq, Structural, Debug)]
pub enum Number {
    /// The value is not an integer, or is an integer of at most one:
    /// never prime.
    NotCandidate,
    /// The value is exactly this integer, which is at least two.
    Candidate(u64),
    /// The value is an integer greater than `u64::MAX`: beyond the reach
    /// of trial division, answered as not prime.
    TooLarge,
}

/// The exact decimal value `±digits_val(mant) * 10^exp` is an integer.
pub open spec fn spec_num_is_integer(mant: Seq<u8>, exp: int) -> bool {
    exp >= 0 || digits_val(mant) % pow10((-exp) as nat) == 0
}

/// The integer the number denotes, when `spec_num_is_integer` holds.
pub open spec fn spec_num_int_value(neg: bool, mant: Seq<u8>, exp: int) -> int {
    let m: int = if exp >= 0 {
        digits_val(mant) * pow10(exp as nat)
    } else {
        digits_val(mant) / pow10((-exp) as nat)
    };
    if neg { -m } else { m }
}

/// How the service sees the number `±digits_val(mant) * 10^exp`.
pub open spec fn spec_classify(neg: bool, mant: Seq<u8>, exp: int) -> Number {
    if !spec_num_is_integer(mant, exp) {
        Number::NotCandidate
    } else {
        let v: int = spec_num_int_value(neg, mant, exp);
        if v <= 1 {
            Number::NotCandidate
        } else if v <= u64::MAX as int {
            Number::Candidate(v as u64)
        } else {
            Number::TooLarge
        }
    }
}

/// Ten to the twentieth power, the first power of ten beyond `u64::MAX`.
pub proof fn lemma_pow10_20()
    ensures
        pow10(20) == 100000000000000000000int,
{
    assert(pow10(20) == 100000000000000000000int) by {
        reveal_with_fuel(vstd::arithmetic::power::pow, 21);
    }
}

/// `pow10` is monotone.
pub proof fn lemma_pow10_le(a: nat, b: nat)
    requires
        a <= b,
    ensures
        pow10(a) <= pow10(b),
{
    lemma_pow_increases(10, a, b);
}

/// Splitting a digit string at its zero margins: with `lz` leading and
/// `len - m` trailing `'0'` digits around the core `mant[lz..m]`, the
/// string writes the core's value scaled by the trailing zeros.
proof fn lemma_core_split(mant: Seq<u8>, lz: int, m: int)
    requires
        all_digits(mant),
        0 <= lz < m <= mant.len(),
        forall|k: int| 0 <= k < lz ==> #[trigger] mant[k] == 0x30,
        forall|k: int| m <= k < mant.len() ==> #[trigger] mant[k] == 0x30,
        mant[lz] != 0x30,
        mant[m - 1] != 0x30,
    ensures
        digits_val(mant) == digits_val(mant.subrange(lz, m)) * pow10((mant.len() - m) as nat),
        pow10((m - lz - 1) as nat) <= digits_val(mant.subrange(lz, m)) < pow10((m - lz) as nat),
        digits_val(mant.subrange(lz, m)) % 10 == mant[m - 1] - 0x30,
{
    let head = mant.subrange(0, m);
    let core = mant.subrange(lz, m);
    lemma_digits_trailing_zeros(mant, m);
    lemma_digits_leading_zeros(head, lz);
    assert(head.subrange(lz, head.len() as int) =~= core);
    assert(all_digits(core));
    lemma_digits_val_bounds(core);
    lemma_digits_val_lower(core);
    lemma_digits_val_mod10(core);
    assert(core.last() == mant[m - 1]);
}

/// Classify the number `±digits_val(mant) * 10^(e_true)`.
///
/// The executable exponent `e` may be a saturated stand-in for the exact
/// `e_true`: either they are equal, or both are so large that the value
/// overflows `u64` whatever digits follow, or both so small that the value
/// cannot be an integer.
pub(crate) fn classify(neg: bool, mant: &Vec<u8>, e: i128, e_true: Ghost<int>) -> (r: Number)
    requires
        all_digits(mant@),
        -200000000000000000000 <= (e as int) && (e as int) <= 200000000000000000000,
        (e as int == e_true@) || (21 <= (e as int) && (e as int) <= e_true@) || (e_true@ <= (e as int)
            && (e as int) + mant@.len() < 0),
    ensures
        r == spec_classify(neg, mant@, e_true@),
{
    proof {
        lemma_pow10_20();
        lemma_digits_val_bounds(mant@);
    }
    let n: usize = mant.len();
    let mut m: usize = n;
    while m > 0 && mant[m - 1] == 0x30
        invariant
            m <= n,
            n == mant@.len(),
            forall|k: int| m <= k < n ==> #[trigger] mant@[k] == 0x30,
        decreases m,
    {
        m = m - 1;
    }
    if m == 0 {
        proof {
            lemma_digits_trailing_zeros(mant@, 0);
            assert(mant@.subrange(0, 0) =~= Seq::<u8>::empty());
            assert(digits_val(mant@) == 0);
            if e_true@ < 0 {
                lemma_pow10_pos((-e_true@) as nat);
                lemma_small_mod(0, pow10((-e_true@) as nat) as nat);
                vstd::arithmetic::div_mod::lemma_div_of0(pow10((-e_true@) as nat));
            }
        }
        return Number::NotCandidate;
    }
    let mut lz: usize = 0;
    while lz < m && mant[lz] == 0x30
        invariant
            lz <= m,
            m <= n,
            n == mant@.len(),
            forall|k: int| 0 <= k < lz ==> #[trigger] mant@[k] == 0x30,
        decreases m - lz,
    {
        lz = lz + 1;
    }
    assert(lz < m);
    let ghost core = mant@.subrange(lz as int, m as int);
    let ghost cv = digits_val(core);
    let ghost tz = (n - m) as nat;
    let ghost mc = (m - lz) as nat;
    proof {
        lemma_core_split(mant@, lz as int, m as int);
        assert(is_digit(mant@[m - 1]));
        lemma_pow10_pos((m - lz - 1) as nat);
        assert(cv >= 1);
        lemma_pow10_pos(tz);
        lemma_mul_strictly_positive(cv, pow10(tz));
        assert(digits_val(mant@) >= 1);
    }
    if neg {
        proof {
            let dv = digits_val(mant@);
            if spec_num_is_integer(mant@, e_true@) {
                if e_true@ >= 0 {
                    lemma_pow10_pos(e_true@ as nat);
                    lemma_mul_nonnegative(dv, pow10(e_true@ as nat));
                } else {
                    lemma_pow10_pos((-e_true@) as nat);
                    lemma_div_pos_is_pos(dv, pow10((-e_true@) as nat));
                }
            }
        }
        return Number::NotCandidate;
    }
    let ep: i128 = e + ((n - m) as i128);
    let ghost ept = e_true@ + tz;
    proof {
        assert(n - m <= n);
        assert((n as int) < 100000000000000000000) by {
            assert(n <= usize::MAX);
        }
    }
    if ep < 0 {
        proof {
            assert(ept < 0);
            let k = (-ept) as nat;
            assert(e_true@ < 0);
            assert((-e_true@) as nat == tz + k);
            lemma_shift_mod(cv, tz, k);
            if cv % pow10(k) == 0 {
                lemma_pow10_divisor_of_ten(cv, k);
                assert(false);
            }
            lemma_pow10_pos(k);
            vstd::arithmetic::div_mod::lemma_mod_bound(cv, pow10(k));
            lemma_mul_strictly_positive(pow10(tz), cv % pow10(k));
            assert(digits_val(mant@) % pow10((-e_true@) as nat) != 0);
        }
        return Number::NotCandidate;
    }
    proof {
        assert(ept >= ep as int);
        assert(spec_num_is_integer(mant@, e_true@) && spec_num_int_value(false, mant@, e_true@)
            == cv * pow10(ept as nat)) by {
            if e_true@ >= 0 {
                lemma_pow10_adds(tz, e_true@ as nat);
                lemma_mul_is_associative(cv, pow10(tz), pow10(e_true@ as nat));
            } else {
                let j = (-e_true@) as nat;
                assert(tz == ept as nat + j);
                lemma_pow10_adds(ept as nat, j);
                lemma_mul_is_associative(cv, pow10(ept as nat), pow10(j));
                lemma_pow10_pos(j);
                lemma_pow10_pos(ept as nat);
                lemma_mul_nonnegative(cv, pow10(ept as nat));
                lemma_mod_multiples_basic(cv * pow10(ept as nat), pow10(j));
                lemma_div_by_multiple(cv * pow10(ept as nat), pow10(j));
            }
        }
    }
    let ghost v_true = cv * pow10(ept as nat);
    if ep >= 21 || m - lz >= 21 || (m - lz) as i128 + ep >= 21 {
        proof {
            assert(mc + ept >= 21);
            lemma_pow10_le(20, (mc + ept - 1) as nat);
            lemma_pow10_adds((mc - 1) as nat, ept as nat);
            lemma_pow10_pos(ept as nat);
            lemma_mul_inequality(pow10((mc - 1) as nat), cv, pow10(ept as nat));
            assert(v_true >= pow10((mc - 1) as nat) * pow10(ept as nat));
            assert(v_true > u64::MAX as int);
        }
        return Number::TooLarge;
    }
    proof {
        assert(ep as int == ept);
    }
    proof {
        assert(pow10(0) == 1) by { lemma_pow0(10); }
    }
    let mut acc: u128 = 0;
    let mut idx: usize = lz;
    while idx < m
        invariant
            lz <= idx <= m <= n,
            n == mant@.len(),
            all_digits(mant@),
            m - lz <= 20,
            (acc as int) == digits_val(mant@.subrange(lz as int, idx as int)),
            (acc as int) < pow10((idx - lz) as nat),
            pow10(20) == 100000000000000000000int,
        decreases m - idx,
    {
        let d: u8 = mant[idx];
        proof {
            assert(is_digit(mant@[idx as int]));
            let pre = mant@.subrange(lz as int, idx as int);
            let post = mant@.subrange(lz as int, idx as int + 1);
            assert(post.drop_last() =~= pre);
            assert(post.last() == mant@[idx as int]);
            lemma_pow10_adds((idx - lz) as nat, 1);
            assert(pow10(1) == 10) by { lemma_pow1(10); }
            lemma_pow10_le((idx - lz + 1) as nat, 20);
            lemma_mul_inequality(acc as int, pow10((idx - lz) as nat) - 1, 10);
        }
        acc = acc * 10 + ((d - 0x30) as u128);
        idx = idx + 1;
    }
    proof {
        assert(mant@.subrange(lz as int, m as int) =~= core);
        assert(acc as int == cv);
    }
    let mut val: u128 = acc;
    let mut k: i128 = 0;
    while k < ep
        invariant
            0 <= k <= ep,
            ep <= 20,
            mc + ep <= 20,
            mc == m - lz,
            (val as int) == cv * pow10(k as nat),
            cv < pow10(mc),
            cv >= 1,
            (val as int) < pow10((mc + k) as nat),
            pow10(20) == 100000000000000000000int,
        decreases ep - k,
    {
        proof {
            lemma_pow10_adds((mc + k) as nat, 1);
            lemma_pow10_adds(k as nat, 1);
            assert(pow10(1) == 10) by { lemma_pow1(10); }
            lemma_pow10_le((mc + k + 1) as nat, 20);
            lemma_mul_inequality(val as int, pow10((mc + k) as nat) - 1, 10);
            lemma_mul_is_associative(cv, pow10(k as nat), 10);
        }
        val = val * 10;
        k = k + 1;
    }
    proof {
        assert((val as int) == v_true);
        lemma_pow10_le((mc + ep) as nat, 20);
        assert((val as int) < pow10(20));
    }
    if val <= 1 {
        Number::NotCandidate
    } else if val <= 0xFFFF_FFFF_FFFF_FFFFu128 {
        Number::Candidate(val as u64)
    } else {
        Number::TooLarge
    }
}

} // verus!
