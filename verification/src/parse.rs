//! A byte-level parser for the request grammar.
//!
//! A request is one JSON object with exactly the two members `"method"`
//! (a JSON string) and `"number"` (a JSON number), in either order, with
//! nothing but whitespace around and between the tokens and nothing after
//! the closing brace. Any other input — other JSON values, other member
//! sets, type mismatches, or text that is not JSON at all — is rejected,
//! and the service answers it with the malformed response. Unknown extra
//! members are rejected rather than ignored (the strict reading of the
//! request schema).
//!
//! The grammar is specified by total spec functions over the byte
//! sequence (`spec_parse_request` and its helpers); each executable
//! function is proved to return exactly what its spec function says, so
//! acceptance and rejection are both pinned down.
//!
//! String literals decode the simple escapes `\" \\ \/ \b \f \n \r \t`
//! and `\uXXXX` escapes, surrogate pairs included; a lone surrogate is
//! rejected.

use vstd::prelude::*;

verus! {

use crate::digits::{all_digits, digits_val, is_digit};
use crate::num::{classify, spec_classify, Number};

/// JSON whitespace: space, tab, line feed, carriage return.
pub open spec fn is_ws(c: u8) -> bool {
    c == 0x20 || c == 0x09 || c == 0x0a || c == 0x0d
}

/// The first position at or after `i` that does not hold whitespace.
pub open spec fn spec_skip_ws(s: Seq<u8>, i: int) -> int
    decreases s.len() - i,
{
    if 0 <= i < s.len() && is_ws(s[i]) {
        spec_skip_ws(s, i + 1)
    } else {
        i
    }
}

fn skip_ws(s: &[u8], i: usize) -> (r: usize)
    requires
        i <= s@.len(),
    ensures
        r as int == spec_skip_ws(s@, i as int),
        i <= r <= s@.len(),
{
    let n: usize = s.len();
    let mut j: usize = i;
    while j < n && (s[j] == 0x20 || s[j] == 0x09 || s[j] == 0x0a || s[j] == 0x0d)
        invariant
            i <= j <= n,
            n == s@.len(),
            spec_skip_ws(s@, i as int) == spec_skip_ws(s@, j as int),
        decreases n - j,
    {
        j = j + 1;
    }
    j
}

/// The first position at or after `i` that does not hold a digit.
pub open spec fn spec_scan_digits(s: Seq<u8>, i: int) -> int
    decreases s.len() - i,
{
    if 0 <= i < s.len() && is_digit(s[i]) {
        spec_scan_digits(s, i + 1)
    } else {
        i
    }
}

/// Everything a digit scan passes over is a digit, and it stops within
/// the sequence.
pub proof fn lemma_scan_digits_range(s: Seq<u8>, i: int)
    requires
        0 <= i <= s.len(),
    ensures
        i <= spec_scan_digits(s, i) <= s.len(),
        forall|k: int| i <= k < spec_scan_digits(s, i) ==> is_digit(#[trigger] s[k]),
    decreases s.len() - i,
{
    if i < s.len() && is_digit(s[i]) {
        lemma_scan_digits_range(s, i + 1);
    }
}

fn scan_digits(s: &[u8], i: usize) -> (r: usize)
    requires
        i <= s@.len(),
    ensures
        r as int == spec_scan_digits(s@, i as int),
        i <= r <= s@.len(),
{
    let n: usize = s.len();
    let mut j: usize = i;
    while j < n && 0x30 <= s[j] && s[j] <= 0x39
        invariant
            i <= j <= n,
            n == s@.len(),
            spec_scan_digits(s@, i as int) == spec_scan_digits(s@, j as int),
        decreases n - j,
    {
        j = j + 1;
    }
    j
}

/// `c` is the byte of a hexadecimal digit.
pub open spec fn is_hex(c: u8) -> bool {
    is_digit(c) || (0x41 <= c <= 0x46) || (0x61 <= c <= 0x66)
}

/// The value of a hexadecimal digit byte.
pub open spec fn hex_val(c: u8) -> int {
    if is_digit(c) {
        c - 0x30
    } else if 0x41 <= c <= 0x46 {
        c - 0x41 + 10
    } else {
        c - 0x61 + 10
    }
}

/// The value of the four hexadecimal digits at `s[i..i+4]`.
pub open spec fn hex4(s: Seq<u8>, i: int) -> int {
    hex_val(s[i]) * 0x1000 + hex_val(s[i + 1]) * 0x100 + hex_val(s[i + 2]) * 0x10 + hex_val(
        s[i + 3],
    )
}

/// The UTF-8 encoding of the code point `cp`.
pub open spec fn utf8_enc(cp: int) -> Seq<u8> {
    if cp < 0x80 {
        seq![cp as u8]
    } else if cp < 0x800 {
        seq![(0xC0 + cp / 0x40) as u8, (0x80 + cp % 0x40) as u8]
    } else if cp < 0x10000 {
        seq![
            (0xE0 + cp / 0x1000) as u8,
            (0x80 + (cp / 0x40) % 0x40) as u8,
            (0x80 + cp % 0x40) as u8,
        ]
    } else {
        seq![
            (0xF0 + cp / 0x40000) as u8,
            (0x80 + (cp / 0x1000) % 0x40) as u8,
            (0x80 + (cp / 0x40) % 0x40) as u8,
            (0x80 + cp % 0x40) as u8,
        ]
    }
}

/// The decoded content and end position of a string literal body read
/// from position `i` (just past the opening quote), given the content
/// `acc` decoded so far.
pub open spec fn spec_str_body(s: Seq<u8>, i: int, acc: Seq<u8>) -> Option<(Seq<u8>, int)>
    decreases s.len() - i,
{
    if !(0 <= i < s.len()) {
        None
    } else if s[i] == 0x22 {
        Some((acc, i + 1))
    } else if s[i] == 0x5c {
        if i + 1 >= s.len() {
            None
        } else {
            let e: u8 = s[i + 1];
            if e == 0x22 || e == 0x5c || e == 0x2f {
                spec_str_body(s, i + 2, acc.push(e))
            } else if e == 0x62 {
                spec_str_body(s, i + 2, acc.push(0x08))
            } else if e == 0x66 {
                spec_str_body(s, i + 2, acc.push(0x0c))
            } else if e == 0x6e {
                spec_str_body(s, i + 2, acc.push(0x0a))
            } else if e == 0x72 {
                spec_str_body(s, i + 2, acc.push(0x0d))
            } else if e == 0x74 {
                spec_str_body(s, i + 2, acc.push(0x09))
            } else if e == 0x75 {
                // \uXXXX: four hex digits; a high surrogate must be
                // followed by a low surrogate escape, and the pair decodes
                // to one supplementary code point.
                if i + 6 > s.len() {
                    None
                } else if !(is_hex(s[i + 2]) && is_hex(s[i + 3]) && is_hex(s[i + 4]) && is_hex(
                    s[i + 5],
                )) {
                    None
                } else {
                    let cp: int = hex4(s, i + 2);
                    if 0xD800 <= cp <= 0xDBFF {
                        if i + 12 <= s.len() && s[i + 6] == 0x5c && s[i + 7] == 0x75 && is_hex(
                            s[i + 8],
                        ) && is_hex(s[i + 9]) && is_hex(s[i + 10]) && is_hex(s[i + 11]) {
                            let cp2: int = hex4(s, i + 8);
                            if 0xDC00 <= cp2 <= 0xDFFF {
                                spec_str_body(
                                    s,
                                    i + 12,
                                    acc + utf8_enc(0x10000 + (cp - 0xD800) * 0x400 + (cp2 - 0xDC00)),
                                )
                            } else {
                                None
                            }
                        } else {
                            None
                        }
                    } else if 0xDC00 <= cp <= 0xDFFF {
                        None
                    } else {
                        spec_str_body(s, i + 6, acc + utf8_enc(cp))
                    }
                }
            } else {
                None
            }
        }
    } else if s[i] >= 0x20 {
        spec_str_body(s, i + 1, acc.push(s[i]))
    } else {
        None
    }
}

/// The decoded content and end position of a string literal starting at
/// `i` (at its opening quote).
pub open spec fn spec_parse_string(s: Seq<u8>, i: int) -> Option<(Seq<u8>, int)> {
    if 0 <= i < s.len() && s[i] == 0x22 {
        spec_str_body(s, i + 1, Seq::empty())
    } else {
        None
    }
}

/// The executable string parse returns exactly what the spec parse says.
pub open spec fn str_result_agrees(r: Option<(Vec<u8>, usize)>, sp: Option<(Seq<u8>, int)>) -> bool {
    match (r, sp) {
        (Option::None, Option::None) => true,
        (Option::Some(p), Option::Some(q)) => p.0@ == q.0 && p.1 as int == q.1,
        _ => false,
    }
}

fn is_hex_byte(c: u8) -> (r: bool)
    ensures
        r == is_hex(c),
{
    (0x30 <= c && c <= 0x39) || (0x41 <= c && c <= 0x46) || (0x61 <= c && c <= 0x66)
}

fn hex_val_byte(c: u8) -> (r: u8)
    requires
        is_hex(c),
    ensures
        r as int == hex_val(c),
        r < 16,
{
    if 0x30 <= c && c <= 0x39 {
        c - 0x30
    } else if 0x41 <= c && c <= 0x46 {
        c - 0x41 + 10
    } else {
        c - 0x61 + 10
    }
}

/// The value of the four hexadecimal digits at `s[i..i+4]`.
fn hex4_at(s: &[u8], i: usize) -> (r: u32)
    requires
        i + 4 <= s@.len(),
        is_hex(s@[i as int]),
        is_hex(s@[i as int + 1]),
        is_hex(s@[i as int + 2]),
        is_hex(s@[i as int + 3]),
    ensures
        r as int == hex4(s@, i as int),
        r <= 0xFFFF,
{
    let a: u32 = hex_val_byte(s[i]) as u32;
    let b: u32 = hex_val_byte(s[i + 1]) as u32;
    let c: u32 = hex_val_byte(s[i + 2]) as u32;
    let d: u32 = hex_val_byte(s[i + 3]) as u32;
    a * 0x1000 + b * 0x100 + c * 0x10 + d
}

/// Append the UTF-8 encoding of the code point `cp` to `dst`.
fn push_utf8(dst: &mut Vec<u8>, cp: u32)
    requires
        cp <= 0x10FFFF,
    ensures
        final(dst)@ == old(dst)@ + utf8_enc(cp as int),
{
    if cp < 0x80 {
        dst.push(cp as u8);
    } else if cp < 0x800 {
        dst.push((0xC0 + cp / 0x40) as u8);
        dst.push((0x80 + cp % 0x40) as u8);
    } else if cp < 0x10000 {
        dst.push((0xE0 + cp / 0x1000) as u8);
        dst.push((0x80 + (cp / 0x40) % 0x40) as u8);
        dst.push((0x80 + cp % 0x40) as u8);
    } else {
        dst.push((0xF0 + cp / 0x40000) as u8);
        dst.push((0x80 + (cp / 0x1000) % 0x40) as u8);
        dst.push((0x80 + (cp / 0x40) % 0x40) as u8);
        dst.push((0x80 + cp % 0x40) as u8);
    }
    proof {
        assert(dst@ =~= old(dst)@ + utf8_enc(cp as int));
    }
}

fn parse_string(s: &[u8], i: usize) -> (r: Option<(Vec<u8>, usize)>)
    requires
        i <= s@.len(),
    ensures
        str_result_agrees(r, spec_parse_string(s@, i as int)),
        (r matches Some(p) ==> p.1 <= s@.len()),
{
    let n: usize = s.len();
    if i >= n || s[i] != 0x22 {
        return None;
    }
    let mut acc: Vec<u8> = Vec::new();
    let mut j: usize = i + 1;
    loop
        invariant
            i + 1 <= j <= n,
            n == s@.len(),
            spec_parse_string(s@, i as int) == spec_str_body(s@, j as int, acc@),
        decreases n - j,
    {
        if j >= n {
            return None;
        }
        let c: u8 = s[j];
        if c == 0x22 {
            return Some((acc, j + 1));
        } else if c == 0x5c {
            if j + 1 >= n {
                return None;
            }
            let e: u8 = s[j + 1];
            if e == 0x22 || e == 0x5c || e == 0x2f {
                acc.push(e);
            } else if e == 0x62 {
                acc.push(0x08);
            } else if e == 0x66 {
                acc.push(0x0c);
            } else if e == 0x6e {
                acc.push(0x0a);
            } else if e == 0x72 {
                acc.push(0x0d);
            } else if e == 0x74 {
                acc.push(0x09);
            } else if e == 0x75 {
                if n - j < 6 {
                    return None;
                }
                if !(is_hex_byte(s[j + 2]) && is_hex_byte(s[j + 3]) && is_hex_byte(s[j + 4])
                    && is_hex_byte(s[j + 5])) {
                    return None;
                }
                let cp: u32 = hex4_at(s, j + 2);
                if 0xD800 <= cp && cp <= 0xDBFF {
                    if n - j >= 12 && s[j + 6] == 0x5c && s[j + 7] == 0x75 && is_hex_byte(s[j + 8])
                        && is_hex_byte(s[j + 9]) && is_hex_byte(s[j + 10]) && is_hex_byte(
                        s[j + 11],
                    ) {
                        let cp2: u32 = hex4_at(s, j + 8);
                        if 0xDC00 <= cp2 && cp2 <= 0xDFFF {
                            let full: u32 = 0x10000 + (cp - 0xD800) * 0x400 + (cp2 - 0xDC00);
                            push_utf8(&mut acc, full);
                            j = j + 12;
                            continue;
                        } else {
                            return None;
                        }
                    } else {
                        return None;
                    }
                } else if 0xDC00 <= cp && cp <= 0xDFFF {
                    return None;
                } else {
                    push_utf8(&mut acc, cp);
                    j = j + 6;
                    continue;
                }
            } else {
                return None;
            }
            j = j + 2;
        } else if c >= 0x20 {
            acc.push(c);
            j = j + 1;
        } else {
            return None;
        }
    }
}

/// The pieces of a parsed number token: the sign, the digit string
/// (integer digits followed by fraction digits), the exact power-of-ten
/// scale, and the token's end position. The token denotes
/// `(-1)^neg * digits_val(mant) * 10^exp`.
pub struct NumParts {
    pub neg: bool,
    pub mant: Seq<u8>,
    pub exp: int,
    pub end: int,
}

/// The optional exponent marker at position `j`: its sign, its written
/// value, and its end position. Without a marker the exponent is zero.
pub open spec fn spec_exp_token(s: Seq<u8>, j: int) -> Option<(bool, int, int)> {
    if 0 <= j < s.len() && (s[j] == 0x65 || s[j] == 0x45) {
        let eneg: bool = j + 1 < s.len() && s[j + 1] == 0x2d;
        let k0: int = if j + 1 < s.len() && (s[j + 1] == 0x2b || s[j + 1] == 0x2d) {
            j + 2
        } else {
            j + 1
        };
        if !(0 <= k0 < s.len() && is_digit(s[k0])) {
            None
        } else {
            let k1: int = spec_scan_digits(s, k0);
            Some((eneg, digits_val(s.subrange(k0, k1)), k1))
        }
    } else {
        Some((false, 0, j))
    }
}

/// The optional exponent part of a number token at position `j`, folded
/// into the parts gathered so far (`base` is minus the count of fraction
/// digits).
pub open spec fn spec_parse_exp(s: Seq<u8>, mant: Seq<u8>, base: int, neg: bool, j: int) -> Option<
    NumParts,
> {
    match spec_exp_token(s, j) {
        Option::None => None,
        Option::Some(t) => Some(
            NumParts {
                neg,
                mant,
                exp: if t.0 {
                    base - t.1
                } else {
                    base + t.1
                },
                end: t.2,
            },
        ),
    }
}

/// A JSON number token starting at position `i`: optional minus, an
/// integer part (`0`, or a nonzero digit followed by digits), an optional
/// fraction (a point followed by at least one digit), and an optional
/// exponent (`e` or `E`, an optional sign, at least one digit).
pub open spec fn spec_parse_number(s: Seq<u8>, i: int) -> Option<NumParts> {
    let neg: bool = 0 <= i < s.len() && s[i] == 0x2d;
    let j0: int = if neg {
        i + 1
    } else {
        i
    };
    if !(0 <= j0 < s.len() && is_digit(s[j0])) {
        None
    } else {
        let j1: int = if s[j0] == 0x30 {
            j0 + 1
        } else {
            spec_scan_digits(s, j0)
        };
        let intd: Seq<u8> = s.subrange(j0, j1);
        if j1 < s.len() && s[j1] == 0x2e {
            let j2: int = spec_scan_digits(s, j1 + 1);
            if j2 == j1 + 1 {
                None
            } else {
                spec_parse_exp(s, intd + s.subrange(j1 + 1, j2), (j1 + 1) - j2, neg, j2)
            }
        } else {
            spec_parse_exp(s, intd, 0, neg, j1)
        }
    }
}

/// The executable number parse classifies exactly the number the spec
/// parse describes, and stops at the same position.
pub open spec fn num_result_agrees(r: Option<(Number, usize)>, sp: Option<NumParts>) -> bool {
    match (r, sp) {
        (Option::None, Option::None) => true,
        (Option::Some(p), Option::Some(q)) => p.0 == spec_classify(q.neg, q.mant, q.exp) && p.1
            as int == q.end,
        _ => false,
    }
}

/// Append `s[a..b]` to `dst`.
fn push_range(dst: &mut Vec<u8>, s: &[u8], a: usize, b: usize)
    requires
        a <= b <= s@.len(),
    ensures
        final(dst)@ == old(dst)@ + s@.subrange(a as int, b as int),
{
    let mut idx: usize = a;
    proof {
        assert(old(dst)@ + s@.subrange(a as int, a as int) =~= old(dst)@);
    }
    while idx < b
        invariant
            a <= idx <= b <= s@.len(),
            dst@ == old(dst)@ + s@.subrange(a as int, idx as int),
        decreases b - idx,
    {
        proof {
            assert(old(dst)@ + s@.subrange(a as int, idx as int + 1) =~= (old(dst)@ + s@.subrange(
                a as int,
                idx as int,
            )).push(s@[idx as int]));
        }
        let c: u8 = s[idx];
        dst.push(c);
        idx = idx + 1;
    }
}

/// Read the digits `s[a..b]` as an integer, saturating at ten to the
/// twentieth power (beyond that bound the exact value no longer affects
/// how a number is classified).
fn sat_digits(s: &[u8], a: usize, b: usize) -> (r: u128)
    requires
        a <= b <= s@.len(),
        forall|k: int| a <= k < b ==> is_digit(#[trigger] s@[k]),
    ensures
        (r as int) <= 100000000000000000000,
        digits_val(s@.subrange(a as int, b as int)) <= 100000000000000000000 ==> r as int
            == digits_val(s@.subrange(a as int, b as int)),
        digits_val(s@.subrange(a as int, b as int)) > 100000000000000000000 ==> r as int
            == 100000000000000000000,
{
    let mut r: u128 = 0;
    let mut idx: usize = a;
    proof {
        assert(s@.subrange(a as int, a as int) =~= Seq::<u8>::empty());
    }
    while idx < b
        invariant
            a <= idx <= b <= s@.len(),
            forall|k: int| a <= k < b ==> is_digit(#[trigger] s@[k]),
            (r as int) <= 100000000000000000000,
            digits_val(s@.subrange(a as int, idx as int)) <= 100000000000000000000 ==> r as int
                == digits_val(s@.subrange(a as int, idx as int)),
            digits_val(s@.subrange(a as int, idx as int)) > 100000000000000000000 ==> r as int
                == 100000000000000000000,
        decreases b - idx,
    {
        let d: u8 = s[idx];
        proof {
            assert(is_digit(s@[idx as int]));
            let pre = s@.subrange(a as int, idx as int);
            let post = s@.subrange(a as int, idx as int + 1);
            assert(post.drop_last() =~= pre);
            assert(post.last() == s@[idx as int]);
        }
        let nd: u128 = r * 10 + ((d - 0x30) as u128);
        if nd > 100000000000000000000u128 {
            r = 100000000000000000000u128;
        } else {
            r = nd;
        }
        idx = idx + 1;
    }
    r
}

/// Parse the optional exponent marker at `j`, with its written value
/// saturated at ten to the twentieth power.
fn parse_exp_token(s: &[u8], j: usize) -> (r: Option<(bool, u128, usize)>)
    requires
        j <= s@.len(),
    ensures
        (match spec_exp_token(s@, j as int) {
            Option::None => r is None,
            Option::Some(q) => r matches Some(p) && p.0 == q.0 && p.2 as int == q.2 && p.2
                <= s@.len() && (p.1 as int) <= 100000000000000000000 && (q.1
                <= 100000000000000000000 ==> p.1 as int == q.1) && (q.1 > 100000000000000000000
                ==> p.1 as int == 100000000000000000000),
        }),
{
    let n: usize = s.len();
    if j < n && (s[j] == 0x65 || s[j] == 0x45) {
        let mut eneg: bool = false;
        let mut k0: usize = j + 1;
        if k0 < n && (s[k0] == 0x2b || s[k0] == 0x2d) {
            eneg = s[k0] == 0x2d;
            k0 = k0 + 1;
        }
        if k0 >= n || s[k0] < 0x30 || s[k0] > 0x39 {
            return None;
        }
        let k1: usize = scan_digits(s, k0);
        proof {
            lemma_scan_digits_range(s@, k0 as int);
        }
        let esat: u128 = sat_digits(s, k0, k1);
        Some((eneg, esat, k1))
    } else {
        Some((false, 0, j))
    }
}

/// Parse and classify a JSON number token starting at `i`.
#[verifier::rlimit(100)]
pub(crate) fn parse_number(s: &[u8], i: usize) -> (r: Option<(Number, usize)>)
    requires
        i <= s@.len(),
    ensures
        num_result_agrees(r, spec_parse_number(s@, i as int)),
        (r matches Some(p) ==> p.1 <= s@.len()),
{
    let n: usize = s.len();
    let mut j: usize = i;
    let neg: bool = j < n && s[j] == 0x2d;
    if neg {
        j = j + 1;
    }
    if j >= n || s[j] < 0x30 || s[j] > 0x39 {
        return None;
    }
    let j1: usize = if s[j] == 0x30 {
        j + 1
    } else {
        scan_digits(s, j)
    };
    proof {
        lemma_scan_digits_range(s@, j as int);
        assert(all_digits(s@.subrange(j as int, j1 as int)));
    }
    let mut fr0: usize = j1;
    let mut fr1: usize = j1;
    let mut j2: usize = j1;
    if j1 < n && s[j1] == 0x2e {
        let k: usize = scan_digits(s, j1 + 1);
        if k == j1 + 1 {
            return None;
        }
        proof {
            lemma_scan_digits_range(s@, j1 as int + 1);
            assert(all_digits(s@.subrange(j1 as int + 1, k as int)));
        }
        fr0 = j1 + 1;
        fr1 = k;
        j2 = k;
    }
    let ghost intd = s@.subrange(j as int, j1 as int);
    let ghost fracd = s@.subrange(fr0 as int, fr1 as int);
    let mut mant: Vec<u8> = Vec::new();
    push_range(&mut mant, s, j, j1);
    push_range(&mut mant, s, fr0, fr1);
    proof {
        assert(mant@ =~= intd + fracd);
        assert(all_digits(mant@));
    }
    let ex = match parse_exp_token(s, j2) {
        None => {
            return None;
        },
        Some(t) => t,
    };
    let (eneg, esat, jend) = ex;
    let ghost ev: int = spec_exp_token(s@, j2 as int)->Some_0.1;
    let fl: usize = fr1 - fr0;
    let ghost base: int = -(fl as int);
    let ghost et: int = if eneg {
        base - ev
    } else {
        base + ev
    };
    let e128: i128 = (if eneg {
        -(esat as i128)
    } else {
        esat as i128
    }) - (fl as i128);
    proof {
        assert(fl <= usize::MAX);
        assert(mant@.len() == (j1 - j) + fl);
        assert(j1 - j <= usize::MAX);
        if esat as int == ev {
            assert(e128 as int == et);
        } else {
            assert(ev > 100000000000000000000 && esat as int == 100000000000000000000);
            if eneg {
                assert(et <= e128 as int);
                assert((e128 as int) + mant@.len() < 0);
            } else {
                assert(21 <= (e128 as int) && (e128 as int) <= et);
            }
        }
    }
    let num: Number = classify(neg, &mant, e128, Ghost(et));
    proof {
        let sp = spec_parse_number(s@, i as int);
        assert(sp matches Some(q) && q.neg == neg && q.mant == mant@ && q.exp == et && q.end
            == jend as int);
    }
    Some((num, jend))
}

/// The bytes of the member name `"method"`.
pub open spec fn method_key() -> Seq<u8> {
    seq![0x6du8, 0x65u8, 0x74u8, 0x68u8, 0x6fu8, 0x64u8]
}

/// The bytes of the member name `"number"`.
pub open spec fn number_key() -> Seq<u8> {
    seq![0x6eu8, 0x75u8, 0x6du8, 0x62u8, 0x65u8, 0x72u8]
}

/// The bytes of the method value `"isPrime"`.
pub open spec fn isprime_bytes() -> Seq<u8> {
    seq![0x69u8, 0x73u8, 0x50u8, 0x72u8, 0x69u8, 0x6du8, 0x65u8]
}

/// A member's parsed value.
pub enum Val {
    /// A JSON string, decoded.
    Str(Vec<u8>),
    /// A JSON number, classified.
    Num(Number),
}

/// A member's value as the spec describes it.
pub enum SpecVal {
    Str(Seq<u8>),
    Num(NumParts),
}

/// An object member at position `i`: a string key, a colon, and a string
/// or number value, with whitespace allowed around the colon.
pub open spec fn spec_parse_member(s: Seq<u8>, i: int) -> Option<(Seq<u8>, SpecVal, int)> {
    match spec_parse_string(s, i) {
        Option::None => None,
        Option::Some(kp) => {
            let c: int = spec_skip_ws(s, kp.1);
            if !(0 <= c < s.len() && s[c] == 0x3a) {
                None
            } else {
                let v: int = spec_skip_ws(s, c + 1);
                if 0 <= v < s.len() && s[v] == 0x22 {
                    match spec_parse_string(s, v) {
                        Option::None => None,
                        Option::Some(sv) => Some((kp.0, SpecVal::Str(sv.0), sv.1)),
                    }
                } else {
                    match spec_parse_number(s, v) {
                        Option::None => None,
                        Option::Some(np) => Some((kp.0, SpecVal::Num(np), np.end)),
                    }
                }
            }
        },
    }
}

/// The executable value agrees with the spec value.
pub open spec fn val_agrees(v: Val, sv: SpecVal) -> bool {
    match (v, sv) {
        (Val::Str(b), SpecVal::Str(q)) => b@ == q,
        (Val::Num(num), SpecVal::Num(np)) => num == spec_classify(np.neg, np.mant, np.exp),
        _ => false,
    }
}

/// The executable member parse agrees with the spec member parse.
pub open spec fn member_agrees(
    r: Option<(Vec<u8>, Val, usize)>,
    sp: Option<(Seq<u8>, SpecVal, int)>,
) -> bool {
    match (r, sp) {
        (Option::None, Option::None) => true,
        (Option::Some(t), Option::Some(q)) => t.0@ == q.0 && val_agrees(t.1, q.1) && t.2 as int
            == q.2,
        _ => false,
    }
}

fn parse_member(s: &[u8], i: usize) -> (r: Option<(Vec<u8>, Val, usize)>)
    requires
        i <= s@.len(),
    ensures
        member_agrees(r, spec_parse_member(s@, i as int)),
        (r matches Some(t) ==> t.2 <= s@.len()),
{
    let kp = match parse_string(s, i) {
        None => {
            return None;
        },
        Some(t) => t,
    };
    let c: usize = skip_ws(s, kp.1);
    if c >= s.len() || s[c] != 0x3a {
        return None;
    }
    let v: usize = skip_ws(s, c + 1);
    if v < s.len() && s[v] == 0x22 {
        match parse_string(s, v) {
            None => None,
            Some(t) => Some((kp.0, Val::Str(t.0), t.1)),
        }
    } else {
        match parse_number(s, v) {
            None => None,
            Some(t) => Some((kp.0, Val::Num(t.0), t.1)),
        }
    }
}

/// A well-formed request: the decoded method string and the number's
/// parsed pieces.
pub open spec fn spec_parse_request(s: Seq<u8>) -> Option<(Seq<u8>, NumParts)> {
    let i0: int = spec_skip_ws(s, 0);
    if !(0 <= i0 < s.len() && s[i0] == 0x7b) {
        None
    } else {
        let i1: int = spec_skip_ws(s, i0 + 1);
        match spec_parse_member(s, i1) {
            Option::None => None,
            Option::Some(m1) => {
                let i2: int = spec_skip_ws(s, m1.2);
                if !(0 <= i2 < s.len() && s[i2] == 0x2c) {
                    None
                } else {
                    let i3: int = spec_skip_ws(s, i2 + 1);
                    match spec_parse_member(s, i3) {
                        Option::None => None,
                        Option::Some(m2) => {
                            let i4: int = spec_skip_ws(s, m2.2);
                            if !(0 <= i4 < s.len() && s[i4] == 0x7d) {
                                None
                            } else if spec_skip_ws(s, i4 + 1) != s.len() {
                                None
                            } else if m1.0 == method_key() && m2.0 == number_key() {
                                match (m1.1, m2.1) {
                                    (SpecVal::Str(m), SpecVal::Num(np)) => Some((m, np)),
                                    _ => None,
                                }
                            } else if m1.0 == number_key() && m2.0 == method_key() {
                                match (m1.1, m2.1) {
                                    (SpecVal::Num(np), SpecVal::Str(m)) => Some((m, np)),
                                    _ => None,
                                }
                            } else {
                                None
                            }
                        },
                    }
                }
            },
        }
    }
}

/// A parsed request: the decoded method string and the classified number.
pub struct Request {
    pub method: Vec<u8>,
    pub number: Number,
}

/// The executable request parse agrees with the spec request parse.
pub open spec fn req_result_agrees(r: Option<Request>, sp: Option<(Seq<u8>, NumParts)>) -> bool {
    match (r, sp) {
        (Option::None, Option::None) => true,
        (Option::Some(req), Option::Some(q)) => req.method@ == q.0 && req.number == spec_classify(
            q.1.neg,
            q.1.mant,
            q.1.exp,
        ),
        _ => false,
    }
}

/// `k` holds exactly the bytes of `"method"`.
pub fn key_is_method(k: &Vec<u8>) -> (r: bool)
    ensures
        r == (k@ == method_key()),
{
    if k.len() != 6 {
        return false;
    }
    let r: bool = k[0] == 0x6d && k[1] == 0x65 && k[2] == 0x74 && k[3] == 0x68 && k[4] == 0x6f
        && k[5] == 0x64;
    proof {
        if r {
            assert(k@ =~= method_key());
        }
    }
    r
}

/// `k` holds exactly the bytes of `"number"`.
pub fn key_is_number(k: &Vec<u8>) -> (r: bool)
    ensures
        r == (k@ == number_key()),
{
    if k.len() != 6 {
        return false;
    }
    let r: bool = k[0] == 0x6e && k[1] == 0x75 && k[2] == 0x6d && k[3] == 0x62 && k[4] == 0x65
        && k[5] == 0x72;
    proof {
        if r {
            assert(k@ =~= number_key());
        }
    }
    r
}

/// `m` holds exactly the bytes of `"isPrime"`.
pub fn method_is_isprime(m: &Vec<u8>) -> (r: bool)
    ensures
        r == (m@ == isprime_bytes()),
{
    if m.len() != 7 {
        return false;
    }
    let r: bool = m[0] == 0x69 && m[1] == 0x73 && m[2] == 0x50 && m[3] == 0x72 && m[4] == 0x69
        && m[5] == 0x6d && m[6] == 0x65;
    proof {
        if r {
            assert(m@ =~= isprime_bytes());
        }
    }
    r
}

/// Parse one received chunk as a request.
pub fn parse_request(s: &[u8]) -> (r: Option<Request>)
    ensures
        req_result_agrees(r, spec_parse_request(s@)),
{
    let i0: usize = skip_ws(s, 0);
    if i0 >= s.len() || s[i0] != 0x7b {
        return None;
    }
    let i1: usize = skip_ws(s, i0 + 1);
    let m1 = match parse_member(s, i1) {
        None => {
            return None;
        },
        Some(t) => t,
    };
    let i2: usize = skip_ws(s, m1.2);
    if i2 >= s.len() || s[i2] != 0x2c {
        return None;
    }
    let i3: usize = skip_ws(s, i2 + 1);
    let m2 = match parse_member(s, i3) {
        None => {
            return None;
        },
        Some(t) => t,
    };
    let i4: usize = skip_ws(s, m2.2);
    if i4 >= s.len() || s[i4] != 0x7d {
        return None;
    }
    let i5: usize = skip_ws(s, i4 + 1);
    if i5 != s.len() {
        return None;
    }
    let (k1, v1, _e1) = m1;
    let (k2, v2, _e2) = m2;
    if key_is_method(&k1) && key_is_number(&k2) {
        match (v1, v2) {
            (Val::Str(m), Val::Num(num)) => Some(Request { method: m, number: num }),
            _ => None,
        }
    } else if key_is_number(&k1) && key_is_method(&k2) {
        match (v1, v2) {
            (Val::Num(num), Val::Str(m)) => Some(Request { method: m, number: num }),
            _ => None,
        }
    } else {
        None
    }
}

} // verus!
