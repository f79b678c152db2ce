//! The request/response rule of the service.
//!
//! Every received chunk is owed exactly one response. A well-formed
//! `isPrime` request is answered with the `isPrime` response carrying the
//! primality verdict; everything else — unparsable bytes, a wrong method,
//! missing members, type mismatches — is answered with the malformed
//! response. `spec_response` states the whole rule; `handle_request`
//! computes it.

use vstd::prelude::*;

verus! {

use crate::num::{spec_classify, spec_num_int_value, spec_num_is_integer, Number};
use crate::parse::{
    isprime_bytes,
    method_is_isprime,
    parse_request,
    spec_parse_request,
    NumParts,
    Request,
};
use crate::primes::{is_prime_u64, spec_is_prime};

/// The response to anything that is not a well-formed `isPrime` request.
pub open spec fn malformed_response() -> Seq<char> {
    "{\"method\":\"malformed\",\"prime\":false}"@
}

/// The response affirming that the number is prime.
pub open spec fn prime_true_response() -> Seq<char> {
    "{\"method\":\"isPrime\",\"prime\":true}"@
}

/// The response denying that the number is prime.
pub open spec fn prime_false_response() -> Seq<char> {
    "{\"method\":\"isPrime\",\"prime\":false}"@
}

/// The verdict reported for a request's number: it denotes an integer in
/// `[2, u64::MAX]` and that integer is prime. A value that is no integer
/// or at most one is never prime; an integer beyond `u64::MAX` is beyond
/// the reach of trial division and is reported not prime.
pub open spec fn spec_prime_verdict(neg: bool, mant: Seq<u8>, exp: int) -> bool {
    match spec_classify(neg, mant, exp) {
        Number::Candidate(v) => spec_is_prime(v as int),
        _ => false,
    }
}

/// The one response owed to one received chunk.
pub open spec fn spec_response(input: Seq<u8>) -> Seq<char> {
    match spec_parse_request(input) {
        Option::None => malformed_response(),
        Option::Some(q) => if q.0 == isprime_bytes() {
            if spec_prime_verdict(q.1.neg, q.1.mant, q.1.exp) {
                prime_true_response()
            } else {
                prime_false_response()
            }
        } else {
            malformed_response()
        },
    }
}

impl Request {
    /// The primality verdict for a classified number.
    pub fn is_prime(n: Number) -> (r: bool)
        ensures
            r == (match n {
                Number::Candidate(v) => spec_is_prime(v as int),
                _ => false,
            }),
    {
        match n {
            Number::Candidate(v) => is_prime_u64(v),
            _ => false,
        }
    }
}

/// Compute the response to one received chunk.
pub fn handle_request(input: &[u8]) -> (r: &'static str)
    ensures
        r@ == spec_response(input@),
{
    match parse_request(input) {
        None => "{\"method\":\"malformed\",\"prime\":false}",
        Some(req) => {
            if method_is_isprime(&req.method) {
                if Request::is_prime(req.number) {
                    "{\"method\":\"isPrime\",\"prime\":true}"
                } else {
                    "{\"method\":\"isPrime\",\"prime\":false}"
                }
            } else {
                "{\"method\":\"malformed\",\"prime\":false}"
            }
        },
    }
}

/// A well-formed `isPrime` request is answered with the `isPrime`
/// response that carries exactly the primality verdict for its number.
pub proof fn lemma_valid_request_response(s: Seq<u8>, m: Seq<u8>, np: NumParts)
    requires
        spec_parse_request(s) == Some((m, np)),
        m == isprime_bytes(),
    ensures
        spec_response(s) == (if spec_prime_verdict(np.neg, np.mant, np.exp) {
            prime_true_response()
        } else {
            prime_false_response()
        }),
{
}

/// A well-formed request whose method is not `isPrime` is answered with
/// the malformed response.
pub proof fn lemma_wrong_method_response(s: Seq<u8>, m: Seq<u8>, np: NumParts)
    requires
        spec_parse_request(s) == Some((m, np)),
        m != isprime_bytes(),
    ensures
        spec_response(s) == malformed_response(),
{
}

/// Input that does not parse as a request — not JSON, missing members,
/// wrong types, unknown members — is answered with the malformed response.
pub proof fn lemma_unparsed_response(s: Seq<u8>)
    requires
        spec_parse_request(s) is None,
    ensures
        spec_response(s) == malformed_response(),
{
}

/// A number that denotes no integer, or an integer of at most one, is
/// never reported prime.
pub proof fn lemma_small_or_fractional_never_prime(neg: bool, mant: Seq<u8>, exp: int)
    requires
        !spec_num_is_integer(mant, exp) || spec_num_int_value(neg, mant, exp) <= 1,
    ensures
        !spec_prime_verdict(neg, mant, exp),
{
}

} // verus!
