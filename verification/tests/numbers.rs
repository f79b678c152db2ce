use prime_time::handle_request;
use prime_time::{parse_request, Number};

const MALFORMED: &str = "{\"method\":\"malformed\",\"prime\":false}";
const PRIME_TRUE: &str = "{\"method\":\"isPrime\",\"prime\":true}";
const PRIME_FALSE: &str = "{\"method\":\"isPrime\",\"prime\":false}";

fn number_of(request: &[u8]) -> Number {
    parse_request(request).expect("request should parse").number
}

#[test]
fn plain_integers() {
    assert_eq!(number_of(b"{\"method\":\"isPrime\",\"number\":7}"), Number::Candidate(7));
    assert_eq!(number_of(b"{\"method\":\"isPrime\",\"number\":0}"), Number::NotCandidate);
    assert_eq!(number_of(b"{\"method\":\"isPrime\",\"number\":1}"), Number::NotCandidate);
    assert_eq!(number_of(b"{\"method\":\"isPrime\",\"number\":2}"), Number::Candidate(2));
}

#[test]
fn negative_and_fractional_are_no_candidates() {
    assert_eq!(number_of(b"{\"method\":\"isPrime\",\"number\":-7}"), Number::NotCandidate);
    assert_eq!(number_of(b"{\"method\":\"isPrime\",\"number\":7.5}"), Number::NotCandidate);
    assert_eq!(number_of(b"{\"method\":\"isPrime\",\"number\":0.0001}"), Number::NotCandidate);
    assert_eq!(number_of(b"{\"method\":\"isPrime\",\"number\":-0.5}"), Number::NotCandidate);
}

#[test]
fn integral_fractions_and_exponents() {
    assert_eq!(number_of(b"{\"method\":\"isPrime\",\"number\":7.0}"), Number::Candidate(7));
    assert_eq!(number_of(b"{\"method\":\"isPrime\",\"number\":7.000}"), Number::Candidate(7));
    assert_eq!(number_of(b"{\"method\":\"isPrime\",\"number\":2e0}"), Number::Candidate(2));
    assert_eq!(number_of(b"{\"method\":\"isPrime\",\"number\":1e3}"), Number::Candidate(1000));
    assert_eq!(number_of(b"{\"method\":\"isPrime\",\"number\":2.5e1}"), Number::Candidate(25));
    assert_eq!(number_of(b"{\"method\":\"isPrime\",\"number\":250e-1}"), Number::Candidate(25));
    assert_eq!(number_of(b"{\"method\":\"isPrime\",\"number\":0.25E2}"), Number::Candidate(25));
    assert_eq!(number_of(b"{\"method\":\"isPrime\",\"number\":5e-1}"), Number::NotCandidate);
    assert_eq!(number_of(b"{\"method\":\"isPrime\",\"number\":-0}"), Number::NotCandidate);
    assert_eq!(number_of(b"{\"method\":\"isPrime\",\"number\":0e-99999}"), Number::NotCandidate);
}

#[test]
fn values_beyond_u64_are_too_large() {
    assert_eq!(
        number_of(b"{\"method\":\"isPrime\",\"number\":18446744073709551615}"),
        Number::Candidate(u64::MAX)
    );
    assert_eq!(
        number_of(b"{\"method\":\"isPrime\",\"number\":18446744073709551616}"),
        Number::TooLarge
    );
    assert_eq!(number_of(b"{\"method\":\"isPrime\",\"number\":1e20}"), Number::TooLarge);
    assert_eq!(number_of(b"{\"method\":\"isPrime\",\"number\":2e99999}"), Number::TooLarge);
    assert_eq!(
        number_of(b"{\"method\":\"isPrime\",\"number\":2.000000001e99999999999999999999999}"),
        Number::TooLarge
    );
}

#[test]
fn tiny_exponents_are_no_candidates() {
    assert_eq!(
        number_of(b"{\"method\":\"isPrime\",\"number\":1e-99999999999999999999999}"),
        Number::NotCandidate
    );
}

#[test]
fn number_grammar_rejections() {
    assert_eq!(handle_request(b"{\"method\":\"isPrime\",\"number\":07}"), MALFORMED);
    assert_eq!(handle_request(b"{\"method\":\"isPrime\",\"number\":7.}"), MALFORMED);
    assert_eq!(handle_request(b"{\"method\":\"isPrime\",\"number\":.5}"), MALFORMED);
    assert_eq!(handle_request(b"{\"method\":\"isPrime\",\"number\":+7}"), MALFORMED);
    assert_eq!(handle_request(b"{\"method\":\"isPrime\",\"number\":7e}"), MALFORMED);
    assert_eq!(handle_request(b"{\"method\":\"isPrime\",\"number\":--7}"), MALFORMED);
}

#[test]
fn too_large_integer_is_answered_not_prime() {
    assert_eq!(handle_request(b"{\"method\":\"isPrime\",\"number\":1e30}"), PRIME_FALSE);
}

#[test]
fn fractional_number_is_answered_not_prime() {
    assert_eq!(handle_request(b"{\"method\":\"isPrime\",\"number\":17.5}"), PRIME_FALSE);
}
