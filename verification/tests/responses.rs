use prime_time::handle_request;

const MALFORMED: &str = "{\"method\":\"malformed\",\"prime\":false}";
const PRIME_TRUE: &str = "{\"method\":\"isPrime\",\"prime\":true}";
const PRIME_FALSE: &str = "{\"method\":\"isPrime\",\"prime\":false}";

#[test]
fn valid_prime_request() {
    assert_eq!(handle_request(b"{\"method\":\"isPrime\",\"number\":7}"), PRIME_TRUE);
}

#[test]
fn valid_composite_request() {
    assert_eq!(handle_request(b"{\"method\":\"isPrime\",\"number\":8}"), PRIME_FALSE);
}

#[test]
fn members_in_either_order() {
    assert_eq!(handle_request(b"{\"number\":7,\"method\":\"isPrime\"}"), PRIME_TRUE);
}

#[test]
fn whitespace_around_tokens() {
    assert_eq!(
        handle_request(b" { \"method\" : \"isPrime\" , \"number\" : 2 } \r\n"),
        PRIME_TRUE
    );
}

#[test]
fn wrong_method_is_malformed() {
    assert_eq!(handle_request(b"{\"method\":\"isprime\",\"number\":7}"), MALFORMED);
    assert_eq!(handle_request(b"{\"method\":\"add\",\"number\":7}"), MALFORMED);
}

#[test]
fn method_with_escape_is_not_is_prime() {
    assert_eq!(handle_request(b"{\"method\":\"isPrime\\n\",\"number\":7}"), MALFORMED);
}

#[test]
fn escaped_quote_inside_method() {
    assert_eq!(handle_request(b"{\"method\":\"is\\\"Prime\",\"number\":7}"), MALFORMED);
}

#[test]
fn not_json_is_malformed() {
    assert_eq!(handle_request(b"hello"), MALFORMED);
    assert_eq!(handle_request(b""), MALFORMED);
    assert_eq!(handle_request(b"{"), MALFORMED);
}

#[test]
fn missing_members_are_malformed() {
    assert_eq!(handle_request(b"{\"method\":\"isPrime\"}"), MALFORMED);
    assert_eq!(handle_request(b"{\"number\":7}"), MALFORMED);
    assert_eq!(handle_request(b"{}"), MALFORMED);
}

#[test]
fn wrong_types_are_malformed() {
    assert_eq!(handle_request(b"{\"method\":\"isPrime\",\"number\":\"7\"}"), MALFORMED);
    assert_eq!(handle_request(b"{\"method\":7,\"number\":7}"), MALFORMED);
    assert_eq!(handle_request(b"{\"method\":\"isPrime\",\"number\":true}"), MALFORMED);
}

#[test]
fn extra_member_is_malformed() {
    assert_eq!(
        handle_request(b"{\"method\":\"isPrime\",\"number\":7,\"extra\":1}"),
        MALFORMED
    );
}

#[test]
fn duplicate_member_is_malformed() {
    assert_eq!(
        handle_request(b"{\"method\":\"isPrime\",\"method\":\"isPrime\"}"),
        MALFORMED
    );
}

#[test]
fn trailing_text_is_malformed() {
    assert_eq!(handle_request(b"{\"method\":\"isPrime\",\"number\":7}x"), MALFORMED);
    assert_eq!(
        handle_request(b"{\"method\":\"isPrime\",\"number\":7}{\"method\":\"isPrime\",\"number\":7}"),
        MALFORMED
    );
}

#[test]
fn non_finite_tokens_are_malformed() {
    assert_eq!(handle_request(b"{\"method\":\"isPrime\",\"number\":NaN}"), MALFORMED);
    assert_eq!(handle_request(b"{\"method\":\"isPrime\",\"number\":Infinity}"), MALFORMED);
    assert_eq!(handle_request(b"{\"method\":\"isPrime\",\"number\":-Infinity}"), MALFORMED);
}

#[test]
fn large_prime_needs_full_precision_bound() {
    assert_eq!(
        handle_request(b"{\"method\":\"isPrime\",\"number\":1000000007}"),
        PRIME_TRUE
    );
}

#[test]
fn large_composite_by_trial_division() {
    assert_eq!(
        handle_request(b"{\"method\":\"isPrime\",\"number\":999999999999999}"),
        PRIME_FALSE
    );
}

#[test]
fn two_requests_in_order() {
    let first = handle_request(b"{\"method\":\"isPrime\",\"number\":7}");
    let second = handle_request(b"{\"method\":\"isPrime\",\"number\":8}");
    assert_eq!(first, PRIME_TRUE);
    assert_eq!(second, PRIME_FALSE);
}
