use prime_time::handle_request;

const MALFORMED: &str = "{\"method\":\"malformed\",\"prime\":false}";
const PRIME_TRUE: &str = "{\"method\":\"isPrime\",\"prime\":true}";

#[test]
fn unicode_escape_in_method_value() {
    assert_eq!(
        handle_request(b"{\"method\":\"\\u0069sPrime\",\"number\":7}"),
        PRIME_TRUE
    );
}

#[test]
fn unicode_escape_in_member_name() {
    assert_eq!(
        handle_request(b"{\"me\\u0074hod\":\"isPrime\",\"number\":7}"),
        PRIME_TRUE
    );
}

#[test]
fn surrogate_pair_decodes_but_is_not_is_prime() {
    assert_eq!(
        handle_request(b"{\"method\":\"\\uD83D\\uDE00\",\"number\":7}"),
        MALFORMED
    );
}

#[test]
fn lone_surrogate_is_malformed() {
    assert_eq!(
        handle_request(b"{\"method\":\"a\\uD800b\",\"number\":7}"),
        MALFORMED
    );
}

#[test]
fn bad_hex_escape_is_malformed() {
    assert_eq!(
        handle_request(b"{\"method\":\"\\u00G1\",\"number\":7}"),
        MALFORMED
    );
    assert_eq!(handle_request(b"{\"method\":\"\\u00\",\"number\":7}"), MALFORMED);
}

#[test]
fn unknown_escape_is_malformed() {
    assert_eq!(handle_request(b"{\"method\":\"\\x41\",\"number\":7}"), MALFORMED);
}
