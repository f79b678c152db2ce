//! A verified core for a line-oriented JSON "is this number prime" TCP
//! service.
//!
//! The library is pure: it turns one received byte chunk into exactly one
//! JSON response string. All networking stays outside the library; a caller
//! reads a chunk from a connection, hands it to [`protocol::handle_request`],
//! and writes the returned bytes back on the same connection.

pub mod digits;
pub mod num;
pub mod parse;
pub mod protocol;
pub mod primes;

pub use num::Number;
pub use parse::{parse_request, Request};
pub use primes::is_prime_u64;
pub use protocol::handle_request;
