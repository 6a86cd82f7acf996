//! Random password generation over a compactly specified character set.
//!
//! [`charset`] compiles a specification such as `a-z0-9` or `^\-` into an
//! ascending list of allowed bytes; [`sampler`] turns one large random number
//! into a batch of passwords over that list.

pub mod bignum;
pub mod charset;
pub mod error;
pub mod sampler;

pub use charset::parse_charset_spec;
pub use error::PasswordError;
pub use sampler::{entropy_bytes, generate, passwords_from_draw, passwords_from_entropy};

