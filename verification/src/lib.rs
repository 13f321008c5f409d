//! Percent-encoding of byte sequences and strings.
//!
//! Every byte outside a configurable safe set is rewritten as `%XX` with
//! uppercase hexadecimal digits; safe bytes pass through unchanged.  The
//! default safe set holds the ASCII letters, the digits, and `- . _ ~`.

pub mod enc;
pub mod model;
pub mod sink;

pub use enc::Encoded;
pub use enc::Escaped;
pub use enc::encode;
pub use enc::encode_binary;
pub use enc::encode_exclude;
pub use model::default_safe;
pub use model::safe_byte;
pub use model::hex_digit;
pub use model::encoded_byte;
pub use model::encoded_bytes;
pub use model::all_safe;
pub use sink::BoundedSink;
pub use sink::ByteSink;
pub use sink::VecSink;
