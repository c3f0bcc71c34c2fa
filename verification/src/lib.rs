//! C32: a checksummed, case-insensitive base-32 text encoding for short
//! binary payloads.
//!
//! The crate is layered leaf first:
//!
//! * [`alphabet`]: the 32 symbols and the table that reads them back,
//!   aliases included;
//! * [`radix`]: the arithmetic of digit strings that the encoding rests on;
//! * [`text`]: ASCII text as the codes of its characters;
//! * [`codec`]: the raw transform between bytes and symbols;
//! * [`checksum`]: the four checksum bytes, taken from a double SHA-256;
//! * [`envelope`]: a version and a payload with its checksum, as symbols;
//! * [`address`]: an envelope behind the letter `S`.

pub mod error;
pub mod alphabet;
pub mod radix;
pub mod text;
pub mod codec;
pub mod checksum;
pub mod envelope;
pub mod address;

pub use error::Error;
pub use address::c32_address;
pub use address::c32_address_decode;
pub use codec::c32_decode;
pub use codec::c32_encode;
