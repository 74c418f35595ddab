//! Canonical ECMAScript text for a double held as a shortest decimal pair:
//! the reduction of that pair and its rendering as `Number.prototype.toString`
//! writes it in base ten.

pub mod policy;
pub mod to_chars;

pub use policy::{prefer_round_down, remove_trailing_zeros, rotr64};
pub use to_chars::{to_chars, to_chars_detail, Decimal, MAX_OUTPUT_STRING_LENGTH};
