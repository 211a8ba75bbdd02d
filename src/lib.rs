//! Hides a byte payload inside ordinary text by inserting a run of
//! zero-width characters after the first character of a cover text.
//!
//! The wire format is `<first cover char> START (<bit>{8})* END <rest of cover>`,
//! with each payload byte written most-significant bit first.

mod codec;
mod error;
pub mod laws;
pub mod model;
pub mod symbols;
mod text;
pub mod utils;

pub use codec::{decode, encode};
pub use error::Error;
pub use symbols::{BIT_ONE, BIT_ZERO, END_MARKER, START_MARKER};
pub use utils::{is_zero_width_char, strip_hidden};
