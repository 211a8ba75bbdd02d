//! The four reserved zero-width characters of the wire format.

use vstd::prelude::*;

verus! {

/// Binary digit 0 (ZERO WIDTH SPACE).
pub const BIT_ZERO: char = '\u{200B}';

/// Binary digit 1 (ZERO WIDTH NON-JOINER).
pub const BIT_ONE: char = '\u{200C}';

/// Opens the payload region (ZERO WIDTH JOINER).
pub const START_MARKER: char = '\u{200D}';

/// Closes the payload region (ZERO WIDTH NO-BREAK SPACE).
pub const END_MARKER: char = '\u{FEFF}';

/// True of the four characters that the wire format reserves.
pub open spec fn is_reserved(c: char) -> bool {
    c == BIT_ZERO || c == BIT_ONE || c == START_MARKER || c == END_MARKER
}

/// The character that stands for one bit.
pub open spec fn bit_symbol(bit: bool) -> char {
    if bit {
        BIT_ONE
    } else {
        BIT_ZERO
    }
}

/// The bit a character stands for, if it is a bit symbol.
pub open spec fn symbol_bit(c: char) -> Option<bool> {
    if c == BIT_ZERO {
        Some(false)
    } else if c == BIT_ONE {
        Some(true)
    } else {
        None
    }
}

} // verus!
