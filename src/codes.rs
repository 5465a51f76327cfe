//! Wire-visible constants: the dictionary bound and the control codes.
use vstd::prelude::*;

verus! {

/// Largest dictionary index that may still admit a new phrase.
pub const MAX_DICT_SIZE: usize = 4090;

/// Pads the second slot of a half-filled group.
pub const NOOP: u16 = 4091;

/// Both sides reset their dictionaries to the 256 literals.
pub const FLUSH_DICTIONARY: u16 = 4093;

/// End of a logical payload.
pub const EOF: u16 = 4094;

/// End of the whole stream.
pub const EOS: u16 = 4095;

/// Number of single-byte phrases that seed a fresh dictionary.
pub const LITERALS: usize = 256;

/// True of the codes that carry protocol events rather than phrases.
pub open spec fn is_control(c: u16) -> bool {
    c == NOOP || c == FLUSH_DICTIONARY || c == EOF || c == EOS
}

} // verus!
