//! Contracts for the two std functions this crate uses that vstd does not
//! describe.
use vstd::prelude::*;

verus! {

/// Relies on `alloc::string::String::push`: appends the given character to
/// the end of the string.
pub assume_specification[ String::push ](s: &mut String, ch: char)
    ensures
        final(s)@ == old(s)@.push(ch),
;

/// Relies on `char::from_u32`: converts the value to a `char`, returning
/// `None` exactly when the value is a surrogate code point or above the
/// Unicode maximum.
pub assume_specification[ char::from_u32 ](i: u32) -> (r: Option<char>)
    ensures
        match r {
            Some(c) => (c as u32) == i && (i < 0xD800 || (0xE000 <= i && i <= 0x10FFFF)),
            None => !(i < 0xD800 || (0xE000 <= i && i <= 0x10FFFF)),
        },
;

} // verus!
