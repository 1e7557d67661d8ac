//! The ASCII bytes that bencode gives a meaning to.

use vstd::prelude::*;

verus! {

pub const DIGIT_ZERO: u8 = 48;
pub const DIGIT_NINE: u8 = 57;
pub const MINUS: u8 = 45;
pub const PLUS: u8 = 43;
pub const COLON: u8 = 58;
/// `i`, which opens an integer.
pub const INTEGER_START: u8 = 105;
/// `l`, which opens a list.
pub const LIST_START: u8 = 108;
/// `d`, which opens a dictionary.
pub const DICT_START: u8 = 100;
/// `e`, which closes integers, lists and dictionaries.
pub const END: u8 = 101;

} // verus!
