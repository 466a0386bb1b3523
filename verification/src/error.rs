use vstd::prelude::*;

verus! {

/// Errors concerning the window container.
#[derive(Debug, PartialEq, Eq)]
pub enum WinErr {
    /// The display surface failed; carries its message.
    MinifbError(String),
    /// A colour code that is not six characters long; carries the code.
    InvalidHexCode(String),
    /// A character that is not a hexadecimal digit.
    InvalidHexChar(char),
    /// A digit value above 15.
    InvalidNumCode(u8),
    /// A colour value above `0xFFFFFF`.
    InvalidRGBValue(u32),
    /// A buffer index past the end of the buffer.
    InvalidIndex(usize),
    /// A position outside the buffer's width and height.
    InvalidPos((usize, usize)),
}

} // verus!
