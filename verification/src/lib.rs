//! A pixel buffer for a window, addressed by position and coloured by
//! hexadecimal RGB codes, with the drawing primitives that write into it.
//!
//! Functions that take a colour take a `&str` of six hexadecimal digits;
//! functions that hand one back return a `String`.

pub mod color;
pub mod error;
pub mod window;

pub use color::{from_hex, from_u8_rgb, hex2num_code, hex_to_rgb, num2hex_code, rgb_to_hex, to_hex, to_hex_u8};
pub use error::WinErr;
pub use window::WindowContainer;
