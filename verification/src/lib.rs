//! A codec between sequences of 16-bit words and a compact rune text.

pub mod command;
pub mod container;
pub mod hex;
pub mod reverse;
pub mod roundtrip;
pub mod text;
pub mod tokens;
pub mod word;
