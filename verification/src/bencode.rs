//! The bencode codec: integers, byte strings, lists and dictionaries.

pub mod value;
pub mod encode;
pub mod decode;
pub mod laws;
