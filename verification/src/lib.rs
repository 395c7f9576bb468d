//! A line-oriented binary-to-text codec over a 32-symbol alphabet.
//!
//! Bytes are packed five at a time into groups of eight symbols, the groups
//! are laid out on lines of a fixed width, and every line ends with four
//! symbols that carry a running 20-bit CRC of all the bytes up to the end of
//! that line.
//!
//! - `alphabet`: the 32 symbols and the pad character, with the inverse
//!   table.
//! - `radix`: byte strings as little-endian numbers.
//! - `chunk`: the codec of the groups, `raw_encode` and `raw_decode`.
//! - `crc`: the checksum, `crc_update`.
//! - `frame`: the lines, `encode` and `decode`.
//! - `text`: the comment lines around the encoded lines, and the choice of
//!   the data lines of a text.
//! - `chunk_laws`, `crc_laws`, `frame_laws`: what is proved of the three:
//!   decoding undoes encoding, the shapes of the groups and of the lines,
//!   and which changes of a line the checksum brings to light.

pub mod alphabet;
pub mod radix;
pub mod chunk;
pub mod chunk_laws;
pub mod crc;
pub mod crc_laws;
pub mod frame;
pub mod frame_laws;
pub mod text;
