//! Decoder and encoder for a chunked virtual-machine module container:
//! a fixed 12-byte header followed by named, length-prefixed, 4-byte-aligned
//! chunks, together with the bit-packed variable-width encoding used for
//! instruction operand tags inside code-bearing chunk payloads.

pub mod bits;
pub mod container;
pub mod cursor;
pub mod error;
pub mod instructions;
pub mod tables;
pub mod text;
pub mod writer;
