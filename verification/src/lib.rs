//! Decoder for a textual fixed-width binary instruction encoding.
//!
//! Each input line is a string of `0`/`1` characters (interior spaces are
//! cosmetic) that packs six fixed-width fields: a 32-bit label, an 8-bit
//! opcode, and two operands, each a 4-bit type tag followed by a 32-bit
//! value. The decoder slices a line at the fixed field offsets and converts
//! every field to numeric form, reporting a structured error for any
//! malformed line instead of panicking.

pub mod bits;
pub mod laws;
pub mod lines;
pub mod parser;
pub mod record;

pub use parser::BinParser;
pub use record::Binary;
pub use record::DecodeError;
pub use record::Field;
pub use record::LineError;
