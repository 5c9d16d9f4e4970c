//! A bit-level codec for game-server packets: a cursor that reads and writes
//! single bits over a byte buffer, typed values layered on top of it, and a
//! record codec driven by explicit encoding plans.
use vstd::prelude::*;

pub mod arrays;
pub mod bits;
pub mod decode;
pub mod encode;
pub mod laws;
pub mod reader;
pub mod record;
pub mod schema;
pub mod size;
pub mod strings;
pub mod utf16;
pub mod validate;
pub mod values;
pub mod writer;

pub use arrays::{ReadArrayValue, ReadPackedArrayValue, WriteArrayValue, WritePackedArrayValue};
pub use reader::BitPackReader;
pub use record::UnionPlan;
pub use schema::{
    FieldPlan, IntKind, Item, Member, MemberPlan, Record, RecordPlan, Scalar, Shape, Value,
};
pub use values::{ReadPackedValue, ReadValue, WritePackedValue, WriteValue};
pub use writer::BitPackWriter;

verus! {

/// What can go wrong while reading or writing a bit stream.
///
/// After any error the cursor that reported it must be discarded.
#[derive(Debug, Clone, Copy, PartialEq, Eq, Structural)]
pub enum BitPackError {
    /// A read or write would go past the end of the buffer.
    OutOfBounds,
    /// Decoded string content is not valid text.
    InvalidStringEncoding,
    /// A union discriminant names no variant.
    InvalidUnionVariant,
    /// A length-referenced list disagrees with its length field.
    LengthMismatch,
}

} // verus!
