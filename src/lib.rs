//! Building and reading FlatBuffers: a zero-copy binary format whose buffers
//! are navigated through offsets, without a parsing step.
pub mod endian;
mod downward;
pub mod builder;
pub mod reader;

pub use builder::{
    field_index_to_offset, padding_bytes, BuilderModel, FieldLoc, FlatBufferBuilder, Offset, OrdTable,
    SOffset, UOffset, VOffset,
};
pub use endian::Endian;
pub use reader::{get_root, Str, StringKey, Struct, Table, VecIter, Vector};
pub use downward::{zeros, MAX_BUFFER_SIZE};
pub mod laws;
