//! A verified compiler and runtime for fixed-structure binary instruction
//! encodings.
//!
//! An instruction set is described by a list of textual bit patterns such as
//! `"0x1x0x"` or `"0b0101_xxyy"`, each with the fields that its variable
//! symbols stand for.  Compiling such a description validates it (symbol
//! legality, field widths, pairwise collision freedom) and produces an
//! immutable model from which two pure functions operate: `encode`, which
//! serializes a typed instruction value into a byte buffer, and `decode`,
//! which recognizes a byte buffer via a binary decision tree and destructures
//! it into a typed instruction value.

pub mod binder;
pub mod bitmath;
pub mod codec;
pub mod collision;
pub mod iset;
pub mod laws;
pub mod matcher;
pub mod model;
pub mod pattern;
pub mod posmap;

pub use iset::InstructionSet;
pub use model::DecodeError;
pub use model::EncodeError;
pub use model::FieldDescriptor;
pub use model::FieldType;
pub use model::InstrDescriptor;
pub use model::InstrValue;
pub use model::SpecError;
pub use pattern::hex_to_bin_string;
pub use pattern::Opcode;
