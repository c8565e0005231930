//! Bit-level packing of fields into the bytes of a record.
//!
//! A packed record is a run of bytes in which fields lie side by side with
//! no padding: a field may be one bit wide or 128, and may start and end
//! anywhere inside a byte. This crate holds what reading and writing such
//! fields rests on:
//!
//! - [`register`]: the native unsigned integers as bit registers, with the
//!   two primitives that push a chunk of bits in and pop one out;
//! - [`access`]: reading a field out of a record and writing one into it,
//!   leaving every neighbouring bit alone;
//! - [`specifier`]: the [`Specifier`] capability, which says of a type how
//!   many bits it takes and how its values become bit patterns, with its
//!   impls for `bool` and the unsigned integers;
//! - [`enum_specifier`], [`checks`] and [`bitfield_specifier`]: enumerations
//!   as fields, from their declaration through the checks on width and
//!   discriminants to a table that encodes and decodes their variants;
//! - [`naming`]: the identifiers that variants are bound under;
//! - [`bitmath`]: the arithmetic of bit patterns that the contracts are
//!   stated in.
//!
//! The functions are verified against their contracts, which hold for
//! every register, width and offset. The two calls that leave the crate,
//! into `heck` and `syn`, are in [`naming`] and are the only code here that
//! is taken on trust.

pub mod access;
pub mod bitfield_specifier;
pub mod bitmath;
pub mod checks;
pub mod enum_specifier;
pub mod naming;
pub mod register;
pub mod specifier;

pub use crate::access::{read_bits, read_specifier, write_bits, write_specifier};
pub use crate::checks::DefinitionError;
pub use crate::enum_specifier::EnumSpecifier;
pub use crate::register::{PopBits, PushBits, Register};
pub use crate::specifier::{Bits, InvalidBitPattern, Specifier, SpecifierBase};
