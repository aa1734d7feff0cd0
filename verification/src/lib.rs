//! Post-build manipulation of named, fixed-size data slots inside compiled
//! binaries.
//!
//! A producer toolchain places a directory of *slots* into a reserved linker
//! section of an executable or library.  This crate locates that section in a
//! finished artifact (ELF, PE, Mach-O, fat Mach-O, Unix archive or COFF),
//! decodes the slot directory, and lets a caller read slot values or stage new
//! ones and write them back, changing no byte of the file outside the slot
//! payloads.

use vstd::prelude::*;

pub mod codec;
pub mod decode;
pub mod directory;
pub mod discover;
pub mod embedder;
pub mod encode;
pub mod iter;
pub mod laws;
pub mod objects;
pub mod store;
pub mod util;

pub use decode::{DecodeLinkstore, TryDecodeLinkstore, TryDecodeLinkstoreArrayError};
pub use embedder::Embedder;
pub use encode::{EmbeddableBytes, EncodeLinkstore};
pub use iter::{EmbeddedValueIterator, TryEmbeddedValueIterator};
pub use store::{calc_padding, VolatileWrapper};
pub use util::MaybeScalar;

verus! {

/// Errors surfaced by every fallible operation of this crate.
#[derive(Debug)]
pub enum Error {
    /// The object-format parser rejected the input; the detail is its message.
    Goblin(String),
    /// A slot's stored payload size does not match the size of the requested
    /// value type: `MismatchedSize(found, expected)`.
    MismatchedSize(u64, usize),
    /// The directory holds no slot of the given name.
    NotPresent(String),
    /// The binary was recognised but holds no slot section.
    NoLinkstore,
    /// No known object format matched the input bytes.
    Unrecognised,
    /// The slot directory is corrupt in a way no finer error describes.
    DecodingError,
    /// A slot name was empty or could not be read.
    NameDecodingError,
    /// A declared size runs past the available bytes.
    UnexpectedEof,
}

} // verus!
