//! Splitting of link-layer frames into small headered fragments for a
//! low-bandwidth message bus, and their reassembly on the other side.
//!
//! - [`header`]: the one-byte fragment header.
//! - [`fragmenter`]: a frame to its ordered fragments.
//! - [`reassembler`]: the single reassembly context and its entry point.
//! - [`laws`]: what holds of the two together.
//! - [`codec`]: the bus's decimal text form of a fragment.
pub mod codec;
pub mod fragmenter;
pub mod header;
pub mod laws;
pub mod reassembler;
