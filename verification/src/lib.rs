//! A verified MessagePack codec: a compact, self-describing, type-tagged
//! binary encoding for scalars, strings, byte blobs, recursive arrays and
//! maps, and application-defined extension blocks.
//!
//! The encoder always picks the smallest wire form that can hold a value;
//! the decoder reads one tag byte, dispatches on it, and reconstructs a
//! tagged value tree.  Both sides are specified against the same
//! mathematical wire model (`wire`), and round-trip and minimality laws
//! are proved in `laws`.

pub mod encoder;
pub mod laws;
pub mod magic;
pub mod reader;
pub mod value;
pub mod wire;
