//! An in-memory staging area for raw assets: byte buffers kept under
//! normalized paths, found again by exact or partial path, and handed to
//! decoders that turn them into typed values.
//!
//! [`io::RawAssets`] is the store. Its contracts are stated over the model in
//! [`io::model`]: the entries of a store as a sequence of paths with their
//! bytes, oldest first, and [`io::model::resolve`], the rule that picks the
//! entry for a path that is asked for. [`io::path`] holds the text rules
//! that the model rests on, [`io::laws`] what follows for sequences of
//! operations, and [`io::Deserialize`] is what a decoder implements.
//! [`texture`] holds the texture value that decoders of images produce.

pub mod error;
pub mod io;
pub mod texture;

pub use error::Error;
pub use texture::Texture2D;
