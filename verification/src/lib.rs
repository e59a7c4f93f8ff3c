//! A modular byte-stream compression pipeline for binary payloads that
//! contain long runs of zeros and other repeated bytes.
//!
//! The library exposes a pipeline engine ([`CompressionChain`]) that composes
//! pluggable byte-to-byte transformations ([`CompressionOp`]), two built-in
//! transformations (zero-run elimination and run-length encoding), and a
//! self-describing container format ([`CompressedData`]) carrying a version
//! header and the ordered list of operations that were applied.

pub mod chain;
pub mod container;
pub mod errors;
pub mod ops;
pub mod version;

pub use chain::CompressionChain;
pub use chain::CompressionOp;
pub use container::CompressedData;
pub use errors::CompressionError;
pub use errors::ErrorKind;
pub use version::FileVersion;
pub use version::CURRENT_VERSION;
