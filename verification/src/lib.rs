//! Content-hash based file change detection.
//!
//! The crate walks a set of files, fingerprints each one with a SHA-256
//! digest, persists the fingerprints to a line-delimited store, and on a
//! later run reports exactly the paths whose content is new or changed.
//!
//! All of the decision logic lives here and is verified: path
//! normalization, store parsing and rendering, the digest pipeline and the
//! diff engine.  Filesystem enumeration and reading are left to the caller,
//! which hands the engine plain `(path, digest)` pairs.

pub mod digest;
pub mod sniffer;
pub mod store;
pub mod text;
pub mod utils;

pub use sniffer::Sniffer;
