//! Directory-tree comparison by content digest.
//!
//! `digest` turns a byte stream into a BLAKE3 hex digest, `paths` makes file
//! paths relative to their root, `fingerprint` collects the per-file results of
//! one tree, and `reconcile` classifies the paths of two trees.
pub mod digest;
pub mod fingerprint;
pub mod paths;
pub mod reconcile;
