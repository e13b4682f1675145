//! Core of a content-addressed artifact store.
//!
//! Three subsystems share one hashing primitive: a canonical, bit-exact
//! serializer for filesystem subtrees (`nar`), a line-oriented recipe format
//! with deterministic normalization and identity derivation (`meta`), and
//! the planning half of the publisher that installs artifacts under
//! `/axim/<digest>/…` (`publish`). The primitive (`hash`) is SHA3-256
//! rendered in a fixed 64-symbol alphabet as a two-segment path fragment.
//!
//! Everything here computes over plain bytes; reading and writing files,
//! streams and the store itself is left to the binary built around the
//! library.

pub mod bytes;
pub mod cli;
pub mod hash;
pub mod meta;
pub mod nar;
pub mod publish;
