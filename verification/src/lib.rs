//! Core engine of a selective backup tool.
//!
//! The library packages a user-chosen set of files and directories into a
//! single archive value that embeds a manifest ("fingerprint") recording each
//! top-level selection's original absolute path, and restores a chosen subset
//! of such an archive, remapping recorded paths onto the current home
//! directory when the two differ.  All of the path arithmetic, manifest
//! encoding and decoding, tree building, selection filtering and progress
//! accounting is verified; reading and writing the actual container on disk
//! is left to the surrounding application.

pub mod archive;
pub mod manifest;
pub mod paths;
pub mod progress;
pub mod restore;
pub mod selection;
pub mod text;
pub mod tree;
