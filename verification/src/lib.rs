//! Codec for the MotoLogo game-asset archive format: a directory of named
//! raster images stored as run-length-encoded 24-bit RGB pixel streams.
//!
//! Two independent components, composed only through byte sequences:
//! the container codec ([`container`]) lays out the archive header,
//! directory table and 256-byte-aligned blob regions, and the pixel
//! stream codec ([`rle`]) turns one image's pixel grid into the
//! run-length token stream stored inside a blob.

pub mod args;
pub mod container;
pub mod error;
pub mod pixel;
pub mod rle;
