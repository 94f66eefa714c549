//! A verified codec suite for two file formats of a game-asset toolchain: a
//! hierarchical key/value text format with quoting, escapes, comments and
//! conditional flags, and a binary package format whose directory maps
//! relative paths to file bytes split between inline preload data and
//! numbered archive files.

pub mod kv;
pub mod text;
pub mod vpk;
