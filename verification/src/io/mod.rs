//! Settings of the file layer: the preferences that the command line fills
//! and the reserved names that stand for standard streams.

pub mod prefs;
pub mod file_io;
