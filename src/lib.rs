//! A POSIX ustar archive of a directory tree, laid out as an ordered list of
//! byte-producing segments and read at any offset without being built.

pub mod ints;
pub mod segment;
pub mod archive;
pub mod layout;
pub mod laws;
