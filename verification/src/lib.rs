//! Building tar archives: header blocks, entries, long-name extensions and the
//! end-of-archive marker.
pub mod error;
pub mod numeric;
pub mod path;
pub mod header;
pub mod io;
pub mod walk;
pub mod builder;
pub mod reader;
