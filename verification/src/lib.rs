//! Backend library for a small file-browser shell: a greeter, a directory
//! lister with a deterministic ordering, and a file reader.  The filesystem
//! itself is touched only by the surrounding application; this crate holds
//! the verified logic that validates, classifies, orders and reports.

pub mod entry;
pub mod greeter;
pub mod listing;
pub mod order;
pub mod reader;
pub mod sort;
