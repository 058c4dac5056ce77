//! Updating the index file. Reading the listing and replacing the file on
//! disk are left to the caller; what is built in between is `index`.

pub use crate::index::{index, index_with_key};
