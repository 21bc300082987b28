//! Rewrites an editor's command line so that paths inside a development
//! container project open as remote URIs in that container.

pub mod hex;
pub mod paths;
pub mod fs;
pub mod container;
pub mod args;
pub mod rewrite;

pub use crate::container::container_id;
pub use crate::fs::{files_matching, find_dir_up, has_dir, FindOptions};
pub use crate::hex::hex;
pub use crate::paths::normalize;
