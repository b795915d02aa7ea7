//! Drive discovery and directory-switcher decisions for a terminal file manager.
pub mod text;
pub mod mounts;
pub mod drives;
pub mod paths;
pub mod switcher;
pub mod sessions;
