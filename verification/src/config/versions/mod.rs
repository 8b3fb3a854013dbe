//! The configuration files by version.
pub mod version_0x;
pub mod version_0y;
pub mod version_1;
