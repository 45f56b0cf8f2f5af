//! Core of a terminal file packer: it scans a project tree, reads an
//! optional project manifest, partitions files into toggleable categories
//! and dependency-derived subsystems, and resolves the user's toggle state
//! into the final exported file set.
pub mod strutil;
pub mod types;
pub mod scanner;
pub mod semmap;
pub mod categories;
pub mod subsystems;
pub mod keys;
pub mod packer;
pub mod display;
