//! The library of `lever`, a package manager for software built from its
//! git sources: leverfiles that describe packages, the database of tracked,
//! compiled and installed packages, dependency trees and their install
//! order, the configuration file, and the scrolling window that shows
//! command output.
pub mod config;
pub mod database;
pub mod dependencies;
pub mod leverfile;
pub mod storage;
pub mod terminal;
pub mod text;
pub mod tree;

pub use config::{Config, ConfigWarning};
pub use database::{DatabaseError, LeverDB};
pub use dependencies::LeverFileCatalog;
pub use leverfile::{CommandBatch, LeverFile, LeverFileError, LEVERFILE_DEFAULT_NAME};
pub use terminal::{OutputLines, Redraw, TemporaryOutput};
pub use tree::PackageTreeNode;
