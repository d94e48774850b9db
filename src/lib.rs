//! Audits ROM collections against reference catalogs: an index of catalogs
//! (sets and roms) and of the directories and files found on disk, the rules
//! that match files to roms, and the reconciliation of rescans.
pub mod catalog;
pub mod decimal;
pub mod hashing;
pub mod listing;
pub mod matcher;
pub mod model;
pub mod order;
pub mod paths;
pub mod relation;
pub mod rename;
pub mod scanner;
pub mod store;
pub mod text;
pub mod util;
pub mod xml;
