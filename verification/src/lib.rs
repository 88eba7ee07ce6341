//! Inventories text and CSV files under a directory tree.
//!
//! The library holds the verified core of the tool: classifying directory
//! entries (hidden names, eligible extensions), counting the lines of a file's
//! contents, aggregating a depth-bounded tree walk into a map from path to
//! line count, and deriving the rows of the tabular report. Reading the
//! filesystem and rendering the spreadsheet are left to the surrounding
//! program, which hands the library plain values.

pub mod file_len_inventory;
pub mod inventory;
pub mod inventory_processor;
pub mod parse_inventory;
pub mod paths;
