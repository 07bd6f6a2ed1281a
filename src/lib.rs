//! Personal time tracking: the activity catalog, the entry log codec and the
//! aggregation of logged transitions into timesheet rows.

pub mod catalog;
pub mod config;
pub mod entry;
pub mod grouping;
pub mod last_value;
pub mod listing;
pub mod table;
pub mod text;
pub mod timestamp;
pub mod trackable;
