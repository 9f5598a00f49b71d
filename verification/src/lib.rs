//! Verified core of a disk-usage explorer: size formatting, the pie-chart
//! grouping of a directory's children, listing order, the navigation state
//! and the directory-size walk.

pub mod binary64;
pub mod text;
pub mod sorting;
pub mod entry;
pub mod size_text;
pub mod threshold;
pub mod chart;
pub mod paths;
pub mod scan;
pub mod cache;
pub mod listing_ops;
pub mod reports;
pub mod explorer;
pub mod walk;
