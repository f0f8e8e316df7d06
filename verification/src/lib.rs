//! Disk usage topology: assembling scanned directories into a tree, computing
//! sizes and counts, aggregating small items so the tree stays readable, and
//! the text the reports are made of.

pub mod aggregate;
pub mod assemble;
pub mod cli;
pub mod json;
pub mod pipeline;
pub mod render;
pub mod report;
pub mod scan;
pub mod sort;
pub mod text;
pub mod topology;

pub use assemble::build_tree;
pub use report::{categorize_path, category_totals};
pub use scan::{directory_listing, finish_tree, DirectoryListing, DiskInfo, EntryInfo, EntryKind, ScanConfig};
pub use text::{format_size, format_with_commas, parse_size};
pub use topology::TopologyNode;
