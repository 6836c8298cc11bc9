//! Reconciles a declarative filesystem-mount configuration with the live
//! block-device topology of a machine.
//!
//! The crate extracts mount declarations from configuration text, enumerates
//! disks and partitions from probed system data, detects drift (declared but
//! absent devices), and regenerates the configuration text while preserving
//! boot-critical declarations verbatim.

pub mod drift;
pub mod enumerate;
pub mod laws;
pub mod models;
pub mod parser;
pub mod probe;
pub mod scan;
pub mod select;
pub mod text;
pub mod writer;

pub use drift::find_missing_partitions;
pub use drift::remove_missing_partitions;
pub use enumerate::enumerate_disks;
pub use models::Disk;
pub use models::Partition;
pub use parser::Declaration;
pub use parser::ParseError;
pub use parser::build_partition_index;
pub use parser::extract_declarations;
pub use parser::parse_nix_filesystems;
pub use probe::ProbedDevice;
pub use probe::parse_blkid_output;
pub use probe::parse_proc_partitions;
pub use probe::parse_size_output;
pub use probe::should_skip_device;
pub use scan::extract_mount_point;
pub use scan::locate_blocks;
pub use select::count_visible_disks;
pub use select::has_critical_mount_point;
pub use select::should_filter_partition;
pub use writer::GenerationError;
pub use writer::get_filesystem_options;
pub use writer::get_nix_disks_config;
pub use writer::is_critical_mount_point;
