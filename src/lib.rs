//! Per-block histograms of storage-slot changes, computed from chain-commit
//! notifications and rendered as CSV reports.

pub mod account;
pub mod encoding;
pub mod exex;
pub mod histogram;
pub mod report;

pub use account::Address;
pub use exex::{latest_block, process_notification, report_path, Chain, ExExError, Notification, Report};
pub use histogram::{build_histogram, AccountDiff, Histogram};
pub use report::render_report;
