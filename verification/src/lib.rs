//! Code debt scanning: finding TODO/FIXME/HACK/BUG/XXX comments, reading
//! `git blame --porcelain` output, filtering, ordering and reporting.
pub mod blame;
pub mod cli;
pub mod filter;
pub mod output;
pub mod scanner;
pub mod text;
pub mod types;

pub use blame::{apply_blame, blame_files, parse_porcelain_blame, BlameInfo};
pub use cli::{
    check_fail_on, filters_from_cli, gate_message, gate_notice, output_format, should_blame, Cli,
    GateFailure, OutputFormat,
};
pub use filter::{apply_filters, sort_oldest_first, Filters};
pub use output::{
    build_summary, format_markdown, format_summary, format_table, format_table_colored, truncate_chars,
    truncate_chars_end,
};
pub use scanner::{hits_to_items, scan_content, DebtPattern, RawHit, ScanResult};
pub use types::{CommentType, Date, DebtItem, ScanSummary};
