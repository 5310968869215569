//! Counts the lines of LLVM IR that each generic function contributes across
//! all of its monomorphized copies, and orders the result into a report.
//!
//! The pieces, in the order data flows through them:
//! - `count`: finds function bodies in textual IR and counts their lines;
//! - `name`: turns a mangled symbol into the key its copies share;
//! - `aggregate`: accumulates copies and lines per key;
//! - `table`: orders the aggregate and computes the report's rows;
//! - `filter`: the regular expression that selects the rows shown;
//! - `command`: the decisions of the build that produces the IR;
//! - `text`: small helpers on strings and byte strings.

pub mod aggregate;
pub mod command;
pub mod count;
pub mod filter;
pub mod name;
pub mod table;
pub mod text;

pub use crate::aggregate::{Aggregate, Instantiations};
pub use crate::command::{
    cargo_arguments, ignore_cargo_err, select_ir_file, use_color, Coloring, LlvmLines,
};
pub use crate::count::count_lines;
pub use crate::filter::{InvalidPattern, NameFilter};
pub use crate::name::{has_hash, is_ascii_hexdigit, normalize_symbol, strip_hash};
pub use crate::table::{build_report, rank, tabulate, Report, ReportRow, SortOrder};
