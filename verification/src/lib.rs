//! Workbook layer of a spreadsheet engine: A1 addressing, sheets and cells,
//! named ranges and tables, the document's shape rules, spill geometry, and
//! the dependency graph with its evaluation order.

pub mod error;
pub mod limits;
pub mod text;
pub mod casefold;

pub mod address;
pub mod named_ref;
pub mod table_ref;
pub mod named_range;
pub mod registry;
pub mod sheet_index;
pub mod sheet_list;

pub mod value;
pub mod cell;
pub mod worksheet;
pub mod workbook;

pub mod json;
pub mod canonical;
pub mod validate;
pub mod document;
pub mod persist;

pub mod spill;
pub mod grid_spills;
pub mod spill_place;
pub mod authored_index;

pub mod digraph;
pub mod depgraph;
pub mod resolve;
pub mod caches;
pub mod recalc_util;
pub mod recalc_context;
pub mod recalc_read;

pub use address::{parse_a1, Address};
pub use cell::Cell;
pub use depgraph::{CellRef, DependencyGraph, Precedent, RangeRef};
pub use error::WorkbookError;
pub use named_range::{EngineFlavor, NamedRange, Table};
pub use persist::SCHEMA_VERSION;
pub use recalc_context::RecalcContext;
pub use spill::{spill_rect, SpillRect, BLOCKED_SPILL_ERROR, CIRCULAR_ERROR};
pub use workbook::{CellInput, Resolved, Workbook};
pub use worksheet::Worksheet;
