//! Workbook-scoped named ranges and tables.

use vstd::prelude::*;

verus! {

/// A workbook-scoped named range.
#[derive(Debug, Clone, PartialEq, Eq, Hash)]
pub struct NamedRange {
    /// The name, e.g. `TaxRate`. Unique across the workbook (case-insensitive);
    /// must not parse as an A1 address, an R1C1-style reference, or a boolean
    /// literal.
    pub name: String,
    /// Canonical sheet-qualified A1 reference: `Sheet!A1` or `Sheet!A1:B2`
    /// (serialized as `ref`).
    pub reference: String,
}

/// A workbook-scoped table declaration: a name and a range whose first row
/// is the header row.
#[derive(Debug, Clone, PartialEq, Eq, Hash)]
pub struct Table {
    /// The table's name, unique among table and named-range names
    /// (case-insensitive).
    pub name: String,
    /// Canonical sheet-qualified A1 range, `Sheet!A1:D12` (serialized as
    /// `ref`).
    pub reference: String,
}

/// Which spreadsheet product's semantics every formula in a workbook
/// targets. There is no default: the flavor is chosen when a workbook is
/// created and never changes.
#[derive(Debug, Clone, Copy, PartialEq, Eq, Hash, Structural)]
pub enum EngineFlavor {
    /// Google Sheets semantics (day 0 of the date serial system is
    /// 1899-12-30).
    Sheets,
    /// Excel semantics (1900 date system, including the historical 1900
    /// leap-year bug).
    Excel,
}

} // verus!
