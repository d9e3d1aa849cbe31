//! Resource limits: the structural caps of a workbook.
//!
//! These are library constants, not schema constants: a limit can rise without
//! a schema version bump, and a document is validated against the limits of
//! the library version that loads it.
//!
//! [`MAX_CELLS_PER_WORKBOOK`] and [`MAX_SERIALIZED_BYTES`] exist because the
//! WebAssembly target's 32-bit address space cannot hold more; the
//! predicates that enforce them, [`exceeds_cell_cap`] and
//! [`exceeds_serialized_cap`], only reject when told that the build is a
//! WebAssembly one, and answer `false` on every other build.

use vstd::prelude::*;

verus! {

/// Maximum populated cells across the whole workbook (spilled cells count).
pub const MAX_CELLS_PER_WORKBOOK: usize = 1_000_000;

/// Maximum length of a `text` value, in Unicode scalar values.
pub const MAX_TEXT_LEN: usize = 50_000;

/// Maximum element count (`m × n`) of a single `array` value.
pub const MAX_ARRAY_ELEMENTS: usize = 1_000_000;

/// Maximum worksheets per workbook.
pub const MAX_SHEETS: usize = 256;

/// Maximum length of a sheet name, in Unicode scalar values.
pub const MAX_SHEET_NAME_LEN: usize = 100;

/// Maximum row index, 1-based.
pub const MAX_ROW: u32 = 10_000_000;

/// Maximum column index, 1-based: `ZZZ` = 18,278.
pub const MAX_COLUMN: u32 = 18_278;

/// Maximum verbatim formula length, in bytes.
pub const MAX_FORMULA_LEN: usize = 32768;

/// Maximum workbook-scoped named ranges.
pub const MAX_NAMED_RANGES: usize = 10_000;

/// Maximum workbook-scoped tables.
pub const MAX_TABLES: usize = 10_000;

/// Maximum serialized canonical JSON document size, in bytes (100 MiB).
pub const MAX_SERIALIZED_BYTES: usize = 104_857_600;

/// Whether a workbook holding `cells` populated cells breaches
/// [`MAX_CELLS_PER_WORKBOOK`]. `caps_apply` says whether this build enforces
/// the cap, which only a WebAssembly build does; elsewhere the answer is
/// always `false`.
pub fn exceeds_cell_cap(cells: usize, caps_apply: bool) -> (b: bool)
    ensures
        b == (caps_apply && cells > MAX_CELLS_PER_WORKBOOK),
{
    caps_apply && cells > MAX_CELLS_PER_WORKBOOK
}

/// Whether a serialized document of `bytes` bytes breaches
/// [`MAX_SERIALIZED_BYTES`]. `caps_apply` says whether this build enforces
/// the cap, which only a WebAssembly build does; elsewhere the answer is
/// always `false`.
pub fn exceeds_serialized_cap(bytes: usize, caps_apply: bool) -> (b: bool)
    ensures
        b == (caps_apply && bytes > MAX_SERIALIZED_BYTES),
{
    caps_apply && bytes > MAX_SERIALIZED_BYTES
}

/// Whether `formula` (its UTF-8 bytes) is within [`MAX_FORMULA_LEN`].
pub fn check_formula_limit(formula: &str) -> (r: Result<(), crate::error::WorkbookError>)
    ensures
        r is Ok <==> formula.len() <= MAX_FORMULA_LEN,
        r matches Err(e) ==> crate::error::reports(
            e,
            (crate::error::ErrorKind::ResourceLimit, crate::text::formula_too_long(formula.len() as nat)),
        ),
{
    if formula.len() > MAX_FORMULA_LEN {
        return Err(crate::error::WorkbookError::ResourceLimit(
            crate::text::formula_too_long_message(formula.len()),
        ));
    }
    Ok(())
}

} // verus!
