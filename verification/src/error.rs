//! The error type of the workbook API.

use vstd::prelude::*;

use crate::text::string_of;

verus! {

/// Errors from workbook value-type constructors, the mutation API, and the
/// document boundary. Every variant but `EmptyLiteral` carries a
/// human-readable description of the first violation found.
#[derive(Debug, Clone, PartialEq, Eq)]
#[non_exhaustive]
pub enum WorkbookError {
    /// A formula-less cell whose value is `empty`: it would be
    /// indistinguishable from the absent cell it denotes.
    EmptyLiteral,
    /// A document-level rule was violated while parsing or serializing, or a
    /// resource limit was breached at the document boundary.
    Validation(String),
    /// A sheet-management operation violated an invariant: a duplicate name
    /// under simple case folding, an empty or over-long name, the sheet cap,
    /// an out-of-range tab position, or an unknown sheet name.
    SheetManagement(String),
    /// An operation directly named a sheet that does not exist.
    UnknownSheet(String),
    /// A named-range or table `ref` names a sheet the workbook does not have.
    DanglingSheetRef(String),
    /// A formula string failed to parse.
    InvalidFormula(String),
    /// A named-range/table name or `ref` is syntactically invalid or not
    /// canonical.
    InvalidReference(String),
    /// A new named range or table collides, case-insensitively, with an
    /// existing one.
    DuplicateName(String),
    /// A table's range overlaps another table's range.
    RangeOverlap(String),
    /// A redefine targeted a name/table that does not exist.
    NotFound(String),
    /// A per-mutation resource cap was exceeded.
    ResourceLimit(String),
}

impl WorkbookError {
    /// The description of this error: the fixed sentence of `EmptyLiteral`,
    /// else the carried text.
    pub open spec fn spec_message(self) -> Seq<char> {
        match self {
            WorkbookError::EmptyLiteral => "a literal cell cannot hold an empty value; clear a cell by removing its entry instead"@,
            WorkbookError::Validation(m) => m@,
            WorkbookError::SheetManagement(m) => m@,
            WorkbookError::UnknownSheet(m) => m@,
            WorkbookError::DanglingSheetRef(m) => m@,
            WorkbookError::InvalidFormula(m) => m@,
            WorkbookError::InvalidReference(m) => m@,
            WorkbookError::DuplicateName(m) => m@,
            WorkbookError::RangeOverlap(m) => m@,
            WorkbookError::NotFound(m) => m@,
            WorkbookError::ResourceLimit(m) => m@,
        }
    }

    /// The human-readable description of this error (what `Display` shows).
    pub fn message(&self) -> (r: String)
        ensures
            r@ == self.spec_message(),
    {
        match self {
            WorkbookError::EmptyLiteral => String::from_str(
                "a literal cell cannot hold an empty value; clear a cell by removing its entry instead",
            ),
            WorkbookError::Validation(m) => string_of(m.as_str()),
            WorkbookError::SheetManagement(m) => string_of(m.as_str()),
            WorkbookError::UnknownSheet(m) => string_of(m.as_str()),
            WorkbookError::DanglingSheetRef(m) => string_of(m.as_str()),
            WorkbookError::InvalidFormula(m) => string_of(m.as_str()),
            WorkbookError::InvalidReference(m) => string_of(m.as_str()),
            WorkbookError::DuplicateName(m) => string_of(m.as_str()),
            WorkbookError::RangeOverlap(m) => string_of(m.as_str()),
            WorkbookError::NotFound(m) => string_of(m.as_str()),
            WorkbookError::ResourceLimit(m) => string_of(m.as_str()),
        }
    }
}

/// Which kind of failure a [`WorkbookError`] reports, without its text.
pub enum ErrorKind {
    EmptyLiteral,
    Validation,
    SheetManagement,
    UnknownSheet,
    DanglingSheetRef,
    InvalidFormula,
    InvalidReference,
    DuplicateName,
    RangeOverlap,
    NotFound,
    ResourceLimit,
}

impl WorkbookError {
    /// The kind of this error.
    pub open spec fn kind(self) -> ErrorKind {
        match self {
            WorkbookError::EmptyLiteral => ErrorKind::EmptyLiteral,
            WorkbookError::Validation(_) => ErrorKind::Validation,
            WorkbookError::SheetManagement(_) => ErrorKind::SheetManagement,
            WorkbookError::UnknownSheet(_) => ErrorKind::UnknownSheet,
            WorkbookError::DanglingSheetRef(_) => ErrorKind::DanglingSheetRef,
            WorkbookError::InvalidFormula(_) => ErrorKind::InvalidFormula,
            WorkbookError::InvalidReference(_) => ErrorKind::InvalidReference,
            WorkbookError::DuplicateName(_) => ErrorKind::DuplicateName,
            WorkbookError::RangeOverlap(_) => ErrorKind::RangeOverlap,
            WorkbookError::NotFound(_) => ErrorKind::NotFound,
            WorkbookError::ResourceLimit(_) => ErrorKind::ResourceLimit,
        }
    }
}

/// `e` reports the failure `f`: its kind and its message.
pub open spec fn reports(e: WorkbookError, f: (ErrorKind, Seq<char>)) -> bool {
    e.kind() == f.0 && e.spec_message() == f.1
}

} // verus!
