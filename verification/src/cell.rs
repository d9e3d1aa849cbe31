//! An authored cell: a literal (a value only) or a formula (its verbatim
//! text and its most recent result). A formula-less cell never holds the
//! empty value: it would be indistinguishable from the absent cell it
//! denotes, so a cell is cleared by removing it instead.

use vstd::prelude::*;

use crate::error::WorkbookError;
use crate::value::CellValue;

verus! {

/// An authored cell.
#[derive(Debug, PartialEq)]
pub struct Cell {
    formula: Option<String>,
    value: CellValue,
}

/// The text of an optional formula.
pub open spec fn opt_formula(f: Option<String>) -> Option<Seq<char>> {
    match f {
        Some(s) => Some(s@),
        None => None,
    }
}

impl Cell {
    /// No cell is a formula-less empty value.
    #[verifier::type_invariant]
    closed spec fn no_empty_literal(self) -> bool {
        !(self.formula is None && self.value is Empty)
    }

    /// The verbatim formula text, for a formula cell.
    pub closed spec fn formula_text(self) -> Option<Seq<char>> {
        opt_formula(self.formula)
    }

    /// The cell's value: the literal, or the formula's most recent result.
    pub closed spec fn spec_value(self) -> CellValue {
        self.value
    }

    /// A literal cell holding `value`; the empty value is refused.
    pub fn literal(value: CellValue) -> (r: Result<Cell, WorkbookError>)
        ensures
            match r {
                Ok(c) => !(value is Empty) && c.formula_text() is None && c.spec_value() == value,
                Err(e) => value is Empty && e == WorkbookError::EmptyLiteral,
            },
    {
        if let CellValue::Empty = value {
            return Err(WorkbookError::EmptyLiteral);
        }
        Ok(Cell { formula: None, value })
    }

    /// A formula cell: `formula` verbatim, leading `=` included, and its
    /// most recent result (`Empty` before the first recalculation).
    pub fn with_formula(formula: String, value: CellValue) -> (c: Cell)
        ensures
            c.formula_text() == Some(formula@),
            c.spec_value() == value,
    {
        Cell { formula: Some(formula), value }
    }

    /// A cell from its stored parts, as a document holds them: refused only
    /// when it has no formula and the empty value.
    pub fn try_from(formula: Option<String>, value: CellValue) -> (r: Result<Cell, WorkbookError>)
        ensures
            match r {
                Ok(c) => !(formula is None && value is Empty) && c.formula_text() == opt_formula(formula)
                    && c.spec_value() == value,
                Err(e) => formula is None && value is Empty && e == WorkbookError::EmptyLiteral,
            },
    {
        if formula.is_none() {
            if let CellValue::Empty = value {
                return Err(WorkbookError::EmptyLiteral);
            }
        }
        Ok(Cell { formula, value })
    }

    /// The cell's value; never the empty value on a formula-less cell.
    pub fn value(&self) -> (v: &CellValue)
        ensures
            *v == self.spec_value(),
            !(self.formula_text() is None && *v is Empty),
    {
        proof {
            use_type_invariant(self);
        }
        &self.value
    }

    /// Replaces a formula cell's text, keeping its most recent result.
    pub(crate) fn set_formula(&mut self, formula: String)
        requires
            old(self).formula_text() is Some,
        ensures
            final(self).formula_text() == Some(formula@),
            final(self).spec_value() == old(self).spec_value(),
    {
        self.formula = Some(formula);
    }

    /// Stores a formula cell's newly computed result, keeping its text.
    pub(crate) fn set_value(&mut self, value: CellValue)
        requires
            old(self).formula_text() is Some,
        ensures
            final(self).formula_text() == old(self).formula_text(),
            final(self).spec_value() == value,
    {
        self.value = value;
    }

    /// The verbatim formula text, if this is a formula cell.
    pub fn formula(&self) -> (f: Option<&str>)
        ensures
            match f {
                Some(s) => self.formula_text() == Some(s@),
                None => self.formula_text() is None,
            },
    {
        match &self.formula {
            Some(s) => Some(s.as_str()),
            None => None,
        }
    }
}

} // verus!
