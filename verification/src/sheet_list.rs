//! The rules of the workbook's tab list: where a sheet may be inserted, how
//! sheets move, and when a rename is allowed. Sheet identity is the name
//! under simple case folding; array position is tab position.

use vstd::prelude::*;

use crate::casefold::folded;
use crate::document::{dq, first_fold_match, numbered, quoted_one, quoted_pair, texts};
use crate::error::{reports, ErrorKind, WorkbookError};
use crate::limits::{MAX_SHEETS, MAX_SHEET_NAME_LEN};
use crate::registry::{lemma_first_fold_match, sheet_index};
use crate::text::{decimal_digits, push_str};
use crate::validate::{long_sheet_name_message, validate_sheet_name};

verus! {

pub open spec fn sheet_cap_message() -> Seq<char> {
    "cannot add sheet: workbook already has "@ + decimal_digits(MAX_SHEETS as nat)
        + " sheets, the limit (scope ADR Decision 5)"@
}

pub open spec fn bad_position_message(index: int, len: int) -> Seq<char> {
    "cannot insert sheet at position "@ + decimal_digits(index as nat) + ": only "@ + decimal_digits((len + 1) as nat)
        + " tab slots exist"@
}

pub open spec fn sheet_collision_message(name: Seq<char>, existing: Seq<char>) -> Seq<char> {
    "cannot add sheet "@ + dq(name) + ": it collides with the existing sheet "@ + dq(existing)
        + " under simple case folding (schema spec \u{a7}2)"@
}

/// The rule a sheet name breaks on its own: empty, or too long.
pub open spec fn sheet_name_error(name: Seq<char>) -> Option<(ErrorKind, Seq<char>)> {
    if name.len() == 0 {
        Some((ErrorKind::SheetManagement, "a worksheet name must be non-empty (schema spec \u{a7}3)"@))
    } else if name.len() > MAX_SHEET_NAME_LEN {
        Some((ErrorKind::SheetManagement, long_sheet_name_message(name)))
    } else {
        None
    }
}

/// The first rule inserting a sheet named `name` at tab position `index`
/// breaks, in a workbook whose sheets are named `sheets`: the sheet cap, the
/// position, the name's shape, then a collision under simple case folding.
pub open spec fn insert_sheet_error(sheets: Seq<Seq<char>>, index: int, name: Seq<char>) -> Option<(ErrorKind, Seq<char>)> {
    if sheets.len() >= MAX_SHEETS {
        Some((ErrorKind::SheetManagement, sheet_cap_message()))
    } else if index > sheets.len() {
        Some((ErrorKind::SheetManagement, bad_position_message(index, sheets.len() as int)))
    } else if sheet_name_error(name) is Some {
        sheet_name_error(name)
    } else if first_fold_match(sheets, folded(name)) >= 0 {
        Some((ErrorKind::SheetManagement, sheet_collision_message(name, sheets[first_fold_match(sheets, folded(name))])))
    } else {
        None
    }
}

/// Decides whether a sheet named `name` may be inserted at tab position
/// `index` (`index == sheets.len()` appends).
pub fn check_insert_sheet(sheets: &[String], index: usize, name: &str) -> (r: Result<(), WorkbookError>)
    ensures
        match r {
            Ok(()) => insert_sheet_error(texts(sheets@), index as int, name@) is None,
            Err(e) => insert_sheet_error(texts(sheets@), index as int, name@) matches Some(f) && reports(e, f),
        },
{
    if sheets.len() >= MAX_SHEETS {
        return Err(WorkbookError::SheetManagement(numbered(
            "cannot add sheet: workbook already has ",
            MAX_SHEETS as u128,
            " sheets, the limit (scope ADR Decision 5)",
        )));
    }
    if index > sheets.len() {
        let mut m = numbered("cannot insert sheet at position ", index as u128, ": only ");
        push_str(&mut m, crate::text::decimal_string_wide((sheets.len() + 1) as u128).as_str());
        push_str(&mut m, " tab slots exist");
        return Err(WorkbookError::SheetManagement(m));
    }
    match validate_sheet_name(name) {
        Ok(()) => {},
        Err(e) => {
            return Err(e);
        },
    }
    match sheet_index(sheets, name) {
        Some(i) => {
            proof {
                lemma_first_fold_match(texts(sheets@), folded(name@));
            }
            Err(WorkbookError::SheetManagement(quoted_pair(
                "cannot add sheet ",
                name,
                ": it collides with the existing sheet ",
                sheets[i].as_str(),
                " under simple case folding (schema spec \u{a7}2)",
            )))
        },
        None => Ok(()),
    }
}

pub open spec fn bad_move_message(from: int, to: int, len: int) -> Seq<char> {
    "cannot move sheet from "@ + decimal_digits(from as nat) + " to "@ + decimal_digits(to as nat)
        + ": valid tab positions are 0.."@ + decimal_digits(len as nat)
}

/// Moves the sheet at tab position `from` to position `to`, shifting the
/// sheets in between. Refused when either position is out of range.
pub fn move_sheet<T>(sheets: &mut Vec<T>, from: usize, to: usize) -> (r: Result<(), WorkbookError>)
    ensures
        r is Ok <==> (from < old(sheets)@.len() && to < old(sheets)@.len()),
        match r {
            Ok(()) => final(sheets)@ == old(sheets)@.remove(from as int).insert(to as int, old(sheets)@[from as int]),
            Err(e) => reports(e, (ErrorKind::SheetManagement, bad_move_message(from as int, to as int, old(sheets)@.len() as int)))
                && final(sheets)@ == old(sheets)@,
        },
{
    let len = sheets.len();
    if from >= len || to >= len {
        let mut m = numbered("cannot move sheet from ", from as u128, " to ");
        push_str(&mut m, crate::text::decimal_string_wide(to as u128).as_str());
        push_str(&mut m, ": valid tab positions are 0..");
        push_str(&mut m, crate::text::decimal_string_wide(len as u128).as_str());
        return Err(WorkbookError::SheetManagement(m));
    }
    let sheet = sheets.remove(from);
    sheets.insert(to, sheet);
    Ok(())
}

pub open spec fn rename_collision_message(to: Seq<char>) -> Seq<char> {
    "cannot rename sheet to "@ + dq(to) + ": it collides with another sheet under simple case folding (schema spec \u{a7}2)"@
}

/// The tab position of the sheet to rename, or the first rule renaming
/// sheet `from` to `to` breaks: `from` must exist, `to` must be a valid
/// name, and `to` may match (case-insensitively) no sheet but `from` itself.
pub open spec fn rename_sheet_check(sheets: Seq<Seq<char>>, from: Seq<char>, to: Seq<char>) -> Result<int, (ErrorKind, Seq<char>)> {
    let idx = first_fold_match(sheets, folded(from));
    if idx < 0 {
        Err((ErrorKind::SheetManagement, "cannot rename: no sheet named "@ + dq(from)))
    } else if sheet_name_error(to) is Some {
        Err(sheet_name_error(to)->0)
    } else if first_fold_match(sheets, folded(to)) >= 0 && first_fold_match(sheets, folded(to)) != idx {
        Err((ErrorKind::SheetManagement, rename_collision_message(to)))
    } else {
        Ok(idx)
    }
}

/// Decides whether sheet `from` (case-insensitive) may be renamed to `to`,
/// and finds its tab position. A pure case change of the same sheet is
/// allowed.
pub fn check_rename_sheet(sheets: &[String], from: &str, to: &str) -> (r: Result<usize, WorkbookError>)
    ensures
        match r {
            Ok(i) => rename_sheet_check(texts(sheets@), from@, to@) == Ok::<int, (ErrorKind, Seq<char>)>(i as int),
            Err(e) => rename_sheet_check(texts(sheets@), from@, to@) matches Err(f) && reports(e, f),
        },
{
    let idx = match sheet_index(sheets, from) {
        Some(i) => i,
        None => {
            let m = quoted_one("cannot rename: no sheet named ", from, "");
            proof {
                reveal_strlit("");
                assert(m@ =~= "cannot rename: no sheet named "@ + dq(from@));
            }
            return Err(WorkbookError::SheetManagement(m));
        },
    };
    match validate_sheet_name(to) {
        Ok(()) => {},
        Err(e) => {
            return Err(e);
        },
    }
    if let Some(other) = sheet_index(sheets, to) {
        if other != idx {
            return Err(WorkbookError::SheetManagement(quoted_one(
                "cannot rename sheet to ",
                to,
                ": it collides with another sheet under simple case folding (schema spec \u{a7}2)",
            )));
        }
    }
    Ok(idx)
}

} // verus!
