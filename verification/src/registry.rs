//! The workbook's named ranges and tables: define, redefine, look up and
//! remove them, with the rules every definition must satisfy. A name is
//! valid, its `ref` canonical and aimed at an existing sheet; names and
//! tables are unique together under simple case folding; table ranges never
//! overlap; and the counts stay under their caps.

use vstd::prelude::*;

use crate::address::Address;
use crate::casefold::{folded, simple_fold};
use crate::document::{dq, first_fold_match, numbered, quoted_one, quoted_pair, ref_sheet, texts};
use crate::error::{reports, ErrorKind, WorkbookError};
use crate::limits::{MAX_NAMED_RANGES, MAX_TABLES};
use crate::named_range::{NamedRange, Table};
use crate::named_ref::{
    is_valid_name, parse_canonical_ref, ref_error, ref_text, spec_canonical_ref, spec_is_valid_name, spec_split, split_error_tail,
    split_sheet_ref,
};
use crate::table_ref::{
    is_range_ref, parsed_range_bounds, ranges_overlap, spec_is_range_ref, spec_range_bounds, spec_ranges_overlap, BoundsView,
    ParsedRangeBounds,
};
use crate::text::{decimal_digits, str_equal, string_of};

verus! {

/// A registry entry as values: its name and its `ref`.
pub type Entry = (Seq<char>, Seq<char>);

/// The names of a list of entries.
pub open spec fn entry_names(s: Seq<Entry>) -> Seq<Seq<char>> {
    Seq::new(s.len(), |i: int| s[i].0)
}

/// No two of `keys` are equal under simple case folding.
pub open spec fn folds_distinct(keys: Seq<Seq<char>>) -> bool {
    forall|i: int, j: int| 0 <= i < j < keys.len() ==> folded(#[trigger] keys[i]) != folded(#[trigger] keys[j])
}

/// No key of `a` equals a key of `b` under simple case folding.
pub open spec fn folds_disjoint(a: Seq<Seq<char>>, b: Seq<Seq<char>>) -> bool {
    forall|i: int, j: int| 0 <= i < a.len() && 0 <= j < b.len() ==> folded(#[trigger] a[i]) != folded(#[trigger] b[j])
}

/// `first_fold_match` finds exactly the first key whose fold is `f`.
pub proof fn lemma_first_fold_match(keys: Seq<Seq<char>>, f: Seq<char>)
    ensures
        -1 <= first_fold_match(keys, f) < keys.len(),
        first_fold_match(keys, f) >= 0 ==> folded(keys[first_fold_match(keys, f)]) == f,
        first_fold_match(keys, f) >= 0 ==> forall|j: int| 0 <= j < first_fold_match(keys, f) ==> folded(keys[j]) != f,
        first_fold_match(keys, f) < 0 <==> forall|j: int| 0 <= j < keys.len() ==> folded(keys[j]) != f,
    decreases keys.len(),
{
    if keys.len() > 0 {
        lemma_first_fold_match(keys.drop_first(), f);
        assert forall|j: int| 0 < j < keys.len() implies keys[j] == keys.drop_first()[j - 1] by {}
        if folded(keys[0]) != f && first_fold_match(keys.drop_first(), f) < 0 {
            assert forall|j: int| 0 <= j < keys.len() implies folded(keys[j]) != f by {
                if j > 0 {
                    assert(keys[j] == keys.drop_first()[j - 1]);
                }
            }
        }
    }
}

/// Adding a key whose fold is new keeps the keys unique and apart from
/// `other`.
proof fn lemma_push_keeps_folds(keys: Seq<Seq<char>>, other: Seq<Seq<char>>, k: Seq<char>)
    requires
        folds_distinct(keys),
        folds_disjoint(keys, other),
        first_fold_match(keys, folded(k)) < 0,
        first_fold_match(other, folded(k)) < 0,
    ensures
        folds_distinct(keys.push(k)),
        folds_disjoint(keys.push(k), other),
{
    lemma_first_fold_match(keys, folded(k));
    lemma_first_fold_match(other, folded(k));
    let n = keys.push(k);
    assert forall|i: int, j: int| 0 <= i < j < n.len() implies folded(#[trigger] n[i]) != folded(#[trigger] n[j]) by {
        if j < keys.len() {
            assert(n[i] == keys[i] && n[j] == keys[j]);
        } else {
            assert(n[i] == keys[i]);
        }
    }
    assert forall|i: int, j: int| 0 <= i < n.len() && 0 <= j < other.len() implies folded(#[trigger] n[i]) != folded(
        #[trigger] other[j],
    ) by {
        if i < keys.len() {
            assert(n[i] == keys[i]);
        }
    }
}

/// Removing a key keeps the keys unique and apart from `other`, and keeps
/// `other` apart from them.
proof fn lemma_remove_keeps_folds(keys: Seq<Seq<char>>, other: Seq<Seq<char>>, i: int)
    requires
        0 <= i < keys.len(),
        folds_distinct(keys),
        folds_disjoint(keys, other),
        folds_disjoint(other, keys),
    ensures
        folds_distinct(keys.remove(i)),
        folds_disjoint(keys.remove(i), other),
        folds_disjoint(other, keys.remove(i)),
{
    let n = keys.remove(i);
    assert forall|a: int| 0 <= a < n.len() implies #[trigger] n[a] == keys[if a < i { a } else { a + 1 }] by {}
    assert forall|a: int, b: int| 0 <= a < b < n.len() implies folded(#[trigger] n[a]) != folded(#[trigger] n[b]) by {
        let x = if a < i { a } else { a + 1 };
        let y = if b < i { b } else { b + 1 };
        assert(n[a] == keys[x] && n[b] == keys[y]);
    }
    assert forall|a: int, j: int| 0 <= a < n.len() && 0 <= j < other.len() implies folded(#[trigger] n[a]) != folded(
        #[trigger] other[j],
    ) by {
        let x = if a < i { a } else { a + 1 };
        assert(n[a] == keys[x]);
    }
    assert forall|j: int, a: int| 0 <= j < other.len() && 0 <= a < n.len() implies folded(#[trigger] other[j]) != folded(
        #[trigger] n[a],
    ) by {
        let x = if a < i { a } else { a + 1 };
        assert(n[a] == keys[x]);
    }
}

// ---------------------------------------------------------------------------
// Messages
// ---------------------------------------------------------------------------

pub open spec fn invalid_name_message(name: Seq<char>) -> Seq<char> {
    "named-range name "@ + dq(name)
        + " is invalid: it must match ^[A-Za-z_][A-Za-z0-9_]*$ and must not be an A1 address, an R1C1-style reference, or a boolean (schema spec \u{a7}7)"@
}

pub open spec fn dangling_name_message(name: Seq<char>, sheet: Seq<char>) -> Seq<char> {
    "named range "@ + dq(name) + " refers to sheet "@ + dq(sheet) + ", which does not exist (schema spec \u{a7}7)"@
}

pub open spec fn name_cap_message() -> Seq<char> {
    "cannot define named range: workbook already has "@ + decimal_digits(MAX_NAMED_RANGES as nat)
        + " named ranges, the limit (scope ADR Decision 5)"@
}

pub open spec fn name_collides_with_name_message(name: Seq<char>, existing: Seq<char>) -> Seq<char> {
    "cannot define named range "@ + dq(name) + ": it collides with the existing name "@ + dq(existing)
        + " under simple case folding (schema spec \u{a7}7)"@
}

pub open spec fn name_collides_with_table_message(name: Seq<char>, existing: Seq<char>) -> Seq<char> {
    "cannot define named range "@ + dq(name) + ": it collides with the existing table "@ + dq(existing)
        + " under simple case folding (structured-references spec \u{a7}4)"@
}

pub open spec fn no_such_name_message(name: Seq<char>) -> Seq<char> {
    "cannot redefine named range: no name "@ + dq(name) + " exists"@
}

// ---------------------------------------------------------------------------
// Rules of a named-range definition
// ---------------------------------------------------------------------------

/// The first rule a definition `name = r` breaks in a workbook whose sheets
/// are named `sheets`: the name's shape, the `ref`'s canonical form, the
/// target sheet's existence (case-insensitively).
pub open spec fn name_definition_error(name: Seq<char>, r: Seq<char>, sheets: Seq<Seq<char>>) -> Option<
    (ErrorKind, Seq<char>),
> {
    if !spec_is_valid_name(name) {
        Some((ErrorKind::InvalidReference, invalid_name_message(name)))
    } else if !(exists|s: Seq<char>| spec_canonical_ref(r, s)) {
        Some((ErrorKind::InvalidReference, ref_error(r)))
    } else if first_fold_match(sheets, folded(ref_sheet(r))) < 0 {
        Some((ErrorKind::DanglingSheetRef, dangling_name_message(name, ref_sheet(r))))
    } else {
        None
    }
}

/// The first rule defining a new named range `name = r` breaks: the
/// definition rules, the cap, a collision with a name, then with a table.
pub open spec fn define_name_error(
    names: Seq<Entry>,
    tables: Seq<Entry>,
    name: Seq<char>,
    r: Seq<char>,
    sheets: Seq<Seq<char>>,
) -> Option<(ErrorKind, Seq<char>)> {
    match name_definition_error(name, r, sheets) {
        Some(e) => Some(e),
        None => if names.len() >= MAX_NAMED_RANGES {
            Some((ErrorKind::ResourceLimit, name_cap_message()))
        } else if first_fold_match(entry_names(names), folded(name)) >= 0 {
            Some(
                (
                    ErrorKind::DuplicateName,
                    name_collides_with_name_message(name, names[first_fold_match(entry_names(names), folded(name))].0),
                ),
            )
        } else if first_fold_match(entry_names(tables), folded(name)) >= 0 {
            Some(
                (
                    ErrorKind::DuplicateName,
                    name_collides_with_table_message(name, tables[first_fold_match(entry_names(tables), folded(name))].0),
                ),
            )
        } else {
            None
        },
    }
}

/// The named ranges and tables of a workbook.
#[derive(Debug)]
pub struct NameRegistry {
    names: Vec<NamedRange>,
    tables: Vec<Table>,
}

/// The entry of a named range.
pub open spec fn name_entry(n: NamedRange) -> Entry {
    (n.name@, n.reference@)
}

/// The entry of a table.
pub open spec fn table_entry(t: Table) -> Entry {
    (t.name@, t.reference@)
}

impl NameRegistry {
    /// The named ranges, in declaration order.
    pub closed spec fn spec_names(self) -> Seq<Entry> {
        Seq::new(self.names@.len(), |i: int| name_entry(self.names@[i]))
    }

    /// The tables, in declaration order.
    pub closed spec fn spec_tables(self) -> Seq<Entry> {
        Seq::new(self.tables@.len(), |i: int| table_entry(self.tables@[i]))
    }

    /// Names and tables are unique together under simple case folding, and
    /// no two table ranges overlap.
    pub open spec fn wf(self) -> bool {
        &&& folds_distinct(entry_names(self.spec_names()))
        &&& folds_distinct(entry_names(self.spec_tables()))
        &&& folds_disjoint(entry_names(self.spec_names()), entry_names(self.spec_tables()))
        &&& ranges_disjoint(self.spec_tables())
    }

    /// A registry with no named ranges and no tables.
    pub fn new() -> (r: NameRegistry)
        ensures
            r.spec_names() == Seq::<Entry>::empty(),
            r.spec_tables() == Seq::<Entry>::empty(),
            r.wf(),
    {
        let r = NameRegistry { names: Vec::new(), tables: Vec::new() };
        assert(r.spec_names() =~= Seq::<Entry>::empty());
        assert(r.spec_tables() =~= Seq::<Entry>::empty());
        r
    }

    /// The named ranges, in declaration order.
    pub fn names(&self) -> (r: &[NamedRange])
        ensures
            Seq::new(r@.len(), |i: int| name_entry(r@[i])) == self.spec_names(),
    {
        let r = self.names.as_slice();
        assert(Seq::new(r@.len(), |i: int| name_entry(r@[i])) =~= self.spec_names());
        r
    }

    /// The tables, in declaration order.
    pub fn tables(&self) -> (r: &[Table])
        ensures
            Seq::new(r@.len(), |i: int| table_entry(r@[i])) == self.spec_tables(),
    {
        let r = self.tables.as_slice();
        assert(Seq::new(r@.len(), |i: int| table_entry(r@[i])) =~= self.spec_tables());
        r
    }

    /// The declaration-order position of the named range `name`
    /// (case-insensitive, simple case folding).
    pub fn name_index(&self, name: &str) -> (r: Option<usize>)
        ensures
            match r {
                Some(i) => first_fold_match(entry_names(self.spec_names()), folded(name@)) == i as int,
                None => first_fold_match(entry_names(self.spec_names()), folded(name@)) == -1,
            },
    {
        let target = simple_fold(name);
        let ghost ns = entry_names(self.spec_names());
        let mut i: usize = 0;
        proof {
            assert(ns.skip(0) =~= ns);
        }
        while i < self.names.len()
            invariant
                i <= self.names@.len() == ns.len(),
                ns == entry_names(self.spec_names()),
                target@ == folded(name@),
                first_fold_match(ns, target@) == (if first_fold_match(ns.skip(i as int), target@) < 0 {
                    -1
                } else {
                    first_fold_match(ns.skip(i as int), target@) + i
                }),
            decreases self.names@.len() - i,
        {
            proof {
                assert(ns.skip(i as int)[0] == ns[i as int]);
                assert(ns.skip(i as int).drop_first() =~= ns.skip(i as int + 1));
                assert(ns[i as int] == self.names@[i as int].name@);
            }
            let f = simple_fold(self.names[i].name.as_str());
            if str_equal(f.as_str(), target.as_str()) {
                return Some(i);
            }
            i = i + 1;
        }
        proof {
            assert(ns.skip(i as int).len() == 0);
        }
        None
    }

    /// The declaration-order position of the table `name`
    /// (case-insensitive, simple case folding).
    pub fn table_index(&self, name: &str) -> (r: Option<usize>)
        ensures
            match r {
                Some(i) => first_fold_match(entry_names(self.spec_tables()), folded(name@)) == i as int,
                None => first_fold_match(entry_names(self.spec_tables()), folded(name@)) == -1,
            },
    {
        let target = simple_fold(name);
        let ghost ns = entry_names(self.spec_tables());
        let mut i: usize = 0;
        proof {
            assert(ns.skip(0) =~= ns);
        }
        while i < self.tables.len()
            invariant
                i <= self.tables@.len() == ns.len(),
                ns == entry_names(self.spec_tables()),
                target@ == folded(name@),
                first_fold_match(ns, target@) == (if first_fold_match(ns.skip(i as int), target@) < 0 {
                    -1
                } else {
                    first_fold_match(ns.skip(i as int), target@) + i
                }),
            decreases self.tables@.len() - i,
        {
            proof {
                assert(ns.skip(i as int)[0] == ns[i as int]);
                assert(ns.skip(i as int).drop_first() =~= ns.skip(i as int + 1));
                assert(ns[i as int] == self.tables@[i as int].name@);
            }
            let f = simple_fold(self.tables[i].name.as_str());
            if str_equal(f.as_str(), target.as_str()) {
                return Some(i);
            }
            i = i + 1;
        }
        proof {
            assert(ns.skip(i as int).len() == 0);
        }
        None
    }

    /// The named range called `name` (case-insensitive), if any.
    pub fn name(&self, name: &str) -> (r: Option<&NamedRange>)
        ensures
            match r {
                Some(n) => first_fold_match(entry_names(self.spec_names()), folded(name@)) >= 0 && name_entry(*n)
                    == self.spec_names()[first_fold_match(entry_names(self.spec_names()), folded(name@))],
                None => first_fold_match(entry_names(self.spec_names()), folded(name@)) == -1,
            },
    {
        match self.name_index(name) {
            Some(i) => {
                proof {
                    lemma_first_fold_match(entry_names(self.spec_names()), folded(name@));
                }
                Some(&self.names[i])
            },
            None => None,
        }
    }
}


/// The tab position of the sheet named `name` among `sheets`
/// (case-insensitive, simple case folding): the first match.
pub fn sheet_index(sheets: &[String], name: &str) -> (r: Option<usize>)
    ensures
        match r {
            Some(i) => first_fold_match(texts(sheets@), folded(name@)) == i as int,
            None => first_fold_match(texts(sheets@), folded(name@)) == -1,
        },
{
    let target = simple_fold(name);
    let ghost ns = texts(sheets@);
    let mut i: usize = 0;
    proof {
        assert(ns.skip(0) =~= ns);
    }
    while i < sheets.len()
        invariant
            i <= sheets@.len() == ns.len(),
            ns == texts(sheets@),
            target@ == folded(name@),
            first_fold_match(ns, target@) == (if first_fold_match(ns.skip(i as int), target@) < 0 {
                -1
            } else {
                first_fold_match(ns.skip(i as int), target@) + i
            }),
        decreases sheets@.len() - i,
    {
        proof {
            assert(ns.skip(i as int)[0] == ns[i as int]);
            assert(ns.skip(i as int).drop_first() =~= ns.skip(i as int + 1));
        }
        let f = simple_fold(sheets[i].as_str());
        if str_equal(f.as_str(), target.as_str()) {
            return Some(i);
        }
        i = i + 1;
    }
    proof {
        assert(ns.skip(i as int).len() == 0);
    }
    None
}

/// Checks a named-range definition `name = r` against the rules every
/// definition satisfies: a valid name, a canonical `ref`, and a target sheet
/// among `sheets` (case-insensitively).
pub fn validate_name_definition(name: &str, r: &str, sheets: &[String]) -> (res: Result<(), WorkbookError>)
    ensures
        match res {
            Ok(()) => name_definition_error(name@, r@, texts(sheets@)) is None,
            Err(e) => name_definition_error(name@, r@, texts(sheets@)) matches Some(f) && reports(e, f),
        },
{
    if !is_valid_name(name) {
        return Err(WorkbookError::InvalidReference(quoted_one(
            "named-range name ",
            name,
            " is invalid: it must match ^[A-Za-z_][A-Za-z0-9_]*$ and must not be an A1 address, an R1C1-style reference, or a boolean (schema spec \u{a7}7)",
        )));
    }
    let parsed = match parse_canonical_ref(r) {
        Ok(p) => p,
        Err(m) => {
            return Err(WorkbookError::InvalidReference(m));
        },
    };
    proof {
        crate::named_ref::lemma_canonical_ref_unique(r@, parsed.sheet@, ref_sheet(r@));
    }
    if sheet_index(sheets, parsed.sheet.as_str()).is_none() {
        return Err(WorkbookError::DanglingSheetRef(quoted_pair(
            "named range ",
            name,
            " refers to sheet ",
            parsed.sheet.as_str(),
            ", which does not exist (schema spec \u{a7}7)",
        )));
    }
    Ok(())
}

impl NameRegistry {
    /// Defines a new named range `name` over the canonical reference `r`
    /// (`Sheet!A1` / `Sheet!A1:B2`) and returns it. Refused when the
    /// definition breaks a rule, when the named-range cap is reached, or when
    /// `name` collides (case-insensitively) with an existing name or table.
    #[verifier::rlimit(40)]
    pub fn define_name(&mut self, name: &str, r: &str, sheets: &[String]) -> (res: Result<&NamedRange, WorkbookError>)
        ensures
            res is Ok <==> define_name_error(old(self).spec_names(), old(self).spec_tables(), name@, r@, texts(sheets@)) is None,
            match res {
                Ok(n) => name_entry(*n) == (name@, r@) && final(self).spec_names() == old(self).spec_names().push(
                    (name@, r@),
                ) && final(self).spec_tables() == old(self).spec_tables(),
                Err(e) => define_name_error(old(self).spec_names(), old(self).spec_tables(), name@, r@, texts(sheets@))
                    matches Some(f) && reports(e, f) && final(self).spec_names() == old(self).spec_names()
                    && final(self).spec_tables() == old(self).spec_tables(),
            },
            old(self).wf() ==> final(self).wf(),
    {
        match validate_name_definition(name, r, sheets) {
            Ok(()) => {},
            Err(e) => {
                return Err(e);
            },
        }
        if self.names.len() >= MAX_NAMED_RANGES {
            return Err(WorkbookError::ResourceLimit(numbered(
                "cannot define named range: workbook already has ",
                MAX_NAMED_RANGES as u128,
                " named ranges, the limit (scope ADR Decision 5)",
            )));
        }
        proof {
            lemma_first_fold_match(entry_names(self.spec_names()), folded(name@));
            lemma_first_fold_match(entry_names(self.spec_tables()), folded(name@));
        }
        if let Some(i) = self.name_index(name) {
            return Err(WorkbookError::DuplicateName(quoted_pair(
                "cannot define named range ",
                name,
                ": it collides with the existing name ",
                self.names[i].name.as_str(),
                " under simple case folding (schema spec \u{a7}7)",
            )));
        }
        if let Some(j) = self.table_index(name) {
            return Err(WorkbookError::DuplicateName(quoted_pair(
                "cannot define named range ",
                name,
                ": it collides with the existing table ",
                self.tables[j].name.as_str(),
                " under simple case folding (structured-references spec \u{a7}4)",
            )));
        }
        let ghost before = self.spec_names();
        self.names.push(NamedRange { name: string_of(name), reference: string_of(r) });
        proof {
            assert(self.spec_names() =~= before.push((name@, r@)));
            if old(self).wf() {
                lemma_push_keeps_folds(entry_names(before), entry_names(self.spec_tables()), name@);
                assert(entry_names(self.spec_names()) =~= entry_names(before).push(name@));
            }
        }
        let k = self.names.len() - 1;
        Ok(&self.names[k])
    }
}


/// The first rule redefining named range `name` as `r` breaks: the
/// definition rules, then that no name matches `name`.
pub open spec fn redefine_name_error(names: Seq<Entry>, name: Seq<char>, r: Seq<char>, sheets: Seq<Seq<char>>) -> Option<
    (ErrorKind, Seq<char>),
> {
    match name_definition_error(name, r, sheets) {
        Some(e) => Some(e),
        None => if first_fold_match(entry_names(names), folded(name)) < 0 {
            Some((ErrorKind::NotFound, no_such_name_message(name)))
        } else {
            None
        },
    }
}

impl NameRegistry {
    /// Points the existing named range `name` (case-insensitive) at the
    /// canonical reference `r` and returns it. Its name, with its casing,
    /// is kept; only the `ref` changes. Refused when the definition breaks a
    /// rule or no name matches.
    pub fn redefine_name(&mut self, name: &str, r: &str, sheets: &[String]) -> (res: Result<&NamedRange, WorkbookError>)
        ensures
            res is Ok <==> redefine_name_error(old(self).spec_names(), name@, r@, texts(sheets@)) is None,
            match res {
                Ok(n) => {
                    let i = first_fold_match(entry_names(old(self).spec_names()), folded(name@));
                    &&& 0 <= i < old(self).spec_names().len()
                    &&& final(self).spec_names() == old(self).spec_names().update(i, (old(self).spec_names()[i].0, r@))
                    &&& name_entry(*n) == final(self).spec_names()[i]
                },
                Err(e) => redefine_name_error(old(self).spec_names(), name@, r@, texts(sheets@)) matches Some(f)
                    && reports(e, f) && final(self).spec_names() == old(self).spec_names(),
            },
            final(self).spec_tables() == old(self).spec_tables(),
            old(self).wf() ==> final(self).wf(),
    {
        match validate_name_definition(name, r, sheets) {
            Ok(()) => {},
            Err(e) => {
                return Err(e);
            },
        }
        let idx = match self.name_index(name) {
            Some(i) => i,
            None => {
                return Err(WorkbookError::NotFound(quoted_one(
                    "cannot redefine named range: no name ",
                    name,
                    " exists",
                )));
            },
        };
        proof {
            lemma_first_fold_match(entry_names(self.spec_names()), folded(name@));
        }
        let ghost before = self.spec_names();
        self.names[idx].reference = string_of(r);
        proof {
            assert(self.spec_names() =~= before.update(idx as int, (before[idx as int].0, r@)));
            assert(entry_names(self.spec_names()) =~= entry_names(before));
        }
        Ok(&self.names[idx])
    }

    /// Removes the named range `name` (case-insensitive) and returns it, or
    /// `None` when no name matches.
    pub fn remove_name(&mut self, name: &str) -> (res: Option<NamedRange>)
        ensures
            match res {
                Some(n) => {
                    let i = first_fold_match(entry_names(old(self).spec_names()), folded(name@));
                    &&& 0 <= i < old(self).spec_names().len()
                    &&& name_entry(n) == old(self).spec_names()[i]
                    &&& final(self).spec_names() == old(self).spec_names().remove(i)
                },
                None => first_fold_match(entry_names(old(self).spec_names()), folded(name@)) == -1
                    && final(self).spec_names() == old(self).spec_names(),
            },
            final(self).spec_tables() == old(self).spec_tables(),
            old(self).wf() ==> final(self).wf(),
    {
        match self.name_index(name) {
            Some(i) => {
                proof {
                    lemma_first_fold_match(entry_names(self.spec_names()), folded(name@));
                }
                let ghost before = self.spec_names();
                let n = self.names.remove(i);
                proof {
                    assert(self.spec_names() =~= before.remove(i as int));
                    if old(self).wf() {
                        assert(entry_names(self.spec_names()) =~= entry_names(before).remove(i as int));
                        lemma_remove_keeps_folds(entry_names(before), entry_names(self.spec_tables()), i as int);
                    }
                }
                Some(n)
            },
            None => None,
        }
    }
}


// ---------------------------------------------------------------------------
// Tables
// ---------------------------------------------------------------------------

pub open spec fn invalid_table_name_message(name: Seq<char>) -> Seq<char> {
    "table name "@ + dq(name)
        + " is invalid: it must match ^[A-Za-z_][A-Za-z0-9_]*$ and must not be an A1 address, an R1C1-style reference, or a boolean (structured-references spec \u{a7}4)"@
}

pub open spec fn dangling_table_message(name: Seq<char>, sheet: Seq<char>) -> Seq<char> {
    "table "@ + dq(name) + " refers to sheet "@ + dq(sheet) + ", which does not exist (structured-references spec \u{a7}4)"@
}

pub open spec fn malformed_table_message(name: Seq<char>) -> Seq<char> {
    "table "@ + dq(name) + " has a malformed ref: a table ref must be a range (structured-references spec \u{a7}4)"@
}

pub open spec fn table_cap_message() -> Seq<char> {
    "cannot define table: workbook already has "@ + decimal_digits(MAX_TABLES as nat) + " tables, the limit (scope ADR Decision 5)"@
}

pub open spec fn table_collides_with_table_message(name: Seq<char>, existing: Seq<char>) -> Seq<char> {
    "cannot define table "@ + dq(name) + ": it collides with the existing table "@ + dq(existing)
        + " under simple case folding (structured-references spec \u{a7}4)"@
}

pub open spec fn table_collides_with_name_message(name: Seq<char>, existing: Seq<char>) -> Seq<char> {
    "cannot define table "@ + dq(name) + ": it collides with the existing named range "@ + dq(existing)
        + " under simple case folding (structured-references spec \u{a7}4)"@
}

pub open spec fn table_overlap_message(name: Seq<char>, other: Seq<char>) -> Seq<char> {
    "cannot define table "@ + dq(name) + ": its range overlaps the existing table "@ + dq(other)
        + " (structured-references spec \u{a7}4)"@
}

pub open spec fn no_such_table_message(name: Seq<char>) -> Seq<char> {
    "cannot redefine table: no table "@ + dq(name) + " exists"@
}

pub open spec fn table_redefine_overlap_message(name: Seq<char>, other: Seq<char>) -> Seq<char> {
    "cannot redefine table "@ + dq(name) + ": its range overlaps the existing table "@ + dq(other)
        + " (structured-references spec \u{a7}4)"@
}

/// The range of a table `ref`, its sheet folded: `None` unless the `ref` is a
/// canonical range.
pub open spec fn table_bounds(r: Seq<char>) -> Option<BoundsView> {
    if exists|s: Seq<char>| spec_canonical_ref(r, s) {
        match spec_range_bounds(r, ref_sheet(r)) {
            Some(b) => Some((folded(b.0), b.1, b.2, b.3, b.4)),
            None => None,
        }
    } else {
        None
    }
}

/// A table definition `name = r`: the range it covers, or the first rule it
/// breaks (the name's shape, the canonical `ref`, the target sheet's
/// existence, a range rather than a single cell).
pub open spec fn table_definition(name: Seq<char>, r: Seq<char>, sheets: Seq<Seq<char>>) -> Result<
    BoundsView,
    (ErrorKind, Seq<char>),
> {
    if !spec_is_valid_name(name) {
        Err((ErrorKind::InvalidReference, invalid_table_name_message(name)))
    } else if !(exists|s: Seq<char>| spec_canonical_ref(r, s)) {
        Err((ErrorKind::InvalidReference, ref_error(r)))
    } else if first_fold_match(sheets, folded(ref_sheet(r))) < 0 {
        Err((ErrorKind::DanglingSheetRef, dangling_table_message(name, ref_sheet(r))))
    } else {
        match table_bounds(r) {
            Some(b) if spec_is_range_ref(r) => Ok(b),
            _ => Err((ErrorKind::InvalidReference, malformed_table_message(name))),
        }
    }
}

/// Table `i` (other than table `exclude`) covers a range overlapping `b`.
pub open spec fn overlaps(tables: Seq<Entry>, i: int, b: BoundsView, exclude: int) -> bool {
    &&& i != exclude
    &&& table_bounds(tables[i].1) matches Some(o)
    &&& spec_ranges_overlap(b, o)
}

/// The first of the first `n` tables whose range overlaps `b`, or `-1`.
pub open spec fn first_overlap_in(tables: Seq<Entry>, b: BoundsView, exclude: int, n: int) -> int
    decreases n,
{
    if n <= 0 {
        -1
    } else {
        let r = first_overlap_in(tables, b, exclude, n - 1);
        if r >= 0 {
            r
        } else if overlaps(tables, n - 1, b, exclude) {
            n - 1
        } else {
            -1
        }
    }
}

/// The first table whose range overlaps `b` (skipping table `exclude`), or
/// `-1`.
pub open spec fn first_overlapping(tables: Seq<Entry>, b: BoundsView, exclude: int) -> int {
    first_overlap_in(tables, b, exclude, tables.len() as int)
}

/// `first_overlap_in` finds exactly the first overlapping table.
pub proof fn lemma_first_overlap_in(tables: Seq<Entry>, b: BoundsView, exclude: int, n: int)
    requires
        0 <= n <= tables.len(),
    ensures
        -1 <= first_overlap_in(tables, b, exclude, n) < n,
        first_overlap_in(tables, b, exclude, n) >= 0 ==> overlaps(tables, first_overlap_in(tables, b, exclude, n), b, exclude),
        first_overlap_in(tables, b, exclude, n) < 0 <==> forall|i: int| 0 <= i < n ==> !#[trigger] overlaps(tables, i, b, exclude),
    decreases n,
{
    if n > 0 {
        lemma_first_overlap_in(tables, b, exclude, n - 1);
    }
}

/// No two tables cover overlapping ranges.
pub open spec fn ranges_disjoint(tables: Seq<Entry>) -> bool {
    forall|i: int, j: int|
        0 <= i < j < tables.len() ==> !(#[trigger] table_bounds(tables[i].1) matches Some(a) && #[trigger] table_bounds(
            tables[j].1,
        ) matches Some(c) && spec_ranges_overlap(a, c))
}

/// The range of a table `ref` with its sheet folded, when the `ref` is a
/// canonical range.
pub fn table_bounds_of(r: &str) -> (res: Option<ParsedRangeBounds>)
    ensures
        match res {
            Some(b) => table_bounds(r@) == Some(b@),
            None => table_bounds(r@) is None,
        },
{
    let parsed = match parse_canonical_ref(r) {
        Ok(p) => p,
        Err(_) => return None,
    };
    proof {
        crate::named_ref::lemma_canonical_ref_unique(r@, parsed.sheet@, ref_sheet(r@));
    }
    match parsed_range_bounds(r, &parsed) {
        Some(b) => Some(
            ParsedRangeBounds {
                sheet: simple_fold(b.sheet.as_str()),
                row_start: b.row_start,
                row_end: b.row_end,
                col_start: b.col_start,
                col_end: b.col_end,
            },
        ),
        None => None,
    }
}

/// Checks a table definition `name = r` and returns the range it covers,
/// its sheet folded.
pub fn validate_table_definition(name: &str, r: &str, sheets: &[String]) -> (res: Result<ParsedRangeBounds, WorkbookError>)
    ensures
        match res {
            Ok(b) => table_definition(name@, r@, texts(sheets@)) == Ok::<BoundsView, (ErrorKind, Seq<char>)>(b@),
            Err(e) => table_definition(name@, r@, texts(sheets@)) matches Err(f) && reports(e, f),
        },
{
    if !is_valid_name(name) {
        return Err(WorkbookError::InvalidReference(quoted_one(
            "table name ",
            name,
            " is invalid: it must match ^[A-Za-z_][A-Za-z0-9_]*$ and must not be an A1 address, an R1C1-style reference, or a boolean (structured-references spec \u{a7}4)",
        )));
    }
    let parsed = match parse_canonical_ref(r) {
        Ok(p) => p,
        Err(m) => {
            return Err(WorkbookError::InvalidReference(m));
        },
    };
    proof {
        crate::named_ref::lemma_canonical_ref_unique(r@, parsed.sheet@, ref_sheet(r@));
    }
    if sheet_index(sheets, parsed.sheet.as_str()).is_none() {
        return Err(WorkbookError::DanglingSheetRef(quoted_pair(
            "table ",
            name,
            " refers to sheet ",
            parsed.sheet.as_str(),
            ", which does not exist (structured-references spec \u{a7}4)",
        )));
    }
    let bounds = if is_range_ref(r) {
        table_bounds_of(r)
    } else {
        None
    };
    match bounds {
        Some(b) => Ok(b),
        None => Err(WorkbookError::InvalidReference(quoted_one(
            "table ",
            name,
            " has a malformed ref: a table ref must be a range (structured-references spec \u{a7}4)",
        ))),
    }
}

impl NameRegistry {
    /// The name of the first table (other than the one at `exclude_idx`)
    /// whose range overlaps `bounds` (sheet already folded), or `None`. A
    /// stored `ref` that is not a canonical range overlaps nothing.
    pub fn overlapping_table(&self, bounds: &ParsedRangeBounds, exclude_idx: Option<usize>) -> (r: Option<String>)
        ensures
            ({
                let ex = match exclude_idx {
                    Some(x) => x as int,
                    None => -1,
                };
                match r {
                    Some(n) => first_overlapping(self.spec_tables(), bounds@, ex) >= 0 && n@ == self.spec_tables()[first_overlapping(
                        self.spec_tables(),
                        bounds@,
                        ex,
                    )].0,
                    None => first_overlapping(self.spec_tables(), bounds@, ex) == -1,
                }
            }),
    {
        let ghost ex: int = match exclude_idx {
            Some(x) => x as int,
            None => -1,
        };
        let ghost ts = self.spec_tables();
        let mut i: usize = 0;
        while i < self.tables.len()
            invariant
                i <= self.tables@.len() == ts.len(),
                ts == self.spec_tables(),
                ex == (match exclude_idx {
                    Some(x) => x as int,
                    None => -1,
                }),
                first_overlap_in(ts, bounds@, ex, i as int) == -1,
            decreases self.tables@.len() - i,
        {
            let skip = match exclude_idx {
                Some(x) => x == i,
                None => false,
            };
            if !skip {
                match table_bounds_of(self.tables[i].reference.as_str()) {
                    Some(other) => {
                        if ranges_overlap(bounds, &other) {
                            proof {
                                assert(overlaps(ts, i as int, bounds@, ex));
                                assert(first_overlap_in(ts, bounds@, ex, i as int + 1) == i as int);
                                lemma_first_overlap_stable(ts, bounds@, ex, i as int + 1);
                            }
                            return Some(string_of(self.tables[i].name.as_str()));
                        }
                    },
                    None => {},
                }
            }
            proof {
                assert(!overlaps(ts, i as int, bounds@, ex));
            }
            i = i + 1;
        }
        None
    }
}

/// Once found among the first `n` tables, the first overlapping table stays
/// the first.
proof fn lemma_first_overlap_stable(tables: Seq<Entry>, b: BoundsView, exclude: int, n: int)
    requires
        0 <= n <= tables.len(),
        first_overlap_in(tables, b, exclude, n) >= 0,
    ensures
        first_overlapping(tables, b, exclude) == first_overlap_in(tables, b, exclude, n),
    decreases tables.len() - n,
{
    if n < tables.len() {
        lemma_first_overlap_stable(tables, b, exclude, n + 1);
    }
}


/// The first rule defining a new table `name = r` breaks: the definition
/// rules, the cap, a collision with a table, then with a named range, then
/// an overlap with another table's range.
pub open spec fn define_table_error(
    names: Seq<Entry>,
    tables: Seq<Entry>,
    name: Seq<char>,
    r: Seq<char>,
    sheets: Seq<Seq<char>>,
) -> Option<(ErrorKind, Seq<char>)> {
    match table_definition(name, r, sheets) {
        Err(e) => Some(e),
        Ok(b) => if tables.len() >= MAX_TABLES {
            Some((ErrorKind::ResourceLimit, table_cap_message()))
        } else if first_fold_match(entry_names(tables), folded(name)) >= 0 {
            Some(
                (
                    ErrorKind::DuplicateName,
                    table_collides_with_table_message(name, tables[first_fold_match(entry_names(tables), folded(name))].0),
                ),
            )
        } else if first_fold_match(entry_names(names), folded(name)) >= 0 {
            Some(
                (
                    ErrorKind::DuplicateName,
                    table_collides_with_name_message(name, names[first_fold_match(entry_names(names), folded(name))].0),
                ),
            )
        } else if first_overlapping(tables, b, -1) >= 0 {
            Some((ErrorKind::RangeOverlap, table_overlap_message(name, tables[first_overlapping(tables, b, -1)].0)))
        } else {
            None
        },
    }
}

/// The first rule redefining table `name` as `r` breaks: the definition
/// rules, that no table matches `name`, then an overlap with another
/// table's range.
pub open spec fn redefine_table_error(tables: Seq<Entry>, name: Seq<char>, r: Seq<char>, sheets: Seq<Seq<char>>) -> Option<
    (ErrorKind, Seq<char>),
> {
    match table_definition(name, r, sheets) {
        Err(e) => Some(e),
        Ok(b) => {
            let i = first_fold_match(entry_names(tables), folded(name));
            if i < 0 {
                Some((ErrorKind::NotFound, no_such_table_message(name)))
            } else if first_overlapping(tables, b, i) >= 0 {
                Some((ErrorKind::RangeOverlap, table_redefine_overlap_message(name, tables[first_overlapping(tables, b, i)].0)))
            } else {
                None
            }
        },
    }
}

/// A table whose range overlaps none of the others keeps the ranges
/// disjoint, whether added or put in place of table `k`.
proof fn lemma_table_ranges_disjoint(tables: Seq<Entry>, e: Entry, b: BoundsView, k: int)
    requires
        ranges_disjoint(tables),
        table_bounds(e.1) == Some(b),
        first_overlapping(tables, b, k) < 0,
        k == -1 || 0 <= k < tables.len(),
    ensures
        k == -1 ==> ranges_disjoint(tables.push(e)),
        0 <= k < tables.len() ==> ranges_disjoint(tables.update(k, e)),
{
    lemma_first_overlap_in(tables, b, k, tables.len() as int);
    let n = if k == -1 { tables.push(e) } else { tables.update(k, e) };
    let m = if k == -1 { tables.len() as int } else { k };
    assert forall|i: int, j: int|
        0 <= i < j < n.len() implies !(#[trigger] table_bounds(n[i].1) matches Some(a) && #[trigger] table_bounds(n[j].1) matches Some(c)
        && spec_ranges_overlap(a, c)) by {
        if i == m {
            assert(!overlaps(tables, j, b, k));
            crate::table_ref::law_ranges_overlap_symmetric(b, table_bounds(n[j].1).unwrap());
        } else if j == m {
            assert(!overlaps(tables, i, b, k));
            crate::table_ref::law_ranges_overlap_symmetric(b, table_bounds(n[i].1).unwrap());
        } else {
            assert(n[i] == tables[i] && n[j] == tables[j]);
        }
    }
}

impl NameRegistry {
    /// The table called `name` (case-insensitive), if any.
    pub fn table(&self, name: &str) -> (r: Option<&Table>)
        ensures
            match r {
                Some(t) => first_fold_match(entry_names(self.spec_tables()), folded(name@)) >= 0 && table_entry(*t)
                    == self.spec_tables()[first_fold_match(entry_names(self.spec_tables()), folded(name@))],
                None => first_fold_match(entry_names(self.spec_tables()), folded(name@)) == -1,
            },
    {
        match self.table_index(name) {
            Some(i) => {
                proof {
                    lemma_first_fold_match(entry_names(self.spec_tables()), folded(name@));
                }
                Some(&self.tables[i])
            },
            None => None,
        }
    }

    /// Defines a new table `name` over the canonical range `r`
    /// (`Sheet!A1:B2`) and returns it. Refused when the definition breaks a
    /// rule, when the table cap is reached, when `name` collides
    /// (case-insensitively) with a table or named range, or when the range
    /// overlaps an existing table's range. The header row is not checked: a
    /// table may be defined before its header cells are written.
    #[verifier::rlimit(40)]
    pub fn define_table(&mut self, name: &str, r: &str, sheets: &[String]) -> (res: Result<&Table, WorkbookError>)
        ensures
            res is Ok <==> define_table_error(old(self).spec_names(), old(self).spec_tables(), name@, r@, texts(sheets@))
                is None,
            match res {
                Ok(t) => table_entry(*t) == (name@, r@) && final(self).spec_tables() == old(self).spec_tables().push(
                    (name@, r@),
                ),
                Err(e) => define_table_error(old(self).spec_names(), old(self).spec_tables(), name@, r@, texts(sheets@))
                    matches Some(f) && reports(e, f) && final(self).spec_tables() == old(self).spec_tables(),
            },
            final(self).spec_names() == old(self).spec_names(),
            old(self).wf() ==> final(self).wf(),
    {
        let bounds = match validate_table_definition(name, r, sheets) {
            Ok(b) => b,
            Err(e) => {
                return Err(e);
            },
        };
        if self.tables.len() >= MAX_TABLES {
            return Err(WorkbookError::ResourceLimit(numbered(
                "cannot define table: workbook already has ",
                MAX_TABLES as u128,
                " tables, the limit (scope ADR Decision 5)",
            )));
        }
        proof {
            lemma_first_fold_match(entry_names(self.spec_names()), folded(name@));
            lemma_first_fold_match(entry_names(self.spec_tables()), folded(name@));
        }
        if let Some(i) = self.table_index(name) {
            return Err(WorkbookError::DuplicateName(quoted_pair(
                "cannot define table ",
                name,
                ": it collides with the existing table ",
                self.tables[i].name.as_str(),
                " under simple case folding (structured-references spec \u{a7}4)",
            )));
        }
        if let Some(j) = self.name_index(name) {
            return Err(WorkbookError::DuplicateName(quoted_pair(
                "cannot define table ",
                name,
                ": it collides with the existing named range ",
                self.names[j].name.as_str(),
                " under simple case folding (structured-references spec \u{a7}4)",
            )));
        }
        if let Some(other) = self.overlapping_table(&bounds, None) {
            return Err(WorkbookError::RangeOverlap(quoted_pair(
                "cannot define table ",
                name,
                ": its range overlaps the existing table ",
                other.as_str(),
                " (structured-references spec \u{a7}4)",
            )));
        }
        let ghost before = self.spec_tables();
        self.tables.push(Table { name: string_of(name), reference: string_of(r) });
        proof {
            assert(self.spec_tables() =~= before.push((name@, r@)));
            if old(self).wf() {
                lemma_push_keeps_folds(entry_names(before), entry_names(self.spec_names()), name@);
                assert(entry_names(self.spec_tables()) =~= entry_names(before).push(name@));
                lemma_table_ranges_disjoint(before, (name@, r@), bounds@, -1);
                assert forall|i: int, j: int|
                    0 <= i < entry_names(self.spec_names()).len() && 0 <= j < entry_names(self.spec_tables()).len() implies folded(
                    #[trigger] entry_names(self.spec_names())[i],
                ) != folded(#[trigger] entry_names(self.spec_tables())[j]) by {
                    assert(folds_disjoint(entry_names(before).push(name@), entry_names(self.spec_names())));
                }
            }
        }
        let k = self.tables.len() - 1;
        Ok(&self.tables[k])
    }
}


/// Removing a table keeps the remaining ranges disjoint.
proof fn lemma_remove_keeps_ranges_disjoint(tables: Seq<Entry>, k: int)
    requires
        ranges_disjoint(tables),
        0 <= k < tables.len(),
    ensures
        ranges_disjoint(tables.remove(k)),
{
    let n = tables.remove(k);
    assert forall|i: int, j: int|
        0 <= i < j < n.len() implies !(#[trigger] table_bounds(n[i].1) matches Some(a) && #[trigger] table_bounds(n[j].1) matches Some(c)
        && spec_ranges_overlap(a, c)) by {
        let x = if i < k { i } else { i + 1 };
        let y = if j < k { j } else { j + 1 };
        assert(n[i] == tables[x] && n[j] == tables[y]);
    }
}

impl NameRegistry {
    /// Points the existing table `name` (case-insensitive) at the canonical
    /// range `r` and returns it. Its name, with its casing, is kept; only the
    /// `ref` changes. Refused when the definition breaks a rule, no table
    /// matches, or the new range overlaps another table's range.
    #[verifier::rlimit(40)]
    pub fn redefine_table(&mut self, name: &str, r: &str, sheets: &[String]) -> (res: Result<&Table, WorkbookError>)
        ensures
            res is Ok <==> redefine_table_error(old(self).spec_tables(), name@, r@, texts(sheets@)) is None,
            match res {
                Ok(t) => {
                    let i = first_fold_match(entry_names(old(self).spec_tables()), folded(name@));
                    &&& 0 <= i < old(self).spec_tables().len()
                    &&& final(self).spec_tables() == old(self).spec_tables().update(i, (old(self).spec_tables()[i].0, r@))
                    &&& table_entry(*t) == final(self).spec_tables()[i]
                },
                Err(e) => redefine_table_error(old(self).spec_tables(), name@, r@, texts(sheets@)) matches Some(f)
                    && reports(e, f) && final(self).spec_tables() == old(self).spec_tables(),
            },
            final(self).spec_names() == old(self).spec_names(),
            old(self).wf() ==> final(self).wf(),
    {
        let bounds = match validate_table_definition(name, r, sheets) {
            Ok(b) => b,
            Err(e) => {
                return Err(e);
            },
        };
        let idx = match self.table_index(name) {
            Some(i) => i,
            None => {
                return Err(WorkbookError::NotFound(quoted_one("cannot redefine table: no table ", name, " exists")));
            },
        };
        proof {
            lemma_first_fold_match(entry_names(self.spec_tables()), folded(name@));
        }
        if let Some(other) = self.overlapping_table(&bounds, Some(idx)) {
            return Err(WorkbookError::RangeOverlap(quoted_pair(
                "cannot redefine table ",
                name,
                ": its range overlaps the existing table ",
                other.as_str(),
                " (structured-references spec \u{a7}4)",
            )));
        }
        let ghost before = self.spec_tables();
        self.tables[idx].reference = string_of(r);
        proof {
            assert(self.spec_tables() =~= before.update(idx as int, (before[idx as int].0, r@)));
            assert(entry_names(self.spec_tables()) =~= entry_names(before));
            if old(self).wf() {
                lemma_table_ranges_disjoint(before, (before[idx as int].0, r@), bounds@, idx as int);
            }
        }
        Ok(&self.tables[idx])
    }

    /// Removes the table `name` (case-insensitive) and returns it, or `None`
    /// when no table matches.
    pub fn remove_table(&mut self, name: &str) -> (res: Option<Table>)
        ensures
            match res {
                Some(t) => {
                    let i = first_fold_match(entry_names(old(self).spec_tables()), folded(name@));
                    &&& 0 <= i < old(self).spec_tables().len()
                    &&& table_entry(t) == old(self).spec_tables()[i]
                    &&& final(self).spec_tables() == old(self).spec_tables().remove(i)
                },
                None => first_fold_match(entry_names(old(self).spec_tables()), folded(name@)) == -1
                    && final(self).spec_tables() == old(self).spec_tables(),
            },
            final(self).spec_names() == old(self).spec_names(),
            old(self).wf() ==> final(self).wf(),
    {
        match self.table_index(name) {
            Some(i) => {
                proof {
                    lemma_first_fold_match(entry_names(self.spec_tables()), folded(name@));
                }
                let ghost before = self.spec_tables();
                let t = self.tables.remove(i);
                proof {
                    assert(self.spec_tables() =~= before.remove(i as int));
                    if old(self).wf() {
                        assert(entry_names(self.spec_tables()) =~= entry_names(before).remove(i as int));
                        lemma_remove_keeps_folds(entry_names(before), entry_names(self.spec_names()), i as int);
                        lemma_remove_keeps_ranges_disjoint(before, i as int);
                        assert forall|a: int, j: int|
                            0 <= a < entry_names(self.spec_names()).len() && 0 <= j < entry_names(self.spec_tables()).len() implies folded(
                            #[trigger] entry_names(self.spec_names())[a],
                        ) != folded(#[trigger] entry_names(self.spec_tables())[j]) by {
                            assert(folds_disjoint(entry_names(self.spec_names()), entry_names(before).remove(i as int)));
                        }
                    }
                }
                Some(t)
            },
            None => None,
        }
    }
}


/// Writing at `addr` on the sheet whose folded name is `sheet` lands exactly
/// one row below the range of table entry `t`, within its columns.
pub open spec fn appends_to(t: Entry, sheet: Seq<char>, addr: Address) -> bool {
    &&& table_bounds(t.1) matches Some(b)
    &&& b.0 == sheet
    &&& b.2 + 1 == addr.row
    &&& b.3 <= addr.column <= b.4
}

/// The first table that a write at `addr` on sheet `sheet` (folded) appends
/// to, or `-1`.
pub open spec fn first_append_in(tables: Seq<Entry>, sheet: Seq<char>, addr: Address, n: int) -> int
    decreases n,
{
    if n <= 0 {
        -1
    } else {
        let r = first_append_in(tables, sheet, addr, n - 1);
        if r >= 0 {
            r
        } else if appends_to(tables[n - 1], sheet, addr) {
            n - 1
        } else {
            -1
        }
    }
}

/// The canonical `ref` of the range from `(row_start, col_start)` to
/// `(row_end, col_end)` on sheet `sheet`.
pub open spec fn range_ref_text(sheet: Seq<char>, row_start: u32, col_start: u32, row_end: u32, col_end: u32) -> Seq<char> {
    crate::named_ref::spec_quote_sheet(sheet) + seq!['!'] + crate::address::a1_text(
        Address { row: row_start, column: col_start },
    ) + seq![':'] + crate::address::a1_text(Address { row: row_end, column: col_end })
}

/// The tables after a write at `addr` on sheet `sheet_name`: the first table
/// the write lands one row below (within its columns) grows by that row,
/// unless the grown range would overlap another table's range; otherwise
/// nothing changes.
pub open spec fn tables_after_append(tables: Seq<Entry>, sheet_name: Seq<char>, addr: Address) -> Seq<Entry> {
    let i = first_append_in(tables, folded(sheet_name), addr, tables.len() as int);
    if i < 0 {
        tables
    } else {
        let b = table_bounds(tables[i].1)->0;
        let grown = (b.0, b.1, addr.row, b.3, b.4);
        if first_overlapping(tables, grown, i) >= 0 {
            tables
        } else {
            tables.update(i, (tables[i].0, range_ref_text(ref_sheet(tables[i].1), b.1, b.3, addr.row, b.4)))
        }
    }
}

/// A write changes at most one table, and only one it lands directly below,
/// on the table's own sheet and within the table's column span; that table
/// keeps its name and now covers its old range grown down to the written
/// row, columns unchanged. Every other table keeps its name and `ref`.
pub proof fn law_append_grows_only_the_table_above(tables: Seq<Entry>, sheet_name: Seq<char>, addr: Address)
    requires
        addr.wf(),
    ensures
        tables_after_append(tables, sheet_name, addr).len() == tables.len(),
        forall|i: int|
            0 <= i < tables.len() && #[trigger] tables_after_append(tables, sheet_name, addr)[i] != tables[i] ==> {
                &&& tables_after_append(tables, sheet_name, addr)[i].0 == tables[i].0
                &&& table_bounds(tables[i].1) matches Some(b)
                &&& b.0 == folded(sheet_name)
                &&& b.2 + 1 == addr.row
                &&& b.3 <= addr.column && addr.column <= b.4
                &&& table_bounds(tables_after_append(tables, sheet_name, addr)[i].1) == Some((b.0, b.1, addr.row, b.3, b.4))
            },
        forall|i: int, j: int|
            0 <= i < j < tables.len() && #[trigger] tables_after_append(tables, sheet_name, addr)[i] != tables[i]
                ==> #[trigger] tables_after_append(tables, sheet_name, addr)[j] == tables[j],
{
    lemma_first_append_in(tables, folded(sheet_name), addr, tables.len() as int);
    let i = first_append_in(tables, folded(sheet_name), addr, tables.len() as int);
    if i >= 0 {
        lemma_table_bounds_ordered(tables[i].1);
        let b = table_bounds(tables[i].1)->0;
        lemma_range_ref_text_bounds(ref_sheet(tables[i].1), b.1, b.3, addr.row, b.4);
    }
}

/// A write directly below table `k`, on its sheet and within its columns,
/// where no earlier table is written below in that way, grows table `k` to
/// the written row when the grown range overlaps no other table, and
/// otherwise leaves every table as it is.
pub proof fn law_append_grows_the_first_table_below(tables: Seq<Entry>, sheet_name: Seq<char>, addr: Address, k: int)
    requires
        addr.wf(),
        0 <= k < tables.len(),
        table_bounds(tables[k].1) matches Some(b) && b.0 == folded(sheet_name) && b.2 + 1 == addr.row && b.3
            <= addr.column && addr.column <= b.4,
        forall|j: int|
            0 <= j < k ==> !(#[trigger] table_bounds(tables[j].1) matches Some(c) && c.0 == folded(sheet_name) && c.2
                + 1 == addr.row && c.3 <= addr.column && addr.column <= c.4),
    ensures
        ({
            let b = table_bounds(tables[k].1)->0;
            let grown = (b.0, b.1, addr.row, b.3, b.4);
            let after = tables_after_append(tables, sheet_name, addr);
            &&& (forall|j: int|
                0 <= j < tables.len() && j != k ==> !(#[trigger] table_bounds(tables[j].1) matches Some(c)
                    && spec_ranges_overlap(grown, c))) ==> {
                &&& after.len() == tables.len()
                &&& after[k].0 == tables[k].0
                &&& table_bounds(after[k].1) == Some(grown)
                &&& forall|j: int| 0 <= j < tables.len() && j != k ==> #[trigger] after[j] == tables[j]
            }
            &&& (exists|j: int|
                0 <= j < tables.len() && j != k && (#[trigger] table_bounds(tables[j].1) matches Some(c)
                    && spec_ranges_overlap(grown, c))) ==> after == tables
        }),
{
    let f = folded(sheet_name);
    lemma_first_append_is(tables, f, addr, k, tables.len() as int);
    let b = table_bounds(tables[k].1)->0;
    let grown = (b.0, b.1, addr.row, b.3, b.4);
    lemma_first_overlap_in(tables, grown, k, tables.len() as int);
    lemma_table_bounds_ordered(tables[k].1);
    lemma_range_ref_text_bounds(ref_sheet(tables[k].1), b.1, b.3, addr.row, b.4);
    if exists|j: int|
        0 <= j < tables.len() && j != k && (#[trigger] table_bounds(tables[j].1) matches Some(c)
            && spec_ranges_overlap(grown, c)) {
        let j = choose|j: int|
            0 <= j < tables.len() && j != k && (#[trigger] table_bounds(tables[j].1) matches Some(c)
                && spec_ranges_overlap(grown, c));
        assert(overlaps(tables, j, grown, k));
    } else {
        assert forall|j: int| 0 <= j < tables.len() implies !#[trigger] overlaps(tables, j, grown, k) by {
            if j != k && overlaps(tables, j, grown, k) {
                assert(table_bounds(tables[j].1) matches Some(c) && spec_ranges_overlap(grown, c));
            }
        }
    }
}

/// Where table `k` is the first the write lands below, `first_append_in`
/// over `n > k` tables finds it.
proof fn lemma_first_append_is(tables: Seq<Entry>, sheet: Seq<char>, addr: Address, k: int, n: int)
    requires
        0 <= k < n <= tables.len(),
        appends_to(tables[k], sheet, addr),
        forall|j: int|
            0 <= j < k ==> !(#[trigger] table_bounds(tables[j].1) matches Some(c) && c.0 == sheet && c.2 + 1 == addr.row
                && c.3 <= addr.column && addr.column <= c.4),
    ensures
        first_append_in(tables, sheet, addr, n) == k,
    decreases n,
{
    if n > k + 1 {
        lemma_first_append_is(tables, sheet, addr, k, n - 1);
    } else {
        lemma_first_append_none(tables, sheet, addr, k);
    }
}

/// No table before `k` is one the write lands below.
proof fn lemma_first_append_none(tables: Seq<Entry>, sheet: Seq<char>, addr: Address, k: int)
    requires
        0 <= k <= tables.len(),
        forall|j: int|
            0 <= j < k ==> !(#[trigger] table_bounds(tables[j].1) matches Some(c) && c.0 == sheet && c.2 + 1 == addr.row
                && c.3 <= addr.column && addr.column <= c.4),
    ensures
        first_append_in(tables, sheet, addr, k) == -1,
    decreases k,
{
    if k > 0 {
        assert(!(table_bounds(tables[k - 1].1) matches Some(c) && c.0 == sheet && c.2 + 1 == addr.row && c.3
            <= addr.column && addr.column <= c.4));
        lemma_first_append_none(tables, sheet, addr, k - 1);
    }
}

/// A write whose column lies outside the column span of every table leaves
/// all tables as they are.
pub proof fn law_append_outside_columns_changes_nothing(tables: Seq<Entry>, sheet_name: Seq<char>, addr: Address)
    requires
        forall|i: int| 0 <= i < tables.len() ==> (#[trigger] table_bounds(tables[i].1) matches Some(b) ==> (addr.column
            < b.3 || b.4 < addr.column)),
    ensures
        tables_after_append(tables, sheet_name, addr) == tables,
{
    lemma_first_append_in(tables, folded(sheet_name), addr, tables.len() as int);
    let i = first_append_in(tables, folded(sheet_name), addr, tables.len() as int);
    if i >= 0 {
        assert(table_bounds(tables[i].1) is Some);
    }
}

/// `first_append_in` names a table that the write appends to.
proof fn lemma_first_append_in(tables: Seq<Entry>, sheet: Seq<char>, addr: Address, n: int)
    requires
        0 <= n <= tables.len(),
    ensures
        -1 <= first_append_in(tables, sheet, addr, n) < n,
        first_append_in(tables, sheet, addr, n) >= 0 ==> appends_to(tables[first_append_in(tables, sheet, addr, n)], sheet, addr),
    decreases n,
{
    if n > 0 {
        lemma_first_append_in(tables, sheet, addr, n - 1);
    }
}

/// Once found among the first `n` tables, the first appended-to table stays
/// the first.
proof fn lemma_first_append_stable(tables: Seq<Entry>, sheet: Seq<char>, addr: Address, n: int)
    requires
        0 <= n <= tables.len(),
        first_append_in(tables, sheet, addr, n) >= 0,
    ensures
        first_append_in(tables, sheet, addr, tables.len() as int) == first_append_in(tables, sheet, addr, n),
    decreases tables.len() - n,
{
    if n < tables.len() {
        lemma_first_append_stable(tables, sheet, addr, n + 1);
    }
}

impl NameRegistry {
    /// The first table that a write at `addr` on the sheet whose folded
    /// name is `sheet` appends to.
    fn append_target(&self, sheet: &str, addr: Address) -> (r: Option<usize>)
        ensures
            match r {
                Some(k) => k < self.spec_tables().len() && first_append_in(
                    self.spec_tables(),
                    sheet@,
                    addr,
                    self.spec_tables().len() as int,
                ) == k as int,
                None => first_append_in(self.spec_tables(), sheet@, addr, self.spec_tables().len() as int) == -1,
            },
    {
        let ghost ts = self.spec_tables();
        let mut i: usize = 0;
        while i < self.tables.len()
            invariant
                i <= self.tables@.len() == ts.len(),
                ts == self.spec_tables(),
                first_append_in(ts, sheet@, addr, i as int) == -1,
            decreases self.tables@.len() - i,
        {
            let hit = match table_bounds_of(self.tables[i].reference.as_str()) {
                Some(b) => str_equal(b.sheet.as_str(), sheet) && b.row_end as u64 + 1 == addr.row as u64
                    && b.col_start <= addr.column && addr.column <= b.col_end,
                None => false,
            };
            if hit {
                proof {
                    assert(appends_to(ts[i as int], sheet@, addr));
                    assert(first_append_in(ts, sheet@, addr, i as int + 1) == i as int);
                    lemma_first_append_stable(ts, sheet@, addr, i as int + 1);
                }
                return Some(i);
            }
            proof {
                assert(!appends_to(ts[i as int], sheet@, addr));
            }
            i = i + 1;
        }
        None
    }

    /// Grows a table by one row when a write at `addr` on sheet
    /// `sheet_name` lands exactly one row below its range, within its
    /// columns: the first such table's `ref` is extended to `addr`'s row,
    /// unless the grown range would overlap another table's range (then the
    /// table is left as it is). A no-op when no table matches.
    pub fn expand_table_on_append(&mut self, sheet_name: &str, addr: Address)
        requires
            addr.wf(),
        ensures
            final(self).spec_tables() == tables_after_append(old(self).spec_tables(), sheet_name@, addr),
            final(self).spec_names() == old(self).spec_names(),
            old(self).wf() ==> final(self).wf(),
    {
        let sheet = simple_fold(sheet_name);
        let ghost ts = self.spec_tables();
        let idx = match self.append_target(sheet.as_str(), addr) {
            Some(k) => k,
            None => {
                return;
            },
        };
        proof {
            lemma_first_append_in(ts, sheet@, addr, ts.len() as int);
            assert(appends_to(ts[idx as int], sheet@, addr));
            assert(ts[idx as int].1 == self.tables@[idx as int].reference@);
        }
        let parsed = match parse_canonical_ref(self.tables[idx].reference.as_str()) {
            Ok(p) => p,
            Err(_) => {
                return;
            },
        };
        let bounds = match table_bounds_of(self.tables[idx].reference.as_str()) {
            Some(b) => b,
            None => {
                return;
            },
        };
        proof {
            let r = ts[idx as int].1;
            crate::named_ref::lemma_canonical_ref_unique(r, parsed.sheet@, ref_sheet(r));
            crate::table_ref::lemma_range_bounds_in_grid(r, ref_sheet(r));
        }
        let grown = ParsedRangeBounds {
            sheet: string_of(bounds.sheet.as_str()),
            row_start: bounds.row_start,
            row_end: addr.row,
            col_start: bounds.col_start,
            col_end: bounds.col_end,
        };
        if self.overlapping_table(&grown, Some(idx)).is_some() {
            return;
        }
        let start = Address { row: bounds.row_start, column: bounds.col_start };
        let end = Address { row: addr.row, column: bounds.col_end };
        let mut text = crate::named_ref::quote_sheet_if_needed(parsed.sheet.as_str());
        crate::text::push_char(&mut text, '!');
        crate::text::push_str(&mut text, start.to_a1().as_str());
        crate::text::push_char(&mut text, ':');
        crate::text::push_str(&mut text, end.to_a1().as_str());
        assert(text@ =~= range_ref_text(parsed.sheet@, bounds.row_start, bounds.col_start, addr.row, bounds.col_end));
        let ghost before = self.spec_tables();
        self.tables[idx].reference = text;
        proof {
            assert(self.spec_tables() =~= before.update(
                idx as int,
                (before[idx as int].0, range_ref_text(parsed.sheet@, bounds.row_start, bounds.col_start, addr.row, bounds.col_end)),
            ));
            assert(entry_names(self.spec_tables()) =~= entry_names(before));
            if old(self).wf() {
                lemma_table_bounds_ordered(before[idx as int].1);
                lemma_range_ref_text_bounds(parsed.sheet@, bounds.row_start, bounds.col_start, addr.row, bounds.col_end);
                lemma_table_ranges_disjoint(
                    before,
                    (before[idx as int].0, range_ref_text(parsed.sheet@, bounds.row_start, bounds.col_start, addr.row, bounds.col_end)),
                    grown@,
                    idx as int,
                );
            }
        }
    }
}


// ---------------------------------------------------------------------------
// Dangling references
// ---------------------------------------------------------------------------

/// The problem with named-range entry `e` in a workbook whose sheets are
/// named `sheets`: a `ref` that does not split into sheet and cells, or one
/// whose sheet does not exist.
pub open spec fn name_ref_problem(e: Entry, sheets: Seq<Seq<char>>) -> Option<Seq<char>> {
    match spec_split(e.1) {
        None => Some(ref_text(e.1, split_error_tail(e.1))),
        Some((sheet, _)) => if first_fold_match(sheets, folded(sheet)) < 0 {
            Some(dangling_name_message(e.0, sheet))
        } else {
            None
        },
    }
}

/// The problem with table entry `e`, as for a named range.
pub open spec fn table_ref_problem(e: Entry, sheets: Seq<Seq<char>>) -> Option<Seq<char>> {
    match spec_split(e.1) {
        None => Some("table "@ + dq(e.0) + ": "@ + ref_text(e.1, split_error_tail(e.1))),
        Some((sheet, _)) => if first_fold_match(sheets, folded(sheet)) < 0 {
            Some(dangling_table_message(e.0, sheet))
        } else {
            None
        },
    }
}

/// The first problem among the first `n` entries (named ranges when
/// `tables` is false), or `None`.
pub open spec fn first_ref_problem(entries: Seq<Entry>, sheets: Seq<Seq<char>>, tables: bool, n: int) -> Option<Seq<char>>
    decreases n,
{
    if n <= 0 {
        None
    } else {
        match first_ref_problem(entries, sheets, tables, n - 1) {
            Some(m) => Some(m),
            None => if tables {
                table_ref_problem(entries[n - 1], sheets)
            } else {
                name_ref_problem(entries[n - 1], sheets)
            },
        }
    }
}

/// A problem among the first `n` entries is the first problem of them all.
proof fn lemma_first_ref_problem_stable(entries: Seq<Entry>, sheets: Seq<Seq<char>>, tables: bool, n: int)
    requires
        0 <= n <= entries.len(),
        first_ref_problem(entries, sheets, tables, n) is Some,
    ensures
        first_ref_problem(entries, sheets, tables, entries.len() as int) == first_ref_problem(entries, sheets, tables, n),
    decreases entries.len() - n,
{
    if n < entries.len() {
        lemma_first_ref_problem_stable(entries, sheets, tables, n + 1);
    }
}

/// The verdict on the workbook's references: the first named range, then
/// the first table, whose `ref` does not split or aims at a missing sheet.
pub open spec fn dangling_refs_error(names: Seq<Entry>, tables: Seq<Entry>, sheets: Seq<Seq<char>>) -> Option<Seq<char>> {
    match first_ref_problem(names, sheets, false, names.len() as int) {
        Some(m) => Some(m),
        None => first_ref_problem(tables, sheets, true, tables.len() as int),
    }
}

impl NameRegistry {
    /// Checks that every named range and table `ref` splits into sheet and
    /// cells and aims at one of `sheets` (case-insensitively); reports the
    /// first that does not. A formula naming a missing sheet is no
    /// violation: it resolves to an error at recalculation.
    pub fn check_no_dangling_refs(&self, sheets: &[String]) -> (res: Result<(), WorkbookError>)
        ensures
            match res {
                Ok(()) => dangling_refs_error(self.spec_names(), self.spec_tables(), texts(sheets@)) is None,
                Err(e) => dangling_refs_error(self.spec_names(), self.spec_tables(), texts(sheets@)) matches Some(m)
                    && reports(e, (ErrorKind::Validation, m)),
            },
    {
        let ghost ns = self.spec_names();
        let ghost ts = self.spec_tables();
        let ghost sh = texts(sheets@);
        let mut i: usize = 0;
        while i < self.names.len()
            invariant
                i <= self.names@.len() == ns.len(),
                ns == self.spec_names(),
                sh == texts(sheets@),
                first_ref_problem(ns, sh, false, i as int) is None,
            decreases self.names@.len() - i,
        {
            let nr = &self.names[i];
            proof {
                assert(ns[i as int] == name_entry(self.names@[i as int]));
            }
            match split_sheet_ref(nr.reference.as_str()) {
                Err(m) => {
                    proof {
                        lemma_first_ref_problem_stable(ns, sh, false, i as int + 1);
                    }
                    return Err(WorkbookError::Validation(m));
                },
                Ok((sheet, _)) => {
                    if sheet_index(sheets, sheet.as_str()).is_none() {
                        proof {
                            lemma_first_ref_problem_stable(ns, sh, false, i as int + 1);
                        }
                        return Err(WorkbookError::Validation(quoted_pair(
                            "named range ",
                            nr.name.as_str(),
                            " refers to sheet ",
                            sheet.as_str(),
                            ", which does not exist (schema spec \u{a7}7)",
                        )));
                    }
                },
            }
            i = i + 1;
        }
        let mut j: usize = 0;
        while j < self.tables.len()
            invariant
                j <= self.tables@.len() == ts.len(),
                ts == self.spec_tables(),
                ns == self.spec_names(),
                sh == texts(sheets@),
                first_ref_problem(ns, sh, false, ns.len() as int) is None,
                first_ref_problem(ts, sh, true, j as int) is None,
            decreases self.tables@.len() - j,
        {
            let t = &self.tables[j];
            proof {
                assert(ts[j as int] == table_entry(self.tables@[j as int]));
            }
            match split_sheet_ref(t.reference.as_str()) {
                Err(m) => {
                    proof {
                        lemma_first_ref_problem_stable(ts, sh, true, j as int + 1);
                    }
                    let mut msg = quoted_one("table ", t.name.as_str(), ": ");
                    crate::text::push_str(&mut msg, m.as_str());
                    return Err(WorkbookError::Validation(msg));
                },
                Ok((sheet, _)) => {
                    if sheet_index(sheets, sheet.as_str()).is_none() {
                        proof {
                            lemma_first_ref_problem_stable(ts, sh, true, j as int + 1);
                        }
                        return Err(WorkbookError::Validation(quoted_pair(
                            "table ",
                            t.name.as_str(),
                            " refers to sheet ",
                            sheet.as_str(),
                            ", which does not exist (structured-references spec \u{a7}4)",
                        )));
                    }
                },
            }
            j = j + 1;
        }
        Ok(())
    }
}


// ---------------------------------------------------------------------------
// Renaming a sheet
// ---------------------------------------------------------------------------

/// A `ref` after sheet `old_fold` (folded) is renamed to `to`: a `ref` whose
/// sheet token folds to `old_fold` gets `to`'s canonical token and keeps its
/// cell part; any other `ref`, and one that does not split, is kept.
pub open spec fn repointed(r: Seq<char>, old_fold: Seq<char>, to: Seq<char>) -> Seq<char> {
    match spec_split(r) {
        Some((sheet, a1)) => if folded(sheet) == old_fold {
            crate::named_ref::spec_quote_sheet(to) + seq!['!'] + a1
        } else {
            r
        },
        None => r,
    }
}

/// Entries after a sheet rename.
pub open spec fn repointed_entries(e: Seq<Entry>, old_fold: Seq<char>, to: Seq<char>) -> Seq<Entry> {
    Seq::new(e.len(), |i: int| (e[i].0, repointed(e[i].1, old_fold, to)))
}

/// The `ref` `r` after sheet `old_fold` is renamed to `to` (`token` is
/// `to`'s canonical token).
fn repoint(r: &String, old_fold: &str, token: &str) -> (o: Option<String>)
    ensures
        match o {
            Some(x) => spec_split(r@) matches Some((sheet, a1)) && folded(sheet) == old_fold@ && x@ == token@ + seq!['!'] + a1,
            None => !(spec_split(r@) matches Some((sheet, a1)) && folded(sheet) == old_fold@),
        },
{
    match split_sheet_ref(r.as_str()) {
        Ok((sheet, a1)) => {
            let f = simple_fold(sheet.as_str());
            if str_equal(f.as_str(), old_fold) {
                let mut x = string_of(token);
                crate::text::push_char(&mut x, '!');
                crate::text::push_str(&mut x, a1.as_str());
                Some(x)
            } else {
                None
            }
        },
        Err(_) => None,
    }
}

impl NameRegistry {
    /// Repoints every named range and table `ref` whose sheet token names
    /// sheet `old_name` (case-insensitively) at sheet `to`: the new token is
    /// `to` in canonical quoting and the cell part is kept, so a canonical
    /// `ref` stays canonical. A `ref` that does not split is left alone.
    pub fn repoint_sheet(&mut self, old_name: &str, to: &str)
        ensures
            final(self).spec_names() == repointed_entries(old(self).spec_names(), folded(old_name@), to@),
            final(self).spec_tables() == repointed_entries(old(self).spec_tables(), folded(old_name@), to@),
    {
        let old_fold = simple_fold(old_name);
        let token = crate::named_ref::quote_sheet_if_needed(to);
        let ghost n0 = self.spec_names();
        let ghost t0 = self.spec_tables();
        let mut i: usize = 0;
        while i < self.names.len()
            invariant
                i <= self.names@.len() == n0.len(),
                token@ == crate::named_ref::spec_quote_sheet(to@),
                old_fold@ == folded(old_name@),
                t0 == self.spec_tables(),
                forall|k: int| 0 <= k < i ==> #[trigger] self.spec_names()[k] == repointed_entries(n0, old_fold@, to@)[k],
                forall|k: int| i <= k < n0.len() ==> #[trigger] self.spec_names()[k] == n0[k],
            decreases self.names@.len() - i,
        {
            let ghost before = self.spec_names();
            proof {
                assert(before[i as int] == n0[i as int]);
                assert(before[i as int].1 == self.names@[i as int].reference@);
            }
            match repoint(&self.names[i].reference, old_fold.as_str(), token.as_str()) {
                Some(x) => {
                    let ghost xv = x@;
                    self.names[i].reference = x;
                    assert(self.spec_names()[i as int] == (before[i as int].0, xv));
                    proof {
                        assert forall|k: int| 0 <= k < n0.len() && k != i implies #[trigger] self.spec_names()[k] == before[k] by {}
                    }
                },
                None => {},
            }
            proof {
                assert(self.spec_names()[i as int] == repointed_entries(n0, old_fold@, to@)[i as int]);
            }
            i = i + 1;
        }
        proof {
            assert(self.spec_names() =~= repointed_entries(n0, old_fold@, to@));
        }
        let ghost n1 = self.spec_names();
        let mut j: usize = 0;
        while j < self.tables.len()
            invariant
                j <= self.tables@.len() == t0.len(),
                token@ == crate::named_ref::spec_quote_sheet(to@),
                old_fold@ == folded(old_name@),
                n1 == self.spec_names(),
                forall|k: int| 0 <= k < j ==> #[trigger] self.spec_tables()[k] == repointed_entries(t0, old_fold@, to@)[k],
                forall|k: int| j <= k < t0.len() ==> #[trigger] self.spec_tables()[k] == t0[k],
            decreases self.tables@.len() - j,
        {
            let ghost before = self.spec_tables();
            proof {
                assert(before[j as int] == t0[j as int]);
                assert(before[j as int].1 == self.tables@[j as int].reference@);
            }
            match repoint(&self.tables[j].reference, old_fold.as_str(), token.as_str()) {
                Some(x) => {
                    let ghost xv = x@;
                    self.tables[j].reference = x;
                    assert(self.spec_tables()[j as int] == (before[j as int].0, xv));
                    proof {
                        assert forall|k: int| 0 <= k < t0.len() && k != j implies #[trigger] self.spec_tables()[k] == before[k] by {}
                    }
                },
                None => {},
            }
            proof {
                assert(self.spec_tables()[j as int] == repointed_entries(t0, old_fold@, to@)[j as int]);
            }
            j = j + 1;
        }
        proof {
            assert(self.spec_tables() =~= repointed_entries(t0, old_fold@, to@));
        }
    }
}


/// A table range's corners are top-left first.
proof fn lemma_table_bounds_ordered(r: Seq<char>)
    requires
        table_bounds(r) is Some,
    ensures
        table_bounds(r) matches Some(b) && b.1 <= b.2 && b.3 <= b.4,
        table_bounds(r) matches Some(b) && crate::address::in_bounds(b.1 as int, b.3 as int)
            && crate::address::in_bounds(b.2 as int, b.4 as int) && b.0 == folded(ref_sheet(r)),
{
    let s = ref_sheet(r);
    let part = choose|part: Seq<char>|
        crate::named_ref::spec_canonical_a1(part) && r == crate::named_ref::spec_quote_sheet(s) + seq!['!'] + part;
    if exists|a: Address| a.wf() && part == crate::address::a1_text(a) {
        let a = choose|a: Address| a.wf() && part == crate::address::a1_text(a);
        crate::table_ref::lemma_cell_text_bounds(s, a);
    } else {
        let (a, b) = choose|a: Address, b: Address|
            a.wf() && b.wf() && a.row <= b.row && a.column <= b.column && a != b && part == crate::address::a1_text(a)
                + seq![':'] + crate::address::a1_text(b);
        crate::table_ref::lemma_range_text_bounds(s, a, b);
        assert(r =~= crate::named_ref::spec_quote_sheet(s) + seq!['!'] + crate::address::a1_text(a) + seq![':']
            + crate::address::a1_text(b));
    }
}

/// The `ref` written for a range between two in-bounds corners, top-left
/// first and distinct, is a canonical range that reads back as those
/// corners.
proof fn lemma_range_ref_text_bounds(sheet: Seq<char>, rs: u32, cs: u32, re: u32, ce: u32)
    requires
        crate::address::in_bounds(rs as int, cs as int),
        crate::address::in_bounds(re as int, ce as int),
        rs <= re,
        cs <= ce,
        rs != re || cs != ce,
    ensures
        table_bounds(range_ref_text(sheet, rs, cs, re, ce)) == Some((folded(sheet), rs, re, cs, ce)),
{
    let a = Address { row: rs, column: cs };
    let b = Address { row: re, column: ce };
    let part = crate::address::a1_text(a) + seq![':'] + crate::address::a1_text(b);
    let r = range_ref_text(sheet, rs, cs, re, ce);
    assert(r =~= crate::named_ref::spec_quote_sheet(sheet) + seq!['!'] + part);
    assert(crate::named_ref::spec_canonical_a1(part));
    assert(spec_canonical_ref(r, sheet));
    crate::named_ref::lemma_canonical_ref_unique(r, sheet, ref_sheet(r));
    crate::table_ref::lemma_range_text_bounds(sheet, a, b);
}


// ---------------------------------------------------------------------------
// Laws
// ---------------------------------------------------------------------------

/// What a successful definition adds, a lookup finds: after `define_name`
/// accepts `name = r`, looking up any spelling that folds like `name` finds
/// the new entry, with `r` as its `ref`.
pub proof fn law_lookup_after_define(
    names: Seq<Entry>,
    tables: Seq<Entry>,
    name: Seq<char>,
    r: Seq<char>,
    sheets: Seq<Seq<char>>,
    query: Seq<char>,
)
    requires
        define_name_error(names, tables, name, r, sheets) is None,
        folded(query) == folded(name),
    ensures
        first_fold_match(entry_names(names.push((name, r))), folded(query)) == names.len(),
        names.push((name, r))[names.len() as int] == (name, r),
{
    lemma_first_fold_match(entry_names(names), folded(name));
    let e = entry_names(names.push((name, r)));
    assert(e =~= entry_names(names).push(name));
    lemma_first_fold_match(e, folded(name));
    let c = first_fold_match(e, folded(name));
    assert(e[names.len() as int] == name);
    if c < 0 {
        assert(folded(e[names.len() as int]) != folded(name));
    } else if c < names.len() {
        assert(e[c] == entry_names(names)[c]);
    }
}

/// Redefining keeps the entry where it was: after `redefine_name` accepts
/// `name = r`, a lookup of `name` finds the same position, now holding the
/// original name and the new `ref`.
pub proof fn law_lookup_after_redefine(names: Seq<Entry>, name: Seq<char>, r: Seq<char>, sheets: Seq<Seq<char>>)
    requires
        redefine_name_error(names, name, r, sheets) is None,
    ensures
        ({
            let i = first_fold_match(entry_names(names), folded(name));
            let after = names.update(i, (names[i].0, r));
            &&& 0 <= i < names.len()
            &&& first_fold_match(entry_names(after), folded(name)) == i
            &&& after[i] == (names[i].0, r)
        }),
{
    lemma_first_fold_match(entry_names(names), folded(name));
    let i = first_fold_match(entry_names(names), folded(name));
    let after = names.update(i, (names[i].0, r));
    assert(entry_names(after) =~= entry_names(names));
}

/// What a removal takes out, a lookup no longer finds: in a registry whose
/// names are unique under folding, after `remove_name` removes the entry
/// that `name` matches, no entry matches `name`.
pub proof fn law_lookup_after_remove(names: Seq<Entry>, name: Seq<char>)
    requires
        folds_distinct(entry_names(names)),
        first_fold_match(entry_names(names), folded(name)) >= 0,
    ensures
        first_fold_match(entry_names(names.remove(first_fold_match(entry_names(names), folded(name)))), folded(name))
            == -1,
{
    let k = entry_names(names);
    lemma_first_fold_match(k, folded(name));
    let i = first_fold_match(k, folded(name));
    let after = entry_names(names.remove(i));
    assert(after =~= k.remove(i));
    lemma_first_fold_match(after, folded(name));
    if first_fold_match(after, folded(name)) >= 0 {
        let j = first_fold_match(after, folded(name));
        let x = if j < i { j } else { j + 1 };
        assert(after[j] == k[x]);
        if x < i {
            assert(folded(k[x]) != folded(k[i]));
        } else {
            assert(folded(k[i]) != folded(k[x]));
        }
    }
}

} // verus!
