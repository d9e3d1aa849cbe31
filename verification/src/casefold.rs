//! Unicode simple case folding, the single source of truth for every
//! case-insensitive comparison in this crate: sheet-name uniqueness,
//! named-range uniqueness, and case-insensitive sheet lookup.
//!
//! Pinned to Unicode *simple* `Case_Folding` (not full folding, which maps
//! some characters to several and disagrees on some case pairs), one character
//! at a time.

use vstd::prelude::*;

use crate::text::{chars_of, push_char};

verus! {

/// The simple case folding of one character, as the Unicode data compiled
/// into `icu_casemap` gives it.
pub uninterp spec fn spec_simple_fold(c: char) -> char;

/// `CaseMapperBorrowed::simple_fold` of `icu_casemap` with its compiled data:
/// the simple case folding of `c`. The contract claims only that the result is
/// a function of `c` alone (it reads nothing but the compiled tables).
#[verifier::external_body]
fn fold_char(c: char) -> (r: char)
    ensures
        r == spec_simple_fold(c),
{
    icu_casemap::CaseMapperBorrowed::new().simple_fold(c)
}

/// `s` with every character simply case-folded.
pub open spec fn folded(s: Seq<char>) -> Seq<char> {
    Seq::new(s.len(), |i: int| spec_simple_fold(s[i]))
}

/// Folds `s` character by character.
pub fn simple_fold(s: &str) -> (r: String)
    ensures
        r@ == folded(s@),
{
    let v = chars_of(s);
    let mut r = String::new();
    let mut i: usize = 0;
    while i < v.len()
        invariant
            i <= v@.len(),
            v@ == s@,
            r@ == folded(s@.take(i as int)),
        decreases v@.len() - i,
    {
        let c = fold_char(v[i]);
        push_char(&mut r, c);
        assert(folded(s@.take(i as int + 1)) =~= folded(s@.take(i as int)).push(c));
        i = i + 1;
    }
    assert(s@.take(v@.len() as int) =~= s@);
    r
}

/// Folds a character sequence.
pub fn fold_chars(v: &[char]) -> (r: Vec<char>)
    ensures
        r@ == folded(v@),
{
    let mut r: Vec<char> = Vec::new();
    let mut i: usize = 0;
    while i < v.len()
        invariant
            i <= v@.len(),
            r@ == folded(v@.take(i as int)),
        decreases v@.len() - i,
    {
        let c = fold_char(v[i]);
        r.push(c);
        assert(folded(v@.take(i as int + 1)) =~= folded(v@.take(i as int)).push(c));
        i = i + 1;
    }
    assert(v@.take(v@.len() as int) =~= v@);
    r
}

} // verus!
