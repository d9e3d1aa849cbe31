//! The workbook's sheet list, indexed by name: each sheet name is folded once
//! per build, and every lookup after that answers from the index.
//!
//! Lookups are first-wins: when two sheet names fold to the same key, both
//! spellings resolve to the earlier tab, as a left-to-right scan would.

use vstd::prelude::*;

use crate::casefold::{folded, simple_fold};
use crate::text::{chars_equal, chars_of};

verus! {

/// Every sheet's tab position, by folded name and by authored name.
pub struct SheetIndex {
    /// Each sheet's folded name, by tab position.
    folded: Vec<String>,
    /// Each sheet's name as written, by tab position.
    authored: Vec<String>,
}

/// Whether position `i` is the first in `names` that holds `x`.
pub open spec fn first_at(names: Seq<Seq<char>>, x: Seq<char>, i: int) -> bool {
    &&& 0 <= i < names.len()
    &&& names[i] == x
    &&& forall|j: int| 0 <= j < i ==> names[j] != x
}

impl SheetIndex {
    /// The folded sheet names, by tab position.
    pub closed spec fn folded_names(self) -> Seq<Seq<char>> {
        Seq::new(self.folded@.len(), |i: int| self.folded@[i]@)
    }

    /// The sheet names as written, by tab position.
    pub closed spec fn names(self) -> Seq<Seq<char>> {
        Seq::new(self.authored@.len(), |i: int| self.authored@[i]@)
    }

    /// Each folded name is the fold of the authored one.
    pub closed spec fn wf(self) -> bool {
        &&& self.folded@.len() == self.authored@.len()
        &&& forall|i: int| 0 <= i < self.folded@.len() ==> #[trigger] self.folded@[i]@ == folded(self.authored@[i]@)
    }

    /// Each folded name is the fold of the name as written.
    pub proof fn lemma_folded_names(self)
        requires
            self.wf(),
        ensures
            self.folded_names().len() == self.names().len(),
            forall|i: int| 0 <= i < self.names().len() ==> #[trigger] self.folded_names()[i] == folded(self.names()[i]),
    {
    }

    /// Indexes the sheets named `sheet_names`, in tab order, folding each name
    /// once.
    pub fn build(sheet_names: &[String]) -> (r: SheetIndex)
        ensures
            r.wf(),
            r.names() == Seq::new(sheet_names@.len(), |i: int| sheet_names@[i]@),
            r.folded_names() == Seq::new(sheet_names@.len(), |i: int| folded(sheet_names@[i]@)),
    {
        let mut f: Vec<String> = Vec::new();
        let mut a: Vec<String> = Vec::new();
        let mut i: usize = 0;
        while i < sheet_names.len()
            invariant
                i <= sheet_names@.len(),
                f@.len() == i,
                a@.len() == i,
                forall|k: int| 0 <= k < i ==> (#[trigger] a@[k])@ == sheet_names@[k]@,
                forall|k: int| 0 <= k < i ==> (#[trigger] f@[k])@ == folded(sheet_names@[k]@),
            decreases sheet_names@.len() - i,
        {
            f.push(simple_fold(sheet_names[i].as_str()));
            a.push(crate::text::string_of(sheet_names[i].as_str()));
            i = i + 1;
        }
        let r = SheetIndex { folded: f, authored: a };
        assert(r.names() =~= Seq::new(sheet_names@.len(), |i: int| sheet_names@[i]@));
        assert(r.folded_names() =~= Seq::new(sheet_names@.len(), |i: int| folded(sheet_names@[i]@)));
        r
    }

    /// The first tab whose folded name is `folded_key`, if any. Folds nothing.
    pub fn index_of_folded(&self, folded_key: &str) -> (r: Option<usize>)
        ensures
            match r {
                Some(i) => first_at(self.folded_names(), folded_key@, i as int),
                None => !self.folded_names().contains(folded_key@),
            },
    {
        let key = chars_of(folded_key);
        let mut i: usize = 0;
        while i < self.folded.len()
            invariant
                key@ == folded_key@,
                i <= self.folded@.len(),
                forall|j: int| 0 <= j < i ==> self.folded_names()[j] != folded_key@,
            decreases self.folded@.len() - i,
        {
            let c = chars_of(self.folded[i].as_str());
            if chars_equal(c.as_slice(), key.as_slice()) {
                return Some(i);
            }
            i = i + 1;
        }
        proof {
            if self.folded_names().contains(folded_key@) {
                let j = choose|j: int| 0 <= j < self.folded_names().len() && self.folded_names()[j] == folded_key@;
            }
        }
        None
    }

    /// The first tab whose name equals `name` up to simple case folding, if
    /// any. A name spelled exactly as a tab is resolved without folding it.
    pub fn index_of_name(&self, name: &str) -> (r: Option<usize>)
        requires
            self.wf(),
        ensures
            match r {
                Some(i) => first_at(self.folded_names(), folded(name@), i as int),
                None => !self.folded_names().contains(folded(name@)),
            },
    {
        let key = chars_of(name);
        let mut i: usize = 0;
        while i < self.authored.len()
            invariant
                self.wf(),
                key@ == name@,
                i <= self.authored@.len(),
            decreases self.authored@.len() - i,
        {
            let c = chars_of(self.authored[i].as_str());
            if chars_equal(c.as_slice(), key.as_slice()) {
                proof {
                    assert(self.folded_names()[i as int] == folded(name@));
                }
                return self.index_of_folded(self.folded[i].as_str());
            }
            i = i + 1;
        }
        let f = simple_fold(name);
        self.index_of_folded(f.as_str())
    }

    /// The folded name of tab `index`.
    pub fn folded_name(&self, index: usize) -> (r: &str)
        requires
            index < self.folded_names().len(),
        ensures
            r@ == self.folded_names()[index as int],
    {
        self.folded[index].as_str()
    }

    /// The folded name of the sheet named `name` (up to case), if there is
    /// one.
    pub fn folded_of_name(&self, name: &str) -> (r: Option<&str>)
        requires
            self.wf(),
        ensures
            match r {
                Some(f) => f@ == folded(name@) && self.folded_names().contains(folded(name@)),
                None => !self.folded_names().contains(folded(name@)),
            },
    {
        match self.index_of_name(name) {
            Some(i) => Some(self.folded_name(i)),
            None => None,
        }
    }

    /// How many sheets are indexed.
    pub fn len(&self) -> (n: usize)
        ensures
            n == self.folded_names().len(),
    {
        self.folded.len()
    }

    /// Whether no sheet is indexed.
    pub fn is_empty(&self) -> (b: bool)
        ensures
            b == (self.folded_names().len() == 0),
    {
        self.folded.len() == 0
    }
}

} // verus!
