//! A named sheet holding a sparse cell grid. Cells are keyed by their plain
//! upper-case A1 address (`A1`, `BC42`) and kept in key order, which is the
//! canonical key order of a written document: `A10` comes before `A2`. An
//! absent address is an empty cell.

use vstd::prelude::*;

use crate::address::{a1_text, law_a1_parse_after_render, law_a1_render_after_parse, parsed_a1, Address};
use crate::cell::Cell;
use crate::depgraph::{chars_lt, lemma_text_lt_irreflexive, lemma_text_lt_transitive, lemma_text_lt_trichotomy, text_lt};
use crate::text::{chars_equal, chars_of};

verus! {

/// A named sheet and its populated cells.
#[derive(Debug)]
pub struct Worksheet {
    cells: Vec<(String, Cell)>,
    name: String,
}

/// The keys of keyed cells, in order.
pub open spec fn keys_of(s: Seq<(String, Cell)>) -> Seq<Seq<char>> {
    s.map_values(|e: (String, Cell)| e.0@)
}

/// Keys in strictly ascending order, each the A1 key of an in-grid address.
pub open spec fn keys_ok(k: Seq<Seq<char>>) -> bool {
    &&& forall|i: int, j: int| 0 <= i < j < k.len() ==> text_lt(#[trigger] k[i], #[trigger] k[j])
    &&& forall|i: int| 0 <= i < k.len() ==> (#[trigger] parsed_a1(k[i])) is Some
}

/// The position of key `x` in `k`.
pub open spec fn key_pos(k: Seq<Seq<char>>, x: Seq<char>) -> int {
    choose|i: int| 0 <= i < k.len() && k[i] == x
}

/// In strictly ascending keys a key sits at one position only.
proof fn lemma_key_pos(k: Seq<Seq<char>>, i: int)
    requires
        keys_ok(k),
        0 <= i < k.len(),
    ensures
        key_pos(k, k[i]) == i,
{
    let j = key_pos(k, k[i]);
    lemma_text_lt_irreflexive(k[i]);
    if j < i {
        assert(text_lt(k[j], k[i]));
    } else if j > i {
        assert(text_lt(k[i], k[j]));
    }
}

impl View for Worksheet {
    type V = Map<Address, Cell>;

    /// The populated cells by address.
    closed spec fn view(&self) -> Map<Address, Cell> {
        Map::new(
            |a: Address| a.wf() && keys_of(self.cells@).contains(a1_text(a)),
            |a: Address| self.cells@[key_pos(keys_of(self.cells@), a1_text(a))].1,
        )
    }
}

impl Worksheet {
    /// The sheet's name.
    pub closed spec fn spec_name(self) -> Seq<char> {
        self.name@
    }

    /// The cells are in key order, each under the key of an in-grid address.
    pub closed spec fn wf(self) -> bool {
        keys_ok(keys_of(self.cells@))
    }

    /// The cell stored at position `i` is the view's cell at the address
    /// its key names.
    proof fn lemma_entry(self, i: int)
        requires
            self.wf(),
            0 <= i < self.cells@.len(),
        ensures
            parsed_a1(self.cells@[i].0@) is Some,
            self@.contains_key(parsed_a1(self.cells@[i].0@).unwrap()),
            self@[parsed_a1(self.cells@[i].0@).unwrap()] == self.cells@[i].1,
            a1_text(parsed_a1(self.cells@[i].0@).unwrap()) == self.cells@[i].0@,
    {
        let k = keys_of(self.cells@);
        assert(k[i] == self.cells@[i].0@);
        assert(parsed_a1(k[i]) is Some);
        law_a1_render_after_parse(k[i]);
        lemma_key_pos(k, i);
    }

    /// An address in the view has its key among the stored keys.
    proof fn lemma_member(self, a: Address)
        requires
            self.wf(),
            self@.contains_key(a),
        ensures
            0 <= key_pos(keys_of(self.cells@), a1_text(a)) < self.cells@.len(),
            self.cells@[key_pos(keys_of(self.cells@), a1_text(a))].0@ == a1_text(a),
            self@[a] == self.cells@[key_pos(keys_of(self.cells@), a1_text(a))].1,
    {
    }

    /// Every populated address lies inside the grid.
    pub proof fn lemma_addresses_wf(self, a: Address)
        requires
            self@.contains_key(a),
        ensures
            a.wf(),
    {
    }

    /// An empty sheet named `name`.
    pub fn new(name: String) -> (w: Worksheet)
        ensures
            w.wf(),
            w.spec_name() == name@,
            w@ == Map::<Address, Cell>::empty(),
    {
        let w = Worksheet { cells: Vec::new(), name };
        assert(w@ =~= Map::<Address, Cell>::empty());
        w
    }

    /// The sheet's name, unique within a workbook under case folding.
    pub fn name(&self) -> (r: &str)
        ensures
            r@ == self.spec_name(),
    {
        self.name.as_str()
    }

    /// Renames the sheet; the workbook checks the new name.
    pub(crate) fn set_name(&mut self, name: String)
        ensures
            final(self).spec_name() == name@,
            final(self)@ == old(self)@,
            final(self).wf() == old(self).wf(),
    {
        self.name = name;
    }

    /// Where key `key` is, or where it would go: `Ok(i)` when the entry at
    /// `i` has that key, `Err(i)` when every entry before `i` has a smaller
    /// key and every entry from `i` on a greater one.
    fn position(&self, key: &str) -> (r: Result<usize, usize>)
        requires
            self.wf(),
        ensures
            match r {
                Ok(i) => i < self.cells@.len() && self.cells@[i as int].0@ == key@,
                Err(i) => i <= self.cells@.len() && (forall|j: int| 0 <= j < i ==> text_lt(#[trigger] self.cells@[j].0@, key@))
                    && (forall|j: int| i <= j < self.cells@.len() ==> text_lt(key@, #[trigger] self.cells@[j].0@)),
            },
    {
        let k = chars_of(key);
        let ghost ks = keys_of(self.cells@);
        let mut i: usize = 0;
        while i < self.cells.len()
            invariant
                i <= self.cells@.len(),
                k@ == key@,
                ks == keys_of(self.cells@),
                keys_ok(ks),
                forall|j: int| 0 <= j < i ==> text_lt(#[trigger] self.cells@[j].0@, key@),
            decreases self.cells@.len() - i,
        {
            let e = chars_of(self.cells[i].0.as_str());
            proof {
                assert(ks[i as int] == self.cells@[i as int].0@);
            }
            if chars_equal(e.as_slice(), k.as_slice()) {
                return Ok(i);
            }
            if !chars_lt(e.as_slice(), k.as_slice()) {
                proof {
                    lemma_text_lt_trichotomy(e@, k@);
                    assert forall|j: int| i <= j < self.cells@.len() implies text_lt(key@, #[trigger] self.cells@[j].0@) by {
                        assert(ks[j] == self.cells@[j].0@);
                        if j > i {
                            assert(text_lt(ks[i as int], ks[j]));
                            lemma_text_lt_transitive(key@, ks[i as int], ks[j]);
                        }
                    }
                }
                return Err(i);
            }
            i = i + 1;
        }
        Err(i)
    }

    /// The cell at `addr`, or `None` for an empty address.
    pub fn get(&self, addr: Address) -> (r: Option<&Cell>)
        requires
            self.wf(),
            addr.wf(),
        ensures
            match r {
                Some(c) => self@.contains_key(addr) && *c == self@[addr],
                None => !self@.contains_key(addr),
            },
    {
        let key = addr.to_a1();
        match self.position(key.as_str()) {
            Ok(i) => {
                proof {
                    self.lemma_entry(i as int);
                    law_a1_parse_after_render(addr);
                }
                Some(&self.cells[i].1)
            },
            Err(i) => {
                proof {
                    if self@.contains_key(addr) {
                        self.lemma_member(addr);
                        let j = key_pos(keys_of(self.cells@), a1_text(addr));
                        lemma_text_lt_irreflexive(a1_text(addr));
                    }
                }
                None
            },
        }
    }

    /// The populated cells under their A1 keys, in key order.
    pub fn cells(&self) -> (r: &[(String, Cell)])
        requires
            self.wf(),
        ensures
            r@.len() == self@.len(),
            forall|i: int, j: int| 0 <= i < j < r@.len() ==> text_lt(#[trigger] r@[i].0@, #[trigger] r@[j].0@),
            forall|i: int| 0 <= i < r@.len() ==> #[trigger] parsed_a1(r@[i].0@) is Some && self@.contains_key(
                parsed_a1(r@[i].0@).unwrap(),
            ) && self@[parsed_a1(r@[i].0@).unwrap()] == r@[i].1,
    {
        proof {
            self.lemma_len();
            let k = keys_of(self.cells@);
            assert forall|i: int, j: int| 0 <= i < j < self.cells@.len() implies text_lt(
                #[trigger] self.cells@[i].0@,
                #[trigger] self.cells@[j].0@,
            ) by {
                assert(k[i] == self.cells@[i].0@ && k[j] == self.cells@[j].0@);
            }
            assert forall|i: int| 0 <= i < self.cells@.len() implies #[trigger] parsed_a1(self.cells@[i].0@) is Some
                && self@.contains_key(parsed_a1(self.cells@[i].0@).unwrap()) && self@[parsed_a1(self.cells@[i].0@).unwrap()]
                == self.cells@[i].1 by {
                self.lemma_entry(i);
            }
        }
        self.cells.as_slice()
    }

    /// Whether a cell is present at `addr`.
    pub fn contains(&self, addr: Address) -> (b: bool)
        requires
            self.wf(),
            addr.wf(),
        ensures
            b == self@.contains_key(addr),
    {
        self.get(addr).is_some()
    }

    /// Writes `cell` at `addr`, returning the cell that was there.
    pub fn set(&mut self, addr: Address, cell: Cell) -> (r: Option<Cell>)
        requires
            old(self).wf(),
            addr.wf(),
        ensures
            final(self).wf(),
            final(self).spec_name() == old(self).spec_name(),
            final(self)@ == old(self)@.insert(addr, cell),
            match r {
                Some(c) => old(self)@.contains_key(addr) && c == old(self)@[addr],
                None => !old(self)@.contains_key(addr),
            },
    {
        let key = addr.to_a1();
        let ghost before = self.cells@;
        let ghost pre = *self;
        proof {
            law_a1_parse_after_render(addr);
        }
        match self.position(key.as_str()) {
            Ok(i) => {
                proof {
                    pre.lemma_entry(i as int);
                }
                let mut entry = (key, cell);
                std::mem::swap(&mut entry, &mut self.cells[i]);
                proof {
                    assert(self.cells@ == before.update(i as int, (key, cell)));
                    assert(keys_of(self.cells@) =~= keys_of(before));
                    self.lemma_view_after_update(pre, i as int, addr);
                }
                Some(entry.1)
            },
            Err(i) => {
                proof {
                    if pre@.contains_key(addr) {
                        pre.lemma_member(addr);
                        lemma_text_lt_irreflexive(a1_text(addr));
                    }
                }
                self.cells.insert(i, (key, cell));
                proof {
                    self.lemma_view_after_insert(pre, i as int, addr);
                }
                None
            },
        }
    }

    /// Removes the cell at `addr`, returning it if there was one.
    pub fn clear(&mut self, addr: Address) -> (r: Option<Cell>)
        requires
            old(self).wf(),
            addr.wf(),
        ensures
            final(self).wf(),
            final(self).spec_name() == old(self).spec_name(),
            final(self)@ == old(self)@.remove(addr),
            match r {
                Some(c) => old(self)@.contains_key(addr) && c == old(self)@[addr],
                None => !old(self)@.contains_key(addr),
            },
    {
        let key = addr.to_a1();
        let ghost pre = *self;
        proof {
            law_a1_parse_after_render(addr);
        }
        match self.position(key.as_str()) {
            Ok(i) => {
                proof {
                    pre.lemma_entry(i as int);
                }
                let entry = self.cells.remove(i);
                proof {
                    self.lemma_view_after_remove(pre, i as int, addr);
                }
                Some(entry.1)
            },
            Err(i) => {
                proof {
                    if pre@.contains_key(addr) {
                        pre.lemma_member(addr);
                        lemma_text_lt_irreflexive(a1_text(addr));
                    }
                    assert(pre@.remove(addr) =~= pre@);
                }
                None
            },
        }
    }

    /// The number of populated cells.
    pub fn len(&self) -> (n: usize)
        requires
            self.wf(),
        ensures
            n == self@.len(),
    {
        proof {
            self.lemma_len();
        }
        self.cells.len()
    }

    /// Whether no cell is populated.
    pub fn is_empty(&self) -> (b: bool)
        requires
            self.wf(),
        ensures
            b == (self@.len() == 0),
    {
        proof {
            self.lemma_len();
        }
        self.cells.len() == 0
    }

    /// The populated cells with their addresses, in key order (the
    /// canonical key order of a written document).
    pub fn iter(&self) -> (r: Vec<(Address, &Cell)>)
        requires
            self.wf(),
        ensures
            r@.len() == self@.len(),
            forall|i: int| 0 <= i < r@.len() ==> (#[trigger] r@[i]).0.wf() && self@.contains_key(r@[i].0) && *r@[i].1
                == self@[r@[i].0],
            forall|i: int, j: int| 0 <= i < j < r@.len() ==> text_lt(a1_text(#[trigger] r@[i].0), a1_text(#[trigger] r@[j].0)),
            forall|a: Address| #[trigger] self@.contains_key(a) ==> exists|i: int| 0 <= i < r@.len() && r@[i].0 == a,
    {
        proof {
            self.lemma_len();
        }
        let mut r: Vec<(Address, &Cell)> = Vec::new();
        let mut i: usize = 0;
        while i < self.cells.len()
            invariant
                self.wf(),
                i <= self.cells@.len(),
                r@.len() == i,
                forall|t: int| 0 <= t < i ==> (#[trigger] r@[t]).0 == parsed_a1(self.cells@[t].0@).unwrap() && *r@[t].1
                    == self.cells@[t].1,
            decreases self.cells@.len() - i,
        {
            proof {
                self.lemma_entry(i as int);
            }
            let addr = Address::from_a1(self.cells[i].0.as_str()).unwrap();
            r.push((addr, &self.cells[i].1));
            i = i + 1;
        }
        proof {
            let k = keys_of(self.cells@);
            assert forall|t: int| 0 <= t < r@.len() implies (#[trigger] r@[t]).0.wf() && self@.contains_key(r@[t].0)
                && *r@[t].1 == self@[r@[t].0] by {
                self.lemma_entry(t);
            }
            assert forall|t: int, u: int| 0 <= t < u < r@.len() implies text_lt(
                a1_text(#[trigger] r@[t].0),
                a1_text(#[trigger] r@[u].0),
            ) by {
                self.lemma_entry(t);
                self.lemma_entry(u);
                assert(k[t] == self.cells@[t].0@ && k[u] == self.cells@[u].0@);
            }
            assert forall|a: Address| #[trigger] self@.contains_key(a) implies exists|t: int| 0 <= t < r@.len() && r@[t].0 == a by {
                self.lemma_member(a);
                let t = key_pos(k, a1_text(a));
                self.lemma_entry(t);
                assert(r@[t].0 == parsed_a1(self.cells@[t].0@).unwrap());
                crate::address::lemma_a1_text_injective(a, r@[t].0);
            }
        }
        r
    }

    /// The sheet has as many cells as stored entries.
    proof fn lemma_len(self)
        requires
            self.wf(),
        ensures
            self@.len() == self.cells@.len(),
            self@.dom().finite(),
    {
        let k = keys_of(self.cells@);
        let addrs = Seq::new(self.cells@.len(), |i: int| parsed_a1(k[i]).unwrap());
        assert forall|i: int| 0 <= i < addrs.len() implies self@.contains_key(#[trigger] addrs[i]) by {
            self.lemma_entry(i);
        }
        assert forall|i: int, j: int| 0 <= i < j < addrs.len() implies #[trigger] addrs[i] != #[trigger] addrs[j] by {
            self.lemma_entry(i);
            self.lemma_entry(j);
            lemma_text_lt_irreflexive(k[i]);
        }
        assert(addrs.no_duplicates());
        assert(self@.dom() =~= addrs.to_set()) by {
            assert forall|a: Address| self@.dom().contains(a) implies addrs.to_set().contains(a) by {
                self.lemma_member(a);
                let t = key_pos(k, a1_text(a));
                self.lemma_entry(t);
                crate::address::lemma_a1_text_injective(a, addrs[t]);
                assert(addrs[t] == a);
            }
        }
        addrs.unique_seq_to_set();
    }

    /// Replacing the cell at position `i` (key `a1_text(addr)`) writes
    /// `addr` in the view.
    proof fn lemma_view_after_update(self, pre: Worksheet, i: int, addr: Address)
        requires
            pre.wf(),
            addr.wf(),
            0 <= i < pre.cells@.len(),
            pre.cells@[i].0@ == a1_text(addr),
            self.cells@ == pre.cells@.update(i, self.cells@[i]),
            self.cells@[i].0@ == a1_text(addr),
            self.name == pre.name,
        ensures
            self.wf(),
            self@ == pre@.insert(addr, self.cells@[i].1),
    {
        let k = keys_of(self.cells@);
        assert(k =~= keys_of(pre.cells@));
        assert forall|a: Address| #[trigger] self@.contains_key(a) == pre@.insert(addr, self.cells@[i].1).contains_key(a) by {
            if a == addr {
                assert(k[i] == a1_text(addr));
            }
        }
        assert forall|a: Address| #[trigger] self@.contains_key(a) implies self@[a] == pre@.insert(addr, self.cells@[i].1)[a] by {
            let t = key_pos(k, a1_text(a));
            if a == addr {
                lemma_key_pos(k, i);
            } else {
                lemma_key_pos(k, t);
                if a1_text(a) == a1_text(addr) {
                    crate::address::lemma_a1_text_injective(a, addr);
                }
                if t == i {
                    assert(k[i] == a1_text(addr));
                }
            }
        }
        assert(self@ =~= pre@.insert(addr, self.cells@[i].1));
    }

    /// Inserting the entry for `addr` at its place `i` writes `addr` in the
    /// view.
    proof fn lemma_view_after_insert(self, pre: Worksheet, i: int, addr: Address)
        requires
            pre.wf(),
            addr.wf(),
            0 <= i <= pre.cells@.len(),
            forall|j: int| 0 <= j < i ==> text_lt(#[trigger] pre.cells@[j].0@, a1_text(addr)),
            forall|j: int| i <= j < pre.cells@.len() ==> text_lt(a1_text(addr), #[trigger] pre.cells@[j].0@),
            self.cells@ == pre.cells@.insert(i, self.cells@[i]),
            self.cells@[i].0@ == a1_text(addr),
            self.name == pre.name,
        ensures
            self.wf(),
            self@ == pre@.insert(addr, self.cells@[i].1),
    {
        law_a1_parse_after_render(addr);
        let k0 = keys_of(pre.cells@);
        let k = keys_of(self.cells@);
        assert(k =~= k0.insert(i, a1_text(addr)));
        assert forall|x: int, y: int| 0 <= x < y < k.len() implies text_lt(#[trigger] k[x], #[trigger] k[y]) by {
            if x < i && y == i {
                assert(k[x] == pre.cells@[x].0@);
            } else if x == i {
                assert(k[y] == pre.cells@[y - 1].0@);
            } else if y < i {
                assert(k[x] == k0[x] && k[y] == k0[y]);
            } else if x < i {
                assert(k[x] == k0[x] && k[y] == k0[y - 1]);
            } else {
                assert(k[x] == k0[x - 1] && k[y] == k0[y - 1]);
            }
        }
        assert forall|x: int| 0 <= x < k.len() implies (#[trigger] parsed_a1(k[x])) is Some by {
            if x < i {
                assert(k[x] == k0[x]);
            } else if x > i {
                assert(k[x] == k0[x - 1]);
            }
        }
        let m = pre@.insert(addr, self.cells@[i].1);
        assert forall|a: Address| #[trigger] self@.contains_key(a) == m.contains_key(a) by {
            if a.wf() && k.contains(a1_text(a)) {
                let t = choose|t: int| 0 <= t < k.len() && k[t] == a1_text(a);
                if t < i {
                    assert(k0[t] == a1_text(a));
                } else if t > i {
                    assert(k0[t - 1] == a1_text(a));
                } else {
                    crate::address::lemma_a1_text_injective(a, addr);
                }
            }
            if a.wf() && k0.contains(a1_text(a)) {
                let t = choose|t: int| 0 <= t < k0.len() && k0[t] == a1_text(a);
                if t < i {
                    assert(k[t] == a1_text(a));
                } else {
                    assert(k[t + 1] == a1_text(a));
                }
            }
            if a == addr {
                assert(k[i] == a1_text(addr));
            }
        }
        assert forall|a: Address| #[trigger] self@.contains_key(a) implies self@[a] == m[a] by {
            let t = key_pos(k, a1_text(a));
            lemma_key_pos(k, t);
            if a == addr {
                assert(k[i] == a1_text(addr));
                lemma_key_pos(k, i);
            } else {
                if a1_text(a) == a1_text(addr) {
                    crate::address::lemma_a1_text_injective(a, addr);
                }
                let t0 = key_pos(k0, a1_text(a));
                lemma_key_pos(k0, t0);
                if t0 < i {
                    assert(k[t0] == a1_text(a));
                    lemma_key_pos(k, t0);
                } else {
                    assert(k[t0 + 1] == a1_text(a));
                    lemma_key_pos(k, t0 + 1);
                }
            }
        }
        assert(self@ =~= m);
    }

    /// Removing the entry at position `i` (key `a1_text(addr)`) removes
    /// `addr` from the view.
    proof fn lemma_view_after_remove(self, pre: Worksheet, i: int, addr: Address)
        requires
            pre.wf(),
            addr.wf(),
            0 <= i < pre.cells@.len(),
            pre.cells@[i].0@ == a1_text(addr),
            self.cells@ == pre.cells@.remove(i),
            self.name == pre.name,
        ensures
            self.wf(),
            self@ == pre@.remove(addr),
    {
        let k0 = keys_of(pre.cells@);
        let k = keys_of(self.cells@);
        assert(k =~= k0.remove(i));
        assert forall|x: int, y: int| 0 <= x < y < k.len() implies text_lt(#[trigger] k[x], #[trigger] k[y]) by {
            if y < i {
                assert(k[x] == k0[x] && k[y] == k0[y]);
            } else if x < i {
                assert(k[x] == k0[x] && k[y] == k0[y + 1]);
            } else {
                assert(k[x] == k0[x + 1] && k[y] == k0[y + 1]);
            }
        }
        assert forall|x: int| 0 <= x < k.len() implies (#[trigger] parsed_a1(k[x])) is Some by {
            if x < i {
                assert(k[x] == k0[x]);
            } else {
                assert(k[x] == k0[x + 1]);
            }
        }
        let m = pre@.remove(addr);
        assert forall|a: Address| #[trigger] self@.contains_key(a) == m.contains_key(a) by {
            if a.wf() && k.contains(a1_text(a)) {
                let t = choose|t: int| 0 <= t < k.len() && k[t] == a1_text(a);
                if t < i {
                    assert(k0[t] == a1_text(a));
                    if a == addr {
                        assert(text_lt(k0[t], k0[i]));
                        lemma_text_lt_irreflexive(k0[i]);
                    }
                } else {
                    assert(k0[t + 1] == a1_text(a));
                    if a == addr {
                        assert(text_lt(k0[i], k0[t + 1]));
                        lemma_text_lt_irreflexive(k0[i]);
                    }
                }
            }
            if a.wf() && k0.contains(a1_text(a)) && a != addr {
                let t = choose|t: int| 0 <= t < k0.len() && k0[t] == a1_text(a);
                if a1_text(a) == a1_text(addr) {
                    crate::address::lemma_a1_text_injective(a, addr);
                }
                if t < i {
                    assert(k[t] == a1_text(a));
                } else if t > i {
                    assert(k[t - 1] == a1_text(a));
                }
            }
        }
        assert forall|a: Address| #[trigger] self@.contains_key(a) implies self@[a] == m[a] by {
            let t = key_pos(k, a1_text(a));
            lemma_key_pos(k, t);
            let t0 = key_pos(k0, a1_text(a));
            lemma_key_pos(k0, t0);
            if t < i {
                assert(k0[t] == a1_text(a));
                lemma_key_pos(k0, t);
            } else {
                assert(k0[t + 1] == a1_text(a));
                lemma_key_pos(k0, t + 1);
            }
        }
        assert(self@ =~= m);
    }
}

} // verus!
