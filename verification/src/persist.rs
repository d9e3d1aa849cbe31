//! The serialized document's own shape: which schema versions a reader
//! accepts, and the order in which named ranges and tables are written
//! (ascending by name in UTF-16 code-unit order, the order canonical JSON
//! gives object keys, so two equal registries serialize identically).

use vstd::prelude::*;

use crate::canonical::{cmp_utf16, lemma_units_order, units_before, utf16_units};
use crate::document::{dq, quoted_one};
use crate::named_range::{NamedRange, Table};
use crate::text::{str_equal, string_of};

verus! {

broadcast use {vstd::seq_lib::group_to_multiset_ensures, vstd::multiset::group_multiset_axioms};

/// The schema version this library writes.
pub const SCHEMA_VERSION: &'static str = "2";

/// The message for a document whose schema version is unknown.
pub open spec fn unsupported_version_message(version: Seq<char>) -> Seq<char> {
    "unsupported schema version "@ + dq(version)
        + ": this version of truecalc-workbook reads versions \"1\" and \"2\" (schema spec §10); upgrade truecalc to load this workbook"@
}

/// Whether a reader accepts schema version `version`: the current one and
/// the one before it.
pub open spec fn known_version(version: Seq<char>) -> bool {
    version == "1"@ || version == "2"@
}

/// Reads the schema version of a document: a known version migrates to
/// the current one, so a loaded document always writes the newest version;
/// an unknown one is refused with a message that asks for an upgrade.
pub fn de_version(version: &str) -> (r: Result<String, String>)
    ensures
        r is Ok <==> known_version(version@),
        r matches Ok(v) ==> v@ == "2"@,
        r matches Err(m) ==> m@ == unsupported_version_message(version@),
{
    proof {
        reveal_strlit("1");
        reveal_strlit("2");
    }
    if !str_equal(version, "1") && !str_equal(version, SCHEMA_VERSION) {
        return Err(
            quoted_one(
                "unsupported schema version ",
                version,
                ": this version of truecalc-workbook reads versions \"1\" and \"2\" (schema spec §10); upgrade truecalc to load this workbook",
            ),
        );
    }
    Ok(string_of(SCHEMA_VERSION))
}

/// `a` does not come after `b` in UTF-16 code-unit order.
pub open spec fn name_not_after(a: Seq<char>, b: Seq<char>) -> bool {
    !units_before(utf16_units(b), utf16_units(a))
}

/// Names in ascending UTF-16 code-unit order.
pub open spec fn names_ascending(s: Seq<Seq<char>>) -> bool {
    forall|i: int, j: int| 0 <= i < j < s.len() ==> name_not_after(#[trigger] s[i], #[trigger] s[j])
}

/// The names of named ranges, in order.
pub open spec fn range_names(s: Seq<NamedRange>) -> Seq<Seq<char>> {
    s.map_values(|n: NamedRange| n.name@)
}

/// The names of tables, in order.
pub open spec fn table_names(s: Seq<Table>) -> Seq<Seq<char>> {
    s.map_values(|t: Table| t.name@)
}

/// Inserting `x` into an ascending list just before the first name that
/// comes strictly after it keeps the list ascending.
proof fn lemma_insert_keeps_ascending(s: Seq<Seq<char>>, x: Seq<char>, p: int)
    requires
        names_ascending(s),
        0 <= p <= s.len(),
        forall|k: int| 0 <= k < p ==> name_not_after(#[trigger] s[k], x),
        p < s.len() ==> units_before(utf16_units(x), utf16_units(s[p])),
    ensures
        names_ascending(s.insert(p, x)),
{
    let t = s.insert(p, x);
    assert forall|i: int, j: int| 0 <= i < j < t.len() implies name_not_after(#[trigger] t[i], #[trigger] t[j]) by {
        if i < p && j == p {
            assert(t[i] == s[i]);
        } else if i == p {
            // x before every later name: each is at or after s[p], which is after x
            let k = j - 1;
            assert(t[j] == s[k]);
            assert(name_not_after(s[p], s[k]) || p == k);
            lemma_units_order(utf16_units(s[k]), utf16_units(x), utf16_units(s[p]));
            lemma_units_order(utf16_units(x), utf16_units(s[p]), utf16_units(s[k]));
        } else if j < p {
            assert(t[i] == s[i] && t[j] == s[j]);
        } else if i < p {
            assert(t[i] == s[i] && t[j] == s[j - 1]);
        } else {
            assert(t[i] == s[i - 1] && t[j] == s[j - 1]);
        }
    }
}

/// Whether `a` comes strictly before `b` in UTF-16 code-unit order.
fn comes_before(a: &str, b: &str) -> (r: bool)
    ensures
        r == units_before(utf16_units(a@), utf16_units(b@)),
{
    match cmp_utf16(a, b) {
        std::cmp::Ordering::Less => true,
        _ => false,
    }
}

/// Where a named range called `name` goes in the ascending list `sorted`:
/// after every name that does not come after it, so equal names keep
/// their order.
fn range_slot(sorted: &Vec<NamedRange>, name: &str) -> (p: usize)
    ensures
        p <= sorted@.len(),
        forall|k: int| 0 <= k < p ==> name_not_after(#[trigger] range_names(sorted@)[k], name@),
        p < sorted@.len() ==> units_before(utf16_units(name@), utf16_units(range_names(sorted@)[p as int])),
{
    let mut p: usize = 0;
    while p < sorted.len()
        invariant
            p <= sorted@.len(),
            forall|k: int| 0 <= k < p ==> name_not_after(#[trigger] range_names(sorted@)[k], name@),
        decreases sorted@.len() - p,
    {
        if comes_before(name, sorted[p].name.as_str()) {
            return p;
        }
        p = p + 1;
    }
    p
}

/// Where a table called `name` goes in the ascending list `sorted`.
fn table_slot(sorted: &Vec<Table>, name: &str) -> (p: usize)
    ensures
        p <= sorted@.len(),
        forall|k: int| 0 <= k < p ==> name_not_after(#[trigger] table_names(sorted@)[k], name@),
        p < sorted@.len() ==> units_before(utf16_units(name@), utf16_units(table_names(sorted@)[p as int])),
{
    let mut p: usize = 0;
    while p < sorted.len()
        invariant
            p <= sorted@.len(),
            forall|k: int| 0 <= k < p ==> name_not_after(#[trigger] table_names(sorted@)[k], name@),
        decreases sorted@.len() - p,
    {
        if comes_before(name, sorted[p].name.as_str()) {
            return p;
        }
        p = p + 1;
    }
    p
}

/// Orders named ranges by name, ascending in UTF-16 code-unit order: the
/// same entries, each as often as before, now ascending.
pub fn sort_names_by_name(names: &mut Vec<NamedRange>)
    ensures
        final(names)@.to_multiset() == old(names)@.to_multiset(),
        names_ascending(range_names(final(names)@)),
{
    let mut sorted: Vec<NamedRange> = Vec::new();
    while names.len() > 0
        invariant
            sorted@.to_multiset().add(names@.to_multiset()) == old(names)@.to_multiset(),
            names_ascending(range_names(sorted@)),
        decreases names@.len(),
    {
        let ghost before = names@;
        let ghost ranked = sorted@;
        let x = names.remove(0);
        let p = range_slot(&sorted, x.name.as_str());
        proof {
            lemma_insert_keeps_ascending(range_names(ranked), x.name@, p as int);
            assert(range_names(ranked.insert(p as int, x)) =~= range_names(ranked).insert(p as int, x.name@));
            assert(before.to_multiset().count(x) > 0);
        }
        sorted.insert(p, x);
        proof {
            assert(sorted@.to_multiset().add(names@.to_multiset()) =~= ranked.to_multiset().add(before.to_multiset()));
        }
    }
    proof {
        assert(names@.to_multiset() =~= vstd::multiset::Multiset::empty());
        assert(sorted@.to_multiset().add(names@.to_multiset()) =~= sorted@.to_multiset());
    }
    *names = sorted;
}

/// Orders tables by name, ascending in UTF-16 code-unit order: the same
/// entries, each as often as before, now ascending.
pub fn sort_tables_by_name(tables: &mut Vec<Table>)
    ensures
        final(tables)@.to_multiset() == old(tables)@.to_multiset(),
        names_ascending(table_names(final(tables)@)),
{
    let mut sorted: Vec<Table> = Vec::new();
    while tables.len() > 0
        invariant
            sorted@.to_multiset().add(tables@.to_multiset()) == old(tables)@.to_multiset(),
            names_ascending(table_names(sorted@)),
        decreases tables@.len(),
    {
        let ghost before = tables@;
        let ghost ranked = sorted@;
        let x = tables.remove(0);
        let p = table_slot(&sorted, x.name.as_str());
        proof {
            lemma_insert_keeps_ascending(table_names(ranked), x.name@, p as int);
            assert(table_names(ranked.insert(p as int, x)) =~= table_names(ranked).insert(p as int, x.name@));
            assert(before.to_multiset().count(x) > 0);
        }
        sorted.insert(p, x);
        proof {
            assert(sorted@.to_multiset().add(tables@.to_multiset()) =~= ranked.to_multiset().add(before.to_multiset()));
        }
    }
    proof {
        assert(tables@.to_multiset() =~= vstd::multiset::Multiset::empty());
        assert(sorted@.to_multiset().add(tables@.to_multiset()) =~= sorted@.to_multiset());
    }
    *tables = sorted;
}

/// Each of two names not after the other are the same name.
proof fn lemma_not_after_antisymmetric(a: Seq<char>, b: Seq<char>)
    requires
        name_not_after(a, b),
        name_not_after(b, a),
    ensures
        a == b,
{
    crate::canonical::law_utf16_key_order(a, b, b);
}

/// Two ascending lists of the same entries, whose names are pairwise
/// different, are the same list.
proof fn lemma_ascending_unique<A>(x: Seq<A>, y: Seq<A>, key: spec_fn(A) -> Seq<char>)
    requires
        x.to_multiset() == y.to_multiset(),
        names_ascending(x.map_values(key)),
        names_ascending(y.map_values(key)),
        forall|i: int, j: int| 0 <= i < j < x.len() ==> key(#[trigger] x[i]) != key(#[trigger] x[j]),
    ensures
        x == y,
    decreases x.len(),
{
    assert(x.len() == x.to_multiset().len());
    assert(y.len() == y.to_multiset().len());
    if x.len() == 0 {
        assert(x =~= y);
    } else {
        assert(x.to_multiset().count(x[0]) > 0);
        assert(y.contains(x[0]));
        let i = choose|i: int| 0 <= i < y.len() && y[i] == x[0];
        assert(y.to_multiset().count(y[0]) > 0);
        assert(x.contains(y[0]));
        let k = choose|k: int| 0 <= k < x.len() && x[k] == y[0];
        assert(x.map_values(key)[0] == key(x[0]));
        assert(x.map_values(key)[k] == key(x[k]));
        assert(y.map_values(key)[0] == key(y[0]));
        assert(y.map_values(key)[i] == key(y[i]));
        if k > 0 {
            assert(name_not_after(key(x[0]), key(x[k])));
        }
        if i > 0 {
            assert(name_not_after(key(y[0]), key(y[i])));
        }
        lemma_units_order(utf16_units(key(x[0])), utf16_units(key(x[0])), utf16_units(key(x[0])));
        lemma_not_after_antisymmetric(key(x[0]), key(y[0]));
        assert(k == 0);
        assert(x[0] == y[0]);
        let xs = x.drop_first();
        let ys = y.drop_first();
        assert(x =~= seq![x[0]] + xs);
        assert(y =~= seq![y[0]] + ys);
        assert(x.remove(0) =~= xs);
        assert(y.remove(0) =~= ys);
        assert(xs.to_multiset() =~= ys.to_multiset());
        assert forall|a: int, b: int| 0 <= a < b < xs.map_values(key).len() implies name_not_after(
            #[trigger] xs.map_values(key)[a],
            #[trigger] xs.map_values(key)[b],
        ) by {
            assert(xs.map_values(key)[a] == x.map_values(key)[a + 1]);
            assert(xs.map_values(key)[b] == x.map_values(key)[b + 1]);
        }
        assert forall|a: int, b: int| 0 <= a < b < ys.map_values(key).len() implies name_not_after(
            #[trigger] ys.map_values(key)[a],
            #[trigger] ys.map_values(key)[b],
        ) by {
            assert(ys.map_values(key)[a] == y.map_values(key)[a + 1]);
            assert(ys.map_values(key)[b] == y.map_values(key)[b + 1]);
        }
        assert forall|a: int, b: int| 0 <= a < b < xs.len() implies key(#[trigger] xs[a]) != key(#[trigger] xs[b]) by {
            assert(xs[a] == x[a + 1] && xs[b] == x[b + 1]);
        }
        lemma_ascending_unique(xs, ys, key);
    }
}

/// The written order of named ranges depends only on which entries there
/// are: two ascending lists of the same entries, with pairwise different
/// names, are the same list.
pub proof fn law_range_order_is_canonical(a: Seq<NamedRange>, b: Seq<NamedRange>)
    requires
        a.to_multiset() == b.to_multiset(),
        names_ascending(range_names(a)),
        names_ascending(range_names(b)),
        forall|i: int, j: int| 0 <= i < j < a.len() ==> (#[trigger] a[i]).name@ != (#[trigger] a[j]).name@,
    ensures
        a == b,
{
    let key = |n: NamedRange| n.name@;
    assert(range_names(a) == a.map_values(key));
    assert(range_names(b) == b.map_values(key));
    lemma_ascending_unique(a, b, key);
}

/// The written order of tables depends only on which entries there are:
/// two ascending lists of the same entries, with pairwise different names,
/// are the same list.
pub proof fn law_table_order_is_canonical(a: Seq<Table>, b: Seq<Table>)
    requires
        a.to_multiset() == b.to_multiset(),
        names_ascending(table_names(a)),
        names_ascending(table_names(b)),
        forall|i: int, j: int| 0 <= i < j < a.len() ==> (#[trigger] a[i]).name@ != (#[trigger] a[j]).name@,
    ensures
        a == b,
{
    let key = |t: Table| t.name@;
    assert(table_names(a) == a.map_values(key));
    assert(table_names(b) == b.map_values(key));
    lemma_ascending_unique(a, b, key);
}

} // verus!
