//! A JSON document tree as plain values: what document validation reads of a
//! parsed workbook file. Objects keep their entries in the order the parser
//! produced them; numbers keep their JSON text.

use vstd::prelude::*;

use crate::depgraph::{chars_lt, lemma_text_lt_irreflexive, lemma_text_lt_transitive, lemma_text_lt_trichotomy, text_lt};
use crate::text::{chars_of, str_equal, string_of};

verus! {

/// One JSON value.
#[derive(Debug)]
pub enum Json {
    /// `null`.
    Null,
    /// `true` or `false`.
    Bool(bool),
    /// A number, as its JSON text.
    Number(String),
    /// A string.
    String(String),
    /// An array, in order.
    Array(Vec<Json>),
    /// An object's entries, in order.
    Object(Vec<(String, Json)>),
}

/// The value of the first entry named `key`.
pub open spec fn lookup(entries: Seq<(String, Json)>, key: Seq<char>) -> Option<Json>
    decreases entries.len(),
{
    if entries.len() == 0 {
        None
    } else if entries[0].0@ == key {
        Some(entries[0].1)
    } else {
        lookup(entries.drop_first(), key)
    }
}

/// The text of a string value.
pub open spec fn as_text(j: Option<Json>) -> Option<Seq<char>> {
    match j {
        Some(Json::String(s)) => Some(s@),
        _ => None,
    }
}

/// The string stored under `key`, if that entry is a string.
pub open spec fn text_at(entries: Seq<(String, Json)>, key: Seq<char>) -> Option<Seq<char>> {
    as_text(lookup(entries, key))
}

/// The array stored under `key`, if that entry is an array.
pub open spec fn array_at(entries: Seq<(String, Json)>, key: Seq<char>) -> Option<Seq<Json>> {
    match lookup(entries, key) {
        Some(Json::Array(v)) => Some(v@),
        _ => None,
    }
}

/// The object stored under `key`, if that entry is an object.
pub open spec fn object_at(entries: Seq<(String, Json)>, key: Seq<char>) -> Option<Seq<(String, Json)>> {
    match lookup(entries, key) {
        Some(Json::Object(o)) => Some(o@),
        _ => None,
    }
}

/// The value of the first entry of `entries` named `key`.
pub fn get<'a>(entries: &'a Vec<(String, Json)>, key: &str) -> (r: Option<&'a Json>)
    ensures
        match r {
            Some(j) => lookup(entries@, key@) == Some(*j),
            None => lookup(entries@, key@) is None,
        },
{
    let mut i: usize = 0;
    proof {
        assert(entries@.skip(0) =~= entries@);
    }
    while i < entries.len()
        invariant
            i <= entries@.len(),
            lookup(entries@, key@) == lookup(entries@.skip(i as int), key@),
        decreases entries@.len() - i,
    {
        proof {
            assert(entries@.skip(i as int)[0] == entries@[i as int]);
            assert(entries@.skip(i as int).drop_first() =~= entries@.skip(i as int + 1));
        }
        if str_equal(entries[i].0.as_str(), key) {
            return Some(&entries[i].1);
        }
        i = i + 1;
    }
    None
}

/// The string stored under `key`, if that entry is a string.
pub fn get_text<'a>(entries: &'a Vec<(String, Json)>, key: &str) -> (r: Option<&'a String>)
    ensures
        match r {
            Some(s) => text_at(entries@, key@) == Some(s@),
            None => text_at(entries@, key@) is None,
        },
{
    match get(entries, key) {
        Some(Json::String(s)) => Some(s),
        _ => None,
    }
}

/// The array stored under `key`, if that entry is an array.
pub fn get_array<'a>(entries: &'a Vec<(String, Json)>, key: &str) -> (r: Option<&'a Vec<Json>>)
    ensures
        match r {
            Some(v) => array_at(entries@, key@) == Some(v@),
            None => array_at(entries@, key@) is None,
        },
{
    match get(entries, key) {
        Some(Json::Array(v)) => Some(v),
        _ => None,
    }
}

/// The object stored under `key`, if that entry is an object.
pub fn get_object<'a>(entries: &'a Vec<(String, Json)>, key: &str) -> (r: Option<&'a Vec<(String, Json)>>)
    ensures
        match r {
            Some(o) => object_at(entries@, key@) == Some(o@),
            None => object_at(entries@, key@) is None,
        },
{
    match get(entries, key) {
        Some(Json::Object(o)) => Some(o),
        _ => None,
    }
}

/// The keys of the first `n` entries.
pub open spec fn keys_before(entries: Seq<(String, Json)>, n: int) -> Seq<Seq<char>> {
    Seq::new(n as nat, |i: int| entries[i].0@)
}

/// The first duplicate object key in `j`, in the order a streaming reader
/// meets it: each object's entries in order, an entry's value read before
/// its key is compared with the keys of the entries before it.
pub open spec fn first_duplicate(j: Json) -> Option<Seq<char>>
    decreases j, 0int,
{
    match j {
        Json::Array(items) => first_duplicate_in_items(items@, items@.len() as int),
        Json::Object(entries) => first_duplicate_in_entries(entries@, entries@.len() as int),
        _ => None,
    }
}

/// The first duplicate key among the first `n` items of an array.
pub open spec fn first_duplicate_in_items(items: Seq<Json>, n: int) -> Option<Seq<char>>
    decreases items, n,
{
    if n <= 0 || n > items.len() {
        None
    } else {
        match first_duplicate_in_items(items, n - 1) {
            Some(k) => Some(k),
            None => first_duplicate(items[n - 1]),
        }
    }
}

/// The first duplicate key among the first `n` entries of an object.
pub open spec fn first_duplicate_in_entries(entries: Seq<(String, Json)>, n: int) -> Option<Seq<char>>
    decreases entries, n,
{
    if n <= 0 || n > entries.len() {
        None
    } else {
        match first_duplicate_in_entries(entries, n - 1) {
            Some(k) => Some(k),
            None => match first_duplicate(entries[n - 1].1) {
                Some(k) => Some(k),
                None => if keys_before(entries, n - 1).contains(entries[n - 1].0@) {
                    Some(entries[n - 1].0@)
                } else {
                    None
                },
            },
        }
    }
}

/// A duplicate found among the first `n` items is the first of them all.
proof fn lemma_items_duplicate_stable(items: Seq<Json>, n: int)
    requires
        0 <= n <= items.len(),
        first_duplicate_in_items(items, n) is Some,
    ensures
        first_duplicate_in_items(items, items.len() as int) == first_duplicate_in_items(items, n),
    decreases items.len() - n,
{
    if n < items.len() {
        lemma_items_duplicate_stable(items, n + 1);
    }
}

/// A duplicate found among the first `n` entries is the first of them all.
proof fn lemma_entries_duplicate_stable(entries: Seq<(String, Json)>, n: int)
    requires
        0 <= n <= entries.len(),
        first_duplicate_in_entries(entries, n) is Some,
    ensures
        first_duplicate_in_entries(entries, entries.len() as int) == first_duplicate_in_entries(entries, n),
    decreases entries.len() - n,
{
    if n < entries.len() {
        lemma_entries_duplicate_stable(entries, n + 1);
    }
}

/// The first duplicate object key in `j` (see [`first_duplicate`]).
pub fn find_duplicate_key(j: &Json) -> (r: Option<String>)
    ensures
        match r {
            Some(k) => first_duplicate(*j) == Some(k@),
            None => first_duplicate(*j) is None,
        },
    decreases j,
{
    match j {
        Json::Array(items) => {
            let mut i: usize = 0;
            while i < items.len()
                invariant
                    i <= items@.len(),
                    *j == Json::Array(*items),
                    first_duplicate_in_items(items@, i as int) is None,
                decreases items@.len() - i,
            {
                proof {
                    assert(decreases_to!(*j => items@[i as int]));
                }
                match find_duplicate_key(&items[i]) {
                    Some(k) => {
                        proof {
                            lemma_items_duplicate_stable(items@, i as int + 1);
                        }
                        return Some(k);
                    },
                    None => {},
                }
                i = i + 1;
            }
            None
        },
        Json::Object(entries) => {
            let mut i: usize = 0;
            while i < entries.len()
                invariant
                    i <= entries@.len(),
                    *j == Json::Object(*entries),
                    first_duplicate_in_entries(entries@, i as int) is None,
                decreases entries@.len() - i,
            {
                proof {
                    assert(decreases_to!(*j => entries@[i as int].1));
                }
                match find_duplicate_key(&entries[i].1) {
                    Some(k) => {
                        proof {
                            lemma_entries_duplicate_stable(entries@, i as int + 1);
                        }
                        return Some(k);
                    },
                    None => {},
                }
                let mut q: usize = 0;
                while q < i
                    invariant
                        q <= i < entries@.len(),
                        *j == Json::Object(*entries),
                        first_duplicate_in_entries(entries@, i as int) is None,
                        first_duplicate(entries@[i as int].1) is None,
                        forall|t: int| 0 <= t < q ==> keys_before(entries@, i as int)[t] != entries@[i as int].0@,
                    decreases i - q,
                {
                    if str_equal(entries[q].0.as_str(), entries[i].0.as_str()) {
                        proof {
                            assert(keys_before(entries@, i as int)[q as int] == entries@[i as int].0@);
                            assert(keys_before(entries@, i as int).contains(entries@[i as int].0@));
                            lemma_entries_duplicate_stable(entries@, i as int + 1);
                        }
                        return Some(string_of(entries[i].0.as_str()));
                    }
                    q = q + 1;
                }
                proof {
                    assert(!keys_before(entries@, i as int).contains(entries@[i as int].0@));
                }
                i = i + 1;
            }
            None
        },
        _ => None,
    }
}

/// The message for a duplicate object key.
pub open spec fn duplicate_key_message(key: Seq<char>) -> Seq<char> {
    "duplicate object key "@ + crate::text::spec_debug_quoted(key) + " is forbidden (schema spec \u{a7}1)"@
}

/// The message for the duplicate object key `key`.
pub fn duplicate_key_error(key: &str) -> (m: String)
    ensures
        m@ == duplicate_key_message(key@),
{
    let mut m = string_of("duplicate object key ");
    crate::text::push_str(&mut m, crate::text::debug_quoted(key).as_str());
    crate::text::push_str(&mut m, " is forbidden (schema spec \u{a7}1)");
    m
}

/// Whether an entry of `entries` already has the key `key`: what a
/// streaming reader checks after reading a member's value, before keeping
/// it.
pub fn repeats_key(entries: &[(String, Json)], key: &str) -> (b: bool)
    ensures
        b == keys_before(entries@, entries@.len() as int).contains(key@),
{
    let mut q: usize = 0;
    while q < entries.len()
        invariant
            q <= entries@.len(),
            forall|t: int| 0 <= t < q ==> keys_before(entries@, entries@.len() as int)[t] != key@,
        decreases entries@.len() - q,
    {
        if str_equal(entries[q].0.as_str(), key) {
            proof {
                assert(keys_before(entries@, entries@.len() as int)[q as int] == key@);
            }
            return true;
        }
        q = q + 1;
    }
    false
}

/// Rejects a document with a duplicate key in any object, reporting the
/// first one a streaming reader meets.
pub fn check_no_duplicate_keys(j: &Json) -> (r: Result<(), String>)
    ensures
        match r {
            Ok(()) => first_duplicate(*j) is None,
            Err(m) => first_duplicate(*j) matches Some(k) && m@ == duplicate_key_message(k),
        },
{
    match find_duplicate_key(j) {
        Some(k) => Err(duplicate_key_error(k.as_str())),
        None => Ok(()),
    }
}

/// The document's bytes begin with a UTF-8 byte-order mark.
pub open spec fn starts_with_bom(bytes: Seq<u8>) -> bool {
    bytes.len() >= 3 && bytes[0] == 0xEFu8 && bytes[1] == 0xBBu8 && bytes[2] == 0xBFu8
}

/// Rejects a document that begins with a UTF-8 byte-order mark.
pub fn reject_bom(bytes: &[u8]) -> (r: Result<(), String>)
    ensures
        r is Err <==> starts_with_bom(bytes@),
        r matches Err(m) ==> m@ == "a UTF-8 BOM is forbidden (schema spec \u{a7}1)"@,
{
    if bytes.len() >= 3 && bytes[0] == 0xEF && bytes[1] == 0xBB && bytes[2] == 0xBF {
        return Err(string_of("a UTF-8 BOM is forbidden (schema spec \u{a7}1)"));
    }
    Ok(())
}

/// The position of the first entry named `key`, or `-1`.
pub open spec fn key_index(entries: Seq<(String, Json)>, key: Seq<char>) -> int
    decreases entries.len(),
{
    if entries.len() == 0 {
        -1
    } else if entries[0].0@ == key {
        0
    } else if key_index(entries.drop_first(), key) < 0 {
        -1
    } else {
        key_index(entries.drop_first(), key) + 1
    }
}

/// `lookup` returns the value at `key_index`.
pub proof fn lemma_key_index(entries: Seq<(String, Json)>, key: Seq<char>)
    ensures
        -1 <= key_index(entries, key) < entries.len(),
        lookup(entries, key) == (if key_index(entries, key) >= 0 {
            Some(entries[key_index(entries, key)].1)
        } else {
            None
        }),
    decreases entries.len(),
{
    if entries.len() > 0 {
        lemma_key_index(entries.drop_first(), key);
    }
}


/// An array's item, and an object member's value, are smaller than the
/// value that holds them.
pub proof fn lemma_json_parts_decrease(j: Json, i: int)
    ensures
        j is Array && 0 <= i < j->Array_0@.len() ==> decreases_to!(j => j->Array_0@[i]),
        j is Object && 0 <= i < j->Object_0@.len() ==> decreases_to!(j => j->Object_0@[i].1),
{
    match j {
        Json::Array(items) => {
            if 0 <= i < items@.len() {
                assert(decreases_to!(j => items@[i]));
            }
        },
        Json::Object(es) => {
            if 0 <= i < es@.len() {
                assert(decreases_to!(j => es@[i]));
                assert(decreases_to!(es@[i] => es@[i].1));
            }
        },
        _ => {},
    }
}

/// Object keys strictly ascending in code-point order (the order of
/// `String`'s `Ord`).
pub open spec fn keys_ascending(es: Seq<(String, Json)>) -> bool {
    forall|i: int, j: int| 0 <= i < j < es.len() ==> text_lt((#[trigger] es[i]).0@, (#[trigger] es[j]).0@)
}

/// `b` is `a` with the members of every object in key order: the same
/// scalars, arrays with the same items in the same order, and objects with
/// the same members, keys ascending.
pub open spec fn sorted_tree(a: Json, b: Json) -> bool
    decreases a,
{
    match (a, b) {
        (Json::Null, Json::Null) => true,
        (Json::Bool(x), Json::Bool(y)) => x == y,
        (Json::Number(x), Json::Number(y)) => x@ == y@,
        (Json::String(x), Json::String(y)) => x@ == y@,
        (Json::Array(x), Json::Array(y)) => {
            &&& x@.len() == y@.len()
            &&& forall|i: int| 0 <= i < x@.len() ==> sorted_tree(#[trigger] x@[i], y@[i])
        },
        (Json::Object(x), Json::Object(y)) => {
            &&& x@.len() == y@.len()
            &&& keys_ascending(y@)
            &&& forall|i: int| 0 <= i < x@.len() ==> exists|k: int|
                0 <= k < y@.len() && y@[k].0@ == (#[trigger] x@[i]).0@ && sorted_tree(x@[i].1, y@[k].1)
        },
        _ => false,
    }
}

/// A value with no duplicate key has none in its items, and none in its
/// members' values or among its members' keys.
proof fn lemma_no_duplicate_parts(j: Json)
    requires
        first_duplicate(j) is None,
    ensures
        j is Array ==> forall|i: int| 0 <= i < j->Array_0@.len() ==> first_duplicate(#[trigger] j->Array_0@[i]) is None,
        j is Object ==> forall|i: int| 0 <= i < j->Object_0@.len() ==> first_duplicate((#[trigger] j->Object_0@[i]).1) is None,
        j is Object ==> forall|i: int, k: int| 0 <= i < k < j->Object_0@.len() ==> (#[trigger] j->Object_0@[i]).0@ != (
        #[trigger] j->Object_0@[k]).0@,
{
    match j {
        Json::Array(items) => {
            assert forall|i: int| 0 <= i < items@.len() implies first_duplicate(#[trigger] items@[i]) is None by {
                lemma_items_none(items@, items@.len() as int, i);
            }
        },
        Json::Object(es) => {
            assert forall|i: int| 0 <= i < es@.len() implies first_duplicate((#[trigger] es@[i]).1) is None by {
                lemma_entries_none(es@, es@.len() as int, i);
            }
            assert forall|i: int, k: int| 0 <= i < k < es@.len() implies (#[trigger] es@[i]).0@ != (#[trigger] es@[k]).0@ by {
                lemma_entries_none(es@, es@.len() as int, k);
                assert(keys_before(es@, k)[i] == es@[i].0@);
            }
        },
        _ => {},
    }
}

proof fn lemma_items_none(items: Seq<Json>, n: int, i: int)
    requires
        0 <= i < n <= items.len(),
        first_duplicate_in_items(items, n) is None,
    ensures
        first_duplicate(items[i]) is None,
    decreases n,
{
    if i < n - 1 {
        lemma_items_none(items, n - 1, i);
    }
}

proof fn lemma_entries_none(es: Seq<(String, Json)>, n: int, i: int)
    requires
        0 <= i < n <= es.len(),
        first_duplicate_in_entries(es, n) is None,
    ensures
        first_duplicate(es[i].1) is None,
        !keys_before(es, i).contains(es[i].0@),
    decreases n,
{
    if i < n - 1 {
        lemma_entries_none(es, n - 1, i);
    }
}

/// Inserts `(key, value)` at its place among the members `out`, whose keys
/// are ascending and all differ from `key`.
fn insert_member(out: &mut Vec<(String, Json)>, key: String, value: Json) -> (p: usize)
    requires
        keys_ascending(old(out)@),
        forall|i: int| 0 <= i < old(out)@.len() ==> (#[trigger] old(out)@[i]).0@ != key@,
    ensures
        keys_ascending(final(out)@),
        p <= old(out)@.len(),
        final(out)@ == old(out)@.insert(p as int, (key, value)),
{
    let kc = chars_of(key.as_str());
    let mut p: usize = 0;
    while p < out.len() && chars_lt(chars_of(out[p].0.as_str()).as_slice(), kc.as_slice())
        invariant
            p <= out@.len(),
            out@ == old(out)@,
            kc@ == key@,
            keys_ascending(out@),
            forall|i: int| 0 <= i < p ==> text_lt((#[trigger] out@[i]).0@, key@),
        decreases out@.len() - p,
    {
        p = p + 1;
    }
    let ghost before = out@;
    proof {
        assert forall|i: int| p <= i < before.len() implies text_lt(key@, (#[trigger] before[i]).0@) by {
            lemma_text_lt_trichotomy(before[p as int].0@, key@);
            if i > p {
                lemma_text_lt_transitive(key@, before[p as int].0@, before[i].0@);
            }
        }
    }
    out.insert(p, (key, value));
    proof {
        assert(out@ == before.insert(p as int, (key, value)));
        assert forall|i: int, j: int| 0 <= i < j < out@.len() implies text_lt((#[trigger] out@[i]).0@, (#[trigger] out@[j]).0@) by {
            if j < p {
            } else if j == p {
                assert(out@[i] == before[i]);
            } else if i < p {
                assert(out@[i] == before[i] && out@[j] == before[j - 1]);
                lemma_text_lt_transitive(before[i].0@, key@, before[j - 1].0@);
            } else if i == p {
                assert(out@[j] == before[j - 1]);
            } else {
                assert(out@[i] == before[i - 1] && out@[j] == before[j - 1]);
            }
        }
    }
    p
}

/// `j` with the members of every object in key order, as a parser that
/// keeps objects as sorted maps gives them; `j` holds no duplicate key.
pub fn sort_keys(j: &Json) -> (r: Json)
    requires
        first_duplicate(*j) is None,
    ensures
        sorted_tree(*j, r),
    decreases j,
{
    proof {
        lemma_no_duplicate_parts(*j);
    }
    match j {
        Json::Array(items) => {
            let mut out: Vec<Json> = Vec::new();
            let mut i: usize = 0;
            while i < items.len()
                invariant
                    *j == Json::Array(*items),
                    i <= items@.len(),
                    out@.len() == i,
                    forall|t: int| 0 <= t < items@.len() ==> first_duplicate(#[trigger] items@[t]) is None,
                    forall|t: int| 0 <= t < i ==> sorted_tree(#[trigger] items@[t], out@[t]),
                decreases items@.len() - i,
            {
                proof {
                    lemma_json_parts_decrease(*j, i as int);
                }
                let y = sort_keys(&items[i]);
                let ghost ob = out@;
                out.push(y);
                proof {
                    assert forall|t: int| 0 <= t < i + 1 implies sorted_tree(#[trigger] items@[t], out@[t]) by {
                        if t < i {
                            assert(out@[t] == ob[t]);
                        }
                    }
                }
                i = i + 1;
            }
            let r = Json::Array(out);
            proof {
                assert(sorted_tree(*j, r));
            }
            r
        },
        Json::Object(es) => {
            let mut out: Vec<(String, Json)> = Vec::new();
            let mut i: usize = 0;
            while i < es.len()
                invariant
                    *j == Json::Object(*es),
                    i <= es@.len(),
                    out@.len() == i,
                    forall|t: int| 0 <= t < es@.len() ==> first_duplicate((#[trigger] es@[t]).1) is None,
                    forall|t: int, k: int| 0 <= t < k < es@.len() ==> (#[trigger] es@[t]).0@ != (#[trigger] es@[k]).0@,
                    keys_ascending(out@),
                    members_found(es@, i as int, out@),
                    members_known(es@, i as int, out@),
                decreases es@.len() - i,
            {
                proof {
                    lemma_json_parts_decrease(*j, i as int);
                }
                let y = sort_keys(&es[i].1);
                let key = string_of(es[i].0.as_str());
                proof {
                    assert forall|q: int| 0 <= q < out@.len() implies (#[trigger] out@[q]).0@ != key@ by {
                        let t = choose|t: int| 0 <= t < i && out@[q].0@ == es@[t].0@;
                    }
                }
                let ghost before = out@;
                let ghost kv = key;
                let ghost yv = y;
                let p = insert_member(&mut out, key, y);
                proof {
                    lemma_member_added(es@, i as int, before, p as int, kv, yv);
                }
                i = i + 1;
            }
            let r = Json::Object(out);
            proof {
                assert(sorted_tree(*j, r));
            }
            r
        },
        Json::Null => Json::Null,
        Json::Bool(b) => Json::Bool(*b),
        Json::Number(t) => Json::Number(string_of(t.as_str())),
        Json::String(t) => Json::String(string_of(t.as_str())),
    }
}

/// Each of the first `n` members of `es` has its key in `out`, with its
/// value's sorted copy beside it.
pub open spec fn members_found(es: Seq<(String, Json)>, n: int, out: Seq<(String, Json)>) -> bool {
    forall|t: int| 0 <= t < n ==> exists|q: int|
        0 <= q < out.len() && out[q].0@ == (#[trigger] es[t]).0@ && sorted_tree(es[t].1, out[q].1)
}

/// Each key in `out` is the key of one of the first `n` members of `es`.
pub open spec fn members_known(es: Seq<(String, Json)>, n: int, out: Seq<(String, Json)>) -> bool {
    forall|q: int| 0 <= q < out.len() ==> exists|t: int| 0 <= t < n && (#[trigger] out[q]).0@ == es[t].0@
}

/// Adding member `i`'s sorted copy keeps every member before it found.
proof fn lemma_member_added(
    es: Seq<(String, Json)>,
    i: int,
    before: Seq<(String, Json)>,
    p: int,
    k: String,
    y: Json,
)
    requires
        0 <= i < es.len(),
        0 <= p <= before.len(),
        k@ == es[i].0@,
        sorted_tree(es[i].1, y),
        members_found(es, i, before),
        members_known(es, i, before),
    ensures
        members_found(es, i + 1, before.insert(p, (k, y))),
        members_known(es, i + 1, before.insert(p, (k, y))),
{
    let after = before.insert(p, (k, y));
    assert(after.len() == before.len() + 1);
    assert forall|t: int| 0 <= t < i + 1 implies exists|q: int|
        0 <= q < after.len() && after[q].0@ == (#[trigger] es[t]).0@ && sorted_tree(es[t].1, after[q].1) by {
        if t == i {
            assert(after[p].1 == y);
            assert(after[p].0@ == es[t].0@ && sorted_tree(es[t].1, after[p].1));
        } else {
            let q = choose|q: int| 0 <= q < before.len() && before[q].0@ == es[t].0@ && sorted_tree(es[t].1, before[q].1);
            if q < p {
                assert(after[q] == before[q]);
            } else {
                assert(after[q + 1] == before[q]);
            }
        }
    }
    assert forall|q: int| 0 <= q < after.len() implies exists|t: int| 0 <= t < i + 1 && (#[trigger] after[q]).0@ == es[t].0@ by {
        if q == p {
            assert(after[q].0@ == es[i].0@);
        } else if q < p {
            assert(after[q] == before[q]);
            let t = choose|t: int| 0 <= t < i && before[q].0@ == es[t].0@;
        } else {
            assert(after[q] == before[q - 1]);
            let t = choose|t: int| 0 <= t < i && before[q - 1].0@ == es[t].0@;
        }
    }
}
} // verus!
