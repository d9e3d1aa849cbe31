//! The RFC 8785 (JSON Canonicalization Scheme) serializer, numbers aside:
//! minimal string escaping, the UTF-16 code-unit order in which object keys
//! are written, and the writing of a whole JSON tree, each number written as
//! the text it holds (the ECMAScript form is filled in by the caller).

use vstd::prelude::*;

use crate::json::Json;
use crate::text::push_char;

verus! {

/// The lowercase hexadecimal digit of `d` (`0 <= d < 16`).
pub open spec fn hex_digit(d: int) -> char {
    if d < 10 {
        (48 + d) as char
    } else {
        (87 + d) as char
    }
}

/// How one character is written inside a JSON string: `"` and `\` escaped,
/// the short forms `\b \t \n \f \r`, `\u00xx` (lowercase hex) for the other
/// C0 controls, and every other character literally.
pub open spec fn escaped_char(c: char) -> Seq<char> {
    if c == '"' {
        seq!['\\', '"']
    } else if c == '\\' {
        seq!['\\', '\\']
    } else if c == '\u{08}' {
        seq!['\\', 'b']
    } else if c == '\u{09}' {
        seq!['\\', 't']
    } else if c == '\u{0A}' {
        seq!['\\', 'n']
    } else if c == '\u{0C}' {
        seq!['\\', 'f']
    } else if c == '\u{0D}' {
        seq!['\\', 'r']
    } else if (c as u32) < 0x20 {
        seq!['\\', 'u', '0', '0', hex_digit((c as u32 / 16) as int), hex_digit((c as u32 % 16) as int)]
    } else {
        seq![c]
    }
}

/// The escaped body of a JSON string holding `s`.
pub open spec fn escaped(s: Seq<char>) -> Seq<char>
    decreases s.len(),
{
    if s.len() == 0 {
        Seq::empty()
    } else {
        escaped(s.drop_last()) + escaped_char(s.last())
    }
}

/// The canonical JSON string literal of `s`: `escaped(s)` in double quotes.
pub open spec fn json_string(s: Seq<char>) -> Seq<char> {
    seq!['"'] + escaped(s) + seq!['"']
}

/// A character is written literally, as itself alone, exactly when it is
/// neither `"` nor `\` nor a C0 control: the space and every other
/// printable or non-ASCII character pass through unescaped.
pub proof fn law_plain_char_written_literally(c: char)
    ensures
        escaped_char(c) == seq![c] <==> ((c as u32) >= 0x20 && c != '"' && c != '\\'),
{
    if !((c as u32) >= 0x20 && c != '"' && c != '\\') {
        assert(escaped_char(c).len() != 1 || escaped_char(c)[0] != c);
    }
}

/// A text of characters that are neither `"` nor `\` nor C0 controls is
/// written as itself between double quotes, with no escape at all.
pub proof fn law_plain_text_written_literally(s: Seq<char>)
    requires
        forall|i: int| 0 <= i < s.len() ==> (#[trigger] s[i] as u32) >= 0x20 && s[i] != '"' && s[i] != '\\',
    ensures
        escaped(s) == s,
        json_string(s) == seq!['"'] + s + seq!['"'],
    decreases s.len(),
{
    if s.len() > 0 {
        assert(s.drop_last().len() < s.len());
        assert forall|i: int| 0 <= i < s.drop_last().len() implies (#[trigger] s.drop_last()[i] as u32) >= 0x20
            && s.drop_last()[i] != '"' && s.drop_last()[i] != '\\' by {
            assert(s.drop_last()[i] == s[i]);
        }
        law_plain_text_written_literally(s.drop_last());
        assert(s[s.len() - 1] as u32 >= 0x20);
        law_plain_char_written_literally(s.last());
        assert(s =~= s.drop_last() + seq![s.last()]);
    }
}

/// The value of a lowercase hexadecimal digit, or `-1` for any other
/// character.
pub open spec fn lower_hex_value(h: char) -> int {
    if '0' <= h && h <= '9' {
        h as int - '0' as int
    } else if 'a' <= h && h <= 'f' {
        h as int - 'a' as int + 10
    } else {
        -1
    }
}

/// Every C0 control is escaped in the shortest JSON form: backspace, tab,
/// line feed, form feed and carriage return as `\b \t \n \f \r`, every
/// other one as `\u00` and two lowercase hexadecimal digits whose value is
/// the character's code point; `"` and `\` as themselves behind `\`.
pub proof fn law_escapes_are_shortest(c: char)
    ensures
        c == '"' || c == '\\' ==> escaped_char(c) == seq!['\\', c],
        c == '\u{08}' ==> escaped_char(c) == seq!['\\', 'b'],
        c == '\u{09}' ==> escaped_char(c) == seq!['\\', 't'],
        c == '\u{0A}' ==> escaped_char(c) == seq!['\\', 'n'],
        c == '\u{0C}' ==> escaped_char(c) == seq!['\\', 'f'],
        c == '\u{0D}' ==> escaped_char(c) == seq!['\\', 'r'],
        (c as u32) < 0x20 && c != '\u{08}' && c != '\u{09}' && c != '\u{0A}' && c != '\u{0C}' && c != '\u{0D}' ==> {
            let e = escaped_char(c);
            &&& e.len() == 6
            &&& e.take(4) == seq!['\\', 'u', '0', '0']
            &&& 0 <= lower_hex_value(e[4]) && 0 <= lower_hex_value(e[5])
            &&& lower_hex_value(e[4]) * 16 + lower_hex_value(e[5]) == c as u32
        },
{
    if (c as u32) < 0x20 && c != '\u{08}' && c != '\u{09}' && c != '\u{0A}' && c != '\u{0C}' && c != '\u{0D}' {
        let v = c as u32;
        let hi = (v / 16) as int;
        let lo = (v % 16) as int;
        assert(0 <= hi < 2 && 0 <= lo < 16);
        assert(lower_hex_value(hex_digit(hi)) == hi);
        assert(lower_hex_value(hex_digit(lo)) == lo);
        assert(escaped_char(c).take(4) =~= seq!['\\', 'u', '0', '0']);
    }
}

/// The character of hexadecimal digit `d`, lowercase.
fn hex_char(d: u32) -> (c: char)
    requires
        d < 16,
    ensures
        c == hex_digit(d as int),
{
    if d < 10 {
        ((48u8 + (d as u8)) as char)
    } else {
        ((87u8 + (d as u8)) as char)
    }
}

/// Appends the escaped form of `c`.
fn write_escaped_char(c: char, out: &mut String)
    ensures
        final(out)@ == old(out)@ + escaped_char(c),
{
    let ghost start = out@;
    if c == '"' {
        push_char(out, '\\');
        push_char(out, '"');
    } else if c == '\\' {
        push_char(out, '\\');
        push_char(out, '\\');
    } else if c == '\u{08}' {
        push_char(out, '\\');
        push_char(out, 'b');
    } else if c == '\u{09}' {
        push_char(out, '\\');
        push_char(out, 't');
    } else if c == '\u{0A}' {
        push_char(out, '\\');
        push_char(out, 'n');
    } else if c == '\u{0C}' {
        push_char(out, '\\');
        push_char(out, 'f');
    } else if c == '\u{0D}' {
        push_char(out, '\\');
        push_char(out, 'r');
    } else if (c as u32) < 0x20 {
        let v: u32 = c as u32;
        push_char(out, '\\');
        push_char(out, 'u');
        push_char(out, '0');
        push_char(out, '0');
        push_char(out, hex_char(v / 16));
        push_char(out, hex_char(v % 16));
    } else {
        push_char(out, c);
    }
    assert(out@ =~= start + escaped_char(c));
}

/// Appends `s` as a canonical JSON string literal: in double quotes,
/// escaping only `"`, `\` and the C0 controls (the short forms
/// `\b \t \n \f \r`, `\u00xx` otherwise); every other character, non-ASCII
/// included, is written literally.
pub fn write_string(s: &str, out: &mut String)
    ensures
        final(out)@ == old(out)@ + json_string(s@),
{
    let ghost start = out@;
    let chars = crate::text::chars_of(s);
    push_char(out, '"');
    let mut i: usize = 0;
    while i < chars.len()
        invariant
            i <= chars@.len(),
            chars@ == s@,
            out@ == start + seq!['"'] + escaped(chars@.take(i as int)),
        decreases chars@.len() - i,
    {
        let ghost before = out@;
        write_escaped_char(chars[i], out);
        assert(chars@.take(i as int + 1).drop_last() =~= chars@.take(i as int));
        assert(out@ =~= start + seq!['"'] + escaped(chars@.take(i as int + 1)));
        i = i + 1;
    }
    assert(chars@.take(i as int) =~= s@);
    push_char(out, '"');
    assert(out@ =~= start + json_string(s@));
}

/// The UTF-16 code units of one character: one unit inside the basic
/// multilingual plane, a surrogate pair above it.
pub open spec fn char_units(c: char) -> Seq<u16> {
    let v = c as u32;
    if v < 0x10000 {
        seq![v as u16]
    } else {
        seq![(0xD800 + (v - 0x10000) / 1024) as u16, (0xDC00 + (v - 0x10000) % 1024) as u16]
    }
}

/// The UTF-16 encoding of `s`.
pub open spec fn utf16_units(s: Seq<char>) -> Seq<u16>
    decreases s.len(),
{
    if s.len() == 0 {
        Seq::empty()
    } else {
        utf16_units(s.drop_last()) + char_units(s.last())
    }
}

/// Whether code-unit sequence `a` comes strictly before `b` in lexicographic
/// order (a proper prefix comes first).
pub open spec fn units_before(a: Seq<u16>, b: Seq<u16>) -> bool
    decreases a.len(),
{
    if a.len() == 0 {
        b.len() > 0
    } else if b.len() == 0 {
        false
    } else if a[0] != b[0] {
        a[0] < b[0]
    } else {
        units_before(a.drop_first(), b.drop_first())
    }
}

/// The UTF-16 code units of `s`, in order.
pub fn utf16_of(s: &str) -> (v: Vec<u16>)
    ensures
        v@ == utf16_units(s@),
{
    let chars = crate::text::chars_of(s);
    let mut v: Vec<u16> = Vec::new();
    let mut i: usize = 0;
    while i < chars.len()
        invariant
            i <= chars@.len(),
            chars@ == s@,
            v@ == utf16_units(chars@.take(i as int)),
        decreases chars@.len() - i,
    {
        let c = chars[i];
        let x: u32 = c as u32;
        if x < 0x10000 {
            v.push(x as u16);
        } else {
            let w: u32 = x - 0x10000;
            v.push((0xD800 + w / 1024) as u16);
            v.push((0xDC00 + w % 1024) as u16);
        }
        assert(chars@.take(i as int + 1).drop_last() =~= chars@.take(i as int));
        assert(v@ =~= utf16_units(chars@.take(i as int + 1)));
        i = i + 1;
    }
    assert(chars@.take(i as int) =~= s@);
    v
}

/// Dropping a common prefix changes neither the order nor equality.
proof fn lemma_units_common_prefix(a: Seq<u16>, b: Seq<u16>, i: int)
    requires
        0 <= i < a.len(),
        i < b.len(),
        a[i] == b[i],
    ensures
        units_before(a.skip(i), b.skip(i)) == units_before(a.skip(i + 1), b.skip(i + 1)),
        (a.skip(i) == b.skip(i)) == (a.skip(i + 1) == b.skip(i + 1)),
{
    assert(a.skip(i).drop_first() =~= a.skip(i + 1));
    assert(b.skip(i).drop_first() =~= b.skip(i + 1));
    if a.skip(i + 1) == b.skip(i + 1) {
        assert(a.len() == b.len()) by {
            assert(a.skip(i + 1).len() == b.skip(i + 1).len());
        }
        assert forall|k: int| 0 <= k < a.skip(i).len() implies a.skip(i)[k] == b.skip(i)[k] by {
            if k > 0 {
                assert(a.skip(i)[k] == a.skip(i + 1)[k - 1]);
                assert(b.skip(i)[k] == b.skip(i + 1)[k - 1]);
            }
        }
        assert(a.skip(i) =~= b.skip(i));
    }
}

/// Compares code-unit sequences lexicographically: `-1`, `0` or `1` as `x`
/// comes before, equals or comes after `y`.
fn compare_units(x: &Vec<u16>, y: &Vec<u16>) -> (r: i8)
    ensures
        (r == -1) == units_before(x@, y@),
        (r == 0) == (x@ == y@),
        (r == 1) == units_before(y@, x@),
        -1 <= r <= 1,
{
    let mut i: usize = 0;
    proof {
        assert(x@.skip(0) =~= x@);
        assert(y@.skip(0) =~= y@);
    }
    while i < x.len() && i < y.len()
        invariant
            i <= x@.len(),
            i <= y@.len(),
            units_before(x@, y@) == units_before(x@.skip(i as int), y@.skip(i as int)),
            units_before(y@, x@) == units_before(y@.skip(i as int), x@.skip(i as int)),
            (x@ == y@) == (x@.skip(i as int) == y@.skip(i as int)),
        decreases x@.len() - i,
    {
        if x[i] != y[i] {
            proof {
                assert(x@.skip(i as int)[0] == x@[i as int]);
                assert(y@.skip(i as int)[0] == y@[i as int]);
                assert(x@.skip(i as int) != y@.skip(i as int));
            }
            if x[i] < y[i] {
                return -1;
            } else {
                return 1;
            }
        }
        proof {
            lemma_units_common_prefix(x@, y@, i as int);
            lemma_units_common_prefix(y@, x@, i as int);
        }
        i = i + 1;
    }
    if i < y.len() {
        proof {
            assert(x@.skip(i as int).len() == 0);
            assert(x@.skip(i as int) != y@.skip(i as int));
        }
        -1
    } else if i < x.len() {
        proof {
            assert(y@.skip(i as int).len() == 0);
            assert(x@.skip(i as int) != y@.skip(i as int));
        }
        1
    } else {
        proof {
            assert(x@.skip(i as int) =~= y@.skip(i as int));
        }
        0
    }
}

/// Compares two strings by their UTF-16 code-unit sequences, the order in
/// which canonical JSON writes object keys.
pub fn cmp_utf16(a: &str, b: &str) -> (r: std::cmp::Ordering)
    ensures
        (r == std::cmp::Ordering::Less) == units_before(utf16_units(a@), utf16_units(b@)),
        (r == std::cmp::Ordering::Equal) == (utf16_units(a@) == utf16_units(b@)),
        (r == std::cmp::Ordering::Greater) == units_before(utf16_units(b@), utf16_units(a@)),
{
    let x = utf16_of(a);
    let y = utf16_of(b);
    let d = compare_units(&x, &y);
    if d < 0 {
        std::cmp::Ordering::Less
    } else if d == 0 {
        std::cmp::Ordering::Equal
    } else {
        std::cmp::Ordering::Greater
    }
}


/// Code-unit order is a strict total order.
pub proof fn lemma_units_order(a: Seq<u16>, b: Seq<u16>, c: Seq<u16>)
    ensures
        !units_before(a, a),
        units_before(a, b) ==> !units_before(b, a),
        units_before(a, b) && units_before(b, c) ==> units_before(a, c),
        a == b || units_before(a, b) || units_before(b, a),
    decreases a.len(),
{
    if a.len() > 0 && b.len() > 0 {
        if c.len() > 0 {
            lemma_units_order(a.drop_first(), b.drop_first(), c.drop_first());
        } else {
            lemma_units_order(a.drop_first(), b.drop_first(), c);
        }
        if a[0] == b[0] && a.drop_first() == b.drop_first() {
            assert(a =~= seq![a[0]] + a.drop_first());
            assert(b =~= seq![b[0]] + b.drop_first());
        }
    } else if a.len() == 0 && b.len() == 0 {
        assert(a =~= b);
    } else if a.len() > 0 {
        lemma_units_order(a.drop_first(), a.drop_first(), a.drop_first());
    }
}

/// The last code unit of an encoded character tells how many units it
/// took: a low surrogate ends a pair, anything else is a whole character.
proof fn lemma_char_units_shape(ch: char)
    ensures
        (ch as u32) < 0x10000 ==> char_units(ch).len() == 1 && !(0xDC00 <= char_units(ch)[0] <= 0xDFFF) && char_units(ch)[0]
            == ch as u32,
        (ch as u32) >= 0x10000 ==> char_units(ch).len() == 2 && 0xDC00 <= char_units(ch)[1] <= 0xDFFF && 0xD800 <= char_units(
            ch,
        )[0] <= 0xDBFF,
{
    let v = ch as u32;
    if v >= 0x10000 {
        assert(v <= 0x10FFFF);
        let w = v - 0x10000;
        assert(w / 1024 <= 0x3FF) by (nonlinear_arith)
            requires
                0 <= w <= 0xFFFFF,
        ;
        assert(w % 1024 < 1024) by (nonlinear_arith);
    }
}

/// Two characters with the same encoding are the same character.
proof fn lemma_char_units_injective(x: char, y: char)
    requires
        char_units(x) == char_units(y),
    ensures
        x == y,
{
    lemma_char_units_shape(x);
    lemma_char_units_shape(y);
    let v = x as u32;
    let u = y as u32;
    if v >= 0x10000 && u >= 0x10000 {
        let w1 = (v - 0x10000) as int;
        let w2 = (u - 0x10000) as int;
        assert(char_units(x)[0] == char_units(y)[0]);
        assert(char_units(x)[1] == char_units(y)[1]);
        assert(w1 / 1024 == w2 / 1024 && w1 % 1024 == w2 % 1024);
        assert(w1 == 1024 * (w1 / 1024) + w1 % 1024) by (nonlinear_arith);
        assert(w2 == 1024 * (w2 / 1024) + w2 % 1024) by (nonlinear_arith);
    } else if v < 0x10000 && u >= 0x10000 {
        assert(char_units(x).len() != char_units(y).len());
    } else if v >= 0x10000 && u < 0x10000 {
        assert(char_units(x).len() != char_units(y).len());
    }
    vstd::utf8::char_u32_cast(x, v);
    vstd::utf8::char_u32_cast(y, u);
}

/// The UTF-16 encoding tells strings apart.
pub proof fn lemma_utf16_injective(a: Seq<char>, b: Seq<char>)
    requires
        utf16_units(a) == utf16_units(b),
    ensures
        a == b,
    decreases a.len() + b.len(),
{
    if a.len() == 0 || b.len() == 0 {
        if a.len() > 0 {
            lemma_char_units_shape(a.last());
            assert(utf16_units(a).len() > 0);
        } else if b.len() > 0 {
            lemma_char_units_shape(b.last());
            assert(utf16_units(b).len() > 0);
        }
        assert(a =~= b);
    } else {
        let ua = utf16_units(a.drop_last());
        let ub = utf16_units(b.drop_last());
        let ca = char_units(a.last());
        let cb = char_units(b.last());
        let u = utf16_units(a);
        assert(u == ua + ca);
        assert(u == ub + cb);
        lemma_char_units_shape(a.last());
        lemma_char_units_shape(b.last());
        assert(u.last() == ca.last());
        assert(u.last() == cb.last());
        assert(ca.len() == cb.len());
        assert(ca =~= u.subrange(u.len() - ca.len(), u.len() as int));
        assert(cb =~= u.subrange(u.len() - cb.len(), u.len() as int));
        assert(ua =~= u.subrange(0, u.len() - ca.len()));
        assert(ub =~= u.subrange(0, u.len() - cb.len()));
        lemma_char_units_injective(a.last(), b.last());
        lemma_utf16_injective(a.drop_last(), b.drop_last());
        assert(a =~= a.drop_last().push(a.last()));
        assert(b =~= b.drop_last().push(b.last()));
    }
}

/// Canonical key order is a strict total order on strings: no string comes
/// before itself, two strings are never each before the other, the order
/// is transitive, and of two different strings one comes first. So sorting
/// keys with [`cmp_utf16`] gives one order whatever the input order.
pub proof fn law_utf16_key_order(a: Seq<char>, b: Seq<char>, c: Seq<char>)
    ensures
        !units_before(utf16_units(a), utf16_units(a)),
        units_before(utf16_units(a), utf16_units(b)) ==> !units_before(utf16_units(b), utf16_units(a)),
        units_before(utf16_units(a), utf16_units(b)) && units_before(utf16_units(b), utf16_units(c)) ==> units_before(
            utf16_units(a),
            utf16_units(c),
        ),
        a == b || units_before(utf16_units(a), utf16_units(b)) || units_before(utf16_units(b), utf16_units(a)),
        utf16_units(a) == utf16_units(b) ==> a == b,
{
    lemma_units_order(utf16_units(a), utf16_units(b), utf16_units(c));
    if utf16_units(a) == utf16_units(b) {
        lemma_utf16_injective(a, b);
    }
}


/// The number of unset flags.
pub open spec fn unused_count(used: Seq<bool>) -> int
    decreases used.len(),
{
    if used.len() == 0 {
        0
    } else {
        unused_count(used.drop_last()) + if used.last() {
            0int
        } else {
            1int
        }
    }
}

/// Among the first `n` members not yet written, the first whose key comes
/// earliest in UTF-16 code-unit order, or `-1`.
pub open spec fn min_unused(es: Seq<(String, Json)>, used: Seq<bool>, n: int) -> int
    decreases n,
{
    if n <= 0 {
        -1
    } else {
        let b = min_unused(es, used, n - 1);
        if used[n - 1] {
            b
        } else if b < 0 || units_before(utf16_units(es[n - 1].0@), utf16_units(es[b].0@)) {
            n - 1
        } else {
            b
        }
    }
}

/// The canonical text of a JSON value: `null`, `true` and `false` as
/// written, a number as the text it holds, a string as a canonical string
/// literal, an array's items joined by commas in brackets, and an object's
/// members, each `key:value`, joined by commas in braces, in UTF-16
/// code-unit order of their keys (the earlier member first among equal
/// keys).
pub open spec fn canonical_text(j: Json) -> Seq<char>
    decreases j, 0int,
{
    match j {
        Json::Null => "null"@,
        Json::Bool(b) => if b {
            "true"@
        } else {
            "false"@
        },
        Json::Number(t) => t@,
        Json::String(s) => json_string(s@),
        Json::Array(items) => seq!['['] + items_text(items@, items@.len() as int) + seq![']'],
        Json::Object(es) => seq!['{'] + members_text(es@, Seq::new(es@.len(), |i: int| false), es@.len() as int)
            + seq!['}'],
    }
}

/// The canonical texts of the first `n` items, joined by commas.
pub open spec fn items_text(items: Seq<Json>, n: int) -> Seq<char>
    decreases items, n,
{
    if n <= 0 || n > items.len() {
        Seq::empty()
    } else {
        items_text(items, n - 1) + (if n > 1 {
            seq![',']
        } else {
            Seq::empty()
        }) + canonical_text(items[n - 1])
    }
}

/// The `left` members not marked in `used`, each `key:value`, joined by
/// commas, in key order.
pub open spec fn members_text(es: Seq<(String, Json)>, used: Seq<bool>, left: int) -> Seq<char>
    decreases es, left,
{
    if left <= 0 || used.len() != es.len() {
        Seq::empty()
    } else {
        let m = min_unused(es, used, es.len() as int);
        if m < 0 {
            Seq::empty()
        } else {
            proof {
                lemma_min_unused(es, used, es.len() as int);
            }
            json_string(es[m].0@) + seq![':'] + canonical_text(es[m].1) + (if left > 1 {
                seq![',']
            } else {
                Seq::empty()
            }) + members_text(es, used.update(m, true), left - 1)
        }
    }
}

/// `min_unused` names an unwritten member, and one exists while some flag
/// is unset.
pub proof fn lemma_min_unused(es: Seq<(String, Json)>, used: Seq<bool>, n: int)
    requires
        0 <= n <= used.len(),
    ensures
        -1 <= min_unused(es, used, n) < n,
        min_unused(es, used, n) >= 0 ==> !used[min_unused(es, used, n)],
        unused_count(used.take(n)) > 0 ==> min_unused(es, used, n) >= 0,
    decreases n,
{
    if n > 0 {
        lemma_min_unused(es, used, n - 1);
        assert(used.take(n).drop_last() =~= used.take(n - 1));
    } else {
        assert(used.take(0) =~= Seq::<bool>::empty());
    }
}

/// Marking an unset flag lowers the count by one.
proof fn lemma_unused_update(used: Seq<bool>, m: int)
    requires
        0 <= m < used.len(),
        !used[m],
    ensures
        unused_count(used.update(m, true)) == unused_count(used) - 1,
    decreases used.len(),
{
    let u = used.update(m, true);
    if m == used.len() - 1 {
        assert(u.drop_last() =~= used.drop_last());
    } else {
        assert(u.drop_last() =~= used.drop_last().update(m, true));
        lemma_unused_update(used.drop_last(), m);
    }
}

/// Appends the canonical text of `value` (see [`canonical_text`]).
pub fn write_canonical(value: &Json, out: &mut String)
    ensures
        final(out)@ == old(out)@ + canonical_text(*value),
    decreases value,
{
    let ghost start = out@;
    match value {
        Json::Null => {
            crate::text::push_str(out, "null");
            proof {
                reveal_strlit("null");
            }
        },
        Json::Bool(b) => {
            if *b {
                crate::text::push_str(out, "true");
                proof {
                    reveal_strlit("true");
                }
            } else {
                crate::text::push_str(out, "false");
                proof {
                    reveal_strlit("false");
                }
            }
        },
        Json::Number(t) => crate::text::push_str(out, t.as_str()),
        Json::String(s) => write_string(s.as_str(), out),
        Json::Array(items) => {
            push_char(out, '[');
            let mut i: usize = 0;
            while i < items.len()
                invariant
                    i <= items@.len(),
                    *value == Json::Array(*items),
                    out@ == start + seq!['['] + items_text(items@, i as int),
                decreases items@.len() - i,
            {
                if i > 0 {
                    push_char(out, ',');
                }
                proof {
                    crate::json::lemma_json_parts_decrease(*value, i as int);
                }
                write_canonical(&items[i], out);
                proof {
                    assert(out@ =~= start + seq!['['] + items_text(items@, i as int + 1));
                }
                i = i + 1;
            }
            push_char(out, ']');
            proof {
                assert(out@ =~= start + canonical_text(*value));
            }
        },
        Json::Object(es) => {
            push_char(out, '{');
            let n = es.len();
            let mut units: Vec<Vec<u16>> = Vec::new();
            let mut used: Vec<bool> = Vec::new();
            let mut k: usize = 0;
            while k < n
                invariant
                    k <= n == es@.len(),
                    units@.len() == k,
                    used@.len() == k,
                    forall|t: int| 0 <= t < k ==> (#[trigger] units@[t])@ == utf16_units(es@[t].0@),
                    forall|t: int| 0 <= t < k ==> !#[trigger] used@[t],
                decreases n - k,
            {
                units.push(utf16_of(es[k].0.as_str()));
                used.push(false);
                k = k + 1;
            }
            let ghost used0 = used@;
            let ghost target = members_text(es@, used0, n as int);
            proof {
                assert(used0 =~= Seq::new(es@.len(), |i: int| false));
                assert forall|t: int| 0 <= t <= n implies #[trigger] unused_count(used0.take(t)) == t by {
                    lemma_all_unused(used0, t);
                }
                assert(used0.take(n as int) =~= used0);
            }
            let mut left: usize = n;
            while left > 0
                invariant
                    n == es@.len() == used@.len() == units@.len(),
                    *value == Json::Object(*es),
                    forall|t: int| 0 <= t < n ==> (#[trigger] units@[t])@ == utf16_units(es@[t].0@),
                    left <= n,
                    unused_count(used@) == left,
                    start + seq!['{'] + target == out@ + members_text(es@, used@, left as int),
                    target == members_text(es@, used0, n as int),
                decreases left,
            {
                let mut best: usize = n;
                let mut q: usize = 0;
                while q < n
                    invariant
                        q <= n == es@.len() == used@.len() == units@.len(),
                        forall|t: int| 0 <= t < n ==> (#[trigger] units@[t])@ == utf16_units(es@[t].0@),
                        (if best == n { -1 } else { best as int }) == min_unused(es@, used@, q as int),
                        best == n || best < q,
                    decreases n - q,
                {
                    if !used[q] {
                        if best == n || compare_units(&units[q], &units[best]) == -1 {
                            best = q;
                        }
                    }
                    q = q + 1;
                }
                proof {
                    lemma_min_unused(es@, used@, n as int);
                    assert(used@.take(n as int) =~= used@);
                }
                let m = best;
                proof {
                    crate::json::lemma_json_parts_decrease(*value, m as int);
                    lemma_unused_update(used@, m as int);
                }
                let ghost rest = members_text(es@, used@.update(m as int, true), left as int - 1);
                write_string(es[m].0.as_str(), out);
                push_char(out, ':');
                write_canonical(&es[m].1, out);
                if left > 1 {
                    push_char(out, ',');
                }
                used.set(m, true);
                left = left - 1;
                proof {
                    assert(start + seq!['{'] + target == out@ + members_text(es@, used@, left as int));
                }
            }
            push_char(out, '}');
            proof {
                assert(out@ =~= start + canonical_text(*value));
            }
        },
    }
}

/// With every flag unset, the first `t` hold `t` unset flags.
proof fn lemma_all_unused(used: Seq<bool>, t: int)
    requires
        0 <= t <= used.len(),
        forall|i: int| 0 <= i < used.len() ==> !used[i],
    ensures
        unused_count(used.take(t)) == t,
    decreases t,
{
    if t > 0 {
        lemma_all_unused(used, t - 1);
        assert(used.take(t).drop_last() =~= used.take(t - 1));
    }
}
} // verus!
