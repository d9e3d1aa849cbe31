//! Named-range `name` and `ref` validity.
//!
//! A `name` must match `^[A-Za-z_][A-Za-z0-9_]*$`, must not parse as an A1
//! address or an R1C1-style reference, and must not be a boolean literal.
//! A `ref` must already be in canonical sheet-qualified form (`Sheet!A1` /
//! `Sheet!A1:B2`): top-left-first endpoints, single-cell collapse of
//! degenerate ranges, sheet name single-quoted **iff** it is not a bare
//! identifier or would parse as an A1 address (embedded `'` doubled).

use vstd::prelude::*;

use crate::address::{a1_text, lemma_a1_shape, parsed_a1, parse_a1_chars, Address, is_upper};
use crate::text::{
    chars_of, debug_quoted, find_char, is_digit, push_char, push_chars, push_str,
    spec_debug_quoted, string_from_chars, sub_chars,
};

verus! {

/// Whether `c` is an ASCII letter.
pub open spec fn is_ascii_alpha(c: char) -> bool {
    ('A' <= c && c <= 'Z') || ('a' <= c && c <= 'z')
}

/// Whether `c` may continue an identifier: `[A-Za-z0-9_]`.
pub open spec fn is_ident_char(c: char) -> bool {
    c == '_' || is_ascii_alpha(c) || is_digit(c)
}

/// `^[A-Za-z_][A-Za-z0-9_]*$`.
pub open spec fn spec_is_bare_identifier(s: Seq<char>) -> bool {
    &&& s.len() >= 1
    &&& (s[0] == '_' || is_ascii_alpha(s[0]))
    &&& forall|i: int| 1 <= i < s.len() ==> is_ident_char(#[trigger] s[i])
}

/// `R` digits `C` digits, case-insensitive (`R1C1`, `r2c5`).
pub open spec fn spec_looks_like_r1c1(s: Seq<char>) -> bool {
    &&& s.len() >= 1
    &&& (s[0] == 'R' || s[0] == 'r')
    &&& exists|p: int|
        #![trigger s[p]]
        2 <= p < s.len() - 1 && (s[p] == 'C' || s[p] == 'c') && (forall|j: int|
            1 <= j < p ==> is_digit(#[trigger] s[j])) && (forall|j: int|
            p < j < s.len() ==> is_digit(#[trigger] s[j]))
}

/// ASCII lowercase of `c` (non-ASCII-letters unchanged).
pub open spec fn ascii_lower(c: char) -> char {
    if 'A' <= c && c <= 'Z' {
        (c as int + 32) as char
    } else {
        c
    }
}

/// Whether `s` equals `t` ignoring ASCII case.
pub open spec fn eq_ignore_ascii_case(s: Seq<char>, t: Seq<char>) -> bool {
    s.len() == t.len() && forall|i: int| 0 <= i < s.len() ==> ascii_lower(#[trigger] s[i]) == ascii_lower(t[i])
}

/// `true` or `false`, in any ASCII case.
pub open spec fn spec_is_boolean_literal(s: Seq<char>) -> bool {
    eq_ignore_ascii_case(s, seq!['t', 'r', 'u', 'e']) || eq_ignore_ascii_case(
        s,
        seq!['f', 'a', 'l', 's', 'e'],
    )
}

/// A syntactically valid named-range (or table, or table-column) name.
pub open spec fn spec_is_valid_name(s: Seq<char>) -> bool {
    &&& spec_is_bare_identifier(s)
    &&& parsed_a1(s) is None
    &&& !spec_looks_like_r1c1(s)
    &&& !spec_is_boolean_literal(s)
}

/// `s` with every `'` doubled.
pub open spec fn double_quotes(s: Seq<char>) -> Seq<char>
    decreases s.len(),
{
    if s.len() == 0 {
        Seq::empty()
    } else {
        (if s[0] == '\'' {
            seq!['\'', '\'']
        } else {
            seq![s[0]]
        }) + double_quotes(s.drop_first())
    }
}

/// The canonical sheet token: bare if the name is a bare identifier and does
/// not parse as an A1 address; otherwise single-quoted with embedded `'`
/// doubled.
pub open spec fn spec_quote_sheet(s: Seq<char>) -> Seq<char> {
    if spec_is_bare_identifier(s) && parsed_a1(s) is None {
        s
    } else {
        seq!['\''] + double_quotes(s) + seq!['\'']
    }
}

/// Reads a quoted sheet name whose opening quote is already consumed: the
/// unescaped name and the index of its closing quote in `t`, or `None` if the
/// quote is never closed.
pub open spec fn unquote(t: Seq<char>) -> Option<(Seq<char>, int)>
    decreases t.len(),
{
    if t.len() == 0 {
        None
    } else if t[0] == '\'' {
        if t.len() > 1 && t[1] == '\'' {
            match unquote(t.skip(2)) {
                Some((x, n)) => Some((seq!['\''] + x, n + 2)),
                None => None,
            }
        } else {
            Some((Seq::empty(), 0))
        }
    } else {
        match unquote(t.skip(1)) {
            Some((x, n)) => Some((seq![t[0]] + x, n + 1)),
            None => None,
        }
    }
}

/// Whether `r` splits into sheet `sheet` and cell part `a1`: either
/// `'<sheet with '' escapes>'!<a1>` when `r` starts with a quote, or
/// `<sheet>!<a1>` with no `!` inside `sheet` otherwise.
pub open spec fn spec_split_ok(r: Seq<char>, sheet: Seq<char>, a1: Seq<char>) -> bool {
    if r.len() > 0 && r[0] == '\'' {
        r == seq!['\''] + double_quotes(sheet) + seq!['\'', '!'] + a1
    } else {
        !sheet.contains('!') && r == sheet + seq!['!'] + a1
    }
}

/// A canonical cell part: `A1`, or `A1:B2` with the first corner strictly
/// top-left of (and distinct from) the second.
pub open spec fn spec_canonical_a1(part: Seq<char>) -> bool {
    ||| exists|a: Address| a.wf() && part == a1_text(a)
    ||| exists|a: Address, b: Address|
        a.wf() && b.wf() && a.row <= b.row && a.column <= b.column && a != b && part == a1_text(a)
            + seq![':'] + a1_text(b)
}

/// Whether `r` is a canonical reference into the sheet named `sheet`.
pub open spec fn spec_canonical_ref(r: Seq<char>, sheet: Seq<char>) -> bool {
    exists|part: Seq<char>|
        spec_canonical_a1(part) && r == spec_quote_sheet(sheet) + seq!['!'] + part
}

/// The sheet and cell part of a splittable reference.
pub open spec fn spec_split(r: Seq<char>) -> Option<(Seq<char>, Seq<char>)> {
    if exists|x: Seq<char>, y: Seq<char>| spec_split_ok(r, x, y) {
        Some(choose|x: Seq<char>, y: Seq<char>| spec_split_ok(r, x, y))
    } else {
        None
    }
}

proof fn lemma_double_quotes_add(a: Seq<char>, b: Seq<char>)
    ensures
        double_quotes(a + b) == double_quotes(a) + double_quotes(b),
    decreases a.len(),
{
    if a.len() == 0 {
        assert(a + b =~= b);
    } else {
        assert((a + b).drop_first() =~= a.drop_first() + b);
        lemma_double_quotes_add(a.drop_first(), b);
    }
}

/// Escaping then reading back the quoted name recovers it.
proof fn lemma_unquote_double_quotes(x: Seq<char>, z: Seq<char>)
    requires
        z.len() == 0 || z[0] != '\'',
    ensures
        unquote(double_quotes(x) + seq!['\''] + z) == Some((x, double_quotes(x).len() as int)),
    decreases x.len(),
{
    let t = double_quotes(x) + seq!['\''] + z;
    if x.len() == 0 {
        assert(double_quotes(x) =~= Seq::<char>::empty());
        assert(t[0] == '\'');
        assert(t.len() == 1 || t[1] != '\'');
    } else {
        let rest = x.drop_first();
        lemma_unquote_double_quotes(rest, z);
        let tr = double_quotes(rest) + seq!['\''] + z;
        if x[0] == '\'' {
            assert(t =~= seq!['\'', '\''] + tr);
            assert(t.skip(2) =~= tr);
            assert(seq!['\''] + rest =~= x);
        } else {
            assert(t =~= seq![x[0]] + tr);
            assert(t.skip(1) =~= tr);
            assert(seq![x[0]] + rest =~= x);
        }
    }
}

/// What a successful [`unquote`] says about its input.
proof fn lemma_unquote_sound(t: Seq<char>)
    requires
        unquote(t) is Some,
    ensures
        ({
            let (x, n) = unquote(t).unwrap();
            &&& 0 <= n < t.len()
            &&& t.take(n) == double_quotes(x)
            &&& t[n] == '\''
            &&& (n + 1 == t.len() || t[n + 1] != '\'')
        }),
    decreases t.len(),
{
    if t[0] == '\'' {
        if t.len() > 1 && t[1] == '\'' {
            lemma_unquote_sound(t.skip(2));
            let (x, n) = unquote(t.skip(2)).unwrap();
            assert(t.take(n + 2) =~= seq!['\'', '\''] + t.skip(2).take(n));
            let y = seq!['\''] + x;
            assert(y.drop_first() =~= x);
            assert(double_quotes(y) == seq!['\'', '\''] + double_quotes(x));
        } else {
            assert(t.take(0) =~= Seq::<char>::empty());
            assert(double_quotes(Seq::<char>::empty()) =~= Seq::<char>::empty());
        }
    } else {
        lemma_unquote_sound(t.skip(1));
        let (x, n) = unquote(t.skip(1)).unwrap();
        assert(t.take(n + 1) =~= seq![t[0]] + t.skip(1).take(n));
        let y = seq![t[0]] + x;
        assert(y.drop_first() =~= x);
        assert(double_quotes(y) == seq![t[0]] + double_quotes(x));
    }
}

/// A reference splits in at most one way.
pub proof fn lemma_split_unique(r: Seq<char>, x1: Seq<char>, y1: Seq<char>, x2: Seq<char>, y2: Seq<char>)
    requires
        spec_split_ok(r, x1, y1),
        spec_split_ok(r, x2, y2),
    ensures
        x1 == x2,
        y1 == y2,
{
    if r.len() > 0 && r[0] == '\'' {
        let t = r.drop_first();
        assert(t =~= double_quotes(x1) + seq!['\''] + (seq!['!'] + y1));
        assert(t =~= double_quotes(x2) + seq!['\''] + (seq!['!'] + y2));
        lemma_unquote_double_quotes(x1, seq!['!'] + y1);
        lemma_unquote_double_quotes(x2, seq!['!'] + y2);
        let n = double_quotes(x1).len() as int;
        assert(y1 =~= r.skip(n + 3));
        assert(y2 =~= r.skip(n + 3));
    } else {
        let n1 = x1.len() as int;
        let n2 = x2.len() as int;
        if n1 < n2 {
            assert(r[n1] == '!');
            assert(r[n1] == x2[n1]);
            assert(x2.contains('!'));
        } else if n2 < n1 {
            assert(r[n2] == '!');
            assert(r[n2] == x1[n2]);
            assert(x1.contains('!'));
        }
        assert(x1 =~= r.take(n1));
        assert(x2 =~= r.take(n1));
        assert(y1 =~= r.skip(n1 + 1));
        assert(y2 =~= r.skip(n1 + 1));
    }
}

/// Splitting a reference built from a canonical sheet token gives back the
/// sheet name and the cell part, whatever they are.
pub proof fn law_split_after_quote(sheet: Seq<char>, a1: Seq<char>)
    ensures
        spec_split_ok(spec_quote_sheet(sheet) + seq!['!'] + a1, sheet, a1),
        spec_split(spec_quote_sheet(sheet) + seq!['!'] + a1) == Some((sheet, a1)),
{
    let r = spec_quote_sheet(sheet) + seq!['!'] + a1;
    if spec_is_bare_identifier(sheet) && parsed_a1(sheet) is None {
        assert(r[0] == sheet[0]);
        assert(!sheet.contains('!')) by {
            if sheet.contains('!') {
                let i = choose|i: int| 0 <= i < sheet.len() && sheet[i] == '!';
                if i > 0 {
                    assert(is_ident_char(sheet[i]));
                }
            }
        }
    } else {
        assert(r =~= seq!['\''] + double_quotes(sheet) + seq!['\'', '!'] + a1);
    }
    let (x, y) = choose|x: Seq<char>, y: Seq<char>| spec_split_ok(r, x, y);
    lemma_split_unique(r, sheet, a1, x, y);
}

/// A canonical reference names exactly one sheet.
pub proof fn lemma_canonical_ref_unique(r: Seq<char>, s1: Seq<char>, s2: Seq<char>)
    requires
        spec_canonical_ref(r, s1),
        spec_canonical_ref(r, s2),
    ensures
        s1 == s2,
{
    let p1 = choose|part: Seq<char>| spec_canonical_a1(part) && r == spec_quote_sheet(s1) + seq!['!'] + part;
    let p2 = choose|part: Seq<char>| spec_canonical_a1(part) && r == spec_quote_sheet(s2) + seq!['!'] + part;
    law_split_after_quote(s1, p1);
    law_split_after_quote(s2, p2);
    lemma_split_unique(r, s1, p1, s2, p2);
}

fn is_ascii_alpha_exec(c: char) -> (b: bool)
    ensures
        b == is_ascii_alpha(c),
{
    ('A' <= c && c <= 'Z') || ('a' <= c && c <= 'z')
}

fn is_ident_char_exec(c: char) -> (b: bool)
    ensures
        b == is_ident_char(c),
{
    c == '_' || is_ascii_alpha_exec(c) || ('0' <= c && c <= '9')
}

fn bare_identifier_chars(s: &[char]) -> (b: bool)
    ensures
        b == spec_is_bare_identifier(s@),
{
    if s.len() == 0 {
        return false;
    }
    if !(s[0] == '_' || is_ascii_alpha_exec(s[0])) {
        return false;
    }
    let mut i: usize = 1;
    while i < s.len()
        invariant
            1 <= i <= s@.len(),
            forall|j: int| 1 <= j < i ==> is_ident_char(#[trigger] s@[j]),
        decreases s@.len() - i,
    {
        if !is_ident_char_exec(s[i]) {
            return false;
        }
        i = i + 1;
    }
    true
}

/// `^[A-Za-z_][A-Za-z0-9_]*$`.
pub fn is_bare_identifier(s: &str) -> (b: bool)
    ensures
        b == spec_is_bare_identifier(s@),
{
    let v = chars_of(s);
    bare_identifier_chars(v.as_slice())
}

fn looks_like_r1c1_chars(s: &[char]) -> (b: bool)
    ensures
        b == spec_looks_like_r1c1(s@),
{
    if s.len() == 0 || !(s[0] == 'R' || s[0] == 'r') {
        return false;
    }
    // The first `C` after the leading `R`.
    let mut p: usize = 1;
    while p < s.len() && !(s[p] == 'C' || s[p] == 'c')
        invariant
            1 <= p <= s@.len(),
            forall|j: int| 1 <= j < p ==> !(s@[j] == 'C' || s@[j] == 'c'),
        decreases s@.len() - p,
    {
        p = p + 1;
    }
    if p == s.len() {
        proof {
            assert forall|q: int| 2 <= q < s@.len() - 1 implies !(s@[q] == 'C' || s@[q] == 'c') by {}
        }
        return false;
    }
    let mut ok = p >= 2 && p + 1 < s.len();
    let mut j: usize = 1;
    while j < s.len()
        invariant
            1 <= p < s@.len(),
            j <= s@.len(),
            1 <= j,
            ok ==> (p >= 2 && p + 1 < s@.len()),
            ok ==> forall|k: int| 1 <= k < j && k != p ==> is_digit(#[trigger] s@[k]),
            !ok ==> (p < 2 || p + 1 >= s@.len() || exists|k: int|
                1 <= k < j && k != p && !is_digit(#[trigger] s@[k])),
        decreases s@.len() - j,
    {
        if j != p && !('0' <= s[j] && s[j] <= '9') {
            ok = false;
        }
        j = j + 1;
    }
    proof {
        if ok {
            assert(2 <= p < s@.len() - 1 && (s@[p as int] == 'C' || s@[p as int] == 'c'));
        } else {
            assert forall|q: int|
                #![trigger s@[q]]
                2 <= q < s@.len() - 1 && (s@[q] == 'C' || s@[q] == 'c') implies !((forall|k: int|
                1 <= k < q ==> is_digit(#[trigger] s@[k])) && (forall|k: int|
                q < k < s@.len() ==> is_digit(#[trigger] s@[k]))) by {
                assert(q >= p);
                if q > p {
                    assert(!is_digit(s@[p as int]));
                } else {
                    let k = choose|k: int| 1 <= k < s@.len() && k != p && !is_digit(#[trigger] s@[k]);
                    if k < q {
                    } else {
                    }
                }
            }
        }
    }
    ok
}

fn ascii_lower_exec(c: char) -> (r: char)
    ensures
        r == ascii_lower(c),
{
    if 'A' <= c && c <= 'Z' {
        ((c as u8) + 32) as char
    } else {
        c
    }
}

fn eq_ignore_ascii_case_chars(s: &[char], t: &[char]) -> (b: bool)
    ensures
        b == eq_ignore_ascii_case(s@, t@),
{
    if s.len() != t.len() {
        return false;
    }
    let mut i: usize = 0;
    while i < s.len()
        invariant
            s@.len() == t@.len(),
            i <= s@.len(),
            forall|j: int| 0 <= j < i ==> ascii_lower(#[trigger] s@[j]) == ascii_lower(t@[j]),
        decreases s@.len() - i,
    {
        if ascii_lower_exec(s[i]) != ascii_lower_exec(t[i]) {
            return false;
        }
        i = i + 1;
    }
    true
}

fn is_boolean_literal_chars(s: &[char]) -> (b: bool)
    ensures
        b == spec_is_boolean_literal(s@),
{
    let t = ['t', 'r', 'u', 'e'];
    let f = ['f', 'a', 'l', 's', 'e'];
    assert(t@ =~= seq!['t', 'r', 'u', 'e']);
    assert(f@ =~= seq!['f', 'a', 'l', 's', 'e']);
    eq_ignore_ascii_case_chars(s, t.as_slice()) || eq_ignore_ascii_case_chars(s, f.as_slice())
}

/// Whether `name` is a syntactically valid named-range name:
/// `^[A-Za-z_][A-Za-z0-9_]*$`, not an A1 address, not an R1C1-style
/// reference, not a boolean literal.
pub fn is_valid_name(name: &str) -> (b: bool)
    ensures
        b == spec_is_valid_name(name@),
{
    if !is_bare_identifier(name) {
        return false;
    }
    if looks_like_a1(name) || looks_like_r1c1(name) || is_boolean_literal(name) {
        return false;
    }
    true
}

/// Whether `s` parses as a plain A1 address (e.g. `A1`, `BC42`), with the
/// same bounds-checked grammar as cell keys.
pub fn looks_like_a1(s: &str) -> (b: bool)
    ensures
        b == parsed_a1(s@) is Some,
{
    crate::address::parse_a1(s).is_some()
}

/// Whether `s` has the R1C1 reference shape: `R`, digits, `C`, digits, in
/// either case.
pub fn looks_like_r1c1(s: &str) -> (b: bool)
    ensures
        b == spec_looks_like_r1c1(s@),
{
    let v = chars_of(s);
    looks_like_r1c1_chars(v.as_slice())
}

/// Whether `s` is `true` or `false` in any case.
pub fn is_boolean_literal(s: &str) -> (b: bool)
    ensures
        b == spec_is_boolean_literal(s@),
{
    let v = chars_of(s);
    is_boolean_literal_chars(v.as_slice())
}

pub(crate) fn valid_name_chars(v: &[char]) -> (b: bool)
    ensures
        b == spec_is_valid_name(v@),
{
    if !bare_identifier_chars(v) {
        return false;
    }
    if parse_a1_chars(v).is_some() || looks_like_r1c1_chars(v) || is_boolean_literal_chars(v) {
        proof {
            if parse_a1_chars_some(v@) {
            }
        }
        return false;
    }
    proof {
        assert(parsed_a1(v@) is None);
    }
    true
}

/// Whether `parsed_a1` accepts `s` (a proof-side view of the parser contract).
spec fn parse_a1_chars_some(s: Seq<char>) -> bool {
    parsed_a1(s) is Some
}

fn quote_sheet_chars(sheet: &[char]) -> (r: Vec<char>)
    ensures
        r@ == spec_quote_sheet(sheet@),
{
    if bare_identifier_chars(sheet) && parse_a1_chars(sheet).is_none() {
        let mut r: Vec<char> = Vec::new();
        let mut i: usize = 0;
        while i < sheet.len()
            invariant
                i <= sheet@.len(),
                r@ == sheet@.take(i as int),
            decreases sheet@.len() - i,
        {
            r.push(sheet[i]);
            assert(sheet@.take(i as int + 1) =~= sheet@.take(i as int).push(sheet@[i as int]));
            i = i + 1;
        }
        assert(sheet@.take(sheet@.len() as int) =~= sheet@);
        return r;
    }
    proof {
        if parsed_a1(sheet@) is None {
            assert(!spec_is_bare_identifier(sheet@));
        }
    }
    let mut r: Vec<char> = Vec::new();
    r.push('\'');
    let mut i: usize = 0;
    while i < sheet.len()
        invariant
            i <= sheet@.len(),
            r@ == seq!['\''] + double_quotes(sheet@.take(i as int)),
        decreases sheet@.len() - i,
    {
        proof {
            lemma_double_quotes_add(sheet@.take(i as int), seq![sheet@[i as int]]);
            assert(sheet@.take(i as int + 1) =~= sheet@.take(i as int) + seq![sheet@[i as int]]);
            assert(seq![sheet@[i as int]].drop_first() =~= Seq::<char>::empty());
            assert(double_quotes(Seq::<char>::empty()) =~= Seq::<char>::empty());
        }
        if sheet[i] == '\'' {
            r.push('\'');
            r.push('\'');
        } else {
            r.push(sheet[i]);
        }
        i = i + 1;
    }
    r.push('\'');
    assert(sheet@.take(sheet@.len() as int) =~= sheet@);
    r
}

/// The canonical sheet token: bare if the name is a bare identifier and does
/// not parse as an A1 address; otherwise single-quoted with embedded `'`
/// doubled.
pub fn quote_sheet_if_needed(sheet: &str) -> (r: String)
    ensures
        r@ == spec_quote_sheet(sheet@),
{
    let v = chars_of(sheet);
    let q = quote_sheet_chars(v.as_slice());
    string_from_chars(q.as_slice())
}

/// Which splitting rule `r` breaks: 0 for an unterminated quoted sheet
/// name, 1 for a quoted name not followed by `!`, 2 for no `!` at all.
pub open spec fn split_failure(r: Seq<char>) -> u8 {
    if r.len() > 0 && r[0] == '\'' {
        if unquote(r.drop_first()) is None {
            0
        } else {
            1
        }
    } else {
        2
    }
}

/// The end of the message for a `ref` that does not split.
pub open spec fn split_error_tail(r: Seq<char>) -> Seq<char> {
    if split_failure(r) == 0 {
        " has an unterminated quoted sheet name"@
    } else if split_failure(r) == 1 {
        " must separate sheet and cell with '!'"@
    } else {
        " must be sheet-qualified (Sheet!A1)"@
    }
}

/// `ref <r:?><tail>`.
pub open spec fn ref_text(r: Seq<char>, tail: Seq<char>) -> Seq<char> {
    seq!['r', 'e', 'f', ' '] + spec_debug_quoted(r) + tail
}

/// The index of the first `:` in `part`, or `-1`.
pub open spec fn first_colon(part: Seq<char>) -> int {
    if exists|p: int| 0 <= p < part.len() && part[p] == ':' {
        choose|p: int| 0 <= p < part.len() && part[p] == ':' && forall|q: int| 0 <= q < p ==> part[q] != ':'
    } else {
        -1
    }
}

/// The message for a `ref` that is not canonical: the first rule it breaks,
/// checked in order: it splits into sheet and cell part; the start cell (up
/// to the first `:`) parses; the end cell parses; the range is not
/// degenerate; its corners are top-left first; and it is written exactly as
/// the canonical form.
pub open spec fn ref_error(r: Seq<char>) -> Seq<char> {
    match spec_split(r) {
        None => ref_text(r, split_error_tail(r)),
        Some((sheet, part)) => {
            let c = first_colon(part);
            let start = if c >= 0 { part.take(c) } else { part };
            if parsed_a1(start) is None {
                ref_text(r, " has an invalid start cell"@)
            } else if c >= 0 && parsed_a1(part.skip(c + 1)) is None {
                ref_text(r, " has an invalid end cell"@)
            } else if c >= 0 && parsed_a1(start) == parsed_a1(part.skip(c + 1)) {
                ref_text(
                    r,
                    " is not canonical: a degenerate range must collapse to the single-cell form (schema spec \u{a7}7)"@,
                )
            } else if c >= 0 && (parsed_a1(start).unwrap().row > parsed_a1(part.skip(c + 1)).unwrap().row
                || parsed_a1(start).unwrap().column > parsed_a1(part.skip(c + 1)).unwrap().column) {
                ref_text(r, " is not canonical: range endpoints must be top-left first (schema spec \u{a7}7)"@)
            } else {
                ref_text(r, " is not in canonical form (expected "@) + spec_debug_quoted(
                    spec_quote_sheet(sheet) + seq!['!'] + part,
                ) + ", schema spec \u{a7}7)"@
            }
        },
    }
}

/// `"ref " + r:? + tail`.
fn ref_message(r: &str, tail: &str) -> (m: String)
    ensures
        m@ == seq!['r', 'e', 'f', ' '] + spec_debug_quoted(r@) + tail@,
{
    let mut m = String::new();
    push_char(&mut m, 'r');
    push_char(&mut m, 'e');
    push_char(&mut m, 'f');
    push_char(&mut m, ' ');
    let q = debug_quoted(r);
    push_str(&mut m, q.as_str());
    push_str(&mut m, tail);
    assert(m@ =~= seq!['r', 'e', 'f', ' '] + spec_debug_quoted(r@) + tail@);
    m
}

/// Splits `Sheet!A1` / `'Quoted ''Name'!A1:B2` into (unquoted sheet, cell
/// part). Only splits: it does not check the cell part or canonical form.
pub fn split_sheet_ref(r: &str) -> (res: Result<(String, String), String>)
    ensures
        match res {
            Ok((sheet, a1)) => spec_split_ok(r@, sheet@, a1@),
            Err(m) => (forall|x: Seq<char>, y: Seq<char>| !spec_split_ok(r@, x, y)) && m@ == ref_text(
                r@,
                split_error_tail(r@),
            ),
        },
        res is Ok <==> spec_split(r@) is Some,
        res matches Ok((sheet, a1)) ==> spec_split(r@) == Some((sheet@, a1@)),
{
    let v = chars_of(r);
    let res = split_chars(v.as_slice());
    match res {
        Ok((sheet, a1)) => {
            let s = string_from_chars(sheet.as_slice());
            let a = string_from_chars(a1.as_slice());
            proof {
                let (x, y) = choose|x: Seq<char>, y: Seq<char>| spec_split_ok(r@, x, y);
                lemma_split_unique(r@, sheet@, a1@, x, y);
            }
            Ok((s, a))
        },
        Err(kind) => {
            let m = if kind == 0 {
                ref_message(r, " has an unterminated quoted sheet name")
            } else if kind == 1 {
                ref_message(r, " must separate sheet and cell with '!'")
            } else {
                ref_message(r, " must be sheet-qualified (Sheet!A1)")
            };
            Err(m)
        },
    }
}

/// [`split_sheet_ref`] over characters; the error is which rule failed
/// (0: unterminated quote, 1: no `!` after the quoted name, 2: no `!`).
fn split_chars(v: &[char]) -> (res: Result<(Vec<char>, Vec<char>), u8>)
    ensures
        match res {
            Ok((sheet, a1)) => spec_split_ok(v@, sheet@, a1@),
            Err(k) => (forall|x: Seq<char>, y: Seq<char>| !spec_split_ok(v@, x, y)) && k == split_failure(v@),
        },
{
    let n = v.len();
    if n > 0 && v[0] == '\'' {
        let ghost body = v@.drop_first();
        let mut sheet: Vec<char> = Vec::new();
        let mut i: usize = 1;
        proof {
            assert(body.skip(0) =~= body);
            match unquote(body) {
                Some((x, k)) => {
                    assert(sheet@ + x =~= x);
                },
                None => {},
            }
        }
        loop
            invariant
                n == v@.len(),
                1 <= i <= n,
                body == v@.drop_first(),
                v@[0] == '\'',
                unquote(body) == (match unquote(body.skip(i - 1)) {
                    Some((x, k)) => Some((sheet@ + x, (i - 1) + k)),
                    None => None,
                }),
            decreases n - i,
        {
            if i == n {
                proof {
                    assert(body.skip(i - 1) =~= Seq::<char>::empty());
                    assert forall|x: Seq<char>, y: Seq<char>| !spec_split_ok(v@, x, y) by {
                        if spec_split_ok(v@, x, y) {
                            assert(body =~= double_quotes(x) + seq!['\''] + (seq!['!'] + y));
                            lemma_unquote_double_quotes(x, seq!['!'] + y);
                        }
                    }
                }
                return Err(0);
            }
            let ghost t = body.skip(i - 1);
            if v[i] == '\'' {
                if i + 1 < n && v[i + 1] == '\'' {
                    proof {
                        assert(t[0] == '\'' && t[1] == '\'');
                        assert(t.skip(2) =~= body.skip(i + 1));
                        match unquote(t.skip(2)) {
                            Some((x, k)) => {
                                assert(sheet@.push('\'') + x =~= sheet@ + (seq!['\''] + x));
                            },
                            None => {},
                        }
                    }
                    sheet.push('\'');
                    i = i + 2;
                } else {
                    proof {
                        assert(t[0] == '\'');
                        assert(t.len() == 1 || t[1] != '\'');
                        assert(sheet@ + Seq::<char>::empty() =~= sheet@);
                    }
                    // `i` is the closing quote.
                    if i + 1 < n && v[i + 1] == '!' {
                        let a1 = sub_chars(v, i + 2, n);
                        proof {
                            lemma_unquote_sound(body);
                            assert(body.take(i - 1) == double_quotes(sheet@));
                            assert(v@ =~= seq!['\''] + double_quotes(sheet@) + seq!['\'', '!']
                                + a1@);
                        }
                        return Ok((sheet, a1));
                    }
                    proof {
                        assert forall|x: Seq<char>, y: Seq<char>| !spec_split_ok(v@, x, y) by {
                            if spec_split_ok(v@, x, y) {
                                assert(body =~= double_quotes(x) + seq!['\''] + (seq!['!'] + y));
                                lemma_unquote_double_quotes(x, seq!['!'] + y);
                                lemma_unquote_sound(body);
                                assert(v@[i as int + 1] == body[i as int]);
                            }
                        }
                    }
                    return Err(1);
                }
            } else {
                proof {
                    assert(t[0] != '\'');
                    assert(t.skip(1) =~= body.skip(i as int));
                    match unquote(t.skip(1)) {
                        Some((x, k)) => {
                            assert(sheet@.push(v@[i as int]) + x =~= sheet@ + (seq![t[0]] + x));
                        },
                        None => {},
                    }
                }
                sheet.push(v[i]);
                i = i + 1;
            }
        }
    } else {
        match find_char(v, '!') {
            Some(p) => {
                let sheet = sub_chars(v, 0, p);
                let a1 = sub_chars(v, p + 1, n);
                proof {
                    assert(v@ =~= sheet@ + seq!['!'] + a1@);
                    assert(!sheet@.contains('!'));
                }
                Ok((sheet, a1))
            },
            None => {
                proof {
                    assert forall|x: Seq<char>, y: Seq<char>| !spec_split_ok(v@, x, y) by {
                        if spec_split_ok(v@, x, y) {
                            assert(v@[x.len() as int] == '!');
                        }
                    }
                }
                Err(2)
            },
        }
    }
}

/// A parsed named-range reference.
pub struct ParsedRef {
    /// The unquoted sheet name the ref targets.
    pub sheet: String,
}

/// Parses a `ref` and verifies it is in canonical form. Returns the targeted
/// (unquoted) sheet name on success, or a description of the first
/// violation. Does not check that the sheet exists.
pub fn parse_canonical_ref(r: &str) -> (res: Result<ParsedRef, String>)
    ensures
        match res {
            Ok(p) => spec_canonical_ref(r@, p.sheet@),
            Err(m) => (forall|s: Seq<char>| !spec_canonical_ref(r@, s)) && m@ == ref_error(r@),
        },
{
    let (sheet, a1_part) = match split_sheet_ref(r) {
        Ok(parts) => parts,
        Err(m) => {
            proof {
                assert forall|s: Seq<char>| !spec_canonical_ref(r@, s) by {
                    if spec_canonical_ref(r@, s) {
                        let part = choose|part: Seq<char>|
                            spec_canonical_a1(part) && r@ == spec_quote_sheet(s) + seq!['!'] + part;
                        law_split_after_quote(s, part);
                    }
                }
            }
            return Err(m);
        },
    };
    let a1 = chars_of(a1_part.as_str());
    let n = a1.len();
    let colon = find_char(a1.as_slice(), ':');
    let (start_raw, end_raw) = match colon {
        Some(p) => (sub_chars(a1.as_slice(), 0, p), Some(sub_chars(a1.as_slice(), p + 1, n))),
        None => (sub_chars(a1.as_slice(), 0, n), None),
    };
    let ghost c: int = match colon {
        Some(p) => p as int,
        None => -1,
    };
    proof {
        match colon {
            Some(p) => {
                assert(start_raw@ =~= a1_part@.take(p as int));
                assert(end_raw.unwrap()@ =~= a1_part@.skip(p as int + 1));
                assert(a1_part@[p as int] == ':');
                let q = choose|q: int|
                    0 <= q < a1_part@.len() && a1_part@[q] == ':' && forall|j: int| 0 <= j < q ==> a1_part@[j] != ':';
                if q < p as int {
                    assert(a1@[q] != ':');
                }
                if (p as int) < q {
                    assert(a1_part@[p as int] != ':');
                }
                assert(first_colon(a1_part@) == c);
            },
            None => {
                assert(start_raw@ =~= a1_part@);
                assert(!(exists|q: int| 0 <= q < a1_part@.len() && a1_part@[q] == ':'));
                assert(first_colon(a1_part@) == c);
            },
        }
        assert(spec_split(r@) == Some((sheet@, a1_part@)));
        assert(start_raw@ == (if c >= 0 { a1_part@.take(c) } else { a1_part@ }));
    }
    // Facts about any canonical decomposition of `r`.
    proof {
        assert forall|s: Seq<char>| spec_canonical_ref(r@, s) implies s == sheet@ && spec_canonical_a1(
            a1_part@,
        ) && r@ == spec_quote_sheet(sheet@) + seq!['!'] + a1_part@ by {
            let part = choose|part: Seq<char>|
                spec_canonical_a1(part) && r@ == spec_quote_sheet(s) + seq!['!'] + part;
            law_split_after_quote(s, part);
            lemma_split_unique(r@, s, part, sheet@, a1_part@);
        }
    }
    let start = match parse_a1_chars(start_raw.as_slice()) {
        Some(a) => a,
        None => {
            proof {
                lemma_canonical_parts(a1_part@, colon);
                assert(parsed_a1(start_raw@) is None);
            }
            return Err(ref_message(r, " has an invalid start cell"));
        },
    };
    proof {
        crate::address::law_a1_parse_after_render(start);
        assert(parsed_a1(start_raw@) == Some(start));
    }
    match end_raw {
        None => {},
        Some(ref end_chars) => {
            let end = match parse_a1_chars(end_chars.as_slice()) {
                Some(a) => a,
                None => {
                    proof {
                        lemma_canonical_parts(a1_part@, colon);
                        assert(parsed_a1(end_chars@) is None);
                    }
                    return Err(ref_message(r, " has an invalid end cell"));
                },
            };
            proof {
                crate::address::law_a1_parse_after_render(end);
                assert(parsed_a1(end_chars@) == Some(end));
            }
            if start.row == end.row && start.column == end.column {
                proof {
                    assert(start == end);
                    lemma_canonical_parts(a1_part@, colon);
                    assert forall|s: Seq<char>| !spec_canonical_ref(r@, s) by {
                        if spec_canonical_ref(r@, s) {
                            let (a, b) = choose|a: Address, b: Address|
                                a.wf() && b.wf() && a.row <= b.row && a.column <= b.column && a
                                    != b && a1_part@.take(colon.unwrap() as int) == a1_text(a)
                                    && a1_part@.skip(colon.unwrap() as int + 1) == a1_text(b);
                            crate::address::lemma_a1_text_injective(a, start);
                            crate::address::lemma_a1_text_injective(b, end);
                        }
                    }
                }
                return Err(ref_message(
                    r,
                    " is not canonical: a degenerate range must collapse to the single-cell form (schema spec \u{a7}7)",
                ));
            }
            if start.row > end.row || start.column > end.column {
                proof {
                    lemma_canonical_parts(a1_part@, colon);
                    assert forall|s: Seq<char>| !spec_canonical_ref(r@, s) by {
                        if spec_canonical_ref(r@, s) {
                            let (a, b) = choose|a: Address, b: Address|
                                a.wf() && b.wf() && a.row <= b.row && a.column <= b.column && a
                                    != b && a1_part@.take(colon.unwrap() as int) == a1_text(a)
                                    && a1_part@.skip(colon.unwrap() as int + 1) == a1_text(b);
                            crate::address::lemma_a1_text_injective(a, start);
                            crate::address::lemma_a1_text_injective(b, end);
                        }
                    }
                }
                return Err(ref_message(
                    r,
                    " is not canonical: range endpoints must be top-left first (schema spec \u{a7}7)",
                ));
            }
            proof {
                assert(a1_part@ =~= a1_text(start) + seq![':'] + a1_text(end));
                assert(spec_canonical_a1(a1_part@));
            }
        },
    }
    proof {
        if end_raw is None {
            assert(a1_part@ =~= start_raw@);
            assert(spec_canonical_a1(a1_part@));
        }
    }
    // Re-emit the canonical form and compare: rejects non-canonical quoting.
    let sheet_chars = chars_of(sheet.as_str());
    let mut canonical = quote_sheet_chars(sheet_chars.as_slice());
    canonical.push('!');
    let mut k: usize = 0;
    while k < n
        invariant
            k <= n == a1@.len(),
            canonical@ == spec_quote_sheet(sheet@) + seq!['!'] + a1@.take(k as int),
        decreases n - k,
    {
        canonical.push(a1[k]);
        assert(a1@.take(k as int + 1) =~= a1@.take(k as int).push(a1@[k as int]));
        k = k + 1;
    }
    assert(a1@.take(n as int) =~= a1@);
    let rv = chars_of(r);
    if !crate::text::chars_equal(canonical.as_slice(), rv.as_slice()) {
        let cs = string_from_chars(canonical.as_slice());
        let mut m = ref_message(r, " is not in canonical form (expected ");
        let q = debug_quoted(cs.as_str());
        push_str(&mut m, q.as_str());
        push_str(&mut m, ", schema spec \u{a7}7)");
        proof {
            assert(a1@ == a1_part@);
            assert(cs@ == spec_quote_sheet(sheet@) + seq!['!'] + a1_part@);
            assert forall|s: Seq<char>| !spec_canonical_ref(r@, s) by {
                if spec_canonical_ref(r@, s) {
                    assert(r@ == spec_quote_sheet(sheet@) + seq!['!'] + a1_part@);
                    assert(canonical@ =~= rv@);
                }
            }
        }
        return Err(m);
    }
    Ok(ParsedRef { sheet })
}

/// In a canonical cell part, the first `:` (if any) separates two A1 keys
/// that parse back to the decomposition's corners.
proof fn lemma_canonical_parts(part: Seq<char>, colon: Option<usize>)
    requires
        match colon {
            Some(p) => p < part.len() && part[p as int] == ':' && forall|j: int|
                0 <= j < p ==> part[j] != ':',
            None => forall|j: int| 0 <= j < part.len() ==> part[j] != ':',
        },
    ensures
        spec_canonical_a1(part) ==> match colon {
            Some(p) => exists|a: Address, b: Address|
                a.wf() && b.wf() && a.row <= b.row && a.column <= b.column && a != b
                    && part.take(p as int) == a1_text(a) && part.skip(p as int + 1) == a1_text(b),
            None => exists|a: Address| a.wf() && part == a1_text(a),
        },
{
    if spec_canonical_a1(part) {
        if exists|a: Address| a.wf() && part == a1_text(a) {
            let a = choose|a: Address| a.wf() && part == a1_text(a);
            lemma_a1_shape(a);
            match colon {
                Some(p) => {
                    let l = column_letters_len(a);
                    assert(part[p as int] == ':');
                    if p < l {
                        assert(is_upper(part[p as int]));
                    } else {
                        assert(is_digit(part[p as int]));
                    }
                },
                None => {},
            }
        } else {
            let (a, b) = choose|a: Address, b: Address|
                a.wf() && b.wf() && a.row <= b.row && a.column <= b.column && a != b && part
                    == a1_text(a) + seq![':'] + a1_text(b);
            lemma_a1_shape(a);
            lemma_a1_shape(b);
            let n = a1_text(a).len() as int;
            let l = column_letters_len(a);
            assert(part[n] == ':');
            match colon {
                Some(p) => {
                    if (p as int) < n {
                        if (p as int) < l {
                            assert(is_upper(part[p as int]));
                        } else {
                            assert(is_digit(part[p as int]));
                        }
                    }
                    assert(p as int == n);
                    assert(part.take(p as int) =~= a1_text(a));
                    assert(part.skip(p as int + 1) =~= a1_text(b));
                },
                None => {},
            }
        }
    }
}

spec fn column_letters_len(a: Address) -> int {
    crate::address::column_letters(a.column as nat).len() as int
}

} // verus!
