//! Small verified helpers for moving between `&str`, `String` and character
//! sequences, and for rendering numbers and quoted strings into messages.

use vstd::prelude::*;

verus! {

/// The decimal digit character for `d` (`0 <= d < 10`).
pub open spec fn digit_char(d: int) -> char {
    (48 + d) as char
}

/// The decimal representation of `n`: no sign, no leading zero (`0` is `"0"`).
pub open spec fn decimal_digits(n: nat) -> Seq<char>
    decreases n,
{
    if n < 10 {
        seq![digit_char(n as int)]
    } else {
        decimal_digits(n / 10).push(digit_char((n % 10) as int))
    }
}

/// Whether `c` is an ASCII decimal digit.
pub open spec fn is_digit(c: char) -> bool {
    '0' <= c && c <= '9'
}

/// The value of a string of decimal digits (Horner's rule; `0` for the empty
/// string).
pub open spec fn digits_value(s: Seq<char>) -> nat
    decreases s.len(),
{
    if s.len() == 0 {
        0
    } else {
        (digits_value(s.drop_last()) * 10 + (s.last() as int - 48)) as nat
    }
}

/// The characters of `s`, in order.
pub fn chars_of(s: &str) -> (v: Vec<char>)
    ensures
        v@ == s@,
{
    let mut v: Vec<char> = Vec::new();
    for c in it: s.chars()
        invariant
            v@ == it.seq().take(it.index() as int),
    {
        v.push(c);
    }
    assert(v@ =~= s@);
    v
}

/// Appends `c` to `s` (`String::push`).
#[verifier::external_body]
pub(crate) fn push_char(s: &mut String, c: char)
    ensures
        final(s)@ == old(s)@.push(c),
{
    s.push(c);
}

/// Appends every character of `v` to `s`.
pub(crate) fn push_chars(s: &mut String, v: &[char])
    ensures
        final(s)@ == old(s)@ + v@,
{
    let ghost start = s@;
    let mut i: usize = 0;
    while i < v.len()
        invariant
            i <= v@.len(),
            s@ == start + v@.take(i as int),
        decreases v@.len() - i,
    {
        push_char(s, v[i]);
        assert(start + v@.take(i as int + 1) =~= (start + v@.take(i as int)).push(v@[i as int]));
        i = i + 1;
    }
    assert(v@.take(v@.len() as int) =~= v@);
}

/// Appends the characters of `t` to `s`.
pub(crate) fn push_str(s: &mut String, t: &str)
    ensures
        final(s)@ == old(s)@ + t@,
{
    let v = chars_of(t);
    push_chars(s, v.as_slice());
}

/// A string holding exactly the characters of `v`.
pub fn string_from_chars(v: &[char]) -> (s: String)
    ensures
        s@ == v@,
{
    let mut s = String::new();
    push_chars(&mut s, v);
    s
}

/// A fresh copy of `t`.
pub(crate) fn string_of(t: &str) -> (s: String)
    ensures
        s@ == t@,
{
    let mut s = String::new();
    push_str(&mut s, t);
    s
}

/// Whether two character sequences are equal.
pub fn chars_equal(a: &[char], b: &[char]) -> (r: bool)
    ensures
        r == (a@ == b@),
{
    if a.len() != b.len() {
        return false;
    }
    let mut i: usize = 0;
    while i < a.len()
        invariant
            i <= a@.len(),
            a@.len() == b@.len(),
            forall|j: int| 0 <= j < i ==> a@[j] == b@[j],
        decreases a@.len() - i,
    {
        if a[i] != b[i] {
            return false;
        }
        i = i + 1;
    }
    assert(a@ =~= b@);
    true
}

/// Whether two strings hold the same characters.
pub fn str_equal(a: &str, b: &str) -> (r: bool)
    ensures
        r == (a@ == b@),
{
    let va = chars_of(a);
    let vb = chars_of(b);
    chars_equal(va.as_slice(), vb.as_slice())
}

/// The index of the first occurrence of `c` in `v`, if any.
pub fn find_char(v: &[char], c: char) -> (r: Option<usize>)
    ensures
        match r {
            Some(p) => p < v@.len() && v@[p as int] == c && forall|j: int|
                0 <= j < p ==> v@[j] != c,
            None => forall|j: int| 0 <= j < v@.len() ==> v@[j] != c,
        },
{
    let mut i: usize = 0;
    while i < v.len()
        invariant
            i <= v@.len(),
            forall|j: int| 0 <= j < i ==> v@[j] != c,
        decreases v@.len() - i,
    {
        if v[i] == c {
            return Some(i);
        }
        i = i + 1;
    }
    None
}

/// A copy of `v[lo..hi]`.
pub fn sub_chars(v: &[char], lo: usize, hi: usize) -> (r: Vec<char>)
    requires
        lo <= hi <= v@.len(),
    ensures
        r@ == v@.subrange(lo as int, hi as int),
{
    let mut r: Vec<char> = Vec::new();
    let mut i: usize = lo;
    while i < hi
        invariant
            lo <= i <= hi <= v@.len(),
            r@ == v@.subrange(lo as int, i as int),
        decreases hi - i,
    {
        r.push(v[i]);
        assert(v@.subrange(lo as int, i as int + 1) =~= v@.subrange(lo as int, i as int).push(
            v@[i as int],
        ));
        i = i + 1;
    }
    r
}

/// The decimal digits of `n`, most significant first.
pub fn decimal_chars(n: u64) -> (v: Vec<char>)
    ensures
        v@ == decimal_digits(n as nat),
{
    decimal_chars_wide(n as u128)
}

/// The decimal digits of a 128-bit `n`, most significant first.
pub fn decimal_chars_wide(n: u128) -> (v: Vec<char>)
    ensures
        v@ == decimal_digits(n as nat),
{
    let mut v: Vec<char> = Vec::new();
    let mut m: u128 = n;
    while m >= 10
        invariant
            decimal_digits(n as nat) == decimal_digits(m as nat) + v@,
        decreases m,
    {
        let d: u128 = m % 10;
        v.insert(0, char_of_digit(d as u64));
        assert(decimal_digits(m as nat) == decimal_digits((m / 10) as nat).push(digit_char(
            d as int,
        )));
        assert(decimal_digits((m / 10) as nat) + v@ =~= decimal_digits((m / 10) as nat).push(
            digit_char(d as int),
        ) + v@.drop_first());
        m = m / 10;
    }
    v.insert(0, char_of_digit(m as u64));
    assert(decimal_digits(m as nat) =~= seq![digit_char(m as int)]);
    v
}

/// A 128-bit `n` rendered in decimal.
pub fn decimal_string_wide(n: u128) -> (s: String)
    ensures
        s@ == decimal_digits(n as nat),
{
    let v = decimal_chars_wide(n);
    string_from_chars(v.as_slice())
}

/// The character of decimal digit `d`.
pub(crate) fn char_of_digit(d: u64) -> (c: char)
    requires
        d < 10,
    ensures
        c == digit_char(d as int),
{
    let b: u8 = 48u8 + (d as u8);
    b as char
}

/// `n` rendered in decimal.
pub fn decimal_string(n: u64) -> (s: String)
    ensures
        s@ == decimal_digits(n as nat),
{
    let v = decimal_chars(n);
    string_from_chars(v.as_slice())
}

/// The `Debug` rendering of a string: double-quoted, with Rust's escapes.
pub uninterp spec fn spec_debug_quoted(s: Seq<char>) -> Seq<char>;

/// `format!("{s:?}")`: `s` in double quotes, with `"`, `\` and control
/// characters escaped as Rust's `Debug` for `str` escapes them. The contract
/// names the result as a function of `s` alone.
#[verifier::external_body]
pub(crate) fn debug_quoted(s: &str) -> (r: String)
    ensures
        r@ == spec_debug_quoted(s@),
{
    format!("{s:?}")
}

/// The message of a formula of `len` bytes, over the length cap.
pub open spec fn formula_too_long(len: nat) -> Seq<char> {
    "formula is "@ + decimal_digits(len) + " bytes, exceeding the limit of "@ + decimal_digits(
        crate::limits::MAX_FORMULA_LEN as nat,
    ) + " bytes (scope ADR Decision 5)"@
}

/// The message of a formula over the length cap.
pub(crate) fn formula_too_long_message(len: usize) -> (s: String)
    ensures
        s@ == formula_too_long(len as nat),
{
    let mut s = String::new();
    push_str(&mut s, "formula is ");
    let a = decimal_string(len as u64);
    push_str(&mut s, a.as_str());
    push_str(&mut s, " bytes, exceeding the limit of ");
    let b = decimal_string(crate::limits::MAX_FORMULA_LEN as u64);
    push_str(&mut s, b.as_str());
    push_str(&mut s, " bytes (scope ADR Decision 5)");
    s
}

} // verus!
