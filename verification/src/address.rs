//! A1 cell addressing: parsing, bounds checking, and the A1 ↔ `(row, column)`
//! conversion of the runtime grid.
//!
//! A serialized cell key must match `^[A-Z]{1,3}[1-9][0-9]{0,7}$` and lie
//! within the address bounds (rows `1..=10_000_000`, columns `1..=18_278`,
//! i.e. `A..=ZZZ`). An [`Address`] is the parsed, bounds-validated form used as
//! the in-memory grid key; [`Address::to_a1`] re-emits the exact key.

use vstd::prelude::*;

use crate::limits::{MAX_COLUMN, MAX_ROW};
use vstd::string::StringSliceAdditionalSpecFns;
use vstd::utf8::{encode_utf8, encode_utf8_decode_utf8, encode_utf8_valid_utf8, is_ascii_chars, is_ascii_chars_encode_utf8, valid_utf8};
use crate::text::{chars_of, decimal_digits, digit_char, digits_value, is_digit, string_from_chars};

verus! {

/// A parsed, in-bounds A1 address: 1-based `(row, column)`.
#[derive(Debug, Clone, Copy, PartialEq, Eq, PartialOrd, Ord, Hash, Structural)]
pub struct Address {
    /// 1-based row.
    pub row: u32,
    /// 1-based column (`A` = 1).
    pub column: u32,
}

/// Whether `(row, column)` lies inside the grid.
pub open spec fn in_bounds(row: int, column: int) -> bool {
    1 <= row <= MAX_ROW && 1 <= column <= MAX_COLUMN
}

impl Address {
    /// Whether this address lies inside the grid (every constructed address
    /// does).
    pub open spec fn wf(self) -> bool {
        in_bounds(self.row as int, self.column as int)
    }
}

/// Whether `c` is an ASCII uppercase letter.
pub open spec fn is_upper(c: char) -> bool {
    'A' <= c && c <= 'Z'
}

/// The letter of bijective base-26 digit `d` (`0 => 'A'`, `25 => 'Z'`).
pub open spec fn letter_char(d: int) -> char {
    (65 + d) as char
}

/// The column letters of column `c` in bijective base 26 (`1 => "A"`,
/// `27 => "AA"`); empty for `0`.
pub open spec fn column_letters(c: nat) -> Seq<char>
    decreases c,
{
    if c == 0 {
        Seq::empty()
    } else {
        column_letters(((c - 1) / 26) as nat).push(letter_char((c - 1) % 26))
    }
}

/// The column a string of uppercase letters denotes (Horner's rule in
/// bijective base 26).
pub open spec fn letters_value(s: Seq<char>) -> nat
    decreases s.len(),
{
    if s.len() == 0 {
        0
    } else {
        (letters_value(s.drop_last()) * 26 + (s.last() as int - 64)) as nat
    }
}

/// The plain uppercase A1 key of `a`: column letters then row digits.
pub open spec fn a1_text(a: Address) -> Seq<char> {
    column_letters(a.column as nat) + decimal_digits(a.row as nat)
}

/// The address a key denotes, if it is a valid in-bounds A1 key.
pub open spec fn parsed_a1(key: Seq<char>) -> Option<Address> {
    if exists|a: Address| a.wf() && a1_text(a) == key {
        Some(choose|a: Address| a.wf() && a1_text(a) == key)
    } else {
        None
    }
}

proof fn lemma_div_mod_26(c: int)
    requires
        c >= 1,
    ensures
        c == ((c - 1) / 26) * 26 + (c - 1) % 26 + 1,
        0 <= (c - 1) % 26 < 26,
        0 <= (c - 1) / 26 < c,
{
}

proof fn lemma_div_mod_10(n: int)
    requires
        n >= 0,
    ensures
        n == (n / 10) * 10 + n % 10,
        0 <= n % 10 < 10,
        0 <= n / 10 <= n,
        n >= 10 ==> n / 10 >= 1,
        n >= 10 ==> n / 10 < n,
{
}

/// Column letters are uppercase letters, and decode back to their column.
proof fn lemma_column_letters(c: nat)
    ensures
        forall|i: int| 0 <= i < column_letters(c).len() ==> is_upper(#[trigger] column_letters(c)[i]),
        letters_value(column_letters(c)) == c,
        c >= 1 ==> column_letters(c).len() >= 1,
        c <= MAX_COLUMN ==> column_letters(c).len() <= 3,
    decreases c,
{
    if c > 0 {
        lemma_div_mod_26(c as int);
        let q = ((c - 1) / 26) as nat;
        lemma_column_letters(q);
        let s = column_letters(c);
        assert(s.drop_last() =~= column_letters(q));
        assert(s.last() == letter_char((c - 1) % 26));
        if c <= MAX_COLUMN {
            assert(q <= 702);
            let q2 = ((q - 1) / 26) as nat;
            if q > 0 {
                lemma_div_mod_26(q as int);
                assert(q2 <= 26);
                if q2 > 0 {
                    lemma_div_mod_26(q2 as int);
                    assert(((q2 - 1) / 26) as nat == 0);
                    assert(column_letters(0).len() == 0);
                    assert(column_letters(q2).len() == 1);
                }
                assert(column_letters(q2).len() <= 1);
                assert(column_letters(q).len() <= 2);
            }
        }
    }
}

/// A string of uppercase letters is the column letters of its value.
proof fn lemma_letters_roundtrip(s: Seq<char>)
    requires
        forall|i: int| 0 <= i < s.len() ==> is_upper(#[trigger] s[i]),
    ensures
        column_letters(letters_value(s)) == s,
    decreases s.len(),
{
    if s.len() > 0 {
        let t = s.drop_last();
        assert forall|i: int| 0 <= i < t.len() implies is_upper(#[trigger] t[i]) by {
            assert(t[i] == s[i]);
        }
        lemma_letters_roundtrip(t);
        let v = letters_value(t);
        let d = s.last() as int - 64;
        assert(is_upper(s[s.len() - 1]));
        assert(1 <= d <= 26);
        let c = letters_value(s);
        assert(c == v * 26 + d);
        vstd::arithmetic::div_mod::lemma_fundamental_div_mod_converse(c - 1, 26, v as int, d - 1);
        assert(letter_char(d - 1) == s.last());
        assert(column_letters(c) =~= t.push(s.last()));
        assert(t.push(s.last()) =~= s);
    }
}

/// Decimal digits are digits, start with a nonzero digit (for a positive
/// number), and decode back to their value.
pub proof fn lemma_decimal_digits(n: nat)
    ensures
        forall|i: int|
            0 <= i < decimal_digits(n).len() ==> is_digit(#[trigger] decimal_digits(n)[i]),
        digits_value(decimal_digits(n)) == n,
        decimal_digits(n).len() >= 1,
        n >= 1 ==> decimal_digits(n)[0] != '0',
        n <= MAX_ROW ==> decimal_digits(n).len() <= 8,
    decreases n,
{
    lemma_div_mod_10(n as int);
    if n >= 10 {
        let q = n / 10;
        lemma_decimal_digits(q);
        let s = decimal_digits(n);
        assert(s.drop_last() =~= decimal_digits(q));
        assert(s[0] == decimal_digits(q)[0]);
        assert(s.last() == digit_char((n % 10) as int));
        assert(digits_value(s) == digits_value(s.drop_last()) * 10 + (s.last() as int - 48));
        if n <= MAX_ROW {
            lemma_pow10_small(8);
            reveal_with_fuel(pow10, 9);
            lemma_decimal_len_bound(n, 8);
        }
    } else {
        let t = decimal_digits(n);
        assert(t.last() == digit_char(n as int));
        assert(digits_value(t) == digits_value(t.drop_last()) * 10 + (t.last() as int - 48));
        assert(decimal_digits(n) =~= seq![digit_char(n as int)]);
        assert(decimal_digits(n).drop_last() =~= Seq::<char>::empty());
    }
}

/// `10^k`.
pub open spec fn pow10(k: nat) -> nat
    decreases k,
{
    if k == 0 {
        1
    } else {
        10 * pow10((k - 1) as nat)
    }
}

proof fn lemma_pow10_small(k: nat)
    requires
        k <= 8,
    ensures
        1 <= pow10(k) <= 100_000_000,
        k == 7 ==> pow10(k) == 10_000_000,
{
    reveal_with_fuel(pow10, 9);
}

proof fn lemma_decimal_len_bound(n: nat, k: nat)
    requires
        n < pow10(k),
        k >= 1,
    ensures
        decimal_digits(n).len() <= k,
    decreases k,
{
    lemma_div_mod_10(n as int);
    if n >= 10 {
        if k == 1 {
            assert(pow10(0) == 1);
        } else {
            let p = pow10((k - 1) as nat);
            assert(n / 10 < p) by {
                vstd::arithmetic::div_mod::lemma_div_is_ordered(n as int, 10 * p - 1, 10);
                vstd::arithmetic::div_mod::lemma_fundamental_div_mod_converse(10 * p - 1, 10, p - 1, 9);
            }
            lemma_decimal_len_bound(n / 10, (k - 1) as nat);
        }
    }
}

/// A nonempty digit string without a leading zero is the decimal
/// representation of its value.
proof fn lemma_digits_roundtrip(s: Seq<char>)
    requires
        s.len() >= 1,
        s[0] != '0',
        forall|i: int| 0 <= i < s.len() ==> is_digit(#[trigger] s[i]),
    ensures
        decimal_digits(digits_value(s)) == s,
        digits_value(s) >= 1,
    decreases s.len(),
{
    let t = s.drop_last();
    let d = s.last() as int - 48;
    assert(is_digit(s[s.len() - 1]));
    if s.len() == 1 {
        assert(t.len() == 0);
        assert(digits_value(s) == d);
        assert(decimal_digits(d as nat) =~= seq![digit_char(d)]);
        assert(seq![digit_char(d)] =~= s);
    } else {
        assert forall|i: int| 0 <= i < t.len() implies is_digit(#[trigger] t[i]) by {
            assert(t[i] == s[i]);
        }
        assert(t[0] == s[0]);
        lemma_digits_roundtrip(t);
        let v = digits_value(t);
        let n = digits_value(s);
        assert(n == v * 10 + d);
        vstd::arithmetic::div_mod::lemma_fundamental_div_mod_converse(n as int, 10, v as int, d);
        assert(decimal_digits(n) =~= t.push(s.last()));
        assert(t.push(s.last()) =~= s);
    }
}

/// The shape of every in-bounds key: 1–3 uppercase letters denoting the
/// column, then 1–8 digits without a leading zero denoting the row.
pub proof fn lemma_a1_shape(a: Address)
    requires
        a.wf(),
    ensures
        1 <= column_letters(a.column as nat).len() <= 3,
        1 <= decimal_digits(a.row as nat).len() <= 8,
        decimal_digits(a.row as nat)[0] != '0',
        forall|i: int|
            0 <= i < column_letters(a.column as nat).len() ==> is_upper(
                #[trigger] column_letters(a.column as nat)[i],
            ),
        forall|i: int|
            0 <= i < decimal_digits(a.row as nat).len() ==> is_digit(
                #[trigger] decimal_digits(a.row as nat)[i],
            ),
        letters_value(column_letters(a.column as nat)) == a.column,
        digits_value(decimal_digits(a.row as nat)) == a.row,
{
    lemma_column_letters(a.column as nat);
    lemma_decimal_digits(a.row as nat);
}

/// In a key, the column letters are exactly the maximal uppercase prefix.
proof fn lemma_a1_split(a: Address, i: int)
    requires
        a.wf(),
        0 <= i <= a1_text(a).len(),
        forall|j: int| 0 <= j < i ==> is_upper(#[trigger] a1_text(a)[j]),
        i == a1_text(a).len() || !is_upper(a1_text(a)[i]),
    ensures
        i == column_letters(a.column as nat).len(),
        a1_text(a).take(i) == column_letters(a.column as nat),
        a1_text(a).skip(i) == decimal_digits(a.row as nat),
{
    lemma_a1_shape(a);
    let l = column_letters(a.column as nat);
    let d = decimal_digits(a.row as nat);
    let s = a1_text(a);
    if i < l.len() {
        assert(s[i] == l[i]);
    } else if i > l.len() {
        assert(s[l.len() as int] == d[0]);
        assert(is_upper(s[l.len() as int]));
    }
    assert(s.take(i) =~= l);
    assert(s.skip(i) =~= d);
}

/// Distinct in-bounds addresses have distinct keys.
pub proof fn lemma_a1_text_injective(a: Address, b: Address)
    requires
        a.wf(),
        b.wf(),
        a1_text(a) == a1_text(b),
    ensures
        a == b,
{
    lemma_a1_shape(a);
    lemma_a1_shape(b);
    let la = column_letters(a.column as nat).len() as int;
    let lb = column_letters(b.column as nat).len() as int;
    let s = a1_text(a);
    if la < lb {
        assert(s[la] == column_letters(b.column as nat)[la]);
        assert(s[la] == decimal_digits(a.row as nat)[0]);
    } else if lb < la {
        assert(s[lb] == column_letters(a.column as nat)[lb]);
        assert(s[lb] == decimal_digits(b.row as nat)[0]);
    }
    assert(s.take(la) =~= column_letters(a.column as nat));
    assert(s.take(la) =~= column_letters(b.column as nat));
    assert(s.skip(la) =~= decimal_digits(a.row as nat));
    assert(s.skip(la) =~= decimal_digits(b.row as nat));
}

/// Rendering an in-bounds address and parsing the key gives the address back.
pub proof fn law_a1_parse_after_render(a: Address)
    requires
        a.wf(),
    ensures
        parsed_a1(a1_text(a)) == Some(a),
{
    let s = a1_text(a);
    assert(exists|b: Address| b.wf() && a1_text(b) == s);
    let c = choose|b: Address| b.wf() && a1_text(b) == s;
    lemma_a1_text_injective(a, c);
}

/// A key that parses renders back to exactly the same key.
pub proof fn law_a1_render_after_parse(key: Seq<char>)
    requires
        parsed_a1(key) is Some,
    ensures
        parsed_a1(key).unwrap().wf(),
        a1_text(parsed_a1(key).unwrap()) == key,
{
}

fn is_ascii_upper(c: char) -> (b: bool)
    ensures
        b == is_upper(c),
{
    'A' <= c && c <= 'Z'
}

fn is_ascii_digit(c: char) -> (b: bool)
    ensures
        b == is_digit(c),
{
    '0' <= c && c <= '9'
}

impl Address {
    /// Builds an address from 1-based `(row, column)`, enforcing the address
    /// bounds. Returns `None` when either coordinate is `0` or out of bounds.
    pub fn new(row: u32, column: u32) -> (r: Option<Self>)
        ensures
            r == (if in_bounds(row as int, column as int) {
                Some(Address { row, column })
            } else {
                None
            }),
    {
        if row == 0 || row > MAX_ROW || column == 0 || column > MAX_COLUMN {
            return None;
        }
        Some(Self { row, column })
    }

    /// Parses a plain uppercase A1 key (e.g. `A1`, `BC42`), enforcing the key
    /// syntax and the address bounds. Returns `None` on any malformed or
    /// out-of-bounds key.
    pub fn from_a1(key: &str) -> (r: Option<Self>)
        ensures
            r == parsed_a1(key@),
    {
        parse_a1(key)
    }

    /// Re-emits the plain-uppercase A1 key (`A1`, `BC42`): the inverse of
    /// [`Address::from_a1`].
    pub fn to_a1(&self) -> (s: String)
        requires
            self.wf(),
        ensures
            s@ == a1_text(*self),
    {
        let key = self.a1_key();
        crate::text::string_of(key.as_str())
    }

    /// Renders the plain-uppercase A1 key into a fixed buffer: the same
    /// characters as [`to_a1`](Self::to_a1), without an owned string.
    pub fn a1_key(&self) -> (key: A1Key)
        requires
            self.wf(),
        ensures
            key.wf(),
            key.text() == a1_text(*self),
    {
        proof {
            lemma_a1_shape(*self);
        }
        let letters = self.column_letter_chars();
        let digits = crate::text::decimal_chars(self.row as u64);
        let mut key = A1Key { buf: [0u8; 11], len: 0 };
        assert(key.text() =~= Seq::<char>::empty());
        let mut i: usize = 0;
        while i < letters.len()
            invariant
                i <= letters@.len() <= MAX_COLUMN_LETTERS,
                letters@ == column_letters(self.column as nat),
                forall|t: int| 0 <= t < letters@.len() ==> is_upper(#[trigger] letters@[t]),
                key.wf(),
                key.len == i,
                key.text() == letters@.take(i as int),
            decreases letters@.len() - i,
        {
            let c = letters[i];
            assert(is_upper(letters@[i as int]));
            let b: u8 = c as u8;
            let ghost before = key.text();
            key.push(b);
            assert(b as char == c);
            assert(key.text() =~= letters@.take(i as int + 1));
            i = i + 1;
        }
        assert(letters@.take(i as int) =~= letters@);
        let mut j: usize = 0;
        while j < digits.len()
            invariant
                j <= digits@.len() <= MAX_ROW_DIGITS,
                letters@.len() <= MAX_COLUMN_LETTERS,
                digits@ == decimal_digits(self.row as nat),
                forall|t: int| 0 <= t < digits@.len() ==> is_digit(#[trigger] digits@[t]),
                key.wf(),
                key.len == letters@.len() + j,
                key.text() == letters@ + digits@.take(j as int),
            decreases digits@.len() - j,
        {
            let c = digits[j];
            assert(is_digit(digits@[j as int]));
            let b: u8 = c as u8;
            key.push(b);
            assert(b as char == c);
            assert(key.text() =~= letters@ + digits@.take(j as int + 1));
            j = j + 1;
        }
        assert(digits@.take(j as int) =~= digits@);
        key
    }

    /// The column letters of this address, most significant first.
    fn column_letter_chars(&self) -> (v: Vec<char>)
        ensures
            v@ == column_letters(self.column as nat),
    {
        let mut v: Vec<char> = Vec::new();
        let mut c: u32 = self.column;
        while c > 0
            invariant
                column_letters(self.column as nat) == column_letters(c as nat) + v@,
            decreases c,
        {
            proof {
                lemma_div_mod_26(c as int);
            }
            let d: u32 = (c - 1) % 26;
            let ch: char = ((65u8 + (d as u8)) as char);
            assert(ch == letter_char(d as int));
            let ghost old_v = v@;
            v.insert(0, ch);
            assert(column_letters(c as nat) == column_letters(((c - 1) / 26) as nat).push(ch));
            assert(column_letters(((c - 1) / 26) as nat) + v@ =~= column_letters(
                ((c - 1) / 26) as nat,
            ).push(ch) + old_v);
            c = (c - 1) / 26;
        }
        assert(column_letters(0) =~= Seq::<char>::empty());
        assert(v@ =~= Seq::<char>::empty() + v@);
        v
    }
}

/// The widest in-bounds column (`ZZZ`) is three letters.
pub const MAX_COLUMN_LETTERS: usize = 3;
/// The widest in-bounds row (`10000000`) is eight digits.
pub const MAX_ROW_DIGITS: usize = 8;
/// Every in-bounds A1 key fits in `ZZZ10000000`.
pub const A1_KEY_CAPACITY: usize = MAX_COLUMN_LETTERS + MAX_ROW_DIGITS;

/// A plain-uppercase A1 key rendered into a fixed buffer of ASCII bytes.
pub struct A1Key {
    buf: [u8; A1_KEY_CAPACITY],
    len: usize,
}

impl A1Key {
    /// The buffer holds `len` ASCII bytes at its front.
    pub closed spec fn wf(self) -> bool {
        &&& self.len <= A1_KEY_CAPACITY
        &&& forall|i: int| 0 <= i < self.len ==> #[trigger] self.buf@[i] < 128
    }

    /// The rendered characters.
    pub closed spec fn text(self) -> Seq<char> {
        Seq::new(self.len as nat, |i: int| self.buf@[i] as char)
    }

    /// Appends the ASCII byte `byte`.
    fn push(&mut self, byte: u8)
        requires
            old(self).wf(),
            old(self).len < A1_KEY_CAPACITY,
            byte < 128,
        ensures
            final(self).wf(),
            final(self).len == old(self).len + 1,
            final(self).text() == old(self).text().push(byte as char),
    {
        let ghost before = self.text();
        self.buf[self.len] = byte;
        self.len = self.len + 1;
        assert(self.text() =~= before.push(byte as char));
    }

    /// The rendered key.
    pub fn as_str(&self) -> (s: &str)
        requires
            self.wf(),
        ensures
            s@ == self.text(),
    {
        let bytes = vstd::slice::slice_subrange(self.buf.as_slice(), 0, self.len);
        proof {
            let t = self.text();
            assert(is_ascii_chars(t));
            is_ascii_chars_encode_utf8(t);
            assert(encode_utf8(t) =~= bytes@);
            encode_utf8_valid_utf8(t);
        }
        match str_from_utf8(bytes) {
            Ok(s) => {
                proof {
                    encode_utf8_decode_utf8(s@);
                    encode_utf8_decode_utf8(self.text());
                }
                s
            },
            Err(_) => {
                proof {
                    assert(false);
                }
                ""
            },
        }
    }
}

#[verifier::external_type_specification]
#[verifier::external_body]
pub struct ExUtf8Error(std::str::Utf8Error);

/// `std::str::from_utf8`: a string view of `v` when the bytes are valid
/// UTF-8. The contract claims that valid UTF-8 is accepted and that an
/// accepted view holds exactly the bytes of `v`.
#[verifier::external_body]
fn str_from_utf8(v: &[u8]) -> (r: Result<&str, std::str::Utf8Error>)
    ensures
        valid_utf8(v@) ==> r is Ok,
        r matches Ok(s) ==> s.spec_bytes() == v@,
{
    std::str::from_utf8(v)
}

/// Parses a plain uppercase A1 key, enforcing the key syntax
/// (`^[A-Z]{1,3}[1-9][0-9]{0,7}$`) and the address bounds. Returns `None` on
/// any malformed key or out-of-bounds row/column.
pub fn parse_a1(key: &str) -> (r: Option<Address>)
    ensures
        r == parsed_a1(key@),
{
    let chars = chars_of(key);
    let r = parse_a1_chars(chars.as_slice());
    proof {
        match r {
            Some(a) => {
                assert(exists|b: Address| b.wf() && a1_text(b) == key@);
                let c = choose|b: Address| b.wf() && a1_text(b) == key@;
                lemma_a1_text_injective(a, c);
            },
            None => {},
        }
    }
    r
}

/// [`parse_a1`] over a character slice.
pub fn parse_a1_chars(s: &[char]) -> (r: Option<Address>)
    ensures
        match r {
            Some(a) => a.wf() && a1_text(a) == s@,
            None => forall|a: Address| a.wf() ==> a1_text(a) != s@,
        },
{
    let n = s.len();
    let mut i: usize = 0;
    // 1..=3 uppercase ASCII letters.
    let mut column: u32 = 0;
    while i < n && is_ascii_upper(s[i])
        invariant
            n == s@.len(),
            i <= n,
            i <= 3,
            column == letters_value(s@.take(i as int)),
            column <= (if i == 0 {
                0int
            } else if i == 1 {
                26int
            } else if i == 2 {
                702int
            } else {
                18278int
            }),
            forall|j: int| 0 <= j < i ==> is_upper(#[trigger] s@[j]),
        decreases n - i,
    {
        if i >= 3 {
            proof {
                assert forall|a: Address| a.wf() implies a1_text(a) != s@ by {
                    if a1_text(a) == s@ {
                        lemma_a1_shape(a);
                        let l = column_letters(a.column as nat).len() as int;
                        assert(s@[l] == decimal_digits(a.row as nat)[0]);
                        assert(is_upper(s@[l]));
                    }
                }
            }
            return None;
        }
        assert(s@.take(i as int + 1).drop_last() =~= s@.take(i as int));
        column = column * 26 + ((s[i] as u32) - 64);
        i = i + 1;
    }
    if i == 0 {
        proof {
            assert forall|a: Address| a.wf() implies a1_text(a) != s@ by {
                if a1_text(a) == s@ {
                    lemma_a1_shape(a);
                    assert(s@[0] == column_letters(a.column as nat)[0]);
                }
            }
        }
        return None;
    }
    let ghost letters = s@.take(i as int);
    let ghost digits = s@.skip(i as int);
    // Facts shared by every rejection below: a key of an in-bounds address
    // splits at `i` into its column letters and its row digits.
    proof {
        assert forall|a: Address| a.wf() && a1_text(a) == s@ implies letters == column_letters(
            a.column as nat,
        ) && digits == decimal_digits(a.row as nat) by {
            lemma_a1_split(a, i as int);
        }
    }
    let m = n - i;
    if m == 0 || m > 8 {
        proof {
            assert forall|a: Address| a.wf() implies a1_text(a) != s@ by {
                if a1_text(a) == s@ {
                    lemma_a1_shape(a);
                    lemma_a1_split(a, i as int);
                    assert(digits.len() == m);
                }
            }
        }
        return None;
    }
    if s[i] == '0' {
        proof {
            assert forall|a: Address| a.wf() implies a1_text(a) != s@ by {
                if a1_text(a) == s@ {
                    lemma_a1_shape(a);
                    lemma_a1_split(a, i as int);
                    assert(digits[0] == s@[i as int]);
                }
            }
        }
        return None;
    }
    let mut row: u32 = 0;
    let mut k: usize = i;
    while k < n
        invariant
            n == s@.len(),
            i <= k <= n,
            n - i <= 8,
            row == digits_value(s@.subrange(i as int, k as int)),
            row < pow10((k - i) as nat),
            1 <= i,
            !is_upper(s@[i as int]),
            forall|j: int| 0 <= j < i ==> is_upper(#[trigger] s@[j]),
            digits == s@.skip(i as int),
            forall|j: int| i <= j < k ==> is_digit(#[trigger] s@[j]),
        decreases n - k,
    {
        let b = s[k];
        if !is_ascii_digit(b) {
            proof {
                assert forall|a: Address| a.wf() implies a1_text(a) != s@ by {
                    if a1_text(a) == s@ {
                        lemma_a1_shape(a);
                        lemma_a1_split(a, i as int);
                        assert(digits[(k - i) as int] == s@[k as int]);
                    }
                }
            }
            return None;
        }
        proof {
            let p = pow10((k - i) as nat);
            lemma_pow10_small((k - i) as nat);
            assert(pow10((k - i + 1) as nat) == 10 * p);
            assert(row * 10 + 9 < p * 10) by (nonlinear_arith)
                requires
                    row < p,
            ;
        }
        let d: u32 = (b as u32) - 48;
        assert(s@.subrange(i as int, k as int + 1).drop_last() =~= s@.subrange(i as int, k as int));
        row = row.checked_mul(10)?.checked_add(d)?;
        k = k + 1;
    }
    assert(s@.subrange(i as int, n as int) =~= digits);
    proof {
        assert forall|j: int| 0 <= j < letters.len() implies is_upper(#[trigger] letters[j]) by {
            assert(letters[j] == s@[j]);
        }
        assert forall|j: int| 0 <= j < digits.len() implies is_digit(#[trigger] digits[j]) by {
            assert(digits[j] == s@[i + j]);
        }
        lemma_letters_roundtrip(letters);
        lemma_digits_roundtrip(digits);
        assert(letters + digits =~= s@);
        assert forall|a: Address| a.wf() && a1_text(a) == s@ implies a.column == column && a.row
            == row by {
            lemma_a1_shape(a);
            lemma_a1_split(a, i as int);
        }
    }
    Address::new(row, column)
}

/// [`parse_a1`] over a character slice, stated over [`parsed_a1`].
pub fn parse_a1_seq(s: &[char]) -> (r: Option<Address>)
    ensures
        r == parsed_a1(s@),
{
    let r = parse_a1_chars(s);
    proof {
        match r {
            Some(a) => {
                assert(exists|b: Address| b.wf() && a1_text(b) == s@);
                let c = choose|b: Address| b.wf() && a1_text(b) == s@;
                lemma_a1_text_injective(a, c);
            },
            None => {},
        }
    }
    r
}

} // verus!
