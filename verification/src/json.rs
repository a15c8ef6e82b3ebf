//! A JSON value tree together with a verified text codec.
//!
//! The wire format is newline-delimited JSON, so the grammar of a single
//! JSON text is part of this library's own logic.  `Json` is the executable
//! tree, `JsonV` its mathematical view.  `to_text` serializes a tree the way
//! a canonical JSON writer does (no inter-token whitespace, minimal string
//! escapes), and `from_text` parses any JSON text.  Numbers that are written
//! as plain integers and fit in an `i64` become `Json::Int`; every other
//! number keeps its raw token text in `Json::Num`, so no floating point is
//! ever computed.

use vstd::prelude::*;

verus! {

/// Executable JSON value.  Object members keep their textual order; a
/// duplicated key is resolved by `lookup` the way serde-style parsers do
/// (the last occurrence wins).
#[derive(Debug)]
pub enum Json {
    Null,
    Bool(bool),
    Int(i64),
    /// Raw token text of a number that is not an integer fitting `i64`.
    Num(String),
    Str(String),
    Arr(Vec<Json>),
    Obj(Vec<(String, Json)>),
}

/// Mathematical view of a JSON value.
#[verifier::ext_equal]
pub enum JsonV {
    Null,
    Bool(bool),
    Int(i64),
    Num(Seq<char>),
    Str(Seq<char>),
    Arr(Seq<JsonV>),
    Obj(Seq<(Seq<char>, JsonV)>),
}

pub open spec fn json_view(j: Json) -> JsonV
    decreases j,
{
    match j {
        Json::Null => JsonV::Null,
        Json::Bool(b) => JsonV::Bool(b),
        Json::Int(i) => JsonV::Int(i),
        Json::Num(t) => JsonV::Num(t@),
        Json::Str(s) => JsonV::Str(s@),
        Json::Arr(a) => JsonV::Arr(views_of_elems(a@)),
        Json::Obj(m) => JsonV::Obj(views_of_members(m@)),
    }
}

pub open spec fn views_of_elems(s: Seq<Json>) -> Seq<JsonV>
    decreases s,
{
    if s.len() == 0 {
        Seq::empty()
    } else {
        views_of_elems(s.drop_last()).push(json_view(s.last()))
    }
}

pub open spec fn views_of_members(s: Seq<(String, Json)>) -> Seq<(Seq<char>, JsonV)>
    decreases s,
{
    if s.len() == 0 {
        Seq::empty()
    } else {
        views_of_members(s.drop_last()).push((s.last().0@, json_view(s.last().1)))
    }
}

impl View for Json {
    type V = JsonV;

    open spec fn view(&self) -> JsonV {
        json_view(*self)
    }
}

pub broadcast proof fn views_of_elems_len(s: Seq<Json>)
    ensures
        #[trigger] views_of_elems(s).len() == s.len(),
    decreases s,
{
    if s.len() > 0 {
        views_of_elems_len(s.drop_last());
    }
}

pub broadcast proof fn views_of_elems_index(s: Seq<Json>, k: int)
    requires
        0 <= k < s.len(),
    ensures
        #[trigger] views_of_elems(s)[k] == json_view(s[k]),
    decreases s,
{
    views_of_elems_len(s);
    if k < s.len() - 1 {
        views_of_elems_index(s.drop_last(), k);
    }
}

pub broadcast proof fn views_of_members_len(s: Seq<(String, Json)>)
    ensures
        #[trigger] views_of_members(s).len() == s.len(),
    decreases s,
{
    if s.len() > 0 {
        views_of_members_len(s.drop_last());
    }
}

pub broadcast proof fn views_of_members_index(s: Seq<(String, Json)>, k: int)
    requires
        0 <= k < s.len(),
    ensures
        #[trigger] views_of_members(s)[k] == (s[k].0@, json_view(s[k].1)),
    decreases s,
{
    views_of_members_len(s);
    if k < s.len() - 1 {
        views_of_members_index(s.drop_last(), k);
    }
}

// ---------------------------------------------------------------------------
// Character classes
// ---------------------------------------------------------------------------

/// JSON inter-token whitespace.
pub open spec fn is_ws(c: char) -> bool {
    c == ' ' || c == '\n' || c == '\r' || c == '\t'
}

pub open spec fn is_digit(c: char) -> bool {
    48 <= (c as u32) && (c as u32) <= 57
}

pub open spec fn digit_val(c: char) -> int {
    (c as u32) - 48
}

/// The decimal digit character for `n` in `0..10`.
pub open spec fn digit_char(n: int) -> char {
    if n == 0 { '0' }
    else if n == 1 { '1' }
    else if n == 2 { '2' }
    else if n == 3 { '3' }
    else if n == 4 { '4' }
    else if n == 5 { '5' }
    else if n == 6 { '6' }
    else if n == 7 { '7' }
    else if n == 8 { '8' }
    else { '9' }
}

/// The lowercase hexadecimal digit character for `n` in `0..16`.
pub open spec fn hex_char(n: int) -> char {
    if n < 10 { digit_char(n) }
    else if n == 10 { 'a' }
    else if n == 11 { 'b' }
    else if n == 12 { 'c' }
    else if n == 13 { 'd' }
    else if n == 14 { 'e' }
    else { 'f' }
}

pub open spec fn is_hex(c: char) -> bool {
    is_digit(c)
    || (97 <= (c as u32) && (c as u32) <= 102)  // 'a'..'f'
    || (65 <= (c as u32) && (c as u32) <= 70)  // 'A'..'F'
}

pub open spec fn hex_val(c: char) -> int {
    if is_digit(c) { digit_val(c) }
    else if 97 <= (c as u32) && (c as u32) <= 102 { (c as u32) - 87 }
    else { (c as u32) - 55 }
}

// ---------------------------------------------------------------------------
// Serialization, specification level
// ---------------------------------------------------------------------------

/// Decimal digits of `n`, most significant first.
pub open spec fn dec_digits(n: nat) -> Seq<char>
    decreases n,
{
    if n < 10 {
        seq![digit_char(n as int)]
    } else {
        dec_digits(n / 10).push(digit_char((n % 10) as int))
    }
}

/// Canonical decimal form of an integer, with a leading `-` when negative.
pub open spec fn dec_int(i: int) -> Seq<char> {
    if i < 0 {
        seq!['-'] + dec_digits((-i) as nat)
    } else {
        dec_digits(i as nat)
    }
}

/// How a canonical JSON writer escapes one character inside a string.
pub open spec fn esc_char(c: char) -> Seq<char> {
    if c == '"' { seq!['\\', '"'] }
    else if c == '\\' { seq!['\\', '\\'] }
    else if c == '\u{8}' { seq!['\\', 'b'] }
    else if c == '\u{c}' { seq!['\\', 'f'] }
    else if c == '\n' { seq!['\\', 'n'] }
    else if c == '\r' { seq!['\\', 'r'] }
    else if c == '\t' { seq!['\\', 't'] }
    else if (c as u32) < 32 {
        seq!['\\', 'u', '0', '0', hex_char((c as u32) as int / 16), hex_char((c as u32) as int % 16)]
    } else {
        seq![c]
    }
}

pub open spec fn esc_str(s: Seq<char>) -> Seq<char>
    decreases s.len(),
{
    if s.len() == 0 {
        Seq::empty()
    } else {
        esc_char(s.first()) + esc_str(s.drop_first())
    }
}

/// The canonical text of a JSON value: no inter-token whitespace, minimal
/// string escapes, integers in decimal, other numbers by their raw token.
pub open spec fn ser(v: JsonV) -> Seq<char>
    decreases v,
{
    match v {
        JsonV::Null => seq!['n', 'u', 'l', 'l'],
        JsonV::Bool(b) => if b {
            seq!['t', 'r', 'u', 'e']
        } else {
            seq!['f', 'a', 'l', 's', 'e']
        },
        JsonV::Int(i) => dec_int(i as int),
        JsonV::Num(t) => t,
        JsonV::Str(s) => seq!['"'] + esc_str(s) + seq!['"'],
        JsonV::Arr(a) => seq!['['] + ser_elems(a) + seq![']'],
        JsonV::Obj(m) => seq!['{'] + ser_members(m) + seq!['}'],
    }
}

pub open spec fn ser_elems(a: Seq<JsonV>) -> Seq<char>
    decreases a, 1int,
{
    if a.len() == 0 {
        Seq::empty()
    } else if a.len() == 1 {
        ser(a.first())
    } else {
        ser(a.first()) + seq![','] + ser_elems(a.drop_first())
    }
}

pub open spec fn ser_member(m: (Seq<char>, JsonV)) -> Seq<char>
    decreases m, 1int,
{
    seq!['"'] + esc_str(m.0) + seq!['"', ':'] + ser(m.1)
}

pub open spec fn ser_members(m: Seq<(Seq<char>, JsonV)>) -> Seq<char>
    decreases m, 2int,
{
    if m.len() == 0 {
        Seq::empty()
    } else if m.len() == 1 {
        ser_member(m.first())
    } else {
        ser_member(m.first()) + seq![','] + ser_members(m.drop_first())
    }
}

// ---------------------------------------------------------------------------
// Parsing, specification level
//
// Positions are `int` indexes into the character sequence.  Every recursive
// call is guarded so that its position strictly advances; the guards never
// fire on real input, they only make termination evident.
// ---------------------------------------------------------------------------

/// First position at or after `i` that does not hold whitespace.
pub open spec fn skip_ws(s: Seq<char>, i: int) -> int
    decreases s.len() - i,
{
    if 0 <= i && i < s.len() && is_ws(s[i]) {
        skip_ws(s, i + 1)
    } else {
        i
    }
}

/// The literal `lit` stands at position `i` of `s`.
pub open spec fn lit_at(s: Seq<char>, i: int, lit: Seq<char>) -> bool {
    0 <= i && i + lit.len() <= s.len() && s.subrange(i, i + lit.len()) == lit
}

/// First position at or after `i` that does not hold a decimal digit.
pub open spec fn digits_end(s: Seq<char>, i: int) -> int
    decreases s.len() - i,
{
    if 0 <= i && i < s.len() && is_digit(s[i]) {
        digits_end(s, i + 1)
    } else {
        i
    }
}

/// Value of the decimal digit run in `[i, j)`.
pub open spec fn digits_val(s: Seq<char>, i: int, j: int) -> int
    decreases j - i,
{
    if i < j {
        digits_val(s, i, j - 1) * 10 + digit_val(s[j - 1])
    } else {
        0
    }
}

/// End of an optional fraction part starting at `p`; `None` on a malformed
/// fraction (a dot not followed by a digit).
pub open spec fn frac_end(s: Seq<char>, p: int) -> Option<int> {
    if 0 <= p && p < s.len() && s[p] == '.' {
        if p + 1 < s.len() && is_digit(s[p + 1]) {
            Some(digits_end(s, p + 1))
        } else {
            None
        }
    } else {
        Some(p)
    }
}

/// End of an optional exponent part starting at `p`.
pub open spec fn exp_end(s: Seq<char>, p: int) -> Option<int> {
    if 0 <= p && p < s.len() && (s[p] == 'e' || s[p] == 'E') {
        let q = if p + 1 < s.len() && (s[p + 1] == '+' || s[p + 1] == '-') {
            p + 2
        } else {
            p + 1
        };
        if q < s.len() && is_digit(s[q]) {
            Some(digits_end(s, q))
        } else {
            None
        }
    } else {
        Some(p)
    }
}

/// Parses a number token at `i`.  A token in plain integer form whose value
/// fits an `i64` becomes `Int`; every other valid token keeps its raw text.
pub open spec fn parse_number(s: Seq<char>, i: int) -> Option<(JsonV, int)> {
    let p = if 0 <= i && i < s.len() && s[i] == '-' {
        i + 1
    } else {
        i
    };
    if !(0 <= i && 0 <= p && p < s.len() && is_digit(s[p])) {
        None
    } else {
        let int_end = if s[p] == '0' {
            p + 1
        } else {
            digits_end(s, p)
        };
        if int_end < s.len() && is_digit(s[int_end]) {
            None  // a leading zero may not be followed by another digit
        } else {
            match frac_end(s, int_end) {
                None => None,
                Some(fe) => match exp_end(s, fe) {
                    None => None,
                    Some(end) => {
                        if int_end == end {
                            let n = digits_val(s, p, int_end);
                            let val = if p != i {
                                -n
                            } else {
                                n
                            };
                            if i64::MIN as int <= val && val <= i64::MAX as int {
                                Some((JsonV::Int(val as i64), end))
                            } else {
                                Some((JsonV::Num(s.subrange(i, end)), end))
                            }
                        } else {
                            Some((JsonV::Num(s.subrange(i, end)), end))
                        }
                    },
                },
            }
        }
    }
}

/// Value of four hexadecimal digits at `i`.
pub open spec fn hex4(s: Seq<char>, i: int) -> Option<int> {
    if 0 <= i && i + 4 <= s.len() && is_hex(s[i]) && is_hex(s[i + 1]) && is_hex(s[i + 2])
        && is_hex(s[i + 3]) {
        Some(((hex_val(s[i]) * 16 + hex_val(s[i + 1])) * 16 + hex_val(s[i + 2])) * 16 + hex_val(
            s[i + 3],
        ))
    } else {
        None
    }
}

/// Parses the rest of a `\u` escape, `i` standing right after the `u`.
/// A high surrogate must be followed by a low surrogate escape; the pair
/// forms one character beyond the basic plane.
pub open spec fn parse_unicode_escape(s: Seq<char>, i: int) -> Option<(char, int)> {
    match hex4(s, i) {
        None => None,
        Some(u) => {
            if 0xD800 <= u && u <= 0xDBFF {
                if i + 6 <= s.len() && s[i + 4] == '\\' && s[i + 5] == 'u' {
                    match hex4(s, i + 6) {
                        None => None,
                        Some(lo) => {
                            if 0xDC00 <= lo && lo <= 0xDFFF {
                                Some(
                                    (
                                        ((0x10000 + (u - 0xD800) * 0x400 + (lo - 0xDC00)) as u32)
                                            as char,
                                        i + 10,
                                    ),
                                )
                            } else {
                                None
                            }
                        },
                    }
                } else {
                    None
                }
            } else if 0xDC00 <= u && u <= 0xDFFF {
                None  // a lone low surrogate is not a character
            } else {
                Some(((u as u32) as char, i + 4))
            }
        },
    }
}

/// Parses one string escape, `i` standing right after the backslash.
pub open spec fn parse_escape(s: Seq<char>, i: int) -> Option<(char, int)> {
    if !(0 <= i && i < s.len()) {
        None
    } else {
        let c = s[i];
        if c == '"' { Some(('"', i + 1)) }
        else if c == '\\' { Some(('\\', i + 1)) }
        else if c == '/' { Some(('/', i + 1)) }
        else if c == 'b' { Some(('\u{8}', i + 1)) }
        else if c == 'f' { Some(('\u{c}', i + 1)) }
        else if c == 'n' { Some(('\n', i + 1)) }
        else if c == 'r' { Some(('\r', i + 1)) }
        else if c == 't' { Some(('\t', i + 1)) }
        else if c == 'u' { parse_unicode_escape(s, i + 1) }
        else { None }
    }
}

/// Parses the body of a string, `i` standing right after the opening quote;
/// returns the decoded characters and the position after the closing quote.
pub open spec fn parse_string_body(s: Seq<char>, i: int) -> Option<(Seq<char>, int)>
    decreases s.len() - i,
{
    if !(0 <= i && i < s.len()) {
        None
    } else if s[i] == '"' {
        Some((Seq::empty(), i + 1))
    } else if s[i] == '\\' {
        match parse_escape(s, i + 1) {
            None => None,
            Some((c, j)) => {
                if j <= i {
                    None
                } else {
                    match parse_string_body(s, j) {
                        None => None,
                        Some((rest, end)) => Some((seq![c] + rest, end)),
                    }
                }
            },
        }
    } else if (s[i] as u32) < 32 {
        None  // control characters must be escaped
    } else {
        match parse_string_body(s, i + 1) {
            None => None,
            Some((rest, end)) => Some((seq![s[i]] + rest, end)),
        }
    }
}

/// Parses one JSON value at `i` (no leading whitespace).
pub open spec fn parse_value(s: Seq<char>, i: int) -> Option<(JsonV, int)>
    decreases s.len() - i, 0int,
{
    if !(0 <= i && i < s.len()) {
        None
    } else {
        let c = s[i];
        if c == 'n' {
            if lit_at(s, i, seq!['n', 'u', 'l', 'l']) {
                Some((JsonV::Null, i + 4))
            } else {
                None
            }
        } else if c == 't' {
            if lit_at(s, i, seq!['t', 'r', 'u', 'e']) {
                Some((JsonV::Bool(true), i + 4))
            } else {
                None
            }
        } else if c == 'f' {
            if lit_at(s, i, seq!['f', 'a', 'l', 's', 'e']) {
                Some((JsonV::Bool(false), i + 5))
            } else {
                None
            }
        } else if c == '"' {
            match parse_string_body(s, i + 1) {
                None => None,
                Some((cs, j)) => Some((JsonV::Str(cs), j)),
            }
        } else if c == '[' {
            let j = skip_ws(s, i + 1);
            if j < s.len() && s[j] == ']' {
                Some((JsonV::Arr(Seq::empty()), j + 1))
            } else if j <= i || j > s.len() {
                None
            } else {
                match parse_elems(s, j) {
                    None => None,
                    Some((elems, end)) => Some((JsonV::Arr(elems), end)),
                }
            }
        } else if c == '{' {
            let j = skip_ws(s, i + 1);
            if j < s.len() && s[j] == '}' {
                Some((JsonV::Obj(Seq::empty()), j + 1))
            } else if j <= i || j > s.len() {
                None
            } else {
                match parse_members(s, j) {
                    None => None,
                    Some((mems, end)) => Some((JsonV::Obj(mems), end)),
                }
            }
        } else if c == '-' || is_digit(c) {
            parse_number(s, i)
        } else {
            None
        }
    }
}

/// Parses the elements of a non-empty array, `i` standing at the first
/// element; returns them and the position after the closing bracket.
pub open spec fn parse_elems(s: Seq<char>, i: int) -> Option<(Seq<JsonV>, int)>
    decreases s.len() - i, 1int,
{
    if !(0 <= i && i < s.len()) {
        None
    } else {
        match parse_value(s, i) {
            None => None,
            Some((v, j)) => {
                if j <= i {
                    None
                } else {
                    let k = skip_ws(s, j);
                    if k < s.len() && s[k] == ',' {
                        let m = skip_ws(s, k + 1);
                        if m <= i || m > s.len() {
                            None
                        } else {
                            match parse_elems(s, m) {
                                None => None,
                                Some((rest, end)) => Some((seq![v] + rest, end)),
                            }
                        }
                    } else if k < s.len() && s[k] == ']' {
                        Some((seq![v], k + 1))
                    } else {
                        None
                    }
                }
            },
        }
    }
}

/// Parses the members of a non-empty object, `i` standing at the first key;
/// returns them in textual order and the position after the closing brace.
pub open spec fn parse_members(s: Seq<char>, i: int) -> Option<(Seq<(Seq<char>, JsonV)>, int)>
    decreases s.len() - i, 1int,
{
    if !(0 <= i && i < s.len() && s[i] == '"') {
        None
    } else {
        match parse_string_body(s, i + 1) {
            None => None,
            Some((key, j)) => {
                let k = skip_ws(s, j);
                if !(k < s.len() && s[k] == ':') {
                    None
                } else {
                    let m = skip_ws(s, k + 1);
                    if m <= i || m > s.len() {
                        None
                    } else {
                        match parse_value(s, m) {
                            None => None,
                            Some((v, p)) => {
                                if p <= i {
                                    None
                                } else {
                                    let q = skip_ws(s, p);
                                    if q < s.len() && s[q] == ',' {
                                        let r = skip_ws(s, q + 1);
                                        if r <= i || r > s.len() {
                                            None
                                        } else {
                                            match parse_members(s, r) {
                                                None => None,
                                                Some((rest, end)) => Some(
                                                    (seq![(key, v)] + rest, end),
                                                ),
                                            }
                                        }
                                    } else if q < s.len() && s[q] == '}' {
                                        Some((seq![(key, v)], q + 1))
                                    } else {
                                        None
                                    }
                                }
                            },
                        }
                    }
                }
            },
        }
    }
}

/// Parses a complete JSON text: one value, surrounded by whitespace only.
pub open spec fn parse_text(s: Seq<char>) -> Option<JsonV> {
    let i = skip_ws(s, 0);
    match parse_value(s, i) {
        None => None,
        Some((v, j)) => {
            if skip_ws(s, j) == s.len() {
                Some(v)
            } else {
                None
            }
        },
    }
}

// ---------------------------------------------------------------------------
// Serialization, executable level
// ---------------------------------------------------------------------------

/// Relies on std's `FromIterator` for `String`: collecting characters yields
/// the string of exactly those characters, in order.
#[verifier::external_body]
pub(crate) fn chars_to_string(v: &Vec<char>) -> (s: String)
    ensures
        s@ == v@,
{
    v.iter().collect()
}

/// Whether two string slices hold the same characters.
#[verifier::loop_isolation(false)]
pub fn str_eq(a: &str, b: &str) -> (r: bool)
    ensures
        r == (a@ == b@),
{
    let na = a.unicode_len();
    let nb = b.unicode_len();
    if na != nb {
        return false;
    }
    let mut k: usize = 0;
    while k < na
        invariant
            k <= na,
            na == a@.len(),
            na == b@.len(),
            forall|t: int| 0 <= t < k ==> a@[t] == b@[t],
        decreases na - k,
    {
        if a.get_char(k) != b.get_char(k) {
            return false;
        }
        k += 1;
    }
    proof {
        assert(a@ =~= b@);
    }
    true
}

/// The characters of a string slice, as a vector.
#[verifier::loop_isolation(false)]
pub fn str_to_chars(s: &str) -> (v: Vec<char>)
    ensures
        v@ == s@,
{
    let n = s.unicode_len();
    let mut v: Vec<char> = Vec::new();
    let mut k: usize = 0;
    while k < n
        invariant
            n == s@.len(),
            k <= n,
            v@ == s@.take(k as int),
        decreases n - k,
    {
        v.push(s.get_char(k));
        proof {
            assert(v@ =~= s@.take(k + 1 as int));
        }
        k += 1;
    }
    proof {
        assert(v@ =~= s@);
    }
    v
}

fn digit_char_x(n: u64) -> (c: char)
    requires
        n < 10,
    ensures
        c == digit_char(n as int),
{
    if n == 0 { '0' }
    else if n == 1 { '1' }
    else if n == 2 { '2' }
    else if n == 3 { '3' }
    else if n == 4 { '4' }
    else if n == 5 { '5' }
    else if n == 6 { '6' }
    else if n == 7 { '7' }
    else if n == 8 { '8' }
    else { '9' }
}

fn hex_char_x(n: u32) -> (c: char)
    requires
        n < 16,
    ensures
        c == hex_char(n as int),
{
    if n < 10 {
        digit_char_x(n as u64)
    } else if n == 10 { 'a' }
    else if n == 11 { 'b' }
    else if n == 12 { 'c' }
    else if n == 13 { 'd' }
    else if n == 14 { 'e' }
    else { 'f' }
}

proof fn reverse_push<A>(s: Seq<A>, x: A)
    ensures
        s.push(x).reverse() == seq![x] + s.reverse(),
{
    assert(s.push(x).reverse() =~= seq![x] + s.reverse());
}

/// Appends the decimal digits of `m`.
#[verifier::loop_isolation(false)]
pub(crate) fn push_dec_digits(m: u64, out: &mut Vec<char>)
    ensures
        final(out)@ == old(out)@ + dec_digits(m as nat),
{
    let ghost base = out@;
    let mut tmp: Vec<char> = Vec::new();
    let mut n: u64 = m;
    while n >= 10
        invariant
            dec_digits(m as nat) == dec_digits(n as nat) + tmp@.reverse(),
        decreases n,
    {
        let d = digit_char_x(n % 10);
        proof {
            reverse_push(tmp@, d);
            assert(dec_digits(n as nat) + tmp@.reverse() =~= dec_digits(
                (n / 10) as nat,
            ) + tmp@.push(d).reverse());
        }
        tmp.push(d);
        n = n / 10;
    }
    out.push(digit_char_x(n));
    proof {
        assert(dec_digits(n as nat) =~= seq![digit_char(n as int)]);
    }
    let ghost tlen = tmp@.len() as int;
    let mut idx: usize = tmp.len();
    while idx > 0
        invariant
            idx <= tmp@.len(),
            tlen == tmp@.len(),
            out@ == base + seq![digit_char(n as int)] + tmp@.reverse().take(tlen - idx),
        decreases idx,
    {
        idx -= 1;
        out.push(tmp[idx]);
        proof {
            assert(tmp@.reverse()[tlen - idx - 1] == tmp@[idx as int]);
            assert(out@ =~= base + seq![digit_char(n as int)] + tmp@.reverse().take(
                tlen - idx,
            ));
        }
    }
    proof {
        assert(tmp@.reverse().take(tlen) =~= tmp@.reverse());
        assert(out@ =~= base + dec_digits(m as nat));
    }
}

/// Appends one character in its escaped form.
fn push_esc_char(c: char, out: &mut Vec<char>)
    ensures
        final(out)@ == old(out)@ + esc_char(c),
{
    if c == '"' {
        out.push('\\');
        out.push('"');
    } else if c == '\\' {
        out.push('\\');
        out.push('\\');
    } else if c == '\u{8}' {
        out.push('\\');
        out.push('b');
    } else if c == '\u{c}' {
        out.push('\\');
        out.push('f');
    } else if c == '\n' {
        out.push('\\');
        out.push('n');
    } else if c == '\r' {
        out.push('\\');
        out.push('r');
    } else if c == '\t' {
        out.push('\\');
        out.push('t');
    } else {
        let u = c as u32;
        if u < 32 {
            out.push('\\');
            out.push('u');
            out.push('0');
            out.push('0');
            out.push(hex_char_x(u / 16));
            out.push(hex_char_x(u % 16));
            proof {
                assert((u / 16) as int == (c as u32) as int / 16);
                assert((u % 16) as int == (c as u32) as int % 16);
                assert(out@ =~= old(out)@ + esc_char(c));
            }
        } else {
            out.push(c);
            proof {
                assert(esc_char(c) =~= seq![c]);
                assert(out@ =~= old(out)@ + esc_char(c));
            }
        }
    }
    proof {
        assert(out@ =~= old(out)@ + esc_char(c));
    }
}

proof fn esc_str_snoc(s: Seq<char>, c: char)
    ensures
        esc_str(s.push(c)) == esc_str(s) + esc_char(c),
    decreases s.len(),
{
    if s.len() == 0 {
        assert(s =~= Seq::<char>::empty());
        assert(s.push(c).first() == c);
        assert(s.push(c).drop_first() =~= Seq::<char>::empty());
        assert(esc_str(Seq::<char>::empty()) == Seq::<char>::empty());
        assert(esc_str(s.push(c)) =~= esc_str(s) + esc_char(c));
    } else {
        esc_str_snoc(s.drop_first(), c);
        assert(s.push(c).drop_first() =~= s.drop_first().push(c));
        assert(s.push(c).first() == s.first());
        assert(esc_str(s.push(c)) =~= esc_str(s) + esc_char(c));
    }
}

/// Appends a quoted, escaped JSON string.
#[verifier::loop_isolation(false)]
fn push_quoted(s: &str, out: &mut Vec<char>)
    ensures
        final(out)@ == old(out)@ + seq!['"'] + esc_str(s@) + seq!['"'],
{
    let ghost base = out@;
    out.push('"');
    let n = s.unicode_len();
    let mut k: usize = 0;
    while k < n
        invariant
            n == s@.len(),
            k <= n,
            out@ == base + seq!['"'] + esc_str(s@.take(k as int)),
        decreases n - k,
    {
        let c = s.get_char(k);
        push_esc_char(c, out);
        proof {
            esc_str_snoc(s@.take(k as int), c);
            assert(s@.take(k as int).push(c) =~= s@.take(k + 1 as int));
            assert(out@ =~= base + seq!['"'] + esc_str(s@.take(k + 1 as int)));
        }
        k += 1;
    }
    out.push('"');
    proof {
        assert(s@.take(n as int) =~= s@);
        assert(out@ =~= base + seq!['"'] + esc_str(s@) + seq!['"']);
    }
}

proof fn ser_elems_snoc(a: Seq<JsonV>, x: JsonV)
    ensures
        ser_elems(a.push(x)) == if a.len() == 0 {
            ser(x)
        } else {
            ser_elems(a) + seq![','] + ser(x)
        },
    decreases a.len(),
{
    if a.len() == 0 {
        assert(a.push(x).first() == x);
        assert(ser_elems(a.push(x)) =~= ser(x));
    } else {
        ser_elems_snoc(a.drop_first(), x);
        assert(a.push(x).drop_first() =~= a.drop_first().push(x));
        assert(a.push(x).first() == a.first());
        if a.len() == 1 {
            assert(a.drop_first().len() == 0);
            assert(ser_elems(a.push(x)) =~= ser_elems(a) + seq![','] + ser(x));
        } else {
            assert(ser_elems(a.push(x)) =~= ser_elems(a) + seq![','] + ser(x));
        }
    }
}

proof fn ser_members_snoc(m: Seq<(Seq<char>, JsonV)>, x: (Seq<char>, JsonV))
    ensures
        ser_members(m.push(x)) == if m.len() == 0 {
            ser_member(x)
        } else {
            ser_members(m) + seq![','] + ser_member(x)
        },
    decreases m.len(),
{
    if m.len() == 0 {
        assert(m.push(x).first() == x);
        assert(ser_members(m.push(x)) =~= ser_member(x));
    } else {
        ser_members_snoc(m.drop_first(), x);
        assert(m.push(x).drop_first() =~= m.drop_first().push(x));
        assert(m.push(x).first() == m.first());
        assert(ser_members(m.push(x)) =~= ser_members(m) + seq![','] + ser_member(x));
    }
}

proof fn views_of_elems_snoc(s: Seq<Json>, x: Json)
    ensures
        views_of_elems(s.push(x)) == views_of_elems(s).push(json_view(x)),
{
    assert(s.push(x).drop_last() =~= s);
    assert(s.push(x).last() == x);
}

proof fn views_of_members_snoc(s: Seq<(String, Json)>, x: (String, Json))
    ensures
        views_of_members(s.push(x)) == views_of_members(s).push((x.0@, json_view(x.1))),
{
    assert(s.push(x).drop_last() =~= s);
    assert(s.push(x).last() == x);
}

/// Appends the canonical text of `j`.
#[verifier::loop_isolation(false)]
#[verifier::rlimit(60)]
pub fn ser_into(j: &Json, out: &mut Vec<char>)
    ensures
        final(out)@ == old(out)@ + ser(j@),
    decreases *j,
{
    let ghost base = out@;
    match j {
        Json::Null => {
            out.push('n');
            out.push('u');
            out.push('l');
            out.push('l');
            proof {
                assert(out@ =~= base + ser(j@));
            }
        },
        Json::Bool(b) => {
            if *b {
                out.push('t');
                out.push('r');
                out.push('u');
                out.push('e');
            } else {
                out.push('f');
                out.push('a');
                out.push('l');
                out.push('s');
                out.push('e');
            }
            proof {
                assert(out@ =~= base + ser(j@));
            }
        },
        Json::Int(i) => {
            let m: u64;
            if *i < 0 {
                out.push('-');
                if *i == i64::MIN {
                    m = 9223372036854775808u64;
                } else {
                    m = (-(*i)) as u64;
                }
            } else {
                m = *i as u64;
            }
            push_dec_digits(m, out);
            proof {
                assert(out@ =~= base + ser(j@));
            }
        },
        Json::Num(t) => {
            let cs = str_to_chars(t.as_str());
            let mut k: usize = 0;
            while k < cs.len()
                invariant
                    cs@ == t@,
                    k <= cs@.len(),
                    out@ == base + t@.take(k as int),
                decreases cs@.len() - k,
            {
                out.push(cs[k]);
                proof {
                    assert(out@ =~= base + t@.take(k + 1 as int));
                }
                k += 1;
            }
            proof {
                assert(t@.take(t@.len() as int) =~= t@);
                assert(out@ =~= base + ser(j@));
            }
        },
        Json::Str(s) => {
            push_quoted(s.as_str(), out);
            proof {
                assert(out@ =~= base + ser(j@));
            }
        },
        Json::Arr(a) => {
            out.push('[');
            let mut k: usize = 0;
            while k < a.len()
                invariant
                    k <= a@.len(),
                    out@ == base + seq!['['] + ser_elems(views_of_elems(a@.take(k as int))),
                decreases a@.len() - k,
            {
                if k > 0 {
                    out.push(',');
                }
                proof {
                    assert(*j == Json::Arr(*a));
                    assert(decreases_to!(Json::Arr(*a) => *a));
                    assert(decreases_to!(*a => a@));
                    assert(decreases_to!(a@ => a@[k as int]));
                }
                ser_into(&a[k], out);
                proof {
                    broadcast use views_of_elems_len;

                    views_of_elems_snoc(a@.take(k as int), a@[k as int]);
                    ser_elems_snoc(
                        views_of_elems(a@.take(k as int)),
                        json_view(a@[k as int]),
                    );
                    assert(a@.take(k as int).push(a@[k as int]) =~= a@.take(k + 1 as int));
                    assert(out@ =~= base + seq!['['] + ser_elems(
                        views_of_elems(a@.take(k + 1 as int)),
                    ));
                }
                k += 1;
            }
            out.push(']');
            proof {
                assert(a@.take(a@.len() as int) =~= a@);
                assert(out@ =~= base + ser(j@));
            }
        },
        Json::Obj(m) => {
            out.push('{');
            let mut k: usize = 0;
            while k < m.len()
                invariant
                    k <= m@.len(),
                    out@ == base + seq!['{'] + ser_members(views_of_members(m@.take(k as int))),
                decreases m@.len() - k,
            {
                if k > 0 {
                    out.push(',');
                }
                push_quoted(m[k].0.as_str(), out);
                out.push(':');
                proof {
                    assert(*j == Json::Obj(*m));
                    assert(decreases_to!(Json::Obj(*m) => *m));
                    assert(decreases_to!(*m => m@));
                    assert(decreases_to!(m@ => m@[k as int]));
                    assert(decreases_to!(m@[k as int] => m@[k as int].1));
                }
                ser_into(&m[k].1, out);
                proof {
                    views_of_members_snoc(m@.take(k as int), m@[k as int]);
                    ser_members_snoc(
                        views_of_members(m@.take(k as int)),
                        (m@[k as int].0@, json_view(m@[k as int].1)),
                    );
                    assert(m@.take(k as int).push(m@[k as int]) =~= m@.take(k + 1 as int));
                    assert(out@ =~= base + seq!['{'] + ser_members(
                        views_of_members(m@.take(k + 1 as int)),
                    ));
                }
                k += 1;
            }
            out.push('}');
            proof {
                assert(m@.take(m@.len() as int) =~= m@);
                assert(out@ =~= base + ser(j@));
            }
        },
    }
}

impl Json {
    /// A structurally equal copy.
    #[verifier::loop_isolation(false)]
    pub fn deep_clone(&self) -> (r: Json)
        ensures
            r@ == self@,
        decreases *self,
    {
        match self {
            Json::Null => Json::Null,
            Json::Bool(b) => Json::Bool(*b),
            Json::Int(i) => Json::Int(*i),
            Json::Num(t) => Json::Num(t.clone()),
            Json::Str(s) => Json::Str(s.clone()),
            Json::Arr(a) => {
                let mut out: Vec<Json> = Vec::new();
                let mut k: usize = 0;
                while k < a.len()
                    invariant
                        k <= a@.len(),
                        views_of_elems(out@) == views_of_elems(a@.take(k as int)),
                    decreases a@.len() - k,
                {
                    proof {
                        assert(*self == Json::Arr(*a));
                        assert(decreases_to!(Json::Arr(*a) => *a));
                        assert(decreases_to!(*a => a@));
                        assert(decreases_to!(a@ => a@[k as int]));
                    }
                    let ghost old_out = out@;
                    out.push(a[k].deep_clone());
                    proof {
                        views_of_elems_snoc(old_out, out@.last());
                        assert(old_out.push(out@.last()) =~= out@);
                        views_of_elems_snoc(a@.take(k as int), a@[k as int]);
                        assert(a@.take(k as int).push(a@[k as int]) =~= a@.take(k + 1 as int));
                    }
                    k += 1;
                }
                proof {
                    assert(a@.take(a@.len() as int) =~= a@);
                }
                Json::Arr(out)
            },
            Json::Obj(m) => {
                let mut out: Vec<(String, Json)> = Vec::new();
                let mut k: usize = 0;
                while k < m.len()
                    invariant
                        k <= m@.len(),
                        views_of_members(out@) == views_of_members(m@.take(k as int)),
                    decreases m@.len() - k,
                {
                    proof {
                        assert(*self == Json::Obj(*m));
                        assert(decreases_to!(Json::Obj(*m) => *m));
                        assert(decreases_to!(*m => m@));
                        assert(decreases_to!(m@ => m@[k as int]));
                        assert(decreases_to!(m@[k as int] => m@[k as int].1));
                    }
                    let ghost old_out = out@;
                    let key = m[k].0.clone();
                    let val = m[k].1.deep_clone();
                    out.push((key, val));
                    proof {
                        views_of_members_snoc(old_out, out@.last());
                        assert(old_out.push(out@.last()) =~= out@);
                        views_of_members_snoc(m@.take(k as int), m@[k as int]);
                        assert(m@.take(k as int).push(m@[k as int]) =~= m@.take(k + 1 as int));
                    }
                    k += 1;
                }
                proof {
                    assert(m@.take(m@.len() as int) =~= m@);
                }
                Json::Obj(out)
            },
        }
    }
}

/// The canonical JSON text of a value.
pub fn to_text(j: &Json) -> (r: String)
    ensures
        r@ == ser(j@),
{
    let mut out: Vec<char> = Vec::new();
    ser_into(j, &mut out);
    chars_to_string(&out)
}

// ---------------------------------------------------------------------------
// Parsing, executable level
// ---------------------------------------------------------------------------

/// The executable outcome `er` is what the specification `sr` describes.
pub open spec fn value_result_matches(sr: Option<(JsonV, int)>, er: Option<(Json, usize)>) -> bool {
    match (sr, er) {
        (Option::None, Option::None) => true,
        (Option::Some((v, j)), Option::Some((jv, k))) => jv@ == v && k as int == j,
        _ => false,
    }
}

pub open spec fn char_result_matches(sr: Option<(char, int)>, er: Option<(char, usize)>) -> bool {
    match (sr, er) {
        (Option::None, Option::None) => true,
        (Option::Some((c, j)), Option::Some((d, k))) => c == d && k as int == j,
        _ => false,
    }
}

pub open spec fn str_result_matches(sr: Option<(Seq<char>, int)>, er: Option<(Vec<char>, usize)>) -> bool {
    match (sr, er) {
        (Option::None, Option::None) => true,
        (Option::Some((cs, j)), Option::Some((v, k))) => v@ == cs && k as int == j,
        _ => false,
    }
}

pub open spec fn elems_result_matches(
    sr: Option<(Seq<JsonV>, int)>,
    er: Option<(Vec<Json>, usize)>,
) -> bool {
    match (sr, er) {
        (Option::None, Option::None) => true,
        (Option::Some((vs, j)), Option::Some((a, k))) => views_of_elems(a@) == vs && k as int == j,
        _ => false,
    }
}

pub open spec fn members_result_matches(
    sr: Option<(Seq<(Seq<char>, JsonV)>, int)>,
    er: Option<(Vec<(String, Json)>, usize)>,
) -> bool {
    match (sr, er) {
        (Option::None, Option::None) => true,
        (Option::Some((ms, j)), Option::Some((a, k))) => views_of_members(a@) == ms && k as int
            == j,
        _ => false,
    }
}

fn is_ws_x(c: char) -> (r: bool)
    ensures
        r == is_ws(c),
{
    c == ' ' || c == '\n' || c == '\r' || c == '\t'
}

fn is_digit_x(c: char) -> (r: bool)
    ensures
        r == is_digit(c),
{
    let u = c as u32;
    48 <= u && u <= 57
}

fn is_hex_x(c: char) -> (r: bool)
    ensures
        r == is_hex(c),
{
    let u = c as u32;
    (48 <= u && u <= 57) || (97 <= u && u <= 102) || (65 <= u && u <= 70)
}

fn hex_val_x(c: char) -> (r: u32)
    requires
        is_hex(c),
    ensures
        r as int == hex_val(c),
        r < 16,
{
    let u = c as u32;
    if 48 <= u && u <= 57 {
        u - 48
    } else if 97 <= u && u <= 102 {
        u - 87
    } else {
        u - 55
    }
}

/// Relies on std's `char::from_u32`: it returns `Some` of the character with
/// that code point exactly for the Unicode scalar values, `None` otherwise.
#[verifier::external_body]
fn char_from_code(u: u32) -> (r: Option<char>)
    ensures
        r == if vstd::utf8::is_scalar(u) {
            Option::Some(u as char)
        } else {
            Option::<char>::None
        },
{
    char::from_u32(u)
}

#[verifier::loop_isolation(false)]
fn skip_ws_x(s: &Vec<char>, i: usize) -> (r: usize)
    requires
        i <= s@.len(),
    ensures
        r as int == skip_ws(s@, i as int),
        i <= r <= s@.len(),
{
    let mut k = i;
    while k < s.len() && is_ws_x(s[k])
        invariant
            i <= k <= s@.len(),
            skip_ws(s@, i as int) == skip_ws(s@, k as int),
        decreases s@.len() - k,
    {
        k += 1;
    }
    k
}

#[verifier::loop_isolation(false)]
pub(crate) fn digits_end_x(s: &Vec<char>, i: usize) -> (r: usize)
    requires
        i <= s@.len(),
    ensures
        r as int == digits_end(s@, i as int),
        i <= r <= s@.len(),
{
    let mut k = i;
    while k < s.len() && is_digit_x(s[k])
        invariant
            i <= k <= s@.len(),
            digits_end(s@, i as int) == digits_end(s@, k as int),
        decreases s@.len() - k,
    {
        k += 1;
    }
    k
}

fn hex4_x(s: &Vec<char>, i: usize) -> (r: Option<u32>)
    requires
        i <= s@.len(),
    ensures
        match (hex4(s@, i as int), r) {
            (Option::None, Option::None) => true,
            (Option::Some(u), Option::Some(v)) => u == v as int && v < 0x10000,
            _ => false,
        },
{
    if s.len() - i >= 4 && is_hex_x(s[i]) && is_hex_x(s[i + 1]) && is_hex_x(s[i + 2]) && is_hex_x(
        s[i + 3],
    ) {
        let v = ((hex_val_x(s[i]) * 16 + hex_val_x(s[i + 1])) * 16 + hex_val_x(s[i + 2])) * 16
            + hex_val_x(s[i + 3]);
        Some(v)
    } else {
        None
    }
}

fn parse_unicode_escape_x(s: &Vec<char>, i: usize) -> (r: Option<(char, usize)>)
    requires
        i <= s@.len(),
    ensures
        char_result_matches(parse_unicode_escape(s@, i as int), r),
        r is Some ==> i < r.unwrap().1 <= s@.len(),
{
    let n = s.len();
    let u = match hex4_x(s, i) {
        None => {
            return None;
        },
        Some(u) => u,
    };
    proof {
        assert(hex4(s@, i as int) is Some);
        assert(i + 4 <= n);
    }
    if 0xD800 <= u && u <= 0xDBFF {
        if s.len() - i >= 6 && s[i + 4] == '\\' && s[i + 5] == 'u' {
            let lo = match hex4_x(s, i + 6) {
                None => {
                    return None;
                },
                Some(lo) => lo,
            };
            if 0xDC00 <= lo && lo <= 0xDFFF {
                let code = 0x10000 + (u - 0xD800) * 0x400 + (lo - 0xDC00);
                match char_from_code(code) {
                    Some(c) => Some((c, i + 10)),
                    None => {
                        proof {
                            assert(false);
                        }
                        None
                    },
                }
            } else {
                None
            }
        } else {
            None
        }
    } else if 0xDC00 <= u && u <= 0xDFFF {
        None
    } else {
        proof {
            assert(hex4(s@, i as int) is Some);
            assert(i + 4 <= s@.len());
        }
        match char_from_code(u) {
            Some(c) => Some((c, i + 4)),
            None => {
                proof {
                    assert(false);
                }
                None
            },
        }
    }
}

fn parse_escape_x(s: &Vec<char>, i: usize) -> (r: Option<(char, usize)>)
    requires
        i <= s@.len(),
    ensures
        char_result_matches(parse_escape(s@, i as int), r),
        r is Some ==> i < r.unwrap().1 <= s@.len(),
{
    if i >= s.len() {
        return None;
    }
    let c = s[i];
    if c == '"' { Some(('"', i + 1)) }
    else if c == '\\' { Some(('\\', i + 1)) }
    else if c == '/' { Some(('/', i + 1)) }
    else if c == 'b' { Some(('\u{8}', i + 1)) }
    else if c == 'f' { Some(('\u{c}', i + 1)) }
    else if c == 'n' { Some(('\n', i + 1)) }
    else if c == 'r' { Some(('\r', i + 1)) }
    else if c == 't' { Some(('\t', i + 1)) }
    else if c == 'u' { parse_unicode_escape_x(s, i + 1) }
    else { None }
}

/// Prepends already-decoded characters onto a string-body parse outcome.
pub open spec fn psb_compose(pre: Seq<char>, r: Option<(Seq<char>, int)>) -> Option<
    (Seq<char>, int),
> {
    match r {
        Option::None => Option::None,
        Option::Some((rest, end)) => Option::Some((pre + rest, end)),
    }
}

#[verifier::loop_isolation(false)]
fn parse_string_body_x(s: &Vec<char>, i: usize) -> (r: Option<(Vec<char>, usize)>)
    requires
        i <= s@.len(),
    ensures
        str_result_matches(parse_string_body(s@, i as int), r),
        r is Some ==> i < r.unwrap().1 <= s@.len(),
{
    let mut out: Vec<char> = Vec::new();
    let mut pos = i;
    loop
        invariant
            i <= pos <= s@.len(),
            parse_string_body(s@, i as int) == psb_compose(
                out@,
                parse_string_body(s@, pos as int),
            ),
        decreases s@.len() - pos,
    {
        if pos >= s.len() {
            return None;
        }
        let c = s[pos];
        if c == '"' {
            proof {
                assert(out@ + Seq::<char>::empty() =~= out@);
            }
            return Some((out, pos + 1));
        } else if c == '\\' {
            match parse_escape_x(s, pos + 1) {
                None => {
                    return None;
                },
                Some((ec, j)) => {
                    if j <= pos {
                        return None;
                    }
                    let ghost old_out = out@;
                    let ghost old_pos = pos as int;
                    out.push(ec);
                    pos = j;
                    proof {
                        match parse_string_body(s@, pos as int) {
                            Option::None => {},
                            Option::Some((rest, end)) => {
                                assert(old_out + (seq![ec] + rest) =~= out@ + rest);
                            },
                        }
                    }
                },
            }
        } else {
            let u = c as u32;
            if u < 32 {
                return None;
            }
            let ghost old_out = out@;
            let ghost old_pos = pos as int;
            out.push(c);
            pos += 1;
            proof {
                match parse_string_body(s@, pos as int) {
                    Option::None => {},
                    Option::Some((rest, end)) => {
                        assert(old_out + (seq![c] + rest) =~= out@ + rest);
                    },
                }
            }
        }
    }
}

proof fn digits_val_bounds(s: Seq<char>, i: int, j: int)
    requires
        0 <= i <= j <= s.len(),
        forall|k: int| i <= k < j ==> is_digit(s[k]),
    ensures
        digits_val(s, i, j) >= 0,
        i < j ==> digits_val(s, i, j) >= digits_val(s, i, j - 1),
    decreases j - i,
{
    if i < j {
        digits_val_bounds(s, i, j - 1);
    }
}

proof fn digits_val_mono(s: Seq<char>, i: int, k: int, j: int)
    requires
        0 <= i <= k <= j <= s.len(),
        forall|t: int| i <= t < j ==> is_digit(s[t]),
    ensures
        digits_val(s, i, k) <= digits_val(s, i, j),
    decreases j - k,
{
    if k < j {
        digits_val_mono(s, i, k, j - 1);
        digits_val_bounds(s, i, j);
    }
}

/// The value of a run of decimal digits, or `None` when it exceeds `u64`.
#[verifier::loop_isolation(false)]
pub(crate) fn digits_to_u64(s: &Vec<char>, p: usize, end: usize) -> (r: Option<u64>)
    requires
        p <= end <= s@.len(),
        forall|k: int| p <= k < end ==> is_digit(s@[k]),
    ensures
        match r {
            Option::Some(m) => m as int == digits_val(s@, p as int, end as int),
            Option::None => digits_val(s@, p as int, end as int) > u64::MAX as int,
        },
{
    let mut acc: u64 = 0;
    let mut k = p;
    while k < end
        invariant
            p <= k <= end,
            acc as int == digits_val(s@, p as int, k as int),
        decreases end - k,
    {
        let d = (s[k] as u32 - 48) as u64;
        let stepped = match acc.checked_mul(10) {
            None => None,
            Some(x) => x.checked_add(d),
        };
        match stepped {
            None => {
                proof {
                    assert(digits_val(s@, p as int, k + 1 as int) > u64::MAX as int);
                    digits_val_mono(s@, p as int, k + 1 as int, end as int);
                }
                return None;
            },
            Some(y) => {
                acc = y;
            },
        }
        k += 1;
    }
    Some(acc)
}

fn frac_end_x(s: &Vec<char>, p: usize) -> (r: Option<usize>)
    requires
        p <= s@.len(),
    ensures
        match (frac_end(s@, p as int), r) {
            (Option::None, Option::None) => true,
            (Option::Some(j), Option::Some(k)) => j == k as int && p <= k <= s@.len(),
            _ => false,
        },
{
    if p < s.len() && s[p] == '.' {
        if p + 1 < s.len() && is_digit_x(s[p + 1]) {
            Some(digits_end_x(s, p + 1))
        } else {
            None
        }
    } else {
        Some(p)
    }
}

fn exp_end_x(s: &Vec<char>, p: usize) -> (r: Option<usize>)
    requires
        p <= s@.len(),
    ensures
        match (exp_end(s@, p as int), r) {
            (Option::None, Option::None) => true,
            (Option::Some(j), Option::Some(k)) => j == k as int && p <= k <= s@.len(),
            _ => false,
        },
{
    if p < s.len() && (s[p] == 'e' || s[p] == 'E') {
        let q = if p + 1 < s.len() && (s[p + 1] == '+' || s[p + 1] == '-') {
            p + 2
        } else {
            p + 1
        };
        if q < s.len() && is_digit_x(s[q]) {
            Some(digits_end_x(s, q))
        } else {
            None
        }
    } else {
        Some(p)
    }
}

/// Copies `s[from..to]` into a fresh string.
#[verifier::loop_isolation(false)]
fn subrange_string(s: &Vec<char>, from: usize, to: usize) -> (r: String)
    requires
        from <= to <= s@.len(),
    ensures
        r@ == s@.subrange(from as int, to as int),
{
    let mut tok: Vec<char> = Vec::new();
    let mut k = from;
    while k < to
        invariant
            from <= k <= to,
            tok@ == s@.subrange(from as int, k as int),
        decreases to - k,
    {
        tok.push(s[k]);
        proof {
            assert(tok@ =~= s@.subrange(from as int, k + 1 as int));
        }
        k += 1;
    }
    chars_to_string(&tok)
}

#[verifier::loop_isolation(false)]
fn parse_number_x(s: &Vec<char>, i: usize) -> (r: Option<(Json, usize)>)
    requires
        i <= s@.len(),
    ensures
        value_result_matches(parse_number(s@, i as int), r),
        r is Some ==> i < r.unwrap().1 <= s@.len(),
{
    let neg = i < s.len() && s[i] == '-';
    let p = if neg {
        i + 1
    } else {
        i
    };
    if !(p < s.len() && is_digit_x(s[p])) {
        return None;
    }
    let int_end = if s[p] == '0' {
        p + 1
    } else {
        digits_end_x(s, p)
    };
    if int_end < s.len() && is_digit_x(s[int_end]) {
        return None;
    }
    let fe = match frac_end_x(s, int_end) {
        None => {
            return None;
        },
        Some(fe) => fe,
    };
    let end = match exp_end_x(s, fe) {
        None => {
            return None;
        },
        Some(e) => e,
    };
    if int_end == end {
        proof {
            assert(forall|k: int|
                p <= k < int_end ==> is_digit(s@[k])) by {
                assert(forall|k: int| p <= k < digits_end(s@, p as int) ==> is_digit(s@[k])) by {
                    digits_end_digits(s@, p as int);
                }
            }
        }
        let fits: Option<i64> = match digits_to_u64(s, p, int_end) {
            None => None,
            Some(m) => {
                if neg {
                    if m <= 9223372036854775807u64 {
                        Some(-(m as i64))
                    } else if m == 9223372036854775808u64 {
                        Some(i64::MIN)
                    } else {
                        None
                    }
                } else {
                    if m <= 9223372036854775807u64 {
                        Some(m as i64)
                    } else {
                        None
                    }
                }
            },
        };
        match fits {
            Some(v) => {
                return Some((Json::Int(v), end));
            },
            None => {
                proof {
                    digits_val_mono(s@, p as int, p as int, int_end as int);
                }
                let tok = subrange_string(s, i, end);
                return Some((Json::Num(tok), end));
            },
        }
    }
    let tok = subrange_string(s, i, end);
    Some((Json::Num(tok), end))
}

/// Every position before `digits_end` holds a digit.
pub(crate) proof fn digits_end_digits(s: Seq<char>, i: int)
    ensures
        forall|k: int| i <= k < digits_end(s, i) ==> is_digit(s[k]),
    decreases s.len() - i,
{
    if 0 <= i && i < s.len() && is_digit(s[i]) {
        digits_end_digits(s, i + 1);
    }
}

/// Character-wise reading of `lit_at`.
proof fn lit_at_chars(s: Seq<char>, i: int, lit: Seq<char>)
    requires
        0 <= i && i + lit.len() <= s.len(),
    ensures
        lit_at(s, i, lit) <==> (forall|k: int| 0 <= k < lit.len() ==> s[i + k] == lit[k]),
{
    if lit_at(s, i, lit) {
        assert forall|k: int| 0 <= k < lit.len() implies s[i + k] == lit[k] by {
            assert(s.subrange(i, i + lit.len())[k] == s[i + k]);
        }
    }
    if forall|k: int| 0 <= k < lit.len() ==> s[i + k] == lit[k] {
        assert(s.subrange(i, i + lit.len()) =~= lit);
    }
}

/// Prepends already-parsed elements onto an element-list parse outcome.
pub open spec fn pe_compose(pre: Seq<JsonV>, r: Option<(Seq<JsonV>, int)>) -> Option<
    (Seq<JsonV>, int),
> {
    match r {
        Option::None => Option::None,
        Option::Some((rest, end)) => Option::Some((pre + rest, end)),
    }
}

/// Prepends already-parsed members onto a member-list parse outcome.
pub open spec fn pm_compose(
    pre: Seq<(Seq<char>, JsonV)>,
    r: Option<(Seq<(Seq<char>, JsonV)>, int)>,
) -> Option<(Seq<(Seq<char>, JsonV)>, int)> {
    match r {
        Option::None => Option::None,
        Option::Some((rest, end)) => Option::Some((pre + rest, end)),
    }
}

/// Parses one JSON value at `i`.
#[verifier::loop_isolation(false)]
pub fn parse_value_x(s: &Vec<char>, i: usize) -> (r: Option<(Json, usize)>)
    requires
        i <= s@.len(),
    ensures
        value_result_matches(parse_value(s@, i as int), r),
        r is Some ==> i < r.unwrap().1 <= s@.len(),
    decreases s@.len() - i, 0int,
{
    let n = s.len();
    if i >= n {
        return None;
    }
    let c = s[i];
    if c == 'n' {
        if n - i >= 4 && s[i + 1] == 'u' && s[i + 2] == 'l' && s[i + 3] == 'l' {
            proof {
                assert(s@.subrange(i as int, i + 4 as int) =~= seq!['n', 'u', 'l', 'l']);
            }
            Some((Json::Null, i + 4))
        } else {
            proof {
                if n - i >= 4 {
                    lit_at_chars(s@, i as int, seq!['n', 'u', 'l', 'l']);
                }
            }
            None
        }
    } else if c == 't' {
        if n - i >= 4 && s[i + 1] == 'r' && s[i + 2] == 'u' && s[i + 3] == 'e' {
            proof {
                assert(s@.subrange(i as int, i + 4 as int) =~= seq!['t', 'r', 'u', 'e']);
            }
            Some((Json::Bool(true), i + 4))
        } else {
            proof {
                if n - i >= 4 {
                    lit_at_chars(s@, i as int, seq!['t', 'r', 'u', 'e']);
                }
            }
            None
        }
    } else if c == 'f' {
        if n - i >= 5 && s[i + 1] == 'a' && s[i + 2] == 'l' && s[i + 3] == 's' && s[i + 4] == 'e' {
            proof {
                assert(s@.subrange(i as int, i + 5 as int) =~= seq!['f', 'a', 'l', 's', 'e']);
            }
            Some((Json::Bool(false), i + 5))
        } else {
            proof {
                if n - i >= 5 {
                    lit_at_chars(s@, i as int, seq!['f', 'a', 'l', 's', 'e']);
                }
            }
            None
        }
    } else if c == '"' {
        match parse_string_body_x(s, i + 1) {
            None => None,
            Some((cs, j)) => Some((Json::Str(chars_to_string(&cs)), j)),
        }
    } else if c == '[' {
        let j = skip_ws_x(s, i + 1);
        if j < n && s[j] == ']' {
            proof {
                assert(views_of_elems(Seq::<Json>::empty()) == Seq::<JsonV>::empty());
            }
            Some((Json::Arr(Vec::new()), j + 1))
        } else if j <= i {
            None
        } else {
            match parse_elems_x(s, j) {
                None => None,
                Some((a, end)) => Some((Json::Arr(a), end)),
            }
        }
    } else if c == '{' {
        let j = skip_ws_x(s, i + 1);
        if j < n && s[j] == '}' {
            proof {
                assert(views_of_members(Seq::<(String, Json)>::empty()) == Seq::<
                    (Seq<char>, JsonV),
                >::empty());
            }
            Some((Json::Obj(Vec::new()), j + 1))
        } else if j <= i {
            None
        } else {
            match parse_members_x(s, j) {
                None => None,
                Some((m, end)) => Some((Json::Obj(m), end)),
            }
        }
    } else if c == '-' || is_digit_x(c) {
        parse_number_x(s, i)
    } else {
        None
    }
}

/// Parses the elements of a non-empty array.
#[verifier::loop_isolation(false)]
fn parse_elems_x(s: &Vec<char>, i: usize) -> (r: Option<(Vec<Json>, usize)>)
    requires
        i <= s@.len(),
    ensures
        elems_result_matches(parse_elems(s@, i as int), r),
        r is Some ==> i < r.unwrap().1 <= s@.len(),
    decreases s@.len() - i, 1int,
{
    let mut acc: Vec<Json> = Vec::new();
    let mut pos = i;
    loop
        invariant
            i <= pos <= s@.len(),
            parse_elems(s@, i as int) == pe_compose(
                views_of_elems(acc@),
                parse_elems(s@, pos as int),
            ),
        decreases s@.len() - pos,
    {
        if pos >= s.len() {
            return None;
        }
        let (v, j) = match parse_value_x(s, pos) {
            None => {
                return None;
            },
            Some(vj) => vj,
        };
        if j <= pos {
            return None;
        }
        let ghost old_acc = acc@;
        let ghost old_pos = pos as int;
        let ghost vv = v@;
        acc.push(v);
        proof {
            views_of_elems_snoc(old_acc, acc@.last());
            assert(old_acc.push(acc@.last()) =~= acc@);
        }
        let k = skip_ws_x(s, j);
        if k < s.len() && s[k] == ',' {
            let m = skip_ws_x(s, k + 1);
            if m <= pos {
                return None;
            }
            pos = m;
            proof {
                match parse_elems(s@, pos as int) {
                    Option::None => {},
                    Option::Some((rest, end)) => {
                        assert(views_of_elems(old_acc) + (seq![vv] + rest) =~= views_of_elems(
                            acc@,
                        ) + rest);
                    },
                }
            }
        } else if k < s.len() && s[k] == ']' {
            proof {
                assert(views_of_elems(old_acc) + seq![vv] =~= views_of_elems(acc@));
            }
            return Some((acc, k + 1));
        } else {
            return None;
        }
    }
}

/// Parses the members of a non-empty object.
#[verifier::loop_isolation(false)]
fn parse_members_x(s: &Vec<char>, i: usize) -> (r: Option<(Vec<(String, Json)>, usize)>)
    requires
        i <= s@.len(),
    ensures
        members_result_matches(parse_members(s@, i as int), r),
        r is Some ==> i < r.unwrap().1 <= s@.len(),
    decreases s@.len() - i, 1int,
{
    let mut acc: Vec<(String, Json)> = Vec::new();
    let mut pos = i;
    loop
        invariant
            i <= pos <= s@.len(),
            parse_members(s@, i as int) == pm_compose(
                views_of_members(acc@),
                parse_members(s@, pos as int),
            ),
        decreases s@.len() - pos,
    {
        if !(pos < s.len() && s[pos] == '"') {
            return None;
        }
        let (key, j) = match parse_string_body_x(s, pos + 1) {
            None => {
                return None;
            },
            Some(kj) => kj,
        };
        let k = skip_ws_x(s, j);
        if !(k < s.len() && s[k] == ':') {
            return None;
        }
        let m = skip_ws_x(s, k + 1);
        if m <= pos {
            return None;
        }
        let (v, p) = match parse_value_x(s, m) {
            None => {
                return None;
            },
            Some(vp) => vp,
        };
        if p <= pos {
            return None;
        }
        let ghost old_acc = acc@;
        let ghost old_pos = pos as int;
        let ghost kv = key@;
        let ghost vv = v@;
        acc.push((chars_to_string(&key), v));
        proof {
            views_of_members_snoc(old_acc, acc@.last());
            assert(old_acc.push(acc@.last()) =~= acc@);
        }
        let q = skip_ws_x(s, p);
        if q < s.len() && s[q] == ',' {
            let rr = skip_ws_x(s, q + 1);
            if rr <= pos {
                return None;
            }
            pos = rr;
            proof {
                match parse_members(s@, pos as int) {
                    Option::None => {},
                    Option::Some((rest, end)) => {
                        assert(views_of_members(old_acc) + (seq![(kv, vv)] + rest)
                            =~= views_of_members(acc@) + rest);
                    },
                }
            }
        } else if q < s.len() && s[q] == '}' {
            proof {
                assert(views_of_members(old_acc) + seq![(kv, vv)] =~= views_of_members(acc@));
            }
            return Some((acc, q + 1));
        } else {
            return None;
        }
    }
}

/// The executable outcome `er` is what the text-level specification says.
pub open spec fn text_result_matches(sr: Option<JsonV>, er: Option<Json>) -> bool {
    match (sr, er) {
        (Option::None, Option::None) => true,
        (Option::Some(v), Option::Some(j)) => j@ == v,
        _ => false,
    }
}

// ---------------------------------------------------------------------------
// Round trip: parsing the canonical text of a valid value gives it back
// ---------------------------------------------------------------------------

/// A value whose canonical text parses back to itself.  Everything is valid
/// except a raw number token that does not parse as exactly that token (for
/// one, a token in plain integer form fitting `i64`, which the parser would
/// return as `Int`).
pub open spec fn json_valid(v: JsonV) -> bool
    decreases v,
{
    match v {
        JsonV::Null => true,
        JsonV::Bool(_) => true,
        JsonV::Int(_) => true,
        JsonV::Num(t) => parse_number(t, 0) == Option::Some((JsonV::Num(t), t.len() as int)),
        JsonV::Str(_) => true,
        JsonV::Arr(a) => forall|k: int| 0 <= k < a.len() ==> json_valid(#[trigger] a[k]),
        JsonV::Obj(m) => forall|k: int| 0 <= k < m.len() ==> json_valid(#[trigger] m[k].1),
    }
}

/// A character that ends a number token wherever it stands.
pub open spec fn num_break(c: char) -> bool {
    !(is_digit(c) || c == '.' || c == 'e' || c == 'E' || c == '+' || c == '-')
}

proof fn lemma_subrange_split(s: Seq<char>, i: int, a: Seq<char>, b: Seq<char>)
    requires
        0 <= i,
        i + a.len() + b.len() <= s.len(),
        s.subrange(i, i + a.len() + b.len()) == a + b,
    ensures
        s.subrange(i, i + a.len()) == a,
        s.subrange(i + a.len(), i + a.len() + b.len()) == b,
        forall|k: int| 0 <= k < a.len() ==> s[i + k] == a[k],
        forall|k: int| 0 <= k < b.len() ==> s[i + a.len() + k] == b[k],
{
    assert forall|k: int| 0 <= k < a.len() implies s[i + k] == a[k] by {
        assert(s.subrange(i, i + a.len() + b.len())[k] == s[i + k]);
        assert((a + b)[k] == a[k]);
    }
    assert forall|k: int| 0 <= k < b.len() implies s[i + a.len() + k] == b[k] by {
        assert(s.subrange(i, i + a.len() + b.len())[a.len() + k] == s[i + a.len() + k]);
        assert((a + b)[a.len() + k] == b[k]);
    }
    assert(s.subrange(i, i + a.len()) =~= a);
    assert(s.subrange(i + a.len(), i + a.len() + b.len()) =~= b);
}

proof fn digit_char_props(m: int)
    requires
        0 <= m < 10,
    ensures
        is_digit(digit_char(m)),
        digit_val(digit_char(m)) == m,
{
}

proof fn hex_char_props(m: int)
    requires
        0 <= m < 16,
    ensures
        is_hex(hex_char(m)),
        hex_val(hex_char(m)) == m,
{
}

/// The decimal form of `n` is non-empty, all digits, and starts with `0`
/// only for `n == 0`.
pub(crate) proof fn dec_digits_props(n: nat)
    ensures
        dec_digits(n).len() >= 1,
        forall|k: int| 0 <= k < dec_digits(n).len() ==> is_digit(#[trigger] dec_digits(n)[k]),
        dec_digits(n)[0] == '0' <==> n == 0,
    decreases n,
{
    if n < 10 {
        digit_char_props(n as int);
    } else {
        dec_digits_props(n / 10);
        digit_char_props((n % 10) as int);
        assert forall|k: int| 0 <= k < dec_digits(n).len() implies is_digit(
            #[trigger] dec_digits(n)[k],
        ) by {
            if k < dec_digits(n).len() - 1 {
                assert(dec_digits(n)[k] == dec_digits(n / 10)[k]);
            }
        }
        assert(dec_digits(n)[0] == dec_digits(n / 10)[0]);
    }
}

/// A digit run bounded by a non-digit (or the end) is exactly what
/// `digits_end` scans.
pub(crate) proof fn digits_end_run(s: Seq<char>, a: int, b: int)
    requires
        0 <= a <= b <= s.len(),
        forall|k: int| a <= k < b ==> is_digit(s[k]),
        b == s.len() || !is_digit(s[b]),
    ensures
        digits_end(s, a) == b,
    decreases b - a,
{
    if a < b {
        digits_end_run(s, a + 1, b);
    }
}

/// Reading the decimal form of `n` back as digits gives `n`.
pub(crate) proof fn digits_val_of_dec(s: Seq<char>, i: int, n: nat)
    requires
        0 <= i,
        i + dec_digits(n).len() <= s.len(),
        forall|k: int| 0 <= k < dec_digits(n).len() ==> s[i + k] == #[trigger] dec_digits(n)[k],
    ensures
        digits_val(s, i, i + dec_digits(n).len()) == n,
    decreases n,
{
    let d = dec_digits(n);
    if n < 10 {
        digit_char_props(n as int);
        assert(s[i] == d[0]);
        assert(digits_val(s, i, i) == 0);
        assert(digits_val(s, i, i + 1) == digit_val(s[i]));
    } else {
        dec_digits_props(n / 10);
        digit_char_props((n % 10) as int);
        assert forall|k: int| 0 <= k < dec_digits(n / 10).len() implies s[i + k]
            == #[trigger] dec_digits(n / 10)[k] by {
            assert(d[k] == dec_digits(n / 10)[k]);
        }
        digits_val_of_dec(s, i, n / 10);
        assert(s[i + d.len() - 1] == d[d.len() - 1]);
        assert(digits_val(s, i, i + d.len()) == digits_val(s, i, i + d.len() - 1) * 10
            + digit_val(s[i + d.len() - 1]));
    }
}

/// Parsing a number token at a shifted position gives the shifted outcome.
/// `t` is the whole token; after it the text ends or breaks the token.
proof fn parse_number_shift(s: Seq<char>, i: int, t: Seq<char>)
    requires
        0 <= i,
        i + t.len() <= s.len(),
        t.len() > 0,
        forall|k: int| 0 <= k < t.len() ==> s[i + k] == t[k],
        i + t.len() == s.len() || num_break(s[i + t.len()]),
        parse_number(t, 0) matches Option::Some((v, e)) && e == t.len(),
    ensures
        ({
            let r = parse_number(t, 0);
            parse_number(s, i) == Option::Some((shift_num_value(r.unwrap().0, s, i, t), i + t.len()))
        }),
{
    let p_t: int = if t[0] == '-' {
        1
    } else {
        0
    };
    let p_s = i + p_t;
    assert(s[i] == t[0]);
    // the leading digit
    assert(is_digit(t[p_t]));
    assert(s[p_s] == t[p_t]);
    // the integer part
    let int_end_t: int = if t[p_t] == '0' {
        p_t + 1
    } else {
        digits_end(t, p_t)
    };
    digits_end_digits(t, p_t);
    digits_end_le(t, p_t);
    digits_end_stop(t, p_t);
    let int_end_s = i + int_end_t;
    if t[p_t] == '0' {
        assert(int_end_s == p_s + 1);
    } else {
        assert forall|k: int| p_s <= k < int_end_s implies is_digit(s[k]) by {
            assert(s[k] == t[k - i]);
        }
        if int_end_t < t.len() {
            assert(s[int_end_s] == t[int_end_t]);
            digits_end_run(s, p_s, int_end_s);
        } else {
            digits_end_run(s, p_s, int_end_s);
        }
    }
    // a digit may not follow the integer part
    if int_end_s < s.len() && is_digit(s[int_end_s]) {
        if int_end_t < t.len() {
            assert(t[int_end_t] == s[int_end_s]);
            assert(false);
        } else {
            assert(num_break(s[int_end_s]));
            assert(false);
        }
    }
    // fraction and exponent shift
    frac_end_shift(s, i, t, int_end_t);
    let fe_t = frac_end(t, int_end_t).unwrap();
    exp_end_shift(s, i, t, fe_t);
    let end_t = exp_end(t, fe_t).unwrap();
    assert(end_t == t.len());
    // the value, when the token is a plain integer
    if int_end_t == end_t {
        digits_val_shift(s, i, t, p_t, int_end_t);
    }
    assert(s.subrange(i, i + t.len()) =~= t);
}

/// What `parse_number` returns at the shifted position, given what it
/// returned for the token alone: the same value, with a re-cut raw token.
pub open spec fn shift_num_value(v: JsonV, s: Seq<char>, i: int, t: Seq<char>) -> JsonV {
    match v {
        JsonV::Num(_) => JsonV::Num(s.subrange(i, i + t.len())),
        other => other,
    }
}

proof fn digits_end_le(s: Seq<char>, i: int)
    requires
        0 <= i <= s.len(),
    ensures
        i <= digits_end(s, i) <= s.len(),
    decreases s.len() - i,
{
    if i < s.len() && is_digit(s[i]) {
        digits_end_le(s, i + 1);
    }
}

/// `digits_end` stops at the end of the text or at a non-digit.
pub(crate) proof fn digits_end_stop(s: Seq<char>, i: int)
    requires
        0 <= i <= s.len(),
    ensures
        digits_end(s, i) == s.len() || !is_digit(s[digits_end(s, i)]),
    decreases s.len() - i,
{
    if i < s.len() && is_digit(s[i]) {
        digits_end_stop(s, i + 1);
    }
}

proof fn frac_end_shift(s: Seq<char>, i: int, t: Seq<char>, p: int)
    requires
        0 <= i,
        i + t.len() <= s.len(),
        0 <= p <= t.len(),
        forall|k: int| 0 <= k < t.len() ==> s[i + k] == t[k],
        i + t.len() == s.len() || num_break(s[i + t.len()]),
        frac_end(t, p) is Some,
        frac_end(t, p).unwrap() <= t.len(),
    ensures
        frac_end(s, i + p) == Option::Some(i + frac_end(t, p).unwrap()),
{
    if p < t.len() && t[p] == '.' {
        assert(s[i + p] == t[p]);
        assert(is_digit(t[p + 1]));
        assert(s[i + p + 1] == t[p + 1]);
        let e = digits_end(t, p + 1);
        digits_end_digits(t, p + 1);
        digits_end_le(t, p + 1);
        digits_end_stop(t, p + 1);
        assert forall|k: int| i + p + 1 <= k < i + e implies is_digit(s[k]) by {
            assert(s[k] == t[k - i]);
        }
        if e < t.len() {
            assert(s[i + e] == t[e]);
        }
        digits_end_run(s, i + p + 1, i + e);
    } else {
        if i + p < s.len() {
            if p < t.len() {
                assert(s[i + p] == t[p]);
            } else {
                assert(num_break(s[i + p]));
            }
        }
    }
}

proof fn exp_end_shift(s: Seq<char>, i: int, t: Seq<char>, p: int)
    requires
        0 <= i,
        i + t.len() <= s.len(),
        0 <= p <= t.len(),
        forall|k: int| 0 <= k < t.len() ==> s[i + k] == t[k],
        i + t.len() == s.len() || num_break(s[i + t.len()]),
        exp_end(t, p) is Some,
        exp_end(t, p).unwrap() <= t.len(),
    ensures
        exp_end(s, i + p) == Option::Some(i + exp_end(t, p).unwrap()),
{
    if p < t.len() && (t[p] == 'e' || t[p] == 'E') {
        assert(s[i + p] == t[p]);
        let q: int = if p + 1 < t.len() && (t[p + 1] == '+' || t[p + 1] == '-') {
            p + 2
        } else {
            p + 1
        };
        if p + 1 < t.len() {
            assert(s[i + p + 1] == t[p + 1]);
        }
        assert(is_digit(t[q]));
        assert(s[i + q] == t[q]);
        let e = digits_end(t, q);
        digits_end_digits(t, q);
        digits_end_le(t, q);
        digits_end_stop(t, q);
        assert forall|k: int| i + q <= k < i + e implies is_digit(s[k]) by {
            assert(s[k] == t[k - i]);
        }
        if e < t.len() {
            assert(s[i + e] == t[e]);
        }
        digits_end_run(s, i + q, i + e);
        // the sign decision must agree on both sides
        if p + 1 < t.len() && (t[p + 1] == '+' || t[p + 1] == '-') {
            assert(i + p + 1 < s.len() && (s[i + p + 1] == '+' || s[i + p + 1] == '-'));
        } else {
            if i + p + 1 < s.len() && (s[i + p + 1] == '+' || s[i + p + 1] == '-') {
                if p + 1 < t.len() {
                    assert(false);
                } else {
                    assert(num_break(s[i + p + 1]));
                    assert(false);
                }
            }
        }
    } else {
        if i + p < s.len() {
            if p < t.len() {
                assert(s[i + p] == t[p]);
            } else {
                assert(num_break(s[i + p]));
            }
        }
    }
}

proof fn digits_val_shift(s: Seq<char>, i: int, t: Seq<char>, a: int, b: int)
    requires
        0 <= i,
        i + t.len() <= s.len(),
        0 <= a <= b <= t.len(),
        forall|k: int| 0 <= k < t.len() ==> s[i + k] == t[k],
    ensures
        digits_val(s, i + a, i + b) == digits_val(t, a, b),
    decreases b - a,
{
    if a < b {
        digits_val_shift(s, i, t, a, b - 1);
        assert(s[i + b - 1] == t[b - 1]);
    }
}

/// Parsing an escaped string body (followed by its closing quote) decodes
/// the original characters.
proof fn lemma_parse_esc_str(cs: Seq<char>, s: Seq<char>, i: int)
    requires
        0 <= i,
        i + esc_str(cs).len() + 1 <= s.len(),
        forall|k: int| 0 <= k < esc_str(cs).len() ==> s[i + k] == #[trigger] esc_str(cs)[k],
        s[i + esc_str(cs).len()] == '"',
    ensures
        parse_string_body(s, i) == Option::Some((cs, i + esc_str(cs).len() + 1)),
    decreases cs.len(),
{
    if cs.len() == 0 {
        assert(s[i] == '"');
    } else {
        let c = cs.first();
        let e = esc_char(c);
        let rest = cs.drop_first();
        assert(esc_str(cs) == e + esc_str(rest));
        assert forall|k: int| 0 <= k < e.len() implies s[i + k] == e[k] by {
            assert(esc_str(cs)[k] == e[k]);
        }
        assert forall|k: int| 0 <= k < esc_str(rest).len() implies s[i + e.len() + k]
            == #[trigger] esc_str(rest)[k] by {
            assert(esc_str(cs)[e.len() + k] == esc_str(rest)[k]);
        }
        assert(i + e.len() + esc_str(rest).len() == i + esc_str(cs).len());
        lemma_parse_esc_str(rest, s, i + e.len());
        assert(seq![c] + rest =~= cs);
        if c == '"' || c == '\\' || c == '\u{8}' || c == '\u{c}' || c == '\n' || c == '\r' || c
            == '\t' {
            assert(s[i] == '\\');
            assert(parse_escape(s, i + 1) == Option::Some((c, i + 2)));
        } else if (c as u32) < 32 {
            assert(s[i] == '\\');
            assert(s[i + 1] == 'u');
            assert(s[i + 2] == '0');
            assert(s[i + 3] == '0');
            let hi = (c as u32) as int / 16;
            let lo = (c as u32) as int % 16;
            assert(s[i + 4] == hex_char(hi));
            assert(s[i + 5] == hex_char(lo));
            hex_char_props(hi);
            hex_char_props(lo);
            assert(hex4(s, i + 2) == Option::Some(
                ((hex_val('0') * 16 + hex_val('0')) * 16 + hi) * 16 + lo,
            ));
            assert(((hex_val('0') * 16 + hex_val('0')) * 16 + hi) * 16 + lo == c as u32);
            vstd::utf8::char_u32_cast(c, c as u32);
            assert(parse_unicode_escape(s, i + 2) == Option::Some((c, i + 6)));
            assert(parse_escape(s, i + 1) == Option::Some((c, i + 6)));
        } else {
            assert(s[i] == c);
            assert(c != '"' && c != '\\' && (c as u32) >= 32);
        }
    }
}

/// The first character a serialized value can start with.
pub open spec fn value_start(c: char) -> bool {
    c == 'n' || c == 't' || c == 'f' || c == '"' || c == '[' || c == '{' || c == '-' || is_digit(c)
}

/// A serialized value is non-empty and starts with a value character.
proof fn ser_first_props(v: JsonV)
    requires
        json_valid(v),
    ensures
        ser(v).len() > 0,
        value_start(ser(v)[0]),
    decreases v,
{
    match v {
        JsonV::Int(n) => {
            if n < 0 {
                dec_digits_props((-(n as int)) as nat);
            } else {
                dec_digits_props(n as nat);
            }
        },
        JsonV::Num(t) => {
            let p: int = if 0 <= 0 && 0 < t.len() && t[0] == '-' {
                1
            } else {
                0
            };
            assert(is_digit(t[p]));
        },
        _ => {},
    }
}

/// A value character is not whitespace and is no closing token.
proof fn value_start_props(c: char)
    requires
        value_start(c),
    ensures
        !is_ws(c),
        c != ']' && c != '}' && c != ',' && c != ':',
{
}

/// Parsing the serialized elements of a non-empty array (followed by the
/// closing bracket) gives back exactly those elements.
proof fn lemma_parse_of_ser_elems(a: Seq<JsonV>, s: Seq<char>, i: int)
    requires
        a.len() > 0,
        forall|k: int| 0 <= k < a.len() ==> json_valid(#[trigger] a[k]),
        0 <= i,
        i + ser_elems(a).len() + 1 <= s.len(),
        forall|k: int| 0 <= k < ser_elems(a).len() ==> s[i + k] == #[trigger] ser_elems(a)[k],
        s[i + ser_elems(a).len()] == ']',
    ensures
        parse_elems(s, i) == Option::Some((a, i + ser_elems(a).len() + 1)),
    decreases a, 1int,
{
    let v0 = a.first();
    let sv = ser(v0);
    ser_first_props(v0);
    value_start_props(sv[0]);
    if a.len() == 1 {
        assert(ser_elems(a) == sv);
        lemma_parse_of_ser(v0, s, i);
        let j = i + sv.len();
        assert(s[j] == ']');
        assert(skip_ws(s, j) == j);
        assert(seq![v0] =~= a);
    } else {
        let rest = a.drop_first();
        assert(ser_elems(a) == sv + seq![','] + ser_elems(rest));
        assert forall|k: int| 0 <= k < sv.len() implies s[i + k] == sv[k] by {
            assert(ser_elems(a)[k] == sv[k]);
        }
        let j = i + sv.len();
        assert(s[j] == ',') by {
            assert(ser_elems(a)[sv.len() as int] == ',');
        }
        lemma_parse_of_ser(v0, s, i);
        assert(skip_ws(s, j) == j);
        let m = j + 1;
        assert forall|k: int| 0 <= k < ser_elems(rest).len() implies s[m + k]
            == #[trigger] ser_elems(rest)[k] by {
            assert(ser_elems(a)[sv.len() + 1 + k] == ser_elems(rest)[k]);
        }
        ser_first_props(rest.first());
        value_start_props(ser(rest.first())[0]);
        assert(s[m] == ser(rest.first())[0]) by {
            assert(ser_elems(rest)[0] == ser(rest.first())[0]);
        }
        assert(skip_ws(s, m) == m);
        lemma_parse_of_ser_elems(rest, s, m);
        assert(seq![v0] + rest =~= a);
    }
}

/// Parsing the serialized members of a non-empty object (followed by the
/// closing brace) gives back exactly those members.
proof fn lemma_parse_of_ser_members(m: Seq<(Seq<char>, JsonV)>, s: Seq<char>, i: int)
    requires
        m.len() > 0,
        forall|k: int| 0 <= k < m.len() ==> json_valid(#[trigger] m[k].1),
        0 <= i,
        i + ser_members(m).len() + 1 <= s.len(),
        forall|k: int| 0 <= k < ser_members(m).len() ==> s[i + k] == #[trigger] ser_members(m)[k],
        s[i + ser_members(m).len()] == '}',
    ensures
        parse_members(s, i) == Option::Some((m, i + ser_members(m).len() + 1)),
    decreases m, 1int,
{
    let key = m.first().0;
    let v0 = m.first().1;
    let sm = ser_member(m.first());
    let sv = ser(v0);
    let e = esc_str(key);
    let q2: Seq<char> = seq!['"', ':'];
    assert(sm == seq!['"'] + e + q2 + sv);
    ser_first_props(v0);
    value_start_props(sv[0]);
    let single = m.len() == 1;
    let tail: Seq<char> = if single {
        Seq::empty()
    } else {
        seq![','] + ser_members(m.drop_first())
    };
    assert(ser_members(m) == sm + tail) by {
        if single {
            assert(ser_members(m) == sm);
            assert(sm + tail =~= sm);
        } else {
            assert(ser_members(m) == sm + seq![','] + ser_members(m.drop_first()));
            assert(sm + seq![','] + ser_members(m.drop_first()) =~= sm + tail);
        }
    }
    assert(s.subrange(i, i + ser_members(m).len()) =~= ser_members(m));
    lemma_subrange_split(s, i, sm, tail);
    lemma_subrange_split(s, i, seq!['"'] + e + q2, sv);
    lemma_subrange_split(s, i, seq!['"'] + e, q2);
    lemma_subrange_split(s, i, seq!['"'], e);
    // the key string
    assert(s[i] == '"') by {
        assert(s.subrange(i, i + 1)[0] == s[i]);
    }
    let qe = i + 1 + e.len();
    assert(s[qe] == '"' && s[qe + 1] == ':') by {
        assert(s.subrange(qe, qe + 2)[0] == s[qe]);
        assert(s.subrange(qe, qe + 2)[1] == s[qe + 1]);
        assert(q2[0] == '"' && q2[1] == ':');
    }
    assert forall|k: int| 0 <= k < e.len() implies s[i + 1 + k] == #[trigger] e[k] by {
        assert(s.subrange(i + 1, i + 1 + e.len())[k] == s[i + 1 + k]);
    }
    lemma_parse_esc_str(key, s, i + 1);
    // the colon, then the value
    let co = qe + 1;
    assert(skip_ws(s, co) == co);
    let vs = co + 1;
    assert forall|k: int| 0 <= k < sv.len() implies s[vs + k] == #[trigger] sv[k] by {
        assert(s.subrange(vs, vs + sv.len())[k] == s[vs + k]);
    }
    assert(s[vs] == sv[0]);
    assert(skip_ws(s, vs) == vs);
    let p = vs + sv.len();
    assert(p == i + sm.len());
    if single {
        assert(s[p] == '}');
        lemma_parse_of_ser(v0, s, vs);
        assert(skip_ws(s, p) == p);
        assert(seq![m.first()] =~= m);
    } else {
        let rest = m.drop_first();
        lemma_subrange_split(s, i + sm.len(), seq![','], ser_members(rest));
        assert(s[p] == ',') by {
            assert(s.subrange(p, p + 1)[0] == s[p]);
        }
        lemma_parse_of_ser(v0, s, vs);
        assert(skip_ws(s, p) == p);
        let nx = p + 1;
        assert forall|k: int| 0 <= k < ser_members(rest).len() implies s[nx + k]
            == #[trigger] ser_members(rest)[k] by {
            assert(s.subrange(nx, nx + ser_members(rest).len())[k] == s[nx + k]);
        }
        assert(s[nx] == '"') by {
            assert(ser_members(rest)[0] == ser_member(rest.first())[0]);
            assert(ser_member(rest.first())[0] == '"');
        }
        assert(skip_ws(s, nx) == nx);
        lemma_parse_of_ser_members(rest, s, nx);
        assert(seq![m.first()] + rest =~= m);
    }
}

/// Parsing a serialized valid value, wherever it stands, yields exactly that
/// value and stops right after it.
#[verifier::rlimit(100)]
pub proof fn lemma_parse_of_ser(v: JsonV, s: Seq<char>, i: int)
    requires
        json_valid(v),
        0 <= i,
        i + ser(v).len() <= s.len(),
        forall|k: int| 0 <= k < ser(v).len() ==> s[i + k] == #[trigger] ser(v)[k],
        i + ser(v).len() == s.len() || num_break(s[i + ser(v).len()]),
    ensures
        parse_value(s, i) == Option::Some((v, i + ser(v).len())),
    decreases v, 0int,
{
    ser_first_props(v);
    match v {
        JsonV::Null => {
            lit_at_chars(s, i, seq!['n', 'u', 'l', 'l']);
            assert(s[i] == 'n');
            assert(parse_value(s, i) =~~= Option::Some((v, i + ser(v).len())));
        },
        JsonV::Bool(b) => {
            if b {
                lit_at_chars(s, i, seq!['t', 'r', 'u', 'e']);
                assert(s[i] == 't');
            } else {
                lit_at_chars(s, i, seq!['f', 'a', 'l', 's', 'e']);
                assert(s[i] == 'f');
            }
            assert(parse_value(s, i) =~~= Option::Some((v, i + ser(v).len())));
        },
        JsonV::Int(n) => {
            let mag: nat = if n < 0 {
                (-(n as int)) as nat
            } else {
                n as nat
            };
            let d = dec_digits(mag);
            dec_digits_props(mag);
            let p: int = if n < 0 {
                i + 1
            } else {
                i
            };
            assert forall|k: int| 0 <= k < d.len() implies s[p + k] == #[trigger] d[k] by {
                if n < 0 {
                    assert(ser(v)[1 + k] == d[k]);
                } else {
                    assert(ser(v)[k] == d[k]);
                }
            }
            if n < 0 {
                assert(s[i] == '-') by {
                    assert(ser(v)[0] == '-');
                }
            }
            assert(s[p] == d[0]);
            let e = p + d.len();
            assert(e == i + ser(v).len());
            assert forall|k: int| p <= k < e implies is_digit(s[k]) by {
                assert(s[k] == d[k - p]);
            }
            if mag == 0 {
                assert(s[p] == '0');
                assert(e == p + 1);
            } else {
                assert(s[p] != '0');
                digits_end_run(s, p, e);
            }
            assert(!(e < s.len() && is_digit(s[e])));
            assert(frac_end(s, e) == Option::Some(e));
            assert(exp_end(s, e) == Option::Some(e));
            digits_val_of_dec(s, p, mag);
            assert(digits_val(s, p, e) == mag);
            assert(parse_number(s, i) == Option::Some((JsonV::Int(n), e)));
            assert(s[i] == '-' || is_digit(s[i]));
            assert(parse_value(s, i) =~~= Option::Some((v, i + ser(v).len())));
        },
        JsonV::Num(t) => {
            assert(parse_number(t, 0) == Option::Some((JsonV::Num(t), t.len() as int)));
            assert(t.len() > 0) by {
                if t.len() == 0 {
                    assert(parse_number(t, 0) is None);
                }
            }
            parse_number_shift(s, i, t);
            assert(s.subrange(i, i + t.len()) =~= t);
            assert(s[i] == t[0]);
            assert(t[0] == '-' || is_digit(t[0]));
            assert(parse_value(s, i) =~~= Option::Some((v, i + ser(v).len())));
        },
        JsonV::Str(cs) => {
            assert(s[i] == '"') by {
                assert(ser(v)[0] == '"');
            }
            assert forall|k: int| 0 <= k < esc_str(cs).len() implies s[i + 1 + k]
                == #[trigger] esc_str(cs)[k] by {
                assert(ser(v)[1 + k] == esc_str(cs)[k]);
            }
            assert(s[i + 1 + esc_str(cs).len()] == '"') by {
                assert(ser(v)[ser(v).len() - 1] == '"');
            }
            lemma_parse_esc_str(cs, s, i + 1);
            assert(parse_value(s, i) =~~= Option::Some((v, i + ser(v).len())));
        },
        JsonV::Arr(a) => {
            assert(s[i] == '[') by {
                assert(ser(v)[0] == '[');
            }
            if a.len() == 0 {
                assert(a =~= Seq::<JsonV>::empty());
                assert(ser_elems(a) == Seq::<char>::empty());
                assert(s[i + 1] == ']') by {
                    assert(ser(v)[1] == ']');
                }
                assert(skip_ws(s, i + 1) == i + 1);
            } else {
                assert forall|k: int| 0 <= k < ser_elems(a).len() implies s[i + 1 + k]
                    == #[trigger] ser_elems(a)[k] by {
                    assert(ser(v)[1 + k] == ser_elems(a)[k]);
                }
                assert(s[i + 1 + ser_elems(a).len()] == ']') by {
                    assert(ser(v)[ser(v).len() - 1] == ']');
                }
                ser_first_props(a.first());
                value_start_props(ser(a.first())[0]);
                assert(s[i + 1] == ser(a.first())[0]) by {
                    assert(ser_elems(a)[0] == ser(a.first())[0]);
                }
                assert(skip_ws(s, i + 1) == i + 1);
                lemma_parse_of_ser_elems(a, s, i + 1);
            }
            assert(parse_value(s, i) =~~= Option::Some((v, i + ser(v).len())));
        },
        JsonV::Obj(mm) => {
            assert(s[i] == '{') by {
                assert(ser(v)[0] == '{');
            }
            if mm.len() == 0 {
                assert(mm =~= Seq::<(Seq<char>, JsonV)>::empty());
                assert(ser_members(mm) == Seq::<char>::empty());
                assert(s[i + 1] == '}') by {
                    assert(ser(v)[1] == '}');
                }
                assert(skip_ws(s, i + 1) == i + 1);
            } else {
                assert forall|k: int| 0 <= k < ser_members(mm).len() implies s[i + 1 + k]
                    == #[trigger] ser_members(mm)[k] by {
                    assert(ser(v)[1 + k] == ser_members(mm)[k]);
                }
                assert(s[i + 1 + ser_members(mm).len()] == '}') by {
                    assert(ser(v)[ser(v).len() - 1] == '}');
                }
                assert(s[i + 1] == '"') by {
                    assert(ser_members(mm)[0] == ser_member(mm.first())[0]);
                    assert(ser_member(mm.first())[0] == '"');
                }
                assert(skip_ws(s, i + 1) == i + 1);
                lemma_parse_of_ser_members(mm, s, i + 1);
                assert(parse_members(s, i + 1) == Option::Some(
                    (mm, i + 1 + ser_members(mm).len() + 1),
                ));
                assert(ser(v).len() == 2 + ser_members(mm).len());
                assert(s[i] == '{');
                assert(i + 1 < s.len());
                assert(s[i + 1] != '}');
                assert(parse_value(s, i) == Option::Some(
                    (JsonV::Obj(mm), i + 1 + ser_members(mm).len() + 1),
                ));
            }
        },
    }
    assert(parse_value(s, i) =~~= Option::Some((v, i + ser(v).len())));
}

/// Round trip: the canonical text of a valid value parses back to exactly
/// that value.
pub proof fn lemma_text_round_trip(v: JsonV)
    requires
        json_valid(v),
    ensures
        parse_text(ser(v)) == Option::Some(v),
{
    let s = ser(v);
    ser_first_props(v);
    value_start_props(s[0]);
    assert forall|k: int| 0 <= k < s.len() implies s[0 + k] == #[trigger] ser(v)[k] by {}
    assert(skip_ws(s, 0) == 0);
    lemma_parse_of_ser(v, s, 0);
    assert(skip_ws(s, s.len() as int) == s.len());
}

/// Parses a complete JSON text: one value, surrounded by whitespace only.
pub fn from_text(s: &str) -> (r: Option<Json>)
    ensures
        text_result_matches(parse_text(s@), r),
{
    let cs = str_to_chars(s);
    let i = skip_ws_x(&cs, 0);
    match parse_value_x(&cs, i) {
        None => None,
        Some((v, j)) => {
            let k = skip_ws_x(&cs, j);
            if k == cs.len() {
                Some(v)
            } else {
                None
            }
        },
    }
}

} // verus!
