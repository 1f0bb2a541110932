//! Parses text into values.
use vstd::prelude::*;
use crate::types::{ToonValue, Number, value_wf, keys_unique, digits_value, pow10, lemma_pow10_big};
use crate::utils::{
    white_space, ident_start, ident_continue, ascii_digit, unescaped, chars_of, string_of,
    is_unicode_whitespace, is_ident_start, is_ident_continue, unescape_chars, spells,
};
use crate::ToonError;
use crate::encoder::{find_key, key_index, lemma_key_index};

verus! {

/// The first position at or after `i` that holds no whitespace.
pub open spec fn ws_skip(s: Seq<char>, i: int) -> int
    decreases s.len() - i,
{
    if i < 0 || i >= s.len() || !white_space(s[i]) {
        i
    } else {
        ws_skip(s, i + 1)
    }
}

/// Skipping whitespace stays within the text and does not go back.
pub proof fn lemma_ws_skip(s: Seq<char>, i: int)
    requires
        0 <= i <= s.len(),
    ensures
        i <= ws_skip(s, i) <= s.len(),
    decreases s.len() - i,
{
    if i < s.len() && white_space(s[i]) {
        lemma_ws_skip(s, i + 1);
    }
}

/// The first position at or after `i` that holds no identifier character.
pub open spec fn ident_end(s: Seq<char>, i: int) -> int
    decreases s.len() - i,
{
    if i < 0 || i >= s.len() || !ident_continue(s[i]) {
        i
    } else {
        ident_end(s, i + 1)
    }
}

/// The first position at or after `i` that holds no ASCII digit.
pub open spec fn digits_end(s: Seq<char>, i: int) -> int
    decreases s.len() - i,
{
    if i < 0 || i >= s.len() || !ascii_digit(s[i]) {
        i
    } else {
        digits_end(s, i + 1)
    }
}

/// The values of a run of ASCII digits.
pub open spec fn digit_values(t: Seq<char>) -> Seq<u8> {
    Seq::new(t.len(), |k: int| (t[k] as u32 - 48) as u8)
}

/// What a bare identifier stands for: `true`, `false` and `null` are the
/// literals, any other identifier is the text itself.
pub open spec fn ident_value(t: Seq<char>, v: ToonValue) -> bool {
    if t == seq!['t', 'r', 'u', 'e'] {
        v == ToonValue::Bool(true)
    } else if t == seq!['f', 'a', 'l', 's', 'e'] {
        v == ToonValue::Bool(false)
    } else if t == seq!['n', 'u', 'l', 'l'] {
        v == ToonValue::Null
    } else {
        v is String && v->String_0@ == t
    }
}

/// The position of the quote that closes a string whose body starts at `i`,
/// stepping over each backslash and the character after it; `None` where the
/// text ends first.
pub open spec fn string_close(s: Seq<char>, i: int) -> Option<int>
    decreases s.len() - i,
{
    if i < 0 || i >= s.len() {
        None
    } else if s[i] == '"' {
        Some(i)
    } else if s[i] == '\\' {
        if i + 1 >= s.len() {
            None
        } else {
            string_close(s, i + 2)
        }
    } else {
        string_close(s, i + 1)
    }
}

/// The number written by `a` then `b` is the number of `a` shifted past `b`,
/// plus the number of `b`.
pub proof fn lemma_digits_concat(a: Seq<u8>, b: Seq<u8>)
    ensures
        digits_value(a + b) == digits_value(a) * pow10(b.len()) + digits_value(b),
    decreases b.len(),
{
    if b.len() == 0 {
        assert(a + b == a);
        assert(pow10(0) == 1);
        assert(digits_value(b) == 0);
    } else {
        let b1 = b.drop_last();
        assert((a + b).drop_last() == a + b1);
        assert((a + b).last() == b.last());
        assert(digits_value(a + b) == digits_value(a + b1) * 10 + b.last() as nat);
        assert(digits_value(b) == digits_value(b1) * 10 + b.last() as nat);
        lemma_digits_concat(a, b1);
        let x = digits_value(a);
        let p = pow10(b1.len());
        let y = digits_value(b1);
        assert(pow10(b.len()) == 10 * p);
        assert((x * p + y) * 10 + b.last() as nat == x * (10 * p) + (y * 10 + b.last() as nat))
            by (nonlinear_arith);
    }
}

/// Zero digits write zero.
pub proof fn lemma_digits_zero(a: Seq<u8>)
    requires
        forall|i: int| 0 <= i < a.len() ==> #[trigger] a[i] == 0,
    ensures
        digits_value(a) == 0,
    decreases a.len(),
{
    if a.len() > 0 {
        lemma_digits_zero(a.drop_last());
    }
}

/// A prefix of a digit sequence writes no larger a number.
proof fn lemma_digits_prefix(d: Seq<u8>, k: int)
    requires
        0 <= k <= d.len(),
    ensures
        digits_value(d.subrange(0, k)) <= digits_value(d),
    decreases d.len() - k,
{
    if k < d.len() {
        lemma_digits_prefix(d, k + 1);
        let p = d.subrange(0, k + 1);
        assert(p.drop_last() == d.subrange(0, k));
    } else {
        assert(d.subrange(0, k) == d);
    }
}

/// The message for a text that ends where a value should start.
pub open spec fn end_of_input() -> Seq<char> {
    seq![
        'U', 'n', 'e', 'x', 'p', 'e', 'c', 't', 'e', 'd', ' ', 'e', 'n', 'd', ' ', 'o', 'f', ' ',
        'i', 'n', 'p', 'u', 't',
    ]
}

/// An error of decoding: the text breaks the grammar, or a token makes no
/// value.
pub open spec fn decode_error(r: Result<ToonValue, ToonError>) -> bool {
    r is Err ==> (r->Err_0 is InvalidFormat || r->Err_0 is Deserialization)
}

/// What parsing a value at position `p` of `s` gives, by the character
/// after the whitespace there: the end of the text is an error; a quote
/// starts a string; a digit or `-` a number; an identifier start a literal or
/// a bare string; `[` an array and `{` an object; any other character is an
/// error.
pub open spec fn value_outline(s: Seq<char>, p: int, r: Result<ToonValue, ToonError>, end: int) -> bool {
    let k = ws_skip(s, p);
    if k >= s.len() {
        r is Err && r->Err_0 is InvalidFormat && r->Err_0->InvalidFormat_0@ == end_of_input()
    } else if s[k] == '{' {
        r is Ok ==> r->Ok_0 is Object
    } else if s[k] == '[' {
        r is Ok ==> r->Ok_0 is Array
    } else if s[k] == '"' {
        match string_close(s, k + 1) {
            None => r is Err && r->Err_0 is InvalidFormat,
            Some(close) => match unescaped(s.subrange(k + 1, close)) {
                None => r is Err && r->Err_0 is Deserialization,
                Some(t) => r is Ok && r->Ok_0 is String && r->Ok_0->String_0@ == t && end == close
                    + 1,
            },
        }
    } else if ascii_digit(s[k]) || s[k] == '-' {
        let (e, negative, digits, exponent, fault) = number_lexeme(s, k);
        &&& fault == 1 <==> (r is Err && r->Err_0 is InvalidFormat)
        &&& fault == 2 <==> (r is Err && r->Err_0 is Deserialization)
        &&& fault == 0 <==> r is Ok
        &&& number_gap(s, k) == 1 ==> r is Err && r->Err_0 is InvalidFormat
            && r->Err_0->InvalidFormat_0@ == "Expected digit"@
        &&& number_gap(s, k) == 2 ==> r is Err && r->Err_0 is InvalidFormat
            && r->Err_0->InvalidFormat_0@ == "Expected digit after decimal point"@
        &&& number_gap(s, k) == 3 ==> r is Err && r->Err_0 is InvalidFormat
            && r->Err_0->InvalidFormat_0@ == "Expected digit in exponent"@
        &&& r is Ok ==> end == e && r->Ok_0 is Number && number_is(
            r->Ok_0->Number_0,
            negative,
            digits,
            exponent,
        )
    } else if ident_start(s[k]) {
        &&& r is Ok
        &&& end == ident_end(s, k + 1)
        &&& ident_value(s.subrange(k, end), r->Ok_0)
    } else {
        &&& r is Err && r->Err_0 is InvalidFormat
        &&& r->Err_0->InvalidFormat_0@ == unexpected_text(s[k]) + at_position(
            line_at(s, k),
            col_at(s, k),
        )
    }
}

/// The line of position `p` of `s`, counting from 1: the text's first
/// character is on line 1, and each line feed after it starts a new line.
pub open spec fn line_at(s: Seq<char>, p: int) -> nat
    decreases p,
{
    if p <= 0 {
        1
    } else if p < s.len() && s[p] == '\n' {
        line_at(s, p - 1) + 1
    } else {
        line_at(s, p - 1)
    }
}

/// The column of position `p` of `s`, counting from 1: a line feed is the
/// first column of its line, and the end of the text keeps the column of
/// the last character.
pub open spec fn col_at(s: Seq<char>, p: int) -> nat
    decreases p,
{
    if p <= 0 {
        1
    } else if p >= s.len() {
        col_at(s, p - 1)
    } else if s[p] == '\n' {
        1
    } else {
        col_at(s, p - 1) + 1
    }
}

/// The words `Unexpected character` followed by `c` in single quotes.
pub open spec fn unexpected_text(c: char) -> Seq<char> {
    seq![
        'U', 'n', 'e', 'x', 'p', 'e', 'c', 't', 'e', 'd', ' ', 'c', 'h', 'a', 'r', 'a', 'c', 't',
        'e', 'r', ' ', '\'', c, '\'',
    ]
}

/// The decimal digits of `n`, as `Display` writes an unsigned integer.
pub open spec fn decimal_text(n: nat) -> Seq<char>
    decreases n,
{
    if n < 10 {
        seq![((n + 48) as u8) as char]
    } else {
        decimal_text(n / 10) + seq![((n % 10 + 48) as u8) as char]
    }
}

/// ` at line L, column C`.
pub open spec fn at_position(line: nat, col: nat) -> Seq<char> {
    seq![' ', 'a', 't', ' ', 'l', 'i', 'n', 'e', ' '] + decimal_text(line) + seq![
        ',',
        ' ',
        'c',
        'o',
        'l',
        'u',
        'm',
        'n',
        ' ',
    ] + decimal_text(col)
}

/// The words `Unexpected character` followed by `c` in single quotes.
fn unexpected_character(c: char) -> (r: String)
    ensures
        r@ == unexpected_text(c),
{
    let mut v: Vec<char> = Vec::new();
    v.push('U');
    v.push('n');
    v.push('e');
    v.push('x');
    v.push('p');
    v.push('e');
    v.push('c');
    v.push('t');
    v.push('e');
    v.push('d');
    v.push(' ');
    v.push('c');
    v.push('h');
    v.push('a');
    v.push('r');
    v.push('a');
    v.push('c');
    v.push('t');
    v.push('e');
    v.push('r');
    v.push(' ');
    v.push('\'');
    v.push(c);
    v.push('\'');
    string_of(&v)
}

/// Relies on `format!`: a message that names a line and a column, each
/// written in decimal as `Display` writes a `usize`.
#[verifier::external_body]
fn located(what: &str, line: usize, col: usize) -> (r: String)
    ensures
        r@ == what@ + at_position(line as nat, col as nat),
{
    format!("{} at line {}, column {}", what, line, col)
}

/// A value as a text describes it: strings as characters, numbers as the
/// sign, mantissa digits and exponent that they are written with, objects as
/// their entries in order of first appearance.
pub enum Model {
    Null,
    Bool(bool),
    Num(bool, Seq<u8>, int),
    Str(Seq<char>),
    Arr(Seq<Model>),
    Obj(Seq<(Seq<char>, Model)>),
}

/// What a bare identifier in value position stands for.
pub open spec fn ident_model(t: Seq<char>) -> Model {
    if t == seq!['t', 'r', 'u', 'e'] {
        Model::Bool(true)
    } else if t == seq!['f', 'a', 'l', 's', 'e'] {
        Model::Bool(false)
    } else if t == seq!['n', 'u', 'l', 'l'] {
        Model::Null
    } else {
        Model::Str(t)
    }
}

/// The position of the first entry with key `k`, or -1.
pub open spec fn model_key_index(e: Seq<(Seq<char>, Model)>, k: Seq<char>) -> int
    decreases e.len(),
{
    if e.len() == 0 {
        -1
    } else if e[0].0 == k {
        0
    } else {
        let r = model_key_index(e.drop_first(), k);
        if r < 0 {
            -1
        } else {
            r + 1
        }
    }
}

/// The entries `e` with `k` bound to `v`: in the place of an entry with that
/// key if there is one, else at the end.
pub open spec fn model_insert(e: Seq<(Seq<char>, Model)>, k: Seq<char>, v: Model) -> Seq<
    (Seq<char>, Model),
> {
    let idx = model_key_index(e, k);
    if idx >= 0 {
        e.update(idx, (k, v))
    } else {
        e.push((k, v))
    }
}

/// Whether `v` is the value that the model `m` describes.
pub open spec fn value_matches(v: ToonValue, m: Model) -> bool
    decreases v,
{
    match v {
        ToonValue::Null => m is Null,
        ToonValue::Bool(b) => m == Model::Bool(b),
        ToonValue::Number(n) => match m {
            Model::Num(negative, digits, exponent) => number_is(n, negative, digits, exponent),
            _ => false,
        },
        ToonValue::String(s) => m == Model::Str(s@),
        ToonValue::Array(a) => match m {
            Model::Arr(ms) => a@.len() == ms.len() && forall|i: int|
                0 <= i < a@.len() ==> value_matches(#[trigger] a@[i], ms[i]),
            _ => false,
        },
        ToonValue::Object(o) => match m {
            Model::Obj(es) => o@.len() == es.len() && forall|i: int|
                0 <= i < o@.len() ==> (#[trigger] o@[i]).0@ == es[i].0 && value_matches(o@[i].1, es[i].1),
            _ => false,
        },
    }
}

/// The key at `k`, quoted or bare, and the position after it.
pub open spec fn key_at(s: Seq<char>, k: int) -> Option<(Seq<char>, int)> {
    if k < 0 || k >= s.len() {
        None
    } else if s[k] == '"' {
        match string_close(s, k + 1) {
            None => None,
            Some(c) => match unescaped(s.subrange(k + 1, c)) {
                None => None,
                Some(t) => Some((t, c + 1)),
            },
        }
    } else if ident_start(s[k]) {
        let e = ident_end(s, k + 1);
        Some((s.subrange(k, e), e))
    } else {
        None
    }
}

/// The value that the text `s` holds at `i`, after optional whitespace, and
/// the position after it; `None` where the text breaks the grammar or makes
/// no value.
pub open spec fn parse_value(s: Seq<char>, i: int) -> Option<(Model, int)>
    decreases s.len() - i, 2int,
{
    if i < 0 || i > s.len() {
        None
    } else {
        let k = ws_skip(s, i);
        proof {
            lemma_ws_skip(s, i);
        }
        if k >= s.len() {
            None
        } else if s[k] == '{' {
            parse_object(s, k)
        } else if s[k] == '[' {
            parse_array(s, k)
        } else if s[k] == '"' {
            match string_close(s, k + 1) {
                None => None,
                Some(c) => match unescaped(s.subrange(k + 1, c)) {
                    None => None,
                    Some(t) => Some((Model::Str(t), c + 1)),
                },
            }
        } else if ascii_digit(s[k]) || s[k] == '-' {
            let (e, negative, digits, exponent, fault) = number_lexeme(s, k);
            if fault == 0 {
                Some((Model::Num(negative, digits, exponent), e))
            } else {
                None
            }
        } else if ident_start(s[k]) {
            let e = ident_end(s, k + 1);
            Some((ident_model(s.subrange(k, e)), e))
        } else {
            None
        }
    }
}

/// The array whose `[` stands at `k`.
pub open spec fn parse_array(s: Seq<char>, k: int) -> Option<(Model, int)>
    decreases s.len() - k, 1int,
{
    if k < 0 || k >= s.len() {
        None
    } else {
        let j = ws_skip(s, k + 1);
        proof {
            lemma_ws_skip(s, k + 1);
        }
        if j < s.len() && s[j] == ']' {
            Some((Model::Arr(Seq::empty()), j + 1))
        } else {
            parse_items(s, j, Seq::empty())
        }
    }
}

/// The rest of an array from `j` on, after the elements `acc`.
pub open spec fn parse_items(s: Seq<char>, j: int, acc: Seq<Model>) -> Option<(Model, int)>
    decreases s.len() - j, 3int,
{
    if j < 0 || j > s.len() {
        None
    } else {
        match parse_value(s, j) {
            None => None,
            Some((v, e)) => if e <= j || e > s.len() {
                None
            } else {
                let e2 = ws_skip(s, e);
                proof {
                    lemma_ws_skip(s, e);
                }
                if e2 < s.len() && s[e2] == ',' {
                    parse_items(s, e2 + 1, acc.push(v))
                } else if e2 < s.len() && s[e2] == ']' {
                    Some((Model::Arr(acc.push(v)), e2 + 1))
                } else {
                    None
                }
            },
        }
    }
}

/// The object whose `{` stands at `k`.
pub open spec fn parse_object(s: Seq<char>, k: int) -> Option<(Model, int)>
    decreases s.len() - k, 1int,
{
    if k < 0 || k >= s.len() {
        None
    } else {
        let j = ws_skip(s, k + 1);
        proof {
            lemma_ws_skip(s, k + 1);
        }
        if j < s.len() && s[j] == '}' {
            Some((Model::Obj(Seq::empty()), j + 1))
        } else {
            parse_entries(s, j, Seq::empty())
        }
    }
}

/// The rest of an object from `j` on, after the entries `acc`.
pub open spec fn parse_entries(s: Seq<char>, j: int, acc: Seq<(Seq<char>, Model)>) -> Option<
    (Model, int),
>
    decreases s.len() - j, 3int,
{
    if j < 0 || j > s.len() {
        None
    } else {
        let k = ws_skip(s, j);
        proof {
            lemma_ws_skip(s, j);
        }
        match key_at(s, k) {
            None => None,
            Some((key, after)) => {
                if after <= k || after > s.len() {
                    None
                } else {
                    let c = ws_skip(s, after);
                    proof {
                        lemma_ws_skip(s, after);
                    }
                    if !(c < s.len() && s[c] == ':') {
                        None
                    } else {
                        match parse_value(s, c + 1) {
                            None => None,
                            Some((v, e)) => if e <= c + 1 || e > s.len() {
                                None
                            } else {
                                let acc2 = model_insert(acc, key, v);
                                let e2 = ws_skip(s, e);
                                proof {
                                    lemma_ws_skip(s, e);
                                }
                                if e2 < s.len() && s[e2] == ',' {
                                    parse_entries(s, e2 + 1, acc2)
                                } else if e2 < s.len() && s[e2] == '}' {
                                    Some((Model::Obj(acc2), e2 + 1))
                                } else {
                                    None
                                }
                            },
                        }
                    }
                }
            },
        }
    }
}

/// `r` and `end` are what the spec parse result `p` describes: an error
/// where it is `None`, else the value it models and the position after it.
pub open spec fn parse_result(p: Option<(Model, int)>, r: Result<ToonValue, ToonError>, end: int) -> bool {
    match p {
        None => r is Err,
        Some((m, e)) => r is Ok && value_matches(r->Ok_0, m) && end == e,
    }
}

/// Skipping whitespace twice is skipping it once.
pub proof fn lemma_ws_skip_idem(s: Seq<char>, i: int)
    requires
        0 <= i <= s.len(),
    ensures
        ws_skip(s, ws_skip(s, i)) == ws_skip(s, i),
    decreases s.len() - i,
{
    if i < s.len() && white_space(s[i]) {
        lemma_ws_skip_idem(s, i + 1);
    }
}

/// Entries with the same keys in the same order find a key at the same place.
proof fn lemma_model_key_index(o: Seq<(String, ToonValue)>, e: Seq<(Seq<char>, Model)>, k: Seq<char>)
    requires
        o.len() == e.len(),
        forall|i: int| 0 <= i < o.len() ==> (#[trigger] o[i]).0@ == e[i].0,
    ensures
        key_index(o, k) == model_key_index(e, k),
    decreases o.len(),
{
    if o.len() > 0 {
        let o1 = o.drop_first();
        let e1 = e.drop_first();
        assert forall|i: int| 0 <= i < o1.len() implies (#[trigger] o1[i]).0@ == e1[i].0 by {
            assert(o1[i] == o[i + 1]);
        }
        lemma_model_key_index(o1, e1, k);
        assert(o[0].0@ == e[0].0);
    }
}

/// The largest magnitude of the exponent part that a number may be written
/// with. It lies beyond the range of a double, whose powers of ten run from
/// about -324 to 308, and keeps the text that `encode` writes for a decoded
/// number short.
pub const MAX_EXPONENT: u64 = 400;

/// The digits from `i` to `digits_end(s, i)` are ASCII digits.
proof fn lemma_digits_end(s: Seq<char>, i: int)
    requires
        0 <= i <= s.len(),
    ensures
        i <= digits_end(s, i) <= s.len(),
        forall|k: int| i <= k < digits_end(s, i) ==> ascii_digit(#[trigger] s[k]),
    decreases s.len() - i,
{
    if i < s.len() && ascii_digit(s[i]) {
        lemma_digits_end(s, i + 1);
    }
}

/// Which part of the number starting at `i` lacks its digits: 1 the part
/// before the point, 2 the part after the point, 3 the exponent; 0 none.
pub open spec fn number_gap(s: Seq<char>, i: int) -> int {
    let negative = 0 <= i < s.len() && s[i] == '-';
    let a = if negative {
        i + 1
    } else {
        i
    };
    let b = digits_end(s, a);
    let has_frac = b < s.len() && s[b] == '.';
    let c = if has_frac {
        digits_end(s, b + 1)
    } else {
        b
    };
    let has_exp = c < s.len() && (s[c] == 'e' || s[c] == 'E');
    let signed = has_exp && c + 1 < s.len() && (s[c + 1] == '+' || s[c + 1] == '-');
    let d0 = if signed {
        c + 2
    } else {
        c + 1
    };
    if b == a {
        1
    } else if has_frac && c == b + 1 {
        2
    } else if has_exp && digits_end(s, d0) == d0 {
        3
    } else {
        0
    }
}

/// The token of a number starting at `i`: where it ends, its sign, the
/// digits of its mantissa, its exponent, and whether it is faulty (0: sound,
/// 1: it breaks the grammar, 2: it makes no value).
///
/// A number is an optional `-`, at least one digit, optionally `.` and at
/// least one digit, and optionally `e` or `E`, an optional sign and at least
/// one digit. It makes no value when its exponent is
/// larger than `MAX_EXPONENT`, or when its normalised exponent leaves the
/// range of `i64`.
pub open spec fn number_lexeme(s: Seq<char>, i: int) -> (int, bool, Seq<u8>, int, int) {
    let negative = 0 <= i < s.len() && s[i] == '-';
    let a = if negative {
        i + 1
    } else {
        i
    };
    let b = digits_end(s, a);
    let has_frac = b < s.len() && s[b] == '.';
    let c = if has_frac {
        digits_end(s, b + 1)
    } else {
        b
    };
    let has_exp = c < s.len() && (s[c] == 'e' || s[c] == 'E');
    let signed = has_exp && c + 1 < s.len() && (s[c + 1] == '+' || s[c + 1] == '-');
    let d0 = if signed {
        c + 2
    } else {
        c + 1
    };
    let d = if has_exp {
        digits_end(s, d0)
    } else {
        c
    };
    let frac = if has_frac {
        s.subrange(b + 1, c)
    } else {
        Seq::empty()
    };
    let digits = digit_values(s.subrange(a, b)) + digit_values(frac);
    let ev: int = if has_exp {
        digits_value(digit_values(s.subrange(d0, d))) as int
    } else {
        0
    };
    let exponent = (if signed && s[c + 1] == '-' {
        -ev
    } else {
        ev
    }) - frac.len();
    let fault: int = if b == a {
        1
    } else if has_frac && c == b + 1 {
        1
    } else if has_exp && d == d0 {
        1
    } else if ev > MAX_EXPONENT || digits.len() == 0 || exponent < i64::MIN || exponent
        + digits.len() > i64::MAX {
        2
    } else {
        0
    };
    (d, negative, digits, exponent, fault)
}

/// `n` is the number `(-1)^negative * digits * 10^exponent`.
pub open spec fn number_is(n: Number, negative: bool, digits: Seq<u8>, exponent: int) -> bool {
    &&& n.wf()
    &&& digits_value(digits) == 0 ==> n.mantissa() == 0
    &&& digits_value(digits) != 0 ==> {
        &&& n.negative == negative
        &&& n.exponent >= exponent
        &&& n.mantissa() * pow10((n.exponent - exponent) as nat) == digits_value(digits)
    }
}

/// Appends the values of the ASCII digits `v[from..to]`.
fn push_digit_values(out: &mut Vec<u8>, v: &Vec<char>, from: usize, to: usize)
    requires
        from <= to <= v@.len(),
        forall|k: int| from <= k < to ==> ascii_digit(#[trigger] v@[k]),
    ensures
        final(out)@ == old(out)@ + digit_values(v@.subrange(from as int, to as int)),
{
    let mut k: usize = from;
    while k < to
        invariant
            from <= k <= to <= v@.len(),
            forall|q: int| from <= q < to ==> ascii_digit(#[trigger] v@[q]),
            out@ == old(out)@ + digit_values(v@.subrange(from as int, k as int)),
        decreases to - k,
    {
        assert(ascii_digit(v@[k as int]));
        let x = (v[k] as u32 - 48) as u8;
        out.push(x);
        assert(digit_values(v@.subrange(from as int, k + 1)) == digit_values(
            v@.subrange(from as int, k as int),
        ).push(x));
        k = k + 1;
    }
}

/// The number written by the ASCII digits `v[from..to]`, if it is at most
/// `MAX_EXPONENT`.
fn capped_value(v: &Vec<char>, from: usize, to: usize) -> (r: Option<u64>)
    requires
        from <= to <= v@.len(),
        forall|k: int| from <= k < to ==> ascii_digit(#[trigger] v@[k]),
    ensures
        r is Some == (digits_value(digit_values(v@.subrange(from as int, to as int)))
            <= MAX_EXPONENT),
        r is Some ==> r->0 == digits_value(digit_values(v@.subrange(from as int, to as int))),
{
    let ghost full = digit_values(v@.subrange(from as int, to as int));
    let mut acc: u64 = 0;
    let mut k: usize = from;
    while k < to
        invariant
            from <= k <= to <= v@.len(),
            forall|q: int| from <= q < to ==> ascii_digit(#[trigger] v@[q]),
            full == digit_values(v@.subrange(from as int, to as int)),
            acc == digits_value(full.subrange(0, k - from)),
            acc <= MAX_EXPONENT,
        decreases to - k,
    {
        assert(ascii_digit(v@[k as int]));
        let x = (v[k] as u32 - 48) as u64;
        let ghost p = full.subrange(0, k + 1 - from);
        assert(p.drop_last() == full.subrange(0, k - from));
        assert(p.last() == full[k - from]);
        let next = acc * 10 + x;
        if next > MAX_EXPONENT {
            proof {
                lemma_digits_prefix(full, k + 1 - from);
            }
            return None;
        }
        acc = next;
        k = k + 1;
    }
    assert(full.subrange(0, to - from) == full);
    Some(acc)
}

/// The canonical number `(-1)^negative * digits * 10^exponent`.
fn make_number(negative: bool, d: Vec<u8>, exponent: i128) -> (r: Number)
    requires
        forall|i: int| 0 <= i < d@.len() ==> #[trigger] d@[i] < 10,
        i64::MIN <= exponent,
        exponent + d@.len() <= i64::MAX,
    ensures
        number_is(r, negative, d@, exponent as int),
{
    let len = d.len();
    let mut lz: usize = 0;
    while lz < len && d[lz] == 0
        invariant
            lz <= len == d@.len(),
            forall|i: int| 0 <= i < lz ==> #[trigger] d@[i] == 0,
        decreases len - lz,
    {
        lz = lz + 1;
    }
    proof {
        lemma_digits_zero(d@.subrange(0, lz as int));
        lemma_digits_concat(d@.subrange(0, lz as int), d@.subrange(lz as int, len as int));
        assert(d@.subrange(0, lz as int) + d@.subrange(lz as int, len as int) == d@);
    }
    if lz == len {
        assert(d@.subrange(lz as int, len as int) == Seq::<u8>::empty());
        return Number::zero();
    }
    let mut e: usize = len;
    while d[e - 1] == 0
        invariant
            lz < e <= len == d@.len(),
            d@[lz as int] != 0,
            forall|i: int| e <= i < len ==> #[trigger] d@[i] == 0,
        decreases e,
    {
        e = e - 1;
    }
    let mut core: Vec<u8> = Vec::new();
    let mut k: usize = lz;
    while k < e
        invariant
            lz <= k <= e <= len == d@.len(),
            core@ == d@.subrange(lz as int, k as int),
        decreases e - k,
    {
        core.push(d[k]);
        assert(d@.subrange(lz as int, k + 1) == d@.subrange(lz as int, k as int).push(d@[k as int]));
        k = k + 1;
    }
    let t = len - e;
    proof {
        let tail = d@.subrange(e as int, len as int);
        lemma_digits_zero(tail);
        lemma_digits_concat(core@, tail);
        assert(core@ + tail == d@.subrange(lz as int, len as int));
        assert(core@[0] == d@[lz as int]);
        assert(core@.last() == d@[e - 1]);
        assert(tail.len() == t);
        assert(digits_value(d@) == digits_value(d@.subrange(lz as int, len as int)));
        assert(digits_value(d@) == digits_value(core@) * pow10(t as nat));
        assert forall|i: int| 0 <= i < core@.len() implies #[trigger] core@[i] < 10 by {
            assert(core@[i] == d@[lz + i]);
        }
        lemma_digits_prefix(core@, 1);
        let one = core@.subrange(0, 1);
        assert(one.drop_last() == Seq::<u8>::empty());
        assert(one.last() == core@[0]);
        assert(digits_value(Seq::<u8>::empty()) == 0);
        assert(digits_value(one) == core@[0] as nat);
        lemma_pow10_big(t as nat);
        let m = digits_value(core@);
        let p = pow10(t as nat);
        assert(m * p > 0) by (nonlinear_arith)
            requires
                m > 0,
                p >= 1,
        ;
        assert(digits_value(d@) != 0);
    }
    let exp: i64 = (exponent + t as i128) as i64;
    let r = Number { negative, digits: core, exponent: exp };
    assert((r.exponent - exponent) as nat == t as nat);
    r
}

/// The parse state: the characters, the position of the current one, and
/// the line and column of that position for messages.
struct Parser {
    chars: Vec<char>,
    pos: usize,
    line: usize,
    col: usize,
}

impl Parser {
    /// The position is within the text, and the line and column counters
    /// are those of the position (see `line_at` and `col_at`).
    spec fn wf(&self) -> bool {
        &&& self.pos <= self.chars@.len()
        &&& 1 <= self.line <= self.pos + 1
        &&& 1 <= self.col <= self.pos + 1
        &&& self.line == line_at(self.chars@, self.pos as int)
        &&& self.col == col_at(self.chars@, self.pos as int)
    }

    /// The text being parsed.
    spec fn text(&self) -> Seq<char> {
        self.chars@
    }

    /// The position of the current character.
    spec fn at(&self) -> int {
        self.pos as int
    }

    /// A parser at the start of `input`, on line 1, column 1.
    fn new(input: &str) -> (r: Parser)
        ensures
            r.wf(),
            r.text() == input@,
            r.at() == 0,
    {
        Parser { chars: chars_of(input), pos: 0, line: 1, col: 1 }
    }

    /// The current character, if the text has not ended.
    fn current(&self) -> (r: Option<char>)
        requires
            self.wf(),
        ensures
            r == (if self.pos < self.chars@.len() {
                Some(self.chars@[self.pos as int])
            } else {
                None
            }),
    {
        if self.pos < self.chars.len() {
            Some(self.chars[self.pos])
        } else {
            None
        }
    }

    /// Moves to the next character and returns it; a line feed starts a new
    /// line.
    fn next(&mut self) -> (r: Option<char>)
        requires
            old(self).wf(),
            old(self).pos < old(self).chars@.len(),
        ensures
            final(self).wf(),
            final(self).chars == old(self).chars,
            final(self).pos == old(self).pos + 1,
            r == (if final(self).pos < final(self).chars@.len() {
                Some(final(self).chars@[final(self).pos as int])
            } else {
                None
            }),
            r == Some('\n') ==> final(self).line == old(self).line + 1 && final(self).col == 1,
            r is Some && r != Some('\n') ==> final(self).line == old(self).line && final(self).col
                == old(self).col + 1,
            r is None ==> final(self).line == old(self).line && final(self).col == old(self).col,
    {
        let n = self.chars.len();
        self.pos = self.pos + 1;
        if self.pos < self.chars.len() {
            let c = self.chars[self.pos];
            if c == '\n' {
                self.line = self.line + 1;
                self.col = 1;
            } else {
                self.col = self.col + 1;
            }
            Some(c)
        } else {
            None
        }
    }

    /// The characters `v[from..to]`.
    fn copy_chars(v: &Vec<char>, from: usize, to: usize) -> (r: Vec<char>)
        requires
            from <= to <= v@.len(),
        ensures
            r@ == v@.subrange(from as int, to as int),
    {
        let mut r: Vec<char> = Vec::new();
        let mut k: usize = from;
        while k < to
            invariant
                from <= k <= to <= v@.len(),
                r@ == v@.subrange(from as int, k as int),
            decreases to - k,
        {
            r.push(v[k]);
            assert(v@.subrange(from as int, k + 1) == v@.subrange(from as int, k as int).push(
                v@[k as int],
            ));
            k = k + 1;
        }
        r
    }

    /// Skips whitespace.
    fn skip_whitespace(&mut self)
        requires
            old(self).wf(),
        ensures
            final(self).wf(),
            final(self).chars == old(self).chars,
            final(self).pos == ws_skip(old(self).chars@, old(self).pos as int),
            final(self).pos >= old(self).pos,
    {
        proof {
            lemma_ws_skip(self.chars@, self.pos as int);
        }
        loop
            invariant
                self.wf(),
                self.chars == old(self).chars,
                ws_skip(self.chars@, self.pos as int) == ws_skip(old(self).chars@, old(self).pos as int),
            ensures
                self.wf(),
                self.chars == old(self).chars,
                self.pos == ws_skip(old(self).chars@, old(self).pos as int),
            decreases self.chars@.len() - self.pos,
        {
            if self.pos >= self.chars.len() {
                break;
            }
            if !is_unicode_whitespace(self.chars[self.pos]) {
                break;
            }
            self.next();
        }
    }
}

impl Parser {
    /// Moves past a run of ASCII digits.
    fn skip_digits(&mut self)
        requires
            old(self).wf(),
        ensures
            final(self).wf(),
            final(self).chars == old(self).chars,
            final(self).pos == digits_end(old(self).chars@, old(self).pos as int),
            final(self).pos >= old(self).pos,
    {
        proof {
            lemma_digits_end(self.chars@, self.pos as int);
        }
        loop
            invariant
                self.wf(),
                self.chars == old(self).chars,
                digits_end(self.chars@, self.pos as int) == digits_end(
                    old(self).chars@,
                    old(self).pos as int,
                ),
            ensures
                self.wf(),
                self.chars == old(self).chars,
                self.pos == digits_end(old(self).chars@, old(self).pos as int),
            decreases self.chars@.len() - self.pos,
        {
            if self.pos >= self.chars.len() {
                break;
            }
            let code: u32 = self.chars[self.pos] as u32;
            if !(48 <= code && code <= 57) {
                break;
            }
            self.next();
        }
    }

    /// Whether the current character is `c`.
    fn at_char(&self, c: char) -> (r: bool)
        requires
            self.wf(),
        ensures
            r == (self.pos < self.chars@.len() && self.chars@[self.pos as int] == c),
    {
        self.pos < self.chars.len() && self.chars[self.pos] == c
    }

    /// Parses a number whose first character is the current one; see
    /// `number_lexeme`.
    #[verifier::rlimit(60)]
    fn parse_number(&mut self) -> (r: Result<ToonValue, ToonError>)
        requires
            old(self).wf(),
        ensures
            final(self).wf(),
            final(self).chars == old(self).chars,
            ({
                let (end, negative, digits, exponent, fault) = number_lexeme(
                    old(self).chars@,
                    old(self).pos as int,
                );
                &&& fault == 1 <==> (r is Err && r->Err_0 is InvalidFormat)
                &&& fault == 2 <==> (r is Err && r->Err_0 is Deserialization)
                &&& fault == 0 <==> r is Ok
                &&& r is Ok ==> final(self).pos > old(self).pos
                &&& number_gap(old(self).chars@, old(self).pos as int) == 1 ==> r == Err::<
                    ToonValue,
                    ToonError,
                >(ToonError::InvalidFormat(r->Err_0->InvalidFormat_0)) && r->Err_0->InvalidFormat_0@
                    == "Expected digit"@
                &&& number_gap(old(self).chars@, old(self).pos as int) == 2 ==> r == Err::<
                    ToonValue,
                    ToonError,
                >(ToonError::InvalidFormat(r->Err_0->InvalidFormat_0)) && r->Err_0->InvalidFormat_0@
                    == "Expected digit after decimal point"@
                &&& number_gap(old(self).chars@, old(self).pos as int) == 3 ==> r == Err::<
                    ToonValue,
                    ToonError,
                >(ToonError::InvalidFormat(r->Err_0->InvalidFormat_0)) && r->Err_0->InvalidFormat_0@
                    == "Expected digit in exponent"@
                &&& r is Ok ==> final(self).pos == end && r->Ok_0 is Number && number_is(
                    r->Ok_0->Number_0,
                    negative,
                    digits,
                    exponent,
                )
            }),
    {
        let ghost s = self.chars@;
        let ghost i = self.pos as int;
        let negative = self.at_char('-');
        if negative {
            self.next();
        }
        let a = self.pos;
        assert(negative == (0 <= i < s.len() && s[i] == '-'));
        self.skip_digits();
        let b = self.pos;
        assert(b == digits_end(s, a as int));
        proof {
            lemma_digits_end(s, a as int);
        }
        if b == a {
            return Err(ToonError::InvalidFormat(String::from_str("Expected digit")));
        }
        let mut digits: Vec<u8> = Vec::new();
        push_digit_values(&mut digits, &self.chars, a, b);
        let mut frac_len: usize = 0;
        let ghost frac: Seq<char> = Seq::empty();
        if self.at_char('.') {
            self.next();
            let f0 = self.pos;
            self.skip_digits();
            if self.pos == f0 {
                return Err(ToonError::InvalidFormat(String::from_str("Expected digit after decimal point")));
            }
            proof {
                lemma_digits_end(s, f0 as int);
                frac = s.subrange(f0 as int, self.pos as int);
            }
            push_digit_values(&mut digits, &self.chars, f0, self.pos);
            frac_len = self.pos - f0;
        }
        let c = self.pos;
        assert(c == (if b < s.len() && s[b as int] == '.' {
            digits_end(s, b + 1)
        } else {
            b as int
        }));
        assert(frac == (if b < s.len() && s[b as int] == '.' {
            s.subrange(b + 1, c as int)
        } else {
            Seq::empty()
        }));
        assert(frac_len == frac.len());
        let mut ev: u64 = 0;
        let mut eneg = false;
        if self.at_char('e') || self.at_char('E') {
            self.next();
            if self.at_char('+') || self.at_char('-') {
                eneg = self.at_char('-');
                self.next();
            }
            let d0 = self.pos;
            self.skip_digits();
            if self.pos == d0 {
                return Err(ToonError::InvalidFormat(String::from_str("Expected digit in exponent")));
            }
            proof {
                lemma_digits_end(s, d0 as int);
            }
            match capped_value(&self.chars, d0, self.pos) {
                Some(v) => {
                    ev = v;
                },
                None => {
                    return Err(ToonError::Deserialization(String::from_str("Exponent out of range")));
                },
            }
        }
        if digits.len() == 0 {
            return Err(ToonError::Deserialization(String::from_str("Number has no digits")));
        }
        let exponent: i128 = (if eneg {
            -(ev as i128)
        } else {
            ev as i128
        }) - frac_len as i128;
        if exponent < i64::MIN as i128 || exponent + digits.len() as i128 > i64::MAX as i128 {
            return Err(ToonError::Deserialization(String::from_str("Number out of range")));
        }
        proof {
            assert(digits@ == digit_values(s.subrange(a as int, b as int)) + digit_values(frac));
        }
        Ok(ToonValue::Number(make_number(negative, digits, exponent)))
    }

    /// Parses one value after optional whitespace; see `parse_value` and
    /// `value_outline`.
    fn parse(&mut self) -> (r: Result<ToonValue, ToonError>)
        requires
            old(self).wf(),
        ensures
            final(self).wf(),
            final(self).chars == old(self).chars,
            value_outline(old(self).chars@, old(self).pos as int, r, final(self).pos as int),
            r is Ok ==> value_wf(r->Ok_0) && final(self).pos > old(self).pos,
            decode_error(r),
            parse_result(parse_value(old(self).chars@, old(self).pos as int), r, final(self).pos as int),
        decreases old(self).chars@.len() - old(self).pos, 2nat,
    {
        self.skip_whitespace();
        if self.pos >= self.chars.len() {
            let msg = String::from_str("Unexpected end of input");
            proof {
                reveal_strlit("Unexpected end of input");
            }
            assert(msg@ == end_of_input());
            return Err(ToonError::InvalidFormat(msg));
        }
        let c = self.chars[self.pos];
        let code: u32 = c as u32;
        if c == '{' {
            self.parse_object()
        } else if c == '[' {
            self.parse_array()
        } else if c == '"' {
            match self.parse_string() {
                Ok(t) => Ok(ToonValue::String(string_of(&t))),
                Err(e) => Err(e),
            }
        } else if (48 <= code && code <= 57) || c == '-' {
            self.parse_number()
        } else if is_ident_start(c) {
            self.parse_identifier()
        } else {
            let what = unexpected_character(c);
            let msg = located(what.as_str(), self.line, self.col);
            assert(msg@ == unexpected_text(c) + at_position(self.line as nat, self.col as nat));
            Err(ToonError::InvalidFormat(msg))
        }
    }

    /// Parses an array whose `[` is the current character; see
    /// `parse_array`.
    fn parse_array(&mut self) -> (r: Result<ToonValue, ToonError>)
        requires
            old(self).wf(),
            old(self).pos < old(self).chars@.len(),
        ensures
            final(self).wf(),
            final(self).chars == old(self).chars,
            r is Ok ==> r->Ok_0 is Array && value_wf(r->Ok_0) && final(self).pos > old(self).pos,
            decode_error(r),
            parse_result(parse_array(old(self).chars@, old(self).pos as int), r, final(self).pos as int),
        decreases old(self).chars@.len() - old(self).pos, 1nat,
    {
        let ghost s = self.chars@;
        let start = self.pos;
        self.next();
        let mut arr: Vec<ToonValue> = Vec::new();
        let ghost mut acc: Seq<Model> = Seq::empty();
        self.skip_whitespace();
        if self.at_char(']') {
            self.next();
            assert(value_wf(ToonValue::Array(arr)));
            assert(value_matches(ToonValue::Array(arr), Model::Arr(acc)));
            return Ok(ToonValue::Array(arr));
        }
        loop
            invariant
                self.wf(),
                self.chars == old(self).chars,
                s == self.chars@,
                start == old(self).pos,
                self.pos > start,
                forall|i: int| 0 <= i < arr@.len() ==> value_wf(#[trigger] arr@[i]),
                arr@.len() == acc.len(),
                forall|i: int| 0 <= i < arr@.len() ==> value_matches(#[trigger] arr@[i], acc[i]),
                parse_array(s, start as int) == parse_items(s, self.pos as int, acc),
            decreases self.chars@.len() - self.pos,
        {
            let ghost j = self.pos as int;
            self.skip_whitespace();
            proof {
                lemma_ws_skip_idem(s, j);
                assert(parse_value(s, self.pos as int) == parse_value(s, j));
            }
            let value = match self.parse() {
                Ok(v) => v,
                Err(e) => {
                    return Err(e);
                },
            };
            let ghost m = parse_value(s, j)->Some_0.0;
            let ghost e = self.pos as int;
            arr.push(value);
            proof {
                acc = acc.push(m);
            }
            assert(forall|i: int| 0 <= i < arr@.len() ==> value_matches(#[trigger] arr@[i], acc[i]));
            self.skip_whitespace();
            if self.at_char(',') {
                self.next();
            } else if self.at_char(']') {
                self.next();
                assert(value_wf(ToonValue::Array(arr)));
                assert(value_matches(ToonValue::Array(arr), Model::Arr(acc)));
                return Ok(ToonValue::Array(arr));
            } else if self.pos >= self.chars.len() {
                return Err(ToonError::InvalidFormat(
                    String::from_str("Unexpected end of input while parsing array"),
                ));
            } else {
                return Err(ToonError::InvalidFormat(located("Expected ',' or ']'", self.line, self.col)));
            }
        }
    }

    /// Parses an object whose `{` is the current character; see
    /// `parse_object`. A key given twice keeps its first place and takes the
    /// later value.
    fn parse_object(&mut self) -> (r: Result<ToonValue, ToonError>)
        requires
            old(self).wf(),
            old(self).pos < old(self).chars@.len(),
        ensures
            final(self).wf(),
            final(self).chars == old(self).chars,
            r is Ok ==> r->Ok_0 is Object && value_wf(r->Ok_0) && final(self).pos > old(self).pos,
            decode_error(r),
            parse_result(parse_object(old(self).chars@, old(self).pos as int), r, final(self).pos as int),
        decreases old(self).chars@.len() - old(self).pos, 1nat,
    {
        let ghost s = self.chars@;
        let start = self.pos;
        self.next();
        let mut obj: Vec<(String, ToonValue)> = Vec::new();
        let ghost mut acc: Seq<(Seq<char>, Model)> = Seq::empty();
        self.skip_whitespace();
        if self.at_char('}') {
            self.next();
            assert(value_wf(ToonValue::Object(obj)));
            assert(value_matches(ToonValue::Object(obj), Model::Obj(acc)));
            return Ok(ToonValue::Object(obj));
        }
        loop
            invariant
                self.wf(),
                self.chars == old(self).chars,
                s == self.chars@,
                start == old(self).pos,
                self.pos > start,
                keys_unique(obj@),
                forall|i: int| 0 <= i < obj@.len() ==> value_wf(#[trigger] obj@[i].1),
                obj@.len() == acc.len(),
                forall|i: int|
                    0 <= i < obj@.len() ==> (#[trigger] obj@[i]).0@ == acc[i].0 && value_matches(
                        obj@[i].1,
                        acc[i].1,
                    ),
                parse_object(s, start as int) == parse_entries(s, self.pos as int, acc),
            decreases self.chars@.len() - self.pos,
        {
            let ghost j = self.pos as int;
            self.skip_whitespace();
            let ghost k = self.pos as int;
            if self.pos >= self.chars.len() {
                return Err(ToonError::InvalidFormat(
                    String::from_str("Unexpected end of input while parsing object"),
                ));
            }
            let c = self.chars[self.pos];
            let key: Vec<char> = if c == '"' {
                match self.parse_string() {
                    Ok(t) => t,
                    Err(e) => {
                        return Err(e);
                    },
                }
            } else if is_ident_start(c) {
                self.scan_identifier()
            } else {
                return Err(ToonError::InvalidFormat(
                    located("Expected string or identifier", self.line, self.col),
                ));
            };
            assert(key_at(s, k) == Some((key@, self.pos as int)));
            self.skip_whitespace();
            let ghost cpos = self.pos as int;
            if !self.at_char(':') {
                return Err(ToonError::InvalidFormat(located("Expected ':' after key", self.line, self.col)));
            }
            self.next();
            let ghost q = self.pos as int;
            self.skip_whitespace();
            proof {
                lemma_ws_skip_idem(s, q);
                assert(parse_value(s, self.pos as int) == parse_value(s, q));
            }
            let value = match self.parse() {
                Ok(v) => v,
                Err(e) => {
                    return Err(e);
                },
            };
            let ghost m = parse_value(s, q)->Some_0.0;
            let ghost old_acc = acc;
            let name = string_of(&key);
            proof {
                lemma_key_index(obj@, key@);
                lemma_model_key_index(obj@, acc, key@);
            }
            match find_key(&obj, &key) {
                Some(k) => {
                    let ghost before = obj@;
                    obj.remove(k);
                    obj.insert(k, (name, value));
                    assert(obj@ == before.update(k as int, obj@[k as int]));
                    assert forall|i: int, j: int|
                        0 <= i < j < obj@.len() implies #[trigger] obj@[i].0@ != #[trigger] obj@[j].0@ by {
                        assert(obj@[i].0@ == before[i].0@);
                        assert(obj@[j].0@ == before[j].0@);
                    }
                    assert forall|i: int| 0 <= i < obj@.len() implies value_wf(#[trigger] obj@[i].1) by {
                        if i != k {
                            assert(obj@[i] == before[i]);
                        }
                    }
                    proof {
                        acc = model_insert(old_acc, key@, m);
                    }
                    assert forall|i: int| 0 <= i < obj@.len() implies (#[trigger] obj@[i]).0@ == acc[i].0
                        && value_matches(obj@[i].1, acc[i].1) by {
                        if i != k {
                            assert(obj@[i] == before[i]);
                        }
                    }
                },
                None => {
                    let ghost before = obj@;
                    obj.push((name, value));
                    assert forall|i: int, j: int|
                        0 <= i < j < obj@.len() implies #[trigger] obj@[i].0@ != #[trigger] obj@[j].0@ by {
                        if j == before.len() {
                            assert(obj@[i] == before[i]);
                        } else {
                            assert(obj@[i] == before[i]);
                            assert(obj@[j] == before[j]);
                        }
                    }
                    assert forall|i: int| 0 <= i < obj@.len() implies value_wf(#[trigger] obj@[i].1) by {
                        if i < before.len() {
                            assert(obj@[i] == before[i]);
                        }
                    }
                    proof {
                        acc = model_insert(old_acc, key@, m);
                    }
                    assert forall|i: int| 0 <= i < obj@.len() implies (#[trigger] obj@[i]).0@ == acc[i].0
                        && value_matches(obj@[i].1, acc[i].1) by {
                        if i < before.len() {
                            assert(obj@[i] == before[i]);
                        }
                    }
                },
            }
            self.skip_whitespace();
            if self.at_char(',') {
                self.next();
            } else if self.at_char('}') {
                self.next();
                assert(value_wf(ToonValue::Object(obj)));
                assert(value_matches(ToonValue::Object(obj), Model::Obj(acc)));
                return Ok(ToonValue::Object(obj));
            } else if self.pos >= self.chars.len() {
                return Err(ToonError::InvalidFormat(
                    String::from_str("Unexpected end of input while parsing object"),
                ));
            } else {
                return Err(ToonError::InvalidFormat(located("Expected ',' or '}'", self.line, self.col)));
            }
        }
    }

    /// Moves past an identifier start and the identifier characters after it,
    /// and returns them.
    fn scan_identifier(&mut self) -> (r: Vec<char>)
        requires
            old(self).wf(),
            old(self).pos < old(self).chars@.len(),
        ensures
            final(self).wf(),
            final(self).chars == old(self).chars,
            final(self).pos == ident_end(old(self).chars@, old(self).pos + 1),
            final(self).pos > old(self).pos,
            r@ == old(self).chars@.subrange(old(self).pos as int, final(self).pos as int),
    {
        let start = self.pos;
        self.next();
        loop
            invariant
                self.wf(),
                self.chars == old(self).chars,
                start == old(self).pos,
                start < self.pos,
                ident_end(self.chars@, self.pos as int) == ident_end(self.chars@, start + 1),
            ensures
                self.wf(),
                self.chars == old(self).chars,
                start < self.pos,
                self.pos == ident_end(self.chars@, start + 1),
            decreases self.chars@.len() - self.pos,
        {
            if self.pos >= self.chars.len() {
                break;
            }
            if !is_ident_continue(self.chars[self.pos]) {
                break;
            }
            self.next();
        }
        Parser::copy_chars(&self.chars, start, self.pos)
    }

    /// Parses a bare identifier in value position: `true`, `false` and
    /// `null` are the literals, any other identifier is a string.
    fn parse_identifier(&mut self) -> (r: Result<ToonValue, ToonError>)
        requires
            old(self).wf(),
            old(self).pos < old(self).chars@.len(),
        ensures
            final(self).wf(),
            final(self).chars == old(self).chars,
            final(self).pos == ident_end(old(self).chars@, old(self).pos + 1),
            r is Ok,
            final(self).pos > old(self).pos,
            ident_value(old(self).chars@.subrange(old(self).pos as int, final(self).pos as int), r->Ok_0),
    {
        let ident = self.scan_identifier();
        if spells(&ident, &['t', 'r', 'u', 'e']) {
            Ok(ToonValue::Bool(true))
        } else if spells(&ident, &['f', 'a', 'l', 's', 'e']) {
            Ok(ToonValue::Bool(false))
        } else if spells(&ident, &['n', 'u', 'l', 'l']) {
            Ok(ToonValue::Null)
        } else {
            Ok(ToonValue::String(string_of(&ident)))
        }
    }

    /// Parses a quoted string whose opening quote is the current character,
    /// and returns its characters, unescaped.
    fn parse_string(&mut self) -> (r: Result<Vec<char>, ToonError>)
        requires
            old(self).wf(),
            old(self).pos < old(self).chars@.len(),
        ensures
            final(self).wf(),
            final(self).chars == old(self).chars,
            ({
                let s = old(self).chars@;
                let start = old(self).pos + 1;
                match string_close(s, start) {
                    None => r is Err && r->Err_0 is InvalidFormat,
                    Some(close) => match unescaped(s.subrange(start, close)) {
                        None => r is Err && r->Err_0 is Deserialization,
                        Some(t) => r is Ok && r->Ok_0@ == t && final(self).pos == close + 1,
                    },
                }
            }),
            r is Ok ==> final(self).pos > old(self).pos,
    {
        self.next();
        let start = self.pos;
        let ghost s = self.chars@;
        loop
            invariant
                self.wf(),
                self.chars == old(self).chars,
                s == self.chars@,
                start == old(self).pos + 1,
                start <= self.pos,
                string_close(s, self.pos as int) == string_close(s, start as int),
            ensures
                self.wf(),
                self.chars == old(self).chars,
                start <= self.pos < s.len(),
                s[self.pos as int] == '"',
                string_close(s, start as int) == Some(self.pos as int),
            decreases self.chars@.len() - self.pos,
        {
            if self.pos >= self.chars.len() {
                return Err(ToonError::InvalidFormat(
                    String::from_str("Unexpected end of input while parsing string"),
                ));
            }
            let c = self.chars[self.pos];
            if c == '"' {
                break;
            }
            if c == '\\' {
                self.next();
                if self.pos >= self.chars.len() {
                    return Err(ToonError::InvalidFormat(
                        String::from_str("Unexpected end of input while parsing string"),
                    ));
                }
            }
            self.next();
        }
        let close = self.pos;
        let raw = Parser::copy_chars(&self.chars, start, close);
        match unescape_chars(&raw) {
            Some(t) => {
                self.next();
                Ok(t)
            },
            None => Err(ToonError::Deserialization(String::from_str("Invalid escape sequence"))),
        }
    }
}

/// What decoding the whole text `s` gives: the value that `parse_value`
/// finds at the start, when only whitespace follows it; a format error when
/// anything else follows it; an error where it finds no value.
pub open spec fn decode_result(s: Seq<char>, r: Result<ToonValue, ToonError>) -> bool {
    match parse_value(s, 0) {
        None => r is Err,
        Some((m, e)) => if ws_skip(s, e) < s.len() {
            r is Err && r->Err_0 is InvalidFormat
        } else {
            r is Ok && value_matches(r->Ok_0, m)
        },
    }
}

/// Parses a complete text into exactly one value, with optional whitespace
/// around it; see `decode_result`. Where no value is found, `value_outline`
/// gives the kind of error. A parsed value is well formed.
pub fn decode(input: &str) -> (r: Result<ToonValue, ToonError>)
    ensures
        r is Ok ==> value_wf(r->Ok_0),
        decode_result(input@, r),
        decode_error(r),
        parse_value(input@, 0) is None ==> exists|end: int| value_outline(input@, 0, r, end),
{
    let mut parser = Parser::new(input);
    let value = match parser.parse() {
        Ok(v) => v,
        Err(e) => {
            return Err(e);
        },
    };
    parser.skip_whitespace();
    if parser.pos < parser.chars.len() {
        return Err(ToonError::InvalidFormat(
            located("Unexpected text after the value", parser.line, parser.col),
        ));
    }
    Ok(value)
}

} // verus!
