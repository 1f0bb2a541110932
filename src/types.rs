//! The value model shared by the decoder and the encoder.
use vstd::prelude::*;
use crate::utils::{number_text, push_number, string_of, chars_of, hex_char, hex_digit};

verus! {

/// Ten to the power `k`.
pub open spec fn pow10(k: nat) -> nat
    decreases k,
{
    if k == 0 {
        1
    } else {
        10 * pow10((k - 1) as nat)
    }
}

/// The natural number written by a big-endian sequence of decimal digits.
pub open spec fn digits_value(d: Seq<u8>) -> nat
    decreases d.len(),
{
    if d.len() == 0 {
        0
    } else {
        digits_value(d.drop_last()) * 10 + d.last() as nat
    }
}

/// A decimal number: `(-1)^negative * digits * 10^exponent`, where `digits`
/// are the base-ten digits of the mantissa, most significant first.
///
/// A well-formed number is canonical: the mantissa has no leading and no
/// trailing zero digit, and zero is written with no digits, no sign and a
/// zero exponent. Two well-formed numbers are thus equal exactly when they
/// denote the same value.
#[derive(Debug, Clone, PartialEq, Eq)]
pub struct Number {
    pub negative: bool,
    pub digits: Vec<u8>,
    pub exponent: i64,
}

impl Number {
    /// The canonical form described on the type.
    pub open spec fn wf(&self) -> bool {
        &&& forall|i: int| 0 <= i < self.digits@.len() ==> #[trigger] self.digits@[i] < 10
        &&& self.digits@.len() > 0 ==> self.digits@[0] != 0 && self.digits@.last() != 0
        &&& self.digits@.len() == 0 ==> !self.negative && self.exponent == 0
    }

    /// The magnitude of the mantissa.
    pub open spec fn mantissa(&self) -> nat {
        digits_value(self.digits@)
    }

    /// Whether the number has no fractional part.
    pub open spec fn is_integral(&self) -> bool {
        self.exponent >= 0 || self.digits@.len() == 0
    }

    /// The number zero.
    pub fn zero() -> (r: Number)
        ensures
            r.wf(),
            r.mantissa() == 0,
            !r.negative,
    {
        Number { negative: false, digits: Vec::new(), exponent: 0 }
    }

    /// The number `mantissa * 10^exponent`, in canonical form.
    pub fn decimal(mantissa: i64, exponent: i32) -> (r: Number)
        ensures
            r.wf(),
            r.negative == (mantissa < 0),
            mantissa == 0 ==> r.mantissa() == 0,
            mantissa != 0 ==> r.exponent >= exponent && r.mantissa() * pow10(
                (r.exponent - exponent) as nat,
            ) == (if mantissa < 0 {
                -mantissa
            } else {
                mantissa as int
            }),
    {
        let wide: i128 = mantissa as i128;
        let mut m: u128 = if wide < 0 {
            (-wide) as u128
        } else {
            wide as u128
        };
        let ghost whole: nat = m as nat;
        let mut exp: i64 = exponent as i64;
        if m == 0 {
            return Number::zero();
        }
        assert(pow10(0) == 1);
        assert((exp - exponent) as nat == 0);
        assert(m * pow10((exp - exponent) as nat) == whole);
        while m % 10 == 0
            invariant
                m > 0,
                exponent <= exp,
                m * pow10((exp - exponent) as nat) == whole,
                pow10((exp - exponent) as nat) <= whole,
                whole <= 0x8000_0000_0000_0000,
            decreases m,
        {
            let ghost k = (exp - exponent) as nat;
            proof {
                lemma_pow10_big(k + 1);
            }
            assert(pow10(k + 1) == 10 * pow10(k)) by {
                assert(pow10((k + 1) as nat) == 10 * pow10(((k + 1) - 1) as nat));
            }
            assert((m / 10) * pow10(k + 1) == whole) by (nonlinear_arith)
                requires
                    m % 10 == 0,
                    m * pow10(k) == whole,
                    pow10(k + 1) == 10 * pow10(k),
            ;
            assert(pow10(k + 1) <= whole) by (nonlinear_arith)
                requires
                    (m / 10) * pow10(k + 1) == whole,
                    m / 10 >= 1,
            ;
            m = m / 10;
            exp = exp + 1;
        }
        let mut digits: Vec<u8> = Vec::new();
        push_digits(m, &mut digits);
        proof {
            lemma_digits_of(m as nat);
            assert(digits@ == digits_of(m as nat));
        }
        Number { negative: wide < 0, digits, exponent: exp }
    }

    /// Whether the number is in the canonical form described on the type.
    pub fn is_canonical(&self) -> (r: bool)
        ensures
            r == self.wf(),
    {
        let len = self.digits.len();
        if len == 0 {
            return !self.negative && self.exponent == 0;
        }
        if self.digits[0] == 0 || self.digits[len - 1] == 0 {
            return false;
        }
        let mut i: usize = 0;
        while i < len
            invariant
                i <= len == self.digits@.len(),
                forall|j: int| 0 <= j < i ==> #[trigger] self.digits@[j] < 10,
            decreases len - i,
        {
            if self.digits[i] >= 10 {
                return false;
            }
            i = i + 1;
        }
        true
    }

    /// The integer `n`.
    pub fn integer(n: i64) -> (r: Number)
        ensures
            r.wf(),
            r.negative == (n < 0),
            r.exponent >= 0,
            r.mantissa() * pow10(r.exponent as nat) == (if n < 0 {
                -n
            } else {
                n as int
            }),
    {
        Number::decimal(n, 0)
    }
}

/// A value of the format: one of six shapes. An object keeps its entries in
/// the order in which they were inserted, with each key at most once.
#[derive(Debug, PartialEq)]
pub enum ToonValue {
    /// The absence of a value.
    Null,
    /// A true/false flag.
    Bool(bool),
    /// A decimal number.
    Number(Number),
    /// A sequence of Unicode scalar values.
    String(String),
    /// An ordered sequence of values.
    Array(Vec<ToonValue>),
    /// Key/value entries with unique keys, in insertion order.
    Object(Vec<(String, ToonValue)>),
}

/// The keys of an object's entries are pairwise distinct.
pub open spec fn keys_unique(entries: Seq<(String, ToonValue)>) -> bool {
    forall|i: int, j: int|
        0 <= i < j < entries.len() ==> #[trigger] entries[i].0@ != #[trigger] entries[j].0@
}

/// A well-formed value: every number canonical, and every object with
/// pairwise distinct keys.
pub open spec fn value_wf(v: ToonValue) -> bool
    decreases v,
{
    match v {
        ToonValue::Number(n) => n.wf(),
        ToonValue::Array(a) => forall|i: int| 0 <= i < a@.len() ==> value_wf(#[trigger] a@[i]),
        ToonValue::Object(o) => keys_unique(o@) && forall|i: int|
            0 <= i < o@.len() ==> value_wf(#[trigger] o@[i].1),
        _ => true,
    }
}

impl ToonValue {
    /// Whether the value is `Null`.
    pub fn is_null(&self) -> (r: bool)
        ensures
            r == (self is Null),
    {
        match self {
            ToonValue::Null => true,
            _ => false,
        }
    }

    /// The flag, if the value is a `Bool`.
    pub fn as_bool(&self) -> (r: Option<bool>)
        ensures
            r == (match self {
                ToonValue::Bool(b) => Some(*b),
                _ => None,
            }),
    {
        match self {
            ToonValue::Bool(b) => Some(*b),
            _ => None,
        }
    }

    /// The number, if the value is a `Number`.
    pub fn as_number(&self) -> (r: Option<&Number>)
        ensures
            r == (match self {
                ToonValue::Number(n) => Some(n),
                _ => None,
            }),
    {
        match self {
            ToonValue::Number(n) => Some(n),
            _ => None,
        }
    }

    /// The text, if the value is a `String`.
    pub fn as_str(&self) -> (r: Option<&str>)
        ensures
            r.is_some() == (self is String),
            r.is_some() ==> r.unwrap()@ == self->String_0@,
    {
        match self {
            ToonValue::String(s) => Some(s.as_str()),
            _ => None,
        }
    }

    /// The text, mutably, if the value is a `String`.
    pub fn as_str_mut(&mut self) -> (r: Option<&mut String>)
        ensures
            r.is_some() == (*old(self) is String),
            r.is_some() ==> *r.unwrap() == (*old(self))->String_0 && *final(self) == ToonValue::String(
                *final(r.unwrap()),
            ),
            r.is_none() ==> *final(self) == *old(self),
    {
        match self {
            ToonValue::String(s) => Some(s),
            _ => None,
        }
    }

    /// The elements, if the value is an `Array`.
    pub fn as_array(&self) -> (r: Option<&[ToonValue]>)
        ensures
            r.is_some() == (self is Array),
            r.is_some() ==> r.unwrap()@ == self->Array_0@,
    {
        match self {
            ToonValue::Array(arr) => Some(arr.as_slice()),
            _ => None,
        }
    }

    /// The elements, mutably, if the value is an `Array`.
    pub fn as_array_mut(&mut self) -> (r: Option<&mut Vec<ToonValue>>)
        ensures
            r.is_some() == (*old(self) is Array),
            r.is_some() ==> *r.unwrap() == (*old(self))->Array_0 && *final(self) == ToonValue::Array(
                *final(r.unwrap()),
            ),
            r.is_none() ==> *final(self) == *old(self),
    {
        match self {
            ToonValue::Array(arr) => Some(arr),
            _ => None,
        }
    }

    /// The entries, if the value is an `Object`.
    pub fn as_object(&self) -> (r: Option<&Vec<(String, ToonValue)>>)
        ensures
            r.is_some() == (self is Object),
            r.is_some() ==> *r.unwrap() == self->Object_0,
    {
        match self {
            ToonValue::Object(obj) => Some(obj),
            _ => None,
        }
    }

    /// The entries, mutably, if the value is an `Object`.
    pub fn as_object_mut(&mut self) -> (r: Option<&mut Vec<(String, ToonValue)>>)
        ensures
            r.is_some() == (*old(self) is Object),
            r.is_some() ==> *r.unwrap() == (*old(self))->Object_0 && *final(self)
                == ToonValue::Object(*final(r.unwrap())),
            r.is_none() ==> *final(self) == *old(self),
    {
        match self {
            ToonValue::Object(obj) => Some(obj),
            _ => None,
        }
    }

    /// Whether the value is well formed: every number canonical and every
    /// object with pairwise distinct keys.
    pub fn is_well_formed(&self) -> (r: bool)
        ensures
            r == value_wf(*self),
        decreases *self, 0nat,
    {
        match self {
            ToonValue::Number(n) => n.is_canonical(),
            ToonValue::Array(a) => {
                let mut i: usize = 0;
                while i < a.len()
                    invariant
                        i <= a@.len(),
                        *self == ToonValue::Array(*a),
                        forall|m: int| 0 <= m < i ==> value_wf(#[trigger] a@[m]),
                    decreases a@.len() - i,
                {
                    proof {
                        assert(decreases_to!(*self => self->Array_0));
                        assert(decreases_to!(*a => a@));
                        assert(decreases_to!(a@ => a@[i as int]));
                        assert(decreases_to!(*self => a@[i as int]));
                    }
                    if !a[i].is_well_formed() {
                        return false;
                    }
                    i = i + 1;
                }
                true
            },
            ToonValue::Object(o) => {
                let mut i: usize = 0;
                while i < o.len()
                    invariant
                        i <= o@.len(),
                        *self == ToonValue::Object(*o),
                        keys_unique(o@.subrange(0, i as int)),
                        forall|m: int| 0 <= m < i ==> value_wf(#[trigger] o@[m].1),
                    decreases o@.len() - i,
                {
                    proof {
                        assert(decreases_to!(*self => self->Object_0));
                        assert(decreases_to!(*o => o@));
                        assert(decreases_to!(o@ => o@[i as int]));
                        assert(decreases_to!(o@[i as int] => o@[i as int].1));
                        assert(decreases_to!(*self => o@[i as int].1));
                    }
                    if !o[i].1.is_well_formed() {
                        assert(!value_wf(o@[i as int].1));
                        assert(!value_wf(*self));
                        return false;
                    }
                    let mut j: usize = 0;
                    while j < i
                        invariant
                            j <= i < o@.len(),
                            *self == ToonValue::Object(*o),
                            forall|m: int| 0 <= m < j ==> #[trigger] o@[m].0@ != o@[i as int].0@,
                        decreases i - j,
                    {
                        if str_eq(o[j].0.as_str(), o[i].0.as_str()) {
                            assert(!keys_unique(o@));
                            return false;
                        }
                        j = j + 1;
                    }
                    let ghost p = o@.subrange(0, i + 1);
                    assert forall|x: int, y: int|
                        0 <= x < y < p.len() implies #[trigger] p[x].0@ != #[trigger] p[y].0@ by {
                        if y < i {
                            assert(p[x] == o@.subrange(0, i as int)[x]);
                            assert(p[y] == o@.subrange(0, i as int)[y]);
                        }
                    }
                    i = i + 1;
                }
                assert(o@.subrange(0, o@.len() as int) == o@);
                true
            },
            _ => true,
        }
    }

    /// The debug text of the value: JSON-like, every string double-quoted
    /// with Rust's default escaping, numbers as `format_number` writes them.
    pub fn to_display_string(&self) -> (r: String)
        requires
            value_wf(*self),
        ensures
            r@ == display_text(*self),
    {
        let mut out: Vec<char> = Vec::new();
        push_display(self, &mut out);
        string_of(&out)
    }

    /// Whether the value is a scalar rather than a collection.
    pub open spec fn spec_is_primitive(&self) -> bool {
        !(self is Array) && !(self is Object)
    }

    /// Whether the value is `Null`, a `Bool`, a `Number` or a `String`.
    pub fn is_primitive(&self) -> (r: bool)
        ensures
            r == self.spec_is_primitive(),
    {
        match self {
            ToonValue::Array(_) => false,
            ToonValue::Object(_) => false,
            _ => true,
        }
    }
}

/// The digits of `n` in lowercase hexadecimal, without leading zeros.
pub open spec fn hex_text(n: nat) -> Seq<char>
    decreases n,
{
    if n < 16 {
        seq![hex_char(n as int)]
    } else {
        hex_text(n / 16) + seq![hex_char((n % 16) as int)]
    }
}

/// Rust's default escape of one character: tab, carriage return, line
/// feed, single and double quote and backslash get a backslash escape,
/// other printable ASCII characters stay, and every other character becomes
/// `\u{...}` with its scalar value in hexadecimal.
pub open spec fn default_escape_char(c: char) -> Seq<char> {
    if c == '\t' {
        seq!['\\', 't']
    } else if c == '\r' {
        seq!['\\', 'r']
    } else if c == '\n' {
        seq!['\\', 'n']
    } else if c == '\'' || c == '"' || c == '\\' {
        seq!['\\', c]
    } else if 0x20 <= c as u32 <= 0x7e {
        seq![c]
    } else {
        seq!['\\', 'u', '{'] + hex_text(c as u32 as nat) + seq!['}']
    }
}

/// The text of `s` with each character escaped as `str::escape_default`
/// escapes it.
pub open spec fn default_escaped(s: Seq<char>) -> Seq<char>
    decreases s.len(),
{
    if s.len() == 0 {
        Seq::empty()
    } else {
        default_escaped(s.drop_last()) + default_escape_char(s.last())
    }
}

/// Appends the lowercase hexadecimal digits of `n`.
fn push_hex(out: &mut Vec<char>, n: u32)
    ensures
        final(out)@ == old(out)@ + hex_text(n as nat),
    decreases n,
{
    if n >= 16 {
        push_hex(out, n / 16);
    }
    out.push(hex_digit(n % 16));
}

/// Appends Rust's default escape of `c`.
fn push_default_escape_char(out: &mut Vec<char>, c: char)
    ensures
        final(out)@ == old(out)@ + default_escape_char(c),
{
    let ghost o = out@;
    let code: u32 = c as u32;
    if c == '\t' {
        out.push('\\');
        out.push('t');
    } else if c == '\r' {
        out.push('\\');
        out.push('r');
    } else if c == '\n' {
        out.push('\\');
        out.push('n');
    } else if c == '\'' || c == '"' || c == '\\' {
        out.push('\\');
        out.push(c);
    } else if 0x20 <= code && code <= 0x7e {
        out.push(c);
    } else {
        out.push('\\');
        out.push('u');
        out.push('{');
        push_hex(out, code);
        out.push('}');
    }
    assert(out@ == o + default_escape_char(c));
}

/// Appends Rust's default escape of the characters `s`.
fn push_default_escaped(out: &mut Vec<char>, s: &Vec<char>)
    ensures
        final(out)@ == old(out)@ + default_escaped(s@),
{
    let mut i: usize = 0;
    while i < s.len()
        invariant
            i <= s@.len(),
            out@ == old(out)@ + default_escaped(s@.subrange(0, i as int)),
        decreases s@.len() - i,
    {
        let ghost before = out@;
        push_default_escape_char(out, s[i]);
        let ghost t = s@.subrange(0, i + 1);
        assert(t.drop_last() == s@.subrange(0, i as int));
        assert(out@ == before + default_escape_char(s@[i as int]));
        i = i + 1;
    }
    assert(s@.subrange(0, s@.len() as int) == s@);
}

/// A text in double quotes with Rust's default escaping.
pub open spec fn debug_quoted(s: Seq<char>) -> Seq<char> {
    seq!['"'] + default_escaped(s) + seq!['"']
}

/// The debug text of a value: JSON-like, with every string double-quoted.
pub open spec fn display_text(v: ToonValue) -> Seq<char>
    decreases v, 0nat,
{
    match v {
        ToonValue::Null => seq!['n', 'u', 'l', 'l'],
        ToonValue::Bool(b) => if b {
            seq!['t', 'r', 'u', 'e']
        } else {
            seq!['f', 'a', 'l', 's', 'e']
        },
        ToonValue::Number(n) => number_text(n),
        ToonValue::String(s) => debug_quoted(s@),
        ToonValue::Array(a) => seq!['['] + display_items(a@, a@.len()) + seq![']'],
        ToonValue::Object(o) => seq!['{'] + display_entries(o@, o@.len()) + seq!['}'],
    }
}

/// The debug texts of the first `n` elements, separated by ", ".
pub open spec fn display_items(a: Seq<ToonValue>, n: nat) -> Seq<char>
    decreases a, n,
{
    if n == 0 || n > a.len() {
        Seq::empty()
    } else if n == 1 {
        display_text(a[0])
    } else {
        display_items(a, (n - 1) as nat) + seq![',', ' '] + display_text(a[n - 1])
    }
}

/// The debug texts of the first `n` entries, separated by ", ".
pub open spec fn display_entries(o: Seq<(String, ToonValue)>, n: nat) -> Seq<char>
    decreases o, n,
{
    if n == 0 || n > o.len() {
        Seq::empty()
    } else if n == 1 {
        debug_quoted(o[0].0@) + seq![':', ' '] + display_text(o[0].1)
    } else {
        display_entries(o, (n - 1) as nat) + seq![',', ' '] + debug_quoted(o[n - 1].0@) + seq![
            ':',
            ' ',
        ] + display_text(o[n - 1].1)
    }
}

/// Appends a text in double quotes with Rust's default escaping.
fn push_debug_quoted(out: &mut Vec<char>, s: &String)
    ensures
        final(out)@ == old(out)@ + debug_quoted(s@),
{
    let ghost o = out@;
    out.push('"');
    let v = chars_of(s.as_str());
    push_default_escaped(out, &v);
    out.push('"');
    assert(out@ == o + debug_quoted(s@));
}

/// Appends the debug text of `v`.
fn push_display(v: &ToonValue, out: &mut Vec<char>)
    requires
        value_wf(*v),
    ensures
        final(out)@ == old(out)@ + display_text(*v),
    decreases *v, 0nat,
{
    match v {
        ToonValue::Null => {
            out.push('n');
            out.push('u');
            out.push('l');
            out.push('l');
            assert(out@ == old(out)@ + display_text(*v));
        },
        ToonValue::Bool(b) => {
            if *b {
                out.push('t');
                out.push('r');
                out.push('u');
                out.push('e');
            } else {
                out.push('f');
                out.push('a');
                out.push('l');
                out.push('s');
                out.push('e');
            }
            assert(out@ == old(out)@ + display_text(*v));
        },
        ToonValue::Number(n) => push_number(out, n),
        ToonValue::String(s) => push_debug_quoted(out, s),
        ToonValue::Array(a) => {
            let ghost start = out@;
            out.push('[');
            let mut i: usize = 0;
            while i < a.len()
                invariant
                    i <= a@.len(),
                    *v == ToonValue::Array(*a),
                    forall|m: int| 0 <= m < a@.len() ==> value_wf(#[trigger] a@[m]),
                    out@ == start + seq!['['] + display_items(a@, i as nat),
                decreases a@.len() - i,
            {
                if i > 0 {
                    out.push(',');
                    out.push(' ');
                }
                proof {
                    assert(*v == ToonValue::Array(*a));
                    assert(decreases_to!(*v => v->Array_0));
                    assert(decreases_to!(*a => a@));
                    assert(decreases_to!(a@ => a@[i as int]));
                    assert(decreases_to!(*v => a@[i as int]));
                }
                push_display(&a[i], out);
                assert(out@ == start + seq!['['] + display_items(a@, (i + 1) as nat));
                i = i + 1;
            }
            out.push(']');
        },
        ToonValue::Object(o) => {
            let ghost start = out@;
            out.push('{');
            let mut i: usize = 0;
            while i < o.len()
                invariant
                    i <= o@.len(),
                    *v == ToonValue::Object(*o),
                    forall|m: int| 0 <= m < o@.len() ==> value_wf(#[trigger] o@[m].1),
                    out@ == start + seq!['{'] + display_entries(o@, i as nat),
                decreases o@.len() - i,
            {
                if i > 0 {
                    out.push(',');
                    out.push(' ');
                }
                push_debug_quoted(out, &o[i].0);
                out.push(':');
                out.push(' ');
                proof {
                    assert(*v == ToonValue::Object(*o));
                    assert(decreases_to!(*v => v->Object_0));
                    assert(decreases_to!(*o => o@));
                    assert(decreases_to!(o@ => o@[i as int]));
                    assert(decreases_to!(o@[i as int] => o@[i as int].1));
                    assert(decreases_to!(*v => o@[i as int].1));
                }
                push_display(&o[i].1, out);
                assert(out@ == start + seq!['{'] + display_entries(o@, (i + 1) as nat));
                i = i + 1;
            }
            out.push('}');
        },
    }
}

/// Looks up the value stored under `key` among an object's entries.
pub fn object_get<'a>(entries: &'a Vec<(String, ToonValue)>, key: &str) -> (r: Option<&'a ToonValue>)
    ensures
        r.is_some() <==> exists|i: int| 0 <= i < entries@.len() && #[trigger] entries@[i].0@ == key@,
        r.is_some() ==> exists|i: int|
            0 <= i < entries@.len() && #[trigger] entries@[i].0@ == key@ && entries@[i].1 == *r.unwrap(),
{
    let mut i: usize = 0;
    while i < entries.len()
        invariant
            i <= entries@.len(),
            forall|j: int| 0 <= j < i ==> #[trigger] entries@[j].0@ != key@,
        decreases entries@.len() - i,
    {
        if str_eq(entries[i].0.as_str(), key) {
            return Some(&entries[i].1);
        }
        i = i + 1;
    }
    None
}

/// Whether two texts hold the same characters.
pub fn str_eq(a: &str, b: &str) -> (r: bool)
    ensures
        r == (a@ == b@),
{
    let n = a.unicode_len();
    if n != b.unicode_len() {
        return false;
    }
    let mut i: usize = 0;
    while i < n
        invariant
            n == a@.len() == b@.len(),
            i <= n,
            a@.subrange(0, i as int) == b@.subrange(0, i as int),
        decreases n - i,
    {
        if a.get_char(i) != b.get_char(i) {
            assert(a@[i as int] != b@[i as int]);
            return false;
        }
        assert(a@.subrange(0, i + 1) == a@.subrange(0, i as int).push(a@[i as int]));
        assert(b@.subrange(0, i + 1) == b@.subrange(0, i as int).push(b@[i as int]));
        i = i + 1;
    }
    assert(a@ == a@.subrange(0, n as int));
    assert(b@ == b@.subrange(0, n as int));
    true
}

/// Options for rendering a value as text.
#[derive(Debug, Clone, Copy)]
pub struct EncodeOptions {
    /// Reserved for a choice between compact and multi-line layouts.
    pub pretty: bool,
    /// Spaces per nesting level.
    pub indent: usize,
    /// Reserved: escaping does not consult it.
    pub escape_non_ascii: bool,
}

impl Default for EncodeOptions {
    fn default() -> (r: Self)
        ensures
            !r.pretty && r.indent == 2 && !r.escape_non_ascii,
    {
        EncodeOptions { pretty: false, indent: 2, escape_non_ascii: false }
    }
}

impl EncodeOptions {
    /// The default options: not pretty, an indent of two, no ASCII escaping.
    pub fn new() -> (r: Self)
        ensures
            !r.pretty && r.indent == 2 && !r.escape_non_ascii,
    {
        EncodeOptions { pretty: false, indent: 2, escape_non_ascii: false }
    }

    /// These options with `pretty` set.
    pub fn pretty(self, pretty: bool) -> (r: Self)
        ensures
            r.pretty == pretty && r.indent == self.indent && r.escape_non_ascii == self.escape_non_ascii,
    {
        EncodeOptions { pretty, ..self }
    }

    /// These options with `indent` set.
    pub fn indent(self, indent: usize) -> (r: Self)
        ensures
            r.pretty == self.pretty && r.indent == indent && r.escape_non_ascii == self.escape_non_ascii,
    {
        EncodeOptions { indent, ..self }
    }

    /// These options with `escape_non_ascii` set.
    pub fn escape_non_ascii(self, escape: bool) -> (r: Self)
        ensures
            r.pretty == self.pretty && r.indent == self.indent && r.escape_non_ascii == escape,
    {
        EncodeOptions { escape_non_ascii: escape, ..self }
    }
}

/// The digits of `m`, most significant first; zero has none.
pub open spec fn digits_of(m: nat) -> Seq<u8>
    decreases m,
{
    if m == 0 {
        Seq::empty()
    } else {
        digits_of(m / 10).push((m % 10) as u8)
    }
}

/// The digits of a positive number are well formed and denote it.
pub proof fn lemma_digits_of(m: nat)
    ensures
        digits_value(digits_of(m)) == m,
        forall|i: int| 0 <= i < digits_of(m).len() ==> #[trigger] digits_of(m)[i] < 10,
        m > 0 ==> digits_of(m).len() > 0 && digits_of(m)[0] != 0,
        m > 0 ==> digits_of(m).last() == (m % 10) as u8,
    decreases m,
{
    if m > 0 {
        lemma_digits_of(m / 10);
        let d = digits_of(m);
        assert(d.drop_last() == digits_of(m / 10));
        if m / 10 == 0 {
            assert(d.len() == 1);
        }
    }
}

/// Powers of ten grow at least linearly.
pub proof fn lemma_pow10_big(k: nat)
    ensures
        pow10(k) >= 1 + 9 * k,
    decreases k,
{
    if k > 0 {
        lemma_pow10_big((k - 1) as nat);
    }
}

/// Appends the digits of `m` to `out`.
fn push_digits(m: u128, out: &mut Vec<u8>)
    ensures
        final(out)@ == old(out)@ + digits_of(m as nat),
    decreases m,
{
    if m > 0 {
        push_digits(m / 10, out);
        out.push((m % 10) as u8);
        assert(digits_of(m as nat) == digits_of((m / 10) as nat).push((m % 10) as u8));
    }
}

} // verus!
