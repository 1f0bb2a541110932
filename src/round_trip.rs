//! Laws that relate the encoder and the decoder: what `decode` returns on
//! the text that `encode` writes.
use vstd::prelude::*;
use vstd::arithmetic::div_mod::lemma_mod_multiples_basic;
use crate::types::{ToonValue, Number, digits_value, pow10, lemma_pow10_big};
use crate::utils::{
    white_space, ident_start, ident_continue, ascii_digit, escaped, escape_char, short_escaped,
    control, hex_char, quotes_needed, reserved, digit_chars, zeros, number_text,
    lemma_escaped_front, lemma_unescape_escape,
};
use crate::encoder::{encoded, inline_items, tabular_fields, all_primitive};
use crate::decoder::{
    decode_result, Model, value_matches, number_is, number_lexeme, parse_value, parse_array, parse_items, ws_skip,
    ident_end, digits_end, digit_values, string_close, lemma_digits_concat, lemma_digits_zero,
};
use crate::ToonError;

verus! {

/// In escaped text every quote is escaped, so the first unescaped quote
/// after it is the one that follows it.
proof fn lemma_close_escaped(pre: Seq<char>, x: Seq<char>, rest: Seq<char>)
    ensures
        string_close(pre + escaped(x) + seq!['"'] + rest, pre.len() as int) == Some(
            (pre.len() + escaped(x).len()) as int,
        ),
    decreases x.len(),
{
    let t = pre + escaped(x) + seq!['"'] + rest;
    let i = pre.len() as int;
    if x.len() == 0 {
        assert(escaped(x) == Seq::<char>::empty());
        assert(t[i] == '"');
    } else {
        lemma_escaped_front(x);
        let c = x[0];
        let ch = escape_char(c);
        let pre2 = pre + ch;
        lemma_close_escaped(pre2, x.drop_first(), rest);
        assert(t == pre2 + escaped(x.drop_first()) + seq!['"'] + rest);
        assert(forall|k: int| 0 <= k < ch.len() ==> t[i + k] == ch[k]);
        if short_escaped(c) {
            assert(t[i] == '\\');
            assert(string_close(t, i) == string_close(t, i + 2));
        } else if control(c) {
            let code = c as u32;
            let h1 = hex_char((code / 16) as int);
            let h2 = hex_char((code % 16) as int);
            assert(h1 != '"' && h1 != '\\' && h2 != '"' && h2 != '\\');
            assert(t[i] == '\\');
            assert(string_close(t, i + 5) == string_close(t, i + 6));
            assert(string_close(t, i + 4) == string_close(t, i + 5));
            assert(string_close(t, i + 3) == string_close(t, i + 4));
            assert(string_close(t, i + 2) == string_close(t, i + 3));
            assert(string_close(t, i) == string_close(t, i + 2));
        } else {
            assert(ch == seq![c]);
            assert(string_close(t, i) == string_close(t, i + 1));
        }
    }
}

proof fn lemma_ident_end_all(s: Seq<char>, i: int)
    requires
        0 <= i <= s.len(),
        forall|k: int| i <= k < s.len() ==> ident_continue(#[trigger] s[k]),
    ensures
        ident_end(s, i) == s.len(),
    decreases s.len() - i,
{
    if i < s.len() {
        lemma_ident_end_all(s, i + 1);
    }
}

/// Encoding then decoding `null`, a flag, or a string gives it back: the
/// decoded result (what `decode` returns on the encoded text) is `Ok`, equal
/// to `v`, and for a string holds the same characters.
pub proof fn lemma_scalar_round_trip(v: ToonValue, ind: nat, r: Result<ToonValue, ToonError>)
    requires
        v is Null || v is Bool || v is String,
        decode_result(encoded(v, false, false, ind), r),
    ensures
        r is Ok,
        v is String ==> r->Ok_0 is String && r->Ok_0->String_0@ == v->String_0@,
        !(v is String) ==> r->Ok_0 == v,
{
    let t = encoded(v, false, false, ind);
    match v {
        ToonValue::String(st) => {
            let s = st@;
            if quotes_needed(s) {
                assert(t == seq!['"'] + escaped(s) + seq!['"']);
                lemma_close_escaped(seq!['"'], s, Seq::empty());
                assert(t == seq!['"'] + escaped(s) + seq!['"'] + Seq::<char>::empty());
                lemma_unescape_escape(s);
                assert(t.subrange(1, 1 + escaped(s).len() as int) == escaped(s));
                assert(ws_skip(t, 0) == 0);
            } else {
                assert(t == s);
                assert(ident_start(s[0]));
                assert(ws_skip(t, 0) == 0);
                lemma_ident_end_all(s, 1);
                assert(s.subrange(0, s.len() as int) == s);
                assert(!reserved(s));
            }
        },
        ToonValue::Null => {
            assert(t == seq!['n', 'u', 'l', 'l']);
            assert(ws_skip(t, 0) == 0);
            lemma_ident_end_all(t, 1);
            assert(t.subrange(0, 4) == t);
        },
        ToonValue::Bool(b) => {
            if b {
                assert(t == seq!['t', 'r', 'u', 'e']);
                assert(ws_skip(t, 0) == 0);
                lemma_ident_end_all(t, 1);
                assert(t.subrange(0, 4) == t);
            } else {
                assert(t == seq!['f', 'a', 'l', 's', 'e']);
                assert(ws_skip(t, 0) == 0);
                lemma_ident_end_all(t, 1);
                assert(t.subrange(0, 5) == t);
            }
        },
        _ => {},
    }
}

/// A scalar whose text reads back: `null`, a flag, a string, or a
/// well-formed number whose text an `i64` exponent can count.
pub open spec fn plain_scalar(w: ToonValue) -> bool {
    match w {
        ToonValue::Number(n) => n.wf() && n.exponent + n.digits@.len() <= i64::MAX,
        ToonValue::Array(_) => false,
        ToonValue::Object(_) => false,
        _ => true,
    }
}

/// What the text of a scalar reads back as.
pub open spec fn scalar_model(w: ToonValue) -> Model {
    match w {
        ToonValue::Bool(b) => Model::Bool(b),
        ToonValue::String(st) => Model::Str(st@),
        ToonValue::Number(n) => number_model(n),
        _ => Model::Null,
    }
}

proof fn lemma_ident_end_at(s: Seq<char>, i: int, e: int)
    requires
        0 <= i <= e < s.len(),
        forall|k: int| i <= k < e ==> ident_continue(#[trigger] s[k]),
        !ident_continue(s[e]),
    ensures
        ident_end(s, i) == e,
    decreases e - i,
{
    if i < e {
        lemma_ident_end_at(s, i + 1, e);
    }
}

/// A scalar's text, standing in a larger text at `i` (after at most one
/// space at `i0`) and followed by `,` or `]`, parses back to its model.
#[verifier::rlimit(100)]
proof fn lemma_scalar_in_text(w: ToonValue, ind: nat, s: Seq<char>, i0: int, i: int)
    requires
        plain_scalar(w),
        0 <= i0 <= i,
        i0 == i || (i0 + 1 == i && s[i0] == ' '),
        i + encoded(w, true, true, ind).len() < s.len(),
        s.subrange(i, i + encoded(w, true, true, ind).len()) == encoded(w, true, true, ind),
        s[i + encoded(w, true, true, ind).len()] == ',' || s[i + encoded(w, true, true, ind).len()]
            == ']',
    ensures
        parse_value(s, i0) == Some((scalar_model(w), i + encoded(w, true, true, ind).len())),
{
    let p = encoded(w, true, true, ind);
    let e = i + p.len();
    assert(s[i] == p[0]);
    match w {
        ToonValue::String(st) => {
            let x = st@;
            if quotes_needed(x) {
                assert(p == seq!['"'] + escaped(x) + seq!['"']);
                let pre = s.subrange(0, i + 1);
                let rest = s.subrange(e, s.len() as int);
                assert(s == pre + escaped(x) + seq!['"'] + rest) by {
                    assert forall|k: int| 0 <= k < s.len() implies #[trigger] s[k] == (pre + escaped(
                        x,
                    ) + seq!['"'] + rest)[k] by {
                        if i < k < e {
                            assert(s[k] == p[k - i]);
                        }
                    }
                }
                lemma_close_escaped(pre, x, rest);
                lemma_unescape_escape(x);
                assert(s.subrange(i + 1, e - 1) == escaped(x)) by {
                    assert forall|k: int| 0 <= k < escaped(x).len() implies #[trigger] s.subrange(
                        i + 1,
                        e - 1,
                    )[k] == escaped(x)[k] by {
                        assert(s[i + 1 + k] == p[1 + k]);
                    }
                }
            } else {
                assert(p == x);
                assert forall|k: int| i + 1 <= k < e implies ident_continue(#[trigger] s[k]) by {
                    assert(s[k] == x[k - i]);
                }
                lemma_ident_end_at(s, i + 1, e);
                assert(s.subrange(i, e) == x);
                assert(!reserved(x));
            }
        },
        ToonValue::Null => {
            assert(p == seq!['n', 'u', 'l', 'l']);
            assert forall|k: int| i + 1 <= k < e implies ident_continue(#[trigger] s[k]) by {
                assert(s[k] == p[k - i]);
            }
            lemma_ident_end_at(s, i + 1, e);
        },
        ToonValue::Bool(b) => {
            if b {
                assert(p == seq!['t', 'r', 'u', 'e']);
            } else {
                assert(p == seq!['f', 'a', 'l', 's', 'e']);
            }
            assert forall|k: int| i + 1 <= k < e implies ident_continue(#[trigger] s[k]) by {
                assert(s[k] == p[k - i]);
            }
            lemma_ident_end_at(s, i + 1, e);
        },
        ToonValue::Number(n) => {
            assert(p == number_text(n));
            assert(number_at(n, s, i));
            lemma_number_lexeme(n, s, i);
            lemma_number_first_char(n);
            assert(!white_space(s[i]));
            assert(ws_skip(s, i) == i);
            assert(ws_skip(s, i0) == i);
            lemma_parse_value_number_at(s, i0, i);
        },
        _ => {},
    }
    assert(ws_skip(s, i) == i);
}

/// The models of the first `k` elements, all scalars.
pub open spec fn scalar_models(a: Seq<ToonValue>, k: int) -> Seq<Model> {
    Seq::new(k as nat, |j: int| scalar_model(a[j]))
}

/// `x` is the scalar `w`: equal to it, for a string with the same
/// characters, and for a number one that `number_is` the same number.
pub open spec fn same_scalar(x: ToonValue, w: ToonValue) -> bool {
    match w {
        ToonValue::String(st) => x is String && x->String_0@ == st@,
        ToonValue::Number(n) => x is Number && number_is(
            x->Number_0,
            n.negative,
            n.digits@,
            n.exponent as int,
        ),
        _ => x == w,
    }
}

proof fn lemma_items_prefix(a: Seq<ToonValue>, k: nat, n: nat, nested: bool, ind: nat)
    requires
        1 <= k <= n <= a.len(),
    ensures
        inline_items(a, k, nested, ind).len() <= inline_items(a, n, nested, ind).len(),
        inline_items(a, n, nested, ind).subrange(0, inline_items(a, k, nested, ind).len() as int)
            == inline_items(a, k, nested, ind),
        k < n ==> inline_items(a, k, nested, ind).len() + 2 <= inline_items(a, n, nested, ind).len(),
        k < n ==> inline_items(a, n, nested, ind)[inline_items(a, k, nested, ind).len() as int]
            == ',' && inline_items(a, n, nested, ind)[inline_items(a, k, nested, ind).len() as int + 1]
            == ' ',
    decreases n,
{
    let ik = inline_items(a, k, nested, ind);
    let inn = inline_items(a, n, nested, ind);
    if n == k {
        assert(inn.subrange(0, ik.len() as int) == inn);
    } else {
        let prev = inline_items(a, (n - 1) as nat, nested, ind);
        lemma_items_prefix(a, k, (n - 1) as nat, nested, ind);
        assert(inn == prev + seq![',', ' '] + encoded(a[n - 1], nested, true, ind));
        assert(inn.subrange(0, ik.len() as int) == prev.subrange(0, ik.len() as int));
        if k < n - 1 {
            assert(inn[ik.len() as int] == prev[ik.len() as int]);
            assert(inn[ik.len() as int + 1] == prev[ik.len() as int + 1]);
        }
    }
}

#[verifier::rlimit(100)]
proof fn lemma_scalar_items(a: Seq<ToonValue>, ind: nat, t: Seq<char>, k: nat)
    requires
        a.len() > 0,
        k < a.len(),
        forall|i: int| 0 <= i < a.len() ==> plain_scalar(#[trigger] a[i]),
        t == seq!['['] + inline_items(a, a.len(), false, ind) + seq![']'],
    ensures
        parse_items(
            t,
            if k == 0 {
                1
            } else {
                2 + inline_items(a, k, false, ind).len() as int
            },
            scalar_models(a, k as int),
        ) == Some((Model::Arr(scalar_models(a, a.len() as int)), t.len() as int)),
    decreases a.len() - k,
{
    let n = a.len();
    let big = inline_items(a, n, false, ind);
    let p = encoded(a[k as int], false, true, ind);
    assert(p == encoded(a[k as int], true, true, ind));
    let pos: int = if k == 0 {
        1
    } else {
        2 + inline_items(a, k, false, ind).len() as int
    };
    let start: int = if k == 0 {
        1
    } else {
        pos + 1
    };
    let next = inline_items(a, k + 1, false, ind);
    lemma_items_prefix(a, k + 1, n, false, ind);
    if k > 0 {
        lemma_items_prefix(a, k, n, false, ind);
        assert(next == inline_items(a, k, false, ind) + seq![',', ' '] + p);
    } else {
        assert(next == p);
    }
    let end: int = 1 + next.len() as int;
    assert(end == start + p.len());
    assert(t.subrange(start, end) == p) by {
        assert forall|q: int| 0 <= q < p.len() implies #[trigger] t.subrange(start, end)[q] == p[q] by {
            assert(t[start + q] == big[start + q - 1]);
            assert(big[start + q - 1] == next[start + q - 1]);
        }
    }
    if k > 0 {
        assert(t[pos] == big[pos - 1]);
    }
    if k + 1 < n {
        assert(t[end] == big[next.len() as int]);
        assert(t[end + 1] == big[next.len() as int + 1]);
    } else {
        assert(next == big);
        assert(t[end] == ']');
    }
    lemma_scalar_in_text(a[k as int], ind, t, pos, start);
    assert(ws_skip(t, end) == end);
    assert(scalar_models(a, k as int).push(scalar_model(a[k as int])) == scalar_models(a, k as int + 1));
    if k + 1 < n {
        lemma_scalar_items(a, ind, t, k + 1);
    }
}

proof fn lemma_scalar_array_shape(v: ToonValue, ind: nat)
    requires
        v is Array,
        forall|i: int|
            0 <= i < v->Array_0@.len() ==> plain_scalar(#[trigger] v->Array_0@[i]),
    ensures
        v->Array_0@.len() == 0 ==> encoded(v, false, false, ind) == seq!['[', ']'],
        v->Array_0@.len() > 0 ==> encoded(v, false, false, ind) == seq!['['] + inline_items(
            v->Array_0@,
            v->Array_0@.len(),
            false,
            ind,
        ) + seq![']'],
{
    let a = v->Array_0@;
    if a.len() > 0 {
        assert(!(a[0] is Object));
        assert(tabular_fields(a) is None);
        assert(all_primitive(a));
    }
}

#[verifier::rlimit(100)]
proof fn lemma_parse_value_array(s: Seq<char>)
    requires
        0 < s.len(),
        s[0] == '[',
    ensures
        parse_value(s, 0) == parse_array(s, 0),
{
    assert(ws_skip(s, 0) == 0);
}

#[verifier::rlimit(100)]
proof fn lemma_parse_array_start(t: Seq<char>)
    requires
        2 <= t.len(),
        ws_skip(t, 1) == 1,
        t[1] != ']',
    ensures
        parse_array(t, 0) == parse_items(t, 1, Seq::<Model>::empty()),
{
}

proof fn lemma_scalar_first_char(w: ToonValue, ind: nat)
    requires
        plain_scalar(w),
    ensures
        encoded(w, false, true, ind).len() > 0,
        !white_space(encoded(w, false, true, ind)[0]),
        encoded(w, false, true, ind)[0] != ']',
{
    let p = encoded(w, false, true, ind);
    if w is String && !quotes_needed(w->String_0@) {
        assert(ident_start(p[0]));
    }
    if w is Number {
        lemma_number_first_char(w->Number_0);
    }
}

#[verifier::rlimit(100)]
proof fn lemma_scalar_array_parse(a: Seq<ToonValue>, ind: nat, t: Seq<char>)
    requires
        a.len() > 0,
        forall|i: int| 0 <= i < a.len() ==> plain_scalar(#[trigger] a[i]),
        t == seq!['['] + inline_items(a, a.len(), false, ind) + seq![']'],
    ensures
        parse_array(t, 0) == Some((Model::Arr(scalar_models(a, a.len() as int)), t.len() as int)),
{
    lemma_scalar_items(a, ind, t, 0);
    let first = encoded(a[0], false, true, ind);
    lemma_items_prefix(a, 1, a.len(), false, ind);
    assert(inline_items(a, 1, false, ind) == first);
    lemma_scalar_first_char(a[0], ind);
    assert(t[1] == first[0]);
    assert(ws_skip(t, 1) == 1);
    assert(scalar_models(a, 0) == Seq::<Model>::empty());
    lemma_parse_array_start(t);
}

proof fn lemma_scalar_array_text(v: ToonValue, ind: nat)
    requires
        v is Array,
        forall|i: int|
            0 <= i < v->Array_0@.len() ==> plain_scalar(#[trigger] v->Array_0@[i]),
    ensures
        parse_value(encoded(v, false, false, ind), 0) == Some(
            (
                Model::Arr(scalar_models(v->Array_0@, v->Array_0@.len() as int)),
                encoded(v, false, false, ind).len() as int,
            ),
        ),
{
    let a = v->Array_0@;
    let t = encoded(v, false, false, ind);
    lemma_scalar_array_shape(v, ind);
    lemma_parse_value_array(t);
    if a.len() == 0 {
        assert(ws_skip(t, 1) == 1);
        assert(scalar_models(a, 0) == Seq::<Model>::empty());
        assert(parse_array(t, 0) == Some((Model::Arr(Seq::<Model>::empty()), 2int)));
    } else {
        lemma_scalar_array_parse(a, ind, t);
    }
}

/// Encoding then decoding an array of scalars (see `plain_scalar`) gives it
/// back: the decoded result (what `decode` returns on the encoded text) is an
/// array of the same length whose elements are those of `v` (see
/// `same_scalar`).
pub proof fn lemma_scalar_array_round_trip(v: ToonValue, ind: nat, r: Result<ToonValue, ToonError>)
    requires
        v is Array,
        forall|i: int|
            0 <= i < v->Array_0@.len() ==> plain_scalar(#[trigger] v->Array_0@[i]),
        decode_result(encoded(v, false, false, ind), r),
    ensures
        r is Ok,
        r->Ok_0 is Array,
        r->Ok_0->Array_0@.len() == v->Array_0@.len(),
        forall|i: int|
            0 <= i < v->Array_0@.len() ==> same_scalar(
                #[trigger] r->Ok_0->Array_0@[i],
                v->Array_0@[i],
            ),
{
    let a = v->Array_0@;
    lemma_scalar_array_text(v, ind);
    let ms = scalar_models(a, a.len() as int);
    assert(value_matches(r->Ok_0, Model::Arr(ms)));
    let out = r->Ok_0->Array_0@;
    assert forall|i: int| 0 <= i < a.len() implies same_scalar(#[trigger] out[i], a[i]) by {
        assert(value_matches(out[i], ms[i]));
        assert(ms[i] == scalar_model(a[i]));
        if a[i] is Number {
            let n = a[i]->Number_0;
            assert(out[i] is Number);
            assert(number_model(n) is Num);
            assert(number_is(
                out[i]->Number_0,
                number_model(n)->Num_0,
                number_model(n)->Num_1,
                number_model(n)->Num_2,
            ));
            lemma_number_model_is(n, out[i]->Number_0);
        }
    }
}

proof fn lemma_digits_end_run(s: Seq<char>, i: int, e: int)
    requires
        0 <= i <= e <= s.len(),
        forall|k: int| i <= k < e ==> ascii_digit(#[trigger] s[k]),
        e == s.len() || !ascii_digit(s[e]),
    ensures
        digits_end(s, i) == e,
    decreases e - i,
{
    if i < e {
        lemma_digits_end_run(s, i + 1, e);
    }
}

proof fn lemma_digit_chars(d: Seq<u8>)
    requires
        forall|k: int| 0 <= k < d.len() ==> #[trigger] d[k] < 10,
    ensures
        digit_values(digit_chars(d)) == d,
        forall|k: int| 0 <= k < d.len() ==> ascii_digit(#[trigger] digit_chars(d)[k]),
{
    assert forall|k: int| 0 <= k < d.len() implies #[trigger] digit_values(digit_chars(d))[k]
        == d[k] && ascii_digit(digit_chars(d)[k]) by {
        assert(d[k] < 10);
    }
    assert(digit_values(digit_chars(d)) == d);
}

/// The text of a number with digits on both sides of the point reads back
/// as the same sign, digits and exponent.
/// A number's text `p` stands in `s` at `i`, followed by the end of `s`, a
/// comma or a closing bracket.
pub open spec fn number_at(n: Number, s: Seq<char>, i: int) -> bool {
    let p = number_text(n);
    &&& 0 <= i
    &&& i + p.len() <= s.len()
    &&& s.subrange(i, i + p.len()) == p
    &&& i + p.len() == s.len() || s[i + p.len()] == ',' || s[i + p.len()] == ']'
}

#[verifier::rlimit(100)]
proof fn lemma_lexeme_fraction(n: Number, s: Seq<char>, i: int)
    requires
        n.wf(),
        n.exponent < 0,
        n.digits@.len() > -n.exponent,
        n.exponent + n.digits@.len() <= i64::MAX,
        number_at(n, s, i),
    ensures
        number_lexeme(s, i) == (
            i + number_text(n).len(),
            n.negative,
            n.digits@,
            n.exponent as int,
            0int,
        ),
{
    let t = number_text(n);
    let e = i + t.len();
    assert forall|q: int| 0 <= q < t.len() implies #[trigger] s[i + q] == t[q] by {
        assert(s.subrange(i, e)[q] == s[i + q]);
    }
    let d = n.digits@;
    let ds = digit_chars(d);
    lemma_digit_chars(d);
    let sign: Seq<char> = if n.negative {
        seq!['-']
    } else {
        Seq::empty()
    };
    let k = ds.len() + n.exponent;
    assert(t == sign + ds.subrange(0, k) + seq!['.'] + ds.subrange(k, ds.len() as int));
    let a = i + sign.len();
    assert(n.negative == (0 <= i < s.len() && s[i] == '-')) by {
        assert(s[i + 0] == t[0]);
        if !n.negative {
            assert(t[0] == ds[0]);
            assert(ascii_digit(ds[0]));
        }
    }
    let b = a + k;
    assert forall|q: int| a <= q < b implies ascii_digit(#[trigger] s[q]) by {
        assert(s[i + (q - i)] == t[q - i]);
        assert(t[q - i] == ds[q - a]);
    }
    assert(s[i + (b - i)] == t[b - i]);
    assert(s[b] == '.');
    lemma_digits_end_run(s, a, b);
    assert forall|q: int| b + 1 <= q < e implies ascii_digit(#[trigger] s[q]) by {
        assert(s[i + (q - i)] == t[q - i]);
        assert(t[q - i] == ds[q - b - 1 + k]);
    }
    lemma_digits_end_run(s, b + 1, e);
    assert(s.subrange(a, b) == ds.subrange(0, k)) by {
        assert forall|q: int| 0 <= q < k implies #[trigger] s.subrange(a, b)[q] == ds[q] by {
            assert(s[i + (a + q - i)] == t[a + q - i]);
        }
    }
    assert(s.subrange(b + 1, e) == ds.subrange(k, ds.len() as int)) by {
        assert forall|q: int| 0 <= q < ds.len() - k implies #[trigger] s.subrange(b + 1, e)[q]
            == ds[k + q] by {
            assert(s[i + (b + 1 + q - i)] == t[b + 1 + q - i]);
        }
    }
    assert(digit_values(ds.subrange(0, k)) + digit_values(ds.subrange(k, ds.len() as int)) == d) by {
        assert(digit_values(ds.subrange(0, k)) == d.subrange(0, k));
        assert(digit_values(ds.subrange(k, ds.len() as int)) == d.subrange(k, d.len() as int));
        assert(d.subrange(0, k) + d.subrange(k, d.len() as int) == d);
    }
    let frac = s.subrange(b + 1, e);
    assert(frac.len() == ds.len() - k);
    assert(e > b + 1);
    assert(e == s.len() || (s[e] != 'e' && s[e] != 'E' && s[e] != '.' && !ascii_digit(s[e])));
    let lex = number_lexeme(s, i);
    assert(lex.0 == e);
    assert(lex.1 == n.negative);
    assert(lex.2 == d);
    assert(lex.3 == n.exponent);
    assert(lex.4 == 0);
}

/// `k` zero digits.
pub open spec fn zero_digits(k: nat) -> Seq<u8> {
    Seq::new(k, |i: int| 0u8)
}

/// The text of a number below one in magnitude, `0.` and zeros before the
/// digits, reads back with those zeros among the digits.
#[verifier::rlimit(100)]
proof fn lemma_lexeme_small(n: Number, s: Seq<char>, i: int)
    requires
        n.wf(),
        n.digits@.len() > 0,
        n.exponent < 0,
        n.digits@.len() <= -n.exponent,
        number_at(n, s, i),
    ensures
        number_lexeme(s, i) == (
            i + number_text(n).len(),
            n.negative,
            zero_digits((1 - n.exponent - n.digits@.len()) as nat) + n.digits@,
            n.exponent as int,
            0int,
        ),
{
    let t = number_text(n);
    let e = i + t.len();
    assert forall|q: int| 0 <= q < t.len() implies #[trigger] s[i + q] == t[q] by {
        assert(s.subrange(i, e)[q] == s[i + q]);
    }
    let d = n.digits@;
    let ds = digit_chars(d);
    lemma_digit_chars(d);
    let sign: Seq<char> = if n.negative {
        seq!['-']
    } else {
        Seq::empty()
    };
    let z = (-n.exponent - ds.len()) as nat;
    let zs = zeros(z);
    assert(t == sign + seq!['0', '.'] + zs + ds);
    let a = i + sign.len();
    assert(n.negative == (0 <= i < s.len() && s[i] == '-')) by {
        assert(s[i + 0] == t[0]);
        if !n.negative {
            assert(t[0] == '0');
        }
    }
    assert(s[i + (a - i)] == t[a - i]);
    assert(s[i + (a + 1 - i)] == t[a + 1 - i]);
    assert(s[a] == '0');
    assert(s[a + 1] == '.');
    lemma_digits_end_run(s, a, a + 1);
    let b = a + 1;
    assert forall|q: int| b + 1 <= q < e implies ascii_digit(#[trigger] s[q]) by {
        assert(s[i + (q - i)] == t[q - i]);
        if q < b + 1 + z {
            assert(t[q - i] == zs[q - b - 1]);
        } else {
            assert(t[q - i] == ds[q - b - 1 - z]);
        }
    }
    lemma_digits_end_run(s, b + 1, e);
    let frac = s.subrange(b + 1, e);
    assert(frac == zs + ds) by {
        assert forall|q: int| 0 <= q < z + ds.len() implies #[trigger] frac[q] == (zs + ds)[q] by {
            assert(s[i + (b + 1 + q - i)] == t[b + 1 + q - i]);
        }
    }
    let zu = zero_digits(z);
    assert(digit_values(zs + ds) == zu + d) by {
        assert forall|q: int| 0 <= q < (zs + ds).len() implies #[trigger] digit_values(zs + ds)[q] == (zu
            + d)[q] by {
            if q >= z {
                assert((zs + ds)[q] == ds[q - z]);
                assert(digit_values(ds)[q - z] == d[q - z]);
            }
        }
    }
    assert(s.subrange(a, b) == seq!['0']);
    assert(digit_values(seq!['0']) == seq![0u8]);
    assert(seq![0u8] + (zu + d) == zero_digits(z + 1) + d);
    assert(e == s.len() || (s[e] != 'e' && s[e] != 'E' && !ascii_digit(s[e])));
    assert(frac.len() == z + ds.len());
    let lex = number_lexeme(s, i);
    assert(lex.2 == zero_digits(z + 1) + d);
    assert(lex.0 == e);
    assert(lex.3 == n.exponent);
    assert(lex.4 == 0);
}

/// The text of a number without a fractional part reads back with its
/// zeros among the digits and exponent zero.
#[verifier::rlimit(100)]
proof fn lemma_lexeme_integer(n: Number, s: Seq<char>, i: int)
    requires
        n.wf(),
        n.digits@.len() > 0,
        n.exponent >= 0,
        n.exponent + n.digits@.len() <= i64::MAX,
        number_at(n, s, i),
    ensures
        number_lexeme(s, i) == (
            i + number_text(n).len(),
            n.negative,
            n.digits@ + zero_digits(n.exponent as nat),
            0int,
            0int,
        ),
{
    let t = number_text(n);
    let e = i + t.len();
    assert forall|q: int| 0 <= q < t.len() implies #[trigger] s[i + q] == t[q] by {
        assert(s.subrange(i, e)[q] == s[i + q]);
    }
    let d = n.digits@;
    let ds = digit_chars(d);
    lemma_digit_chars(d);
    let sign: Seq<char> = if n.negative {
        seq!['-']
    } else {
        Seq::empty()
    };
    let z = n.exponent as nat;
    let zs = zeros(z);
    assert(t == sign + ds + zs);
    let a = i + sign.len();
    assert(n.negative == (0 <= i < s.len() && s[i] == '-')) by {
        assert(s[i + 0] == t[0]);
        if !n.negative {
            assert(t[0] == ds[0]);
            assert(ascii_digit(ds[0]));
        }
    }
    assert forall|q: int| a <= q < e implies ascii_digit(#[trigger] s[q]) by {
        assert(s[i + (q - i)] == t[q - i]);
        if q < a + ds.len() {
            assert(t[q - i] == ds[q - a]);
        } else {
            assert(t[q - i] == zs[q - a - ds.len()]);
        }
    }
    lemma_digits_end_run(s, a, e);
    let zu = zero_digits(z);
    assert(s.subrange(a, e) == ds + zs) by {
        assert forall|q: int| 0 <= q < ds.len() + z implies #[trigger] s.subrange(a, e)[q] == (ds
            + zs)[q] by {
            assert(s[i + (a + q - i)] == t[a + q - i]);
        }
    }
    assert(digit_values(ds + zs) == d + zu) by {
        assert forall|q: int| 0 <= q < (ds + zs).len() implies #[trigger] digit_values(ds + zs)[q] == (d
            + zu)[q] by {
            if q < ds.len() {
                assert((ds + zs)[q] == ds[q]);
                assert(digit_values(ds)[q] == d[q]);
            }
        }
    }
    assert(e == s.len() || (s[e] != '.' && s[e] != 'e' && s[e] != 'E'));
    let lex = number_lexeme(s, i);
    assert(lex.2 == d + zu);
    assert(lex.0 == e);
    assert(lex.3 == 0);
    assert(lex.4 == 0);
}

/// The text of zero reads back as the single digit zero.
#[verifier::rlimit(100)]
proof fn lemma_lexeme_zero(n: Number, s: Seq<char>, i: int)
    requires
        n.wf(),
        n.digits@.len() == 0,
        number_at(n, s, i),
    ensures
        number_lexeme(s, i) == (i + 1, false, seq![0u8], 0int, 0int),
{
    let t = number_text(n);
    assert(t == seq!['0']);
    assert(s[i] == s.subrange(i, i + 1)[0]);
    assert(s[i] == '0');
    lemma_digits_end_run(s, i, i + 1);
    assert(s.subrange(i, i + 1) == seq!['0']);
    assert(digit_values(seq!['0']) == seq![0u8]);
    let lex = number_lexeme(s, i);
    assert(lex.0 == i + 1);
    assert(lex.2 == seq![0u8]);
}

#[verifier::rlimit(100)]
proof fn lemma_parse_value_number_at(s: Seq<char>, i0: int, k: int)
    requires
        0 <= i0 <= k < s.len(),
        ws_skip(s, i0) == k,
        ascii_digit(s[k]) || s[k] == '-',
    ensures
        parse_value(s, i0) == (if number_lexeme(s, k).4 == 0 {
            Some(
                (
                    Model::Num(
                        number_lexeme(s, k).1,
                        number_lexeme(s, k).2,
                        number_lexeme(s, k).3,
                    ),
                    number_lexeme(s, k).0,
                ),
            )
        } else {
            None
        }),
{
}

proof fn lemma_pow10_add(a: nat, b: nat)
    ensures
        pow10(a + b) == pow10(a) * pow10(b),
    decreases b,
{
    if b > 0 {
        lemma_pow10_add(a, (b - 1) as nat);
        assert(pow10(a + b) == 10 * pow10((a + b - 1) as nat));
        assert(pow10(b) == 10 * pow10((b - 1) as nat));
        let x = pow10(a);
        let y = pow10((b - 1) as nat);
        assert(10 * (x * y) == x * (10 * y)) by (nonlinear_arith);
    } else {
        assert(pow10(0) == 1);
    }
}

/// The mantissa of a well-formed non-zero number is not a multiple of ten.
proof fn lemma_mantissa_last(n: Number)
    requires
        n.wf(),
        n.digits@.len() > 0,
    ensures
        n.mantissa() % 10 != 0,
        n.mantissa() > 0,
{
    let d = n.digits@;
    let x = digits_value(d.drop_last());
    let l = d.last() as nat;
    assert(n.mantissa() == x * 10 + l);
    assert(0 < l < 10);
    assert((x * 10 + l) % 10 == l) by (nonlinear_arith)
        requires
            l < 10,
    ;
}

/// Two mantissas that are not multiples of ten, scaled by powers of ten to
/// the same number, are equal, with equal powers.
proof fn lemma_scaled_equal(x: nat, p: nat, y: nat, q: nat)
    requires
        x % 10 != 0,
        y % 10 != 0,
        x * pow10(p) == y * pow10(q),
    ensures
        p == q,
        x == y,
{
    lemma_pow10_big(p);
    lemma_pow10_big(q);
    if p < q {
        let k = (q - p) as nat;
        lemma_pow10_add(p, k);
        assert(pow10(q) == pow10(p) * pow10(k));
        let a = pow10(p);
        let b = pow10(k);
        assert(x == y * b) by (nonlinear_arith)
            requires
                x * a == y * (a * b),
                a >= 1,
        ;
        assert(b == 10 * pow10((k - 1) as nat));
        let c = pow10((k - 1) as nat);
        assert(y * (10 * c) == (y * c) * 10) by (nonlinear_arith);
        lemma_mod_multiples_basic((y * c) as int, 10);
    } else if q < p {
        let k = (p - q) as nat;
        lemma_pow10_add(q, k);
        assert(pow10(p) == pow10(q) * pow10(k));
        let a = pow10(q);
        let b = pow10(k);
        assert(y == x * b) by (nonlinear_arith)
            requires
                x * (a * b) == y * a,
                a >= 1,
        ;
        assert(b == 10 * pow10((k - 1) as nat));
        let c = pow10((k - 1) as nat);
        assert(x * (10 * c) == (x * c) * 10) by (nonlinear_arith);
        lemma_mod_multiples_basic((x * c) as int, 10);
    } else {
        let a = pow10(p);
        assert(x == y) by (nonlinear_arith)
            requires
                x * a == y * a,
                a >= 1,
        ;
    }
}

/// What the text of a number reads back as: its sign, exponent and digits,
/// with the zeros that the text writes out among the digits.
pub open spec fn number_model(n: Number) -> Model {
    let d = n.digits@;
    if d.len() == 0 {
        Model::Num(false, seq![0u8], 0)
    } else if n.exponent >= 0 {
        Model::Num(n.negative, d + zero_digits(n.exponent as nat), 0)
    } else if d.len() > -n.exponent {
        Model::Num(n.negative, d, n.exponent as int)
    } else {
        Model::Num(n.negative, zero_digits((1 - n.exponent - d.len()) as nat) + d, n.exponent as int)
    }
}

/// A number's text standing in a larger text reads back as its model.
proof fn lemma_number_lexeme(n: Number, s: Seq<char>, i: int)
    requires
        n.wf(),
        n.exponent + n.digits@.len() <= i64::MAX,
        number_at(n, s, i),
    ensures
        number_lexeme(s, i).0 == i + number_text(n).len(),
        number_lexeme(s, i).4 == 0,
        Model::Num(number_lexeme(s, i).1, number_lexeme(s, i).2, number_lexeme(s, i).3)
            == number_model(n),
{
    let d = n.digits@;
    if d.len() == 0 {
        lemma_lexeme_zero(n, s, i);
    } else if n.exponent >= 0 {
        lemma_lexeme_integer(n, s, i);
    } else if d.len() > -n.exponent {
        lemma_lexeme_fraction(n, s, i);
    } else {
        lemma_lexeme_small(n, s, i);
    }
}

/// A number that `number_is` the model of `n` is `n`'s number.
#[verifier::rlimit(100)]
proof fn lemma_number_model_is(n: Number, m: Number)
    requires
        n.wf(),
        number_is(
            m,
            number_model(n)->Num_0,
            number_model(n)->Num_1,
            number_model(n)->Num_2,
        ),
    ensures
        number_is(m, n.negative, n.digits@, n.exponent as int),
{
    let d = n.digits@;
    if d.len() == 0 {
        assert(number_model(n) == Model::Num(false, seq![0u8], 0));
        assert(seq![0u8].drop_last() == Seq::<u8>::empty());
        assert(seq![0u8].last() == 0u8);
        assert(digits_value(Seq::<u8>::empty()) == 0);
        assert(digits_value(seq![0u8]) == 0);
        assert(digits_value(d) == 0);
        assert(number_is(m, n.negative, d, n.exponent as int));
    } else if n.exponent >= 0 {
        let e = n.exponent as nat;
        let zu = zero_digits(e);
        assert(number_model(n) == Model::Num(n.negative, d + zu, 0));
        assert(number_is(m, n.negative, d + zu, 0));
        lemma_digits_zero(zu);
        lemma_digits_concat(d, zu);
        lemma_mantissa_last(n);
        lemma_pow10_big(e);
        let dv = digits_value(d);
        assert(dv * pow10(e) > 0) by (nonlinear_arith)
            requires
                dv > 0,
                pow10(e) >= 1,
        ;
        assert(digits_value(d + zu) == dv * pow10(e));
        assert(m.mantissa() * pow10((m.exponent - 0) as nat) == dv * pow10(e));
        assert(m.mantissa() != 0);
        assert(m.digits@.len() > 0);
        lemma_mantissa_last(m);
        let me = m.exponent as nat;
        assert((m.exponent - 0) as nat == me);
        lemma_scaled_equal(m.mantissa(), me, dv, e);
        assert(pow10(0) == 1);
        assert((m.exponent - n.exponent) as nat == 0);
        assert(m.exponent == n.exponent);
        assert(m.mantissa() == dv);
        assert(m.mantissa() * pow10(0) == dv);
        assert(m.negative == n.negative);
        assert(number_is(m, n.negative, d, n.exponent as int));
    } else if d.len() > -n.exponent {
        assert(number_model(n) == Model::Num(n.negative, d, n.exponent as int));
        assert(number_is(m, n.negative, d, n.exponent as int));
    } else {
        let zu = zero_digits((1 - n.exponent - d.len()) as nat);
        assert(number_model(n) == Model::Num(n.negative, zu + d, n.exponent as int));
        lemma_digits_zero(zu);
        lemma_digits_concat(zu, d);
        assert(digits_value(zu + d) == digits_value(d));
        assert(number_is(m, n.negative, zu + d, n.exponent as int));
        assert(number_is(m, n.negative, d, n.exponent as int));
    }
}

/// Encoding then decoding a number gives back the same number: the decoded
/// result (what `decode` returns on the encoded text) is a number that
/// `number_is` the sign, digits and exponent of `v`. Numbers whose text
/// would have more digits than an `i64` exponent can count are left out:
/// the decoder refuses them.
pub proof fn lemma_number_round_trip(v: ToonValue, ind: nat, r: Result<ToonValue, ToonError>)
    requires
        v is Number,
        v->Number_0.wf(),
        v->Number_0.exponent + v->Number_0.digits@.len() <= i64::MAX,
        decode_result(encoded(v, false, false, ind), r),
    ensures
        r is Ok,
        r->Ok_0 is Number,
        number_is(
            r->Ok_0->Number_0,
            v->Number_0.negative,
            v->Number_0.digits@,
            v->Number_0.exponent as int,
        ),
{
    let n = v->Number_0;
    let t = encoded(v, false, false, ind);
    assert(t == number_text(n));
    assert(t.subrange(0, t.len() as int) == t);
    lemma_number_lexeme(n, t, 0);
    lemma_number_first_char(n);
    assert(ws_skip(t, 0) == 0);
    lemma_parse_value_number_at(t, 0, 0);
    let lex = number_lexeme(t, 0);
    assert(value_matches(r->Ok_0, Model::Num(lex.1, lex.2, lex.3)));
    assert(number_is(r->Ok_0->Number_0, lex.1, lex.2, lex.3));
    lemma_number_model_is(n, r->Ok_0->Number_0);
}

/// The text of a number starts with a minus sign or a digit.
proof fn lemma_number_first_char(n: Number)
    requires
        n.wf(),
    ensures
        number_text(n).len() > 0,
        ascii_digit(number_text(n)[0]) || number_text(n)[0] == '-',
        n.negative ==> number_text(n)[0] == '-',
{
    let d = n.digits@;
    lemma_digit_chars(d);
    if d.len() > 0 && !n.negative && (n.exponent >= 0 || d.len() > -n.exponent) {
        assert(number_text(n)[0] == digit_chars(d)[0]);
    }
}

} // verus!
