//! Renders values as text.
use vstd::prelude::*;
use crate::types::{ToonValue, EncodeOptions, Number};
use crate::types::value_wf;
use crate::ToonError;
use crate::utils::{
    escape_char, short_escaped, control, hex_char,
    escaped, number_text, quotes_needed, chars_of, string_of, push_all, push_escaped,
    push_number, chars_need_quotes, spells,
};

verus! {

/// `n` spaces.
pub open spec fn spaces(n: nat) -> Seq<char> {
    Seq::new(n, |i: int| ' ')
}

/// A text between double quotes, escaped.
pub open spec fn quoted(s: Seq<char>) -> Seq<char> {
    seq!['"'] + escaped(s) + seq!['"']
}

/// A text as a token: bare where that is safe, else quoted.
pub open spec fn token_text(s: Seq<char>) -> Seq<char> {
    if quotes_needed(s) {
        quoted(s)
    } else {
        s
    }
}

/// The text of a scalar value.
pub open spec fn primitive_text(v: ToonValue) -> Seq<char> {
    match v {
        ToonValue::Null => seq!['n', 'u', 'l', 'l'],
        ToonValue::Bool(b) => if b {
            seq!['t', 'r', 'u', 'e']
        } else {
            seq!['f', 'a', 'l', 's', 'e']
        },
        ToonValue::Number(n) => number_text(n),
        ToonValue::String(s) => token_text(s@),
        _ => Seq::empty(),
    }
}

/// The characters of a sequence of `Vec<char>`s.
pub open spec fn views(v: Seq<Vec<char>>) -> Seq<Seq<char>> {
    Seq::new(v.len(), |i: int| v[i]@)
}

/// Lexicographic order on texts, by scalar value.
pub open spec fn key_lt(a: Seq<char>, b: Seq<char>) -> bool
    decreases a.len(),
{
    if a.len() == 0 {
        b.len() > 0
    } else if b.len() == 0 {
        false
    } else if a[0] != b[0] {
        (a[0] as u32) < (b[0] as u32)
    } else {
        key_lt(a.drop_first(), b.drop_first())
    }
}

/// `x` put into the sorted sequence `s` before the first element that is not
/// less than it.
pub open spec fn insert_sorted(x: Seq<char>, s: Seq<Seq<char>>) -> Seq<Seq<char>>
    decreases s.len(),
{
    if s.len() == 0 {
        seq![x]
    } else if !key_lt(s[0], x) {
        seq![x] + s
    } else {
        seq![s[0]] + insert_sorted(x, s.drop_first())
    }
}

/// The keys `s` in lexicographic order.
pub open spec fn sort_keys(s: Seq<Seq<char>>) -> Seq<Seq<char>>
    decreases s.len(),
{
    if s.len() == 0 {
        Seq::empty()
    } else {
        insert_sorted(s.last(), sort_keys(s.drop_last()))
    }
}

/// The keys of the entries whose value is a scalar, in entry order.
pub open spec fn primitive_keys(e: Seq<(String, ToonValue)>) -> Seq<Seq<char>>
    decreases e.len(),
{
    if e.len() == 0 {
        Seq::empty()
    } else {
        let r = primitive_keys(e.drop_last());
        if e.last().1.spec_is_primitive() {
            r.push(e.last().0@)
        } else {
            r
        }
    }
}

/// The position of the first entry with key `k`, or -1.
pub open spec fn key_index(e: Seq<(String, ToonValue)>, k: Seq<char>) -> int
    decreases e.len(),
{
    if e.len() == 0 {
        -1
    } else if e[0].0@ == k {
        0
    } else {
        let r = key_index(e.drop_first(), k);
        if r < 0 {
            -1
        } else {
            r + 1
        }
    }
}

/// A record of the table with header `fields`: an object with exactly those
/// keys, each with a scalar value.
pub open spec fn uniform_row(v: ToonValue, fields: Seq<Seq<char>>) -> bool {
    &&& v is Object
    &&& v->Object_0@.len() == fields.len()
    &&& forall|j: int|
        0 <= j < fields.len() ==> {
            let k = #[trigger] key_index(v->Object_0@, fields[j]);
            0 <= k && v->Object_0@[k].1.spec_is_primitive()
        }
}

/// The header of the table form of `a`, if `a` has one: the sorted keys of
/// the scalar fields of the first element, when that set is not empty and
/// every other element is a record with exactly those fields.
pub open spec fn tabular_fields(a: Seq<ToonValue>) -> Option<Seq<Seq<char>>> {
    if a.len() == 0 || !(a[0] is Object) {
        None
    } else {
        let fields = sort_keys(primitive_keys(a[0]->Object_0@));
        if fields.len() == 0 {
            None
        } else if forall|i: int| 1 <= i < a.len() ==> uniform_row(#[trigger] a[i], fields) {
            Some(fields)
        } else {
            None
        }
    }
}

/// Whether every element is a scalar.
pub open spec fn all_primitive(a: Seq<ToonValue>) -> bool {
    forall|i: int| 0 <= i < a.len() ==> (#[trigger] a[i]).spec_is_primitive()
}

/// The text of `v`. `nested` says whether `v` stands below the top level,
/// `in_array` whether it is an element of an array; `ind` is the indent.
pub open spec fn encoded(v: ToonValue, nested: bool, in_array: bool, ind: nat) -> Seq<char>
    decreases v, 0nat,
{
    match v {
        ToonValue::Array(a) => array_text(a@, nested, in_array, ind),
        ToonValue::Object(o) => object_text(o@, nested, in_array, ind),
        _ => primitive_text(v),
    }
}

/// The text of an array.
pub open spec fn array_text(a: Seq<ToonValue>, nested: bool, in_array: bool, ind: nat) -> Seq<char>
    decreases a, a.len() + 1,
{
    if a.len() == 0 {
        seq!['[', ']']
    } else if tabular_fields(a) is Some {
        let fields = tabular_fields(a)->0;
        seq!['['] + header_text(fields, fields.len()) + seq![']', '\n'] + rows_text(
            a,
            a.len(),
            fields,
            ind,
        )
    } else if all_primitive(a) {
        seq!['['] + inline_items(a, a.len(), false, ind) + seq![']']
    } else if in_array || nested {
        seq!['['] + inline_items(a, a.len(), true, ind) + seq![']']
    } else {
        seq!['[', '\n'] + block_items(a, a.len(), ind) + seq!['\n', ']']
    }
}

/// The first `n` elements, each as an element of an array, separated by ", ".
pub open spec fn inline_items(a: Seq<ToonValue>, n: nat, nested: bool, ind: nat) -> Seq<char>
    decreases a, n,
{
    if n == 0 || n > a.len() {
        Seq::empty()
    } else if n == 1 {
        encoded(a[0], nested, true, ind)
    } else {
        inline_items(a, (n - 1) as nat, nested, ind) + seq![',', ' '] + encoded(
            a[n - 1],
            nested,
            true,
            ind,
        )
    }
}

/// The first `n` elements, one per line, indented once, separated by ",".
pub open spec fn block_items(a: Seq<ToonValue>, n: nat, ind: nat) -> Seq<char>
    decreases a, n,
{
    if n == 0 || n > a.len() {
        Seq::empty()
    } else if n == 1 {
        spaces(ind) + encoded(a[0], true, true, ind)
    } else {
        block_items(a, (n - 1) as nat, ind) + seq![',', '\n'] + spaces(ind) + encoded(
            a[n - 1],
            true,
            true,
            ind,
        )
    }
}

/// The first `n` header fields, each as a token, separated by ", ".
pub open spec fn header_text(fields: Seq<Seq<char>>, n: nat) -> Seq<char>
    decreases n,
{
    if n == 0 || n > fields.len() {
        Seq::empty()
    } else if n == 1 {
        token_text(fields[0])
    } else {
        header_text(fields, (n - 1) as nat) + seq![',', ' '] + token_text(fields[n - 1])
    }
}

/// The rows of the first `n` records, separated by line feeds.
pub open spec fn rows_text(a: Seq<ToonValue>, n: nat, fields: Seq<Seq<char>>, ind: nat) -> Seq<
    char,
>
    decreases a, n,
{
    if n == 0 || n > a.len() {
        Seq::empty()
    } else if n == 1 {
        row_text(a[0], fields, fields.len(), ind)
    } else {
        rows_text(a, (n - 1) as nat, fields, ind) + seq!['\n'] + row_text(
            a[n - 1],
            fields,
            fields.len(),
            ind,
        )
    }
}

/// The first `m` cells of the row of record `r`, separated by ", ".
pub open spec fn row_text(r: ToonValue, fields: Seq<Seq<char>>, m: nat, ind: nat) -> Seq<char>
    decreases r, m,
{
    if m == 0 || m > fields.len() {
        Seq::empty()
    } else if m == 1 {
        cell_text(r, fields[0], ind)
    } else {
        row_text(r, fields, (m - 1) as nat, ind) + seq![',', ' '] + cell_text(r, fields[m - 1], ind)
    }
}

/// The cell of field `f` in record `r`: its value, or `null` where it has none.
pub open spec fn cell_text(r: ToonValue, f: Seq<char>, ind: nat) -> Seq<char>
    decreases r, 0nat,
{
    match r {
        ToonValue::Object(o) => {
            let k = key_index(o@, f);
            if 0 <= k < o@.len() {
                encoded(o@[k].1, true, true, ind)
            } else {
                seq!['n', 'u', 'l', 'l']
            }
        },
        _ => seq!['n', 'u', 'l', 'l'],
    }
}

/// The text of an object.
pub open spec fn object_text(o: Seq<(String, ToonValue)>, nested: bool, in_array: bool, ind: nat) -> Seq<
    char,
>
    decreases o, o.len() + 1,
{
    if o.len() == 0 {
        seq!['{', '}']
    } else if in_array || nested {
        seq!['{'] + inline_entries(o, o.len(), ind) + seq!['}']
    } else {
        top_entries(o, o.len(), ind)
    }
}

/// One entry: its key as a token, a colon, and its value.
pub open spec fn entry_text(k: Seq<char>, value_text: Seq<char>) -> Seq<char> {
    token_text(k) + seq![':', ' '] + value_text
}

/// The first `n` entries, inline, separated by ", ".
pub open spec fn inline_entries(o: Seq<(String, ToonValue)>, n: nat, ind: nat) -> Seq<char>
    decreases o, n,
{
    if n == 0 || n > o.len() {
        Seq::empty()
    } else if n == 1 {
        entry_text(o[0].0@, encoded(o[0].1, true, false, ind))
    } else {
        inline_entries(o, (n - 1) as nat, ind) + seq![',', ' '] + entry_text(
            o[n - 1].0@,
            encoded(o[n - 1].1, true, false, ind),
        )
    }
}

/// The first `n` entries, one per line.
pub open spec fn top_entries(o: Seq<(String, ToonValue)>, n: nat, ind: nat) -> Seq<char>
    decreases o, n,
{
    if n == 0 || n > o.len() {
        Seq::empty()
    } else if n == 1 {
        entry_text(o[0].0@, encoded(o[0].1, true, false, ind))
    } else {
        top_entries(o, (n - 1) as nat, ind) + seq!['\n'] + entry_text(
            o[n - 1].0@,
            encoded(o[n - 1].1, true, false, ind),
        )
    }
}

proof fn lemma_escaped_has_no_control(s: Seq<char>)
    ensures
        forall|i: int| 0 <= i < escaped(s).len() ==> !control(#[trigger] escaped(s)[i]),
    decreases s.len(),
{
    if s.len() > 0 {
        lemma_escaped_has_no_control(s.drop_last());
        let a = escaped(s.drop_last());
        let c = s.last();
        let b = escape_char(c);
        if control(c) && !short_escaped(c) {
            let code = c as u32;
            let h1 = hex_char((code / 16) as int);
            let h2 = hex_char((code % 16) as int);
            assert(!control(h1) && !control(h2));
        }
        assert forall|i: int| 0 <= i < b.len() implies !control(#[trigger] b[i]) by {}
        assert forall|i: int| 0 <= i < (a + b).len() implies !control(#[trigger] (a + b)[i]) by {
            if i >= a.len() {
                assert((a + b)[i] == b[i - a.len()]);
            }
        }
    }
}

/// How a string is rendered: bare exactly when it is a non-empty identifier
/// (a letter or underscore, then letters, digits, underscores, hyphens and
/// dots) that is not reserved; otherwise between double quotes, escaped, with
/// no control character left in the text.
pub proof fn lemma_string_rendering(v: ToonValue, nested: bool, in_array: bool, ind: nat)
    requires
        v is String,
    ensures
        !quotes_needed(v->String_0@) ==> encoded(v, nested, in_array, ind) == v->String_0@,
        quotes_needed(v->String_0@) ==> encoded(v, nested, in_array, ind) == seq!['"'] + escaped(
            v->String_0@,
        ) + seq!['"'],
        quotes_needed(v->String_0@) ==> forall|i: int|
            0 <= i < encoded(v, nested, in_array, ind).len() ==> !control(
                #[trigger] encoded(v, nested, in_array, ind)[i],
            ),
{
    let s = v->String_0@;
    lemma_escaped_has_no_control(s);
    if quotes_needed(s) {
        let t = encoded(v, nested, in_array, ind);
        let e = escaped(s);
        assert forall|i: int| 0 <= i < t.len() implies !control(#[trigger] t[i]) by {
            if 1 <= i < t.len() - 1 {
                assert(t[i] == e[i - 1]);
            }
        }
    }
}

proof fn lemma_insert_sorted_keeps(x: Seq<char>, t: Seq<Seq<char>>, y: Seq<char>)
    requires
        y == x || t.contains(y),
    ensures
        insert_sorted(x, t).contains(y),
    decreases t.len(),
{
    let r = insert_sorted(x, t);
    if t.len() == 0 {
        assert(r[0] == x);
    } else if !key_lt(t[0], x) {
        if y == x {
            assert(r[0] == x);
        } else {
            let j = choose|j: int| 0 <= j < t.len() && t[j] == y;
            assert(r[j + 1] == y);
        }
    } else {
        let t1 = t.drop_first();
        if y == t[0] {
            assert(r[0] == y);
        } else {
            if y != x {
                let j = choose|j: int| 0 <= j < t.len() && t[j] == y;
                assert(t1[j - 1] == y);
            }
            lemma_insert_sorted_keeps(x, t1, y);
            let q = insert_sorted(x, t1);
            let j = choose|j: int| 0 <= j < q.len() && q[j] == y;
            assert(r[j + 1] == y);
        }
    }
}

proof fn lemma_sort_keys_keeps(s: Seq<Seq<char>>, y: Seq<char>)
    requires
        s.contains(y),
    ensures
        sort_keys(s).contains(y),
    decreases s.len(),
{
    let j = choose|j: int| 0 <= j < s.len() && s[j] == y;
    if j == s.len() - 1 {
        lemma_insert_sorted_keeps(s.last(), sort_keys(s.drop_last()), y);
    } else {
        assert(s.drop_last()[j] == y);
        lemma_sort_keys_keeps(s.drop_last(), y);
        lemma_insert_sorted_keeps(s.last(), sort_keys(s.drop_last()), y);
    }
}

/// An array is not written as a table when a later element is not a
/// record that has every scalar field of the first one: here element `i`
/// lacks the scalar field `f` of the first element.
pub proof fn lemma_missing_field_not_tabular(a: Seq<ToonValue>, i: int, f: Seq<char>)
    requires
        1 <= i < a.len(),
        a[0] is Object,
        primitive_keys(a[0]->Object_0@).contains(f),
        a[i] is Object ==> key_index(a[i]->Object_0@, f) < 0,
    ensures
        tabular_fields(a) is None,
{
    let fields = sort_keys(primitive_keys(a[0]->Object_0@));
    lemma_sort_keys_keeps(primitive_keys(a[0]->Object_0@), f);
    let j = choose|j: int| 0 <= j < fields.len() && fields[j] == f;
    if a[i] is Object {
        assert(key_index(a[i]->Object_0@, fields[j]) < 0);
    }
    assert(!uniform_row(a[i], fields));
}

/// Renders a value as text with the default options (indent 2). Rendering
/// into memory cannot fail, so the result is always `Ok`.
pub fn encode(value: &ToonValue) -> (r: Result<String, ToonError>)
    requires
        value_wf(*value),
    ensures
        r is Ok,
        r->Ok_0@ == encoded(*value, false, false, 2),
{
    let options = EncodeOptions::new();
    encode_with_options(value, &options)
}

/// Renders a value as text with the given options.
pub fn encode_with_options(value: &ToonValue, options: &EncodeOptions) -> (r: Result<String, ToonError>)
    requires
        value_wf(*value),
    ensures
        r is Ok,
        r->Ok_0@ == encoded(*value, false, false, options.indent as nat),
{
    let mut out: Vec<char> = Vec::new();
    encode_value(value, false, options, &mut out, false);
    Ok(string_of(&out))
}

/// Appends the characters `w` to `out`.
fn push_word(out: &mut Vec<char>, w: &[char])
    ensures
        final(out)@ == old(out)@ + w@,
{
    let mut i: usize = 0;
    while i < w.len()
        invariant
            i <= w@.len(),
            out@ == old(out)@ + w@.subrange(0, i as int),
        decreases w@.len() - i,
    {
        out.push(w[i]);
        assert(w@.subrange(0, i + 1) == w@.subrange(0, i as int).push(w@[i as int]));
        i = i + 1;
    }
    assert(w@.subrange(0, w@.len() as int) == w@);
}

/// Appends the characters `s` between double quotes, escaped.
fn push_quoted(out: &mut Vec<char>, s: &Vec<char>)
    ensures
        final(out)@ == old(out)@ + quoted(s@),
{
    let ghost o = out@;
    out.push('"');
    push_escaped(out, s);
    out.push('"');
    assert(out@ == o + quoted(s@));
}

/// Appends a text as a token: bare where that is safe, else quoted.
fn push_token(out: &mut Vec<char>, s: &String)
    ensures
        final(out)@ == old(out)@ + token_text(s@),
{
    let v = chars_of(s.as_str());
    push_token_chars(out, &v);
}

/// Appends the characters `v` as a token: bare where that is safe, else
/// quoted.
fn push_token_chars(out: &mut Vec<char>, v: &Vec<char>)
    ensures
        final(out)@ == old(out)@ + token_text(v@),
{
    if chars_need_quotes(v) {
        push_quoted(out, v);
    } else {
        push_all(out, v);
    }
}

/// Appends `n` spaces.
fn push_spaces(out: &mut Vec<char>, n: usize)
    ensures
        final(out)@ == old(out)@ + spaces(n as nat),
{
    let mut k: usize = 0;
    while k < n
        invariant
            k <= n,
            out@ == old(out)@ + spaces(k as nat),
        decreases n - k,
    {
        out.push(' ');
        assert(spaces((k + 1) as nat) == spaces(k as nat).push(' '));
        k = k + 1;
    }
}

/// Whether the characters `a` come before `b` in lexicographic order.
fn key_less(a: &Vec<char>, b: &Vec<char>) -> (r: bool)
    ensures
        r == key_lt(a@, b@),
{
    let mut i: usize = 0;
    assert(a@.subrange(0, a@.len() as int) == a@);
    assert(b@.subrange(0, b@.len() as int) == b@);
    loop
        invariant
            i <= a@.len(),
            i <= b@.len(),
            key_lt(a@, b@) == key_lt(
                a@.subrange(i as int, a@.len() as int),
                b@.subrange(i as int, b@.len() as int),
            ),
        decreases a@.len() - i,
    {
        let ghost sa = a@.subrange(i as int, a@.len() as int);
        let ghost sb = b@.subrange(i as int, b@.len() as int);
        if i == a.len() {
            return i < b.len();
        }
        if i == b.len() {
            return false;
        }
        assert(sa[0] == a@[i as int] && sb[0] == b@[i as int]);
        if a[i] != b[i] {
            return (a[i] as u32) < (b[i] as u32);
        }
        assert(sa.drop_first() == a@.subrange(i + 1, a@.len() as int));
        assert(sb.drop_first() == b@.subrange(i + 1, b@.len() as int));
        i = i + 1;
    }
}

proof fn lemma_insert_sorted(x: Seq<char>, s: Seq<Seq<char>>, j: int)
    requires
        0 <= j <= s.len(),
        forall|i: int| 0 <= i < j ==> key_lt(#[trigger] s[i], x),
        j < s.len() ==> !key_lt(s[j], x),
    ensures
        insert_sorted(x, s) == s.insert(j, x),
    decreases s.len(),
{
    if s.len() == 0 {
        assert(s.insert(j, x) == seq![x]);
    } else if j == 0 {
        assert(s.insert(0, x) == seq![x] + s);
    } else {
        let t = s.drop_first();
        assert forall|i: int| 0 <= i < j - 1 implies key_lt(#[trigger] t[i], x) by {
            assert(t[i] == s[i + 1]);
        }
        lemma_insert_sorted(x, t, j - 1);
        assert(seq![s[0]] + t.insert(j - 1, x) == s.insert(j, x));
    }
}

/// Puts `x` into the sorted keys `sorted` before the first key not less than it.
fn insert_key(sorted: &mut Vec<Vec<char>>, x: Vec<char>)
    ensures
        views(final(sorted)@) == insert_sorted(x@, views(old(sorted)@)),
{
    let mut j: usize = 0;
    loop
        invariant
            j <= sorted@.len(),
            forall|i: int| 0 <= i < j ==> key_lt(#[trigger] views(sorted@)[i], x@),
        ensures
            j <= sorted@.len(),
            forall|i: int| 0 <= i < j ==> key_lt(#[trigger] views(sorted@)[i], x@),
            j < sorted@.len() ==> !key_lt(views(sorted@)[j as int], x@),
        decreases sorted@.len() - j,
    {
        if j == sorted.len() {
            break;
        }
        if !key_less(&sorted[j], &x) {
            break;
        }
        j = j + 1;
    }
    let ghost before = views(sorted@);
    proof {
        lemma_insert_sorted(x@, before, j as int);
    }
    let ghost xv = x@;
    sorted.insert(j, x);
    assert(views(sorted@) == before.insert(j as int, xv));
}

pub(crate) proof fn lemma_key_index(e: Seq<(String, ToonValue)>, k: Seq<char>)
    ensures
        -1 <= key_index(e, k) < e.len(),
        key_index(e, k) == -1 ==> forall|j: int| 0 <= j < e.len() ==> #[trigger] e[j].0@ != k,
        key_index(e, k) >= 0 ==> e[key_index(e, k)].0@ == k && forall|j: int|
            0 <= j < key_index(e, k) ==> #[trigger] e[j].0@ != k,
    decreases e.len(),
{
    if e.len() > 0 {
        lemma_key_index(e.drop_first(), k);
        assert forall|j: int| 1 <= j < e.len() implies #[trigger] e[j] == e.drop_first()[j - 1] by {}
    }
}

/// The position of the first entry with key `k`.
pub(crate) fn find_key(o: &Vec<(String, ToonValue)>, k: &Vec<char>) -> (r: Option<usize>)
    ensures
        r is Some == (key_index(o@, k@) >= 0),
        r is Some ==> r->0 == key_index(o@, k@) && r->0 < o@.len(),
{
    proof {
        lemma_key_index(o@, k@);
    }
    let mut i: usize = 0;
    while i < o.len()
        invariant
            i <= o@.len(),
            forall|j: int| 0 <= j < i ==> #[trigger] o@[j].0@ != k@,
            -1 <= key_index(o@, k@) < o@.len(),
            key_index(o@, k@) == -1 ==> forall|j: int| 0 <= j < o@.len() ==> #[trigger] o@[j].0@ != k@,
            key_index(o@, k@) >= 0 ==> o@[key_index(o@, k@)].0@ == k@ && forall|j: int|
                0 <= j < key_index(o@, k@) ==> #[trigger] o@[j].0@ != k@,
        decreases o@.len() - i,
    {
        let name = chars_of(o[i].0.as_str());
        if spells(&name, k.as_slice()) {
            return Some(i);
        }
        i = i + 1;
    }
    None
}

/// The header of the table form of `arr`, if it has one: see `tabular_fields`.
fn is_uniform_array_of_objects(arr: &Vec<ToonValue>) -> (r: Option<Vec<Vec<char>>>)
    ensures
        r is Some == (tabular_fields(arr@) is Some),
        r is Some ==> views(r->0@) == tabular_fields(arr@)->0,
{
    if arr.len() == 0 {
        return None;
    }
    let first = match &arr[0] {
        ToonValue::Object(o) => o,
        _ => {
            return None;
        },
    };
    let mut fields: Vec<Vec<char>> = Vec::new();
    let mut i: usize = 0;
    assert(views(fields@) == Seq::<Seq<char>>::empty());
    while i < first.len()
        invariant
            i <= first@.len(),
            views(fields@) == sort_keys(primitive_keys(first@.subrange(0, i as int))),
        decreases first@.len() - i,
    {
        let ghost pre = first@.subrange(0, i as int);
        let ghost post = first@.subrange(0, i + 1);
        assert(post.drop_last() == pre);
        assert(post.last() == first@[i as int]);
        if first[i].1.is_primitive() {
            let key = chars_of(first[i].0.as_str());
            let ghost pk = primitive_keys(pre);
            assert(primitive_keys(post) == pk.push(key@));
            assert(pk.push(key@).drop_last() == pk);
            insert_key(&mut fields, key);
        }
        i = i + 1;
    }
    assert(first@.subrange(0, first@.len() as int) == first@);
    if fields.len() == 0 {
        return None;
    }
    let ghost fv = views(fields@);
    let mut i: usize = 1;
    while i < arr.len()
        invariant
            1 <= i <= arr@.len(),
            fv == views(fields@),
            fv.len() > 0,
            fv == sort_keys(primitive_keys(arr@[0]->Object_0@)),
            forall|m: int| 1 <= m < i ==> uniform_row(#[trigger] arr@[m], fv),
        decreases arr@.len() - i,
    {
        let o = match &arr[i] {
            ToonValue::Object(o) => o,
            _ => {
                return None;
            },
        };
        if o.len() != fields.len() {
            assert(!uniform_row(arr@[i as int], fv));
            return None;
        }
        let mut j: usize = 0;
        while j < fields.len()
            invariant
                j <= fields@.len(),
                fv == views(fields@),
                1 <= i < arr@.len(),
                fv.len() > 0,
                o@.len() == fv.len(),
                fv == sort_keys(primitive_keys(arr@[0]->Object_0@)),
                forall|m: int| 1 <= m < i ==> uniform_row(#[trigger] arr@[m], fv),
                arr@[i as int] == ToonValue::Object(*o),
                forall|q: int|
                    0 <= q < j ==> {
                        let k = #[trigger] key_index(o@, fv[q]);
                        0 <= k && o@[k].1.spec_is_primitive()
                    },
            decreases fields@.len() - j,
        {
            assert(fv[j as int] == fields@[j as int]@);
            match find_key(o, &fields[j]) {
                Some(k) => {
                    if !o[k].1.is_primitive() {
                        assert(!uniform_row(arr@[i as int], fv));
                        return None;
                    }
                },
                None => {
                    assert(key_index(o@, fv[j as int]) < 0);
                    assert(!uniform_row(arr@[i as int], fv));
                    return None;
                },
            }
            j = j + 1;
        }
        assert(uniform_row(arr@[i as int], fv));
        i = i + 1;
    }
    Some(fields)
}

/// Appends the header fields, each as a token, separated by ", ".
fn encode_header(fields: &Vec<Vec<char>>, out: &mut Vec<char>)
    ensures
        final(out)@ == old(out)@ + header_text(views(fields@), fields@.len() as nat),
{
    let ghost fv = views(fields@);
    let mut j: usize = 0;
    while j < fields.len()
        invariant
            j <= fields@.len(),
            fv == views(fields@),
            out@ == old(out)@ + header_text(fv, j as nat),
        decreases fields@.len() - j,
    {
        let ghost o = out@;
        if j > 0 {
            out.push(',');
            out.push(' ');
        }
        push_token_chars(out, &fields[j]);
        assert(fv[j as int] == fields@[j as int]@);
        assert(out@ == old(out)@ + header_text(fv, (j + 1) as nat));
        j = j + 1;
    }
}

/// Appends the cell of field `f` in record `r`.
fn encode_cell(r: &ToonValue, f: &Vec<char>, options: &EncodeOptions, out: &mut Vec<char>)
    requires
        value_wf(*r),
    ensures
        final(out)@ == old(out)@ + cell_text(*r, f@, options.indent as nat),
    decreases *r, 0nat,
{
    match r {
        ToonValue::Object(o) => {
            match find_key(o, f) {
                Some(k) => {
                    proof {
                        assert(decreases_to!(*r => *o));
                        assert(decreases_to!(*o => o@));
                        assert(decreases_to!(o@ => o@[k as int]));
                        assert(decreases_to!(o@[k as int] => o@[k as int].1));
                        assert(decreases_to!(*r => o@[k as int].1));
                    }
                    encode_value(&o[k].1, true, options, out, true);
                },
                None => {
                    push_word(out, &['n', 'u', 'l', 'l']);
                },
            }
        },
        _ => {
            push_word(out, &['n', 'u', 'l', 'l']);
        },
    }
}

/// Appends the table form of `arr` under the header `fields`.
fn encode_tabular_array(
    arr: &Vec<ToonValue>,
    fields: &Vec<Vec<char>>,
    options: &EncodeOptions,
    out: &mut Vec<char>,
)
    requires
        forall|i: int| 0 <= i < arr@.len() ==> value_wf(#[trigger] arr@[i]),
    ensures
        final(out)@ == old(out)@ + seq!['['] + header_text(views(fields@), fields@.len() as nat)
            + seq![']', '\n'] + rows_text(arr@, arr@.len(), views(fields@), options.indent as nat),
    decreases arr@, arr@.len(),
{
    let ghost fv = views(fields@);
    let ghost ind = options.indent as nat;
    out.push('[');
    encode_header(fields, out);
    out.push(']');
    out.push('\n');
    let ghost head = out@;
    assert(head == old(out)@ + seq!['['] + header_text(fv, fields@.len() as nat) + seq![']', '\n']);
    let mut i: usize = 0;
    while i < arr.len()
        invariant
            i <= arr@.len(),
            fv == views(fields@),
            ind == options.indent as nat,
            forall|m: int| 0 <= m < arr@.len() ==> value_wf(#[trigger] arr@[m]),
            out@ == head + rows_text(arr@, i as nat, fv, ind),
        decreases arr@.len() - i,
    {
        if i > 0 {
            out.push('\n');
        }
        let ghost row_start = out@;
        let mut j: usize = 0;
        while j < fields.len()
            invariant
                i < arr@.len(),
                j <= fields@.len(),
                fv == views(fields@),
                ind == options.indent as nat,
                value_wf(arr@[i as int]),
                out@ == row_start + row_text(arr@[i as int], fv, j as nat, ind),
            decreases fields@.len() - j,
        {
            if j > 0 {
                out.push(',');
                out.push(' ');
            }
            encode_cell(&arr[i], &fields[j], options, out);
            assert(fv[j as int] == fields@[j as int]@);
            assert(out@ == row_start + row_text(arr@[i as int], fv, (j + 1) as nat, ind));
            j = j + 1;
        }
        assert(out@ == head + rows_text(arr@, (i + 1) as nat, fv, ind));
        i = i + 1;
    }
}

/// Appends the text of `v`; see `encoded`.
fn encode_value(
    v: &ToonValue,
    nested: bool,
    options: &EncodeOptions,
    out: &mut Vec<char>,
    in_array: bool,
)
    requires
        value_wf(*v),
    ensures
        final(out)@ == old(out)@ + encoded(*v, nested, in_array, options.indent as nat),
    decreases *v, 0nat,
{
    match v {
        ToonValue::Null => push_word(out, &['n', 'u', 'l', 'l']),
        ToonValue::Bool(b) => {
            if *b {
                push_word(out, &['t', 'r', 'u', 'e']);
            } else {
                push_word(out, &['f', 'a', 'l', 's', 'e']);
            }
        },
        ToonValue::Number(n) => push_number(out, n),
        ToonValue::String(s) => push_token(out, s),
        ToonValue::Array(arr) => encode_array(arr, nested, options, out, in_array),
        ToonValue::Object(obj) => encode_object(obj, nested, options, out, in_array),
    }
}

/// Appends the text of an array; see `array_text`.
fn encode_array(
    arr: &Vec<ToonValue>,
    nested: bool,
    options: &EncodeOptions,
    out: &mut Vec<char>,
    in_array: bool,
)
    requires
        forall|i: int| 0 <= i < arr@.len() ==> value_wf(#[trigger] arr@[i]),
    ensures
        final(out)@ == old(out)@ + array_text(arr@, nested, in_array, options.indent as nat),
    decreases arr@, arr@.len() + 1,
{
    let ghost ind = options.indent as nat;
    if arr.len() == 0 {
        push_word(out, &['[', ']']);
        return;
    }
    if let Some(fields) = is_uniform_array_of_objects(arr) {
        encode_tabular_array(arr, &fields, options, out);
        return;
    }
    let mut simple = true;
    let mut i: usize = 0;
    while i < arr.len()
        invariant
            i <= arr@.len(),
            simple == (forall|m: int| 0 <= m < i ==> (#[trigger] arr@[m]).spec_is_primitive()),
        decreases arr@.len() - i,
    {
        if !arr[i].is_primitive() {
            simple = false;
        }
        i = i + 1;
    }
    if simple || in_array || nested {
        let item_nested = !simple;
        let ghost start = out@;
        out.push('[');
        let mut i: usize = 0;
        while i < arr.len()
            invariant
                i <= arr@.len(),
                ind == options.indent as nat,
                forall|m: int| 0 <= m < arr@.len() ==> value_wf(#[trigger] arr@[m]),
                out@ == start + seq!['['] + inline_items(arr@, i as nat, item_nested, ind),
            decreases arr@.len() - i,
        {
            if i > 0 {
                out.push(',');
                out.push(' ');
            }
            encode_value(&arr[i], item_nested, options, out, true);
            assert(out@ == start + seq!['['] + inline_items(arr@, (i + 1) as nat, item_nested, ind));
            i = i + 1;
        }
        out.push(']');
    } else {
        let ghost start = out@;
        out.push('[');
        out.push('\n');
        let mut i: usize = 0;
        while i < arr.len()
            invariant
                i <= arr@.len(),
                ind == options.indent as nat,
                forall|m: int| 0 <= m < arr@.len() ==> value_wf(#[trigger] arr@[m]),
                out@ == start + seq!['[', '\n'] + block_items(arr@, i as nat, ind),
            decreases arr@.len() - i,
        {
            if i > 0 {
                out.push(',');
                out.push('\n');
            }
            push_spaces(out, options.indent);
            encode_value(&arr[i], true, options, out, true);
            assert(out@ == start + seq!['[', '\n'] + block_items(arr@, (i + 1) as nat, ind));
            i = i + 1;
        }
        out.push('\n');
        out.push(']');
    }
}

/// Appends the text of an object; see `object_text`.
fn encode_object(
    obj: &Vec<(String, ToonValue)>,
    nested: bool,
    options: &EncodeOptions,
    out: &mut Vec<char>,
    in_array: bool,
)
    requires
        forall|i: int| 0 <= i < obj@.len() ==> value_wf(#[trigger] obj@[i].1),
    ensures
        final(out)@ == old(out)@ + object_text(obj@, nested, in_array, options.indent as nat),
    decreases obj@, obj@.len() + 1,
{
    let ghost ind = options.indent as nat;
    if obj.len() == 0 {
        push_word(out, &['{', '}']);
        return;
    }
    let inline = in_array || nested;
    let ghost start = out@;
    if inline {
        out.push('{');
    }
    let ghost body = out@;
    let mut i: usize = 0;
    while i < obj.len()
        invariant
            i <= obj@.len(),
            ind == options.indent as nat,
            forall|m: int| 0 <= m < obj@.len() ==> value_wf(#[trigger] obj@[m].1),
            inline ==> out@ == body + inline_entries(obj@, i as nat, ind),
            !inline ==> out@ == body + top_entries(obj@, i as nat, ind),
        decreases obj@.len() - i,
    {
        if i > 0 {
            if inline {
                out.push(',');
                out.push(' ');
            } else {
                out.push('\n');
            }
        }
        push_token(out, &obj[i].0);
        out.push(':');
        out.push(' ');
        encode_value(&obj[i].1, true, options, out, false);
        assert(inline ==> out@ == body + inline_entries(obj@, (i + 1) as nat, ind));
        assert(!inline ==> out@ == body + top_entries(obj@, (i + 1) as nat, ind));
        i = i + 1;
    }
    if inline {
        out.push('}');
    }
}

} // verus!
