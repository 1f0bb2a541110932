//! Character classes, escaping, quoting and number text.
use vstd::prelude::*;
use crate::types::{Number, digits_value, pow10};

verus! {

/// Whether `c` has the Unicode Alphabetic property.
pub uninterp spec fn alphabetic(c: char) -> bool;

/// Whether `c` is Unicode alphabetic or numeric.
pub uninterp spec fn alphanumeric(c: char) -> bool;

/// Whether `c` has the Unicode White_Space property: tab through carriage
/// return, space, next line, no-break space, ogham space mark, the spaces
/// from en quad to hair space, line and paragraph separator, narrow no-break
/// space, medium mathematical space and ideographic space.
pub open spec fn white_space(c: char) -> bool {
    let x = c as u32;
    (9 <= x <= 13) || x == 0x20 || x == 0x85 || x == 0xA0 || x == 0x1680 || (0x2000 <= x
        <= 0x200A) || x == 0x2028 || x == 0x2029 || x == 0x202F || x == 0x205F || x == 0x3000
}

/// An ASCII letter.
pub open spec fn ascii_letter(c: char) -> bool {
    (65 <= c as u32 <= 90) || (97 <= c as u32 <= 122)
}

/// An ASCII decimal digit.
pub open spec fn ascii_digit(c: char) -> bool {
    48 <= c as u32 <= 57
}

/// Relies on `char::is_alphabetic`: the Alphabetic property, which among ASCII
/// characters the letters alone have, and which no White_Space character has.
#[verifier::external_body]
fn char_is_alphabetic(c: char) -> (r: bool)
    ensures
        r == alphabetic(c),
        (c as u32) < 128 ==> (r == ascii_letter(c)),
        r ==> !white_space(c),
{
    c.is_alphabetic()
}

/// Relies on `char::is_alphanumeric`: alphabetic or numeric, which among ASCII
/// characters the letters and digits alone are.
#[verifier::external_body]
fn char_is_alphanumeric(c: char) -> (r: bool)
    ensures
        r == alphanumeric(c),
        (c as u32) < 128 ==> (r == (ascii_letter(c) || ascii_digit(c))),
{
    c.is_alphanumeric()
}

/// Whether `c` has the Unicode White_Space property.
pub fn is_unicode_whitespace(c: char) -> (r: bool)
    ensures
        r == white_space(c),
{
    let x: u32 = c as u32;
    (9 <= x && x <= 13) || x == 0x20 || x == 0x85 || x == 0xA0 || x == 0x1680 || (0x2000 <= x
        && x <= 0x200A) || x == 0x2028 || x == 0x2029 || x == 0x202F || x == 0x205F || x
        == 0x3000
}

/// Relies on `char::from_u32`: a character for each Unicode scalar value.
#[verifier::external_body]
fn char_from_u32(code: u32) -> (r: Option<char>)
    ensures
        r.is_some() == valid_code(code as int),
        r.is_some() ==> code_of(r.unwrap()) == code as int,
{
    char::from_u32(code)
}

/// Relies on `str::chars`, collected: the characters of a text.
#[verifier::external_body]
pub(crate) fn chars_of(s: &str) -> (r: Vec<char>)
    ensures
        r@ == s@,
{
    s.chars().collect()
}

/// Relies on collecting characters into a `String`: the text of a sequence
/// of characters.
#[verifier::external_body]
pub(crate) fn string_of(v: &Vec<char>) -> (r: String)
    ensures
        r@ == v@,
{
    v.iter().collect()
}

/// A Unicode scalar value.
pub open spec fn valid_code(code: int) -> bool {
    (0 <= code < 0xD800) || (0xE000 <= code <= 0x10FFFF)
}

/// The scalar value of a character.
pub open spec fn code_of(c: char) -> int {
    c as int
}

/// The character with the scalar value `code`.
pub open spec fn char_of(code: int) -> char {
    choose|c: char| #[trigger] code_of(c) == code
}

/// A control character (general category Cc).
pub open spec fn control(c: char) -> bool {
    c as u32 <= 0x1F || (0x7F <= c as u32 <= 0x9F)
}

/// Whether `c` is a control character.
pub fn is_control(c: char) -> (r: bool)
    ensures
        r == control(c),
{
    let code: u32 = c as u32;
    code <= 0x1F || (0x7F <= code && code <= 0x9F)
}

/// The characters that have a short escape of their own.
pub open spec fn short_escaped(c: char) -> bool {
    c == '\\' || c == '"' || c == '\n' || c == '\r' || c == '\t' || c == '\0' || c == '\x08'
        || c == '\x0c'
}

/// Whether a character has a short escape of its own.
pub fn needs_escape(c: char) -> (r: bool)
    ensures
        r == short_escaped(c),
{
    c == '\\' || c == '"' || c == '\n' || c == '\r' || c == '\t' || c == '\0' || c == '\x08'
        || c == '\x0c'
}

/// The lowercase hexadecimal digit of `n`, for `n < 16`.
pub open spec fn hex_char(n: int) -> char {
    if n < 10 {
        ((n + 48) as u8) as char
    } else {
        ((n + 87) as u8) as char
    }
}

/// The escaped form of one character.
pub open spec fn escape_char(c: char) -> Seq<char> {
    if c == '\\' {
        seq!['\\', '\\']
    } else if c == '"' {
        seq!['\\', '"']
    } else if c == '\n' {
        seq!['\\', 'n']
    } else if c == '\r' {
        seq!['\\', 'r']
    } else if c == '\t' {
        seq!['\\', 't']
    } else if c == '\0' {
        seq!['\\', '0']
    } else if c == '\x08' {
        seq!['\\', 'b']
    } else if c == '\x0c' {
        seq!['\\', 'f']
    } else if control(c) {
        seq!['\\', 'u', '0', '0', hex_char((c as u32 / 16) as int), hex_char((c as u32 % 16) as int)]
    } else {
        seq![c]
    }
}

/// The escaped form of a text: each character escaped in turn.
pub open spec fn escaped(s: Seq<char>) -> Seq<char>
    decreases s.len(),
{
    if s.len() == 0 {
        Seq::empty()
    } else {
        escaped(s.drop_last()) + escape_char(s.last())
    }
}

/// The lowercase hexadecimal digit of `n`.
pub(crate) fn hex_digit(n: u32) -> (r: char)
    requires
        n < 16,
    ensures
        r == hex_char(n as int),
{
    if n < 10 {
        ((n + 48) as u8) as char
    } else {
        ((n + 87) as u8) as char
    }
}

/// Appends the characters of `src` to `out`.
pub(crate) fn push_all(out: &mut Vec<char>, src: &Vec<char>)
    ensures
        final(out)@ == old(out)@ + src@,
{
    let mut i: usize = 0;
    while i < src.len()
        invariant
            i <= src@.len(),
            out@ == old(out)@ + src@.subrange(0, i as int),
        decreases src@.len() - i,
    {
        out.push(src[i]);
        assert(src@.subrange(0, i + 1) == src@.subrange(0, i as int).push(src@[i as int]));
        i = i + 1;
    }
    assert(src@.subrange(0, src@.len() as int) == src@);
}

/// Appends the escaped form of `c` to `out`.
pub(crate) fn push_escaped_char(out: &mut Vec<char>, c: char)
    ensures
        final(out)@ == old(out)@ + escape_char(c),
{
    if c == '\\' {
        out.push('\\');
        out.push('\\');
    } else if c == '"' {
        out.push('\\');
        out.push('"');
    } else if c == '\n' {
        out.push('\\');
        out.push('n');
    } else if c == '\r' {
        out.push('\\');
        out.push('r');
    } else if c == '\t' {
        out.push('\\');
        out.push('t');
    } else if c == '\0' {
        out.push('\\');
        out.push('0');
    } else if c == '\x08' {
        out.push('\\');
        out.push('b');
    } else if c == '\x0c' {
        out.push('\\');
        out.push('f');
    } else if is_control(c) {
        let code: u32 = c as u32;
        out.push('\\');
        out.push('u');
        out.push('0');
        out.push('0');
        out.push(hex_digit(code / 16));
        out.push(hex_digit(code % 16));
    } else {
        out.push(c);
    }
    assert(final(out)@ == old(out)@ + escape_char(c));
}

/// Appends the escaped form of the characters `s` to `out`.
pub(crate) fn push_escaped(out: &mut Vec<char>, s: &Vec<char>)
    ensures
        final(out)@ == old(out)@ + escaped(s@),
{
    let mut i: usize = 0;
    while i < s.len()
        invariant
            i <= s@.len(),
            out@ == old(out)@ + escaped(s@.subrange(0, i as int)),
        decreases s@.len() - i,
    {
        let ghost before = out@;
        push_escaped_char(out, s[i]);
        let ghost t = s@.subrange(0, i + 1);
        assert(t.drop_last() == s@.subrange(0, i as int));
        assert(out@ == before + escape_char(s@[i as int]));
        i = i + 1;
    }
    assert(s@.subrange(0, s@.len() as int) == s@);
}

/// Escapes a text: backslash, quote and the control characters become
/// escape sequences, every other character stays as it is.
pub fn escape_str(s: &str) -> (r: String)
    ensures
        r@ == escaped(s@),
{
    let src = chars_of(s);
    let mut out: Vec<char> = Vec::new();
    push_escaped(&mut out, &src);
    string_of(&out)
}

/// The four ASCII whitespace characters: space, tab, line feed, carriage return.
pub open spec fn ascii_space(c: char) -> bool {
    c == ' ' || c == '\t' || c == '\n' || c == '\r'
}

/// Whether `c` is space, tab, line feed or carriage return.
pub fn is_whitespace(c: char) -> (r: bool)
    ensures
        r == ascii_space(c),
{
    c == ' ' || c == '\t' || c == '\n' || c == '\r'
}

/// A character that may start an identifier: alphabetic, or an underscore.
/// Among ASCII characters the alphabetic ones are the letters, and no
/// alphabetic character is whitespace.
pub open spec fn ident_start(c: char) -> bool {
    if (c as u32) < 128 {
        ascii_letter(c) || c == '_'
    } else {
        alphabetic(c) && !white_space(c)
    }
}

/// A character that may continue an identifier: alphanumeric, underscore,
/// hyphen or dot. Among ASCII characters the alphanumeric ones are the
/// letters and digits.
pub open spec fn ident_continue(c: char) -> bool {
    if (c as u32) < 128 {
        ascii_letter(c) || ascii_digit(c) || c == '_' || c == '-' || c == '.'
    } else {
        alphanumeric(c)
    }
}

/// Whether `c` may start an identifier.
pub fn is_ident_start(c: char) -> (r: bool)
    ensures
        r == ident_start(c),
{
    char_is_alphabetic(c) || c == '_'
}

/// Whether `c` may continue an identifier.
pub fn is_ident_continue(c: char) -> (r: bool)
    ensures
        r == ident_continue(c),
{
    char_is_alphanumeric(c) || c == '_' || c == '-' || c == '.'
}

/// A non-empty identifier: an identifier start, then identifier characters.
pub open spec fn valid_ident(s: Seq<char>) -> bool {
    &&& s.len() > 0
    &&& ident_start(s[0])
    &&& forall|i: int| 1 <= i < s.len() ==> ident_continue(#[trigger] s[i])
}

/// Whether the characters `v` form an identifier.
fn chars_are_ident(v: &Vec<char>) -> (r: bool)
    ensures
        r == valid_ident(v@),
{
    if v.len() == 0 {
        return false;
    }
    if !is_ident_start(v[0]) {
        return false;
    }
    let mut i: usize = 1;
    while i < v.len()
        invariant
            1 <= i <= v@.len(),
            forall|j: int| 1 <= j < i ==> ident_continue(#[trigger] v@[j]),
        decreases v@.len() - i,
    {
        if !is_ident_continue(v[i]) {
            return false;
        }
        i = i + 1;
    }
    true
}

/// Whether `s` is a non-empty identifier.
pub fn is_valid_ident(s: &str) -> (r: bool)
    ensures
        r == valid_ident(s@),
{
    let v = chars_of(s);
    chars_are_ident(&v)
}

/// The spellings that are always quoted: the literal keywords and the
/// names of numeric sentinels.
pub open spec fn reserved(s: Seq<char>) -> bool {
    ||| s == seq!['t', 'r', 'u', 'e']
    ||| s == seq!['f', 'a', 'l', 's', 'e']
    ||| s == seq!['n', 'u', 'l', 'l']
    ||| s == seq!['i', 'n', 'f']
    ||| s == seq!['-', 'i', 'n', 'f']
    ||| s == seq!['n', 'a', 'n']
    ||| s == seq!['i', 'n', 'f', 'i', 'n', 'i', 't', 'y']
    ||| s == seq!['-', 'i', 'n', 'f', 'i', 'n', 'i', 't', 'y']
}

/// A text must be quoted unless it is an identifier and not reserved.
pub open spec fn quotes_needed(s: Seq<char>) -> bool {
    !valid_ident(s) || reserved(s)
}

/// Whether the characters `v` spell `w`.
pub(crate) fn spells(v: &Vec<char>, w: &[char]) -> (r: bool)
    ensures
        r == (v@ == w@),
{
    if v.len() != w.len() {
        return false;
    }
    let mut i: usize = 0;
    while i < v.len()
        invariant
            v@.len() == w@.len(),
            i <= v@.len(),
            forall|j: int| 0 <= j < i ==> v@[j] == w@[j],
        decreases v@.len() - i,
    {
        if v[i] != w[i] {
            return false;
        }
        i = i + 1;
    }
    assert(v@ == w@);
    true
}

/// Whether the characters `v` are a reserved spelling.
pub(crate) fn is_reserved(v: &Vec<char>) -> (r: bool)
    ensures
        r == reserved(v@),
{
    let r = spells(v, &['t', 'r', 'u', 'e']) || spells(v, &['f', 'a', 'l', 's', 'e'])
        || spells(v, &['n', 'u', 'l', 'l']) || spells(v, &['i', 'n', 'f'])
        || spells(v, &['-', 'i', 'n', 'f']) || spells(v, &['n', 'a', 'n'])
        || spells(v, &['i', 'n', 'f', 'i', 'n', 'i', 't', 'y'])
        || spells(v, &['-', 'i', 'n', 'f', 'i', 'n', 'i', 't', 'y']);
    r
}

/// Whether the characters `v` must be quoted.
pub(crate) fn chars_need_quotes(v: &Vec<char>) -> (r: bool)
    ensures
        r == quotes_needed(v@),
{
    !chars_are_ident(v) || is_reserved(v)
}

/// Whether a text must be quoted: it is empty, does not start with a letter
/// or underscore, holds a character other than a letter, digit, underscore,
/// hyphen or dot, or is one of the reserved spellings.
pub fn needs_quotes(s: &str) -> (r: bool)
    ensures
        r == quotes_needed(s@),
        r == (s@.len() == 0 || !ident_start(s@[0]) || (exists|i: int|
            1 <= i < s@.len() && !ident_continue(#[trigger] s@[i])) || reserved(s@)),
{
    let v = chars_of(s);
    chars_need_quotes(&v)
}

/// The character of a decimal digit.
pub open spec fn digit_char(d: u8) -> char {
    ((d + 48) as u8) as char
}

/// The characters of a sequence of decimal digits.
pub open spec fn digit_chars(d: Seq<u8>) -> Seq<char> {
    Seq::new(d.len(), |i: int| digit_char(d[i]))
}

/// `n` zero characters.
pub open spec fn zeros(n: nat) -> Seq<char> {
    Seq::new(n, |i: int| '0')
}

/// The text of a number: plain decimal notation, a minus sign for negative
/// numbers, no exponent, no decimal point for an integer, and no trailing
/// zero after the decimal point.
pub open spec fn number_text(n: Number) -> Seq<char> {
    let sign: Seq<char> = if n.negative {
        seq!['-']
    } else {
        Seq::empty()
    };
    let ds = digit_chars(n.digits@);
    if ds.len() == 0 {
        seq!['0']
    } else if n.exponent >= 0 {
        sign + ds + zeros(n.exponent as nat)
    } else if ds.len() > -n.exponent {
        let k = ds.len() + n.exponent;
        sign + ds.subrange(0, k) + seq!['.'] + ds.subrange(k, ds.len() as int)
    } else {
        sign + seq!['0', '.'] + zeros((-n.exponent - ds.len()) as nat) + ds
    }
}

/// Appends `count` zero characters to `out`.
fn push_zeros(out: &mut Vec<char>, count: i128)
    requires
        count >= 0,
    ensures
        final(out)@ == old(out)@ + zeros(count as nat),
{
    let mut k: i128 = 0;
    while k < count
        invariant
            0 <= k <= count,
            out@ == old(out)@ + zeros(k as nat),
        decreases count - k,
    {
        out.push('0');
        assert(zeros((k + 1) as nat) == zeros(k as nat).push('0'));
        k = k + 1;
    }
}

/// Appends the characters of the digits `d[from..to]` to `out`.
fn push_digit_chars(out: &mut Vec<char>, d: &Vec<u8>, from: usize, to: usize)
    requires
        from <= to <= d@.len(),
        forall|i: int| 0 <= i < d@.len() ==> #[trigger] d@[i] < 10,
    ensures
        final(out)@ == old(out)@ + digit_chars(d@).subrange(from as int, to as int),
{
    let mut k: usize = from;
    while k < to
        invariant
            from <= k <= to <= d@.len(),
            forall|i: int| 0 <= i < d@.len() ==> #[trigger] d@[i] < 10,
            out@ == old(out)@ + digit_chars(d@).subrange(from as int, k as int),
        decreases to - k,
    {
        let ch = ((d[k] + 48) as u8) as char;
        out.push(ch);
        assert(digit_chars(d@).subrange(from as int, k + 1) == digit_chars(d@).subrange(
            from as int,
            k as int,
        ).push(ch));
        k = k + 1;
    }
}

/// Appends the text of a well-formed number to `out`.
pub(crate) fn push_number(out: &mut Vec<char>, n: &Number)
    requires
        n.wf(),
    ensures
        final(out)@ == old(out)@ + number_text(*n),
{
    let len = n.digits.len();
    let ghost ds = digit_chars(n.digits@);
    if len == 0 {
        out.push('0');
        return;
    }
    if n.negative {
        out.push('-');
    }
    let ghost sign: Seq<char> = if n.negative {
        seq!['-']
    } else {
        Seq::empty()
    };
    assert(out@ == old(out)@ + sign);
    assert(ds.subrange(0, len as int) == ds);
    if n.exponent >= 0 {
        push_digit_chars(out, &n.digits, 0, len);
        push_zeros(out, n.exponent as i128);
        assert(out@ == old(out)@ + (sign + ds + zeros(n.exponent as nat)));
    } else if (len as i128) > -(n.exponent as i128) {
        let k: usize = (len as i128 + n.exponent as i128) as usize;
        push_digit_chars(out, &n.digits, 0, k);
        out.push('.');
        push_digit_chars(out, &n.digits, k, len);
        assert(out@ == old(out)@ + (sign + ds.subrange(0, k as int) + seq!['.'] + ds.subrange(
            k as int,
            len as int,
        )));
    } else {
        out.push('0');
        out.push('.');
        push_zeros(out, -(n.exponent as i128) - len as i128);
        push_digit_chars(out, &n.digits, 0, len);
        assert(out@ == old(out)@ + (sign + seq!['0', '.'] + zeros(
            (-n.exponent - ds.len()) as nat,
        ) + ds));
    }
}

/// The text of a number is free of needless characters: an integer has no
/// decimal point, and a fraction ends in neither a zero nor a decimal point.
pub proof fn lemma_number_text_shape(n: Number)
    requires
        n.wf(),
    ensures
        n.is_integral() ==> !number_text(n).contains('.'),
        !n.is_integral() ==> number_text(n).contains('.') && number_text(n).last() != '0'
            && number_text(n).last() != '.',
{
    let t = number_text(n);
    let ds = digit_chars(n.digits@);
    assert forall|i: int| 0 <= i < ds.len() implies #[trigger] ds[i] != '.' && (i == ds.len() - 1
        ==> ds[i] != '0') by {
        assert(n.digits@[i] < 10);
    }
    if n.is_integral() {
        if ds.len() > 0 {
            let sign: Seq<char> = if n.negative {
                seq!['-']
            } else {
                Seq::empty()
            };
            let z = zeros(n.exponent as nat);
            assert forall|i: int| 0 <= i < t.len() implies t[i] != '.' by {
                assert(t == sign + ds + z);
                if i < sign.len() {
                } else if i < sign.len() + ds.len() {
                    assert(t[i] == ds[i - sign.len()]);
                } else {
                    assert(t[i] == z[i - sign.len() - ds.len()]);
                }
            }
        } else {
            assert(t == seq!['0']);
            assert(t[0] != '.');
        }
    } else {
        assert(t.last() == ds.last());
        if ds.len() > -n.exponent {
            let k = ds.len() + n.exponent;
            let sign: Seq<char> = if n.negative {
                seq!['-']
            } else {
                Seq::empty()
            };
            assert(t[sign.len() as int + k] == '.');
        } else {
            let sign: Seq<char> = if n.negative {
                seq!['-']
            } else {
                Seq::empty()
            };
            assert(t[sign.len() as int + 1] == '.');
        }
    }
}

/// The text of a well-formed number, with no exponent, no decimal point for
/// an integer, and no trailing zero or dangling decimal point otherwise.
pub fn format_number(n: &Number) -> (r: String)
    requires
        n.wf(),
    ensures
        r@ == number_text(*n),
        n.is_integral() ==> !r@.contains('.'),
        !n.is_integral() ==> r@.last() != '0' && r@.last() != '.',
{
    let mut out: Vec<char> = Vec::new();
    push_number(&mut out, n);
    proof {
        lemma_number_text_shape(*n);
    }
    string_of(&out)
}

/// The value of a hexadecimal digit, or -1 for any other character.
pub open spec fn hex_val(c: char) -> int {
    if 48 <= c as u32 <= 57 {
        c as u32 - 48
    } else if 97 <= c as u32 <= 102 {
        c as u32 - 87
    } else if 65 <= c as u32 <= 70 {
        c as u32 - 55
    } else {
        -1
    }
}

/// Every character of `d` is a hexadecimal digit.
pub open spec fn all_hex(d: Seq<char>) -> bool {
    forall|i: int| 0 <= i < d.len() ==> hex_val(#[trigger] d[i]) >= 0
}

/// The number written by the hexadecimal digits `d`.
pub open spec fn hex_number(d: Seq<char>) -> int
    decreases d.len(),
{
    if d.len() == 0 {
        0
    } else {
        hex_number(d.drop_last()) * 16 + hex_val(d.last())
    }
}

/// Sixteen to the power `k`.
pub open spec fn pow16(k: nat) -> nat
    decreases k,
{
    if k == 0 {
        1
    } else {
        16 * pow16((k - 1) as nat)
    }
}

proof fn lemma_pow16_mono(i: nat, j: nat)
    requires
        i <= j,
    ensures
        pow16(i) <= pow16(j),
    decreases j,
{
    if i < j {
        lemma_pow16_mono(i, (j - 1) as nat);
    }
}

/// The character that a one-letter escape stands for.
pub open spec fn simple_target(e: char) -> Option<char> {
    if e == '\\' {
        Some('\\')
    } else if e == '"' {
        Some('"')
    } else if e == '/' {
        Some('/')
    } else if e == 'b' {
        Some('\x08')
    } else if e == 'f' {
        Some('\x0c')
    } else if e == 'n' {
        Some('\n')
    } else if e == 'r' {
        Some('\r')
    } else if e == 't' {
        Some('\t')
    } else if e == '0' {
        Some('\0')
    } else {
        None
    }
}

/// `p` put in front of the text in `r`, if there is one.
pub open spec fn prepend(p: Seq<char>, r: Option<Seq<char>>) -> Option<Seq<char>> {
    match r {
        Some(t) => Some(p + t),
        None => None,
    }
}

/// The text that the escaped text `s` stands for, or `None` where an escape
/// is unknown, cut short, or names no Unicode scalar value. `\uXXXX` takes
/// four hexadecimal digits, `\UXXXXXXXX` eight.
pub open spec fn unescaped(s: Seq<char>) -> Option<Seq<char>>
    decreases s.len(),
{
    if s.len() == 0 {
        Some(Seq::empty())
    } else if s[0] != '\\' {
        prepend(seq![s[0]], unescaped(s.drop_first()))
    } else if s.len() < 2 {
        None
    } else if simple_target(s[1]) is Some {
        prepend(seq![simple_target(s[1])->0], unescaped(s.subrange(2, s.len() as int)))
    } else if s[1] == 'u' || s[1] == 'U' {
        let n: int = if s[1] == 'u' {
            4
        } else {
            8
        };
        if s.len() < 2 + n {
            None
        } else {
            let d = s.subrange(2, 2 + n);
            if all_hex(d) && valid_code(hex_number(d)) {
                prepend(seq![char_of(hex_number(d))], unescaped(s.subrange(2 + n, s.len() as int)))
            } else {
                None
            }
        }
    } else {
        None
    }
}

/// The value of a hexadecimal digit, if `c` is one.
fn hex_value(c: char) -> (r: Option<u32>)
    ensures
        r is Some == (hex_val(c) >= 0),
        r is Some ==> r->0 == hex_val(c),
{
    let code: u32 = c as u32;
    if 48 <= code && code <= 57 {
        Some(code - 48)
    } else if 97 <= code && code <= 102 {
        Some(code - 87)
    } else if 65 <= code && code <= 70 {
        Some(code - 55)
    } else {
        None
    }
}

/// The number written by the `n` hexadecimal digits of `s` from `start` on.
fn hex_run(s: &Vec<char>, start: usize, n: usize) -> (r: Option<u32>)
    requires
        start + n <= s@.len(),
        n <= 8,
    ensures
        r is Some == all_hex(s@.subrange(start as int, start + n)),
        r is Some ==> r->0 == hex_number(s@.subrange(start as int, start + n)),
{
    let ghost d = s@.subrange(start as int, start + n);
    let mut acc: u64 = 0;
    let mut k: usize = 0;
    proof {
        reveal_with_fuel(pow16, 9);
        lemma_pow16_mono(n as nat, 8);
    }
    while k < n
        invariant
            k <= n <= 8,
            start + n <= s.len(),
            d == s@.subrange(start as int, start + n),
            all_hex(d.subrange(0, k as int)),
            acc == hex_number(d.subrange(0, k as int)),
            acc < pow16(k as nat),
            pow16(n as nat) <= 0x1_0000_0000,
        decreases n - k,
    {
        let v = hex_value(s[start + k]);
        match v {
            None => {
                assert(d[k as int] == s@[start + k]);
                return None;
            },
            Some(x) => {
                proof {
                    lemma_pow16_mono((k + 1) as nat, n as nat);
                }
                let ghost p = d.subrange(0, k + 1);
                assert(p.drop_last() == d.subrange(0, k as int));
                assert(p.last() == s@[start + k]);
                assert(pow16((k + 1) as nat) == 16 * pow16(k as nat));
                assert(acc * 16 + x < 16 * pow16(k as nat)) by (nonlinear_arith)
                    requires
                        acc < pow16(k as nat),
                        x < 16,
                ;
                acc = acc * 16 + x as u64;
                k = k + 1;
            },
        }
    }
    assert(d.subrange(0, n as int) == d);
    Some(acc as u32)
}

/// Undoes escaping: the text that `s` stands for, or an error where an escape
/// is unknown, cut short, or names no Unicode scalar value.
pub fn unescape_str(s: &str) -> (r: Result<String, String>)
    ensures
        r is Ok == (unescaped(s@) is Some),
        r is Ok ==> r->Ok_0@ == unescaped(s@)->0,
{
    let src = chars_of(s);
    match unescape_chars(&src) {
        Some(out) => Ok(string_of(&out)),
        None => Err(String::from_str("invalid escape sequence")),
    }
}

proof fn lemma_prepend_assoc(a: Seq<char>, b: Seq<char>, r: Option<Seq<char>>)
    ensures
        prepend(a, prepend(b, r)) == prepend(a + b, r),
{
    if r is Some {
        assert(a + (b + r->0) == (a + b) + r->0);
    }
}

proof fn lemma_hex_char(k: int)
    requires
        0 <= k < 16,
    ensures
        hex_val(hex_char(k)) == k,
{
}

pub proof fn lemma_escaped_front(s: Seq<char>)
    requires
        s.len() > 0,
    ensures
        escaped(s) == escape_char(s[0]) + escaped(s.drop_first()),
    decreases s.len(),
{
    if s.len() == 1 {
        assert(s.drop_last() == Seq::<char>::empty());
        assert(s.drop_first() == Seq::<char>::empty());
        assert(escaped(Seq::<char>::empty()) == Seq::<char>::empty());
        assert(escape_char(s[0]) + Seq::<char>::empty() == escape_char(s[0]));
    } else {
        lemma_escaped_front(s.drop_last());
        assert(s.drop_last().drop_first() == s.drop_first().drop_last());
        assert(s.drop_first().last() == s.last());
        assert(s.drop_last()[0] == s[0]);
        assert((escape_char(s[0]) + escaped(s.drop_first().drop_last())) + escape_char(s.last())
            == escape_char(s[0]) + (escaped(s.drop_first().drop_last()) + escape_char(s.last())));
    }
}

proof fn lemma_unescape_one(c: char, t: Seq<char>)
    ensures
        unescaped(escape_char(c) + t) == prepend(seq![c], unescaped(t)),
{
    let x = escape_char(c) + t;
    if short_escaped(c) {
        assert(x.subrange(2, x.len() as int) == t);
    } else if control(c) {
        let code = c as u32;
        let h1 = hex_char((code / 16) as int);
        let h2 = hex_char((code % 16) as int);
        lemma_hex_char((code / 16) as int);
        lemma_hex_char((code % 16) as int);
        let d = x.subrange(2, 6);
        assert(d == seq!['0', '0', h1, h2]);
        assert(d.drop_last() == seq!['0', '0', h1]);
        assert(d.drop_last().drop_last() == seq!['0', '0']);
        assert(d.drop_last().drop_last().drop_last() == seq!['0']);
        assert(d.drop_last().drop_last().drop_last().drop_last() == Seq::<char>::empty());
        assert(seq!['0'].drop_last() == Seq::<char>::empty());
        assert(seq!['0'].last() == '0');
        assert(hex_val('0') == 0);
        assert(hex_number(Seq::<char>::empty()) == 0);
        assert(hex_number(seq!['0']) == 0);
        assert(seq!['0', '0'].drop_last() == seq!['0']);
        assert(seq!['0', '0', h1].drop_last() == seq!['0', '0']);
        assert(hex_number(seq!['0', '0']) == 0);
        assert(hex_number(seq!['0', '0', h1]) == (code / 16) as int);
        assert(hex_number(d) == code as int);
        assert(all_hex(d));
        let w = char_of(code as int);
        assert(code_of(c) == code as int);
        assert(code_of(w) == code_of(c));
        assert(x.subrange(6, x.len() as int) == t);
    } else {
        assert(x.drop_first() == t);
    }
}

/// Unescaping undoes escaping: for every text `s`, `unescape(escape(s)) == s`.
pub proof fn lemma_unescape_escape(s: Seq<char>)
    ensures
        unescaped(escaped(s)) == Some(s),
    decreases s.len(),
{
    if s.len() == 0 {
    } else {
        lemma_escaped_front(s);
        lemma_unescape_escape(s.drop_first());
        lemma_unescape_one(s[0], escaped(s.drop_first()));
        assert(seq![s[0]] + s.drop_first() == s);
    }
}

/// The character that a one-letter escape stands for, if `e` is one.
fn simple_escape(e: char) -> (r: Option<char>)
    ensures
        r == simple_target(e),
{
    if e == '\\' {
        Some('\\')
    } else if e == '"' {
        Some('"')
    } else if e == '/' {
        Some('/')
    } else if e == 'b' {
        Some('\x08')
    } else if e == 'f' {
        Some('\x0c')
    } else if e == 'n' {
        Some('\n')
    } else if e == 'r' {
        Some('\r')
    } else if e == 't' {
        Some('\t')
    } else if e == '0' {
        Some('\0')
    } else {
        None
    }
}

/// Undoes escaping on a sequence of characters.
pub(crate) fn unescape_chars(src: &Vec<char>) -> (r: Option<Vec<char>>)
    ensures
        r is Some == (unescaped(src@) is Some),
        r is Some ==> r->0@ == unescaped(src@)->0,
{
    let mut out: Vec<char> = Vec::new();
    let mut i: usize = 0;
    let len = src.len();
    assert(src@.subrange(0, len as int) == src@);
    while i < len
        invariant
            len == src@.len(),
            i <= len,
            unescaped(src@) == prepend(out@, unescaped(src@.subrange(i as int, len as int))),
        decreases len - i,
    {
        let ghost rest = src@.subrange(i as int, len as int);
        let ghost o = out@;
        let c = src[i];
        if c != '\\' {
            out.push(c);
            assert(rest.drop_first() == src@.subrange(i + 1, len as int));
            proof {
                lemma_prepend_assoc(o, seq![c], unescaped(rest.drop_first()));
                assert(o + seq![c] == out@);
            }
            i = i + 1;
        } else {
            if i + 1 >= len {
                return None;
            }
            let e = src[i + 1];
            match simple_escape(e) {
                Some(t) => {
                    out.push(t);
                    assert(rest.subrange(2, rest.len() as int) == src@.subrange(i + 2, len as int));
                    proof {
                        lemma_prepend_assoc(o, seq![t], unescaped(rest.subrange(2, rest.len() as int)));
                        assert(o + seq![t] == out@);
                    }
                    i = i + 2;
                },
                None => {
                    if e != 'u' && e != 'U' {
                        return None;
                    }
                    let n: usize = if e == 'u' {
                        4
                    } else {
                        8
                    };
                    if len - i < 2 + n {
                        return None;
                    }
                    assert(rest.subrange(2, 2 + n) == src@.subrange(i + 2, i + 2 + n));
                    let code = match hex_run(src, i + 2, n) {
                        Some(code) => code,
                        None => {
                            return None;
                        },
                    };
                    let ch = match char_from_u32(code) {
                        Some(ch) => ch,
                        None => {
                            return None;
                        },
                    };
                    proof {
                        assert(code_of(ch) == code as int);
                        let w = char_of(code as int);
                        assert(code_of(w) == code as int);
                        assert(code_of(w) == code_of(ch));
                        assert(w == ch);
                    }
                    out.push(ch);
                    assert(rest.subrange(2 + n, rest.len() as int) == src@.subrange(
                        i + 2 + n,
                        len as int,
                    ));
                    proof {
                        lemma_prepend_assoc(
                            o,
                            seq![ch],
                            unescaped(rest.subrange(2 + n, rest.len() as int)),
                        );
                        assert(o + seq![ch] == out@);
                    }
                    i = i + 2 + n;
                },
            }
        }
    }
    assert(src@.subrange(len as int, len as int) == Seq::<char>::empty());
    assert(out@ + Seq::<char>::empty() == out@);
    Some(out)
}

} // verus!
