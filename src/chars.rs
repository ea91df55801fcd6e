//! Character classification and small string helpers shared by the lexers.
use vstd::prelude::*;
use vstd::utf8::{char_is_scalar, encode_scalar, encode_utf8};

verus! {

/// The Unicode `White_Space` property.
pub open spec fn is_ws(c: char) -> bool {
    let u = c as u32;
    (0x09 <= u && u <= 0x0d) || u == 0x20 || u == 0x85 || u == 0xa0 || u == 0x1680 || (0x2000 <= u
        && u <= 0x200a) || u == 0x2028 || u == 0x2029 || u == 0x202f || u == 0x205f || u == 0x3000
}

/// Whether `c` is white space (the same set as `char::is_whitespace`).
pub fn is_whitespace(c: char) -> (r: bool)
    ensures
        r == is_ws(c),
{
    let u = c as u32;
    (0x09 <= u && u <= 0x0d) || u == 0x20 || u == 0x85 || u == 0xa0 || u == 0x1680 || (0x2000 <= u
        && u <= 0x200a) || u == 0x2028 || u == 0x2029 || u == 0x202f || u == 0x205f || u == 0x3000
}

/// ASCII letters.
pub open spec fn ascii_letter(c: char) -> bool {
    ('a' <= c && c <= 'z') || ('A' <= c && c <= 'Z')
}

/// ASCII digits.
pub open spec fn ascii_digit(c: char) -> bool {
    '0' <= c && c <= '9'
}

/// Whether a character outside ASCII has the Unicode `Alphabetic` property.
pub uninterp spec fn non_ascii_alphabetic(c: char) -> bool;

/// Whether a character outside ASCII is `Alphabetic` or `Numeric` in the Unicode sense.
pub uninterp spec fn non_ascii_alphanumeric(c: char) -> bool;

/// The Unicode `Alphabetic` property.
pub open spec fn alphabetic(c: char) -> bool {
    if c <= '\x7f' {
        ascii_letter(c)
    } else {
        non_ascii_alphabetic(c)
    }
}

/// `Alphabetic` or `Numeric` in the Unicode sense.
pub open spec fn alphanumeric(c: char) -> bool {
    if c <= '\x7f' {
        ascii_letter(c) || ascii_digit(c)
    } else {
        non_ascii_alphanumeric(c)
    }
}

/// Relies on `char::is_alphabetic`: std answers `a..=z` and `A..=Z` for ASCII,
/// and looks the `Alphabetic` property up in its Unicode tables for other characters.
#[verifier::external_body]
pub(crate) fn is_alphabetic(c: char) -> (r: bool)
    ensures
        r == alphabetic(c),
        c > '\x7f' ==> r == non_ascii_alphabetic(c),
{
    c.is_alphabetic()
}

/// Relies on `char::is_alphanumeric`: `is_alphabetic() || is_numeric()`; std answers
/// `a..=z`, `A..=Z` and `0..=9` for ASCII, and looks other characters up in its Unicode tables.
#[verifier::external_body]
pub(crate) fn is_alphanumeric(c: char) -> (r: bool)
    ensures
        r == alphanumeric(c),
        c > '\x7f' ==> r == non_ascii_alphanumeric(c),
{
    c.is_alphanumeric()
}

/// Relies on `String::push`: appends `c` at the end of `s`.
#[verifier::external_body]
pub(crate) fn push_char(s: &mut String, c: char)
    ensures
        final(s)@ == old(s)@.push(c),
{
    s.push(c);
}

/// The characters of `s`, in order.
pub fn chars_of(s: &str) -> (r: Vec<char>)
    ensures
        r@ == s@,
{
    let mut r: Vec<char> = Vec::new();
    for c in it: s.chars()
        invariant
            r@ == it.seq().take(it.index() as int),
    {
        r.push(c);
    }
    r
}

/// A new string holding `v[from..to]`.
pub fn string_of(v: &Vec<char>, from: usize, to: usize) -> (r: String)
    requires
        from <= to <= v@.len(),
    ensures
        r@ == v@.subrange(from as int, to as int),
{
    let mut r = String::new();
    let mut i: usize = from;
    while i < to
        invariant
            from <= i <= to <= v@.len(),
            r@ == v@.subrange(from as int, i as int),
        decreases to - i,
    {
        push_char(&mut r, v[i]);
        assert(v@.subrange(from as int, i + 1) == v@.subrange(from as int, i as int).push(v@[i as int]));
        i = i + 1;
    }
    r
}

/// Appends the characters of `text` to `s`.
pub fn push_all_str(s: &mut String, text: &str)
    ensures
        final(s)@ == old(s)@ + text@,
{
    s.append(text);
}

/// Appends the characters of `text` to `s`.
pub fn push_all(s: &mut String, text: &String)
    ensures
        final(s)@ == old(s)@ + text@,
{
    s.append(text.as_str());
}

/// The number of bytes that UTF-8 takes for `c`.
pub open spec fn utf8_width(c: char) -> nat {
    let u = c as u32;
    if u <= 0x7f {
        1
    } else if u <= 0x7ff {
        2
    } else if u <= 0xffff {
        3
    } else {
        4
    }
}

/// The number of bytes that UTF-8 takes for `x`.
pub open spec fn byte_len(x: Seq<char>) -> nat
    decreases x.len(),
{
    if x.len() == 0 {
        0
    } else {
        utf8_width(x[0]) + byte_len(x.drop_first())
    }
}

/// The byte offset of the character at index `i` of `s`.
pub open spec fn byte_at(s: Seq<char>, i: int) -> nat {
    byte_len(s.take(i))
}

pub proof fn lemma_byte_len_add(a: Seq<char>, b: Seq<char>)
    ensures
        byte_len(a + b) == byte_len(a) + byte_len(b),
    decreases a.len(),
{
    if a.len() > 0 {
        assert((a + b).drop_first() == a.drop_first() + b);
        lemma_byte_len_add(a.drop_first(), b);
    } else {
        assert(a + b == b);
    }
}

/// The length of the UTF-8 encoding is the sum of the widths.
pub proof fn lemma_byte_len_utf8(x: Seq<char>)
    ensures
        byte_len(x) == encode_utf8(x).len(),
    decreases x.len(),
{
    if x.len() > 0 {
        lemma_byte_len_utf8(x.drop_first());
        char_is_scalar(x[0]);
        assert(encode_scalar(x[0] as u32).len() == utf8_width(x[0]));
    }
}

/// Each character moves the byte offset on by its width, and the offsets grow
/// up to the byte length of the whole text.
pub proof fn lemma_byte_at(s: Seq<char>, i: int)
    requires
        0 <= i <= s.len(),
    ensures
        i < s.len() ==> byte_at(s, i + 1) == byte_at(s, i) + utf8_width(s[i]),
        byte_at(s, i) <= byte_len(s),
        byte_at(s, s.len() as int) == byte_len(s),
        byte_at(s, 0) == 0,
{
    if i < s.len() {
        assert(s.take(i + 1) == s.take(i) + seq![s[i]]);
        lemma_byte_len_add(s.take(i), seq![s[i]]);
        let one = seq![s[i]];
        assert(one.drop_first() =~= Seq::<char>::empty());
        assert(byte_len(one.drop_first()) == 0);
        assert(one[0] == s[i]);
        assert(byte_len(one) == utf8_width(s[i]));
    }
    assert(s == s.take(i) + s.skip(i));
    lemma_byte_len_add(s.take(i), s.skip(i));
    assert(s.take(s.len() as int) == s);
    assert(s.take(0) == Seq::<char>::empty());
}

/// A part of a text takes no more bytes than the whole.
pub proof fn lemma_byte_len_subrange(s: Seq<char>, a: int, b: int)
    requires
        0 <= a <= b <= s.len(),
    ensures
        byte_len(s.subrange(a, b)) <= byte_len(s),
{
    assert(s == s.subrange(0, a) + s.subrange(a, b) + s.subrange(b, s.len() as int));
    lemma_byte_len_add(s.subrange(0, a), s.subrange(a, b));
    lemma_byte_len_add(s.subrange(0, a) + s.subrange(a, b), s.subrange(b, s.len() as int));
}

/// The number of bytes that UTF-8 takes for `c`.
pub fn width_of(c: char) -> (r: usize)
    ensures
        r == utf8_width(c),
{
    let u = c as u32;
    if u <= 0x7f {
        1
    } else if u <= 0x7ff {
        2
    } else if u <= 0xffff {
        3
    } else {
        4
    }
}

/// The byte offset of every character of `v`, and of its end.
pub fn byte_offsets(v: &Vec<char>) -> (r: Vec<usize>)
    requires
        byte_len(v@) <= usize::MAX,
    ensures
        r@.len() == v@.len() + 1,
        forall|i: int| 0 <= i <= v@.len() ==> #[trigger] r@[i] == byte_at(v@, i),
{
    let mut r: Vec<usize> = Vec::new();
    let mut total: usize = 0;
    let mut i: usize = 0;
    proof {
        lemma_byte_at(v@, 0);
    }
    while i < v.len()
        invariant
            byte_len(v@) <= usize::MAX,
            i <= v@.len(),
            r@.len() == i,
            total == byte_at(v@, i as int),
            forall|k: int| 0 <= k < i ==> #[trigger] r@[k] == byte_at(v@, k),
        decreases v@.len() - i,
    {
        r.push(total);
        proof {
            lemma_byte_at(v@, i as int);
            lemma_byte_at(v@, i + 1);
        }
        total = total + width_of(v[i]);
        i = i + 1;
    }
    r.push(total);
    r
}

/// The characters of `s`, whose UTF-8 length fits in `usize`.
pub fn chars_with_len(s: &str) -> (r: Vec<char>)
    ensures
        r@ == s@,
        byte_len(r@) <= usize::MAX,
{
    let bytes = s.as_bytes();
    let n = bytes.len();
    proof {
        lemma_byte_len_utf8(s@);
    }
    chars_of(s)
}

} // verus!
