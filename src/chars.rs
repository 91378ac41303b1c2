use vstd::prelude::*;

verus! {

/// What `char::is_alphabetic` gives (Unicode's Alphabetic property).
pub uninterp spec fn unicode_alphabetic(c: char) -> bool;

/// What `char::is_alphanumeric` gives (Alphabetic, or a numeric category).
pub uninterp spec fn unicode_alphanumeric(c: char) -> bool;

/// What `char::is_whitespace` gives (Unicode's White_Space property).
pub uninterp spec fn unicode_whitespace(c: char) -> bool;

pub open spec fn is_ascii(c: char) -> bool {
    (c as u32) < 128
}

pub open spec fn is_ascii_letter(c: char) -> bool {
    ('a' <= c && c <= 'z') || ('A' <= c && c <= 'Z')
}

pub open spec fn is_digit(c: char) -> bool {
    '0' <= c && c <= '9'
}

/// Alphabetic: among ASCII characters, the letters.
pub open spec fn alphabetic(c: char) -> bool {
    if is_ascii(c) {
        is_ascii_letter(c)
    } else {
        unicode_alphabetic(c)
    }
}

/// Alphanumeric: among ASCII characters, the letters and the digits.
pub open spec fn alphanumeric(c: char) -> bool {
    if is_ascii(c) {
        is_ascii_letter(c) || is_digit(c)
    } else {
        unicode_alphanumeric(c)
    }
}

/// White space: among ASCII characters, the space and the controls from tab to
/// carriage return.
pub open spec fn whitespace(c: char) -> bool {
    if is_ascii(c) {
        c == ' ' || ('\t' <= c && c <= '\r')
    } else {
        unicode_whitespace(c)
    }
}

/// Relies on char::is_alphabetic, which among ASCII characters holds of the letters alone.
#[verifier::external_body]
pub fn is_alphabetic(c: char) -> (r: bool)
    ensures
        is_ascii(c) ==> r == is_ascii_letter(c),
        !is_ascii(c) ==> r == unicode_alphabetic(c),
{
    c.is_alphabetic()
}

/// Relies on char::is_alphanumeric, which among ASCII characters holds of the letters
/// and the digits alone.
#[verifier::external_body]
pub fn is_alphanumeric(c: char) -> (r: bool)
    ensures
        is_ascii(c) ==> r == (is_ascii_letter(c) || is_digit(c)),
        !is_ascii(c) ==> r == unicode_alphanumeric(c),
{
    c.is_alphanumeric()
}

/// Relies on char::is_whitespace, which among ASCII characters holds of the space and
/// of the controls from tab to carriage return alone.
#[verifier::external_body]
pub fn is_whitespace(c: char) -> (r: bool)
    ensures
        is_ascii(c) ==> r == (c == ' ' || ('\t' <= c && c <= '\r')),
        !is_ascii(c) ==> r == unicode_whitespace(c),
{
    c.is_whitespace()
}

/// Relies on String::push: the character is appended.
#[verifier::external_body]
pub(crate) fn push_char(s: &mut String, c: char)
    ensures
        final(s)@ == old(s)@.push(c),
{
    s.push(c)
}

/// The letter that stands for a character after a backslash, for the characters that
/// are escaped.
pub open spec fn escape_code(c: char) -> Option<char> {
    if c == '\n' {
        Some('n')
    } else if c == '\r' {
        Some('r')
    } else if c == '\t' {
        Some('t')
    } else if c == '\0' {
        Some('0')
    } else if c == '\\' {
        Some('\\')
    } else if c == '\'' {
        Some('\'')
    } else if c == '"' {
        Some('"')
    } else {
        None
    }
}

/// The character that a backslash and the given letter stand for.
pub open spec fn unescape_code(e: char) -> Option<char> {
    if e == 'n' {
        Some('\n')
    } else if e == 'r' {
        Some('\r')
    } else if e == 't' {
        Some('\t')
    } else if e == '0' {
        Some('\0')
    } else if e == '\\' {
        Some('\\')
    } else if e == '\'' {
        Some('\'')
    } else if e == '"' {
        Some('"')
    } else {
        None
    }
}

pub fn to_escape_code(c: char) -> (r: Option<char>)
    ensures
        r == escape_code(c),
{
    match c {
        '\n' => Some('n'),
        '\r' => Some('r'),
        '\t' => Some('t'),
        '\0' => Some('0'),
        '\\' => Some('\\'),
        '\'' => Some('\''),
        '"' => Some('"'),
        _ => None,
    }
}

pub fn from_escape_code(e: char) -> (r: Option<char>)
    ensures
        r == unescape_code(e),
{
    match e {
        'n' => Some('\n'),
        'r' => Some('\r'),
        't' => Some('\t'),
        '0' => Some('\0'),
        '\\' => Some('\\'),
        '\'' => Some('\''),
        '"' => Some('"'),
        _ => None,
    }
}

/// The number of bytes of a character in UTF-8.
pub open spec fn utf8_width(c: char) -> nat {
    if (c as u32) < 0x80 {
        1
    } else if (c as u32) < 0x800 {
        2
    } else if (c as u32) < 0x10000 {
        3
    } else {
        4
    }
}

/// The number of bytes of a character sequence in UTF-8.
pub open spec fn utf8_len(s: Seq<char>) -> nat
    decreases s.len(),
{
    if s.len() == 0 {
        0
    } else {
        utf8_len(s.drop_last()) + utf8_width(s.last())
    }
}

/// Relies on str::len: the number of bytes of the string's UTF-8 encoding, which for a
/// string held in memory is at most `isize::MAX`.
#[verifier::external_body]
pub fn utf8_byte_len(s: &str) -> (r: usize)
    ensures
        r == utf8_len(s@),
        r <= isize::MAX,
{
    s.len()
}

/// The byte offset of the character at index `i`.
pub open spec fn byte_at(s: Seq<char>, i: int) -> nat {
    utf8_len(s.subrange(0, i))
}

pub fn char_width(c: char) -> (r: usize)
    ensures
        r == utf8_width(c),
{
    let n = c as u32;
    if n < 0x80 {
        1
    } else if n < 0x800 {
        2
    } else if n < 0x10000 {
        3
    } else {
        4
    }
}

pub proof fn lemma_byte_at_step(s: Seq<char>, i: int)
    requires
        0 <= i < s.len(),
    ensures
        byte_at(s, i + 1) == byte_at(s, i) + utf8_width(s[i]),
{
    assert(s.subrange(0, i + 1).drop_last() =~= s.subrange(0, i));
}

pub proof fn lemma_byte_at_bounded(s: Seq<char>, i: int)
    requires
        0 <= i <= s.len(),
    ensures
        byte_at(s, i) <= utf8_len(s),
    decreases s.len() - i,
{
    if i < s.len() {
        lemma_byte_at_step(s, i);
        lemma_byte_at_bounded(s, i + 1);
    } else {
        assert(s.subrange(0, i) =~= s);
    }
}

/// The byte offset of the character at index `i` of `s`.
pub fn byte_offset(s: &Vec<char>, i: usize) -> (r: usize)
    requires
        i <= s@.len(),
        utf8_len(s@) < usize::MAX,
    ensures
        r == byte_at(s@, i as int),
{
    let mut k: usize = 0;
    let mut b: usize = 0;
    proof {
        assert(s@.subrange(0, 0) =~= Seq::<char>::empty());
    }
    while k < i
        invariant
            k <= i <= s@.len(),
            utf8_len(s@) < usize::MAX,
            b == byte_at(s@, k as int),
        decreases i - k,
    {
        proof {
            lemma_byte_at_step(s@, k as int);
            lemma_byte_at_bounded(s@, k as int + 1);
        }
        b = b + char_width(s[k]);
        k = k + 1;
    }
    b
}

} // verus!
