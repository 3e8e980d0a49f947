//! What the library decides from Git's output: whether Git is usable here,
//! and the file paths that Git prints with octal escapes.

use vstd::prelude::*;
use vstd::string::*;
use vstd::utf8::*;
use crate::strings::string_from_utf8;

verus! {

/// Whether `c` has the Unicode `White_Space` property, which is what
/// `char::is_whitespace` and `str::trim` of `std` go by.
pub open spec fn is_white_space(c: char) -> bool {
    ||| ('\u{9}' <= c && c <= '\u{d}')
    ||| c == ' '
    ||| c == '\u{85}'
    ||| c == '\u{a0}'
    ||| c == '\u{1680}'
    ||| ('\u{2000}' <= c && c <= '\u{200a}')
    ||| c == '\u{2028}'
    ||| c == '\u{2029}'
    ||| c == '\u{202f}'
    ||| c == '\u{205f}'
    ||| c == '\u{3000}'
}

/// `s` without its leading white space.
pub open spec fn trim_start_ws(s: Seq<char>) -> Seq<char>
    decreases s.len(),
{
    if s.len() > 0 && is_white_space(s[0]) {
        trim_start_ws(s.drop_first())
    } else {
        s
    }
}

/// `s` without its trailing white space.
pub open spec fn trim_end_ws(s: Seq<char>) -> Seq<char>
    decreases s.len(),
{
    if s.len() > 0 && is_white_space(s.last()) {
        trim_end_ws(s.drop_last())
    } else {
        s
    }
}

/// `s` without leading and trailing white space.
pub open spec fn trimmed(s: Seq<char>) -> Seq<char> {
    trim_end_ws(trim_start_ws(s))
}

/// Whether `c` is white space.
fn is_white_space_char(c: char) -> (r: bool)
    ensures
        r == is_white_space(c),
{
    ('\u{9}' <= c && c <= '\u{d}') || c == ' ' || c == '\u{85}' || c == '\u{a0}' || c
        == '\u{1680}' || ('\u{2000}' <= c && c <= '\u{200a}') || c == '\u{2028}' || c
        == '\u{2029}' || c == '\u{202f}' || c == '\u{205f}' || c == '\u{3000}'
}

/// `s` without leading and trailing white space, as `trimmed` describes.
fn str_trim(s: &str) -> (r: &str)
    ensures
        r@ == trimmed(s@),
{
    let n = s.unicode_len();
    let mut a: usize = 0;
    assert(s@.subrange(0, n as int) =~= s@);
    while a < n && is_white_space_char(s.get_char(a))
        invariant
            n == s@.len(),
            a <= n,
            trim_start_ws(s@) == trim_start_ws(s@.subrange(a as int, n as int)),
        decreases n - a,
    {
        assert(s@.subrange(a as int, n as int).drop_first() =~= s@.subrange(a + 1, n as int));
        a = a + 1;
    }
    let ghost lead = s@.subrange(a as int, n as int);
    assert(trim_start_ws(lead) == lead);
    let mut b: usize = n;
    while b > a && is_white_space_char(s.get_char(b - 1))
        invariant
            n == s@.len(),
            a <= b <= n,
            lead == s@.subrange(a as int, n as int),
            trim_end_ws(lead) == trim_end_ws(s@.subrange(a as int, b as int)),
        decreases b - a,
    {
        assert(s@.subrange(a as int, b as int).drop_last() =~= s@.subrange(a as int, b - 1));
        b = b - 1;
    }
    s.substring_char(a, b)
}

/// Whether the two strings hold the same characters.
pub fn str_eq(a: &str, b: &str) -> (r: bool)
    ensures
        r == (a@ == b@),
{
    let n = a.unicode_len();
    if n != b.unicode_len() {
        return false;
    }
    let mut i: usize = 0;
    while i < n
        invariant
            n == a@.len(),
            n == b@.len(),
            i <= n,
            forall|j: int| 0 <= j < i ==> a@[j] == b@[j],
        decreases n - i,
    {
        if a.get_char(i) != b.get_char(i) {
            return false;
        }
        i = i + 1;
    }
    assert(a@ =~= b@);
    true
}

/// Whether Git is available and the current directory lies in a work tree,
/// given what `git rev-parse --is-inside-work-tree` printed on success (`None`
/// where the command could not run or failed): the output, trimmed, must read
/// `true`.
pub fn is_available(rev_parse_output: Option<&str>) -> (r: bool)
    ensures
        r == (rev_parse_output matches Some(out) && trimmed(out@) == "true"@),
{
    match rev_parse_output {
        Some(out) => str_eq(str_trim(out), "true"),
        None => false,
    }
}

/// Why an escaped path could not be decoded.
#[derive(Debug, Clone, Copy, PartialEq, Eq, Structural)]
pub enum EscapedPathError {
    /// The path ends in the middle of an escape.
    UnexpectedEnd,
    /// A digit escape is not an octal number of three digits up to 377.
    InvalidOctal,
    /// The decoded bytes are not UTF-8.
    InvalidUtf8,
}

/// The byte that `char as u8` gives: the low eight bits of the code point.
pub open spec fn low_byte(c: char) -> u8 {
    (c as u32 % 256) as u8
}

/// Whether `c` is an octal digit.
pub open spec fn is_octal_digit(c: char) -> bool {
    '0' <= c && c <= '7'
}

/// The value of three characters read as an octal number, where they are
/// octal digits and the value fits in a byte.
pub open spec fn octal_byte(a: char, b: char, c: char) -> Option<u8> {
    if is_octal_digit(a) && is_octal_digit(b) && is_octal_digit(c) {
        let v = (a as u32 - '0' as u32) * 64 + (b as u32 - '0' as u32) * 8 + (c as u32 - '0' as u32);
        if v <= 255 {
            Some(v as u8)
        } else {
            None
        }
    } else {
        None
    }
}

/// `b` in front of the bytes of `rest`, or `rest`'s error.
pub open spec fn prepend_byte(b: u8, rest: Result<Seq<u8>, EscapedPathError>) -> Result<
    Seq<u8>,
    EscapedPathError,
> {
    match rest {
        Ok(bytes) => Ok(seq![b] + bytes),
        Err(e) => Err(e),
    }
}

/// The bytes that an escaped path stands for. A character other than a
/// backslash stands for its low byte. A backslash followed by a character
/// that is not an ASCII digit stands for that character's low byte. A
/// backslash followed by three characters that start with an ASCII digit
/// stands for the byte that they give read as an octal number.
pub open spec fn unescaped_bytes(s: Seq<char>) -> Result<Seq<u8>, EscapedPathError>
    decreases s.len(),
{
    if s.len() == 0 {
        Ok(Seq::empty())
    } else if s[0] != '\\' {
        prepend_byte(low_byte(s[0]), unescaped_bytes(s.drop_first()))
    } else if s.len() < 2 {
        Err(EscapedPathError::UnexpectedEnd)
    } else if !('0' <= s[1] && s[1] <= '9') {
        prepend_byte(low_byte(s[1]), unescaped_bytes(s.skip(2)))
    } else if s.len() < 4 {
        Err(EscapedPathError::UnexpectedEnd)
    } else {
        match octal_byte(s[1], s[2], s[3]) {
            Some(b) => prepend_byte(b, unescaped_bytes(s.skip(4))),
            None => Err(EscapedPathError::InvalidOctal),
        }
    }
}

/// The path that an escaped path stands for: its bytes decoded as UTF-8.
pub open spec fn unescaped_path(s: Seq<char>) -> Result<Seq<char>, EscapedPathError> {
    match unescaped_bytes(s) {
        Ok(bytes) => if valid_utf8(bytes) {
            Ok(decode_utf8(bytes))
        } else {
            Err(EscapedPathError::InvalidUtf8)
        },
        Err(e) => Err(e),
    }
}

/// The byte of the octal escape made of the three characters, where they form one.
fn octal_value(a: char, b: char, c: char) -> (r: Option<u8>)
    ensures
        r == octal_byte(a, b, c),
{
    if '0' <= a && a <= '7' && '0' <= b && b <= '7' && '0' <= c && c <= '7' {
        let v: u32 = (a as u32 - '0' as u32) * 64 + (b as u32 - '0' as u32) * 8 + (c as u32
            - '0' as u32);
        if v <= 255 {
            Some(v as u8)
        } else {
            None
        }
    } else {
        None
    }
}

/// Decodes a path that Git printed with octal escapes (without its quotes),
/// as `unescaped_path` describes.
pub fn parse_escaped_path(s: &str) -> (r: Result<String, EscapedPathError>)
    ensures
        r matches Ok(p) ==> unescaped_path(s@) == Ok::<Seq<char>, EscapedPathError>(p@),
        r matches Err(e) ==> unescaped_path(s@) == Err::<Seq<char>, EscapedPathError>(e),
{
    let n = s.unicode_len();
    let mut bytes: Vec<u8> = Vec::new();
    let mut i: usize = 0;
    assert(s@.skip(0) =~= s@);
    while i < n
        invariant
            n == s@.len(),
            i <= n,
            unescaped_bytes(s@) == (match unescaped_bytes(s@.skip(i as int)) {
                Ok(rest) => Ok(bytes@ + rest),
                Err(e) => Err(e),
            }),
        decreases n - i,
    {
        let ghost t = s@.skip(i as int);
        let ghost before = bytes@;
        let c = s.get_char(i);
        assert(t[0] == c);
        if c != '\\' {
            bytes.push((c as u32 % 256) as u8);
            assert(t.drop_first() =~= s@.skip(i + 1));
            i = i + 1;
            proof {
                match unescaped_bytes(s@.skip(i as int)) {
                    Ok(rest) => assert(before + (seq![low_byte(c)] + rest) =~= bytes@ + rest),
                    Err(e) => {},
                }
            }
            continue;
        }
        if i + 1 >= n {
            return Err(EscapedPathError::UnexpectedEnd);
        }
        let d = s.get_char(i + 1);
        assert(t[1] == d);
        if !('0' <= d && d <= '9') {
            bytes.push((d as u32 % 256) as u8);
            assert(t.skip(2) =~= s@.skip(i + 2));
            i = i + 2;
            proof {
                match unescaped_bytes(s@.skip(i as int)) {
                    Ok(rest) => assert(before + (seq![low_byte(d)] + rest) =~= bytes@ + rest),
                    Err(e) => {},
                }
            }
            continue;
        }
        if n - i <= 3 {
            return Err(EscapedPathError::UnexpectedEnd);
        }
        let e = s.get_char(i + 2);
        let f = s.get_char(i + 3);
        assert(t[2] == e && t[3] == f);
        match octal_value(d, e, f) {
            Some(b) => {
                bytes.push(b);
                assert(t.skip(4) =~= s@.skip(i + 4));
                i = i + 4;
                proof {
                    match unescaped_bytes(s@.skip(i as int)) {
                        Ok(rest) => assert(before + (seq![b] + rest) =~= bytes@ + rest),
                        Err(e) => {},
                    }
                }
            },
            None => {
                return Err(EscapedPathError::InvalidOctal);
            },
        }
    }
    assert(s@.skip(n as int) =~= Seq::<char>::empty());
    assert(bytes@ + Seq::<u8>::empty() =~= bytes@);
    match string_from_utf8(bytes) {
        Some(p) => Ok(p),
        None => Err(EscapedPathError::InvalidUtf8),
    }
}

/// `s` without its leading occurrences of `c`.
pub open spec fn strip_leading(s: Seq<char>, c: char) -> Seq<char>
    decreases s.len(),
{
    if s.len() > 0 && s[0] == c {
        strip_leading(s.drop_first(), c)
    } else {
        s
    }
}

/// `s` without its trailing occurrences of `c`.
pub open spec fn strip_trailing(s: Seq<char>, c: char) -> Seq<char>
    decreases s.len(),
{
    if s.len() > 0 && s.last() == c {
        strip_trailing(s.drop_last(), c)
    } else {
        s
    }
}

/// `s` without the double quotes at its start and its end.
pub open spec fn strip_quotes(s: Seq<char>) -> Seq<char> {
    strip_trailing(strip_leading(s, '"'), '"')
}

/// The path that Git printed: as it stands where it does not start with a
/// double quote, otherwise decoded from its octal escapes once the quotes
/// around it are removed.
pub open spec fn printed_path(s: Seq<char>) -> Result<Seq<char>, EscapedPathError> {
    if s.len() > 0 && s[0] == '"' {
        unescaped_path(strip_quotes(s))
    } else {
        Ok(s)
    }
}

/// Removes the double quotes at the start and at the end of `s`.
fn trim_quotes(s: &str) -> (r: &str)
    ensures
        r@ == strip_quotes(s@),
{
    let n = s.unicode_len();
    let mut a: usize = 0;
    assert(s@.subrange(0, n as int) =~= s@);
    while a < n && s.get_char(a) == '"'
        invariant
            n == s@.len(),
            a <= n,
            strip_leading(s@, '"') == strip_leading(s@.subrange(a as int, n as int), '"'),
        decreases n - a,
    {
        assert(s@.subrange(a as int, n as int).drop_first() =~= s@.subrange(a + 1, n as int));
        a = a + 1;
    }
    let ghost lead = s@.subrange(a as int, n as int);
    assert(strip_leading(lead, '"') == lead);
    let mut b: usize = n;
    while b > a && s.get_char(b - 1) == '"'
        invariant
            n == s@.len(),
            a <= b <= n,
            lead == s@.subrange(a as int, n as int),
            strip_trailing(lead, '"') == strip_trailing(s@.subrange(a as int, b as int), '"'),
        decreases b - a,
    {
        assert(s@.subrange(a as int, b as int).drop_last() =~= s@.subrange(a as int, b - 1));
        b = b - 1;
    }
    s.substring_char(a, b)
}

/// Reads a path as Git prints it, as `printed_path` describes.
pub fn parse_maybe_escaped_path(s: &str) -> (r: Result<String, EscapedPathError>)
    ensures
        r matches Ok(p) ==> printed_path(s@) == Ok::<Seq<char>, EscapedPathError>(p@),
        r matches Err(e) ==> printed_path(s@) == Err::<Seq<char>, EscapedPathError>(e),
{
    if !(s.unicode_len() > 0 && s.get_char(0) == '"') {
        return Ok(s.to_owned());
    }
    parse_escaped_path(trim_quotes(s))
}

/// An escaped path without backslashes, made of ASCII characters, stands for
/// itself.
pub proof fn law_plain_ascii_path_unchanged(s: Seq<char>)
    requires
        forall|i: int| 0 <= i < s.len() ==> #[trigger] s[i] != '\\' && s[i] <= '\u{7f}',
    ensures
        unescaped_path(s) == Ok::<Seq<char>, EscapedPathError>(s),
{
    lemma_plain_bytes(s);
    assert forall|i: int| 0 <= i < s.len() implies '\0' <= #[trigger] s[i] <= '\u{7f}' by {
        assert(s[i] != '\\' && s[i] <= '\u{7f}');
        lemma_char_at_least_nul(s[i]);
    }
    assert(is_ascii_chars(s));
    is_ascii_chars_encode_utf8(s);
    let bytes = Seq::new(s.len(), |i: int| low_byte(s[i]));
    assert forall|i: int| 0 <= i < s.len() implies bytes[i] == encode_utf8(s)[i] by {
        assert(s[i] as u8 == encode_utf8(s)[i]);
        assert(low_byte(s[i]) == (s[i] as u32) as u8);
    }
    assert(bytes =~= encode_utf8(s));
    encode_utf8_valid_utf8(s);
    encode_utf8_decode_utf8(s);
}

/// The octal digit of value `d`, from 0 to 7.
pub open spec fn octal_digit(d: int) -> char {
    (48 + d) as char
}

/// How Git writes a byte of a path between double quotes: a byte from 0x80
/// on as a backslash and its three octal digits, a backslash and a double
/// quote behind a backslash, and any other byte as the character of its code.
pub open spec fn escaped_byte(b: u8) -> Seq<char> {
    if b >= 0x80 {
        seq!['\\', octal_digit((b / 64) as int), octal_digit(((b / 8) % 8) as int), octal_digit((b % 8) as int)]
    } else if b == 0x5c {
        seq!['\\', '\\']
    } else if b == 0x22 {
        seq!['\\', '"']
    } else {
        seq![b as char]
    }
}

/// The bytes of a path written as Git writes them between double quotes.
pub open spec fn escaped_bytes(bytes: Seq<u8>) -> Seq<char>
    decreases bytes.len(),
{
    if bytes.len() == 0 {
        Seq::empty()
    } else {
        escaped_byte(bytes[0]) + escaped_bytes(bytes.drop_first())
    }
}

/// Decoding an escaped byte followed by more escaped text gives the byte in
/// front of what the rest decodes to.
proof fn lemma_unescape_escaped_byte(b: u8, rest: Seq<char>)
    ensures
        unescaped_bytes(escaped_byte(b) + rest) == prepend_byte(b, unescaped_bytes(rest)),
{
    let s = escaped_byte(b) + rest;
    if b >= 0x80 {
        lemma_unescape_octal(b, rest);
    } else if b == 0x5c || b == 0x22 {
        assert(s.skip(2) =~= rest);
        assert(s[0] == '\\');
        assert(low_byte(s[1]) == b);
    } else {
        assert(s.drop_first() =~= rest);
        assert((b as char) as u32 == b);
        assert(low_byte(s[0]) == b);
        assert(s[0] != '\\');
    }
}

/// Decoding the octal escape of a byte from 0x80 on gives the byte.
proof fn lemma_unescape_octal(b: u8, rest: Seq<char>)
    requires
        b >= 0x80,
    ensures
        unescaped_bytes(escaped_byte(b) + rest) == prepend_byte(b, unescaped_bytes(rest)),
{
    let s = escaped_byte(b) + rest;
    let d0 = (b / 64) as int;
    let d1 = ((b / 8) % 8) as int;
    let d2 = (b % 8) as int;
    assert(d0 * 64 + d1 * 8 + d2 == b);
    assert(2 <= d0 <= 3);
    assert(s.skip(4) =~= rest);
    assert(s[0] == '\\');
    assert(s[1] == octal_digit(d0) && s[2] == octal_digit(d1) && s[3] == octal_digit(d2));
    assert((octal_digit(d0) as u32) == 48 + d0);
    assert((octal_digit(d1) as u32) == 48 + d1);
    assert((octal_digit(d2) as u32) == 48 + d2);
    assert('0' <= s[1] && s[1] <= '9');
    assert(octal_byte(s[1], s[2], s[3]) == Some(b));
}

/// Decoding the escapes of a path that Git wrote gives back its bytes.
proof fn lemma_unescape_escaped_bytes(bytes: Seq<u8>)
    ensures
        unescaped_bytes(escaped_bytes(bytes)) == Ok::<Seq<u8>, EscapedPathError>(bytes),
    decreases bytes.len(),
{
    if bytes.len() == 0 {
        assert(escaped_bytes(bytes) =~= Seq::<char>::empty());
        assert(bytes =~= Seq::<u8>::empty());
    } else {
        let tail = bytes.drop_first();
        lemma_unescape_escaped_bytes(tail);
        lemma_unescape_escaped_byte(bytes[0], escaped_bytes(tail));
        assert(escaped_bytes(bytes) == escaped_byte(bytes[0]) + escaped_bytes(tail));
        assert(seq![bytes[0]] + tail =~= bytes);
        assert(prepend_byte(bytes[0], Ok::<Seq<u8>, EscapedPathError>(tail)) == Ok::<
            Seq<u8>,
            EscapedPathError,
        >(bytes));
    }
}

/// A path whose bytes Git wrote with escapes is read back as the same path.
pub proof fn law_escaped_path_round_trip(p: Seq<char>)
    ensures
        unescaped_path(escaped_bytes(encode_utf8(p))) == Ok::<Seq<char>, EscapedPathError>(p),
{
    lemma_unescape_escaped_bytes(encode_utf8(p));
    encode_utf8_valid_utf8(p);
    encode_utf8_decode_utf8(p);
}

/// The escapes of a byte never start with a double quote, and end with one
/// only for the double quote itself.
proof fn lemma_escaped_byte_ends(b: u8)
    ensures
        escaped_byte(b).len() > 0,
        escaped_byte(b)[0] != '"',
        b != 0x22 ==> escaped_byte(b).last() != '"',
{
    if b < 0x80 && b != 0x5c && b != 0x22 {
        assert((b as char) as u32 == b);
    }
    if b >= 0x80 {
        assert((octal_digit((b % 8) as int) as u32) == 48 + b % 8);
    }
}

/// Escaped bytes start with what the first byte's escape starts with, and end
/// with what the last byte's escape ends with.
proof fn lemma_escaped_bytes_ends(bytes: Seq<u8>)
    requires
        bytes.len() > 0,
    ensures
        escaped_bytes(bytes).len() > 0,
        escaped_bytes(bytes)[0] == escaped_byte(bytes[0])[0],
        escaped_bytes(bytes).last() == escaped_byte(bytes.last()).last(),
    decreases bytes.len(),
{
    lemma_escaped_byte_ends(bytes[0]);
    let tail = bytes.drop_first();
    if tail.len() > 0 {
        lemma_escaped_bytes_ends(tail);
        assert(tail.last() == bytes.last());
    } else {
        assert(escaped_bytes(tail) =~= Seq::<char>::empty());
        assert(escaped_bytes(bytes) =~= escaped_byte(bytes[0]));
    }
}

/// A path that Git prints between double quotes, with its bytes escaped, is
/// read back as the same path, unless its last byte is a double quote: the
/// quote that ends it is then taken for the closing quote and cut away too.
pub proof fn law_quoted_path_round_trip(p: Seq<char>)
    requires
        encode_utf8(p).len() == 0 || encode_utf8(p).last() != 0x22,
    ensures
        printed_path(seq!['"'] + escaped_bytes(encode_utf8(p)) + seq!['"']) == Ok::<
            Seq<char>,
            EscapedPathError,
        >(p),
{
    let bytes = encode_utf8(p);
    let e = escaped_bytes(bytes);
    let q = seq!['"'] + e + seq!['"'];
    assert(q.drop_first() =~= e + seq!['"']);
    assert(q[0] == '"');
    assert(strip_leading(q, '"') == strip_leading(e + seq!['"'], '"'));
    if bytes.len() == 0 {
        assert(e =~= Seq::<char>::empty());
        assert(e + seq!['"'] =~= seq!['"']);
        assert(seq!['"'].drop_first() =~= Seq::<char>::empty());
        assert(strip_leading(seq!['"'], '"') == strip_leading(Seq::<char>::empty(), '"'));
        assert(strip_leading(q, '"') == Seq::<char>::empty());
        assert(strip_quotes(q) =~= e);
    } else {
        lemma_escaped_bytes_ends(bytes);
        lemma_escaped_byte_ends(bytes[0]);
        lemma_escaped_byte_ends(bytes.last());
        assert((e + seq!['"'])[0] == e[0]);
        assert(strip_leading(q, '"') == e + seq!['"']);
        assert((e + seq!['"']).drop_last() =~= e);
        assert(strip_trailing(e, '"') == e);
        assert(strip_quotes(q) == e);
    }
    law_escaped_path_round_trip(p);
}

/// No character comes before NUL.
proof fn lemma_char_at_least_nul(c: char)
    ensures
        '\0' <= c,
{
}

/// The bytes of an escaped path without backslashes are the low bytes of its
/// characters.
proof fn lemma_plain_bytes(s: Seq<char>)
    requires
        forall|i: int| 0 <= i < s.len() ==> #[trigger] s[i] != '\\',
    ensures
        unescaped_bytes(s) == Ok::<Seq<u8>, EscapedPathError>(
            Seq::new(s.len(), |i: int| low_byte(s[i])),
        ),
    decreases s.len(),
{
    if s.len() > 0 {
        let t = s.drop_first();
        assert forall|i: int| 0 <= i < t.len() implies #[trigger] t[i] != '\\' by {
            assert(t[i] == s[i + 1]);
        }
        lemma_plain_bytes(t);
        assert(seq![low_byte(s[0])] + Seq::new(t.len(), |i: int| low_byte(t[i])) =~= Seq::new(
            s.len(),
            |i: int| low_byte(s[i]),
        ));
    } else {
        assert(Seq::new(s.len(), |i: int| low_byte(s[i])) =~= Seq::<u8>::empty());
    }
}

/// A path that Git printed without a leading double quote stands for itself.
pub proof fn law_unquoted_path_unchanged(s: Seq<char>)
    requires
        !(s.len() > 0 && s[0] == '"'),
    ensures
        printed_path(s) == Ok::<Seq<char>, EscapedPathError>(s),
{
}

} // verus!
