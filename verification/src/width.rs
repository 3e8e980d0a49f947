//! Display widths of characters and strings, as computed by `unicode-width`.

use vstd::prelude::*;
use unicode_width::{UnicodeWidthChar, UnicodeWidthStr};

verus! {

/// The width in terminal columns that `UnicodeWidthChar::width` gives for a
/// character (`None` for control characters).
pub uninterp spec fn char_width(c: char) -> Option<usize>;

/// The width in terminal columns that `UnicodeWidthStr::width` gives for a string.
pub uninterp spec fn str_width(s: Seq<char>) -> usize;

/// The width of a character, counting control characters as zero.
pub open spec fn width_or_zero(c: char) -> nat {
    match char_width(c) {
        Some(w) => w as nat,
        None => 0,
    }
}

/// The sum of the character widths of `s`.
pub open spec fn chars_width(s: Seq<char>) -> nat
    decreases s.len(),
{
    if s.len() == 0 {
        0
    } else {
        width_or_zero(s[0]) + chars_width(s.drop_first())
    }
}

/// The horizontal ellipsis, drawn where a wide character is cut in half.
pub const ELLIPSIS: char = '\u{2026}';

/// `UnicodeWidthChar::width` of `unicode-width`. Its contract names the result
/// and states what the crate's source shows for ASCII and for the ellipsis:
/// printable ASCII characters are one column wide, the C0 and C1 control
/// characters have no width, and U+2026 is one column wide. The table that
/// decides all other characters is not restated.
#[verifier::external_body]
pub(crate) fn char_width_of(c: char) -> (r: Option<usize>)
    ensures
        r == char_width(c),
        (' ' <= c && c <= '~') ==> r == Some(1usize),
        (c < ' ' || ('\u{7f}' <= c && c < '\u{a0}')) ==> r is None,
        c == ELLIPSIS ==> r == Some(1usize),
{
    c.width()
}

/// `UnicodeWidthStr::width` of `unicode-width`. Its contract names the result
/// and states what the crate's source shows for strings of printable ASCII
/// characters: each is one column wide. Other strings are not described,
/// since their width is not the sum of the character widths in general.
#[verifier::external_body]
pub(crate) fn str_width_of(s: &str) -> (r: usize)
    ensures
        r == str_width(s@),
        (forall|i: int| 0 <= i < s@.len() ==> ' ' <= #[trigger] s@[i] && s@[i] <= '~') ==> r
            == s@.len(),
{
    s.width()
}

} // verus!
