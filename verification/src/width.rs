//! Terminal display widths, as computed by the `unicode-width` crate.
use unicode_width::{UnicodeWidthChar, UnicodeWidthStr};
use vstd::prelude::*;

verus! {

/// What `UnicodeWidthChar::width` returns for `c`: its display width in
/// columns, or `None` for a control character.
pub uninterp spec fn char_width(c: char) -> Option<usize>;

/// What `UnicodeWidthStr::width` returns for a string with characters `s`.
pub uninterp spec fn str_width(s: Seq<char>) -> usize;

/// `s` holds only printable ASCII characters (`' '` through `'~'`).
pub open spec fn printable_ascii(s: Seq<char>) -> bool {
    forall|i: int| 0 <= i < s.len() ==> 0x20 <= #[trigger] (s[i] as u32) && (s[i] as u32) < 0x7F
}

/// The display width of `c` (`UnicodeWidthChar::width`).
///
/// Trusted: the result is the name `char_width(c)`; beside it, what the
/// crate's `single_char_width` shows plainly: characters below U+0020 and from
/// U+007F up to U+00A0 are control characters (`None`), U+0020..U+007E are
/// one column wide, and every character from U+00A0 on has a width.
#[verifier::external_body]
pub(crate) fn char_display_width(c: char) -> (w: Option<usize>)
    ensures
        w == char_width(c),
        (c as u32) < 0x20 ==> w is None,
        0x20 <= (c as u32) && (c as u32) < 0x7F ==> w == Some(1usize),
        0x7F <= (c as u32) && (c as u32) < 0xA0 ==> w is None,
        0xA0 <= (c as u32) ==> w is Some,
{
    UnicodeWidthChar::width(c)
}

/// `n` spaces.
pub open spec fn spaces(n: int) -> Seq<char> {
    Seq::new(n as nat, |i: int| ' ')
}

/// The display width of `s` (`UnicodeWidthStr::width`).
///
/// Trusted: the result is the name `str_width(s@)`; beside it, two facts the
/// crate's `str_width` and `width_in_str` show plainly.
/// - For text made only of printable ASCII characters each character adds
///   one column and no sequence rule applies, so the width is the number of
///   characters.
/// - The width is folded from the last character to the first, and a space
///   always adds one column and passes the default state on (a space starts
///   no emoji sequence). So spaces added before or after `s` add one column
///   each and leave the columns of `s` as they were (while the sum fits in a
///   `usize`, as the crate's wrapping sum does).
/// For other text the crate's ligature and emoji rules are not restated here.
#[verifier::external_body]
pub(crate) fn str_display_width(s: &str) -> (w: usize)
    ensures
        w == str_width(s@),
        printable_ascii(s@) ==> w == s@.len(),
        forall|a: int, b: int|
            0 <= a && 0 <= b && w + a + b <= usize::MAX ==> #[trigger] str_width(
                spaces(a) + s@ + spaces(b),
            ) == w + a + b,
{
    UnicodeWidthStr::width(s)
}

} // verus!
