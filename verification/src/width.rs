//! Display widths, answered by the `unicode-width` crate.

use unicode_width::{UnicodeWidthChar, UnicodeWidthStr};
use vstd::prelude::*;

verus! {

/// What `UnicodeWidthStr::width` returns for a string with these characters.
/// The crate's rules (UAX #11 widths plus emoji and script ligatures) are its
/// own and are not restated here.
pub uninterp spec fn str_width(s: Seq<char>) -> usize;

/// What `UnicodeWidthChar::width` returns for `c`: `None` for control
/// characters, otherwise the column count.
pub uninterp spec fn char_width(c: char) -> Option<usize>;

/// Calls `UnicodeWidthStr::width`. Claimed beyond the name: the empty string
/// is zero columns wide (the crate folds over no characters), and a string of
/// printable ASCII only (U+0020 to U+007E) is as wide as it is long (each such
/// character adds one column and leaves the fold in its default state).
#[verifier::external_body]
pub(crate) fn display_width(s: &str) -> (r: usize)
    ensures
        r == str_width(s@),
        s@.len() == 0 ==> r == 0,
        (forall|i: int| 0 <= i < s@.len() ==> 0x20 <= (#[trigger] s@[i] as u32) < 0x7F) ==> r
            == s@.len(),
{
    s.width()
}

/// Calls `UnicodeWidthChar::width`. Claimed beyond the name: printable ASCII
/// (U+0020 to U+007E) is one column, and U+0000..U+001F and U+007F..U+009F
/// are control characters with no width, as `single_char_width` decides first.
#[verifier::external_body]
pub(crate) fn char_display_width(c: char) -> (r: Option<usize>)
    ensures
        r == char_width(c),
        0x20 <= (c as u32) < 0x7F ==> r == Some(1usize),
        ((c as u32) < 0x20 || (0x7F <= (c as u32) < 0xA0)) ==> r is None,
{
    c.width()
}

} // verus!
