//! Display widths of characters and strings.

use unicode_width::UnicodeWidthChar;
use unicode_width::UnicodeWidthStr;
use vstd::prelude::*;

verus! {

/// The number of columns that `unicode_width` gives a character; `None` for a control character.
pub uninterp spec fn char_columns(c: char) -> Option<usize>;

/// The number of columns that `unicode_width` gives a string.
pub uninterp spec fn str_columns(s: Seq<char>) -> usize;

/// `UnicodeWidthChar::width`: the columns that a character takes, `None` for a control
/// character. A width is read from a table of two-bit entries, so it is at most three.
#[verifier::external_body]
pub(crate) fn char_width(c: char) -> (r: Option<usize>)
    ensures
        r == char_columns(c),
        r matches Some(w) ==> w <= 3,
{
    UnicodeWidthChar::width(c)
}

/// `UnicodeWidthStr::width`: the columns that a string takes.
#[verifier::external_body]
pub(crate) fn str_width(s: &str) -> (r: usize)
    ensures
        r == str_columns(s@),
{
    UnicodeWidthStr::width(s)
}

/// The columns that a character takes on a line; a control character takes none.
pub open spec fn cell(c: char) -> nat {
    match char_columns(c) {
        Some(w) => w as nat,
        None => 0,
    }
}

/// The columns that a character takes on a line.
pub fn cell_width(c: char) -> (r: usize)
    ensures
        r == cell(c),
        r <= 3,
{
    match char_width(c) {
        Some(w) => w,
        None => 0,
    }
}

} // verus!
