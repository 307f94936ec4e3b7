//! Colors and text styles, and styled pieces of text.

use vstd::prelude::*;

verus! {

/// A terminal color.
#[derive(Clone, Copy, Debug, PartialEq, Eq, Structural)]
pub enum Color {
    /// The terminal's own color
    Reset,
    /// Red, green, blue
    Rgb(u8, u8, u8),
}

/// The color that a number such as `0x1c642e` denotes: red, green and blue, a byte each.
pub open spec fn hex(n: u32) -> Color {
    Color::Rgb((n / 0x1_0000 % 0x100) as u8, (n / 0x100 % 0x100) as u8, (n % 0x100) as u8)
}

/// The color that a number such as `0x1c642e` denotes.
#[verifier::when_used_as_spec(hex)]
pub fn rgb(n: u32) -> (r: Color)
    ensures
        r == hex(n),
{
    Color::Rgb((n / 0x1_0000 % 0x100) as u8, (n / 0x100 % 0x100) as u8, (n % 0x100) as u8)
}

/// How a piece of text is drawn. What is `None` is left to the terminal.
#[derive(Clone, Copy, Debug, PartialEq, Eq)]
pub struct Style {
    pub fg: Option<Color>,
    pub bg: Option<Color>,
    pub bold: bool,
}

/// The style that leaves everything to the terminal.
pub open spec fn plain() -> Style {
    Style { fg: None, bg: None, bold: false }
}

/// The plain style in the color `c`.
pub open spec fn inked(c: Color) -> Style {
    Style { fg: Some(c), bg: None, bold: false }
}

impl Style {
    /// A style that leaves everything to the terminal.
    pub fn plain() -> (r: Style)
        ensures
            r == plain(),
    {
        Style { fg: None, bg: None, bold: false }
    }

    /// A style with the foreground `c`.
    pub fn ink(c: Color) -> (r: Style)
        ensures
            r == inked(c),
    {
        Style { fg: Some(c), bg: None, bold: false }
    }

    /// A style with the foreground `c`, in bold.
    pub fn bold_ink(c: Color) -> (r: Style)
        ensures
            r == (Style { bold: true, ..inked(c) }),
    {
        Style { fg: Some(c), bg: None, bold: true }
    }
}

/// A piece of text in one style.
#[derive(Debug)]
pub struct Seg {
    pub style: Style,
    pub text: String,
}

/// A piece of text in one style, as a mathematical value.
#[verifier::ext_equal]
pub struct SegV {
    pub style: Style,
    pub text: Seq<char>,
}

impl View for Seg {
    type V = SegV;

    open spec fn view(&self) -> SegV {
        SegV { style: self.style, text: self.text@ }
    }
}

/// The values of a sequence of pieces.
pub open spec fn segs_view(v: Seq<Seg>) -> Seq<SegV> {
    v.map_values(|s: Seg| s@)
}

/// The text of a sequence of pieces, joined.
pub open spec fn joined(v: Seq<SegV>) -> Seq<char>
    decreases v.len(),
{
    if v.len() == 0 {
        seq![]
    } else {
        joined(v.drop_last()) + v.last().text
    }
}

/// The text of two sequences of pieces is the text of the one and then of the other.
pub proof fn lemma_joined_add(a: Seq<SegV>, b: Seq<SegV>)
    ensures
        joined(a + b) == joined(a) + joined(b),
    decreases b.len(),
{
    if b.len() == 0 {
        assert(a + b =~= a);
        assert(joined(a) + joined(b) =~= joined(a));
    } else {
        lemma_joined_add(a, b.drop_last());
        assert((a + b).drop_last() =~= a + b.drop_last());
        assert(joined(a) + (joined(b.drop_last()) + b.last().text) =~= (joined(a) + joined(
            b.drop_last(),
        )) + b.last().text);
    }
}

impl Seg {
    /// A piece of text in one style.
    pub fn new(style: Style, text: &str) -> (r: Seg)
        ensures
            r@ == (SegV { style, text: text@ }),
    {
        Seg { style, text: text.to_string() }
    }
}

impl Clone for Seg {
    fn clone(&self) -> (r: Self)
        ensures
            r == *self,
    {
        Seg { style: self.style, text: self.text.clone() }
    }
}

/// Move every piece of `more` to the end of `out`.
pub fn append_segs(out: &mut Vec<Seg>, more: Vec<Seg>)
    ensures
        final(out)@ == old(out)@ + more@,
{
    let mut more = more;
    out.append(&mut more);
}

} // verus!
