//! Syntax colors for the lines of a file.

use crate::text::{after_last, begins, rsplit_after};
use syntect::easy::HighlightLines;
use syntect::highlighting::{Theme, ThemeSet};
use syntect::parsing::SyntaxSet;
use vstd::prelude::*;
use vstd::string::*;

verus! {

#[verifier::external_type_specification]
#[verifier::external_body]
pub struct ExSyntaxSet(SyntaxSet);

#[verifier::external_type_specification]
#[verifier::external_body]
pub struct ExTheme(Theme);

#[verifier::external_type_specification]
#[verifier::external_body]
pub struct ExHighlightLines<'a>(HighlightLines<'a>);

// ---- Themes --------------------------------------------------------------------

/// The theme that stands in for one that is not bundled.
pub const FALLBACK_THEME: &'static str = "base16-ocean.dark";

/// Whether `syntect` bundles a theme of this name.
pub open spec fn is_bundled(name: Seq<char>) -> bool {
    ||| name == "base16-ocean.dark"@
    ||| name == "base16-eighties.dark"@
    ||| name == "base16-mocha.dark"@
    ||| name == "base16-ocean.light"@
    ||| name == "InspiredGitHub"@
    ||| name == "Solarized (dark)"@
    ||| name == "Solarized (light)"@
}

/// The name under which `syntect` bundles a theme.
pub uninterp spec fn bundled_as(theme: Theme) -> Seq<char>;

/// Whether these are the bundled syntaxes, for lines that end in a newline.
pub uninterp spec fn bundled_set(ss: SyntaxSet) -> bool;

/// `ThemeSet::load_defaults`, of which one theme is taken: the set holds seven themes, under
/// the names that its documentation lists.
#[verifier::external_body]
fn bundled_theme(name: &str) -> (r: Option<Theme>)
    ensures
        r is Some <==> is_bundled(name@),
        r matches Some(t) ==> bundled_as(t) == name@,
{
    ThemeSet::load_defaults().themes.remove(name)
}

/// `SyntaxSet::load_defaults_newlines`: the bundled syntaxes, for lines that end in a newline.
#[verifier::external_body]
fn bundled_syntaxes() -> (r: SyntaxSet)
    ensures
        bundled_set(r),
{
    SyntaxSet::load_defaults_newlines()
}

/// The bundled syntaxes and one theme.
pub struct Highlighter {
    ss: SyntaxSet,
    theme: Theme,
}

impl Highlighter {
    /// The syntaxes are the bundled ones.
    #[verifier::type_invariant]
    spec fn with_bundled_syntaxes(self) -> bool {
        bundled_set(self.ss)
    }

    /// The name of the theme in use.
    pub closed spec fn theme_name(&self) -> Seq<char> {
        bundled_as(self.theme)
    }

    /// A highlighter with the named theme, or with the fallback theme where that is not bundled.
    pub fn new(theme_name: &str) -> (r: Highlighter)
        ensures
            r.theme_name() == (if is_bundled(theme_name@) {
                theme_name@
            } else {
                FALLBACK_THEME@
            }),
    {
        let ss = bundled_syntaxes();
        match bundled_theme(theme_name) {
            Some(theme) => Highlighter { ss, theme },
            None => Highlighter { ss, theme: bundled_theme(FALLBACK_THEME).unwrap() },
        }
    }
}

// ---- One side of a diff --------------------------------------------------------

/// Whether a bundled syntax claims this file extension.
pub uninterp spec fn syntax_known(ext: Seq<char>) -> bool;

/// The colored pieces that `syntect` splits a line into, under a theme and the syntax of a file
/// extension (plain text for `None`), after the lines that were fed before; `None` for a line
/// that it fails on.
pub uninterp spec fn highlighted(
    theme: Seq<char>,
    ext: Option<Seq<char>>,
    fed: Seq<Seq<char>>,
    line: Seq<char>,
) -> Option<Seq<((u8, u8, u8), Seq<char>)>>;

/// A piece of a line and its color.
pub type Piece = ((u8, u8, u8), String);

/// The values of a list of pieces.
pub open spec fn pieces_view(v: Seq<Piece>) -> Seq<((u8, u8, u8), Seq<char>)> {
    v.map_values(|p: Piece| (p.0, p.1@))
}

/// The text of the pieces, joined.
pub open spec fn pieces_text(v: Seq<((u8, u8, u8), Seq<char>)>) -> Seq<char>
    decreases v.len(),
{
    if v.len() == 0 {
        seq![]
    } else {
        pieces_text(v.drop_last()) + v.last().1
    }
}

/// The name of the theme that lines are colored with.
pub uninterp spec fn lines_theme(lines: HighlightLines) -> Seq<char>;

/// The file extension by whose syntax lines are colored; `None` for plain text.
pub uninterp spec fn lines_ext(lines: HighlightLines) -> Option<Seq<char>>;

/// The lines that were colored so far.
pub uninterp spec fn lines_fed(lines: HighlightLines) -> Seq<Seq<char>>;

/// A highlighter at work on the successive lines of one side of a diff.
pub struct Side<'a> {
    lines: HighlightLines<'a>,
    hi: &'a Highlighter,
}

/// `SyntaxSet::find_syntax_by_extension` and, on the syntax that it finds,
/// `HighlightLines::new`: a start with the theme and that syntax.
#[verifier::external_body]
fn lines_by_extension<'a>(ss: &'a SyntaxSet, theme: &'a Theme, ext: &str) -> (r: Option<
    HighlightLines<'a>,
>)
    requires
        bundled_set(*ss),
    ensures
        r is Some <==> syntax_known(ext@),
        r matches Some(h) ==> {
            &&& lines_theme(h) == bundled_as(*theme)
            &&& lines_ext(h) == Some(ext@)
            &&& lines_fed(h) == Seq::<Seq<char>>::empty()
        },
{
    ss.find_syntax_by_extension(ext).map(|s| HighlightLines::new(s, theme))
}

/// `SyntaxSet::find_syntax_plain_text`, which the bundled syntaxes hold, and
/// `HighlightLines::new` on it: a start with the theme and no syntax.
#[verifier::external_body]
fn lines_plain_text<'a>(ss: &'a SyntaxSet, theme: &'a Theme) -> (r: HighlightLines<'a>)
    requires
        bundled_set(*ss),
    ensures
        lines_theme(r) == bundled_as(*theme),
        lines_ext(r) is None,
        lines_fed(r) == Seq::<Seq<char>>::empty(),
{
    HighlightLines::new(ss.find_syntax_plain_text(), theme)
}

/// `HighlightLines::highlight_line`: colors the next line. The pieces, one after the other, are
/// the line or, where the scopes of the syntax do not match up, a first part of it.
#[verifier::external_body]
fn feed(lines: &mut HighlightLines, ss: &SyntaxSet, line: &str) -> (r: Option<Vec<Piece>>)
    requires
        bundled_set(*ss),
    ensures
        lines_theme(*final(lines)) == lines_theme(*old(lines)),
        lines_ext(*final(lines)) == lines_ext(*old(lines)),
        lines_fed(*final(lines)) == lines_fed(*old(lines)).push(line@),
        (match r {
            Some(v) => Some(pieces_view(v@)),
            None => None,
        }) == highlighted(
            lines_theme(*old(lines)),
            lines_ext(*old(lines)),
            lines_fed(*old(lines)),
            line@,
        ),
        r matches Some(v) ==> begins(line@, pieces_text(pieces_view(v@))),
{
    let pieces = lines.highlight_line(line, ss).ok()?.into_iter().map(|(st, t)| {
        let c = st.foreground;
        ((c.r, c.g, c.b), t.to_string())
    });
    Some(pieces.collect())
}

/// The file extension by which the syntax of a file is found: what follows the last dot of the
/// path, else the file's name; `None` where neither is known.
pub open spec fn ext_of(path: Seq<char>) -> Option<Seq<char>> {
    if path.contains('.') && syntax_known(after_last(path, '.')) {
        Some(after_last(path, '.'))
    } else if syntax_known(after_last(path, '/')) {
        Some(after_last(path, '/'))
    } else {
        None
    }
}

impl<'a> Side<'a> {
    /// The theme in use.
    pub closed spec fn theme(&self) -> Seq<char> {
        lines_theme(self.lines)
    }

    /// The file extension whose syntax is in use.
    pub closed spec fn ext(&self) -> Option<Seq<char>> {
        lines_ext(self.lines)
    }

    /// The lines fed so far.
    pub closed spec fn fed(&self) -> Seq<Seq<char>> {
        lines_fed(self.lines)
    }

    /// Start on a file.
    pub fn open(hi: &'a Highlighter, path: &str) -> (r: Side<'a>)
        ensures
            r.theme() == hi.theme_name(),
            r.ext() == ext_of(path@),
            r.fed() == Seq::<Seq<char>>::empty(),
    {
        proof {
            use_type_invariant(hi);
        }
        if let Some(ext) = rsplit_after(path, '.') {
            if let Some(lines) = lines_by_extension(&hi.ss, &hi.theme, ext.as_str()) {
                return Side { lines, hi };
            }
        }
        let name = match rsplit_after(path, '/') {
            Some(n) => n,
            None => path.to_string(),
        };
        assert(name@ == after_last(path@, '/'));
        if let Some(lines) = lines_by_extension(&hi.ss, &hi.theme, name.as_str()) {
            return Side { lines, hi };
        }
        Side { lines: lines_plain_text(&hi.ss, &hi.theme), hi }
    }

    /// Color the next line. `line` ends in a newline.
    pub fn paint(&mut self, line: &str) -> (r: Vec<Piece>)
        ensures
            final(self).theme() == old(self).theme(),
            final(self).ext() == old(self).ext(),
            final(self).fed() == old(self).fed().push(line@),
            pieces_view(r@) == painted(old(self).theme(), old(self).ext(), old(self).fed(), line@),
            begins(line@, pieces_text(pieces_view(r@))),
    {
        proof {
            use_type_invariant(self.hi);
        }
        match feed(&mut self.lines, &self.hi.ss, line) {
            Some(v) => v,
            None => {
                let mut v: Vec<Piece> = Vec::new();
                v.push(((0, 0, 0), line.to_string()));
                proof {
                    reveal_with_fuel(pieces_text, 2);
                    let w = pieces_view(v@);
                    assert(w =~= seq![((0u8, 0u8, 0u8), line@)]);
                    assert(w.drop_last() =~= Seq::<((u8, u8, u8), Seq<char>)>::empty());
                    assert(pieces_text(w) =~= line@);
                    assert(line@.take(line@.len() as int) =~= line@);
                }
                v
            },
        }
    }
}

/// The colored pieces of a line; a line that cannot be colored is one black piece.
pub open spec fn painted(
    theme: Seq<char>,
    ext: Option<Seq<char>>,
    fed: Seq<Seq<char>>,
    line: Seq<char>,
) -> Seq<((u8, u8, u8), Seq<char>)> {
    match highlighted(theme, ext, fed, line) {
        Some(v) => v,
        None => seq![((0u8, 0u8, 0u8), line)],
    }
}

} // verus!
