//! The colors, icons and texts that the screen is made of.

use crate::app::{AppV, Area};
use crate::bars::tab_look;
use crate::config::default_config;
use crate::diffview::{backs_of, uni_header};
use crate::git::{FileStatus, FileV};
use crate::icons::{icon_by_name, icon_of};
use crate::parse::Kind;
use crate::row_laws::{known_name, law_icon_by_extension};
use crate::style::{hex, Color, Style};
use crate::tree::RowV;
use crate::tree_pane::{badge_color, dir_spans, file_spans, frame_color, row_line, stats_spans};
use vstd::prelude::*;

verus! {

/// A color as text color alone.
pub open spec fn only_ink(r: u8, g: u8, b: u8) -> Style {
    Style { fg: Some(Color::Rgb(r, g, b)), bg: None, bold: false }
}

/// The colors of statuses: yellow for a modified file, green for an added one, red for a deleted
/// one, magenta for a renamed one, cyan for one that is not tracked, gray else.
pub proof fn law_colors_of_statuses()
    ensures
        hex(badge_color(FileStatus::Modified)) == Color::Rgb(0xf1, 0xfa, 0x8c),
        hex(badge_color(FileStatus::Added)) == Color::Rgb(0x50, 0xfa, 0x7b),
        hex(badge_color(FileStatus::Deleted)) == Color::Rgb(0xff, 0x55, 0x55),
        hex(badge_color(FileStatus::Renamed)) == Color::Rgb(0xff, 0x79, 0xc6),
        hex(badge_color(FileStatus::Untracked)) == Color::Rgb(0x8b, 0xe9, 0xfd),
        hex(badge_color(FileStatus::Other)) == Color::Rgb(0x9a, 0x9d, 0xb2),
{
}

/// The colors of changed lines: dark green for added and dark red for removed ones, lighter where
/// they are emphasised. A header is blue.
pub proof fn law_colors_of_lines(header: Seq<char>)
    ensures
        backs_of(Kind::Add).base == Some(Color::Rgb(0x12, 0x3a, 0x1c)),
        backs_of(Kind::Add).emph == Some(Color::Rgb(0x1c, 0x64, 0x2e)),
        backs_of(Kind::Del).base == Some(Color::Rgb(0x46, 0x1c, 0x1c)),
        backs_of(Kind::Del).emph == Some(Color::Rgb(0x7a, 0x2c, 0x2c)),
        uni_header(header).segs[0].style == only_ink(0x61, 0xaf, 0xef),
{
}

/// The colors of tabs and frames: what has the focus is violet, what is selected elsewhere is
/// blue-gray, and other tabs are gray.
pub proof fn law_colors_of_focus()
    ensures
        tab_look(true, true) == (Style {
            fg: Some(Color::Rgb(0x28, 0x2a, 0x36)),
            bg: Some(Color::Rgb(0xbd, 0x93, 0xf9)),
            bold: true,
        }),
        tab_look(true, false) == (Style {
            fg: Some(Color::Rgb(0xf8, 0xf8, 0xf2)),
            bg: Some(Color::Rgb(0x62, 0x72, 0xa4)),
            bold: false,
        }),
        tab_look(false, true) == only_ink(0x9a, 0x9d, 0xb2),
        tab_look(false, false) == only_ink(0x9a, 0x9d, 0xb2),
        frame_color(true) == Color::Rgb(0xbd, 0x93, 0xf9),
        frame_color(false) == Color::Rgb(0x62, 0x72, 0xa4),
        row_line(seq![], true, true).bg == Some(Color::Rgb(0xbd, 0x93, 0xf9)),
        row_line(seq![], true, false).bg == Some(Color::Rgb(0x44, 0x47, 0x5a)),
{
}

/// Added lines are counted in green and removed ones in red.
pub proof fn law_colors_of_counts(f: FileV)
    requires
        f.added is Some,
        f.deleted is Some,
    ensures
        stats_spans(f)[0].style == only_ink(0x50, 0xfa, 0x7b),
        stats_spans(f)[2].style == only_ink(0xff, 0x55, 0x55),
{
}

/// With icons, a directory has an open or a closed folder behind its arrow, and a file its icon
/// behind its letter, in the color of the icon; nothing else of a row changes.
pub proof fn law_icons_in_rows(row: RowV, f: FileV)
    ensures
        ({
            let with = dir_spans(row, true);
            let without = dir_spans(row, false);
            &&& with.len() == 4
            &&& without == with.remove(2)
            &&& row.expanded ==> with[2].text == "\u{f07c}"@ + " "@
            &&& !row.expanded ==> with[2].text == "\u{f07b}"@ + " "@
            &&& with[2].style == only_ink(0x7a, 0xa2, 0xf7)
        }),
        ({
            let with = file_spans(row, f, true);
            let without = file_spans(row, f, false);
            let name = crate::tree_pane::base_name(row.label);
            &&& with.len() == 4
            &&& without == with.remove(2)
            &&& with[2].text == icon_of(name).0 + " "@
            &&& with[2].style == (Style { fg: Some(icon_of(name).1), bg: None, bold: false })
        }),
{
    assert(dir_spans(row, false) =~= dir_spans(row, true).remove(2));
    assert(file_spans(row, f, false) =~= file_spans(row, f, true).remove(2));
}

/// The icons of files with a name of their own.
pub proof fn law_icons_by_name()
    ensures
        icon_of(".gitignore"@) == ("\u{e702}"@, Color::Rgb(0xf1, 0x50, 0x2f)),
        icon_of(".gitattributes"@) == ("\u{e702}"@, Color::Rgb(0xf1, 0x50, 0x2f)),
        icon_of(".gitmodules"@) == ("\u{e702}"@, Color::Rgb(0xf1, 0x50, 0x2f)),
        icon_of("Dockerfile"@) == ("\u{f308}"@, Color::Rgb(0x45, 0x8e, 0xe6)),
        icon_of("Makefile"@) == ("\u{e779}"@, Color::Rgb(0x6d, 0x80, 0x86)),
        icon_of("LICENSE"@) == ("\u{f2c2}"@, Color::Rgb(0xcb, 0xcb, 0x41)),
{
    reveal_strlit(".gitignore");
    reveal_strlit(".gitattributes");
    reveal_strlit(".gitmodules");
    reveal_strlit("Dockerfile");
    reveal_strlit("Makefile");
    reveal_strlit("LICENSE");
    assert(".gitignore"@.len() == 10 && ".gitattributes"@.len() == 14 && ".gitmodules"@.len() == 11);
    assert("Dockerfile"@[0] == 'D' && "Makefile"@.len() == 8 && "LICENSE"@.len() == 7);
    assert(".gitignore"@[0] == '.');
}

/// A file whose extension is not known, or that has none, has the icon of files.
pub proof fn law_plain_icon(name: Seq<char>)
    requires
        !name.contains('.'),
        !known_name(name),
    ensures
        icon_of(name) == ("\u{f15b}"@, Color::Rgb(0x6d, 0x80, 0x86)),
{
    let none = ""@;
    reveal_strlit("");
    reveal_strlit("rs");
    reveal_strlit("toml");
    reveal_strlit("md");
    reveal_strlit("markdown");
    reveal_strlit("json");
    reveal_strlit("yml");
    reveal_strlit("yaml");
    reveal_strlit("js");
    reveal_strlit("mjs");
    reveal_strlit("cjs");
    reveal_strlit("ts");
    reveal_strlit("mts");
    reveal_strlit("tsx");
    reveal_strlit("jsx");
    reveal_strlit("sh");
    reveal_strlit("zsh");
    reveal_strlit("bash");
    reveal_strlit("fish");
    reveal_strlit("py");
    reveal_strlit("go");
    reveal_strlit("lua");
    reveal_strlit("vim");
    reveal_strlit("el");
    reveal_strlit("rb");
    reveal_strlit("c");
    reveal_strlit("h");
    reveal_strlit("cpp");
    reveal_strlit("cc");
    reveal_strlit("hpp");
    reveal_strlit("java");
    reveal_strlit("kt");
    reveal_strlit("kts");
    reveal_strlit("swift");
    reveal_strlit("html");
    reveal_strlit("htm");
    reveal_strlit("css");
    reveal_strlit("scss");
    reveal_strlit("sass");
    reveal_strlit("nix");
    reveal_strlit("lock");
    reveal_strlit("png");
    reveal_strlit("jpg");
    reveal_strlit("jpeg");
    reveal_strlit("gif");
    reveal_strlit("svg");
    reveal_strlit("webp");
    reveal_strlit("ico");
    reveal_strlit("pdf");
    reveal_strlit("zip");
    reveal_strlit("gz");
    reveal_strlit("tar");
    reveal_strlit("xz");
    reveal_strlit("zst");
    reveal_strlit("org");
    reveal_strlit("txt");
    assert(none.len() == 0);
    assert(icon_by_name(name) is None);
}

/// The icons of files by what stands behind the last dot of their name, whatever stands before it.
#[verifier::rlimit(60)]
pub proof fn law_icons_by_extension(stem: Seq<char>, ext: Seq<char>)
    requires
        !ext.contains('.'),
        !known_name(stem + seq!['.'] + ext),
    ensures
        ext == "rs"@ ==> icon_of(stem + seq!['.'] + ext) == (
            "\u{e7a8}"@,
            Color::Rgb(0xde, 0xa5, 0x84),
        ),
        ext == "toml"@ ==> icon_of(stem + seq!['.'] + ext) == (
            "\u{e6b2}"@,
            Color::Rgb(0x9c, 0x42, 0x21),
        ),
        ext == "md"@ || ext == "markdown"@ ==> icon_of(stem + seq!['.'] + ext) == (
            "\u{f48a}"@,
            Color::Rgb(0x51, 0x9a, 0xba),
        ),
        ext == "json"@ ==> icon_of(stem + seq!['.'] + ext) == (
            "\u{e60b}"@,
            Color::Rgb(0xcb, 0xcb, 0x41),
        ),
        ext == "yml"@ || ext == "yaml"@ ==> icon_of(stem + seq!['.'] + ext) == (
            "\u{e615}"@,
            Color::Rgb(0x6d, 0x80, 0x86),
        ),
        ext == "js"@ || ext == "mjs"@ || ext == "cjs"@ ==> icon_of(stem + seq!['.'] + ext) == (
            "\u{e74e}"@,
            Color::Rgb(0xcb, 0xcb, 0x41),
        ),
        ext == "ts"@ || ext == "mts"@ ==> icon_of(stem + seq!['.'] + ext) == (
            "\u{e628}"@,
            Color::Rgb(0x51, 0x9a, 0xba),
        ),
        ext == "tsx"@ || ext == "jsx"@ ==> icon_of(stem + seq!['.'] + ext) == (
            "\u{e7ba}"@,
            Color::Rgb(0x51, 0x9a, 0xba),
        ),
        ext == "sh"@
            || ext == "zsh"@
            || ext == "bash"@
            || ext == "fish"@ ==> icon_of(stem + seq!['.'] + ext) == (
            "\u{f489}"@,
            Color::Rgb(0x4d, 0xaa, 0x57),
        ),
        ext == "py"@ ==> icon_of(stem + seq!['.'] + ext) == (
            "\u{e73c}"@,
            Color::Rgb(0xff, 0xbc, 0x03),
        ),
        ext == "go"@ ==> icon_of(stem + seq!['.'] + ext) == (
            "\u{e626}"@,
            Color::Rgb(0x51, 0x9a, 0xba),
        ),
        ext == "lua"@ ==> icon_of(stem + seq!['.'] + ext) == (
            "\u{e620}"@,
            Color::Rgb(0x51, 0x9a, 0xba),
        ),
        ext == "vim"@ ==> icon_of(stem + seq!['.'] + ext) == (
            "\u{e62b}"@,
            Color::Rgb(0x01, 0x98, 0x33),
        ),
        ext == "el"@ ==> icon_of(stem + seq!['.'] + ext) == (
            "\u{e632}"@,
            Color::Rgb(0x83, 0x58, 0xff),
        ),
        ext == "rb"@ ==> icon_of(stem + seq!['.'] + ext) == (
            "\u{e21e}"@,
            Color::Rgb(0x70, 0x15, 0x16),
        ),
        ext == "c"@ || ext == "h"@ ==> icon_of(stem + seq!['.'] + ext) == (
            "\u{e61e}"@,
            Color::Rgb(0x59, 0x9e, 0xff),
        ),
        ext == "cpp"@ || ext == "cc"@ || ext == "hpp"@ ==> icon_of(stem + seq!['.'] + ext) == (
            "\u{e61d}"@,
            Color::Rgb(0xf3, 0x47, 0xb8),
        ),
        ext == "java"@ ==> icon_of(stem + seq!['.'] + ext) == (
            "\u{e738}"@,
            Color::Rgb(0xcc, 0x3e, 0x44),
        ),
        ext == "kt"@ || ext == "kts"@ ==> icon_of(stem + seq!['.'] + ext) == (
            "\u{e634}"@,
            Color::Rgb(0x7f, 0x52, 0xff),
        ),
        ext == "swift"@ ==> icon_of(stem + seq!['.'] + ext) == (
            "\u{e755}"@,
            Color::Rgb(0xe3, 0x79, 0x33),
        ),
        ext == "html"@ || ext == "htm"@ ==> icon_of(stem + seq!['.'] + ext) == (
            "\u{e736}"@,
            Color::Rgb(0xe3, 0x4c, 0x26),
        ),
        ext == "css"@ || ext == "scss"@ || ext == "sass"@ ==> icon_of(stem + seq!['.'] + ext) == (
            "\u{e749}"@,
            Color::Rgb(0x56, 0x3d, 0x7c),
        ),
        ext == "nix"@ ==> icon_of(stem + seq!['.'] + ext) == (
            "\u{f313}"@,
            Color::Rgb(0x7e, 0xba, 0xe4),
        ),
        ext == "lock"@ ==> icon_of(stem + seq!['.'] + ext) == (
            "\u{f023}"@,
            Color::Rgb(0x6d, 0x80, 0x86),
        ),
        ext == "png"@
            || ext == "jpg"@
            || ext == "jpeg"@
            || ext == "gif"@
            || ext == "svg"@
            || ext == "webp"@
            || ext == "ico"@ ==> icon_of(stem + seq!['.'] + ext) == (
            "\u{f1c5}"@,
            Color::Rgb(0xa0, 0x74, 0xc4),
        ),
        ext == "pdf"@ ==> icon_of(stem + seq!['.'] + ext) == (
            "\u{f1c1}"@,
            Color::Rgb(0xb3, 0x0b, 0x00),
        ),
        ext == "zip"@
            || ext == "gz"@
            || ext == "tar"@
            || ext == "xz"@
            || ext == "zst"@ ==> icon_of(stem + seq!['.'] + ext) == (
            "\u{f410}"@,
            Color::Rgb(0xec, 0xa5, 0x17),
        ),
        ext == "org"@ ==> icon_of(stem + seq!['.'] + ext) == (
            "\u{e633}"@,
            Color::Rgb(0x77, 0xaa, 0x99),
        ),
        ext == "txt"@ ==> icon_of(stem + seq!['.'] + ext) == (
            "\u{f15c}"@,
            Color::Rgb(0x89, 0xe0, 0x51),
        ),
{
    reveal_strlit("rs");
    assert("rs"@[0] == 'r' && "rs"@[1] == 's');
    reveal_strlit("toml");
    assert("toml"@[0] == 't' && "toml"@[1] == 'o' && "toml"@[2] == 'm' && "toml"@[3] == 'l');
    reveal_strlit("md");
    assert("md"@[0] == 'm' && "md"@[1] == 'd');
    reveal_strlit("markdown");
    assert("markdown"@[0] == 'm' && "markdown"@[1] == 'a' && "markdown"@[2] == 'r' && "markdown"@[3] == 'k');
    reveal_strlit("json");
    assert("json"@[0] == 'j' && "json"@[1] == 's' && "json"@[2] == 'o' && "json"@[3] == 'n');
    reveal_strlit("yml");
    assert("yml"@[0] == 'y' && "yml"@[1] == 'm' && "yml"@[2] == 'l');
    reveal_strlit("yaml");
    assert("yaml"@[0] == 'y' && "yaml"@[1] == 'a' && "yaml"@[2] == 'm' && "yaml"@[3] == 'l');
    reveal_strlit("js");
    assert("js"@[0] == 'j' && "js"@[1] == 's');
    reveal_strlit("mjs");
    assert("mjs"@[0] == 'm' && "mjs"@[1] == 'j' && "mjs"@[2] == 's');
    reveal_strlit("cjs");
    assert("cjs"@[0] == 'c' && "cjs"@[1] == 'j' && "cjs"@[2] == 's');
    reveal_strlit("ts");
    assert("ts"@[0] == 't' && "ts"@[1] == 's');
    reveal_strlit("mts");
    assert("mts"@[0] == 'm' && "mts"@[1] == 't' && "mts"@[2] == 's');
    reveal_strlit("tsx");
    assert("tsx"@[0] == 't' && "tsx"@[1] == 's' && "tsx"@[2] == 'x');
    reveal_strlit("jsx");
    assert("jsx"@[0] == 'j' && "jsx"@[1] == 's' && "jsx"@[2] == 'x');
    reveal_strlit("sh");
    assert("sh"@[0] == 's' && "sh"@[1] == 'h');
    reveal_strlit("zsh");
    assert("zsh"@[0] == 'z' && "zsh"@[1] == 's' && "zsh"@[2] == 'h');
    reveal_strlit("bash");
    assert("bash"@[0] == 'b' && "bash"@[1] == 'a' && "bash"@[2] == 's' && "bash"@[3] == 'h');
    reveal_strlit("fish");
    assert("fish"@[0] == 'f' && "fish"@[1] == 'i' && "fish"@[2] == 's' && "fish"@[3] == 'h');
    reveal_strlit("py");
    assert("py"@[0] == 'p' && "py"@[1] == 'y');
    reveal_strlit("go");
    assert("go"@[0] == 'g' && "go"@[1] == 'o');
    reveal_strlit("lua");
    assert("lua"@[0] == 'l' && "lua"@[1] == 'u' && "lua"@[2] == 'a');
    reveal_strlit("vim");
    assert("vim"@[0] == 'v' && "vim"@[1] == 'i' && "vim"@[2] == 'm');
    reveal_strlit("el");
    assert("el"@[0] == 'e' && "el"@[1] == 'l');
    reveal_strlit("rb");
    assert("rb"@[0] == 'r' && "rb"@[1] == 'b');
    reveal_strlit("c");
    assert("c"@[0] == 'c');
    reveal_strlit("h");
    assert("h"@[0] == 'h');
    reveal_strlit("cpp");
    assert("cpp"@[0] == 'c' && "cpp"@[1] == 'p' && "cpp"@[2] == 'p');
    reveal_strlit("cc");
    assert("cc"@[0] == 'c' && "cc"@[1] == 'c');
    reveal_strlit("hpp");
    assert("hpp"@[0] == 'h' && "hpp"@[1] == 'p' && "hpp"@[2] == 'p');
    reveal_strlit("java");
    assert("java"@[0] == 'j' && "java"@[1] == 'a' && "java"@[2] == 'v' && "java"@[3] == 'a');
    reveal_strlit("kt");
    assert("kt"@[0] == 'k' && "kt"@[1] == 't');
    reveal_strlit("kts");
    assert("kts"@[0] == 'k' && "kts"@[1] == 't' && "kts"@[2] == 's');
    reveal_strlit("swift");
    assert("swift"@[0] == 's' && "swift"@[1] == 'w' && "swift"@[2] == 'i' && "swift"@[3] == 'f');
    reveal_strlit("html");
    assert("html"@[0] == 'h' && "html"@[1] == 't' && "html"@[2] == 'm' && "html"@[3] == 'l');
    reveal_strlit("htm");
    assert("htm"@[0] == 'h' && "htm"@[1] == 't' && "htm"@[2] == 'm');
    reveal_strlit("css");
    assert("css"@[0] == 'c' && "css"@[1] == 's' && "css"@[2] == 's');
    reveal_strlit("scss");
    assert("scss"@[0] == 's' && "scss"@[1] == 'c' && "scss"@[2] == 's' && "scss"@[3] == 's');
    reveal_strlit("sass");
    assert("sass"@[0] == 's' && "sass"@[1] == 'a' && "sass"@[2] == 's' && "sass"@[3] == 's');
    reveal_strlit("nix");
    assert("nix"@[0] == 'n' && "nix"@[1] == 'i' && "nix"@[2] == 'x');
    reveal_strlit("lock");
    assert("lock"@[0] == 'l' && "lock"@[1] == 'o' && "lock"@[2] == 'c' && "lock"@[3] == 'k');
    reveal_strlit("png");
    assert("png"@[0] == 'p' && "png"@[1] == 'n' && "png"@[2] == 'g');
    reveal_strlit("jpg");
    assert("jpg"@[0] == 'j' && "jpg"@[1] == 'p' && "jpg"@[2] == 'g');
    reveal_strlit("jpeg");
    assert("jpeg"@[0] == 'j' && "jpeg"@[1] == 'p' && "jpeg"@[2] == 'e' && "jpeg"@[3] == 'g');
    reveal_strlit("gif");
    assert("gif"@[0] == 'g' && "gif"@[1] == 'i' && "gif"@[2] == 'f');
    reveal_strlit("svg");
    assert("svg"@[0] == 's' && "svg"@[1] == 'v' && "svg"@[2] == 'g');
    reveal_strlit("webp");
    assert("webp"@[0] == 'w' && "webp"@[1] == 'e' && "webp"@[2] == 'b' && "webp"@[3] == 'p');
    reveal_strlit("ico");
    assert("ico"@[0] == 'i' && "ico"@[1] == 'c' && "ico"@[2] == 'o');
    reveal_strlit("pdf");
    assert("pdf"@[0] == 'p' && "pdf"@[1] == 'd' && "pdf"@[2] == 'f');
    reveal_strlit("zip");
    assert("zip"@[0] == 'z' && "zip"@[1] == 'i' && "zip"@[2] == 'p');
    reveal_strlit("gz");
    assert("gz"@[0] == 'g' && "gz"@[1] == 'z');
    reveal_strlit("tar");
    assert("tar"@[0] == 't' && "tar"@[1] == 'a' && "tar"@[2] == 'r');
    reveal_strlit("xz");
    assert("xz"@[0] == 'x' && "xz"@[1] == 'z');
    reveal_strlit("zst");
    assert("zst"@[0] == 'z' && "zst"@[1] == 's' && "zst"@[2] == 't');
    reveal_strlit("org");
    assert("org"@[0] == 'o' && "org"@[1] == 'r' && "org"@[2] == 'g');
    reveal_strlit("txt");
    assert("txt"@[0] == 't' && "txt"@[1] == 'x' && "txt"@[2] == 't');
    law_icon_by_extension(stem, stem, ext);
}

/// What is in effect where nothing is configured.
pub proof fn law_defaults()
    ensures
        ({
            let c = default_config();
            &&& c.base == "auto"@
            &&& c.poll_ms == 2000
            &&& c.narrow_cols == 100
            &&& c.icons
            &&& c.split_pct == 38
            &&& c.theme == "base16-ocean.dark"@
            &&& c.wrap
            &&& c.default == ""@
            &&& c.openers.len() == 0
        }),
{
}

/// The help names the keys of the area that has the focus, and those that work everywhere.
pub proof fn law_help(a: AppV)
    ensures
        ({
            let always = "  C-j/C-k:area  {}:worktree  []:history  q:quit"@;
            &&& a.focus == Area::Worktree ==> a.help_text() == " "@
                + "[worktree] h/l:select  Enter:history  1-9:jump"@ + always
            &&& a.focus == Area::History ==> a.help_text() == " "@
                + "[history] h/l:select  Enter:files  Esc:worktree"@ + always
            &&& a.focus == Area::Tree ==> a.help_text() == " "@
                + "[tree] j/k:move  h/l:fold/expand  t:flat  /:filter  o:open  O:system  f:follow"@
                + always
            &&& a.focus == Area::Diff ==> a.help_text() == " "@
                + "[diff] j/k:scroll  n/p:hunk  J/K:file  s:layout  w:wrap  h:back"@ + always
        }),
{
}

} // verus!
