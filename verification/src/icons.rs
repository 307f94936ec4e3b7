//! Nerd Font icons for files and directories.

use crate::style::{hex, rgb, Color};
use crate::text::{after_last, rsplit_after, same};
use vstd::prelude::*;
use vstd::string::*;

verus! {

pub const DIR_CLOSED: &'static str = "\u{f07b}";

pub const DIR_OPEN: &'static str = "\u{f07c}";

pub const FILE_DEFAULT: &'static str = "\u{f15b}";

pub const DIR_COLOR: u32 = 0x7aa2f7;

/// The icon of a file with a name of its own.
pub open spec fn icon_by_name(name: Seq<char>) -> Option<(Seq<char>, Color)> {
    if name == ".gitignore"@ || name == ".gitattributes"@ || name == ".gitmodules"@ {
        Some(("\u{e702}"@, hex(0xf1502f)))
    } else if name == "Dockerfile"@ {
        Some(("\u{f308}"@, hex(0x458ee6)))
    } else if name == "Makefile"@ {
        Some(("\u{e779}"@, hex(0x6d8086)))
    } else if name == "LICENSE"@ {
        Some(("\u{f2c2}"@, hex(0xcbcb41)))
    } else {
        None
    }
}

/// The icon of a file by its extension.
pub open spec fn icon_by_ext(ext: Seq<char>) -> Option<(Seq<char>, Color)> {
    if ext == "rs"@ {
        Some(("\u{e7a8}"@, hex(0xdea584)))
    } else if ext == "toml"@ {
        Some(("\u{e6b2}"@, hex(0x9c4221)))
    } else if ext == "md"@ || ext == "markdown"@ {
        Some(("\u{f48a}"@, hex(0x519aba)))
    } else if ext == "json"@ {
        Some(("\u{e60b}"@, hex(0xcbcb41)))
    } else if ext == "yml"@ || ext == "yaml"@ {
        Some(("\u{e615}"@, hex(0x6d8086)))
    } else if ext == "js"@ || ext == "mjs"@ || ext == "cjs"@ {
        Some(("\u{e74e}"@, hex(0xcbcb41)))
    } else if ext == "ts"@ || ext == "mts"@ {
        Some(("\u{e628}"@, hex(0x519aba)))
    } else if ext == "tsx"@ || ext == "jsx"@ {
        Some(("\u{e7ba}"@, hex(0x519aba)))
    } else if ext == "sh"@
        || ext == "zsh"@
        || ext == "bash"@
        || ext == "fish"@ {
        Some(("\u{f489}"@, hex(0x4daa57)))
    } else if ext == "py"@ {
        Some(("\u{e73c}"@, hex(0xffbc03)))
    } else if ext == "go"@ {
        Some(("\u{e626}"@, hex(0x519aba)))
    } else if ext == "lua"@ {
        Some(("\u{e620}"@, hex(0x519aba)))
    } else if ext == "vim"@ {
        Some(("\u{e62b}"@, hex(0x019833)))
    } else if ext == "el"@ {
        Some(("\u{e632}"@, hex(0x8358ff)))
    } else if ext == "rb"@ {
        Some(("\u{e21e}"@, hex(0x701516)))
    } else if ext == "c"@ || ext == "h"@ {
        Some(("\u{e61e}"@, hex(0x599eff)))
    } else if ext == "cpp"@ || ext == "cc"@ || ext == "hpp"@ {
        Some(("\u{e61d}"@, hex(0xf347b8)))
    } else if ext == "java"@ {
        Some(("\u{e738}"@, hex(0xcc3e44)))
    } else if ext == "kt"@ || ext == "kts"@ {
        Some(("\u{e634}"@, hex(0x7f52ff)))
    } else if ext == "swift"@ {
        Some(("\u{e755}"@, hex(0xe37933)))
    } else if ext == "html"@ || ext == "htm"@ {
        Some(("\u{e736}"@, hex(0xe34c26)))
    } else if ext == "css"@ || ext == "scss"@ || ext == "sass"@ {
        Some(("\u{e749}"@, hex(0x563d7c)))
    } else if ext == "nix"@ {
        Some(("\u{f313}"@, hex(0x7ebae4)))
    } else if ext == "lock"@ {
        Some(("\u{f023}"@, hex(0x6d8086)))
    } else if ext == "png"@
        || ext == "jpg"@
        || ext == "jpeg"@
        || ext == "gif"@
        || ext == "svg"@
        || ext == "webp"@
        || ext == "ico"@ {
        Some(("\u{f1c5}"@, hex(0xa074c4)))
    } else if ext == "pdf"@ {
        Some(("\u{f1c1}"@, hex(0xb30b00)))
    } else if ext == "zip"@
        || ext == "gz"@
        || ext == "tar"@
        || ext == "xz"@
        || ext == "zst"@ {
        Some(("\u{f410}"@, hex(0xeca517)))
    } else if ext == "org"@ {
        Some(("\u{e633}"@, hex(0x77aa99)))
    } else if ext == "txt"@ {
        Some(("\u{f15c}"@, hex(0x89e051)))
    } else {
        None
    }
}

/// What follows the last dot of a name; nothing where there is none.
pub open spec fn extension(name: Seq<char>) -> Seq<char> {
    if name.contains('.') {
        after_last(name, '.')
    } else {
        ""@
    }
}

/// The icon of a file and its color.
pub open spec fn icon_of(name: Seq<char>) -> (Seq<char>, Color) {
    if icon_by_name(name) is Some {
        icon_by_name(name)->0
    } else if icon_by_ext(extension(name)) is Some {
        icon_by_ext(extension(name))->0
    } else {
        (FILE_DEFAULT@, hex(0x6d8086))
    }
}

/// An icon as a mathematical value.
pub open spec fn opt_icon(o: Option<(&'static str, Color)>) -> Option<(Seq<char>, Color)> {
    match o {
        Some((s, c)) => Some((s@, c)),
        None => None,
    }
}

fn by_name(name: &str) -> (r: Option<(&'static str, Color)>)
    ensures
        opt_icon(r) == icon_by_name(name@),
{
    if same(name, ".gitignore") || same(name, ".gitattributes") || same(name, ".gitmodules") {
        Some(("\u{e702}", rgb(0xf1502f)))
    } else if same(name, "Dockerfile") {
        Some(("\u{f308}", rgb(0x458ee6)))
    } else if same(name, "Makefile") {
        Some(("\u{e779}", rgb(0x6d8086)))
    } else if same(name, "LICENSE") {
        Some(("\u{f2c2}", rgb(0xcbcb41)))
    } else {
        None
    }
}

fn by_ext(ext: &str) -> (r: Option<(&'static str, Color)>)
    ensures
        opt_icon(r) == icon_by_ext(ext@),
{
    if same(ext, "rs") {
        Some(("\u{e7a8}", rgb(0xdea584)))
    } else if same(ext, "toml") {
        Some(("\u{e6b2}", rgb(0x9c4221)))
    } else if same(ext, "md") || same(ext, "markdown") {
        Some(("\u{f48a}", rgb(0x519aba)))
    } else if same(ext, "json") {
        Some(("\u{e60b}", rgb(0xcbcb41)))
    } else if same(ext, "yml") || same(ext, "yaml") {
        Some(("\u{e615}", rgb(0x6d8086)))
    } else if same(ext, "js") || same(ext, "mjs") || same(ext, "cjs") {
        Some(("\u{e74e}", rgb(0xcbcb41)))
    } else if same(ext, "ts") || same(ext, "mts") {
        Some(("\u{e628}", rgb(0x519aba)))
    } else if same(ext, "tsx") || same(ext, "jsx") {
        Some(("\u{e7ba}", rgb(0x519aba)))
    } else if same(ext, "sh")
        || same(ext, "zsh")
        || same(ext, "bash")
        || same(ext, "fish") {
        Some(("\u{f489}", rgb(0x4daa57)))
    } else if same(ext, "py") {
        Some(("\u{e73c}", rgb(0xffbc03)))
    } else if same(ext, "go") {
        Some(("\u{e626}", rgb(0x519aba)))
    } else if same(ext, "lua") {
        Some(("\u{e620}", rgb(0x519aba)))
    } else if same(ext, "vim") {
        Some(("\u{e62b}", rgb(0x019833)))
    } else if same(ext, "el") {
        Some(("\u{e632}", rgb(0x8358ff)))
    } else if same(ext, "rb") {
        Some(("\u{e21e}", rgb(0x701516)))
    } else if same(ext, "c") || same(ext, "h") {
        Some(("\u{e61e}", rgb(0x599eff)))
    } else if same(ext, "cpp") || same(ext, "cc") || same(ext, "hpp") {
        Some(("\u{e61d}", rgb(0xf347b8)))
    } else if same(ext, "java") {
        Some(("\u{e738}", rgb(0xcc3e44)))
    } else if same(ext, "kt") || same(ext, "kts") {
        Some(("\u{e634}", rgb(0x7f52ff)))
    } else if same(ext, "swift") {
        Some(("\u{e755}", rgb(0xe37933)))
    } else if same(ext, "html") || same(ext, "htm") {
        Some(("\u{e736}", rgb(0xe34c26)))
    } else if same(ext, "css") || same(ext, "scss") || same(ext, "sass") {
        Some(("\u{e749}", rgb(0x563d7c)))
    } else if same(ext, "nix") {
        Some(("\u{f313}", rgb(0x7ebae4)))
    } else if same(ext, "lock") {
        Some(("\u{f023}", rgb(0x6d8086)))
    } else if same(ext, "png")
        || same(ext, "jpg")
        || same(ext, "jpeg")
        || same(ext, "gif")
        || same(ext, "svg")
        || same(ext, "webp")
        || same(ext, "ico") {
        Some(("\u{f1c5}", rgb(0xa074c4)))
    } else if same(ext, "pdf") {
        Some(("\u{f1c1}", rgb(0xb30b00)))
    } else if same(ext, "zip")
        || same(ext, "gz")
        || same(ext, "tar")
        || same(ext, "xz")
        || same(ext, "zst") {
        Some(("\u{f410}", rgb(0xeca517)))
    } else if same(ext, "org") {
        Some(("\u{e633}", rgb(0x77aa99)))
    } else if same(ext, "txt") {
        Some(("\u{f15c}", rgb(0x89e051)))
    } else {
        None
    }
}

/// The icon of a file and its color.
pub fn file_icon(name: &str) -> (r: (&'static str, Color))
    ensures
        (r.0@, r.1) == icon_of(name@),
{
    if let Some(icon) = by_name(name) {
        return icon;
    }
    let ext = match rsplit_after(name, '.') {
        Some(e) => e,
        None => "".to_string(),
    };
    if let Some(icon) = by_ext(ext.as_str()) {
        return icon;
    }
    (FILE_DEFAULT, rgb(0x6d8086))
}

} // verus!
