use syntect::easy::HighlightLines;
use syntect::highlighting::ThemeSet;
use syntect::parsing::SyntaxSet;
use wtd::diffview::{
    build_doc, styled_segs, Backs, DiffDoc, Hl, SRow, BG_ADD, BG_ADD_EMPH, BG_DEL, BG_DEL_EMPH,
    FG_HUNK,
};
use wtd::highlight::{Highlighter, Piece};
use wtd::parse::{parse, parse_no, sanitize, scan, Kind};
use wtd::style::{rgb, Color, Seg};
use wtd::tokens::{marks_of, tokenize, word_emphasis, EditOp};
use wtd::wrap::{build_offsets_sxs, build_offsets_uni};

const DIFF: &str = "diff --git a/x b/x\n--- a/x\n+++ b/x\n@@ -3,2 +5,3 @@ fn f\n ctx\n\
-old one\n+new one\n+more\n\\ No newline at end of file\n";

fn joined(segs: &[Seg]) -> String {
    segs.iter().map(|s| s.text.as_str()).collect()
}

fn strings(v: &[&str]) -> Vec<String> {
    v.iter().map(|s| s.to_string()).collect()
}

#[test]
fn control_characters_are_replaced() {
    assert_eq!(sanitize("a\tb\u{1}\u{7f}c"), "a    b  c");
    assert_eq!(sanitize("plain 漢"), "plain 漢");
    // Cleaning twice is cleaning once
    assert_eq!(sanitize(&sanitize("\t\u{0}x")), sanitize("\t\u{0}x"));
}

#[test]
fn text_is_cut_into_tokens() {
    assert_eq!(
        tokenize("let foo_1 = x+é2;"),
        vec!["let", " ", "foo_1", " ", "=", " ", "x", "+", "é2", ";"]
    );
    assert!(tokenize("").is_empty());
    assert_eq!(tokenize("  ").len(), 2);
    assert_eq!(tokenize("let foo_1 = x+é2;").concat(), "let foo_1 = x+é2;");
}

#[test]
fn changed_words_are_marked() {
    assert_eq!(word_emphasis("let a = 1;", "let bb = 1;"), (vec![(4, 5)], vec![(4, 6)]));
    assert_eq!(word_emphasis("same", "same"), (vec![], vec![]));
    assert_eq!(word_emphasis("x y", "x"), (vec![(1, 3)], vec![]));
    assert_eq!(word_emphasis("", "new"), (vec![], vec![(0, 3)]));
    // Ranges count bytes: two for the first character, three and four for the last ones
    assert_eq!(word_emphasis("é a", "é bb"), (vec![(3, 4)], vec![(3, 5)]));
    assert_eq!(word_emphasis("é;漢+1", "é;𝄞+1"), (vec![(3, 6)], vec![(3, 7)]));
}

#[test]
fn marks_of_lines_count_bytes() {
    let (hunks, _) = parse("@@ -1 +1 @@\n-größe = 1\n+größe = 22\n");
    assert_eq!(hunks[0].lines[0].emph, vec![(10, 11)]);
    assert_eq!(hunks[0].lines[1].emph, vec![(10, 12)]);
}

#[test]
fn pieces_are_cut_at_marked_bytes() {
    let backs = Backs { base: None, emph: Some(Color::Reset) };
    let cut = |pieces: Option<Vec<Piece>>, text: &str, emph: &[(usize, usize)]| {
        styled_segs(&pieces, text, &emph.to_vec(), &backs)
            .iter()
            .map(|s| (s.text.clone(), s.style.bold))
            .collect::<Vec<(String, bool)>>()
    };
    let want = |v: &[(&str, bool)]| -> Vec<(String, bool)> {
        v.iter().map(|(t, b)| (t.to_string(), *b)).collect()
    };
    assert_eq!(cut(None, "é漢b", &[(2, 5)]), want(&[("é", false), ("漢", true), ("b", false)]));
    // A range that ends within a character goes on to its end, and one that begins there does not
    // take it in
    assert_eq!(cut(None, "éa", &[(0, 1)]), want(&[("é", true), ("a", false)]));
    assert_eq!(cut(None, "éa", &[(1, 2)]), want(&[("é", false), ("a", false)]));
    // Bytes are counted over all pieces of the line
    let pieces = vec![((1, 2, 3), "é".to_string()), ((4, 5, 6), "ab\n".to_string())];
    assert_eq!(
        cut(Some(pieces), "éab", &[(2, 3)]),
        want(&[("é", false), ("a", true), ("b", false)])
    );
    assert_eq!(cut(None, "", &[]), want(&[("", false)]));
}

#[test]
fn edits_become_marks() {
    let a = strings(&["x", "yy", "z"]);
    let b = strings(&["x", "w", "z", "!"]);
    let ops = vec![
        EditOp::Equal { old_index: 0, new_index: 0, len: 1 },
        EditOp::Replace { old_index: 1, old_len: 1, new_index: 1, new_len: 1 },
        EditOp::Equal { old_index: 2, new_index: 2, len: 1 },
        EditOp::Insert { old_index: 3, new_index: 3, new_len: 1 },
    ];
    assert_eq!(marks_of(&ops, &a, &b), (vec![(1, 3)], vec![(1, 2), (3, 4)]));
    let del = vec![EditOp::Delete { old_index: 1, old_len: 2, new_index: 1 }];
    assert_eq!(marks_of(&del, &a, &b), (vec![(1, 4)], vec![]));
}

#[test]
fn line_numbers_of_hunks() {
    assert_eq!(parse_no("-3,2"), 3);
    assert_eq!(parse_no("+17"), 17);
    assert_eq!(parse_no("-+-4"), 4);
    assert_eq!(parse_no("x"), 1);
    assert_eq!(parse_no("-4294967296"), 1);
}

#[test]
fn hunks_are_read() {
    let (hunks, binary) = parse(DIFF);
    assert!(!binary);
    assert_eq!(hunks.len(), 1);
    assert_eq!(hunks[0].header, "@@ -3,2 +5,3 @@ fn f");
    let got: Vec<(Kind, Option<u32>, Option<u32>, &str)> =
        hunks[0].lines.iter().map(|l| (l.kind, l.old_no, l.new_no, l.text.as_str())).collect();
    assert_eq!(
        got,
        vec![
            (Kind::Ctx, Some(3), Some(5), "ctx"),
            (Kind::Del, Some(4), None, "old one"),
            (Kind::Add, None, Some(6), "new one"),
            (Kind::Add, None, Some(7), "more"),
        ]
    );
    assert_eq!(hunks[0].lines[1].emph, vec![(0, 3)]);
    assert_eq!(hunks[0].lines[2].emph, vec![(0, 3)]);
    assert!(hunks[0].lines[3].emph.is_empty());
    // Scanning marks no words
    assert!(scan(DIFF).0[0].lines[1].emph.is_empty());
}

#[test]
fn binary_files_are_noticed() {
    let (hunks, binary) = parse("Binary files a/x and b/x differ\n");
    assert!(binary && hunks.is_empty());
    assert!(parse("GIT binary patch\n").1);
}

fn sides(r: &SRow) -> (Option<(u32, String)>, Option<(u32, String)>) {
    (
        r.left.as_ref().map(|h| (h.no, joined(&h.segs))),
        r.right.as_ref().map(|h| (h.no, joined(&h.segs))),
    )
}

#[test]
fn one_column_document() {
    let d = build_doc(DIFF, "x", Hl::Pending);
    assert_eq!(d.note, None);
    assert_eq!(d.unified.len(), 5);
    assert_eq!(d.hunks_u, vec![0]);
    assert_eq!(d.first_new_line, Some(6));
    assert!(d.unified[0].is_hunk);
    assert_eq!(d.unified[0].segs[0].style.fg, Some(rgb(FG_HUNK)));
    let del = &d.unified[2];
    assert_eq!((del.old_no, del.new_no, del.bg), (Some(4), None, Some(rgb(BG_DEL))));
    assert_eq!(del.segs.len(), 2);
    assert_eq!(del.segs[0].text, "old");
    assert_eq!(del.segs[0].style.bg, Some(rgb(BG_DEL_EMPH)));
    assert!(del.segs[0].style.bold);
    assert_eq!(del.segs[1].text, " one");
    assert_eq!(del.segs[1].style.bg, Some(rgb(BG_DEL)));
    assert!(!del.segs[1].style.bold);
    let add = &d.unified[3];
    assert_eq!((add.old_no, add.new_no, add.bg), (None, Some(6), Some(rgb(BG_ADD))));
    assert_eq!(add.segs[0].style.bg, Some(rgb(BG_ADD_EMPH)));
    assert_eq!(rgb(BG_ADD), Color::Rgb(18, 58, 28));
}

#[test]
fn two_sided_document() {
    let d = build_doc(DIFF, "x", Hl::Pending);
    assert_eq!(d.hunks_s, vec![0]);
    assert_eq!(d.sxs.len(), 4);
    assert_eq!(d.sxs[0].header.as_deref(), Some("@@ -3,2 +5,3 @@ fn f"));
    let two = |n: u32, s: &str| Some((n, s.to_string()));
    assert_eq!(sides(&d.sxs[1]), (two(3, "ctx"), two(5, "ctx")));
    assert_eq!(sides(&d.sxs[2]), (two(4, "old one"), two(6, "new one")));
    assert_eq!(sides(&d.sxs[3]), (None, two(7, "more")));
}

#[test]
fn two_hunks() {
    let d = build_doc("@@ -1 +1 @@\n-a\n@@ -9 +8 @@\n b\n", "x", Hl::Pending);
    assert_eq!(d.hunks_u, vec![0, 2]);
    assert_eq!(d.hunks_s, vec![0, 2]);
    // Nothing was added: the first line of the first hunk, which has no number on the new side
    assert_eq!(d.first_new_line, None);
    let d = build_doc("@@ -1 +4 @@\n b\n-c\n", "x", Hl::Pending);
    assert_eq!(d.first_new_line, Some(4));
}

#[test]
fn notes() {
    let note = |diff: &str, hl: Hl| build_doc(diff, "x", hl).note;
    assert_eq!(note("", Hl::Pending).as_deref(), Some("no diff"));
    assert_eq!(note("", Hl::Off).as_deref(), Some("no diff"));
    let bin = "Binary files a/x and b/x differ\n";
    assert_eq!(note(bin, Hl::Pending).as_deref(), Some("binary file (no diff)"));
    assert_eq!(note(DIFF, Hl::Off).as_deref(), Some("syntax off (large diff)"));
    let mut long = String::from("@@ -1 +1 @@\n");
    long.push_str(&"+x\n".repeat(4000));
    assert_eq!(note(&long, Hl::Pending), None);
    long.push_str(&"+x\n".repeat(500));
    assert_eq!(note(&long, Hl::Pending).as_deref(), Some("… truncated after 4000 lines"));
    assert_eq!(
        note(&long, Hl::Off).as_deref(),
        Some("… truncated after 4000 lines · syntax off (large diff)")
    );
    assert_eq!(build_doc(&long, "x", Hl::Pending).unified.len(), 4002);
}

#[test]
fn an_empty_line_has_an_empty_piece() {
    let d = build_doc("@@ -1 +1 @@\n+\n", "x", Hl::Pending);
    assert_eq!(d.unified[1].segs.len(), 1);
    assert_eq!(d.unified[1].segs[0].text, "");
}

// ---- Colors ----

const CODE: &str = "@@ -1,3 +1,3 @@\n /* a\n-fn old() {}\n+fn new() { 1 }\n b */\n";

fn colors(d: &DiffDoc, row: usize) -> Vec<(Option<Color>, String)> {
    d.unified[row].segs.iter().map(|s| (s.style.fg, s.text.clone())).collect()
}

/// What the highlighter gives for the last of some lines.
fn expected(theme: &str, ext: &str, lines: &[&str]) -> Vec<(Option<Color>, String)> {
    let ss = SyntaxSet::load_defaults_newlines();
    let themes = ThemeSet::load_defaults();
    let syntax = ss.find_syntax_by_extension(ext).unwrap();
    let mut h = HighlightLines::new(syntax, &themes.themes[theme]);
    let mut last = Vec::new();
    for l in lines {
        let with_end = format!("{l}\n");
        last = h
            .highlight_line(&with_end, &ss)
            .unwrap()
            .into_iter()
            .map(|(st, t)| {
                let c = st.foreground;
                (Some(Color::Rgb(c.r, c.g, c.b)), t.trim_end_matches('\n').to_string())
            })
            .filter(|(_, t)| !t.is_empty())
            .collect();
    }
    last
}

#[test]
fn code_is_colored_as_the_theme_says() {
    let hi = Highlighter::new("base16-ocean.dark");
    let d = build_doc("@@ -1 +1 @@\n+fn new() { 1 }\n", "dir.d/main.rs", Hl::On(&hi));
    let want = expected("base16-ocean.dark", "rs", &["fn new() { 1 }"]);
    assert!(want.len() > 1);
    assert_eq!(colors(&d, 1), want);
}

#[test]
fn each_side_has_its_own_colors() {
    let hi = Highlighter::new("InspiredGitHub");
    let d = build_doc(CODE, "main.rs", Hl::On(&hi));
    // Inside of a comment: nothing in it is colored as code
    let want = expected("InspiredGitHub", "rs", &["/* a", "fn old() {}"]);
    let text: String = want.iter().map(|p| p.1.as_str()).collect();
    assert_eq!(joined(&d.unified[2].segs), text);
    assert!(d.unified[2].segs.iter().all(|s| s.style.fg == want[0].0));
    let apart = expected("InspiredGitHub", "rs", &["fn old() {}"]);
    assert!(want[0].0 != apart[0].0);
}

#[test]
fn unknown_themes_fall_back() {
    let a = Highlighter::new("no such theme");
    let b = Highlighter::new("base16-ocean.dark");
    let da = build_doc(CODE, "main.rs", Hl::On(&a));
    let db = build_doc(CODE, "main.rs", Hl::On(&b));
    for i in 0..da.unified.len() {
        assert_eq!(colors(&da, i), colors(&db, i));
    }
}

#[test]
fn files_without_an_ending_are_known_by_name() {
    let hi = Highlighter::new("base16-ocean.dark");
    let d = build_doc("@@ -1 +1 @@\n+all: x\n+\tcc $@\n", "src/Makefile", Hl::On(&hi));
    let want = expected("base16-ocean.dark", "Makefile", &["all: x"]);
    assert_eq!(colors(&d, 1), want);
    // Nothing is known of these
    let d = build_doc("@@ -1 +1 @@\n+fn x\n", "src/unheard-of", Hl::On(&hi));
    assert_eq!(d.unified[1].segs.len(), 1);
}

#[test]
fn colors_keep_text_and_rows() {
    let hi = Highlighter::new("base16-ocean.dark");
    let on = build_doc(CODE, "main.rs", Hl::On(&hi));
    let plain = build_doc(CODE, "main.rs", Hl::Pending);
    assert_eq!(on.unified.len(), plain.unified.len());
    for (a, b) in on.unified.iter().zip(&plain.unified) {
        assert_eq!(joined(&a.segs), joined(&b.segs));
    }
    assert_eq!(on.hunks_u, plain.hunks_u);
    assert_eq!(on.hunks_s, plain.hunks_s);
    assert_eq!(
        build_offsets_uni(&on.unified, true, 4),
        build_offsets_uni(&plain.unified, true, 4)
    );
    assert_eq!(build_offsets_sxs(&on.sxs, true, 4), build_offsets_sxs(&plain.sxs, true, 4));
}
