use unicode_width::UnicodeWidthStr;
use wtd::diffview::{Half, SRow, URow};
use wtd::style::{Color, Seg, Style};
use wtd::wrap::{
    build_offsets_sxs, build_offsets_uni, clip_segs, pad_to, wrap_height, wrap_segs_window,
};

fn seg(text: &str) -> Seg {
    Seg::new(Style::plain(), text)
}

fn line_width(spans: &[Seg]) -> usize {
    spans.iter().map(|s| s.text.width()).sum()
}

fn wrap_segs(segs: &Vec<Seg>, avail: usize) -> Vec<Vec<Seg>> {
    wrap_segs_window(segs, avail, 0, usize::MAX)
}

fn contents(lines: &[Vec<Seg>]) -> Vec<String> {
    lines
        .iter()
        .map(|l| l.iter().map(|s| s.text.as_str()).collect())
        .collect()
}

#[test]
fn window_matches_full_slice() {
    // Windowed output (skip/max) matches [skip..skip+max] of the full output
    let segs = vec![
        seg("abcdefghij"),
        seg("日本語のテキスト"),
        seg("0123456789"),
    ];
    for avail in [1usize, 2, 3, 7, 10] {
        let full = wrap_segs(&segs, avail);
        for skip in 0..=full.len() {
            for max in 0..full.len() + 2 {
                let win = wrap_segs_window(&segs, avail, skip, max);
                let expect: Vec<String> =
                    contents(&full).into_iter().skip(skip).take(max).collect();
                assert_eq!(
                    contents(&win),
                    expect,
                    "avail={avail} skip={skip} max={max}"
                );
            }
        }
    }
}

#[test]
fn wrap_segs_respects_width() {
    for avail in [1usize, 2, 3, 7, 10, 80] {
        for text in [
            "",
            "abc",
            "hello world, this is a long line",
            "日本語のテキストと ascii の混在した行です",
            "ああああああああああ",
        ] {
            let lines = wrap_segs(&vec![seg(text)], avail);
            for l in &lines {
                // A 2-cell char physically can't fit in width 1; only then allow overflow
                assert!(line_width(l) <= avail.max(2), "avail={avail} text={text:?}");
            }
            // No characters are lost by wrapping
            let joined: String = lines
                .iter()
                .flat_map(|l| l.iter().map(|s| s.text.as_str()))
                .collect();
            assert_eq!(joined, text);
        }
    }
}

#[test]
fn wrap_height_matches_wrap_segs() {
    let cases: Vec<Vec<Seg>> = vec![
        vec![seg("")],
        vec![seg("short")],
        vec![seg("a"), seg("bcdefghij"), seg("klmno")],
        vec![seg("日本語テキスト"), seg("と ascii "), seg("mixed の行")],
        vec![seg("x".repeat(200).as_str())],
    ];
    for segs in &cases {
        for avail in [1usize, 2, 5, 13, 80] {
            assert_eq!(
                wrap_height(segs, avail),
                wrap_segs(segs, avail).len(),
                "avail={avail}"
            );
        }
    }
}

#[test]
fn wrap_wide_char_moves_to_next_line() {
    // A 2-cell char that doesn't fit in the last cell moves to the next line
    let lines = wrap_segs(&vec![seg("a漢")], 2);
    assert_eq!(lines.len(), 2);
    assert_eq!(lines[0][0].text.as_str(), "a");
    assert_eq!(lines[1][0].text.as_str(), "漢");
}

fn urow(text: &str, is_hunk: bool) -> URow {
    URow {
        old_no: None,
        new_no: None,
        segs: vec![seg(text)],
        bg: None,
        is_hunk,
    }
}

#[test]
fn offsets_uni_wrap_off_is_identity() {
    let rows = vec![urow("@@", true), urow("x".repeat(100).as_str(), false)];
    assert_eq!(build_offsets_uni(&rows, false, 10), vec![0, 1, 2]);
}

#[test]
fn offsets_uni_wrap_counts_physical_lines() {
    // 25 chars at width 10 -> 3 physical lines. Hunk rows are always 1 line
    let rows = vec![
        urow("@@ hunk header long", true),
        urow("x".repeat(25).as_str(), false),
        urow("short", false),
    ];
    assert_eq!(build_offsets_uni(&rows, true, 10), vec![0, 1, 4, 5]);
}

#[test]
fn offsets_sxs_takes_max_of_halves() {
    let half = |text: &str| {
        Some(Half {
            no: 1,
            segs: vec![seg(text)],
            bg: None,
        })
    };
    let rows = vec![
        SRow {
            left: None,
            right: None,
            header: Some("@@".into()),
        },
        // left 3 lines, right 1 line -> height 3
        SRow {
            left: half("x".repeat(25).as_str()),
            right: half("y"),
            header: None,
        },
        // one side missing -> height comes from the existing side
        SRow {
            left: None,
            right: half("z".repeat(11).as_str()),
            header: None,
        },
    ];
    assert_eq!(build_offsets_sxs(&rows, true, 10), vec![0, 1, 4, 6]);
    assert_eq!(build_offsets_sxs(&rows, false, 10), vec![0, 1, 2, 3]);
}

#[test]
fn no_rows_have_no_lines() {
    assert_eq!(build_offsets_uni(&vec![], true, 10), vec![0]);
    assert_eq!(build_offsets_sxs(&vec![], true, 10), vec![0]);
}

#[test]
fn nothing_wraps_to_one_line() {
    assert_eq!(wrap_segs(&vec![], 10).len(), 1);
    assert_eq!(wrap_height(&vec![], 10), 1);
    // No columns count as one
    assert_eq!(contents(&wrap_segs(&vec![seg("ab")], 0)), vec!["a", "b"]);
}

#[test]
fn wrapping_keeps_styles() {
    let red = Style::ink(Color::Rgb(255, 0, 0));
    let segs = vec![seg("ab"), Seg::new(red, "cde")];
    let lines = wrap_segs(&segs, 3);
    assert_eq!(lines.len(), 2);
    assert_eq!(lines[0].len(), 2);
    assert_eq!(lines[0][1].text, "c");
    assert!(lines[0][1].style == red);
    assert_eq!(lines[1][0].text, "de");
    assert!(lines[1][0].style == red);
}

#[test]
fn clipping_keeps_what_fits() {
    let text = |v: Vec<Seg>| -> Vec<String> { v.into_iter().map(|s| s.text).collect() };
    assert_eq!(text(clip_segs(&vec![seg("abc"), seg("def")], 4)), vec!["abc", "d"]);
    // A wide character that would stick out is left off
    assert_eq!(text(clip_segs(&vec![seg("a漢字")], 4)), vec!["a漢"]);
    assert_eq!(text(clip_segs(&vec![seg("abc")], 3)), vec!["abc"]);
    assert!(clip_segs(&vec![seg("abc")], 0).is_empty());
}

#[test]
fn padding_fills_up() {
    let bg = Some(Color::Rgb(1, 2, 3));
    let mut l = vec![seg("漢")];
    pad_to(&mut l, 5, bg);
    assert_eq!(l.len(), 2);
    assert_eq!(l[1].text, "   ");
    assert!(l[1].style.bg == bg);
    let mut full = vec![seg("abcde")];
    pad_to(&mut full, 5, bg);
    assert_eq!(full.len(), 1);
}

#[test]
fn windows_join() {
    let segs = vec![seg("abcdefghijklmnop")];
    let mut parts = contents(&wrap_segs_window(&segs, 3, 1, 2));
    parts.extend(contents(&wrap_segs_window(&segs, 3, 3, 2)));
    assert_eq!(parts, contents(&wrap_segs_window(&segs, 3, 1, 4)));
    assert_eq!(parts, vec!["def", "ghi", "jkl", "mno"]);
}

#[test]
fn rows_can_be_copied() {
    let u = urow("text", false);
    assert_eq!(contents(&[u.clone().segs]), contents(&[u.segs]));
    let half = Half { no: 4, segs: vec![seg("h")], bg: None };
    let s = SRow { header: None, left: Some(half), right: None };
    let t = s.clone();
    assert_eq!(t.left.map(|h| (h.no, h.segs[0].text.clone())), Some((4, "h".to_string())));
    assert!(t.right.is_none() && t.header.is_none());
}
