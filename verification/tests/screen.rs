use wtd::app::{App, Area, WtData};
use wtd::bars::{render_bar, tab_style};
use wtd::config::{Config, Opener};
use wtd::diffview::{build_doc, DiffDoc, Hl};
use wtd::docs::DocStep;
use wtd::git::{CommitInfo, FileChange, FileStatus, Worktree};
use wtd::screen::{Draw, Rect, Share, TextLine, ACCENT, ACCENT_FG, FG_DIM, INACTIVE_SEL};
use wtd::style::{rgb, Color, Seg, Style};
use wtd::ui::{body_shares, line_shares, place, screen_shares, Body, Screen};

const DIFF: &str = "@@ -1,2 +1,2 @@\n ctx\n-old\n+new\n@@ -9 +9 @@\n+abcdefghijkl\n";

fn file(path: &str, status: FileStatus) -> FileChange {
    FileChange { path: path.into(), old_path: None, status, added: Some(2), deleted: Some(1) }
}

fn wt(path: &str, branch: &str, files: Vec<FileChange>) -> WtData {
    WtData {
        info: Worktree { path: path.into(), branch: branch.into(), is_main: path == "/r" },
        merge_base: None,
        commits: vec![CommitInfo {
            sha: "c0ffee".into(),
            short: "c0f".into(),
            time: 40,
            subject: "a subject".into(),
        }],
        files,
        all_totals: (0, 0),
    }
}

fn app_with(cfg: Config, wts: Vec<WtData>) -> App {
    let mut a = App::new(cfg, "/r".into(), "main".into());
    let kept = a.kept();
    for w in &wts {
        a.refresh_source(&w.info.path, &w.commits);
    }
    a.refresh(wts, &kept);
    a
}

fn app() -> App {
    let mut w = wt("/w", "topic", vec![file("x.rs", FileStatus::Added)]);
    w.all_totals = (7, 3);
    app_with(
        Config::default(),
        vec![
            wt("/r", "main", vec![file("a.rs", FileStatus::Modified), file("b", FileStatus::Deleted)]),
            w,
        ],
    )
}

fn rect(x: u16, y: u16, width: u16, height: u16) -> Rect {
    Rect { x, y, width, height }
}

fn line_text(l: &TextLine) -> String {
    l.spans.iter().map(|s| s.text.as_str()).collect()
}

fn texts(draws: &[Draw]) -> Vec<(Rect, Vec<String>)> {
    draws
        .iter()
        .filter_map(|d| match d {
            Draw::Text(r, l) | Draw::Right(r, l) => Some((*r, l.iter().map(line_text).collect())),
            _ => None,
        })
        .collect()
}

fn frames(draws: &[Draw]) -> Vec<(Rect, Color, String)> {
    draws
        .iter()
        .filter_map(|d| match d {
            Draw::Frame(r, c, t) => Some((*r, *c, t.clone())),
            _ => None,
        })
        .collect()
}

// ---- Layout ----

#[test]
fn a_wide_screen_has_both_panes() {
    let mut a = app();
    a.narrow_diff = true;
    let s = a.layout(rect(0, 0, 120, 40), 100);
    assert!(!a.narrow && !a.narrow_diff);
    assert_eq!(s.worktrees, rect(0, 1, 120, 1));
    assert_eq!(s.help, rect(0, 39, 120, 1));
    // "base: main" and one more
    assert_eq!((s.title, s.base), (rect(0, 0, 109, 1), rect(109, 0, 11, 1)));
    assert_eq!(s.history.width + s.summary.width, 120);
    match s.body {
        Body::Both(t, d) => {
            assert_eq!((t.x, t.y, t.height), (0, 3, 36));
            assert_eq!((d.y, d.height), (3, 36));
            assert_eq!(t.width + d.width, 120);
            assert_eq!(d.x, t.width);
            // 38 percent
            assert!(t.width == 45 || t.width == 46);
        }
        _ => panic!("one pane only"),
    }
}

#[test]
fn a_narrow_screen_has_one_pane() {
    let mut a = app();
    let s = a.layout(rect(0, 0, 99, 20), 100);
    assert!(a.narrow);
    assert_eq!(s.body, Body::Tree(rect(0, 3, 99, 16)));
    a.narrow_diff = true;
    let s = a.layout(rect(0, 0, 99, 20), 100);
    assert_eq!(s.body, Body::Diff(rect(0, 3, 99, 16)));
}

#[test]
fn what_the_layout_is_asked_for() {
    assert_eq!(
        screen_shares(),
        vec![
            Share::Length(1),
            Share::Length(1),
            Share::Length(1),
            Share::AtLeast(3),
            Share::Length(1)
        ]
    );
    assert_eq!(line_shares(7), vec![Share::AtLeast(0), Share::Length(7)]);
    assert_eq!(body_shares(38), vec![Share::Percent(38), Share::AtLeast(10)]);
    let a = app();
    assert_eq!(a.title_columns(), 11);
    // "2 files +4 -2 · commit 1m ago" and one more, or half of the line
    assert_eq!(a.hist_summary(100), "2 files +4 -2 · commit 1m ago");
    assert_eq!(a.summary_columns(120, 100), 30);
    assert_eq!(a.summary_columns(21, 100), 10);
}

#[test]
fn all_that_is_asked_of_the_layout() {
    let a = app();
    let q = a.asked(120, 100);
    assert_eq!(q.rows, screen_shares());
    assert_eq!(q.head, vec![Share::AtLeast(0), Share::Length(11)]);
    assert_eq!(q.history, vec![Share::AtLeast(0), Share::Length(30)]);
    assert_eq!(q.panes, vec![Share::Percent(38), Share::AtLeast(10)]);
}

#[test]
fn parts_of_the_screen_have_their_place() {
    let rows: Vec<Rect> = (0..5).map(|i| rect(0, i, 90, 1)).collect();
    let head = vec![rect(0, 0, 70, 1), rect(70, 0, 20, 1)];
    let hist = vec![rect(0, 2, 60, 1), rect(60, 2, 30, 1)];
    let panes = vec![rect(0, 3, 40, 1), rect(40, 3, 50, 1)];
    let area = rect(0, 0, 90, 5);
    let at = |narrow, full| place(area, &rows, &head, &hist, &panes, narrow, full);
    let s = at(false, false);
    assert_eq!((s.area, s.title, s.base), (area, head[0], head[1]));
    assert_eq!((s.worktrees, s.history, s.summary, s.help), (rows[1], hist[0], hist[1], rows[4]));
    assert_eq!(s.body, Body::Both(panes[0], panes[1]));
    assert_eq!(at(false, true).body, Body::Both(panes[0], panes[1]));
    assert_eq!(at(true, false).body, Body::Tree(rows[3]));
    assert_eq!(at(true, true).body, Body::Diff(rows[3]));
}

fn within(r: Rect, area: Rect) -> bool {
    r.x >= area.x
        && r.y >= area.y
        && r.x as u32 + r.width as u32 <= area.x as u32 + area.width as u32
        && r.y as u32 + r.height as u32 <= area.y as u32 + area.height as u32
}

#[test]
fn all_parts_are_on_the_screen() {
    for area in [
        rect(0, 0, 120, 40),
        rect(3, 5, 101, 7),
        rect(2, 2, 30, 3),
        rect(0, 0, 1, 1),
        rect(7, 7, 0, 0),
        rect(65535, 65535, 0, 0),
        rect(0, 0, 65535, 65535),
    ] {
        let mut a = app();
        let s = a.layout(area, 100);
        for r in [s.title, s.base, s.worktrees, s.history, s.summary, s.help] {
            assert!(within(r, area), "{r:?} in {area:?}");
        }
        match s.body {
            Body::Tree(r) | Body::Diff(r) => assert!(within(r, area)),
            Body::Both(t, d) => assert!(within(t, area) && within(d, area)),
        }
    }
}

// ---- Bars ----

fn seg(text: &str) -> Seg {
    Seg::new(Style::plain(), text)
}

#[test]
fn tabs_before_the_selected_one_make_room() {
    let tabs = || vec![vec![seg("aaaa")], vec![seg("bbbb")], vec![seg("cccc")]];
    // " l: " takes 4 columns, each tab 5
    assert_eq!(line_text(&render_bar("l:", &tabs(), 2, false, 19)), " l: aaaa bbbb cccc ");
    assert_eq!(line_text(&render_bar("l:", &tabs(), 2, false, 18)), " l: … bbbb cccc ");
    assert_eq!(line_text(&render_bar("l:", &tabs(), 2, false, 3)), " l: … cccc ");
    assert_eq!(line_text(&render_bar("l:", &tabs(), 0, false, 3)), " l: aaaa bbbb cccc ");
    // A selection past the tabs: as many of the last ones as fit
    assert_eq!(line_text(&render_bar("l:", &tabs(), 9, false, 19)), " l: aaaa bbbb cccc ");
    assert_eq!(line_text(&render_bar("l:", &tabs(), 9, false, 18)), " l: … bbbb cccc ");
    assert_eq!(line_text(&render_bar("l:", &tabs(), 9, false, 3)), " l: … ");
    let focused = render_bar("l:", &tabs(), 0, true, 30);
    assert!(focused.spans[0].style == Style::bold_ink(rgb(ACCENT)));
}

#[test]
fn looks_of_tabs() {
    let s = tab_style(true, true);
    assert_eq!((s.fg, s.bg, s.bold), (Some(rgb(ACCENT_FG)), Some(rgb(ACCENT)), true));
    let s = tab_style(true, false);
    assert_eq!((s.bg, s.bold), (Some(rgb(INACTIVE_SEL)), false));
    let s = tab_style(false, true);
    assert_eq!((s.fg, s.bg), (Some(rgb(FG_DIM)), None));
}

#[test]
fn bars_of_worktrees_and_history() {
    let mut a = app();
    assert_eq!(line_text(&a.render_wtbar(80)), " worktree:  1 main ✓   2 topic +7 -3  ");
    assert_eq!(line_text(&a.render_histbar(80)), " history:  All   Current   c1  ");
    assert!(a.set_hist(2).is_some());
    assert_eq!(a.hist_summary(100), "c0f \"a subject\" 2 files +4 -2 · 1m ago");
    assert_eq!(line_text(&a.title_line()), " wtd — r");
    assert_eq!(a.title_right(), "base: main");
    a.follow = true;
    assert_eq!(a.title_right(), "● follow  base: main");
}

#[test]
fn the_bottom_line() {
    let mut a = app();
    let help = " [tree] j/k:move  h/l:fold/expand  t:flat  /:filter  o:open  O:system  f:follow  \
C-j/C-k:area  {}:worktree  []:history  q:quit";
    assert_eq!(a.bottom_text(0), help);
    a.set_status("done", 1000);
    assert_eq!(a.bottom_text(3999), " done");
    assert_eq!(a.bottom_text(4000), help);
    a.filter_input = true;
    a.filter = "ab".into();
    assert_eq!(a.bottom_text(1000), " filter: ab▌  (Enter:apply Esc:clear)");
}

#[test]
fn the_list_of_openers() {
    let mut c = Config::default();
    c.open.default = "vim".into();
    for n in ["vim", "code"] {
        c.open.openers.insert(n.into(), Opener { cmd: vec![n.into()] });
    }
    let mut a = app_with(c, vec![wt("/r", "main", vec![])]);
    assert!(a.render_picker(rect(0, 0, 80, 24)).is_empty());
    a.picker = Some(1);
    let d = a.render_picker(rect(0, 0, 80, 24));
    let place = rect(23, 10, 34, 4);
    assert!(matches!(d[0], Draw::Clear(r) if r == place));
    assert_eq!(frames(&d), vec![(place, rgb(ACCENT), " opener ".to_string())]);
    assert_eq!(
        texts(&d),
        vec![(rect(24, 11, 32, 2), vec!["   code ".to_string(), " * vim ".to_string()])]
    );
}

// ---- The file list ----

#[test]
fn the_file_list() {
    let mut a = app();
    let d = a.render_tree_pane(rect(0, 3, 30, 12));
    assert_eq!(frames(&d), vec![(rect(0, 3, 30, 12), rgb(ACCENT), " files ".to_string())]);
    let t = texts(&d);
    assert_eq!(t[0].0, rect(1, 4, 28, 10));
    assert_eq!(t[0].1.len(), 2);
    assert!(t[0].1[0].starts_with(" M \u{e7a8} a.rs"));
    assert!(t[0].1[0].contains("+2 -1"));
    assert!(t[0].1[1].starts_with(" D "));
    assert_eq!(a.tree_height, 10);
    a.flat = true;
    a.focus = Area::Diff;
    let d = a.render_tree_pane(rect(0, 3, 30, 12));
    assert_eq!(frames(&d)[0].1, rgb(INACTIVE_SEL));
    assert_eq!(frames(&d)[0].2, " files (flat) ");
}

#[test]
fn the_file_list_follows_the_cursor() {
    let names: Vec<FileChange> =
        (0..30).map(|i| file(&format!("f{i:02}"), FileStatus::Modified)).collect();
    let mut a = app_with(Config::default(), vec![wt("/r", "main", names)]);
    a.select_file_by_path("f20");
    let d = a.render_tree_pane(rect(0, 0, 40, 7));
    let t = texts(&d);
    assert_eq!(t[0].1.len(), 5);
    assert!(t[0].1[4].contains("f20"));
    a.select_file_by_path("f18");
    let d = a.render_tree_pane(rect(0, 0, 40, 7));
    assert!(texts(&d)[0].1[0].contains("f16"));
    a.select_file_by_path("f02");
    let d = a.render_tree_pane(rect(0, 0, 40, 7));
    assert!(texts(&d)[0].1[0].contains("f02"));
}

#[test]
fn no_files() {
    let mut a = app_with(Config::default(), vec![wt("/r", "main", vec![])]);
    let d = a.render_tree_pane(rect(0, 0, 40, 7));
    assert_eq!(texts(&d)[0].1, vec!["(no changes)"]);
    assert_eq!(a.diff_height, 1);
    let d = a.render_diff_pane(rect(0, 0, 40, 7), None);
    assert_eq!(texts(&d)[0].1, vec![" main 0 files  +0 -0", "", "  no changes"]);
}

// ---- The diff ----

fn doc() -> DiffDoc {
    build_doc(DIFF, "a.rs", Hl::Pending)
}

#[test]
fn the_diff_in_one_column() {
    let mut a = app();
    a.sxs = false;
    a.cur_doc_gen = 1;
    let d = a.render_diff_pane(rect(0, 0, 32, 12), Some(&doc()));
    assert_eq!(frames(&d)[0].2, " diff ");
    let t = texts(&d);
    assert_eq!(t[0].0, rect(1, 1, 30, 10));
    assert_eq!(
        t[0].1,
        vec![
            " M a.rs  +2 -1".to_string(),
            "@@ -1,2 +1,2 @@".to_string(),
            format!("    1     1 {:<18}", "ctx"),
            format!("    2       {:<18}", "old"),
            format!("          2 {:<18}", "new"),
            "@@ -9 +9 @@".to_string(),
            format!("          9 {:<18}", "abcdefghijkl"),
        ]
    );
    // The note on the lower edge of the frame
    assert_eq!(t[1], (rect(21, 11, 10, 1), vec![" hunk 1/2 ".to_string()]));
    assert_eq!((a.diff_height, a.diff_max_scroll), (9, 0));
    assert_eq!(a.row_offsets, vec![0, 1, 2, 3, 4, 5, 6]);
}

#[test]
fn the_diff_on_two_sides() {
    let mut a = app();
    a.cur_doc_gen = 1;
    // Too narrow for two sides
    a.render_diff_pane(rect(0, 0, 91, 12), Some(&doc()));
    assert!(!a.effective_sxs);
    let d = a.render_diff_pane(rect(0, 0, 92, 12), Some(&doc()));
    assert!(a.effective_sxs);
    let t = texts(&d);
    assert_eq!(t[0].1[2], format!("    1 {:<37}│    1 {:<37}", "ctx", "ctx"));
    assert_eq!(t[0].1[3], format!("    2 {:<37}│    2 {:<37}", "old", "new"));
    assert_eq!(t[0].1[5], format!("{:<43}│    9 {:<37}", "", "abcdefghijkl"));
    assert_eq!(a.row_offsets, vec![0, 1, 2, 3, 4, 5]);
}

#[test]
fn long_lines_wrap_and_scroll() {
    let mut a = app();
    a.sxs = false;
    a.cur_doc_gen = 1;
    // 5 columns of text
    let place = rect(0, 0, 19, 6);
    a.render_diff_pane(place, Some(&doc()));
    assert_eq!(a.row_offsets, vec![0, 1, 2, 3, 4, 5, 8]);
    assert_eq!((a.diff_height, a.diff_max_scroll), (3, 5));
    // The second screen line of the last row: the numbers are on the first one only
    a.diff_scroll = 6;
    let d = a.render_diff_pane(place, Some(&doc()));
    assert_eq!(
        texts(&d)[0].1[1..],
        vec![format!("{:12}fghij", ""), format!("{:12}kl   ", "")]
    );
    // What is past the end goes to the last line
    a.diff_scroll = 100;
    let d = a.render_diff_pane(place, Some(&doc()));
    assert_eq!(texts(&d)[0].1[1..], vec![format!("{:12}kl   ", "")]);
    assert_eq!(a.diff_scroll, 7);
    // Without wrapping the same row stays in place
    a.diff_scroll = 6;
    a.wrap = false;
    let d = a.render_diff_pane(place, Some(&doc()));
    assert_eq!(a.diff_scroll, 5);
    assert_eq!(texts(&d)[0].1[1..], vec!["          9 abcde".to_string()]);
}

#[test]
fn another_document_is_not_mapped() {
    let mut a = app();
    a.sxs = false;
    a.cur_doc_gen = 1;
    let place = rect(0, 0, 19, 6);
    a.render_diff_pane(place, Some(&doc()));
    a.diff_scroll = 6;
    a.cur_doc_gen = 2;
    a.render_diff_pane(place, Some(&doc()));
    assert_eq!(a.diff_scroll, 6);
}

#[test]
fn the_table_belongs_to_the_document() {
    let text = |n: usize| -> String {
        let mut t = "@@ -1 +1 @@\n".to_string();
        for i in 0..n {
            t.push_str(&format!("+line {i} that is longer than the pane is wide\n"));
        }
        t
    };
    let mut a = app();
    let look = |a: &mut App, n: usize, mtime: u128, place: Rect| {
        let doc = match a.doc_step(mtime) {
            DocStep::Build(k, later) => a.doc_built(k, later, text(n)).0,
            DocStep::Ready(d) | DocStep::Recolor(d, _) => d,
            DocStep::Nothing => panic!("no file is selected"),
        };
        a.diff_scroll = usize::MAX;
        a.render_diff_pane(place, Some(&doc));
        let rows = if a.effective_sxs { doc.sxs.len() } else { doc.unified.len() };
        let total = a.row_offsets[rows];
        assert_eq!((a.row_offsets.len(), a.row_offsets[0]), (rows + 1, 0));
        assert!(a.row_offsets.windows(2).all(|w| w[0] < w[1]));
        assert_eq!(a.effective_sxs, a.sxs && place.width - 2 >= 90);
        assert_eq!(a.diff_height, place.height as usize - 3);
        assert_eq!(a.diff_scroll, total - 1);
        assert_eq!(a.diff_max_scroll, total.saturating_sub(a.diff_height));
        total
    };
    // Two versions of a file, in turn, in panes of several widths
    assert_eq!(look(&mut a, 3, 1, rect(0, 0, 34, 12)), 10);
    assert_eq!(look(&mut a, 30, 2, rect(0, 0, 34, 12)), 91);
    assert_eq!(look(&mut a, 3, 1, rect(0, 0, 34, 12)), 10);
    assert_eq!(look(&mut a, 3, 1, rect(0, 0, 80, 12)), 4);
    assert_eq!(look(&mut a, 3, 1, rect(0, 0, 100, 12)), 7);
    a.wrap = false;
    assert_eq!(look(&mut a, 30, 2, rect(0, 0, 34, 12)), 31);
}

#[test]
fn a_note_takes_a_line() {
    let mut a = app();
    a.sxs = false;
    let d = a.render_diff_pane(rect(0, 0, 40, 12), Some(&build_doc("", "a.rs", Hl::Pending)));
    assert_eq!(texts(&d), vec![(rect(1, 1, 38, 10), vec![" M a.rs  +2 -1".into(), " no diff".into()])]);
    assert_eq!(a.diff_height, 8);
}

#[test]
fn renamed_and_binary_files() {
    let mut a = app();
    a.wts[0].files[0].old_path = Some("o.rs".into());
    a.wts[0].files[0].status = FileStatus::Renamed;
    a.wts[0].files[0].added = None;
    a.diff_scroll = 4;
    let d = a.render_diff_pane(rect(0, 0, 40, 12), None);
    assert_eq!(texts(&d)[0].1, vec![" R a.rs (← o.rs)  Bin"]);
    assert_eq!(a.diff_scroll, 0);
}

#[test]
fn no_room_for_a_diff() {
    let mut a = app();
    a.diff_height = 77;
    let d = a.render_diff_pane(rect(0, 0, 40, 3), Some(&doc()));
    assert!(texts(&d).is_empty());
    assert_eq!(frames(&d).len(), 1);
    assert_eq!(a.diff_height, 77);
}

#[test]
fn a_summary_where_no_file_is_selected() {
    let mut a = app_with(
        Config::default(),
        vec![wt("/r", "main", vec![file("d/a", FileStatus::Added), file("d/b", FileStatus::Other)])],
    );
    a.diff_max_scroll = 9;
    let d = a.render_diff_pane(rect(0, 0, 40, 6), None);
    // Three lines: one file has no room
    assert_eq!(texts(&d)[0].1, vec![" main 2 files  +4 -2", "", "  A d/a  +2 -1"]);
    assert_eq!(a.diff_max_scroll, 0);
}

// ---- All of it ----

fn screen(body: Body) -> Screen {
    Screen {
        area: rect(0, 0, 120, 40),
        title: rect(0, 0, 100, 1),
        base: rect(100, 0, 20, 1),
        worktrees: rect(0, 1, 120, 1),
        history: rect(0, 2, 90, 1),
        summary: rect(90, 2, 30, 1),
        body,
        help: rect(0, 39, 120, 1),
    }
}

#[test]
fn the_whole_screen() {
    let mut a = app();
    a.cur_doc_gen = 1;
    let s = screen(Body::Both(rect(0, 3, 40, 36), rect(40, 3, 80, 36)));
    assert!(a.drawable() && a.wants_doc(&s));
    let d = a.render(&s, Some(&doc()), 0, 100);
    let t = texts(&d);
    assert_eq!(t[0], (s.title, vec![" wtd — r".to_string()]));
    assert_eq!(t[1], (s.base, vec!["base: main".to_string()]));
    assert!(matches!(d[1], Draw::Right(_, _)));
    assert_eq!(t[2].0, s.worktrees);
    assert_eq!(t[3].0, s.history);
    assert_eq!(t[4], (s.summary, vec!["2 files +4 -2 · commit 1m ago".to_string()]));
    let f = frames(&d);
    assert_eq!((f[0].2.as_str(), f[1].2.as_str()), (" files ", " diff "));
    assert_eq!(t.last().map(|x| x.0), Some(s.help));
    // Drawing again gives the same
    let again = a.render(&s, Some(&doc()), 0, 100);
    assert_eq!(texts(&again), t);
}

#[test]
fn one_pane_at_a_time() {
    let mut a = app();
    let tree = screen(Body::Tree(rect(0, 3, 90, 36)));
    let diff = screen(Body::Diff(rect(0, 3, 90, 36)));
    assert!(!a.wants_doc(&tree) && a.wants_doc(&diff));
    assert!(!a.wants_doc(&screen(Body::Diff(rect(0, 3, 90, 3)))));
    let d = a.render(&tree, None, 0, 0);
    assert_eq!(frames(&d).len(), 1);
    assert_eq!(frames(&d)[0].2, " files ");
    assert_eq!(a.diff_height, 33);
    let d = a.render(&diff, Some(&doc()), 0, 0);
    assert_eq!(frames(&d)[0].2, " diff ");
}

#[test]
fn nothing_to_draw() {
    let a = App::new(Config::default(), "/r".into(), "main".into());
    assert!(!a.drawable());
}
