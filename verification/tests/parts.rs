use wtd::config::{Config, Opener, Openers};
use wtd::git::{FileChange, FileStatus, Worktree};
use wtd::icons::{file_icon, DIR_CLOSED, DIR_OPEN, FILE_DEFAULT};
use wtd::names::Names;
use wtd::opener::{expand_tilde, spawn_args, OpenCtx};
use wtd::pace::{poll_every, Pace};
use wtd::path_set::{difference, PathSet};
use wtd::paths::{
    contains_component, file_name, is_in, join_path, path_components, same_path,
};
use wtd::refresh::{fmt_age, spawn_failed};
use wtd::status_out::{report_lines, stats_of};
use wtd::style::{rgb, Color};
use wtd::text::{lines, parse_signed, parse_unsigned, split, trim, words};
use wtd::tree::{flat_rows, tree_rows, Row};
use wtd::watcher::{event_matters, is_git_internal, Watched};
use wtd::width::cell_width;

fn file(path: &str) -> FileChange {
    FileChange {
        path: path.into(),
        old_path: None,
        status: FileStatus::Modified,
        added: Some(2),
        deleted: Some(1),
    }
}

fn files(paths: &[&str]) -> Vec<FileChange> {
    paths.iter().map(|p| file(p)).collect()
}

fn names(v: &[&str]) -> Names {
    let mut n = Names::new();
    for s in v {
        n.insert(s.to_string());
    }
    n
}

// ---- Configuration ----

#[test]
fn defaults() {
    let c = Config::default();
    assert_eq!(c.general.base, "auto");
    assert_eq!(c.general.poll_ms, 2000);
    assert_eq!(c.general.narrow_cols, 100);
    assert!(c.ui.icons);
    assert_eq!(c.ui.split_pct, 38);
    assert_eq!(c.ui.theme, "base16-ocean.dark");
    assert!(c.ui.wrap);
    assert_eq!(c.open.default, "");
    assert!(c.open.openers.names().is_empty());
    assert!(c.default_opener().is_none());
}

#[test]
fn openers_are_sorted_and_found() {
    let mut o = Openers::new();
    o.insert("vim".into(), Opener { cmd: vec!["vim".into()] });
    o.insert("code".into(), Opener { cmd: vec!["code".into()] });
    o.insert("vim".into(), Opener { cmd: vec!["nvim".into()] });
    assert_eq!(o.names(), vec!["code", "vim"]);
    assert_eq!(o.get("vim").map(|x| x.cmd.clone()), Some(vec!["nvim".to_string()]));
    assert!(o.get("emacs").is_none());
    let mut c = Config::default();
    c.open.openers = o;
    assert!(c.default_opener().is_none());
    c.open.default = "code".into();
    assert_eq!(c.default_opener().map(|x| x.cmd.clone()), Some(vec!["code".to_string()]));
}

// ---- Opening ----

#[test]
fn home_is_filled_in() {
    let home = Some("/home/u".to_string());
    assert_eq!(expand_tilde("~/bin/ed", &home), "/home/u/bin/ed");
    assert_eq!(expand_tilde("~/bin/ed", &None), "~/bin/ed");
    assert_eq!(expand_tilde("~u/x", &home), "~u/x");
    assert_eq!(expand_tilde("a~/x", &home), "a~/x");
}

#[test]
fn commands_are_filled_in() {
    let cmd = |v: &[&str]| Opener { cmd: v.iter().map(|s| s.to_string()).collect() };
    let ctx = OpenCtx { file: "/w/a.rs", line: Some(7), worktree: "/w", repo: "/r" };
    let home = Some("/h".to_string());
    let op = cmd(&["~/ed", "+{line}", "{file}", "{worktree}:{repo}", "{other}"]);
    assert_eq!(
        spawn_args(&op, &ctx, &home),
        Ok(vec![
            "/h/ed".to_string(),
            "+7".to_string(),
            "/w/a.rs".to_string(),
            "/w:/r".to_string(),
            "{other}".to_string()
        ])
    );
    let first = OpenCtx { file: "/w/{line}", line: None, worktree: "/w", repo: "/r" };
    // The line is filled in after the file
    assert_eq!(spawn_args(&cmd(&["{file}"]), &first, &home), Ok(vec!["/w/1".to_string()]));
    assert_eq!(spawn_args(&cmd(&[]), &ctx, &home), Err("opener cmd is empty".to_string()));
    assert_eq!(spawn_failed("ed", "not found"), "failed to spawn ed: not found");
}

// ---- Paths and watching ----

#[test]
fn paths_are_joined() {
    assert_eq!(join_path("/a", "b/c"), "/a/b/c");
    assert_eq!(join_path("/a/", "b"), "/a/b");
    assert_eq!(join_path("/a", "/b"), "/b");
    assert_eq!(join_path("", "b"), "b");
}

#[test]
fn paths_are_taken_apart() {
    assert_eq!(path_components("/a//b/./c/"), vec!["/", "a", "b", "c"]);
    assert_eq!(file_name("/a/b"), Some("b".to_string()));
    assert_eq!(file_name("/a/b/"), Some("b".to_string()));
    assert_eq!(file_name("/"), None);
    assert_eq!(file_name("/a/.."), None);
    assert!(is_in("/a/b", "/a"));
    assert!(is_in("/a", "/a/"));
    assert!(!is_in("/ab", "/a"));
    assert!(contains_component("/r/.git/index", ".git"));
    assert!(!contains_component("/r/.github/x", ".git"));
}

#[test]
fn git_internals_do_not_matter() {
    assert!(is_git_internal("/r/.git/index"));
    assert!(!is_git_internal("/r/.gitignore"));
    let v = |p: &[&str]| -> Vec<String> { p.iter().map(|s| s.to_string()).collect() };
    assert!(!event_matters(&v(&["/r/.git/index", "/r/.git/HEAD"])));
    assert!(event_matters(&v(&["/r/.git/index", "/r/a"])));
    assert!(!event_matters(&v(&[])));
}

#[test]
fn watching_follows_the_worktrees() {
    let v = |p: &[&str]| -> Vec<String> { p.iter().map(|s| s.to_string()).collect() };
    let mut w = Watched::new();
    let plan = w.sync("/r", &v(&["/r", "/r/.worktrees/a", "/else", "/else"]));
    assert!(plan.stale.is_empty());
    let mut new = plan.new;
    new.sort();
    assert_eq!(new, v(&["/else", "/r"]));
    w.watching("/r");
    // What could not be watched is tried again
    assert_eq!(w.sync("/r", &v(&["/r", "/else"])).new, v(&["/else"]));
    w.watching("/else");
    let plan = w.sync("/r", &v(&["/r"]));
    assert_eq!(plan.stale, v(&["/else"]));
    assert!(plan.new.is_empty());
    let plan = w.sync("/r", &v(&["/r"]));
    assert!(plan.stale.is_empty() && plan.new.is_empty());
}

#[test]
fn sets_of_names() {
    let mut a = names(&["x", "y", "x"]);
    assert_eq!(a.items().len(), 2);
    assert!(a.contains("y"));
    a.remove("y");
    assert!(!a.contains("y"));
}

#[test]
fn paths_are_told_apart_by_their_parts() {
    assert!(same_path("/r/", "/r") && same_path("/a//b/./c", "/a/b/c"));
    assert!(!same_path("/r", "r") && !same_path("/r/a", "/r/b"));
    assert!(!same_path("/r/..", "/"));
    let set = |v: &[&str]| {
        let mut s = PathSet::new();
        for p in v {
            s.insert(p.to_string());
        }
        s
    };
    let mut a = set(&["/p", "/q/", "/q"]);
    assert_eq!(a.items().len(), 2);
    assert!(a.contains("/q") && a.contains("/p/."));
    a.remove("/q");
    assert!(!a.contains("/q/"));
    assert_eq!(difference(&set(&["/p", "/q"]), &set(&["/q/"])), vec!["/p"]);
    // A worktree that is written otherwise is still watched
    let mut w = Watched::new();
    w.watching("/r");
    w.watching("/else");
    let plan = w.sync("/r/", &vec!["/else/".to_string()]);
    assert!(plan.stale.is_empty() && plan.new.is_empty());
}

// ---- Pace ----

#[test]
fn changes_are_seen_to_after_a_pause() {
    let mut p = Pace::new(0);
    assert!(!p.tick(100, true, 60_000));
    assert!(!p.tick(349, true, 60_000));
    assert!(p.tick(350, false, 60_000));
    p.refreshed(350);
    assert!(!p.tick(700, false, 60_000));
}

#[test]
fn polling_goes_on() {
    let mut p = Pace::new(0);
    assert!(!p.tick(1999, false, 2000));
    assert!(p.tick(2000, false, 2000));
    p.refreshed(2100);
    assert!(!p.tick(4099, false, 2000));
    assert!(p.tick(4100, false, 2000));
    assert_eq!(poll_every(10), 500);
    assert_eq!(poll_every(3000), 3000);
}

// ---- The report ----

#[test]
fn report_of_a_worktree() {
    let wt = Worktree { path: "/r".into(), branch: "main".into(), is_main: true };
    assert_eq!(report_lines(&wt, &vec![]), vec!["main (main checkout)  clean"]);
    let wt = Worktree { path: "/w".into(), branch: "topic".into(), is_main: false };
    let mut bin = file("b");
    bin.added = None;
    let got = report_lines(&wt, &vec![file("a.rs"), bin]);
    assert_eq!(
        got,
        vec![
            "topic  +2 -2  [/w]".to_string(),
            format!("  M {:<50} +2 -1", "a.rs"),
            format!("  M {:<50} Bin", "b"),
            String::new(),
        ]
    );
    assert_eq!(stats_of(&file("x")), "+2 -1");
}

#[test]
fn long_paths_are_not_cut() {
    let wt = Worktree { path: "/w".into(), branch: "t".into(), is_main: false };
    let long = "d/".repeat(40);
    let got = report_lines(&wt, &files(&[long.as_str()]));
    assert_eq!(got[1], format!("  M {long} +2 -1"));
}

#[test]
fn ages() {
    assert_eq!(fmt_age(100, 41), "59s ago");
    assert_eq!(fmt_age(100, 40), "1m ago");
    assert_eq!(fmt_age(3599, 0), "59m ago");
    assert_eq!(fmt_age(3600, 0), "1h ago");
    assert_eq!(fmt_age(86399, 0), "23h ago");
    assert_eq!(fmt_age(86400 * 3 + 5, 0), "3d ago");
    assert_eq!(fmt_age(0, 50), "0s ago");
}

// ---- Icons and colors ----

#[test]
fn icons_by_name_and_ending() {
    assert_eq!(file_icon("main.rs").0, "\u{e7a8}");
    assert_eq!(file_icon("Dockerfile"), ("\u{f308}", Color::Rgb(0x45, 0x8e, 0xe6)));
    assert_eq!(file_icon(".gitignore"), ("\u{e702}", Color::Rgb(0xf1, 0x50, 0x2f)));
    assert_eq!(file_icon("no_ending").0, FILE_DEFAULT);
    assert_eq!((DIR_CLOSED, DIR_OPEN), ("\u{f07b}", "\u{f07c}"));
    assert_eq!(rgb(0x010203), Color::Rgb(1, 2, 3));
}

// ---- Text ----

#[test]
fn text_is_taken_apart() {
    assert_eq!(lines("a\r\nb\n\nc"), vec!["a", "b", "", "c"]);
    assert!(lines("").is_empty());
    assert_eq!(split("a,,b", ','), vec!["a", "", "b"]);
    assert_eq!(words("  a\t b\u{3000}c "), vec!["a", "b", "c"]);
    assert_eq!(trim(" \u{a0}x y\n"), "x y");
    assert_eq!(parse_unsigned("+12", u64::MAX), Some(12));
    assert_eq!(parse_unsigned("18446744073709551616", u64::MAX), None);
    assert_eq!(parse_unsigned("-1", u64::MAX), None);
    assert_eq!(parse_signed("-9223372036854775808"), Some(i64::MIN));
    assert_eq!(parse_signed("9223372036854775808"), None);
    assert_eq!(parse_signed("-"), None);
}

#[test]
fn characters_have_widths() {
    assert_eq!(cell_width('a'), 1);
    assert_eq!(cell_width('漢'), 2);
    assert_eq!(cell_width('\u{301}'), 0);
}

// ---- The tree ----

fn shown(rows: &[Row]) -> Vec<(usize, &str, Option<&str>, Option<usize>, bool)> {
    rows.iter()
        .map(|r| (r.depth, r.label.as_str(), r.dir_path.as_deref(), r.file_idx, r.expanded))
        .collect()
}

#[test]
fn single_chains_are_joined() {
    let fs = files(&["docs/archive/sow/x.md", "src/a/one.rs", "src/b.rs", "z.rs"]);
    let rows = tree_rows(&fs, &Names::new(), "");
    assert_eq!(
        shown(&rows),
        vec![
            (0, "docs/archive/sow", Some("docs/archive/sow"), None, true),
            (1, "x.md", None, Some(0), false),
            (0, "src", Some("src"), None, true),
            (1, "a", Some("src/a"), None, true),
            (2, "one.rs", None, Some(1), false),
            (1, "b.rs", None, Some(2), false),
            (0, "z.rs", None, Some(3), false),
        ]
    );
}

#[test]
fn collapsed_directories_hide_their_files() {
    let fs = files(&["src/a/one.rs", "src/b.rs", "z.rs"]);
    let rows = tree_rows(&fs, &names(&["src"]), "");
    assert_eq!(
        shown(&rows),
        vec![(0, "src", Some("src"), None, false), (0, "z.rs", None, Some(2), false)]
    );
    assert!(tree_rows(&fs, &Names::new(), "").len() >= rows.len());
}

#[test]
fn filters_apply_to_paths() {
    let fs = files(&["src/a/one.rs", "src/b.rs", "z.rs"]);
    let rows = tree_rows(&fs, &Names::new(), "a/o");
    assert_eq!(
        shown(&rows),
        vec![(0, "src/a", Some("src/a"), None, true), (1, "one.rs", None, Some(0), false)]
    );
    assert_eq!(
        shown(&flat_rows(&fs, "s")),
        vec![
            (0, "src/a/one.rs", None, Some(0), false),
            (0, "src/b.rs", None, Some(1), false),
            (0, "z.rs", None, Some(2), false),
        ]
    );
    assert!(flat_rows(&fs, "nothing").is_empty());
}

#[test]
fn a_file_in_the_way_of_a_directory() {
    assert_eq!(
        shown(&tree_rows(&files(&["a", "a/b"]), &Names::new(), "")),
        vec![(0, "a", None, Some(0), false)]
    );
    assert_eq!(
        shown(&tree_rows(&files(&["a/b", "a"]), &Names::new(), "")),
        vec![(0, "a", None, Some(1), false)]
    );
}

#[test]
fn collapsing_takes_out_what_is_nested() {
    let fs = files(&["a/x/1", "a/x/2", "a/y", "b/z", "c"]);
    let full = tree_rows(&fs, &Names::new(), "");
    assert_eq!(
        shown(&full),
        vec![
            (0, "a", Some("a"), None, true),
            (1, "x", Some("a/x"), None, true),
            (2, "1", None, Some(0), false),
            (2, "2", None, Some(1), false),
            (1, "y", None, Some(2), false),
            (0, "b", Some("b"), None, true),
            (1, "z", None, Some(3), false),
            (0, "c", None, Some(4), false),
        ]
    );
    for collapsed in [&[][..], &["a"], &["a/x"], &["b", "a/x"], &["a", "a/x", "nowhere"]] {
        // The full rows, without those nested under a collapsed one
        let mut want = Vec::new();
        let mut under: Option<usize> = None;
        for (depth, label, dir, idx, expanded) in shown(&full) {
            if under.is_some_and(|d| depth > d) {
                continue;
            }
            let closed = dir.is_some_and(|d| collapsed.contains(&d));
            under = if closed { Some(depth) } else { None };
            want.push((depth, label, dir, idx, expanded && !closed));
        }
        assert_eq!(shown(&tree_rows(&fs, &names(collapsed), "")), want);
    }
}

#[test]
fn copies_are_equal() {
    let mut c = Config::default();
    c.general.base = "trunk".into();
    c.open.default = "vim".into();
    c.open.openers.insert("vim".into(), Opener { cmd: vec!["vim".into()] });
    let d = c.clone();
    assert_eq!((d.general.base.as_str(), d.ui.split_pct), ("trunk", 38));
    assert_eq!(d.default_opener().map(|o| o.cmd.clone()), Some(vec!["vim".to_string()]));
    let rows = tree_rows(&files(&["a/b"]), &Names::new(), "");
    assert_eq!(shown(&rows.clone()), shown(&rows));
}
