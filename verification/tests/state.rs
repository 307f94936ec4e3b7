use std::rc::Rc;
use wtd::app::{source_of, App, Area, WtData};
use wtd::config::{Config, Opener};
use wtd::diffview::{build_doc, DiffDoc, Hl};
use wtd::docs::{color, file_fingerprint, DocStep, HlReq, HlSlot, DOC_CACHE};
use wtd::git::{CommitInfo, DiffSource, FileChange, FileStatus, Worktree};
use wtd::highlight::Highlighter;
use wtd::keys::{Action, FilesQuery, KeyCode, KeyEvent};
use wtd::refresh::{
    compared_with, history_args, history_of, wants_all, worktree_data, Kept,
};

const DIFF: &str = "@@ -1 +1 @@\n-a\n+b\n@@ -9 +9 @@\n x\n+y\n";

fn file(path: &str) -> FileChange {
    FileChange {
        path: path.into(),
        old_path: None,
        status: FileStatus::Modified,
        added: Some(1),
        deleted: Some(1),
    }
}

fn files(paths: &[&str]) -> Vec<FileChange> {
    paths.iter().map(|p| file(p)).collect()
}

fn commit(sha: &str) -> CommitInfo {
    CommitInfo { sha: sha.into(), short: sha.into(), time: 0, subject: "s".into() }
}

fn wt(path: &str, is_main: bool, commits: &[&str], paths: &[&str]) -> WtData {
    WtData {
        info: Worktree { path: path.into(), branch: format!("br{path}"), is_main },
        merge_base: Some("mb".into()),
        commits: commits.iter().map(|c| commit(c)).collect(),
        files: files(paths),
        all_totals: (1, 1),
    }
}

fn refresh(app: &mut App, wts: Vec<WtData>) {
    let kept = app.kept();
    for w in &wts {
        app.refresh_source(&w.info.path, &w.commits);
    }
    app.refresh(wts, &kept);
}

fn bare() -> App {
    App::new(Config::default(), "/top/repo".into(), "main".into())
}

fn app() -> App {
    let mut a = bare();
    refresh(
        &mut a,
        vec![
            wt("/top/repo", true, &["c2", "c1"], &["src/a.rs", "src/b.rs", "z.rs"]),
            wt("/w2", false, &[], &["only.rs"]),
        ],
    );
    a
}

fn key(app: &mut App, c: char) -> Action {
    app.on_key(KeyEvent { code: KeyCode::Char(c), ctrl: false }, 5)
}

fn ctrl(app: &mut App, c: char) -> Action {
    app.on_key(KeyEvent { code: KeyCode::Char(c), ctrl: true }, 5)
}

fn press(app: &mut App, code: KeyCode) -> Action {
    app.on_key(KeyEvent { code, ctrl: false }, 5)
}

fn cursor(app: &App) -> usize {
    app.cur_ui().map(|u| u.cursor).unwrap_or(99)
}

fn selected(app: &App) -> Option<String> {
    app.selected_file().map(|f| f.path.clone())
}

fn message(app: &App) -> Option<String> {
    app.status.as_ref().map(|s| s.0.clone())
}

fn query(a: Action) -> FilesQuery {
    match a {
        Action::Load(q) => q,
        _ => panic!("no files asked for"),
    }
}

// ---- Start and refresh ----

#[test]
fn start() {
    let a = bare();
    assert_eq!(a.repo_name, "repo");
    assert_eq!(a.split_pct, 38);
    assert!(a.smart_base && a.sxs && a.wrap);
    assert!(a.focus == Area::Tree);
    assert!(a.cur_wt().is_none() && a.cur_ui().is_none() && a.selected_file().is_none());
    assert_eq!(a.hist_len(), 2);
    assert!(a.rows().is_empty());
    let mut c = Config::default();
    c.ui.split_pct = 2;
    c.general.base = "trunk".into();
    let a = App::new(c, "/".into(), "trunk".into());
    assert_eq!(a.split_pct, 15);
    assert_eq!(a.repo_name, "?");
    assert!(!a.smart_base);
}

#[test]
fn the_first_changed_worktree_is_picked_once() {
    let mut a = bare();
    refresh(&mut a, vec![wt("/m", true, &[], &[]), wt("/x", false, &[], &[]), wt("/y", false, &[], &["f"])]);
    assert_eq!(a.sel_wt, 2);
    let mut b = bare();
    refresh(&mut b, vec![wt("/m", true, &[], &[])]);
    refresh(&mut b, vec![wt("/m", true, &[], &[]), wt("/y", false, &[], &["f"])]);
    assert_eq!(b.sel_wt, 0);
}

#[test]
fn a_refresh_keeps_the_selection() {
    let mut a = app();
    a.set_wt(1);
    refresh(&mut a, vec![wt("/new", true, &[], &[]), wt("/top/repo", false, &[], &[]), wt("/w2", false, &[], &["a.rs", "only.rs"])]);
    assert_eq!(a.sel_wt, 2);
    assert_eq!(selected(&a), Some("only.rs".into()));
    // The worktree is gone
    refresh(&mut a, vec![wt("/new", true, &[], &["n"])]);
    assert_eq!(a.sel_wt, 0);
    assert_eq!(cursor(&a), 0);
}

#[test]
fn a_refresh_without_worktrees() {
    let mut a = app();
    a.set_wt(1);
    a.refresh(vec![], &Kept { wt: None, file: None });
    assert_eq!(a.sel_wt, 0);
    assert!(a.cur_wt().is_none());
    a.refresh_failed(7);
    assert_eq!(a.status, Some(("git worktree list failed".to_string(), 7)));
}

#[test]
fn a_gone_commit_leads_back_to_all() {
    let mut a = app();
    assert!(a.set_hist(3).is_some());
    assert!(a.refresh_source("/top/repo", &vec![commit("c2"), commit("c1")]).is(&DiffSource::Commit("c1".into())));
    assert!(a.refresh_source("/top/repo", &vec![commit("c2")]).is(&DiffSource::All));
    assert_eq!(a.hist_sel(), 0);
}

#[test]
fn sources() {
    let cs = vec![commit("new"), commit("old")];
    assert!(source_of(0, &cs).is(&DiffSource::All));
    assert!(source_of(1, &cs).is(&DiffSource::Current));
    assert!(source_of(2, &cs).is(&DiffSource::Commit("new".into())));
    assert!(source_of(3, &cs).is(&DiffSource::Commit("old".into())));
    assert!(source_of(4, &cs).is(&DiffSource::All));
}

#[test]
fn worktrees_are_known_by_the_parts_of_their_paths() {
    let mut a = app();
    a.set_wt(1);
    assert!(a.set_hist(1).is_some());
    refresh(&mut a, vec![wt("/top/repo/", true, &[], &["n"]), wt("/w2/", false, &[], &["only.rs"])]);
    assert_eq!(a.sel_wt, 1);
    assert_eq!(selected(&a), Some("only.rs".into()));
    // What was selected in its history is remembered too
    assert_eq!(a.hist_sel(), 1);
    build(&mut a, 1);
    refresh(&mut a, vec![wt("/top/repo", true, &[], &["n"]), wt("/w2", false, &[], &["only.rs"])]);
    assert!(matches!(a.doc_step(1), DocStep::Ready(_)));
}

#[test]
fn totals_are_those_of_all_changes() {
    let info = || Worktree { path: "/w".into(), branch: "b".into(), is_main: false };
    let mb = Some("abc".to_string());
    assert!(!wants_all(&DiffSource::All));
    let w = worktree_data(info(), mb.clone(), vec![], files(&["a", "b"]), &DiffSource::All, None);
    assert_eq!(w.all_totals, (2, 2));
    for source in [DiffSource::Current, DiffSource::Commit("c".into())] {
        assert!(wants_all(&source));
        let all = files(&["a", "b", "c"]);
        let w = worktree_data(info(), None, vec![commit("c")], files(&["a"]), &source, Some(all));
        assert_eq!(w.all_totals, (3, 3));
        assert_eq!((w.files.len(), w.commits.len(), w.info.path.as_str()), (1, 1, "/w"));
        assert!(w.merge_base.is_none());
    }
    assert_eq!(
        history_args(&mb),
        Some(vec![
            "log".to_string(),
            "--format=%H\u{1f}%h\u{1f}%ct\u{1f}%s".to_string(),
            "abc..HEAD".to_string()
        ])
    );
    assert_eq!(history_args(&None), None);
    let log = Some("aa\u{1f}a\u{1f}12\u{1f}sub\n".to_string());
    assert_eq!(history_of(&mb, &log).len(), 1);
    assert_eq!(history_of(&mb, &log)[0].sha, "aa");
    assert!(history_of(&mb, &None).is_empty());
    // Without an anchor there is no history, and the head is what is compared with
    assert!(history_of(&None, &log).is_empty());
    assert_eq!((compared_with(&mb).as_str(), compared_with(&None).as_str()), ("abc", "HEAD"));
}

// ---- Keys ----

#[test]
fn ending() {
    let mut a = app();
    key(&mut a, 'q');
    assert!(a.quit);
    let mut b = app();
    key(&mut b, 'c');
    assert!(!b.quit);
    ctrl(&mut b, 'c');
    assert!(b.quit);
    let mut c = app();
    ctrl(&mut c, 'q');
    assert!(!c.quit);
    ctrl(&mut c, 'l');
    assert!(c.want_clear);
}

#[test]
fn focus_moves_down_and_up() {
    let mut a = app();
    ctrl(&mut a, 'j');
    assert!(a.focus == Area::Diff);
    ctrl(&mut a, 'j');
    assert!(a.focus == Area::Diff);
    for want in [Area::Tree, Area::History, Area::Worktree, Area::Worktree] {
        ctrl(&mut a, 'k');
        assert!(a.focus == want);
    }
    press(&mut a, KeyCode::Enter);
    assert!(a.focus == Area::History);
    press(&mut a, KeyCode::Esc);
    assert!(a.focus == Area::Worktree);
    a.narrow = true;
    for _ in 0..3 {
        ctrl(&mut a, 'j');
    }
    assert!(a.narrow_diff);
    key(&mut a, 'h');
    assert!(!a.narrow_diff && a.focus == Area::Tree);
}

#[test]
fn toggles() {
    let mut a = app();
    key(&mut a, 's');
    assert!(!a.sxs);
    key(&mut a, 's');
    assert!(a.sxs);
    key(&mut a, 'w');
    assert_eq!(message(&a), Some("wrap: OFF".into()));
    key(&mut a, 'w');
    assert_eq!(a.status, Some(("wrap: ON".to_string(), 5)));
    // The next key clears the message
    key(&mut a, 's');
    assert_eq!(message(&a), None);
    key(&mut a, 't');
    assert!(a.flat);
    assert_eq!(a.rows().len(), 3);
}

#[test]
fn the_split_has_limits() {
    let mut a = app();
    for _ in 0..30 {
        key(&mut a, '<');
    }
    assert_eq!(a.split_pct, 15);
    key(&mut a, '>');
    assert_eq!(a.split_pct, 19);
    for _ in 0..30 {
        key(&mut a, '>');
    }
    assert_eq!(a.split_pct, 85);
}

#[test]
fn typing_a_filter() {
    let mut a = app();
    key(&mut a, '/');
    assert!(a.filter_input);
    for c in "zq".chars() {
        key(&mut a, c);
    }
    assert_eq!(a.filter, "zq");
    assert!(a.rows().is_empty() && cursor(&a) == 0 && !a.quit);
    press(&mut a, KeyCode::Backspace);
    assert_eq!(a.rows().len(), 1);
    press(&mut a, KeyCode::Enter);
    assert!(!a.filter_input);
    assert_eq!(a.filter, "z");
    key(&mut a, '/');
    press(&mut a, KeyCode::Esc);
    assert_eq!(a.filter, "");
    assert!(!a.filter_input);
}

#[test]
fn choosing_a_worktree() {
    let mut a = app();
    a.diff_scroll = 4;
    key(&mut a, '2');
    assert_eq!((a.sel_wt, a.diff_scroll), (1, 0));
    key(&mut a, '9');
    assert_eq!(a.sel_wt, 1);
    key(&mut a, '}');
    assert_eq!(a.sel_wt, 1);
    key(&mut a, '{');
    assert_eq!(a.sel_wt, 0);
    key(&mut a, '{');
    assert_eq!(a.sel_wt, 0);
    a.focus = Area::Worktree;
    key(&mut a, 'l');
    assert_eq!(a.sel_wt, 1);
    press(&mut a, KeyCode::Left);
    assert_eq!(a.sel_wt, 0);
}

#[test]
fn choosing_in_the_history() {
    let mut a = app();
    let q = query(key(&mut a, ']'));
    assert_eq!((q.wt.as_str(), q.mb.as_str()), ("/top/repo", "mb"));
    assert!(q.source.is(&DiffSource::Current));
    assert_eq!(a.hist_sel(), 1);
    a.diff_scroll = 3;
    a.install_files(files(&["one.rs"]));
    assert_eq!(a.diff_scroll, 0);
    assert_eq!(a.rows().len(), 1);
    a.focus = Area::History;
    assert!(query(key(&mut a, 'l')).source.is(&DiffSource::Commit("c2".into())));
    assert!(query(press(&mut a, KeyCode::Right)).source.is(&DiffSource::Commit("c1".into())));
    // There is nothing after the last commit
    assert!(matches!(key(&mut a, 'l'), Action::Nothing));
    assert_eq!(a.hist_sel(), 3);
    assert!(query(key(&mut a, '[')).source.is(&DiffSource::Commit("c2".into())));
    assert!(a.source().is(&DiffSource::Commit("c2".into())));
}

#[test]
fn moving_in_the_tree() {
    // src, a.rs, b.rs, z.rs
    let mut a = app();
    assert_eq!(selected(&a), None);
    key(&mut a, 'j');
    assert_eq!(selected(&a), Some("src/a.rs".into()));
    for _ in 0..9 {
        press(&mut a, KeyCode::Down);
    }
    assert_eq!(selected(&a), Some("z.rs".into()));
    press(&mut a, KeyCode::Up);
    assert_eq!(cursor(&a), 2);
    // To the directory of the file, then close it
    key(&mut a, 'h');
    assert_eq!(cursor(&a), 0);
    key(&mut a, 'h');
    assert_eq!(a.rows().len(), 2);
    key(&mut a, 'l');
    assert_eq!(a.rows().len(), 4);
    press(&mut a, KeyCode::Enter);
    assert_eq!(a.rows().len(), 2);
    press(&mut a, KeyCode::Enter);
    assert_eq!(a.rows().len(), 4);
    key(&mut a, 'j');
    press(&mut a, KeyCode::Enter);
    assert!(a.focus == Area::Diff);
    press(&mut a, KeyCode::Esc);
    assert!(a.focus == Area::Tree);
    press(&mut a, KeyCode::Esc);
    assert!(a.focus == Area::History);
}

#[test]
fn enter_twice_gives_back_the_tree() {
    let mut a = bare();
    refresh(&mut a, vec![wt("/r", true, &[], &["a/x/1", "a/x/2", "a/y", "b/z", "c"])]);
    let shown = |a: &App| -> Vec<(usize, String, bool)> {
        a.rows().iter().map(|r| (r.depth, r.label.clone(), r.expanded)).collect()
    };
    for row in [1, 0, 5] {
        while cursor(&a) != row {
            let to = if cursor(&a) < row { 'j' } else { 'k' };
            key(&mut a, to);
        }
        let before = shown(&a);
        assert!(matches!(press(&mut a, KeyCode::Enter), Action::Nothing));
        let between = shown(&a);
        assert!(between.len() < before.len());
        assert_eq!(between[..row], before[..row]);
        assert_eq!(between[row], (before[row].0, before[row].1.clone(), false));
        assert!(cursor(&a) == row && a.focus == Area::Tree);
        press(&mut a, KeyCode::Enter);
        assert_eq!(shown(&a), before);
        assert!(cursor(&a) == row && a.focus == Area::Tree);
        assert!(a.cur_ui().is_some_and(|u| u.collapsed.items().is_empty()));
    }
    // From a collapsed one, too
    press(&mut a, KeyCode::Enter);
    let before = shown(&a);
    press(&mut a, KeyCode::Enter);
    press(&mut a, KeyCode::Enter);
    assert_eq!(shown(&a), before);
    assert_eq!(cursor(&a), 5);
}

#[test]
fn moving_in_the_diff() {
    let mut a = app();
    a.focus = Area::Diff;
    a.diff_height = 10;
    a.diff_max_scroll = 7;
    key(&mut a, 'j');
    assert_eq!(a.diff_scroll, 1);
    key(&mut a, 'd');
    assert_eq!(a.diff_scroll, 6);
    press(&mut a, KeyCode::PageDown);
    assert_eq!(a.diff_scroll, 7);
    key(&mut a, 'j');
    assert_eq!(a.diff_scroll, 7);
    key(&mut a, 'u');
    assert_eq!(a.diff_scroll, 2);
    press(&mut a, KeyCode::PageUp);
    assert_eq!(a.diff_scroll, 0);
    // After a jump past the limit, going on does not go back
    a.diff_scroll = 12;
    key(&mut a, 'j');
    assert_eq!(a.diff_scroll, 12);
    assert!(matches!(key(&mut a, 'n'), Action::Jump(true)));
    assert!(matches!(key(&mut a, 'p'), Action::Jump(false)));
    key(&mut a, 'J');
    assert_eq!((cursor(&a), a.diff_scroll), (1, 0));
    key(&mut a, 'J');
    key(&mut a, 'J');
    key(&mut a, 'J');
    assert_eq!(selected(&a), Some("z.rs".into()));
    for _ in 0..4 {
        key(&mut a, 'K');
    }
    assert_eq!(selected(&a), Some("src/a.rs".into()));
}

// ---- Opening ----

fn with_openers() -> App {
    let mut c = Config::default();
    c.open.default = "vim".into();
    c.open.openers.insert("vim".into(), Opener { cmd: vec!["vim".into(), "+{line}".into(), "{file}".into()] });
    c.open.openers.insert("none".into(), Opener { cmd: vec![] });
    let mut a = App::new(c, "/r".into(), "main".into());
    refresh(&mut a, vec![wt("/r", true, &[], &["a.rs"])]);
    a
}

const NO_OPENER: &str = "no opener configured (set [open] in ~/.config/wtd/config.toml)";

#[test]
fn opening_the_selected_file() {
    let mut a = with_openers();
    assert_eq!(a.opener_names(), vec!["none", "vim"]);
    assert!(a.open_check(1));
    assert_eq!(
        a.open_selected(&None, Some(4), &None, 1),
        Some(vec!["vim".to_string(), "+4".to_string(), "/r/a.rs".to_string()])
    );
    assert_eq!(a.open_selected(&Some("none".into()), None, &None, 1), None);
    assert_eq!(message(&a), Some("opener cmd is empty".into()));
    assert_eq!(a.open_selected(&Some("emacs".into()), None, &None, 1), None);
    assert_eq!(message(&a), Some(NO_OPENER.into()));
    a.open_done("a.rs", &None, true, 2);
    assert_eq!(a.status, Some(("opened: a.rs".to_string(), 2)));
    a.clear_status();
    a.open_done("a.rs", &None, false, 2);
    assert_eq!(message(&a), None);
    a.open_done("a.rs", &Some("failed to spawn vim: x".into()), false, 2);
    assert_eq!(message(&a), Some("failed to spawn vim: x".into()));
    a.open_system("a.rs", &None, 3);
    assert_eq!(message(&a), Some("opened with system app: a.rs".into()));
    a.open_system("a.rs", &Some("no".into()), 3);
    assert_eq!(message(&a), Some("no".into()));
}

#[test]
fn what_cannot_be_opened() {
    let mut a = app();
    assert!(!a.open_check(1));
    assert_eq!(message(&a), Some("no file selected".into()));
    key(&mut a, 'j');
    a.wts[0].files[0].status = FileStatus::Deleted;
    assert!(!a.open_check(1));
    assert_eq!(message(&a), Some("cannot open a deleted file".into()));
    let mut b = bare();
    assert!(!b.open_check(1));
    assert_eq!(message(&b), None);
}

#[test]
fn picking_an_opener() {
    let mut a = app();
    key(&mut a, 'E');
    assert_eq!(message(&a), Some(NO_OPENER.into()));
    assert!(a.picker.is_none());
    let mut a = with_openers();
    key(&mut a, 'E');
    assert_eq!(a.picker, Some(0));
    key(&mut a, 'j');
    key(&mut a, 'j');
    assert_eq!(a.picker, Some(1));
    match press(&mut a, KeyCode::Enter) {
        Action::Open(name, report) => assert_eq!((name, report), (Some("vim".to_string()), true)),
        _ => panic!("nothing opened"),
    }
    assert_eq!(a.picker, None);
    key(&mut a, 'E');
    key(&mut a, 'k');
    key(&mut a, 'q');
    assert!(a.picker.is_none() && !a.quit);
    assert!(matches!(key(&mut a, 'o'), Action::Open(None, true)));
    assert!(matches!(key(&mut a, 'e'), Action::Open(None, true)));
    assert!(matches!(key(&mut a, 'O'), Action::OpenSystem));
}

// ---- Following ----

#[test]
fn following_the_latest_file() {
    let mut a = app();
    assert!(matches!(key(&mut a, 'f'), Action::Follow));
    assert_eq!(message(&a), Some("follow: ON".into()));
    let q = a.follow_query().unwrap();
    assert!(q.source.is(&DiffSource::Current));
    assert!(a.follow_hist(false).is_none());
    assert!(a.follow_hist(true).is_some());
    a.install_files(files(&["a", "b", "c"]));
    assert!(a.follow_latest(&vec![Some(5), Some(9), None]));
    assert_eq!(selected(&a), Some("b".into()));
    // Nothing new
    assert!(!a.follow_latest(&vec![Some(5), Some(9), None]));
    assert!(a.follow_latest(&vec![Some(5), Some(10), None]));
    // The first of two that are equally new
    assert!(a.follow_latest(&vec![Some(11), Some(11), None]));
    assert_eq!(selected(&a), Some("a".into()));
    a.wts[0].files[0].status = FileStatus::Deleted;
    assert!(a.follow_latest(&vec![Some(99), Some(12), None]));
    assert_eq!(selected(&a), Some("b".into()));
    assert!(!a.follow_latest(&vec![None, None, None]));
    assert!(matches!(key(&mut a, 'f'), Action::Nothing));
    assert_eq!(message(&a), Some("follow: OFF".into()));
}

// ---- Documents ----

fn build(a: &mut App, mtime: u128) -> (Rc<DiffDoc>, Option<HlReq>) {
    match a.doc_step(mtime) {
        DocStep::Build(k, later) => a.doc_built(k, later, DIFF.to_string()),
        _ => panic!("nothing to build"),
    }
}

#[test]
fn documents_are_built_and_kept() {
    let mut a = app();
    assert!(a.doc_target().is_none());
    assert!(matches!(a.doc_step(1), DocStep::Nothing));
    key(&mut a, 'j');
    let t = a.doc_target().unwrap();
    assert_eq!((t.wt.as_str(), t.file.path.as_str(), t.mb.as_str()), ("/top/repo", "src/a.rs", "mb"));
    a.diff_scroll = 3;
    let (doc, req) = build(&mut a, 1);
    assert_eq!(a.diff_scroll, 0);
    assert_eq!(a.cur_doc_gen, 1);
    assert_eq!(doc.unified.len(), 6);
    let req = req.unwrap();
    assert_eq!((req.path.as_str(), req.text.as_str()), ("src/a.rs", DIFF));
    a.diff_scroll = 2;
    match a.doc_step(1) {
        DocStep::Ready(d) => assert!(Rc::ptr_eq(&d, &doc)),
        _ => panic!("not kept"),
    }
    assert_eq!(a.diff_scroll, 2);
    // The colored one takes its place and keeps the position
    let hi = Highlighter::new("base16-ocean.dark");
    a.poll_async(color(&hi, req));
    match a.doc_step(1) {
        DocStep::Ready(d) => assert!(d.unified[1].segs[0].style.fg.is_some()),
        _ => panic!("not kept"),
    }
    assert_eq!((a.diff_scroll, a.cur_doc_gen), (2, 2));
    // An edit makes a new one
    assert!(matches!(a.doc_step(8), DocStep::Build(_, true)));
    assert_eq!(a.diff_scroll, 0);
}

#[test]
fn what_was_not_colored_is_asked_for_again() {
    let mut a = app();
    key(&mut a, 'j');
    build(&mut a, 1);
    key(&mut a, 'j');
    build(&mut a, 1);
    key(&mut a, 'k');
    match a.doc_step(1) {
        DocStep::Recolor(_, k) => assert_eq!(k.path, "src/a.rs"),
        _ => panic!("not asked for"),
    }
    // But once only
    assert!(matches!(a.doc_step(1), DocStep::Ready(_)));
}

#[test]
fn large_diffs_are_not_colored() {
    let mut a = app();
    key(&mut a, 'j');
    a.wts[0].files[0].added = Some(1200);
    a.wts[0].files[0].deleted = Some(0);
    assert!(matches!(a.doc_step(1), DocStep::Build(_, true)));
    a.wts[0].files[0].deleted = Some(1);
    let (doc, req) = build(&mut a, 1);
    assert!(req.is_none());
    assert_eq!(doc.note.as_deref(), Some("syntax off (large diff)"));
}

#[test]
fn only_so_many_documents_are_kept() {
    let mut a = app();
    key(&mut a, 'j');
    for t in 0..20 {
        build(&mut a, t);
    }
    assert_eq!(a.docs.len(), DOC_CACHE);
    assert!(matches!(a.doc_step(12), DocStep::Recolor(_, _)));
    assert!(matches!(a.doc_step(11), DocStep::Build(_, _)));
}

#[test]
fn a_document_is_kept_over_seven_others() {
    let names = ["a", "b", "c", "d", "e", "f", "g", "h", "i"];
    let mut a = bare();
    refresh(&mut a, vec![wt("/r", true, &[], &names)]);
    let (doc, _) = build(&mut a, 1);
    let gen = a.cur_doc_gen;
    for n in &names[1..8] {
        a.select_file_by_path(n);
        build(&mut a, 1);
    }
    a.select_file_by_path("a");
    a.diff_scroll = 9;
    match a.doc_step(1) {
        DocStep::Recolor(d, _) => assert!(Rc::ptr_eq(&d, &doc)),
        _ => panic!("not kept"),
    }
    assert_eq!((a.cur_doc_gen, a.diff_scroll), (gen, 0));
    a.diff_scroll = 9;
    assert!(matches!(a.doc_step(1), DocStep::Ready(_)));
    assert_eq!((a.cur_doc_gen, a.diff_scroll), (gen, 9));
    // An eighth one takes the place of the one that was looked at least lately
    a.select_file_by_path("i");
    build(&mut a, 1);
    a.select_file_by_path("b");
    assert!(matches!(a.doc_step(1), DocStep::Build(_, _)));
}

#[test]
fn versions_are_told_apart() {
    let f = file("a");
    let mark = |f: &FileChange, t: u128| {
        let m = file_fingerprint(f, t);
        (m.mtime, m.added, m.deleted, m.status, m.old_path)
    };
    assert_eq!(mark(&f, 3), (3, 1, 1, FileStatus::Modified, None));
    let mut g = file("a");
    g.added = None;
    g.deleted = Some(2);
    g.old_path = Some("o".into());
    assert_eq!(mark(&g, 3), (3, 0, 2, FileStatus::Modified, Some("o".to_string())));
}

#[test]
fn the_slot_holds_the_latest_request() {
    let mut a = app();
    key(&mut a, 'j');
    let (_, first) = build(&mut a, 1);
    let (_, second) = build(&mut a, 2);
    let mut slot = HlSlot::new();
    assert!(slot.take().is_none());
    slot.put(first.unwrap());
    slot.put(second.unwrap());
    assert_eq!(slot.take().map(|r| r.key.mark.mtime), Some(2));
    assert!(slot.take().is_none());
}

#[test]
fn jumping_from_hunk_to_hunk() {
    let doc = build_doc(DIFF, "x", Hl::Pending);
    assert_eq!(doc.hunks_u, vec![0, 3]);
    let mut a = app();
    // Each row on a line of its own, as long as no table is there
    a.jump_hunk(&doc, true, 0);
    assert_eq!(a.diff_scroll, 3);
    a.jump_hunk(&doc, true, 3);
    assert_eq!(a.diff_scroll, 3);
    assert_eq!(a.hunk_pos(&doc, 3), Some((2, 2)));
    assert_eq!(a.hunk_pos(&doc, 2), Some((1, 2)));
    a.jump_hunk(&doc, false, 3);
    assert_eq!(a.diff_scroll, 0);
    a.row_offsets = vec![0, 1, 4, 9, 10, 11, 12];
    a.jump_hunk(&doc, true, 0);
    assert_eq!(a.diff_scroll, 9);
    // The second hunk is one row further up in two columns
    a.effective_sxs = true;
    a.jump_hunk(&doc, true, 0);
    assert_eq!(a.diff_scroll, 4);
    assert_eq!(a.hunk_pos(&build_doc("", "x", Hl::Pending), 0), None);
}
