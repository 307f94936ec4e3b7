use wtd::git::{
    anchor, anchor_args, anchor_next, base_args, base_next, changed_files, commits_args,
    commits_since, count_lines, current_branch, detect_base, diff_text_args, list_args,
    list_worktrees, main_checkout, merge_base, name_status_args, numstat_args, parse_name_status,
    parse_numstat, parse_status_char, smart_base, toplevel_args, totals, untracked_args,
    untracked_paths, upstream_ref, with_untracked, AnchorStage, AnchorStep, BaseStage, BaseStep,
    DiffSource, FileChange, FileStatus,
};

fn some(s: &str) -> Option<String> {
    Some(s.to_string())
}

fn file(path: &str, status: FileStatus) -> FileChange {
    FileChange { path: path.into(), old_path: None, status, added: None, deleted: None }
}

const LIST: &str = "worktree /r\nHEAD abcdef0123456789\nbranch refs/heads/main\n\n\
worktree /r/.worktrees/x\nHEAD 0123456789abcdef\ndetached\n\n\
worktree /elsewhere\nHEAD 00\nbranch odd/name\n\n";

#[test]
fn worktrees_are_listed() {
    let wts = list_worktrees(LIST);
    let got: Vec<(&str, &str, bool)> =
        wts.iter().map(|w| (w.path.as_str(), w.branch.as_str(), w.is_main)).collect();
    assert_eq!(
        got,
        vec![
            ("/r", "main", true),
            ("/r/.worktrees/x", "(01234567)", false),
            ("/elsewhere", "odd/name", false),
        ]
    );
    assert!(list_worktrees("").is_empty());
    assert!(list_worktrees("HEAD 12\nbranch refs/heads/x\n").is_empty());
}

#[test]
fn a_bare_worktree_has_no_branch() {
    let wts = list_worktrees("worktree /b\nbare\n");
    assert_eq!(wts.len(), 1);
    assert_eq!(wts[0].branch, "");
    assert!(wts[0].is_main);
}

#[test]
fn main_checkout_comes_first() {
    assert_eq!(main_checkout(LIST), some("/r"));
    assert_eq!(main_checkout(""), None);
    assert_eq!(list_args(), vec!["worktree", "list", "--porcelain"]);
    assert_eq!(toplevel_args(), vec!["rev-parse", "--show-toplevel"]);
}

fn asks(step: BaseStep, want: BaseStage) -> bool {
    match step {
        BaseStep::Ask(s) => s == want,
        BaseStep::Done(_) => false,
    }
}

fn base(step: BaseStep) -> String {
    match step {
        BaseStep::Ask(_) => panic!("not found yet"),
        BaseStep::Done(b) => b,
    }
}

#[test]
fn base_branch_is_found() {
    assert_eq!(base(detect_base("trunk")), "trunk");
    assert!(asks(detect_base("auto"), BaseStage::Develop));
    assert!(asks(detect_base(""), BaseStage::Develop));
    assert_eq!(base(base_next(BaseStage::Develop, &some(""))), "develop");
    assert!(asks(base_next(BaseStage::Develop, &None), BaseStage::OriginHead));
    let head = some("refs/remotes/origin/trunk\n");
    assert_eq!(base(base_next(BaseStage::OriginHead, &head)), "trunk");
    assert!(asks(base_next(BaseStage::OriginHead, &some("refs/heads/x\n")), BaseStage::Main));
    assert!(asks(base_next(BaseStage::OriginHead, &None), BaseStage::Main));
    assert_eq!(base(base_next(BaseStage::Main, &some(""))), "main");
    assert!(asks(base_next(BaseStage::Main, &None), BaseStage::Master));
    assert_eq!(base(base_next(BaseStage::Master, &some(""))), "master");
    assert_eq!(base(base_next(BaseStage::Master, &None)), "HEAD");
}

#[test]
fn base_questions() {
    assert_eq!(
        base_args(BaseStage::Develop),
        vec!["show-ref", "--verify", "--quiet", "refs/heads/develop"]
    );
    assert_eq!(base_args(BaseStage::OriginHead), vec!["symbolic-ref", "refs/remotes/origin/HEAD"]);
    assert_eq!(
        base_args(BaseStage::Main),
        vec!["show-ref", "--verify", "--quiet", "refs/heads/main"]
    );
    assert_eq!(
        base_args(BaseStage::Master),
        vec!["show-ref", "--verify", "--quiet", "refs/heads/master"]
    );
}

#[test]
fn auto_base_is_smart() {
    assert!(smart_base("auto"));
    assert!(smart_base(" auto "));
    assert!(smart_base(""));
    assert!(smart_base("  "));
    assert!(!smart_base("main"));
}

#[test]
fn replies_are_trimmed() {
    assert_eq!(current_branch(&some("main\n")), some("main"));
    assert_eq!(current_branch(&some("\n")), None);
    assert_eq!(current_branch(&None), None);
    assert_eq!(upstream_ref(&some(" origin/main \n")), some("origin/main"));
    assert_eq!(upstream_ref(&some("")), None);
    assert_eq!(merge_base(&some("abc\n")), some("abc"));
    assert_eq!(merge_base(&some("")), some(""));
    assert_eq!(merge_base(&None), None);
}

fn asked(step: AnchorStep) -> Vec<String> {
    match step {
        AnchorStep::Ask(s) => anchor_args(&s),
        AnchorStep::Done(_) => panic!("nothing asked"),
    }
}

#[test]
fn anchor_of_a_feature_branch() {
    let mb = vec!["merge-base", "main", "HEAD"];
    assert_eq!(asked(anchor("main", false)), mb);
    assert_eq!(asked(anchor("main", true)), vec!["symbolic-ref", "--quiet", "--short", "HEAD"]);
    assert_eq!(asked(anchor_next("main", &AnchorStage::Branch, &some("feature\n"))), mb);
    assert_eq!(asked(anchor_next("main", &AnchorStage::Branch, &None)), mb);
    let stage = AnchorStage::MergeBase("main".into());
    match anchor_next("main", &stage, &some("abc\n")) {
        AnchorStep::Done(a) => assert_eq!(a, some("abc")),
        AnchorStep::Ask(_) => panic!("asked again"),
    }
    match anchor_next("main", &stage, &None) {
        AnchorStep::Done(a) => assert_eq!(a, None),
        AnchorStep::Ask(_) => panic!("asked again"),
    }
}

#[test]
fn anchor_on_the_base_branch() {
    assert_eq!(
        asked(anchor_next("main", &AnchorStage::Branch, &some("main\n"))),
        vec!["rev-parse", "--abbrev-ref", "--symbolic-full-name", "@{upstream}"]
    );
    assert_eq!(
        asked(anchor_next("main", &AnchorStage::Upstream, &some("origin/main\n"))),
        vec!["merge-base", "origin/main", "HEAD"]
    );
    assert_eq!(
        asked(anchor_next("main", &AnchorStage::Upstream, &None)),
        vec!["merge-base", "main", "HEAD"]
    );
}

#[test]
fn commits_are_read() {
    assert_eq!(
        commits_args("abc"),
        vec!["log", "--format=%H\u{1f}%h\u{1f}%ct\u{1f}%s", "abc..HEAD"]
    );
    let log = "aaaa\u{1f}aa\u{1f}12\u{1f}sub\tject\nbbbb\u{1f}bb\u{1f}x\u{1f}bad time\n\
cccc\u{1f}cc\u{1f}-5\nlone\n";
    let got = commits_since(&some(log));
    assert_eq!(got.len(), 2);
    assert_eq!(got[0].sha, "aaaa");
    assert_eq!(got[0].short, "aa");
    assert_eq!(got[0].time, 12);
    assert_eq!(got[0].subject, "sub ject");
    assert_eq!(got[1].time, -5);
    assert_eq!(got[1].subject, "");
    assert!(commits_since(&None).is_empty());
}

#[test]
fn statuses_are_read() {
    assert!(parse_status_char("M") == FileStatus::Modified);
    assert!(parse_status_char("A") == FileStatus::Added);
    assert!(parse_status_char("D") == FileStatus::Deleted);
    assert!(parse_status_char("R086") == FileStatus::Renamed);
    assert!(parse_status_char("C100") == FileStatus::Renamed);
    assert!(parse_status_char("T") == FileStatus::Other);
    assert!(parse_status_char("") == FileStatus::Other);
    let badges: String = [
        FileStatus::Modified,
        FileStatus::Added,
        FileStatus::Deleted,
        FileStatus::Renamed,
        FileStatus::Untracked,
        FileStatus::Other,
    ]
    .iter()
    .map(|s| s.badge())
    .collect();
    assert_eq!(badges, "MADR?·");
}

#[test]
fn name_status_is_read() {
    let got = parse_name_status("M\0a.rs\0R100\0old\0new\0T\0z\0A");
    assert_eq!(got.len(), 3);
    assert!(got[0] == (FileStatus::Modified, None, "a.rs".to_string()));
    assert!(got[1] == (FileStatus::Renamed, some("old"), "new".to_string()));
    assert!(got[2] == (FileStatus::Other, None, "z".to_string()));
    assert!(parse_name_status("R100\0old\0").is_empty());
    assert!(parse_name_status("").is_empty());
}

#[test]
fn numstat_is_read() {
    let got = parse_numstat("3\t1\ta.rs\0-\t-\tbin\05\t0\t\0old\0new\0junk\0");
    assert_eq!(
        got,
        vec![
            ("a.rs".to_string(), Some(3), Some(1)),
            ("bin".to_string(), None, None),
            ("new".to_string(), Some(5), Some(0)),
        ]
    );
    assert_eq!(parse_numstat("1\t2\ta\tb\0"), vec![("a\tb".to_string(), Some(1), Some(2))]);
    assert!(parse_numstat("1\t2\t\0old\0").len() == 1);
    assert!(parse_numstat("1\t2\t\0old").is_empty());
}

#[test]
fn lines_are_counted() {
    assert_eq!(count_lines(&None), None);
    assert_eq!(count_lines(&Some(vec![])), Some(0));
    assert_eq!(count_lines(&Some(b"a\nb\nc".to_vec())), Some(2));
    assert_eq!(count_lines(&Some(b"a\0b\n".to_vec())), None);
    // A zero after the first 8192 bytes does not make a file binary
    let mut late = vec![b'\n'; 8192];
    late.push(0);
    assert_eq!(count_lines(&Some(late)), Some(8192));
    let mut early = vec![b'\n'; 8191];
    early.push(0);
    assert_eq!(count_lines(&Some(early)), None);
}

#[test]
fn file_questions() {
    let sha = DiffSource::Commit("c0ffee".into());
    assert_eq!(
        name_status_args(&DiffSource::All, "mb"),
        vec!["diff", "--name-status", "-M", "-z", "mb"]
    );
    assert_eq!(
        name_status_args(&DiffSource::Current, "mb"),
        vec!["diff", "--name-status", "-M", "-z", "HEAD"]
    );
    assert_eq!(
        name_status_args(&sha, "mb"),
        vec!["show", "--format=", "--name-status", "-M", "-z", "c0ffee"]
    );
    assert_eq!(
        numstat_args(&DiffSource::All, "mb"),
        vec!["diff", "--numstat", "-M", "-z", "mb"]
    );
    assert_eq!(
        numstat_args(&DiffSource::Current, "mb"),
        vec!["diff", "--numstat", "-M", "-z", "HEAD"]
    );
    assert_eq!(
        numstat_args(&sha, "mb"),
        vec!["show", "--format=", "--numstat", "-M", "-z", "c0ffee"]
    );
    assert!(with_untracked(&DiffSource::All));
    assert!(with_untracked(&DiffSource::Current));
    assert!(!with_untracked(&sha));
    assert_eq!(untracked_args(), vec!["ls-files", "--others", "--exclude-standard", "-z"]);
    assert_eq!(untracked_paths("a\0b/\0\0c d\0"), vec!["a", "c d"]);
    assert!(sha.is(&DiffSource::Commit("c0ffee".into())));
    assert!(!sha.is(&DiffSource::All));
}

#[test]
fn files_are_put_together_and_sorted() {
    let ns = "M\0src/z.rs\0R100\0old\0a/new\0A\0bin\0";
    let num = "1\t1\tsrc/z.rs\03\t4\t\0old\0a/new\0-\t-\tbin\07\t8\tsrc/z.rs\0";
    let untracked = vec![("notes".to_string(), Some(5)), ("blob".to_string(), None)];
    let got = changed_files(ns, num, &untracked);
    let paths: Vec<&str> = got.iter().map(|f| f.path.as_str()).collect();
    assert_eq!(paths, vec!["a/new", "bin", "blob", "notes", "src/z.rs"]);
    assert_eq!(got[0].old_path, some("old"));
    assert!(got[0].status == FileStatus::Renamed);
    assert_eq!((got[0].added, got[0].deleted), (Some(3), Some(4)));
    assert_eq!((got[1].added, got[1].deleted), (None, None));
    assert!(got[2].status == FileStatus::Untracked);
    assert_eq!((got[2].added, got[2].deleted), (None, None));
    assert_eq!((got[3].added, got[3].deleted), (Some(5), Some(0)));
    // What comes last counts
    assert_eq!((got[4].added, got[4].deleted), (Some(7), Some(8)));
    assert_eq!(totals(&got), (15, 12));
    assert_eq!(totals(&vec![]), (0, 0));
}

#[test]
fn equal_paths_keep_their_order() {
    let got = changed_files("M\0b\0D\0a\0A\0b\0", "", &vec![]);
    assert_eq!(got.len(), 3);
    assert!(got[0].status == FileStatus::Deleted);
    assert!(got[1].status == FileStatus::Modified);
    assert!(got[2].status == FileStatus::Added);
}

#[test]
fn diff_questions() {
    let f = file("a.rs", FileStatus::Modified);
    assert_eq!(diff_text_args(&DiffSource::All, &f, "mb"), vec!["diff", "-M", "mb", "--", "a.rs"]);
    assert_eq!(
        diff_text_args(&DiffSource::Current, &f, "mb"),
        vec!["diff", "-M", "HEAD", "--", "a.rs"]
    );
    let mut r = file("new", FileStatus::Renamed);
    r.old_path = some("old");
    assert_eq!(
        diff_text_args(&DiffSource::Commit("c0".into()), &r, "mb"),
        vec!["show", "--format=", "-M", "c0", "--", "old", "new"]
    );
    let u = file("u", FileStatus::Untracked);
    assert_eq!(
        diff_text_args(&DiffSource::All, &u, "mb"),
        vec!["diff", "--no-index", "--", "/dev/null", "u"]
    );
}
