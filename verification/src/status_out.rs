//! The one-shot report in text form.

use crate::git::{badge_of, files_view, totals, totals_of, FileChange, FileV, Worktree, WorktreeV};
use crate::text::{align_left, cat, dec, decimal, left_aligned, strs};
use vstd::prelude::*;
use vstd::string::*;

verus! {

/// The changed lines of a file as text: `+a -d`, or `Bin` for a binary file.
pub open spec fn stats_text(f: FileV) -> Seq<char> {
    match (f.added, f.deleted) {
        (Some(a), Some(d)) => "+"@ + decimal(a as nat) + " -"@ + decimal(d as nat),
        _ => "Bin"@,
    }
}

/// The changed lines of a file as text.
pub fn stats_of(f: &FileChange) -> (r: String)
    ensures
        r@ == stats_text(f@),
{
    match (f.added, f.deleted) {
        (Some(a), Some(d)) => plus_minus(a, d),
        _ => "Bin".to_string(),
    }
}

/// Added and removed lines as text: `+a -d`.
pub fn plus_minus(a: u64, d: u64) -> (r: String)
    ensures
        r@ == "+"@ + decimal(a as nat) + " -"@ + decimal(d as nat),
{
    let mut s = cat("+", dec(a).as_str());
    s.append(" -");
    s.append(dec(d).as_str());
    s
}

/// The name of a worktree in the report.
pub open spec fn report_name(wt: WorktreeV) -> Seq<char> {
    if wt.is_main {
        wt.branch + " (main checkout)"@
    } else {
        wt.branch
    }
}

/// The line of a file in the report.
pub open spec fn file_line(f: FileV) -> Seq<char> {
    "  "@ + seq![badge_of(f.status)] + " "@ + left_aligned(f.path, 50) + " "@ + stats_text(f)
}

/// The lines of a worktree in the report: one line where nothing has changed, else a line with
/// the totals, one for each file, and an empty one.
pub open spec fn report(wt: WorktreeV, files: Seq<FileV>) -> Seq<Seq<char>> {
    if files.len() == 0 {
        seq![report_name(wt) + "  clean"@]
    } else {
        let (a, d) = totals_of(files);
        let head = report_name(wt) + "  "@ + ("+"@ + decimal(a as nat) + " -"@ + decimal(d as nat))
            + "  ["@ + wt.path + "]"@;
        seq![head] + files.map_values(|f: FileV| file_line(f)) + seq![""@]
    }
}

fn line_of_file(f: &FileChange) -> (r: String)
    ensures
        r@ == file_line(f@),
{
    let mut s = "  ".to_string();
    s.push(f.status.badge());
    s.append(" ");
    s.append(align_left(f.path.as_str(), 50).as_str());
    s.append(" ");
    s.append(stats_of(f).as_str());
    assert("  "@.push(badge_of(f.status)) =~= "  "@ + seq![badge_of(f.status)]);
    s
}

/// The lines of a worktree in the report.
pub fn report_lines(wt: &Worktree, files: &Vec<FileChange>) -> (r: Vec<String>)
    ensures
        strs(r@) == report(wt@, files_view(files@)),
{
    let mut out: Vec<String> = Vec::new();
    let name = if wt.is_main {
        cat(wt.branch.as_str(), " (main checkout)")
    } else {
        wt.branch.clone()
    };
    let ghost fs = files_view(files@);
    if files.len() == 0 {
        out.push(cat(name.as_str(), "  clean"));
        assert(strs(out@) =~= report(wt@, fs));
        return out;
    }
    let (a, d) = totals(files);
    let mut head = cat(name.as_str(), "  ");
    head.append(plus_minus(a, d).as_str());
    head.append("  [");
    head.append(wt.path.as_str());
    head.append("]");
    out.push(head);
    let ghost lines = fs.map_values(|f: FileV| file_line(f));
    let mut i: usize = 0;
    assert(strs(out@) =~= seq![head@] + lines.take(0));
    while i < files.len()
        invariant
            fs == files_view(files@),
            lines == fs.map_values(|f: FileV| file_line(f)),
            i <= files@.len(),
            strs(out@) =~= seq![head@] + lines.take(i as int),
        decreases files@.len() - i,
    {
        let ghost out0 = out@;
        let l = line_of_file(&files[i]);
        out.push(l);
        proof {
            assert(fs[i as int] == files@[i as int]@);
            assert(lines[i as int] == l@);
            assert(strs(out@) =~= strs(out0).push(l@));
        }
        i += 1;
    }
    let ghost out0 = out@;
    let blank = "".to_string();
    out.push(blank);
    proof {
        assert(lines.take(lines.len() as int) =~= lines);
        assert(strs(out@) =~= strs(out0).push(blank@));
        assert(strs(out@) =~= seq![head@] + lines + seq![""@]);
        assert(strs(out@) =~= report(wt@, fs));
    }
    out
}

} // verus!
