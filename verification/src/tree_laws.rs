//! How the rows of the file list hang together: which path each one is for, in which order they
//! stand, and which directories share a row.

use crate::folding::{
    countable, lemma_countable_head, lemma_countable_less, lemma_tree_countable, no_empty_parts,
    paths_countable,
};
use crate::git::FileV;
use crate::path_laws::lemma_split_joins;
use crate::text::{before, begins, occurs, split_on};
use crate::text_laws::{ended, law_split_of_ended, law_split_rejoins};
use crate::tree::{
    below, deeper, dir_block, dir_row, dir_rows, entry, file_row, file_rows, flat_view,
    law_tree_sorted, lemma_place, place, shown, sorted_tree, tree_of, tree_view, walk_rows,
    with_file, EntryV, NodeV, RowV,
};
use vstd::prelude::*;

verus! {

// ---- The filter ------------------------------------------------------------------

/// A filter lets through exactly the paths that it is a part of, letter by letter; an empty one
/// lets all through.
pub proof fn law_filter(a: Seq<char>, filter: Seq<char>, b: Seq<char>, path: Seq<char>)
    ensures
        shown(a + filter + b, filter),
        shown(path, seq![]),
        shown(path, filter) && filter.len() > 0 ==> exists|i: int|
            0 <= i <= path.len() - filter.len() && #[trigger] path.subrange(i, i + filter.len())
                == filter,
{
    let s = a + filter + b;
    assert(s.skip(a.len() as int).take(filter.len() as int) =~= filter);
    assert(begins(s.skip(a.len() as int), filter));
    if shown(path, filter) && filter.len() > 0 {
        let i = choose|i: int| 0 <= i <= path.len() && #[trigger] begins(path.skip(i), filter);
        assert(path.subrange(i, i + filter.len()) =~= path.skip(i).take(filter.len() as int));
    }
}

/// The flat list has a row for each file that the filter lets through, in order, with its path.
pub proof fn law_flat_list(files: Seq<FileV>, filter: Seq<char>)
    requires
        files.len() <= usize::MAX,
    ensures
        flat_view(files, filter).map_values(|r: RowV| r.label) == files.map_values(
            |f: FileV| f.path,
        ).filter(|p: Seq<char>| filter.len() == 0 || occurs(p, filter)),
        forall|i: int|
            0 <= i < flat_view(files, filter).len() ==> (#[trigger] flat_view(files, filter)[i]).depth
                == 0 && flat_view(files, filter)[i].dir_path is None,
    decreases files.len(),
{
    reveal(Seq::filter);
    let label = |r: RowV| r.label;
    let path = |f: FileV| f.path;
    if files.len() == 0 {
        assert(flat_view(files, filter).map_values(label) =~= files.map_values(path).filter(
            |p: Seq<char>| filter.len() == 0 || occurs(p, filter),
        ));
    } else {
        let h = files.drop_last();
        law_flat_list(h, filter);
        assert(files.map_values(path).drop_last() =~= h.map_values(path));
        assert(flat_view(files, filter).map_values(label) =~= files.map_values(path).filter(
            |p: Seq<char>| filter.len() == 0 || occurs(p, filter),
        ));
    }
}

// ---- Paths of rows ---------------------------------------------------------------

/// The path of a name in a directory; the topmost directory has an empty path.
pub open spec fn under(at: Seq<char>, name: Seq<char>) -> Seq<char> {
    if at.len() == 0 {
        name
    } else {
        at + seq!['/'] + name
    }
}

proof fn lemma_under(at: Seq<char>, name: Seq<char>)
    ensures
        below(at, name) == under(at, name),
{
    reveal_strlit("/");
    assert("/"@ =~= seq!['/']);
}

/// Whether a tree has at `at` the files that it names, with names that are parts of a path.
spec fn filed(e: Seq<EntryV>, at: Seq<char>, files: Seq<FileV>) -> bool
    decreases e,
{
    forall|i: int|
        0 <= i < e.len() ==> (#[trigger] e[i]).0.len() > 0 && !e[i].0.contains('/') && match e[i].1 {
            NodeV::Dir(sub) => filed(sub, under(at, e[i].0), files),
            NodeV::File(k) => k < files.len() && files[k as int].path == under(at, e[i].0),
        }
}

/// Names one below the other.
spec fn chain(at: Seq<char>, p: Seq<Seq<char>>) -> Seq<char>
    decreases p.len(),
{
    if p.len() == 0 {
        at
    } else {
        chain(under(at, p[0]), p.skip(1))
    }
}

spec fn parts_ok(p: Seq<Seq<char>>) -> bool {
    forall|i: int| 0 <= i < p.len() ==> (#[trigger] p[i]).len() > 0 && !p[i].contains('/')
}

proof fn lemma_parts_rest(p: Seq<Seq<char>>)
    requires
        p.len() > 0,
        parts_ok(p),
    ensures
        parts_ok(p.skip(1)),
        p[0].len() > 0,
        !p[0].contains('/'),
{
    assert forall|i: int| 0 <= i < p.skip(1).len() implies (#[trigger] p.skip(1)[i]).len() > 0
        && !p.skip(1)[i].contains('/') by {
        assert(p.skip(1)[i] == p[i + 1]);
    }
}

proof fn lemma_chain(at: Seq<char>, p: Seq<Seq<char>>)
    requires
        parts_ok(p),
        p.len() > 0,
    ensures
        chain(at, p).push('/') == (if at.len() == 0 {
            ended(p, '/')
        } else {
            at + seq!['/'] + ended(p, '/')
        }),
    decreases p.len(),
{
    lemma_parts_rest(p);
    let rest = p.skip(1);
    let here = under(at, p[0]);
    assert(ended(p, '/') == p[0] + seq!['/'] + ended(rest, '/'));
    if rest.len() == 0 {
        assert(chain(here, rest) == here);
        assert(chain(at, p) == here);
        assert(ended(rest, '/') =~= Seq::<char>::empty());
    } else {
        lemma_chain(here, rest);
    }
    assert(chain(at, p).push('/') =~= if at.len() == 0 {
        ended(p, '/')
    } else {
        at + seq!['/'] + ended(p, '/')
    });
}

proof fn lemma_filed_with_file(
    e: Seq<EntryV>,
    at: Seq<char>,
    p: Seq<Seq<char>>,
    idx: usize,
    files: Seq<FileV>,
)
    requires
        filed(e, at, files),
        parts_ok(p),
        p.len() > 0,
        idx < files.len(),
        files[idx as int].path == chain(at, p),
    ensures
        filed(with_file(e, p, idx), at, files),
    decreases p.len(),
{
    let r = with_file(e, p, idx);
    let i = place(e, p[0]);
    lemma_place(e, p[0]);
    lemma_parts_rest(p);
    if p.len() == 1 {
        assert(chain(under(at, p[0]), p.skip(1)) == under(at, p[0]));
    } else {
        match entry(e, p[0]) {
            None => {
                assert(filed(seq![], under(at, p[0]), files));
                lemma_filed_with_file(seq![], under(at, p[0]), p.skip(1), idx, files);
            },
            Some(NodeV::Dir(sub)) => {
                assert(e[i].1 == NodeV::Dir(sub));
                lemma_filed_with_file(sub, under(at, p[0]), p.skip(1), idx, files);
            },
            Some(NodeV::File(_)) => {},
        }
    }
    if r != e {
        assert forall|k: int| 0 <= k < r.len() implies (#[trigger] r[k]).0.len() > 0
            && !r[k].0.contains('/') && match r[k].1 {
            NodeV::Dir(sub) => filed(sub, under(at, r[k].0), files),
            NodeV::File(n) => n < files.len() && files[n as int].path == under(at, r[k].0),
        } by {
            if r.len() == e.len() {
                if k != i {
                    assert(r[k] == e[k]);
                }
            } else if k < i {
                assert(r[k] == e[k]);
            } else if k > i {
                assert(r[k] == e[k - 1]);
            }
        }
    }
}

proof fn lemma_tree_filed(files: Seq<FileV>, n: int, filter: Seq<char>)
    requires
        files.len() <= usize::MAX,
        no_empty_parts(files),
        0 <= n <= files.len(),
    ensures
        filed(tree_of(files.take(n), filter), seq![], files),
    decreases n,
{
    if n > 0 {
        let now = files.take(n);
        lemma_tree_filed(files, n - 1, filter);
        assert(now.drop_last() =~= files.take(n - 1));
        let f = files[n - 1];
        assert(now.last() == f);
        let p = split_on(f.path, '/');
        law_split_rejoins(f.path, '/');
        assert forall|i: int| 0 <= i < p.len() implies (#[trigger] p[i]).len() > 0
            && !p[i].contains('/') by {
            assert(split_on(files[n - 1].path, '/')[i].len() > 0);
        }
        assert(p.len() > 0) by {
            if p.len() == 0 {
                assert(ended(p, '/').len() == 0);
            }
        }
        lemma_chain(seq![], p);
        assert(chain(seq![], p) =~= chain(seq![], p).push('/').drop_last());
        assert(f.path =~= f.path.push('/').drop_last());
        lemma_filed_with_file(
            tree_of(files.take(n - 1), filter),
            seq![],
            p,
            (n - 1) as usize,
            files,
        );
    }
}

/// Whether a row is for a path: of a directory, or of a file of the list, but not both.
pub open spec fn is_for(r: RowV, p: Seq<char>, files: Seq<FileV>) -> bool {
    &&& r.dir_path is Some <==> r.file_idx is None
    &&& r.dir_path is Some ==> r.dir_path->0 == p
    &&& r.file_idx is Some ==> r.file_idx->0 < files.len() && files[r.file_idx->0 as int].path == p
}

/// Whether row `j` is the nearest one above row `i` that is less deep, by one level, and for an
/// expanded directory.
pub open spec fn is_parent(rows: Seq<RowV>, j: int, i: int) -> bool {
    &&& 0 <= j < i < rows.len()
    &&& rows[j].depth + 1 == rows[i].depth
    &&& rows[j].dir_path is Some
    &&& rows[j].expanded
    &&& forall|k: int| j < k < i ==> (#[trigger] rows[k]).depth >= rows[i].depth
}

spec fn row_hangs(rows: Seq<RowV>, i: int, files: Seq<FileV>, at: Seq<char>, d: int) -> bool {
    &&& rows[i].depth >= d
    &&& rows[i].depth == d ==> is_for(rows[i], under(at, rows[i].label), files)
    &&& rows[i].depth > d ==> exists|j: int|
        #[trigger] is_parent(rows, j, i) && is_for(
            rows[i],
            rows[j].dir_path->0 + seq!['/'] + rows[i].label,
            files,
        )
}

spec fn hangs(rows: Seq<RowV>, files: Seq<FileV>, at: Seq<char>, d: int) -> bool {
    forall|i: int| 0 <= i < rows.len() ==> #[trigger] row_hangs(rows, i, files, at, d)
}

proof fn lemma_hangs_sum(
    a: Seq<RowV>,
    b: Seq<RowV>,
    files: Seq<FileV>,
    at: Seq<char>,
    d: int,
)
    requires
        hangs(a, files, at, d),
        hangs(b, files, at, d),
    ensures
        hangs(a + b, files, at, d),
{
    let s = a + b;
    assert forall|i: int| 0 <= i < s.len() implies #[trigger] row_hangs(s, i, files, at, d) by {
        if i < a.len() {
            assert(row_hangs(a, i, files, at, d));
            assert(s[i] == a[i]);
            if a[i].depth > d {
                let j = choose|j: int|
                    #[trigger] is_parent(a, j, i) && is_for(
                        a[i],
                        a[j].dir_path->0 + seq!['/'] + a[i].label,
                        files,
                    );
                assert forall|k: int| j < k < i implies (#[trigger] s[k]).depth >= s[i].depth by {
                    assert(s[k] == a[k]);
                }
                assert(s[j] == a[j]);
                assert(is_parent(s, j, i));
            }
        } else {
            let n = a.len() as int;
            assert(row_hangs(b, i - n, files, at, d));
            assert(s[i] == b[i - n]);
            if b[i - n].depth > d {
                let j = choose|j: int|
                    #[trigger] is_parent(b, j, i - n) && is_for(
                        b[i - n],
                        b[j].dir_path->0 + seq!['/'] + b[i - n].label,
                        files,
                    );
                assert forall|k: int| j + n < k < i implies (#[trigger] s[k]).depth >= s[i].depth by {
                    assert(s[k] == b[k - n]);
                }
                assert(s[j + n] == b[j]);
                assert(is_parent(s, j + n, i));
            }
        }
    }
}

proof fn lemma_hangs_below(
    head: RowV,
    kids: Seq<RowV>,
    files: Seq<FileV>,
    at: Seq<char>,
    d: int,
)
    requires
        head.depth == d,
        head.dir_path == Some(under(at, head.label)),
        head.file_idx is None,
        head.label.len() > 0,
        kids.len() > 0 ==> head.expanded,
        hangs(kids, files, under(at, head.label), d + 1),
    ensures
        hangs(seq![head] + kids, files, at, d),
{
    let s = seq![head] + kids;
    let p = under(at, head.label);
    assert(s[0] == head);
    assert forall|i: int| 0 <= i < s.len() implies #[trigger] row_hangs(s, i, files, at, d) by {
        if i > 0 {
            assert(s[i] == kids[i - 1]);
            assert(row_hangs(kids, i - 1, files, p, d + 1));
            if s[i].depth == d + 1 {
                assert forall|k: int| 0 < k < i implies (#[trigger] s[k]).depth >= s[i].depth by {
                    assert(s[k] == kids[k - 1]);
                    assert(row_hangs(kids, k - 1, files, p, d + 1));
                }
                assert(is_parent(s, 0, i));
            } else {
                let j = choose|j: int|
                    #[trigger] is_parent(kids, j, i - 1) && is_for(
                        kids[i - 1],
                        kids[j].dir_path->0 + seq!['/'] + kids[i - 1].label,
                        files,
                    );
                assert forall|k: int| j + 1 < k < i implies (#[trigger] s[k]).depth >= s[i].depth by {
                    assert(s[k] == kids[k - 1]);
                }
                assert(s[j + 1] == kids[j]);
                assert(is_parent(s, j + 1, i));
            }
        }
    }
}

proof fn lemma_filed_head(e: Seq<EntryV>, at: Seq<char>, files: Seq<FileV>)
    requires
        e.len() > 0,
        filed(e, at, files),
    ensures
        filed(e.drop_last(), at, files),
{
    let h = e.drop_last();
    assert forall|i: int| 0 <= i < h.len() implies (#[trigger] h[i]).0.len() > 0
        && !h[i].0.contains('/') && match h[i].1 {
        NodeV::Dir(sub) => filed(sub, under(at, h[i].0), files),
        NodeV::File(k) => k < files.len() && files[k as int].path == under(at, h[i].0),
    } by {
        assert(h[i] == e[i]);
    }
}

proof fn lemma_block_hangs(
    label: Seq<char>,
    e: Seq<EntryV>,
    at: Seq<char>,
    depth: usize,
    c: Set<Seq<char>>,
    files: Seq<FileV>,
)
    requires
        label.len() > 0,
        filed(e, under(at, label), files),
        depth < usize::MAX,
        countable(e, depth + 1),
    ensures
        hangs(dir_block(label, e, at, depth, c), files, at, depth as int),
    decreases e, 2int,
{
    lemma_under(at, label);
    if e.len() == 1 && e[0].1 is Dir {
        let longer = label + "/"@ + e[0].0;
        reveal_strlit("/");
        assert("/"@ =~= seq!['/']);
        assert(under(at, longer) =~= under(under(at, label), e[0].0));
        lemma_countable_less(e[0].1->Dir_0, depth + 1);
        lemma_block_hangs(longer, e[0].1->Dir_0, at, depth, c, files);
    } else {
        let head = dir_row(label, at, depth, c);
        if c.contains(below(at, label)) {
            lemma_hangs_below(head, seq![], files, at, depth as int);
        } else {
            lemma_walk_hangs(e, below(at, label), deeper(depth), c, files);
            lemma_hangs_below(
                head,
                walk_rows(e, below(at, label), deeper(depth), c),
                files,
                at,
                depth as int,
            );
        }
    }
}

proof fn lemma_dirs_hang(
    e: Seq<EntryV>,
    at: Seq<char>,
    depth: usize,
    c: Set<Seq<char>>,
    files: Seq<FileV>,
)
    requires
        filed(e, at, files),
        countable(e, depth as int),
    ensures
        hangs(dir_rows(e, at, depth, c), files, at, depth as int),
    decreases e, 0int,
{
    if e.len() > 0 {
        lemma_filed_head(e, at, files);
        lemma_countable_head(e, depth as int);
        lemma_dirs_hang(e.drop_last(), at, depth, c, files);
        assert(e[e.len() - 1] == e.last());
        if let NodeV::Dir(sub) = e.last().1 {
            lemma_block_hangs(e.last().0, sub, at, depth, c, files);
            lemma_hangs_sum(
                dir_rows(e.drop_last(), at, depth, c),
                dir_block(e.last().0, sub, at, depth, c),
                files,
                at,
                depth as int,
            );
        } else {
            assert(dir_rows(e, at, depth, c) =~= dir_rows(e.drop_last(), at, depth, c));
        }
    }
}

proof fn lemma_files_hang(e: Seq<EntryV>, at: Seq<char>, depth: usize, files: Seq<FileV>)
    requires
        filed(e, at, files),
    ensures
        hangs(file_rows(e, depth), files, at, depth as int),
    decreases e.len(),
{
    if e.len() > 0 {
        lemma_filed_head(e, at, files);
        lemma_files_hang(e.drop_last(), at, depth, files);
        assert(e[e.len() - 1] == e.last());
        if let NodeV::File(k) = e.last().1 {
            let one = seq![file_row(e.last().0, k, depth)];
            assert(hangs(one, files, at, depth as int)) by {
                assert(one[0].depth == depth);
            }
            lemma_hangs_sum(file_rows(e.drop_last(), depth), one, files, at, depth as int);
            assert(file_rows(e, depth) =~= file_rows(e.drop_last(), depth) + one);
        }
    }
}

proof fn lemma_walk_hangs(
    e: Seq<EntryV>,
    at: Seq<char>,
    depth: usize,
    c: Set<Seq<char>>,
    files: Seq<FileV>,
)
    requires
        filed(e, at, files),
        countable(e, depth as int),
    ensures
        hangs(walk_rows(e, at, depth, c), files, at, depth as int),
    decreases e, 1int,
{
    lemma_dirs_hang(e, at, depth, c, files);
    lemma_files_hang(e, at, depth, files);
    lemma_hangs_sum(
        dir_rows(e, at, depth, c),
        file_rows(e, depth),
        files,
        at,
        depth as int,
    );
}

/// A row at the left is for the path that its label says. Any other row stands below the row of an
/// expanded directory, one level deeper, and is for that directory's path with a slash and its
/// label behind it.
pub proof fn law_row_paths(
    files: Seq<FileV>,
    collapsed: Set<Seq<char>>,
    filter: Seq<char>,
    i: int,
)
    requires
        files.len() <= usize::MAX,
        no_empty_parts(files),
        paths_countable(files),
        0 <= i < tree_view(files, collapsed, filter).len(),
    ensures
        ({
            let rows = tree_view(files, collapsed, filter);
            &&& rows[i].depth == 0 ==> is_for(rows[i], rows[i].label, files)
            &&& rows[i].depth > 0 ==> exists|j: int|
                #[trigger] is_parent(rows, j, i) && is_for(
                    rows[i],
                    rows[j].dir_path->0 + seq!['/'] + rows[i].label,
                    files,
                )
        }),
{
    lemma_tree_filed(files, files.len() as int, filter);
    assert(files.take(files.len() as int) =~= files);
    lemma_tree_countable(files, filter);
    lemma_walk_hangs(tree_of(files, filter), seq![], 0, collapsed, files);
    assert(row_hangs(tree_view(files, collapsed, filter), i, files, seq![], 0));
}

// ---- Order and shared rows -------------------------------------------------------

/// Whether two rows stand in the same directory, the one above the other.
pub open spec fn siblings(rows: Seq<RowV>, i: int, k: int) -> bool {
    &&& 0 <= i < k < rows.len()
    &&& rows[i].depth == rows[k].depth
    &&& forall|m: int| i < m < k ==> (#[trigger] rows[m]).depth >= rows[i].depth
}

/// Whether a row may stand above another one in the same directory: directories come before
/// files, and among their like by name. A row of several directories goes by the first one.
pub open spec fn may_precede(a: RowV, b: RowV) -> bool {
    &&& b.dir_path is Some ==> a.dir_path is Some
    &&& (a.dir_path is Some <==> b.dir_path is Some) ==> before(
        split_on(a.label, '/')[0],
        split_on(b.label, '/')[0],
    )
}

spec fn in_order(rows: Seq<RowV>) -> bool {
    forall|i: int, k: int|
        #![trigger siblings(rows, i, k)]
        siblings(rows, i, k) ==> may_precede(rows[i], rows[k])
}

spec fn from_depth(rows: Seq<RowV>, d: int) -> bool {
    forall|i: int| 0 <= i < rows.len() ==> (#[trigger] rows[i]).depth >= d
}

/// Whether a row is for one of some entries: directories where `dirs`, else files.
spec fn heads(rows: Seq<RowV>, d: int, e: Seq<EntryV>, dirs: bool) -> bool {
    forall|i: int|
        0 <= i < rows.len() && (#[trigger] rows[i]).depth == d ==> {
            &&& rows[i].dir_path is Some == dirs
            &&& exists|m: int| 0 <= m < e.len() && split_on(rows[i].label, '/')[0] == (#[trigger] e[m]).0
        }
}

/// How many rows are at a depth.
spec fn rows_at(rows: Seq<RowV>, d: int) -> nat
    decreases rows.len(),
{
    if rows.len() == 0 {
        0
    } else if rows.last().depth == d {
        rows_at(rows.drop_last(), d) + 1
    } else {
        rows_at(rows.drop_last(), d)
    }
}

proof fn lemma_rows_at_sum(a: Seq<RowV>, b: Seq<RowV>, d: int)
    ensures
        rows_at(a + b, d) == rows_at(a, d) + rows_at(b, d),
    decreases b.len(),
{
    if b.len() == 0 {
        assert(a + b =~= a);
    } else {
        assert((a + b).drop_last() =~= a + b.drop_last());
        lemma_rows_at_sum(a, b.drop_last(), d);
    }
}

proof fn lemma_none_at(rows: Seq<RowV>, d: int)
    requires
        from_depth(rows, d + 1),
    ensures
        rows_at(rows, d) == 0,
    decreases rows.len(),
{
    if rows.len() > 0 {
        assert(rows[rows.len() - 1] == rows.last());
        assert forall|i: int| 0 <= i < rows.drop_last().len() implies (
        #[trigger] rows.drop_last()[i]).depth >= d + 1 by {
            assert(rows.drop_last()[i] == rows[i]);
        }
        lemma_none_at(rows.drop_last(), d);
    }
}

proof fn lemma_another_at(rows: Seq<RowV>, d: int)
    requires
        rows_at(rows, d) >= 2,
    ensures
        exists|k: int| 0 < k < rows.len() && (#[trigger] rows[k]).depth == d,
    decreases rows.len(),
{
    let h = rows.drop_last();
    if rows.last().depth == d {
        let k = rows.len() - 1;
        if k == 0 {
            assert(h =~= Seq::<RowV>::empty());
            assert(rows_at(h, d) == 0);
        }
        assert(rows[k].depth == d);
    } else {
        lemma_another_at(h, d);
        let k = choose|k: int| 0 < k < h.len() && (#[trigger] h[k]).depth == d;
        assert(rows[k] == h[k]);
    }
}

/// Whether no directory's row stands right above the row of the only thing in it where that is a
/// directory: the two would share a row.
spec fn shares(rows: Seq<RowV>) -> bool {
    forall|i: int|
        0 <= i < rows.len() - 1 && (#[trigger] rows[i]).dir_path is Some && rows[i + 1].dir_path
            is Some && rows[i + 1].depth == rows[i].depth + 1 ==> exists|k: int|
            #[trigger] siblings(rows, i + 1, k)
}

proof fn lemma_sum_order(
    a: Seq<RowV>,
    b: Seq<RowV>,
    d: int,
    ea: Seq<EntryV>,
    eb: Seq<EntryV>,
    da: bool,
    db: bool,
)
    requires
        in_order(a),
        in_order(b),
        shares(a),
        shares(b),
        from_depth(a, d),
        from_depth(b, d),
        heads(a, d, ea, da),
        heads(b, d, eb, db),
        b.len() > 0 ==> b[0].depth == d,
        db ==> da,
        da == db ==> forall|m: int, n: int|
            0 <= m < ea.len() && 0 <= n < eb.len() ==> before(
                (#[trigger] ea[m]).0,
                (#[trigger] eb[n]).0,
            ),
    ensures
        in_order(a + b),
        shares(a + b),
        from_depth(a + b, d),
{
    let s = a + b;
    let n = a.len() as int;
    assert forall|i: int| 0 <= i < s.len() implies (#[trigger] s[i]).depth >= d by {
        if i < n {
            assert(s[i] == a[i]);
        } else {
            assert(s[i] == b[i - n]);
        }
    }
    assert forall|i: int, k: int| #![trigger siblings(s, i, k)] siblings(s, i, k) implies
        may_precede(s[i], s[k]) by {
        if k < n {
            assert forall|m: int| i < m < k implies (#[trigger] a[m]).depth >= a[i].depth by {
                assert(s[m] == a[m]);
            }
            assert(s[i] == a[i] && s[k] == a[k]);
            assert(siblings(a, i, k));
        } else if i >= n {
            assert forall|m: int| i - n < m < k - n implies (#[trigger] b[m]).depth >= b[i
                - n].depth by {
                assert(s[m + n] == b[m]);
            }
            assert(s[i] == b[i - n] && s[k] == b[k - n]);
            assert(siblings(b, i - n, k - n));
        } else {
            assert(s[i] == a[i] && s[k] == b[k - n]);
            assert(s[n] == b[0]);
            if k > n {
                assert(s[n].depth >= s[i].depth);
            }
            assert(a[i].depth == d && b[k - n].depth == d);
            let m = choose|m: int|
                0 <= m < ea.len() && split_on(a[i].label, '/')[0] == (#[trigger] ea[m]).0;
            let q = choose|q: int|
                0 <= q < eb.len() && split_on(b[k - n].label, '/')[0] == (#[trigger] eb[q]).0;
            assert(da == db ==> before(ea[m].0, eb[q].0));
        }
    }
    assert forall|i: int|
        0 <= i < s.len() - 1 && (#[trigger] s[i]).dir_path is Some && s[i + 1].dir_path is Some
            && s[i + 1].depth == s[i].depth + 1 implies exists|k: int|
        #[trigger] siblings(s, i + 1, k) by {
        if i + 1 < n {
            assert(s[i] == a[i] && s[i + 1] == a[i + 1]);
            let k = choose|k: int| #[trigger] siblings(a, i + 1, k);
            assert forall|m: int| i + 1 < m < k implies (#[trigger] s[m]).depth >= s[i + 1].depth by {
                assert(s[m] == a[m]);
            }
            assert(s[k] == a[k]);
            assert(siblings(s, i + 1, k));
        } else if i >= n {
            assert(s[i] == b[i - n] && s[i + 1] == b[i + 1 - n]);
            let k = choose|k: int| #[trigger] siblings(b, i - n + 1, k);
            assert forall|m: int| i + 1 < m < k + n implies (#[trigger] s[m]).depth >= s[i
                + 1].depth by {
                assert(s[m] == b[m - n]);
            }
            assert(s[k + n] == b[k]);
            assert(siblings(s, i + 1, k + n));
        } else {
            assert(s[i + 1] == b[0]);
            assert(s[i] == a[i]);
        }
    }
}

proof fn lemma_below_order(head: RowV, kids: Seq<RowV>, d: int)
    requires
        head.depth == d,
        in_order(kids),
        shares(kids),
        from_depth(kids, d + 1),
        kids.len() > 0 ==> kids[0].depth == d + 1,
        kids.len() > 0 && kids[0].dir_path is Some ==> rows_at(kids, d + 1) >= 2,
    ensures
        in_order(seq![head] + kids),
        shares(seq![head] + kids),
        from_depth(seq![head] + kids, d),
        rows_at(seq![head] + kids, d) == 1,
{
    let s = seq![head] + kids;
    assert(s[0] == head);
    assert forall|i: int| 0 <= i < s.len() implies (#[trigger] s[i]).depth >= d by {
        if i > 0 {
            assert(s[i] == kids[i - 1]);
        }
    }
    assert forall|i: int, k: int| #![trigger siblings(s, i, k)] siblings(s, i, k) implies
        may_precede(s[i], s[k]) by {
        assert(s[k] == kids[k - 1]);
        if i > 0 {
            assert(s[i] == kids[i - 1]);
            assert forall|m: int| i - 1 < m < k - 1 implies (#[trigger] kids[m]).depth >= kids[i
                - 1].depth by {
                assert(s[m + 1] == kids[m]);
            }
            assert(siblings(kids, i - 1, k - 1));
        }
    }
    assert forall|i: int|
        0 <= i < s.len() - 1 && (#[trigger] s[i]).dir_path is Some && s[i + 1].dir_path is Some
            && s[i + 1].depth == s[i].depth + 1 implies exists|k: int|
        #[trigger] siblings(s, i + 1, k) by {
        if i == 0 {
            assert(s[1] == kids[0]);
            lemma_another_at(kids, d + 1);
            let k = choose|k: int| 0 < k < kids.len() && (#[trigger] kids[k]).depth == d + 1;
            assert(s[k + 1] == kids[k]);
            assert forall|m: int| 1 < m < k + 1 implies (#[trigger] s[m]).depth >= s[1].depth by {
                assert(s[m] == kids[m - 1]);
            }
            assert(siblings(s, 1, k + 1));
        } else {
            assert(s[i] == kids[i - 1] && s[i + 1] == kids[i]);
            let k = choose|k: int| #[trigger] siblings(kids, i - 1 + 1, k);
            assert(s[k + 1] == kids[k]);
            assert forall|m: int| i + 1 < m < k + 1 implies (#[trigger] s[m]).depth >= s[i
                + 1].depth by {
                assert(s[m] == kids[m - 1]);
            }
            assert(siblings(s, i + 1, k + 1));
        }
    }
    lemma_rows_at_sum(seq![head], kids, d);
    lemma_none_at(kids, d);
    assert(seq![head].drop_last() =~= Seq::<RowV>::empty());
    assert(rows_at(seq![head].drop_last(), d) == 0);
}

/// What holds of the rows of one directory: its own row comes first, alone at its depth, and its
/// label begins with its name.
spec fn block_ok(rows: Seq<RowV>, d: int, first: Seq<char>) -> bool {
    &&& in_order(rows)
    &&& shares(rows)
    &&& from_depth(rows, d)
    &&& rows_at(rows, d) == 1
    &&& rows.len() > 0
    &&& rows[0].depth == d
    &&& rows[0].dir_path is Some
    &&& split_on(rows[0].label, '/')[0] == first
    &&& forall|i: int| 0 < i < rows.len() ==> (#[trigger] rows[i]).depth > d
}

/// What holds of the rows of entries: those at their depth are as many as the entries.
spec fn walk_ok(rows: Seq<RowV>, d: int, n: nat) -> bool {
    &&& in_order(rows)
    &&& shares(rows)
    &&& from_depth(rows, d)
    &&& rows_at(rows, d) == n
    &&& rows.len() > 0 ==> rows[0].depth == d
}

proof fn lemma_block_order(
    label: Seq<char>,
    e: Seq<EntryV>,
    at: Seq<char>,
    depth: usize,
    c: Set<Seq<char>>,
    first: Seq<char>,
    files: Seq<FileV>,
    there: Seq<char>,
)
    requires
        split_on(label, '/')[0] == first,
        sorted_tree(e),
        filed(e, there, files),
        depth < usize::MAX,
        countable(e, depth + 1),
    ensures
        block_ok(dir_block(label, e, at, depth, c), depth as int, first),
    decreases e, 2int,
{
    let rows = dir_block(label, e, at, depth, c);
    if e.len() == 1 && e[0].1 is Dir {
        let longer = label + "/"@ + e[0].0;
        reveal_strlit("/");
        assert("/"@ =~= seq!['/']);
        lemma_split_joins(label, e[0].0);
        lemma_split_some(label);
        lemma_countable_less(e[0].1->Dir_0, depth + 1);
        lemma_block_order(
            longer,
            e[0].1->Dir_0,
            at,
            depth,
            c,
            first,
            files,
            under(there, e[0].0),
        );
    } else {
        let head = dir_row(label, at, depth, c);
        let kids = if c.contains(below(at, label)) {
            seq![]
        } else {
            walk_rows(e, below(at, label), deeper(depth), c)
        };
        if !c.contains(below(at, label)) {
            lemma_walk_order(e, below(at, label), deeper(depth), c, files, there);
            if kids.len() > 0 && kids[0].dir_path is Some && e.len() < 2 {
                lemma_first_is_dir(e, below(at, label), deeper(depth), c);
            }
        }
        lemma_below_order(head, kids, depth as int);
        assert(rows == seq![head] + kids);
        assert forall|i: int| 0 < i < rows.len() implies (#[trigger] rows[i]).depth > depth by {
            assert(rows[i] == kids[i - 1]);
        }
    }
}

proof fn lemma_first_is_dir(e: Seq<EntryV>, at: Seq<char>, depth: usize, c: Set<Seq<char>>)
    requires
        e.len() < 2,
        !(e.len() == 1 && e[0].1 is Dir),
    ensures
        forall|i: int|
            0 <= i < walk_rows(e, at, depth, c).len() ==> (#[trigger] walk_rows(
                e,
                at,
                depth,
                c,
            )[i]).dir_path is None,
{
    if e.len() == 1 {
        assert(e.last() == e[0]);
        assert(e.drop_last() =~= Seq::<EntryV>::empty());
        assert(dir_rows(e.drop_last(), at, depth, c) =~= Seq::<RowV>::empty());
        assert(dir_rows(e, at, depth, c) =~= Seq::<RowV>::empty());
        assert(file_rows(e.drop_last(), depth) =~= Seq::<RowV>::empty());
    }
}

proof fn lemma_split_some(s: Seq<char>)
    ensures
        split_on(s, '/').len() > 0,
{
    law_split_rejoins(s, '/');
    if split_on(s, '/').len() == 0 {
        assert(ended(split_on(s, '/'), '/').len() == 0);
    }
}

proof fn lemma_split_name(s: Seq<char>)
    requires
        !s.contains('/'),
    ensures
        split_on(s, '/')[0] == s,
{
    law_split_of_ended(seq![], '/', s);
    assert(ended(Seq::<Seq<char>>::empty(), '/') + s =~= s);
}

/// Entries that are directories, or those that are files.
spec fn dirs_among(e: Seq<EntryV>) -> nat
    decreases e.len(),
{
    if e.len() == 0 {
        0
    } else if e.last().1 is Dir {
        dirs_among(e.drop_last()) + 1
    } else {
        dirs_among(e.drop_last())
    }
}

proof fn lemma_sorted_head(e: Seq<EntryV>)
    requires
        e.len() > 0,
        sorted_tree(e),
    ensures
        sorted_tree(e.drop_last()),
{
    let h = e.drop_last();
    assert forall|i: int, j: int| 0 <= i < j < h.len() implies before(
        (#[trigger] h[i]).0,
        (#[trigger] h[j]).0,
    ) by {
        assert(h[i] == e[i] && h[j] == e[j]);
    }
    assert forall|i: int| 0 <= i < h.len() implies match (#[trigger] h[i]).1 {
        NodeV::Dir(sub) => sorted_tree(sub),
        NodeV::File(_) => true,
    } by {
        assert(h[i] == e[i]);
    }
}

proof fn lemma_heads_more(rows: Seq<RowV>, d: int, e: Seq<EntryV>, dirs: bool)
    requires
        e.len() > 0,
        heads(rows, d, e.drop_last(), dirs),
    ensures
        heads(rows, d, e, dirs),
{
    let h = e.drop_last();
    assert forall|i: int| 0 <= i < rows.len() && (#[trigger] rows[i]).depth == d implies rows[i].dir_path is Some
        == dirs && exists|m: int|
        0 <= m < e.len() && split_on(rows[i].label, '/')[0] == (#[trigger] e[m]).0 by {
        let m = choose|m: int|
            0 <= m < h.len() && split_on(rows[i].label, '/')[0] == (#[trigger] h[m]).0;
        assert(e[m] == h[m]);
    }
}

proof fn lemma_heads_sum(a: Seq<RowV>, b: Seq<RowV>, d: int, e: Seq<EntryV>, dirs: bool)
    requires
        heads(a, d, e, dirs),
        heads(b, d, e, dirs),
    ensures
        heads(a + b, d, e, dirs),
{
    let s = a + b;
    assert forall|i: int| 0 <= i < s.len() && (#[trigger] s[i]).depth == d implies s[i].dir_path is Some
        == dirs && exists|m: int|
        0 <= m < e.len() && split_on(s[i].label, '/')[0] == (#[trigger] e[m]).0 by {
        if i < a.len() {
            assert(s[i] == a[i]);
        } else {
            assert(s[i] == b[i - a.len()]);
        }
    }
}

proof fn lemma_dirs_order(
    e: Seq<EntryV>,
    at: Seq<char>,
    depth: usize,
    c: Set<Seq<char>>,
    files: Seq<FileV>,
    there: Seq<char>,
)
    requires
        sorted_tree(e),
        filed(e, there, files),
        countable(e, depth as int),
    ensures
        walk_ok(dir_rows(e, at, depth, c), depth as int, dirs_among(e)),
        heads(dir_rows(e, at, depth, c), depth as int, e, true),
    decreases e, 0int,
{
    let d = depth as int;
    let rows = dir_rows(e, at, depth, c);
    if e.len() > 0 {
        let h = e.drop_last();
        let l = e.last();
        lemma_sorted_head(e);
        lemma_filed_head(e, there, files);
        lemma_countable_head(e, d);
        lemma_dirs_order(h, at, depth, c, files, there);
        assert(e[e.len() - 1] == l);
        let before_rows = dir_rows(h, at, depth, c);
        lemma_heads_more(before_rows, d, e, true);
        if let NodeV::Dir(sub) = l.1 {
            lemma_split_name(l.0);
            let block = dir_block(l.0, sub, at, depth, c);
            lemma_block_order(l.0, sub, at, depth, c, l.0, files, under(there, l.0));
            let one = seq![l];
            assert(one[0] == l);
            assert(heads(block, d, one, true));
            assert(heads(block, d, e, true));
            assert forall|m: int, n: int| 0 <= m < h.len() && 0 <= n < one.len() implies before(
                (#[trigger] h[m]).0,
                (#[trigger] one[n]).0,
            ) by {
                assert(h[m] == e[m]);
                assert(one[n] == e[e.len() - 1]);
            }
            lemma_sum_order(before_rows, block, d, h, one, true, true);
            lemma_rows_at_sum(before_rows, block, d);
            lemma_heads_sum(before_rows, block, d, e, true);
            assert(rows == before_rows + block);
            if before_rows.len() > 0 {
                assert(rows[0] == before_rows[0]);
            } else {
                assert(rows[0] == block[0]);
            }
        } else {
            assert(rows =~= before_rows);
        }
    }
}

proof fn lemma_files_order(
    e: Seq<EntryV>,
    depth: usize,
    files: Seq<FileV>,
    there: Seq<char>,
)
    requires
        sorted_tree(e),
        filed(e, there, files),
    ensures
        walk_ok(file_rows(e, depth), depth as int, (e.len() - dirs_among(e)) as nat),
        heads(file_rows(e, depth), depth as int, e, false),
        dirs_among(e) <= e.len(),
        forall|i: int|
            0 <= i < file_rows(e, depth).len() ==> (#[trigger] file_rows(e, depth)[i]).dir_path is None,
    decreases e.len(),
{
    let d = depth as int;
    let rows = file_rows(e, depth);
    if e.len() > 0 {
        let h = e.drop_last();
        let l = e.last();
        lemma_sorted_head(e);
        lemma_filed_head(e, there, files);
        lemma_files_order(h, depth, files, there);
        assert(e[e.len() - 1] == l);
        let before_rows = file_rows(h, depth);
        lemma_heads_more(before_rows, d, e, false);
        if let NodeV::File(k) = l.1 {
            lemma_split_name(l.0);
            let block = seq![file_row(l.0, k, depth)];
            let one = seq![l];
            assert(one[0] == l);
            assert(block.drop_last() =~= Seq::<RowV>::empty());
            assert(rows_at(block.drop_last(), d) == 0);
            assert(rows_at(block, d) == 1);
            assert(heads(block, d, one, false));
            assert(heads(block, d, e, false));
            assert forall|m: int, n: int| 0 <= m < h.len() && 0 <= n < one.len() implies before(
                (#[trigger] h[m]).0,
                (#[trigger] one[n]).0,
            ) by {
                assert(h[m] == e[m]);
                assert(one[n] == e[e.len() - 1]);
            }
            lemma_sum_order(before_rows, block, d, h, one, false, false);
            lemma_rows_at_sum(before_rows, block, d);
            lemma_heads_sum(before_rows, block, d, e, false);
            assert(rows =~= before_rows + block);
            assert forall|i: int| 0 <= i < rows.len() implies (#[trigger] rows[i]).dir_path is None by {
                if i < before_rows.len() {
                    assert(rows[i] == before_rows[i]);
                }
            }
            if before_rows.len() > 0 {
                assert(rows[0] == before_rows[0]);
            }
        }
    }
}

proof fn lemma_walk_order(
    e: Seq<EntryV>,
    at: Seq<char>,
    depth: usize,
    c: Set<Seq<char>>,
    files: Seq<FileV>,
    there: Seq<char>,
)
    requires
        sorted_tree(e),
        filed(e, there, files),
        countable(e, depth as int),
    ensures
        walk_ok(walk_rows(e, at, depth, c), depth as int, e.len()),
    decreases e, 1int,
{
    let d = depth as int;
    let a = dir_rows(e, at, depth, c);
    let b = file_rows(e, depth);
    lemma_dirs_order(e, at, depth, c, files, there);
    lemma_files_order(e, depth, files, there);
    lemma_sum_order(a, b, d, e, e, true, false);
    lemma_rows_at_sum(a, b, d);
    let rows = walk_rows(e, at, depth, c);
    if a.len() > 0 {
        assert(rows[0] == a[0]);
    } else if b.len() > 0 {
        assert(rows[0] == b[0]);
    }
}

proof fn lemma_tree_order(files: Seq<FileV>, collapsed: Set<Seq<char>>, filter: Seq<char>)
    requires
        files.len() <= usize::MAX,
        no_empty_parts(files),
        paths_countable(files),
    ensures
        in_order(tree_view(files, collapsed, filter)),
        shares(tree_view(files, collapsed, filter)),
{
    lemma_tree_filed(files, files.len() as int, filter);
    assert(files.take(files.len() as int) =~= files);
    lemma_tree_countable(files, filter);
    law_tree_sorted(files, filter);
    lemma_walk_order(tree_of(files, filter), seq![], 0, collapsed, files, seq![]);
}

/// In each directory the rows of directories stand before those of files, and both go by name.
pub proof fn law_rows_by_name(
    files: Seq<FileV>,
    collapsed: Set<Seq<char>>,
    filter: Seq<char>,
    i: int,
    k: int,
)
    requires
        files.len() <= usize::MAX,
        no_empty_parts(files),
        paths_countable(files),
        siblings(tree_view(files, collapsed, filter), i, k),
    ensures
        may_precede(
            tree_view(files, collapsed, filter)[i],
            tree_view(files, collapsed, filter)[k],
        ),
{
    lemma_tree_order(files, collapsed, filter);
}

/// A directory whose first row below it is for a directory has something else in it as well:
/// where it holds nothing but a directory, the two share a row.
pub proof fn law_only_directory_shares_row(
    files: Seq<FileV>,
    collapsed: Set<Seq<char>>,
    filter: Seq<char>,
    i: int,
)
    requires
        files.len() <= usize::MAX,
        no_empty_parts(files),
        paths_countable(files),
        0 <= i < tree_view(files, collapsed, filter).len() - 1,
        ({
            let rows = tree_view(files, collapsed, filter);
            &&& rows[i].dir_path is Some
            &&& rows[i + 1].dir_path is Some
            &&& rows[i + 1].depth == rows[i].depth + 1
        }),
    ensures
        exists|k: int| #[trigger] siblings(tree_view(files, collapsed, filter), i + 1, k),
{
    lemma_tree_order(files, collapsed, filter);
    let rows = tree_view(files, collapsed, filter);
    assert(rows[i].dir_path is Some);
}

} // verus!
