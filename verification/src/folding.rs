//! What collapsing directories does to the rows of the file tree.

use crate::app::{AppV, WtUiV};
use crate::git::FileV;
use crate::keys::KeyCode;
use crate::text::{before, begins, find, lemma_before_total, lemma_find, split_on, Stop};
use crate::tree::{
    below, deeper, dir_block, dir_row, dir_rows, entry, file_rows, law_tree_sorted, lemma_place,
    place, sorted_tree, tree_of, tree_view, walk_rows, with_file, EntryV, NodeV, RowV,
};
use vstd::prelude::*;

verus! {

// ---- Rows under collapsed directories --------------------------------------------

/// The number of leading rows that are deeper than `depth`: those nested under a row at that depth
/// that stands before them.
pub open spec fn nested(rows: Seq<RowV>, depth: usize) -> nat
    decreases rows.len(),
{
    if rows.len() > 0 && rows[0].depth > depth {
        1 + nested(rows.skip(1), depth)
    } else {
        0
    }
}

proof fn lemma_nested_bound(rows: Seq<RowV>, depth: usize)
    ensures
        nested(rows, depth) <= rows.len(),
    decreases rows.len(),
{
    if rows.len() > 0 {
        lemma_nested_bound(rows.skip(1), depth);
    }
}

/// Rows without those that are nested under a collapsed directory.
pub open spec fn folded(rows: Seq<RowV>, collapsed: Set<Seq<char>>) -> Seq<RowV>
    decreases rows.len(),
    via folded_shrinks
{
    if rows.len() == 0 {
        seq![]
    } else {
        let r = rows[0];
        let rest = rows.skip(1);
        if r.dir_path is Some && collapsed.contains(r.dir_path->0) {
            seq![RowV { expanded: false, ..r }] + folded(
                rest.skip(nested(rest, r.depth) as int),
                collapsed,
            )
        } else {
            seq![r] + folded(rest, collapsed)
        }
    }
}

#[via_fn]
proof fn folded_shrinks(rows: Seq<RowV>, collapsed: Set<Seq<char>>) {
    if rows.len() > 0 {
        lemma_nested_bound(rows.skip(1), rows[0].depth);
    }
}

/// Whether the directories of a tree whose rows begin at `depth` can all be numbered by depth.
pub open spec fn countable(e: Seq<EntryV>, depth: int) -> bool
    decreases e,
{
    forall|i: int|
        0 <= i < e.len() ==> match (#[trigger] e[i]).1 {
            NodeV::Dir(sub) => depth < usize::MAX && countable(sub, depth + 1),
            NodeV::File(_) => true,
        }
}

pub proof fn lemma_countable_less(e: Seq<EntryV>, depth: int)
    requires
        countable(e, depth + 1),
    ensures
        countable(e, depth),
    decreases e,
{
    assert forall|i: int| 0 <= i < e.len() implies match (#[trigger] e[i]).1 {
        NodeV::Dir(sub) => depth < usize::MAX && countable(sub, depth + 1),
        NodeV::File(_) => true,
    } by {
        if let NodeV::Dir(sub) = e[i].1 {
            lemma_countable_less(sub, depth + 1);
        }
    }
}

pub proof fn lemma_countable_head(e: Seq<EntryV>, depth: int)
    requires
        e.len() > 0,
        countable(e, depth),
    ensures
        countable(e.drop_last(), depth),
{
    let h = e.drop_last();
    assert forall|i: int| 0 <= i < h.len() implies match (#[trigger] h[i]).1 {
        NodeV::Dir(sub) => depth < usize::MAX && countable(sub, depth + 1),
        NodeV::File(_) => true,
    } by {
        assert(h[i] == e[i]);
    }
}

proof fn lemma_countable_with_file(e: Seq<EntryV>, p: Seq<Seq<char>>, idx: usize, depth: int)
    requires
        countable(e, depth),
        p.len() > 0,
        depth + p.len() <= usize::MAX + 1,
    ensures
        countable(with_file(e, p, idx), depth),
    decreases p.len(),
{
    let r = with_file(e, p, idx);
    let i = place(e, p[0]);
    lemma_place(e, p[0]);
    if p.len() > 1 {
        match entry(e, p[0]) {
            None => {
                assert(countable(seq![], depth + 1));
                lemma_countable_with_file(seq![], p.skip(1), idx, depth + 1);
            },
            Some(NodeV::Dir(sub)) => {
                assert(e[i].1 == NodeV::Dir(sub));
                lemma_countable_with_file(sub, p.skip(1), idx, depth + 1);
            },
            Some(NodeV::File(_)) => {},
        }
    }
    if r != e {
        assert forall|k: int| 0 <= k < r.len() implies match (#[trigger] r[k]).1 {
            NodeV::Dir(sub) => depth < usize::MAX && countable(sub, depth + 1),
            NodeV::File(_) => true,
        } by {
            if r.len() == e.len() {
                if k != i {
                    assert(r[k] == e[k]);
                }
            } else if k < i {
                assert(r[k] == e[k]);
            } else if k > i {
                assert(r[k] == e[k - 1]);
            }
        }
    }
}

/// Whether every path of some files has no more parts than can be counted.
pub open spec fn paths_countable(files: Seq<FileV>) -> bool {
    forall|i: int|
        0 <= i < files.len() ==> split_on((#[trigger] files[i]).path, '/').len() <= usize::MAX
}

pub proof fn lemma_tree_countable(files: Seq<FileV>, filter: Seq<char>)
    requires
        paths_countable(files),
    ensures
        countable(tree_of(files, filter), 0),
    decreases files.len(),
{
    if files.len() > 0 {
        let h = files.drop_last();
        assert forall|i: int| 0 <= i < h.len() implies split_on(
            (#[trigger] h[i]).path,
            '/',
        ).len() <= usize::MAX by {
            assert(h[i] == files[i]);
        }
        lemma_tree_countable(h, filter);
        let p = split_on(files.last().path, '/');
        assert(files[files.len() - 1] == files.last());
        assert(p.len() > 0);
        lemma_countable_with_file(tree_of(h, filter), p, (files.len() - 1) as usize, 0);
    }
}

// ---- Depths ----------------------------------------------------------------------

/// Whether rows are at `depth` or deeper.
pub open spec fn all_from(rows: Seq<RowV>, depth: int) -> bool {
    forall|i: int| 0 <= i < rows.len() ==> (#[trigger] rows[i]).depth >= depth
}

proof fn lemma_file_rows_from(e: Seq<EntryV>, depth: usize)
    ensures
        all_from(file_rows(e, depth), depth as int),
        forall|i: int|
            0 <= i < file_rows(e, depth).len() ==> (#[trigger] file_rows(e, depth)[i]).dir_path
                is None && file_rows(e, depth)[i].depth == depth,
    decreases e.len(),
{
    if e.len() > 0 {
        lemma_file_rows_from(e.drop_last(), depth);
    }
}

proof fn lemma_block_from(
    label: Seq<char>,
    e: Seq<EntryV>,
    prefix: Seq<char>,
    depth: usize,
    c: Set<Seq<char>>,
)
    requires
        depth < usize::MAX,
        countable(e, depth + 1),
    ensures
        dir_block(label, e, prefix, depth, c).len() > 0,
        dir_block(label, e, prefix, depth, c)[0].depth == depth,
        all_from(dir_block(label, e, prefix, depth, c), depth as int),
    decreases e, 2int,
{
    if e.len() == 1 && e[0].1 is Dir {
        let sub = e[0].1->Dir_0;
        lemma_countable_less(sub, depth + 1);
        lemma_block_from(label + "/"@ + e[0].0, sub, prefix, depth, c);
    } else {
        lemma_walk_from(e, below(prefix, label), deeper(depth), c);
    }
}

proof fn lemma_dirs_from(e: Seq<EntryV>, prefix: Seq<char>, depth: usize, c: Set<Seq<char>>)
    requires
        countable(e, depth as int),
    ensures
        all_from(dir_rows(e, prefix, depth, c), depth as int),
    decreases e, 0int,
{
    if e.len() > 0 {
        lemma_countable_head(e, depth as int);
        lemma_dirs_from(e.drop_last(), prefix, depth, c);
        assert(e[e.len() - 1] == e.last());
        if let NodeV::Dir(sub) = e.last().1 {
            lemma_block_from(e.last().0, sub, prefix, depth, c);
        }
    }
}

proof fn lemma_walk_from(e: Seq<EntryV>, prefix: Seq<char>, depth: usize, c: Set<Seq<char>>)
    requires
        countable(e, depth as int),
    ensures
        all_from(walk_rows(e, prefix, depth, c), depth as int),
    decreases e, 1int,
{
    lemma_dirs_from(e, prefix, depth, c);
    lemma_file_rows_from(e, depth);
}

// ---- Folding the full tree -------------------------------------------------------

/// Whether nothing at the front of rows is deeper than `depth`.
pub open spec fn back_at(rows: Seq<RowV>, depth: usize) -> bool {
    rows.len() == 0 || rows[0].depth <= depth
}

proof fn lemma_nested(kids: Seq<RowV>, tail: Seq<RowV>, depth: usize)
    requires
        all_from(kids, depth + 1),
        back_at(tail, depth),
    ensures
        nested(kids + tail, depth) == kids.len(),
        (kids + tail).skip(kids.len() as int) == tail,
    decreases kids.len(),
{
    if kids.len() > 0 {
        let rest = kids.skip(1);
        assert forall|i: int| 0 <= i < rest.len() implies (#[trigger] rest[i]).depth >= depth
            + 1 by {
            assert(rest[i] == kids[i + 1]);
        }
        lemma_nested(rest, tail, depth);
        assert((kids + tail)[0] == kids[0]);
        assert((kids + tail).skip(1) =~= rest + tail);
    } else {
        assert(kids + tail =~= tail);
    }
    assert((kids + tail).skip(kids.len() as int) =~= tail);
}

proof fn lemma_fold_files(e: Seq<EntryV>, depth: usize, c: Set<Seq<char>>, tail: Seq<RowV>)
    ensures
        folded(file_rows(e, depth) + tail, c) == file_rows(e, depth) + folded(tail, c),
{
    lemma_file_rows_from(e, depth);
    lemma_fold_plain(file_rows(e, depth), c, tail);
}

proof fn lemma_fold_plain(rows: Seq<RowV>, c: Set<Seq<char>>, tail: Seq<RowV>)
    requires
        forall|i: int| 0 <= i < rows.len() ==> (#[trigger] rows[i]).dir_path is None,
    ensures
        folded(rows + tail, c) == rows + folded(tail, c),
    decreases rows.len(),
{
    if rows.len() == 0 {
        assert(rows + tail =~= tail);
        assert(rows + folded(tail, c) =~= folded(tail, c));
    } else {
        let rest = rows.skip(1);
        assert forall|i: int| 0 <= i < rest.len() implies (#[trigger] rest[i]).dir_path is None by {
            assert(rest[i] == rows[i + 1]);
        }
        lemma_fold_plain(rest, c, tail);
        assert((rows + tail)[0] == rows[0]);
        assert((rows + tail).skip(1) =~= rest + tail);
        assert(seq![rows[0]] + (rest + folded(tail, c)) =~= rows + folded(tail, c));
    }
}

proof fn lemma_fold_block(
    label: Seq<char>,
    e: Seq<EntryV>,
    prefix: Seq<char>,
    depth: usize,
    c: Set<Seq<char>>,
    tail: Seq<RowV>,
)
    requires
        depth < usize::MAX,
        countable(e, depth + 1),
        back_at(tail, depth),
    ensures
        folded(dir_block(label, e, prefix, depth, Set::empty()) + tail, c) == dir_block(
            label,
            e,
            prefix,
            depth,
            c,
        ) + folded(tail, c),
    decreases e, 2int,
{
    let none = Set::<Seq<char>>::empty();
    if e.len() == 1 && e[0].1 is Dir {
        let sub = e[0].1->Dir_0;
        lemma_countable_less(sub, depth + 1);
        lemma_fold_block(label + "/"@ + e[0].0, sub, prefix, depth, c, tail);
    } else {
        let q = below(prefix, label);
        let r = dir_row(label, prefix, depth, none);
        let kids = walk_rows(e, q, deeper(depth), none);
        let all = dir_block(label, e, prefix, depth, none) + tail;
        lemma_walk_from(e, q, deeper(depth), none);
        assert(all =~= seq![r] + (kids + tail));
        assert(all[0] == r);
        assert(all.skip(1) =~= kids + tail);
        if c.contains(q) {
            lemma_nested(kids, tail, depth);
            let row = dir_row(label, prefix, depth, c);
            assert(row == RowV { expanded: false, ..r });
            assert(dir_block(label, e, prefix, depth, c) =~= seq![row]);
        } else {
            lemma_fold_walk(e, q, deeper(depth), c, tail);
            let rows = walk_rows(e, q, deeper(depth), c);
            assert(seq![r] + (rows + folded(tail, c)) =~= (seq![r] + rows) + folded(tail, c));
        }
    }
}

proof fn lemma_fold_dirs(
    e: Seq<EntryV>,
    prefix: Seq<char>,
    depth: usize,
    c: Set<Seq<char>>,
    tail: Seq<RowV>,
)
    requires
        countable(e, depth as int),
        back_at(tail, depth),
    ensures
        folded(dir_rows(e, prefix, depth, Set::empty()) + tail, c) == dir_rows(
            e,
            prefix,
            depth,
            c,
        ) + folded(tail, c),
    decreases e, 0int,
{
    let none = Set::<Seq<char>>::empty();
    if e.len() == 0 {
        assert(dir_rows(e, prefix, depth, none) + tail =~= tail);
        assert(dir_rows(e, prefix, depth, c) + folded(tail, c) =~= folded(tail, c));
    } else {
        lemma_countable_head(e, depth as int);
        assert(e[e.len() - 1] == e.last());
        let h = e.drop_last();
        match e.last().1 {
            NodeV::Dir(sub) => {
                let block = dir_block(e.last().0, sub, prefix, depth, none);
                lemma_block_from(e.last().0, sub, prefix, depth, none);
                lemma_fold_block(e.last().0, sub, prefix, depth, c, tail);
                lemma_fold_dirs(h, prefix, depth, c, block + tail);
                assert(dir_rows(e, prefix, depth, none) + tail =~= dir_rows(
                    h,
                    prefix,
                    depth,
                    none,
                ) + (block + tail));
                assert(dir_rows(e, prefix, depth, c) + folded(tail, c) =~= dir_rows(
                    h,
                    prefix,
                    depth,
                    c,
                ) + (dir_block(e.last().0, sub, prefix, depth, c) + folded(tail, c)));
            },
            NodeV::File(_) => {
                lemma_fold_dirs(h, prefix, depth, c, tail);
                assert(dir_rows(e, prefix, depth, none) =~= dir_rows(h, prefix, depth, none));
                assert(dir_rows(e, prefix, depth, c) =~= dir_rows(h, prefix, depth, c));
            },
        }
    }
}

proof fn lemma_fold_walk(
    e: Seq<EntryV>,
    prefix: Seq<char>,
    depth: usize,
    c: Set<Seq<char>>,
    tail: Seq<RowV>,
)
    requires
        countable(e, depth as int),
        back_at(tail, depth),
    ensures
        folded(walk_rows(e, prefix, depth, Set::empty()) + tail, c) == walk_rows(
            e,
            prefix,
            depth,
            c,
        ) + folded(tail, c),
    decreases e, 1int,
{
    let none = Set::<Seq<char>>::empty();
    let fs = file_rows(e, depth);
    lemma_file_rows_from(e, depth);
    lemma_fold_files(e, depth, c, tail);
    lemma_fold_dirs(e, prefix, depth, c, fs + tail);
    assert(walk_rows(e, prefix, depth, none) + tail =~= dir_rows(e, prefix, depth, none) + (fs
        + tail));
    assert(walk_rows(e, prefix, depth, c) + folded(tail, c) =~= dir_rows(e, prefix, depth, c) + (fs
        + folded(tail, c)));
}

/// The rows of the tree with some directories collapsed are those of the full tree, in the same
/// order, without the ones nested under a collapsed directory; the row of a collapsed directory
/// is not expanded.
pub proof fn law_collapsing_hides_nested(
    files: Seq<FileV>,
    collapsed: Set<Seq<char>>,
    filter: Seq<char>,
)
    requires
        paths_countable(files),
    ensures
        tree_view(files, collapsed, filter) == folded(
            tree_view(files, Set::empty(), filter),
            collapsed,
        ),
{
    let e = tree_of(files, filter);
    lemma_tree_countable(files, filter);
    let none = Seq::<RowV>::empty();
    lemma_fold_walk(e, seq![], 0, collapsed, none);
    let full = tree_view(files, Set::empty(), filter);
    assert(full + none =~= full);
    assert(tree_view(files, collapsed, filter) + none =~= tree_view(files, collapsed, filter));
}

// ---- Every directory has one row -------------------------------------------------

/// Whether a name can be a part of a path: not empty and without a slash.
pub open spec fn is_part(name: Seq<char>) -> bool {
    name.len() > 0 && !name.contains('/')
}

/// Whether all names in a tree can be parts of a path.
pub open spec fn named_well(e: Seq<EntryV>) -> bool
    decreases e,
{
    forall|i: int|
        0 <= i < e.len() ==> is_part((#[trigger] e[i]).0) && match e[i].1 {
            NodeV::Dir(sub) => named_well(sub),
            NodeV::File(_) => true,
        }
}

/// Whether no path of some files has an empty part.
pub open spec fn no_empty_parts(files: Seq<FileV>) -> bool {
    forall|i: int, k: int|
        0 <= i < files.len() && 0 <= k < split_on(files[i].path, '/').len() ==> (
        #[trigger] split_on(files[i].path, '/')[k]).len() > 0
}

proof fn lemma_named_head(e: Seq<EntryV>)
    requires
        e.len() > 0,
        named_well(e),
    ensures
        named_well(e.drop_last()),
{
    let h = e.drop_last();
    assert forall|i: int| 0 <= i < h.len() implies is_part((#[trigger] h[i]).0) && match h[i].1 {
        NodeV::Dir(sub) => named_well(sub),
        NodeV::File(_) => true,
    } by {
        assert(h[i] == e[i]);
    }
}

proof fn lemma_named_with_file(e: Seq<EntryV>, p: Seq<Seq<char>>, idx: usize)
    requires
        named_well(e),
        p.len() > 0,
        forall|k: int| 0 <= k < p.len() ==> is_part(#[trigger] p[k]),
    ensures
        named_well(with_file(e, p, idx)),
    decreases p.len(),
{
    let r = with_file(e, p, idx);
    let i = place(e, p[0]);
    lemma_place(e, p[0]);
    assert(is_part(p[0]));
    if p.len() > 1 {
        let t = p.skip(1);
        assert forall|k: int| 0 <= k < t.len() implies is_part(#[trigger] t[k]) by {
            assert(t[k] == p[k + 1]);
        }
        match entry(e, p[0]) {
            None => {
                assert(named_well(seq![]));
                lemma_named_with_file(seq![], t, idx);
            },
            Some(NodeV::Dir(sub)) => {
                assert(e[i].1 == NodeV::Dir(sub));
                lemma_named_with_file(sub, t, idx);
            },
            Some(NodeV::File(_)) => {},
        }
    }
    if r != e {
        assert forall|k: int| 0 <= k < r.len() implies is_part((#[trigger] r[k]).0)
            && match r[k].1 {
            NodeV::Dir(sub) => named_well(sub),
            NodeV::File(_) => true,
        } by {
            if r.len() == e.len() {
                if k != i {
                    assert(r[k] == e[k]);
                }
            } else if k < i {
                assert(r[k] == e[k]);
            } else if k > i {
                assert(r[k] == e[k - 1]);
            }
        }
    }
}

proof fn lemma_parts_without_slash(s: Seq<char>)
    ensures
        forall|k: int|
            0 <= k < split_on(s, '/').len() ==> !(#[trigger] split_on(s, '/')[k]).contains('/'),
    decreases s.len(),
{
    lemma_find(s, Stop::At('/'));
    let i = find(s, Stop::At('/'));
    if i < s.len() {
        lemma_parts_without_slash(s.skip(i + 1));
        let rest = split_on(s.skip(i + 1), '/');
        assert forall|k: int| 0 <= k < split_on(s, '/').len() implies !(#[trigger] split_on(
            s,
            '/',
        )[k]).contains('/') by {
            if k > 0 {
                assert(split_on(s, '/')[k] == rest[k - 1]);
            }
        }
    }
}

proof fn lemma_tree_named(files: Seq<FileV>, filter: Seq<char>)
    requires
        no_empty_parts(files),
    ensures
        named_well(tree_of(files, filter)),
    decreases files.len(),
{
    if files.len() > 0 {
        let h = files.drop_last();
        assert forall|i: int, k: int|
            0 <= i < h.len() && 0 <= k < split_on(h[i].path, '/').len() implies (
        #[trigger] split_on(h[i].path, '/')[k]).len() > 0 by {
            assert(h[i] == files[i]);
        }
        lemma_tree_named(h, filter);
        let n = files.len() - 1;
        let p = split_on(files.last().path, '/');
        lemma_parts_without_slash(files.last().path);
        assert forall|k: int| 0 <= k < p.len() implies is_part(#[trigger] p[k]) by {
            assert(split_on(files[n].path, '/')[k].len() > 0);
        }
        assert(p.len() > 0);
        lemma_named_with_file(tree_of(h, filter), p, n as usize);
    }
}

/// Whether a path is `q` or lies below it.
pub open spec fn at_or_below(path: Seq<char>, q: Seq<char>) -> bool {
    path == q || begins(path, q + "/"@)
}

/// Whether the directories among rows are at a path or below it.
pub open spec fn dirs_below(rows: Seq<RowV>, q: Seq<char>) -> bool {
    forall|i: int|
        0 <= i < rows.len() ==> ((#[trigger] rows[i]).dir_path matches Some(d) ==> at_or_below(
            d,
            q,
        ))
}

/// Whether the directories among rows are below a path, or anywhere where that is empty.
pub open spec fn dirs_under(rows: Seq<RowV>, prefix: Seq<char>) -> bool {
    forall|i: int|
        0 <= i < rows.len() ==> ((#[trigger] rows[i]).dir_path matches Some(d) ==> prefix.len()
            == 0 || begins(d, prefix + "/"@))
}

/// Whether no two of the directories among rows have the same path.
pub open spec fn dirs_differ(rows: Seq<RowV>) -> bool {
    forall|i: int, j: int|
        0 <= i < j < rows.len() && (#[trigger] rows[i]).dir_path is Some ==> rows[i].dir_path != (
        #[trigger] rows[j]).dir_path
}

proof fn lemma_further_below(d: Seq<char>, q: Seq<char>, name: Seq<char>)
    requires
        at_or_below(d, q + "/"@ + name),
    ensures
        begins(d, q + "/"@),
{
    let qs = q + "/"@;
    let long = qs + name;
    if d == long {
        assert(d.take(qs.len() as int) =~= qs);
    } else {
        let m = long + "/"@;
        assert(d.take(m.len() as int) == m);
        assert(d.take(qs.len() as int) =~= m.take(qs.len() as int));
        assert(m.take(qs.len() as int) =~= qs);
    }
}

proof fn lemma_block_below(
    label: Seq<char>,
    e: Seq<EntryV>,
    prefix: Seq<char>,
    depth: usize,
    c: Set<Seq<char>>,
)
    requires
        label.len() > 0,
        named_well(e),
    ensures
        dirs_below(dir_block(label, e, prefix, depth, c), below(prefix, label)),
    decreases e, 2int,
{
    let rows = dir_block(label, e, prefix, depth, c);
    let q = below(prefix, label);
    if e.len() == 1 && e[0].1 is Dir {
        let more = label + "/"@ + e[0].0;
        lemma_block_below(more, e[0].1->Dir_0, prefix, depth, c);
        assert(below(prefix, more) =~= q + "/"@ + e[0].0);
        assert forall|i: int| 0 <= i < rows.len() implies ((#[trigger] rows[i]).dir_path matches
            Some(d) ==> at_or_below(d, q)) by {
            if let Some(d) = rows[i].dir_path {
                lemma_further_below(d, q, e[0].0);
            }
        }
    } else {
        lemma_walk_under(e, q, deeper(depth), c);
        let kids = walk_rows(e, q, deeper(depth), c);
        assert(q.len() > 0);
        assert forall|i: int| 0 <= i < rows.len() implies ((#[trigger] rows[i]).dir_path matches
            Some(d) ==> at_or_below(d, q)) by {
            if i > 0 {
                assert(rows[i] == kids[i - 1]);
            }
        }
    }
}

proof fn lemma_dirs_under(e: Seq<EntryV>, prefix: Seq<char>, depth: usize, c: Set<Seq<char>>)
    requires
        named_well(e),
    ensures
        dirs_under(dir_rows(e, prefix, depth, c), prefix),
    decreases e, 0int,
{
    if e.len() > 0 {
        let rows = dir_rows(e, prefix, depth, c);
        let first = dir_rows(e.drop_last(), prefix, depth, c);
        lemma_named_head(e);
        lemma_dirs_under(e.drop_last(), prefix, depth, c);
        assert(e[e.len() - 1] == e.last());
        if let NodeV::Dir(sub) = e.last().1 {
            let block = dir_block(e.last().0, sub, prefix, depth, c);
            lemma_block_below(e.last().0, sub, prefix, depth, c);
            assert forall|i: int| 0 <= i < rows.len() implies ((#[trigger] rows[i]).dir_path
                matches Some(d) ==> prefix.len() == 0 || begins(d, prefix + "/"@)) by {
                if i < first.len() {
                    assert(rows[i] == first[i]);
                } else {
                    assert(rows[i] == block[i - first.len()]);
                    if let Some(d) = rows[i].dir_path {
                        if prefix.len() > 0 {
                            lemma_further_below(d, prefix, e.last().0);
                        }
                    }
                }
            }
        } else {
            assert(rows =~= first);
        }
    }
}

proof fn lemma_walk_under(e: Seq<EntryV>, prefix: Seq<char>, depth: usize, c: Set<Seq<char>>)
    requires
        named_well(e),
    ensures
        dirs_under(walk_rows(e, prefix, depth, c), prefix),
    decreases e, 1int,
{
    lemma_dirs_under(e, prefix, depth, c);
    lemma_file_rows_from(e, depth);
    let rows = walk_rows(e, prefix, depth, c);
    let ds = dir_rows(e, prefix, depth, c);
    let fs = file_rows(e, depth);
    assert forall|i: int| 0 <= i < rows.len() implies ((#[trigger] rows[i]).dir_path matches
        Some(d) ==> prefix.len() == 0 || begins(d, prefix + "/"@)) by {
        if i < ds.len() {
            assert(rows[i] == ds[i]);
        } else {
            assert(rows[i] == fs[i - ds.len()]);
        }
    }
}

/// What is at or below two entries of a directory is at or below the same entry.
proof fn lemma_one_entry(d: Seq<char>, prefix: Seq<char>, n: Seq<char>, m: Seq<char>)
    requires
        is_part(n),
        is_part(m),
        at_or_below(d, below(prefix, n)),
        at_or_below(d, below(prefix, m)),
        n.len() <= m.len(),
    ensures
        n == m,
{
    reveal_strlit("/");
    let off = if prefix.len() == 0 {
        0
    } else {
        prefix.len() + 1
    };
    let qn = below(prefix, n);
    let qm = below(prefix, m);
    assert(qn.len() == off + n.len());
    assert(qm.len() == off + m.len());
    assert(d.take(qn.len() as int) =~= qn) by {
        if d != qn {
            let w = qn + "/"@;
            assert(d.take(w.len() as int) == w);
            assert(d.take(qn.len() as int) =~= w.take(qn.len() as int));
        }
    }
    assert(d.take(qm.len() as int) =~= qm) by {
        if d != qm {
            let w = qm + "/"@;
            assert(d.take(w.len() as int) == w);
            assert(d.take(qm.len() as int) =~= w.take(qm.len() as int));
        }
    }
    assert forall|i: int| 0 <= i < n.len() implies n[i] == m[i] by {
        assert(qn[off + i] == n[i]);
        assert(qm[off + i] == m[i]);
        assert(d.take(qn.len() as int)[off + i] == d[off + i]);
        assert(d.take(qm.len() as int)[off + i] == d[off + i]);
    }
    if n.len() < m.len() {
        let w = qn + "/"@;
        assert(d != qn);
        assert(d.take(w.len() as int) == w);
        assert(w[qn.len() as int] == '/');
        assert(d.take(w.len() as int)[qn.len() as int] == d[qn.len() as int]);
        assert(d.take(qm.len() as int)[qn.len() as int] == d[qn.len() as int]);
        assert(qm[qn.len() as int] == m[n.len() as int]);
        assert(m.contains('/'));
    }
    assert(n =~= m);
}

proof fn lemma_block_differs(
    label: Seq<char>,
    e: Seq<EntryV>,
    prefix: Seq<char>,
    depth: usize,
    c: Set<Seq<char>>,
)
    requires
        label.len() > 0,
        named_well(e),
        sorted_tree(e),
    ensures
        dirs_differ(dir_block(label, e, prefix, depth, c)),
    decreases e, 2int,
{
    let rows = dir_block(label, e, prefix, depth, c);
    if e.len() == 1 && e[0].1 is Dir {
        lemma_block_differs(label + "/"@ + e[0].0, e[0].1->Dir_0, prefix, depth, c);
    } else {
        let q = below(prefix, label);
        let kids = walk_rows(e, q, deeper(depth), c);
        lemma_walk_differs(e, q, deeper(depth), c);
        lemma_walk_under(e, q, deeper(depth), c);
        reveal_strlit("/");
        assert forall|i: int, j: int|
            0 <= i < j < rows.len() && (#[trigger] rows[i]).dir_path is Some implies
            rows[i].dir_path != (#[trigger] rows[j]).dir_path by {
            assert(rows[j] == kids[j - 1]);
            if i > 0 {
                assert(rows[i] == kids[i - 1]);
            } else {
                assert(rows[i].dir_path == Some(q));
                if kids[j - 1].dir_path == Some(q) {
                    assert(begins(q, q + "/"@));
                }
            }
        }
    }
}

/// Every directory among the rows of entries is at or below one of them.
proof fn lemma_dirs_of_entries(
    e: Seq<EntryV>,
    prefix: Seq<char>,
    depth: usize,
    c: Set<Seq<char>>,
    i: int,
) -> (k: int)
    requires
        named_well(e),
        0 <= i < dir_rows(e, prefix, depth, c).len(),
        dir_rows(e, prefix, depth, c)[i].dir_path is Some,
    ensures
        0 <= k < e.len(),
        at_or_below(dir_rows(e, prefix, depth, c)[i].dir_path->0, below(prefix, e[k].0)),
    decreases e.len(),
{
    let h = e.drop_last();
    let first = dir_rows(h, prefix, depth, c);
    lemma_named_head(e);
    assert(e[e.len() - 1] == e.last());
    if i < first.len() {
        assert(dir_rows(e, prefix, depth, c)[i] == first[i]);
        let k = lemma_dirs_of_entries(h, prefix, depth, c, i);
        assert(h[k] == e[k]);
        k
    } else {
        match e.last().1 {
            NodeV::Dir(sub) => {
                let block = dir_block(e.last().0, sub, prefix, depth, c);
                lemma_block_below(e.last().0, sub, prefix, depth, c);
                assert(dir_rows(e, prefix, depth, c)[i] == block[i - first.len()]);
            },
            NodeV::File(_) => {
                assert(dir_rows(e, prefix, depth, c) =~= first);
            },
        }
        e.len() - 1
    }
}

proof fn lemma_dirs_differ(e: Seq<EntryV>, prefix: Seq<char>, depth: usize, c: Set<Seq<char>>)
    requires
        named_well(e),
        sorted_tree(e),
    ensures
        dirs_differ(dir_rows(e, prefix, depth, c)),
    decreases e, 0int,
{
    if e.len() > 0 {
        let h = e.drop_last();
        let rows = dir_rows(e, prefix, depth, c);
        let first = dir_rows(h, prefix, depth, c);
        lemma_named_head(e);
        assert forall|i: int, j: int| 0 <= i < j < h.len() implies before(
            (#[trigger] h[i]).0,
            (#[trigger] h[j]).0,
        ) by {
            assert(h[i] == e[i] && h[j] == e[j]);
        }
        assert forall|i: int| 0 <= i < h.len() implies match (#[trigger] h[i]).1 {
            NodeV::Dir(sub) => sorted_tree(sub),
            NodeV::File(_) => true,
        } by {
            assert(h[i] == e[i]);
        }
        lemma_dirs_differ(h, prefix, depth, c);
        let last = e.len() - 1;
        assert(e[last] == e.last());
        match e.last().1 {
            NodeV::Dir(sub) => {
                let block = dir_block(e.last().0, sub, prefix, depth, c);
                lemma_block_differs(e.last().0, sub, prefix, depth, c);
                lemma_block_below(e.last().0, sub, prefix, depth, c);
                assert forall|i: int, j: int|
                    0 <= i < j < rows.len() && (#[trigger] rows[i]).dir_path is Some implies
                    rows[i].dir_path != (#[trigger] rows[j]).dir_path by {
                    if j < first.len() {
                        assert(rows[i] == first[i] && rows[j] == first[j]);
                    } else if i >= first.len() {
                        assert(rows[i] == block[i - first.len()]);
                        assert(rows[j] == block[j - first.len()]);
                    } else if rows[i].dir_path == rows[j].dir_path {
                        assert(rows[i] == first[i]);
                        assert(rows[j] == block[j - first.len()]);
                        let k = lemma_dirs_of_entries(h, prefix, depth, c, i);
                        assert(h[k] == e[k]);
                        let d = rows[i].dir_path->0;
                        let n = e[k].0;
                        let m = e[last].0;
                        if n.len() <= m.len() {
                            lemma_one_entry(d, prefix, n, m);
                        } else {
                            lemma_one_entry(d, prefix, m, n);
                        }
                        lemma_before_total(n, m);
                        assert(before(e[k].0, e[last].0));
                    }
                }
            },
            NodeV::File(_) => {
                assert(rows =~= first);
            },
        }
    }
}

proof fn lemma_walk_differs(e: Seq<EntryV>, prefix: Seq<char>, depth: usize, c: Set<Seq<char>>)
    requires
        named_well(e),
        sorted_tree(e),
    ensures
        dirs_differ(walk_rows(e, prefix, depth, c)),
    decreases e, 1int,
{
    lemma_dirs_differ(e, prefix, depth, c);
    lemma_file_rows_from(e, depth);
    let rows = walk_rows(e, prefix, depth, c);
    let ds = dir_rows(e, prefix, depth, c);
    let fs = file_rows(e, depth);
    assert forall|i: int, j: int|
        0 <= i < j < rows.len() && (#[trigger] rows[i]).dir_path is Some implies rows[i].dir_path
        != (#[trigger] rows[j]).dir_path by {
        if i >= ds.len() {
            assert(rows[i] == fs[i - ds.len()]);
        } else if j >= ds.len() {
            assert(rows[j] == fs[j - ds.len()]);
        } else {
            assert(rows[i] == ds[i] && rows[j] == ds[j]);
        }
    }
}

/// No two rows of the tree are for the same directory, where no path has an empty part.
pub proof fn law_one_row_per_directory(
    files: Seq<FileV>,
    collapsed: Set<Seq<char>>,
    filter: Seq<char>,
)
    requires
        no_empty_parts(files),
    ensures
        dirs_differ(tree_view(files, collapsed, filter)),
        forall|i: int|
            0 <= i < tree_view(files, collapsed, filter).len() && (#[trigger] tree_view(
                files,
                collapsed,
                filter,
            )[i]).dir_path is Some ==> first_of_its_directory(
                tree_view(files, collapsed, filter),
                i,
            ),
{
    lemma_tree_named(files, filter);
    law_tree_sorted(files, filter);
    lemma_walk_differs(tree_of(files, filter), seq![], 0, collapsed);
}

// ---- Entering a directory twice --------------------------------------------------

/// Whether a row is for a directory that no row above it is for.
pub open spec fn first_of_its_directory(rows: Seq<RowV>, i: int) -> bool {
    &&& 0 <= i < rows.len()
    &&& rows[i].dir_path is Some
    &&& forall|j: int| 0 <= j < i ==> (#[trigger] rows[j]).dir_path != rows[i].dir_path
}

/// Collapsed directories with one more or one fewer.
pub open spec fn toggled(c: Set<Seq<char>>, d: Seq<char>) -> Set<Seq<char>> {
    if c.contains(d) {
        c.remove(d)
    } else {
        c.insert(d)
    }
}

/// Collapsing or expanding a directory leaves alone the rows above its row, and its own but for
/// whether it is expanded.
proof fn lemma_toggle(rows: Seq<RowV>, c: Set<Seq<char>>, d: Seq<char>, i: int)
    requires
        0 <= i < folded(rows, c).len(),
        folded(rows, c)[i].dir_path == Some(d),
        forall|j: int| 0 <= j < i ==> (#[trigger] folded(rows, c)[j]).dir_path != Some(d),
        forall|j: int| 0 <= j < rows.len() && (#[trigger] rows[j]).dir_path is Some ==> rows[j].expanded,
    ensures
        i < folded(rows, toggled(c, d)).len(),
        folded(rows, toggled(c, d)).take(i) == folded(rows, c).take(i),
        folded(rows, toggled(c, d))[i] == (RowV { expanded: c.contains(d), ..folded(rows, c)[i] }),
    decreases rows.len(),
{
    let r = rows[0];
    let t = toggled(c, d);
    let rest = rows.skip(1);
    let a = folded(rows, c);
    let b = folded(rows, t);
    lemma_nested_bound(rest, r.depth);
    let left = if r.dir_path is Some && c.contains(r.dir_path->0) {
        rest.skip(nested(rest, r.depth) as int)
    } else {
        rest
    };
    assert(a[0].dir_path == r.dir_path);
    assert(a.skip(1) =~= folded(left, c));
    if i == 0 {
        assert(rows[0].expanded);
        assert(b.take(0) =~= a.take(0));
    } else {
        assert(a[0].dir_path != Some(d));
        assert(b.skip(1) =~= folded(left, t));
        assert(a[0] == b[0]);
        assert forall|j: int| 0 <= j < i - 1 implies (#[trigger] folded(left, c)[j]).dir_path
            != Some(d) by {
            assert(a[j + 1] == folded(left, c)[j]);
        }
        assert forall|j: int| 0 <= j < left.len() && (#[trigger] left[j]).dir_path is Some implies
            left[j].expanded by {
            if left.len() == rest.len() {
                assert(left[j] == rows[j + 1]);
            } else {
                assert(left[j] == rows[j + 1 + nested(rest, r.depth)]);
            }
        }
        assert(a[i] == folded(left, c)[i - 1]);
        lemma_toggle(left, c, d, i - 1);
        assert(b[i] == folded(left, t)[i - 1]);
        assert forall|j: int| 0 <= j < i implies b[j] == a[j] by {
            if j > 0 {
                assert(a[j] == folded(left, c).take(i - 1)[j - 1]);
                assert(b[j] == folded(left, t).take(i - 1)[j - 1]);
            }
        }
        assert(b.take(i) =~= a.take(i));
    }
}

/// In the full tree every directory is expanded.
proof fn lemma_block_expanded(label: Seq<char>, e: Seq<EntryV>, prefix: Seq<char>, depth: usize)
    ensures
        forall|j: int|
            0 <= j < dir_block(label, e, prefix, depth, Set::empty()).len() && (
            #[trigger] dir_block(label, e, prefix, depth, Set::empty())[j]).dir_path is Some ==>
                dir_block(label, e, prefix, depth, Set::empty())[j].expanded,
    decreases e, 2int,
{
    if e.len() == 1 && e[0].1 is Dir {
        lemma_block_expanded(label + "/"@ + e[0].0, e[0].1->Dir_0, prefix, depth);
    } else {
        let none = Set::<Seq<char>>::empty();
        let rows = dir_block(label, e, prefix, depth, none);
        let kids = walk_rows(e, below(prefix, label), deeper(depth), none);
        lemma_walk_expanded(e, below(prefix, label), deeper(depth));
        assert forall|j: int| 0 <= j < rows.len() && (#[trigger] rows[j]).dir_path is Some implies
            rows[j].expanded by {
            if j > 0 {
                assert(rows[j] == kids[j - 1]);
            }
        }
    }
}

proof fn lemma_dirs_expanded(e: Seq<EntryV>, prefix: Seq<char>, depth: usize)
    ensures
        forall|j: int|
            0 <= j < dir_rows(e, prefix, depth, Set::empty()).len() && (#[trigger] dir_rows(
                e,
                prefix,
                depth,
                Set::empty(),
            )[j]).dir_path is Some ==> dir_rows(e, prefix, depth, Set::empty())[j].expanded,
    decreases e, 0int,
{
    if e.len() > 0 {
        let none = Set::<Seq<char>>::empty();
        let rows = dir_rows(e, prefix, depth, none);
        let first = dir_rows(e.drop_last(), prefix, depth, none);
        lemma_dirs_expanded(e.drop_last(), prefix, depth);
        if let NodeV::Dir(sub) = e.last().1 {
            let block = dir_block(e.last().0, sub, prefix, depth, none);
            lemma_block_expanded(e.last().0, sub, prefix, depth);
            assert forall|j: int|
                0 <= j < rows.len() && (#[trigger] rows[j]).dir_path is Some implies
                rows[j].expanded by {
                if j < first.len() {
                    assert(rows[j] == first[j]);
                } else {
                    assert(rows[j] == block[j - first.len()]);
                }
            }
        } else {
            assert(rows =~= first);
        }
    }
}

proof fn lemma_walk_expanded(e: Seq<EntryV>, prefix: Seq<char>, depth: usize)
    ensures
        forall|j: int|
            0 <= j < walk_rows(e, prefix, depth, Set::empty()).len() && (#[trigger] walk_rows(
                e,
                prefix,
                depth,
                Set::empty(),
            )[j]).dir_path is Some ==> walk_rows(e, prefix, depth, Set::empty())[j].expanded,
    decreases e, 1int,
{
    let none = Set::<Seq<char>>::empty();
    lemma_dirs_expanded(e, prefix, depth);
    lemma_file_rows_from(e, depth);
    let rows = walk_rows(e, prefix, depth, none);
    let ds = dir_rows(e, prefix, depth, none);
    let fs = file_rows(e, depth);
    assert forall|j: int| 0 <= j < rows.len() && (#[trigger] rows[j]).dir_path is Some implies
        rows[j].expanded by {
        if j < ds.len() {
            assert(rows[j] == ds[j]);
        } else {
            assert(rows[j] == fs[j - ds.len()]);
        }
    }
}

/// Collapsing or expanding the directory of row `i` leaves alone the rows above it, and row `i`
/// but for whether it is expanded, where no row above it is for the same directory.
pub proof fn law_toggling_keeps_row(
    files: Seq<FileV>,
    collapsed: Set<Seq<char>>,
    filter: Seq<char>,
    i: int,
)
    requires
        paths_countable(files),
        first_of_its_directory(tree_view(files, collapsed, filter), i),
    ensures
        ({
            let rows = tree_view(files, collapsed, filter);
            let d = rows[i].dir_path->0;
            let after = tree_view(files, toggled(collapsed, d), filter);
            &&& i < after.len()
            &&& after.take(i) == rows.take(i)
            &&& after[i] == (RowV { expanded: !rows[i].expanded, ..rows[i] })
            &&& rows[i].expanded == !collapsed.contains(d)
        }),
{
    let rows = tree_view(files, collapsed, filter);
    let d = rows[i].dir_path->0;
    let full = tree_view(files, Set::empty(), filter);
    law_collapsing_hides_nested(files, collapsed, filter);
    law_collapsing_hides_nested(files, toggled(collapsed, d), filter);
    lemma_walk_expanded(tree_of(files, filter), seq![], 0);
    lemma_toggle(full, collapsed, d, i);
    lemma_folded_expanded(full, collapsed, i);
}

proof fn lemma_folded_expanded(rows: Seq<RowV>, c: Set<Seq<char>>, i: int)
    requires
        0 <= i < folded(rows, c).len(),
        folded(rows, c)[i].dir_path is Some,
        forall|j: int| 0 <= j < rows.len() && (#[trigger] rows[j]).dir_path is Some ==> rows[j].expanded,
    ensures
        folded(rows, c)[i].expanded == !c.contains(folded(rows, c)[i].dir_path->0),
    decreases rows.len(),
{
    let r = rows[0];
    let rest = rows.skip(1);
    lemma_nested_bound(rest, r.depth);
    let left = if r.dir_path is Some && c.contains(r.dir_path->0) {
        rest.skip(nested(rest, r.depth) as int)
    } else {
        rest
    };
    if i == 0 {
        assert(rows[0].dir_path is Some);
    } else {
        assert(folded(rows, c)[i] == folded(left, c)[i - 1]);
        assert forall|j: int| 0 <= j < left.len() && (#[trigger] left[j]).dir_path is Some implies
            left[j].expanded by {
            if left.len() == rest.len() {
                assert(left[j] == rows[j + 1]);
            } else {
                assert(left[j] == rows[j + 1 + nested(rest, r.depth)]);
            }
        }
        lemma_folded_expanded(left, c, i - 1);
    }
}

/// Enter on a directory collapses or expands it: the rows above stay, its own row stays under the
/// cursor with the other mark, and the focus stays. Enter once more gives the state back, with
/// what was collapsed, the cursor and the rows. This needs that no row above is for the same
/// directory, which holds wherever no path has an empty part.
pub proof fn law_enter_twice(a: AppV)
    requires
        a.has_ui(),
        !a.flat,
        paths_countable(a.files()),
        first_of_its_directory(a.rows(), a.ui().cursor as int),
    ensures
        ({
            let at = a.ui().cursor as int;
            let row = a.rows()[at];
            let d = row.dir_path->0;
            let b = a.key_tree(KeyCode::Enter);
            &&& b == a.with_ui(WtUiV { collapsed: toggled(a.ui().collapsed, d), ..a.ui() })
            &&& b.focus == a.focus
            &&& b.has_ui() && b.ui().cursor == a.ui().cursor
            &&& forall|x: Seq<char>|
                #![trigger b.ui().collapsed.contains(x)]
                b.ui().collapsed.contains(x) == (a.ui().collapsed.contains(x) != (x == d))
            &&& at < b.rows().len()
            &&& b.rows().take(at) == a.rows().take(at)
            &&& b.rows()[at] == (RowV { expanded: !row.expanded, ..row })
            &&& b.key_tree(KeyCode::Enter) == a
        }),
{
    let at = a.ui().cursor as int;
    let row = a.rows()[at];
    let d = row.dir_path->0;
    let c = a.ui().collapsed;
    let u = WtUiV { collapsed: toggled(c, d), ..a.ui() };
    let b = a.with_ui(u);
    assert(b.has_ui() && b.ui() == u && b.files() == a.files() && b.focus == a.focus && b.filter
        == a.filter && !b.flat && b.sel_wt == a.sel_wt && b.wts == a.wts && b.wt_key()
        == a.wt_key() && b.ui_state == a.ui_state.insert(a.wt_key(), u)) by {
        reveal(AppV::with_ui);
    }
    assert(a.rows() == tree_view(a.files(), c, a.filter)) by {
        reveal(AppV::rows);
    }
    assert(b.rows() == tree_view(a.files(), toggled(c, d), a.filter)) by {
        reveal(AppV::rows);
    }
    law_toggling_keeps_row(a.files(), c, a.filter, at);
    assert(a.key_tree(KeyCode::Enter) == b) by {
        reveal(AppV::key_tree);
        reveal(AppV::tree_enter);
        reveal(AppV::clamp_cursor);
    }
    let again = WtUiV { collapsed: toggled(toggled(c, d), d), ..u };
    assert(toggled(toggled(c, d), d) =~= c);
    assert(b.with_ui(again) == a) by {
        reveal(AppV::with_ui);
        assert(b.with_ui(again).ui_state =~= a.ui_state);
    }
    assert(b.key_tree(KeyCode::Enter) == a) by {
        reveal(AppV::key_tree);
        reveal(AppV::tree_enter);
        reveal(AppV::clamp_cursor);
    }
}

/// A directory that is shown is expanded exactly where it is not collapsed.
pub proof fn law_expanded_unless_collapsed(
    files: Seq<FileV>,
    collapsed: Set<Seq<char>>,
    filter: Seq<char>,
    i: int,
)
    requires
        paths_countable(files),
        0 <= i < tree_view(files, collapsed, filter).len(),
    ensures
        tree_view(files, collapsed, filter)[i].dir_path matches Some(d) ==> tree_view(
            files,
            collapsed,
            filter,
        )[i].expanded == !collapsed.contains(d),
{
    law_collapsing_hides_nested(files, collapsed, filter);
    lemma_walk_expanded(tree_of(files, filter), seq![], 0);
    if tree_view(files, collapsed, filter)[i].dir_path is Some {
        lemma_folded_expanded(tree_view(files, Set::empty(), filter), collapsed, i);
    }
}

proof fn lemma_folded_by(rows: Seq<RowV>, c: Set<Seq<char>>, d: Set<Seq<char>>)
    requires
        forall|j: int|
            0 <= j < rows.len() ==> ((#[trigger] rows[j]).dir_path matches Some(p) ==> c.contains(p)
                == d.contains(p)),
    ensures
        folded(rows, c) == folded(rows, d),
    decreases rows.len(),
{
    if rows.len() > 0 {
        let r = rows[0];
        let rest = rows.skip(1);
        let n = nested(rest, r.depth) as int;
        lemma_nested_bound(rest, r.depth);
        assert forall|j: int| 0 <= j < rest.len() implies #[trigger] rest[j] == rows[j + 1] by {}
        lemma_folded_by(rest, c, d);
        assert forall|j: int| 0 <= j < rest.skip(n).len() implies #[trigger] rest.skip(n)[j]
            == rows[j + 1 + n] by {}
        lemma_folded_by(rest.skip(n), c, d);
    }
}

/// Paths that are no directory of the full tree have no effect: collapsed directories that agree
/// in the directories of the full tree give the same rows.
pub proof fn law_only_directories_collapse(
    files: Seq<FileV>,
    c: Set<Seq<char>>,
    d: Set<Seq<char>>,
    filter: Seq<char>,
)
    requires
        paths_countable(files),
        forall|j: int|
            0 <= j < tree_view(files, Set::empty(), filter).len() ==> ((#[trigger] tree_view(
                files,
                Set::empty(),
                filter,
            )[j]).dir_path matches Some(p) ==> c.contains(p) == d.contains(p)),
    ensures
        tree_view(files, c, filter) == tree_view(files, d, filter),
{
    law_collapsing_hides_nested(files, c, filter);
    law_collapsing_hides_nested(files, d, filter);
    lemma_folded_by(tree_view(files, Set::empty(), filter), c, d);
}

} // verus!
