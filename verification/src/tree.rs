//! The tree of changed files, as rows.
//!
//! A chain of directories that each hold nothing but the next one is one row, such as
//! `docs/archive/sow`.

use crate::git::{files_view, FileChange, FileV};
use crate::names::Names;
use crate::text::{
    before, cat, chars_of, contains, lemma_before_total, lemma_before_trans, less, occurs, opt_str,
    same, split, split_on, strs,
};
use vstd::prelude::*;
use vstd::string::*;

verus! {

// ---- The tree --------------------------------------------------------------------

/// What a name in a directory stands for.
#[derive(Debug)]
enum Node {
    /// A directory, its entries sorted by name
    Dir(Vec<(String, Node)>),
    /// A file, by its index
    File(usize),
}

/// What a name in a directory stands for, as a mathematical value.
pub enum NodeV {
    Dir(Seq<(Seq<char>, NodeV)>),
    File(usize),
}

/// An entry of a directory.
pub type EntryV = (Seq<char>, NodeV);

/// The value of a node.
spec fn node_view(n: Node) -> NodeV
    decreases n,
{
    match n {
        Node::Dir(v) => NodeV::Dir(entries_view(v@)),
        Node::File(i) => NodeV::File(i),
    }
}

/// The value of entries.
spec fn entries_view(v: Seq<(String, Node)>) -> Seq<EntryV>
    decreases v,
{
    if v.len() == 0 {
        seq![]
    } else {
        entries_view(v.drop_last()).push((v.last().0@, node_view(v.last().1)))
    }
}

proof fn lemma_entries_view(v: Seq<(String, Node)>)
    ensures
        entries_view(v).len() == v.len(),
        forall|i: int|
            0 <= i < v.len() ==> #[trigger] entries_view(v)[i] == (v[i].0@, node_view(v[i].1)),
    decreases v.len(),
{
    if v.len() > 0 {
        lemma_entries_view(v.drop_last());
        assert forall|i: int| 0 <= i < v.len() implies #[trigger] entries_view(v)[i] == (
            v[i].0@,
            node_view(v[i].1),
        ) by {
            if i < v.len() - 1 {
                assert(entries_view(v)[i] == entries_view(v.drop_last())[i]);
            }
        }
    }
}

/// The number of leading entries whose names come before `name`.
pub open spec fn place(e: Seq<EntryV>, name: Seq<char>) -> int
    decreases e.len(),
{
    if e.len() > 0 && before(e[0].0, name) {
        1 + place(e.skip(1), name)
    } else {
        0
    }
}

/// Entries with `name` standing for `node`.
pub open spec fn set_entry(e: Seq<EntryV>, name: Seq<char>, node: NodeV) -> Seq<EntryV> {
    let i = place(e, name);
    if i < e.len() && e[i].0 == name {
        e.update(i, (name, node))
    } else {
        e.insert(i, (name, node))
    }
}

/// What `name` stands for.
pub open spec fn entry(e: Seq<EntryV>, name: Seq<char>) -> Option<NodeV> {
    let i = place(e, name);
    if i < e.len() && e[i].0 == name {
        Some(e[i].1)
    } else {
        None
    }
}

/// Entries with the file `idx` at a path. A name that stands for a file already is no directory:
/// nothing is put below it.
pub open spec fn with_file(e: Seq<EntryV>, path: Seq<Seq<char>>, idx: usize) -> Seq<EntryV>
    decreases path.len(),
{
    if path.len() == 0 {
        e
    } else if path.len() == 1 {
        set_entry(e, path[0], NodeV::File(idx))
    } else {
        match entry(e, path[0]) {
            None => set_entry(e, path[0], NodeV::Dir(with_file(seq![], path.skip(1), idx))),
            Some(NodeV::Dir(below)) => set_entry(
                e,
                path[0],
                NodeV::Dir(with_file(below, path.skip(1), idx)),
            ),
            Some(NodeV::File(_)) => e,
        }
    }
}

pub proof fn lemma_place(e: Seq<EntryV>, name: Seq<char>)
    ensures
        0 <= place(e, name) <= e.len(),
    decreases e.len(),
{
    if e.len() > 0 && before(e[0].0, name) {
        lemma_place(e.skip(1), name);
    }
}

fn find_place(v: &Vec<(String, Node)>, name: &str) -> (r: usize)
    ensures
        r == place(entries_view(v@), name@),
        r <= v@.len(),
{
    let ghost e = entries_view(v@);
    proof {
        lemma_entries_view(v@);
        lemma_place(e, name@);
    }
    let mut i: usize = 0;
    assert(e.skip(0) =~= e);
    while i < v.len() && less(v[i].0.as_str(), name)
        invariant
            e == entries_view(v@),
            e.len() == v@.len(),
            forall|k: int|
                0 <= k < v@.len() ==> #[trigger] e[k] == (v@[k].0@, node_view(v@[k].1)),
            i <= v@.len(),
            place(e, name@) == i + place(e.skip(i as int), name@),
        decreases v@.len() - i,
    {
        assert(e.skip(i as int)[0] == e[i as int]);
        assert(e.skip(i as int).skip(1) =~= e.skip(i + 1));
        i += 1;
    }
    proof {
        if i < v@.len() {
            assert(e.skip(i as int)[0] == e[i as int]);
        }
    }
    i
}

proof fn lemma_view_insert(v: Seq<(String, Node)>, i: int, x: (String, Node))
    requires
        0 <= i <= v.len(),
    ensures
        entries_view(v.insert(i, x)) == entries_view(v).insert(i, (x.0@, node_view(x.1))),
{
    lemma_entries_view(v);
    lemma_entries_view(v.insert(i, x));
    assert(entries_view(v.insert(i, x)) =~= entries_view(v).insert(i, (x.0@, node_view(x.1))));
}

proof fn lemma_view_update(v: Seq<(String, Node)>, i: int, x: (String, Node))
    requires
        0 <= i < v.len(),
    ensures
        entries_view(v.update(i, x)) == entries_view(v).update(i, (x.0@, node_view(x.1))),
{
    lemma_entries_view(v);
    lemma_entries_view(v.update(i, x));
    assert(entries_view(v.update(i, x)) =~= entries_view(v).update(i, (x.0@, node_view(x.1))));
}

/// Put the file `idx` at the path `parts[at..]`.
fn insert(entries: Vec<(String, Node)>, parts: &Vec<String>, at: usize, idx: usize) -> (r: Vec<
    (String, Node),
>)
    requires
        at <= parts@.len(),
    ensures
        entries_view(r@) == with_file(
            entries_view(entries@),
            strs(parts@).skip(at as int),
            idx,
        ),
    decreases parts@.len() - at,
{
    let mut v = entries;
    let ghost path = strs(parts@).skip(at as int);
    let ghost e = entries_view(v@);
    if at >= parts.len() {
        return v;
    }
    let name = parts[at].as_str();
    let i = find_place(&v, name);
    proof {
        assert(path[0] == name@);
        assert(path.skip(1) =~= strs(parts@).skip(at + 1));
        lemma_entries_view(v@);
        if i < v@.len() {
            assert(e[i as int] == (v@[i as int].0@, node_view(v@[i as int].1)));
        }
    }
    let found = i < v.len() && same(v[i].0.as_str(), name);
    if parts.len() - at == 1 {
        let x = (name.to_string(), Node::File(idx));
        let ghost v0 = v@;
        if found {
            v.remove(i);
            v.insert(i, x);
            proof {
                assert(v@ =~= v0.update(i as int, x));
                lemma_view_update(v0, i as int, x);
            }
        } else {
            v.insert(i, x);
            proof {
                lemma_view_insert(v0, i as int, x);
            }
        }
        return v;
    }
    let ghost v0 = v@;
    if found {
        let (key, node) = v.remove(i);
        match node {
            Node::Dir(below) => {
                let x = (key, Node::Dir(insert(below, parts, at + 1, idx)));
                v.insert(i, x);
                proof {
                    assert(v@ =~= v0.update(i as int, x));
                    lemma_view_update(v0, i as int, x);
                }
                v
            },
            Node::File(k) => {
                v.insert(i, (key, Node::File(k)));
                assert(v@ =~= v0);
                v
            },
        }
    } else {
        let below: Vec<(String, Node)> = Vec::new();
        assert(entries_view(below@) =~= Seq::<EntryV>::empty());
        let x = (name.to_string(), Node::Dir(insert(below, parts, at + 1, idx)));
        v.insert(i, x);
        proof {
            lemma_view_insert(v0, i as int, x);
        }
        v
    }
}

// ---- Rows ------------------------------------------------------------------------

/// A row of the file list.
#[derive(Debug)]
pub struct Row {
    pub depth: usize,
    /// What is shown: `a/b/c` for a chain of directories
    pub label: String,
    /// The whole path of a directory, by which it is collapsed; `None` for a file
    pub dir_path: Option<String>,
    pub file_idx: Option<usize>,
    pub expanded: bool,
}

/// A row of the file list, as a mathematical value.
#[verifier::ext_equal]
pub struct RowV {
    pub depth: usize,
    pub label: Seq<char>,
    pub dir_path: Option<Seq<char>>,
    pub file_idx: Option<usize>,
    pub expanded: bool,
}

impl View for Row {
    type V = RowV;

    open spec fn view(&self) -> RowV {
        RowV {
            depth: self.depth,
            label: self.label@,
            dir_path: opt_str(self.dir_path),
            file_idx: self.file_idx,
            expanded: self.expanded,
        }
    }
}

impl Clone for Row {
    fn clone(&self) -> (r: Self)
        ensures
            r == *self,
    {
        let dir_path = match &self.dir_path {
            Some(p) => Some(p.clone()),
            None => None,
        };
        Row {
            depth: self.depth,
            label: self.label.clone(),
            dir_path,
            file_idx: self.file_idx,
            expanded: self.expanded,
        }
    }
}

/// The values of rows.
pub open spec fn rows_view(v: Seq<Row>) -> Seq<RowV> {
    v.map_values(|r: Row| r@)
}

/// One level further in.
pub open spec fn deeper(depth: usize) -> usize {
    if depth == usize::MAX {
        depth
    } else {
        (depth + 1) as usize
    }
}

/// The path of a directory below `prefix`.
pub open spec fn below(prefix: Seq<char>, label: Seq<char>) -> Seq<char> {
    if prefix.len() == 0 {
        label
    } else {
        prefix + "/"@ + label
    }
}

/// The row of a directory.
pub open spec fn dir_row(
    label: Seq<char>,
    prefix: Seq<char>,
    depth: usize,
    collapsed: Set<Seq<char>>,
) -> RowV {
    RowV {
        depth,
        label,
        dir_path: Some(below(prefix, label)),
        file_idx: None,
        expanded: !collapsed.contains(below(prefix, label)),
    }
}

/// The row of a file.
pub open spec fn file_row(name: Seq<char>, idx: usize, depth: usize) -> RowV {
    RowV { depth, label: name, dir_path: None, file_idx: Some(idx), expanded: false }
}

/// The rows of a directory with the entries `e`: joined with its only entry where that is a
/// directory, else its own row and, unless it is collapsed, the rows of its entries.
pub open spec fn dir_block(
    label: Seq<char>,
    e: Seq<EntryV>,
    prefix: Seq<char>,
    depth: usize,
    collapsed: Set<Seq<char>>,
) -> Seq<RowV>
    decreases e, 2int,
{
    if e.len() == 1 && e[0].1 is Dir {
        dir_block(label + "/"@ + e[0].0, e[0].1->Dir_0, prefix, depth, collapsed)
    } else {
        seq![dir_row(label, prefix, depth, collapsed)] + (if collapsed.contains(
            below(prefix, label),
        ) {
            seq![]
        } else {
            walk_rows(e, below(prefix, label), deeper(depth), collapsed)
        })
    }
}

/// The rows of the directories among entries.
pub open spec fn dir_rows(
    e: Seq<EntryV>,
    prefix: Seq<char>,
    depth: usize,
    collapsed: Set<Seq<char>>,
) -> Seq<RowV>
    decreases e, 0int,
{
    if e.len() == 0 {
        seq![]
    } else {
        dir_rows(e.drop_last(), prefix, depth, collapsed) + (match e.last().1 {
            NodeV::Dir(sub) => dir_block(e.last().0, sub, prefix, depth, collapsed),
            NodeV::File(_) => seq![],
        })
    }
}

/// The rows of the files among entries.
pub open spec fn file_rows(e: Seq<EntryV>, depth: usize) -> Seq<RowV>
    decreases e.len(),
{
    if e.len() == 0 {
        seq![]
    } else {
        match e.last().1 {
            NodeV::Dir(_) => file_rows(e.drop_last(), depth),
            NodeV::File(idx) => file_rows(e.drop_last(), depth).push(
                file_row(e.last().0, idx, depth),
            ),
        }
    }
}

/// The rows of entries: directories before files, each by name.
pub open spec fn walk_rows(
    e: Seq<EntryV>,
    prefix: Seq<char>,
    depth: usize,
    collapsed: Set<Seq<char>>,
) -> Seq<RowV>
    decreases e, 1int,
{
    dir_rows(e, prefix, depth, collapsed) + file_rows(e, depth)
}

/// Whether a filter lets a path through.
pub open spec fn shown(path: Seq<char>, filter: Seq<char>) -> bool {
    filter.len() == 0 || occurs(path, filter)
}

/// The tree of the files that a filter lets through.
pub open spec fn tree_of(files: Seq<FileV>, filter: Seq<char>) -> Seq<EntryV>
    decreases files.len(),
{
    if files.len() == 0 {
        seq![]
    } else {
        let e = tree_of(files.drop_last(), filter);
        if shown(files.last().path, filter) {
            with_file(e, split_on(files.last().path, '/'), (files.len() - 1) as usize)
        } else {
            e
        }
    }
}

/// The rows of the tree view.
pub open spec fn tree_view(
    files: Seq<FileV>,
    collapsed: Set<Seq<char>>,
    filter: Seq<char>,
) -> Seq<RowV> {
    walk_rows(tree_of(files, filter), seq![], 0, collapsed)
}

fn add_block(
    label: String,
    entries: &Vec<(String, Node)>,
    prefix: &str,
    depth: usize,
    collapsed: &Names,
    rows: &mut Vec<Row>,
)
    ensures
        rows_view(final(rows)@) == rows_view(old(rows)@) + dir_block(
            label@,
            entries_view(entries@),
            prefix@,
            depth,
            collapsed@,
        ),
    decreases entries@, 2int,
{
    proof {
        lemma_entries_view(entries@);
    }
    if entries.len() == 1 {
        let first = &entries[0];
        assert(entries_view(entries@)[0] == (first.0@, node_view(first.1)));
        match &first.1 {
            Node::Dir(sub) => {
                let mut longer = label;
                longer.append("/");
                longer.append(first.0.as_str());
                add_block(longer, sub, prefix, depth, collapsed, rows);
                return;
            },
            Node::File(_) => {},
        }
    }
    let path = if chars_of(prefix).len() == 0 {
        label.clone()
    } else {
        let mut p = cat(prefix, "/");
        p.append(label.as_str());
        p
    };
    let expanded = !collapsed.contains(path.as_str());
    let ghost rows0 = rows@;
    let row = Row { depth, label, dir_path: Some(path.clone()), file_idx: None, expanded };
    rows.push(row);
    proof {
        assert(row@ =~= dir_row(label@, prefix@, depth, collapsed@));
        assert(rows_view(rows@) =~= rows_view(rows0).push(row@));
    }
    if expanded {
        walk(entries, path.as_str(), depth.saturating_add(1), collapsed, rows);
    }
    assert(rows_view(rows@) =~= rows_view(rows0) + dir_block(
        label@,
        entries_view(entries@),
        prefix@,
        depth,
        collapsed@,
    ));
}

fn walk(
    entries: &Vec<(String, Node)>,
    prefix: &str,
    depth: usize,
    collapsed: &Names,
    rows: &mut Vec<Row>,
)
    ensures
        rows_view(final(rows)@) == rows_view(old(rows)@) + walk_rows(
            entries_view(entries@),
            prefix@,
            depth,
            collapsed@,
        ),
    decreases entries@, 1int,
{
    let ghost e = entries_view(entries@);
    let ghost before_rows = rows_view(rows@);
    proof {
        lemma_entries_view(entries@);
    }
    let mut i: usize = 0;
    assert(e.take(0) =~= Seq::<EntryV>::empty());
    assert(before_rows + dir_rows(e.take(0), prefix@, depth, collapsed@) =~= before_rows);
    while i < entries.len()
        invariant
            e == entries_view(entries@),
            e.len() == entries@.len(),
            forall|k: int|
                0 <= k < entries@.len() ==> #[trigger] e[k] == (
                    entries@[k].0@,
                    node_view(entries@[k].1),
                ),
            i <= entries@.len(),
            rows_view(rows@) == before_rows + dir_rows(e.take(i as int), prefix@, depth, collapsed@),
        decreases entries@.len() - i,
    {
        let (name, node) = &entries[i];
        proof {
            assert(e[i as int] == (name@, node_view(*node)));
            assert(e.take(i + 1).drop_last() =~= e.take(i as int));
            assert(e.take(i + 1).last() == e[i as int]);
        }
        match node {
            Node::Dir(sub) => {
                assert(decreases_to!(entries@ => entries@[i as int]));
                add_block(name.clone(), sub, prefix, depth, collapsed, rows);
            },
            Node::File(_) => {},
        }
        assert(rows_view(rows@) =~= before_rows + dir_rows(
            e.take(i + 1),
            prefix@,
            depth,
            collapsed@,
        ));
        i += 1;
    }
    assert(e.take(e.len() as int) =~= e);
    let ghost with_dirs = rows_view(rows@);
    let mut k: usize = 0;
    assert(with_dirs + file_rows(e.take(0), depth) =~= with_dirs);
    while k < entries.len()
        invariant
            e == entries_view(entries@),
            e.len() == entries@.len(),
            forall|k: int|
                0 <= k < entries@.len() ==> #[trigger] e[k] == (
                    entries@[k].0@,
                    node_view(entries@[k].1),
                ),
            k <= entries@.len(),
            rows_view(rows@) == with_dirs + file_rows(e.take(k as int), depth),
        decreases entries@.len() - k,
    {
        let (name, node) = &entries[k];
        proof {
            assert(e[k as int] == (name@, node_view(*node)));
            assert(e.take(k + 1).drop_last() =~= e.take(k as int));
            assert(e.take(k + 1).last() == e[k as int]);
        }
        match node {
            Node::Dir(_) => {},
            Node::File(idx) => {
                let ghost rows0 = rows@;
                let row = Row {
                    depth,
                    label: name.clone(),
                    dir_path: None,
                    file_idx: Some(*idx),
                    expanded: false,
                };
                rows.push(row);
                assert(row@ =~= file_row(name@, *idx, depth));
                assert(rows_view(rows@) =~= rows_view(rows0).push(row@));
            },
        }
        assert(rows_view(rows@) =~= with_dirs + file_rows(e.take(k + 1), depth));
        k += 1;
    }
    assert(rows_view(rows@) =~= before_rows + walk_rows(e, prefix@, depth, collapsed@));
}

/// Build the rows of the tree view.
pub fn tree_rows(files: &Vec<FileChange>, collapsed: &Names, filter: &str) -> (r: Vec<Row>)
    ensures
        rows_view(r@) == tree_view(files_view(files@), collapsed@, filter@),
{
    let ghost all = files_view(files@);
    let mut root: Vec<(String, Node)> = Vec::new();
    let mut i: usize = 0;
    let any = chars_of(filter).len() == 0;
    assert(all.take(0) =~= Seq::<FileV>::empty());
    assert(entries_view(root@) =~= Seq::<EntryV>::empty());
    while i < files.len()
        invariant
            all == files_view(files@),
            any == (filter@.len() == 0),
            i <= files@.len(),
            entries_view(root@) == tree_of(all.take(i as int), filter@),
        decreases files@.len() - i,
    {
        let f = &files[i];
        proof {
            assert(all[i as int] == f@);
            assert(all.take(i + 1).drop_last() =~= all.take(i as int));
            assert(all.take(i + 1).last() == f@);
        }
        if any || contains(f.path.as_str(), filter) {
            let parts = split(f.path.as_str(), '/');
            assert(strs(parts@).skip(0) =~= strs(parts@));
            root = insert(root, &parts, 0, i);
        }
        i += 1;
    }
    assert(all.take(all.len() as int) =~= all);
    let mut rows: Vec<Row> = Vec::new();
    walk(&root, "", 0, collapsed, &mut rows);
    proof {
        reveal_strlit("");
        assert(""@ =~= Seq::<char>::empty());
        assert(rows_view(rows@) =~= tree_view(all, collapsed@, filter@));
    }
    rows
}

/// The rows of the flat view: the files that a filter lets through, by their whole paths.
pub open spec fn flat_view(files: Seq<FileV>, filter: Seq<char>) -> Seq<RowV>
    decreases files.len(),
{
    if files.len() == 0 {
        seq![]
    } else {
        let v = flat_view(files.drop_last(), filter);
        if shown(files.last().path, filter) {
            v.push(file_row(files.last().path, (files.len() - 1) as usize, 0))
        } else {
            v
        }
    }
}

/// Build the rows of the flat view.
pub fn flat_rows(files: &Vec<FileChange>, filter: &str) -> (r: Vec<Row>)
    ensures
        rows_view(r@) == flat_view(files_view(files@), filter@),
{
    let ghost all = files_view(files@);
    let mut rows: Vec<Row> = Vec::new();
    let mut i: usize = 0;
    let any = chars_of(filter).len() == 0;
    assert(all.take(0) =~= Seq::<FileV>::empty());
    assert(rows_view(rows@) =~= Seq::<RowV>::empty());
    while i < files.len()
        invariant
            all == files_view(files@),
            any == (filter@.len() == 0),
            i <= files@.len(),
            rows_view(rows@) == flat_view(all.take(i as int), filter@),
        decreases files@.len() - i,
    {
        let f = &files[i];
        proof {
            assert(all[i as int] == f@);
            assert(all.take(i + 1).drop_last() =~= all.take(i as int));
            assert(all.take(i + 1).last() == f@);
        }
        if any || contains(f.path.as_str(), filter) {
            let ghost rows0 = rows@;
            let row = Row {
                depth: 0,
                label: f.path.clone(),
                dir_path: None,
                file_idx: Some(i),
                expanded: false,
            };
            rows.push(row);
            assert(row@ =~= file_row(f.path@, i, 0));
            assert(rows_view(rows@) =~= rows_view(rows0).push(row@));
        }
        i += 1;
    }
    assert(all.take(all.len() as int) =~= all);
    rows
}

// ---- Laws ------------------------------------------------------------------------

/// Whether all files in a tree are as `ok` says, by name and index.
pub open spec fn all_files(e: Seq<EntryV>, ok: spec_fn(Seq<char>, usize) -> bool) -> bool
    decreases e,
{
    forall|i: int|
        0 <= i < e.len() ==> match (#[trigger] e[i]).1 {
            NodeV::Dir(sub) => all_files(sub, ok),
            NodeV::File(k) => ok(e[i].0, k),
        }
}

/// Whether the entries of every directory in a tree are in strict order of their names.
pub open spec fn sorted_tree(e: Seq<EntryV>) -> bool
    decreases e,
{
    &&& forall|i: int, j: int|
        0 <= i < j < e.len() ==> before((#[trigger] e[i]).0, (#[trigger] e[j]).0)
    &&& forall|i: int|
        0 <= i < e.len() ==> match (#[trigger] e[i]).1 {
            NodeV::Dir(sub) => sorted_tree(sub),
            NodeV::File(_) => true,
        }
}

proof fn lemma_with_file_ok(
    e: Seq<EntryV>,
    path: Seq<Seq<char>>,
    idx: usize,
    ok: spec_fn(Seq<char>, usize) -> bool,
)
    requires
        all_files(e, ok),
        path.len() > 0,
        ok(path.last(), idx),
    ensures
        all_files(with_file(e, path, idx), ok),
    decreases path.len(),
{
    let r = with_file(e, path, idx);
    let i = place(e, path[0]);
    lemma_place(e, path[0]);
    if path.len() > 1 {
        assert(path.skip(1).last() == path.last());
        match entry(e, path[0]) {
            None => {
                assert(all_files(seq![], ok));
                lemma_with_file_ok(seq![], path.skip(1), idx, ok);
            },
            Some(NodeV::Dir(sub)) => {
                assert(e[i].1 == NodeV::Dir(sub));
                lemma_with_file_ok(sub, path.skip(1), idx, ok);
            },
            Some(NodeV::File(_)) => {},
        }
    }
    if r != e {
        assert forall|k: int| 0 <= k < r.len() implies match (#[trigger] r[k]).1 {
            NodeV::Dir(sub) => all_files(sub, ok),
            NodeV::File(n) => ok(r[k].0, n),
        } by {
            if r.len() == e.len() {
                if k != i {
                    assert(r[k] == e[k]);
                }
            } else if k < i {
                assert(r[k] == e[k]);
            } else if k > i {
                assert(r[k] == e[k - 1]);
            }
        }
    }
}

proof fn lemma_tree_files(files: Seq<FileV>, filter: Seq<char>, ok: spec_fn(Seq<char>, usize) -> bool)
    requires
        files.len() <= usize::MAX,
        forall|k: int|
            0 <= k < files.len() && shown((#[trigger] files[k]).path, filter) ==> ok(
                split_on(files[k].path, '/').last(),
                k as usize,
            ),
    ensures
        all_files(tree_of(files, filter), ok),
    decreases files.len(),
{
    if files.len() > 0 {
        let head = files.drop_last();
        assert forall|k: int| 0 <= k < head.len() && shown((#[trigger] head[k]).path, filter)
            implies ok(split_on(head[k].path, '/').last(), k as usize) by {
            assert(head[k] == files[k]);
        }
        lemma_tree_files(head, filter, ok);
        let f = files[files.len() - 1];
        if shown(f.path, filter) {
            lemma_split_nonempty(f.path);
            lemma_with_file_ok(
                tree_of(head, filter),
                split_on(f.path, '/'),
                (files.len() - 1) as usize,
                ok,
            );
        }
    }
}

proof fn lemma_split_nonempty(s: Seq<char>)
    ensures
        split_on(s, '/').len() > 0,
{
}

/// Whether rows of files are as `ok` says, by label and index.
pub open spec fn rows_ok(rows: Seq<RowV>, ok: spec_fn(Seq<char>, usize) -> bool) -> bool {
    forall|i: int|
        0 <= i < rows.len() ==> ((#[trigger] rows[i]).file_idx matches Some(k) ==> ok(
            rows[i].label,
            k,
        ))
}

proof fn lemma_block_ok(
    label: Seq<char>,
    e: Seq<EntryV>,
    prefix: Seq<char>,
    depth: usize,
    collapsed: Set<Seq<char>>,
    ok: spec_fn(Seq<char>, usize) -> bool,
)
    requires
        all_files(e, ok),
    ensures
        rows_ok(dir_block(label, e, prefix, depth, collapsed), ok),
    decreases e, 2int,
{
    if e.len() == 1 && e[0].1 is Dir {
        lemma_block_ok(label + "/"@ + e[0].0, e[0].1->Dir_0, prefix, depth, collapsed, ok);
    } else {
        lemma_walk_ok(e, below(prefix, label), deeper(depth), collapsed, ok);
    }
}

proof fn lemma_dirs_ok(
    e: Seq<EntryV>,
    prefix: Seq<char>,
    depth: usize,
    collapsed: Set<Seq<char>>,
    ok: spec_fn(Seq<char>, usize) -> bool,
)
    requires
        all_files(e, ok),
    ensures
        rows_ok(dir_rows(e, prefix, depth, collapsed), ok),
    decreases e, 0int,
{
    if e.len() > 0 {
        lemma_head_ok(e, ok);
        lemma_dirs_ok(e.drop_last(), prefix, depth, collapsed, ok);
        match e.last().1 {
            NodeV::Dir(sub) => {
                assert(e[e.len() - 1].1 == NodeV::Dir(sub));
                lemma_block_ok(e.last().0, sub, prefix, depth, collapsed, ok);
            },
            NodeV::File(_) => {},
        }
    }
}

proof fn lemma_head_ok(e: Seq<EntryV>, ok: spec_fn(Seq<char>, usize) -> bool)
    requires
        e.len() > 0,
        all_files(e, ok),
    ensures
        all_files(e.drop_last(), ok),
{
    let h = e.drop_last();
    assert forall|i: int| 0 <= i < h.len() implies match (#[trigger] h[i]).1 {
        NodeV::Dir(sub) => all_files(sub, ok),
        NodeV::File(k) => ok(h[i].0, k),
    } by {
        assert(h[i] == e[i]);
    }
}

proof fn lemma_file_rows_ok(e: Seq<EntryV>, depth: usize, ok: spec_fn(Seq<char>, usize) -> bool)
    requires
        all_files(e, ok),
    ensures
        rows_ok(file_rows(e, depth), ok),
    decreases e.len(),
{
    if e.len() > 0 {
        lemma_head_ok(e, ok);
        lemma_file_rows_ok(e.drop_last(), depth, ok);
        assert(e[e.len() - 1] == e.last());
    }
}

proof fn lemma_walk_ok(
    e: Seq<EntryV>,
    prefix: Seq<char>,
    depth: usize,
    collapsed: Set<Seq<char>>,
    ok: spec_fn(Seq<char>, usize) -> bool,
)
    requires
        all_files(e, ok),
    ensures
        rows_ok(walk_rows(e, prefix, depth, collapsed), ok),
    decreases e, 1int,
{
    lemma_dirs_ok(e, prefix, depth, collapsed, ok);
    lemma_file_rows_ok(e, depth, ok);
}

/// What a row of the tree view says of a file holds: it names a file of the list by its index,
/// one that the filter lets through, and its label is the last part of that file's path.
pub proof fn law_tree_rows_name_files(
    files: Seq<FileV>,
    collapsed: Set<Seq<char>>,
    filter: Seq<char>,
)
    requires
        files.len() <= usize::MAX,
    ensures
        forall|i: int|
            0 <= i < tree_view(files, collapsed, filter).len() ==> ((#[trigger] tree_view(
                files,
                collapsed,
                filter,
            )[i]).file_idx matches Some(k) ==> {
                &&& k < files.len()
                &&& shown(files[k as int].path, filter)
                &&& tree_view(files, collapsed, filter)[i].label == split_on(
                    files[k as int].path,
                    '/',
                ).last()
            }),
{
    let ok = |name: Seq<char>, k: usize|
        k < files.len() && shown(files[k as int].path, filter) && name == split_on(
            files[k as int].path,
            '/',
        ).last();
    lemma_tree_files(files, filter, ok);
    lemma_walk_ok(tree_of(files, filter), seq![], 0, collapsed, ok);
}

/// The rows of the flat view name, in order, exactly the files that the filter lets through.
pub proof fn law_flat_rows_name_files(files: Seq<FileV>, filter: Seq<char>)
    requires
        files.len() <= usize::MAX,
    ensures
        ({
            let v = flat_view(files, filter);
            &&& v.len() <= files.len()
            &&& forall|i: int|
                0 <= i < v.len() ==> ((#[trigger] v[i]).file_idx matches Some(k) && k < files.len()
                    && shown(files[k as int].path, filter) && v[i].label == files[k as int].path)
            &&& forall|i: int, j: int|
                0 <= i < j < v.len() ==> (#[trigger] v[i]).file_idx->0 < (#[trigger] v[j]).file_idx->0
            &&& forall|k: int|
                0 <= k < files.len() && shown((#[trigger] files[k]).path, filter) ==> exists|i: int|
                    0 <= i < v.len() && (#[trigger] v[i]).file_idx == Some(k as usize)
        }),
    decreases files.len(),
{
    if files.len() > 0 {
        let head = files.drop_last();
        law_flat_rows_name_files(head, filter);
        let h = flat_view(head, filter);
        let v = flat_view(files, filter);
        assert forall|k: int|
            0 <= k < files.len() && shown((#[trigger] files[k]).path, filter) implies exists|i: int|
            0 <= i < v.len() && (#[trigger] v[i]).file_idx == Some(k as usize) by {
            if k < head.len() {
                assert(head[k] == files[k]);
                let i = choose|i: int| 0 <= i < h.len() && (#[trigger] h[i]).file_idx == Some(
                    k as usize,
                );
                assert(v[i] == h[i]);
            } else {
                assert(v[v.len() - 1].file_idx == Some(k as usize));
            }
        }
        assert forall|i: int| 0 <= i < v.len() implies ((#[trigger] v[i]).file_idx matches Some(k)
            && k < files.len() && shown(files[k as int].path, filter) && v[i].label
            == files[k as int].path) by {
            if i < h.len() {
                assert(v[i] == h[i]);
                let k = h[i].file_idx->0;
                assert(head[k as int] == files[k as int]);
            }
        }
        assert forall|i: int, j: int| 0 <= i < j < v.len() implies (#[trigger] v[i]).file_idx->0
            < (#[trigger] v[j]).file_idx->0 by {
            assert(v[i] == h[i]);
            if j < h.len() {
                assert(v[j] == h[j]);
            }
        }
    }
}

// ---- The tree holds every file ---------------------------------------------------

/// In sorted entries, `place` is where a name is or would be.
proof fn lemma_place_sorted(e: Seq<EntryV>, name: Seq<char>)
    requires
        forall|i: int, j: int|
            0 <= i < j < e.len() ==> before((#[trigger] e[i]).0, (#[trigger] e[j]).0),
    ensures
        0 <= place(e, name) <= e.len(),
        forall|i: int| 0 <= i < place(e, name) ==> before((#[trigger] e[i]).0, name),
        forall|i: int| place(e, name) <= i < e.len() ==> !before((#[trigger] e[i]).0, name),
    decreases e.len(),
{
    if e.len() > 0 {
        let t = e.skip(1);
        if before(e[0].0, name) {
            assert forall|i: int, j: int| 0 <= i < j < t.len() implies before(
                (#[trigger] t[i]).0,
                (#[trigger] t[j]).0,
            ) by {
                assert(t[i] == e[i + 1]);
                assert(t[j] == e[j + 1]);
            }
            lemma_place_sorted(t, name);
            assert forall|i: int| 0 <= i < place(e, name) implies before(
                (#[trigger] e[i]).0,
                name,
            ) by {
                if i > 0 {
                    assert(e[i] == t[i - 1]);
                }
            }
            assert forall|i: int| place(e, name) <= i < e.len() implies !before(
                (#[trigger] e[i]).0,
                name,
            ) by {
                assert(e[i] == t[i - 1]);
            }
        } else {
            assert forall|i: int| 0 <= i < e.len() implies !before((#[trigger] e[i]).0, name) by {
                if i > 0 && before(e[i].0, name) {
                    lemma_before_trans(e[0].0, e[i].0, name);
                }
            }
        }
    }
}

/// A name in sorted entries is found where it is.
proof fn lemma_entry_at(e: Seq<EntryV>, k: int)
    requires
        sorted_tree(e),
        0 <= k < e.len(),
    ensures
        place(e, e[k].0) == k,
        entry(e, e[k].0) == Some(e[k].1),
{
    let name = e[k].0;
    lemma_place_sorted(e, name);
    lemma_before_total(name, name);
    let p = place(e, name);
    if p < k {
        assert(before(e[p].0, e[k].0));
    }
}

/// A name that is not found is not there.
proof fn lemma_no_entry(e: Seq<EntryV>, name: Seq<char>)
    requires
        sorted_tree(e),
        entry(e, name) is None,
    ensures
        forall|k: int| 0 <= k < e.len() ==> (#[trigger] e[k]).0 != name,
{
    assert forall|k: int| 0 <= k < e.len() implies (#[trigger] e[k]).0 != name by {
        if e[k].0 == name {
            lemma_entry_at(e, k);
        }
    }
}

/// Setting an entry keeps entries sorted and changes what that name stands for, and no other.
proof fn lemma_set_entry(e: Seq<EntryV>, name: Seq<char>, node: NodeV)
    requires
        sorted_tree(e),
        node matches NodeV::Dir(sub) ==> sorted_tree(sub),
    ensures
        sorted_tree(set_entry(e, name, node)),
        entry(set_entry(e, name, node), name) == Some(node),
        forall|other: Seq<char>|
            other != name ==> #[trigger] entry(set_entry(e, name, node), other) == entry(e, other),
{
    let r = set_entry(e, name, node);
    let p = place(e, name);
    lemma_place_sorted(e, name);
    let found = p < e.len() && e[p].0 == name;
    if !found {
        assert(entry(e, name) is None);
        lemma_no_entry(e, name);
    }
    assert forall|i: int, j: int| 0 <= i < j < r.len() implies before(
        (#[trigger] r[i]).0,
        (#[trigger] r[j]).0,
    ) by {
        if found {
            assert(r[i].0 == e[i].0);
            assert(r[j].0 == e[j].0);
        } else {
            if j < p {
                assert(r[i] == e[i] && r[j] == e[j]);
            } else if j == p {
                assert(r[i] == e[i]);
            } else if i < p {
                assert(r[i] == e[i] && r[j] == e[j - 1]);
            } else if i == p {
                assert(r[j] == e[j - 1]);
                lemma_before_total(name, e[j - 1].0);
            } else {
                assert(r[i] == e[i - 1] && r[j] == e[j - 1]);
            }
        }
    }
    assert forall|i: int| 0 <= i < r.len() implies match (#[trigger] r[i]).1 {
        NodeV::Dir(sub) => sorted_tree(sub),
        NodeV::File(_) => true,
    } by {
        if found {
            if i != p {
                assert(r[i] == e[i]);
            }
        } else if i < p {
            assert(r[i] == e[i]);
        } else if i > p {
            assert(r[i] == e[i - 1]);
        }
    }
    assert(r[p] == (name, node));
    lemma_entry_at(r, p);
    assert forall|other: Seq<char>| other != name implies #[trigger] entry(r, other) == entry(
        e,
        other,
    ) by {
        let q = place(e, other);
        lemma_place_sorted(e, other);
        if q < e.len() && e[q].0 == other {
            let k = if found || q < p {
                q
            } else {
                q + 1
            };
            assert(r[k] == e[q]);
            lemma_entry_at(r, k);
        } else {
            lemma_no_entry(e, other);
            let k = place(r, other);
            lemma_place_sorted(r, other);
            if k < r.len() && r[k].0 == other {
                if found {
                    assert(r[k].0 == e[k].0);
                } else if k < p {
                    assert(r[k] == e[k]);
                } else if k > p {
                    assert(r[k] == e[k - 1]);
                }
            }
        }
    }
}

/// The file at a path of a tree.
pub open spec fn file_at(e: Seq<EntryV>, path: Seq<Seq<char>>) -> Option<usize>
    decreases path.len(),
{
    if path.len() == 0 {
        None
    } else if path.len() == 1 {
        match entry(e, path[0]) {
            Some(NodeV::File(k)) => Some(k),
            _ => None,
        }
    } else {
        match entry(e, path[0]) {
            Some(NodeV::Dir(sub)) => file_at(sub, path.skip(1)),
            _ => None,
        }
    }
}

/// Whether no file is in the way of a path: none of the directories on it is a file.
pub open spec fn free(e: Seq<EntryV>, path: Seq<Seq<char>>) -> bool
    decreases path.len(),
{
    if path.len() <= 1 {
        true
    } else {
        match entry(e, path[0]) {
            None => true,
            Some(NodeV::Dir(sub)) => free(sub, path.skip(1)),
            Some(NodeV::File(_)) => false,
        }
    }
}

/// Whether two paths are apart: neither is the other one or lies below it.
pub open spec fn apart(p: Seq<Seq<char>>, q: Seq<Seq<char>>) -> bool {
    !p.is_prefix_of(q) && !q.is_prefix_of(p)
}

proof fn lemma_apart(p: Seq<Seq<char>>, q: Seq<Seq<char>>)
    requires
        apart(p, q),
    ensures
        p.len() > 0,
        q.len() > 0,
        p[0] == q[0] ==> p.len() > 1 && q.len() > 1 && apart(p.skip(1), q.skip(1)),
{
    if p.len() == 0 {
        assert(p =~= q.subrange(0, 0));
    }
    if q.len() == 0 {
        assert(q =~= p.subrange(0, 0));
    }
    if p.len() > 0 && q.len() > 0 && p[0] == q[0] {
        let p1 = p.skip(1);
        let q1 = q.skip(1);
        if p1.is_prefix_of(q1) {
            assert forall|i: int| 0 <= i < p.len() implies p[i] == q[i] by {
                if i > 0 {
                    assert(p[i] == p1[i - 1]);
                    assert(q[i] == q1[i - 1]);
                    assert(p1[i - 1] == q1.subrange(0, p1.len() as int)[i - 1]);
                }
            }
            assert(p =~= q.subrange(0, p.len() as int));
        }
        if q1.is_prefix_of(p1) {
            assert forall|i: int| 0 <= i < q.len() implies p[i] == q[i] by {
                if i > 0 {
                    assert(p[i] == p1[i - 1]);
                    assert(q[i] == q1[i - 1]);
                    assert(q1[i - 1] == p1.subrange(0, q1.len() as int)[i - 1]);
                }
            }
            assert(q =~= p.subrange(0, q.len() as int));
        }
        if p.len() == 1 {
            assert(p =~= q.subrange(0, 1));
        }
        if q.len() == 1 {
            assert(q =~= p.subrange(0, 1));
        }
    }
}

/// Putting a file at a free path: the tree stays sorted and has the file there.
proof fn lemma_with_file(e: Seq<EntryV>, p: Seq<Seq<char>>, idx: usize)
    requires
        sorted_tree(e),
        p.len() > 0,
    ensures
        sorted_tree(with_file(e, p, idx)),
        free(e, p) ==> file_at(with_file(e, p, idx), p) == Some(idx),
    decreases p.len(),
{
    if p.len() == 1 {
        lemma_set_entry(e, p[0], NodeV::File(idx));
    } else {
        let rest = p.skip(1);
        match entry(e, p[0]) {
            None => {
                let empty = Seq::<EntryV>::empty();
                lemma_with_file(empty, rest, idx);
                lemma_free_empty(rest);
                lemma_set_entry(e, p[0], NodeV::Dir(with_file(empty, rest, idx)));
            },
            Some(NodeV::Dir(sub)) => {
                let k = place(e, p[0]);
                assert(e[k].1 == NodeV::Dir(sub));
                lemma_place(e, p[0]);
                lemma_with_file(sub, rest, idx);
                lemma_set_entry(e, p[0], NodeV::Dir(with_file(sub, rest, idx)));
            },
            Some(NodeV::File(_)) => {},
        }
    }
}

proof fn lemma_free_empty(p: Seq<Seq<char>>)
    ensures
        free(seq![], p),
{
    assert(entry(Seq::<EntryV>::empty(), p[0]) is None);
}

/// Putting a file at a path leaves alone what is at a path apart from it.
proof fn lemma_with_file_apart(e: Seq<EntryV>, p: Seq<Seq<char>>, idx: usize, q: Seq<Seq<char>>)
    requires
        sorted_tree(e),
        apart(p, q),
    ensures
        file_at(with_file(e, p, idx), q) == file_at(e, q),
        free(e, q) ==> free(with_file(e, p, idx), q),
    decreases p.len(),
{
    lemma_apart(p, q);
    let rest = p.skip(1);
    if p.len() == 1 {
        lemma_set_entry(e, p[0], NodeV::File(idx));
    } else {
        match entry(e, p[0]) {
            None => {
                let empty = Seq::<EntryV>::empty();
                lemma_with_file(empty, rest, idx);
                lemma_set_entry(e, p[0], NodeV::Dir(with_file(empty, rest, idx)));
                if p[0] == q[0] {
                    lemma_with_file_apart(empty, rest, idx, q.skip(1));
                    lemma_free_empty(q.skip(1));
                    lemma_nothing_there(q.skip(1));
                }
            },
            Some(NodeV::Dir(sub)) => {
                let k = place(e, p[0]);
                assert(e[k].1 == NodeV::Dir(sub));
                lemma_place(e, p[0]);
                lemma_with_file(sub, rest, idx);
                lemma_set_entry(e, p[0], NodeV::Dir(with_file(sub, rest, idx)));
                if p[0] == q[0] {
                    lemma_with_file_apart(sub, rest, idx, q.skip(1));
                }
            },
            Some(NodeV::File(_)) => {},
        }
    }
}

proof fn lemma_nothing_there(q: Seq<Seq<char>>)
    ensures
        file_at(seq![], q) is None,
{
    assert(entry(Seq::<EntryV>::empty(), q[0]) is None);
}

/// Every directory of the tree view is sorted by name.
pub proof fn law_tree_sorted(files: Seq<FileV>, filter: Seq<char>)
    ensures
        sorted_tree(tree_of(files, filter)),
    decreases files.len(),
{
    if files.len() > 0 {
        law_tree_sorted(files.drop_last(), filter);
        lemma_split_nonempty(files.last().path);
        lemma_with_file(
            tree_of(files.drop_last(), filter),
            split_on(files.last().path, '/'),
            (files.len() - 1) as usize,
        );
    }
}

/// Whether no changed file is another one's directory, and no path occurs twice.
pub open spec fn paths_apart(files: Seq<FileV>) -> bool {
    forall|i: int, j: int|
        0 <= i < files.len() && 0 <= j < files.len() && i != j ==> apart(
            split_on((#[trigger] files[i]).path, '/'),
            split_on((#[trigger] files[j]).path, '/'),
        )
}

proof fn lemma_tree_has(files: Seq<FileV>, n: int, filter: Seq<char>)
    requires
        files.len() <= usize::MAX,
        paths_apart(files),
        0 <= n <= files.len(),
    ensures
        forall|k: int|
            0 <= k < n && shown((#[trigger] files[k]).path, filter) ==> file_at(
                tree_of(files.take(n), filter),
                split_on(files[k].path, '/'),
            ) == Some(k as usize),
        forall|k: int|
            n <= k < files.len() ==> free(
                tree_of(files.take(n), filter),
                split_on((#[trigger] files[k]).path, '/'),
            ),
    decreases n,
{
    if n == 0 {
        assert(files.take(0) =~= Seq::<FileV>::empty());
        assert forall|k: int| n <= k < files.len() implies free(
            tree_of(files.take(n), filter),
            split_on((#[trigger] files[k]).path, '/'),
        ) by {
            lemma_free_empty(split_on(files[k].path, '/'));
        }
    } else {
        lemma_tree_has(files, n - 1, filter);
        assert(files.take(n).drop_last() =~= files.take(n - 1));
        assert(files.take(n).last() == files[n - 1]);
        let e = tree_of(files.take(n - 1), filter);
        let p = split_on(files[n - 1].path, '/');
        law_tree_sorted(files.take(n - 1), filter);
        lemma_split_nonempty(files[n - 1].path);
        if shown(files[n - 1].path, filter) {
            let r = with_file(e, p, (n - 1) as usize);
            lemma_with_file(e, p, (n - 1) as usize);
            assert forall|k: int| 0 <= k < n && shown((#[trigger] files[k]).path, filter) implies file_at(
                r,
                split_on(files[k].path, '/'),
            ) == Some(k as usize) by {
                if k < n - 1 {
                    assert(apart(split_on(files[n - 1].path, '/'), split_on(files[k].path, '/')));
                    lemma_with_file_apart(e, p, (n - 1) as usize, split_on(files[k].path, '/'));
                }
            }
            assert forall|k: int| n <= k < files.len() implies free(
                r,
                split_on((#[trigger] files[k]).path, '/'),
            ) by {
                assert(apart(split_on(files[n - 1].path, '/'), split_on(files[k].path, '/')));
                lemma_with_file_apart(e, p, (n - 1) as usize, split_on(files[k].path, '/'));
            }
        }
    }
}

/// Whether a row for file `k` is among rows.
pub open spec fn has_file_row(rows: Seq<RowV>, k: usize) -> bool {
    exists|i: int| 0 <= i < rows.len() && (#[trigger] rows[i]).file_idx == Some(k)
}

proof fn lemma_has_in_sum(a: Seq<RowV>, b: Seq<RowV>, k: usize)
    ensures
        has_file_row(a, k) || has_file_row(b, k) ==> has_file_row(a + b, k),
{
    if has_file_row(a, k) {
        let i = choose|i: int| 0 <= i < a.len() && (#[trigger] a[i]).file_idx == Some(k);
        assert((a + b)[i] == a[i]);
    }
    if has_file_row(b, k) {
        let i = choose|i: int| 0 <= i < b.len() && (#[trigger] b[i]).file_idx == Some(k);
        assert((a + b)[a.len() + i] == b[i]);
    }
}

proof fn lemma_file_row_shown(e: Seq<EntryV>, i: int, k: usize, depth: usize)
    requires
        0 <= i < e.len(),
        e[i].1 == NodeV::File(k),
    ensures
        has_file_row(file_rows(e, depth), k),
    decreases e.len(),
{
    let v = file_rows(e, depth);
    if i == e.len() - 1 {
        assert(v[v.len() - 1].file_idx == Some(k));
    } else {
        lemma_file_row_shown(e.drop_last(), i, k, depth);
        let h = file_rows(e.drop_last(), depth);
        let j = choose|j: int| 0 <= j < h.len() && (#[trigger] h[j]).file_idx == Some(k);
        assert(v[j] == h[j]);
    }
}

proof fn lemma_block_shown(
    e: Seq<EntryV>,
    i: int,
    k: usize,
    prefix: Seq<char>,
    depth: usize,
    collapsed: Set<Seq<char>>,
)
    requires
        0 <= i < e.len(),
        e[i].1 matches NodeV::Dir(sub) && has_file_row(
            dir_block(e[i].0, sub, prefix, depth, collapsed),
            k,
        ),
    ensures
        has_file_row(dir_rows(e, prefix, depth, collapsed), k),
    decreases e.len(),
{
    let head = dir_rows(e.drop_last(), prefix, depth, collapsed);
    let tail = match e.last().1 {
        NodeV::Dir(sub) => dir_block(e.last().0, sub, prefix, depth, collapsed),
        NodeV::File(_) => seq![],
    };
    if i < e.len() - 1 {
        lemma_block_shown(e.drop_last(), i, k, prefix, depth, collapsed);
    }
    lemma_has_in_sum(head, tail, k);
}

proof fn lemma_walk_shows(
    e: Seq<EntryV>,
    path: Seq<Seq<char>>,
    prefix: Seq<char>,
    depth: usize,
    k: usize,
)
    requires
        file_at(e, path) == Some(k),
    ensures
        has_file_row(walk_rows(e, prefix, depth, Set::empty()), k),
    decreases path.len(), 0int,
{
    let none = Set::<Seq<char>>::empty();
    let i = place(e, path[0]);
    lemma_place(e, path[0]);
    let dirs = dir_rows(e, prefix, depth, none);
    let fs = file_rows(e, depth);
    if path.len() == 1 {
        lemma_file_row_shown(e, i, k, depth);
    } else {
        let sub = e[i].1->Dir_0;
        lemma_dir_block_shows(e[i].0, sub, path.skip(1), prefix, depth, k);
        lemma_block_shown(e, i, k, prefix, depth, none);
    }
    lemma_has_in_sum(dirs, fs, k);
}

proof fn lemma_dir_block_shows(
    label: Seq<char>,
    e: Seq<EntryV>,
    path: Seq<Seq<char>>,
    prefix: Seq<char>,
    depth: usize,
    k: usize,
)
    requires
        file_at(e, path) == Some(k),
    ensures
        has_file_row(dir_block(label, e, prefix, depth, Set::empty()), k),
    decreases path.len(), 1int,
{
    let none = Set::<Seq<char>>::empty();
    if e.len() == 1 && e[0].1 is Dir {
        lemma_place(e, path[0]);
        lemma_dir_block_shows(
            label + "/"@ + e[0].0,
            e[0].1->Dir_0,
            path.skip(1),
            prefix,
            depth,
            k,
        );
    } else {
        lemma_walk_shows(e, path, below(prefix, label), deeper(depth), k);
        lemma_has_in_sum(
            seq![dir_row(label, prefix, depth, none)],
            walk_rows(e, below(prefix, label), deeper(depth), none),
            k,
        );
    }
}

/// With nothing collapsed, the tree view has a row for every file that the filter lets through,
/// where no changed file is another one's directory.
pub proof fn law_tree_shows_every_file(files: Seq<FileV>, filter: Seq<char>, k: int)
    requires
        files.len() <= usize::MAX,
        paths_apart(files),
        0 <= k < files.len(),
        shown(files[k].path, filter),
    ensures
        has_file_row(tree_view(files, Set::empty(), filter), k as usize),
{
    assert(files.take(files.len() as int) =~= files);
    lemma_tree_has(files, files.len() as int, filter);
    lemma_walk_shows(
        tree_of(files, filter),
        split_on(files[k].path, '/'),
        seq![],
        0,
        k as usize,
    );
}

} // verus!
