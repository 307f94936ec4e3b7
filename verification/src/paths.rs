//! Slash-separated paths as strings.

use crate::text::{cat, chars_of, opt_str, same, split, split_on, strs};
use vstd::prelude::*;
use vstd::string::*;

verus! {

/// Whether a path starts at the root.
pub open spec fn is_absolute(p: Seq<char>) -> bool {
    p.len() > 0 && p[0] == '/'
}

/// The path `p` seen from the directory `dir`.
pub open spec fn joined_path(dir: Seq<char>, p: Seq<char>) -> Seq<char> {
    if is_absolute(p) {
        p
    } else if dir.len() == 0 || dir.last() == '/' {
        dir + p
    } else {
        dir + seq!['/'] + p
    }
}

/// Join a directory and a path.
pub fn join_path(dir: &str, p: &str) -> (r: String)
    ensures
        r@ == joined_path(dir@, p@),
{
    let d = chars_of(dir);
    let v = chars_of(p);
    if v.len() > 0 && v[0] == '/' {
        p.to_string()
    } else if d.len() == 0 || d[d.len() - 1] == '/' {
        cat(dir, p)
    } else {
        let mut s = dir.to_string();
        s.push('/');
        s.append(p);
        assert(s@ =~= dir@ + seq!['/'] + p@);
        s
    }
}

/// The parts of a path that name something: neither empty nor a dot.
pub open spec fn named_parts(parts: Seq<Seq<char>>) -> Seq<Seq<char>>
    decreases parts.len(),
{
    if parts.len() == 0 {
        seq![]
    } else if parts.last() == ""@ || parts.last() == "."@ {
        named_parts(parts.drop_last())
    } else {
        named_parts(parts.drop_last()).push(parts.last())
    }
}

/// The components of a path: the root or a leading dot, if any, and the parts that name
/// something.
pub open spec fn components(p: Seq<char>) -> Seq<Seq<char>> {
    let parts = named_parts(split_on(p, '/'));
    if is_absolute(p) {
        seq!["/"@] + parts
    } else if split_on(p, '/')[0] == "."@ {
        seq!["."@] + parts
    } else {
        parts
    }
}

/// Split a path into its components.
pub fn path_components(p: &str) -> (r: Vec<String>)
    ensures
        strs(r@) == components(p@),
{
    let parts = split(p, '/');
    let v = chars_of(p);
    let ghost all = split_on(p@, '/');
    let mut out: Vec<String> = Vec::new();
    assert(parts@[0]@ == strs(parts@)[0]);
    if v.len() > 0 && v[0] == '/' {
        out.push("/".to_string());
    } else if same(parts[0].as_str(), ".") {
        out.push(".".to_string());
    }
    let ghost lead = strs(out@);
    let mut i: usize = 0;
    assert(all.take(0) =~= Seq::<Seq<char>>::empty());
    assert(lead + named_parts(all.take(0)) =~= lead);
    while i < parts.len()
        invariant
            all == strs(parts@),
            i <= parts@.len(),
            strs(out@) == lead + named_parts(all.take(i as int)),
        decreases parts@.len() - i,
    {
        let part = parts[i].as_str();
        proof {
            assert(all[i as int] == part@);
            assert(all.take(i + 1).drop_last() =~= all.take(i as int));
            assert(all.take(i + 1).last() == part@);
        }
        if !same(part, "") && !same(part, ".") {
            let ghost out0 = out@;
            let s = part.to_string();
            out.push(s);
            assert(strs(out@) =~= strs(out0).push(part@));
        }
        assert(strs(out@) =~= lead + named_parts(all.take(i + 1)));
        i += 1;
    }
    assert(all.take(all.len() as int) =~= all);
    assert(strs(out@) =~= components(p@));
    out
}

/// Whether the path `p` is `dir` or lies in it, by whole components.
pub open spec fn lies_in(p: Seq<char>, dir: Seq<char>) -> bool {
    components(dir).is_prefix_of(components(p))
}

/// Whether `p` is `dir` or lies in it.
pub fn is_in(p: &str, dir: &str) -> (r: bool)
    ensures
        r == lies_in(p@, dir@),
{
    let a = path_components(p);
    let b = path_components(dir);
    if b.len() > a.len() {
        return false;
    }
    let mut i: usize = 0;
    while i < b.len()
        invariant
            strs(a@) == components(p@),
            strs(b@) == components(dir@),
            i <= b@.len() <= a@.len(),
            forall|k: int| 0 <= k < i ==> #[trigger] strs(b@)[k] == strs(a@)[k],
        decreases b@.len() - i,
    {
        assert(strs(a@)[i as int] == a@[i as int]@);
        assert(strs(b@)[i as int] == b@[i as int]@);
        if !same(a[i].as_str(), b[i].as_str()) {
            return false;
        }
        i += 1;
    }
    assert(strs(b@) =~= strs(a@).subrange(0, b@.len() as int));
    true
}

/// Whether two paths are the same by their components.
pub fn same_path(a: &str, b: &str) -> (r: bool)
    ensures
        r == (components(a@) == components(b@)),
{
    let r = is_in(a, b) && is_in(b, a);
    proof {
        if r {
            assert(components(a@) =~= components(b@));
        }
    }
    r
}

/// Whether one component of a path is `name`.
pub open spec fn has_component(p: Seq<char>, name: Seq<char>) -> bool {
    components(p).contains(name)
}

/// Whether one component of `p` is `name`.
pub fn contains_component(p: &str, name: &str) -> (r: bool)
    ensures
        r == has_component(p@, name@),
{
    let a = path_components(p);
    let mut i: usize = 0;
    while i < a.len()
        invariant
            strs(a@) == components(p@),
            i <= a@.len(),
            forall|k: int| 0 <= k < i ==> #[trigger] strs(a@)[k] != name@,
        decreases a@.len() - i,
    {
        assert(strs(a@)[i as int] == a@[i as int]@);
        if same(a[i].as_str(), name) {
            return true;
        }
        i += 1;
    }
    false
}

/// The name of what a path leads to; `None` for the root, the parent of something, and nothing.
pub open spec fn name_of(p: Seq<char>) -> Option<Seq<char>> {
    let c = components(p);
    if c.len() == 0 || c.last() == "/"@ || c.last() == "."@ || c.last() == ".."@ {
        None
    } else {
        Some(c.last())
    }
}

/// The name of what a path leads to.
pub fn file_name(p: &str) -> (r: Option<String>)
    ensures
        opt_str(r) == name_of(p@),
{
    let c = path_components(p);
    if c.len() == 0 {
        return None;
    }
    let last = c[c.len() - 1].as_str();
    assert(components(p@).last() == last@);
    if same(last, "/") || same(last, ".") || same(last, "..") {
        None
    } else {
        Some(last.to_string())
    }
}

/// A path lies in itself, and what lies in a directory lies in whatever that one lies in.
pub proof fn law_lies_in(p: Seq<char>, dir: Seq<char>, top: Seq<char>)
    ensures
        lies_in(p, p),
        lies_in(p, dir) && lies_in(dir, top) ==> lies_in(p, top),
{
}

} // verus!
