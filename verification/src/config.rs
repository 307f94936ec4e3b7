//! Configuration and its defaults.

use crate::text::{before, less, same, strs};
use vstd::prelude::*;
use vstd::string::*;

verus! {

/// All of the configuration.
#[derive(Debug)]
pub struct Config {
    pub general: General,
    pub ui: Ui,
    pub open: Open,
}

/// What to watch.
#[derive(Debug)]
pub struct General {
    /// The base branch; `auto` to have it found out
    pub base: String,
    /// Milliseconds between two looks at the repository when nothing seems to change
    pub poll_ms: u64,
    /// Below this many columns there is one column
    pub narrow_cols: u16,
}

/// How things look.
#[derive(Debug)]
pub struct Ui {
    /// Whether to show icons
    pub icons: bool,
    /// Width of the tree, in percent
    pub split_pct: u16,
    /// The theme of syntax colors
    pub theme: String,
    /// Whether to wrap long lines
    pub wrap: bool,
}

/// What to open files with.
#[derive(Debug)]
pub struct Open {
    /// The name of the opener that is used when none is picked
    pub default: String,
    /// Openers by name
    pub openers: Openers,
}

/// A command template.
#[derive(Debug)]
pub struct Opener {
    pub cmd: Vec<String>,
}

/// Openers, sorted by name.
#[derive(Debug)]
pub struct Openers {
    entries: Vec<(String, Opener)>,
}

/// An opener with its name, as a mathematical value.
pub type OpenerV = (Seq<char>, Seq<Seq<char>>);

/// Configuration as a mathematical value.
#[verifier::ext_equal]
pub struct ConfigV {
    pub base: Seq<char>,
    pub poll_ms: u64,
    pub narrow_cols: u16,
    pub icons: bool,
    pub split_pct: u16,
    pub theme: Seq<char>,
    pub wrap: bool,
    pub default: Seq<char>,
    pub openers: Seq<OpenerV>,
}

impl View for Opener {
    type V = Seq<Seq<char>>;

    open spec fn view(&self) -> Seq<Seq<char>> {
        strs(self.cmd@)
    }
}

impl View for Openers {
    type V = Seq<OpenerV>;

    closed spec fn view(&self) -> Seq<OpenerV> {
        self.entries@.map_values(|e: (String, Opener)| (e.0@, e.1@))
    }
}

impl View for Config {
    type V = ConfigV;

    open spec fn view(&self) -> ConfigV {
        ConfigV {
            base: self.general.base@,
            poll_ms: self.general.poll_ms,
            narrow_cols: self.general.narrow_cols,
            icons: self.ui.icons,
            split_pct: self.ui.split_pct,
            theme: self.ui.theme@,
            wrap: self.ui.wrap,
            default: self.open.default@,
            openers: self.open.openers@,
        }
    }
}

impl Clone for Opener {
    fn clone(&self) -> (r: Self)
        ensures
            r@ == self@,
    {
        Opener { cmd: self.cmd.clone() }
    }
}

impl Clone for General {
    fn clone(&self) -> (r: Self)
        ensures
            r == *self,
    {
        General {
            base: self.base.clone(),
            poll_ms: self.poll_ms,
            narrow_cols: self.narrow_cols,
        }
    }
}

impl Clone for Ui {
    fn clone(&self) -> (r: Self)
        ensures
            r == *self,
    {
        Ui {
            icons: self.icons,
            split_pct: self.split_pct,
            theme: self.theme.clone(),
            wrap: self.wrap,
        }
    }
}

impl Clone for Openers {
    fn clone(&self) -> (r: Self)
        ensures
            r@ == self@,
    {
        let mut entries: Vec<(String, Opener)> = Vec::new();
        let mut i: usize = 0;
        while i < self.entries.len()
            invariant
                i <= self.entries@.len(),
                entries@.len() == i,
                forall|k: int|
                    0 <= k < i ==> (#[trigger] entries@[k]).0@ == self.entries@[k].0@
                        && entries@[k].1@ == self.entries@[k].1@,
            decreases self.entries@.len() - i,
        {
            entries.push((self.entries[i].0.clone(), self.entries[i].1.clone()));
            i += 1;
        }
        let r = Openers { entries };
        assert(r@ =~= self@);
        r
    }
}

impl Clone for Open {
    fn clone(&self) -> (r: Self)
        ensures
            r.default@ == self.default@,
            r.openers@ == self.openers@,
    {
        Open { default: self.default.clone(), openers: self.openers.clone() }
    }
}

impl Clone for Config {
    fn clone(&self) -> (r: Self)
        ensures
            r@ == self@,
    {
        Config { general: self.general.clone(), ui: self.ui.clone(), open: self.open.clone() }
    }
}

/// The configuration when nothing is configured.
pub open spec fn default_config() -> ConfigV {
    ConfigV {
        base: "auto"@,
        poll_ms: 2000,
        narrow_cols: 100,
        icons: true,
        split_pct: 38,
        theme: "base16-ocean.dark"@,
        wrap: true,
        default: ""@,
        openers: seq![],
    }
}

impl Default for General {
    fn default() -> (r: Self)
        ensures
            r.base@ == default_config().base,
            r.poll_ms == default_config().poll_ms,
            r.narrow_cols == default_config().narrow_cols,
    {
        General { base: "auto".to_string(), poll_ms: 2000, narrow_cols: 100 }
    }
}

impl Default for Ui {
    fn default() -> (r: Self)
        ensures
            r.icons == default_config().icons,
            r.split_pct == default_config().split_pct,
            r.theme@ == default_config().theme,
            r.wrap == default_config().wrap,
    {
        Ui { icons: true, split_pct: 38, theme: "base16-ocean.dark".to_string(), wrap: true }
    }
}

impl Default for Open {
    fn default() -> (r: Self)
        ensures
            r.default@ == default_config().default,
            r.openers@ == default_config().openers,
    {
        Open { default: "".to_string(), openers: Openers::new() }
    }
}

impl Default for Config {
    fn default() -> (r: Self)
        ensures
            r@ == default_config(),
    {
        let r = Config {
            general: General::default(),
            ui: Ui::default(),
            open: Open::default(),
        };
        assert(r@ =~= default_config());
        r
    }
}

/// The number of leading openers whose names come before `name`.
pub open spec fn opener_place(v: Seq<OpenerV>, name: Seq<char>) -> int
    decreases v.len(),
{
    if v.len() > 0 && before(v[0].0, name) {
        1 + opener_place(v.skip(1), name)
    } else {
        0
    }
}

/// Openers with one named `name`.
pub open spec fn with_opener(v: Seq<OpenerV>, name: Seq<char>, cmd: Seq<Seq<char>>) -> Seq<
    OpenerV,
> {
    let i = opener_place(v, name);
    if i < v.len() && v[i].0 == name {
        v.update(i, (name, cmd))
    } else {
        v.insert(i, (name, cmd))
    }
}

/// The opener of a name: the first one that has it.
pub open spec fn opener_named(v: Seq<OpenerV>, name: Seq<char>) -> Option<Seq<Seq<char>>>
    decreases v.len(),
{
    if v.len() == 0 {
        None
    } else if v[0].0 == name {
        Some(v[0].1)
    } else {
        opener_named(v.skip(1), name)
    }
}

/// The names of openers, in order.
pub open spec fn names_of(v: Seq<OpenerV>) -> Seq<Seq<char>> {
    v.map_values(|e: OpenerV| e.0)
}

impl Openers {
    /// No openers.
    pub fn new() -> (r: Openers)
        ensures
            r@ == Seq::<OpenerV>::empty(),
    {
        let r = Openers { entries: Vec::new() };
        assert(r@ =~= Seq::<OpenerV>::empty());
        r
    }

    /// Put an opener at its place; it takes the place of one of the same name.
    pub fn insert(&mut self, name: String, opener: Opener)
        ensures
            final(self)@ == with_opener(old(self)@, name@, opener@),
    {
        let ghost v = self@;
        let mut i: usize = 0;
        assert(v.skip(0) =~= v);
        while i < self.entries.len() && less(self.entries[i].0.as_str(), name.as_str())
            invariant
                v == self@,
                i <= self.entries@.len(),
                opener_place(v, name@) == i + opener_place(v.skip(i as int), name@),
            decreases self.entries@.len() - i,
        {
            assert(v.skip(i as int)[0] == v[i as int]);
            assert(v.skip(i as int).skip(1) =~= v.skip(i + 1));
            i += 1;
        }
        proof {
            if i < self.entries@.len() {
                assert(v.skip(i as int)[0] == v[i as int]);
            }
        }
        if i < self.entries.len() && same(self.entries[i].0.as_str(), name.as_str()) {
            self.entries.remove(i);
            self.entries.insert(i, (name, opener));
        } else {
            self.entries.insert(i, (name, opener));
        }
        assert(self@ =~= with_opener(v, name@, opener@));
    }

    /// The opener of a name.
    pub fn get(&self, name: &str) -> (r: Option<&Opener>)
        ensures
            match r {
                Some(o) => opener_named(self@, name@) == Some(o@),
                None => opener_named(self@, name@) is None,
            },
    {
        let ghost v = self@;
        let mut i: usize = 0;
        assert(v.skip(0) =~= v);
        while i < self.entries.len()
            invariant
                v == self@,
                i <= self.entries@.len(),
                opener_named(v, name@) == opener_named(v.skip(i as int), name@),
            decreases self.entries@.len() - i,
        {
            assert(v.skip(i as int)[0] == v[i as int]);
            if same(self.entries[i].0.as_str(), name) {
                return Some(&self.entries[i].1);
            }
            assert(v.skip(i as int).skip(1) =~= v.skip(i + 1));
            i += 1;
        }
        None
    }

    /// The names, in order.
    pub fn names(&self) -> (r: Vec<String>)
        ensures
            strs(r@) == names_of(self@),
    {
        let mut out: Vec<String> = Vec::new();
        let mut i: usize = 0;
        while i < self.entries.len()
            invariant
                i <= self.entries@.len(),
                strs(out@) =~= names_of(self@).take(i as int),
            decreases self.entries@.len() - i,
        {
            let ghost out0 = out@;
            let name = self.entries[i].0.clone();
            out.push(name);
            assert(strs(out@) =~= strs(out0).push(name@));
            assert(names_of(self@)[i as int] == name@);
            i += 1;
        }
        assert(strs(out@) =~= names_of(self@));
        out
    }
}

impl Config {
    /// The opener that is used when none is picked.
    pub fn default_opener(&self) -> (r: Option<&Opener>)
        ensures
            match r {
                Some(o) => opener_named(self@.openers, self@.default) == Some(o@),
                None => opener_named(self@.openers, self@.default) is None,
            },
    {
        self.open.openers.get(self.open.default.as_str())
    }
}

/// An opener that was put in is found under its name.
pub proof fn law_opener_is_found(v: Seq<OpenerV>, name: Seq<char>, cmd: Seq<Seq<char>>)
    requires
        forall|i: int, j: int|
            0 <= i < j < v.len() ==> before((#[trigger] v[i]).0, (#[trigger] v[j]).0),
    ensures
        opener_named(with_opener(v, name, cmd), name) == Some(cmd),
    decreases v.len(),
{
    let r = with_opener(v, name, cmd);
    let i = opener_place(v, name);
    if v.len() > 0 && before(v[0].0, name) {
        let t = v.skip(1);
        assert forall|i: int, j: int| 0 <= i < j < t.len() implies before(
            (#[trigger] t[i]).0,
            (#[trigger] t[j]).0,
        ) by {
            assert(t[i] == v[i + 1]);
            assert(t[j] == v[j + 1]);
        }
        lemma_opener_place(t, name);
        law_opener_is_found(t, name, cmd);
        assert(r.skip(1) =~= with_opener(t, name, cmd));
        crate::text::lemma_before_total(v[0].0, name);
        assert(r[0] == v[0]);
    } else {
        assert(r[0] == (name, cmd));
    }
}

proof fn lemma_opener_place(v: Seq<OpenerV>, name: Seq<char>)
    ensures
        0 <= opener_place(v, name) <= v.len(),
    decreases v.len(),
{
    if v.len() > 0 && before(v[0].0, name) {
        lemma_opener_place(v.skip(1), name);
    }
}

} // verus!
