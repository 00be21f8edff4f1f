use vstd::prelude::*;

use crate::config::{ConfigFiles, PathBinding};
use crate::generator::Generator;
use crate::text::same_text;

verus! {

/// Which changes are watched: template sources, the bindings file, the variables file.
#[derive(Clone, Copy, Debug)]
pub struct Mode {
    pub files: bool,
    pub bindings: bool,
    pub variables: bool,
}

/// What a watched file stands for.
#[derive(Clone, Debug)]
pub enum WatchedElement {
    Binding(PathBinding),
    Config(String),
}

/// The path that a watched element is about.
pub open spec fn target_of(e: WatchedElement) -> Seq<char> {
    match e {
        WatchedElement::Binding(b) => b.from@,
        WatchedElement::Config(p) => p@,
    }
}

impl WatchedElement {
    /// The path to watch.
    pub fn target(&self) -> (r: &String)
        ensures
            r@ == target_of(*self),
    {
        match self {
            WatchedElement::Binding(b) => &b.from,
            WatchedElement::Config(p) => p,
        }
    }
}

/// A directory watch handle and a file name in that directory.
#[derive(Clone, Debug)]
pub struct Descriptor {
    pub wd: usize,
    pub file_name: String,
}

pub type Key = (usize, Seq<char>);

pub open spec fn key_of(d: Descriptor) -> Key {
    (d.wd, d.file_name@)
}

/// The handles that a watch table uses.
pub open spec fn handles(m: Map<Key, WatchedElement>) -> Set<usize> {
    Set::new(|w: usize| exists|n: Seq<char>| #[trigger] m.contains_key((w, n)))
}

/// Watched files by handle and file name.
#[derive(Debug)]
pub struct WatchTable {
    entries: Vec<(Descriptor, WatchedElement)>,
}

impl View for WatchTable {
    type V = Map<Key, WatchedElement>;

    closed spec fn view(&self) -> Map<Key, WatchedElement> {
        Map::new(
            |k: Key| exists|i: int| 0 <= i < self.entries@.len() && key_of(self.entries@[i].0) == k,
            |k: Key|
                self.entries@[choose|i: int|
                    0 <= i < self.entries@.len() && key_of(self.entries@[i].0) == k].1,
        )
    }
}

impl WatchTable {
    pub closed spec fn wf(&self) -> bool {
        forall|i: int, j: int|
            0 <= i < j < self.entries@.len() ==> key_of(self.entries@[i].0) != key_of(
                self.entries@[j].0,
            )
    }

    proof fn lemma_index(&self, i: int)
        requires
            self.wf(),
            0 <= i < self.entries@.len(),
        ensures
            self@.contains_key(key_of(self.entries@[i].0)),
            self@[key_of(self.entries@[i].0)] == self.entries@[i].1,
    {
        broadcast use vstd::map_lib::group_map_properties;

        let k = key_of(self.entries@[i].0);
        assert(exists|j: int| 0 <= j < self.entries@.len() && key_of(self.entries@[j].0) == k);
        let c = choose|j: int| 0 <= j < self.entries@.len() && key_of(self.entries@[j].0) == k;
        assert(c == i);
    }

    proof fn lemma_dom(&self, k: Key)
        ensures
            self@.contains_key(k) <==> exists|i: int|
                0 <= i < self.entries@.len() && key_of(self.entries@[i].0) == k,
    {
        broadcast use vstd::map_lib::group_map_properties;

    }

    /// An empty table.
    pub fn new() -> (r: WatchTable)
        ensures
            r.wf(),
            r@ == Map::<Key, WatchedElement>::empty(),
    {
        let r = WatchTable { entries: Vec::new() };
        proof {
            assert forall|k: Key| !r@.contains_key(k) by {
                r.lemma_dom(k);
            }
            assert(r@ =~= Map::<Key, WatchedElement>::empty());
        }
        r
    }

    fn position(&self, wd: usize, name: &str) -> (r: Option<usize>)
        ensures
            match r {
                Some(i) => i < self.entries@.len() && key_of(self.entries@[i as int].0) == (wd, name@),
                None => forall|i: int|
                    0 <= i < self.entries@.len() ==> key_of(self.entries@[i].0) != (wd, name@),
            },
    {
        let mut i: usize = 0;
        while i < self.entries.len()
            invariant
                i <= self.entries@.len(),
                forall|j: int| 0 <= j < i ==> key_of(self.entries@[j].0) != (wd, name@),
            decreases self.entries@.len() - i,
        {
            if self.entries[i].0.wd == wd && same_text(self.entries[i].0.file_name.as_str(), name) {
                return Some(i);
            }
            i = i + 1;
        }
        None
    }

    /// Records `element` under `d`, in place of what was there.
    pub fn insert(&mut self, d: Descriptor, element: WatchedElement)
        requires
            old(self).wf(),
        ensures
            final(self).wf(),
            final(self)@ == old(self)@.insert(key_of(d), element),
    {
        let ghost k = key_of(d);
        let ghost before = *self;
        match self.position(d.wd, d.file_name.as_str()) {
            Some(i) => {
                self.entries.set(i, (d, element));
            },
            None => {
                self.entries.push((d, element));
            },
        }
        proof {
            assert(self.wf()) by {
                assert forall|a: int, b: int| 0 <= a < b < self.entries@.len() implies key_of(
                    self.entries@[a].0,
                ) != key_of(self.entries@[b].0) by {
                    if a < before.entries@.len() && b < before.entries@.len() {
                        assert(key_of(before.entries@[a].0) != key_of(before.entries@[b].0));
                    }
                }
            }
            assert forall|x: Key| #[trigger] self@.contains_key(x) <==> before@.insert(k, element).contains_key(x) by {
                self.lemma_dom(x);
                before.lemma_dom(x);
                if before@.contains_key(x) && x != k {
                    let j = choose|j: int| 0 <= j < before.entries@.len() && key_of(before.entries@[j].0) == x;
                    assert(key_of(self.entries@[j].0) == x);
                }
                if x == k {
                    let j = if before.entries@.len() < self.entries@.len() { before.entries@.len() as int } else {
                        choose|j: int| 0 <= j < before.entries@.len() && key_of(before.entries@[j].0) == k
                    };
                    assert(key_of(self.entries@[j].0) == x);
                }
                if self@.contains_key(x) {
                    let j = choose|j: int| 0 <= j < self.entries@.len() && key_of(self.entries@[j].0) == x;
                    if j < before.entries@.len() && key_of(before.entries@[j].0) == x {
                        assert(before@.contains_key(x));
                    }
                }
            }
            assert forall|x: Key| #[trigger] self@.contains_key(x) implies self@[x] == before@.insert(k, element)[x] by {
                self.lemma_dom(x);
                let j = choose|j: int| 0 <= j < self.entries@.len() && key_of(self.entries@[j].0) == x;
                self.lemma_index(j);
                if x != k {
                    before.lemma_index(j);
                }
            }
            assert(self@ =~= before@.insert(k, element));
        }
    }

    /// The element watched under `wd` and `name`.
    pub fn get(&self, wd: usize, name: &str) -> (r: Option<&WatchedElement>)
        requires
            self.wf(),
        ensures
            match r {
                Some(e) => self@.contains_key((wd, name@)) && self@[(wd, name@)] == *e,
                None => !self@.contains_key((wd, name@)),
            },
    {
        match self.position(wd, name) {
            Some(i) => {
                proof {
                    self.lemma_index(i as int);
                }
                Some(&self.entries[i].1)
            },
            None => {
                proof {
                    self.lemma_dom((wd, name@));
                }
                None
            },
        }
    }

    /// Each handle in use, once.
    pub fn handles(&self) -> (r: Vec<usize>)
        ensures
            r@.no_duplicates(),
            r@.to_set() == handles(self@),
    {
        let mut r: Vec<usize> = Vec::new();
        let mut i: usize = 0;
        while i < self.entries.len()
            invariant
                i <= self.entries@.len(),
                r@.no_duplicates(),
                forall|w: usize| r@.contains(w) <==> exists|j: int| 0 <= j < i && #[trigger] self.entries@[j].0.wd == w,
            decreases self.entries@.len() - i,
        {
            let wd = self.entries[i].0.wd;
            let ghost before = r@;
            let mut seen = false;
            let mut k: usize = 0;
            while k < r.len()
                invariant
                    k <= r@.len(),
                    r@ == before,
                    seen <==> exists|m: int| 0 <= m < k && r@[m] == wd,
                decreases r@.len() - k,
            {
                if r[k] == wd {
                    seen = true;
                }
                k = k + 1;
            }
            if !seen {
                r.push(wd);
            }
            proof {
                assert(seen <==> before.contains(wd));
                assert forall|w: usize| r@.contains(w) <==> exists|j: int| 0 <= j < i + 1 && #[trigger] self.entries@[j].0.wd == w by {
                    if r@.contains(w) {
                        if before.contains(w) {
                            let j = choose|j: int| 0 <= j < i && #[trigger] self.entries@[j].0.wd == w;
                            assert(0 <= j < i + 1 && self.entries@[j].0.wd == w);
                        } else {
                            let m = choose|m: int| 0 <= m < r@.len() && r@[m] == w;
                            assert(m == before.len());
                            assert(self.entries@[i as int].0.wd == w);
                        }
                    }
                    if exists|j: int| 0 <= j < i + 1 && #[trigger] self.entries@[j].0.wd == w {
                        let j = choose|j: int| 0 <= j < i + 1 && #[trigger] self.entries@[j].0.wd == w;
                        if j < i {
                            assert(before.contains(w));
                            let m = choose|m: int| 0 <= m < before.len() && before[m] == w;
                            assert(r@[m] == w);
                        } else if seen {
                            assert(r@ == before);
                        } else {
                            assert(r@[r@.len() - 1] == w);
                        }
                    }
                }
            }
            i = i + 1;
        }
        proof {
            assert forall|w: usize| #[trigger] r@.to_set().contains(w) <==> handles(self@).contains(w) by {
                if r@.contains(w) {
                    let j = choose|j: int| 0 <= j < self.entries@.len() && #[trigger] self.entries@[j].0.wd == w;
                    let n = self.entries@[j].0.file_name@;
                    self.lemma_dom((w, n));
                    assert(self@.contains_key((w, n)));
                }
                if handles(self@).contains(w) {
                    let n = choose|n: Seq<char>| #[trigger] self@.contains_key((w, n));
                    self.lemma_dom((w, n));
                    let j = choose|j: int| 0 <= j < self.entries@.len() && key_of(self.entries@[j].0) == (w, n);
                    assert(self.entries@[j].0.wd == w);
                }
            }
            assert(r@.to_set() =~= handles(self@));
        }
        r
    }

    /// Every watched binding, once per entry.
    pub fn bindings(&self) -> (r: Vec<PathBinding>)
        requires
            self.wf(),
        ensures
            forall|b: PathBinding| r@.contains(b) <==> exists|k: Key| #[trigger] self@.contains_key(k) && self@[k] == WatchedElement::Binding(b),
    {
        let mut r: Vec<PathBinding> = Vec::new();
        let mut i: usize = 0;
        while i < self.entries.len()
            invariant
                self.wf(),
                i <= self.entries@.len(),
                forall|b: PathBinding| r@.contains(b) <==> exists|j: int| 0 <= j < i && #[trigger] self.entries@[j].1 == WatchedElement::Binding(b),
            decreases self.entries@.len() - i,
        {
            let ghost before = r@;
            assert(forall|b: PathBinding| before.contains(b) <==> exists|j: int| 0 <= j < i && #[trigger] self.entries@[j].1 == WatchedElement::Binding(b));
            match &self.entries[i].1 {
                WatchedElement::Binding(b) => {
                    r.push(b.duplicate());
                },
                WatchedElement::Config(_) => {},
            }
            proof {
                assert forall|b: PathBinding| r@.contains(b) <==> exists|j: int| 0 <= j < i + 1 && #[trigger] self.entries@[j].1 == WatchedElement::Binding(b) by {
                    if r@.contains(b) {
                        let m = choose|m: int| 0 <= m < r@.len() && r@[m] == b;
                        if m < before.len() {
                            assert(before.contains(b));
                            let j = choose|j: int| 0 <= j < i && #[trigger] self.entries@[j].1 == WatchedElement::Binding(b);
                            assert(0 <= j < i + 1);
                        } else {
                            assert(self.entries@[i as int].1 == WatchedElement::Binding(b));
                        }
                    }
                    if exists|j: int| 0 <= j < i + 1 && #[trigger] self.entries@[j].1 == WatchedElement::Binding(b) {
                        let j = choose|j: int| 0 <= j < i + 1 && #[trigger] self.entries@[j].1 == WatchedElement::Binding(b);
                        if j < i {
                            assert(self.entries@[j].1 == WatchedElement::Binding(b));
                            assert(before.contains(b));
                            let m = choose|m: int| 0 <= m < before.len() && before[m] == b;
                            assert(r@[m] == b);
                        } else {
                            assert(r@[r@.len() - 1] == b);
                        }
                    }
                }
            }
            i = i + 1;
        }
        proof {
            assert forall|b: PathBinding| r@.contains(b) <==> exists|k: Key| #[trigger] self@.contains_key(k) && self@[k] == WatchedElement::Binding(b) by {
                if r@.contains(b) {
                    let j = choose|j: int| 0 <= j < self.entries@.len() && #[trigger] self.entries@[j].1 == WatchedElement::Binding(b);
                    self.lemma_index(j);
                    assert(self@.contains_key(key_of(self.entries@[j].0)));
                }
                if exists|k: Key| #[trigger] self@.contains_key(k) && self@[k] == WatchedElement::Binding(b) {
                    let k = choose|k: Key| #[trigger] self@.contains_key(k) && self@[k] == WatchedElement::Binding(b);
                    self.lemma_dom(k);
                    let j = choose|j: int| 0 <= j < self.entries@.len() && key_of(self.entries@[j].0) == k;
                    self.lemma_index(j);
                    assert(self.entries@[j].1 == WatchedElement::Binding(b));
                }
            }
        }
        r
    }
}

/// What to do about a change notification.
#[derive(Clone, Debug)]
pub enum Action {
    /// The change concerns nothing watched.
    Ignore,
    /// A template changed: regenerate its binding.
    Regenerate(PathBinding),
    /// A configuration file changed: reload, rebuild the watches and regenerate everything.
    Reconfigure,
}

/// The action for a change to file `name` under handle `wd`.
pub open spec fn action_for(table: Map<Key, WatchedElement>, mode: Mode, wd: usize, name: Option<Seq<char>>) -> Action {
    match name {
        None => Action::Ignore,
        Some(n) => if table.contains_key((wd, n)) {
            match table[(wd, n)] {
                WatchedElement::Binding(b) => if mode.files {
                    Action::Regenerate(b)
                } else {
                    Action::Ignore
                },
                WatchedElement::Config(_) => if mode.bindings || mode.variables {
                    Action::Reconfigure
                } else {
                    Action::Ignore
                },
            }
        } else {
            Action::Ignore
        },
    }
}

/// The elements to watch: each binding's template when templates are watched, then each
/// configuration file whose changes are watched.
pub open spec fn planned(mode: Mode, bindings: Seq<PathBinding>, files: ConfigFiles) -> Seq<WatchedElement> {
    let b = if mode.files {
        bindings.map_values(|x: PathBinding| WatchedElement::Binding(x))
    } else {
        Seq::empty()
    };
    let c = if mode.bindings {
        seq![WatchedElement::Config(files.bindings)]
    } else {
        Seq::empty()
    };
    let v = if mode.variables {
        seq![WatchedElement::Config(files.variables)]
    } else {
        Seq::empty()
    };
    b + c + v
}

/// The elements to watch for `mode`.
pub fn plan(mode: Mode, bindings: Vec<PathBinding>, files: &ConfigFiles) -> (r: Vec<WatchedElement>)
    ensures
        r@ == planned(mode, bindings@, *files),
{
    let mut r: Vec<WatchedElement> = Vec::new();
    if mode.files {
        let mut i: usize = 0;
        while i < bindings.len()
            invariant
                i <= bindings@.len(),
                r@ == bindings@.subrange(0, i as int).map_values(|x: PathBinding| WatchedElement::Binding(x)),
            decreases bindings@.len() - i,
        {
            r.push(WatchedElement::Binding(bindings[i].duplicate()));
            proof {
                assert(bindings@.subrange(0, i + 1).map_values(|x: PathBinding| WatchedElement::Binding(x))
                    =~= bindings@.subrange(0, i as int).map_values(|x: PathBinding| WatchedElement::Binding(x)).push(WatchedElement::Binding(bindings@[i as int])));
            }
            i = i + 1;
        }
        proof {
            assert(bindings@.subrange(0, bindings@.len() as int) =~= bindings@);
        }
    }
    let ghost b = r@;
    if mode.bindings {
        r.push(WatchedElement::Config(files.bindings.clone()));
    }
    let ghost c = r@;
    if mode.variables {
        r.push(WatchedElement::Config(files.variables.clone()));
    }
    proof {
        let pb = if mode.files {
            bindings@.map_values(|x: PathBinding| WatchedElement::Binding(x))
        } else {
            Seq::empty()
        };
        assert(b =~= pb);
        let pc = if mode.bindings { seq![WatchedElement::Config(files.bindings)] } else { Seq::empty() };
        assert(c =~= pb + pc);
        let pv = if mode.variables { seq![WatchedElement::Config(files.variables)] } else { Seq::empty() };
        assert(r@ =~= pb + pc + pv);
    }
    r
}

/// The handles of `old` that `new` no longer uses, each once.
pub fn stale_handles(old: &WatchTable, new: &WatchTable) -> (r: Vec<usize>)
    ensures
        r@.no_duplicates(),
        r@.to_set() == handles(old@).difference(handles(new@)),
{
    let before = old.handles();
    let after = new.handles();
    let mut r: Vec<usize> = Vec::new();
    let mut i: usize = 0;
    while i < before.len()
        invariant
            i <= before@.len(),
            before@.no_duplicates(),
            before@.to_set() == handles(old@),
            after@.to_set() == handles(new@),
            r@.no_duplicates(),
            forall|w: usize| r@.contains(w) <==> (exists|j: int| 0 <= j < i && #[trigger] before@[j] == w) && !after@.contains(w),
        decreases before@.len() - i,
    {
        let w = before[i];
        let mut kept = false;
        let mut k: usize = 0;
        while k < after.len()
            invariant
                k <= after@.len(),
                kept <==> exists|m: int| 0 <= m < k && after@[m] == w,
            decreases after@.len() - k,
        {
            if after[k] == w {
                kept = true;
            }
            k = k + 1;
        }
        let ghost prev = r@;
        if !kept {
            proof {
                if prev.contains(w) {
                    let j = choose|j: int| 0 <= j < i && #[trigger] before@[j] == w;
                    assert(before@[j] == before@[i as int]);
                }
            }
            r.push(w);
        }
        proof {
            assert(kept <==> after@.contains(w));
            assert forall|x: usize| r@.contains(x) <==> (exists|j: int| 0 <= j < i + 1 && #[trigger] before@[j] == x) && !after@.contains(x) by {
                if r@.contains(x) && !prev.contains(x) {
                    assert(x == w);
                    assert(before@[i as int] == x);
                }
                if (exists|j: int| 0 <= j < i + 1 && #[trigger] before@[j] == x) && !after@.contains(x) {
                    let j = choose|j: int| 0 <= j < i + 1 && #[trigger] before@[j] == x;
                    if j == i {
                        assert(r@[r@.len() - 1] == x);
                    } else {
                        assert(prev.contains(x));
                        let m = choose|m: int| 0 <= m < prev.len() && prev[m] == x;
                        assert(r@[m] == x);
                    }
                }
            }
        }
        i = i + 1;
    }
    proof {
        assert forall|w: usize| #[trigger] r@.to_set().contains(w) <==> handles(old@).difference(handles(new@)).contains(w) by {
            assert(before@.to_set().contains(w) <==> before@.contains(w));
            if before@.contains(w) {
                let j = choose|j: int| 0 <= j < before@.len() && before@[j] == w;
                assert(before@[j] == w);
            }
        }
        assert(r@.to_set() =~= handles(old@).difference(handles(new@)));
    }
    r
}

/// The state of the watch loop: the mode, the live watch table and the generator built with it.
#[derive(Debug)]
pub struct Multiplexer {
    mode: Mode,
    table: WatchTable,
    generator: Option<Generator>,
}

impl Multiplexer {
    pub closed spec fn wf(&self) -> bool {
        &&& self.table.wf()
        &&& match self.generator {
            Some(g) => g.wf(),
            None => true,
        }
    }

    pub closed spec fn mode(&self) -> Mode {
        self.mode
    }

    /// The live watch table.
    pub closed spec fn table(&self) -> Map<Key, WatchedElement> {
        self.table@
    }

    pub closed spec fn generator(&self) -> Option<Generator> {
        self.generator
    }

    /// A state that watches nothing yet.
    pub fn new(mode: Mode) -> (r: Multiplexer)
        ensures
            r.wf(),
            r.mode() == mode,
            r.table() == Map::<Key, WatchedElement>::empty(),
            r.generator().is_none(),
    {
        Multiplexer { mode, table: WatchTable::new(), generator: None }
    }

    /// The mode.
    pub fn watch_mode(&self) -> (r: Mode)
        ensures
            r == self.mode(),
    {
        self.mode
    }

    /// The generator of the last configuration taken in.
    pub fn current_generator(&self) -> (r: Option<&Generator>)
        ensures
            r == match self.generator() {
                Some(g) => Some(&g),
                None => None::<&Generator>,
            },
    {
        match &self.generator {
            Some(g) => Some(g),
            None => None,
        }
    }

    /// The action for a change to file `name` under handle `wd`.
    pub fn handle_event(&self, wd: usize, name: Option<&str>) -> (r: Action)
        requires
            self.wf(),
        ensures
            r == action_for(
                self.table(),
                self.mode(),
                wd,
                match name {
                    Some(n) => Some(n@),
                    None => None,
                },
            ),
    {
        let n = match name {
            Some(n) => n,
            None => return Action::Ignore,
        };
        match self.table.get(wd, n) {
            Some(WatchedElement::Binding(b)) => if self.mode.files {
                Action::Regenerate(b.duplicate())
            } else {
                Action::Ignore
            },
            Some(WatchedElement::Config(_)) => if self.mode.bindings || self.mode.variables {
                Action::Reconfigure
            } else {
                Action::Ignore
            },
            None => Action::Ignore,
        }
    }

    /// Each handle that the live table uses, once.
    pub fn live_handles(&self) -> (r: Vec<usize>)
        ensures
            r@.no_duplicates(),
            r@.to_set() == handles(self.table()),
    {
        self.table.handles()
    }

    /// Every binding that the live table watches.
    pub fn tracked_bindings(&self) -> (r: Vec<PathBinding>)
        requires
            self.wf(),
        ensures
            forall|b: PathBinding| r@.contains(b) <==> exists|k: Key| #[trigger] self.table().contains_key(k) && self.table()[k] == WatchedElement::Binding(b),
    {
        self.table.bindings()
    }

    /// Takes in a rebuilt table and the generator built with it, both at once, and returns the
    /// handles that nothing watches any more, to be released.
    pub fn commit(&mut self, table: WatchTable, generator: Generator) -> (r: Vec<usize>)
        requires
            old(self).wf(),
            table.wf(),
            generator.wf(),
        ensures
            final(self).wf(),
            final(self).mode() == old(self).mode(),
            final(self).table() == table@,
            final(self).generator() == Some(generator),
            r@.no_duplicates(),
            r@.to_set() == handles(old(self).table()).difference(handles(table@)),
    {
        let stale = stale_handles(&self.table, &table);
        self.table = table;
        self.generator = Some(generator);
        stale
    }
}

/// The handles live after each commit of `tables`, when each commit adds the handles of its
/// table and then releases those that `commit` returns.
pub open spec fn live_after(tables: Seq<Map<Key, WatchedElement>>, k: nat) -> Set<usize>
    decreases k,
{
    if k == 0 {
        handles(tables[0])
    } else {
        let before = live_after(tables, (k - 1) as nat);
        before.union(handles(tables[k as int])).difference(
            handles(tables[k - 1]).difference(handles(tables[k as int])),
        )
    }
}

/// However many times the watches are rebuilt, the live handles are exactly those of the
/// current table, never an accumulation of earlier ones.
pub proof fn lemma_handle_hygiene(tables: Seq<Map<Key, WatchedElement>>, k: nat)
    requires
        k < tables.len(),
    ensures
        live_after(tables, k) == handles(tables[k as int]),
    decreases k,
{
    if k > 0 {
        lemma_handle_hygiene(tables, (k - 1) as nat);
        assert(live_after(tables, k) =~= handles(tables[k as int]));
    }
}

/// Two templates in one directory are watched as two elements: a change to either regenerates
/// that binding alone.
pub proof fn lemma_watch_independence(
    table: Map<Key, WatchedElement>,
    mode: Mode,
    wd: usize,
    name1: Seq<char>,
    name2: Seq<char>,
    b1: PathBinding,
    b2: PathBinding,
)
    requires
        mode.files,
        name1 != name2,
    ensures
        ({
            let t = table.insert((wd, name1), WatchedElement::Binding(b1)).insert((wd, name2), WatchedElement::Binding(b2));
            &&& action_for(t, mode, wd, Some(name1)) == Action::Regenerate(b1)
            &&& action_for(t, mode, wd, Some(name2)) == Action::Regenerate(b2)
        }),
{
}

} // verus!
