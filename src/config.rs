use vstd::prelude::*;

use crate::text::slice;

verus! {

/// A template and the file generated from it.
#[derive(Clone, Debug)]
pub struct PathBinding {
    pub from: String,
    pub to: String,
}

impl PathBinding {
    /// A copy of this binding.
    pub fn duplicate(&self) -> (r: PathBinding)
        ensures
            r == *self,
    {
        PathBinding { from: self.from.clone(), to: self.to.clone() }
    }
}

/// Where the bindings and the variables are read from.
#[derive(Clone, Debug)]
pub struct ConfigFiles {
    pub bindings: String,
    pub variables: String,
}

/// The bindings and the raw variable definitions, as loaded.
#[derive(Clone, Debug)]
pub struct Config {
    pub bindings: Vec<PathBinding>,
    pub variables: Vec<(String, String)>,
}

/// The last position before `end` that holds `c`.
pub open spec fn last_index_of(s: Seq<char>, c: char, end: int) -> Option<int>
    decreases end,
{
    if end <= 0 {
        None
    } else if s[end - 1] == c {
        Some(end - 1)
    } else {
        last_index_of(s, c, end - 1)
    }
}

proof fn lemma_last_index_of(s: Seq<char>, c: char, end: int)
    requires
        end <= s.len(),
    ensures
        match last_index_of(s, c, end) {
            Some(i) => 0 <= i < end && s[i] == c,
            None => true,
        },
    decreases end,
{
    if end > 0 && s[end - 1] != c {
        lemma_last_index_of(s, c, end - 1);
    }
}

/// The directory part of `p`: what stands before its last `/`, or `/` itself.
pub open spec fn parent_of(p: Seq<char>) -> Option<Seq<char>> {
    match last_index_of(p, '/', p.len() as int) {
        None => None,
        Some(i) => if i == 0 {
            Some(seq!['/'])
        } else {
            Some(p.subrange(0, i))
        },
    }
}

/// The file name of `p`: what follows its last `/`, when that is not empty.
pub open spec fn file_name_of(p: Seq<char>) -> Option<Seq<char>> {
    match last_index_of(p, '/', p.len() as int) {
        None => None,
        Some(i) => if i + 1 < p.len() {
            Some(p.subrange(i + 1, p.len() as int))
        } else {
            None
        },
    }
}

/// `b` taken relative to `a`; an absolute `b` stands alone.
pub open spec fn join(a: Seq<char>, b: Seq<char>) -> Seq<char> {
    if b.len() > 0 && b[0] == '/' {
        b
    } else if a.len() == 0 || a.last() == '/' {
        a + b
    } else {
        a + seq!['/'] + b
    }
}

/// Whether `p` starts with the home directory marker `~` as a whole component.
pub open spec fn under_home(p: Seq<char>) -> bool {
    p == seq!['~'] || (p.len() >= 2 && p[0] == '~' && p[1] == '/')
}

/// `path` as used: under `home` when it starts with `~`, else relative to `parent` when it is
/// relative, else unchanged.
pub open spec fn normalized(path: Seq<char>, home: Option<Seq<char>>, parent: Option<Seq<char>>) -> Seq<char> {
    if path.len() > 0 && path[0] == '/' {
        path
    } else if under_home(path) {
        match home {
            Some(h) => join(h, path.subrange(if path.len() >= 2 { 2 } else { 1 }, path.len() as int)),
            None => path,
        }
    } else {
        match parent {
            Some(d) => join(d, path),
            None => path,
        }
    }
}

fn last_slash(p: &str, n: usize) -> (r: Option<usize>)
    requires
        n == p@.len(),
    ensures
        match r {
            Some(i) => last_index_of(p@, '/', n as int) == Some(i as int) && i < n,
            None => last_index_of(p@, '/', n as int).is_none(),
        },
{
    let mut end: usize = n;
    while end > 0
        invariant
            n == p@.len(),
            end <= n,
            last_index_of(p@, '/', n as int) == last_index_of(p@, '/', end as int),
        decreases end,
    {
        if p.get_char(end - 1) == '/' {
            return Some(end - 1);
        }
        end = end - 1;
    }
    None
}

/// The directory and the file name of `path`.
pub fn split_path(path: &str) -> (r: Option<(String, String)>)
    ensures
        match r {
            Some((d, f)) => parent_of(path@) == Some(d@) && file_name_of(path@) == Some(f@),
            None => parent_of(path@).is_none() || file_name_of(path@).is_none(),
        },
{
    let n = path.unicode_len();
    let i = match last_slash(path, n) {
        Some(i) => i,
        None => return None,
    };
    if i + 1 >= n {
        return None;
    }
    let dir = if i == 0 {
        slice(path, 0, 1)
    } else {
        slice(path, 0, i)
    };
    proof {
        if i == 0 {
            lemma_last_index_of(path@, '/', n as int);
            assert(path@.subrange(0, 1) =~= seq!['/']);
        }
    }
    Some((dir, slice(path, i + 1, n)))
}

/// The directory part of `path`.
pub fn parent_path(path: &str) -> (r: Option<String>)
    ensures
        match r {
            Some(d) => parent_of(path@) == Some(d@),
            None => parent_of(path@).is_none(),
        },
{
    let n = path.unicode_len();
    match last_slash(path, n) {
        Some(i) => {
            if i == 0 {
                proof {
                    lemma_last_index_of(path@, '/', n as int);
            assert(path@.subrange(0, 1) =~= seq!['/']);
                }
                Some(slice(path, 0, 1))
            } else {
                Some(slice(path, 0, i))
            }
        },
        None => None,
    }
}

/// `b` taken relative to `a`.
pub fn join_paths(a: &str, b: &str) -> (r: String)
    ensures
        r@ == join(a@, b@),
{
    let na = a.unicode_len();
    let nb = b.unicode_len();
    if nb > 0 && b.get_char(0) == '/' {
        return String::from_str(b);
    }
    let mut r = String::from_str(a);
    if !(na == 0 || a.get_char(na - 1) == '/') {
        r.append("/");
        proof {
            reveal_strlit("/");
        }
    }
    r.append(b);
    proof {
        if !(na == 0 || a@.last() == '/') {
            assert(r@ =~= a@ + seq!['/'] + b@);
        }
    }
    r
}

impl Config {
    /// `path` as used, with `~` read as `home` and a relative path taken from `parent`.
    pub fn resolve_path(path: &str, home: Option<&str>, parent: Option<&str>) -> (r: String)
        ensures
            r@ == normalized(
                path@,
                match home {
                    Some(h) => Some(h@),
                    None => None,
                },
                match parent {
                    Some(d) => Some(d@),
                    None => None,
                },
            ),
    {
        let n = path.unicode_len();
        if n > 0 && path.get_char(0) == '/' {
            return String::from_str(path);
        }
        let tilde = n > 0 && path.get_char(0) == '~' && (n == 1 || path.get_char(1) == '/');
        proof {
            if n == 1 && path@[0] == '~' {
                assert(path@ =~= seq!['~']);
            }
        }
        if tilde {
            match home {
                Some(h) => {
                    let start: usize = if n >= 2 {
                        2
                    } else {
                        1
                    };
                    join_paths(h, path.substring_char(start, n))
                },
                None => String::from_str(path),
            }
        } else {
            match parent {
                Some(d) => join_paths(d, path),
                None => String::from_str(path),
            }
        }
    }

    /// Takes every binding's paths relative to the directory of `bindings_file`, with `~` read
    /// as `home`.
    pub fn resolve_paths(&mut self, bindings_file: &str, home: Option<&str>)
        ensures
            final(self).variables == old(self).variables,
            final(self).bindings@.len() == old(self).bindings@.len(),
            forall|i: int|
                0 <= i < old(self).bindings@.len() ==> {
                    let h = match home {
                        Some(h) => Some(h@),
                        None => None,
                    };
                    &&& (#[trigger] final(self).bindings@[i]).from@ == normalized(old(self).bindings@[i].from@, h, parent_of(bindings_file@))
                    &&& final(self).bindings@[i].to@ == normalized(old(self).bindings@[i].to@, h, parent_of(bindings_file@))
                },
    {
        let dir = parent_path(bindings_file);
        let parent: Option<&str> = match &dir {
            Some(d) => Some(d.as_str()),
            None => None,
        };
        let ghost h = match home {
            Some(h) => Some(h@),
            None => None,
        };
        let n = self.bindings.len();
        let mut resolved: Vec<PathBinding> = Vec::new();
        let mut i: usize = 0;
        while i < n
            invariant
                n == self.bindings@.len(),
                self == old(self),
                i <= n,
                resolved@.len() == i,
                h == match home {
                    Some(h) => Some(h@),
                    None => None,
                },
                match dir {
                    Some(d) => parent.is_some() && parent.unwrap()@ == d@ && parent_of(bindings_file@) == Some(d@),
                    None => parent.is_none() && parent_of(bindings_file@).is_none(),
                },
                forall|j: int|
                    0 <= j < i ==> {
                        &&& (#[trigger] resolved@[j]).from@ == normalized(self.bindings@[j].from@, h, parent_of(bindings_file@))
                        &&& resolved@[j].to@ == normalized(self.bindings@[j].to@, h, parent_of(bindings_file@))
                    },
            decreases n - i,
        {
            let b = &self.bindings[i];
            let from = Config::resolve_path(b.from.as_str(), home, parent);
            let to = Config::resolve_path(b.to.as_str(), home, parent);
            resolved.push(PathBinding { from, to });
            i = i + 1;
        }
        self.bindings = resolved;
    }
}

} // verus!
