use vstd::prelude::*;

use crate::disjoint_set::DisjointSet;
use crate::text::same_text;

verus! {

broadcast use vstd::map_lib::group_map_properties;

/// What a name resolves to: a value, or nothing because its aliases lead round a cycle or to a
/// name that is defined nowhere.
#[derive(Clone, Debug, PartialEq, Eq)]
pub enum Resolution {
    Value(String),
    Unresolved,
}

pub open spec fn resolution_view(r: Resolution) -> Option<Seq<char>> {
    match r {
        Resolution::Value(s) => Some(s@),
        Resolution::Unresolved => None,
    }
}

/// Name/value pairs as character sequences.
pub open spec fn pairs_view(s: Seq<(String, String)>) -> Seq<(Seq<char>, Seq<char>)> {
    s.map_values(|p: (String, String)| (p.0@, p.1@))
}

/// No name occurs twice.
pub open spec fn keys_distinct<V>(s: Seq<(Seq<char>, V)>) -> bool {
    forall|i: int, j: int| 0 <= i < j < s.len() ==> s[i].0 != s[j].0
}

/// The mapping that a list of pairs with distinct names stands for.
pub open spec fn map_of<V>(s: Seq<(Seq<char>, V)>) -> Map<Seq<char>, V> {
    Map::new(
        |k: Seq<char>| exists|i: int| 0 <= i < s.len() && s[i].0 == k,
        |k: Seq<char>| s[choose|i: int| 0 <= i < s.len() && s[i].0 == k].1,
    )
}

/// The name that the raw value of `k` aliases: the value starts with `@` and the rest is a
/// defined name.
pub open spec fn alias_of(
    raw: Map<Seq<char>, Seq<char>>,
    env: Map<Seq<char>, Seq<char>>,
    k: Seq<char>,
) -> Option<Seq<char>> {
    if raw.contains_key(k) && raw[k].len() > 0 && raw[k][0] == '@' && (raw.contains_key(
        raw[k].drop_first(),
    ) || env.contains_key(raw[k].drop_first())) {
        Some(raw[k].drop_first())
    } else {
        None
    }
}

/// The name where the alias chain from `k` ends, if it ends within `fuel` steps.
pub open spec fn follow(
    raw: Map<Seq<char>, Seq<char>>,
    env: Map<Seq<char>, Seq<char>>,
    k: Seq<char>,
    fuel: nat,
) -> Option<Seq<char>>
    decreases fuel,
{
    match alias_of(raw, env, k) {
        None => Some(k),
        Some(t) => if fuel == 0 {
            None
        } else {
            follow(raw, env, t, (fuel - 1) as nat)
        },
    }
}

/// The name where the alias chain from `k` ends; `None` when it runs round a cycle.
pub open spec fn terminal(
    raw: Map<Seq<char>, Seq<char>>,
    env: Map<Seq<char>, Seq<char>>,
    k: Seq<char>,
) -> Option<Seq<char>> {
    if exists|f: nat| #[trigger] follow(raw, env, k, f).is_some() {
        follow(raw, env, k, choose|f: nat| #[trigger] follow(raw, env, k, f).is_some())
    } else {
        None
    }
}

/// The value that a terminal name stands for: its own definition first, then the environment.
pub open spec fn value_of(
    raw: Map<Seq<char>, Seq<char>>,
    env: Map<Seq<char>, Seq<char>>,
    t: Seq<char>,
) -> Seq<char> {
    if raw.contains_key(t) {
        raw[t]
    } else {
        env[t]
    }
}

/// What `k` resolves to: the environment wins, otherwise the value at the end of its alias chain;
/// nothing when the chain runs round a cycle or ends in an alias of an undefined name.
pub open spec fn resolved_value(
    raw: Map<Seq<char>, Seq<char>>,
    env: Map<Seq<char>, Seq<char>>,
    k: Seq<char>,
) -> Option<Seq<char>> {
    if env.contains_key(k) {
        Some(env[k])
    } else {
        match terminal(raw, env, k) {
            Some(t) => if names_alias(raw, t) {
                None
            } else {
                Some(value_of(raw, env, t))
            },
            None => None,
        }
    }
}

/// Whether the definition of `t` is written as an alias (starts with `@`). At the end of a chain
/// such an alias names nothing defined.
pub open spec fn names_alias(raw: Map<Seq<char>, Seq<char>>, t: Seq<char>) -> bool {
    raw.contains_key(t) && raw[t].len() > 0 && raw[t][0] == '@'
}

/// Every defined name with what it resolves to.
pub open spec fn resolve(
    raw: Map<Seq<char>, Seq<char>>,
    env: Map<Seq<char>, Seq<char>>,
) -> Map<Seq<char>, Option<Seq<char>>> {
    Map::new(
        |k: Seq<char>| raw.contains_key(k) || env.contains_key(k),
        |k: Seq<char>| resolved_value(raw, env, k),
    )
}

pub proof fn lemma_map_of_dom<V>(s: Seq<(Seq<char>, V)>, k: Seq<char>)
    ensures
        map_of(s).contains_key(k) <==> exists|i: int| 0 <= i < s.len() && s[i].0 == k,
{
    assert(map_of(s).dom() == Set::new(|k: Seq<char>| exists|i: int| 0 <= i < s.len() && s[i].0 == k));
}

pub proof fn lemma_map_of_index<V>(s: Seq<(Seq<char>, V)>, i: int)
    requires
        keys_distinct(s),
        0 <= i < s.len(),
    ensures
        map_of(s).contains_key(s[i].0),
        map_of(s)[s[i].0] == s[i].1,
{
    let k = s[i].0;
    assert(exists|j: int| 0 <= j < s.len() && s[j].0 == k);
    let c = choose|j: int| 0 <= j < s.len() && s[j].0 == k;
    if c < i {
        assert(s[c].0 != s[i].0);
    } else if c > i {
        assert(s[i].0 != s[c].0);
    }
}

/// Index of the pair named `key`.
pub fn find_key(pairs: &Vec<(String, String)>, key: &str) -> (r: Option<usize>)
    ensures
        match r {
            Some(i) => i < pairs@.len() && pairs@[i as int].0@ == key@,
            None => forall|i: int| 0 <= i < pairs@.len() ==> pairs@[i].0@ != key@,
        },
{
    let mut i: usize = 0;
    while i < pairs.len()
        invariant
            i <= pairs@.len(),
            forall|j: int| 0 <= j < i ==> pairs@[j].0@ != key@,
        decreases pairs@.len() - i,
    {
        if same_text(pairs[i].0.as_str(), key) {
            return Some(i);
        }
        i = i + 1;
    }
    None
}

/// Index of `key` in `names`.
pub fn find_name(names: &Vec<String>, key: &str) -> (r: Option<usize>)
    ensures
        match r {
            Some(i) => i < names@.len() && names@[i as int]@ == key@,
            None => forall|i: int| 0 <= i < names@.len() ==> names@[i]@ != key@,
        },
{
    let mut i: usize = 0;
    while i < names.len()
        invariant
            i <= names@.len(),
            forall|j: int| 0 <= j < i ==> names@[j]@ != key@,
        decreases names@.len() - i,
    {
        if same_text(names[i].as_str(), key) {
            return Some(i);
        }
        i = i + 1;
    }
    None
}


/// Index reached from `i` after `s` alias steps over `nxt`; an index without an alias stays put.
pub open spec fn walk(nxt: Seq<Option<usize>>, i: int, s: nat) -> int
    decreases s,
{
    if s == 0 {
        i
    } else {
        match nxt[i] {
            Some(j) => walk(nxt, j as int, (s - 1) as nat),
            None => i,
        }
    }
}

/// `nxt` holds, for each of `names`, the index of the name it aliases.
pub open spec fn links(
    raw: Map<Seq<char>, Seq<char>>,
    env: Map<Seq<char>, Seq<char>>,
    names: Seq<Seq<char>>,
    nxt: Seq<Option<usize>>,
) -> bool {
    &&& nxt.len() == names.len()
    &&& forall|i: int|
        0 <= i < names.len() ==> match #[trigger] nxt[i] {
            Some(j) => j < names.len() && alias_of(raw, env, names[i]) == Some(names[j as int]),
            None => alias_of(raw, env, names[i]).is_none(),
        }
}

proof fn lemma_walk_stays(nxt: Seq<Option<usize>>, i: int, s: nat)
    requires
        nxt[i].is_none(),
    ensures
        walk(nxt, i, s) == i,
{
}

proof fn lemma_walk_add(nxt: Seq<Option<usize>>, i: int, a: nat, b: nat)
    ensures
        walk(nxt, i, a + b) == walk(nxt, walk(nxt, i, a), b),
    decreases a,
{
    if a > 0 {
        match nxt[i] {
            Some(j) => {
                lemma_walk_add(nxt, j as int, (a - 1) as nat, b);
                assert((a + b - 1) as nat == (a - 1) as nat + b);
            },
            None => {
                lemma_walk_stays(nxt, i, b);
                lemma_walk_stays(nxt, i, a + b);
            },
        }
    }
}

/// Representatives that agree along every alias agree along every walk.
proof fn lemma_walk_rep(nxt: Seq<Option<usize>>, reps: Seq<int>, i: int, s: nat)
    requires
        0 <= i < nxt.len(),
        forall|k: int| 0 <= k < nxt.len() ==> match #[trigger] nxt[k] {
            Some(j) => j < nxt.len() && reps[k] == reps[j as int],
            None => true,
        },
    ensures
        reps[walk(nxt, i, s)] == reps[i],
    decreases s,
{
    if s > 0 {
        match nxt[i] {
            Some(j) => lemma_walk_rep(nxt, reps, j as int, (s - 1) as nat),
            None => {},
        }
    }
}

proof fn lemma_follow_walk(
    raw: Map<Seq<char>, Seq<char>>,
    env: Map<Seq<char>, Seq<char>>,
    names: Seq<Seq<char>>,
    nxt: Seq<Option<usize>>,
    i: int,
    f: nat,
)
    requires
        links(raw, env, names, nxt),
        0 <= i < names.len(),
        follow(raw, env, names[i], f).is_some(),
    ensures
        0 <= walk(nxt, i, f) < names.len(),
        nxt[walk(nxt, i, f)].is_none(),
        follow(raw, env, names[i], f) == Some(names[walk(nxt, i, f)]),
    decreases f,
{
    let _ = nxt[i];
    match nxt[i] {
        Some(j) => {
            lemma_follow_walk(raw, env, names, nxt, j as int, (f - 1) as nat);
        },
        None => {
            lemma_walk_stays(nxt, i, f);
        },
    }
}

proof fn lemma_walk_follow(
    raw: Map<Seq<char>, Seq<char>>,
    env: Map<Seq<char>, Seq<char>>,
    names: Seq<Seq<char>>,
    nxt: Seq<Option<usize>>,
    i: int,
    s: nat,
)
    requires
        links(raw, env, names, nxt),
        0 <= i < names.len(),
        0 <= walk(nxt, i, s) < names.len(),
        nxt[walk(nxt, i, s)].is_none(),
    ensures
        follow(raw, env, names[i], s) == Some(names[walk(nxt, i, s)]),
    decreases s,
{
    let _ = nxt[i];
    if s > 0 {
        match nxt[i] {
            Some(j) => {
                lemma_walk_follow(raw, env, names, nxt, j as int, (s - 1) as nat);
            },
            None => {},
        }
    }
}

proof fn lemma_follow_more(
    raw: Map<Seq<char>, Seq<char>>,
    env: Map<Seq<char>, Seq<char>>,
    k: Seq<char>,
    f: nat,
    g: nat,
)
    requires
        follow(raw, env, k, f).is_some(),
        f <= g,
    ensures
        follow(raw, env, k, g) == follow(raw, env, k, f),
    decreases f,
{
    match alias_of(raw, env, k) {
        Some(t) => lemma_follow_more(raw, env, t, (f - 1) as nat, (g - 1) as nat),
        None => {},
    }
}

/// Once the chain from `k` ends, its end is the terminal name of `k`.
pub proof fn lemma_terminal(
    raw: Map<Seq<char>, Seq<char>>,
    env: Map<Seq<char>, Seq<char>>,
    k: Seq<char>,
    f: nat,
)
    requires
        follow(raw, env, k, f).is_some(),
    ensures
        terminal(raw, env, k) == follow(raw, env, k, f),
{
    let c = choose|g: nat| #[trigger] follow(raw, env, k, g).is_some();
    if c <= f {
        lemma_follow_more(raw, env, k, c, f);
    } else {
        lemma_follow_more(raw, env, k, f, c);
    }
}


pub open spec fn names_view(names: Seq<String>) -> Seq<Seq<char>> {
    names.map_values(|s: String| s@)
}

/// `names` lists each name defined in `raw` or `env` exactly once, those of `raw` first and in
/// their order.
pub open spec fn names_cover(
    raw: Seq<(String, String)>,
    rm: Map<Seq<char>, Seq<char>>,
    em: Map<Seq<char>, Seq<char>>,
    names: Seq<String>,
) -> bool {
    &&& raw.len() <= names.len()
    &&& forall|j: int| 0 <= j < raw.len() ==> #[trigger] names[j]@ == raw[j].0@
    &&& forall|j: int| raw.len() <= j < names.len() ==> !rm.contains_key(#[trigger] names[j]@)
    &&& forall|i: int, j: int| 0 <= i < j < names.len() ==> names[i]@ != names[j]@
    &&& forall|k: Seq<char>|
        #![trigger rm.contains_key(k)]
        #![trigger em.contains_key(k)]
        (rm.contains_key(k) || em.contains_key(k)) <==> exists|j: int| 0 <= j < names.len() && #[trigger] names[j]@ == k
}

/// The names of `raw`, then those of `env` that `raw` lacks.
fn collect_names(raw: &Vec<(String, String)>, env: &Vec<(String, String)>) -> (names: Vec<String>)
    requires
        keys_distinct(pairs_view(raw@)),
    ensures
        names_cover(raw@, map_of(pairs_view(raw@)), map_of(pairs_view(env@)), names@),
{
    let ghost rm = map_of(pairs_view(raw@));
    let ghost em = map_of(pairs_view(env@));
    let nr = raw.len();
    let mut names: Vec<String> = Vec::new();
    let mut i: usize = 0;
    while i < nr
        invariant
            nr == raw@.len(),
            i <= nr,
            names@.len() == i,
            forall|j: int| 0 <= j < i ==> #[trigger] names@[j]@ == raw@[j].0@,
        decreases nr - i,
    {
        names.push(raw[i].0.clone());
        i = i + 1;
    }
    assert forall|a: int, b: int| 0 <= a < b < names@.len() implies names@[a]@ != names@[b]@ by {
        assert(pairs_view(raw@)[a].0 != pairs_view(raw@)[b].0);
    }
    let mut e: usize = 0;
    while e < env.len()
        invariant
            nr == raw@.len(),
            nr <= names@.len(),
            e <= env@.len(),
            rm == map_of(pairs_view(raw@)),
            em == map_of(pairs_view(env@)),
            keys_distinct(pairs_view(raw@)),
            forall|j: int| 0 <= j < nr ==> #[trigger] names@[j]@ == raw@[j].0@,
            forall|j: int| nr <= j < names@.len() ==> !rm.contains_key(#[trigger] names@[j]@) && em.contains_key(names@[j]@),
            forall|a: int, b: int| 0 <= a < b < names@.len() ==> names@[a]@ != names@[b]@,
            forall|j: int| #![trigger env@[j]] 0 <= j < e ==> exists|m: int| 0 <= m < names@.len() && #[trigger] names@[m]@ == env@[j].0@,
        decreases env@.len() - e,
    {
        let ghost before = names@;
        let found = find_name(&names, env[e].0.as_str());
        match found {
            Some(_) => {},
            None => {
                proof {
                    let k = env@[e as int].0@;
                    assert(pairs_view(env@)[e as int].0 == k);
                    if rm.contains_key(k) {
                        lemma_map_of_dom(pairs_view(raw@), k);
                        let c = choose|c: int| 0 <= c < pairs_view(raw@).len() && pairs_view(raw@)[c].0 == k;
                        assert(pairs_view(raw@)[c].0 == raw@[c].0@);
                        assert(names@[c]@ == k);
                    }
                }
                names.push(env[e].0.clone());
            },
        }
        proof {
            assert forall|j: int| #![trigger env@[j]] 0 <= j < e + 1 implies exists|m: int| 0 <= m < names@.len() && #[trigger] names@[m]@ == env@[j].0@ by {
                if j < e {
                    let m = choose|m: int| 0 <= m < before.len() && #[trigger] before[m]@ == env@[j].0@;
                    assert(names@[m] == before[m]);
                } else {
                    match found {
                        Some(m) => assert(names@[m as int]@ == env@[j].0@),
                        None => assert(names@[names@.len() - 1]@ == env@[j].0@),
                    }
                }
            }
        }
        e = e + 1;
    }
    proof {
        assert forall|k: Seq<char>|
            (rm.contains_key(k) || em.contains_key(k)) <==> exists|j: int| 0 <= j < names@.len() && #[trigger] names@[j]@ == k by {
            if rm.contains_key(k) {
                let c = choose|c: int| 0 <= c < pairs_view(raw@).len() && pairs_view(raw@)[c].0 == k;
                assert(names@[c]@ == k);
            } else if em.contains_key(k) {
                let c = choose|c: int| 0 <= c < pairs_view(env@).len() && pairs_view(env@)[c].0 == k;
                assert(env@[c].0@ == k);
            }
            if exists|j: int| 0 <= j < names@.len() && #[trigger] names@[j]@ == k {
                let j = choose|j: int| 0 <= j < names@.len() && #[trigger] names@[j]@ == k;
                if j < nr {
                    assert(pairs_view(raw@)[j].0 == k);
                }
            }
        }
    }
    names
}

/// For each name, the index of the name that its raw value aliases.
fn alias_targets(raw: &Vec<(String, String)>, env: &Vec<(String, String)>, names: &Vec<String>) -> (targets: Vec<Option<usize>>)
    requires
        keys_distinct(pairs_view(raw@)),
        names_cover(raw@, map_of(pairs_view(raw@)), map_of(pairs_view(env@)), names@),
    ensures
        links(map_of(pairs_view(raw@)), map_of(pairs_view(env@)), names_view(names@), targets@),
{
    let ghost rm = map_of(pairs_view(raw@));
    let ghost em = map_of(pairs_view(env@));
    let ghost nv = names_view(names@);
    let nr = raw.len();
    let total = names.len();
    let mut targets: Vec<Option<usize>> = Vec::new();
    let mut k: usize = 0;
    while k < total
        invariant
            nr == raw@.len(),
            total == names@.len(),
            nv == names_view(names@),
            rm == map_of(pairs_view(raw@)),
            em == map_of(pairs_view(env@)),
            k <= total,
            targets@.len() == k,
            keys_distinct(pairs_view(raw@)),
            names_cover(raw@, map_of(pairs_view(raw@)), map_of(pairs_view(env@)), names@),
            forall|i: int|
                0 <= i < k ==> match #[trigger] targets@[i] {
                    Some(j) => j < nv.len() && alias_of(rm, em, nv[i]) == Some(nv[j as int]),
                    None => alias_of(rm, em, nv[i]).is_none(),
                },
        decreases total - k,
    {
        let mut t: Option<usize> = None;
        if k < nr {
            let v = raw[k].1.as_str();
            let n = v.unicode_len();
            proof {
                lemma_map_of_index(pairs_view(raw@), k as int);
                assert(nv[k as int] == raw@[k as int].0@);
            }
            if n > 0 && v.get_char(0) == '@' {
                let rest = v.substring_char(1, n);
                assert(rest@ == v@.drop_first());
                t = find_name(names, rest);
                proof {
                    if let Some(j) = t {
                        assert(nv[j as int] == rest@);
                        assert(exists|m: int| 0 <= m < names@.len() && #[trigger] names@[m]@ == rest@);
                    } else {
                        if rm.contains_key(rest@) || em.contains_key(rest@) {
                            let m = choose|m: int| 0 <= m < names@.len() && #[trigger] names@[m]@ == rest@;
                            assert(names@[m]@ == rest@);
                        }
                    }
                }
            }
        } else {
            proof {
                assert(nr <= k < names@.len());
                assert(!rm.contains_key(names@[k as int]@));
            }
        }
        targets.push(t);
        proof {
            assert(targets@[k as int] == t);
        }
        k = k + 1;
    }
    targets
}

/// An index without an alias among the first `k` processed, or not yet processed.
pub open spec fn free(nxt: Seq<Option<usize>>, k: int, t: int) -> bool {
    t >= k || nxt[t].is_none()
}

/// Joins, in a union-find over the names, each name with the name it aliases.
#[verifier::rlimit(100)]
fn join_aliases(targets: &Vec<Option<usize>>) -> (set: DisjointSet)
    requires
        forall|k: int| 0 <= k < targets@.len() ==> match #[trigger] targets@[k] {
            Some(j) => j < targets@.len(),
            None => true,
        },
    ensures
        set.wf(),
        set.len() == targets@.len(),
        forall|k: int| 0 <= k < targets@.len() ==> match #[trigger] targets@[k] {
            Some(j) => set.reps()[k] == set.reps()[j as int],
            None => true,
        },
        forall|x: int, t: int|
            #![trigger set.reps()[x], set.reps()[t]]
            0 <= x < targets@.len() && 0 <= t < targets@.len() && set.reps()[x] == set.reps()[t]
                && targets@[t].is_none() ==> exists|s: nat| #[trigger] walk(targets@, x, s) == t,
{
    let total = targets.len();
    let ghost nxt = targets@;
    let mut set = DisjointSet::new(total);
    proof {
        set.lemma_reps();
        assert forall|x: int, t: int|
            #![trigger set.reps()[x], set.reps()[t]]
            0 <= x < total && 0 <= t < total && set.reps()[x] == set.reps()[t] && free(nxt, 0, t)
                implies exists|s: nat| #[trigger] walk(nxt, x, s) == t by {
            assert(walk(nxt, x, 0) == x);
        }
    }
    let mut k: usize = 0;
    while k < total
        invariant
            total == nxt.len(),
            nxt == targets@,
            k <= total,
            set.wf(),
            set.len() == total,
            forall|k: int| 0 <= k < nxt.len() ==> match #[trigger] nxt[k] {
                Some(j) => j < nxt.len(),
                None => true,
            },
            forall|i: int| 0 <= i < k ==> match #[trigger] nxt[i] {
                Some(j) => set.reps()[i] == set.reps()[j as int],
                None => true,
            },
            forall|x: int, t: int|
                #![trigger set.reps()[x], set.reps()[t]]
                0 <= x < total && 0 <= t < total && set.reps()[x] == set.reps()[t] && free(nxt, k as int, t)
                    ==> exists|s: nat| #[trigger] walk(nxt, x, s) == t,
            forall|a: int, b: int|
                #![trigger set.reps()[a], set.reps()[b]]
                0 <= a < total && 0 <= b < total && set.reps()[a] == set.reps()[b] && free(nxt, k as int, a)
                    && free(nxt, k as int, b) ==> a == b,
        decreases total - k,
    {
        let ghost old_reps = set.reps();
        proof {
            set.lemma_reps();
        }
        match targets[k] {
            Some(j) => {
                assert(nxt[k as int] == Some(j));
                set.merge(j, k);
                proof {
                    let ry = old_reps[j as int];
                    let rk = old_reps[k as int];
                    let new_reps = set.reps();
                    set.lemma_reps();
                    assert(walk(nxt, j as int, 0) == j);
                    assert(walk(nxt, k as int, 1) == j);
                    assert forall|x: int| 0 <= x < total implies #[trigger] new_reps[x] == (if old_reps[x] == ry
                        || old_reps[x] == rk {
                        new_reps[k as int]
                    } else {
                        old_reps[x]
                    }) by {}
                    assert forall|x: int, t: int|
                        #![trigger new_reps[x], new_reps[t]]
                        0 <= x < total && 0 <= t < total && new_reps[x] == new_reps[t] && free(nxt, k + 1, t)
                            implies exists|s: nat| #[trigger] walk(nxt, x, s) == t by {
                        assert(free(nxt, k as int, t));
                        if old_reps[x] == old_reps[t] {
                        } else {
                            assert(free(nxt, k as int, k as int));
                            if old_reps[t] == rk {
                                assert(t == k);
                            } else {
                                assert(old_reps[t] == ry && old_reps[x] == rk);
                                let s1 = choose|s: nat| #[trigger] walk(nxt, x, s) == k;
                                let s2 = choose|s: nat| #[trigger] walk(nxt, j as int, s) == t;
                                lemma_walk_add(nxt, x, s1, 1 + s2);
                                lemma_walk_add(nxt, k as int, 1, s2);
                            }
                        }
                    }
                    assert forall|a: int, b: int|
                        #![trigger new_reps[a], new_reps[b]]
                        0 <= a < total && 0 <= b < total && new_reps[a] == new_reps[b] && free(nxt, k + 1, a)
                            && free(nxt, k + 1, b) implies a == b by {
                        assert(free(nxt, k as int, a) && free(nxt, k as int, b));
                        assert(free(nxt, k as int, k as int));
                        if old_reps[a] != old_reps[b] {
                            if old_reps[a] == rk {
                                assert(a == k);
                            } else {
                                assert(old_reps[b] == rk);
                                assert(b == k);
                            }
                        }
                    }
                    assert forall|i: int| 0 <= i < k + 1 implies match #[trigger] nxt[i] {
                        Some(j) => new_reps[i] == new_reps[j as int],
                        None => true,
                    } by {
                        if i < k {
                            match nxt[i] {
                                Some(m) => {
                                    assert(old_reps[i] == old_reps[m as int]);
                                },
                                None => {},
                            }
                        }
                    }
                }
            },
            None => {
                proof {
                    assert forall|x: int, t: int|
                        #![trigger set.reps()[x], set.reps()[t]]
                        0 <= x < total && 0 <= t < total && set.reps()[x] == set.reps()[t] && free(nxt, k + 1, t)
                            implies exists|s: nat| #[trigger] walk(nxt, x, s) == t by {
                        assert(free(nxt, k as int, t));
                    }
                    assert forall|a: int, b: int|
                        #![trigger set.reps()[a], set.reps()[b]]
                        0 <= a < total && 0 <= b < total && set.reps()[a] == set.reps()[b] && free(nxt, k + 1, a)
                            && free(nxt, k + 1, b) implies a == b by {
                        assert(free(nxt, k as int, a) && free(nxt, k as int, b));
                    }
                }
            },
        }
        k = k + 1;
    }
    proof {
        assert forall|x: int, t: int|
            #![trigger set.reps()[x], set.reps()[t]]
            0 <= x < total && 0 <= t < total && set.reps()[x] == set.reps()[t] && targets@[t].is_none()
                implies exists|s: nat| #[trigger] walk(targets@, x, s) == t by {
            assert(free(nxt, k as int, t));
        }
    }
    set
}

/// For each representative, the member of its class that aliases nothing, if there is one.
fn class_ends(targets: &Vec<Option<usize>>, set: &mut DisjointSet) -> (ends: Vec<Option<usize>>)
    requires
        old(set).wf(),
        old(set).len() == targets@.len(),
    ensures
        final(set).wf(),
        final(set).len() == old(set).len(),
        final(set).reps() == old(set).reps(),
        ends@.len() == targets@.len(),
        forall|r: int| 0 <= r < ends@.len() ==> match #[trigger] ends@[r] {
            Some(t) => t < targets@.len() && targets@[t as int].is_none() && old(set).reps()[t as int] == r,
            None => true,
        },
        forall|t: int|
            0 <= t < targets@.len() && targets@[t].is_none() ==> (#[trigger] ends@[old(set).reps()[t]]).is_some(),
{
    let total = targets.len();
    let ghost reps = set.reps();
    proof {
        set.lemma_reps();
    }
    let mut ends: Vec<Option<usize>> = Vec::new();
    let mut i: usize = 0;
    while i < total
        invariant
            i <= total,
            ends@.len() == i,
            forall|r: int| 0 <= r < i ==> ends@[r].is_none(),
        decreases total - i,
    {
        ends.push(None);
        i = i + 1;
    }
    let mut t: usize = 0;
    while t < total
        invariant
            total == targets@.len(),
            t <= total,
            set.wf(),
            set.len() == total,
            set.reps() == reps,
            reps.len() == total,
            forall|i: int| 0 <= i < total ==> 0 <= #[trigger] reps[i] < total,
            ends@.len() == total,
            forall|r: int| 0 <= r < total ==> match #[trigger] ends@[r] {
                Some(e) => e < total && targets@[e as int].is_none() && reps[e as int] == r,
                None => true,
            },
            forall|u: int| 0 <= u < t && targets@[u].is_none() ==> (#[trigger] ends@[reps[u]]).is_some(),
        decreases total - t,
    {
        if targets[t].is_none() {
            let r = set.root(t);
            ends.set(r, Some(t));
            proof {
                assert forall|u: int| 0 <= u < t + 1 && targets@[u].is_none() implies (#[trigger] ends@[reps[u]]).is_some() by {
                    if reps[u] != r {
                        let _ = reps[u];
                    }
                }
            }
        }
        t = t + 1;
    }
    ends
}



/// Two lists with distinct names that hold the same pairs stand for the same mapping.
pub proof fn lemma_map_of_permutation(s1: Seq<(Seq<char>, Seq<char>)>, s2: Seq<(Seq<char>, Seq<char>)>)
    requires
        keys_distinct(s1),
        s1.to_multiset() == s2.to_multiset(),
    ensures
        map_of(s1) == map_of(s2),
{
    assert forall|k: Seq<char>| #[trigger] map_of(s1).contains_key(k) <==> map_of(s2).contains_key(k) by {
        lemma_map_of_dom(s1, k);
        lemma_map_of_dom(s2, k);
        if map_of(s1).contains_key(k) {
            let i = choose|i: int| 0 <= i < s1.len() && s1[i].0 == k;
            vstd::seq_lib::to_multiset_contains(s1, s1[i]);
            vstd::seq_lib::to_multiset_contains(s2, s1[i]);
            assert(s1.contains(s1[i]));
            let j = choose|j: int| 0 <= j < s2.len() && s2[j] == s1[i];
            assert(s2[j].0 == k);
        }
        if map_of(s2).contains_key(k) {
            let j = choose|j: int| 0 <= j < s2.len() && s2[j].0 == k;
            vstd::seq_lib::to_multiset_contains(s1, s2[j]);
            vstd::seq_lib::to_multiset_contains(s2, s2[j]);
            assert(s2.contains(s2[j]));
            let i = choose|i: int| 0 <= i < s1.len() && s1[i] == s2[j];
            assert(s1[i].0 == k);
        }
    }
    assert forall|k: Seq<char>| #[trigger] map_of(s1).contains_key(k) implies map_of(s1)[k] == map_of(s2)[k] by {
        lemma_map_of_dom(s2, k);
        let j = choose|j: int| 0 <= j < s2.len() && s2[j].0 == k;
        vstd::seq_lib::to_multiset_contains(s1, s2[j]);
        vstd::seq_lib::to_multiset_contains(s2, s2[j]);
        assert(s2.contains(s2[j]));
        let i = choose|i: int| 0 <= i < s1.len() && s1[i] == s2[j];
        lemma_map_of_index(s1, i);
    }
    assert(map_of(s1) =~= map_of(s2));
}

/// Listing the definitions, or the environment, in another order never changes what any name
/// resolves to.
pub proof fn lemma_order_independent(
    raw1: Seq<(String, String)>,
    raw2: Seq<(String, String)>,
    env1: Seq<(String, String)>,
    env2: Seq<(String, String)>,
)
    requires
        keys_distinct(pairs_view(raw1)),
        keys_distinct(pairs_view(env1)),
        pairs_view(raw1).to_multiset() == pairs_view(raw2).to_multiset(),
        pairs_view(env1).to_multiset() == pairs_view(env2).to_multiset(),
    ensures
        resolve(map_of(pairs_view(raw1)), map_of(pairs_view(env1))) == resolve(
            map_of(pairs_view(raw2)),
            map_of(pairs_view(env2)),
        ),
{
    lemma_map_of_permutation(pairs_view(raw1), pairs_view(raw2));
    lemma_map_of_permutation(pairs_view(env1), pairs_view(env2));
}

/// A name that the environment defines resolves to the environment's value, whatever the
/// definitions say.
pub proof fn lemma_environment_wins(
    raw: Map<Seq<char>, Seq<char>>,
    env: Map<Seq<char>, Seq<char>>,
    k: Seq<char>,
)
    requires
        env.contains_key(k),
    ensures
        resolve(raw, env).contains_key(k),
        resolve(raw, env)[k] == Some(env[k]),
{
}

/// A name that aliases another, neither of them in the environment, resolves as that other
/// name does: a whole chain shares one value, and a cycle is unresolved throughout.
pub proof fn lemma_alias_resolves_like_target(
    raw: Map<Seq<char>, Seq<char>>,
    env: Map<Seq<char>, Seq<char>>,
    k: Seq<char>,
    t: Seq<char>,
)
    requires
        alias_of(raw, env, k) == Some(t),
        !env.contains_key(k),
        !env.contains_key(t),
    ensures
        resolve(raw, env).contains_key(k),
        resolve(raw, env).contains_key(t),
        resolve(raw, env)[k] == resolve(raw, env)[t],
{
    if exists|f: nat| #[trigger] follow(raw, env, t, f).is_some() {
        let f = choose|f: nat| #[trigger] follow(raw, env, t, f).is_some();
        assert(follow(raw, env, k, f + 1) == follow(raw, env, t, f));
        lemma_terminal(raw, env, t, f);
        lemma_terminal(raw, env, k, f + 1);
    } else if exists|f: nat| #[trigger] follow(raw, env, k, f).is_some() {
        let f = choose|f: nat| #[trigger] follow(raw, env, k, f).is_some();
        assert(f > 0);
        assert(follow(raw, env, t, (f - 1) as nat) == follow(raw, env, k, f));
    }
}

pub open spec fn entries_view(s: Seq<(String, Resolution)>) -> Seq<(Seq<char>, Option<Seq<char>>)> {
    s.map_values(|e: (String, Resolution)| (e.0@, resolution_view(e.1)))
}

/// Variables with their aliases followed and the environment laid over them.
#[derive(Debug)]
pub struct Variables {
    entries: Vec<(String, Resolution)>,
}

impl View for Variables {
    type V = Map<Seq<char>, Option<Seq<char>>>;

    closed spec fn view(&self) -> Map<Seq<char>, Option<Seq<char>>> {
        map_of(entries_view(self.entries@))
    }
}

impl Variables {
    pub closed spec fn wf(&self) -> bool {
        keys_distinct(entries_view(self.entries@))
    }

    /// Resolves the definitions `raw` against the environment `env`: each name takes the value
    /// at the end of its alias chain, a name of the environment its value there, and a name
    /// whose chain runs round a cycle, or ends in an alias of an undefined name, stays unresolved.
    pub fn new(raw: &Vec<(String, String)>, env: &Vec<(String, String)>) -> (r: Variables)
        requires
            keys_distinct(pairs_view(raw@)),
            keys_distinct(pairs_view(env@)),
        ensures
            r.wf(),
            r@ == resolve(map_of(pairs_view(raw@)), map_of(pairs_view(env@))),
    {
        let ghost rm = map_of(pairs_view(raw@));
        let ghost em = map_of(pairs_view(env@));
        let names = collect_names(raw, env);
        let ghost nv = names_view(names@);
        let targets = alias_targets(raw, env, &names);
        let mut set = join_aliases(&targets);
        let ghost reps = set.reps();
        let ends = class_ends(&targets, &mut set);
        proof {
            set.lemma_reps();
        }
        let nr = raw.len();
        let total = names.len();
        let mut entries: Vec<(String, Resolution)> = Vec::new();
        let mut i: usize = 0;
        while i < total
            invariant
                nr == raw@.len(),
                total == names@.len(),
                total == targets@.len(),
                i <= total,
                entries@.len() == i,
                rm == map_of(pairs_view(raw@)),
                em == map_of(pairs_view(env@)),
                nv == names_view(names@),
                keys_distinct(pairs_view(raw@)),
                keys_distinct(pairs_view(env@)),
                names_cover(raw@, rm, em, names@),
                links(rm, em, nv, targets@),
                set.wf(),
                set.len() == total,
                set.reps() == reps,
                reps.len() == total,
                forall|i: int| 0 <= i < total ==> 0 <= #[trigger] reps[i] < total,
                forall|k: int| 0 <= k < total ==> match #[trigger] targets@[k] {
                    Some(j) => reps[k] == reps[j as int],
                    None => true,
                },
                forall|x: int, t: int|
                    #![trigger reps[x], reps[t]]
                    0 <= x < total && 0 <= t < total && reps[x] == reps[t] && targets@[t].is_none() ==>
                        exists|s: nat| #[trigger] walk(targets@, x, s) == t,
                ends@.len() == total,
                forall|r: int| 0 <= r < total ==> match #[trigger] ends@[r] {
                    Some(t) => t < total && targets@[t as int].is_none() && reps[t as int] == r,
                    None => true,
                },
                forall|t: int| 0 <= t < total && targets@[t].is_none() ==> (#[trigger] ends@[reps[t]]).is_some(),
                forall|m: int| 0 <= m < i ==> (#[trigger] entries@[m]).0@ == names@[m]@
                    && resolution_view(entries@[m].1) == resolved_value(rm, em, names@[m]@),
            decreases total - i,
        {
            let res = match find_key(env, names[i].as_str()) {
                Some(e) => {
                    proof {
                        lemma_map_of_index(pairs_view(env@), e as int);
                    }
                    Resolution::Value(env[e].1.clone())
                },
                None => {
                    proof {
                        lemma_map_of_dom(pairs_view(env@), names@[i as int]@);
                    }
                    let c = set.root(i);
                    match ends[c] {
                        None => {
                            proof {
                                let k = nv[i as int];
                                if exists|f: nat| #[trigger] follow(rm, em, k, f).is_some() {
                                    let f = choose|f: nat| #[trigger] follow(rm, em, k, f).is_some();
                                    lemma_follow_walk(rm, em, nv, targets@, i as int, f);
                                    lemma_walk_rep(targets@, reps, i as int, f);
                                    let w = walk(targets@, i as int, f);
                                    assert(ends@[reps[w]].is_some());
                                }
                            }
                            Resolution::Unresolved
                        },
                        Some(r) => {
                            assert(reps[i as int] == reps[r as int]);
                            let ghost s = choose|s: nat| #[trigger] walk(targets@, i as int, s) == r;
                            proof {
                                lemma_walk_follow(rm, em, nv, targets@, i as int, s);
                                lemma_terminal(rm, em, nv[i as int], s);
                            }
                            if r < nr {
                                proof {
                                    lemma_map_of_index(pairs_view(raw@), r as int);
                                }
                                let v = raw[r].1.as_str();
                                if v.unicode_len() > 0 && v.get_char(0) == '@' {
                                    Resolution::Unresolved
                                } else {
                                    Resolution::Value(raw[r].1.clone())
                                }
                            } else {
                                match find_key(env, names[r].as_str()) {
                                    Some(e) => {
                                        proof {
                                            lemma_map_of_index(pairs_view(env@), e as int);
                                        }
                                        Resolution::Value(env[e].1.clone())
                                    },
                                    None => {
                                        proof {
                                            lemma_map_of_dom(pairs_view(env@), names@[r as int]@);
                                            assert(exists|j: int| 0 <= j < names@.len() && #[trigger] names@[j]@ == names@[r as int]@);
                                        }
                                        Resolution::Unresolved
                                    },
                                }
                            }
                        },
                    }
                },
            };
            entries.push((names[i].clone(), res));
            i = i + 1;
        }
        proof {
            let ev = entries_view(entries@);
            assert forall|a: int, b: int| 0 <= a < b < ev.len() implies ev[a].0 != ev[b].0 by {
                assert(entries@[a].0@ == names@[a]@);
                assert(entries@[b].0@ == names@[b]@);
            }
            assert forall|k: Seq<char>| #[trigger] map_of(ev).contains_key(k) <==> resolve(rm, em).contains_key(k) by {
                lemma_map_of_dom(ev, k);
                if exists|j: int| 0 <= j < names@.len() && #[trigger] names@[j]@ == k {
                    let j = choose|j: int| 0 <= j < names@.len() && #[trigger] names@[j]@ == k;
                    assert(ev[j].0 == k);
                }
                if map_of(ev).contains_key(k) {
                    let j = choose|j: int| 0 <= j < ev.len() && ev[j].0 == k;
                    assert(entries@[j].0@ == names@[j]@);
                }
            }
            assert forall|k: Seq<char>| #[trigger] map_of(ev).contains_key(k) implies map_of(ev)[k] == resolve(rm, em)[k] by {
                lemma_map_of_dom(ev, k);
                let j = choose|j: int| 0 <= j < ev.len() && ev[j].0 == k;
                lemma_map_of_index(ev, j);
                assert(entries@[j].0@ == names@[j]@);
            }
            assert(map_of(ev) =~= resolve(rm, em));
        }
        Variables { entries }
    }

    /// What `name` resolves to, if it is defined.
    pub fn get(&self, name: &str) -> (r: Option<&Resolution>)
        requires
            self.wf(),
        ensures
            match r {
                Some(v) => self@.contains_key(name@) && self@[name@] == resolution_view(*v),
                None => !self@.contains_key(name@),
            },
    {
        let mut i: usize = 0;
        while i < self.entries.len()
            invariant
                self.wf(),
                i <= self.entries@.len(),
                forall|j: int| 0 <= j < i ==> self.entries@[j].0@ != name@,
            decreases self.entries@.len() - i,
        {
            if same_text(self.entries[i].0.as_str(), name) {
                proof {
                    lemma_map_of_index(entries_view(self.entries@), i as int);
                }
                return Some(&self.entries[i].1);
            }
            i = i + 1;
        }
        proof {
            lemma_map_of_dom(entries_view(self.entries@), name@);
            if self@.contains_key(name@) {
                let j = choose|j: int| 0 <= j < self.entries@.len() && entries_view(self.entries@)[j].0 == name@;
                assert(self.entries@[j].0@ == name@);
            }
        }
        None
    }

    /// The value of `name`, if it is defined and resolved.
    pub fn value(&self, name: &str) -> (r: Option<&String>)
        requires
            self.wf(),
        ensures
            match r {
                Some(v) => self@.contains_key(name@) && self@[name@] == Some(v@),
                None => !self@.contains_key(name@) || self@[name@].is_none(),
            },
    {
        match self.get(name) {
            Some(Resolution::Value(v)) => Some(v),
            _ => None,
        }
    }
}

} // verus!
