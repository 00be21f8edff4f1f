use vstd::prelude::*;
use vstd::set_lib::{lemma_int_range, lemma_len_subset, lemma_set_disjoint_lens, set_int_range};

verus! {

/// A slot of the forest: a root carries the size of its class, a child its parent.
#[derive(Clone, Copy, Debug)]
pub enum Node {
    Root(usize),
    Child(usize),
}

/// Union-find over the indices `0..len`, with path compression.
pub struct DisjointSet {
    elements: Vec<Node>,
    /// Representative of each index.
    reps: Ghost<Seq<int>>,
    /// Strictly increases from a child to its parent; bounds the walk to the root.
    rank: Ghost<Seq<nat>>,
}

/// The indices whose representative is `r`.
pub open spec fn class_of(reps: Seq<int>, r: int) -> Set<int> {
    Set::new(|i: int| 0 <= i < reps.len() && reps[i] == r)
}

impl DisjointSet {
    /// Representative of each index.
    pub closed spec fn reps(&self) -> Seq<int> {
        self.reps@
    }

    pub closed spec fn wf(&self) -> bool {
        let n = self.elements@.len();
        &&& self.reps@.len() == n
        &&& self.rank@.len() == n
        &&& forall|i: int| 0 <= i < n ==> 0 <= #[trigger] self.reps@[i] < n
        &&& forall|i: int| 0 <= i < n ==> self.reps@[self.reps@[i]] == self.reps@[i]
        &&& forall|i: int|
            0 <= i < n ==> match #[trigger] self.elements@[i] {
                Node::Root(s) => self.reps@[i] == i && s == class_of(self.reps@, i).len(),
                Node::Child(p) => {
                    &&& 0 <= p < n
                    &&& self.reps@[i] != i
                    &&& self.reps@[p as int] == self.reps@[i]
                    &&& self.rank@[p as int] > self.rank@[i]
                    &&& self.rank@[self.reps@[i]] > self.rank@[i]
                },
            }
    }

    /// Number of indices.
    pub closed spec fn len(&self) -> nat {
        self.elements@.len()
    }

    /// Each index has a representative, which represents itself.
    pub proof fn lemma_reps(&self)
        requires
            self.wf(),
        ensures
            self.reps().len() == self.len(),
            forall|i: int| 0 <= i < self.len() ==> 0 <= #[trigger] self.reps()[i] < self.len(),
            forall|i: int| 0 <= i < self.len() ==> self.reps()[#[trigger] self.reps()[i]] == self.reps()[i],
    {
    }

    /// Makes `size` singleton classes.
    pub fn new(size: usize) -> (r: DisjointSet)
        ensures
            r.wf(),
            r.len() == size,
            forall|i: int| 0 <= i < size ==> r.reps()[i] == i,
    {
        let mut elements: Vec<Node> = Vec::with_capacity(size);
        let ghost reps = Seq::new(size as nat, |i: int| i);
        let ghost rank = Seq::new(size as nat, |i: int| 0nat);
        let mut k: usize = 0;
        while k < size
            invariant
                k <= size,
                elements@.len() == k,
                forall|i: int| 0 <= i < k ==> elements@[i] == Node::Root(1),
            decreases size - k,
        {
            elements.push(Node::Root(1));
            k = k + 1;
        }
        proof {
            assert forall|i: int| 0 <= i < size implies class_of(reps, i).len() == 1 by {
                assert(class_of(reps, i) =~= set![i]);
            }
        }
        DisjointSet { elements, reps: Ghost(reps), rank: Ghost(rank) }
    }

    /// Finds the representative of `n`, then points every index on the way straight at it.
    pub fn root(&mut self, n: usize) -> (r: usize)
        requires
            old(self).wf(),
            n < old(self).len(),
        ensures
            final(self).wf(),
            final(self).len() == old(self).len(),
            final(self).reps() == old(self).reps(),
            r == old(self).reps()[n as int],
    {
        let ghost len = self.elements@.len();
        let mut cur: usize = n;
        loop
            invariant
                self.wf(),
                self.elements@.len() == len,
                cur < len,
                n < len,
                self.reps@[cur as int] == self.reps@[n as int],
            ensures
                self.wf(),
                cur == self.reps@[n as int],
            decreases self.rank@[self.reps@[n as int]] - self.rank@[cur as int],
        {
            match self.elements[cur] {
                Node::Root(_) => {
                    break ;
                },
                Node::Child(p) => {
                    assert(self.elements@[cur as int] == Node::Child(p));
                    assert(self.rank@[self.reps@[n as int]] >= self.rank@[p as int]) by {
                        let _ = self.elements@[p as int];
                    }
                    cur = p;
                },
            }
        }
        let r = cur;
        let mut cur: usize = n;
        loop
            invariant
                self.wf(),
                self.elements@.len() == len,
                self.reps@ == old(self).reps@,
                cur < len,
                n < len,
                r == self.reps@[n as int],
                self.reps@[cur as int] == r,
            decreases self.rank@[r as int] - self.rank@[cur as int],
        {
            match self.elements[cur] {
                Node::Root(_) => {
                    break ;
                },
                Node::Child(p) => {
                    assert(self.elements@[cur as int] == Node::Child(p));
                    assert(self.rank@[r as int] >= self.rank@[p as int]) by {
                        let _ = self.elements@[p as int];
                    }
                    self.elements.set(cur, Node::Child(r));
                    cur = p;
                },
            }
        }
        r
    }

    /// Size of the class of `n`.
    pub fn size(&mut self, n: usize) -> (s: usize)
        requires
            old(self).wf(),
            n < old(self).len(),
        ensures
            final(self).wf(),
            final(self).len() == old(self).len(),
            final(self).reps() == old(self).reps(),
            s == class_of(old(self).reps(), old(self).reps()[n as int]).len(),
    {
        let r = self.root(n);
        match self.elements[r] {
            Node::Root(s) => s,
            Node::Child(_) => {
                assert(false);
                0
            },
        }
    }

    /// Joins the classes of `n` and `m`, by size: the representative of the larger class, or of `n`'s
/// on a tie, represents the union.
    pub fn merge(&mut self, n: usize, m: usize)
        requires
            old(self).wf(),
            n < old(self).len(),
            m < old(self).len(),
        ensures
            final(self).wf(),
            final(self).len() == old(self).len(),
            final(self).reps() == joined(old(self).reps(), old(self).reps()[n as int], old(self).reps()[m as int]),
    {
        let a = self.root(n);
        let b = self.root(m);
        if a == b {
            proof {
                assert(self.reps@ =~= joined(self.reps@, a as int, b as int));
            }
            return ;
        }
        let sa = match self.elements[a] {
            Node::Root(s) => s,
            Node::Child(_) => 0,
        };
        let sb = match self.elements[b] {
            Node::Root(s) => s,
            Node::Child(_) => 0,
        };
        let total = self.elements.len();
        let ghost before = self.elements@;
        let ghost old_reps = self.reps@;
        let ghost old_rank = self.rank@;
        let ghost len = self.elements@.len();
        assert(sa == class_of(old_reps, a as int).len()) by {
            assert(match self.elements@[a as int] { Node::Root(_) => true, Node::Child(_) => false });
        }
        assert(sb == class_of(old_reps, b as int).len()) by {
            assert(match self.elements@[b as int] { Node::Root(_) => true, Node::Child(_) => false });
        }
        let (w, l, sw, sl) = if sa >= sb {
            (a, b, sa, sb)
        } else {
            (b, a, sb, sa)
        };
        assert(merged(old_reps, w as int, l as int) == joined(old_reps, a as int, b as int));
        let ghost new_reps = merged(old_reps, w as int, l as int);
        proof {
            let cw = class_of(old_reps, w as int);
            let cl = class_of(old_reps, l as int);
            lemma_int_range(0, len as int);
            lemma_len_subset(cw, set_int_range(0, len as int));
            lemma_len_subset(cl, set_int_range(0, len as int));
            lemma_len_subset(cw + cl, set_int_range(0, len as int));
            lemma_set_disjoint_lens(cw, cl);
            assert(cw.disjoint(cl));
            assert(class_of(new_reps, w as int) =~= cw + cl);
            assert forall|r: int| r != w && r != l implies class_of(new_reps, r) =~= class_of(old_reps, r) by {}
        }
        let ghost top: nat = if old_rank[w as int] > old_rank[l as int] {
            old_rank[w as int]
        } else {
            old_rank[l as int] + 1
        };
        self.elements.set(w, Node::Root(sw + sl));
        self.elements.set(l, Node::Child(w));
        self.reps = Ghost(new_reps);
        self.rank = Ghost(old_rank.update(w as int, top));
        proof {
            assert forall|i: int| 0 <= i < len implies match #[trigger] self.elements@[i] {
                Node::Root(s) => self.reps@[i] == i && s == class_of(self.reps@, i).len(),
                Node::Child(p) => {
                    &&& 0 <= p < len
                    &&& self.reps@[i] != i
                    &&& self.reps@[p as int] == self.reps@[i]
                    &&& self.rank@[p as int] > self.rank@[i]
                    &&& self.rank@[self.reps@[i]] > self.rank@[i]
                },
            } by {
                if i != w && i != l {
                    assert(before[i] == self.elements@[i]);
                    match self.elements@[i] {
                        Node::Root(s) => {
                            assert(class_of(new_reps, i) =~= class_of(old_reps, i));
                        },
                        Node::Child(p) => {
                            assert(old_reps[i] != i);
                        },
                    }
                }
            }
        }
    }
}

/// Representatives after the classes of `a` and `b` join: the larger class keeps its
/// representative, `a` on a tie.
pub open spec fn joined(reps: Seq<int>, a: int, b: int) -> Seq<int> {
    if class_of(reps, a).len() >= class_of(reps, b).len() {
        merged(reps, a, b)
    } else {
        merged(reps, b, a)
    }
}

/// Representatives after the class of `b` joins the class of `a`.
pub open spec fn merged(reps: Seq<int>, a: int, b: int) -> Seq<int> {
    Seq::new(reps.len(), |i: int| if reps[i] == b { a } else { reps[i] })
}

} // verus!
