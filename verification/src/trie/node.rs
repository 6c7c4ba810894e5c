use vstd::prelude::*;

verus! {

/// A single trie vertex: an association from characters to exclusively
/// owned child nodes, plus whether the path from the root to this node
/// spells a stored word.
#[derive(Debug)]
pub struct Node {
    pub nodes: Vec<(char, Node)>,
    pub is_word: bool,
}

impl Node {
    /// No two children of this node share a character.
    pub open spec fn keys_distinct(self) -> bool {
        forall|i: int, j: int|
            0 <= i < j < self.nodes@.len() ==> (#[trigger] self.nodes@[i]).0 != (
            #[trigger] self.nodes@[j]).0
    }

    /// Well-formed: keys are distinct at this node and, recursively, in
    /// every child.
    pub open spec fn wf(self) -> bool
        decreases self,
    {
        &&& self.keys_distinct()
        &&& forall|k: int| 0 <= k < self.nodes@.len() ==> (#[trigger] self.nodes@[k]).1.wf()
    }

    /// Whether some child of this node is labeled `c`.
    pub open spec fn has_child(self, c: char) -> bool {
        exists|k: int| 0 <= k < self.nodes@.len() && (#[trigger] self.nodes@[k]).0 == c
    }

    /// The position of the child labeled `c` (meaningful under
    /// `keys_distinct` when `has_child(c)`).
    pub open spec fn child_index(self, c: char) -> int {
        choose|k: int| 0 <= k < self.nodes@.len() && (#[trigger] self.nodes@[k]).0 == c
    }

    /// The child labeled `c` itself.
    pub open spec fn child(self, c: char) -> Node {
        self.nodes@[self.child_index(c)].1
    }

    /// Whether the subtree rooted at this node stores the word `w`: the
    /// empty word when the node itself is terminal, and `c` followed by
    /// `u` when the child labeled `c` stores `u`.
    pub open spec fn has_word(self, w: Seq<char>) -> bool
        decreases w.len(),
    {
        if w.len() == 0 {
            self.is_word
        } else {
            exists|k: int|
                0 <= k < self.nodes@.len() && (#[trigger] self.nodes@[k]).0 == w[0]
                    && self.nodes@[k].1.has_word(w.drop_first())
        }
    }

    /// Creates a new Node with no children and `is_word` false.
    pub fn new() -> (n: Node)
        ensures
            n.nodes@.len() == 0,
            !n.is_word,
            n.wf(),
            forall|w: Seq<char>| !n.has_word(w),
    {
        let n = Node { nodes: Vec::new(), is_word: false };
        proof {
            assert forall|w: Seq<char>| !n.has_word(w) by {
                lemma_node_empty(n, w);
            }
        }
        n
    }

    /// The position of the child labeled `ch`, if there is one.
    fn find_child(&self, ch: char) -> (r: Option<usize>)
        ensures
            match r {
                Some(k) => k < self.nodes@.len() && self.nodes@[k as int].0 == ch,
                None => !self.has_child(ch),
            },
    {
        let mut k: usize = 0;
        while k < self.nodes.len()
            invariant
                k <= self.nodes@.len(),
                forall|j: int| 0 <= j < k ==> (#[trigger] self.nodes@[j]).0 != ch,
            decreases self.nodes@.len() - k,
        {
            if self.nodes[k].0 == ch {
                return Some(k);
            }
            k = k + 1;
        }
        None
    }

    /// Returns a reference to the child node held at the given letter.
    pub fn get_node(&self, ch: char) -> (r: Option<&Node>)
        requires
            self.keys_distinct(),
        ensures
            match r {
                Some(n) => self.has_child(ch) && *n == self.child(ch),
                None => !self.has_child(ch),
            },
    {
        match self.find_child(ch) {
            Some(k) => {
                proof {
                    lemma_child_index(*self, ch);
                }
                Some(&self.nodes[k].1)
            },
            None => None,
        }
    }

    /// If a child labeled `ch` already exists, returns a mutable
    /// reference to it; otherwise appends a fresh empty child labeled
    /// `ch` and returns a mutable reference to that.
    pub fn add_node(&mut self, ch: char) -> (child: &mut Node)
        requires
            old(self).keys_distinct(),
        ensures
            final(self).is_word == old(self).is_word,
            old(self).has_child(ch) ==> {
                &&& *child == old(self).child(ch)
                &&& final(self).nodes@ == old(self).nodes@.update(
                    old(self).child_index(ch),
                    (ch, *final(child)),
                )
            },
            !old(self).has_child(ch) ==> {
                &&& (*child).nodes@.len() == 0
                &&& !(*child).is_word
                &&& final(self).nodes@ == old(self).nodes@.push((ch, *final(child)))
            },
    {
        let idx = self.find_child(ch);
        match idx {
            Some(k) => {
                proof {
                    lemma_child_index(*self, ch);
                }
                &mut self.nodes[k].1
            },
            None => {
                self.nodes.push((ch, Node::new()));
                let m = self.nodes.len() - 1;
                &mut self.nodes[m].1
            },
        }
    }
}

impl Node {
    /// Inserts the suffix `w[i..]` below this node: follow or create the
    /// child edge for each character in order, then mark the final node
    /// terminal. Every word already stored stays stored.
    pub(crate) fn insert_suffix(&mut self, w: &Vec<char>, i: usize)
        requires
            old(self).wf(),
            i <= w@.len(),
        ensures
            final(self).wf(),
            forall|v: Seq<char>|
                final(self).has_word(v) <==> (old(self).has_word(v) || v == w@.skip(i as int)),
        decreases w@.len() - i,
    {
        if i == w.len() {
            self.is_word = true;
            proof {
                assert(w@.skip(i as int) =~= Seq::<char>::empty());
                assert forall|v: Seq<char>|
                    self.has_word(v) <==> (old(self).has_word(v) || v == w@.skip(i as int)) by {
                    if v.len() == 0 {
                        assert(v =~= w@.skip(i as int));
                        assert(self.has_word(v));
                    } else {
                        assert(v != w@.skip(i as int));
                        assert(self.nodes@ == old(self).nodes@);
                        if self.has_word(v) {
                            let k = choose|k: int|
                                0 <= k < self.nodes@.len() && (#[trigger] self.nodes@[k]).0 == v[0]
                                    && self.nodes@[k].1.has_word(v.drop_first());
                            assert(0 <= k < old(self).nodes@.len() && old(self).nodes@[k].0 == v[0]
                                && old(self).nodes@[k].1.has_word(v.drop_first()));
                            assert(old(self).has_word(v));
                        }
                        if old(self).has_word(v) {
                            let k = choose|k: int|
                                0 <= k < old(self).nodes@.len() && (#[trigger] old(
                                    self,
                                ).nodes@[k]).0 == v[0] && old(self).nodes@[k].1.has_word(
                                    v.drop_first(),
                                );
                            assert(0 <= k < self.nodes@.len() && self.nodes@[k].0 == v[0]
                                && self.nodes@[k].1.has_word(v.drop_first()));
                            assert(self.has_word(v));
                        }
                    }
                }
            }
        } else {
            let ghost pre = *self;
            let c = w[i];
            proof {
                if pre.has_child(c) {
                    lemma_child_index(pre, c);
                }
            }
            let child = self.add_node(c);
            let ghost mid = *child;
            proof {
                if pre.has_child(c) {
                    assert(mid == pre.child(c));
                    assert(mid.wf());
                } else {
                    assert(mid.wf());
                }
            }
            child.insert_suffix(w, i + 1);
            proof {
                let suf = w@.skip(i as int);
                let suf1 = w@.skip(i as int + 1);
                assert(suf.len() == w@.len() - i);
                assert(suf[0] == c);
                assert(suf.drop_first() =~= suf1);
                if pre.has_child(c) {
                    let k = pre.child_index(c);
                    lemma_child_index(pre, c);
                    let fc = self.nodes@[k].1;
                    assert(self.nodes@ == pre.nodes@.update(k, (c, fc)));
                    assert(fc.wf());
                    assert(forall|u: Seq<char>|
                        fc.has_word(u) <==> (mid.has_word(u) || u == suf1));
                    assert(self.keys_distinct()) by {
                        assert(forall|j: int|
                            0 <= j < self.nodes@.len() ==> (#[trigger] self.nodes@[j]).0
                                == pre.nodes@[j].0);
                    }
                    assert forall|j: int|
                        0 <= j < self.nodes@.len() implies (#[trigger] self.nodes@[j]).1.wf() by {
                        if j != k {
                            assert(self.nodes@[j] == pre.nodes@[j]);
                        }
                    }
                    assert(self.wf());
                    assert forall|v: Seq<char>|
                        self.has_word(v) <==> (pre.has_word(v) || v == suf) by {
                        if v.len() == 0 {
                            assert(self.is_word == pre.is_word);
                            assert(v != suf);
                        } else {
                            if v == suf {
                                assert(v[0] == c);
                                assert(v.drop_first() == suf1);
                                assert(fc.has_word(v.drop_first()));
                                assert(0 <= k < self.nodes@.len() && self.nodes@[k].0 == v[0]
                                    && self.nodes@[k].1.has_word(v.drop_first()));
                                assert(self.has_word(v));
                            }
                            if self.has_word(v) && v != suf {
                                let kk = choose|kk: int|
                                    0 <= kk < self.nodes@.len() && (#[trigger] self.nodes@[kk]).0
                                        == v[0] && self.nodes@[kk].1.has_word(v.drop_first());
                                if kk == k {
                                    assert(v[0] == c);
                                    assert(fc.has_word(v.drop_first()));
                                    if v.drop_first() == suf1 {
                                        lemma_cons_eq(v, suf);
                                    }
                                    assert(mid.has_word(v.drop_first()));
                                    assert(0 <= k < pre.nodes@.len() && pre.nodes@[k].0 == v[0]
                                        && pre.nodes@[k].1.has_word(v.drop_first()));
                                    assert(pre.has_word(v));
                                } else {
                                    assert(self.nodes@[kk] == pre.nodes@[kk]);
                                    assert(pre.has_word(v));
                                }
                            }
                            if pre.has_word(v) {
                                let kk = choose|kk: int|
                                    0 <= kk < pre.nodes@.len() && (#[trigger] pre.nodes@[kk]).0
                                        == v[0] && pre.nodes@[kk].1.has_word(v.drop_first());
                                if kk == k {
                                    assert(v[0] == c);
                                    assert(pre.nodes@[k].1 == mid);
                                    assert(fc.has_word(v.drop_first()));
                                    assert(0 <= k < self.nodes@.len() && self.nodes@[k].0 == v[0]
                                        && self.nodes@[k].1.has_word(v.drop_first()));
                                    assert(self.has_word(v));
                                } else {
                                    assert(self.nodes@[kk] == pre.nodes@[kk]);
                                    assert(self.has_word(v));
                                }
                            }
                        }
                    }
                } else {
                    let k = pre.nodes@.len() as int;
                    let fc = self.nodes@[k].1;
                    assert(self.nodes@ == pre.nodes@.push((c, fc)));
                    assert(fc.wf());
                    assert(forall|u: Seq<char>|
                        fc.has_word(u) <==> (mid.has_word(u) || u == suf1));
                    assert forall|u: Seq<char>| fc.has_word(u) implies u == suf1 by {
                        lemma_node_empty(mid, u);
                    }
                    assert(forall|j: int|
                        0 <= j < pre.nodes@.len() ==> (#[trigger] pre.nodes@[j]).0 != c);
                    assert(self.keys_distinct()) by {
                        assert(forall|j: int|
                            0 <= j < pre.nodes@.len() ==> (#[trigger] self.nodes@[j]).0
                                == pre.nodes@[j].0);
                        assert(self.nodes@[k].0 == c);
                    }
                    assert forall|j: int|
                        0 <= j < self.nodes@.len() implies (#[trigger] self.nodes@[j]).1.wf() by {
                        if j != k {
                            assert(self.nodes@[j] == pre.nodes@[j]);
                        }
                    }
                    assert(self.wf());
                    assert forall|v: Seq<char>|
                        self.has_word(v) <==> (pre.has_word(v) || v == suf) by {
                        if v.len() == 0 {
                            assert(self.is_word == pre.is_word);
                            assert(v != suf);
                        } else {
                            if v == suf {
                                assert(v[0] == c);
                                assert(v.drop_first() == suf1);
                                assert(fc.has_word(v.drop_first()));
                                assert(0 <= k < self.nodes@.len() && self.nodes@[k].0 == v[0]
                                    && self.nodes@[k].1.has_word(v.drop_first()));
                                assert(self.has_word(v));
                            }
                            if self.has_word(v) && v != suf {
                                let kk = choose|kk: int|
                                    0 <= kk < self.nodes@.len() && (#[trigger] self.nodes@[kk]).0
                                        == v[0] && self.nodes@[kk].1.has_word(v.drop_first());
                                if kk == k {
                                    assert(v[0] == c);
                                    assert(fc.has_word(v.drop_first()));
                                    assert(v.drop_first() == suf1);
                                    lemma_cons_eq(v, suf);
                                    assert(false);
                                } else {
                                    assert(self.nodes@[kk] == pre.nodes@[kk]);
                                    assert(pre.has_word(v));
                                }
                            }
                            if pre.has_word(v) {
                                let kk = choose|kk: int|
                                    0 <= kk < pre.nodes@.len() && (#[trigger] pre.nodes@[kk]).0
                                        == v[0] && pre.nodes@[kk].1.has_word(v.drop_first());
                                assert(self.nodes@[kk] == pre.nodes@[kk]);
                                assert(self.has_word(v));
                            }
                        }
                    }
                }
            }
        }
    }
}

/// Two nonempty sequences with equal heads and equal tails are equal.
proof fn lemma_cons_eq(a: Seq<char>, b: Seq<char>)
    requires
        a.len() > 0,
        b.len() > 0,
        a[0] == b[0],
        a.drop_first() == b.drop_first(),
    ensures
        a == b,
{
    assert(a.drop_first().len() == a.len() - 1);
    assert(b.drop_first().len() == b.len() - 1);
    assert(a.len() == b.len());
    assert forall|j: int| 0 <= j < a.len() implies a[j] == b[j] by {
        if j > 0 {
            assert(0 <= j - 1 < a.drop_first().len());
            assert(a.drop_first()[j - 1] == a[j]);
            assert(b.drop_first()[j - 1] == b[j]);
        }
    }
    assert(a =~= b);
}

/// A node with no children and `is_word` false stores no word at all.
pub proof fn lemma_node_empty(n: Node, w: Seq<char>)
    requires
        n.nodes@.len() == 0,
        !n.is_word,
    ensures
        !n.has_word(w),
{
}

/// Under distinct keys, `child_index` is the one position of the child
/// labeled `c`.
pub proof fn lemma_child_index(n: Node, c: char)
    requires
        n.keys_distinct(),
        n.has_child(c),
    ensures
        0 <= n.child_index(c) < n.nodes@.len(),
        n.nodes@[n.child_index(c)].0 == c,
        forall|k: int|
            0 <= k < n.nodes@.len() && (#[trigger] n.nodes@[k]).0 == c ==> k == n.child_index(c),
{
    let k0 = n.child_index(c);
    assert(0 <= k0 < n.nodes@.len() && n.nodes@[k0].0 == c) by {
        assert(exists|k: int| 0 <= k < n.nodes@.len() && (#[trigger] n.nodes@[k]).0 == c);
    }
}

/// Stepping into the unique child labeled with the word's first
/// character preserves word storage.
pub proof fn lemma_has_word_step(n: Node, u: Seq<char>)
    requires
        n.keys_distinct(),
        u.len() > 0,
    ensures
        n.has_word(u) <==> (n.has_child(u[0]) && n.child(u[0]).has_word(u.drop_first())),
{
    if n.has_word(u) {
        let k = choose|k: int|
            0 <= k < n.nodes@.len() && (#[trigger] n.nodes@[k]).0 == u[0]
                && n.nodes@[k].1.has_word(u.drop_first());
        assert(n.has_child(u[0]));
        lemma_child_index(n, u[0]);
        assert(k == n.child_index(u[0]));
    }
    if n.has_child(u[0]) && n.child(u[0]).has_word(u.drop_first()) {
        lemma_child_index(n, u[0]);
        let k = n.child_index(u[0]);
        assert(0 <= k < n.nodes@.len() && n.nodes@[k].0 == u[0] && n.nodes@[k].1.has_word(
            u.drop_first(),
        ));
        assert(n.has_word(u));
    }
}

} // verus!
