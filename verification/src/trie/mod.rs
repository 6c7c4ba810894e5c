pub mod node;

use vstd::prelude::*;

use crate::pattern::{
    compile, lemma_pat_step, matcher_fits, pat_matches, str_matches, CharMatcher, Pattern,
};
use crate::shims::string_of;
use crate::text::{chars_of, views_distinct};
use self::node::{lemma_child_index, lemma_has_word_step, Node};

verus! {

/// A prefix tree holding the complete dictionary: a word is in the trie
/// iff walking its characters from the root lands on a terminal node.
#[derive(Debug)]
pub struct Trie {
    root: Node,
}

impl View for Trie {
    type V = Set<Seq<char>>;

    /// The set of words stored in the trie.
    closed spec fn view(&self) -> Set<Seq<char>> {
        Set::new(|w: Seq<char>| self.root.has_word(w))
    }
}

impl Trie {
    /// Well-formed: in every node, the child labels are distinct.
    pub closed spec fn wf(self) -> bool {
        self.root.wf()
    }

    /// Creates an empty Trie.
    pub fn new() -> (t: Trie)
        ensures
            t.wf(),
            t@ == Set::<Seq<char>>::empty(),
    {
        let t = Trie { root: Node::new() };
        proof {
            assert(t@ =~= Set::<Seq<char>>::empty());
        }
        t
    }

    /// Inserts a copy of the given word into the Trie.
    pub fn insert(&mut self, word: &str)
        requires
            old(self).wf(),
        ensures
            final(self).wf(),
            final(self)@ == old(self)@.insert(word@),
    {
        let chars = chars_of(word);
        self.root.insert_suffix(&chars, 0);
        proof {
            assert(chars@.skip(0) =~= word@);
            assert(self@ =~= old(self)@.insert(word@));
        }
    }

    /// Returns true if the given word is held in the Trie.
    pub fn contains(&self, word: &str) -> (r: bool)
        requires
            self.wf(),
        ensures
            r == self@.contains(word@),
    {
        let chars = chars_of(word);
        let n = chars.len();
        let mut node: &Node = &self.root;
        let mut i: usize = 0;
        proof {
            assert(word@.skip(0) =~= word@);
        }
        while i < n
            invariant
                n == chars@.len(),
                chars@ == word@,
                i <= n,
                node.wf(),
                self.root.has_word(word@) <==> node.has_word(word@.skip(i as int)),
            decreases n - i,
        {
            let c = chars[i];
            proof {
                let u = word@.skip(i as int);
                assert(u.len() == n - i);
                assert(u[0] == word@[i as int]);
                lemma_has_word_step(*node, u);
                assert(u.drop_first() =~= word@.skip(i as int + 1));
            }
            match node.get_node(c) {
                Some(next) => {
                    proof {
                        lemma_child_index(*node, c);
                        assert(node.child(c).wf());
                    }
                    node = next;
                },
                None => {
                    return false;
                },
            }
            i = i + 1;
        }
        proof {
            assert(word@.skip(n as int) =~= Seq::<char>::empty());
        }
        node.is_word
    }

    /// Searches the Trie for all words that match the given pattern
    /// string, in which `*` matches any single character: the result
    /// holds exactly the stored words the pattern matches.
    pub fn all_matches(&self, pattern: &str) -> (r: Vec<String>)
        requires
            self.wf(),
        ensures
            forall|j: int|
                0 <= j < r@.len() ==> self@.contains((#[trigger] r@[j])@) && str_matches(
                    pattern@,
                    r@[j]@,
                ),
            forall|v: Seq<char>|
                self@.contains(v) && str_matches(pattern@, v) ==> exists|j: int|
                    0 <= j < r@.len() && (#[trigger] r@[j])@ == v,
            views_distinct(r@),
    {
        let p = Pattern::from_str(pattern);
        let trail: Vec<char> = Vec::new();
        let r = self.recurse_pattern(p.iter(), 0, &self.root, trail);
        proof {
            let empty = Seq::<char>::empty();
            assert(compile(pattern@).skip(0) =~= compile(pattern@));
            assert forall|j: int| 0 <= j < r@.len() implies self@.contains((#[trigger] r@[j])@)
                && str_matches(pattern@, r@[j]@) by {
                assert(entry_sound(r@[j], empty, self.root, compile(pattern@).skip(0)));
                let u = choose|u: Seq<char>|
                    r@[j]@ == empty + u && self.root.has_word(u) && #[trigger] pat_matches(
                        compile(pattern@).skip(0),
                        u,
                    );
                assert(empty + u =~= u);
                assert(r@[j]@ == u);
            }
            assert forall|v: Seq<char>| self@.contains(v) && str_matches(pattern@, v) implies exists|
                j: int,
            | 0 <= j < r@.len() && (#[trigger] r@[j])@ == v by {
                assert(self.root.has_word(v));
                assert(pat_matches(compile(pattern@).skip(0), v));
                assert(covers(r@, empty, v));
                let j = choose|j: int| 0 <= j < r@.len() && (#[trigger] r@[j])@ == empty + v;
                assert(empty + v =~= v);
                assert(r@[j]@ == v);
            }
        }
        r
    }

    /// Recursively walks the matcher sequence from position `pi`,
    /// descending from `node`, with `trail` holding the characters on
    /// the path so far. Returns `trail` followed by `u`, for every word
    /// `u` below `node` that the remaining matchers match.
    #[verifier::rlimit(100)]
    fn recurse_pattern(
        &self,
        matchers: &Vec<CharMatcher>,
        pi: usize,
        node: &Node,
        trail: Vec<char>,
    ) -> (r: Vec<String>)
        requires
            node.wf(),
            pi <= matchers@.len(),
        ensures
            forall|j: int|
                0 <= j < r@.len() ==> entry_sound(
                    #[trigger] r@[j],
                    trail@,
                    *node,
                    matchers@.skip(pi as int),
                ),
            forall|u: Seq<char>|
                #![trigger node.has_word(u), pat_matches(matchers@.skip(pi as int), u)]
                node.has_word(u) && pat_matches(matchers@.skip(pi as int), u) ==> covers(
                    r@,
                    trail@,
                    u,
                ),
            views_distinct(r@),
        decreases matchers@.len() - pi,
    {
        let ghost rest = matchers@.skip(pi as int);
        if pi == matchers.len() {
            proof {
                assert(rest =~= Seq::<CharMatcher>::empty());
            }
            if node.is_word {
                let s = string_of(&trail);
                let mut r: Vec<String> = Vec::new();
                r.push(s);
                proof {
                    assert(trail@ + Seq::<char>::empty() =~= trail@);
                    assert(node.has_word(Seq::<char>::empty()));
                    assert(pat_matches(rest, Seq::<char>::empty()));
                    assert(r@[0]@ == trail@ + Seq::<char>::empty());
                    assert(entry_sound(r@[0], trail@, *node, rest));
                    assert forall|u: Seq<char>|
                        node.has_word(u) && pat_matches(rest, u) implies covers(r@, trail@, u) by {
                        assert(u.len() == 0);
                        assert(u =~= Seq::<char>::empty());
                        assert(r@[0]@ == trail@ + u);
                    }
                }
                r
            } else {
                let r: Vec<String> = Vec::new();
                proof {
                    assert forall|u: Seq<char>|
                        node.has_word(u) && pat_matches(rest, u) implies covers(r@, trail@, u) by {
                        assert(u.len() == 0);
                        assert(u =~= Seq::<char>::empty());
                        assert(!node.has_word(u));
                    }
                }
                r
            }
        } else {
            proof {
                assert(rest.len() == matchers@.len() - pi);
                assert(rest[0] == matchers@[pi as int]);
                assert(rest.drop_first() =~= matchers@.skip(pi as int + 1));
            }
            let m = matchers[pi];
            match m {
                CharMatcher::Exact(c) => {
                    match node.get_node(c) {
                        Some(next) => {
                            proof {
                                lemma_child_index(*node, c);
                                assert(node.child(c).wf());
                            }
                            let ghost trail0 = trail@;
                            let mut trail2 = trail;
                            trail2.push(c);
                            let r = self.recurse_pattern(matchers, pi + 1, next, trail2);
                            proof {
                                let rest1 = matchers@.skip(pi as int + 1);
                                assert forall|j: int| 0 <= j < r@.len() implies entry_sound(
                                    #[trigger] r@[j],
                                    trail0,
                                    *node,
                                    rest,
                                ) by {
                                    assert(entry_sound(r@[j], trail2@, *next, rest1));
                                    let u1 = choose|u1: Seq<char>|
                                        r@[j]@ == trail2@ + u1 && next.has_word(u1)
                                            && #[trigger] pat_matches(rest1, u1);
                                    let u = seq![c] + u1;
                                    assert(trail2@ + u1 =~= trail0 + u);
                                    assert(u[0] == c);
                                    assert(u.drop_first() =~= u1);
                                    lemma_has_word_step(*node, u);
                                    lemma_pat_step(rest, u);
                                    assert(r@[j]@ == trail0 + u && node.has_word(u) && pat_matches(
                                        rest,
                                        u,
                                    ));
                                }
                                assert forall|u: Seq<char>|
                                    node.has_word(u) && pat_matches(rest, u) implies covers(
                                    r@,
                                    trail0,
                                    u,
                                ) by {
                                    lemma_pat_step(rest, u);
                                    assert(u.len() > 0);
                                    assert(matcher_fits(rest[0], u[0]));
                                    assert(u[0] == c);
                                    lemma_has_word_step(*node, u);
                                    assert(next.has_word(u.drop_first()));
                                    assert(pat_matches(rest1, u.drop_first()));
                                    assert(covers(r@, trail2@, u.drop_first()));
                                    let j = choose|j: int|
                                        0 <= j < r@.len() && (#[trigger] r@[j])@ == trail2@
                                            + u.drop_first();
                                    assert(trail2@ + u.drop_first() =~= trail0 + u);
                                    assert(r@[j]@ == trail0 + u);
                                }
                            }
                            r
                        },
                        None => {
                            let r: Vec<String> = Vec::new();
                            proof {
                                assert forall|u: Seq<char>|
                                    node.has_word(u) && pat_matches(rest, u) implies covers(
                                    r@,
                                    trail@,
                                    u,
                                ) by {
                                    lemma_pat_step(rest, u);
                                    assert(u.len() > 0 && u[0] == c);
                                    lemma_has_word_step(*node, u);
                                    assert(!node.has_word(u));
                                }
                            }
                            r
                        },
                    }
                },
                CharMatcher::Any => {
                    let ghost rest1 = matchers@.skip(pi as int + 1);
                    let pinext = pi + 1;
                    let mut words: Vec<String> = Vec::new();
                    let mut k: usize = 0;
                    while k < node.nodes.len()
                        invariant
                            node.wf(),
                            pi < matchers@.len(),
                            rest == matchers@.skip(pi as int),
                            rest1 == matchers@.skip(pi as int + 1),
                            pinext == pi + 1,
                            pi + 1 <= matchers@.len(),
                            rest.len() > 0,
                            rest[0] is Any,
                            rest.drop_first() == rest1,
                            k <= node.nodes@.len(),
                            forall|j: int|
                                0 <= j < words@.len() ==> entry_sound(
                                    #[trigger] words@[j],
                                    trail@,
                                    *node,
                                    rest,
                                ),
                            forall|u: Seq<char>, kk: int|
                                #![trigger node.has_word(u), node.nodes@[kk], pat_matches(rest, u)]
                                node.has_word(u) && pat_matches(rest, u) && 0 <= kk < k
                                    && node.nodes@[kk].0 == u[0] ==> covers(words@, trail@, u),
                            forall|jj: int|
                                0 <= jj < words@.len() ==> (#[trigger] words@[jj])@.len()
                                    > trail@.len() && key_before(
                                    node.nodes@,
                                    k as int,
                                    words@[jj]@[trail@.len() as int],
                                ),
                            views_distinct(words@),
                        decreases node.nodes@.len() - k,
                    {
                        let c = node.nodes[k].0;
                        let next = &node.nodes[k].1;
                        proof {
                            assert(node.nodes@[k as int].1.wf());
                        }
                        let mut trail2 = trail.clone();
                        proof {
                            assert forall|t: int| 0 <= t < trail@.len() implies trail2@[t]
                                == trail@[t] by {
                                assert(vstd::pervasive::cloned::<char>(trail@[t], trail2@[t]));
                            }
                            assert(trail2@ =~= trail@);
                        }
                        trail2.push(c);
                        let ghost words0 = words@;
                        let mut sub = self.recurse_pattern(matchers, pinext, next, trail2);
                        let ghost subview = sub@;
                        words.append(&mut sub);
                        proof {
                            assert(words@ == words0 + subview);
                            assert forall|j: int| 0 <= j < words@.len() implies entry_sound(
                                #[trigger] words@[j],
                                trail@,
                                *node,
                                rest,
                            ) by {
                                if j < words0.len() {
                                    assert(words@[j] == words0[j]);
                                    assert(entry_sound(words0[j], trail@, *node, rest));
                                } else {
                                    let jj = j - words0.len();
                                    assert(words@[j] == subview[jj]);
                                    assert(entry_sound(subview[jj], trail2@, *next, rest1));
                                    let u1 = choose|u1: Seq<char>|
                                        subview[jj]@ == trail2@ + u1 && next.has_word(u1)
                                            && #[trigger] pat_matches(rest1, u1);
                                    let u = seq![c] + u1;
                                    assert(trail2@ + u1 =~= trail@ + u);
                                    assert(u[0] == c);
                                    assert(u.drop_first() =~= u1);
                                    assert(0 <= k < node.nodes@.len() && node.nodes@[k as int].0
                                        == u[0] && node.nodes@[k as int].1.has_word(
                                        u.drop_first(),
                                    ));
                                    assert(node.has_word(u));
                                    lemma_pat_step(rest, u);
                                    assert(words@[j]@ == trail@ + u && node.has_word(u)
                                        && pat_matches(rest, u));
                                }
                            }
                            assert forall|u: Seq<char>, kk: int|
                                node.has_word(u) && pat_matches(rest, u) && 0 <= kk < k + 1
                                    && node.nodes@[kk].0 == u[0] implies covers(
                                words@,
                                trail@,
                                u,
                            ) by {
                                if kk < k {
                                    assert(covers(words0, trail@, u));
                                    let j = choose|j: int|
                                        0 <= j < words0.len() && (#[trigger] words0[j])@ == trail@
                                            + u;
                                    assert(words@[j] == words0[j]);
                                    assert(words@[j]@ == trail@ + u);
                                } else {
                                    assert(node.nodes@[k as int].0 == u[0]);
                                    assert(u[0] == c);
                                    lemma_pat_step(rest, u);
                                    lemma_has_word_step(*node, u);
                                    lemma_child_index(*node, c);
                                    assert(node.child_index(c) == k);
                                    assert(node.child(c) == node.nodes@[k as int].1);
                                    assert(next.has_word(u.drop_first()));
                                    assert(pat_matches(rest1, u.drop_first()));
                                    assert(covers(subview, trail2@, u.drop_first()));
                                    let j1 = choose|j1: int|
                                        0 <= j1 < subview.len() && (#[trigger] subview[j1])@
                                            == trail2@ + u.drop_first();
                                    assert(trail2@ + u.drop_first() =~= trail@ + u);
                                    let j = words0.len() + j1;
                                    assert(words@[j] == subview[j1]);
                                    assert(words@[j]@ == trail@ + u);
                                }
                            }
                            // every entry from this child starts with the
                            // child's own label right after the trail
                            let tl = trail@.len() as int;
                            assert(trail2@ == trail@.push(c));
                            assert(trail2@[tl] == c);
                            assert forall|jj: int|
                                0 <= jj < subview.len() implies (#[trigger] subview[jj])@.len()
                                > trail@.len() && subview[jj]@[tl] == c by {
                                assert(entry_sound(subview[jj], trail2@, *next, rest1));
                                let u1 = choose|u1: Seq<char>|
                                    subview[jj]@ == trail2@ + u1 && next.has_word(u1)
                                        && #[trigger] pat_matches(rest1, u1);
                                assert(subview[jj]@.len() == trail2@.len() + u1.len());
                                assert(subview[jj]@[tl] == trail2@[tl]);
                            }
                            assert forall|jj: int|
                                0 <= jj < words@.len() implies (#[trigger] words@[jj])@.len()
                                > trail@.len() && key_before(
                                node.nodes@,
                                k as int + 1,
                                words@[jj]@[tl],
                            ) by {
                                if jj < words0.len() {
                                    assert(words@[jj] == words0[jj]);
                                    let kk = choose|kk: int|
                                        0 <= kk < k && (#[trigger] node.nodes@[kk]).0
                                            == words0[jj]@[tl];
                                    assert(key_before(node.nodes@, k as int + 1, words@[jj]@[tl]));
                                } else {
                                    assert(words@[jj] == subview[jj - words0.len()]);
                                    assert(words@[jj]@[tl] == c);
                                    assert(node.nodes@[k as int].0 == c);
                                    assert(key_before(node.nodes@, k as int + 1, words@[jj]@[tl]));
                                }
                            }
                            assert forall|j1: int, j2: int|
                                0 <= j1 < j2 < words@.len() implies (#[trigger] words@[j1])@ != (
                            #[trigger] words@[j2])@ by {
                                if j2 < words0.len() {
                                    assert(words@[j1] == words0[j1]);
                                    assert(words@[j2] == words0[j2]);
                                } else if j1 >= words0.len() {
                                    assert(words@[j1] == subview[j1 - words0.len()]);
                                    assert(words@[j2] == subview[j2 - words0.len()]);
                                } else {
                                    assert(words@[j1] == words0[j1]);
                                    let kk = choose|kk: int|
                                        0 <= kk < k && (#[trigger] node.nodes@[kk]).0
                                            == words0[j1]@[tl];
                                    assert(words@[j2] == subview[j2 - words0.len()]);
                                    assert(words@[j2]@[tl] == c);
                                    assert(node.keys_distinct());
                                    assert(node.nodes@[kk].0 != node.nodes@[k as int].0);
                                    assert(words@[j1]@[tl] != words@[j2]@[tl]);
                                }
                            }
                        }
                        k = k + 1;
                    }
                    proof {
                        assert forall|u: Seq<char>|
                            node.has_word(u) && pat_matches(rest, u) implies covers(
                            words@,
                            trail@,
                            u,
                        ) by {
                            lemma_pat_step(rest, u);
                            assert(u.len() > 0);
                            let kk = choose|kk: int|
                                0 <= kk < node.nodes@.len() && (#[trigger] node.nodes@[kk]).0
                                    == u[0] && node.nodes@[kk].1.has_word(u.drop_first());
                            assert(0 <= kk < k && node.nodes@[kk].0 == u[0]);
                        }
                    }
                    words
                },
            }
        }
    }
}

/// The result entry `s` spells `prefix` followed by some word stored
/// below `node` that the matcher sequence `rest` matches.
pub(crate) open spec fn entry_sound(
    s: String,
    prefix: Seq<char>,
    node: Node,
    rest: Seq<CharMatcher>,
) -> bool {
    exists|u: Seq<char>|
        s@ == prefix + u && node.has_word(u) && #[trigger] pat_matches(rest, u)
}

/// Some entry of `r` spells exactly `prefix` followed by `u`.
pub(crate) open spec fn covers(r: Seq<String>, prefix: Seq<char>, u: Seq<char>) -> bool {
    exists|j: int| 0 <= j < r.len() && (#[trigger] r[j])@ == prefix + u
}

/// Whether `c` labels one of the first `bound` children of the node.
pub(crate) open spec fn key_before(ns: Seq<(char, Node)>, bound: int, c: char) -> bool {
    exists|kk: int| 0 <= kk < bound && (#[trigger] ns[kk]).0 == c
}

} // verus!
