#![allow(unused_imports)]

pub mod dym;
pub mod edits;
pub mod lexicon;
pub mod pattern;
pub mod shims;
pub mod text;
pub mod trie;

use vstd::prelude::*;
use std::collections::HashSet;

use crate::edits::{delete_at, insert_at, is_one_edit_pat, is_two_pass_pat, subst_at};
use crate::pattern::{compile, matcher_fits, matcher_of, str_matches};
use crate::shims::{
    fnv_set_insert, fnv_set_into_vec, fnv_set_new, fnv_set_words, lev_dist, levenshtein, lower_of,
    to_lowercase, trim, trim_of,
};
use crate::text::{copy_strings, has_view, string_views, views_distinct};
use crate::trie::Trie;

verus! {

/// The normal form every stored word and every query is taken to:
/// surrounding whitespace trimmed, then lowercased.
pub open spec fn normalize_spec(s: Seq<char>) -> Seq<char> {
    lower_of(trim_of(s))
}

/// Trims surrounding whitespace and lowercases.
fn normalize(w: &str) -> (r: String)
    ensures
        r@ == normalize_spec(w@),
{
    let t = trim(w);
    to_lowercase(t)
}

/// Whether `w` is a dictionary word that some one- or two-pass edit
/// pattern of the query `q` matches.
pub open spec fn is_correction(dict: Set<Seq<char>>, q: Seq<char>, w: Seq<char>) -> bool {
    &&& dict.contains(w)
    &&& exists|p: Seq<char>| #[trigger] is_two_pass_pat(q, p) && str_matches(p, w)
}

/// All dictionary words within reach of the two-pass edit pattern
/// generation for the (already normalized) query `q`.
pub open spec fn corrections_spec(dict: Set<Seq<char>>, q: Seq<char>) -> Set<Seq<char>> {
    Set::new(|w: Seq<char>| is_correction(dict, q, w))
}

/// Whether `v` is the normal form of one of the first `n` words.
pub open spec fn is_normalized_entry(ws: Seq<&str>, n: int, v: Seq<char>) -> bool {
    exists|j: int| 0 <= j < n && v == normalize_spec((#[trigger] ws[j])@)
}

/// The normal forms of the first `n` words of the slice.
pub open spec fn normalized_views(ws: Seq<&str>, n: int) -> Set<Seq<char>> {
    Set::new(|v: Seq<char>| is_normalized_entry(ws, n, v))
}

/// A dictionary with case- and whitespace-insensitive membership and
/// suggestion lookup: it owns a trie of normalized words and applies
/// the same normal form to every insert and every query.
#[derive(Debug)]
pub struct Lexicon {
    words: Trie,
}

impl View for Lexicon {
    type V = Set<Seq<char>>;

    /// The set of (normalized) words stored.
    closed spec fn view(&self) -> Set<Seq<char>> {
        self.words@
    }
}

impl Lexicon {
    /// Well-formed: the underlying trie is.
    pub closed spec fn wf(self) -> bool {
        self.words.wf()
    }

    /// Creates an empty Lexicon.
    pub fn new() -> (l: Self)
        ensures
            l.wf(),
            l@ == Set::<Seq<char>>::empty(),
    {
        Lexicon { words: Trie::new() }
    }

    /// Inserts a copy of the given word into the Lexicon after
    /// converting it to lowercase and trimming whitespace.
    pub fn insert(&mut self, word: &str)
        requires
            old(self).wf(),
        ensures
            final(self).wf(),
            final(self)@ == old(self)@.insert(normalize_spec(word@)),
    {
        let word = normalize(word);
        self.words.insert(word.as_str());
    }

    /// Inserts a copy of all given words into the Lexicon after
    /// converting them to lowercase and trimming whitespace.
    pub fn insert_all(&mut self, words: &[&str])
        requires
            old(self).wf(),
        ensures
            final(self).wf(),
            final(self)@ == old(self)@ + normalized_views(words@, words@.len() as int),
    {
        let n = words.len();
        let mut i: usize = 0;
        proof {
            assert(self@ =~= old(self)@ + normalized_views(words@, 0));
        }
        while i < n
            invariant
                n == words@.len(),
                i <= n,
                self.wf(),
                self@ == old(self)@ + normalized_views(words@, i as int),
            decreases n - i,
        {
            let w: &str = words[i];
            self.insert(w);
            proof {
                let prev = old(self)@ + normalized_views(words@, i as int);
                assert forall|v: Seq<char>|
                    self@.contains(v) <==> (old(self)@ + normalized_views(
                        words@,
                        i as int + 1,
                    )).contains(v) by {
                    if self@.contains(v) {
                        if prev.contains(v) {
                            if normalized_views(words@, i as int).contains(v) {
                                let j = choose|j: int|
                                    0 <= j < i && v == normalize_spec((#[trigger] words@[j])@);
                                assert(is_normalized_entry(words@, i as int + 1, v));
                            }
                        } else {
                            assert(v == normalize_spec(words@[i as int]@));
                            assert(is_normalized_entry(words@, i as int + 1, v));
                        }
                    }
                    if (old(self)@ + normalized_views(words@, i as int + 1)).contains(v) {
                        if normalized_views(words@, i as int + 1).contains(v) {
                            let j = choose|j: int|
                                0 <= j < i + 1 && v == normalize_spec((#[trigger] words@[j])@);
                            if j < i {
                                assert(is_normalized_entry(words@, i as int, v));
                            } else {
                                assert(v == normalize_spec(words@[i as int]@));
                            }
                        }
                    }
                }
                assert(self@ =~= old(self)@ + normalized_views(words@, i as int + 1));
            }
            i = i + 1;
        }
    }

    /// Returns true if the Lexicon contains the given word, up to
    /// normalization.
    pub fn contains(&self, word: &str) -> (r: bool)
        requires
            self.wf(),
        ensures
            r == self@.contains(normalize_spec(word@)),
    {
        let word = normalize(word);
        self.words.contains(word.as_str())
    }

    /// Generates all patterns one edit away from the given word.
    /// Wildcards are used to minimize the number of patterns generated.
    pub fn generate_permutations(word: &str) -> (r: Vec<String>)
        ensures
            forall|j: int| 0 <= j < r@.len() ==> is_one_edit_pat(word@, (#[trigger] r@[j])@),
            forall|p: Seq<char>| is_one_edit_pat(word@, p) ==> has_view(r@, p),
            views_distinct(r@),
    {
        crate::edits::one_edit_patterns(word)
    }

    /// Returns all words in the Lexicon that the one- and two-pass edit
    /// patterns of the given word reach: an approximation of every
    /// stored word at most two edits away.
    pub fn corrections_for(&self, word: &str) -> (r: Vec<String>)
        requires
            self.wf(),
        ensures
            string_views(r@) == corrections_spec(self@, normalize_spec(word@)),
            views_distinct(r@),
    {
        let word_n = normalize(word);
        let ghost q = normalize_spec(word@);

        let perms1 = Lexicon::generate_permutations(word_n.as_str());
        let mut perms = copy_strings(&perms1);
        let n1 = perms1.len();
        let mut i: usize = 0;
        proof {
            assert forall|j: int| 0 <= j < perms@.len() implies is_two_pass_pat(
                q,
                (#[trigger] perms@[j])@,
            ) by {
                assert(perms@[j]@ == perms1@[j]@);
                assert(is_one_edit_pat(q, perms1@[j]@));
            }
        }
        while i < n1
            invariant
                n1 == perms1@.len(),
                i <= n1,
                forall|j: int| 0 <= j < n1 ==> is_one_edit_pat(q, (#[trigger] perms1@[j])@),
                forall|p: Seq<char>| is_one_edit_pat(q, p) ==> has_view(perms1@, p),
                perms@.len() >= n1,
                forall|j: int| 0 <= j < n1 ==> (#[trigger] perms@[j])@ == perms1@[j]@,
                forall|j: int| 0 <= j < perms@.len() ==> is_two_pass_pat(q, (#[trigger] perms@[j])@),
                forall|t: int, p: Seq<char>|
                    #![trigger is_one_edit_pat(perms1@[t]@, p)]
                    0 <= t < i && is_one_edit_pat(perms1@[t]@, p) ==> has_view(perms@, p),
            decreases n1 - i,
        {
            let mut more = Lexicon::generate_permutations(perms1[i].as_str());
            let ghost perms_before = perms@;
            let ghost moreview = more@;
            perms.append(&mut more);
            proof {
                assert(perms@ == perms_before + moreview);
                assert forall|j: int| 0 <= j < perms@.len() implies is_two_pass_pat(
                    q,
                    (#[trigger] perms@[j])@,
                ) by {
                    if j < perms_before.len() {
                        assert(perms@[j] == perms_before[j]);
                        assert(is_two_pass_pat(q, perms_before[j]@));
                    } else {
                        assert(perms@[j] == moreview[j - perms_before.len()]);
                        assert(is_one_edit_pat(perms1@[i as int]@, perms@[j]@));
                        assert(is_one_edit_pat(q, perms1@[i as int]@));
                    }
                }
                assert forall|t: int, p: Seq<char>|
                    #![trigger is_one_edit_pat(perms1@[t]@, p)]
                    0 <= t < i + 1 && is_one_edit_pat(perms1@[t]@, p) implies has_view(
                    perms@,
                    p,
                ) by {
                    if t < i {
                        assert(has_view(perms_before, p));
                        let j = choose|j: int|
                            0 <= j < perms_before.len() && (#[trigger] perms_before[j])@ == p;
                        assert(perms@[j] == perms_before[j]);
                        assert(has_view(perms@, p));
                    } else {
                        assert(has_view(moreview, p));
                        let j = choose|j: int|
                            0 <= j < moreview.len() && (#[trigger] moreview[j])@ == p;
                        assert(perms@[perms_before.len() + j] == moreview[j]);
                        assert(has_view(perms@, p));
                    }
                }
            }
            i = i + 1;
        }

        let mut corr: HashSet<String, fnv::FnvBuildHasher> = fnv_set_new();
        let np = perms.len();
        let mut i: usize = 0;
        while i < np
            invariant
                self.wf(),
                np == perms@.len(),
                i <= np,
                forall|j: int| 0 <= j < perms@.len() ==> is_two_pass_pat(q, (#[trigger] perms@[j])@),
                forall|t: int, p: Seq<char>|
                    #![trigger is_one_edit_pat(perms1@[t]@, p)]
                    0 <= t < n1 && is_one_edit_pat(perms1@[t]@, p) ==> has_view(perms@, p),
                n1 == perms1@.len(),
                forall|j: int| 0 <= j < n1 ==> is_one_edit_pat(q, (#[trigger] perms1@[j])@),
                forall|p: Seq<char>| is_one_edit_pat(q, p) ==> has_view(perms1@, p),
                perms@.len() >= n1,
                forall|j: int| 0 <= j < n1 ==> (#[trigger] perms@[j])@ == perms1@[j]@,
                forall|v: Seq<char>| fnv_set_words(corr).contains(v) ==> is_correction(self@, q, v),
                forall|t: int, v: Seq<char>|
                    #![trigger str_matches(perms@[t]@, v)]
                    0 <= t < i && self@.contains(v) && str_matches(perms@[t]@, v)
                        ==> fnv_set_words(corr).contains(v),
            decreases np - i,
        {
            let matches = self.words.all_matches(perms[i].as_str());
            let m = matches.len();
            let mut t2: usize = 0;
            while t2 < m
                invariant
                    self.wf(),
                    np == perms@.len(),
                    i < np,
                    m == matches@.len(),
                    t2 <= m,
                    forall|j: int|
                        0 <= j < perms@.len() ==> is_two_pass_pat(q, (#[trigger] perms@[j])@),
                    forall|jj: int|
                        0 <= jj < matches@.len() ==> self@.contains((#[trigger] matches@[jj])@)
                            && str_matches(perms@[i as int]@, matches@[jj]@),
                    forall|v: Seq<char>|
                        self@.contains(v) && str_matches(perms@[i as int]@, v) ==> exists|jj: int|
                            0 <= jj < matches@.len() && (#[trigger] matches@[jj])@ == v,
                    forall|v: Seq<char>|
                        fnv_set_words(corr).contains(v) ==> is_correction(self@, q, v),
                    forall|t: int, v: Seq<char>|
                        #![trigger str_matches(perms@[t]@, v)]
                        0 <= t < i && self@.contains(v) && str_matches(perms@[t]@, v)
                            ==> fnv_set_words(corr).contains(v),
                    forall|jj: int|
                        0 <= jj < t2 ==> fnv_set_words(corr).contains((#[trigger] matches@[jj])@),
                decreases m - t2,
            {
                let s = matches[t2].clone();
                proof {
                    assert(s@ == matches@[t2 as int]@);
                    assert(is_correction(self@, q, s@)) by {
                        assert(self@.contains(s@));
                        assert(is_two_pass_pat(q, perms@[i as int]@) && str_matches(
                            perms@[i as int]@,
                            s@,
                        ));
                    }
                }
                fnv_set_insert(&mut corr, s);
                t2 = t2 + 1;
            }
            proof {
                assert forall|t: int, v: Seq<char>|
                    #![trigger str_matches(perms@[t]@, v)]
                    0 <= t < i + 1 && self@.contains(v) && str_matches(perms@[t]@, v)
                    implies fnv_set_words(corr).contains(v) by {
                    if t == i {
                        let jj = choose|jj: int|
                            0 <= jj < matches@.len() && (#[trigger] matches@[jj])@ == v;
                        assert(fnv_set_words(corr).contains(matches@[jj]@));
                    }
                }
            }
            i = i + 1;
        }

        let r = fnv_set_into_vec(corr);
        proof {
            assert forall|v: Seq<char>|
                corrections_spec(self@, q).contains(v) implies fnv_set_words(corr).contains(v) by {
                assert(is_correction(self@, q, v));
                let p = choose|p: Seq<char>| #[trigger] is_two_pass_pat(q, p) && str_matches(p, v);
                assert(has_view(perms@, p)) by {
                    if is_one_edit_pat(q, p) {
                        assert(has_view(perms1@, p));
                        let j = choose|j: int|
                            0 <= j < perms1@.len() && (#[trigger] perms1@[j])@ == p;
                        assert(perms@[j]@ == perms1@[j]@);
                        assert(has_view(perms@, p));
                    } else {
                        let mid = choose|mid: Seq<char>|
                            #[trigger] is_one_edit_pat(q, mid) && is_one_edit_pat(mid, p);
                        assert(has_view(perms1@, mid));
                        let t = choose|t: int|
                            0 <= t < perms1@.len() && (#[trigger] perms1@[t])@ == mid;
                        assert(is_one_edit_pat(perms1@[t]@, p));
                        assert(has_view(perms@, p));
                    }
                }
                let t = choose|t: int| 0 <= t < perms@.len() && (#[trigger] perms@[t])@ == p;
                assert(str_matches(perms@[t]@, v));
                assert(fnv_set_words(corr).contains(v));
            }
            assert forall|v: Seq<char>|
                string_views(r@).contains(v) <==> corrections_spec(self@, q).contains(v) by {
                if has_view(r@, v) {
                    let j = choose|j: int| 0 <= j < r@.len() && (#[trigger] r@[j])@ == v;
                    assert(fnv_set_words(corr).contains(v));
                    assert(is_correction(self@, q, v));
                }
                if corrections_spec(self@, q).contains(v) {
                    assert(fnv_set_words(corr).contains(v));
                    let j = choose|j: int| 0 <= j < r@.len() && (#[trigger] r@[j])@ == v;
                    assert(has_view(r@, v));
                }
            }
            assert(string_views(r@) =~= corrections_spec(self@, q));
        }
        r
    }

    /// Of all corrections for the given word, returns one at minimal
    /// Levenshtein distance from it, or the empty string where there is
    /// no correction at a representable distance.
    pub fn best_match_for(&self, word: &str) -> (r: String)
        requires
            self.wf(),
        ensures
            ({
                let cs = corrections_spec(self@, normalize_spec(word@));
                &&& ((forall|v: Seq<char>|
                    cs.contains(v) ==> #[trigger] lev_dist(v, word@) >= usize::MAX) ==> r@
                    == Seq::<char>::empty())
                &&& ((exists|v: Seq<char>|
                    cs.contains(v) && #[trigger] lev_dist(v, word@) < usize::MAX) ==> {
                    &&& cs.contains(r@)
                    &&& forall|v: Seq<char>|
                        cs.contains(v) ==> lev_dist(r@, word@) <= #[trigger] lev_dist(v, word@)
                })
            }),
    {
        let ghost cs = corrections_spec(self@, normalize_spec(word@));
        let corrections = self.corrections_for(word);
        let n = corrections.len();
        let mut best_d: usize = usize::MAX;
        let mut best_w: String = String::new();
        let mut i: usize = 0;
        while i < n
            invariant
                n == corrections@.len(),
                i <= n,
                string_views(corrections@) == cs,
                best_d == usize::MAX ==> best_w@ == Seq::<char>::empty(),
                best_d < usize::MAX ==> has_view(corrections@, best_w@) && best_d as nat
                    == lev_dist(best_w@, word@),
                forall|t: int|
                    0 <= t < i ==> lev_dist((#[trigger] corrections@[t])@, word@) >= best_d as nat,
            decreases n - i,
        {
            let d = levenshtein(corrections[i].as_str(), word);
            if d < best_d {
                best_d = d;
                best_w = corrections[i].clone();
            }
            i = i + 1;
        }
        proof {
            if exists|v: Seq<char>| cs.contains(v) && #[trigger] lev_dist(v, word@) < usize::MAX {
                let v0 = choose|v0: Seq<char>|
                    cs.contains(v0) && #[trigger] lev_dist(v0, word@) < usize::MAX;
                assert(has_view(corrections@, v0));
                let t = choose|t: int|
                    0 <= t < corrections@.len() && (#[trigger] corrections@[t])@ == v0;
                assert(lev_dist(corrections@[t]@, word@) >= best_d as nat);
                assert(best_d < usize::MAX);
                assert(cs.contains(best_w@));
                assert forall|v: Seq<char>| cs.contains(v) implies lev_dist(best_w@, word@)
                    <= #[trigger] lev_dist(v, word@) by {
                    assert(has_view(corrections@, v));
                    let tt = choose|tt: int|
                        0 <= tt < corrections@.len() && (#[trigger] corrections@[tt])@ == v;
                    assert(lev_dist(corrections@[tt]@, word@) >= best_d as nat);
                }
            }
            if best_d < usize::MAX {
                assert(cs.contains(best_w@));
            }
        }
        best_w
    }
}

/// A word just inserted is contained, and stays contained after one
/// more insert.
pub proof fn lemma_insert_then_contains(dict: Set<Seq<char>>, w: Seq<char>, u: Seq<char>)
    ensures
        dict.insert(w).contains(w),
        dict.contains(w) ==> dict.insert(u).contains(w),
{
}

/// The dictionary after inserting every word of `ws`, in order.
pub open spec fn inserted_all(dict: Set<Seq<char>>, ws: Seq<Seq<char>>) -> Set<Seq<char>>
    decreases ws.len(),
{
    if ws.len() == 0 {
        dict
    } else {
        inserted_all(dict.insert(ws[0]), ws.drop_first())
    }
}

/// A contained word stays contained after any number of subsequent
/// inserts.
pub proof fn lemma_contains_after_inserts(dict: Set<Seq<char>>, ws: Seq<Seq<char>>, w: Seq<char>)
    requires
        dict.contains(w),
    ensures
        inserted_all(dict, ws).contains(w),
    decreases ws.len(),
{
    if ws.len() > 0 {
        lemma_contains_after_inserts(dict.insert(ws[0]), ws.drop_first(), w);
    }
}

/// Inserting a word twice leaves the same dictionary as inserting it
/// once, so `contains` and `corrections_for` behave the same after
/// either.
pub proof fn lemma_insert_idempotent(dict: Set<Seq<char>>, w: Seq<char>)
    ensures
        dict.insert(w).insert(w) == dict.insert(w),
{
    assert(dict.insert(w).insert(w) =~= dict.insert(w));
}

/// The set of corrections is a function of the dictionary and the
/// query alone: two calls on the same Lexicon and word may order their
/// results differently but hold the same words.
pub proof fn lemma_corrections_deterministic(
    dict: Set<Seq<char>>,
    q: Seq<char>,
    s1: Set<Seq<char>>,
    s2: Set<Seq<char>>,
)
    requires
        s1 == corrections_spec(dict, q),
        s2 == corrections_spec(dict, q),
    ensures
        s1 == s2,
{
}

/// A dictionary word is always among its own corrections: for a
/// nonempty query the substitution pattern at position 0 matches the
/// query itself, and for the empty query the second pass deletes the
/// one inserted wildcard again.
pub proof fn lemma_query_in_corrections(dict: Set<Seq<char>>, q: Seq<char>)
    requires
        dict.contains(q),
    ensures
        corrections_spec(dict, q).contains(q),
{
    if q.len() > 0 {
        let p = subst_at(q, 0);
        assert(is_one_edit_pat(q, p));
        assert(str_matches(p, q)) by {
            assert(compile(p).len() == q.len());
            assert forall|i: int| 0 <= i < compile(p).len() implies matcher_fits(
                #[trigger] compile(p)[i],
                q[i],
            ) by {
                assert(compile(p)[i] == matcher_of(p[i]));
                if i > 0 {
                    assert(p[i] == q[i]);
                }
            }
        }
        assert(is_two_pass_pat(q, p) && str_matches(p, q));
        assert(is_correction(dict, q, q));
    } else {
        let m = insert_at(q, 0);
        assert(m =~= seq!['*']);
        let p = delete_at(m, 0);
        assert(p =~= Seq::<char>::empty());
        assert(is_one_edit_pat(q, m));
        assert(is_one_edit_pat(m, p));
        assert(is_two_pass_pat(q, p));
        assert(str_matches(p, q)) by {
            assert(compile(p).len() == 0);
        }
        assert(is_two_pass_pat(q, p) && str_matches(p, q));
        assert(is_correction(dict, q, q));
    }
}

} // verus!
