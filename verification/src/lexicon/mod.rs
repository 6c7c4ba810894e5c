use vstd::prelude::*;

use crate::edits::{is_one_edit_pat, is_two_pass_pat};
use crate::pattern::{compile, matcher_fits, matcher_of, pat_matches, str_matches};
use crate::text::{
    chars_of, copy_strings, has_view, string_vec_has, string_views, usize_vec_has, views_distinct,
};

verus! {

/// Whether some word of the sequence has exactly `l` characters.
pub open spec fn has_len(ws: Seq<String>, l: nat) -> bool {
    exists|j: int| 0 <= j < ws.len() && (#[trigger] ws[j])@.len() == l
}

/// What the per-length, per-position lookup returns for a query: the
/// stored words of exactly the query's length that agree with it on
/// every literal position. A pattern only ever matches words of its
/// own length, so a query length never stored short-circuits the
/// lookup to an empty result.
pub open spec fn is_lookup_match(ws: Seq<String>, q: Seq<char>, v: Seq<char>) -> bool {
    has_view(ws, v) && str_matches(q, v)
}

/// Whether `v` is reached from the query through some one- or two-pass
/// edit pattern and the lookup.
pub open spec fn is_lookup_suggestion(ws: Seq<String>, q: Seq<char>, v: Seq<char>) -> bool {
    exists|p: Seq<char>| #[trigger] is_two_pass_pat(q, p) && is_lookup_match(ws, p, v)
}

/// Whether the two words agree position by position, a `*` on either
/// side matching anything.
pub open spec fn sym_wild_eq(a: Seq<char>, b: Seq<char>) -> bool {
    &&& a.len() == b.len()
    &&& forall|i: int| 0 <= i < a.len() ==> ((#[trigger] a[i]) == b[i] || a[i] == '*' || b[i] == '*')
}

/// Whether `s` copies one of the first `bound` words and that word
/// matches the wildcard query `q`.
pub open spec fn from_matching_word(ws: Seq<String>, q: Seq<char>, bound: int, s: String) -> bool {
    exists|k: int| 0 <= k < bound && (#[trigger] ws[k])@ == s@ && str_matches(q, ws[k]@)
}

/// A dictionary that looks words up by their length and by the letter
/// they hold at each position. The word list is deduplicated, and the
/// length index holds exactly the lengths of the stored words.
#[derive(Debug)]
pub struct Lexicon {
    pub words: Vec<String>,
    pub lookup: Vec<usize>,
}

impl Lexicon {
    /// Well-formed: no word is stored twice, no length is indexed
    /// twice, and a length is indexed exactly when a stored word has
    /// it.
    pub open spec fn wf(self) -> bool {
        &&& views_distinct(self.words@)
        &&& forall|i: int, j: int|
            #![trigger self.lookup@[i], self.lookup@[j]]
            0 <= i < j < self.lookup@.len() ==> self.lookup@[i] != self.lookup@[j]
        &&& forall|l: usize|
            #![trigger self.lookup@.contains(l)]
            self.lookup@.contains(l) <==> has_len(self.words@, l as nat)
    }

    /// The set of stored words.
    pub open spec fn view(self) -> Set<Seq<char>> {
        string_views(self.words@)
    }

    /// Creates an empty Lexicon.
    pub fn new() -> (l: Self)
        ensures
            l.wf(),
            l.words@.len() == 0,
            l@ == Set::<Seq<char>>::empty(),
    {
        let l = Lexicon { words: Vec::new(), lookup: Vec::new() };
        proof {
            assert(l@ =~= Set::<Seq<char>>::empty());
        }
        l
    }

    /// Inserts the given word, as it is, and indexes its length.
    pub fn insert(&mut self, word: &str)
        requires
            old(self).wf(),
        ensures
            final(self).wf(),
            final(self)@ == old(self)@.insert(word@),
    {
        if string_vec_has(&self.words, word) {
            proof {
                assert(self@ =~= old(self)@.insert(word@));
            }
            return ;
        }
        let ghost ws0 = self.words@;
        self.words.push(word.to_owned());
        let wc = chars_of(word);
        let l = wc.len();
        proof {
            assert(self.words@.len() == ws0.len() + 1);
            assert(forall|j: int| 0 <= j < ws0.len() ==> self.words@[j] == ws0[j]);
        }
        if !usize_vec_has(&self.lookup, l) {
            self.lookup.push(l);
        }
        proof {
            assert(self.words@[ws0.len() as int]@ == word@);
            assert(views_distinct(self.words@)) by {
                assert forall|j1: int, j2: int|
                    0 <= j1 < j2 < self.words@.len() implies (#[trigger] self.words@[j1])@ != (
                #[trigger] self.words@[j2])@ by {
                    if j2 == ws0.len() {
                        assert(self.words@[j1] == ws0[j1]);
                        assert(!has_view(ws0, word@));
                    }
                }
            }
            assert forall|ln: usize|
                #![trigger self.lookup@.contains(ln)]
                self.lookup@.contains(ln) <==> has_len(self.words@, ln as nat) by {
                if self.lookup@.contains(ln) {
                    if ln == l {
                        assert(self.words@[ws0.len() as int]@.len() == l as nat);
                        assert(has_len(self.words@, ln as nat));
                    } else {
                        assert(old(self).lookup@.contains(ln));
                        assert(has_len(ws0, ln as nat));
                        let j = choose|j: int|
                            0 <= j < ws0.len() && (#[trigger] ws0[j])@.len() == ln as nat;
                        assert(self.words@[j] == ws0[j]);
                        assert(has_len(self.words@, ln as nat));
                    }
                }
                if has_len(self.words@, ln as nat) {
                    let j = choose|j: int|
                        0 <= j < self.words@.len() && (#[trigger] self.words@[j])@.len() == ln as nat;
                    if j < ws0.len() {
                        assert(ws0[j] == self.words@[j]);
                        assert(has_len(ws0, ln as nat));
                        assert(old(self).lookup@.contains(ln));
                        let ii = choose|ii: int|
                            0 <= ii < old(self).lookup@.len() && old(self).lookup@[ii] == ln;
                        assert(self.lookup@[ii] == ln);
                        assert(self.lookup@.contains(ln));
                    } else {
                        assert(self.words@[j]@ == word@);
                        assert(ln == l);
                        if old(self).lookup@.contains(l) {
                            let ii = choose|ii: int|
                                0 <= ii < old(self).lookup@.len() && old(self).lookup@[ii] == l;
                            assert(self.lookup@[ii] == l);
                        } else {
                            assert(self.lookup@[self.lookup@.len() - 1] == l);
                        }
                        assert(self.lookup@.contains(l));
                    }
                }
            }
            assert forall|i: int, j: int|
                #![trigger self.lookup@[i], self.lookup@[j]]
                0 <= i < j < self.lookup@.len() implies self.lookup@[i] != self.lookup@[j] by {
                if j == self.lookup@.len() - 1 && self.lookup@.len() > old(self).lookup@.len() {
                    assert(!old(self).lookup@.contains(l));
                    assert(self.lookup@[i] == old(self).lookup@[i]);
                    assert(old(self).lookup@.contains(old(self).lookup@[i]));
                }
            }
            assert forall|v: Seq<char>|
                self@.contains(v) <==> old(self)@.insert(word@).contains(v) by {
                if has_view(self.words@, v) {
                    let j = choose|j: int|
                        0 <= j < self.words@.len() && (#[trigger] self.words@[j])@ == v;
                    if j < ws0.len() {
                        assert(ws0[j] == self.words@[j]);
                        assert(has_view(ws0, v));
                    } else {
                        assert(v == word@);
                    }
                }
                if old(self)@.contains(v) {
                    let j = choose|j: int| 0 <= j < ws0.len() && (#[trigger] ws0[j])@ == v;
                    assert(self.words@[j] == ws0[j]);
                    assert(has_view(self.words@, v));
                }
                if v == word@ {
                    assert(self.words@[ws0.len() as int]@ == v);
                    assert(has_view(self.words@, v));
                }
            }
            assert(self@ =~= old(self)@.insert(word@));
        }
    }

    /// Looks up every word the wildcard query reaches: the words of the
    /// query's length that agree with it at each literal position. The
    /// length index lets a query whose length was never stored return
    /// empty without a scan.
    pub fn all_matches(&self, query: &str) -> (r: Vec<String>)
        requires
            self.wf(),
        ensures
            forall|j: int|
                0 <= j < r@.len() ==> is_lookup_match(self.words@, query@, (#[trigger] r@[j])@),
            forall|v: Seq<char>| is_lookup_match(self.words@, query@, v) ==> has_view(r@, v),
            views_distinct(r@),
    {
        let qc = chars_of(query);
        let ql = qc.len();
        if !usize_vec_has(&self.lookup, ql) {
            let r: Vec<String> = Vec::new();
            proof {
                assert(!has_len(self.words@, query@.len()));
                assert forall|v: Seq<char>|
                    !is_lookup_match(self.words@, query@, v) by {
                    if has_view(self.words@, v) && str_matches(query@, v) {
                        let j = choose|j: int|
                            0 <= j < self.words@.len() && (#[trigger] self.words@[j])@ == v;
                        assert(compile(query@).len() == query@.len());
                        assert(self.words@[j]@.len() == query@.len());
                        assert(has_len(self.words@, query@.len()));
                    }
                }
            }
            return r;
        }

        let n = self.words.len();
        let mut out: Vec<String> = Vec::new();
        let mut t: usize = 0;
        while t < n
            invariant
                self.wf(),
                n == self.words@.len(),
                t <= n,
                qc@ == query@,
                forall|jj: int|
                    0 <= jj < out@.len() ==> from_matching_word(
                        self.words@,
                        query@,
                        t as int,
                        #[trigger] out@[jj],
                    ),
                forall|k: int|
                    0 <= k < t && str_matches(query@, (#[trigger] self.words@[k])@) ==> has_view(
                        out@,
                        self.words@[k]@,
                    ),
                views_distinct(out@),
            decreases n - t,
        {
            let w = &self.words[t];
            let matched = wild_match(&qc, w.as_str());
            let ghost out0 = out@;
            if matched {
                out.push(w.clone());
            }
            proof {
                if matched {
                    assert(out@ == out0.push(self.words@[t as int]));
                    assert(out@[out0.len() as int] == self.words@[t as int]);
                }
                assert forall|jj: int|
                    0 <= jj < out@.len() implies from_matching_word(
                    self.words@,
                    query@,
                    t as int + 1,
                    #[trigger] out@[jj],
                ) by {
                    if jj < out0.len() {
                        assert(out@[jj] == out0[jj]);
                        assert(from_matching_word(self.words@, query@, t as int, out0[jj]));
                        let k = choose|k: int|
                            0 <= k < t && (#[trigger] self.words@[k])@ == out0[jj]@ && str_matches(
                                query@,
                                self.words@[k]@,
                            );
                        assert(0 <= k < t + 1 && self.words@[k]@ == out@[jj]@ && str_matches(
                            query@,
                            self.words@[k]@,
                        ));
                    } else {
                        assert(out@[jj] == self.words@[t as int]);
                        assert(0 <= t < t + 1 && self.words@[t as int]@ == out@[jj]@ && str_matches(
                            query@,
                            self.words@[t as int]@,
                        ));
                    }
                }
                assert forall|k: int|
                    0 <= k < t + 1 && str_matches(query@, (#[trigger] self.words@[k])@)
                    implies has_view(out@, self.words@[k]@) by {
                    if k < t {
                        assert(has_view(out0, self.words@[k]@));
                        let jj = choose|jj: int|
                            0 <= jj < out0.len() && (#[trigger] out0[jj])@ == self.words@[k]@;
                        assert(out@[jj] == out0[jj]);
                        assert(has_view(out@, self.words@[k]@));
                    } else {
                        assert(matched);
                        assert(out@[out0.len() as int]@ == self.words@[t as int]@);
                        assert(has_view(out@, self.words@[k]@));
                    }
                }
                assert forall|j1: int, j2: int|
                    0 <= j1 < j2 < out@.len() implies (#[trigger] out@[j1])@ != (
                #[trigger] out@[j2])@ by {
                    if j2 >= out0.len() {
                        assert(matched);
                        assert(out@[j1] == out0[j1]);
                        assert(from_matching_word(self.words@, query@, t as int, out0[j1]));
                        let k = choose|k: int|
                            0 <= k < t && (#[trigger] self.words@[k])@ == out0[j1]@ && str_matches(
                                query@,
                                self.words@[k]@,
                            );
                        assert(out@[j2]@ == self.words@[t as int]@);
                        assert(self.words@[k]@ != self.words@[t as int]@);
                    }
                }
            }
            t = t + 1;
        }
        proof {
            assert forall|j: int|
                0 <= j < out@.len() implies is_lookup_match(
                self.words@,
                query@,
                (#[trigger] out@[j])@,
            ) by {
                assert(from_matching_word(self.words@, query@, n as int, out@[j]));
                let k = choose|k: int|
                    0 <= k < n && (#[trigger] self.words@[k])@ == out@[j]@ && str_matches(
                        query@,
                        self.words@[k]@,
                    );
                assert(has_view(self.words@, out@[j]@));
            }
            assert forall|v: Seq<char>|
                is_lookup_match(self.words@, query@, v) implies has_view(out@, v) by {
                let k = choose|k: int|
                    0 <= k < self.words@.len() && (#[trigger] self.words@[k])@ == v;
                assert(str_matches(query@, self.words@[k]@));
            }
        }
        out
    }

    /// Generates all patterns one edit away from the given word,
    /// deduplicated, a wildcard standing for the edited character.
    pub fn get_permutations(word: &str) -> (r: Vec<String>)
        ensures
            forall|j: int| 0 <= j < r@.len() ==> is_one_edit_pat(word@, (#[trigger] r@[j])@),
            forall|p: Seq<char>| is_one_edit_pat(word@, p) ==> has_view(r@, p),
            views_distinct(r@),
    {
        crate::edits::one_edit_patterns(word)
    }

    /// Returns every word the lookup reaches through some one- or
    /// two-pass edit pattern of the given word, each word once.
    pub fn did_you_mean(&self, word: &str) -> (r: Vec<String>)
        requires
            self.wf(),
        ensures
            forall|j: int|
                0 <= j < r@.len() ==> is_lookup_suggestion(self.words@, word@, (#[trigger] r@[j])@),
            forall|v: Seq<char>| is_lookup_suggestion(self.words@, word@, v) ==> has_view(r@, v),
            views_distinct(r@),
    {
        let perms1 = Lexicon::get_permutations(word);
        let mut perms = copy_strings(&perms1);
        let n1 = perms1.len();
        let mut i: usize = 0;
        proof {
            assert forall|j: int| 0 <= j < perms@.len() implies is_two_pass_pat(
                word@,
                (#[trigger] perms@[j])@,
            ) by {
                assert(perms@[j]@ == perms1@[j]@);
                assert(is_one_edit_pat(word@, perms1@[j]@));
            }
        }
        while i < n1
            invariant
                n1 == perms1@.len(),
                i <= n1,
                forall|j: int| 0 <= j < n1 ==> is_one_edit_pat(word@, (#[trigger] perms1@[j])@),
                forall|p: Seq<char>| is_one_edit_pat(word@, p) ==> has_view(perms1@, p),
                perms@.len() >= n1,
                forall|j: int| 0 <= j < n1 ==> (#[trigger] perms@[j])@ == perms1@[j]@,
                forall|j: int|
                    0 <= j < perms@.len() ==> is_two_pass_pat(word@, (#[trigger] perms@[j])@),
                forall|t: int, p: Seq<char>|
                    #![trigger is_one_edit_pat(perms1@[t]@, p)]
                    0 <= t < i && is_one_edit_pat(perms1@[t]@, p) ==> has_view(perms@, p),
            decreases n1 - i,
        {
            let mut more = Lexicon::get_permutations(perms1[i].as_str());
            let ghost perms_before = perms@;
            let ghost moreview = more@;
            perms.append(&mut more);
            proof {
                assert(perms@ == perms_before + moreview);
                assert forall|j: int| 0 <= j < perms@.len() implies is_two_pass_pat(
                    word@,
                    (#[trigger] perms@[j])@,
                ) by {
                    if j < perms_before.len() {
                        assert(perms@[j] == perms_before[j]);
                        assert(is_two_pass_pat(word@, perms_before[j]@));
                    } else {
                        assert(perms@[j] == moreview[j - perms_before.len()]);
                        assert(is_one_edit_pat(perms1@[i as int]@, perms@[j]@));
                        assert(is_one_edit_pat(word@, perms1@[i as int]@));
                    }
                }
                assert forall|t: int, p: Seq<char>|
                    #![trigger is_one_edit_pat(perms1@[t]@, p)]
                    0 <= t < i + 1 && is_one_edit_pat(perms1@[t]@, p) implies has_view(
                    perms@,
                    p,
                ) by {
                    if t < i {
                        assert(has_view(perms_before, p));
                        let j = choose|j: int|
                            0 <= j < perms_before.len() && (#[trigger] perms_before[j])@ == p;
                        assert(perms@[j] == perms_before[j]);
                        assert(has_view(perms@, p));
                    } else {
                        assert(has_view(moreview, p));
                        let j = choose|j: int|
                            0 <= j < moreview.len() && (#[trigger] moreview[j])@ == p;
                        assert(perms@[perms_before.len() + j] == moreview[j]);
                        assert(has_view(perms@, p));
                    }
                }
            }
            i = i + 1;
        }

        let mut suggestions: Vec<String> = Vec::new();
        let np = perms.len();
        let mut i: usize = 0;
        while i < np
            invariant
                self.wf(),
                np == perms@.len(),
                i <= np,
                forall|j: int|
                    0 <= j < perms@.len() ==> is_two_pass_pat(word@, (#[trigger] perms@[j])@),
                forall|t: int, p: Seq<char>|
                    #![trigger is_one_edit_pat(perms1@[t]@, p)]
                    0 <= t < n1 && is_one_edit_pat(perms1@[t]@, p) ==> has_view(perms@, p),
                n1 == perms1@.len(),
                forall|j: int| 0 <= j < n1 ==> is_one_edit_pat(word@, (#[trigger] perms1@[j])@),
                forall|p: Seq<char>| is_one_edit_pat(word@, p) ==> has_view(perms1@, p),
                perms@.len() >= n1,
                forall|j: int| 0 <= j < n1 ==> (#[trigger] perms@[j])@ == perms1@[j]@,
                forall|j: int|
                    0 <= j < suggestions@.len() ==> is_lookup_suggestion(
                        self.words@,
                        word@,
                        (#[trigger] suggestions@[j])@,
                    ),
                forall|t: int, v: Seq<char>|
                    #![trigger is_lookup_match(self.words@, perms@[t]@, v)]
                    0 <= t < i && is_lookup_match(self.words@, perms@[t]@, v) ==> has_view(
                        suggestions@,
                        v,
                    ),
                views_distinct(suggestions@),
            decreases np - i,
        {
            let matches = self.all_matches(perms[i].as_str());
            proof {
                assert forall|v: Seq<char>|
                    is_lookup_match(self.words@, perms@[i as int]@, v) implies has_view(
                    matches@,
                    v,
                ) by {}
            }
            let m = matches.len();
            let mut t2: usize = 0;
            while t2 < m
                invariant
                    self.wf(),
                    np == perms@.len(),
                    i < np,
                    m == matches@.len(),
                    t2 <= m,
                    forall|j: int|
                        0 <= j < perms@.len() ==> is_two_pass_pat(word@, (#[trigger] perms@[j])@),
                    forall|jj: int|
                        0 <= jj < matches@.len() ==> is_lookup_match(
                            self.words@,
                            perms@[i as int]@,
                            (#[trigger] matches@[jj])@,
                        ),
                    forall|v: Seq<char>|
                        is_lookup_match(self.words@, perms@[i as int]@, v) ==> has_view(
                            matches@,
                            v,
                        ),
                    forall|j: int|
                        0 <= j < suggestions@.len() ==> is_lookup_suggestion(
                            self.words@,
                            word@,
                            (#[trigger] suggestions@[j])@,
                        ),
                    forall|t: int, v: Seq<char>|
                        #![trigger is_lookup_match(self.words@, perms@[t]@, v)]
                        0 <= t < i && is_lookup_match(self.words@, perms@[t]@, v) ==> has_view(
                            suggestions@,
                            v,
                        ),
                    forall|jj: int|
                        0 <= jj < t2 ==> has_view(suggestions@, (#[trigger] matches@[jj])@),
                    views_distinct(suggestions@),
                decreases m - t2,
            {
                let mword = &matches[t2];
                if !string_vec_has(&suggestions, mword.as_str()) {
                    let ghost sug0 = suggestions@;
                    suggestions.push(mword.clone());
                    proof {
                        assert(suggestions@[sug0.len() as int]@ == matches@[t2 as int]@);
                        assert(is_lookup_match(
                            self.words@,
                            perms@[i as int]@,
                            matches@[t2 as int]@,
                        ));
                        assert(is_two_pass_pat(word@, perms@[i as int]@));
                        assert forall|j: int|
                            0 <= j < suggestions@.len() implies is_lookup_suggestion(
                            self.words@,
                            word@,
                            (#[trigger] suggestions@[j])@,
                        ) by {
                            if j < sug0.len() {
                                assert(suggestions@[j] == sug0[j]);
                                assert(is_lookup_suggestion(self.words@, word@, sug0[j]@));
                            }
                        }
                        assert forall|t: int, v: Seq<char>|
                            #![trigger is_lookup_match(self.words@, perms@[t]@, v)]
                            0 <= t < i && is_lookup_match(self.words@, perms@[t]@, v)
                            implies has_view(suggestions@, v) by {
                            let j = choose|j: int|
                                0 <= j < sug0.len() && (#[trigger] sug0[j])@ == v;
                            assert(suggestions@[j] == sug0[j]);
                        }
                        assert forall|jj: int| 0 <= jj < t2 + 1 implies has_view(
                            suggestions@,
                            (#[trigger] matches@[jj])@,
                        ) by {
                            if jj < t2 {
                                let j = choose|j: int|
                                    0 <= j < sug0.len() && (#[trigger] sug0[j])@ == matches@[jj]@;
                                assert(suggestions@[j] == sug0[j]);
                            } else {
                                assert(suggestions@[sug0.len() as int]@ == matches@[jj]@);
                            }
                        }
                        assert forall|j1: int, j2: int|
                            0 <= j1 < j2 < suggestions@.len() implies (#[trigger] suggestions@[j1])@
                            != (#[trigger] suggestions@[j2])@ by {
                            if j2 == sug0.len() {
                                assert(suggestions@[j1] == sug0[j1]);
                                assert(!has_view(sug0, matches@[t2 as int]@));
                            }
                        }
                    }
                } else {
                    proof {
                        assert forall|jj: int| 0 <= jj < t2 + 1 implies has_view(
                            suggestions@,
                            (#[trigger] matches@[jj])@,
                        ) by {}
                    }
                }
                t2 = t2 + 1;
            }
            proof {
                assert forall|t: int, v: Seq<char>|
                    #![trigger is_lookup_match(self.words@, perms@[t]@, v)]
                    0 <= t < i + 1 && is_lookup_match(self.words@, perms@[t]@, v) implies has_view(
                    suggestions@,
                    v,
                ) by {
                    if t == i {
                        assert(has_view(matches@, v));
                        let jj = choose|jj: int|
                            0 <= jj < matches@.len() && (#[trigger] matches@[jj])@ == v;
                        assert(has_view(suggestions@, matches@[jj]@));
                    }
                }
            }
            i = i + 1;
        }
        proof {
            assert forall|v: Seq<char>|
                is_lookup_suggestion(self.words@, word@, v) implies has_view(suggestions@, v) by {
                let p = choose|p: Seq<char>|
                    #[trigger] is_two_pass_pat(word@, p) && is_lookup_match(self.words@, p, v);
                assert(has_view(perms@, p)) by {
                    if is_one_edit_pat(word@, p) {
                        assert(has_view(perms1@, p));
                        let j = choose|j: int|
                            0 <= j < perms1@.len() && (#[trigger] perms1@[j])@ == p;
                        assert(perms@[j]@ == perms1@[j]@);
                        assert(has_view(perms@, p));
                    } else {
                        let mid = choose|mid: Seq<char>|
                            #[trigger] is_one_edit_pat(word@, mid) && is_one_edit_pat(mid, p);
                        assert(has_view(perms1@, mid));
                        let t = choose|t: int|
                            0 <= t < perms1@.len() && (#[trigger] perms1@[t])@ == mid;
                        assert(is_one_edit_pat(perms1@[t]@, p));
                        assert(has_view(perms@, p));
                    }
                }
                let t = choose|t: int| 0 <= t < perms@.len() && (#[trigger] perms@[t])@ == p;
                assert(is_lookup_match(self.words@, perms@[t]@, v));
            }
        }
        suggestions
    }

    /// Returns true if the two words agree position by position, a `*`
    /// on either side matching any character.
    pub fn matches(word1: &str, word2: &str) -> (r: bool)
        ensures
            r == sym_wild_eq(word1@, word2@),
    {
        let c1 = chars_of(word1);
        let c2 = chars_of(word2);
        if c1.len() != c2.len() {
            return false;
        }
        let n = c1.len();
        let mut i: usize = 0;
        while i < n
            invariant
                n == c1@.len(),
                n == c2@.len(),
                c1@ == word1@,
                c2@ == word2@,
                i <= n,
                forall|j: int|
                    0 <= j < i ==> ((#[trigger] c1@[j]) == c2@[j] || c1@[j] == '*' || c2@[j] == '*'),
            decreases n - i,
        {
            let a = c1[i];
            let b = c2[i];
            let wildcard = a == '*' || b == '*';
            if a != b && !wildcard {
                return false;
            }
            i = i + 1;
        }
        true
    }
}

/// Returns true if the wildcard query matches the word: same length,
/// every literal position equal.
fn wild_match(qc: &Vec<char>, w: &str) -> (r: bool)
    ensures
        r == str_matches(qc@, w@),
{
    let wc = chars_of(w);
    if wc.len() != qc.len() {
        proof {
            assert(compile(qc@).len() == qc@.len());
        }
        return false;
    }
    let n = qc.len();
    let mut i: usize = 0;
    while i < n
        invariant
            n == qc@.len(),
            n == wc@.len(),
            wc@ == w@,
            i <= n,
            forall|j: int| 0 <= j < i ==> matcher_fits(compile(qc@)[j], #[trigger] w@[j]),
        decreases n - i,
    {
        let q = qc[i];
        if q != '*' {
            if q != wc[i] {
                proof {
                    assert(compile(qc@)[i as int] == matcher_of(qc@[i as int]));
                    assert(!matcher_fits(compile(qc@)[i as int], w@[i as int]));
                }
                return false;
            }
        }
        proof {
            assert(compile(qc@)[i as int] == matcher_of(qc@[i as int]));
        }
        i = i + 1;
    }
    proof {
        assert(compile(qc@).len() == w@.len());
        assert(pat_matches(compile(qc@), w@));
    }
    true
}

} // verus!
