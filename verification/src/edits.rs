use vstd::prelude::*;
use std::collections::HashSet;

use crate::shims::{fnv_set_insert, fnv_set_into_vec, fnv_set_new, fnv_set_words, string_of};
use crate::text::{chars_of, copy_chars, has_view, views_distinct};

verus! {

/// The pattern left by deleting the character at position `i`: fully
/// literal, one character shorter.
pub open spec fn delete_at(w: Seq<char>, i: int) -> Seq<char> {
    w.take(i) + w.skip(i + 1)
}

/// The pattern left by replacing the character at position `i` with the
/// wildcard `*`: same length, one wildcard.
pub open spec fn subst_at(w: Seq<char>, i: int) -> Seq<char> {
    w.update(i, '*')
}

/// The pattern left by inserting the wildcard `*` at position `i`
/// (positions 0 through the length inclusive): one character longer.
pub open spec fn insert_at(w: Seq<char>, i: int) -> Seq<char> {
    w.take(i) + seq!['*'] + w.skip(i)
}

/// The pattern left by exchanging the characters at positions `i` and
/// `i + 1`: fully literal, same length.
pub open spec fn swap_at(w: Seq<char>, i: int) -> Seq<char> {
    w.update(i, w[i + 1]).update(i + 1, w[i])
}

/// Whether `p` is reachable from `w` by exactly one primitive edit:
/// deletion, substitution, insertion, or adjacent transposition.
/// Deletion and transposition fully determine the resulting string, so
/// their patterns are literal; the edited character of a substitution
/// or insertion is unknown, so those patterns carry one `*`, and a
/// single wildcard search covers every possible letter at once.
pub open spec fn is_one_edit_pat(w: Seq<char>, p: Seq<char>) -> bool {
    ||| exists|i: int| 0 <= i < w.len() && p == delete_at(w, i)
    ||| exists|i: int| 0 <= i < w.len() && p == subst_at(w, i)
    ||| exists|i: int| 0 <= i <= w.len() && p == insert_at(w, i)
    ||| exists|i: int| 0 <= i && i + 1 < w.len() && p == swap_at(w, i)
}

/// The set of all one-edit patterns of `w`.
pub open spec fn one_edit_pats(w: Seq<char>) -> Set<Seq<char>> {
    Set::new(|p: Seq<char>| is_one_edit_pat(w, p))
}

/// Whether `p` comes out of one or two passes of the generator started
/// on `q`. A second pass works on the pattern string itself, a wildcard
/// left by the first pass treated as an ordinary literal character;
/// this approximates two-edit reach and does not enumerate exact
/// Damerau-Levenshtein distance-2 neighborhoods.
pub open spec fn is_two_pass_pat(q: Seq<char>, p: Seq<char>) -> bool {
    ||| is_one_edit_pat(q, p)
    ||| exists|m: Seq<char>| #[trigger] is_one_edit_pat(q, m) && is_one_edit_pat(m, p)
}

/// All words one edit away from the given word, written as wildcard
/// patterns and deduplicated: the result holds exactly the one-edit
/// patterns of the word, each once.
pub(crate) fn one_edit_patterns(word: &str) -> (r: Vec<String>)
    ensures
        forall|j: int| 0 <= j < r@.len() ==> is_one_edit_pat(word@, (#[trigger] r@[j])@),
        forall|p: Seq<char>| is_one_edit_pat(word@, p) ==> has_view(r@, p),
        views_distinct(r@),
{
    let chars = chars_of(word);
    let n = chars.len();
    let mut perms: HashSet<String, fnv::FnvBuildHasher> = fnv_set_new();

    // deletions
    let mut i: usize = 0;
    while i < n
        invariant
            n == chars@.len(),
            chars@ == word@,
            i <= n,
            forall|p: Seq<char>|
                fnv_set_words(perms).contains(p) ==> #[trigger] is_one_edit_pat(word@, p),
            forall|k: int| 0 <= k < i ==> fnv_set_words(perms).contains(#[trigger] delete_at(word@, k)),
        decreases n - i,
    {
        let mut pv = copy_chars(&chars);
        pv.remove(i);
        proof {
            assert(pv@ =~= delete_at(word@, i as int));
            assert(is_one_edit_pat(word@, delete_at(word@, i as int)));
        }
        let s = string_of(&pv);
        fnv_set_insert(&mut perms, s);
        i = i + 1;
    }

    // substitutions
    let mut i: usize = 0;
    while i < n
        invariant
            n == chars@.len(),
            chars@ == word@,
            i <= n,
            forall|p: Seq<char>|
                fnv_set_words(perms).contains(p) ==> #[trigger] is_one_edit_pat(word@, p),
            forall|k: int| 0 <= k < n ==> fnv_set_words(perms).contains(#[trigger] delete_at(word@, k)),
            forall|k: int| 0 <= k < i ==> fnv_set_words(perms).contains(#[trigger] subst_at(word@, k)),
        decreases n - i,
    {
        let mut pv = copy_chars(&chars);
        pv[i] = '*';
        proof {
            assert(pv@ =~= subst_at(word@, i as int));
            assert(is_one_edit_pat(word@, subst_at(word@, i as int)));
        }
        let s = string_of(&pv);
        fnv_set_insert(&mut perms, s);
        i = i + 1;
    }

    // insertions, at every position up to and including the end
    let mut i: usize = 0;
    while i < n
        invariant
            n == chars@.len(),
            chars@ == word@,
            i <= n,
            forall|p: Seq<char>|
                fnv_set_words(perms).contains(p) ==> #[trigger] is_one_edit_pat(word@, p),
            forall|k: int| 0 <= k < n ==> fnv_set_words(perms).contains(#[trigger] delete_at(word@, k)),
            forall|k: int| 0 <= k < n ==> fnv_set_words(perms).contains(#[trigger] subst_at(word@, k)),
            forall|k: int| 0 <= k < i ==> fnv_set_words(perms).contains(#[trigger] insert_at(word@, k)),
        decreases n - i,
    {
        let mut pv = copy_chars(&chars);
        pv.insert(i, '*');
        proof {
            assert(pv@ =~= insert_at(word@, i as int));
            assert(is_one_edit_pat(word@, insert_at(word@, i as int)));
        }
        let s = string_of(&pv);
        fnv_set_insert(&mut perms, s);
        i = i + 1;
    }
    let mut pv = copy_chars(&chars);
    pv.push('*');
    proof {
        assert(pv@ =~= insert_at(word@, n as int));
        assert(is_one_edit_pat(word@, insert_at(word@, n as int)));
    }
    let s = string_of(&pv);
    fnv_set_insert(&mut perms, s);

    // transpositions of adjacent characters
    let mut i: usize = 0;
    while n > 0 && i < n - 1
        invariant
            n == chars@.len(),
            chars@ == word@,
            n > 0 ==> i <= n - 1,
            n == 0 ==> i == 0,
            forall|p: Seq<char>|
                fnv_set_words(perms).contains(p) ==> #[trigger] is_one_edit_pat(word@, p),
            forall|k: int| 0 <= k < n ==> fnv_set_words(perms).contains(#[trigger] delete_at(word@, k)),
            forall|k: int| 0 <= k < n ==> fnv_set_words(perms).contains(#[trigger] subst_at(word@, k)),
            forall|k: int| 0 <= k <= n ==> fnv_set_words(perms).contains(#[trigger] insert_at(word@, k)),
            forall|k: int| 0 <= k < i ==> fnv_set_words(perms).contains(#[trigger] swap_at(word@, k)),
        decreases n - i,
    {
        let mut pv = copy_chars(&chars);
        let a = chars[i];
        let b = chars[i + 1];
        pv[i] = b;
        pv[i + 1] = a;
        proof {
            assert(pv@ =~= swap_at(word@, i as int));
            assert(is_one_edit_pat(word@, swap_at(word@, i as int)));
        }
        let s = string_of(&pv);
        fnv_set_insert(&mut perms, s);
        i = i + 1;
    }

    let r = fnv_set_into_vec(perms);
    proof {
        assert forall|p: Seq<char>| is_one_edit_pat(word@, p) implies has_view(r@, p) by {
            assert(fnv_set_words(perms).contains(p)) by {
                if exists|k: int| 0 <= k < word@.len() && p == delete_at(word@, k) {
                    let k = choose|k: int| 0 <= k < word@.len() && p == delete_at(word@, k);
                    assert(fnv_set_words(perms).contains(delete_at(word@, k)));
                } else if exists|k: int| 0 <= k < word@.len() && p == subst_at(word@, k) {
                    let k = choose|k: int| 0 <= k < word@.len() && p == subst_at(word@, k);
                    assert(fnv_set_words(perms).contains(subst_at(word@, k)));
                } else if exists|k: int| 0 <= k <= word@.len() && p == insert_at(word@, k) {
                    let k = choose|k: int| 0 <= k <= word@.len() && p == insert_at(word@, k);
                    assert(fnv_set_words(perms).contains(insert_at(word@, k)));
                } else {
                    let k = choose|k: int| 0 <= k && k + 1 < word@.len() && p == swap_at(word@, k);
                    assert(fnv_set_words(perms).contains(swap_at(word@, k)));
                }
            }
            let j = choose|j: int| 0 <= j < r@.len() && (#[trigger] r@[j])@ == p;
            assert(has_view(r@, p));
        }
    }
    r
}

} // verus!
