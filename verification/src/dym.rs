use vstd::prelude::*;

use crate::shims::string_of;
use crate::text::{chars_of, has_view, string_vec_has, string_views, views_distinct};
use vstd::utf8::char_u32_cast;

verus! {

/// One primitive edit of a word.
#[derive(Debug, Clone, Copy)]
pub enum Transformation {
    /// Delete the character at the index.
    Delete(usize),
    /// Insert the character at the index.
    Insert(char, usize),
    /// Swap the character at the index with the one after it.
    Swap(usize),
    /// Replace the character at the index with the character.
    Replace(usize, char),
}

/// Whether `c` is one of the lowercase letters a through z.
pub open spec fn is_lower_alpha(c: char) -> bool {
    97 <= c as u32 && c as u32 <= 122
}

/// The word with the characters at positions `i` and `i + 1` exchanged.
pub open spec fn alpha_swap(w: Seq<char>, i: int) -> Seq<char> {
    w.update(i, w[i + 1]).update(i + 1, w[i])
}

/// Whether `v` comes from `w` by one edit spelled out over the
/// lowercase alphabet: deleting a character, replacing one with a
/// letter a through z, exchanging two adjacent characters, or
/// inserting a letter a through z.
pub open spec fn is_alpha_perm(w: Seq<char>, v: Seq<char>) -> bool {
    ||| exists|i: int| 0 <= i < w.len() && v == w.remove(i)
    ||| exists|i: int, c: char| 0 <= i < w.len() && is_lower_alpha(c) && v == w.update(i, c)
    ||| exists|i: int| 0 <= i && i + 1 < w.len() && v == alpha_swap(w, i)
    ||| exists|i: int, c: char| 0 <= i <= w.len() && is_lower_alpha(c) && v == w.insert(i, c)
}

/// Whether `s` is `w` with position `i` replaced by some letter a
/// through z.
pub open spec fn is_replacement_of(s: String, w: Seq<char>, i: int) -> bool {
    exists|c: char| is_lower_alpha(c) && s@ == #[trigger] w.update(i, c)
}

/// Whether `s` is `w` with some letter a through z inserted at
/// position `i`.
pub open spec fn is_insertion_of(s: String, w: Seq<char>, i: int) -> bool {
    exists|c: char| is_lower_alpha(c) && s@ == #[trigger] w.insert(i, c)
}

/// The word with the character at index `i` removed.
pub fn delete_char(word: &str, i: usize) -> (r: String)
    requires
        i < word@.len(),
    ensures
        r@ == word@.remove(i as int),
{
    let mut wc = chars_of(word);
    wc.remove(i);
    string_of(&wc)
}

/// The word with the characters at indexes `i` and `i + 1` exchanged.
pub fn swap_chars(word: &str, i: usize) -> (r: String)
    requires
        i + 1 < word@.len(),
    ensures
        r@ == alpha_swap(word@, i as int),
{
    let mut wc = chars_of(word);
    let n = wc.len();
    let a = wc[i];
    let b = wc[i + 1];
    wc[i] = b;
    wc[i + 1] = a;
    string_of(&wc)
}

/// The word with the character at index `i` replaced.
pub fn replace_char(word: &str, i: usize, replacement: char) -> (r: String)
    requires
        i < word@.len(),
    ensures
        r@ == word@.update(i as int, replacement),
{
    let mut wc = chars_of(word);
    wc[i] = replacement;
    string_of(&wc)
}

/// The word with `insert` inserted at index `i`.
pub fn insert_char(word: &str, i: usize, insert: char) -> (r: String)
    requires
        i <= word@.len(),
    ensures
        r@ == word@.insert(i as int, insert),
{
    let mut wc = chars_of(word);
    wc.insert(i, insert);
    string_of(&wc)
}

/// Every word one alphabet edit away from the given word, spelled out
/// letter by letter: all deletions, then all a-z replacements, then
/// all adjacent swaps, then all a-z insertions, repeats allowed. The
/// four groups are independent, so an implementation may compute them
/// in any order or in parallel without changing the contents.
pub fn get_permutations(word: &str) -> (r: Vec<String>)
    ensures
        forall|j: int| 0 <= j < r@.len() ==> is_alpha_perm(word@, (#[trigger] r@[j])@),
        forall|v: Seq<char>| is_alpha_perm(word@, v) ==> has_view(r@, v),
{
    let n = word.unicode_len();
    let mut out: Vec<String> = Vec::new();

    // deletions
    let mut i: usize = 0;
    while i < n
        invariant
            n == word@.len(),
            i <= n,
            forall|j: int| 0 <= j < out@.len() ==> is_alpha_perm(word@, (#[trigger] out@[j])@),
            forall|k: int| 0 <= k < i ==> has_view(out@, #[trigger] word@.remove(k)),
        decreases n - i,
    {
        let ghost out0 = out@;
        let d = delete_char(word, i);
        out.push(d);
        proof {
            assert(out@[out0.len() as int]@ == word@.remove(i as int));
            assert(is_alpha_perm(word@, word@.remove(i as int)));
            assert forall|k: int| 0 <= k < i + 1 implies has_view(
                out@,
                #[trigger] word@.remove(k),
            ) by {
                if k < i {
                    let j = choose|j: int|
                        0 <= j < out0.len() && (#[trigger] out0[j])@ == word@.remove(k);
                    assert(out@[j] == out0[j]);
                }
            }
        }
        i = i + 1;
    }

    // replacements by each letter a through z
    let mut i: usize = 0;
    while i < n
        invariant
            n == word@.len(),
            i <= n,
            forall|j: int| 0 <= j < out@.len() ==> is_alpha_perm(word@, (#[trigger] out@[j])@),
            forall|k: int| 0 <= k < n ==> has_view(out@, #[trigger] word@.remove(k)),
            forall|k: int, c: char|
                #![trigger word@.update(k, c)]
                0 <= k < i && is_lower_alpha(c) ==> has_view(out@, word@.update(k, c)),
        decreases n - i,
    {
        let ghost out0 = out@;
        push_replacements(&mut out, word, i);
        proof {
            assert forall|j: int| 0 <= j < out@.len() implies is_alpha_perm(
                word@,
                (#[trigger] out@[j])@,
            ) by {
                if j >= out0.len() {
                    assert(is_replacement_of(out@[j], word@, i as int));
                    let c = choose|c: char|
                        is_lower_alpha(c) && out@[j]@ == #[trigger] word@.update(i as int, c);
                    assert(out@[j]@ == word@.update(i as int, c));
                }
            }
            assert forall|k: int| 0 <= k < n implies has_view(out@, #[trigger] word@.remove(k)) by {
                let j = choose|j: int| 0 <= j < out0.len() && (#[trigger] out0[j])@ == word@.remove(k);
                assert(out@[j] == out0[j]);
            }
            assert forall|k: int, c: char|
                #![trigger word@.update(k, c)]
                0 <= k < i + 1 && is_lower_alpha(c) implies has_view(out@, word@.update(k, c)) by {
                if k < i {
                    let j = choose|j: int|
                        0 <= j < out0.len() && (#[trigger] out0[j])@ == word@.update(k, c);
                    assert(out@[j] == out0[j]);
                }
            }
        }
        i = i + 1;
    }

    // swaps of adjacent characters
    let mut i: usize = 0;
    while n > 0 && i < n - 1
        invariant
            n == word@.len(),
            n > 0 ==> i <= n - 1,
            n == 0 ==> i == 0,
            forall|j: int| 0 <= j < out@.len() ==> is_alpha_perm(word@, (#[trigger] out@[j])@),
            forall|k: int| 0 <= k < n ==> has_view(out@, #[trigger] word@.remove(k)),
            forall|k: int, c: char|
                #![trigger word@.update(k, c)]
                0 <= k < n && is_lower_alpha(c) ==> has_view(out@, word@.update(k, c)),
            forall|k: int| 0 <= k < i ==> has_view(out@, #[trigger] alpha_swap(word@, k)),
        decreases n - i,
    {
        let ghost out0 = out@;
        let sw = swap_chars(word, i);
        out.push(sw);
        proof {
            let v = alpha_swap(word@, i as int);
            assert(out@[out0.len() as int]@ == v);
            assert(is_alpha_perm(word@, v));
            assert forall|k: int| 0 <= k < n implies has_view(out@, #[trigger] word@.remove(k)) by {
                let j = choose|j: int| 0 <= j < out0.len() && (#[trigger] out0[j])@ == word@.remove(k);
                assert(out@[j] == out0[j]);
            }
            assert forall|k: int, c: char|
                #![trigger word@.update(k, c)]
                0 <= k < n && is_lower_alpha(c) implies has_view(out@, word@.update(k, c)) by {
                let j = choose|j: int|
                    0 <= j < out0.len() && (#[trigger] out0[j])@ == word@.update(k, c);
                assert(out@[j] == out0[j]);
            }
            assert forall|k: int| 0 <= k < i + 1 implies has_view(
                out@,
                #[trigger] alpha_swap(word@, k),
            ) by {
                if k < i {
                    let j = choose|j: int|
                        0 <= j < out0.len() && (#[trigger] out0[j])@ == alpha_swap(word@, k);
                    assert(out@[j] == out0[j]);
                }
            }
        }
        i = i + 1;
    }

    // insertions of each letter a through z, at every position up to
    // and including the end
    let mut i: usize = 0;
    while i < n
        invariant
            n == word@.len(),
            i <= n,
            forall|j: int| 0 <= j < out@.len() ==> is_alpha_perm(word@, (#[trigger] out@[j])@),
            forall|k: int| 0 <= k < n ==> has_view(out@, #[trigger] word@.remove(k)),
            forall|k: int, c: char|
                #![trigger word@.update(k, c)]
                0 <= k < n && is_lower_alpha(c) ==> has_view(out@, word@.update(k, c)),
            forall|k: int| 0 <= k && k + 1 < n ==> has_view(out@, #[trigger] alpha_swap(word@, k)),
            forall|k: int, c: char|
                #![trigger word@.insert(k, c)]
                0 <= k < i && is_lower_alpha(c) ==> has_view(out@, word@.insert(k, c)),
        decreases n - i,
    {
        let ghost out0 = out@;
        push_insertions(&mut out, word, i);
        proof {
            lemma_insert_block(word@, i as int, out0, out@, n as int);
        }
        i = i + 1;
    }
    let ghost out0 = out@;
    push_insertions(&mut out, word, n);
    proof {
        lemma_insert_block(word@, n as int, out0, out@, n as int);
        assert forall|v: Seq<char>| is_alpha_perm(word@, v) implies has_view(out@, v) by {
            if exists|k: int| 0 <= k < word@.len() && v == word@.remove(k) {
                let k = choose|k: int| 0 <= k < word@.len() && v == word@.remove(k);
                assert(has_view(out@, word@.remove(k)));
            } else if exists|k: int, c: char|
                0 <= k < word@.len() && is_lower_alpha(c) && v == word@.update(k, c) {
                let (k, c) = choose|k: int, c: char|
                    0 <= k < word@.len() && is_lower_alpha(c) && v == word@.update(k, c);
                assert(has_view(out@, word@.update(k, c)));
            } else if exists|k: int| 0 <= k && k + 1 < word@.len() && v == alpha_swap(word@, k) {
                let k = choose|k: int| 0 <= k && k + 1 < word@.len() && v == alpha_swap(word@, k);
                assert(has_view(out@, alpha_swap(word@, k)));
            } else {
                let (k, c) = choose|k: int, c: char|
                    0 <= k <= word@.len() && is_lower_alpha(c) && v == word@.insert(k, c);
                assert(has_view(out@, word@.insert(k, c)));
            }
        }
    }
    out
}

/// After an insertion block at position `i`, every fact the list held
/// still holds and the block's own insertions are all present.
proof fn lemma_insert_block(w: Seq<char>, i: int, before: Seq<String>, after: Seq<String>, n: int)
    requires
        n == w.len(),
        0 <= i <= n,
        after.len() >= before.len(),
        forall|j: int| 0 <= j < before.len() ==> after[j] == before[j],
        forall|j: int|
            before.len() <= j < after.len() ==> is_insertion_of(#[trigger] after[j], w, i),
        forall|c: char| is_lower_alpha(c) ==> has_view(after, #[trigger] w.insert(i, c)),
        forall|j: int| 0 <= j < before.len() ==> is_alpha_perm(w, (#[trigger] before[j])@),
        forall|k: int| 0 <= k < n ==> has_view(before, #[trigger] w.remove(k)),
        forall|k: int, c: char|
            #![trigger w.update(k, c)]
            0 <= k < n && is_lower_alpha(c) ==> has_view(before, w.update(k, c)),
        forall|k: int| 0 <= k && k + 1 < n ==> has_view(before, #[trigger] alpha_swap(w, k)),
        forall|k: int, c: char|
            #![trigger w.insert(k, c)]
            0 <= k < i && is_lower_alpha(c) ==> has_view(before, w.insert(k, c)),
    ensures
        forall|j: int| 0 <= j < after.len() ==> is_alpha_perm(w, (#[trigger] after[j])@),
        forall|k: int| 0 <= k < n ==> has_view(after, #[trigger] w.remove(k)),
        forall|k: int, c: char|
            #![trigger w.update(k, c)]
            0 <= k < n && is_lower_alpha(c) ==> has_view(after, w.update(k, c)),
        forall|k: int| 0 <= k && k + 1 < n ==> has_view(after, #[trigger] alpha_swap(w, k)),
        forall|k: int, c: char|
            #![trigger w.insert(k, c)]
            0 <= k < i + 1 && is_lower_alpha(c) ==> has_view(after, w.insert(k, c)),
{
    assert forall|j: int| 0 <= j < after.len() implies is_alpha_perm(w, (#[trigger] after[j])@) by {
        if j < before.len() {
            assert(after[j] == before[j]);
        } else {
            assert(is_insertion_of(after[j], w, i));
            let c = choose|c: char| is_lower_alpha(c) && after[j]@ == #[trigger] w.insert(i, c);
            assert(after[j]@ == w.insert(i, c));
        }
    }
    assert forall|k: int| 0 <= k < n implies has_view(after, #[trigger] w.remove(k)) by {
        let j = choose|j: int| 0 <= j < before.len() && (#[trigger] before[j])@ == w.remove(k);
        assert(after[j] == before[j]);
    }
    assert forall|k: int, c: char|
        #![trigger w.update(k, c)]
        0 <= k < n && is_lower_alpha(c) implies has_view(after, w.update(k, c)) by {
        let j = choose|j: int| 0 <= j < before.len() && (#[trigger] before[j])@ == w.update(k, c);
        assert(after[j] == before[j]);
    }
    assert forall|k: int| 0 <= k && k + 1 < n implies has_view(after, #[trigger] alpha_swap(w, k)) by {
        let j = choose|j: int| 0 <= j < before.len() && (#[trigger] before[j])@ == alpha_swap(w, k);
        assert(after[j] == before[j]);
    }
    assert forall|k: int, c: char|
        #![trigger w.insert(k, c)]
        0 <= k < i + 1 && is_lower_alpha(c) implies has_view(after, w.insert(k, c)) by {
        if k < i {
            let j = choose|j: int| 0 <= j < before.len() && (#[trigger] before[j])@ == w.insert(k, c);
            assert(after[j] == before[j]);
        }
    }
}

/// Appends the replacement of position `i` by each letter a through z.
fn push_replacements(out: &mut Vec<String>, word: &str, i: usize)
    requires
        i < word@.len(),
    ensures
        final(out)@.len() >= old(out)@.len(),
        forall|j: int| 0 <= j < old(out)@.len() ==> final(out)@[j] == old(out)@[j],
        forall|j: int|
            old(out)@.len() <= j < final(out)@.len() ==> is_replacement_of(
                #[trigger] final(out)@[j],
                word@,
                i as int,
            ),
        forall|c: char|
            is_lower_alpha(c) ==> has_view(final(out)@, #[trigger] word@.update(i as int, c)),
{
    let ghost base = out@;
    let mut code: u8 = 97;
    while code <= 122
        invariant
            i < word@.len(),
            97 <= code <= 123,
            out@.len() >= base.len(),
            forall|j: int| 0 <= j < base.len() ==> out@[j] == base[j],
            forall|j: int|
                base.len() <= j < out@.len() ==> is_replacement_of(
                    #[trigger] out@[j],
                    word@,
                    i as int,
                ),
            forall|c: char|
                #![trigger word@.update(i as int, c)]
                is_lower_alpha(c) && (c as u32) < code ==> has_view(
                    out@,
                    word@.update(i as int, c),
                ),
        decreases 123 - code,
    {
        let ch = code as char;
        let ghost out0 = out@;
        let rep = replace_char(word, i, ch);
        out.push(rep);
        proof {
            assert(ch as u32 == code as u32);
            assert(is_lower_alpha(ch));
            assert(out@[out0.len() as int]@ == word@.update(i as int, ch));
            assert forall|j: int|
                base.len() <= j < out@.len() implies is_replacement_of(
                #[trigger] out@[j],
                word@,
                i as int,
            ) by {
                if j < out0.len() {
                    assert(out@[j] == out0[j]);
                    assert(is_replacement_of(out0[j], word@, i as int));
                } else {
                    assert(is_lower_alpha(ch) && out@[j]@ == word@.update(i as int, ch));
                }
            }
            assert forall|c: char|
                #![trigger word@.update(i as int, c)]
                is_lower_alpha(c) && (c as u32) < code + 1 implies has_view(
                out@,
                word@.update(i as int, c),
            ) by {
                if (c as u32) < code {
                    let j = choose|j: int|
                        0 <= j < out0.len() && (#[trigger] out0[j])@ == word@.update(i as int, c);
                    assert(out@[j] == out0[j]);
                } else {
                    char_u32_cast(c, c as u32);
                    char_u32_cast(ch, ch as u32);
                    assert(c == ch);
                    assert(has_view(out@, word@.update(i as int, c)));
                }
            }
        }
        code = code + 1;
    }
}

/// Appends the insertion of each letter a through z at position `i`.
fn push_insertions(out: &mut Vec<String>, word: &str, i: usize)
    requires
        i <= word@.len(),
    ensures
        final(out)@.len() >= old(out)@.len(),
        forall|j: int| 0 <= j < old(out)@.len() ==> final(out)@[j] == old(out)@[j],
        forall|j: int|
            old(out)@.len() <= j < final(out)@.len() ==> is_insertion_of(
                #[trigger] final(out)@[j],
                word@,
                i as int,
            ),
        forall|c: char|
            is_lower_alpha(c) ==> has_view(final(out)@, #[trigger] word@.insert(i as int, c)),
{
    let ghost base = out@;
    let mut code: u8 = 97;
    while code <= 122
        invariant
            i <= word@.len(),
            97 <= code <= 123,
            out@.len() >= base.len(),
            forall|j: int| 0 <= j < base.len() ==> out@[j] == base[j],
            forall|j: int|
                base.len() <= j < out@.len() ==> is_insertion_of(
                    #[trigger] out@[j],
                    word@,
                    i as int,
                ),
            forall|c: char|
                #![trigger word@.insert(i as int, c)]
                is_lower_alpha(c) && (c as u32) < code ==> has_view(
                    out@,
                    word@.insert(i as int, c),
                ),
        decreases 123 - code,
    {
        let ch = code as char;
        let ghost out0 = out@;
        let ins = insert_char(word, i, ch);
        out.push(ins);
        proof {
            assert(ch as u32 == code as u32);
            assert(is_lower_alpha(ch));
            assert(out@[out0.len() as int]@ == word@.insert(i as int, ch));
            assert forall|j: int|
                base.len() <= j < out@.len() implies is_insertion_of(
                #[trigger] out@[j],
                word@,
                i as int,
            ) by {
                if j < out0.len() {
                    assert(out@[j] == out0[j]);
                    assert(is_insertion_of(out0[j], word@, i as int));
                } else {
                    assert(is_lower_alpha(ch) && out@[j]@ == word@.insert(i as int, ch));
                }
            }
            assert forall|c: char|
                #![trigger word@.insert(i as int, c)]
                is_lower_alpha(c) && (c as u32) < code + 1 implies has_view(
                out@,
                word@.insert(i as int, c),
            ) by {
                if (c as u32) < code {
                    let j = choose|j: int|
                        0 <= j < out0.len() && (#[trigger] out0[j])@ == word@.insert(i as int, c);
                    assert(out@[j] == out0[j]);
                } else {
                    char_u32_cast(c, c as u32);
                    char_u32_cast(ch, ch as u32);
                    assert(c == ch);
                    assert(has_view(out@, word@.insert(i as int, c)));
                }
            }
        }
        code = code + 1;
    }
}

/// A plain dictionary: a deduplicated list of known words.
#[derive(Debug)]
pub struct Dictionary {
    pub words: Vec<String>,
}

impl Dictionary {
    /// Creates an empty dictionary.
    pub fn new() -> (d: Dictionary)
        ensures
            d.words@.len() == 0,
            views_distinct(d.words@),
            string_views(d.words@) == Set::<Seq<char>>::empty(),
    {
        let d = Dictionary { words: Vec::new() };
        proof {
            assert(string_views(d.words@) =~= Set::<Seq<char>>::empty());
        }
        d
    }

    /// Adds a word, if it is not yet known.
    pub fn insert(&mut self, word: &str)
        requires
            views_distinct(old(self).words@),
        ensures
            views_distinct(final(self).words@),
            string_views(final(self).words@) == string_views(old(self).words@).insert(word@),
    {
        if string_vec_has(&self.words, word) {
            proof {
                assert(string_views(self.words@) =~= string_views(old(self).words@).insert(word@));
            }
            return ;
        }
        let ghost ws0 = self.words@;
        self.words.push(word.to_owned());
        proof {
            assert(self.words@[ws0.len() as int]@ == word@);
            assert forall|j1: int, j2: int|
                0 <= j1 < j2 < self.words@.len() implies (#[trigger] self.words@[j1])@ != (
            #[trigger] self.words@[j2])@ by {
                if j2 == ws0.len() {
                    assert(self.words@[j1] == ws0[j1]);
                    assert(!has_view(ws0, word@));
                }
            }
            assert forall|v: Seq<char>|
                string_views(self.words@).contains(v) <==> string_views(ws0).insert(
                    word@,
                ).contains(v) by {
                if has_view(self.words@, v) {
                    let j = choose|j: int|
                        0 <= j < self.words@.len() && (#[trigger] self.words@[j])@ == v;
                    if j < ws0.len() {
                        assert(ws0[j] == self.words@[j]);
                        assert(has_view(ws0, v));
                    }
                }
                if has_view(ws0, v) {
                    let j = choose|j: int| 0 <= j < ws0.len() && (#[trigger] ws0[j])@ == v;
                    assert(self.words@[j] == ws0[j]);
                    assert(has_view(self.words@, v));
                }
                if v == word@ {
                    assert(self.words@[ws0.len() as int]@ == v);
                    assert(has_view(self.words@, v));
                }
            }
            assert(string_views(self.words@) =~= string_views(ws0).insert(word@));
        }
    }

    /// Whether the dictionary knows the word.
    pub fn contains(&self, word: &str) -> (r: bool)
        ensures
            r == string_views(self.words@).contains(word@),
    {
        string_vec_has(&self.words, word)
    }
}

/// Something that can propose known words for a misspelled one.
pub trait SpellChecker {
    /// Whether the checker's internal state is consistent.
    spec fn inv(&self) -> bool;

    /// The set of words the checker knows.
    spec fn dict(&self) -> Set<Seq<char>>;

    /// Suggests dictionary words for the given word: the word itself,
    /// alone, if it is known; otherwise every known word one alphabet
    /// edit away, each once.
    fn suggest(&self, word: &str) -> (r: Vec<String>)
        requires
            self.inv(),
        ensures
            self.dict().contains(word@) ==> r@.len() == 1 && r@[0]@ == word@,
            !self.dict().contains(word@) ==> {
                &&& forall|j: int|
                    0 <= j < r@.len() ==> self.dict().contains((#[trigger] r@[j])@)
                        && is_alpha_perm(word@, r@[j]@)
                &&& forall|v: Seq<char>|
                    self.dict().contains(v) && is_alpha_perm(word@, v) ==> has_view(r@, v)
                &&& views_distinct(r@)
            },
    ;
}

impl SpellChecker for Dictionary {
    open spec fn inv(&self) -> bool {
        views_distinct(self.words@)
    }

    open spec fn dict(&self) -> Set<Seq<char>> {
        string_views(self.words@)
    }

    fn suggest(&self, word: &str) -> (r: Vec<String>) {
        if string_vec_has(&self.words, word) {
            let mut r: Vec<String> = Vec::new();
            r.push(word.to_owned());
            return r;
        }
        let perms = get_permutations(word);
        let np = perms.len();
        let mut out: Vec<String> = Vec::new();
        let mut t: usize = 0;
        while t < np
            invariant
                np == perms@.len(),
                t <= np,
                views_distinct(self.words@),
                forall|j: int| 0 <= j < np ==> is_alpha_perm(word@, (#[trigger] perms@[j])@),
                forall|v: Seq<char>| is_alpha_perm(word@, v) ==> has_view(perms@, v),
                forall|j: int|
                    0 <= j < out@.len() ==> string_views(self.words@).contains(
                        (#[trigger] out@[j])@,
                    ) && is_alpha_perm(word@, out@[j]@),
                forall|tt: int|
                    0 <= tt < t && string_views(self.words@).contains((#[trigger] perms@[tt])@)
                        ==> has_view(out@, perms@[tt]@),
                views_distinct(out@),
            decreases np - t,
        {
            let p = &perms[t];
            if string_vec_has(&self.words, p.as_str()) && !string_vec_has(&out, p.as_str()) {
                let ghost out0 = out@;
                out.push(p.clone());
                proof {
                    assert(out@[out0.len() as int]@ == perms@[t as int]@);
                    assert forall|j1: int, j2: int|
                        0 <= j1 < j2 < out@.len() implies (#[trigger] out@[j1])@ != (
                    #[trigger] out@[j2])@ by {
                        if j2 == out0.len() {
                            assert(out@[j1] == out0[j1]);
                            assert(!has_view(out0, perms@[t as int]@));
                        }
                    }
                    assert forall|tt: int|
                        0 <= tt < t + 1 && string_views(self.words@).contains(
                            (#[trigger] perms@[tt])@,
                        ) implies has_view(out@, perms@[tt]@) by {
                        if tt < t {
                            let j = choose|j: int|
                                0 <= j < out0.len() && (#[trigger] out0[j])@ == perms@[tt]@;
                            assert(out@[j] == out0[j]);
                            assert(has_view(out@, perms@[tt]@));
                        } else {
                            assert(has_view(out@, perms@[tt]@));
                        }
                    }
                }
            } else {
                proof {
                    assert forall|tt: int|
                        0 <= tt < t + 1 && string_views(self.words@).contains(
                            (#[trigger] perms@[tt])@,
                        ) implies has_view(out@, perms@[tt]@) by {}
                }
            }
            t = t + 1;
        }
        proof {
            assert forall|v: Seq<char>|
                string_views(self.words@).contains(v) && is_alpha_perm(word@, v) implies has_view(
                out@,
                v,
            ) by {
                let tt = choose|tt: int| 0 <= tt < perms@.len() && (#[trigger] perms@[tt])@ == v;
                assert(string_views(self.words@).contains(perms@[tt]@));
            }
        }
        out
    }
}

} // verus!
