use vstd::prelude::*;

verus! {

/// One position of a compiled wildcard pattern: it accepts either any
/// single character, or exactly the character it names.
#[derive(Debug, Clone, Copy)]
pub enum CharMatcher {
    Any,
    Exact(char),
}

/// What a single matcher accepts.
pub open spec fn matcher_fits(m: CharMatcher, c: char) -> bool {
    match m {
        CharMatcher::Any => true,
        CharMatcher::Exact(e) => e == c,
    }
}

/// The matcher one character of a pattern string compiles to: `*`
/// becomes `Any`, every other character matches only itself.
pub open spec fn matcher_of(c: char) -> CharMatcher {
    if c == '*' {
        CharMatcher::Any
    } else {
        CharMatcher::Exact(c)
    }
}

/// The matcher sequence that a whole pattern string compiles to.
pub open spec fn compile(s: Seq<char>) -> Seq<CharMatcher> {
    Seq::new(s.len(), |i: int| matcher_of(s[i]))
}

/// A matcher sequence matches exactly the words of its own length whose
/// every position fits the matcher at that position.
pub open spec fn pat_matches(p: Seq<CharMatcher>, w: Seq<char>) -> bool {
    &&& p.len() == w.len()
    &&& forall|i: int| 0 <= i < p.len() ==> matcher_fits(#[trigger] p[i], w[i])
}

/// A wildcard string matches a word when its compiled form does.
pub open spec fn str_matches(p: Seq<char>, w: Seq<char>) -> bool {
    pat_matches(compile(p), w)
}

/// A nonempty matcher sequence matches a word exactly when the word is
/// nonempty, its first character fits the first matcher, and the rest
/// of the word matches the rest of the sequence.
pub proof fn lemma_pat_step(p: Seq<CharMatcher>, w: Seq<char>)
    requires
        p.len() > 0,
    ensures
        pat_matches(p, w) <==> (w.len() > 0 && matcher_fits(p[0], w[0]) && pat_matches(
            p.drop_first(),
            w.drop_first(),
        )),
{
    assert(p.drop_first().len() == p.len() - 1);
    if pat_matches(p, w) {
        assert(w.len() > 0);
        assert(w.drop_first().len() == w.len() - 1);
        assert(matcher_fits(p[0], w[0]));
        assert forall|i: int| 0 <= i < p.drop_first().len() implies matcher_fits(
            #[trigger] p.drop_first()[i],
            w.drop_first()[i],
        ) by {
            assert(p.drop_first()[i] == p[i + 1]);
            assert(w.drop_first()[i] == w[i + 1]);
        }
    }
    if w.len() > 0 && matcher_fits(p[0], w[0]) && pat_matches(p.drop_first(), w.drop_first()) {
        assert(w.drop_first().len() == w.len() - 1);
        assert(p.len() == w.len());
        assert forall|i: int| 0 <= i < p.len() implies matcher_fits(#[trigger] p[i], w[i]) by {
            if i > 0 {
                assert(p.drop_first()[i - 1] == p[i]);
                assert(w.drop_first()[i - 1] == w[i]);
                assert(matcher_fits(p.drop_first()[i - 1], w.drop_first()[i - 1]));
            }
        }
    }
}

/// A compiled wildcard pattern, together with the string it came from.
#[derive(Debug)]
pub struct Pattern {
    pattern: Vec<CharMatcher>,
    pattern_string: String,
}

impl Pattern {
    /// The compiled matcher sequence.
    pub closed spec fn matchers(self) -> Seq<CharMatcher> {
        self.pattern@
    }

    /// The pattern string this was built from.
    pub closed spec fn source(self) -> Seq<char> {
        self.pattern_string@
    }

    /// Builds a Pattern from the given str; the character `*` is a
    /// wildcard. For example `c*t` matches `cat` and `cut`.
    pub fn from_str(pattern_str: &str) -> (p: Self)
        ensures
            p.matchers() == compile(pattern_str@),
            p.source() == pattern_str@,
    {
        let n = pattern_str.unicode_len();
        let mut pattern: Vec<CharMatcher> = Vec::new();
        let mut i: usize = 0;
        while i < n
            invariant
                n == pattern_str@.len(),
                i <= n,
                pattern@.len() == i,
                forall|j: int| 0 <= j < i ==> pattern@[j] == compile(pattern_str@)[j],
            decreases n - i,
        {
            let c = pattern_str.get_char(i);
            let matcher = if c == '*' {
                CharMatcher::Any
            } else {
                CharMatcher::Exact(c)
            };
            pattern.push(matcher);
            i = i + 1;
        }
        proof {
            assert(pattern@ =~= compile(pattern_str@));
        }
        Pattern { pattern, pattern_string: pattern_str.to_owned() }
    }

    /// The elements of this pattern, in order.
    pub fn iter(&self) -> (r: &Vec<CharMatcher>)
        ensures
            r@ == self.matchers(),
    {
        &self.pattern
    }
}

} // verus!
