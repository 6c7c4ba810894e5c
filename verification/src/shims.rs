use vstd::prelude::*;
use std::collections::HashSet;

verus! {

/// Builds the String holding exactly the given characters.
/// Relies on `String`'s `FromIterator<char>`: collecting characters
/// yields the string of exactly those characters, in order.
#[verifier::external_body]
pub(crate) fn string_of(v: &Vec<char>) -> (s: String)
    ensures
        s@ == v@,
{
    v.iter().collect()
}

/// The sequence that `str::trim` leaves of a character sequence.
pub uninterp spec fn trim_of(s: Seq<char>) -> Seq<char>;

/// Relies on str::trim: the slice with leading and trailing whitespace
/// removed — a function of the character sequence alone.
#[verifier::external_body]
pub(crate) fn trim(s: &str) -> (r: &str)
    ensures
        r@ == trim_of(s@),
{
    s.trim()
}

/// The sequence that `str::to_lowercase` makes of a character sequence.
pub uninterp spec fn lower_of(s: Seq<char>) -> Seq<char>;

/// Relies on str::to_lowercase: the Unicode lowercase form of the
/// string — a function of the character sequence alone.
#[verifier::external_body]
pub(crate) fn to_lowercase(s: &str) -> (r: String)
    ensures
        r@ == lower_of(s@),
{
    s.to_lowercase()
}

/// The Levenshtein distance as strsim computes it.
pub uninterp spec fn lev_dist(a: Seq<char>, b: Seq<char>) -> nat;

/// Relies on strsim::levenshtein: the minimum number of one-character
/// insertions, deletions and substitutions turning one string into the
/// other — a function of the two character sequences alone. Each edit
/// is invertible, so the minimum is the same in both directions, and
/// it is zero exactly when the strings are equal.
#[verifier::external_body]
pub(crate) fn levenshtein(a: &str, b: &str) -> (d: usize)
    ensures
        d as nat == lev_dist(a@, b@),
        d as nat == lev_dist(b@, a@),
        d == 0 <==> a@ == b@,
{
    strsim::levenshtein(a, b)
}

#[verifier::external_type_specification]
#[verifier::external_body]
#[verifier::reject_recursive_types(H)]
pub struct ExBuildHasherDefault<H>(core::hash::BuildHasherDefault<H>);

#[verifier::external_type_specification]
#[verifier::external_body]
pub struct ExFnvHasher(fnv::FnvHasher);

/// The words a fnv-hashed set of strings holds, as character sequences.
pub uninterp spec fn fnv_set_words(s: HashSet<String, fnv::FnvBuildHasher>) -> Set<Seq<char>>;

/// Relies on fnv's `FnvHashSet` (std's HashSet with the Fowler–Noll–Vo
/// hasher): a set built by `Default` starts empty.
#[verifier::external_body]
pub(crate) fn fnv_set_new() -> (s: HashSet<String, fnv::FnvBuildHasher>)
    ensures
        fnv_set_words(s) == Set::<Seq<char>>::empty(),
{
    fnv::FnvHashSet::default()
}

/// Relies on `HashSet::insert`: `String` keys compare by their
/// characters, so afterwards the set holds the old contents plus this
/// word and nothing else.
#[verifier::external_body]
pub(crate) fn fnv_set_insert(s: &mut HashSet<String, fnv::FnvBuildHasher>, w: String)
    ensures
        fnv_set_words(*final(s)) == fnv_set_words(*old(s)).insert(w@),
{
    s.insert(w);
}

/// Relies on `HashSet::into_iter`: it yields each element of the set
/// exactly once, in an unspecified order.
#[verifier::external_body]
pub(crate) fn fnv_set_into_vec(s: HashSet<String, fnv::FnvBuildHasher>) -> (r: Vec<String>)
    ensures
        forall|j: int| 0 <= j < r@.len() ==> fnv_set_words(s).contains((#[trigger] r@[j])@),
        forall|v: Seq<char>|
            fnv_set_words(s).contains(v) ==> exists|j: int|
                0 <= j < r@.len() && (#[trigger] r@[j])@ == v,
        forall|j1: int, j2: int| 0 <= j1 < j2 < r@.len() ==> (#[trigger] r@[j1])@ != (#[trigger] r@[j2])@,
{
    s.into_iter().collect()
}

} // verus!
