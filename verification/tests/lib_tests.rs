use dym::trie::Trie;
use dym::Lexicon;

fn sorted(mut v: Vec<String>) -> Vec<String> {
    v.sort();
    v
}

#[test]
fn test_pattern() {
    let mut trie = Trie::new();
    trie.insert("cat");
    trie.insert("cut");
    trie.insert("cot");
    trie.insert("dog");
    trie.insert("car");

    let matches = trie.all_matches("c*t");

    assert!(matches.contains(&"cat".to_string()));
    assert!(matches.contains(&"cut".to_string()));
    assert!(matches.contains(&"cot".to_string()));

    assert!(!matches.contains(&"dog".to_string()));
    assert!(!matches.contains(&"car".to_string()));
}

#[test]
fn lib_test_insert() {
    let mut lex = Lexicon::new();
    lex.insert("hello");
    lex.insert("goodbye");
}

#[test]
fn pattern_search_is_exact() {
    let mut trie = Trie::new();
    trie.insert("cat");
    trie.insert("cut");
    trie.insert("cot");
    trie.insert("dog");
    trie.insert("car");

    let expected = vec!["cat".to_string(), "cot".to_string(), "cut".to_string()];
    assert_eq!(sorted(trie.all_matches("c*t")), expected);
}

#[test]
fn pattern_with_several_wildcards() {
    let mut trie = Trie::new();
    trie.insert("word");
    trie.insert("ward");
    trie.insert("wood");
    trie.insert("sword");

    let expected = vec!["ward".to_string(), "wood".to_string(), "word".to_string()];
    assert_eq!(sorted(trie.all_matches("w**d")), expected);
    assert!(trie.all_matches("****").len() == 3);
    assert!(trie.all_matches("w*d").is_empty());
}

#[test]
fn trie_contains_only_whole_words() {
    let mut trie = Trie::new();
    trie.insert("cart");
    assert!(trie.contains("cart"));
    assert!(!trie.contains("car"));
    assert!(!trie.contains("carts"));
    trie.insert("");
    assert!(trie.contains(""));
}

#[test]
fn contains_after_insert_and_later_inserts() {
    let mut lex = Lexicon::new();
    lex.insert("alpha");
    assert!(lex.contains("alpha"));
    lex.insert("beta");
    lex.insert("gamma");
    assert!(lex.contains("alpha"));
    assert!(!lex.contains("delta"));
}

#[test]
fn insert_is_idempotent() {
    let mut once = Lexicon::new();
    once.insert("hello");
    let mut twice = Lexicon::new();
    twice.insert("hello");
    twice.insert("hello");
    assert_eq!(once.contains("hello"), twice.contains("hello"));
    assert_eq!(
        sorted(once.corrections_for("hwllo")),
        sorted(twice.corrections_for("hwllo"))
    );
}

#[test]
fn normalization_is_applied() {
    let mut lex = Lexicon::new();
    lex.insert(" Cat ");
    assert!(lex.contains("cat"));
    assert!(lex.contains("  CAT"));
}

#[test]
fn insert_all_matches_single_inserts() {
    let mut lex = Lexicon::new();
    lex.insert_all(&["push", "Pull ", "merge"]);
    assert!(lex.contains("push"));
    assert!(lex.contains("pull"));
    assert!(lex.contains("merge"));
    assert!(!lex.contains("rebase"));
}

#[test]
fn correction_by_substitution() {
    let mut lex = Lexicon::new();
    lex.insert("hello");
    assert!(lex.corrections_for("hwllo").contains(&"hello".to_string()));
}

#[test]
fn correction_by_insertion() {
    let mut lex = Lexicon::new();
    lex.insert("hello");
    assert!(lex.corrections_for("helo").contains(&"hello".to_string()));
}

#[test]
fn correction_by_deletion() {
    let mut lex = Lexicon::new();
    lex.insert("push");
    assert!(lex.corrections_for("pushh").contains(&"push".to_string()));
}

#[test]
fn correction_by_transposition() {
    let mut lex = Lexicon::new();
    lex.insert("heck");
    let patterns = Lexicon::generate_permutations("hcek");
    assert!(patterns.contains(&"heck".to_string()));
    assert!(lex.corrections_for("hcek").contains(&"heck".to_string()));
}

#[test]
fn correction_two_edits_away() {
    let mut lex = Lexicon::new();
    lex.insert("push");
    assert!(lex.corrections_for("pscuh").contains(&"push".to_string()));
}

#[test]
fn corrections_are_deterministic() {
    let mut lex = Lexicon::new();
    lex.insert_all(&["cat", "cut", "cot", "coat", "dog"]);
    let first = sorted(lex.corrections_for("ct"));
    let second = sorted(lex.corrections_for("ct"));
    assert_eq!(first, second);
}

#[test]
fn known_word_is_its_own_correction() {
    let mut lex = Lexicon::new();
    lex.insert("push");
    assert!(lex.corrections_for("push").contains(&"push".to_string()));
}

#[test]
fn corrections_have_no_repeats() {
    let mut lex = Lexicon::new();
    lex.insert("hello");
    let cs = lex.corrections_for("hello");
    let deduped = sorted(cs.clone());
    let mut unique = deduped.clone();
    unique.dedup();
    assert_eq!(deduped, unique);
    assert!(cs.contains(&"hello".to_string()));
}

#[test]
fn generated_patterns_follow_the_table() {
    // For "cat": 3 deletions, 3 substitutions, 4 insertions, 2 swaps,
    // all distinct.
    let pats = Lexicon::generate_permutations("cat");
    assert_eq!(pats.len(), 12);
    assert!(pats.contains(&"at".to_string()));
    assert!(pats.contains(&"c*t".to_string()));
    assert!(pats.contains(&"*cat".to_string()));
    assert!(pats.contains(&"cat*".to_string()));
    assert!(pats.contains(&"act".to_string()));
    assert!(pats.contains(&"cta".to_string()));
}

#[test]
fn generated_patterns_are_deduplicated() {
    // For "aa" several constructions collapse: one deletion result,
    // the identity swap, and seven distinct patterns in all.
    let pats = Lexicon::generate_permutations("aa");
    assert_eq!(pats.len(), 7);
    assert!(pats.contains(&"a".to_string()));
    assert!(pats.contains(&"aa".to_string()));
    assert!(pats.contains(&"*a".to_string()));
    assert!(pats.contains(&"a*".to_string()));
    assert!(pats.contains(&"*aa".to_string()));
    assert!(pats.contains(&"a*a".to_string()));
    assert!(pats.contains(&"aa*".to_string()));
}

#[test]
fn best_match_picks_minimal_distance() {
    let mut lex = Lexicon::new();
    lex.insert("cat");
    lex.insert("coat");
    // Both are corrections for "ct"; "cat" is one edit away, "coat"
    // two.
    let cs = lex.corrections_for("ct");
    assert!(cs.contains(&"cat".to_string()));
    assert!(cs.contains(&"coat".to_string()));
    assert_eq!(lex.best_match_for("ct"), "cat".to_string());
}

#[test]
fn best_match_of_known_word_is_itself() {
    let mut lex = Lexicon::new();
    lex.insert("push");
    lex.insert("pull");
    assert_eq!(lex.best_match_for("push"), "push".to_string());
}

#[test]
fn best_match_without_corrections_is_empty() {
    let mut lex = Lexicon::new();
    lex.insert("abcdefgh");
    assert_eq!(lex.best_match_for("z"), "".to_string());
}

#[test]
fn empty_word_round_trip() {
    let mut lex = Lexicon::new();
    lex.insert("");
    assert!(lex.contains(""));
    assert!(lex.corrections_for("").contains(&"".to_string()));
}
