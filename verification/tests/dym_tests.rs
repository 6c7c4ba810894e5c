use dym::dym::SpellChecker;

#[test]
fn permutations() {
    let permutations = dym::dym::get_permutations(&"hello");
    println!("{:?}", permutations);
}

#[test]
fn permutations_for_push() {
    let mut seen_push = false;
    for permutation in dym::dym::get_permutations(&"pus") {
        println!("{}", permutation);
        if permutation == "push".to_string() {
            seen_push = true;
        }
    }
    assert!(seen_push);
}

#[test]
fn delete_char() {
    let deleted = dym::dym::delete_char(&"push", 3);
    assert_eq!(deleted, "pus".to_string());
}

#[test]
fn swap_chars() {
    let swapped = dym::dym::swap_chars(&"heck", 2);
    assert_eq!(swapped, "hekc".to_string());
}

#[test]
fn replace_char() {
    let replaced = dym::dym::replace_char(&"cow", 1, 'e');
    assert_eq!(replaced, "cew".to_string());
}

#[test]
fn insert_char() {
    let inserted = dym::dym::insert_char(&"cow", 1, 'e');
    assert_eq!(inserted, "ceow".to_string());
}

#[test]
fn insert_char_end() {
    let inserted = dym::dym::insert_char(&"pus", 3, 'h');
    assert_eq!(inserted, "push".to_string());
}

#[test]
fn permutations_of_empty_word() {
    // Deletions, replacements and swaps contribute nothing for the
    // empty word; insertions contribute one word per letter.
    let perms = dym::dym::get_permutations("");
    assert_eq!(perms.len(), 26);
    assert!(perms.contains(&"a".to_string()));
    assert!(perms.contains(&"z".to_string()));
    assert!(!perms.contains(&"".to_string()));
}

#[test]
fn suggest_for_known_word() {
    let mut d = dym::dym::Dictionary::new();
    d.insert("push");
    d.insert("pull");
    let suggestions = d.suggest("push");
    assert_eq!(suggestions, vec!["push".to_string()]);
}

#[test]
fn suggest_for_misspelled_word() {
    let mut d = dym::dym::Dictionary::new();
    d.insert("push");
    d.insert("pull");
    d.insert("merge");
    let suggestions = d.suggest("pus");
    assert!(suggestions.contains(&"push".to_string()));
    assert!(!suggestions.contains(&"merge".to_string()));
}

#[test]
fn suggest_has_no_repeats() {
    let mut d = dym::dym::Dictionary::new();
    d.insert("aa");
    let suggestions = d.suggest("a");
    // "aa" is reachable by inserting an `a` at either end, but comes
    // back once.
    assert_eq!(suggestions, vec!["aa".to_string()]);
}
