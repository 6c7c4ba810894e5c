use dym::lexicon::Lexicon;

#[test]
fn test_wildcard() {
    let matches = Lexicon::matches("word", "w*r*");
    assert!(matches);

    let matches = Lexicon::matches("word", "words");
    assert!(!matches);
}

#[test]
fn test_new() {
    let lex = Lexicon::new();
    assert!(lex.words.len() == 0);
}

#[test]
fn mod_test_insert() {
    let mut lex = Lexicon::new();
    lex.insert("hello");
    lex.insert("goodbye");
}

#[test]
fn test_matches() {
    let mut lex = Lexicon::new();
    lex.insert("bog");
    lex.insert("bat");
    lex.insert("sin");
    lex.insert("cat");
    lex.insert("rug");
    lex.insert("cut");
    lex.insert("lay");
    lex.insert("day");
    lex.insert("say");
    lex.insert("cot");

    for m in lex.all_matches("c") {
        println!("{}", m);
    }
}

#[test]
fn lookup_by_position() {
    let mut lex = Lexicon::new();
    lex.insert("cat");
    lex.insert("cut");
    lex.insert("dog");
    lex.insert("door");

    let ms = lex.all_matches("c*t");
    assert!(ms.contains(&"cat".to_string()));
    assert!(ms.contains(&"cut".to_string()));
    assert!(!ms.contains(&"dog".to_string()));
    assert_eq!(ms.len(), 2);

    // no word of the query's length was ever inserted
    assert!(lex.all_matches("ca").is_empty());
}

#[test]
fn all_wildcard_query_matches_by_length() {
    // A pattern only ever matches words of exactly its own length, so
    // a query of nothing but wildcards returns the words of that
    // length and no others.
    let mut lex = Lexicon::new();
    lex.insert("ab");
    lex.insert("xyz");
    let ms = lex.all_matches("**");
    assert!(ms.contains(&"ab".to_string()));
    assert!(!ms.contains(&"xyz".to_string()));
    assert_eq!(ms.len(), 1);
}

#[test]
fn insert_twice_stores_once() {
    let mut lex = Lexicon::new();
    lex.insert("hello");
    lex.insert("hello");
    assert_eq!(lex.words.len(), 1);
}

#[test]
fn did_you_mean_deduplicates() {
    // Many patterns of the query reach the same stored word; it comes
    // back once.
    let mut lex = Lexicon::new();
    lex.insert("push");
    let suggestions = lex.did_you_mean("push");
    assert_eq!(suggestions, vec!["push".to_string()]);
}

#[test]
fn did_you_mean_finds_close_words() {
    let mut lex = Lexicon::new();
    lex.insert("push");
    lex.insert("merge");
    let suggestions = lex.did_you_mean("pusj");
    assert!(suggestions.contains(&"push".to_string()));
    assert!(!suggestions.contains(&"merge".to_string()));
}
