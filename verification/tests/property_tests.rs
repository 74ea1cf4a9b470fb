use std::collections::HashSet;

use subject_trie::Trie;
use subject_trie::error::Error;
use subject_trie::token::CommonTokenError;
use subject_trie::token::CommonTokenParser;
use subject_trie::token::Token;
use subject_trie::token::TokenParser;
use subject_trie::token::Tokens;

fn keys(xs: &[&str]) -> Vec<String> {
    let mut v = Vec::new();
    for x in xs.iter() {
        v.push(x.to_string());
    }
    v
}

fn vec_eq(vec1: Vec<u64>, vec2: Vec<u64>) -> bool {
    let set1: HashSet<u64> = vec1.into_iter().collect();
    let set2: HashSet<u64> = vec2.into_iter().collect();
    set1 == set2
}

#[test]
fn exact_insert_is_found_and_idempotent() -> Result<(), CommonTokenError> {
    let mut trie = Trie::new();
    let parser = CommonTokenParser::new('.', "*", ">");
    let pat = parser.parse_tokens("x.y")?;
    assert_eq!(trie.insert(&pat, 7), true);
    assert!(trie.find(&keys(&["x", "y"])).contains(&7));
    // inserting the same pair again reports nothing new and changes nothing
    assert_eq!(trie.insert(&pat, 7), false);
    assert!(vec_eq(trie.find(&keys(&["x", "y"])), vec![7]));
    Ok(())
}

#[test]
fn remove_after_insert_clears_value() -> Result<(), CommonTokenError> {
    let mut trie = Trie::new();
    let parser = CommonTokenParser::new('.', "*", ">");
    let pat = parser.parse_tokens("x.y")?;
    trie.insert(&pat, 7);
    assert_eq!(trie.remove(&pat, &7), true);
    assert!(!trie.find(&keys(&["x", "y"])).contains(&7));
    // removing an absent pair reports false and mutates nothing
    trie.insert(&pat, 8);
    assert_eq!(trie.remove(&pat, &7), false);
    assert!(vec_eq(trie.find(&keys(&["x", "y"])), vec![8]));
    Ok(())
}

#[test]
fn cache_stays_coherent_across_mutations() -> Result<(), CommonTokenError> {
    let mut trie = Trie::new();
    let parser = CommonTokenParser::new('.', "*", ">");
    trie.insert(&parser.parse_tokens("a.b")?, 1);
    // warm the cache, then mutate a pattern that matches the cached keys
    assert!(vec_eq(trie.find(&keys(&["a", "b"])), vec![1]));
    assert!(vec_eq(trie.find(&keys(&["a", "b"])), vec![1]));
    trie.insert(&parser.parse_tokens("a.*")?, 2);
    assert!(vec_eq(trie.find(&keys(&["a", "b"])), vec![1, 2]));
    trie.insert(&parser.parse_tokens(">")?, 3);
    assert!(vec_eq(trie.find(&keys(&["a", "b"])), vec![1, 2, 3]));
    trie.remove(&parser.parse_tokens("a.b")?, &1);
    assert!(vec_eq(trie.find(&keys(&["a", "b"])), vec![2, 3]));
    trie.remove_all(&parser.parse_tokens("a.*")?);
    assert!(vec_eq(trie.find(&keys(&["a", "b"])), vec![3]));
    Ok(())
}

#[test]
fn cache_stays_coherent_past_capacity() -> Result<(), CommonTokenError> {
    let mut trie = Trie::new();
    let parser = CommonTokenParser::new('.', "*", ">");
    trie.insert(&parser.parse_tokens(">")?, 9)
;
    // more distinct queries than the cache can hold at once
    for i in 0..100u32 {
        let k = keys(&[&format!("t{}", i), "x"]);
        assert!(vec_eq(trie.find(&k), vec![9]));
    }
    // repeated queries answered from whatever the cache still holds
    for i in 0..100u32 {
        let k = keys(&[&format!("t{}", i), "x"]);
        assert!(vec_eq(trie.find(&k), vec![9]));
    }
    // a mutation must reach every affected entry, cached or not
    trie.insert(&parser.parse_tokens("t5.x")?, 1);
    assert!(vec_eq(trie.find(&keys(&["t5", "x"])), vec![1, 9]));
    assert!(vec_eq(trie.find(&keys(&["t6", "x"])), vec![9]));
    Ok(())
}

#[test]
fn multi_wildcard_needs_a_following_token() -> Result<(), CommonTokenError> {
    let mut trie = Trie::new();
    let parser = CommonTokenParser::new('.', "*", ">");
    trie.insert(&parser.parse_tokens("a.>")?, 11);
    assert!(!trie.find(&keys(&["a"])).contains(&11));
    assert!(trie.find(&keys(&["a", "b"])).contains(&11));
    assert!(trie.find(&keys(&["a", "b", "c"])).contains(&11));
    assert!(!trie.find(&keys(&["b", "c"])).contains(&11));
    Ok(())
}

#[test]
fn single_wildcard_matches_exactly_one_token() -> Result<(), CommonTokenError> {
    let mut trie = Trie::new();
    let parser = CommonTokenParser::new('.', "*", ">");
    trie.insert(&parser.parse_tokens("*")?, 21);
    assert!(trie.find(&keys(&["x"])).contains(&21));
    assert!(trie.find(&keys(&["y"])).contains(&21));
    assert!(!trie.find(&keys(&["x", "y"])).contains(&21));
    assert_eq!(trie.find(&keys(&["x", "y"])).len(), 0);
    Ok(())
}

#[test]
fn wildcard_scenario() -> Result<(), CommonTokenError> {
    let mut trie = Trie::new();
    let parser = CommonTokenParser::new('.', "*", ">");
    trie.insert(&parser.parse_tokens("a")?, 1);
    trie.insert(&parser.parse_tokens("a.b")?, 2);
    trie.insert(&parser.parse_tokens("*")?, 4);
    trie.insert(&parser.parse_tokens(">")?, 5);
    trie.insert(&parser.parse_tokens("*.c")?, 6);
    trie.insert(&parser.parse_tokens("a.*.c")?, 7);
    trie.insert(&parser.parse_tokens("a.>")?, 8);
    assert!(vec_eq(trie.find(&keys(&["a"])), vec![1, 4, 5]));
    assert!(vec_eq(trie.find(&keys(&["b"])), vec![4, 5]));
    assert!(vec_eq(trie.find(&keys(&["a", "b"])), vec![2, 5, 8]));
    assert!(vec_eq(trie.find(&keys(&["a", "c"])), vec![5, 6, 8]));
    assert!(vec_eq(trie.find(&keys(&["a", "b", "c"])), vec![5, 7, 8]));
    Ok(())
}

#[test]
fn remove_all_reports_and_clears() -> Result<(), CommonTokenError> {
    let mut trie = Trie::new();
    let parser = CommonTokenParser::new('.', "*", ">");
    assert_eq!(trie.remove_all(&parser.parse_tokens("a.b")?), false);
    trie.insert(&parser.parse_tokens("a.b")?, 1);
    trie.insert(&parser.parse_tokens("a.b")?, 2);
    trie.insert(&parser.parse_tokens("a.>")?, 3);
    assert_eq!(trie.remove_all(&parser.parse_tokens("a.b")?), true);
    assert_eq!(trie.remove_all(&parser.parse_tokens("a.b")?), false);
    // only the addressed terminal set is cleared; the sibling wildcard set stays
    assert!(vec_eq(trie.find(&keys(&["a", "b"])), vec![3]));
    assert_eq!(trie.remove_all(&parser.parse_tokens("a.>")?), true);
    assert_eq!(trie.find(&keys(&["a", "b"])).len(), 0);
    Ok(())
}

#[test]
fn exist_reports_any_match() -> Result<(), CommonTokenError> {
    let mut trie = Trie::new();
    let parser = CommonTokenParser::new('.', "*", ">");
    assert_eq!(trie.exist(&keys(&["a"])), false);
    trie.insert(&parser.parse_tokens("a.>")?, 1);
    assert_eq!(trie.exist(&keys(&["a"])), false);
    assert_eq!(trie.exist(&keys(&["a", "b"])), true);
    trie.insert(&parser.parse_tokens("*")?, 2);
    assert_eq!(trie.exist(&keys(&["z"])), true);
    assert_eq!(trie.exist(&keys(&["z", "w"])), false);
    Ok(())
}

#[test]
fn literal_marker_text_stays_literal() {
    // a literal token whose text happens to equal a wildcard marker is
    // still a literal once typed
    let tokens = Tokens(vec![Token::Normal("*".to_string())]);
    assert_eq!(tokens.has_no_wildcard(), true);
    assert_eq!(tokens.match_keys(&keys(&["*"])), true);
    assert_eq!(tokens.match_keys(&keys(&["x"])), false);

    let mut trie = Trie::new();
    trie.insert(&tokens, 5);
    assert!(trie.find(&keys(&["*"])).contains(&5));
    assert_eq!(trie.find(&keys(&["x"])).len(), 0);
}

#[test]
fn parser_error_only_for_token_after_multi_wildcard() {
    let parser = CommonTokenParser::new('.', "*", ">");
    assert_eq!(
        parser.parse_tokens(">.a").unwrap_err(),
        CommonTokenError::MultiWildcardNotAtEnd
    );
    assert_eq!(
        parser.parse_tokens("a.>.b").unwrap_err(),
        CommonTokenError::MultiWildcardNotAtEnd
    );
    assert_eq!(
        parser.parse_tokens(">.>").unwrap_err(),
        CommonTokenError::MultiWildcardNotAtEnd
    );
    assert!(parser.parse_tokens("a.>").is_ok());
    assert!(parser.parse_tokens(">").is_ok());
}

#[test]
fn parser_respects_configuration() -> Result<(), CommonTokenError> {
    let parser = CommonTokenParser::new('/', "+", "#");
    assert_eq!(
        parser.parse_tokens("a/+/b")?,
        Tokens(vec![
            Token::Normal("a".to_string()),
            Token::OneWildcard,
            Token::Normal("b".to_string()),
        ])
    );
    assert_eq!(
        parser.parse_tokens("a/#")?,
        Tokens(vec![Token::Normal("a".to_string()), Token::MultiWildcard])
    );
    // the old markers are plain literals under this configuration
    assert_eq!(
        parser.parse_tokens("*/>")?,
        Tokens(vec![
            Token::Normal("*".to_string()),
            Token::Normal(">".to_string()),
        ])
    );
    Ok(())
}

#[test]
fn error_messages_name_the_subject() {
    let e = Error::EmptyToken("a..b".to_string());
    assert_eq!(e.message(), "a..b has empty token");
    let e = Error::TokenAfterMwc(">.a".to_string());
    assert_eq!(
        e.message(),
        ">.a has token after multi-layer wildcard token"
    );
}

#[test]
fn duplicate_values_across_nodes_are_kept() -> Result<(), CommonTokenError> {
    let mut trie = Trie::new();
    let parser = CommonTokenParser::new('.', "*", ">");
    // the same value under two distinct matching patterns appears once per
    // matching node
    trie.insert(&parser.parse_tokens("a")?, 1);
    trie.insert(&parser.parse_tokens("*")?, 1);
    let found = trie.find(&keys(&["a"]));
    assert_eq!(found.len(), 2);
    assert_eq!(found.iter().filter(|v| **v == 1).count(), 2);
    // removing one of the two patterns leaves the other's occurrence
    trie.remove(&parser.parse_tokens("a")?, &1);
    assert!(vec_eq(trie.find(&keys(&["a"])), vec![1]));
    Ok(())
}
