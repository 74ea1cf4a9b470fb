use std::collections::HashSet;

use subject_trie::Trie;
use subject_trie::token::CommonTokenError;
use subject_trie::token::CommonTokenParser;
use subject_trie::token::TokenParser;

fn keys(xs: &[&str]) -> Vec<String> {
    let mut v = Vec::new();
    for x in xs.iter() {
        v.push(x.to_string());
    }
    v
}

// whether two value lists hold the same values, ignoring order
fn vec_eq(vec1: Vec<u64>, vec2: Vec<u64>) -> bool {
    let set1: HashSet<u64> = vec1.into_iter().collect();
    let set2: HashSet<u64> = vec2.into_iter().collect();
    set1 == set2
}

#[test]
fn test_basic_trie() -> Result<(), CommonTokenError> {
    let mut trie = Trie::new();
    let parser = CommonTokenParser::new('.', "*", ">");
    trie.insert(&parser.parse_tokens("a")?, 1);
    trie.insert(&parser.parse_tokens("a")?, 2);
    trie.insert(&parser.parse_tokens("")?, 3);
    trie.insert(&parser.parse_tokens("a.b")?, 5);
    trie.insert(&parser.parse_tokens(".")?, 6);
    trie.insert(&parser.parse_tokens("a")?, 8);
    trie.insert(&parser.parse_tokens("a.b.c")?, 12);
    assert!(vec_eq(trie.find(&keys(&["a"])), vec![1, 2, 8]));
    assert!(vec_eq(trie.find(&keys(&[""])), vec![3]));
    assert!(vec_eq(trie.find(&keys(&["a", "b"])), vec![5]));
    assert!(vec_eq(trie.find(&keys(&["", ""])), vec![6]));
    assert!(vec_eq(trie.find(&keys(&["a", "b", "c"])), vec![12]));
    assert_eq!(trie.find(&keys(&["b"])).len(), 0);
    assert_eq!(trie.find(&keys(&["c"])).len(), 0);
    assert_eq!(trie.remove(&parser.parse_tokens("a")?, &1), true);
    assert_eq!(trie.remove(&parser.parse_tokens("a")?, &1), false);
    assert_eq!(trie.remove(&parser.parse_tokens("a.b")?, &5), true);
    assert_eq!(trie.remove(&parser.parse_tokens("a")?, &5), false);
    assert!(vec_eq(trie.find(&keys(&["a"])), vec![2, 8]));
    assert_eq!(trie.find(&keys(&["a", "b"])).len(), 0);
    assert!(vec_eq(trie.find(&keys(&["a", "b", "c"])), vec![12]));
    assert_eq!(trie.remove(&parser.parse_tokens("a.b")?, &5), false);
    trie.insert(&parser.parse_tokens("a.b.c")?, 15);
    trie.insert(&parser.parse_tokens("a.b.c")?, 17);
    assert_eq!(trie.remove_all(&parser.parse_tokens("a.b.c")?), true);
    assert_eq!(trie.find(&keys(&["a", "b", "c"])).len(), 0);
    assert_eq!(trie.remove_all(&parser.parse_tokens("a")?), true);
    assert_eq!(trie.remove_all(&parser.parse_tokens("a.b")?), false);
    assert_eq!(trie.remove_all(&parser.parse_tokens("x.y.z")?), false);
    Ok(())
}

#[test]
fn test_trie_with_wildcard() -> Result<(), CommonTokenError> {
    let mut trie = Trie::new();
    let parser = CommonTokenParser::new('.', "*", ">");
    trie.insert(&parser.parse_tokens("a")?, 1);
    trie.insert(&parser.parse_tokens("a.b")?, 2);
    trie.insert(&parser.parse_tokens("")?, 3);
    trie.insert(&parser.parse_tokens("*")?, 4);
    trie.insert(&parser.parse_tokens(">")?, 5);
    trie.insert(&parser.parse_tokens("*.c")?, 6);
    trie.insert(&parser.parse_tokens("a.*.c")?, 7);
    trie.insert(&parser.parse_tokens("a.>")?, 8);

    assert!(vec_eq(trie.find(&keys(&["a"])), vec![1, 4, 5]));
    assert!(vec_eq(trie.find(&keys(&["b"])), vec![4, 5]));
    assert!(vec_eq(trie.find(&keys(&["a", "b"])), vec![2, 5, 8]));
    assert!(vec_eq(trie.find(&keys(&["a", "c"])), vec![5, 6, 8]));
    assert!(vec_eq(trie.find(&keys(&["a", "b", "c"])), vec![5, 7, 8]));
    Ok(())
}
