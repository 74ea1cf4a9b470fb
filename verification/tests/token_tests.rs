use subject_trie::token::CommonTokenError;
use subject_trie::token::CommonTokenParser;
use subject_trie::token::Token;
use subject_trie::token::TokenParser;
use subject_trie::token::Tokens;

fn lit(s: &str) -> Token {
    Token::Normal(s.to_string())
}

fn keys(xs: &[&str]) -> Vec<String> {
    let mut v = Vec::new();
    for x in xs.iter() {
        v.push(x.to_string());
    }
    v
}

#[test]
fn test_common_token_parser() -> Result<(), CommonTokenError> {
    let parser = CommonTokenParser::new('.', "*", ">");
    assert_eq!(parser.parse_tokens("a.b")?, Tokens(vec![lit("a"), lit("b")]));
    assert_eq!(
        parser.parse_tokens("a.b.c")?,
        Tokens(vec![lit("a"), lit("b"), lit("c")])
    );
    assert_eq!(
        parser.parse_tokens("a.*.c")?,
        Tokens(vec![lit("a"), Token::OneWildcard, lit("c")])
    );
    assert_eq!(
        parser.parse_tokens("a.b.*")?,
        Tokens(vec![lit("a"), lit("b"), Token::OneWildcard])
    );
    assert_eq!(parser.parse_tokens("*")?, Tokens(vec![Token::OneWildcard]));
    assert_eq!(parser.parse_tokens("")?, Tokens(vec![lit("")]));
    assert_eq!(
        parser.parse_tokens("..")?,
        Tokens(vec![lit(""), lit(""), lit("")])
    );
    assert_eq!(
        parser.parse_tokens("a.b.>")?,
        Tokens(vec![lit("a"), lit("b"), Token::MultiWildcard])
    );
    assert_eq!(
        parser.parse_tokens("a.>")?,
        Tokens(vec![lit("a"), Token::MultiWildcard])
    );
    assert_eq!(parser.parse_tokens(">")?, Tokens(vec![Token::MultiWildcard]));
    assert_eq!(
        parser.parse_tokens(">.a").unwrap_err(),
        CommonTokenError::MultiWildcardNotAtEnd
    );
    Ok(())
}

#[test]
fn test_matcher() {
    assert_eq!(
        Tokens(vec![lit("a"), lit("b"), lit("c")]).has_no_wildcard(),
        true
    );
    assert_eq!(
        Tokens(vec![lit("a"), Token::OneWildcard, lit("c")]).has_no_wildcard(),
        false
    );
    assert_eq!(
        Tokens(vec![lit("a"), Token::OneWildcard, Token::OneWildcard]).has_no_wildcard(),
        false
    );
    assert_eq!(
        Tokens(vec![lit("a"), Token::OneWildcard, Token::MultiWildcard]).has_no_wildcard(),
        false
    );
    let tokens = Tokens(vec![lit("a"), lit("b"), lit("c")]);
    assert_eq!(tokens.match_keys(&keys(&["a", "b", "c"])), true);
    assert_eq!(tokens.match_keys(&keys(&["a", "b"])), false);
    assert_eq!(tokens.match_keys(&keys(&["b", "a", "c"])), false);
    assert_eq!(tokens.match_keys(&keys(&["a", "b", "c", "d"])), false);
    let tokens = Tokens(vec![lit("a"), Token::OneWildcard]);
    assert_eq!(tokens.match_keys(&keys(&["a", "b"])), true);
    assert_eq!(tokens.match_keys(&keys(&["a", "c"])), true);
    assert_eq!(tokens.match_keys(&keys(&["b", "c"])), false);
    assert_eq!(tokens.match_keys(&keys(&["a", "b", "c"])), false);
    let tokens = Tokens(vec![lit("a"), Token::MultiWildcard]);
    assert_eq!(tokens.match_keys(&keys(&["a", "b"])), true);
    assert_eq!(tokens.match_keys(&keys(&["a", "c"])), true);
    assert_eq!(tokens.match_keys(&keys(&["b", "c"])), false);
    assert_eq!(tokens.match_keys(&keys(&["a", "b", "c"])), true);
    let tokens = Tokens(vec![lit("a"), Token::OneWildcard, Token::MultiWildcard]);
    assert_eq!(tokens.match_keys(&keys(&["a", "b"])), false);
    assert_eq!(tokens.match_keys(&keys(&["a", "c"])), false);
    assert_eq!(tokens.match_keys(&keys(&["b", "c"])), false);
    assert_eq!(tokens.match_keys(&keys(&["a", "b", "c"])), true);
}
