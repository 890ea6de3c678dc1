use text_signals::error::ConfigError;
use text_signals::tokens::{token_spans, BoundaryRule, Tokenizer};

fn slices<'a>(text: &'a str, spans: &[(usize, usize)]) -> Vec<&'a str> {
    spans.iter().map(|s| &text[s.0..s.1]).collect()
}

#[test]
fn split_rule_gives_the_stretches_between_matches() {
    let t = Tokenizer::new(r"\s+", BoundaryRule::SplitOnMatches).unwrap();
    let text = "the cat  sat";
    assert_eq!(slices(text, &t.tokenize(text)), vec!["the", "cat", "sat"]);
}

#[test]
fn match_rule_gives_the_matches() {
    let t = Tokenizer::new(r"\w+", BoundaryRule::MatchesAsTokens).unwrap();
    let text = "the cat, sat!";
    assert_eq!(slices(text, &t.tokenize(text)), vec!["the", "cat", "sat"]);
    assert_eq!(t.boundary_rule(), BoundaryRule::MatchesAsTokens);
}

#[test]
fn empty_text_has_no_tokens_under_either_rule() {
    let split = Tokenizer::new(r"\s+", BoundaryRule::SplitOnMatches).unwrap();
    let matches = Tokenizer::new(r"\w*", BoundaryRule::MatchesAsTokens).unwrap();
    assert!(split.tokenize("").is_empty());
    assert!(matches.tokenize("").is_empty());
}

#[test]
fn text_of_boundaries_only_yields_nothing() {
    let split = Tokenizer::new(r"\s+", BoundaryRule::SplitOnMatches).unwrap();
    assert!(split.tokenize(" \n\t ").is_empty());
    let matches = Tokenizer::new(r"\w+", BoundaryRule::MatchesAsTokens).unwrap();
    assert!(matches.tokenize(" ,;. ").is_empty());
}

#[test]
fn adjacent_separators_make_no_empty_token() {
    let t = Tokenizer::new(",", BoundaryRule::SplitOnMatches).unwrap();
    let text = ",a,,b,";
    assert_eq!(slices(text, &t.tokenize(text)), vec!["a", "b"]);
}

#[test]
fn empty_matches_are_not_tokens() {
    let t = Tokenizer::new(r"a*", BoundaryRule::MatchesAsTokens).unwrap();
    let text = "baaab";
    assert_eq!(slices(text, &t.tokenize(text)), vec!["aaa"]);
}

#[test]
fn token_spans_from_given_matches() {
    let matches = vec![(2usize, 3usize), (3, 3), (5, 7)];
    assert_eq!(
        token_spans(&matches, 9, BoundaryRule::SplitOnMatches),
        vec![(0, 2), (3, 5), (7, 9)]
    );
    assert_eq!(
        token_spans(&matches, 9, BoundaryRule::MatchesAsTokens),
        vec![(2, 3), (5, 7)]
    );
    assert_eq!(token_spans(&vec![], 0, BoundaryRule::SplitOnMatches), vec![]);
    assert_eq!(token_spans(&vec![], 4, BoundaryRule::SplitOnMatches), vec![(0, 4)]);
    assert_eq!(token_spans(&vec![(0, 4)], 4, BoundaryRule::SplitOnMatches), vec![]);
}

#[test]
fn spans_are_byte_offsets_on_character_boundaries() {
    let t = Tokenizer::new(r"\s+", BoundaryRule::SplitOnMatches).unwrap();
    let text = "été hiver";
    assert_eq!(t.tokenize(text), vec![(0, 5), (6, 11)]);
}

#[test]
fn tokenizer_refuses_an_invalid_pattern() {
    match Tokenizer::new("(", BoundaryRule::SplitOnMatches) {
        Err(ConfigError::InvalidPattern { message }) => assert!(!message.is_empty()),
        _ => panic!("expected a refusal"),
    }
}
