use pylinefix::comments::is_directive;
use pylinefix::strings::{pack_tokens, tokenize};

fn chars(s: &str) -> Vec<char> {
    s.chars().collect()
}

fn concat(parts: &[Vec<char>]) -> String {
    parts.iter().flat_map(|p| p.iter()).collect()
}

#[test]
fn directive_detected() {
    assert!(is_directive(&chars("noqa: E501")));
    assert!(is_directive(&chars("type: ignore")));
    assert!(!is_directive(&chars("noqa style commentary")));
}

#[test]
fn token_round_trip() {
    let s = "Free-form description. Combined with German Name.";
    let toks = tokenize(&chars(s));
    assert_eq!(concat(&toks), s);
}

#[test]
fn pack_preserves_text() {
    let s = "alpha beta gamma delta epsilon zeta eta theta";
    let toks = tokenize(&chars(s));
    let chunks = pack_tokens(toks, 16);
    assert_eq!(concat(&chunks), s);
    assert!(chunks.len() > 1);
}
