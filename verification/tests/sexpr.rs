use tokenize::sexpr::paren_fault_at;
use tokenize::api::TokenizerI;
use tokenize::sexpr::{sexpr_tokenize, SExprTokenizer};

#[test]
fn sexpr_basic() {
    let t = SExprTokenizer::default();
    assert_eq!(
        TokenizerI::tokenize(&t, "(a b (c d)) e f (g)"),
        vec!["(a b (c d))", "e", "f", "(g)"]
    );
}

#[test]
fn strict_close() {
    let t = SExprTokenizer::new("()", false);
    let out = TokenizerI::tokenize(&t, "c) d");
    assert!(out.contains(&")".to_string()));
}

#[test]
fn custom_parens() {
    let t = SExprTokenizer::new("{}", true);
    assert_eq!(TokenizerI::tokenize(&t, "{a b} c"), vec!["{a b}", "c"]);
}

#[test]
fn sexpr_keeps_text() {
    let out = sexpr_tokenize("(a (b)) c");
    assert_eq!(out.concat().replace(' ', ""), "(a(b))c");
}

#[test]
fn unmatched_paren_offsets() {
    assert_eq!(paren_fault_at("c) d", '(', ')'), Some((true, 1)));
    assert_eq!(paren_fault_at("(a) (b (c)", '(', ')'), Some((false, 4)));
    assert_eq!(paren_fault_at("(a (b)) c", '(', ')'), None);
}
