use tokenize::api::TokenizerI;
use tokenize::casual::{casual_tokenize, TweetTokenizer};

#[test]
fn casual_basic() {
    let t = TweetTokenizer::default();
    let toks = t.tokenize("Hello world :)");
    assert!(toks.contains(&"Hello".to_string()));
    assert!(toks.contains(&":)".to_string()));
}

#[test]
fn url() {
    let t = TweetTokenizer::default();
    let toks = t.tokenize("Visit https://example.com today");
    assert!(toks.iter().any(|x| x.contains("example.com")));
}

#[test]
fn hashtag() {
    let t = TweetTokenizer::default();
    let toks = t.tokenize("I love #rust!");
    assert!(toks.iter().any(|x| x.starts_with('#')));
}

#[test]
fn handle() {
    let t = TweetTokenizer::default();
    let toks = t.tokenize("Hey @user how are you?");
    assert!(toks.contains(&"@user".to_string()));
}

#[test]
fn reduce_len() {
    let t = TweetTokenizer::new(true, true, false, true);
    let toks = t.tokenize("coooool");
    assert!(toks.contains(&"coool".to_string()));
}

#[test]
fn strip_handles() {
    let t = TweetTokenizer::new(true, false, true, true);
    let toks = t.tokenize("@remy Hello");
    assert!(!toks.contains(&"@remy".to_string()));
}

#[test]
fn casual_lowercases_unless_preserved() {
    let t = TweetTokenizer::new(false, false, false, true);
    assert_eq!(t.tokenize("Hello World"), vec!["hello", "world"]);
}

#[test]
fn casual_entities_decoded() {
    assert_eq!(casual_tokenize("a &amp; b", true, false, false, true), vec!["a", "&", "b"]);
}

#[test]
fn casual_spans_cover_tokens() {
    let t = TweetTokenizer::default();
    let spans = TokenizerI::span_tokenize(&t, "Hello world :)");
    assert_eq!(spans, vec![(0, 5), (6, 11), (12, 14)]);
    assert_eq!(t.try_span_tokenize("Hello world :)"), Some(vec![(0, 5), (6, 11), (12, 14)]));
}
