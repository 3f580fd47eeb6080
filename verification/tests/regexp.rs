use tokenize::regexp::{
    regexp_tokenize, try_regexp_tokenize, BlanklineTokenizer, RegexpTokenizer, WhitespaceTokenizer,
    WordPunctTokenizer,
};
use tokenize::util::{regexp_span_tokenize, try_regexp_span_tokenize};

#[test]
fn whitespace() {
    assert_eq!(WhitespaceTokenizer::new().tokenize("a  b\nc"), vec!["a", "b", "c"]);
}

#[test]
fn wordpunct() {
    assert!(WordPunctTokenizer::new()
        .tokenize("Hello, world.")
        .contains(&"Hello".to_string()));
}

#[test]
fn gaps_span() {
    let mut t = WhitespaceTokenizer::new();
    assert_eq!(t.span_tokenize("a b"), vec![(0, 1), (2, 3)]);
}

#[test]
fn wordpunct_exact() {
    assert_eq!(WordPunctTokenizer::new().tokenize("Hello, world."), vec!["Hello", ",", "world", "."]);
}

#[test]
fn blanklines() {
    assert_eq!(BlanklineTokenizer::new().tokenize("a b\n\n c"), vec!["a b", "c"]);
}

#[test]
fn regexp_matches_and_gaps() {
    let mut t = RegexpTokenizer::new(r"\d+", false, true);
    assert_eq!(t.tokenize("a1b22c"), vec!["1", "22"]);
    assert_eq!(t.span_tokenize("a1b22c"), vec![(1, 2), (3, 5)]);
    let mut g = RegexpTokenizer::new(r",", true, false);
    assert_eq!(g.tokenize("a,,b"), vec!["a", "", "b"]);
    let mut d = RegexpTokenizer::new(r",", true, true);
    assert_eq!(d.tokenize("a,,b"), vec!["a", "b"]);
}

#[test]
fn regexp_invalid_pattern() {
    let mut t = RegexpTokenizer::new(r"(", false, true);
    assert_eq!(t.try_tokenize("abc"), None);
    assert_eq!(try_regexp_tokenize("abc", r"(", false, true), None);
    assert_eq!(try_regexp_span_tokenize("abc", r"("), None);
}

#[test]
fn regexp_function() {
    assert_eq!(regexp_tokenize("a  b", r"\s+", true, true), vec!["a", "b"]);
    assert_eq!(regexp_tokenize(" a b", r"\s+", true, false), vec!["", "a", "b"]);
    assert_eq!(regexp_tokenize("ab12", r"[a-z]+", false, true), vec!["ab"]);
    assert_eq!(regexp_span_tokenize("a  b ", r"\s+"), vec![(0, 1), (3, 4)]);
}

fn picked(text: &str, spans: &[(usize, usize)]) -> Vec<String> {
    let chars: Vec<char> = text.chars().collect();
    spans.iter().map(|&(a, b)| chars[a..b].iter().collect()).collect()
}

#[test]
fn regexp_spans_pick_tokens() {
    let text = "Héllo, wörld... ok";
    let mut w = WordPunctTokenizer::new();
    let toks = w.tokenize(text);
    let mut m = RegexpTokenizer::new(r"\w+|[^\w\s]+", false, true);
    let spans = m.span_tokenize(text);
    assert_eq!(picked(text, &spans), toks);
    let mut ws = WhitespaceTokenizer::new();
    let text2 = "  ä b\t\ncd  ";
    assert_eq!(picked(text2, &ws.span_tokenize(text2)), ws.tokenize(text2));
    assert_eq!(ws.tokenize(text2), vec!["ä", "b", "cd"]);
}
