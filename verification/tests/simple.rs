use tokenize::api::TokenizerI;
use tokenize::simple::{line_tokenize, CharTokenizer, LineTokenizer, SpaceTokenizer, TabTokenizer};
use tokenize::util::{string_span_tokenize, spans_to_relative};

#[test]
fn space() {
    assert_eq!(SpaceTokenizer.tokenize("a b c"), vec!["a", "b", "c"]);
}

#[test]
fn tab() {
    assert_eq!(TabTokenizer.tokenize("a\tb"), vec!["a", "b"]);
}

#[test]
fn chars() {
    assert_eq!(CharTokenizer.tokenize("ab"), vec!["a", "b"]);
}

#[test]
fn line_discard() {
    assert_eq!(LineTokenizer::new("discard").tokenize("a\n\nb"), vec!["a", "b"]);
}

#[test]
fn line_keep() {
    assert_eq!(LineTokenizer::new("keep").tokenize("a\n\nb"), vec!["a", "", "b"]);
}

#[test]
fn line_discard_eof() {
    assert_eq!(LineTokenizer::new("discard-eof").tokenize("a\nb\n"), vec!["a", "b"]);
}

#[test]
fn space_keeps_empty_tokens_and_rejoins() {
    let toks = SpaceTokenizer.tokenize("a  b");
    assert_eq!(toks, vec!["a", "", "b"]);
    assert_eq!(toks.join(" "), "a  b");
}

#[test]
fn space_spans() {
    assert_eq!(SpaceTokenizer.span_tokenize("a  b"), vec![(0, 1), (2, 2), (3, 4)]);
    assert_eq!(string_span_tokenize("a b ", " "), vec![(0, 1), (2, 3)]);
}

#[test]
fn char_spans_count_characters() {
    assert_eq!(CharTokenizer.span_tokenize("éa"), vec![(0, 1), (1, 2)]);
    assert_eq!(CharTokenizer.tokenize("éa").concat(), "éa");
}

#[test]
fn line_spans() {
    assert_eq!(LineTokenizer::new("keep").span_tokenize("a\nb"), vec![(0, 1), (2, 3)]);
    assert_eq!(LineTokenizer::new("discard").span_tokenize("a\n\nb"), vec![(0, 1), (3, 4)]);
}

#[test]
fn line_tokenize_function() {
    assert_eq!(line_tokenize("x\n  \ny", "discard"), vec!["x", "y"]);
    assert_eq!(line_tokenize("x\n  \ny", "keep"), vec!["x", "  ", "y"]);
}

#[test]
fn relative_spans() {
    assert_eq!(spans_to_relative(&[(0, 5), (6, 11)]), vec![(0, 5), (1, 5)]);
}

#[test]
fn space_spans_pick_pieces() {
    let text = "ab  ç d";
    let chars: Vec<char> = text.chars().collect();
    let spans = SpaceTokenizer.span_tokenize(text);
    let picked: Vec<String> = spans.iter().map(|&(a, b)| chars[a..b].iter().collect()).collect();
    assert_eq!(picked, SpaceTokenizer.tokenize(text));
    assert_eq!(spans, vec![(0, 2), (3, 3), (4, 5), (6, 7)]);
}

#[test]
fn line_discard_eof_keeps_inner_blank_lines() {
    assert_eq!(LineTokenizer::new("discard-eof").tokenize("a\n\nb\n\n"), vec!["a", "", "b"]);
    assert_eq!(LineTokenizer::new("discard").tokenize("a\n\nb\n\n"), vec!["a", "b"]);
}
