use tokenize::destructive::{align_tokens, try_align_tokens, NLTKWordTokenizer};
use tokenize::treebank::{detokenize, word_tokenize_core};

#[test]
fn word_period_split() {
    assert_eq!(NLTKWordTokenizer::tokenize_core("word.", false), vec!["word", "."]);
    assert_eq!(
        NLTKWordTokenizer::tokenize_core("Hello world.", false),
        vec!["Hello", "world", "."]
    );
}

#[test]
fn basic_split() {
    let t = NLTKWordTokenizer::tokenize_core("Good muffins cost $3.88 in New York.", false);
    assert!(t.contains(&"Good".to_string()));
    assert!(t.contains(&"$".to_string()));
}

#[test]
fn align_basic() {
    let s = "hello world";
    let toks = vec!["hello".to_string(), "world".to_string()];
    let spans = align_tokens(&toks, s);
    assert_eq!(spans, vec![(0, 5), (6, 11)]);
}

#[test]
fn align_missing_token() {
    let toks = vec!["world".to_string(), "hello".to_string()];
    assert_eq!(try_align_tokens(&toks, "hello world"), None);
}

#[test]
fn align_counts_characters() {
    let toks = vec!["né".to_string(), "là".to_string()];
    assert_eq!(align_tokens(&toks, "né là"), vec![(0, 2), (3, 5)]);
}

#[test]
fn contractions_split() {
    assert_eq!(
        NLTKWordTokenizer::tokenize_core("I can't go.", false),
        vec!["I", "ca", "n't", "go", "."]
    );
}

#[test]
fn brackets_converted() {
    assert_eq!(
        word_tokenize_core("(a)", true),
        vec!["-LRB-", "a", "-RRB-"]
    );
}

#[test]
fn spans_of_words() {
    assert_eq!(
        NLTKWordTokenizer::span_tokenize_core("Hello world."),
        vec![(0, 5), (6, 11), (11, 12)]
    );
    assert_eq!(
        NLTKWordTokenizer::try_span_tokenize_core("Hello world."),
        Some(vec![(0, 5), (6, 11), (11, 12)])
    );
}

#[test]
fn detokenize_joins() {
    let toks: Vec<String> = vec!["Hello", ",", "world", "."].into_iter().map(|s| s.to_string()).collect();
    assert_eq!(detokenize(&toks, false), "Hello, world.");
}

#[test]
fn quoted_spans_index_the_text() {
    assert_eq!(NLTKWordTokenizer::tokenize_core("\"Hi\"", false), vec!["``", "Hi", "''"]);
    assert_eq!(NLTKWordTokenizer::span_tokenize_core("\"Hi\""), vec![(0, 1), (1, 3), (3, 4)]);
    assert_eq!(
        NLTKWordTokenizer::try_span_tokenize_core("He said \"no\" ''twice''."),
        Some(NLTKWordTokenizer::span_tokenize_core("He said \"no\" ''twice''."))
    );
}
