use tokenize::api::TokenizerI;
use tokenize::mwe::MWETokenizer;

#[test]
fn mwe_basic() {
    let tok = MWETokenizer::new(
        vec![
            vec!["a".to_string(), "little".to_string()],
            vec!["a".to_string(), "lot".to_string()],
        ],
        "_",
    );
    let inp: Vec<String> = "a little or a lot"
        .split_whitespace()
        .map(|x| x.to_string())
        .collect();
    let out = tok.tokenize(&inp);
    assert_eq!(out, vec!["a_little", "or", "a_lot"]);
}

#[test]
fn no_match() {
    let tok = MWETokenizer::new(vec![], "_");
    let inp = vec!["hello".to_string()];
    assert_eq!(tok.tokenize(&inp), inp);
}

#[test]
fn mwe_longest_phrase_wins() {
    let mut tok = MWETokenizer::new(vec![vec!["new".to_string(), "york".to_string()]], " ");
    tok.add_mwe(vec!["new".to_string(), "york".to_string(), "city".to_string()]);
    let inp: Vec<String> = vec!["new", "york", "city", "new", "york"].into_iter().map(|s| s.to_string()).collect();
    assert_eq!(tok.tokenize(&inp), vec!["new york city", "new york"]);
}

#[test]
fn mwe_from_text() {
    let tok = MWETokenizer::new(vec![vec!["a".to_string(), "lot".to_string()]], "_");
    assert_eq!(TokenizerI::tokenize(&tok, "a  lot more"), vec!["a_lot", "more"]);
}

#[test]
fn add_mwe_keeps_earlier_phrases() {
    let mut tok = MWETokenizer::new(vec![vec!["a".to_string(), "lot".to_string()]], "+");
    let m = vec!["in".to_string(), "spite".to_string(), "of".to_string()];
    tok.add_mwe(m.clone());
    assert_eq!(tok.tokenize(&m), vec!["in+spite+of"]);
    let m0 = vec!["a".to_string(), "lot".to_string()];
    assert_eq!(tok.tokenize(&m0), vec!["a+lot"]);
}
