use tokenize::pipeline::word_tokenize;
use tokenize::punkt::{PunktParameters, PunktSentenceTokenizer, PunktToken, ORTHO_BEG_UC, ORTHO_MID_LC};
use tokenize::punkt_trainer::PunktTrainer;

#[test]
fn punkt_basic() {
    let tok = PunktSentenceTokenizer::default();
    let s = "Mr. Smith went to Washington. He saw Dr. Jones.";
    let out = tok.tokenize(s, true);
    assert!(out.len() >= 2, "should split into >=2, got {:?}", out);
    assert!(out[0].contains("Mr. Smith"), "first sent should keep abbrev, got {:?}", out[0]);
}

#[test]
fn abbrev_inc_vs() {
    let tok = PunktSentenceTokenizer::default();
    let s = "Acme Inc. is here. It vs. that is fine. etc. is abbrev.";
    let out = tok.tokenize(s, true);
    assert!(out.iter().any(|x| x.contains("Inc.")), "Inc. should not split: {:?}", out);
}

#[test]
fn empty() {
    let tok = PunktSentenceTokenizer::default();
    assert!(tok.tokenize("", true).is_empty());
}

#[test]
fn train_is_noop_fallback() {
    let mut t = PunktTrainer::new();
    t.train("Mr. Smith went home. Dr. Jones stayed.");
    assert!(t.abbrev_types.is_empty(), "training learns nothing");
}

#[test]
fn punkt_sentences_exact() {
    let tok = PunktSentenceTokenizer::default();
    assert_eq!(
        tok.tokenize("Mr. Smith went to Washington. He saw Dr. Jones.", true),
        vec!["Mr. Smith went to Washington.", "He saw Dr. Jones."]
    );
    assert_eq!(tok.tokenize("One.  Two!", true), vec!["One.", "Two!"]);
    assert_eq!(tok.span_tokenize("One.  Two!"), vec![(0, 4), (6, 10)]);
}

#[test]
fn punkt_realigns_quotes() {
    let tok = PunktSentenceTokenizer::default();
    assert_eq!(
        tok.tokenize("He said \"Stop.\" Then left.", true),
        vec!["He said \"Stop.\"", "Then left."]
    );
}

#[test]
fn punkt_parameters() {
    let mut p = PunktParameters::new();
    assert!(!p.is_abbrev("mr"));
    p.abbrev_types.push("mr".to_string());
    assert!(p.is_abbrev("mr"));
    p.add_ortho_context("word", ORTHO_BEG_UC);
    p.add_ortho_context("word", ORTHO_MID_LC);
    assert_eq!(p.ortho_context, vec![("word".to_string(), ORTHO_BEG_UC | ORTHO_MID_LC)]);
    p.clear_abbrevs();
    assert!(p.abbrev_types.is_empty());
    p.clear_ortho_context();
    assert!(p.ortho_context.is_empty());
    assert!(PunktParameters::english_default().is_abbrev("dr"));
    let q = PunktTrainer::new().finalize();
    assert!(q.abbrev_types.is_empty() && q.sent_starters.is_empty());
}

#[test]
fn punkt_tokens() {
    let t = PunktToken::new("Hello.".to_string(), false, true);
    assert_eq!(t.typ, "hello.");
    assert!(t.period_final);
    assert_eq!(t.type_no_period(), "hello");
    assert_eq!(t.type_no_sentperiod(), "hello.");
    assert_eq!(t.first_case(), "upper");
    assert!(t.first_upper() && !t.first_lower());
    let n = PunktToken::new("3.14".to_string(), false, false);
    assert_eq!(n.typ, "##number##");
    assert!(n.is_number());
    assert!(PunktToken::new("A.".to_string(), false, false).is_initial());
    assert!(PunktToken::new("wait...".to_string(), false, false).is_ellipsis());
    assert!(PunktToken::new("abc".to_string(), false, false).is_alpha());
}

#[test]
fn words_by_sentences() {
    let tok = PunktSentenceTokenizer::default();
    assert_eq!(
        word_tokenize(&tok, "Hi there. Bye.", false, false),
        vec!["Hi", "there", ".", "Bye", "."]
    );
    assert_eq!(word_tokenize(&tok, "Hi there.", false, true), vec!["Hi", "there", "."]);
}

#[test]
fn readme_word_tokenize() {
    let tok = PunktSentenceTokenizer::default();
    let out = word_tokenize(&tok, "Hello, world. It costs $5.00.", false, false);
    assert_eq!(out, vec!["Hello", ",", "world", ".", "It", "costs", "$", "5.00", "."]);
}

#[test]
fn readme_sent_tokenize() {
    let tok = PunktSentenceTokenizer::default();
    let out = tok.tokenize("Mr. Smith went home. He left.", true);
    assert_eq!(out, vec!["Mr. Smith went home.", "He left."]);
}

#[test]
fn punkt_splits_every_text() {
    let tok = PunktSentenceTokenizer::default();
    let text = "  \"Quoted.\"  Then (more)...\n\nNew para? Yes!  ";
    let sents = tok.tokenize(text, true);
    assert!(!sents.is_empty());
    for s in &sents {
        assert_eq!(s.trim(), s.as_str());
        assert!(!s.is_empty());
    }
}

#[test]
fn ortho_context_one_entry_per_type() {
    let mut p = PunktParameters::new();
    p.add_ortho_context("a", ORTHO_BEG_UC);
    p.add_ortho_context("b", ORTHO_MID_LC);
    p.add_ortho_context("a", ORTHO_MID_LC);
    assert_eq!(p.ortho_context.len(), 2);
    assert_eq!(p.ortho_context[0], ("a".to_string(), ORTHO_BEG_UC | ORTHO_MID_LC));
    assert_eq!(p.ortho_context[1], ("b".to_string(), ORTHO_MID_LC));
}
