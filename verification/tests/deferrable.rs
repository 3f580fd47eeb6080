use tokenize::api::TokenizerI;
use tokenize::deferrable::{
    LegalityPrincipleTokenizer, SonoritySequencingTokenizer, TextTilingTokenizer,
};

#[test]
fn legality_basic() {
    let t = LegalityPrincipleTokenizer::new(vec!["hello".to_string(), "world".to_string()], "aeiouy");
    let syl = t.tokenize_word("wonderful");
    assert!(!syl.is_empty());
}

#[test]
fn sonority_basic() {
    let t = SonoritySequencingTokenizer::default();
    let syl = t.tokenize_word("justification");
    assert!(!syl.is_empty());
}

#[test]
fn texttiling_basic() {
    let t = TextTilingTokenizer::default();
    assert!(!TokenizerI::tokenize(&t, "para one\n\npara two").is_empty());
}

#[test]
fn legality_syllables_rejoin() {
    let t = LegalityPrincipleTokenizer::new(
        vec!["hello".to_string(), "world".to_string(), "stop".to_string()],
        "aeiouy",
    );
    let syl = t.tokenize_word("wonderful");
    assert_eq!(syl.concat(), "wonderful");
    assert_eq!(t.tokenize_word("abc"), vec!["abc"]);
    assert_eq!(t.tokenize_word("123"), vec!["123"]);
    assert!(t.tokenize_word("").is_empty());
}

#[test]
fn legality_onsets() {
    let t = LegalityPrincipleTokenizer::new(vec!["stop".to_string(), "tree".to_string()], "aeiouy");
    assert_eq!(t.onset("Stop"), "st");
    let found = t.find_legal_onsets(&["stop".to_string(), "tree".to_string(), "apple".to_string()]);
    let mut found = found;
    found.sort();
    assert_eq!(found, vec!["st", "tr"]);
    assert_eq!(t.tokenize_word("mistreat"), vec!["mis", "tre", "at"]);
}

#[test]
fn sonority_syllables() {
    let t = SonoritySequencingTokenizer::new();
    assert_eq!(t.sonority('a'), 0);
    assert_eq!(t.sonority('L'), -1);
    assert_eq!(t.sonority('9'), -10);
    let syl = t.tokenize_word("justification");
    assert_eq!(syl.concat(), "justification");
    assert_eq!(t.tokenize_word("cat"), vec!["cat"]);
}

#[test]
fn syllable_tokenizers_on_text() {
    let t = SonoritySequencingTokenizer::default();
    let toks = TokenizerI::tokenize(&t, "cat dog");
    assert_eq!(toks, vec!["cat", "dog"]);
    assert_eq!(TokenizerI::span_tokenize(&t, "cat dog"), vec![(0, 3), (4, 7)]);
}

#[test]
fn texttiling_paths() {
    let t = TextTilingTokenizer::new(20, 10);
    assert_eq!(t.segment_quick("   "), Some(vec![]));
    assert_eq!(t.segment_quick(" one two "), Some(vec!["one two".to_string()]));
    let long: Vec<String> = (0..50).map(|i| format!("w{}", i)).collect();
    let text = long.join(" ");
    assert_eq!(t.segment_quick(&text), None);
    let segs = t.segment_at_cuts(&text, &[20, 25, 40]);
    assert_eq!(segs.len(), 3);
    assert_eq!(segs[0], long[0..20].join(" "));
    assert_eq!(segs[1], long[20..40].join(" "));
    assert_eq!(segs[2], long[40..50].join(" "));
    assert_eq!(t.segment_at_cuts(&text, &[]), vec![text.clone()]);
}

#[test]
fn syllables_are_never_empty() {
    let l = LegalityPrincipleTokenizer::new(
        vec!["hello".to_string(), "world".to_string(), "stop".to_string()],
        "aeiouy",
    );
    for w in ["wonderful", "strength", "aeiou", "x"] {
        assert!(l.tokenize_word(w).iter().all(|s| !s.is_empty()));
    }
    let s = SonoritySequencingTokenizer::new();
    for w in ["justification", "strength", "aaaa", "abc"] {
        assert!(s.tokenize_word(w).iter().all(|x| !x.is_empty()));
    }
}
