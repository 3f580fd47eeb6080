use tokenize::nist::{lang_independent_sub, nist_international_tokenize, nist_tokenize, xml_unescape_local};

#[test]
fn nist_basic() {
    let toks = nist_tokenize("Good muffins cost $3.88 in New York.", false, true);
    assert!(toks.contains(&"Good".to_string()));
    assert!(toks.contains(&"$".to_string()));
}

#[test]
fn lower() {
    let toks = nist_tokenize("Hello World", true, true);
    assert_eq!(toks, vec!["hello", "world"]);
}

#[test]
fn nist_unescapes() {
    assert_eq!(xml_unescape_local("&lt;a&gt; &amp;amp;"), "<a> &amp;");
    assert_eq!(lang_independent_sub("a<skipped>b\u{2028}c"), "ab c");
}

#[test]
fn nist_numbers_kept() {
    assert_eq!(nist_tokenize("costs 3.88.", false, true), vec!["costs", "3.88", "."]);
}

#[test]
fn nist_non_western() {
    assert_eq!(nist_tokenize("a,b", false, false), vec!["a,b"]);
    assert_eq!(nist_international_tokenize("a,b", false), vec!["a", ",", "b"]);
}
