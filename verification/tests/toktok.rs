use tokenize::api::TokenizerI;
use tokenize::toktok::{
    expand_colon, expand_comma_not_in_num, expand_question, handle_final_period, toktok_tokenize,
    ToktokTokenizer,
};

#[test]
fn toktok_basic() {
    let t = ToktokTokenizer;
    let toks = TokenizerI::tokenize(&t, "Hello, world.");
    assert!(toks.contains(&"Hello".to_string()));
    assert!(toks.contains(&",".to_string()));
}

#[test]
fn str_mode() {
    let t = ToktokTokenizer;
    assert!(!t.tokenize_str("Hello world").is_empty());
}

#[test]
fn currency() {
    let t = ToktokTokenizer;
    let toks = TokenizerI::tokenize(&t, "It costs $5.00.");
    assert_eq!(toks, vec!["It", "costs", "$", "5.00", "."]);
}

#[test]
fn comma_in_num() {
    let t = ToktokTokenizer;
    let toks = TokenizerI::tokenize(&t, "Value 1,234.56 and hello, world");
    assert!(toks.contains(&"1,234.56".to_string()));
    assert!(toks.contains(&",".to_string()));
}

#[test]
fn colon_outside_urls() {
    assert_eq!(expand_colon("a:b http://x"), "a : b http://x");
}

#[test]
fn question_at_end() {
    assert_eq!(expand_question("why? no?x"), "why ?  no?x");
}

#[test]
fn comma_outside_numbers() {
    assert_eq!(expand_comma_not_in_num("a,b 1,2"), "a , b 1,2");
}

#[test]
fn final_period_set_apart() {
    assert_eq!(handle_final_period("End.  "), "End .  ");
    assert_eq!(handle_final_period("He said.\""), "He said . \"");
    assert_eq!(handle_final_period("Wait..."), "Wait...");
}

#[test]
fn toktok_function_and_flag() {
    assert_eq!(toktok_tokenize("Hi there!"), vec!["Hi", "there", "!"]);
    let t = ToktokTokenizer::new();
    assert_eq!(t.tokenize_with_flag("Hi there!", true), vec!["Hi there !"]);
}
