//! Word tokenization of running text: split into sentences, then each sentence
//! into words.
use vstd::prelude::*;
use crate::destructive::{word_tokens, NLTKWordTokenizer};
use crate::punkt::PunktSentenceTokenizer;
use crate::text::str_views;

verus! {

/// The word tokens of each sentence, in order.
pub open spec fn words_of_sentences(sents: Seq<Seq<char>>, convert_parentheses: bool) -> Seq<Seq<char>>
    decreases sents.len(),
{
    if sents.len() == 0 {
        seq![]
    } else {
        words_of_sentences(sents.drop_last(), convert_parentheses) + word_tokens(
            sents.last(),
            convert_parentheses,
        )
    }
}

/// The word tokens of `text`: of the whole text with `preserve_line` (or when it
/// has no sentences), and otherwise of each of its sentences in turn.
pub open spec fn text_word_tokens(
    sentencer: PunktSentenceTokenizer,
    text: Seq<char>,
    convert_parentheses: bool,
    preserve_line: bool,
) -> Seq<Seq<char>> {
    if preserve_line {
        word_tokens(text, convert_parentheses)
    } else {
        let s = sentencer.sentences(text, true);
        if s.len() == 0 {
            word_tokens(text, convert_parentheses)
        } else {
            words_of_sentences(s, convert_parentheses)
        }
    }
}

/// The word tokens of `text`, sentence by sentence by `sentencer` unless
/// `preserve_line`.
pub fn word_tokenize(
    sentencer: &PunktSentenceTokenizer,
    text: &str,
    convert_parentheses: bool,
    preserve_line: bool,
) -> (r: Vec<String>)
    ensures
        str_views(r@) == text_word_tokens(*sentencer, text@, convert_parentheses, preserve_line),
{
    if preserve_line {
        return NLTKWordTokenizer::tokenize_core(text, convert_parentheses);
    }
    let sentences = sentencer.tokenize(text, true);
    if sentences.len() == 0 {
        return NLTKWordTokenizer::tokenize_core(text, convert_parentheses);
    }
    let ghost sv = str_views(sentences@);
    let mut out: Vec<String> = Vec::new();
    for i in 0..sentences.len()
        invariant
            sv == str_views(sentences@),
            str_views(out@) == words_of_sentences(sv.take(i as int), convert_parentheses),
    {
        assert(sv.take(i + 1).drop_last() =~= sv.take(i as int));
        let words = NLTKWordTokenizer::tokenize_core(sentences[i].as_str(), convert_parentheses);
        let ghost before = str_views(out@);
        let mut k: usize = 0;
        while k < words.len()
            invariant
                k <= words.len(),
                str_views(out@) == before + str_views(words@).take(k as int),
            decreases words.len() - k,
        {
            let ghost o = str_views(out@);
            out.push(words[k].clone());
            assert(str_views(out@) =~= o.push(words@[k as int]@));
            assert(str_views(words@).take(k + 1) =~= str_views(words@).take(k as int).push(words@[k as int]@));
            k = k + 1;
        }
        assert(str_views(words@).take(words.len() as int) =~= str_views(words@));
    }
    assert(sv.take(sentences.len() as int) =~= sv);
    out
}

} // verus!
