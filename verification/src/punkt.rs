//! The Punkt sentence boundary detector: learned parameters (abbreviations,
//! collocations, sentence starters, orthographic context), tokens with their
//! annotations, and the two annotation passes that decide where sentences end.
use vstd::prelude::*;
use crate::api::spans_view;
use crate::destructive::{
    align_tokens, alignment, find_from, find_from_exec, lemma_find_from_sound, try_align_tokens,
};
use crate::simple::lemma_split_at_find;
use crate::rx::{fancy_find_ok, fancy_ok_matches, in_order_within, find_all, is_match, rfind, rmatch, rsplit, split_by};
use crate::text::{
    char_is_ws, char_views, chars_eq, chars_of, is_lowercase, lemma_trim_idempotent, is_uppercase, is_ws, lowercase,
    lowercase_char, occurs_at, slice_chars, split_acc, split_chars, split_seq, str_views, string_of, to_lowercase, trim,
    trim_chars, trim_end, trim_end_chars, uppercase,
};

verus! {

/// Seen uppercase at the beginning of a sentence.
pub const ORTHO_BEG_UC: i32 = 2;
/// Seen uppercase in the middle of a sentence.
pub const ORTHO_MID_UC: i32 = 4;
/// Seen uppercase where the position was unknown.
pub const ORTHO_UNK_UC: i32 = 8;
/// Seen lowercase at the beginning of a sentence.
pub const ORTHO_BEG_LC: i32 = 16;
/// Seen lowercase in the middle of a sentence.
pub const ORTHO_MID_LC: i32 = 32;
/// Seen lowercase where the position was unknown.
pub const ORTHO_UNK_LC: i32 = 64;
/// Seen uppercase anywhere.
pub const ORTHO_UC: i32 = 14;
/// Seen lowercase anywhere.
pub const ORTHO_LC: i32 = 112;

/// The orthographic flags of the first entry for `typ`, or 0 when there is none.
pub open spec fn ortho_lookup(v: Seq<(String, i32)>, typ: Seq<char>) -> i32
    decreases v.len(),
{
    if v.len() == 0 {
        0
    } else if v[0].0@ == typ {
        v[0].1
    } else {
        ortho_lookup(v.drop_first(), typ)
    }
}

/// What Punkt has learned of a language: abbreviation types (lowercase, without
/// the final period), collocations, sentence starters and, for each word type,
/// the cases it was seen in (orthographic context flags).
#[derive(Debug, Clone)]
pub struct PunktParameters {
    pub abbrev_types: Vec<String>,
    pub collocations: Vec<(String, String)>,
    pub sent_starters: Vec<String>,
    pub ortho_context: Vec<(String, i32)>,
}

/// Common English abbreviations, lowercase and without the final period.
pub const ENGLISH_ABBREVS: [&'static str; 60] = [
    "mr", "mrs", "ms", "dr", "prof", "rev", "gen", "col", "lt", "sgt", "capt", "gov", "sen",
    "rep", "st", "jr", "sr", "inc", "ltd", "co", "corp", "bros", "vs", "etc", "e.g", "i.e",
    "u.s", "u.k", "no", "vol", "fig", "al", "approx", "dept", "est", "ft", "mt", "ave", "blvd",
    "jan", "feb", "mar", "apr", "jun", "jul", "aug", "sep", "sept", "oct", "nov", "dec", "mon",
    "tue", "wed", "thu", "fri", "sat", "sun", "p.m", "a.m",
];

/// The abbreviations of `ENGLISH_ABBREVS`.
pub open spec fn english_abbrevs() -> Seq<Seq<char>> {
    ENGLISH_ABBREVS@.map_values(|s: &'static str| s@)
}

impl PunktParameters {
    /// `word` is a known abbreviation type.
    pub open spec fn has_abbrev(&self, word: Seq<char>) -> bool {
        str_views(self.abbrev_types@).contains(word)
    }

    /// `(a, b)` is a known collocation.
    pub open spec fn has_collocation(&self, a: Seq<char>, b: Seq<char>) -> bool {
        exists|i: int| 0 <= i < self.collocations@.len() && #[trigger] self.collocations@[i].0@ == a
            && self.collocations@[i].1@ == b
    }

    /// `word` is a known sentence starter.
    pub open spec fn has_starter(&self, word: Seq<char>) -> bool {
        str_views(self.sent_starters@).contains(word)
    }

    /// The orthographic context flags of `typ`.
    pub open spec fn ortho(&self, typ: Seq<char>) -> i32 {
        ortho_lookup(self.ortho_context@, typ)
    }

    /// Parameters that know nothing.
    pub fn new() -> (r: Self)
        ensures
            r.abbrev_types@.len() == 0,
            r.collocations@.len() == 0,
            r.sent_starters@.len() == 0,
            r.ortho_context@.len() == 0,
    {
        PunktParameters {
            abbrev_types: Vec::new(),
            collocations: Vec::new(),
            sent_starters: Vec::new(),
            ortho_context: Vec::new(),
        }
    }

    /// Whether `word` is a known abbreviation type.
    pub fn is_abbrev(&self, word: &str) -> (b: bool)
        ensures
            b == self.has_abbrev(word@),
    {
        contains_string(&self.abbrev_types, word)
    }

    pub fn clear_abbrevs(&mut self)
        ensures
            final(self).abbrev_types@.len() == 0,
            final(self).collocations == old(self).collocations,
            final(self).sent_starters == old(self).sent_starters,
            final(self).ortho_context == old(self).ortho_context,
    {
        self.abbrev_types.clear();
    }

    pub fn clear_collocations(&mut self)
        ensures
            final(self).collocations@.len() == 0,
            final(self).abbrev_types == old(self).abbrev_types,
            final(self).sent_starters == old(self).sent_starters,
            final(self).ortho_context == old(self).ortho_context,
    {
        self.collocations.clear();
    }

    pub fn clear_sent_starters(&mut self)
        ensures
            final(self).sent_starters@.len() == 0,
            final(self).abbrev_types == old(self).abbrev_types,
            final(self).collocations == old(self).collocations,
            final(self).ortho_context == old(self).ortho_context,
    {
        self.sent_starters.clear();
    }

    pub fn clear_ortho_context(&mut self)
        ensures
            final(self).ortho_context@.len() == 0,
            final(self).abbrev_types == old(self).abbrev_types,
            final(self).collocations == old(self).collocations,
            final(self).sent_starters == old(self).sent_starters,
    {
        self.ortho_context.clear();
    }

    /// `typ` has an entry in the orthographic context.
    pub open spec fn has_ortho_entry(&self, typ: Seq<char>) -> bool {
        exists|i: int| 0 <= i < self.ortho_context@.len() && #[trigger] self.ortho_context@[i].0@ == typ
    }

    /// No type has two entries in the orthographic context.
    pub open spec fn ortho_keys_unique(&self) -> bool {
        forall|i: int, j: int|
            #![trigger self.ortho_context@[i], self.ortho_context@[j]]
            0 <= i < j < self.ortho_context@.len() ==> self.ortho_context@[i].0@
                != self.ortho_context@[j].0@
    }

    /// Adds the flags `flag` to the orthographic context of `typ`: its entry is
    /// updated, or made when there is none, and no other entry changes.
    pub fn add_ortho_context(&mut self, typ: &str, flag: i32)
        ensures
            final(self).has_ortho_entry(typ@),
            forall|t: Seq<char>| #[trigger] final(self).has_ortho_entry(t) <==> (old(self).has_ortho_entry(t) || t == typ@),
            final(self).ortho_context@.len() == old(self).ortho_context@.len() + (if old(self).has_ortho_entry(typ@) {
                0int
            } else {
                1int
            }),
            old(self).ortho_keys_unique() ==> final(self).ortho_keys_unique(),
            final(self).ortho(typ@) == old(self).ortho(typ@) | flag,
            forall|t: Seq<char>| t != typ@ ==> #[trigger] final(self).ortho(t) == old(self).ortho(t),
            final(self).abbrev_types == old(self).abbrev_types,
            final(self).collocations == old(self).collocations,
            final(self).sent_starters == old(self).sent_starters,
    {
        let ghost v0 = self.ortho_context@;
        match find_ortho(&self.ortho_context, typ) {
            Some(i) => {
                let old_flags = self.ortho_context[i].1;
                let key = self.ortho_context[i].0.clone();
                self.ortho_context.set(i, (key, old_flags | flag));
                proof {
                    lemma_ortho_update(v0, i as int, typ@, flag);
                    assert(self.ortho_context@ == v0.update(i as int, (v0[i as int].0, v0[i as int].1 | flag)));
                    let w = self.ortho_context@;
                    assert(w[i as int].0@ == typ@);
                    assert forall|t: Seq<char>| #[trigger] self.has_ortho_entry(t) <==> (old(self).has_ortho_entry(t) || t == typ@) by {
                        if old(self).has_ortho_entry(t) {
                            let j = choose|j: int| 0 <= j < v0.len() && #[trigger] v0[j].0@ == t;
                            assert(w[j].0@ == t);
                        }
                        if self.has_ortho_entry(t) {
                            let j = choose|j: int| 0 <= j < w.len() && #[trigger] w[j].0@ == t;
                            assert(v0[j].0@ == t);
                        }
                    }
                    assert(self.has_ortho_entry(typ@));
                    assert(old(self).has_ortho_entry(typ@)) by {
                        assert(v0[i as int].0@ == typ@);
                    }
                    if old(self).ortho_keys_unique() {
                        assert forall|a: int, b: int|
                            #![trigger w[a], w[b]]
                            0 <= a < b < w.len() implies w[a].0@ != w[b].0@ by {
                            assert(w[a].0@ == v0[a].0@);
                            assert(w[b].0@ == v0[b].0@);
                            assert(v0[a].0@ != v0[b].0@);
                        }
                    }
                }
            },
            None => {
                let entry = (typ.to_owned(), 0i32 | flag);
                self.ortho_context.push(entry);
                proof {
                    lemma_ortho_push(v0, entry, typ@, flag);
                    let w = self.ortho_context@;
                    assert(w == v0.push(entry));
                    assert(w[v0.len() as int].0@ == typ@);
                    assert(!old(self).has_ortho_entry(typ@));
                    assert forall|t: Seq<char>| #[trigger] self.has_ortho_entry(t) <==> (old(self).has_ortho_entry(t) || t == typ@) by {
                        if old(self).has_ortho_entry(t) {
                            let j = choose|j: int| 0 <= j < v0.len() && #[trigger] v0[j].0@ == t;
                            assert(w[j].0@ == t);
                        }
                        if self.has_ortho_entry(t) {
                            let j = choose|j: int| 0 <= j < w.len() && #[trigger] w[j].0@ == t;
                            if j < v0.len() {
                                assert(v0[j].0@ == t);
                            }
                        }
                    }
                    if old(self).ortho_keys_unique() {
                        assert forall|a: int, b: int|
                            #![trigger w[a], w[b]]
                            0 <= a < b < w.len() implies w[a].0@ != w[b].0@ by {
                            assert(w[a] == v0[a]);
                            if b < v0.len() {
                                assert(w[b] == v0[b]);
                                assert(v0[a].0@ != v0[b].0@);
                            } else {
                                assert(v0[a].0@ != typ@);
                            }
                        }
                    }
                }
            },
        }
    }

    /// The default English parameters: the abbreviations of `ENGLISH_ABBREVS`, no
    /// collocations, sentence starters or orthographic context.
    pub fn english_default() -> (r: Self)
        ensures
            str_views(r.abbrev_types@) == english_abbrevs(),
            r.collocations@.len() == 0,
            r.sent_starters@.len() == 0,
            r.ortho_context@.len() == 0,
    {
        let mut p = Self::new();
        let mut i: usize = 0;
        while i < 60
            invariant
                i <= 60,
                str_views(p.abbrev_types@) == english_abbrevs().take(i as int),
                p.collocations@.len() == 0,
                p.sent_starters@.len() == 0,
                p.ortho_context@.len() == 0,
            decreases 60 - i,
        {
            let ghost before = str_views(p.abbrev_types@);
            let a = ENGLISH_ABBREVS[i].to_owned();
            assert(a@ == english_abbrevs()[i as int]);
            p.abbrev_types.push(a);
            assert(str_views(p.abbrev_types@) =~= before.push(a@));
            assert(str_views(p.abbrev_types@) =~= english_abbrevs().take(i + 1));
            i = i + 1;
        }
        assert(english_abbrevs().take(60) =~= english_abbrevs());
        p
    }
}

impl Default for PunktParameters {
    fn default() -> (r: Self)
        ensures
            r.abbrev_types@.len() == 0,
            r.collocations@.len() == 0,
            r.sent_starters@.len() == 0,
            r.ortho_context@.len() == 0,
    {
        Self::new()
    }
}

proof fn lemma_ortho_update(v: Seq<(String, i32)>, i: int, typ: Seq<char>, flag: i32)
    requires
        0 <= i < v.len(),
        v[i].0@ == typ,
        forall|j: int| 0 <= j < i ==> v[j].0@ != typ,
    ensures
        ({
            let w = v.update(i, (v[i].0, v[i].1 | flag));
            &&& ortho_lookup(w, typ) == ortho_lookup(v, typ) | flag
            &&& forall|t: Seq<char>| t != typ ==> #[trigger] ortho_lookup(w, t) == ortho_lookup(v, t)
        }),
    decreases i,
{
    let w = v.update(i, (v[i].0, v[i].1 | flag));
    if i > 0 {
        lemma_ortho_update(v.drop_first(), i - 1, typ, flag);
        assert(w.drop_first() =~= v.drop_first().update(i - 1, (v[i].0, v[i].1 | flag)));
        assert(w[0] == v[0]);
        assert(v[0].0@ != typ);
        assert forall|t: Seq<char>| t != typ implies #[trigger] ortho_lookup(w, t) == ortho_lookup(v, t) by {
            if v[0].0@ != t {
                assert(ortho_lookup(w, t) == ortho_lookup(w.drop_first(), t));
                assert(ortho_lookup(v, t) == ortho_lookup(v.drop_first(), t));
            }
        }
    } else {
        assert(w.drop_first() =~= v.drop_first());
        assert(w[0] == (v[0].0, v[0].1 | flag));
        assert forall|t: Seq<char>| t != typ implies #[trigger] ortho_lookup(w, t) == ortho_lookup(v, t) by {
            assert(ortho_lookup(w, t) == ortho_lookup(w.drop_first(), t));
            assert(ortho_lookup(v, t) == ortho_lookup(v.drop_first(), t));
        }
    }
}

proof fn lemma_ortho_push(v: Seq<(String, i32)>, e: (String, i32), typ: Seq<char>, flag: i32)
    requires
        forall|j: int| 0 <= j < v.len() ==> v[j].0@ != typ,
        e.0@ == typ,
        e.1 == 0i32 | flag,
    ensures
        ortho_lookup(v.push(e), typ) == ortho_lookup(v, typ) | flag,
        forall|t: Seq<char>| t != typ ==> #[trigger] ortho_lookup(v.push(e), t) == ortho_lookup(v, t),
    decreases v.len(),
{
    let w = v.push(e);
    if v.len() == 0 {
        assert(w.drop_first() =~= Seq::<(String, i32)>::empty());
        assert(ortho_lookup(v, typ) == 0);
        assert forall|t: Seq<char>| t != typ implies #[trigger] ortho_lookup(w, t) == ortho_lookup(v, t) by {
            assert(ortho_lookup(w, t) == ortho_lookup(w.drop_first(), t));
        }
    } else {
        assert(w.drop_first() =~= v.drop_first().push(e));
        lemma_ortho_push(v.drop_first(), e, typ, flag);
        assert(v[0].0@ != typ);
        assert(w[0] == v[0]);
        assert forall|t: Seq<char>| t != typ implies #[trigger] ortho_lookup(w, t) == ortho_lookup(v, t) by {
            if v[0].0@ != t {
                assert(ortho_lookup(w, t) == ortho_lookup(w.drop_first(), t));
                assert(ortho_lookup(v, t) == ortho_lookup(v.drop_first(), t));
            }
        }
    }
}

/// The index of the first entry for `typ`.
fn find_ortho(v: &Vec<(String, i32)>, typ: &str) -> (r: Option<usize>)
    ensures
        match r {
            Some(i) => i < v.len() && v@[i as int].0@ == typ@ && forall|j: int| 0 <= j < i ==> v@[j].0@ != typ@,
            None => forall|j: int| 0 <= j < v.len() ==> v@[j].0@ != typ@,
        },
{
    let mut i: usize = 0;
    while i < v.len()
        invariant
            i <= v.len(),
            forall|j: int| 0 <= j < i ==> v@[j].0@ != typ@,
        decreases v.len() - i,
    {
        if v[i].0 == typ.to_owned() {
            return Some(i);
        }
        i = i + 1;
    }
    None
}

/// Whether one of the strings of `v` spells `word`.
fn contains_string(v: &Vec<String>, word: &str) -> (b: bool)
    ensures
        b == str_views(v@).contains(word@),
{
    let w = chars_of(word);
    for i in 0..v.len()
        invariant
            w@ == word@,
            forall|j: int| 0 <= j < i ==> v@[j]@ != word@,
    {
        let c = chars_of(v[i].as_str());
        if chars_eq(&c, &w) {
            assert(str_views(v@)[i as int] == word@);
            return true;
        }
    }
    false
}


// ---------------------------------------------------------------------------
// Tokens
// ---------------------------------------------------------------------------
pub const RE_NUMERIC: &'static str = r"^-?[\.,]?\d[\d,\.-]*\.?$";
pub const RE_ELLIPSIS: &'static str = r"\.\.+$";
pub const RE_INITIAL: &'static str = r"^[^\W\d]\.$";
pub const RE_ALPHA: &'static str = r"^[^\W\d]+$";
pub const RE_NON_PUNCT: &'static str = r"[^\W\d]";

/// The type of a token: `##number##` for a number, otherwise the token
/// lowercased.
pub open spec fn punkt_type(tok: Seq<char>) -> Seq<char> {
    if rmatch(RE_NUMERIC@, tok) {
        "##number##"@
    } else {
        lowercase(tok)
    }
}

/// `s` ends with `c`.
pub open spec fn ends_with(s: Seq<char>, c: char) -> bool {
    s.len() > 0 && s.last() == c
}

/// `typ` without a final period, unless the period is all there is.
pub open spec fn no_period(typ: Seq<char>) -> Seq<char> {
    if typ.len() > 1 && typ.last() == '.' {
        typ.drop_last()
    } else {
        typ
    }
}

/// A word of the text with what the annotation passes have found out about it.
#[derive(Debug, Clone)]
pub struct PunktToken {
    pub tok: String,
    pub typ: String,
    pub period_final: bool,
    pub sentbreak: bool,
    pub abbr: bool,
    pub ellipsis: bool,
    pub parastart: bool,
    pub linestart: bool,
}

impl PunktToken {
    /// A token for `tok`, not yet annotated.
    pub open spec fn fresh(&self, tok: Seq<char>, parastart: bool, linestart: bool) -> bool {
        &&& self.tok@ == tok
        &&& self.typ@ == punkt_type(tok)
        &&& self.period_final == ends_with(tok, '.')
        &&& !self.sentbreak
        &&& !self.abbr
        &&& !self.ellipsis
        &&& self.parastart == parastart
        &&& self.linestart == linestart
    }

    /// The type without a final period when the token ends a sentence.
    pub open spec fn spec_type_no_sentperiod(&self) -> Seq<char> {
        if self.sentbreak {
            no_period(self.typ@)
        } else {
            self.typ@
        }
    }

    /// The first character is uppercase.
    pub open spec fn spec_first_upper(&self) -> bool {
        self.tok@.len() > 0 && uppercase(self.tok@[0])
    }

    /// The first character is lowercase.
    pub open spec fn spec_first_lower(&self) -> bool {
        self.tok@.len() > 0 && lowercase_char(self.tok@[0])
    }

    pub fn new(tok: String, parastart: bool, linestart: bool) -> (r: Self)
        ensures
            r.fresh(tok@, parastart, linestart),
    {
        let typ = Self::get_type(tok.as_str());
        let v = chars_of(tok.as_str());
        let period_final = v.len() > 0 && v[v.len() - 1] == '.';
        PunktToken {
            tok,
            typ,
            period_final,
            sentbreak: false,
            abbr: false,
            ellipsis: false,
            parastart,
            linestart,
        }
    }

    fn get_type(tok: &str) -> (r: String)
        ensures
            r@ == punkt_type(tok@),
    {
        if is_match(RE_NUMERIC, tok) {
            proof {
                reveal_strlit("##number##");
            }
            return "##number##".to_owned();
        }
        to_lowercase(tok)
    }

    /// The type without its final period.
    pub fn type_no_period(&self) -> (r: String)
        ensures
            r@ == no_period(self.typ@),
    {
        let v = chars_of(self.typ.as_str());
        if v.len() > 1 && v[v.len() - 1] == '.' {
            let w = slice_chars(&v, 0, v.len() - 1);
            assert(w@ =~= v@.drop_last());
            string_of(w.as_slice())
        } else {
            self.typ.clone()
        }
    }

    /// The type, without its final period when the token ends a sentence.
    pub fn type_no_sentperiod(&self) -> (r: String)
        ensures
            r@ == self.spec_type_no_sentperiod(),
    {
        if self.sentbreak {
            self.type_no_period()
        } else {
            self.typ.clone()
        }
    }

    pub fn first_upper(&self) -> (b: bool)
        ensures
            b == self.spec_first_upper(),
    {
        let v = chars_of(self.tok.as_str());
        v.len() > 0 && is_uppercase(v[0])
    }

    pub fn first_lower(&self) -> (b: bool)
        ensures
            b == self.spec_first_lower(),
    {
        let v = chars_of(self.tok.as_str());
        v.len() > 0 && is_lowercase(v[0])
    }

    /// `lower`, `upper` or `none`, by the case of the first character.
    pub fn first_case(&self) -> (r: &'static str)
        ensures
            r@ == (if self.spec_first_lower() {
                "lower"@
            } else if self.spec_first_upper() {
                "upper"@
            } else {
                "none"@
            }),
    {
        if self.first_lower() {
            "lower"
        } else if self.first_upper() {
            "upper"
        } else {
            "none"
        }
    }

    /// The token ends in two or more periods.
    pub fn is_ellipsis(&self) -> (b: bool)
        ensures
            b == rmatch(RE_ELLIPSIS@, self.tok@),
    {
        is_match(RE_ELLIPSIS, self.tok.as_str())
    }

    /// The type is a number.
    pub fn is_number(&self) -> (b: bool)
        ensures
            b == (self.typ@.len() >= 10 && self.typ@.subrange(0, 10) == "##number##"@),
    {
        let v = chars_of(self.typ.as_str());
        let n = chars_of("##number##");
        proof {
            reveal_strlit("##number##");
        }
        if v.len() < 10 {
            return false;
        }
        let head = slice_chars(&v, 0, 10);
        chars_eq(&head, &n)
    }

    /// The token is one letter and a period.
    pub fn is_initial(&self) -> (b: bool)
        ensures
            b == rmatch(RE_INITIAL@, self.tok@),
    {
        is_match(RE_INITIAL, self.tok.as_str())
    }

    /// The token is all letters.
    pub fn is_alpha(&self) -> (b: bool)
        ensures
            b == rmatch(RE_ALPHA@, self.tok@),
    {
        is_match(RE_ALPHA, self.tok.as_str())
    }

    /// The type holds a letter.
    pub fn is_non_punct(&self) -> (b: bool)
        ensures
            b == rmatch(RE_NON_PUNCT@, self.typ@),
    {
        is_match(RE_NON_PUNCT, self.typ.as_str())
    }
}

// ---------------------------------------------------------------------------
// Language variables
// ---------------------------------------------------------------------------
pub const RE_PERIOD_CONTEXT: &'static str = r"[.?!\]]";
pub const RE_BOUNDARY_REALIGNMENT: &'static str = r#"["')\]}]+(?:\s+|$)"#;
pub const RE_WORD_TOKENIZER: &'static str = r#"((?:\-{2,}|\.{2,}|(?:\.\s){2,}\.)|(?=[^\(\"\\`{\[:;&\#\*@\)}\]\-,])\S+?(?=\s|$|[)";}\]*:@'\({\[?!]|(?:\-{2,}|\.{2,}|(?:\.\s){2,}\.)|,(?=$|\s|[)";}\]*:@'\({\[?!]|(?:\-{2,}|\.{2,}|(?:\.\s){2,}\.)))|\S)"#;

/// The characters and patterns Punkt reads a language by; the patterns are
/// regular expressions (`fancy_regex` syntax for the word tokenizer).
pub struct PunktLanguageVars {
    pub sent_end_chars: Vec<char>,
    pub internal_punctuation: String,
    pub re_period_context: String,
    pub re_word_tokenizer: String,
    pub re_boundary_realignment: String,
}

impl Default for PunktLanguageVars {
    fn default() -> (r: Self)
        ensures
            r.sent_end_chars@ == seq!['.', '?', '!'],
            r.internal_punctuation@ == ",:;"@,
            r.re_period_context@ == RE_PERIOD_CONTEXT@,
            r.re_word_tokenizer@ == RE_WORD_TOKENIZER@,
            r.re_boundary_realignment@ == RE_BOUNDARY_REALIGNMENT@,
    {
        let sent_end_chars = vec!['.', '?', '!'];
        PunktLanguageVars {
            sent_end_chars,
            internal_punctuation: ",:;".to_owned(),
            re_period_context: RE_PERIOD_CONTEXT.to_owned(),
            re_word_tokenizer: RE_WORD_TOKENIZER.to_owned(),
            re_boundary_realignment: RE_BOUNDARY_REALIGNMENT.to_owned(),
        }
    }
}

impl PunktLanguageVars {
    /// The words of `s`: the matches of the word tokenizer pattern.
    pub fn word_tokenize(&self, s: &str) -> (r: Vec<String>)
        ensures
            str_views(r@) == fancy_ok_matches(self.re_word_tokenizer@, s@),
            in_order_within(s@, str_views(r@), 0, s@.len() as int),
    {
        fancy_find_ok(self.re_word_tokenizer.as_str(), s)
    }
}


// ---------------------------------------------------------------------------
// Annotation
// ---------------------------------------------------------------------------
/// One character of one byte.
pub open spec fn single_byte(tok: Seq<char>) -> bool {
    tok.len() == 1 && (tok[0] as u32) < 128
}

/// The part of `s` after its last `-` (all of `s` when it has none).
pub open spec fn after_dash(s: Seq<char>) -> Seq<char>
    decreases s.len(),
{
    if s.len() == 0 {
        s
    } else if s.last() == '-' {
        seq![]
    } else {
        after_dash(s.drop_last()).push(s.last())
    }
}

/// `tok` ends in two periods.
pub open spec fn ends_two_periods(tok: Seq<char>) -> bool {
    tok.len() >= 2 && tok[tok.len() - 1] == '.' && tok[tok.len() - 2] == '.'
}

/// The first pass: (sentence break, abbreviation, ellipsis) for a token. A
/// sentence-ending character alone breaks; an ellipsis is marked; a word with a
/// final period is an abbreviation when it (or its part after the last dash),
/// lowercased and without the period, is a known abbreviation, and breaks
/// otherwise.
pub open spec fn first_flags(params: PunktParameters, sent_end: Seq<char>, tok: Seq<char>) -> (
    bool,
    bool,
    bool,
) {
    if single_byte(tok) && sent_end.contains(tok[0]) {
        (true, false, false)
    } else if rmatch(RE_ELLIPSIS@, tok) {
        (false, false, true)
    } else if ends_with(tok, '.') && !ends_two_periods(tok) {
        let without = lowercase(tok.drop_last());
        if params.has_abbrev(without) || params.has_abbrev(after_dash(without)) {
            (false, true, false)
        } else {
            (true, false, false)
        }
    } else {
        (false, false, false)
    }
}

/// The tokens that are punctuation to the orthographic heuristic.
pub open spec fn punct_tokens() -> Seq<Seq<char>> {
    seq![
        ";"@, ":"@, ","@, "."@, "!"@, "?"@, "\""@, "'"@, "``"@, "''"@, "("@, ")"@, "["@,
        "]"@, "{"@, "}"@, "<"@, ">"@,
    ]
}

/// The type of `tok`, without a final period when it ends a sentence.
pub open spec fn type_no_sentperiod_of(tok: Seq<char>, sentbreak: bool) -> Seq<char> {
    if sentbreak {
        no_period(punkt_type(tok))
    } else {
        punkt_type(tok)
    }
}

/// Whether the orthography of `tok` says it starts a sentence: `Some(true)` for
/// a capitalised word seen lowercase but never capitalised mid-sentence,
/// `Some(false)` for punctuation and for a lowercase word seen capitalised or
/// never seen lowercase at a sentence start, `None` otherwise.
pub open spec fn ortho_guess(params: PunktParameters, tok: Seq<char>, sentbreak: bool) -> Option<bool> {
    if punct_tokens().contains(tok) {
        Some(false)
    } else {
        let o = params.ortho(type_no_sentperiod_of(tok, sentbreak));
        if tok.len() > 0 && uppercase(tok[0]) && (o & ORTHO_LC) != 0 && (o & ORTHO_MID_UC) == 0 {
            Some(true)
        } else if tok.len() > 0 && lowercase_char(tok[0]) && ((o & ORTHO_UC) != 0 || (o
            & ORTHO_BEG_LC) == 0) {
            Some(false)
        } else {
            None
        }
    }
}

/// The second pass: (sentence break, abbreviation) for token `tok`, given what
/// the first pass found for it (`f`) and for the token after it (`next`,
/// `nf`). Collocations join; an abbreviation or ellipsis breaks before a word
/// that the orthography or the sentence starters call a starter; an initial or
/// a number does not break before a word the orthography calls no starter.
pub open spec fn second_flags(
    params: PunktParameters,
    tok: Seq<char>,
    f: (bool, bool, bool),
    next: Seq<char>,
    nf: (bool, bool, bool),
) -> (bool, bool) {
    if !ends_with(tok, '.') {
        (f.0, f.1)
    } else {
        let ctyp = no_period(punkt_type(tok));
        let ntyp = type_no_sentperiod_of(next, nf.0);
        let initial = rmatch(RE_INITIAL@, tok);
        let next_upper = next.len() > 0 && uppercase(next[0]);
        let guess = ortho_guess(params, next, nf.0);
        if params.has_collocation(ctyp, ntyp) {
            (false, true)
        } else if (f.1 || f.2) && !initial && (guess == Some(true) || (next_upper
            && params.has_starter(ntyp))) {
            (true, f.1)
        } else if (initial || ctyp == "##number##"@) && guess == Some(false) {
            (false, true)
        } else if (initial || ctyp == "##number##"@) && guess is None && initial && next_upper && (
        params.ortho(ntyp) & ORTHO_LC) == 0 {
            (false, true)
        } else {
            (f.0, f.1)
        }
    }
}

/// Whether the token at `i` ends a sentence after both passes.
pub open spec fn sentbreak_at(params: PunktParameters, sent_end: Seq<char>, toks: Seq<Seq<char>>, i: int) -> bool {
    let f = first_flags(params, sent_end, toks[i]);
    if i + 1 < toks.len() {
        second_flags(params, toks[i], f, toks[i + 1], first_flags(params, sent_end, toks[i + 1])).0
    } else {
        f.0
    }
}

/// A token that the first pass has seen: its type and final period are those of
/// its text, and its flags those of `first_flags`.
pub open spec fn first_passed(params: PunktParameters, sent_end: Seq<char>, t: PunktToken) -> bool {
    &&& t.typ@ == punkt_type(t.tok@)
    &&& t.period_final == ends_with(t.tok@, '.')
    &&& (t.sentbreak, t.abbr, t.ellipsis) == first_flags(params, sent_end, t.tok@)
}

/// Splits text into sentences by the Punkt rules and parameters.
pub struct PunktSentenceTokenizer {
    pub params: PunktParameters,
    pub lang_vars: PunktLanguageVars,
}

impl PunktSentenceTokenizer {
    fn first_pass_annotation(&self, tok: &mut PunktToken)
        requires
            old(tok).typ@ == punkt_type(old(tok).tok@),
            old(tok).period_final == ends_with(old(tok).tok@, '.'),
        ensures
            final(tok).tok == old(tok).tok,
            final(tok).typ == old(tok).typ,
            final(tok).period_final == old(tok).period_final,
            final(tok).parastart == old(tok).parastart,
            final(tok).linestart == old(tok).linestart,
            first_passed(self.params, self.lang_vars.sent_end_chars@, *final(tok)),
    {
        let v = chars_of(tok.tok.as_str());
        if v.len() == 1 && (v[0] as u32) < 128 && contains_char_vec(&self.lang_vars.sent_end_chars, v[0]) {
            tok.sentbreak = true;
            tok.abbr = false;
            tok.ellipsis = false;
        } else if tok.is_ellipsis() {
            tok.sentbreak = false;
            tok.abbr = false;
            tok.ellipsis = true;
        } else if tok.period_final && !(v.len() >= 2 && v[v.len() - 1] == '.' && v[v.len() - 2] == '.') {
            let w = slice_chars(&v, 0, v.len() - 1);
            assert(w@ =~= v@.drop_last());
            let without = to_lowercase(string_of(w.as_slice()).as_str());
            let last_part = after_last_dash(without.as_str());
            if self.params.is_abbrev(without.as_str()) || self.params.is_abbrev(last_part.as_str()) {
                tok.sentbreak = false;
                tok.abbr = true;
                tok.ellipsis = false;
            } else {
                tok.sentbreak = true;
                tok.abbr = false;
                tok.ellipsis = false;
            }
        } else {
            tok.sentbreak = false;
            tok.abbr = false;
            tok.ellipsis = false;
        }
    }

    fn ortho_heuristic(&self, tok: &PunktToken) -> (r: Option<bool>)
        requires
            tok.typ@ == punkt_type(tok.tok@),
        ensures
            r == ortho_guess(self.params, tok.tok@, tok.sentbreak),
    {
        let v = chars_of(tok.tok.as_str());
        if is_punct_token(&v) {
            return Some(false);
        }
        let typ = tok.type_no_sentperiod();
        let ortho = ortho_of(&self.params.ortho_context, typ.as_str());
        if tok.first_upper() && (ortho & ORTHO_LC) != 0 && (ortho & ORTHO_MID_UC) == 0 {
            return Some(true);
        }
        if tok.first_lower() && ((ortho & ORTHO_UC) != 0 || (ortho & ORTHO_BEG_LC) == 0) {
            return Some(false);
        }
        None
    }

    /// The new (sentence break, abbreviation) flags of `cur`, the token before
    /// `next`.
    fn second_pass_flags(&self, cur: &PunktToken, next: &PunktToken) -> (r: (bool, bool))
        requires
            first_passed(self.params, self.lang_vars.sent_end_chars@, *cur),
            first_passed(self.params, self.lang_vars.sent_end_chars@, *next),
        ensures
            r == second_flags(
                self.params,
                cur.tok@,
                (cur.sentbreak, cur.abbr, cur.ellipsis),
                next.tok@,
                (next.sentbreak, next.abbr, next.ellipsis),
            ),
    {
        let next_typ = next.type_no_sentperiod();
        let next_first_upper = next.first_upper();
        if !cur.period_final {
            return (cur.sentbreak, cur.abbr);
        }
        let cur_typ_no_period = cur.type_no_period();
        let cur_is_initial = cur.is_initial();
        if has_collocation_exec(&self.params.collocations, cur_typ_no_period.as_str(), next_typ.as_str()) {
            return (false, true);
        }
        let guess = self.ortho_heuristic(next);
        if (cur.abbr || cur.ellipsis) && !cur_is_initial {
            if guess == Some(true) {
                return (true, cur.abbr);
            }
            if next_first_upper && contains_string(&self.params.sent_starters, next_typ.as_str()) {
                return (true, cur.abbr);
            }
        }
        let ctv = chars_of(cur_typ_no_period.as_str());
        let is_num = crate::destructive::eq_lit(&ctv, "##number##");
        if cur_is_initial || is_num {
            match guess {
                Some(false) => {
                    return (false, true);
                },
                None => {
                    if cur_is_initial && next_first_upper {
                        let ortho_next = ortho_of(&self.params.ortho_context, next_typ.as_str());
                        if (ortho_next & ORTHO_LC) == 0 {
                            return (false, true);
                        }
                    }
                },
                Some(true) => {},
            }
        }
        (cur.sentbreak, cur.abbr)
    }
}

fn contains_char_vec(v: &Vec<char>, c: char) -> (b: bool)
    ensures
        b == v@.contains(c),
{
    crate::text::contains_char(v, c)
}

/// The part of `s` after its last `-`.
fn after_last_dash(s: &str) -> (r: String)
    ensures
        r@ == after_dash(s@),
{
    let v = chars_of(s);
    let mut k = v.len();
    assert(v@.take(k as int) =~= v@);
    assert(after_dash(v@) + v@.skip(k as int) =~= after_dash(v@));
    while k > 0 && v[k - 1] != '-'
        invariant
            k <= v.len(),
            after_dash(v@) == after_dash(v@.take(k as int)) + v@.skip(k as int),
        decreases k,
    {
        assert(v@.take(k as int).drop_last() =~= v@.take(k - 1));
        assert(v@.skip(k - 1) =~= seq![v@[k - 1]] + v@.skip(k as int));
        assert(after_dash(v@.take(k as int)) == after_dash(v@.take(k - 1)).push(v@[k - 1]));
        assert(after_dash(v@.take(k - 1)).push(v@[k - 1]) + v@.skip(k as int) =~= after_dash(v@.take(k - 1)) + v@.skip(k - 1));
        k = k - 1;
    }
    let r = slice_chars(&v, k, v.len());
    assert(r@ =~= v@.skip(k as int));
    proof {
        if k > 0 {
            assert(after_dash(v@.take(k as int)) =~= Seq::<char>::empty());
        }
        assert(Seq::<char>::empty() + v@.skip(k as int) =~= v@.skip(k as int));
    }
    assert(v@.take(v.len() as int) =~= v@);
    string_of(r.as_slice())
}

fn is_punct_token(v: &Vec<char>) -> (b: bool)
    ensures
        b == punct_tokens().contains(v@),
{
    let lits = [";", ":", ",", ".", "!", "?", "\"", "'", "``", "''", "(", ")", "[", "]", "{", "}", "<", ">"];
    assert(lits@.map_values(|s: &str| s@) =~= punct_tokens());
    let mut i: usize = 0;
    while i < 18
        invariant
            i <= 18,
            lits@.map_values(|s: &str| s@) == punct_tokens(),
            forall|j: int| 0 <= j < i ==> punct_tokens()[j] != v@,
        decreases 18 - i,
    {
        if crate::destructive::eq_lit(v, lits[i]) {
            assert(punct_tokens()[i as int] == v@);
            return true;
        }
        i = i + 1;
    }
    false
}

/// The orthographic flags of the first entry for `typ`, or 0.
fn ortho_of(v: &Vec<(String, i32)>, typ: &str) -> (r: i32)
    ensures
        r == ortho_lookup(v@, typ@),
{
    match find_ortho(v, typ) {
        Some(i) => {
            proof {
                lemma_ortho_found(v@, i as int, typ@);
            }
            v[i].1
        },
        None => {
            proof {
                lemma_ortho_absent(v@, typ@);
            }
            0
        },
    }
}

proof fn lemma_ortho_found(v: Seq<(String, i32)>, i: int, typ: Seq<char>)
    requires
        0 <= i < v.len(),
        v[i].0@ == typ,
        forall|j: int| 0 <= j < i ==> v[j].0@ != typ,
    ensures
        ortho_lookup(v, typ) == v[i].1,
    decreases i,
{
    if i > 0 {
        lemma_ortho_found(v.drop_first(), i - 1, typ);
    }
}

proof fn lemma_ortho_absent(v: Seq<(String, i32)>, typ: Seq<char>)
    requires
        forall|j: int| 0 <= j < v.len() ==> v[j].0@ != typ,
    ensures
        ortho_lookup(v, typ) == 0,
    decreases v.len(),
{
    if v.len() > 0 {
        lemma_ortho_absent(v.drop_first(), typ);
    }
}

fn has_collocation_exec(v: &Vec<(String, String)>, a: &str, b: &str) -> (r: bool)
    ensures
        r == exists|i: int| 0 <= i < v@.len() && (#[trigger] v@[i]).0@ == a@ && v@[i].1@ == b@,
{
    let mut i: usize = 0;
    while i < v.len()
        invariant
            i <= v.len(),
            forall|j: int| 0 <= j < i ==> !(v@[j].0@ == a@ && v@[j].1@ == b@),
        decreases v.len() - i,
    {
        if v[i].0 == a.to_owned() && v[i].1 == b.to_owned() {
            assert(v@[i as int].0@ == a@);
            return true;
        }
        i = i + 1;
    }
    false
}


// ---------------------------------------------------------------------------
// Words and their annotation
// ---------------------------------------------------------------------------
/// The words of one line, each with whether it starts a paragraph (only the
/// first, and only when `parastart`) and whether it starts the line.
pub open spec fn line_marks(toks: Seq<Seq<char>>, parastart: bool) -> Seq<(Seq<char>, bool, bool)> {
    Seq::new(toks.len(), |j: int| (toks[j], parastart && j == 0, j == 0))
}

/// The words of `lines[k..]`: blank lines are skipped and make the next word
/// start a paragraph, unless no word has been seen yet (`any`).
pub open spec fn words_from(
    p: Seq<char>,
    lines: Seq<Seq<char>>,
    k: int,
    parastart: bool,
    any: bool,
) -> Seq<(Seq<char>, bool, bool)>
    decreases lines.len() - k,
{
    if k < 0 || k >= lines.len() {
        seq![]
    } else if trim(lines[k]).len() == 0 {
        words_from(p, lines, k + 1, true, any)
    } else {
        let toks = fancy_ok_matches(p, lines[k]);
        let any2 = any || toks.len() > 0;
        let ps2 = if toks.len() > 0 || !any2 {
            false
        } else {
            parastart
        };
        line_marks(toks, parastart) + words_from(p, lines, k + 1, ps2, any2)
    }
}

/// Each line of `lines` that is not blank holds its words, the matches of `p`,
/// one after another.
pub open spec fn line_words_in_order(p: Seq<char>, lines: Seq<Seq<char>>) -> bool {
    forall|k: int|
        0 <= k < lines.len() && trim(lines[k]).len() > 0 ==> in_order_within(
            #[trigger] lines[k],
            fancy_ok_matches(p, lines[k]),
            0,
            lines[k].len() as int,
        )
}

// ---------------------------------------------------------------------------
// Every word is found in the text
// ---------------------------------------------------------------------------
proof fn lemma_in_order_mono(t: Seq<char>, ms: Seq<Seq<char>>, a: int, b: int, end: int)
    requires
        b <= a,
        in_order_within(t, ms, a, end),
    ensures
        in_order_within(t, ms, b, end),
{
    if ms.len() > 0 {
        let st = choose|st: int|
            a <= st && st + ms[0].len() <= end && #[trigger] occurs_at(t, st, ms[0])
                && in_order_within(t, ms.drop_first(), st + ms[0].len(), end);
        assert(occurs_at(t, st, ms[0]));
    }
}

proof fn lemma_in_order_concat(t: Seq<char>, a: Seq<Seq<char>>, b: Seq<Seq<char>>, from: int, e: int, end: int)
    requires
        from <= e <= end,
        in_order_within(t, a, from, e),
        in_order_within(t, b, e, end),
    ensures
        in_order_within(t, a + b, from, end),
    decreases a.len(),
{
    if a.len() == 0 {
        assert(a + b =~= b);
        lemma_in_order_mono(t, b, e, from, end);
    } else {
        let st = choose|st: int|
            from <= st && st + a[0].len() <= e && #[trigger] occurs_at(t, st, a[0])
                && in_order_within(t, a.drop_first(), st + a[0].len(), e);
        lemma_in_order_concat(t, a.drop_first(), b, st + a[0].len(), e, end);
        assert((a + b).drop_first() =~= a.drop_first() + b);
        assert((a + b)[0] == a[0]);
        assert(occurs_at(t, st, (a + b)[0]));
    }
}

/// Pieces in order in `line` are in order in a text that holds `line` at `off`.
proof fn lemma_in_order_shift(t: Seq<char>, line: Seq<char>, ms: Seq<Seq<char>>, off: int, a: int, end: int)
    requires
        occurs_at(t, off, line),
        0 <= a,
        end <= line.len(),
        in_order_within(line, ms, a, end),
    ensures
        in_order_within(t, ms, off + a, off + end),
    decreases ms.len(),
{
    if ms.len() > 0 {
        let st = choose|st: int|
            a <= st && st + ms[0].len() <= end && #[trigger] occurs_at(line, st, ms[0])
                && in_order_within(line, ms.drop_first(), st + ms[0].len(), end);
        lemma_in_order_shift(t, line, ms.drop_first(), off, st + ms[0].len(), end);
        assert(t.subrange(off, off + line.len()) == line);
        assert(t.subrange(off + st, off + st + ms[0].len()) =~= line.subrange(st, st + ms[0].len()));
        assert(occurs_at(t, off + st, ms[0]));
    }
}

/// The lines `lines` stand in `t` one after another, the first at `off`, each
/// followed by one character (the line break).
pub open spec fn lines_at(t: Seq<char>, lines: Seq<Seq<char>>, off: int) -> bool
    decreases lines.len(),
{
    lines.len() == 0 || (occurs_at(t, off, lines[0]) && lines_at(
        t,
        lines.drop_first(),
        off + lines[0].len() + 1,
    ))
}

proof fn lemma_split_lines_at(s: Seq<char>, j: int)
    requires
        0 <= j <= s.len(),
    ensures
        lines_at(s, split_acc(s.skip(j), seq!['\n'], seq![]), j),
    decreases s.len() - j,
{
    lemma_split_at_find(s, seq!['\n'], j, seq![]);
    let ls = split_acc(s.skip(j), seq!['\n'], seq![]);
    match find_from(s, seq!['\n'], j) {
        Some(r) => {
            lemma_find_from_sound(s, seq!['\n'], j);
            let first = s.subrange(j, r);
            assert(Seq::<char>::empty() + first =~= first);
            assert(ls[0] == first);
            assert(ls.drop_first() =~= split_acc(s.skip(r + 1), seq!['\n'], seq![]));
            lemma_split_lines_at(s, r + 1);
            assert(s.subrange(j, j + first.len()) =~= first);
            assert(occurs_at(s, j, ls[0]));
            assert(j + ls[0].len() + 1 == r + 1);
            assert(lines_at(s, ls.drop_first(), j + ls[0].len() + 1));
        },
        None => {
            assert(Seq::<char>::empty() + s.skip(j) =~= s.skip(j));
            assert(ls[0] == s.skip(j));
            assert(ls.drop_first() =~= Seq::<Seq<char>>::empty());
            assert(s.subrange(j, j + s.skip(j).len()) =~= s.skip(j));
            assert(occurs_at(s, j, ls[0]));
            assert(lines_at(s, ls.drop_first(), j + ls[0].len() + 1));
        },
    }
}

proof fn lemma_word_texts_marks(toks: Seq<Seq<char>>, ps: bool, rest: Seq<(Seq<char>, bool, bool)>)
    ensures
        word_texts(line_marks(toks, ps) + rest) == toks + word_texts(rest),
{
    assert(word_texts(line_marks(toks, ps) + rest) =~= toks + word_texts(rest));
}

proof fn lemma_words_in_order(
    t: Seq<char>,
    p: Seq<char>,
    lines: Seq<Seq<char>>,
    k: int,
    off: int,
    ps: bool,
    any: bool,
)
    requires
        0 <= k <= lines.len(),
        0 <= off,
        lines_at(t, lines.skip(k), off),
        line_words_in_order(p, lines),
    ensures
        in_order_within(t, word_texts(words_from(p, lines, k, ps, any)), off, t.len() as int),
    decreases lines.len() - k,
{
    if k < lines.len() {
        let lk = lines[k];
        assert(lines.skip(k)[0] == lk);
        assert(lines.skip(k).drop_first() =~= lines.skip(k + 1));
        let next = off + lk.len() + 1;
        if trim(lk).len() == 0 {
            lemma_words_in_order(t, p, lines, k + 1, next, true, any);
            lemma_in_order_mono(t, word_texts(words_from(p, lines, k + 1, true, any)), next, off, t.len() as int);
        } else {
            let toks = fancy_ok_matches(p, lk);
            let any2 = any || toks.len() > 0;
            let ps2 = if toks.len() > 0 || !any2 {
                false
            } else {
                ps
            };
            let rest = words_from(p, lines, k + 1, ps2, any2);
            assert(words_from(p, lines, k, ps, any) == line_marks(toks, ps) + rest);
            lemma_word_texts_marks(toks, ps, rest);
            assert(in_order_within(lk, toks, 0, lk.len() as int));
            lemma_in_order_shift(t, lk, toks, off, 0, lk.len() as int);
            lemma_words_in_order(t, p, lines, k + 1, next, ps2, any2);
            lemma_in_order_mono(t, word_texts(rest), next, off + lk.len(), t.len() as int);
            lemma_in_order_concat(t, toks, word_texts(rest), off, off + lk.len(), t.len() as int);
        }
    } else {
        assert(words_from(p, lines, k, ps, any) =~= Seq::<(Seq<char>, bool, bool)>::empty());
        assert(word_texts(words_from(p, lines, k, ps, any)) =~= Seq::<Seq<char>>::empty());
    }
}

proof fn lemma_find_first(t: Seq<char>, tok: Seq<char>, search: int, st: int)
    requires
        0 <= search <= st,
        occurs_at(t, st, tok),
    ensures
        find_from(t, tok, search) matches Some(x) && x <= st,
    decreases st - search,
{
    if !occurs_at(t, search, tok) {
        assert(search != st);
        lemma_find_first(t, tok, search + 1, st);
    }
}

proof fn lemma_spans_found(t: Seq<char>, toks: Seq<Seq<char>>, k: int, search: int, pos: int)
    requires
        0 <= k <= toks.len(),
        0 <= search,
        in_order_within(t, toks.skip(k), search, t.len() as int),
    ensures
        forall|i: int|
            0 <= i < tok_spans_from(t, toks, k, search, pos).len() ==> #[trigger] tok_spans_from(
                t,
                toks,
                k,
                search,
                pos,
            )[i].1 <= t.len(),
    decreases toks.len() - k,
{
    if k < toks.len() {
        let ms = toks.skip(k);
        assert(ms[0] == toks[k]);
        assert(ms.drop_first() =~= toks.skip(k + 1));
        let st = choose|st: int|
            search <= st && st + ms[0].len() <= t.len() && #[trigger] occurs_at(t, st, ms[0])
                && in_order_within(t, ms.drop_first(), st + ms[0].len(), t.len() as int);
        lemma_find_first(t, toks[k], search, st);
        lemma_find_from_sound(t, toks[k], search);
        let x = find_from(t, toks[k], search).unwrap();
        let e = x + toks[k].len();
        lemma_in_order_mono(t, toks.skip(k + 1), st + toks[k].len(), e, t.len() as int);
        lemma_spans_found(t, toks, k + 1, e, pos);
        let rest = tok_spans_from(t, toks, k + 1, e, pos);
        let sp = tok_spans_from(t, toks, k, search, pos);
        assert(sp == seq![(x, e)] + rest);
        assert forall|i: int| 0 <= i < sp.len() implies #[trigger] sp[i].1 <= t.len() by {
            if i > 0 {
                assert(sp[i] == rest[i - 1]);
            }
        }
    }
}

/// When each line's words stand in order in it, every word of the text is found
/// in it after the one before, so each lies inside the text.
proof fn lemma_words_fit(p: Seq<char>, text: Seq<char>)
    requires
        line_words_in_order(p, split_seq(text, seq!['\n'])),
    ensures
        forall|k: int|
            0 <= k < tok_spans_from(
                text,
                word_texts(words_from(p, split_seq(text, seq!['\n']), 0, false, false)),
                0,
                0,
                0,
            ).len() ==> #[trigger] tok_spans_from(
                text,
                word_texts(words_from(p, split_seq(text, seq!['\n']), 0, false, false)),
                0,
                0,
                0,
            )[k].1 <= text.len(),
{
    let lines = split_seq(text, seq!['\n']);
    assert(text.skip(0) =~= text);
    lemma_split_lines_at(text, 0);
    assert(lines.skip(0) =~= lines);
    lemma_words_in_order(text, p, lines, 0, 0, false, false);
    let toks = word_texts(words_from(p, lines, 0, false, false));
    assert(toks.skip(0) =~= toks);
    lemma_spans_found(text, toks, 0, 0, 0);
}

/// The texts of the tokens.
pub open spec fn tok_texts(v: Seq<PunktToken>) -> Seq<Seq<char>> {
    v.map_values(|t: PunktToken| t.tok@)
}

fn set_break_flags(tok: &mut PunktToken, f: (bool, bool))
    ensures
        final(tok).tok == old(tok).tok,
        final(tok).typ == old(tok).typ,
        final(tok).period_final == old(tok).period_final,
        final(tok).ellipsis == old(tok).ellipsis,
        final(tok).parastart == old(tok).parastart,
        final(tok).linestart == old(tok).linestart,
        final(tok).sentbreak == f.0,
        final(tok).abbr == f.1,
{
    tok.sentbreak = f.0;
    tok.abbr = f.1;
}

impl PunktSentenceTokenizer {
    /// The words of `text` (see `words_from`).
    pub open spec fn words(&self, text: Seq<char>) -> Seq<(Seq<char>, bool, bool)> {
        words_from(self.lang_vars.re_word_tokenizer@, split_seq(text, seq!['\n']), 0, false, false)
    }

    fn tokenize_words(&self, plaintext: &str) -> (r: Vec<PunktToken>)
        ensures
            line_words_in_order(self.lang_vars.re_word_tokenizer@, split_seq(plaintext@, seq!['\n'])),
            r.len() == self.words(plaintext@).len(),
            forall|i: int| 0 <= i < r.len() ==> #[trigger] r@[i].fresh(
                self.words(plaintext@)[i].0,
                self.words(plaintext@)[i].1,
                self.words(plaintext@)[i].2,
            ),
    {
        let v = chars_of(plaintext);
        let nl = vec!['\n'];
        assert(nl@ =~= seq!['\n']);
        let lines = split_chars(&v, &nl);
        let ghost lv = char_views(lines@);
        let ghost p = self.lang_vars.re_word_tokenizer@;
        let ghost all = self.words(plaintext@);
        let ghost mut done: Seq<(Seq<char>, bool, bool)> = seq![];
        let mut out: Vec<PunktToken> = Vec::new();
        let mut parastart = false;
        let mut k: usize = 0;
        while k < lines.len()
            invariant
                lv == char_views(lines@),
                lv == split_seq(plaintext@, seq!['\n']),
                p == self.lang_vars.re_word_tokenizer@,
                all == self.words(plaintext@),
                k <= lines.len(),
                all == done + words_from(p, lv, k as int, parastart, out.len() > 0),
                forall|j: int|
                    0 <= j < k && trim(lv[j]).len() > 0 ==> in_order_within(
                        #[trigger] lv[j],
                        fancy_ok_matches(p, lv[j]),
                        0,
                        lv[j].len() as int,
                    ),
                out.len() == done.len(),
                forall|i: int| 0 <= i < out.len() ==> #[trigger] out@[i].fresh(done[i].0, done[i].1, done[i].2),
            decreases lines.len() - k,
        {
            let t = trim_chars(&lines[k]);
            if t.len() == 0 {
                parastart = true;
            } else {
                let line = string_of(lines[k].as_slice());
                let toks = self.lang_vars.word_tokenize(line.as_str());
                assert(line@ == lv[k as int]);
                let ghost tv = str_views(toks@);
                let ghost marks = line_marks(tv, parastart);
                let ghost any0 = out.len() > 0;
                let ghost ps0 = parastart;
                let ghost done0 = done;
                let mut first = true;
                let mut j: usize = 0;
                while j < toks.len()
                    invariant
                        j <= toks.len(),
                        tv == str_views(toks@),
                        marks == line_marks(tv, ps0),
                        done == done0 + marks.take(j as int),
                        out.len() == done.len(),
                        first == (j == 0),
                        parastart == (ps0 && j == 0),
                        forall|i: int| 0 <= i < out.len() ==> #[trigger] out@[i].fresh(done[i].0, done[i].1, done[i].2),
                    decreases toks.len() - j,
                {
                    let tk = PunktToken::new(toks[j].clone(), parastart && first, first);
                    out.push(tk);
                    proof {
                        assert(marks.take(j + 1) =~= marks.take(j as int).push(marks[j as int]));
                        done = done.push(marks[j as int]);
                    }
                    first = false;
                    parastart = false;
                    j = j + 1;
                }
                assert(marks.take(toks.len() as int) =~= marks);
                if out.len() == 0 {
                    parastart = false;
                }
                proof {
                    assert(words_from(p, lv, k as int, ps0, any0) == marks + words_from(p, lv, k + 1, parastart, out.len() > 0));
                    assert(done0 + (marks + words_from(p, lv, k + 1, parastart, out.len() > 0)) =~= done + words_from(p, lv, k + 1, parastart, out.len() > 0));
                }
            }
            k = k + 1;
        }
        assert(done + Seq::<(Seq<char>, bool, bool)>::empty() =~= done);
        assert(line_words_in_order(p, lv));
        out
    }

    /// Both annotation passes: each token gets its first-pass flags, then each but
    /// the last its second-pass sentence break and abbreviation flags.
    fn annotate_tokens(&self, tokens: Vec<PunktToken>) -> (r: Vec<PunktToken>)
        requires
            forall|i: int| 0 <= i < tokens.len() ==> #[trigger] tokens@[i].typ@ == punkt_type(tokens@[i].tok@),
            forall|i: int| 0 <= i < tokens.len() ==> #[trigger] tokens@[i].period_final == ends_with(tokens@[i].tok@, '.'),
        ensures
            tok_texts(r@) == tok_texts(tokens@),
            forall|i: int| 0 <= i < r.len() ==> #[trigger] r@[i].sentbreak == sentbreak_at(
                self.params,
                self.lang_vars.sent_end_chars@,
                tok_texts(tokens@),
                i,
            ),
    {
        let ghost se = self.lang_vars.sent_end_chars@;
        let ghost texts = tok_texts(tokens@);
        let mut toks = tokens;
        let n = toks.len();
        let mut i: usize = 0;
        while i < n
            invariant
                n == toks.len(),
                se == self.lang_vars.sent_end_chars@,
                tok_texts(toks@) == texts,
                forall|j: int| i <= j < n ==> #[trigger] toks@[j].typ@ == punkt_type(toks@[j].tok@),
                forall|j: int| i <= j < n ==> #[trigger] toks@[j].period_final == ends_with(toks@[j].tok@, '.'),
                forall|j: int| 0 <= j < i ==> first_passed(self.params, se, #[trigger] toks@[j]),
            decreases n - i,
        {
            let ghost before = toks@;
            self.first_pass_annotation(&mut toks[i]);
            assert forall|j: int| 0 <= j < n && j != i implies toks@[j] == before[j] by {}
            assert(tok_texts(toks@) =~= tok_texts(before));
            i = i + 1;
        }
        let ghost fp = toks@;
        let mut i: usize = 0;
        while n > 0 && i < n - 1
            invariant
                n == toks.len(),
                se == self.lang_vars.sent_end_chars@,
                fp.len() == n,
                n > 0 ==> i <= n - 1,
                tok_texts(toks@) == texts,
                tok_texts(fp) == texts,
                forall|j: int| 0 <= j < n ==> first_passed(self.params, se, #[trigger] fp[j]),
                i <= n,
                forall|j: int| i <= j < n ==> #[trigger] toks@[j] == fp[j],
                forall|j: int| 0 <= j < i ==> #[trigger] toks@[j].sentbreak == sentbreak_at(self.params, se, texts, j),
            decreases n - i,
        {
            let f = self.second_pass_flags(&toks[i], &toks[i + 1]);
            let ghost before = toks@;
            set_break_flags(&mut toks[i], f);
            proof {
                assert(texts[i as int] == fp[i as int].tok@);
                assert(texts[i + 1] == fp[i + 1].tok@);
                assert(first_passed(self.params, se, fp[i as int]));
                assert(first_passed(self.params, se, fp[i + 1]));
            }
            assert forall|j: int| 0 <= j < n && j != i implies toks@[j] == before[j] by {}
            assert(tok_texts(toks@) =~= tok_texts(before));
            i = i + 1;
        }
        proof {
            if n > 0 {
                assert(toks@[n - 1] == fp[n - 1]);
                assert(first_passed(self.params, se, fp[n - 1]));
                assert(texts[n - 1] == fp[n - 1].tok@);
            }
        }
        toks
    }
}


// ---------------------------------------------------------------------------
// Sentences
// ---------------------------------------------------------------------------
/// The spans of `toks[k..]` in `text`, each searched for from the end of the one
/// before (`search`); a token that is not found is placed at `pos`, and the
/// place for the next one not found moves past it.
pub open spec fn tok_spans_from(text: Seq<char>, toks: Seq<Seq<char>>, k: int, search: int, pos: int) -> Seq<
    (int, int),
>
    decreases toks.len() - k,
{
    if k < 0 || k >= toks.len() {
        seq![]
    } else {
        match find_from(text, toks[k], search) {
            Some(st) => seq![(st, st + toks[k].len())] + tok_spans_from(
                text,
                toks,
                k + 1,
                st + toks[k].len(),
                pos,
            ),
            None => seq![(pos, pos + toks[k].len())] + tok_spans_from(
                text,
                toks,
                k + 1,
                search,
                pos + toks[k].len() + 1,
            ),
        }
    }
}

/// The first offset at or after `e` that is not whitespace (or the end).
pub open spec fn skip_ws_from(text: Seq<char>, e: int) -> int
    decreases text.len() - e,
{
    if 0 <= e < text.len() && is_ws(text[e]) {
        skip_ws_from(text, e + 1)
    } else {
        e
    }
}

/// The sentence slices from token `idx` on, the current sentence starting at
/// `start`: a sentence ends with each token that breaks, and the next starts at
/// the next token (or after the whitespace that follows); what is left before the
/// trailing whitespace is the last sentence.
pub open spec fn group_from(
    text: Seq<char>,
    spans: Seq<(int, int)>,
    breaks: Seq<bool>,
    idx: int,
    start: int,
) -> Seq<(int, int)>
    decreases spans.len() - idx,
{
    if idx < 0 || idx >= spans.len() || idx >= breaks.len() {
        if start < trim_end(text).len() {
            seq![(start, trim_end(text).len() as int)]
        } else {
            seq![]
        }
    } else if breaks[idx] {
        let e = spans[idx].1;
        let ns0 = skip_ws_from(text, e);
        let ns = if idx + 1 < spans.len() && spans[idx + 1].0 > ns0 {
            spans[idx + 1].0
        } else {
            ns0
        };
        seq![(start, e)] + group_from(text, spans, breaks, idx + 1, ns)
    } else {
        group_from(text, spans, breaks, idx + 1, start)
    }
}

/// The slices that are not empty and hold more than whitespace.
pub open spec fn keep_nonblank_slices(text: Seq<char>, v: Seq<(int, int)>) -> Seq<(int, int)>
    decreases v.len(),
{
    if v.len() == 0 {
        seq![]
    } else {
        let r = keep_nonblank_slices(text, v.drop_last());
        let x = v.last();
        if x.0 < x.1 && trim(text.subrange(x.0, x.1)).len() > 0 {
            r.push(x)
        } else {
            r
        }
    }
}

/// The first match of `p` in `after` when it starts at the beginning.
pub open spec fn boundary_at_start(p: Seq<char>, after: Seq<char>) -> Option<Seq<char>> {
    let g = rsplit(p, after);
    let m = rfind(p, after);
    if m.len() > 0 && g.len() > 0 && g[0].len() == 0 {
        Some(m[0])
    } else {
        None
    }
}

/// The slices from `i` on with their boundaries realigned, the current slice
/// starting at `cur`: closing quotes and brackets at the start of the next slice
/// move to the end of this one.
pub open spec fn realign_from(text: Seq<char>, p: Seq<char>, sl: Seq<(int, int)>, i: int, cur: int) -> Seq<
    (int, int),
>
    decreases sl.len() - i,
{
    if i < 0 || i >= sl.len() {
        seq![]
    } else if i + 1 < sl.len() {
        let ns = sl[i + 1].0;
        match boundary_at_start(p, text.subrange(ns, text.len() as int)) {
            Some(m) => seq![(cur, ns + trim_end(m).len())] + realign_from(
                text,
                p,
                sl,
                i + 1,
                ns + m.len(),
            ),
            None => seq![(cur, sl[i].1)] + realign_from(text, p, sl, i + 1, ns),
        }
    } else if cur < text.len() {
        seq![(cur, sl[i].1)]
    } else {
        seq![]
    }
}

/// The slices that are not empty.
pub open spec fn keep_nonempty_slices(v: Seq<(int, int)>) -> Seq<(int, int)>
    decreases v.len(),
{
    if v.len() == 0 {
        seq![]
    } else if v.last().0 < v.last().1 {
        keep_nonempty_slices(v.drop_last()).push(v.last())
    } else {
        keep_nonempty_slices(v.drop_last())
    }
}

/// The text of each slice, trimmed, those left empty dropped.
pub open spec fn slice_texts(text: Seq<char>, v: Seq<(int, int)>) -> Seq<Seq<char>>
    decreases v.len(),
{
    if v.len() == 0 {
        seq![]
    } else {
        let r = slice_texts(text, v.drop_last());
        let t = trim(text.subrange(v.last().0, v.last().1));
        if t.len() > 0 {
            r.push(t)
        } else {
            r
        }
    }
}

/// The words' texts.
pub open spec fn word_texts(w: Seq<(Seq<char>, bool, bool)>) -> Seq<Seq<char>> {
    w.map_values(|x: (Seq<char>, bool, bool)| x.0)
}

/// A word that is one ASCII sentence-ending character is marked as a sentence
/// break by the first pass; when that character is not a period (`?`, `!`), the
/// word ends a sentence whatever follows it.
pub proof fn lemma_lone_sentence_end_breaks(
    params: PunktParameters,
    sent_end: Seq<char>,
    toks: Seq<Seq<char>>,
    i: int,
)
    requires
        0 <= i < toks.len(),
        toks[i].len() == 1,
        (toks[i][0] as u32) < 128,
        sent_end.contains(toks[i][0]),
    ensures
        first_flags(params, sent_end, toks[i]).0,
        toks[i][0] != '.' ==> sentbreak_at(params, sent_end, toks, i),
{
}

/// In any text, a word that is a lone `?` or `!` (or another non-period
/// sentence-ending character of the language) ends its sentence.
pub proof fn lemma_text_breaks_after_lone_end(tok: PunktSentenceTokenizer, text: Seq<char>, i: int)
    requires
        0 <= i < tok.words(text).len(),
        word_texts(tok.words(text))[i].len() == 1,
        word_texts(tok.words(text))[i][0] != '.',
        (word_texts(tok.words(text))[i][0] as u32) < 128,
        tok.lang_vars.sent_end_chars@.contains(word_texts(tok.words(text))[i][0]),
    ensures
        tok.breaks(text)[i],
{
    let toks = word_texts(tok.words(text));
    lemma_lone_sentence_end_breaks(tok.params, tok.lang_vars.sent_end_chars@, toks, i);
}

impl PunktSentenceTokenizer {
    /// The sentence-break flags of the words of `text`.
    pub open spec fn breaks(&self, text: Seq<char>) -> Seq<bool> {
        let toks = word_texts(self.words(text));
        Seq::new(toks.len(), |i: int| sentbreak_at(self.params, self.lang_vars.sent_end_chars@, toks, i))
    }

    /// Where the words of `text` are found in it.
    pub open spec fn token_spans(&self, text: Seq<char>) -> Seq<(int, int)> {
        tok_spans_from(text, word_texts(self.words(text)), 0, 0, 0)
    }

    /// Every word's span lies inside the text (each word is found there, after
    /// the one before it).
    pub open spec fn spans_fit(&self, text: Seq<char>) -> bool {
        forall|k: int| 0 <= k < self.token_spans(text).len() ==> #[trigger] self.token_spans(text)[k].1 <= text.len()
    }

    /// The sentence slices of `text` before realignment.
    pub open spec fn raw_slices(&self, text: Seq<char>) -> Seq<(int, int)> {
        if self.words(text).len() == 0 {
            seq![]
        } else {
            let g = group_from(text, self.token_spans(text), self.breaks(text), 0, 0);
            let g2 = if g.len() == 0 && trim(text).len() > 0 {
                seq![(0int, trim_end(text).len() as int)]
            } else {
                g
            };
            keep_nonblank_slices(text, g2)
        }
    }

    /// The slices with their boundaries realigned.
    pub open spec fn realigned(&self, text: Seq<char>, sl: Seq<(int, int)>) -> Seq<(int, int)> {
        if sl.len() <= 1 {
            sl
        } else {
            keep_nonempty_slices(realign_from(text, self.lang_vars.re_boundary_realignment@, sl, 0, sl[0].0))
        }
    }

    /// The sentences of `text`, trimmed; the whole text, trimmed, when no slice
    /// holds anything.
    pub open spec fn sentences(&self, text: Seq<char>, realign: bool) -> Seq<Seq<char>> {
        if trim(text).len() == 0 {
            seq![]
        } else {
            let sl = self.raw_slices(text);
            let sl = if realign {
                self.realigned(text, sl)
            } else {
                sl
            };
            let out = slice_texts(text, sl);
            if out.len() == 0 {
                seq![trim(text)]
            } else {
                out
            }
        }
    }
}


proof fn lemma_tok_spans_len(text: Seq<char>, toks: Seq<Seq<char>>, k: int, search: int, pos: int)
    requires
        0 <= k <= toks.len(),
    ensures
        tok_spans_from(text, toks, k, search, pos).len() == toks.len() - k,
    decreases toks.len() - k,
{
    if k < toks.len() {
        match find_from(text, toks[k], search) {
            Some(st) => lemma_tok_spans_len(text, toks, k + 1, st + toks[k].len(), pos),
            None => lemma_tok_spans_len(text, toks, k + 1, search, pos + toks[k].len() + 1),
        }
    }
}


/// The sentence slices by `group_from`, with the whole text (trimmed at its end)
/// when there are none and it holds more than whitespace.
fn group_slices(v: &Vec<char>, spans: &Vec<(usize, usize)>, breaks: &Vec<bool>) -> (raw: Vec<(usize, usize)>)
    requires
        spans.len() == breaks.len(),
        forall|j: int| 0 <= j < spans.len() ==> (#[trigger] spans@[j]).1 <= v.len() && spans@[j].0 <= spans@[j].1,
    ensures
        spans_view(raw@) == ({
            let g = group_from(v@, spans_view(spans@), breaks@, 0, 0);
            if g.len() == 0 && trim(v@).len() > 0 {
                seq![(0int, trim_end(v@).len() as int)]
            } else {
                g
            }
        }),
        forall|j: int| 0 <= j < raw.len() ==> (#[trigger] raw@[j]).1 <= v.len(),
{
    let ghost spv = spans_view(spans@);
    let ghost br = breaks@;
    let n = v.len();
    let m = spans.len();
    let ghost all = group_from(v@, spv, br, 0, 0);
    let mut raw: Vec<(usize, usize)> = Vec::new();
    let mut start: usize = 0;
    let mut idx: usize = 0;
    assert(spans_view(raw@) + all =~= all);
    while idx < m
        invariant
            m == spans.len(),
            m == breaks.len(),
            n == v.len(),
            spv == spans_view(spans@),
            br == breaks@,
            forall|j: int| 0 <= j < spans.len() ==> (#[trigger] spans@[j]).1 <= n && spans@[j].0 <= spans@[j].1,
            idx <= m,
            start <= n,
            all == group_from(v@, spv, br, 0, 0),
            spans_view(raw@) + group_from(v@, spv, br, idx as int, start as int) == all,
            forall|j: int| 0 <= j < raw.len() ==> (#[trigger] raw@[j]).1 <= n,
        decreases m - idx,
    {
        let ghost before = spans_view(raw@);
        if breaks[idx] {
            let e = spans[idx].1;
            raw.push((start, e));
            let mut ns = e;
            while ns < n && char_is_ws(v[ns])
                invariant
                    e <= ns <= n,
                    n == v.len(),
                    skip_ws_from(v@, e as int) == skip_ws_from(v@, ns as int),
                decreases n - ns,
            {
                ns = ns + 1;
            }
            if idx + 1 < m && spans[idx + 1].0 > ns {
                ns = spans[idx + 1].0;
            }
            assert(spans_view(raw@) =~= before.push((start as int, e as int)));
            assert(spans_view(raw@) + group_from(v@, spv, br, idx + 1, ns as int) =~= before + group_from(v@, spv, br, idx as int, start as int));
            start = ns;
        }
        idx = idx + 1;
    }
    let te = trim_end_chars(v);
    let tl = te.len();
    proof {
        crate::text::lemma_trim_end_prefix(v@);
    }
    let ghost before = spans_view(raw@);
    if start < tl {
        raw.push((start, tl));
        assert(spans_view(raw@) =~= before.push((start as int, tl as int)));
    } else {
        assert(spans_view(raw@) =~= before + Seq::<(int, int)>::empty());
    }
    let t = trim_chars(v);
    if raw.len() == 0 && t.len() > 0 {
        raw.push((0, tl));
        assert(spans_view(raw@) =~= seq![(0int, tl as int)]);
    }
    raw
}

/// The slices of `raw` that are not empty and hold more than whitespace.
fn keep_nonblank(v: &Vec<char>, raw: &Vec<(usize, usize)>) -> (out: Vec<(usize, usize)>)
    requires
        forall|j: int| 0 <= j < raw.len() ==> (#[trigger] raw@[j]).1 <= v.len(),
    ensures
        spans_view(out@) == keep_nonblank_slices(v@, spans_view(raw@)),
        forall|k: int| 0 <= k < out.len() ==> (#[trigger] out@[k]).0 < out@[k].1 && out@[k].1 <= v.len(),
{
    let n = v.len();
    let ghost g2 = spans_view(raw@);
    let mut out: Vec<(usize, usize)> = Vec::new();
    let mut q: usize = 0;
    while q < raw.len()
        invariant
            n == v.len(),
            g2 == spans_view(raw@),
            q <= raw.len(),
            forall|j: int| 0 <= j < raw.len() ==> (#[trigger] raw@[j]).1 <= n,
            spans_view(out@) == keep_nonblank_slices(v@, g2.take(q as int)),
            forall|k: int| 0 <= k < out.len() ==> (#[trigger] out@[k]).0 < out@[k].1 && out@[k].1 <= n,
        decreases raw.len() - q,
    {
        assert(g2.take(q + 1).drop_last() =~= g2.take(q as int));
        let ab = raw[q];
        let a = ab.0;
        let b = ab.1;
        assert(raw@[q as int].1 <= n);
        let ghost before = spans_view(out@);
        let ghost out0 = out@;
        if a < b {
            let piece = slice_chars(v, a, b);
            let tr = trim_chars(&piece);
            if tr.len() > 0 {
                out.push((a, b));
                assert(spans_view(out@) =~= before.push((a as int, b as int)));
                assert forall|k: int| 0 <= k < out.len() implies (#[trigger] out@[k]).0 < out@[k].1 && out@[k].1 <= n by {
                    if k < out0.len() {
                        assert(out@[k] == out0[k]);
                    }
                }
            }
        }
        q = q + 1;
    }
    assert(g2.take(raw.len() as int) =~= g2);
    assert forall|k: int| 0 <= k < out.len() implies (#[trigger] out@[k]).0 < out@[k].1 && out@[k].1 <= v.len() by {
        assert(out@[k].1 <= n);
    }
    out
}

/// The slices of `mid` that are not empty.
fn drop_empty_slices(mid: &Vec<(usize, usize)>, n: usize) -> (out: Vec<(usize, usize)>)
    requires
        forall|k: int| 0 <= k < mid.len() ==> (#[trigger] mid@[k]).1 <= n,
    ensures
        spans_view(out@) == keep_nonempty_slices(spans_view(mid@)),
        forall|k: int| 0 <= k < out.len() ==> (#[trigger] out@[k]).0 < out@[k].1 && out@[k].1 <= n,
{
    let ghost md = spans_view(mid@);
    let mut out: Vec<(usize, usize)> = Vec::new();
    let mut q: usize = 0;
    while q < mid.len()
        invariant
            md == spans_view(mid@),
            q <= mid.len(),
            forall|k: int| 0 <= k < mid.len() ==> (#[trigger] mid@[k]).1 <= n,
            spans_view(out@) == keep_nonempty_slices(md.take(q as int)),
            forall|k: int| 0 <= k < out.len() ==> (#[trigger] out@[k]).0 < out@[k].1 && out@[k].1 <= n,
        decreases mid.len() - q,
    {
        assert(md.take(q + 1).drop_last() =~= md.take(q as int));
        let ab = mid[q];
        let a = ab.0;
        let b = ab.1;
        assert(mid@[q as int].1 <= n);
        if a < b {
            let ghost before = spans_view(out@);
            let ghost out0 = out@;
            out.push((a, b));
            assert(spans_view(out@) =~= before.push((a as int, b as int)));
            assert forall|k: int| 0 <= k < out.len() implies (#[trigger] out@[k]).0 < out@[k].1 && out@[k].1 <= n by {
                if k < out0.len() {
                    assert(out@[k] == out0[k]);
                }
            }
        }
        q = q + 1;
    }
    assert(md.take(mid.len() as int) =~= md);
    out
}

/// The first match of `p` in `after`, when it starts at the beginning.
fn boundary_match(p: &str, after: &str) -> (r: Option<String>)
    ensures
        match r {
            Some(m) => boundary_at_start(p@, after@) == Some(m@) && m@.len() <= after@.len(),
            None => boundary_at_start(p@, after@) is None,
        },
{
    let g = split_by(p, after);
    let m = find_all(p, after);
    let ghost gv = rsplit(p@, after@);
    let ghost mv = rfind(p@, after@);
    assert(str_views(g@) == gv);
    assert(str_views(m@) == mv);
    if m.len() > 0 && g.len() > 0 {
        let g0 = chars_of(g[0].as_str());
        if g0.len() == 0 {
            assert(gv[0] == g@[0]@);
            assert(mv[0] == m@[0]@);
            proof {
                assert(crate::rx::text_from(gv, mv, 0) == gv[0] + mv[0] + crate::rx::text_from(gv, mv, 1));
            }
            return Some(m[0].clone());
        }
    }
    None
}

impl PunktSentenceTokenizer {
    /// The spans of the tokens in `v` (see `tok_spans_from`), or `None` when one of
    /// them does not lie inside it.
    fn token_spans_of(&self, v: &Vec<char>, toks: &Vec<PunktToken>) -> (r: Option<Vec<(usize, usize)>>)
        ensures
            match r {
                Some(sp) => spans_view(sp@) == tok_spans_from(v@, tok_texts(toks@), 0, 0, 0)
                    && forall|k: int| 0 <= k < sp.len() ==> (#[trigger] sp@[k]).1 <= v.len() && sp@[k].0 <= sp@[k].1,
                None => exists|k: int| 0 <= k < tok_spans_from(v@, tok_texts(toks@), 0, 0, 0).len()
                    && #[trigger] tok_spans_from(v@, tok_texts(toks@), 0, 0, 0)[k].1 > v.len(),
            },
    {
        let ghost texts = tok_texts(toks@);
        let ghost all = tok_spans_from(v@, texts, 0, 0, 0);
        let n = v.len();
        let m = toks.len();
        let mut spans: Vec<(usize, usize)> = Vec::new();
        let mut search: usize = 0;
        let mut pos: u128 = 0;
        let mut k: usize = 0;
        assert(spans_view(spans@) + all =~= all);
        while k < m
            invariant
                n == v.len(),
                m == toks.len(),
                texts == tok_texts(toks@),
                all == tok_spans_from(v@, texts, 0, 0, 0),
                k <= m,
                spans.len() == k,
                search <= n,
                pos <= n + 1,
                spans_view(spans@) + tok_spans_from(v@, texts, k as int, search as int, pos as int) == all,
                forall|j: int| 0 <= j < spans.len() ==> (#[trigger] spans@[j]).1 <= n && spans@[j].0 <= spans@[j].1,
            decreases m - k,
        {
            let tk = chars_of(toks[k].tok.as_str());
            assert(texts[k as int] == tk@);
            let ghost before = spans_view(spans@);
            let ghost rest = tok_spans_from(v@, texts, k as int, search as int, pos as int);
            match find_from_exec(v, &tk, search) {
                Some(st) => {
                    proof {
                        crate::destructive::lemma_find_from_sound(v@, tk@, search as int);
                    }
                    let e = st + tk.len();
                    spans.push((st, e));
                    assert(spans_view(spans@) =~= before.push((st as int, e as int)));
                    assert(rest == seq![(st as int, e as int)] + tok_spans_from(v@, texts, k + 1, e as int, pos as int));
                    assert(spans_view(spans@) + tok_spans_from(v@, texts, k + 1, e as int, pos as int) =~= before + rest);
                    search = e;
                },
                None => {
                    let e: u128 = pos + (tk.len() as u128);
                    assert(rest[0] == (pos as int, e as int));
                    if e > (n as u128) {
                        assert(all[k as int] == rest[0]) by {
                            assert((before + rest)[k as int] == rest[0]);
                        }
                        assert(all[k as int].1 > n);
                        return None;
                    }
                    spans.push((pos as usize, e as usize));
                    assert(spans_view(spans@) =~= before.push((pos as int, e as int)));
                    assert(rest == seq![(pos as int, e as int)] + tok_spans_from(v@, texts, k + 1, search as int, e + 1));
                    assert(spans_view(spans@) + tok_spans_from(v@, texts, k + 1, search as int, e + 1) =~= before + rest);
                    pos = e + 1;
                },
            }
            k = k + 1;
        }
        assert(spans_view(spans@) + Seq::<(int, int)>::empty() =~= spans_view(spans@));
        Some(spans)
    }
}


impl PunktSentenceTokenizer {
    /// The sentence slices of `text` (see `raw_slices`).
    fn slices_from_text(&self, text: &str) -> (r: Vec<(usize, usize)>)
        ensures
            spans_view(r@) == self.raw_slices(text@),
            forall|k: int| 0 <= k < r.len() ==> (#[trigger] r@[k]).0 < r@[k].1 && r@[k].1 <= text@.len(),
    {
        let tokens = self.tokenize_words(text);
        proof {
            lemma_words_fit(self.lang_vars.re_word_tokenizer@, text@);
            assert(self.spans_fit(text@));
        }
        if tokens.len() == 0 {
            let r: Vec<(usize, usize)> = Vec::new();
            assert(spans_view(r@) =~= Seq::<(int, int)>::empty());
            return r;
        }
        let ghost w = self.words(text@);
        let ghost texts = word_texts(w);
        assert forall|i: int| 0 <= i < tokens.len() implies #[trigger] tok_texts(tokens@)[i] == texts[i] by {
            assert(tokens@[i].fresh(w[i].0, w[i].1, w[i].2));
        }
        assert forall|i: int| 0 <= i < tokens.len() implies #[trigger] tokens@[i].typ@ == punkt_type(tokens@[i].tok@) by {
            assert(tokens@[i].fresh(w[i].0, w[i].1, w[i].2));
        }
        assert forall|i: int| 0 <= i < tokens.len() implies #[trigger] tokens@[i].period_final == ends_with(tokens@[i].tok@, '.') by {
            assert(tokens@[i].fresh(w[i].0, w[i].1, w[i].2));
        }
        assert(tok_texts(tokens@) =~= texts);
        let v = chars_of(text);
        let n = v.len();
        let spans = match self.token_spans_of(&v, &tokens) {
            Some(sp) => sp,
            None => {
                let r: Vec<(usize, usize)> = Vec::new();
                return r;
            },
        };
        let ghost spv = spans_view(spans@);
        proof {
            lemma_tok_spans_len(v@, texts, 0, 0, 0);
        }
        let annotated = self.annotate_tokens(tokens);
        let m = annotated.len();
        let ghost br = self.breaks(text@);
        assert(spv == self.token_spans(text@));
        let mut breaks: Vec<bool> = Vec::new();
        for i in 0..m
            invariant
                m == annotated.len(),
                br == self.breaks(text@),
                texts == word_texts(self.words(text@)),
                br.len() == m,
                forall|i: int| 0 <= i < m ==> #[trigger] annotated@[i].sentbreak == sentbreak_at(
                    self.params,
                    self.lang_vars.sent_end_chars@,
                    texts,
                    i,
                ),
                breaks.len() == i,
                forall|j: int| 0 <= j < i ==> #[trigger] breaks@[j] == br[j],
        {
            breaks.push(annotated[i].sentbreak);
        }
        assert(breaks@ =~= br);
        let raw = group_slices(&v, &spans, &breaks);
        let out = keep_nonblank(&v, &raw);
        assert(v@.len() == text@.len());
        out
    }

    /// Realigns the boundaries of `slices` (see `realigned`).
    #[verifier::rlimit(40)]
    fn realign_boundaries(&self, text: &str, slices: Vec<(usize, usize)>) -> (r: Vec<(usize, usize)>)
        requires
            forall|k: int| 0 <= k < slices.len() ==> (#[trigger] slices@[k]).0 < slices@[k].1 && slices@[k].1 <= text@.len(),
        ensures
            spans_view(r@) == self.realigned(text@, spans_view(slices@)),
            forall|k: int| 0 <= k < r.len() ==> (#[trigger] r@[k]).0 < r@[k].1 && r@[k].1 <= text@.len(),
    {
        if slices.len() <= 1 {
            return slices;
        }
        let v = chars_of(text);
        let n = v.len();
        let ghost sl = spans_view(slices@);
        let ghost p = self.lang_vars.re_boundary_realignment@;
        let ghost all = realign_from(v@, p, sl, 0, sl[0].0);
        let m = slices.len();
        let mut cur: usize = slices[0].0;
        let mut mid: Vec<(usize, usize)> = Vec::new();
        let mut i: usize = 0;
        assert(spans_view(mid@) + all =~= all);
        while i < m
            invariant
                m == slices.len(),
                m > 1,
                n == v.len(),
                v@ == text@,
                sl == spans_view(slices@),
                p == self.lang_vars.re_boundary_realignment@,
                all == realign_from(v@, p, sl, 0, sl[0].0),
                forall|k: int| 0 <= k < slices.len() ==> (#[trigger] slices@[k]).0 < slices@[k].1 && slices@[k].1 <= n,
                i <= m,
                cur <= n,
                spans_view(mid@) + realign_from(v@, p, sl, i as int, cur as int) == all,
                forall|k: int| 0 <= k < mid.len() ==> (#[trigger] mid@[k]).1 <= n,
            decreases m - i,
        {
            let (_, e0) = slices[i];
            let ghost before = spans_view(mid@);
            if i + 1 < m {
                let ns = slices[i + 1].0;
                let tail = slice_chars(&v, ns, n);
                let after = string_of(tail.as_slice());
                match boundary_match(self.lang_vars.re_boundary_realignment.as_str(), after.as_str()) {
                    Some(mt) => {
                        let mv = chars_of(mt.as_str());
                        let te = trim_end_chars(&mv);
                        proof {
                            crate::text::lemma_trim_end_prefix(mv@);
                        }
                        let e = ns + te.len();
                        mid.push((cur, e));
                        assert(spans_view(mid@) =~= before.push((cur as int, e as int)));
                        assert(spans_view(mid@) + realign_from(v@, p, sl, i + 1, ns + mv.len()) =~= before + realign_from(v@, p, sl, i as int, cur as int));
                        cur = ns + mv.len();
                    },
                    None => {
                        mid.push((cur, e0));
                        assert(spans_view(mid@) =~= before.push((cur as int, e0 as int)));
                        assert(spans_view(mid@) + realign_from(v@, p, sl, i + 1, ns as int) =~= before + realign_from(v@, p, sl, i as int, cur as int));
                        cur = ns;
                    },
                }
            } else {
                if cur < n {
                    mid.push((cur, e0));
                    assert(spans_view(mid@) =~= before.push((cur as int, e0 as int)));
                } else {
                    assert(spans_view(mid@) =~= before);
                }
                assert(realign_from(v@, p, sl, i + 1, cur as int) =~= Seq::<(int, int)>::empty());
                assert(spans_view(mid@) + realign_from(v@, p, sl, i + 1, cur as int) =~= before + realign_from(v@, p, sl, i as int, cur as int));
            }
            i = i + 1;
        }
        assert(spans_view(mid@) + Seq::<(int, int)>::empty() =~= spans_view(mid@));
        drop_empty_slices(&mid, n)
    }
}


impl PunktSentenceTokenizer {
    /// A tokenizer with the given parameters and the default language variables.
    pub fn new(params: PunktParameters) -> (r: Self)
        ensures
            r.params == params,
            r.lang_vars.sent_end_chars@ == seq!['.', '?', '!'],
            r.lang_vars.re_word_tokenizer@ == RE_WORD_TOKENIZER@,
            r.lang_vars.re_boundary_realignment@ == RE_BOUNDARY_REALIGNMENT@,
    {
        PunktSentenceTokenizer { params, lang_vars: PunktLanguageVars::default() }
    }

    /// The sentences of `text` (see `sentences`): slices by the annotation
    /// passes, realigned if asked, trimmed.
    pub fn tokenize(&self, text: &str, realign_boundaries: bool) -> (r: Vec<String>)
        ensures
            str_views(r@) == self.sentences(text@, realign_boundaries),
    {
        let v = chars_of(text);
        let t = trim_chars(&v);
        if t.len() == 0 {
            let r: Vec<String> = Vec::new();
            assert(str_views(r@) =~= Seq::<Seq<char>>::empty());
            return r;
        }
        let raw = self.slices_from_text(text);
        let sl = if realign_boundaries {
            self.realign_boundaries(text, raw)
        } else {
            raw
        };
        let ghost slv = spans_view(sl@);
        let mut out: Vec<String> = Vec::new();
        let mut q: usize = 0;
        while q < sl.len()
            invariant
                v@ == text@,
                slv == spans_view(sl@),
                q <= sl.len(),
                forall|k: int| 0 <= k < sl.len() ==> (#[trigger] sl@[k]).0 < sl@[k].1 && sl@[k].1 <= v.len(),
                str_views(out@) == slice_texts(v@, slv.take(q as int)),
            decreases sl.len() - q,
        {
            assert(slv.take(q + 1).drop_last() =~= slv.take(q as int));
            let ab = sl[q];
            assert(sl@[q as int].1 <= v.len());
            let piece = slice_chars(&v, ab.0, ab.1);
            let tr = trim_chars(&piece);
            if tr.len() > 0 {
                let ghost before = str_views(out@);
                out.push(string_of(tr.as_slice()));
                assert(str_views(out@) =~= before.push(tr@));
            }
            q = q + 1;
        }
        assert(slv.take(sl.len() as int) =~= slv);
        if out.len() == 0 {
            out.push(string_of(t.as_slice()));
            assert(str_views(out@) =~= seq![trim(text@)]);
        }
        out
    }

    /// The character spans of the sentences of `text` (realigned), each searched
    /// for after the one before.
    pub fn span_tokenize(&self, text: &str) -> (r: Vec<(usize, usize)>)
        requires
            alignment(self.sentences(text@, true), text@) is Some,
        ensures
            spans_view(r@) == alignment(self.sentences(text@, true), text@).unwrap(),
    {
        let sents = self.tokenize(text, true);
        align_tokens(sents.as_slice(), text)
    }

    /// The spans of `span_tokenize`, or `None` where they cannot be found.
    pub fn try_span_tokenize(&self, text: &str) -> (r: Option<Vec<(usize, usize)>>)
        ensures
            r is Some <==> alignment(self.sentences(text@, true), text@) is Some,
            r matches Some(v) ==> spans_view(v@) == alignment(self.sentences(text@, true), text@).unwrap(),
    {
        let sents = self.tokenize(text, true);
        if try_align_tokens(sents.as_slice(), text).is_some() {
            Some(self.span_tokenize(text))
        } else {
            None
        }
    }
}

impl Default for PunktSentenceTokenizer {
    /// The English tokenizer.
    fn default() -> (r: Self)
        ensures
            str_views(r.params.abbrev_types@) == english_abbrevs(),
            r.params.collocations@.len() == 0,
            r.params.sent_starters@.len() == 0,
            r.params.ortho_context@.len() == 0,
            r.lang_vars.sent_end_chars@ == seq!['.', '?', '!'],
            r.lang_vars.re_word_tokenizer@ == RE_WORD_TOKENIZER@,
            r.lang_vars.re_boundary_realignment@ == RE_BOUNDARY_REALIGNMENT@,
    {
        Self::new(PunktParameters::english_default())
    }
}


/// The texts of slices are trimmed and not empty.
proof fn lemma_slice_texts_trimmed(text: Seq<char>, v: Seq<(int, int)>)
    ensures
        forall|i: int| 0 <= i < slice_texts(text, v).len() ==> (#[trigger] slice_texts(text, v)[i]).len() > 0
            && trim(slice_texts(text, v)[i]) == slice_texts(text, v)[i],
    decreases v.len(),
{
    if v.len() > 0 {
        lemma_slice_texts_trimmed(text, v.drop_last());
        let r = slice_texts(text, v.drop_last());
        let t = trim(text.subrange(v.last().0, v.last().1));
        lemma_trim_idempotent(text.subrange(v.last().0, v.last().1));
        if t.len() > 0 {
            assert forall|i: int| 0 <= i < slice_texts(text, v).len() implies (#[trigger] slice_texts(text, v)[i]).len() > 0
                && trim(slice_texts(text, v)[i]) == slice_texts(text, v)[i] by {
                if i < r.len() {
                    assert(slice_texts(text, v)[i] == r[i]);
                }
            }
        }
    }
}

/// Every sentence is non-empty and has no whitespace at either end.
pub proof fn lemma_sentences_trimmed(tok: PunktSentenceTokenizer, text: Seq<char>, realign: bool)
    ensures
        forall|i: int| 0 <= i < tok.sentences(text, realign).len() ==> (#[trigger] tok.sentences(text, realign)[i]).len() > 0
            && trim(tok.sentences(text, realign)[i]) == tok.sentences(text, realign)[i],
{
    if trim(text).len() > 0 {
        let sl = tok.raw_slices(text);
        let sl = if realign {
            tok.realigned(text, sl)
        } else {
            sl
        };
        lemma_slice_texts_trimmed(text, sl);
        lemma_trim_idempotent(text);
    }
}

} // verus!
