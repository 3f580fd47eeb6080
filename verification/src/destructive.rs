//! The Treebank-style word tokenizer (a cascade of regular-expression rewrites) and the
//! alignment of tokens back onto the text they came from.
use vstd::prelude::*;
use crate::api::spans_view;
use crate::rx::{find_all, rfind, rsplit, rsub, rsub_first, split_by, subst, subst_first, text_from};
use crate::text::{
    char_views, chars_of, chars_of_all, copy_chars, is_alphanumeric, alphanumeric, lowercase, occurs_at, occurs_at_exec,
    push_all, replace_chars, replace_seq, slice_chars, split_ws, split_ws_chars, str_views,
    string_of, strings_of, to_lowercase,
};

verus! {

/// The first position at or after `from` where `tok` occurs in `s`.
pub open spec fn find_from(s: Seq<char>, tok: Seq<char>, from: int) -> Option<int>
    decreases s.len() - from,
{
    if from < 0 || from + tok.len() > s.len() {
        None
    } else if occurs_at(s, from, tok) {
        Some(from)
    } else if from >= s.len() {
        None
    } else {
        find_from(s, tok, from + 1)
    }
}

/// The spans of `tokens` in `s`, each token searched for from the end of the
/// previous one (starting at `point`); `None` when some token is not found.
pub open spec fn align_from(tokens: Seq<Seq<char>>, s: Seq<char>, point: int) -> Option<
    Seq<(int, int)>,
>
    decreases tokens.len(),
{
    if tokens.len() == 0 {
        Some(seq![])
    } else {
        match find_from(s, tokens[0], point) {
            None => None,
            Some(st) => match align_from(tokens.drop_first(), s, st + tokens[0].len()) {
                None => None,
                Some(rest) => Some(seq![(st, st + tokens[0].len())] + rest),
            },
        }
    }
}

/// `align_from` from the start of `s`.
pub open spec fn alignment(tokens: Seq<Seq<char>>, s: Seq<char>) -> Option<Seq<(int, int)>> {
    align_from(tokens, s, 0)
}

/// The first position at or after `from` where `tok` occurs in `s`.
pub fn find_from_exec(s: &Vec<char>, tok: &Vec<char>, from: usize) -> (r: Option<usize>)
    ensures
        match r {
            Some(j) => find_from(s@, tok@, from as int) == Some(j as int),
            None => find_from(s@, tok@, from as int) is None,
        },
{
    let n = s.len();
    let mut j = from;
    while j <= n && tok.len() <= n - j
        invariant
            n == s.len(),
            from <= j,
            find_from(s@, tok@, from as int) == find_from(s@, tok@, j as int),
        decreases n + 1 - j,
    {
        if occurs_at_exec(s, j, tok) {
            return Some(j);
        }
        assert(j < n) by {
            if tok.len() == 0 {
                assert(s@.subrange(j as int, j as int) =~= tok@);
            }
        }
        j = j + 1;
    }
    None
}

/// Character spans of `tokens` in `sentence`, each token searched for from the end
/// of the previous one.
pub fn align_tokens(tokens: &[String], sentence: &str) -> (r: Vec<(usize, usize)>)
    requires
        alignment(str_views(tokens@), sentence@) is Some,
    ensures
        spans_view(r@) == alignment(str_views(tokens@), sentence@).unwrap(),
{
    match try_align_tokens(tokens, sentence) {
        Some(v) => v,
        None => Vec::new(),
    }
}

/// The spans of `align_tokens`, or `None` when some token is not found after the
/// end of the one before it.
pub fn try_align_tokens(tokens: &[String], sentence: &str) -> (r: Option<Vec<(usize, usize)>>)
    ensures
        r is Some <==> alignment(str_views(tokens@), sentence@) is Some,
        r matches Some(v) ==> spans_view(v@) == alignment(str_views(tokens@), sentence@).unwrap(),
{
    let s = chars_of(sentence);
    let toks = chars_of_all(tokens);
    let ghost tv = str_views(tokens@);
    let mut out: Vec<(usize, usize)> = Vec::new();
    let mut point: usize = 0;
    assert(tv.skip(0) =~= tv);
    assert(spans_view(out@) =~= Seq::<(int, int)>::empty());
    for k in 0..toks.len()
        invariant
            s@ == sentence@,
            tv == str_views(tokens@),
            toks.len() == tv.len(),
            forall|j: int| 0 <= j < tv.len() ==> #[trigger] toks@[j]@ == tv[j],
            point <= s.len(),
            align_from(tv, s@, 0) == match align_from(tv.skip(k as int), s@, point as int) {
                Some(rest) => Some(spans_view(out@) + rest),
                None => None,
            },
    {
        let ghost rest_t = tv.skip(k as int);
        assert(rest_t[0] == toks@[k as int]@);
        assert(rest_t.drop_first() =~= tv.skip(k + 1));
        match find_from_exec(&s, &toks[k], point) {
            Some(st) => {
                proof {
                    lemma_find_from_sound(s@, toks@[k as int]@, point as int);
                }
                let en = st + toks[k].len();
                let ghost before = spans_view(out@);
                out.push((st, en));
                assert(spans_view(out@) =~= before.push((st as int, en as int)));
                point = en;
            },
            None => {
                return None;
            },
        }
    }
    assert(tv.skip(toks.len() as int) =~= Seq::<Seq<char>>::empty());
    assert(spans_view(out@) + Seq::<(int, int)>::empty() =~= spans_view(out@));
    Some(out)
}

/// Soundness of alignment: every span covers exactly its token, and the spans
/// follow one another from left to right.
pub proof fn lemma_alignment_sound(tokens: Seq<Seq<char>>, s: Seq<char>, point: int)
    requires
        align_from(tokens, s, point) is Some,
    ensures
        ({
            let sp = align_from(tokens, s, point).unwrap();
            &&& sp.len() == tokens.len()
            &&& forall|k: int|
                0 <= k < sp.len() ==> point <= #[trigger] sp[k].0 && sp[k].1 == sp[k].0
                    + tokens[k].len() && sp[k].1 <= s.len() && s.subrange(sp[k].0, sp[k].1)
                    == tokens[k]
            &&& forall|k: int| 0 <= k < sp.len() - 1 ==> #[trigger] sp[k].1 <= sp[k + 1].0
        }),
    decreases tokens.len(),
{
    if tokens.len() > 0 {
        let st = find_from(s, tokens[0], point).unwrap();
        lemma_find_from_sound(s, tokens[0], point);
        lemma_alignment_sound(tokens.drop_first(), s, st + tokens[0].len());
        let sp = align_from(tokens, s, point).unwrap();
        let rest = align_from(tokens.drop_first(), s, st + tokens[0].len()).unwrap();
        assert(sp == seq![(st, st + tokens[0].len())] + rest);
        assert forall|k: int| 0 <= k < sp.len() implies point <= #[trigger] sp[k].0 && sp[k].1
            == sp[k].0 + tokens[k].len() && sp[k].1 <= s.len() && s.subrange(sp[k].0, sp[k].1)
            == tokens[k] by {
            if k > 0 {
                assert(sp[k] == rest[k - 1]);
                assert(tokens[k] == tokens.drop_first()[k - 1]);
            }
        }
        assert forall|k: int| 0 <= k < sp.len() - 1 implies #[trigger] sp[k].1 <= sp[k + 1].0 by {
            assert(sp[k + 1] == rest[k]);
            if k > 0 {
                assert(sp[k] == rest[k - 1]);
            }
        }
    }
}

/// A position that `find_from` returns is at or after `from`, and `tok` occurs
/// there.
pub proof fn lemma_find_from_sound(s: Seq<char>, tok: Seq<char>, from: int)
    requires
        find_from(s, tok, from) is Some,
    ensures
        ({
            let j = find_from(s, tok, from).unwrap();
            from <= j && occurs_at(s, j, tok)
        }),
    decreases s.len() - from,
{
    if !occurs_at(s, from, tok) {
        assert(tok.len() > 0) by {
            if tok.len() == 0 {
                assert(s.subrange(from, from) =~= tok);
            }
        }
        lemma_find_from_sound(s, tok, from + 1);
    }
}

// ---------------------------------------------------------------------------
// The rewrite cascade
// ---------------------------------------------------------------------------
pub const RE_Q1: &'static str = r"([«“‘„]|[`]+)";
pub const RE_Q2: &'static str = r#"^""#;
pub const RE_Q3: &'static str = r"(``)";
pub const RE_Q4: &'static str = r##"([ \(\[{<])("|'{2})"##;
pub const RE_CLITIC: &'static str = r"(?i)'(\w)\b";
pub const RE_P1: &'static str = r#"([^\.])(\.)([\]\[\)}>"'»”’]*)\s*$"#;
pub const RE_P2: &'static str = r"([:,])([^\d])";
pub const RE_P3: &'static str = r"([:,])$";
pub const RE_P4: &'static str = r"\.\.\.";
pub const RE_P5: &'static str = r"[;@#$%&]";
pub const RE_P6: &'static str = r#"([^\.])(\.)([\]\[\)}>"']*)\s*$"#;
pub const RE_P7: &'static str = r"[?!]";
pub const RE_P8: &'static str = r"([^'])' ";
pub const RE_P9: &'static str = r"[*]";
pub const RE_PARENS: &'static str = r"[\]\[(){}<>]";
pub const RE_RQUOTE: &'static str = r"([»”’])";
pub const RE_WS: &'static str = r"\s+";
pub const RE_C1: &'static str = r"([^' ])('[sS]|'[mM]|'[dD]|') ";
pub const RE_C2: &'static str = r"([^' ])('ll|'LL|'re|'RE|'ve|'VE|n't|N'T) ";
pub const RE_CONT_CAN: &'static str = r"(?i)\b(can)(not)\b";
pub const RE_CONT_DYE: &'static str = r"(?i)\b(d)('ye)\b";
pub const RE_CONT_GIM: &'static str = r"(?i)\b(gim)(me)\b";
pub const RE_CONT_GON: &'static str = r"(?i)\b(gon)(na)\b";
pub const RE_CONT_GOT: &'static str = r"(?i)\b(got)(ta)\b";
pub const RE_CONT_LEM: &'static str = r"(?i)\b(lem)(me)\b";
pub const RE_CONT_MORE: &'static str = r"(?i)\b(more)('n)\b";
pub const RE_CONT_WAN: &'static str = r"(?i)\b(wan)(na)\b";
pub const RE_TIS: &'static str = r"(?i) ('t)(is)\b";
pub const RE_TWAS: &'static str = r"(?i) ('t)(was)\b";

/// The longest prefix of `t` made of alphanumeric characters.
pub open spec fn alnum_prefix(t: Seq<char>) -> Seq<char>
    decreases t.len(),
{
    if t.len() > 0 && alphanumeric(t[0]) {
        seq![t[0]] + alnum_prefix(t.drop_first())
    } else {
        seq![]
    }
}

/// The clitic suffixes that keep their apostrophe attached.
pub open spec fn kept_clitic(w: Seq<char>) -> bool {
    w == "re"@ || w == "ve"@ || w == "ll"@ || w == "m"@ || w == "t"@ || w == "s"@ || w == "d"@
        || w == "n"@
}

/// What a match of `'(\w)\b` becomes, `after` being the text that follows it:
/// the match is kept when the word after the apostrophe is a kept clitic, and
/// otherwise the apostrophe is split from the character after it.
pub open spec fn clitic_replacement(m: Seq<char>, after: Seq<char>) -> Seq<char> {
    let tail = if m.len() > 0 {
        m.drop_first()
    } else {
        seq![]
    };
    if kept_clitic(lowercase(alnum_prefix(tail + after))) {
        m
    } else {
        "' "@ + tail
    }
}

/// Pieces `g[i..]` and matches `m[i..]` put back together, each match replaced.
pub open spec fn clitic_from(g: Seq<Seq<char>>, m: Seq<Seq<char>>, i: int) -> Seq<char>
    decreases g.len() - i,
{
    if i < 0 || i >= g.len() {
        seq![]
    } else {
        g[i] + (if i < m.len() {
            clitic_replacement(m[i], text_from(g, m, i + 1))
        } else {
            seq![]
        }) + clitic_from(g, m, i + 1)
    }
}

/// Apostrophes split from a following word character, except before a clitic.
pub open spec fn clitic_pass(s: Seq<char>) -> Seq<char> {
    clitic_from(rsplit(RE_CLITIC@, s), rfind(RE_CLITIC@, s), 0)
}

/// `( ) [ ] { }` written as `-LRB- -RRB- -LSB- -RSB- -LCB- -RCB-`.
pub open spec fn bracket_codes(s: Seq<char>) -> Seq<char> {
    let s = replace_seq(s, "("@, "-LRB-"@);
    let s = replace_seq(s, ")"@, "-RRB-"@);
    let s = replace_seq(s, "["@, "-LSB-"@);
    let s = replace_seq(s, "]"@, "-RSB-"@);
    let s = replace_seq(s, "{"@, "-LCB-"@);
    replace_seq(s, "}"@, "-RCB-"@)
}

/// The word tokenizer's rewrite cascade: quotes, punctuation, brackets,
/// dashes, ending quotes and contractions are set apart by spaces.
pub open spec fn word_rewrites(text: Seq<char>, convert_parentheses: bool) -> Seq<char> {
    let s = rsub(RE_Q1@, text, " $1 "@);
    let s = rsub_first(RE_Q2@, s, "``"@);
    let s = rsub(RE_Q3@, s, " $1 "@);
    let s = rsub(RE_Q4@, s, "$1 `` "@);
    let s = clitic_pass(s);
    let s = rsub(RE_P1@, s, "$1 $2 $3 "@);
    let s = rsub(RE_P2@, s, " $1 $2"@);
    let s = rsub(RE_P3@, s, " $1 "@);
    let s = rsub(RE_P4@, s, " $0 "@);
    let s = rsub(RE_P5@, s, " $0 "@);
    let s = rsub(RE_P6@, s, "$1 $2$3 "@);
    let s = rsub(RE_P7@, s, " $0 "@);
    let s = rsub(RE_P8@, s, "$1 ' "@);
    let s = rsub(RE_P9@, s, " $0 "@);
    let s = rsub(RE_PARENS@, s, " $0 "@);
    let s = if convert_parentheses {
        bracket_codes(s)
    } else {
        s
    };
    let s = replace_seq(s, "--"@, " -- "@);
    let s = " "@ + s + " "@;
    let s = rsub(RE_RQUOTE@, s, " $1 "@);
    let s = replace_seq(s, "''"@, " '' "@);
    let s = replace_seq(s, "\""@, " '' "@);
    let s = rsub(RE_WS@, s, " "@);
    let s = rsub(RE_C1@, s, "$1 $2 "@);
    let s = rsub(RE_C2@, s, "$1 $2 "@);
    let s = rsub(RE_CONT_CAN@, s, " $1 $2 "@);
    let s = rsub(RE_CONT_DYE@, s, " $1 $2 "@);
    let s = rsub(RE_CONT_GIM@, s, " $1 $2 "@);
    let s = rsub(RE_CONT_GON@, s, " $1 $2 "@);
    let s = rsub(RE_CONT_GOT@, s, " $1 $2 "@);
    let s = rsub(RE_CONT_LEM@, s, " $1 $2 "@);
    let s = rsub(RE_CONT_MORE@, s, " $1 $2 "@);
    let s = rsub(RE_CONT_WAN@, s, " $1 $2 "@);
    let s = rsub(RE_TIS@, s, " $1 $2 "@);
    rsub(RE_TWAS@, s, " $1 $2 "@)
}

/// The word tokens of `text`: the rewritten text split at whitespace.
pub open spec fn word_tokens(text: Seq<char>, convert_parentheses: bool) -> Seq<Seq<char>> {
    split_ws(word_rewrites(text, convert_parentheses))
}

fn alnum_prefix_chars(t: &Vec<char>) -> (r: Vec<char>)
    ensures
        r@ == alnum_prefix(t@),
{
    let mut k: usize = 0;
    while k < t.len() && is_alphanumeric(t[k])
        invariant
            k <= t.len(),
            forall|j: int| 0 <= j < k ==> alphanumeric(#[trigger] t@[j]),
        decreases t.len() - k,
    {
        k = k + 1;
    }
    let r = slice_chars(t, 0, k);
    proof {
        lemma_alnum_prefix(t@, k as int);
    }
    r
}

proof fn lemma_alnum_prefix(t: Seq<char>, k: int)
    requires
        0 <= k <= t.len(),
        forall|j: int| 0 <= j < k ==> alphanumeric(#[trigger] t[j]),
        k == t.len() || !alphanumeric(t[k]),
    ensures
        alnum_prefix(t) == t.subrange(0, k),
    decreases k,
{
    if k > 0 {
        lemma_alnum_prefix(t.drop_first(), k - 1);
        assert(t.subrange(0, k) =~= seq![t[0]] + t.drop_first().subrange(0, k - 1));
    } else {
        assert(t.subrange(0, 0) =~= Seq::<char>::empty());
    }
}

fn text_from_chars(g: &Vec<Vec<char>>, m: &Vec<Vec<char>>, j: usize) -> (r: Vec<char>)
    ensures
        r@ == text_from(crate::text::char_views(g@), crate::text::char_views(m@), j as int),
{
    let ghost gv = crate::text::char_views(g@);
    let ghost mv = crate::text::char_views(m@);
    let mut parts: Vec<Vec<char>> = Vec::new();
    let mut k = j;
    let mut out: Vec<char> = Vec::new();
    while k < g.len()
        invariant
            j <= k,
            gv == crate::text::char_views(g@),
            mv == crate::text::char_views(m@),
            out@ + text_from(gv, mv, k as int) == text_from(gv, mv, j as int),
        decreases g.len() - k,
    {
        let ghost o = out@;
        push_all(&mut out, &g[k]);
        if k < m.len() {
            push_all(&mut out, &m[k]);
        }
        assert(out@ + text_from(gv, mv, k + 1) =~= o + text_from(gv, mv, k as int));
        k = k + 1;
    }
    assert(out@ + text_from(gv, mv, k as int) =~= out@);
    out
}

fn kept_clitic_exec(w: &Vec<char>) -> (b: bool)
    ensures
        b == kept_clitic(w@),
{
    let r1 = eq_lit(w, "re");
    let r2 = eq_lit(w, "ve");
    let r3 = eq_lit(w, "ll");
    let r4 = eq_lit(w, "m");
    let r5 = eq_lit(w, "t");
    let r6 = eq_lit(w, "s");
    let r7 = eq_lit(w, "d");
    let r8 = eq_lit(w, "n");
    r1 || r2 || r3 || r4 || r5 || r6 || r7 || r8
}

/// Whether `w` spells `lit`.
pub fn eq_lit(w: &Vec<char>, lit: &str) -> (b: bool)
    ensures
        b == (w@ == lit@),
{
    let l = chars_of(lit);
    if w.len() != l.len() {
        return false;
    }
    let r = occurs_at_exec(w, 0, &l);
    assert(r ==> w@.subrange(0, l@.len() as int) =~= w@);
    proof {
        if w@ == l@ {
            assert(w@.subrange(0, l@.len() as int) =~= l@);
        }
    }
    r
}

fn clitic_pass_exec(s: &str) -> (r: String)
    ensures
        r@ == clitic_pass(s@),
{
    let gs = split_by(RE_CLITIC, s);
    let ms = find_all(RE_CLITIC, s);
    let g = chars_of_all(gs.as_slice());
    let m = chars_of_all(ms.as_slice());
    let ghost gv = crate::text::char_views(g@);
    let ghost mv = crate::text::char_views(m@);
    let mut out: Vec<char> = Vec::new();
    let mut i: usize = 0;
    while i < g.len()
        invariant
            gv == crate::text::char_views(g@),
            mv == crate::text::char_views(m@),
            out@ + clitic_from(gv, mv, i as int) == clitic_from(gv, mv, 0),
        decreases g.len() - i,
    {
        let ghost o = out@;
        push_all(&mut out, &g[i]);
        if i < m.len() {
            let mi = &m[i];
            let tail = if mi.len() > 0 {
                slice_chars(mi, 1, mi.len())
            } else {
                Vec::new()
            };
            assert(tail@ =~= (if mi@.len() > 0 { mi@.drop_first() } else { Seq::<char>::empty() }));
            let after = text_from_chars(&g, &m, i + 1);
            let mut rest = tail.clone();
            assert(rest@ == tail@);
            push_all(&mut rest, &after);
            let ap = alnum_prefix_chars(&rest);
            let word = to_lowercase(string_of(ap.as_slice()).as_str());
            let wc = chars_of(word.as_str());
            if kept_clitic_exec(&wc) {
                push_all(&mut out, mi);
            } else {
                out.push('\'');
                out.push(' ');
                push_all(&mut out, &tail);
                assert("' "@ =~= seq!['\'', ' ']) by {
                    reveal_strlit("' ");
                }
            }
        }
        assert(out@ + clitic_from(gv, mv, i + 1) =~= o + clitic_from(gv, mv, i as int));
        i = i + 1;
    }
    assert(out@ + clitic_from(gv, mv, i as int) =~= out@);
    string_of(out.as_slice())
}

fn replace_str(s: &str, pat: &str, rep: &str) -> (r: String)
    ensures
        r@ == replace_seq(s@, pat@, rep@),
{
    let v = chars_of(s);
    let p = chars_of(pat);
    let q = chars_of(rep);
    let o = replace_chars(&v, &p, &q);
    string_of(o.as_slice())
}

fn word_rewrites_exec(text: &str, convert_parentheses: bool) -> (r: String)
    ensures
        r@ == word_rewrites(text@, convert_parentheses),
{
    let s = subst(RE_Q1, text, " $1 ");
    let s = subst_first(RE_Q2, s.as_str(), "``");
    let s = subst(RE_Q3, s.as_str(), " $1 ");
    let s = subst(RE_Q4, s.as_str(), "$1 `` ");
    let s = clitic_pass_exec(s.as_str());
    let s = subst(RE_P1, s.as_str(), "$1 $2 $3 ");
    let s = subst(RE_P2, s.as_str(), " $1 $2");
    let s = subst(RE_P3, s.as_str(), " $1 ");
    let s = subst(RE_P4, s.as_str(), " $0 ");
    let s = subst(RE_P5, s.as_str(), " $0 ");
    let s = subst(RE_P6, s.as_str(), "$1 $2$3 ");
    let s = subst(RE_P7, s.as_str(), " $0 ");
    let s = subst(RE_P8, s.as_str(), "$1 ' ");
    let s = subst(RE_P9, s.as_str(), " $0 ");
    let s = subst(RE_PARENS, s.as_str(), " $0 ");
    let s = if convert_parentheses {
        let s = replace_str(s.as_str(), "(", "-LRB-");
        let s = replace_str(s.as_str(), ")", "-RRB-");
        let s = replace_str(s.as_str(), "[", "-LSB-");
        let s = replace_str(s.as_str(), "]", "-RSB-");
        let s = replace_str(s.as_str(), "{", "-LCB-");
        replace_str(s.as_str(), "}", "-RCB-")
    } else {
        s
    };
    let s = replace_str(s.as_str(), "--", " -- ");
    let mut padded = chars_of(" ");
    let body = chars_of(s.as_str());
    push_all(&mut padded, &body);
    let sp = chars_of(" ");
    push_all(&mut padded, &sp);
    let s = string_of(padded.as_slice());
    let s = subst(RE_RQUOTE, s.as_str(), " $1 ");
    let s = replace_str(s.as_str(), "''", " '' ");
    let s = replace_str(s.as_str(), "\"", " '' ");
    let s = subst(RE_WS, s.as_str(), " ");
    let s = subst(RE_C1, s.as_str(), "$1 $2 ");
    let s = subst(RE_C2, s.as_str(), "$1 $2 ");
    let s = subst(RE_CONT_CAN, s.as_str(), " $1 $2 ");
    let s = subst(RE_CONT_DYE, s.as_str(), " $1 $2 ");
    let s = subst(RE_CONT_GIM, s.as_str(), " $1 $2 ");
    let s = subst(RE_CONT_GON, s.as_str(), " $1 $2 ");
    let s = subst(RE_CONT_GOT, s.as_str(), " $1 $2 ");
    let s = subst(RE_CONT_LEM, s.as_str(), " $1 $2 ");
    let s = subst(RE_CONT_MORE, s.as_str(), " $1 $2 ");
    let s = subst(RE_CONT_WAN, s.as_str(), " $1 $2 ");
    let s = subst(RE_TIS, s.as_str(), " $1 $2 ");
    subst(RE_TWAS, s.as_str(), " $1 $2 ")
}

pub struct NLTKWordTokenizer;

impl NLTKWordTokenizer {
    /// The word tokens of `text`; with `convert_parentheses`, brackets become
    /// `-LRB-`, `-RRB-`, ...
    pub fn tokenize_core(text: &str, convert_parentheses: bool) -> (r: Vec<String>)
        ensures
            str_views(r@) == word_tokens(text@, convert_parentheses),
    {
        let s = word_rewrites_exec(text, convert_parentheses);
        crate::text::split_ws_strings(s.as_str())
    }

    /// The character spans of the word tokens of `text`, the quote tokens first
    /// put back to the quotes of the text (see `span_words`).
    pub fn span_tokenize_core(text: &str) -> (r: Vec<(usize, usize)>)
        requires
            span_words(text@) matches Some(w) && alignment(w, text@) is Some,
        ensures
            spans_view(r@) == alignment(span_words(text@).unwrap(), text@).unwrap(),
    {
        let toks = Self::tokenize_core(text, false);
        let v = chars_of(text);
        if has_double_quote_exec(&v) {
            let marks = quote_marks_exec(&v);
            let tc = chars_of_all(toks.as_slice());
            match requote_exec(&tc, &marks) {
                Some(w) => {
                    let ws = strings_of(&w);
                    align_tokens(ws.as_slice(), text)
                },
                None => Vec::new(),
            }
        } else {
            align_tokens(toks.as_slice(), text)
        }
    }

    /// The spans of `span_tokenize_core`, or `None` where the text has fewer quotes
    /// than there are quote tokens, or where some token cannot be found in `text`
    /// after the one before it.
    pub fn try_span_tokenize_core(text: &str) -> (r: Option<Vec<(usize, usize)>>)
        ensures
            r is Some <==> (span_words(text@) matches Some(w) && alignment(w, text@) is Some),
            r matches Some(v) ==> spans_view(v@) == alignment(span_words(text@).unwrap(), text@).unwrap(),
    {
        let toks = Self::tokenize_core(text, false);
        let v = chars_of(text);
        let words = if has_double_quote_exec(&v) {
            let marks = quote_marks_exec(&v);
            let tc = chars_of_all(toks.as_slice());
            match requote_exec(&tc, &marks) {
                Some(w) => strings_of(&w),
                None => {
                    return None;
                },
            }
        } else {
            toks
        };
        if try_align_tokens(words.as_slice(), text).is_some() {
            Some(Self::span_tokenize_core(text))
        } else {
            None
        }
    }
}

// ---------------------------------------------------------------------------
// Quote tokens put back to the text's quotes before alignment
// ---------------------------------------------------------------------------
/// The quotes of `t`, left to right: a pair of backquotes, a pair of single
/// quotes (tried in that order), or a double quote; each search resumes after
/// the quote found before.
pub open spec fn quote_marks(t: Seq<char>) -> Seq<Seq<char>>
    decreases t.len(),
{
    if t.len() == 0 {
        seq![]
    } else if t.len() >= 2 && t[0] == '`' && t[1] == '`' {
        seq![seq!['`', '`']] + quote_marks(t.skip(2))
    } else if t.len() >= 2 && t[0] == '\'' && t[1] == '\'' {
        seq![seq!['\'', '\'']] + quote_marks(t.skip(2))
    } else if t[0] == '"' {
        seq![seq!['"']] + quote_marks(t.drop_first())
    } else {
        quote_marks(t.drop_first())
    }
}

/// A token that the rewrites may have made from a quote of the text.
pub open spec fn is_quote_token(tok: Seq<char>) -> bool {
    tok == seq!['"'] || tok == seq!['`', '`'] || tok == seq!['\'', '\'']
}

/// `toks` with each quote token replaced by the next of `marks`, in order;
/// `None` when the marks run out.
pub open spec fn requote(toks: Seq<Seq<char>>, marks: Seq<Seq<char>>) -> Option<Seq<Seq<char>>>
    decreases toks.len(),
{
    if toks.len() == 0 {
        Some(seq![])
    } else if is_quote_token(toks[0]) {
        if marks.len() == 0 {
            None
        } else {
            prefixed(seq![marks[0]], requote(toks.drop_first(), marks.drop_first()))
        }
    } else {
        prefixed(seq![toks[0]], requote(toks.drop_first(), marks))
    }
}

/// `p` put before the items of `o`, if any.
pub open spec fn prefixed(p: Seq<Seq<char>>, o: Option<Seq<Seq<char>>>) -> Option<Seq<Seq<char>>> {
    match o {
        Some(r) => Some(p + r),
        None => None,
    }
}

/// `t` holds a double quote or two single quotes in a row.
pub open spec fn has_double_quote(t: Seq<char>) -> bool {
    exists|i: int|
        0 <= i < t.len() && (#[trigger] t[i] == '"' || (i + 1 < t.len() && t[i] == '\'' && t[i + 1]
            == '\''))
}

/// The tokens whose spans `span_tokenize_core` reports: where the text holds a
/// double quote or two single quotes in a row, the word tokens with their quote
/// tokens put back to the quotes of the text (`None` when the text has too few);
/// otherwise the word tokens.
pub open spec fn span_words(t: Seq<char>) -> Option<Seq<Seq<char>>> {
    if has_double_quote(t) {
        requote(word_tokens(t, false), quote_marks(t))
    } else {
        Some(word_tokens(t, false))
    }
}

fn has_double_quote_exec(v: &Vec<char>) -> (b: bool)
    ensures
        b == has_double_quote(v@),
{
    let n = v.len();
    let mut i: usize = 0;
    while i < n
        invariant
            n == v.len(),
            i <= n,
            forall|k: int|
                0 <= k < i ==> !(#[trigger] v@[k] == '"' || (k + 1 < v@.len() && v@[k] == '\''
                    && v@[k + 1] == '\'')),
        decreases n - i,
    {
        if v[i] == '"' || (i + 1 < n && v[i] == '\'' && v[i + 1] == '\'') {
            assert(v@[i as int] == '"' || (i + 1 < v@.len() && v@[i as int] == '\'' && v@[i + 1]
                == '\''));
            return true;
        }
        i = i + 1;
    }
    false
}

fn quote_marks_exec(v: &Vec<char>) -> (r: Vec<Vec<char>>)
    ensures
        char_views(r@) == quote_marks(v@),
{
    let n = v.len();
    let mut out: Vec<Vec<char>> = Vec::new();
    let mut i: usize = 0;
    assert(v@.skip(0) =~= v@);
    while i < n
        invariant
            n == v.len(),
            i <= n,
            char_views(out@) + quote_marks(v@.skip(i as int)) == quote_marks(v@),
        decreases n - i,
    {
        let ghost t = v@.skip(i as int);
        let ghost before = char_views(out@);
        assert(t[0] == v@[i as int]);
        if i + 1 < n && v[i] == '`' && v[i + 1] == '`' {
            assert(t[1] == v@[i + 1]);
            assert(t.skip(2) =~= v@.skip(i + 2));
            out.push(vec!['`', '`']);
            assert(char_views(out@) =~= before + seq![seq!['`', '`']]);
            i = i + 2;
        } else if i + 1 < n && v[i] == '\'' && v[i + 1] == '\'' {
            assert(t[1] == v@[i + 1]);
            assert(t.skip(2) =~= v@.skip(i + 2));
            out.push(vec!['\'', '\'']);
            assert(char_views(out@) =~= before + seq![seq!['\'', '\'']]);
            i = i + 2;
        } else if v[i] == '"' {
            proof {
                if t.len() >= 2 {
                    assert(t[1] == v@[i + 1]);
                }
            }
            assert(t.drop_first() =~= v@.skip(i + 1));
            let q: Vec<char> = vec!['"'];
            assert(q@ =~= seq!['"']);
            out.push(q);
            assert(char_views(out@) =~= before + seq![seq!['"']]);
            i = i + 1;
        } else {
            proof {
                if t.len() >= 2 {
                    assert(t[1] == v@[i + 1]);
                }
            }
            assert(t.drop_first() =~= v@.skip(i + 1));
            i = i + 1;
        }
    }
    assert(v@.skip(n as int) =~= Seq::<char>::empty());
    assert(char_views(out@) + Seq::<Seq<char>>::empty() =~= char_views(out@));
    out
}

fn is_quote_token_exec(t: &Vec<char>) -> (b: bool)
    ensures
        b == is_quote_token(t@),
{
    if t.len() == 1 && t[0] == '"' {
        assert(t@ =~= seq!['"']);
        true
    } else if t.len() == 2 && t[0] == '`' && t[1] == '`' {
        assert(t@ =~= seq!['`', '`']);
        true
    } else if t.len() == 2 && t[0] == '\'' && t[1] == '\'' {
        assert(t@ =~= seq!['\'', '\'']);
        true
    } else {
        proof {
            if t@ == seq!['"'] {
                assert(t@[0] == '"');
            }
            if t@ == seq!['`', '`'] {
                assert(t@[0] == '`' && t@[1] == '`');
            }
            if t@ == seq!['\'', '\''] {
                assert(t@[0] == '\'' && t@[1] == '\'');
            }
        }
        false
    }
}

fn requote_exec(toks: &Vec<Vec<char>>, marks: &Vec<Vec<char>>) -> (r: Option<Vec<Vec<char>>>)
    ensures
        match r {
            Some(w) => requote(char_views(toks@), char_views(marks@)) == Some(char_views(w@)),
            None => requote(char_views(toks@), char_views(marks@)) is None,
        },
{
    let ghost tv = char_views(toks@);
    let ghost mv = char_views(marks@);
    let ghost total = requote(tv, mv);
    let mut out: Vec<Vec<char>> = Vec::new();
    let mut i: usize = 0;
    let mut j: usize = 0;
    assert(tv.skip(0) =~= tv);
    assert(mv.skip(0) =~= mv);
    assert(char_views(out@) + Seq::<Seq<char>>::empty() =~= Seq::<Seq<char>>::empty());
    proof {
        match requote(tv, mv) {
            Some(rr) => {
                assert(Seq::<Seq<char>>::empty() + rr =~= rr);
            },
            None => {},
        }
    }
    while i < toks.len()
        invariant
            tv == char_views(toks@),
            mv == char_views(marks@),
            total == requote(tv, mv),
            i <= toks.len(),
            j <= marks.len(),
            total == prefixed(char_views(out@), requote(tv.skip(i as int), mv.skip(j as int))),
        decreases toks.len() - i,
    {
        let ghost ts = tv.skip(i as int);
        let ghost ms = mv.skip(j as int);
        let ghost before = char_views(out@);
        assert(ts[0] == toks@[i as int]@);
        assert(ts.drop_first() =~= tv.skip(i + 1));
        if is_quote_token_exec(&toks[i]) {
            if j >= marks.len() {
                assert(ms.len() == 0);
                assert(requote(ts, ms) is None);
                return None;
            }
            assert(ms[0] == marks@[j as int]@);
            assert(ms.drop_first() =~= mv.skip(j + 1));
            let m = copy_chars(&marks[j]);
            out.push(m);
            assert(char_views(out@) =~= before + seq![ms[0]]);
            proof {
                match requote(tv.skip(i + 1), mv.skip(j + 1)) {
                    Some(rr) => {
                        assert(before + (seq![ms[0]] + rr) =~= char_views(out@) + rr);
                    },
                    None => {},
                }
            }
            j = j + 1;
        } else {
            let m = copy_chars(&toks[i]);
            out.push(m);
            assert(char_views(out@) =~= before + seq![ts[0]]);
            proof {
                match requote(tv.skip(i + 1), mv.skip(j as int)) {
                    Some(rr) => {
                        assert(before + (seq![ts[0]] + rr) =~= char_views(out@) + rr);
                    },
                    None => {},
                }
            }
        }
        i = i + 1;
    }
    assert(tv.skip(i as int) =~= Seq::<Seq<char>>::empty());
    assert(char_views(out@) + Seq::<Seq<char>>::empty() =~= char_views(out@));
    Some(out)
}

} // verus!
