//! Twitter-aware tokenizer: HTML entities decoded, handles optionally removed,
//! lengthened words optionally shortened, then tokens matched by one regular
//! expression built from the pieces below (URLs, phone numbers, emoticons, HTML
//! tags, arrows, handles, hashtags, emails, emoji, flags, words).
use vstd::prelude::*;
use crate::api::{spans_view, TokenizerI};
use crate::destructive::{align_tokens, alignment, try_align_tokens};
use crate::rx::{find_all, is_match, rfind, rmatch, rsplit, split_by};
use crate::text::{
    alphanumeric, ascii_alnum, char_from_u32, chars_of, chars_of_all, contains_char,
    contains_chars, contains_seq, is_alphanumeric, is_ascii_alnum, is_scalar_value, lowercase,
    push_all, replace_chars, replace_seq, str_views, string_of, strings_of, to_lowercase,
};

verus! {

// ---------------------------------------------------------------------------
// Patterns
// ---------------------------------------------------------------------------
pub const NUMERIC_ENTITY: &'static str = "&#(x?)([0-9a-fA-F]+);";

pub const HANDLE: &'static str = r"@\w{1,15}\b";

pub const EMOTICON: &'static str = r"(?i)(?:[<>]?[:;=8][\-o\*']?[\)\]\(\[dDpP/:\}\{@\|\\]|[\)\]\(\[dDpP/:\}\{@\|\\][\-o\*']?[:;=8][<>]?|</?3)";

pub const P_EMOTICONS: &'static str = r"(?:[<>]?[:;=8][\-o\*']?[\)\]\(\[dDpP/:\}\{@\|\\]|[\)\]\(\[dDpP/:\}\{@\|\\][\-o\*']?[:;=8][<>]?|</?3)";

pub const P_URLS: &'static str = r"(?:https?://[^\s<>\[\]{}()]+|[a-z0-9]+(?:[.\-][a-z0-9]+)*\.[a-z]{2,13}\b/?(?:[^\s()<>{}\[\]]+)?)";

pub const P_PHONE: &'static str = r"(?:\+?[01][ *\-.)]*\(?\d{3}[ *\-.)]*\d{3}[ *\-.)]*\d{4})";

pub const P_HTML_TAGS: &'static str = r"<[^>\s]+>";

pub const P_ARROWS: &'static str = r"[\-]+>|<[\-]+";

pub const P_HANDLES: &'static str = r"@[\w_]+";

pub const P_HASHTAGS: &'static str = r"\#+[\w_]+[\w'_\-]*[\w_]+";

pub const P_EMAILS: &'static str = r"[\w.+\-]+@[\w\-]+\.(?:[\w\-]\.?)+[\w\-]";

pub const P_FLAGS: &'static str = r"(?:[\u{1F1E6}-\u{1F1FF}]{2})";

pub const P_ZWJ_EMOJI: &'static str = r"(?:(?:.\u{200d}.)+|[\u{1F3FB}-\u{1F3FF}])";

pub const P_WORDS: &'static str = r"(?:[^\W\d_](?:[^\W\d_]|['\-_])+[^\W\d_]|[+\-]?\d+[,/.:-]\d+[+\-]?|[\w_]+|\.(?:\s*\.){1,}|\S)";

// ---------------------------------------------------------------------------
// Splicing replacements between the pieces of a regex split
// ---------------------------------------------------------------------------
/// `g[0] + r[0] + g[1] + r[1] + ...`: the pieces between matches with the
/// replacement of each match put back in its place.
pub open spec fn interleave(g: Seq<Seq<char>>, r: Seq<Seq<char>>) -> Seq<char>
    decreases g.len(),
{
    if g.len() == 0 {
        seq![]
    } else {
        let last = g.len() - 1;
        interleave(g.drop_last(), r) + (if 0 < last && last - 1 < r.len() {
            r[last - 1] + g[last]
        } else {
            g[last]
        })
    }
}

// ---------------------------------------------------------------------------
// HTML entities
// ---------------------------------------------------------------------------
/// The named entities the casual tokenizer decodes, replaced in this order.
pub open spec fn named_entities(s: Seq<char>) -> Seq<char> {
    let s = replace_seq(s, "&amp;"@, "&"@);
    let s = replace_seq(s, "&lt;"@, "<"@);
    let s = replace_seq(s, "&gt;"@, ">"@);
    let s = replace_seq(s, "&quot;"@, "\""@);
    let s = replace_seq(s, "&apos;"@, "'"@);
    let s = replace_seq(s, "&#39;"@, "'"@);
    let s = replace_seq(s, "&#34;"@, "\""@);
    let s = replace_seq(s, "&nbsp;"@, "\u{00A0}"@);
    let s = replace_seq(s, "&pound;"@, "\u{00A3}"@);
    let s = replace_seq(s, "&copy;"@, "\u{00A9}"@);
    let s = replace_seq(s, "&reg;"@, "\u{00AE}"@);
    let s = replace_seq(s, "&euro;"@, "\u{20AC}"@);
    let s = replace_seq(s, "&mdash;"@, "\u{2014}"@);
    let s = replace_seq(s, "&ndash;"@, "\u{2013}"@);
    let s = replace_seq(s, "&hellip;"@, "\u{2026}"@);
    let s = replace_seq(s, "&ldquo;"@, "\u{201C}"@);
    let s = replace_seq(s, "&rdquo;"@, "\u{201D}"@);
    let s = replace_seq(s, "&lsquo;"@, "\u{2018}"@);
    let s = replace_seq(s, "&rsquo;"@, "\u{2019}"@);
    let s = replace_seq(s, "&laquo;"@, "\u{00AB}"@);
    replace_seq(s, "&raquo;"@, "\u{00BB}"@)
}

/// The Windows-1252 characters of bytes `0x80..=0x9F` (`0xFFFD`: undefined).
pub open spec fn cp1252(k: int) -> u32 {
    seq![
        0x20ACu32, 0xFFFD, 0x201A, 0x0192, 0x201E, 0x2026, 0x2020, 0x2021,
        0x02C6, 0x2030, 0x0160, 0x2039, 0x0152, 0xFFFD, 0x017D, 0xFFFD,
        0xFFFD, 0x2018, 0x2019, 0x201C, 0x201D, 0x2022, 0x2013, 0x2014,
        0x02DC, 0x2122, 0x0161, 0x203A, 0x0153, 0xFFFD, 0x017E, 0x0178,
    ][k]
}

/// The text a numeric character reference decodes to: browsers' Windows-1252
/// reading for `0x80..=0x9F`, the character itself for other scalar values,
/// nothing otherwise.
pub open spec fn code_text(n: u32) -> Seq<char> {
    if 0x80 <= n && n <= 0x9F {
        let cp = cp1252(n - 0x80);
        if cp == 0xFFFD {
            seq![]
        } else {
            seq![cp as char]
        }
    } else if is_scalar_value(n) {
        seq![n as char]
    } else {
        seq![]
    }
}

pub open spec fn digit_value(c: char) -> int {
    if '0' <= c && c <= '9' {
        c as int - '0' as int
    } else if 'a' <= c && c <= 'z' {
        c as int - 'a' as int + 10
    } else if 'A' <= c && c <= 'Z' {
        c as int - 'A' as int + 10
    } else {
        36
    }
}

/// The number written by the digits `d` in `base`.
pub open spec fn digits_value(d: Seq<char>, base: int) -> int
    decreases d.len(),
{
    if d.len() == 0 {
        0
    } else {
        digits_value(d.drop_last(), base) * base + digit_value(d.last())
    }
}

/// `u32::from_str_radix(d, base)` for digit strings: a non-empty run of valid
/// digits whose value fits in a `u32`.
pub open spec fn parse_u32(d: Seq<char>, base: int) -> Option<u32> {
    if d.len() > 0 && (forall|i: int| 0 <= i < d.len() ==> #[trigger] digit_value(d[i]) < base)
        && digits_value(d, base) <= u32::MAX {
        Some(digits_value(d, base) as u32)
    } else {
        None
    }
}

/// What a match of `&#(x?)([0-9a-fA-F]+);` is replaced by.
pub open spec fn numeric_entity(m: Seq<char>) -> Seq<char> {
    let body = if m.len() >= 3 {
        m.subrange(2, m.len() - 1)
    } else {
        seq![]
    };
    let hex = body.len() > 0 && body[0] == 'x';
    let digits = if hex {
        body.drop_first()
    } else {
        body
    };
    match parse_u32(digits, if hex { 16 } else { 10 }) {
        Some(n) => code_text(n),
        None => seq![],
    }
}

/// HTML entity decoding: named entities first, then numeric references.
pub open spec fn html_unescape_spec(text: Seq<char>) -> Seq<char> {
    if !text.contains('&') {
        text
    } else {
        let s = named_entities(text);
        if !contains_seq(s, "&#"@) {
            s
        } else {
            interleave(
                rsplit(NUMERIC_ENTITY@, s),
                rfind(NUMERIC_ENTITY@, s).map_values(|m: Seq<char>| numeric_entity(m)),
            )
        }
    }
}

fn rep(s: &Vec<char>, pat: &str, r: &str) -> (o: Vec<char>)
    ensures
        o@ == replace_seq(s@, pat@, r@),
{
    let p = chars_of(pat);
    let q = chars_of(r);
    replace_chars(s, &p, &q)
}

fn named_entities_chars(s: &Vec<char>) -> (o: Vec<char>)
    ensures
        o@ == named_entities(s@),
{
    let s = rep(s, "&amp;", "&");
    let s = rep(&s, "&lt;", "<");
    let s = rep(&s, "&gt;", ">");
    let s = rep(&s, "&quot;", "\"");
    let s = rep(&s, "&apos;", "'");
    let s = rep(&s, "&#39;", "'");
    let s = rep(&s, "&#34;", "\"");
    let s = rep(&s, "&nbsp;", "\u{00A0}");
    let s = rep(&s, "&pound;", "\u{00A3}");
    let s = rep(&s, "&copy;", "\u{00A9}");
    let s = rep(&s, "&reg;", "\u{00AE}");
    let s = rep(&s, "&euro;", "\u{20AC}");
    let s = rep(&s, "&mdash;", "\u{2014}");
    let s = rep(&s, "&ndash;", "\u{2013}");
    let s = rep(&s, "&hellip;", "\u{2026}");
    let s = rep(&s, "&ldquo;", "\u{201C}");
    let s = rep(&s, "&rdquo;", "\u{201D}");
    let s = rep(&s, "&lsquo;", "\u{2018}");
    let s = rep(&s, "&rsquo;", "\u{2019}");
    let s = rep(&s, "&laquo;", "\u{00AB}");
    rep(&s, "&raquo;", "\u{00BB}")
}

fn digit_of(c: char) -> (d: u32)
    ensures
        d == digit_value(c),
{
    if '0' <= c && c <= '9' {
        (c as u32) - ('0' as u32)
    } else if 'a' <= c && c <= 'z' {
        (c as u32) - ('a' as u32) + 10
    } else if 'A' <= c && c <= 'Z' {
        (c as u32) - ('A' as u32) + 10
    } else {
        36
    }
}

proof fn lemma_digits_value_nonneg(d: Seq<char>, base: int)
    requires
        base >= 1,
    ensures
        digits_value(d, base) >= 0,
    decreases d.len(),
{
    if d.len() > 0 {
        lemma_digits_value_nonneg(d.drop_last(), base);
        assert(digits_value(d.drop_last(), base) * base >= 0) by (nonlinear_arith)
            requires
                digits_value(d.drop_last(), base) >= 0,
                base >= 1,
        ;
    }
}

/// A longer digit string is worth at least as much as its prefix.
proof fn lemma_digits_value_mono(d: Seq<char>, k: int, base: int)
    requires
        base >= 1,
        0 <= k <= d.len(),
    ensures
        digits_value(d.take(k), base) <= digits_value(d, base),
    decreases d.len() - k,
{
    if k < d.len() {
        lemma_digits_value_mono(d, k + 1, base);
        assert(d.take(k + 1).drop_last() =~= d.take(k));
        lemma_digits_value_nonneg(d.take(k), base);
        let v = digits_value(d.take(k), base);
        assert(v * base >= v) by (nonlinear_arith)
            requires
                v >= 0,
                base >= 1,
        ;
    } else {
        assert(d.take(k) =~= d);
    }
}

/// `u32::from_str_radix` on a digit string.
fn parse_digits(d: &Vec<char>, base: u32) -> (r: Option<u32>)
    requires
        base == 10 || base == 16,
    ensures
        r == parse_u32(d@, base as int),
{
    if d.len() == 0 {
        return None;
    }
    let mut v: u64 = 0;
    let mut i: usize = 0;
    while i < d.len()
        invariant
            base == 10 || base == 16,
            i <= d.len(),
            v == digits_value(d@.take(i as int), base as int),
            v <= u32::MAX,
            forall|j: int| 0 <= j < i ==> #[trigger] digit_value(d@[j]) < base,
        decreases d.len() - i,
    {
        let dg = digit_of(d[i]);
        if dg >= base {
            assert(!(forall|j: int| 0 <= j < d@.len() ==> #[trigger] digit_value(d@[j]) < base));
            return None;
        }
        assert(d@.take(i + 1).drop_last() =~= d@.take(i as int));
        assert(v * (base as u64) + (dg as u64) <= 0xFFFF_FFFFu64 * 16 + 15) by (nonlinear_arith)
            requires
                v <= 0xFFFF_FFFFu64,
                base <= 16,
                dg < 16,
        ;
        v = v * (base as u64) + (dg as u64);
        i = i + 1;
        if v > 0xFFFF_FFFFu64 {
            proof {
                lemma_digits_value_mono(d@, i as int, base as int);
            }
            return None;
        }
    }
    assert(d@.take(d@.len() as int) =~= d@);
    Some(v as u32)
}

/// The character a Windows-1252 byte in `0x80..=0x9F` stands for.
fn cp1252_code(k: usize) -> (cp: u32)
    requires
        k < 32,
    ensures
        cp == cp1252(k as int),
{
    let table: [u32; 32] = [
        0x20AC, 0xFFFD, 0x201A, 0x0192, 0x201E, 0x2026, 0x2020, 0x2021,
        0x02C6, 0x2030, 0x0160, 0x2039, 0x0152, 0xFFFD, 0x017D, 0xFFFD,
        0xFFFD, 0x2018, 0x2019, 0x201C, 0x201D, 0x2022, 0x2013, 0x2014,
        0x02DC, 0x2122, 0x0161, 0x203A, 0x0153, 0xFFFD, 0x017E, 0x0178,
    ];
    assert(table@ =~= seq![
        0x20ACu32, 0xFFFD, 0x201A, 0x0192, 0x201E, 0x2026, 0x2020, 0x2021,
        0x02C6, 0x2030, 0x0160, 0x2039, 0x0152, 0xFFFD, 0x017D, 0xFFFD,
        0xFFFD, 0x2018, 0x2019, 0x201C, 0x201D, 0x2022, 0x2013, 0x2014,
        0x02DC, 0x2122, 0x0161, 0x203A, 0x0153, 0xFFFD, 0x017E, 0x0178,
    ]);
    table[k]
}

fn code_text_chars(n: u32) -> (r: Vec<char>)
    ensures
        r@ == code_text(n),
{
    let mut r: Vec<char> = Vec::new();
    if 0x80 <= n && n <= 0x9F {
        let cp = cp1252_code((n - 0x80) as usize);
        if cp != 0xFFFD {
            match char_from_u32(cp) {
                Some(c) => {
                    r.push(c);
                },
                None => {},
            }
            assert(r@ =~= seq![cp as char]);
        }
    } else {
        match char_from_u32(n) {
            Some(c) => {
                r.push(c);
                assert(r@ =~= seq![n as char]);
            },
            None => {},
        }
    }
    assert(r@ =~= code_text(n));
    r
}

fn numeric_entity_chars(m: &Vec<char>) -> (r: Vec<char>)
    ensures
        r@ == numeric_entity(m@),
{
    let body = if m.len() >= 3 {
        crate::text::slice_chars(m, 2, m.len() - 1)
    } else {
        Vec::new()
    };
    assert(m.len() < 3 ==> body@ =~= Seq::<char>::empty());
    let hex = body.len() > 0 && body[0] == 'x';
    let digits = if hex {
        crate::text::slice_chars(&body, 1, body.len())
    } else {
        body
    };
    proof {
        if hex {
            assert(digits@ =~= body@.drop_first());
        }
    }
    match parse_digits(&digits, if hex { 16 } else { 10 }) {
        Some(n) => code_text_chars(n),
        None => {
            let e: Vec<char> = Vec::new();
            assert(e@ =~= Seq::<char>::empty());
            e
        },
    }
}

/// Decodes the HTML entities of `text`: named entities first, then numeric references.
fn html_unescape(text: &str) -> (r: String)
    ensures
        r@ == html_unescape_spec(text@),
{
    let t = chars_of(text);
    if !contains_char(&t, '&') {
        return string_of(t.as_slice());
    }
    let s = named_entities_chars(&t);
    let amp_hash = chars_of("&#");
    if !contains_chars(&s, &amp_hash) {
        return string_of(s.as_slice());
    }
    let st = string_of(s.as_slice());
    let pieces = split_by(NUMERIC_ENTITY, st.as_str());
    let ms = find_all(NUMERIC_ENTITY, st.as_str());
    let ghost mv = str_views(ms@);
    let ghost gv = str_views(pieces@);
    let ghost rv = mv.map_values(|m: Seq<char>| numeric_entity(m));
    let mut out: Vec<char> = Vec::new();
    for i in 0..pieces.len()
        invariant
            gv == str_views(pieces@),
            mv == str_views(ms@),
            rv == mv.map_values(|m: Seq<char>| numeric_entity(m)),
            out@ == interleave(gv.take(i as int), rv),
    {
        let ghost before = out@;
        assert(gv.take(i + 1).drop_last() =~= gv.take(i as int));
        if i > 0 && i - 1 < ms.len() {
            let mc = chars_of(ms[i - 1].as_str());
            let r = numeric_entity_chars(&mc);
            push_all(&mut out, &r);
            let pc = chars_of(pieces[i].as_str());
            push_all(&mut out, &pc);
            assert(out@ =~= before + (rv[i - 1] + gv[i as int]));
        } else {
            let pc = chars_of(pieces[i].as_str());
            push_all(&mut out, &pc);
        }
        assert(out@ =~= interleave(gv.take(i + 1), rv));
    }
    assert(gv.take(pieces.len() as int) =~= gv);
    string_of(out.as_slice())
}

// ---------------------------------------------------------------------------
// Lengthening and hanging punctuation
// ---------------------------------------------------------------------------
/// Runs of a repeated character shortened to three: `prev` is the previous input
/// character and `run` how many times in a row it has occurred; with `all` false
/// only characters other than ASCII letters and digits are shortened.
pub open spec fn cap_runs(t: Seq<char>, prev: Option<char>, run: nat, all: bool) -> Seq<char>
    decreases t.len(),
{
    if t.len() == 0 {
        seq![]
    } else {
        let c = t[0];
        let run2: nat = if prev == Some(c) {
            run + 1
        } else {
            1
        };
        let keep = run2 <= 3 || (!all && ascii_alnum(c));
        (if keep {
            seq![c]
        } else {
            seq![]
        }) + cap_runs(t.drop_first(), Some(c), run2, all)
    }
}

/// `(.)\1{2,}` replaced by three of the character.
pub open spec fn reduce_lengthening_spec(t: Seq<char>) -> Seq<char> {
    cap_runs(t, None, 0, true)
}

/// Four or more of one character other than an ASCII letter or digit reduced to three.
pub open spec fn collapse_hang_spec(t: Seq<char>) -> Seq<char> {
    cap_runs(t, None, 0, false)
}

fn cap_runs_chars(t: &Vec<char>, all: bool) -> (r: Vec<char>)
    ensures
        r@ == cap_runs(t@, None, 0, all),
{
    let mut out: Vec<char> = Vec::new();
    let mut prev: Option<char> = None;
    let mut run: usize = 0;
    let mut i: usize = 0;
    assert(t@.skip(0) =~= t@);
    while i < t.len()
        invariant
            i <= t.len(),
            run <= i,
            out@ + cap_runs(t@.skip(i as int), prev, run as nat, all) == cap_runs(t@, None, 0, all),
        decreases t.len() - i,
    {
        let c = t[i];
        let ghost o = out@;
        assert(t@.skip(i as int).drop_first() =~= t@.skip(i + 1));
        let run2: usize = if prev == Some(c) {
            run + 1
        } else {
            1
        };
        if run2 <= 3 || (!all && is_ascii_alnum(c)) {
            out.push(c);
            assert(out@ =~= o + seq![c]);
        } else {
            assert(o + (Seq::<char>::empty() + cap_runs(t@.skip(i + 1), Some(c), run2 as nat, all))
                =~= o + cap_runs(t@.skip(i + 1), Some(c), run2 as nat, all));
        }
        prev = Some(c);
        run = run2;
        i = i + 1;
    }
    assert(out@ + cap_runs(t@.skip(i as int), prev, run as nat, all) =~= out@);
    out
}

/// Shortens every run of three or more of one character to exactly three.
fn reduce_lengthening(text: &str) -> (r: String)
    ensures
        r@ == reduce_lengthening_spec(text@),
{
    let t = chars_of(text);
    let o = cap_runs_chars(&t, true);
    string_of(o.as_slice())
}

/// Shortens every run of four or more of one non-alphanumeric character to three.
fn collapse_hang(text: &str) -> (r: String)
    ensures
        r@ == collapse_hang_spec(text@),
{
    let t = chars_of(text);
    let o = cap_runs_chars(&t, false);
    string_of(o.as_slice())
}

// ---------------------------------------------------------------------------
// Handles
// ---------------------------------------------------------------------------
/// A handle may start after `pre`: at the start of the text, or after a
/// character that is neither alphanumeric nor one of `_!@#$%&*`.
pub open spec fn handle_can_start(pre: Seq<char>) -> bool {
    pre.len() == 0 || {
        let p = pre.last();
        !alphanumeric(p) && !(p == '_' || p == '!' || p == '@' || p == '#' || p == '$' || p == '%'
            || p == '&' || p == '*')
    }
}

/// The pieces `g[i..]` and matches `m[i..]` of `@\w{1,15}\b` put back together,
/// every match that can start a handle (given the text `pre` before piece `i`)
/// replaced by one space.
pub open spec fn handles_from(g: Seq<Seq<char>>, m: Seq<Seq<char>>, i: int, pre: Seq<char>) -> Seq<
    char,
>
    decreases g.len() - i,
{
    if i < 0 || i >= g.len() {
        seq![]
    } else if i < m.len() {
        let pre2 = pre + g[i];
        g[i] + (if handle_can_start(pre2) {
            seq![' ']
        } else {
            m[i]
        }) + handles_from(g, m, i + 1, pre2 + m[i])
    } else {
        g[i] + handles_from(g, m, i + 1, pre + g[i])
    }
}

/// Handles (`@` and up to 15 word characters) replaced by a space.
pub open spec fn remove_handles_spec(text: Seq<char>) -> Seq<char> {
    handles_from(rsplit(HANDLE@, text), rfind(HANDLE@, text), 0, seq![])
}

fn handle_can_start_exec(pre: &Vec<char>) -> (b: bool)
    ensures
        b == handle_can_start(pre@),
{
    if pre.len() == 0 {
        return true;
    }
    let p = pre[pre.len() - 1];
    !is_alphanumeric(p) && !(p == '_' || p == '!' || p == '@' || p == '#' || p == '$' || p == '%'
        || p == '&' || p == '*')
}

/// Replaces each Twitter handle in `text` by a space.
fn remove_handles(text: &str) -> (r: String)
    ensures
        r@ == remove_handles_spec(text@),
{
    let pieces = split_by(HANDLE, text);
    let ms = find_all(HANDLE, text);
    let ghost g = str_views(pieces@);
    let ghost m = str_views(ms@);
    let mut out: Vec<char> = Vec::new();
    let mut pre: Vec<char> = Vec::new();
    let mut i: usize = 0;
    while i < pieces.len()
        invariant
            g == str_views(pieces@),
            m == str_views(ms@),
            i <= pieces.len(),
            out@ + handles_from(g, m, i as int, pre@) == handles_from(g, m, 0, seq![]),
        decreases pieces.len() - i,
    {
        let ghost o = out@;
        let ghost p0 = pre@;
        let pc = chars_of(pieces[i].as_str());
        push_all(&mut out, &pc);
        push_all(&mut pre, &pc);
        if i < ms.len() {
            let mc = chars_of(ms[i].as_str());
            if handle_can_start_exec(&pre) {
                out.push(' ');
            } else {
                push_all(&mut out, &mc);
            }
            push_all(&mut pre, &mc);
            assert(out@ + handles_from(g, m, i + 1, pre@) =~= o + handles_from(g, m, i as int, p0));
        } else {
            assert(out@ + handles_from(g, m, i + 1, pre@) =~= o + handles_from(g, m, i as int, p0));
        }
        i = i + 1;
    }
    assert(out@ + handles_from(g, m, i as int, pre@) =~= out@);
    string_of(out.as_slice())
}

// ---------------------------------------------------------------------------
// The token pattern
// ---------------------------------------------------------------------------
/// The alternatives of the token pattern, in the order they are tried.
pub open spec fn word_pattern_parts(match_phone: bool) -> Seq<Seq<char>> {
    if match_phone {
        seq![P_URLS@, P_PHONE@, P_EMOTICONS@, P_HTML_TAGS@, P_ARROWS@, P_HANDLES@, P_HASHTAGS@,
            P_EMAILS@, P_ZWJ_EMOJI@, P_FLAGS@, P_WORDS@]
    } else {
        seq![P_URLS@, P_EMOTICONS@, P_HTML_TAGS@, P_ARROWS@, P_HANDLES@, P_HASHTAGS@,
            P_EMAILS@, P_ZWJ_EMOJI@, P_FLAGS@, P_WORDS@]
    }
}

/// The token pattern: its alternatives joined by `|`, in one group.
pub open spec fn word_pattern(match_phone: bool) -> Seq<char> {
    seq!['('] + crate::text::join_seq(word_pattern_parts(match_phone), seq!['|']) + seq![')']
}

/// Builds the token pattern, with or without the phone-number alternative.
fn build_word_pattern(match_phone: bool) -> (r: String)
    ensures
        r@ == word_pattern(match_phone),
{
    let mut parts: Vec<Vec<char>> = Vec::new();
    parts.push(chars_of(P_URLS));
    if match_phone {
        parts.push(chars_of(P_PHONE));
    }
    parts.push(chars_of(P_EMOTICONS));
    parts.push(chars_of(P_HTML_TAGS));
    parts.push(chars_of(P_ARROWS));
    parts.push(chars_of(P_HANDLES));
    parts.push(chars_of(P_HASHTAGS));
    parts.push(chars_of(P_EMAILS));
    parts.push(chars_of(P_ZWJ_EMOJI));
    parts.push(chars_of(P_FLAGS));
    parts.push(chars_of(P_WORDS));
    assert(crate::text::char_views(parts@) =~= word_pattern_parts(match_phone));
    let bar = vec!['|'];
    assert(bar@ =~= seq!['|']);
    let body = crate::text::join_chars(&parts, &bar);
    let mut out: Vec<char> = vec!['('];
    push_all(&mut out, &body);
    out.push(')');
    assert(out@ =~= word_pattern(match_phone));
    string_of(out.as_slice())
}

// ---------------------------------------------------------------------------
// The tokenizer
// ---------------------------------------------------------------------------
pub struct TweetTokenizer {
    pub preserve_case: bool,
    pub reduce_len: bool,
    pub strip_handles: bool,
    pub match_phone_numbers: bool,
}

/// The tokens of a tweet: entities decoded, handles removed (`strip_handles`),
/// lengthening reduced (`reduce_len`), hanging punctuation collapsed, then the
/// matches of the token pattern; without `preserve_case` every token but an
/// emoticon is lowercased.
pub open spec fn tweet_tokens(
    text: Seq<char>,
    preserve_case: bool,
    reduce_len: bool,
    strip_handles: bool,
    match_phone: bool,
) -> Seq<Seq<char>> {
    let s1 = html_unescape_spec(text);
    let s2 = if strip_handles {
        remove_handles_spec(s1)
    } else {
        s1
    };
    let s3 = if reduce_len {
        reduce_lengthening_spec(s2)
    } else {
        s2
    };
    let words = rfind(word_pattern(match_phone), collapse_hang_spec(s3));
    if preserve_case {
        words
    } else {
        words.map_values(
            |w: Seq<char>|
                if rmatch(EMOTICON@, w) {
                    w
                } else {
                    lowercase(w)
                },
        )
    }
}

/// Without `preserve_case` the tokens are those with it, one for one: an
/// emoticon is kept exactly as written and every other token is lowercased.
pub proof fn lemma_case_folding_keeps_emoticons(
    text: Seq<char>,
    reduce_len: bool,
    strip_handles: bool,
    match_phone: bool,
)
    ensures
        ({
            let kept = tweet_tokens(text, true, reduce_len, strip_handles, match_phone);
            let folded = tweet_tokens(text, false, reduce_len, strip_handles, match_phone);
            &&& folded.len() == kept.len()
            &&& forall|i: int|
                0 <= i < kept.len() ==> (rmatch(EMOTICON@, #[trigger] kept[i]) ==> folded[i] == kept[i])
                    && (!rmatch(EMOTICON@, kept[i]) ==> folded[i] == lowercase(kept[i]))
        }),
{
}

impl TweetTokenizer {
    pub fn new(preserve_case: bool, reduce_len: bool, strip_handles: bool, match_phone_numbers: bool) -> (r: Self)
        ensures
            r == (TweetTokenizer { preserve_case, reduce_len, strip_handles, match_phone_numbers }),
    {
        TweetTokenizer { preserve_case, reduce_len, strip_handles, match_phone_numbers }
    }

    pub open spec fn tokens(&self, text: Seq<char>) -> Seq<Seq<char>> {
        tweet_tokens(text, self.preserve_case, self.reduce_len, self.strip_handles,
            self.match_phone_numbers)
    }

    /// Tokenizes a tweet.
    pub fn tokenize(&self, text: &str) -> (r: Vec<String>)
        ensures
            str_views(r@) == self.tokens(text@),
    {
        let mut s = html_unescape(text);
        if self.strip_handles {
            s = remove_handles(s.as_str());
        }
        if self.reduce_len {
            s = reduce_lengthening(s.as_str());
        }
        let safe = collapse_hang(s.as_str());
        let pat = build_word_pattern(self.match_phone_numbers);
        let words = find_all(pat.as_str(), safe.as_str());
        if self.preserve_case {
            return words;
        }
        let ghost wv = str_views(words@);
        let mut out: Vec<String> = Vec::new();
        for i in 0..words.len()
            invariant
                wv == str_views(words@),
                out.len() == i,
                forall|j: int|
                    0 <= j < i ==> #[trigger] out@[j]@ == (if rmatch(EMOTICON@, wv[j]) {
                        wv[j]
                    } else {
                        lowercase(wv[j])
                    }),
        {
            let w = &words[i];
            if is_match(EMOTICON, w.as_str()) {
                out.push(string_of(chars_of(w.as_str()).as_slice()));
            } else {
                out.push(to_lowercase(w.as_str()));
            }
        }
        assert(str_views(out@) =~= self.tokens(text@));
        out
    }
}

impl Default for TweetTokenizer {
    /// Case preserved, no length reduction, handles kept, phone numbers matched.
    fn default() -> (r: Self)
        ensures
            r == (TweetTokenizer {
                preserve_case: true,
                reduce_len: false,
                strip_handles: false,
                match_phone_numbers: true,
            }),
    {
        TweetTokenizer {
            preserve_case: true,
            reduce_len: false,
            strip_handles: false,
            match_phone_numbers: true,
        }
    }

}

impl TweetTokenizer {
    /// The token spans, or `None` where some token is not found in `s` after the
    /// one before it.
    pub fn try_span_tokenize(&self, s: &str) -> (r: Option<Vec<(usize, usize)>>)
        ensures
            r is Some <==> alignment(self.tokens(s@), s@) is Some,
            r matches Some(v) ==> spans_view(v@) == alignment(self.tokens(s@), s@).unwrap(),
    {
        let toks = self.tokenize(s);
        if try_align_tokens(toks.as_slice(), s).is_some() {
            Some(TokenizerI::span_tokenize(self, s))
        } else {
            None
        }
    }
}

impl TokenizerI for TweetTokenizer {
    open spec fn accepts(&self, s: Seq<char>) -> bool {
        true
    }

    open spec fn tokens_of(&self, s: Seq<char>) -> Seq<Seq<char>> {
        self.tokens(s)
    }

    open spec fn spans_ok(&self, s: Seq<char>) -> bool {
        alignment(self.tokens(s), s) is Some
    }

    open spec fn spans_of(&self, s: Seq<char>) -> Seq<(int, int)> {
        alignment(self.tokens(s), s).unwrap()
    }

    fn tokenize(&self, s: &str) -> (r: Vec<String>) {
        TweetTokenizer::tokenize(self, s)
    }

    fn span_tokenize(&self, s: &str) -> (r: Vec<(usize, usize)>) {
        let toks = TweetTokenizer::tokenize(self, s);
        align_tokens(toks.as_slice(), s)
    }
}

/// Tokenizes `text` with a `TweetTokenizer` of the given settings.
pub fn casual_tokenize(
    text: &str,
    preserve_case: bool,
    reduce_len: bool,
    strip_handles: bool,
    match_phone_numbers: bool,
) -> (r: Vec<String>)
    ensures
        str_views(r@) == tweet_tokens(text@, preserve_case, reduce_len, strip_handles, match_phone_numbers),
{
    TweetTokenizer::new(preserve_case, reduce_len, strip_handles, match_phone_numbers).tokenize(text)
}


/// No character of `s` appears four or more times in a row.
pub open spec fn no_run_of_four(s: Seq<char>) -> bool {
    forall|i: int| 0 <= i && i + 3 < s.len() ==> !(#[trigger] s[i] == s[i + 1] && s[i + 1] == s[i + 2] && s[i + 2] == s[i + 3])
}

/// `n` copies of `c`.
pub open spec fn copies(c: char, n: nat) -> Seq<char> {
    Seq::new(n, |i: int| c)
}

/// The last characters emitted before the rest of the text: at most three
/// copies of the previous character.
pub open spec fn emitted_tail(prev: Option<char>, run: nat) -> Seq<char> {
    match prev {
        Some(p) => copies(p, if run <= 3 { run } else { 3 }),
        None => seq![],
    }
}

proof fn lemma_cap_runs_no_four(t: Seq<char>, prev: Option<char>, run: nat)
    requires
        prev is None ==> run == 0,
        prev is Some ==> run >= 1,
    ensures
        no_run_of_four(emitted_tail(prev, run) + cap_runs(t, prev, run, true)),
    decreases t.len(),
{
    let pre = emitted_tail(prev, run);
    if t.len() == 0 {
        assert(pre + cap_runs(t, prev, run, true) =~= pre);
        assert(pre.len() <= 3);
    } else {
        let c = t[0];
        let run2: nat = if prev == Some(c) { run + 1 } else { 1 };
        let rest = cap_runs(t.drop_first(), Some(c), run2, true);
        lemma_cap_runs_no_four(t.drop_first(), Some(c), run2);
        let pre2 = emitted_tail(Some(c), run2);
        if prev == Some(c) {
            if run2 <= 3 {
                assert(pre + seq![c] + rest =~= pre2 + rest);
                assert(pre + cap_runs(t, prev, run, true) =~= pre + seq![c] + rest);
            } else {
                assert(pre =~= pre2);
                assert(pre + cap_runs(t, prev, run, true) =~= pre2 + rest);
            }
        } else {
            let all = pre + cap_runs(t, prev, run, true);
            let tail = pre2 + rest;
            assert(pre2 =~= seq![c]);
            assert(all =~= pre + tail);
            assert forall|i: int| 0 <= i && i + 3 < all.len() implies !(#[trigger] all[i] == all[i + 1] && all[i + 1] == all[i + 2] && all[i + 2] == all[i + 3]) by {
                if i >= pre.len() {
                    let j = i - pre.len();
                    assert(all[i] == tail[j]);
                    assert(all[i + 1] == tail[j + 1]);
                    assert(all[i + 2] == tail[j + 2]);
                    assert(all[i + 3] == tail[j + 3]);
                } else {
                    match prev {
                        Some(p) => {
                            assert(pre.len() <= 3);
                            assert(all[i] == p);
                            assert(all[pre.len() as int] == c);
                            if pre.len() == i + 1 {
                                assert(all[i + 1] == c);
                            } else if pre.len() == i + 2 {
                                assert(all[i + 2] == c);
                                assert(all[i + 1] == p);
                            } else {
                                assert(all[i + 3] == c || i + 3 < pre.len());
                                assert(all[i + 1] == p);
                                assert(all[i + 2] == p);
                            }
                        },
                        None => {},
                    }
                }
            }
        }
    }
}

/// Reducing lengthening leaves no character four or more times in a row.
pub proof fn lemma_reduce_lengthening_runs(t: Seq<char>)
    ensures
        no_run_of_four(reduce_lengthening_spec(t)),
{
    lemma_cap_runs_no_four(t, None, 0);
    assert(emitted_tail(None, 0) + cap_runs(t, None, 0, true) =~= reduce_lengthening_spec(t));
}

} // verus!
