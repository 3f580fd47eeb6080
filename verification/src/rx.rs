//! Regular expressions, by the `regex` and `fancy_regex` crates.
//!
//! Each wrapper compiles its pattern and makes one call. What a regular
//! expression matches takes the crates' documentation to state, so the results
//! are named below; the wrappers say that each result is that name applied to
//! the pattern, the text and (for replacement) the replacement template.
use vstd::prelude::*;
use crate::text::{occurs_at, str_views};

verus! {

/// Whether `regex::Regex::new` accepts `pattern`.
pub uninterp spec fn regex_compiles(pattern: Seq<char>) -> bool;

/// `regex::Regex::replace_all`: every match of `pattern` in `text` replaced by the
/// expansion of the template `rep` (`$0`, `$1`, ... name the capture groups).
pub uninterp spec fn regex_replace_all(pattern: Seq<char>, text: Seq<char>, rep: Seq<char>) -> Seq<
    char,
>;

/// `regex::Regex::replace`: the first match of `pattern` replaced by the
/// expansion of `rep`.
pub uninterp spec fn regex_replace_first(pattern: Seq<char>, text: Seq<char>, rep: Seq<char>) -> Seq<
    char,
>;

/// `regex::Regex::find_iter`: the successive non-overlapping matches, as text.
pub uninterp spec fn regex_find_all(pattern: Seq<char>, text: Seq<char>) -> Seq<Seq<char>>;

/// `regex::Regex::split`: the pieces of `text` between the matches.
pub uninterp spec fn regex_split(pattern: Seq<char>, text: Seq<char>) -> Seq<Seq<char>>;

/// `regex::Regex::is_match`: whether `pattern` matches somewhere in `text`.
pub uninterp spec fn regex_is_match(pattern: Seq<char>, text: Seq<char>) -> bool;

/// Whether `fancy_regex::Regex::new` accepts `pattern`.
pub uninterp spec fn fancy_compiles(pattern: Seq<char>) -> bool;

/// `fancy_regex::Regex::find_iter`: for each successive match, its text, or
/// `None` where the search reported an error.
pub uninterp spec fn fancy_find_all(pattern: Seq<char>, text: Seq<char>) -> Seq<Option<Seq<char>>>;

/// `regex::Regex::new(pattern)` then `replace_all(text, rep)`; `None` exactly when
/// the pattern does not compile.
#[verifier::external_body]
pub(crate) fn re_replace_all(pattern: &str, text: &str, rep: &str) -> (r: Option<String>)
    ensures
        r is Some == regex_compiles(pattern@),
        r matches Some(o) ==> o@ == regex_replace_all(pattern@, text@, rep@),
{
    match regex::Regex::new(pattern) {
        Ok(re) => Some(re.replace_all(text, rep).into_owned()),
        Err(_) => None,
    }
}

/// `regex::Regex::new(pattern)` then `replace(text, rep)`; `None` exactly when the
/// pattern does not compile.
#[verifier::external_body]
pub(crate) fn re_replace_first(pattern: &str, text: &str, rep: &str) -> (r: Option<String>)
    ensures
        r is Some == regex_compiles(pattern@),
        r matches Some(o) ==> o@ == regex_replace_first(pattern@, text@, rep@),
{
    match regex::Regex::new(pattern) {
        Ok(re) => Some(re.replace(text, rep).into_owned()),
        Err(_) => None,
    }
}

/// `regex::Regex::new(pattern)` then `find_iter(text)`, each match as a string.
#[verifier::external_body]
pub(crate) fn re_find_all(pattern: &str, text: &str) -> (r: Option<Vec<String>>)
    ensures
        r is Some == regex_compiles(pattern@),
        r matches Some(v) ==> str_views(v@) == regex_find_all(pattern@, text@),
{
    match regex::Regex::new(pattern) {
        Ok(re) => Some(re.find_iter(text).map(|m| m.as_str().to_string()).collect()),
        Err(_) => None,
    }
}

/// `regex::Regex::new(pattern)` then `split(text)`, each piece as a string. The
/// pieces are the text between the matches that `find_iter` yields (the split
/// iterator runs the same search): one more piece than matches, and pieces and
/// matches in turn make up the text.
#[verifier::external_body]
pub(crate) fn re_split(pattern: &str, text: &str) -> (r: Option<Vec<String>>)
    ensures
        r is Some == regex_compiles(pattern@),
        r matches Some(v) ==> str_views(v@) == regex_split(pattern@, text@),
        r matches Some(v) ==> regex_split(pattern@, text@).len() == regex_find_all(
            pattern@,
            text@,
        ).len() + 1,
        r matches Some(v) ==> text_from(regex_split(pattern@, text@), regex_find_all(pattern@, text@), 0)
            == text@,
{
    match regex::Regex::new(pattern) {
        Ok(re) => Some(re.split(text).map(|p| p.to_string()).collect()),
        Err(_) => None,
    }
}

/// Whether `regex::Regex::new` accepts `pattern`.
#[verifier::external_body]
pub(crate) fn re_compiles(pattern: &str) -> (r: bool)
    ensures
        r == regex_compiles(pattern@),
{
    regex::Regex::new(pattern).is_ok()
}

/// `regex::Regex::new(pattern)` then `is_match(text)`.
#[verifier::external_body]
pub(crate) fn re_is_match(pattern: &str, text: &str) -> (r: Option<bool>)
    ensures
        r is Some == regex_compiles(pattern@),
        r matches Some(b) ==> b == regex_is_match(pattern@, text@),
{
    match regex::Regex::new(pattern) {
        Ok(re) => Some(re.is_match(text)),
        Err(_) => None,
    }
}

/// The pieces `ms` occur in `t` one after another without overlap: each at or
/// after `from` (the end of the one before), all ending by `end`.
pub open spec fn in_order_within(t: Seq<char>, ms: Seq<Seq<char>>, from: int, end: int) -> bool
    decreases ms.len(),
{
    if ms.len() == 0 {
        true
    } else {
        exists|st: int|
            from <= st && st + ms[0].len() <= end && #[trigger] occurs_at(t, st, ms[0])
                && in_order_within(t, ms.drop_first(), st + ms[0].len(), end)
    }
}

/// `fancy_regex::Regex::new(pattern)` then `find_iter(text)`: each match as a
/// string, `None` for an item on which the search reported an error. The
/// matches are successive pieces of the text: each search starts where the match
/// before ended, and the iterator stops after an error.
#[verifier::external_body]
pub(crate) fn fancy_find_iter(pattern: &str, text: &str) -> (r: Option<Vec<Option<String>>>)
    ensures
        r is Some == fancy_compiles(pattern@),
        r matches Some(v) ==> v@.map_values(|o: Option<String>| match o {
            Some(s) => Some(s@),
            None => None,
        }) == fancy_find_all(pattern@, text@),
        r matches Some(v) ==> in_order_within(
            text@,
            somes(fancy_find_all(pattern@, text@)),
            0,
            text@.len() as int,
        ),
{
    match fancy_regex::Regex::new(pattern) {
        Ok(re) => Some(re.find_iter(text).map(|m| m.ok().map(|m| m.as_str().to_string())).collect()),
        Err(_) => None,
    }
}

/// The text after piece `j - 1`: piece `j`, match `j`, piece `j + 1`, ...
pub open spec fn text_from(g: Seq<Seq<char>>, m: Seq<Seq<char>>, j: int) -> Seq<char>
    decreases g.len() - j,
{
    if j < 0 || j >= g.len() {
        seq![]
    } else {
        g[j] + (if j < m.len() {
            m[j]
        } else {
            seq![]
        }) + text_from(g, m, j + 1)
    }
}

// ---------------------------------------------------------------------------
// The rewrite steps the tokenizers are built from; a pattern that does not
// compile leaves the text as it is (every pattern in this library compiles).
// ---------------------------------------------------------------------------
/// Every match of `p` replaced by the expansion of `r`.
pub open spec fn rsub(p: Seq<char>, t: Seq<char>, r: Seq<char>) -> Seq<char> {
    if regex_compiles(p) {
        regex_replace_all(p, t, r)
    } else {
        t
    }
}

/// The first match of `p` replaced by the expansion of `r`.
pub open spec fn rsub_first(p: Seq<char>, t: Seq<char>, r: Seq<char>) -> Seq<char> {
    if regex_compiles(p) {
        regex_replace_first(p, t, r)
    } else {
        t
    }
}

/// The matches of `p` in `t` (none when `p` does not compile).
pub open spec fn rfind(p: Seq<char>, t: Seq<char>) -> Seq<Seq<char>> {
    if regex_compiles(p) {
        regex_find_all(p, t)
    } else {
        seq![]
    }
}

/// The pieces of `t` between matches of `p` (`t` whole when `p` does not compile).
pub open spec fn rsplit(p: Seq<char>, t: Seq<char>) -> Seq<Seq<char>> {
    if regex_compiles(p) {
        regex_split(p, t)
    } else {
        seq![t]
    }
}

/// Whether `p` matches in `t` (false when `p` does not compile).
pub open spec fn rmatch(p: Seq<char>, t: Seq<char>) -> bool {
    regex_compiles(p) && regex_is_match(p, t)
}

/// `t` with every match of `p` replaced by the expansion of `r`.
pub fn subst(p: &str, t: &str, r: &str) -> (o: String)
    ensures
        o@ == rsub(p@, t@, r@),
{
    match re_replace_all(p, t, r) {
        Some(o) => o,
        None => t.to_owned(),
    }
}

/// `t` with the first match of `p` replaced by the expansion of `r`.
pub fn subst_first(p: &str, t: &str, r: &str) -> (o: String)
    ensures
        o@ == rsub_first(p@, t@, r@),
{
    match re_replace_first(p, t, r) {
        Some(o) => o,
        None => t.to_owned(),
    }
}

/// The matches of `p` in `t`, left to right.
pub fn find_all(p: &str, t: &str) -> (o: Vec<String>)
    ensures
        str_views(o@) == rfind(p@, t@),
{
    match re_find_all(p, t) {
        Some(o) => o,
        None => {
            let v: Vec<String> = Vec::new();
            assert(str_views(v@) =~= Seq::<Seq<char>>::empty());
            v
        },
    }
}

/// The pieces of `t` between the matches of `p`; pieces and matches in turn
/// make up `t`.
pub fn split_by(p: &str, t: &str) -> (o: Vec<String>)
    ensures
        str_views(o@) == rsplit(p@, t@),
        rsplit(p@, t@).len() == rfind(p@, t@).len() + 1,
        text_from(rsplit(p@, t@), rfind(p@, t@), 0) == t@,
{
    match re_split(p, t) {
        Some(o) => o,
        None => {
            let mut v: Vec<String> = Vec::new();
            v.push(t.to_owned());
            assert(str_views(v@) =~= seq![t@]);
            assert(text_from(seq![t@], seq![], 1) =~= Seq::<char>::empty());
            assert(text_from(seq![t@], seq![], 0) =~= t@);
            v
        },
    }
}

/// Whether `p` matches somewhere in `t`.
pub fn is_match(p: &str, t: &str) -> (b: bool)
    ensures
        b == rmatch(p@, t@),
{
    match re_is_match(p, t) {
        Some(b) => b,
        None => false,
    }
}

/// The values of the items of `v` that are there, in order.
pub open spec fn somes(v: Seq<Option<Seq<char>>>) -> Seq<Seq<char>>
    decreases v.len(),
{
    if v.len() == 0 {
        seq![]
    } else {
        match v.last() {
            Some(x) => somes(v.drop_last()).push(x),
            None => somes(v.drop_last()),
        }
    }
}

/// The matches of the `fancy_regex` pattern `p` in `t` on which the search
/// reported no error (none when `p` does not compile).
pub open spec fn fancy_ok_matches(p: Seq<char>, t: Seq<char>) -> Seq<Seq<char>> {
    if fancy_compiles(p) {
        somes(fancy_find_all(p, t))
    } else {
        seq![]
    }
}

/// The matches of the `fancy_regex` pattern `p` in `t`, those on which the search
/// reported an error left out.
pub fn fancy_find_ok(p: &str, t: &str) -> (o: Vec<String>)
    ensures
        str_views(o@) == fancy_ok_matches(p@, t@),
        in_order_within(t@, fancy_ok_matches(p@, t@), 0, t@.len() as int),
{
    match fancy_find_iter(p, t) {
        Some(items) => {
            let ghost iv = items@.map_values(|o: Option<String>| match o {
                Some(s) => Some(s@),
                None => None,
            });
            let mut out: Vec<String> = Vec::new();
            let mut i: usize = 0;
            let mut items = items;
            let ghost all = items@;
            while i < items.len()
                invariant
                    items@ == all,
                    iv == all.map_values(|o: Option<String>| match o {
                        Some(s) => Some(s@),
                        None => None,
                    }),
                    i <= items.len(),
                    str_views(out@) == somes(iv.take(i as int)),
                decreases items.len() - i,
            {
                assert(iv.take(i + 1).drop_last() =~= iv.take(i as int));
                match &items[i] {
                    Some(s) => {
                        let ghost before = str_views(out@);
                        out.push(s.clone());
                        assert(str_views(out@) =~= before.push(s@));
                    },
                    None => {},
                }
                i = i + 1;
            }
            assert(iv.take(items.len() as int) =~= iv);
            out
        },
        None => {
            let v: Vec<String> = Vec::new();
            assert(str_views(v@) =~= Seq::<Seq<char>>::empty());
            v
        },
    }
}

} // verus!
