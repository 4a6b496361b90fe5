//! Regex-backed pattern search and function-name extraction. The regex
//! engine is called through trusted wrappers; everything around the calls is
//! verified.

use vstd::prelude::*;

use crate::align::chars_eq;
use crate::text::{chars_of, views_of};

verus! {

/// Whether `regex::Regex::new` accepts a pattern; a function of the pattern
/// text alone.
pub uninterp spec fn regex_compiles(p: Seq<char>) -> bool;

/// How many non-overlapping matches `regex::Regex::find_iter` yields for a
/// pattern over a haystack; a function of the two texts alone.
pub uninterp spec fn regex_match_count(p: Seq<char>, t: Seq<char>) -> nat;

/// The text of capture group one of each match of a pattern over a haystack,
/// in match order, matches without that group skipped; a function of the two
/// texts alone.
pub uninterp spec fn regex_first_groups(p: Seq<char>, t: Seq<char>) -> Seq<Seq<char>>;

/// Relies on `regex::Regex::new`, whose success depends on the pattern
/// alone, and `regex::Regex::find_iter`, whose matches are a function of
/// pattern and haystack.
#[verifier::external_body]
fn regex_count(pattern: &str, content: &str) -> (r: Option<usize>)
    ensures
        r is Some <==> regex_compiles(pattern@),
        r matches Some(n) ==> n == regex_match_count(pattern@, content@),
{
    match regex::Regex::new(pattern) {
        Ok(re) => Some(re.find_iter(content).count()),
        Err(_) => None,
    }
}

/// Relies on `regex::Regex::new` and `regex::Regex::captures_iter`: each
/// match's capture group one, taken in match order, is a function of pattern
/// and haystack.
#[verifier::external_body]
fn regex_group_names(pattern: &str, content: &str) -> (r: Option<Vec<String>>)
    ensures
        r is Some <==> regex_compiles(pattern@),
        r matches Some(v) ==> views_of(v@) == regex_first_groups(pattern@, content@),
{
    match regex::Regex::new(pattern) {
        Ok(re) => Some(
            re.captures_iter(content).filter_map(
                |c| c.get(1).map(|m| m.as_str().to_string()),
            ).collect(),
        ),
        Err(_) => None,
    }
}

/// The search report: one `(pattern, count)` entry per compilable pattern,
/// in input order; patterns the engine rejects are skipped.
pub open spec fn searched_spec(content: Seq<char>, pats: Seq<Seq<char>>) -> Seq<(Seq<char>, nat)>
    decreases pats.len(),
{
    if pats.len() == 0 {
        Seq::empty()
    } else {
        let pre = searched_spec(content, pats.drop_last());
        if regex_compiles(pats.last()) {
            pre.push((pats.last(), regex_match_count(pats.last(), content)))
        } else {
            pre
        }
    }
}

/// Counts each pattern's matches over the content; a pattern that does not
/// compile is skipped and the rest proceed.
pub fn search_patterns(content: String, patterns: Vec<String>) -> (r: Vec<(String, usize)>)
    ensures
        ({
            let recs = searched_spec(content@, views_of(patterns@));
            r@.len() == recs.len() && forall|t: int|
                0 <= t < recs.len() ==> (#[trigger] r@[t]).0@ == recs[t].0 && r@[t].1 == recs[t].1
        }),
{
    let mut out: Vec<(String, usize)> = Vec::new();
    let mut t: usize = 0;
    let ghost pats = views_of(patterns@);
    proof {
        assert(views_of(patterns@.take(0)) =~= Seq::<Seq<char>>::empty());
    }
    while t < patterns.len()
        invariant
            t <= patterns@.len(),
            pats == views_of(patterns@),
            ({
                let recs = searched_spec(content@, views_of(patterns@.take(t as int)));
                out@.len() == recs.len() && forall|w: int|
                    0 <= w < recs.len() ==> (#[trigger] out@[w]).0@ == recs[w].0 && out@[w].1
                        == recs[w].1
            }),
        decreases patterns@.len() - t,
    {
        proof {
            assert(views_of(patterns@.take(t as int + 1)).drop_last() =~= views_of(
                patterns@.take(t as int),
            ));
            assert(views_of(patterns@.take(t as int + 1)).last() == patterns@[t as int]@);
        }
        match regex_count(patterns[t].as_str(), content.as_str()) {
            Some(n) => {
                let p = patterns[t].clone();
                out.push((p, n));
            },
            None => {},
        }
        t += 1;
    }
    proof {
        assert(views_of(patterns@.take(patterns@.len() as int)) =~= views_of(patterns@));
    }
    out
}

/// The fixed signature pattern a supported language tag selects.
pub open spec fn language_pattern(lang: Seq<char>) -> Option<Seq<char>> {
    if lang == "javascript"@ || lang == "typescript"@ {
        Some(r"(?m)^\s*(?:function|const|let|var)\s+(\w+)\s*[=\(]"@)
    } else if lang == "python"@ {
        Some(r"(?m)^\s*def\s+(\w+)\s*\("@)
    } else if lang == "rust"@ {
        Some(r"(?m)^\s*(?:pub\s+)?fn\s+(\w+)\s*[<\(]"@)
    } else if lang == "go"@ {
        Some(r"(?m)^\s*func\s+(?:\([^)]*\)\s+)?(\w+)\s*\("@)
    } else {
        None
    }
}

fn str_eq_lit(a: &str, b: &str) -> (r: bool)
    ensures
        r == (a@ == b@),
{
    let av = chars_of(a);
    let bv = chars_of(b);
    chars_eq(&av, &bv)
}

/// Extracts function names from code via the supported language's fixed
/// pattern: capture group one of each match, in order. An unsupported tag
/// yields nothing.
pub fn extract_functions(content: String, language: String) -> (r: Vec<String>)
    ensures
        language_pattern(language@) is None ==> r@.len() == 0,
        language_pattern(language@) matches Some(p) ==> if regex_compiles(p) {
            views_of(r@) == regex_first_groups(p, content@)
        } else {
            r@.len() == 0
        },
{
    let pat: &str;
    if str_eq_lit(language.as_str(), "javascript") || str_eq_lit(language.as_str(), "typescript") {
        pat = r"(?m)^\s*(?:function|const|let|var)\s+(\w+)\s*[=\(]";
    } else if str_eq_lit(language.as_str(), "python") {
        pat = r"(?m)^\s*def\s+(\w+)\s*\(";
    } else if str_eq_lit(language.as_str(), "rust") {
        pat = r"(?m)^\s*(?:pub\s+)?fn\s+(\w+)\s*[<\(]";
    } else if str_eq_lit(language.as_str(), "go") {
        pat = r"(?m)^\s*func\s+(?:\([^)]*\)\s+)?(\w+)\s*\(";
    } else {
        return Vec::new();
    }
    match regex_group_names(pat, content.as_str()) {
        Some(v) => v,
        None => Vec::new(),
    }
}

} // verus!
