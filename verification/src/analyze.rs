//! Document analysis beside the diff core: per-file statistics, heuristic
//! language detection, order-preserving deduplication, and token estimation.

use vstd::prelude::*;

use crate::byte_len;
use crate::text::{chars_of, split_lines, split_lines_spec, views_of};

verus! {

/// Unicode White_Space, the set `char::is_whitespace` recognises: the ASCII
/// spacing characters, NEL, and the non-ASCII space and separator characters.
pub open spec fn is_space(c: char) -> bool {
    let u = c as u32;
    u == 0x20 || (0x09 <= u && u <= 0x0d) || u == 0x85 || u == 0xa0 || u == 0x1680 || (0x2000 <= u
        && u <= 0x200a) || u == 0x2028 || u == 0x2029 || u == 0x202f || u == 0x205f || u == 0x3000
}

/// Decides `is_space`.
fn space_char(c: char) -> (r: bool)
    ensures
        r == is_space(c),
{
    let u = c as u32;
    u == 0x20 || (0x09 <= u && u <= 0x0d) || u == 0x85 || u == 0xa0 || u == 0x1680 || (0x2000 <= u
        && u <= 0x200a) || u == 0x2028 || u == 0x2029 || u == 0x202f || u == 0x205f || u == 0x3000
}

/// How many maximal nonspace runs a character sequence holds.
pub open spec fn word_count(s: Seq<char>) -> nat
    decreases s.len(),
{
    if s.len() == 0 {
        0
    } else {
        word_count(s.drop_last()) + if !is_space(s.last()) && (s.len() == 1 || is_space(
            s[s.len() - 2],
        )) {
            1nat
        } else {
            0nat
        }
    }
}

pub proof fn lemma_word_count_le(s: Seq<char>)
    ensures
        word_count(s) <= s.len(),
    decreases s.len(),
{
    if s.len() > 0 {
        lemma_word_count_le(s.drop_last());
    }
}

/// A line of nothing but whitespace.
pub open spec fn is_blank(s: Seq<char>) -> bool {
    forall|t: int| 0 <= t < s.len() ==> is_space(#[trigger] s[t])
}

/// The sequence with its leading whitespace removed.
pub open spec fn trim_start(s: Seq<char>) -> Seq<char>
    decreases s.len(),
{
    if s.len() == 0 {
        s
    } else if is_space(s[0]) {
        trim_start(s.drop_first())
    } else {
        s
    }
}

/// Whether `s` begins with `p`.
pub open spec fn starts_with(s: Seq<char>, p: Seq<char>) -> bool {
    p.len() <= s.len() && s.take(p.len() as int) == p
}

/// A line whose first nonspace characters open a comment.
pub open spec fn is_comment(s: Seq<char>) -> bool {
    let t = trim_start(s);
    starts_with(t, seq!['/', '/']) || starts_with(t, seq!['#']) || starts_with(t, seq!['/', '*'])
}

/// How many lines of the list are blank.
pub open spec fn blank_count(ls: Seq<Seq<char>>) -> nat
    decreases ls.len(),
{
    if ls.len() == 0 {
        0
    } else {
        blank_count(ls.drop_last()) + if is_blank(ls.last()) {
            1nat
        } else {
            0nat
        }
    }
}

/// How many lines of the list open a comment.
pub open spec fn comment_count(ls: Seq<Seq<char>>) -> nat
    decreases ls.len(),
{
    if ls.len() == 0 {
        0
    } else {
        comment_count(ls.drop_last()) + if is_comment(ls.last()) {
            1nat
        } else {
            0nat
        }
    }
}

proof fn lemma_split_len(s: Seq<char>)
    ensures
        split_lines_spec(s).len() <= s.len(),
    decreases s.len(),
{
    if s.len() >= 2 {
        lemma_split_len(s.drop_first());
        lemma_split_len(s.skip(2));
    } else if s.len() > 0 {
        lemma_split_len(s.drop_first());
    }
}

proof fn lemma_trim_skip(s: Seq<char>, q: int)
    requires
        0 <= q <= s.len(),
        forall|t: int| 0 <= t < q ==> is_space(#[trigger] s[t]),
        q == s.len() || !is_space(s[q]),
    ensures
        trim_start(s) == s.skip(q),
    decreases q,
{
    if q == 0 {
        assert(s.skip(0) =~= s);
    } else {
        assert(is_space(s[0]));
        lemma_trim_skip(s.drop_first(), q - 1);
        assert(s.drop_first().skip(q - 1) =~= s.skip(q));
    }
}

/// Simple counts over one document.
#[derive(Debug)]
pub struct FileStats {
    pub lines: i32,
    pub chars: i32,
    pub words: i32,
    pub blank_lines: i32,
    pub comment_lines: i32,
}

fn count_words(s: &Vec<char>) -> (r: usize)
    ensures
        r == word_count(s@),
{
    let mut w: usize = 0;
    let mut p: usize = 0;
    proof {
        lemma_word_count_le(s@);
    }
    while p < s.len()
        invariant
            p <= s@.len(),
            w == word_count(s@.take(p as int)),
            w <= p,
        decreases s@.len() - p,
    {
        let c = s[p];
        let space_now = space_char(c);
        let after_space = if p == 0 {
            true
        } else {
            space_char(s[p - 1])
        };
        proof {
            assert(s@.take(p as int + 1).drop_last() =~= s@.take(p as int));
            assert(s@.take(p as int + 1).last() == s@[p as int]);
            lemma_word_count_le(s@.take(p as int));
        }
        if !space_now && after_space {
            w += 1;
        }
        p += 1;
    }
    proof {
        assert(s@.take(s@.len() as int) =~= s@);
    }
    w
}

fn line_is_blank(line: &Vec<char>) -> (r: bool)
    ensures
        r == is_blank(line@),
{
    let mut t: usize = 0;
    while t < line.len()
        invariant
            t <= line@.len(),
            forall|w: int| 0 <= w < t ==> is_space(#[trigger] line@[w]),
        decreases line@.len() - t,
    {
        if !space_char(line[t]) {
            return false;
        }
        t += 1;
    }
    true
}

fn line_is_comment(line: &Vec<char>) -> (r: bool)
    ensures
        r == is_comment(line@),
{
    let mut q: usize = 0;
    loop
        invariant
            q <= line@.len(),
            forall|w: int| 0 <= w < q ==> is_space(#[trigger] line@[w]),
        ensures
            q <= line@.len(),
            forall|w: int| 0 <= w < q ==> is_space(#[trigger] line@[w]),
            q == line@.len() || !is_space(line@[q as int]),
        decreases line@.len() - q,
    {
        if q >= line.len() {
            break ;
        }
        if !space_char(line[q]) {
            break ;
        }
        q += 1;
    }
    proof {
        lemma_trim_skip(line@, q as int);
    }
    let ghost t = trim_start(line@);
    if q < line.len() {
        let c0 = line[q];
        if c0 == '#' {
            proof {
                assert(t.take(1) =~= seq!['#']);
            }
            return true;
        }
        if c0 == '/' && q + 1 < line.len() {
            let c1 = line[q + 1];
            if c1 == '/' {
                proof {
                    assert(t.take(2) =~= seq!['/', '/']);
                }
                return true;
            }
            if c1 == '*' {
                proof {
                    assert(t.take(2) =~= seq!['/', '*']);
                }
                return true;
            }
        }
        proof {
            assert(t[0] == line@[q as int]);
            if starts_with(t, seq!['#']) {
                assert(t.take(1)[0] == t[0]);
                assert(seq!['#'][0] == '#');
            }
            if starts_with(t, seq!['/', '/']) {
                assert(t.take(2)[0] == t[0]);
                assert(t.take(2)[1] == t[1]);
                assert(t[1] == line@[q as int + 1]);
            }
            if starts_with(t, seq!['/', '*']) {
                assert(t.take(2)[0] == t[0]);
                assert(t.take(2)[1] == t[1]);
                assert(t[1] == line@[q as int + 1]);
            }
        }
        return false;
    } else {
        proof {
            assert(t.len() == 0);
        }
        return false;
    }
}

/// Counts lines, bytes, words, blank lines and comment-opening lines of one
/// document in a single pass over its lines.
pub fn calculate_file_stats(content: String) -> (r: FileStats)
    requires
        byte_len(content@) <= 0x7fff_ffff,
    ensures
        r.lines == split_lines_spec(content@).len(),
        r.chars == byte_len(content@),
        r.words == word_count(content@),
        r.blank_lines == blank_count(split_lines_spec(content@)),
        r.comment_lines == comment_count(split_lines_spec(content@)),
{
    let n = crate::byte_length(content.as_str());
    let cs = chars_of(content.as_str());
    let la = split_lines(&cs);
    let ghost sl = split_lines_spec(content@);
    proof {
        crate::text::lemma_byte_len_bounds(content@);
        lemma_split_len(content@);
        lemma_word_count_le(content@);
    }
    let words = count_words(&cs);
    let mut blank: usize = 0;
    let mut comment: usize = 0;
    let mut t: usize = 0;
    while t < la.len()
        invariant
            t <= la@.len(),
            crate::align::line_views(la@) == sl,
            sl.len() == la@.len(),
            blank == blank_count(sl.take(t as int)),
            comment == comment_count(sl.take(t as int)),
            blank <= t,
            comment <= t,
        decreases la@.len() - t,
    {
        proof {
            assert(sl.take(t as int + 1).drop_last() =~= sl.take(t as int));
            assert(sl.take(t as int + 1).last() == sl[t as int]);
            assert(la@[t as int]@ == sl[t as int]);
        }
        if line_is_blank(&la[t]) {
            blank += 1;
        }
        if line_is_comment(&la[t]) {
            comment += 1;
        }
        t += 1;
    }
    proof {
        assert(sl.take(sl.len() as int) =~= sl);
    }
    FileStats {
        lines: la.len() as i32,
        chars: n as i32,
        words: words as i32,
        blank_lines: blank as i32,
        comment_lines: comment as i32,
    }
}

/// Whether `p` occurs in `s` as a contiguous run.
pub open spec fn contains_sub(s: Seq<char>, p: Seq<char>) -> bool {
    exists|k: int| 0 <= k <= s.len() - p.len() && #[trigger] s.subrange(k, k + p.len() as int) == p
}

/// Whether `s` ends with `p`.
pub open spec fn ends_with(s: Seq<char>, p: Seq<char>) -> bool {
    p.len() <= s.len() && s.subrange(s.len() - p.len(), s.len() as int) == p
}

fn chars_match_at(s: &Vec<char>, p: &Vec<char>, k: usize) -> (r: bool)
    requires
        k + p@.len() <= s@.len(),
    ensures
        r == (s@.subrange(k as int, k as int + p@.len() as int) == p@),
{
    let n = s.len();
    let mut t: usize = 0;
    while t < p.len()
        invariant
            t <= p@.len(),
            n == s@.len(),
            k + p@.len() <= s@.len(),
            forall|w: int| 0 <= w < t ==> s@[k + w] == p@[w],
        decreases p@.len() - t,
    {
        if s[k + t] != p[t] {
            proof {
                assert(s@.subrange(k as int, k as int + p@.len() as int)[t as int] == s@[k + t]);
            }
            return false;
        }
        t += 1;
    }
    proof {
        assert(s@.subrange(k as int, k as int + p@.len() as int) =~= p@);
    }
    true
}

/// Decides substring occurrence by scanning every start position.
pub fn chars_contains(s: &Vec<char>, p: &Vec<char>) -> (r: bool)
    ensures
        r == contains_sub(s@, p@),
{
    if p.len() > s.len() {
        return false;
    }
    if p.len() == 0 {
        proof {
            assert(s@.subrange(0, 0 + p@.len() as int) =~= p@);
            assert(contains_sub(s@, p@));
        }
        return true;
    }
    let n = s.len();
    let mut k: usize = 0;
    while k <= s.len() - p.len()
        invariant
            n == s@.len(),
            1 <= p@.len() <= s@.len(),
            k <= s@.len() - p@.len() + 1,
            forall|w: int|
                0 <= w < k ==> #[trigger] s@.subrange(w, w + p@.len() as int) != p@,
        decreases s@.len() - p@.len() + 1 - k,
    {
        if chars_match_at(s, p, k) {
            return true;
        }
        k += 1;
    }
    false
}

/// Decides the suffix test.
pub fn chars_ends_with(s: &Vec<char>, p: &Vec<char>) -> (r: bool)
    ensures
        r == ends_with(s@, p@),
{
    if p.len() > s.len() {
        return false;
    }
    chars_match_at(s, p, s.len() - p.len())
}

/// The language a filename's extension announces, if any.
pub open spec fn ext_language(name: Seq<char>) -> Option<Seq<char>> {
    if ends_with(name, ".rs"@) {
        Some("rust"@)
    } else if ends_with(name, ".js"@) || ends_with(name, ".jsx"@) {
        Some("javascript"@)
    } else if ends_with(name, ".ts"@) || ends_with(name, ".tsx"@) {
        Some("typescript"@)
    } else if ends_with(name, ".py"@) {
        Some("python"@)
    } else if ends_with(name, ".go"@) {
        Some("go"@)
    } else if ends_with(name, ".java"@) {
        Some("java"@)
    } else if ends_with(name, ".cpp"@) || ends_with(name, ".cc"@) || ends_with(name, ".cxx"@) {
        Some("cpp"@)
    } else if ends_with(name, ".c"@) || ends_with(name, ".h"@) {
        Some("c"@)
    } else {
        None
    }
}

/// The language the content's own idioms suggest.
pub open spec fn content_language(content: Seq<char>) -> Seq<char> {
    if contains_sub(content, "fn main()"@) || contains_sub(content, "impl "@) {
        "rust"@
    } else if contains_sub(content, "def "@) && contains_sub(content, "import "@) {
        "python"@
    } else if contains_sub(content, "function "@) || contains_sub(content, "const "@)
        || contains_sub(content, "=>"@) {
        "javascript"@
    } else if contains_sub(content, "package main"@) {
        "go"@
    } else {
        "unknown"@
    }
}

/// The detected language: the extension table first, content heuristics as
/// the fallback, `unknown` as the default.
pub open spec fn detect_spec(content: Seq<char>, filename: Option<Seq<char>>) -> Seq<char> {
    match filename {
        Some(name) => match ext_language(name) {
            Some(l) => l,
            None => content_language(content),
        },
        None => content_language(content),
    }
}

fn ends_with_lit(name: &Vec<char>, p: &str) -> (r: bool)
    ensures
        r == ends_with(name@, p@),
{
    let pv = chars_of(p);
    chars_ends_with(name, &pv)
}

fn contains_lit(content: &Vec<char>, p: &str) -> (r: bool)
    ensures
        r == contains_sub(content@, p@),
{
    let pv = chars_of(p);
    chars_contains(content, &pv)
}

/// Names the language of a document from its filename's extension where one
/// is given and known, else from substring heuristics over the content.
pub fn detect_language(content: String, filename: Option<String>) -> (r: String)
    ensures
        r@ == detect_spec(
            content@,
            match filename {
                Some(f) => Some(f@),
                None => None::<Seq<char>>,
            },
        ),
{
    match &filename {
        Some(name) => {
            let nc = chars_of(name.as_str());
            if ends_with_lit(&nc, ".rs") {
                return "rust".to_owned();
            }
            if ends_with_lit(&nc, ".js") || ends_with_lit(&nc, ".jsx") {
                return "javascript".to_owned();
            }
            if ends_with_lit(&nc, ".ts") || ends_with_lit(&nc, ".tsx") {
                return "typescript".to_owned();
            }
            if ends_with_lit(&nc, ".py") {
                return "python".to_owned();
            }
            if ends_with_lit(&nc, ".go") {
                return "go".to_owned();
            }
            if ends_with_lit(&nc, ".java") {
                return "java".to_owned();
            }
            if ends_with_lit(&nc, ".cpp") || ends_with_lit(&nc, ".cc") || ends_with_lit(
                &nc,
                ".cxx",
            ) {
                return "cpp".to_owned();
            }
            if ends_with_lit(&nc, ".c") || ends_with_lit(&nc, ".h") {
                return "c".to_owned();
            }
        },
        None => {},
    }
    let cc = chars_of(content.as_str());
    if contains_lit(&cc, "fn main()") || contains_lit(&cc, "impl ") {
        return "rust".to_owned();
    }
    if contains_lit(&cc, "def ") && contains_lit(&cc, "import ") {
        return "python".to_owned();
    }
    if contains_lit(&cc, "function ") || contains_lit(&cc, "const ") || contains_lit(&cc, "=>") {
        return "javascript".to_owned();
    }
    if contains_lit(&cc, "package main") {
        return "go".to_owned();
    }
    "unknown".to_owned()
}

/// The input with later repetitions of an already-seen string removed; the
/// first occurrence keeps its place.
pub open spec fn dedup_spec(s: Seq<Seq<char>>) -> Seq<Seq<char>>
    decreases s.len(),
{
    if s.len() == 0 {
        Seq::empty()
    } else {
        let pre = dedup_spec(s.drop_last());
        if pre.contains(s.last()) {
            pre
        } else {
            pre.push(s.last())
        }
    }
}

fn vec_contains_string(out: &Vec<String>, x: &String) -> (r: bool)
    ensures
        r == views_of(out@).contains(x@),
{
    let mut w: usize = 0;
    while w < out.len()
        invariant
            w <= out@.len(),
            forall|t: int| 0 <= t < w ==> views_of(out@)[t] != x@,
        decreases out@.len() - w,
    {
        if out[w] == *x {
            proof {
                assert(views_of(out@)[w as int] == x@);
            }
            return true;
        }
        w += 1;
    }
    proof {
        if views_of(out@).contains(x@) {
            let t = choose|t: int|
                0 <= t < views_of(out@).len() && views_of(out@)[t] == x@;
            assert(views_of(out@)[t] != x@);
        }
    }
    false
}

/// Keeps each distinct string's first occurrence, in input order.
pub fn deduplicate_strings(strings: Vec<String>) -> (r: Vec<String>)
    ensures
        views_of(r@) == dedup_spec(views_of(strings@)),
{
    let mut out: Vec<String> = Vec::new();
    let mut t: usize = 0;
    proof {
        assert(views_of(strings@.take(0)) =~= Seq::<Seq<char>>::empty());
    }
    while t < strings.len()
        invariant
            t <= strings@.len(),
            views_of(out@) == dedup_spec(views_of(strings@.take(t as int))),
        decreases strings@.len() - t,
    {
        proof {
            assert(views_of(strings@.take(t as int + 1)).drop_last() =~= views_of(
                strings@.take(t as int),
            ));
            assert(views_of(strings@.take(t as int + 1)).last() == strings@[t as int]@);
        }
        if !vec_contains_string(&out, &strings[t]) {
            let ghost pre = views_of(out@);
            let s = strings[t].clone();
            out.push(s);
            proof {
                assert(views_of(out@) =~= pre.push(strings@[t as int]@));
            }
        }
        t += 1;
    }
    proof {
        assert(views_of(strings@.take(strings@.len() as int)) =~= views_of(strings@));
    }
    out
}

/// Estimates a token count as the exact rational form of averaging
/// `words * 1.3` with a quarter of the byte count, rounded up:
/// `ceil((26 * words + 5 * bytes) / 40)`.
pub fn estimate_tokens(text: String) -> (r: i32)
    requires
        byte_len(text@) <= 0x7fff_ffff,
    ensures
        r == (26 * word_count(text@) + 5 * byte_len(text@) + 39) / 40,
{
    let n = crate::byte_length(text.as_str());
    let cs = chars_of(text.as_str());
    let words = count_words(&cs);
    proof {
        crate::text::lemma_byte_len_bounds(text@);
        lemma_word_count_le(text@);
    }
    let est = (26u64 * (words as u64) + 5u64 * (n as u64) + 39u64) / 40u64;
    est as i32
}

} // verus!
