//! Structural text diffing: minimal edit scripts between token sequences,
//! change classification, unified-diff rendering, similarity scoring, and
//! batched comparison with per-item results.

pub mod align;
pub mod analyze;
pub mod patterns;
pub mod text;
pub mod unified;

use vstd::prelude::*;

use crate::align::{
    align_chars, align_lines, count_kind, diff_script, lemma_count_kind_total,
    lemma_diff_script_counts, lemma_script_self, line_views, source_count, target_count,
    trimmed_within, EditKind,
};
use crate::text::{chars_of, chars_to_string, dec_chars, dec_rep, split_lines, split_lines_spec};
use crate::unified::{push_chars, unified_spec, unified_text};

verus! {

/// A failure local to one comparison; other items of a batch are unaffected.
/// Inputs arrive as already-valid strings, and a search pattern that does not
/// compile is skipped rather than reported, so resource exhaustion is the one
/// failure a comparison can produce.
#[derive(Clone, Copy, Debug, PartialEq, Eq, Structural)]
pub enum DiffError {
    /// An input pair is too large for the bounded alignment path.
    ResourceExceeded,
}

/// The outcome of one comparison.
#[derive(Debug)]
pub struct DiffResult {
    pub diff_size: i32,
    pub is_significant: bool,
    pub summary: String,
    pub lines_added: i32,
    pub lines_removed: i32,
    pub chars_added: i32,
    pub chars_deleted: i32,
    pub after_content: String,
    pub unified_diff: Option<String>,
}

/// One changed line: its 1-based position in the edit script, whether it was
/// inserted or deleted, and its content.
pub struct LineChange {
    pub line_number: i32,
    pub change_type: String,
    pub content: String,
}

/// The UTF-8 byte length of a character sequence.
pub open spec fn byte_len(s: Seq<char>) -> nat {
    vstd::utf8::encode_utf8(s).len()
}

/// The significance threshold that a call works with.
pub open spec fn effective_threshold(threshold: Option<i32>) -> int {
    match threshold {
        Some(t) => t as int,
        None => 10,
    }
}

/// Whether a call renders unified-diff text.
pub open spec fn effective_unified(include_unified: Option<bool>) -> bool {
    match include_unified {
        Some(b) => b,
        None => false,
    }
}

/// The one-line summary of a byte-length change.
pub open spec fn summary_spec(n1: int, n2: int) -> Seq<char> {
    if n2 > n1 {
        seq!['+'] + dec_rep((n2 - n1) as nat) + " chars"@
    } else if n1 > n2 {
        seq!['-'] + dec_rep((n1 - n2) as nat) + " chars"@
    } else {
        "no change"@
    }
}

/// Whether both sides of a pair fit the bounded alignment: the changed
/// middle of the two line lists, after their shared prefix and suffix, must
/// fit the table, and the line counts must fit the results' positions.
pub open spec fn within_bounds(t1: Seq<char>, t2: Seq<char>) -> bool {
    trimmed_within(split_lines_spec(t1), split_lines_spec(t2))
}

/// Whether a document's byte length fits the 32-bit counters of the result.
pub open spec fn fits_i32(t: Seq<char>) -> bool {
    byte_len(t) <= 0x7fff_ffff
}

/// Everything a successful comparison promises: sizes and counts come from
/// the byte lengths and the canonical edit script of the two line lists, the
/// summary renders the byte delta, and the unified text is present exactly
/// when asked for.
pub open spec fn diff_result_matches(
    d: DiffResult,
    t1: Seq<char>,
    t2: Seq<char>,
    threshold: int,
    include_unified: bool,
) -> bool {
    let n1 = byte_len(t1) as int;
    let n2 = byte_len(t2) as int;
    let la = split_lines_spec(t1);
    let lb = split_lines_spec(t2);
    let ops = diff_script(la, lb);
    &&& d.diff_size == if n2 >= n1 {
        n2 - n1
    } else {
        n1 - n2
    }
    &&& d.is_significant == (d.diff_size >= threshold)
    &&& d.lines_added == count_kind(ops, EditKind::Insert)
    &&& d.lines_removed == count_kind(ops, EditKind::Delete)
    &&& d.chars_added == if n2 > n1 {
        n2 - n1
    } else {
        0
    }
    &&& d.chars_deleted == if n1 > n2 {
        n1 - n2
    } else {
        0
    }
    &&& d.summary@ == summary_spec(n1, n2)
    &&& d.after_content@ == t2
    &&& (include_unified ==> (d.unified_diff matches Some(u) && u@ == unified_spec(ops, la, lb)))
    &&& (!include_unified ==> d.unified_diff is None)
}

fn count_script(ops: &Vec<EditKind>) -> (r: (usize, usize, usize))
    ensures
        r.0 == count_kind(ops@, EditKind::Equal),
        r.1 == count_kind(ops@, EditKind::Delete),
        r.2 == count_kind(ops@, EditKind::Insert),
{
    let mut eq: usize = 0;
    let mut del: usize = 0;
    let mut ins: usize = 0;
    let mut t: usize = 0;
    while t < ops.len()
        invariant
            t <= ops@.len(),
            eq == count_kind(ops@.take(t as int), EditKind::Equal),
            del == count_kind(ops@.take(t as int), EditKind::Delete),
            ins == count_kind(ops@.take(t as int), EditKind::Insert),
            eq + del + ins == t,
        decreases ops@.len() - t,
    {
        proof {
            assert(ops@.take(t as int + 1).drop_last() =~= ops@.take(t as int));
            assert(ops@.take(t as int + 1).last() == ops@[t as int]);
        }
        match ops[t] {
            EditKind::Equal => {
                eq += 1;
            },
            EditKind::Delete => {
                del += 1;
            },
            EditKind::Insert => {
                ins += 1;
            },
        }
        t += 1;
    }
    proof {
        assert(ops@.take(ops@.len() as int) =~= ops@);
    }
    (eq, del, ins)
}

pub(crate) fn byte_length(s: &str) -> (r: usize)
    requires
        byte_len(s@) <= 0x7fff_ffff,
    ensures
        r == byte_len(s@),
{
    s.len()
}

fn render_summary(n1: usize, n2: usize) -> (r: String)
    ensures
        r@ == summary_spec(n1 as int, n2 as int),
{
    if n2 > n1 {
        let mut v: Vec<char> = Vec::new();
        v.push('+');
        let d = dec_chars(n2 - n1);
        push_chars(&mut v, &d);
        v.push(' ');
        v.push('c');
        v.push('h');
        v.push('a');
        v.push('r');
        v.push('s');
        proof {
            reveal_strlit(" chars");
            assert(v@ =~= summary_spec(n1 as int, n2 as int));
        }
        chars_to_string(&v)
    } else if n1 > n2 {
        let mut v: Vec<char> = Vec::new();
        v.push('-');
        let d = dec_chars(n1 - n2);
        push_chars(&mut v, &d);
        v.push(' ');
        v.push('c');
        v.push('h');
        v.push('a');
        v.push('r');
        v.push('s');
        proof {
            reveal_strlit(" chars");
            assert(v@ =~= summary_spec(n1 as int, n2 as int));
        }
        chars_to_string(&v)
    } else {
        "no change".to_owned()
    }
}

/// Compares two documents line by line: byte-delta sizes, a significance
/// verdict against the threshold (ten when none is given), line counts from
/// the canonical edit script, a summary, and optionally unified-diff text.
/// Pairs beyond the bounded alignment size are rejected, never mis-reported.
pub fn calculate_diff(
    text1: String,
    text2: String,
    threshold: Option<i32>,
    include_unified: Option<bool>,
) -> (r: Result<DiffResult, DiffError>)
    ensures
        r is Ok <==> (within_bounds(text1@, text2@) && fits_i32(text1@) && fits_i32(text2@)),
        r matches Ok(d) ==> diff_result_matches(
            d,
            text1@,
            text2@,
            effective_threshold(threshold),
            effective_unified(include_unified),
        ),
        r matches Err(e) ==> e == DiffError::ResourceExceeded,
{
    let thr: i32 = match threshold {
        Some(t) => t,
        None => 10,
    };
    let inc: bool = match include_unified {
        Some(b) => b,
        None => false,
    };
    let c1 = chars_of(text1.as_str());
    let c2 = chars_of(text2.as_str());
    let n1: usize = match crate::text::byte_len_checked(&c1) {
        Some(n) => n as usize,
        None => {
            return Err(DiffError::ResourceExceeded);
        },
    };
    let n2: usize = match crate::text::byte_len_checked(&c2) {
        Some(n) => n as usize,
        None => {
            return Err(DiffError::ResourceExceeded);
        },
    };
    let la = split_lines(&c1);
    let lb = split_lines(&c2);
    let ops = match align_lines(&la, &lb) {
        Some(o) => o,
        None => {
            return Err(DiffError::ResourceExceeded);
        },
    };
    let ghost sla = split_lines_spec(text1@);
    let ghost slb = split_lines_spec(text2@);
    proof {
        lemma_diff_script_counts(sla, slb);
        lemma_count_kind_total(ops@);
    }
    let counts = count_script(&ops);
    let diff_size: i32 = if n2 >= n1 {
        (n2 - n1) as i32
    } else {
        (n1 - n2) as i32
    };
    let is_significant = diff_size >= thr;
    let chars_added: i32 = if n2 > n1 {
        (n2 - n1) as i32
    } else {
        0
    };
    let chars_deleted: i32 = if n1 > n2 {
        (n1 - n2) as i32
    } else {
        0
    };
    let summary = render_summary(n1, n2);
    let unified_diff: Option<String> = if inc {
        let ut = unified_text(&ops, &la, &lb);
        Some(chars_to_string(&ut))
    } else {
        None
    };
    Ok(
        DiffResult {
            diff_size,
            is_significant,
            summary,
            lines_added: counts.2 as i32,
            lines_removed: counts.1 as i32,
            chars_added,
            chars_deleted,
            after_content: text2,
            unified_diff,
        },
    )
}

/// One record of the ordered change list: `pos` is the 1-based position of
/// the op in the whole edit script, `insert` tells an insertion from a
/// deletion, and `content` is the covered line.
pub struct ChangeRec {
    pub pos: int,
    pub insert: bool,
    pub content: Seq<char>,
}

/// The changed lines of an edit script, in order; Equal ops advance the
/// position but produce no record.
pub open spec fn changes_spec(ops: Seq<EditKind>, la: Seq<Seq<char>>, lb: Seq<Seq<char>>) -> Seq<
    ChangeRec,
>
    decreases ops.len(),
{
    if ops.len() == 0 {
        Seq::empty()
    } else {
        let pre = changes_spec(ops.drop_last(), la, lb);
        match ops.last() {
            EditKind::Equal => pre,
            EditKind::Delete => pre.push(
                ChangeRec {
                    pos: ops.len() as int,
                    insert: false,
                    content: la[source_count(ops.drop_last()) as int],
                },
            ),
            EditKind::Insert => pre.push(
                ChangeRec {
                    pos: ops.len() as int,
                    insert: true,
                    content: lb[target_count(ops.drop_last()) as int],
                },
            ),
        }
    }
}

/// What one executable record promises about its abstract counterpart.
pub open spec fn line_change_matches(c: LineChange, rec: ChangeRec) -> bool {
    &&& c.line_number == rec.pos
    &&& c.change_type@ == if rec.insert {
        "insert"@
    } else {
        "delete"@
    }
    &&& c.content@ == rec.content
}

/// Lists the changed lines between the two documents, in script order, with
/// positions counted over every op of the script (equal lines advance the
/// position but are omitted).
pub fn get_line_changes(text1: String, text2: String) -> (r: Result<Vec<LineChange>, DiffError>)
    ensures
        r is Ok <==> within_bounds(text1@, text2@),
        r matches Ok(v) ==> {
            let recs = changes_spec(
                diff_script(split_lines_spec(text1@), split_lines_spec(text2@)),
                split_lines_spec(text1@),
                split_lines_spec(text2@),
            );
            v@.len() == recs.len() && forall|t: int|
                0 <= t < recs.len() ==> line_change_matches(#[trigger] v@[t], recs[t])
        },
        r matches Err(e) ==> e == DiffError::ResourceExceeded,
{
    let c1 = chars_of(text1.as_str());
    let c2 = chars_of(text2.as_str());
    let la = split_lines(&c1);
    let lb = split_lines(&c2);
    let ops = match align_lines(&la, &lb) {
        Some(o) => o,
        None => {
            return Err(DiffError::ResourceExceeded);
        },
    };
    let ghost sla = split_lines_spec(text1@);
    let ghost slb = split_lines_spec(text2@);
    proof {
        lemma_diff_script_counts(sla, slb);
        lemma_count_kind_total(ops@);
    }
    let mut out: Vec<LineChange> = Vec::new();
    let mut i: usize = 0;
    let mut j: usize = 0;
    let mut k: usize = 0;
    proof {
        assert(ops@.take(0) =~= Seq::<EditKind>::empty());
    }
    while k < ops.len()
        invariant
            k <= ops@.len(),
            ops@.len() <= 0x7fff_fffe,
            sla == split_lines_spec(text1@),
            slb == split_lines_spec(text2@),
            ops@ == diff_script(sla, slb),
            line_views(la@) == sla,
            line_views(lb@) == slb,
            source_count(ops@) == sla.len(),
            target_count(ops@) == slb.len(),
            i == source_count(ops@.take(k as int)),
            j == target_count(ops@.take(k as int)),
            out@.len() == changes_spec(ops@.take(k as int), sla, slb).len(),
            forall|t: int|
                0 <= t < out@.len() ==> line_change_matches(
                    #[trigger] out@[t],
                    changes_spec(ops@.take(k as int), sla, slb)[t],
                ),
        decreases ops@.len() - k,
    {
        proof {
            crate::unified::lemma_prefix_counts_pub(ops@, k as int + 1);
            crate::unified::lemma_step_counts_pub(ops@, k as int);
            assert(ops@.take(k as int + 1).drop_last() =~= ops@.take(k as int));
            assert(ops@.take(k as int + 1).last() == ops@[k as int]);
        }
        match ops[k] {
            EditKind::Equal => {
                i += 1;
                j += 1;
            },
            EditKind::Delete => {
                let content = chars_to_string(&la[i]);
                out.push(
                    LineChange { line_number: (k + 1) as i32, change_type: "delete".to_owned(), content },
                );
                i += 1;
            },
            EditKind::Insert => {
                let content = chars_to_string(&lb[j]);
                out.push(
                    LineChange { line_number: (k + 1) as i32, change_type: "insert".to_owned(), content },
                );
                j += 1;
            },
        }
        k += 1;
    }
    proof {
        assert(ops@.take(ops@.len() as int) =~= ops@);
    }
    Ok(out)
}

/// Scores how alike two texts are at character granularity, as the exact
/// ratio `2 * matched / (len1 + len2)` in lowest terms not taken: the first
/// component is twice the matched character count, the second the total
/// length. Two empty texts give `(0, 0)`, to be read as a full match.
pub fn calculate_similarity(text1: String, text2: String) -> (r: Result<
    (usize, usize),
    DiffError,
>)
    ensures
        r is Ok <==> trimmed_within(text1@, text2@),
        r matches Ok(p) ==> {
            &&& p.0 == 2 * count_kind(diff_script(text1@, text2@), EditKind::Equal)
            &&& p.1 == text1@.len() + text2@.len()
            &&& p.0 <= p.1
            &&& (text1@ == text2@ ==> p.0 == p.1)
        },
        r matches Err(e) ==> e == DiffError::ResourceExceeded,
{
    let c1 = chars_of(text1.as_str());
    let c2 = chars_of(text2.as_str());
    let ops = match align_chars(&c1, &c2) {
        Some(o) => o,
        None => {
            return Err(DiffError::ResourceExceeded);
        },
    };
    proof {
        lemma_diff_script_counts(text1@, text2@);
        if text1@ == text2@ {
            lemma_script_self(text1@);
        }
    }
    let counts = count_script(&ops);
    Ok((2 * counts.0, c1.len() + c2.len()))
}

/// Compares every pair of the batch with the same threshold, returning one
/// slot per pair in input order; a failed pair carries its own error and
/// leaves the other slots untouched.
pub fn batch_calculate_diffs(pairs: Vec<(String, String)>, threshold: Option<i32>) -> (r: Vec<
    Result<DiffResult, DiffError>,
>)
    ensures
        r@.len() == pairs@.len(),
        forall|t: int|
            0 <= t < pairs@.len() ==> (#[trigger] r@[t] is Ok <==> (within_bounds(
                pairs@[t].0@,
                pairs@[t].1@,
            ) && fits_i32(pairs@[t].0@) && fits_i32(pairs@[t].1@))),
        forall|t: int|
            0 <= t < pairs@.len() ==> (#[trigger] r@[t] matches Ok(d) ==> diff_result_matches(
                d,
                pairs@[t].0@,
                pairs@[t].1@,
                effective_threshold(threshold),
                false,
            )),
        forall|t: int|
            0 <= t < pairs@.len() ==> (#[trigger] r@[t] matches Err(e) ==> e
                == DiffError::ResourceExceeded),
{
    let mut out: Vec<Result<DiffResult, DiffError>> = Vec::new();
    let mut t: usize = 0;
    while t < pairs.len()
        invariant
            t <= pairs@.len(),
            out@.len() == t,
            forall|w: int|
                0 <= w < t ==> (#[trigger] out@[w] is Ok <==> (within_bounds(
                    pairs@[w].0@,
                    pairs@[w].1@,
                ) && fits_i32(pairs@[w].0@) && fits_i32(pairs@[w].1@))),
            forall|w: int|
                0 <= w < t ==> (#[trigger] out@[w] matches Ok(d) ==> diff_result_matches(
                    d,
                    pairs@[w].0@,
                    pairs@[w].1@,
                    effective_threshold(threshold),
                    false,
                )),
            forall|w: int|
                0 <= w < t ==> (#[trigger] out@[w] matches Err(e) ==> e
                    == DiffError::ResourceExceeded),
        decreases pairs@.len() - t,
    {
        let before = pairs[t].0.clone();
        let after = pairs[t].1.clone();
        let one = calculate_diff(before, after, threshold, Some(false));
        out.push(one);
        t += 1;
    }
    out
}

/// Identity: comparing a document with itself yields a zero-sized,
/// insignificant change (for any positive threshold), no added or removed
/// lines, and the summary of an unchanged document.
pub proof fn lemma_diff_identity(d: DiffResult, t: Seq<char>, threshold: int, inc: bool)
    requires
        diff_result_matches(d, t, t, threshold, inc),
    ensures
        d.diff_size == 0,
        d.is_significant == (threshold <= 0),
        d.lines_added == 0,
        d.lines_removed == 0,
        d.chars_added == 0,
        d.chars_deleted == 0,
        d.summary@ == "no change"@,
{
    let l = split_lines_spec(t);
    lemma_script_self(l);
    lemma_diff_script_counts(l, l);
}

/// Determinism: two results for the same pair and settings agree in every
/// observable field, whatever order or schedule produced them.
pub proof fn lemma_diff_deterministic(
    d1: DiffResult,
    d2: DiffResult,
    t1: Seq<char>,
    t2: Seq<char>,
    threshold: int,
    inc: bool,
)
    requires
        diff_result_matches(d1, t1, t2, threshold, inc),
        diff_result_matches(d2, t1, t2, threshold, inc),
    ensures
        d1.diff_size == d2.diff_size,
        d1.is_significant == d2.is_significant,
        d1.summary@ == d2.summary@,
        d1.lines_added == d2.lines_added,
        d1.lines_removed == d2.lines_removed,
        d1.chars_added == d2.chars_added,
        d1.chars_deleted == d2.chars_deleted,
        d1.after_content@ == d2.after_content@,
        inc ==> d1.unified_diff->Some_0@ == d2.unified_diff->Some_0@,
        !inc ==> d1.unified_diff is None && d2.unified_diff is None,
{
}

/// Threshold monotonicity: raising the threshold can only turn a significant
/// change insignificant, never the other way round.
pub proof fn lemma_threshold_monotone(
    d1: DiffResult,
    d2: DiffResult,
    t1: Seq<char>,
    t2: Seq<char>,
    thr1: int,
    thr2: int,
    inc: bool,
)
    requires
        thr1 <= thr2,
        diff_result_matches(d1, t1, t2, thr1, inc),
        diff_result_matches(d2, t1, t2, thr2, inc),
    ensures
        d2.is_significant ==> d1.is_significant,
{
}

} // verus!
