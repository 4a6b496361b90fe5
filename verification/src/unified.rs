//! Unified-diff rendering of an edit script: hunks of changed lines with up
//! to three context lines on either side, under conventional `@@` headers.

use vstd::prelude::*;
use crate::align::{
    count_kind, line_views, source_count, target_count, lemma_count_kind_append,
    lemma_count_kind_total, EditKind,
};

verus! {

/// An op survives into the rendered diff when a change sits within three
/// positions of it; non-Equal ops always survive.
pub open spec fn kept(ops: Seq<EditKind>, k: int) -> bool {
    exists|t: int| 0 <= t < ops.len() && k - 3 <= t <= k + 3 && ops[t] != EditKind::Equal
}

/// The end of the maximal run of surviving ops that starts at `k`.
pub open spec fn hunk_end(ops: Seq<EditKind>, k: int) -> int
    decreases ops.len() - k,
    when 0 <= k <= ops.len()
{
    if k >= ops.len() || !kept(ops, k) {
        k
    } else {
        hunk_end(ops, k + 1)
    }
}

proof fn lemma_hunk_end(ops: Seq<EditKind>, k: int)
    requires
        0 <= k <= ops.len(),
    ensures
        k <= hunk_end(ops, k) <= ops.len(),
        k < ops.len() && kept(ops, k) ==> hunk_end(ops, k) > k,
        forall|t: int| k <= t < hunk_end(ops, k) ==> kept(ops, t),
        hunk_end(ops, k) == ops.len() || !kept(ops, hunk_end(ops, k)),
    decreases ops.len() - k,
{
    if k >= ops.len() || !kept(ops, k) {
    } else {
        lemma_hunk_end(ops, k + 1);
    }
}

proof fn lemma_hunk_end_eq(ops: Seq<EditKind>, k: int, e: int)
    requires
        0 <= k <= e <= ops.len(),
        forall|t: int| k <= t < e ==> kept(ops, t),
        e == ops.len() || !kept(ops, e),
    ensures
        hunk_end(ops, k) == e,
    decreases e - k,
{
    if k == e {
    } else {
        assert(kept(ops, k));
        lemma_hunk_end_eq(ops, k + 1, e);
    }
}

/// The rendered form of the op at position `k`: a marker, the covered line,
/// and a newline.
pub open spec fn line_at(ops: Seq<EditKind>, la: Seq<Seq<char>>, lb: Seq<Seq<char>>, k: int) -> Seq<
    char,
> {
    let i = source_count(ops.take(k)) as int;
    let j = target_count(ops.take(k)) as int;
    match ops[k] {
        EditKind::Equal => seq![' '] + la[i] + seq!['\n'],
        EditKind::Delete => seq!['-'] + la[i] + seq!['\n'],
        EditKind::Insert => seq!['+'] + lb[j] + seq!['\n'],
    }
}

/// The rendered ops of positions `k` up to `e`, in order.
pub open spec fn lines_range(
    ops: Seq<EditKind>,
    la: Seq<Seq<char>>,
    lb: Seq<Seq<char>>,
    k: int,
    e: int,
) -> Seq<char>
    decreases e - k,
    when k <= e
{
    if k >= e {
        Seq::empty()
    } else {
        line_at(ops, la, lb, k) + lines_range(ops, la, lb, k + 1, e)
    }
}

proof fn lemma_lines_range_snoc(
    ops: Seq<EditKind>,
    la: Seq<Seq<char>>,
    lb: Seq<Seq<char>>,
    k: int,
    t: int,
)
    requires
        k <= t,
    ensures
        lines_range(ops, la, lb, k, t + 1) == lines_range(ops, la, lb, k, t) + line_at(
            ops,
            la,
            lb,
            t,
        ),
    decreases t - k,
{
    if k == t {
        assert(lines_range(ops, la, lb, t + 1, t + 1) =~= Seq::<char>::empty());
        assert(lines_range(ops, la, lb, k, t) =~= Seq::<char>::empty());
        assert(lines_range(ops, la, lb, k, t + 1) == line_at(ops, la, lb, t) + lines_range(
            ops,
            la,
            lb,
            t + 1,
            t + 1,
        ));
        assert(lines_range(ops, la, lb, k, t + 1) =~= lines_range(ops, la, lb, k, t) + line_at(
            ops,
            la,
            lb,
            t,
        ));
    } else {
        lemma_lines_range_snoc(ops, la, lb, k + 1, t);
        assert(lines_range(ops, la, lb, k, t + 1) =~= lines_range(ops, la, lb, k, t) + line_at(
            ops,
            la,
            lb,
            t,
        ));
    }
}

/// The `@@` header of the hunk covering ops `k` up to `e`: 1-based start line
/// and line count on each side, a zero count keeping the line before it.
pub open spec fn hunk_header(ops: Seq<EditKind>, k: int, e: int) -> Seq<char> {
    let i = source_count(ops.take(k));
    let j = target_count(ops.take(k));
    let sc = source_count(ops.subrange(k, e));
    let tc = target_count(ops.subrange(k, e));
    let astart: nat = if sc > 0 {
        (i + 1) as nat
    } else {
        i
    };
    let bstart: nat = if tc > 0 {
        (j + 1) as nat
    } else {
        j
    };
    seq!['@', '@', ' ', '-'] + crate::text::dec_rep(astart) + seq![','] + crate::text::dec_rep(sc)
        + seq![' ', '+'] + crate::text::dec_rep(bstart) + seq![','] + crate::text::dec_rep(tc)
        + seq![' ', '@', '@', '\n']
}

/// The rendered diff from position `k` on: surviving runs become hunks, each
/// under its header; ops outside any hunk render nothing.
pub open spec fn unified_from(
    ops: Seq<EditKind>,
    la: Seq<Seq<char>>,
    lb: Seq<Seq<char>>,
    k: int,
) -> Seq<char>
    decreases ops.len() - k,
    when 0 <= k <= ops.len()
    via unified_from_dec
{
    if k >= ops.len() {
        Seq::empty()
    } else if !kept(ops, k) {
        unified_from(ops, la, lb, k + 1)
    } else {
        let e = hunk_end(ops, k);
        let body = lines_range(ops, la, lb, k, e) + unified_from(ops, la, lb, e);
        if k == 0 || !kept(ops, k - 1) {
            hunk_header(ops, k, e) + body
        } else {
            body
        }
    }
}

#[via_fn]
proof fn unified_from_dec(ops: Seq<EditKind>, la: Seq<Seq<char>>, lb: Seq<Seq<char>>, k: int) {
    if 0 <= k < ops.len() && kept(ops, k) {
        lemma_hunk_end(ops, k);
    }
}

/// The whole rendered unified diff of an edit script.
pub open spec fn unified_spec(ops: Seq<EditKind>, la: Seq<Seq<char>>, lb: Seq<Seq<char>>) -> Seq<
    char,
> {
    unified_from(ops, la, lb, 0)
}

/// Appends every character of `v`.
pub fn push_chars(out: &mut Vec<char>, v: &Vec<char>)
    ensures
        final(out)@ == old(out)@ + v@,
{
    let mut t: usize = 0;
    while t < v.len()
        invariant
            t <= v@.len(),
            out@ == old(out)@ + v@.take(t as int),
        decreases v@.len() - t,
    {
        out.push(v[t]);
        proof {
            assert(old(out)@ + v@.take(t as int + 1) =~= (old(out)@ + v@.take(t as int)).push(
                v@[t as int],
            ));
        }
        t += 1;
    }
    proof {
        assert(v@.take(v@.len() as int) =~= v@);
    }
}

fn is_kept_exec(ops: &Vec<EditKind>, k: usize) -> (r: bool)
    requires
        k < ops@.len(),
        ops@.len() <= 0x7fff_fffe,
    ensures
        r == kept(ops@, k as int),
{
    let lo: usize = if k >= 3 {
        k - 3
    } else {
        0
    };
    let hi: usize = if k + 3 < ops.len() {
        k + 3
    } else {
        ops.len() - 1
    };
    let mut t = lo;
    let mut found = false;
    while t <= hi
        invariant
            lo <= t <= hi + 1,
            ops@.len() <= 0x7fff_fffe,
            hi < ops@.len(),
            lo == if k >= 3 {
                k - 3
            } else {
                0
            },
            hi == if k + 3 < ops@.len() {
                k + 3
            } else {
                (ops@.len() - 1) as int
            },
            found == exists|w: int|
                lo <= w < t && #[trigger] ops@[w] != EditKind::Equal,
        decreases hi + 1 - t,
    {
        if !(ops[t] == EditKind::Equal) {
            found = true;
            proof {
                assert(ops@[t as int] != EditKind::Equal);
            }
        }
        t += 1;
    }
    proof {
        if found {
            let w = choose|w: int| lo <= w < t && #[trigger] ops@[w] != EditKind::Equal;
            assert(0 <= w < ops@.len() && k - 3 <= w <= k + 3 && ops@[w] != EditKind::Equal);
        }
        if kept(ops@, k as int) {
            let w = choose|w: int|
                0 <= w < ops@.len() && k - 3 <= w <= k + 3 && ops@[w] != EditKind::Equal;
            assert(lo <= w < t && ops@[w] != EditKind::Equal);
        }
    }
    found
}

pub proof fn lemma_prefix_counts_pub(ops: Seq<EditKind>, t: int)
    requires
        0 <= t <= ops.len(),
    ensures
        source_count(ops.take(t)) <= source_count(ops),
        target_count(ops.take(t)) <= target_count(ops),
        source_count(ops.take(t)) <= t,
        target_count(ops.take(t)) <= t,
{
    lemma_count_kind_append(ops.take(t), ops.skip(t), EditKind::Equal);
    lemma_count_kind_append(ops.take(t), ops.skip(t), EditKind::Delete);
    lemma_count_kind_append(ops.take(t), ops.skip(t), EditKind::Insert);
    assert(ops.take(t) + ops.skip(t) =~= ops);
    lemma_count_kind_total(ops.take(t));
}

pub proof fn lemma_step_counts_pub(ops: Seq<EditKind>, t: int)
    requires
        0 <= t < ops.len(),
    ensures
        ops[t] == EditKind::Equal ==> source_count(ops.take(t + 1)) == source_count(ops.take(t))
            + 1 && target_count(ops.take(t + 1)) == target_count(ops.take(t)) + 1,
        ops[t] == EditKind::Delete ==> source_count(ops.take(t + 1)) == source_count(ops.take(t))
            + 1 && target_count(ops.take(t + 1)) == target_count(ops.take(t)),
        ops[t] == EditKind::Insert ==> source_count(ops.take(t + 1)) == source_count(ops.take(t))
            && target_count(ops.take(t + 1)) == target_count(ops.take(t)) + 1,
{
    assert(ops.take(t + 1).drop_last() =~= ops.take(t));
    assert(ops.take(t + 1).last() == ops[t]);
}

fn count_range(ops: &Vec<EditKind>, k: usize, e: usize) -> (r: (usize, usize))
    requires
        k <= e <= ops@.len(),
        ops@.len() <= 0x7fff_fffe,
    ensures
        r.0 == source_count(ops@.subrange(k as int, e as int)),
        r.1 == target_count(ops@.subrange(k as int, e as int)),
{
    let mut sc: usize = 0;
    let mut tc: usize = 0;
    let mut t: usize = k;
    while t < e
        invariant
            k <= t <= e <= ops@.len(),
            ops@.len() <= 0x7fff_fffe,
            sc == source_count(ops@.subrange(k as int, t as int)),
            tc == target_count(ops@.subrange(k as int, t as int)),
        decreases e - t,
    {
        proof {
            lemma_count_kind_total(ops@.subrange(k as int, t as int));
            assert(ops@.subrange(k as int, t as int + 1).drop_last() =~= ops@.subrange(
                k as int,
                t as int,
            ));
            assert(ops@.subrange(k as int, t as int + 1).last() == ops@[t as int]);
        }
        match ops[t] {
            EditKind::Equal => {
                sc += 1;
                tc += 1;
            },
            EditKind::Delete => {
                sc += 1;
            },
            EditKind::Insert => {
                tc += 1;
            },
        }
        t += 1;
    }
    (sc, tc)
}

#[verifier::rlimit(100)]
fn emit_hunk(
    out: &mut Vec<char>,
    ops: &Vec<EditKind>,
    a: &Vec<Vec<char>>,
    b: &Vec<Vec<char>>,
    k: usize,
    e: usize,
    i0: usize,
    j0: usize,
) -> (r: (usize, usize))
    requires
        ops@.len() <= 0x7fff_fffe,
        source_count(ops@) <= a@.len(),
        target_count(ops@) <= b@.len(),
        k <= e <= ops@.len(),
        i0 == source_count(ops@.take(k as int)),
        j0 == target_count(ops@.take(k as int)),
    ensures
        final(out)@ == old(out)@ + hunk_header(ops@, k as int, e as int) + lines_range(
            ops@,
            line_views(a@),
            line_views(b@),
            k as int,
            e as int,
        ),
        r.0 == source_count(ops@.take(e as int)),
        r.1 == target_count(ops@.take(e as int)),
{
    let ghost la = line_views(a@);
    let ghost lb = line_views(b@);
    let mut i = i0;
    let mut j = j0;
    let cnt = count_range(ops, k, e);
    let sc = cnt.0;
    let tc = cnt.1;
    proof {
        lemma_count_kind_total(ops@.subrange(k as int, e as int));
        lemma_prefix_counts_pub(ops@, k as int);
    }
    let astart: usize = if sc > 0 {
        i + 1
    } else {
        i
    };
    let bstart: usize = if tc > 0 {
        j + 1
    } else {
        j
    };
    out.push('@');
    out.push('@');
    out.push(' ');
    out.push('-');
    let d1 = crate::text::dec_chars(astart);
    push_chars(out, &d1);
    out.push(',');
    let d2 = crate::text::dec_chars(sc);
    push_chars(out, &d2);
    out.push(' ');
    out.push('+');
    let d3 = crate::text::dec_chars(bstart);
    push_chars(out, &d3);
    out.push(',');
    let d4 = crate::text::dec_chars(tc);
    push_chars(out, &d4);
    out.push(' ');
    out.push('@');
    out.push('@');
    out.push('\n');
    proof {
        assert(out@ =~= old(out)@ + hunk_header(ops@, k as int, e as int));
    }
    let ghost base2 = out@;
    let mut t: usize = k;
    while t < e
        invariant
            ops@.len() <= 0x7fff_fffe,
            source_count(ops@) <= a@.len(),
            target_count(ops@) <= b@.len(),
            la == line_views(a@),
            lb == line_views(b@),
            k <= t <= e <= ops@.len(),
            i == source_count(ops@.take(t as int)),
            j == target_count(ops@.take(t as int)),
            out@ == base2 + lines_range(ops@, la, lb, k as int, t as int),
        decreases e - t,
    {
        proof {
            lemma_prefix_counts_pub(ops@, t as int + 1);
            lemma_step_counts_pub(ops@, t as int);
            lemma_lines_range_snoc(ops@, la, lb, k as int, t as int);
        }
        match ops[t] {
            EditKind::Equal => {
                out.push(' ');
                push_chars(out, &a[i]);
                out.push('\n');
                proof {
                    assert(out@ =~= base2 + lines_range(ops@, la, lb, k as int, t as int + 1));
                }
                i += 1;
                j += 1;
            },
            EditKind::Delete => {
                out.push('-');
                push_chars(out, &a[i]);
                out.push('\n');
                proof {
                    assert(out@ =~= base2 + lines_range(ops@, la, lb, k as int, t as int + 1));
                }
                i += 1;
            },
            EditKind::Insert => {
                out.push('+');
                push_chars(out, &b[j]);
                out.push('\n');
                proof {
                    assert(out@ =~= base2 + lines_range(ops@, la, lb, k as int, t as int + 1));
                }
                j += 1;
            },
        }
        t += 1;
    }
    proof {
        assert(out@ =~= old(out)@ + hunk_header(ops@, k as int, e as int) + lines_range(
            ops@,
            la,
            lb,
            k as int,
            e as int,
        ));
    }
    (i, j)
}

/// Renders an edit script over the two line lists as unified-diff text.
#[verifier::rlimit(100)]
pub fn unified_text(ops: &Vec<EditKind>, a: &Vec<Vec<char>>, b: &Vec<Vec<char>>) -> (r: Vec<char>)
    requires
        ops@.len() <= 0x7fff_fffe,
        source_count(ops@) <= a@.len(),
        target_count(ops@) <= b@.len(),
    ensures
        r@ == unified_spec(ops@, line_views(a@), line_views(b@)),
{
    let ghost la = line_views(a@);
    let ghost lb = line_views(b@);
    let ghost u = unified_spec(ops@, la, lb);
    let mut out: Vec<char> = Vec::new();
    let mut k: usize = 0;
    let mut i: usize = 0;
    let mut j: usize = 0;
    proof {
        assert(ops@.take(0) =~= Seq::<EditKind>::empty());
    }
    while k < ops.len()
        invariant
            ops@.len() <= 0x7fff_fffe,
            source_count(ops@) <= a@.len(),
            target_count(ops@) <= b@.len(),
            la == line_views(a@),
            lb == line_views(b@),
            u == unified_spec(ops@, la, lb),
            k <= ops@.len(),
            i == source_count(ops@.take(k as int)),
            j == target_count(ops@.take(k as int)),
            out@ + unified_from(ops@, la, lb, k as int) == u,
            k == ops@.len() || k == 0 || !kept(ops@, k as int) || !kept(ops@, k as int - 1),
        decreases ops@.len() - k,
    {
        proof {
            lemma_prefix_counts_pub(ops@, k as int);
            lemma_step_counts_pub(ops@, k as int);
        }
        if !is_kept_exec(ops, k) {
            proof {
                if ops@[k as int] != EditKind::Equal {
                    assert(kept(ops@, k as int));
                }
                assert(ops@[k as int] == EditKind::Equal);
                lemma_prefix_counts_pub(ops@, k as int + 1);
            }
            i += 1;
            j += 1;
            k += 1;
        } else {
            // find the end of this hunk
            let mut e: usize = k;
            while e < ops.len() && is_kept_exec(ops, e)
                invariant
                    ops@.len() <= 0x7fff_fffe,
                    k <= e <= ops@.len(),
                    forall|t: int| k <= t < e ==> kept(ops@, t),
                decreases ops@.len() - e,
            {
                e += 1;
            }
            proof {
                lemma_hunk_end_eq(ops@, k as int, e as int);
                lemma_hunk_end(ops@, k as int);
            }
            let ghost base = out@;
            let rr = emit_hunk(&mut out, ops, a, b, k, e, i, j);
            i = rr.0;
            j = rr.1;
            proof {
                assert(unified_from(ops@, la, lb, k as int) == hunk_header(
                    ops@,
                    k as int,
                    e as int,
                ) + (lines_range(ops@, la, lb, k as int, e as int) + unified_from(
                    ops@,
                    la,
                    lb,
                    e as int,
                )));
                assert(out@ + unified_from(ops@, la, lb, e as int) =~= u);
            }
            k = e;
        }
    }
    proof {
        assert(unified_from(ops@, la, lb, ops@.len() as int) =~= Seq::<char>::empty());
        assert(out@ =~= u);
    }
    out
}

} // verus!
