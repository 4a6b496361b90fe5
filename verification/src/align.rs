//! Sequence alignment: a minimal insert/delete edit script between two token
//! sequences, with deterministic tie-breaking (deletions come before
//! insertions at each alignment point).

use vstd::prelude::*;

verus! {

/// One step of an edit script.
#[derive(Clone, Copy, PartialEq, Eq, Structural, Debug)]
pub enum EditKind {
    /// The next token of both sequences is the same; it is kept.
    Equal,
    /// The next token of the source sequence is removed.
    Delete,
    /// The next token of the target sequence is added.
    Insert,
}

/// Levenshtein edit distance restricted to insertions and deletions
/// (no substitution): the cost of the cheapest script turning `a` into `b`.
pub open spec fn edit_dist<T>(a: Seq<T>, b: Seq<T>) -> nat
    decreases a.len() + b.len(),
{
    if a.len() == 0 {
        b.len()
    } else if b.len() == 0 {
        a.len()
    } else if a.last() == b.last() {
        edit_dist(a.drop_last(), b.drop_last())
    } else {
        let del = edit_dist(a.drop_last(), b);
        let ins = edit_dist(a, b.drop_last());
        1 + if ins <= del {
            ins
        } else {
            del
        }
    }
}

/// The canonical minimal edit script from `a` to `b`: equal tokens are always
/// matched, and where a deletion and an insertion cost the same, the deletion
/// is emitted first (the insertion is appended later in the recursion).
pub open spec fn edit_script<T>(a: Seq<T>, b: Seq<T>) -> Seq<EditKind>
    decreases a.len() + b.len(),
{
    if a.len() == 0 {
        Seq::new(b.len(), |i| EditKind::Insert)
    } else if b.len() == 0 {
        Seq::new(a.len(), |i| EditKind::Delete)
    } else if a.last() == b.last() {
        edit_script(a.drop_last(), b.drop_last()).push(EditKind::Equal)
    } else if edit_dist(a, b.drop_last()) <= edit_dist(a.drop_last(), b) {
        edit_script(a, b.drop_last()).push(EditKind::Insert)
    } else {
        edit_script(a.drop_last(), b).push(EditKind::Delete)
    }
}

/// How many ops of kind `k` a script holds.
pub open spec fn count_kind(ops: Seq<EditKind>, k: EditKind) -> nat
    decreases ops.len(),
{
    if ops.len() == 0 {
        0
    } else {
        count_kind(ops.drop_last(), k) + if ops.last() == k {
            1nat
        } else {
            0nat
        }
    }
}

/// How many source tokens a script consumes (one per Equal or Delete op).
pub open spec fn source_count(ops: Seq<EditKind>) -> nat {
    count_kind(ops, EditKind::Equal) + count_kind(ops, EditKind::Delete)
}

/// How many target tokens a script produces (one per Equal or Insert op).
pub open spec fn target_count(ops: Seq<EditKind>) -> nat {
    count_kind(ops, EditKind::Equal) + count_kind(ops, EditKind::Insert)
}

/// The cost of a script: its non-Equal ops.
pub open spec fn script_cost(ops: Seq<EditKind>) -> nat {
    count_kind(ops, EditKind::Delete) + count_kind(ops, EditKind::Insert)
}

/// Counting distributes over concatenation.
pub proof fn lemma_count_kind_append(x: Seq<EditKind>, y: Seq<EditKind>, k: EditKind)
    ensures
        count_kind(x + y, k) == count_kind(x, k) + count_kind(y, k),
    decreases y.len(),
{
    if y.len() == 0 {
        assert(x + y =~= x);
    } else {
        lemma_count_kind_append(x, y.drop_last(), k);
        assert((x + y).drop_last() =~= x + y.drop_last());
        assert((x + y).last() == y.last());
    }
}

/// Every op is Equal, Delete or Insert, so the three counts partition the
/// script's length.
pub proof fn lemma_count_kind_total(ops: Seq<EditKind>)
    ensures
        count_kind(ops, EditKind::Equal) + count_kind(ops, EditKind::Delete) + count_kind(
            ops,
            EditKind::Insert,
        ) == ops.len(),
    decreases ops.len(),
{
    if ops.len() > 0 {
        lemma_count_kind_total(ops.drop_last());
    }
}

/// The edit distance never exceeds deleting all of `a` and inserting all of `b`.
pub proof fn lemma_edit_dist_bound<T>(a: Seq<T>, b: Seq<T>)
    ensures
        edit_dist(a, b) <= a.len() + b.len(),
    decreases a.len() + b.len(),
{
    if a.len() == 0 {
    } else if b.len() == 0 {
    } else if a.last() == b.last() {
        lemma_edit_dist_bound(a.drop_last(), b.drop_last());
    } else {
        lemma_edit_dist_bound(a.drop_last(), b);
        lemma_edit_dist_bound(a, b.drop_last());
    }
}

/// The canonical script consumes exactly `a`, produces exactly `b`, and its
/// cost is exactly the edit distance.
pub proof fn lemma_script_counts<T>(a: Seq<T>, b: Seq<T>)
    ensures
        source_count(edit_script(a, b)) == a.len(),
        target_count(edit_script(a, b)) == b.len(),
        script_cost(edit_script(a, b)) == edit_dist(a, b),
    decreases a.len() + b.len(),
{
    lemma_count_new_insert(b.len());
    lemma_count_new_delete(a.len());
    if a.len() == 0 {
    } else if b.len() == 0 {
    } else if a.last() == b.last() {
        lemma_script_counts(a.drop_last(), b.drop_last());
        let pre = edit_script(a.drop_last(), b.drop_last());
        assert(pre.push(EditKind::Equal).drop_last() =~= pre);
    } else if edit_dist(a, b.drop_last()) <= edit_dist(a.drop_last(), b) {
        lemma_script_counts(a, b.drop_last());
        let pre = edit_script(a, b.drop_last());
        assert(pre.push(EditKind::Insert).drop_last() =~= pre);
    } else {
        lemma_script_counts(a.drop_last(), b);
        let pre = edit_script(a.drop_last(), b);
        assert(pre.push(EditKind::Delete).drop_last() =~= pre);
    }
}

proof fn lemma_count_new_insert(n: nat)
    ensures
        count_kind(Seq::new(n, |i| EditKind::Insert), EditKind::Insert) == n,
        count_kind(Seq::new(n, |i| EditKind::Insert), EditKind::Delete) == 0,
        count_kind(Seq::new(n, |i| EditKind::Insert), EditKind::Equal) == 0,
    decreases n,
{
    if n > 0 {
        lemma_count_new_insert((n - 1) as nat);
        assert(Seq::new(n, |i| EditKind::Insert).drop_last() =~= Seq::new(
            (n - 1) as nat,
            |i| EditKind::Insert,
        ));
    }
}

proof fn lemma_count_new_delete(n: nat)
    ensures
        count_kind(Seq::new(n, |i| EditKind::Delete), EditKind::Delete) == n,
        count_kind(Seq::new(n, |i| EditKind::Delete), EditKind::Insert) == 0,
        count_kind(Seq::new(n, |i| EditKind::Delete), EditKind::Equal) == 0,
    decreases n,
{
    if n > 0 {
        lemma_count_new_delete((n - 1) as nat);
        assert(Seq::new(n, |i| EditKind::Delete).drop_last() =~= Seq::new(
            (n - 1) as nat,
            |i| EditKind::Delete,
        ));
    }
}

/// The source tokens a script keeps or removes, in script order: one token of
/// `a` for each Equal or Delete op. When the script is the canonical one for
/// `(a, b)`, concatenating these spans gives back `a` itself.
pub open spec fn kept_source<T>(ops: Seq<EditKind>, a: Seq<T>) -> Seq<T>
    decreases ops.len(),
{
    if ops.len() == 0 {
        Seq::empty()
    } else {
        let pre = kept_source(ops.drop_last(), a);
        if ops.last() == EditKind::Insert {
            pre
        } else {
            pre.push(a[source_count(ops.drop_last()) as int])
        }
    }
}

/// The target tokens a script keeps or adds, in script order: one token of
/// `b` for each Equal or Insert op.
pub open spec fn kept_target<T>(ops: Seq<EditKind>, b: Seq<T>) -> Seq<T>
    decreases ops.len(),
{
    if ops.len() == 0 {
        Seq::empty()
    } else {
        let pre = kept_target(ops.drop_last(), b);
        if ops.last() == EditKind::Delete {
            pre
        } else {
            pre.push(b[target_count(ops.drop_last()) as int])
        }
    }
}

proof fn lemma_kept_source_take<T>(ops: Seq<EditKind>, a: Seq<T>)
    requires
        source_count(ops) <= a.len(),
    ensures
        kept_source(ops, a) =~= a.take(source_count(ops) as int),
    decreases ops.len(),
{
    if ops.len() > 0 {
        let pre = ops.drop_last();
        assert(source_count(pre) <= source_count(ops));
        lemma_kept_source_take(pre, a);
    }
}

proof fn lemma_kept_target_take<T>(ops: Seq<EditKind>, b: Seq<T>)
    requires
        target_count(ops) <= b.len(),
    ensures
        kept_target(ops, b) =~= b.take(target_count(ops) as int),
    decreases ops.len(),
{
    if ops.len() > 0 {
        let pre = ops.drop_last();
        assert(target_count(pre) <= target_count(ops));
        lemma_kept_target_take(pre, b);
    }
}

/// Reconstruction: the Equal and Delete spans of the canonical script,
/// concatenated in order, reproduce the source sequence exactly, and the
/// Equal and Insert spans reproduce the target sequence exactly.
pub proof fn lemma_reconstruction<T>(a: Seq<T>, b: Seq<T>)
    ensures
        kept_source(diff_script(a, b), a) =~= a,
        kept_target(diff_script(a, b), b) =~= b,
{
    lemma_diff_script_counts(a, b);
    lemma_kept_source_take(diff_script(a, b), a);
    lemma_kept_target_take(diff_script(a, b), b);
    assert(a.take(a.len() as int) =~= a);
    assert(b.take(b.len() as int) =~= b);
}

/// Alignment only looks at which cross pairs of tokens are equal: any two
/// pairs of sequences with the same equality pattern get the same script.
pub proof fn lemma_script_respects<T, U>(a: Seq<T>, b: Seq<T>, x: Seq<U>, y: Seq<U>)
    requires
        x.len() == a.len(),
        y.len() == b.len(),
        forall|i: int, j: int|
            0 <= i < a.len() && 0 <= j < b.len() ==> ((a[i] == b[j]) <==> (x[i] == y[j])),
    ensures
        edit_dist(a, b) == edit_dist(x, y),
        edit_script(a, b) == edit_script(x, y),
    decreases a.len() + b.len(),
{
    if a.len() == 0 || b.len() == 0 {
    } else {
        assert((a.last() == b.last()) <==> (x.last() == y.last()));
        lemma_script_respects(a.drop_last(), b.drop_last(), x.drop_last(), y.drop_last());
        lemma_script_respects(a.drop_last(), b, x.drop_last(), y);
        lemma_script_respects(a, b.drop_last(), x, y.drop_last());
    }
}

/// Comparing a sequence with itself yields an all-Equal script.
pub proof fn lemma_script_self<T>(a: Seq<T>)
    ensures
        edit_script(a, a) =~= Seq::new(a.len(), |i| EditKind::Equal),
        edit_dist(a, a) == 0,
    decreases a.len(),
{
    if a.len() > 0 {
        lemma_script_self(a.drop_last());
    }
}

/// The number of leading tokens the two sequences share.
pub open spec fn common_prefix_len<T>(a: Seq<T>, b: Seq<T>) -> nat
    decreases a.len() + b.len(),
{
    if a.len() > 0 && b.len() > 0 && a[0] == b[0] {
        1 + common_prefix_len(a.drop_first(), b.drop_first())
    } else {
        0
    }
}

/// The number of trailing tokens the two sequences share.
pub open spec fn common_suffix_len<T>(a: Seq<T>, b: Seq<T>) -> nat
    decreases a.len() + b.len(),
{
    if a.len() > 0 && b.len() > 0 && a.last() == b.last() {
        1 + common_suffix_len(a.drop_last(), b.drop_last())
    } else {
        0
    }
}

/// The canonical script of the whole pair: the shared prefix is matched
/// first, and the remainders are aligned by `edit_script`.
pub open spec fn diff_script<T>(a: Seq<T>, b: Seq<T>) -> Seq<EditKind>
    decreases a.len() + b.len(),
{
    if a.len() > 0 && b.len() > 0 && a[0] == b[0] {
        seq![EditKind::Equal] + diff_script(a.drop_first(), b.drop_first())
    } else {
        edit_script(a, b)
    }
}

/// Matching an equal head never changes the edit distance.
proof fn lemma_dist_drop_first<T>(a: Seq<T>, b: Seq<T>)
    requires
        a.len() > 0,
        b.len() > 0,
        a[0] == b[0],
    ensures
        edit_dist(a, b) == edit_dist(a.drop_first(), b.drop_first()),
    decreases a.len() + b.len(),
{
    let x = a.drop_first();
    let y = b.drop_first();
    if a.len() == 1 && b.len() == 1 {
        assert(a.last() == b.last());
        assert(a.drop_last() =~= Seq::<T>::empty());
        assert(b.drop_last() =~= Seq::<T>::empty());
        assert(x =~= Seq::<T>::empty());
        assert(y =~= Seq::<T>::empty());
        assert(edit_dist(a, b) == edit_dist(x, y));
    } else if a.len() == 1 {
        assert(x =~= Seq::<T>::empty());
        assert(a.drop_last() =~= Seq::<T>::empty());
        assert(edit_dist(Seq::<T>::empty(), y) == y.len());
        if a.last() == b.last() {
            assert(edit_dist(Seq::<T>::empty(), b.drop_last()) == b.drop_last().len());
            assert(edit_dist(a, b) == edit_dist(a.drop_last(), b.drop_last()));
        } else {
            assert(b.drop_last()[0] == b[0]);
            lemma_dist_drop_first(a, b.drop_last());
            assert(a.drop_first() =~= Seq::<T>::empty());
            assert(edit_dist(Seq::<T>::empty(), b.drop_last().drop_first())
                == b.drop_last().drop_first().len());
            assert(edit_dist(a, b.drop_last()) == b.drop_last().drop_first().len());
            assert(edit_dist(Seq::<T>::empty(), b) == b.len());
            assert(edit_dist(a.drop_last(), b) == b.len());
        }
        assert(edit_dist(a, b) == edit_dist(x, y));
    } else if b.len() == 1 {
        assert(y =~= Seq::<T>::empty());
        assert(b.drop_last() =~= Seq::<T>::empty());
        assert(edit_dist(x, Seq::<T>::empty()) == x.len());
        if a.last() == b.last() {
            assert(edit_dist(a.drop_last(), Seq::<T>::empty()) == a.drop_last().len());
            assert(edit_dist(a, b) == edit_dist(a.drop_last(), b.drop_last()));
        } else {
            assert(a.drop_last()[0] == a[0]);
            lemma_dist_drop_first(a.drop_last(), b);
            assert(b.drop_first() =~= Seq::<T>::empty());
            assert(edit_dist(a.drop_last().drop_first(), Seq::<T>::empty())
                == a.drop_last().drop_first().len());
            assert(edit_dist(a.drop_last(), b) == a.drop_last().drop_first().len());
            assert(edit_dist(a, Seq::<T>::empty()) == a.len());
            assert(edit_dist(a, b.drop_last()) == a.len());
        }
        assert(edit_dist(a, b) == edit_dist(x, y));
    } else {
        assert(a.drop_last()[0] == a[0]);
        assert(b.drop_last()[0] == b[0]);
        assert(a.drop_last().drop_first() =~= x.drop_last());
        assert(b.drop_last().drop_first() =~= y.drop_last());
        assert(x.last() == a.last());
        assert(y.last() == b.last());
        if a.last() == b.last() {
            lemma_dist_drop_first(a.drop_last(), b.drop_last());
            assert(edit_dist(a, b) == edit_dist(x, y));
        } else {
            lemma_dist_drop_first(a.drop_last(), b);
            lemma_dist_drop_first(a, b.drop_last());
            assert(a.drop_first() =~= x);
            assert(b.drop_first() =~= y);
            assert(edit_dist(a, b) == edit_dist(x, y));
        }
    }
}

/// Appending the same tail to both sides extends the canonical script by
/// Equal ops and leaves the distance alone.
proof fn lemma_script_append_suffix<T>(x: Seq<T>, y: Seq<T>, s: Seq<T>)
    ensures
        edit_dist(x + s, y + s) == edit_dist(x, y),
        edit_script(x + s, y + s) == edit_script(x, y) + Seq::new(s.len(), |i| EditKind::Equal),
    decreases s.len(),
{
    if s.len() == 0 {
        assert(x + s =~= x);
        assert(y + s =~= y);
        assert(edit_script(x, y) + Seq::new(0, |i| EditKind::Equal) =~= edit_script(x, y));
    } else {
        lemma_script_append_suffix(x, y, s.drop_last());
        let xs = x + s;
        let ys = y + s;
        assert(xs.last() == s.last());
        assert(ys.last() == s.last());
        assert(xs.drop_last() =~= x + s.drop_last());
        assert(ys.drop_last() =~= y + s.drop_last());
        assert(edit_script(x, y) + Seq::new(s.len(), |i| EditKind::Equal) =~= (edit_script(x, y)
            + Seq::new((s.len() - 1) as nat, |i| EditKind::Equal)).push(EditKind::Equal));
    }
}

/// Unrolls the matched prefix of the canonical script: where the first `p`
/// tokens agree and position `p` does not, the script is `p` Equal ops
/// followed by the alignment of the remainders.
pub proof fn lemma_diff_script_split<T>(a: Seq<T>, b: Seq<T>, p: int)
    requires
        0 <= p <= a.len(),
        p <= b.len(),
        forall|t: int| 0 <= t < p ==> a[t] == b[t],
        p == a.len() || p == b.len() || a[p] != b[p],
    ensures
        diff_script(a, b) == Seq::new(p as nat, |i| EditKind::Equal) + edit_script(
            a.skip(p),
            b.skip(p),
        ),
    decreases p,
{
    if p == 0 {
        assert(a.skip(0) =~= a);
        assert(b.skip(0) =~= b);
        assert(Seq::new(0, |i| EditKind::Equal) + edit_script(a, b) =~= edit_script(a, b));
    } else {
        assert(a[0] == b[0]);
        let x = a.drop_first();
        let y = b.drop_first();
        assert(forall|t: int| 0 <= t < p - 1 ==> x[t] == y[t]);
        assert(p - 1 == x.len() || p - 1 == y.len() || x[p - 1] != y[p - 1]);
        lemma_diff_script_split(x, y, p - 1);
        assert(x.skip(p - 1) =~= a.skip(p));
        assert(y.skip(p - 1) =~= b.skip(p));
        assert(seq![EditKind::Equal] + (Seq::new((p - 1) as nat, |i| EditKind::Equal)
            + edit_script(a.skip(p), b.skip(p))) =~= Seq::new(p as nat, |i| EditKind::Equal)
            + edit_script(a.skip(p), b.skip(p)));
    }
}

/// The canonical script of the whole pair consumes exactly `a`, produces
/// exactly `b`, and costs exactly the edit distance.
pub proof fn lemma_diff_script_counts<T>(a: Seq<T>, b: Seq<T>)
    ensures
        source_count(diff_script(a, b)) == a.len(),
        target_count(diff_script(a, b)) == b.len(),
        script_cost(diff_script(a, b)) == edit_dist(a, b),
    decreases a.len() + b.len(),
{
    if a.len() > 0 && b.len() > 0 && a[0] == b[0] {
        lemma_diff_script_counts(a.drop_first(), b.drop_first());
        lemma_dist_drop_first(a, b);
        let rest = diff_script(a.drop_first(), b.drop_first());
        lemma_count_kind_append(seq![EditKind::Equal], rest, EditKind::Equal);
        lemma_count_kind_append(seq![EditKind::Equal], rest, EditKind::Delete);
        lemma_count_kind_append(seq![EditKind::Equal], rest, EditKind::Insert);
        assert(seq![EditKind::Equal].drop_last() =~= Seq::<EditKind>::empty());
        assert(seq![EditKind::Equal].last() == EditKind::Equal);
        assert(count_kind(Seq::<EditKind>::empty(), EditKind::Equal) == 0);
        assert(count_kind(Seq::<EditKind>::empty(), EditKind::Delete) == 0);
        assert(count_kind(Seq::<EditKind>::empty(), EditKind::Insert) == 0);
        assert(count_kind(seq![EditKind::Equal], EditKind::Equal) == 1);
        assert(count_kind(seq![EditKind::Equal], EditKind::Delete) == 0);
        assert(count_kind(seq![EditKind::Equal], EditKind::Insert) == 0);
    } else {
        lemma_script_counts(a, b);
    }
}

/// What it means for a script to transform `a` into `b`: read from the end,
/// an Equal op consumes one agreeing token of each side, a Delete one token
/// of `a`, an Insert one token of `b`, and the empty script transforms
/// nothing into nothing.
pub open spec fn is_script<T>(ops: Seq<EditKind>, a: Seq<T>, b: Seq<T>) -> bool
    decreases ops.len(),
{
    if ops.len() == 0 {
        a.len() == 0 && b.len() == 0
    } else {
        match ops.last() {
            EditKind::Equal => a.len() > 0 && b.len() > 0 && a.last() == b.last() && is_script(
                ops.drop_last(),
                a.drop_last(),
                b.drop_last(),
            ),
            EditKind::Delete => a.len() > 0 && is_script(ops.drop_last(), a.drop_last(), b),
            EditKind::Insert => b.len() > 0 && is_script(ops.drop_last(), a, b.drop_last()),
        }
    }
}

/// Dropping the last token of either side moves the edit distance by at most
/// one in either direction.
proof fn lemma_dist_lipschitz<T>(a: Seq<T>, b: Seq<T>)
    ensures
        a.len() > 0 ==> edit_dist(a.drop_last(), b) <= 1 + edit_dist(a, b),
        a.len() > 0 ==> edit_dist(a, b) <= 1 + edit_dist(a.drop_last(), b),
        b.len() > 0 ==> edit_dist(a, b.drop_last()) <= 1 + edit_dist(a, b),
        b.len() > 0 ==> edit_dist(a, b) <= 1 + edit_dist(a, b.drop_last()),
    decreases a.len() + b.len(),
{
    if a.len() > 0 {
        lemma_dist_lipschitz(a.drop_last(), b);
    }
    if b.len() > 0 {
        lemma_dist_lipschitz(a, b.drop_last());
    }
}

proof fn lemma_script_is_script<T>(a: Seq<T>, b: Seq<T>)
    ensures
        is_script(edit_script(a, b), a, b),
    decreases a.len() + b.len(),
{
    if a.len() == 0 && b.len() == 0 {
    } else if a.len() == 0 {
        lemma_script_is_script(a, b.drop_last());
        let ops = Seq::new(b.len(), |i| EditKind::Insert);
        assert(ops.drop_last() =~= Seq::new((b.len() - 1) as nat, |i| EditKind::Insert));
        assert(edit_script(a, b.drop_last()) == ops.drop_last());
    } else if b.len() == 0 {
        lemma_script_is_script(a.drop_last(), b);
        let ops = Seq::new(a.len(), |i| EditKind::Delete);
        assert(ops.drop_last() =~= Seq::new((a.len() - 1) as nat, |i| EditKind::Delete));
        assert(edit_script(a.drop_last(), b) == ops.drop_last());
    } else if a.last() == b.last() {
        lemma_script_is_script(a.drop_last(), b.drop_last());
        assert(edit_script(a, b).drop_last() =~= edit_script(a.drop_last(), b.drop_last()));
    } else if edit_dist(a, b.drop_last()) <= edit_dist(a.drop_last(), b) {
        lemma_script_is_script(a, b.drop_last());
        assert(edit_script(a, b).drop_last() =~= edit_script(a, b.drop_last()));
    } else {
        lemma_script_is_script(a.drop_last(), b);
        assert(edit_script(a, b).drop_last() =~= edit_script(a.drop_last(), b));
    }
}

proof fn lemma_cost_lower_bound<T>(ops: Seq<EditKind>, a: Seq<T>, b: Seq<T>)
    requires
        is_script(ops, a, b),
    ensures
        script_cost(ops) >= edit_dist(a, b),
    decreases ops.len(),
{
    if ops.len() == 0 {
    } else {
        lemma_dist_lipschitz(a, b);
        match ops.last() {
            EditKind::Equal => {
                lemma_cost_lower_bound(ops.drop_last(), a.drop_last(), b.drop_last());
            },
            EditKind::Delete => {
                lemma_cost_lower_bound(ops.drop_last(), a.drop_last(), b);
            },
            EditKind::Insert => {
                lemma_cost_lower_bound(ops.drop_last(), a, b.drop_last());
            },
        }
    }
}

proof fn lemma_is_script_prepend_equal<T>(ops: Seq<EditKind>, x: Seq<T>, y: Seq<T>, h: T)
    requires
        is_script(ops, x, y),
    ensures
        is_script(seq![EditKind::Equal] + ops, seq![h] + x, seq![h] + y),
    decreases ops.len(),
{
    let ops2 = seq![EditKind::Equal] + ops;
    let x2 = seq![h] + x;
    let y2 = seq![h] + y;
    if ops.len() == 0 {
        assert(ops2 =~= seq![EditKind::Equal]);
        assert(ops2.last() == EditKind::Equal);
        assert(x2.last() == h);
        assert(y2.last() == h);
        assert(ops2.drop_last() =~= Seq::<EditKind>::empty());
        assert(x2.drop_last() =~= Seq::<T>::empty());
        assert(y2.drop_last() =~= Seq::<T>::empty());
        assert(is_script(Seq::<EditKind>::empty(), Seq::<T>::empty(), Seq::<T>::empty()));
    } else {
        assert(ops2.last() == ops.last());
        assert(ops2.drop_last() =~= seq![EditKind::Equal] + ops.drop_last());
        match ops.last() {
            EditKind::Equal => {
                lemma_is_script_prepend_equal(ops.drop_last(), x.drop_last(), y.drop_last(), h);
                assert(x2.last() == x.last());
                assert(y2.last() == y.last());
                assert(x2.drop_last() =~= seq![h] + x.drop_last());
                assert(y2.drop_last() =~= seq![h] + y.drop_last());
            },
            EditKind::Delete => {
                lemma_is_script_prepend_equal(ops.drop_last(), x.drop_last(), y, h);
                assert(x2.last() == x.last());
                assert(x2.drop_last() =~= seq![h] + x.drop_last());
            },
            EditKind::Insert => {
                lemma_is_script_prepend_equal(ops.drop_last(), x, y.drop_last(), h);
                assert(y2.last() == y.last());
                assert(y2.drop_last() =~= seq![h] + y.drop_last());
            },
        }
    }
}

proof fn lemma_diff_is_script<T>(a: Seq<T>, b: Seq<T>)
    ensures
        is_script(diff_script(a, b), a, b),
    decreases a.len() + b.len(),
{
    if a.len() > 0 && b.len() > 0 && a[0] == b[0] {
        lemma_diff_is_script(a.drop_first(), b.drop_first());
        lemma_is_script_prepend_equal(
            diff_script(a.drop_first(), b.drop_first()),
            a.drop_first(),
            b.drop_first(),
            a[0],
        );
        assert(seq![a[0]] + a.drop_first() =~= a);
        assert(seq![b[0]] + b.drop_first() =~= b);
    } else {
        lemma_script_is_script(a, b);
    }
}

/// Minimality: the canonical script is a valid transformation of `a` into
/// `b`, and no valid script spends fewer non-Equal ops.
pub proof fn lemma_script_minimal<T>(a: Seq<T>, b: Seq<T>, other: Seq<EditKind>)
    requires
        is_script(other, a, b),
    ensures
        is_script(diff_script(a, b), a, b),
        script_cost(diff_script(a, b)) <= script_cost(other),
{
    lemma_diff_is_script(a, b);
    lemma_diff_script_counts(a, b);
    lemma_cost_lower_bound(other, a, b);
}

/// Largest number of tokens per side that the bounded alignment accepts.
pub const MAX_TOKENS: usize = 2000;

/// The abstract contents of a list of token vectors.
pub open spec fn line_views(s: Seq<Vec<char>>) -> Seq<Seq<char>> {
    Seq::new(s.len(), |i: int| s[i]@)
}

/// Whether the pair fits the bounded alignment: after the shared prefix and
/// suffix are set aside, each remainder has at most `MAX_TOKENS` tokens, and
/// neither whole side overruns the 32-bit positions of the results.
pub open spec fn trimmed_within<T>(a: Seq<T>, b: Seq<T>) -> bool {
    let p = common_prefix_len(a, b) as int;
    let s = common_suffix_len(a.skip(p), b.skip(p)) as int;
    &&& a.len() <= 0x3fff_ffff
    &&& b.len() <= 0x3fff_ffff
    &&& a.len() - p - s <= MAX_TOKENS
    &&& b.len() - p - s <= MAX_TOKENS
}

proof fn lemma_cpl_eq<T>(a: Seq<T>, b: Seq<T>, p: int)
    requires
        0 <= p <= a.len(),
        p <= b.len(),
        forall|t: int| 0 <= t < p ==> a[t] == b[t],
        p == a.len() || p == b.len() || a[p] != b[p],
    ensures
        common_prefix_len(a, b) == p,
    decreases p,
{
    if p == 0 {
    } else {
        assert(a[0] == b[0]);
        let x = a.drop_first();
        let y = b.drop_first();
        assert(forall|t: int| 0 <= t < p - 1 ==> x[t] == y[t]);
        assert(p - 1 == x.len() || p - 1 == y.len() || x[p - 1] != y[p - 1]);
        lemma_cpl_eq(x, y, p - 1);
    }
}

proof fn lemma_csl_eq<T>(a: Seq<T>, b: Seq<T>, s: int)
    requires
        0 <= s <= a.len(),
        s <= b.len(),
        forall|t: int| 0 <= t < s ==> #[trigger] a[a.len() - 1 - t] == b[b.len() - 1 - t],
        s == a.len() || s == b.len() || a[a.len() - 1 - s] != b[b.len() - 1 - s],
    ensures
        common_suffix_len(a, b) == s,
    decreases s,
{
    if s == 0 {
    } else {
        assert(a[a.len() - 1 - 0] == b[b.len() - 1 - 0]);
        assert(a.last() == b.last());
        let x = a.drop_last();
        let y = b.drop_last();
        assert forall|t: int| 0 <= t < s - 1 implies #[trigger] x[x.len() - 1 - t] == y[y.len() - 1
            - t] by {
            assert(a[a.len() - 1 - (t + 1)] == b[b.len() - 1 - (t + 1)]);
        };
        assert(s - 1 == x.len() || s - 1 == y.len() || x[x.len() - 1 - (s - 1)] != y[y.len() - 1 - (
        s - 1)]);
        lemma_csl_eq(x, y, s - 1);
    }
}

/// Token equality, decided character by character.
pub fn chars_eq(x: &Vec<char>, y: &Vec<char>) -> (r: bool)
    ensures
        r == (x@ == y@),
{
    if x.len() != y.len() {
        return false;
    }
    let mut k: usize = 0;
    while k < x.len()
        invariant
            k <= x@.len(),
            x@.len() == y@.len(),
            forall|t: int| 0 <= t < k ==> x@[t] == y@[t],
        decreases x@.len() - k,
    {
        if x[k] != y[k] {
            return false;
        }
        k += 1;
    }
    proof {
        assert(x@ =~= y@);
    }
    true
}

proof fn lemma_dist_unfold<T>(va: Seq<T>, vb: Seq<T>, i: int, j: int)
    requires
        1 <= i <= va.len(),
        1 <= j <= vb.len(),
    ensures
        va[i - 1] == vb[j - 1] ==> edit_dist(va.take(i), vb.take(j)) == edit_dist(
            va.take(i - 1),
            vb.take(j - 1),
        ),
        va[i - 1] != vb[j - 1] ==> edit_dist(va.take(i), vb.take(j)) == 1 + ({
            let ins = edit_dist(va.take(i), vb.take(j - 1));
            let del = edit_dist(va.take(i - 1), vb.take(j));
            if ins <= del {
                ins
            } else {
                del
            }
        }),
{
    let s = va.take(i);
    let t = vb.take(j);
    assert(s.last() == va[i - 1]);
    assert(t.last() == vb[j - 1]);
    assert(s.drop_last() =~= va.take(i - 1));
    assert(t.drop_last() =~= vb.take(j - 1));
}

proof fn lemma_script_unfold<T>(va: Seq<T>, vb: Seq<T>, i: int, j: int)
    requires
        0 <= i <= va.len(),
        0 <= j <= vb.len(),
        i + j > 0,
    ensures
        i == 0 ==> edit_script(va.take(i), vb.take(j)) == edit_script(va.take(i), vb.take(j - 1)).push(
            EditKind::Insert,
        ),
        i > 0 && j == 0 ==> edit_script(va.take(i), vb.take(j)) == edit_script(
            va.take(i - 1),
            vb.take(j),
        ).push(EditKind::Delete),
        i > 0 && j > 0 && va[i - 1] == vb[j - 1] ==> edit_script(va.take(i), vb.take(j))
            == edit_script(va.take(i - 1), vb.take(j - 1)).push(EditKind::Equal),
        i > 0 && j > 0 && va[i - 1] != vb[j - 1] && edit_dist(va.take(i), vb.take(j - 1))
            <= edit_dist(va.take(i - 1), vb.take(j)) ==> edit_script(va.take(i), vb.take(j))
            == edit_script(va.take(i), vb.take(j - 1)).push(EditKind::Insert),
        i > 0 && j > 0 && va[i - 1] != vb[j - 1] && !(edit_dist(va.take(i), vb.take(j - 1))
            <= edit_dist(va.take(i - 1), vb.take(j))) ==> edit_script(va.take(i), vb.take(j))
            == edit_script(va.take(i - 1), vb.take(j)).push(EditKind::Delete),
{
    let s = va.take(i);
    let t = vb.take(j);
    if i == 0 {
        assert(edit_script(s, t) =~= edit_script(s, vb.take(j - 1)).push(EditKind::Insert));
    } else if j == 0 {
        assert(edit_script(s, t) =~= edit_script(va.take(i - 1), t).push(EditKind::Delete));
    } else {
        assert(s.last() == va[i - 1]);
        assert(t.last() == vb[j - 1]);
        assert(s.drop_last() =~= va.take(i - 1));
        assert(t.drop_last() =~= vb.take(j - 1));
    }
}

proof fn lemma_push_reverse<T>(s: Seq<T>, x: T)
    ensures
        (s.push(x)).reverse() =~= seq![x] + s.reverse(),
{
}

/// Bounded table alignment of two token lists: the canonical edit script of
/// exactly the given tokens, or `None` where either side has more than
/// `MAX_TOKENS` of them.
fn align_core(a: &Vec<Vec<char>>, b: &Vec<Vec<char>>) -> (r: Option<Vec<EditKind>>)
    ensures
        r is Some <==> (a@.len() <= MAX_TOKENS && b@.len() <= MAX_TOKENS),
        r matches Some(ops) ==> ops@ == edit_script(line_views(a@), line_views(b@)),
{
    let n = a.len();
    let m = b.len();
    if n > MAX_TOKENS || m > MAX_TOKENS {
        return None;
    }
    let ghost va = line_views(a@);
    let ghost vb = line_views(b@);
    // dist table over prefixes: rows[i][j] is the distance between the first
    // i tokens of a and the first j tokens of b
    let mut row0: Vec<usize> = Vec::new();
    let mut j: usize = 0;
    while j <= m
        invariant
            m == vb.len(),
            m <= MAX_TOKENS,
            j <= m + 1,
            row0@.len() == j,
            forall|t: int| 0 <= t < j ==> row0@[t] == edit_dist(va.take(0), vb.take(t)),
        decreases m + 1 - j,
    {
        proof {
            assert(va.take(0) =~= Seq::<Seq<char>>::empty());
            assert(vb.take(j as int).len() == j);
        }
        row0.push(j);
        j += 1;
    }
    let mut rows: Vec<Vec<usize>> = Vec::new();
    rows.push(row0);
    let mut i: usize = 1;
    while i <= n
        invariant
            n == a@.len(),
            m == b@.len(),
            n <= MAX_TOKENS,
            m <= MAX_TOKENS,
            va == line_views(a@),
            vb == line_views(b@),
            va.len() == n,
            vb.len() == m,
            1 <= i <= n + 1,
            rows@.len() == i,
            forall|ii: int| 0 <= ii < i ==> #[trigger] rows@[ii]@.len() == m + 1,
            forall|ii: int, jj: int|
                0 <= ii < i && 0 <= jj <= m ==> #[trigger] rows@[ii]@[jj] == edit_dist(
                    va.take(ii),
                    vb.take(jj),
                ),
        decreases n + 1 - i,
    {
        let mut cur: Vec<usize> = Vec::new();
        cur.push(i);
        proof {
            assert(vb.take(0) =~= Seq::<Seq<char>>::empty());
            assert(va.take(i as int).len() == i);
        }
        let mut j: usize = 1;
        while j <= m
            invariant
                n == a@.len(),
                m == b@.len(),
                n <= MAX_TOKENS,
                m <= MAX_TOKENS,
                va == line_views(a@),
                vb == line_views(b@),
                va.len() == n,
                vb.len() == m,
                1 <= i <= n,
                rows@.len() == i,
                forall|ii: int| 0 <= ii < i ==> #[trigger] rows@[ii]@.len() == m + 1,
                forall|ii: int, jj: int|
                    0 <= ii < i && 0 <= jj <= m ==> #[trigger] rows@[ii]@[jj] == edit_dist(
                        va.take(ii),
                        vb.take(jj),
                    ),
                1 <= j <= m + 1,
                cur@.len() == j,
                forall|t: int|
                    0 <= t < j ==> #[trigger] cur@[t] == edit_dist(va.take(i as int), vb.take(t)),
            decreases m + 1 - j,
        {
            let eq = chars_eq(&a[i - 1], &b[j - 1]);
            proof {
                assert(va[i - 1] == a@[i - 1]@);
                assert(vb[j - 1] == b@[j - 1]@);
            }
            let v: usize;
            if eq {
                v = rows[i - 1][j - 1];
            } else {
                let del = rows[i - 1][j];
                let ins = cur[j - 1];
                proof {
                    lemma_edit_dist_bound(va.take(i as int - 1), vb.take(j as int));
                    lemma_edit_dist_bound(va.take(i as int), vb.take(j as int - 1));
                }
                v = 1 + (if ins <= del {
                    ins
                } else {
                    del
                });
            }
            proof {
                lemma_dist_unfold(va, vb, i as int, j as int);
            }
            cur.push(v);
            j += 1;
        }
        rows.push(cur);
        i += 1;
    }
    // trace the canonical script back from the far corner
    let mut rev: Vec<EditKind> = Vec::new();
    let mut ti: usize = n;
    let mut tj: usize = m;
    proof {
        assert(va.take(n as int) =~= va);
        assert(vb.take(m as int) =~= vb);
        assert(edit_script(va, vb) =~= edit_script(va.take(ti as int), vb.take(tj as int))
            + rev@.reverse());
    }
    while ti > 0 || tj > 0
        invariant
            n == a@.len(),
            m == b@.len(),
            va == line_views(a@),
            vb == line_views(b@),
            va.len() == n,
            vb.len() == m,
            ti <= n,
            tj <= m,
            rows@.len() == n + 1,
            forall|ii: int| 0 <= ii <= n ==> #[trigger] rows@[ii]@.len() == m + 1,
            forall|ii: int, jj: int|
                0 <= ii <= n && 0 <= jj <= m ==> #[trigger] rows@[ii]@[jj] == edit_dist(
                    va.take(ii),
                    vb.take(jj),
                ),
            edit_script(va, vb) == edit_script(va.take(ti as int), vb.take(tj as int))
                + rev@.reverse(),
        decreases ti + tj,
    {
        let ghost ti0 = ti as int;
        let ghost tj0 = tj as int;
        let ghost pre = edit_script(va.take(ti0), vb.take(tj0));
        proof {
            lemma_script_unfold(va, vb, ti0, tj0);
            if ti > 0 && tj > 0 {
                assert(va[ti0 - 1] == a@[ti0 - 1]@);
                assert(vb[tj0 - 1] == b@[tj0 - 1]@);
            }
        }
        let step: EditKind;
        if ti > 0 && tj > 0 && chars_eq(&a[ti - 1], &b[tj - 1]) {
            step = EditKind::Equal;
            ti -= 1;
            tj -= 1;
        } else if tj > 0 && (ti == 0 || rows[ti][tj - 1] <= rows[ti - 1][tj]) {
            step = EditKind::Insert;
            tj -= 1;
        } else {
            step = EditKind::Delete;
            ti -= 1;
        }
        proof {
            lemma_push_reverse(rev@, step);
            assert(pre == edit_script(va.take(ti as int), vb.take(tj as int)).push(step));
            assert(edit_script(va.take(ti as int), vb.take(tj as int)).push(step) + rev@.reverse()
                =~= edit_script(va.take(ti as int), vb.take(tj as int)) + (rev@.push(
                step,
            )).reverse());
        }
        rev.push(step);
    }
    proof {
        assert(va.take(0) =~= Seq::<Seq<char>>::empty());
        assert(vb.take(0) =~= Seq::<Seq<char>>::empty());
        assert(edit_script(va.take(0), vb.take(0)) =~= Seq::<EditKind>::empty());
        assert(edit_script(va, vb) =~= rev@.reverse());
    }
    let mut ops: Vec<EditKind> = Vec::new();
    let len = rev.len();
    let mut k: usize = 0;
    while k < len
        invariant
            k <= len,
            len == rev@.len(),
            ops@.len() == k,
            forall|t: int| 0 <= t < k ==> ops@[t] == rev@[len - 1 - t],
        decreases len - k,
    {
        ops.push(rev[len - 1 - k]);
        k += 1;
    }
    proof {
        assert(ops@ =~= rev@.reverse());
    }
    Some(ops)
}

fn push_equals(out: &mut Vec<EditKind>, k: usize)
    ensures
        final(out)@ == old(out)@ + Seq::new(k as nat, |i| EditKind::Equal),
{
    proof {
        assert(old(out)@ + Seq::new(0nat, |i| EditKind::Equal) =~= old(out)@);
    }
    let mut t: usize = 0;
    while t < k
        invariant
            t <= k,
            out@ == old(out)@ + Seq::new(t as nat, |i| EditKind::Equal),
        decreases k - t,
    {
        out.push(EditKind::Equal);
        proof {
            assert(old(out)@ + Seq::new((t + 1) as nat, |i| EditKind::Equal) =~= (old(out)@
                + Seq::new(t as nat, |i| EditKind::Equal)).push(EditKind::Equal));
        }
        t += 1;
    }
}

fn push_ops(out: &mut Vec<EditKind>, v: &Vec<EditKind>)
    ensures
        final(out)@ == old(out)@ + v@,
{
    let mut t: usize = 0;
    while t < v.len()
        invariant
            t <= v@.len(),
            out@ == old(out)@ + v@.take(t as int),
        decreases v@.len() - t,
    {
        out.push(v[t]);
        proof {
            assert(old(out)@ + v@.take(t as int + 1) =~= (old(out)@ + v@.take(t as int)).push(
                v@[t as int],
            ));
        }
        t += 1;
    }
    proof {
        assert(v@.take(v@.len() as int) =~= v@);
    }
}

fn copy_lines(a: &Vec<Vec<char>>, from: usize, to: usize) -> (r: Vec<Vec<char>>)
    requires
        from <= to <= a@.len(),
    ensures
        line_views(r@) == line_views(a@).subrange(from as int, to as int),
{
    let mut out: Vec<Vec<char>> = Vec::new();
    let mut k = from;
    while k < to
        invariant
            from <= k <= to <= a@.len(),
            out@.len() == k - from,
            forall|t: int| 0 <= t < out@.len() ==> #[trigger] out@[t]@ == a@[from + t]@,
        decreases to - k,
    {
        let row = &a[k];
        let mut line: Vec<char> = Vec::new();
        let mut q: usize = 0;
        while q < row.len()
            invariant
                q <= row@.len(),
                line@ == row@.take(q as int),
            decreases row@.len() - q,
        {
            line.push(row[q]);
            proof {
                assert(row@.take(q as int + 1) =~= row@.take(q as int).push(row@[q as int]));
            }
            q += 1;
        }
        proof {
            assert(line@ =~= row@);
        }
        out.push(line);
        k += 1;
    }
    proof {
        assert(line_views(out@) =~= line_views(a@).subrange(from as int, to as int));
    }
    out
}

/// Alignment of two token lists: the canonical script of the whole pair, or
/// `None` where the changed middle, after the shared prefix and suffix are
/// set aside, exceeds the bounded table.
#[verifier::rlimit(100)]
pub fn align_lines(a: &Vec<Vec<char>>, b: &Vec<Vec<char>>) -> (r: Option<Vec<EditKind>>)
    ensures
        r is Some <==> trimmed_within(line_views(a@), line_views(b@)),
        r matches Some(ops) ==> ops@ == diff_script(line_views(a@), line_views(b@)),
{
    let ghost va = line_views(a@);
    let ghost vb = line_views(b@);
    let n = a.len();
    let m = b.len();
    if n > 0x3fff_ffff || m > 0x3fff_ffff {
        return None;
    }
    let mut p: usize = 0;
    loop
        invariant
            va == line_views(a@),
            vb == line_views(b@),
            n == a@.len(),
            m == b@.len(),
            p <= n,
            p <= m,
            forall|t: int| 0 <= t < p ==> va[t] == vb[t],
        ensures
            p <= n,
            p <= m,
            forall|t: int| 0 <= t < p ==> va[t] == vb[t],
            p == n || p == m || va[p as int] != vb[p as int],
        decreases n - p,
    {
        if p >= n || p >= m {
            break ;
        }
        let same = chars_eq(&a[p], &b[p]);
        proof {
            assert(va[p as int] == a@[p as int]@);
            assert(vb[p as int] == b@[p as int]@);
        }
        if !same {
            break ;
        }
        p += 1;
    }
    proof {
        lemma_cpl_eq(va, vb, p as int);
    }
    let mut s2: usize = 0;
    loop
        invariant
            va == line_views(a@),
            vb == line_views(b@),
            n == a@.len(),
            m == b@.len(),
            p + s2 <= n,
            p + s2 <= m,
            forall|t: int| 0 <= t < s2 ==> #[trigger] va[n - 1 - t] == vb[m - 1 - t],
        ensures
            p + s2 <= n,
            p + s2 <= m,
            forall|t: int| 0 <= t < s2 ==> #[trigger] va[n - 1 - t] == vb[m - 1 - t],
            p + s2 == n || p + s2 == m || va[n - 1 - s2] != vb[m - 1 - s2],
        decreases n - p - s2,
    {
        if p + s2 >= n || p + s2 >= m {
            break ;
        }
        let same = chars_eq(&a[n - 1 - s2], &b[m - 1 - s2]);
        proof {
            assert(va[n - 1 - s2] == a@[n - 1 - s2 as int]@);
            assert(vb[m - 1 - s2] == b@[m - 1 - s2 as int]@);
        }
        if !same {
            break ;
        }
        s2 += 1;
    }
    let ghost xa = va.skip(p as int);
    let ghost xb = vb.skip(p as int);
    proof {
        assert(forall|t: int|
            0 <= t < s2 ==> #[trigger] xa[xa.len() - 1 - t] == va[n - 1 - t] && xb[xb.len() - 1
                - t] == vb[m - 1 - t]);
        if p + s2 < n && p + s2 < m {
            assert(xa[xa.len() - 1 - s2] == va[n - 1 - s2]);
            assert(xb[xb.len() - 1 - s2] == vb[m - 1 - s2]);
        }
        lemma_csl_eq(xa, xb, s2 as int);
    }
    let mid_n = n - p - s2;
    let mid_m = m - p - s2;
    if mid_n > MAX_TOKENS || mid_m > MAX_TOKENS {
        return None;
    }
    let ma = copy_lines(a, p, n - s2);
    let mb = copy_lines(b, p, m - s2);
    let ops_mid = match align_core(&ma, &mb) {
        Some(o) => o,
        None => {
            proof {
                assert(line_views(ma@).len() == ma@.len());
                assert(line_views(mb@).len() == mb@.len());
                assert(false);
            }
            return None;
        },
    };
    let mut out: Vec<EditKind> = Vec::new();
    push_equals(&mut out, p);
    push_ops(&mut out, &ops_mid);
    push_equals(&mut out, s2);
    proof {
        lemma_diff_script_split(va, vb, p as int);
        let mva = line_views(ma@);
        let mvb = line_views(mb@);
        let suf = va.subrange((n - s2) as int, n as int);
        assert forall|t: int|
            0 <= t < s2 implies suf[t] == vb.subrange((m - s2) as int, m as int)[t] by {
            assert(va[n - 1 - (s2 - 1 - t)] == vb[m - 1 - (s2 - 1 - t)]);
        };
        assert(suf =~= vb.subrange((m - s2) as int, m as int));
        assert forall|k: int| 0 <= k < xa.len() implies xa[k] == (mva + suf)[k] by {
            if k < mva.len() {
                assert(mva[k] == va[p + k]);
            } else {
                assert(suf[k - mva.len()] == va[p + k]);
            }
        };
        assert(xa =~= mva + suf);
        assert forall|k: int| 0 <= k < xb.len() implies xb[k] == (mvb + vb.subrange(
            (m - s2) as int,
            m as int,
        ))[k] by {
            if k < mvb.len() {
                assert(mvb[k] == vb[p + k]);
            } else {
                assert(vb.subrange((m - s2) as int, m as int)[k - mvb.len()] == vb[p + k]);
            }
        };
        assert(xb =~= mvb + vb.subrange((m - s2) as int, m as int));
        lemma_script_append_suffix(mva, mvb, suf);
        assert(edit_script(xa, xb) == edit_script(mva, mvb) + Seq::new(
            s2 as nat,
            |i| EditKind::Equal,
        ));
        assert(out@ =~= Seq::new(p as nat, |i| EditKind::Equal) + (edit_script(mva, mvb)
            + Seq::new(s2 as nat, |i| EditKind::Equal)));
        assert(out@ == diff_script(va, vb));
    }
    Some(out)
}

/// Alignment of two character sequences: the same canonical script, with
/// single characters as the tokens, under the same trimmed bound.
#[verifier::rlimit(100)]
pub fn align_chars(x: &Vec<char>, y: &Vec<char>) -> (r: Option<Vec<EditKind>>)
    ensures
        r is Some <==> trimmed_within(x@, y@),
        r matches Some(ops) ==> ops@ == diff_script(x@, y@),
{
    let n = x.len();
    let m = y.len();
    if n > 0x3fff_ffff || m > 0x3fff_ffff {
        return None;
    }
    let mut p: usize = 0;
    loop
        invariant
            n == x@.len(),
            m == y@.len(),
            p <= n,
            p <= m,
            forall|t: int| 0 <= t < p ==> x@[t] == y@[t],
        ensures
            p <= n,
            p <= m,
            forall|t: int| 0 <= t < p ==> x@[t] == y@[t],
            p == n || p == m || x@[p as int] != y@[p as int],
        decreases n - p,
    {
        if p >= n || p >= m {
            break ;
        }
        if x[p] != y[p] {
            break ;
        }
        p += 1;
    }
    proof {
        lemma_cpl_eq(x@, y@, p as int);
    }
    let mut s2: usize = 0;
    loop
        invariant
            n == x@.len(),
            m == y@.len(),
            p + s2 <= n,
            p + s2 <= m,
            forall|t: int| 0 <= t < s2 ==> #[trigger] x@[n - 1 - t] == y@[m - 1 - t],
        ensures
            p + s2 <= n,
            p + s2 <= m,
            forall|t: int| 0 <= t < s2 ==> #[trigger] x@[n - 1 - t] == y@[m - 1 - t],
            p + s2 == n || p + s2 == m || x@[n - 1 - s2] != y@[m - 1 - s2],
        decreases n - p - s2,
    {
        if p + s2 >= n || p + s2 >= m {
            break ;
        }
        if x[n - 1 - s2] != y[m - 1 - s2] {
            break ;
        }
        s2 += 1;
    }
    let ghost xa = x@.skip(p as int);
    let ghost xb = y@.skip(p as int);
    proof {
        assert(forall|t: int|
            0 <= t < s2 ==> #[trigger] xa[xa.len() - 1 - t] == x@[n - 1 - t] && xb[xb.len() - 1
                - t] == y@[m - 1 - t]);
        if p + s2 < n && p + s2 < m {
            assert(xa[xa.len() - 1 - s2] == x@[n - 1 - s2]);
            assert(xb[xb.len() - 1 - s2] == y@[m - 1 - s2]);
        }
        lemma_csl_eq(xa, xb, s2 as int);
    }
    let mid_n = n - p - s2;
    let mid_m = m - p - s2;
    if mid_n > MAX_TOKENS || mid_m > MAX_TOKENS {
        return None;
    }
    let mut xs: Vec<Vec<char>> = Vec::new();
    let mut k: usize = 0;
    while k < mid_n
        invariant
            n == x@.len(),
            p + s2 + mid_n == n,
            k <= mid_n,
            xs@.len() == k,
            forall|t: int| 0 <= t < k ==> #[trigger] xs@[t]@ == seq![x@[p + t]],
        decreases mid_n - k,
    {
        let mut s: Vec<char> = Vec::new();
        s.push(x[p + k]);
        proof {
            assert(s@ =~= seq![x@[p + k as int]]);
        }
        xs.push(s);
        k += 1;
    }
    let mut ys: Vec<Vec<char>> = Vec::new();
    let mut k: usize = 0;
    while k < mid_m
        invariant
            m == y@.len(),
            p + s2 + mid_m == m,
            k <= mid_m,
            ys@.len() == k,
            forall|t: int| 0 <= t < k ==> #[trigger] ys@[t]@ == seq![y@[p + t]],
        decreases mid_m - k,
    {
        let mut s: Vec<char> = Vec::new();
        s.push(y[p + k]);
        proof {
            assert(s@ =~= seq![y@[p + k as int]]);
        }
        ys.push(s);
        k += 1;
    }
    let ops_mid = match align_core(&xs, &ys) {
        Some(o) => o,
        None => {
            proof {
                assert(false);
            }
            return None;
        },
    };
    let ghost mva = x@.subrange(p as int, (n - s2) as int);
    let ghost mvb = y@.subrange(p as int, (m - s2) as int);
    proof {
        let vxs = line_views(xs@);
        let vys = line_views(ys@);
        assert forall|i: int, j: int|
            0 <= i < vxs.len() && 0 <= j < vys.len() implies ((vxs[i] == vys[j]) <==> (mva[i]
            == mvb[j])) by {
            if vxs[i] == vys[j] {
                assert(vxs[i][0] == vys[j][0]);
            }
        };
        lemma_script_respects(vxs, vys, mva, mvb);
    }
    let mut out: Vec<EditKind> = Vec::new();
    push_equals(&mut out, p);
    push_ops(&mut out, &ops_mid);
    push_equals(&mut out, s2);
    proof {
        lemma_diff_script_split(x@, y@, p as int);
        let suf = x@.subrange((n - s2) as int, n as int);
        assert forall|t: int|
            0 <= t < s2 implies suf[t] == y@.subrange((m - s2) as int, m as int)[t] by {
            assert(x@[n - 1 - (s2 - 1 - t)] == y@[m - 1 - (s2 - 1 - t)]);
        };
        assert(suf =~= y@.subrange((m - s2) as int, m as int));
        assert forall|k: int| 0 <= k < xa.len() implies xa[k] == (mva + suf)[k] by {
            if k < mva.len() {
                assert(mva[k] == x@[p + k]);
            } else {
                assert(suf[k - mva.len()] == x@[p + k]);
            }
        };
        assert(xa =~= mva + suf);
        assert forall|k: int| 0 <= k < xb.len() implies xb[k] == (mvb + y@.subrange(
            (m - s2) as int,
            m as int,
        ))[k] by {
            if k < mvb.len() {
                assert(mvb[k] == y@[p + k]);
            } else {
                assert(y@.subrange((m - s2) as int, m as int)[k - mvb.len()] == y@[p + k]);
            }
        };
        assert(xb =~= mvb + y@.subrange((m - s2) as int, m as int));
        lemma_script_append_suffix(mva, mvb, suf);
        assert(edit_script(xa, xb) == edit_script(mva, mvb) + Seq::new(
            s2 as nat,
            |i| EditKind::Equal,
        ));
        assert(out@ =~= Seq::new(p as nat, |i| EditKind::Equal) + (edit_script(mva, mvb)
            + Seq::new(s2 as nat, |i| EditKind::Equal)));
        assert(out@ == diff_script(x@, y@));
    }
    Some(out)
}

} // verus!
