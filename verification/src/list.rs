//! Listing checkpoints in a display-ready order: a stable insertion sort
//! by dump time or by pid, specified as a deterministic function of the
//! input sequence.

use vstd::prelude::*;

use crate::Sort;
use crate::record::CheckpointMeta;
use crate::record::RecordView;
use crate::text::lex_le;
use crate::text::lemma_lex_le_total;
use crate::text::lemma_lex_le_transitive;
use crate::text::str_lex_le;

verus! {

/// The order a sort key imposes on two records.
pub open spec fn le_key(key: Sort, a: RecordView, b: RecordView) -> bool {
    match key {
        Sort::Time => lex_le(a.dump_time, b.dump_time),
        Sort::Pid => a.pid <= b.pid,
    }
}

pub proof fn lemma_le_key_total(key: Sort, a: RecordView, b: RecordView)
    ensures
        le_key(key, a, b) || le_key(key, b, a),
{
    if key is Time {
        lemma_lex_le_total(a.dump_time, b.dump_time);
    }
}

pub proof fn lemma_le_key_transitive(key: Sort, a: RecordView, b: RecordView, c: RecordView)
    requires
        le_key(key, a, b),
        le_key(key, b, c),
    ensures
        le_key(key, a, c),
{
    if key is Time {
        lemma_lex_le_transitive(a.dump_time, b.dump_time, c.dump_time);
    }
}

/// Nondecreasing in the key order, at every pair of positions.
pub open spec fn sorted_by(key: Sort, s: Seq<CheckpointMeta>) -> bool {
    forall|i: int, j: int| 0 <= i < j < s.len() ==> le_key(key, #[trigger] s[i]@, #[trigger] s[j]@)
}

/// Inserts `x` into an already sorted sequence, after every element that
/// compares less-or-equal: a later arrival never overtakes an equal key.
pub open spec fn insert_sorted(key: Sort, t: Seq<CheckpointMeta>, x: CheckpointMeta) -> Seq<
    CheckpointMeta,
>
    decreases t.len(),
{
    if t.len() == 0 {
        seq![x]
    } else if le_key(key, t[0]@, x@) {
        seq![t[0]] + insert_sorted(key, t.drop_first(), x)
    } else {
        seq![x] + t
    }
}

/// The stable sort of `s` under `key`: elements are inserted left to
/// right, so the relative order of equal keys is preserved.
pub open spec fn sort_spec(key: Sort, s: Seq<CheckpointMeta>) -> Seq<CheckpointMeta>
    decreases s.len(),
{
    if s.len() == 0 {
        Seq::empty()
    } else {
        insert_sorted(key, sort_spec(key, s.drop_last()), s.last())
    }
}

pub proof fn lemma_insert_sorted_multiset(key: Sort, t: Seq<CheckpointMeta>, x: CheckpointMeta)
    ensures
        insert_sorted(key, t, x).to_multiset() == t.to_multiset().insert(x),
        insert_sorted(key, t, x).len() == t.len() + 1,
    decreases t.len(),
{
    broadcast use vstd::seq_lib::group_to_multiset_ensures;

    if t.len() == 0 {
        assert(seq![x] =~= Seq::<CheckpointMeta>::empty().push(x));
        assert(seq![x].to_multiset() =~= t.to_multiset().insert(x));
    } else if le_key(key, t[0]@, x@) {
        lemma_insert_sorted_multiset(key, t.drop_first(), x);
        let rec = insert_sorted(key, t.drop_first(), x);
        assert(seq![t[0]] + rec =~= rec.insert(0, t[0]));
        assert((seq![t[0]] + rec).to_multiset() =~= rec.to_multiset().insert(t[0]));
        assert(t =~= t.drop_first().insert(0, t[0]));
        assert(t.to_multiset() =~= t.drop_first().to_multiset().insert(t[0]));
        assert(rec.to_multiset().insert(t[0]) =~= t.to_multiset().insert(x));
    } else {
        assert(seq![x] + t =~= t.insert(0, x));
        assert((seq![x] + t).to_multiset() =~= t.to_multiset().insert(x));
    }
}

pub proof fn lemma_insert_sorted_sorted(key: Sort, t: Seq<CheckpointMeta>, x: CheckpointMeta)
    requires
        sorted_by(key, t),
    ensures
        sorted_by(key, insert_sorted(key, t, x)),
    decreases t.len(),
{
    broadcast use vstd::seq_lib::group_to_multiset_ensures;

    if t.len() == 0 {
    } else if le_key(key, t[0]@, x@) {
        assert(sorted_by(key, t.drop_first())) by {
            assert(forall|i: int, j: int|
                0 <= i < j < t.drop_first().len() ==> le_key(
                    key,
                    #[trigger] t.drop_first()[i]@,
                    #[trigger] t.drop_first()[j]@,
                ));
        }
        lemma_insert_sorted_sorted(key, t.drop_first(), x);
        lemma_insert_sorted_multiset(key, t.drop_first(), x);
        let rec = insert_sorted(key, t.drop_first(), x);
        let out = seq![t[0]] + rec;
        // the head is below every element that follows it
        assert forall|j: int| 1 <= j < out.len() implies le_key(key, out[0]@, out[j]@) by {
            assert(rec.to_multiset().contains(rec[j - 1]));
            assert(rec.to_multiset() == t.drop_first().to_multiset().insert(x));
            if rec[j - 1] == x {
                assert(le_key(key, t[0]@, x@));
            } else {
                assert(t.drop_first().to_multiset().contains(rec[j - 1]));
                let w = choose|w: int|
                    0 <= w < t.drop_first().len() && t.drop_first()[w] == rec[j - 1];
                assert(le_key(key, t[0]@, t.drop_first()[w]@));
            }
        }
        assert forall|i: int, j: int| 0 <= i < j < out.len() implies le_key(
            key,
            out[i]@,
            out[j]@,
        ) by {
            if i >= 1 {
                assert(out[i] == rec[i - 1]);
                assert(out[j] == rec[j - 1]);
            }
        }
    } else {
        lemma_le_key_total(key, t[0]@, x@);
        let out = seq![x] + t;
        assert forall|i: int, j: int| 0 <= i < j < out.len() implies le_key(
            key,
            out[i]@,
            out[j]@,
        ) by {
            if i == 0 {
                assert(le_key(key, x@, t[0]@));
                if j >= 2 {
                    assert(le_key(key, t[0]@, t[j - 1]@));
                    lemma_le_key_transitive(key, x@, t[0]@, t[j - 1]@);
                }
            } else {
                assert(out[i] == t[i - 1]);
                assert(out[j] == t[j - 1]);
            }
        }
    }
}

/// What the stable sort returns is a permutation of its input.
pub proof fn lemma_sort_spec_multiset(key: Sort, s: Seq<CheckpointMeta>)
    ensures
        sort_spec(key, s).to_multiset() == s.to_multiset(),
        sort_spec(key, s).len() == s.len(),
    decreases s.len(),
{
    broadcast use vstd::seq_lib::group_to_multiset_ensures;

    if s.len() > 0 {
        lemma_sort_spec_multiset(key, s.drop_last());
        lemma_insert_sorted_multiset(key, sort_spec(key, s.drop_last()), s.last());
        assert(s =~= s.drop_last().push(s.last()));
        assert(s.to_multiset() =~= s.drop_last().to_multiset().insert(s.last()));
    }
}

/// What the stable sort returns is nondecreasing in the key order.
pub proof fn lemma_sort_spec_sorted(key: Sort, s: Seq<CheckpointMeta>)
    ensures
        sorted_by(key, sort_spec(key, s)),
    decreases s.len(),
{
    if s.len() > 0 {
        lemma_sort_spec_sorted(key, s.drop_last());
        lemma_insert_sorted_sorted(key, sort_spec(key, s.drop_last()), s.last());
    }
}

/// Sorting an already sorted sequence changes nothing.
pub proof fn lemma_sort_spec_of_sorted(key: Sort, s: Seq<CheckpointMeta>)
    requires
        sorted_by(key, s),
    ensures
        sort_spec(key, s) == s,
    decreases s.len(),
{
    if s.len() > 0 {
        assert(sorted_by(key, s.drop_last())) by {
            assert(forall|i: int, j: int|
                0 <= i < j < s.drop_last().len() ==> le_key(
                    key,
                    #[trigger] s.drop_last()[i]@,
                    #[trigger] s.drop_last()[j]@,
                ));
        }
        lemma_sort_spec_of_sorted(key, s.drop_last());
        assert(s =~= s.drop_last().push(s.last()));
        lemma_insert_last_of_sorted(key, s.drop_last(), s.last(), s);
    }
}

proof fn lemma_insert_last_of_sorted(
    key: Sort,
    t: Seq<CheckpointMeta>,
    x: CheckpointMeta,
    s: Seq<CheckpointMeta>,
)
    requires
        s == t.push(x),
        sorted_by(key, s),
    ensures
        insert_sorted(key, t, x) == s,
    decreases t.len(),
{
    if t.len() == 0 {
        assert(insert_sorted(key, t, x) =~= s);
    } else {
        assert(le_key(key, t[0]@, x@)) by {
            assert(s[0] == t[0]);
            assert(s[s.len() - 1] == x);
        }
        assert(sorted_by(key, s.drop_first())) by {
            assert(forall|i: int, j: int|
                0 <= i < j < s.drop_first().len() ==> le_key(
                    key,
                    #[trigger] s.drop_first()[i]@,
                    #[trigger] s.drop_first()[j]@,
                ));
        }
        assert(s.drop_first() =~= t.drop_first().push(x));
        lemma_insert_last_of_sorted(key, t.drop_first(), x, s.drop_first());
        assert(insert_sorted(key, t, x) =~= s);
    }
}

/// Two records the sort key cannot tell apart.
pub open spec fn eq_key(key: Sort, a: RecordView, b: RecordView) -> bool {
    le_key(key, a, b) && le_key(key, b, a)
}

proof fn lemma_filter_none(t: Seq<CheckpointMeta>, pred: spec_fn(CheckpointMeta) -> bool)
    requires
        forall|i: int| 0 <= i < t.len() ==> !pred(#[trigger] t[i]),
    ensures
        t.filter(pred) == Seq::<CheckpointMeta>::empty(),
    decreases t.len(),
{
    if t.len() == 0 {
        assert(t.filter(pred) =~= Seq::<CheckpointMeta>::empty());
    } else {
        assert(forall|i: int| 0 <= i < t.drop_last().len() ==> !pred(#[trigger] t.drop_last()[i]));
        lemma_filter_none(t.drop_last(), pred);
        assert(t =~= t.drop_last().push(t.last()));
        t.drop_last().lemma_filter_push(t.last(), pred);
    }
}

proof fn lemma_insert_sorted_filter(
    key: Sort,
    t: Seq<CheckpointMeta>,
    x: CheckpointMeta,
    pivot: RecordView,
    pred: spec_fn(CheckpointMeta) -> bool,
)
    requires
        sorted_by(key, t),
        pred == (|rec: CheckpointMeta| eq_key(key, rec@, pivot)),
    ensures
        insert_sorted(key, t, x).filter(pred) == if pred(x) {
            t.filter(pred).push(x)
        } else {
            t.filter(pred)
        },
    decreases t.len(),
{
    broadcast use vstd::seq_lib::group_filter_ensures;

    if t.len() == 0 {
        assert(seq![x] =~= Seq::<CheckpointMeta>::empty().push(x));
        Seq::<CheckpointMeta>::empty().lemma_filter_push(x, pred);
        assert(Seq::<CheckpointMeta>::empty().filter(pred)
            =~= Seq::<CheckpointMeta>::empty());
        assert(t.filter(pred) =~= Seq::<CheckpointMeta>::empty());
    } else if le_key(key, t[0]@, x@) {
        assert(sorted_by(key, t.drop_first())) by {
            assert(forall|i: int, j: int|
                0 <= i < j < t.drop_first().len() ==> le_key(
                    key,
                    #[trigger] t.drop_first()[i]@,
                    #[trigger] t.drop_first()[j]@,
                ));
        }
        lemma_insert_sorted_filter(key, t.drop_first(), x, pivot, pred);
        let rec = insert_sorted(key, t.drop_first(), x);
        Seq::<CheckpointMeta>::filter_distributes_over_add(seq![t[0]], rec, pred);
        assert(seq![t[0]] =~= Seq::<CheckpointMeta>::empty().push(t[0]));
        Seq::<CheckpointMeta>::empty().lemma_filter_push(t[0], pred);
        assert(Seq::<CheckpointMeta>::empty().filter(pred)
            =~= Seq::<CheckpointMeta>::empty());
        Seq::<CheckpointMeta>::filter_distributes_over_add(seq![t[0]], t.drop_first(), pred);
        assert(t =~= seq![t[0]] + t.drop_first());
        if pred(x) {
            assert((seq![t[0]] + rec).filter(pred) =~= (seq![t[0]].filter(pred)
                + t.drop_first().filter(pred)).push(x));
            assert((seq![t[0]] + t.drop_first()).filter(pred).push(x) =~= (seq![t[0]].filter(
                pred,
            ) + t.drop_first().filter(pred)).push(x));
        } else {
            assert((seq![t[0]] + rec).filter(pred) =~= (seq![t[0]] + t.drop_first()).filter(
                pred,
            ));
        }
    } else {
        // x lands in front: nothing in t shares its key class
        lemma_le_key_total(key, t[0]@, x@);
        Seq::<CheckpointMeta>::filter_distributes_over_add(seq![x], t, pred);
        assert(seq![x] =~= Seq::<CheckpointMeta>::empty().push(x));
        Seq::<CheckpointMeta>::empty().lemma_filter_push(x, pred);
        assert(Seq::<CheckpointMeta>::empty().filter(pred)
            =~= Seq::<CheckpointMeta>::empty());
        if pred(x) {
            assert forall|i: int| 0 <= i < t.len() implies !pred(#[trigger] t[i]) by {
                if pred(t[i]) {
                    // t[i] and x share the pivot's class, so t[i] <= x,
                    // yet t[0] <= t[i] and x < t[0]
                    lemma_le_key_transitive(key, t[i]@, pivot, x@);
                    if i > 0 {
                        assert(le_key(key, t[0]@, t[i]@));
                        lemma_le_key_transitive(key, t[0]@, t[i]@, x@);
                    }
                    assert(false);
                }
            }
            lemma_filter_none(t, pred);
            assert((seq![x] + t).filter(pred) =~= t.filter(pred).push(x));
        } else {
            assert((seq![x] + t).filter(pred) =~= t.filter(pred));
        }
    }
}

/// The sort is stable: the records of any one key class come out in
/// exactly the order they went in.
pub proof fn lemma_sort_spec_stable(
    key: Sort,
    s: Seq<CheckpointMeta>,
    pivot: RecordView,
    pred: spec_fn(CheckpointMeta) -> bool,
)
    requires
        pred == (|rec: CheckpointMeta| eq_key(key, rec@, pivot)),
    ensures
        sort_spec(key, s).filter(pred) == s.filter(pred),
    decreases s.len(),
{
    broadcast use vstd::seq_lib::group_filter_ensures;

    if s.len() == 0 {
        assert(sort_spec(key, s).filter(pred) =~= s.filter(pred));
    } else {
        lemma_sort_spec_stable(key, s.drop_last(), pivot, pred);
        lemma_sort_spec_sorted(key, s.drop_last());
        lemma_insert_sorted_filter(key, sort_spec(key, s.drop_last()), s.last(), pivot, pred);
        assert(s =~= s.drop_last().push(s.last()));
        s.drop_last().lemma_filter_push(s.last(), pred);
    }
}

/// Exec comparison matching `le_key`.
fn le_records(key: Sort, a: &CheckpointMeta, b: &CheckpointMeta) -> (r: bool)
    ensures
        r == le_key(key, a@, b@),
{
    match key {
        Sort::Time => str_lex_le(a.dump_time.as_str(), b.dump_time.as_str()),
        Sort::Pid => a.pid <= b.pid,
    }
}

/// Where `x` lands when inserted into sorted `t`: just past every element
/// that compares less-or-equal.
proof fn lemma_insert_sorted_at(key: Sort, t: Seq<CheckpointMeta>, x: CheckpointMeta, p: int)
    requires
        0 <= p <= t.len(),
        forall|k: int| 0 <= k < p ==> le_key(key, #[trigger] t[k]@, x@),
        p < t.len() ==> !le_key(key, t[p]@, x@),
    ensures
        insert_sorted(key, t, x) == t.take(p) + seq![x] + t.skip(p),
    decreases t.len(),
{
    if t.len() == 0 {
        assert(insert_sorted(key, t, x) =~= t.take(p) + seq![x] + t.skip(p));
    } else if p == 0 {
        assert(insert_sorted(key, t, x) =~= t.take(0) + seq![x] + t.skip(0));
    } else {
        assert(le_key(key, t[0]@, x@));
        assert(forall|k: int|
            0 <= k < p - 1 ==> le_key(key, #[trigger] t.drop_first()[k]@, x@));
        lemma_insert_sorted_at(key, t.drop_first(), x, p - 1);
        assert(t.drop_first().take(p - 1) =~= t.take(p).drop_first());
        assert(t.drop_first().skip(p - 1) =~= t.skip(p));
        assert(insert_sorted(key, t, x) =~= t.take(p) + seq![x] + t.skip(p));
    }
}

fn insert_record(key: Sort, out: &mut Vec<CheckpointMeta>, x: CheckpointMeta)
    ensures
        final(out)@ == insert_sorted(key, old(out)@, x),
{
    let mut p: usize = 0;
    while p < out.len() && le_records(key, &out[p], &x)
        invariant
            0 <= p <= out@.len(),
            *out == *old(out),
            forall|k: int| 0 <= k < p ==> le_key(key, #[trigger] out@[k]@, x@),
        decreases out@.len() - p,
    {
        p = p + 1;
    }
    proof {
        lemma_insert_sorted_at(key, out@, x, p as int);
    }
    out.insert(p, x);
    assert(final(out)@ =~= old(out)@.take(p as int) + seq![x] + old(out)@.skip(p as int));
}

/// Orders checkpoints for display: a stable sort, by dump time or by pid.
pub fn handle_list(checkpoints: Vec<CheckpointMeta>, sort: Sort) -> (r: Vec<CheckpointMeta>)
    ensures
        r@ == sort_spec(sort, checkpoints@),
{
    let mut out: Vec<CheckpointMeta> = Vec::new();
    let mut i: usize = 0;
    while i < checkpoints.len()
        invariant
            0 <= i <= checkpoints@.len(),
            out@ == sort_spec(sort, checkpoints@.take(i as int)),
        decreases checkpoints@.len() - i,
    {
        let x = checkpoints[i].clone();
        insert_record(sort, &mut out, x);
        proof {
            let cur = checkpoints@.take(i + 1);
            assert(cur.drop_last() =~= checkpoints@.take(i as int));
            assert(cur.last() == checkpoints@[i as int]);
        }
        i = i + 1;
    }
    assert(checkpoints@.take(checkpoints@.len() as int) =~= checkpoints@);
    out
}

} // verus!
