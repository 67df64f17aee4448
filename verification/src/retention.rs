//! The retention engine: given the records of one tagged family, decide
//! which checkpoints to keep and which to discard.
//!
//! Records are bucketed by a prefix of their dump timestamp — nothing for
//! keep-latest-only, the date for daily, the date and hour for hourly —
//! and the chronologically latest record of each bucket survives.

use vstd::prelude::*;

use crate::Sort;
use crate::list::handle_list;
use crate::list::le_key;
use crate::list::sort_spec;
use crate::list::sorted_by;
use crate::record::CheckpointMeta;
use crate::text::lemma_lex_le_antisymmetric;
use crate::text::lemma_take_at_most_monotone;
use crate::text::lex_le;
use crate::text::same_truncation;
use crate::text::take_at_most;

verus! {

/// Which checkpoints of a tagged family survive a merge.
#[derive(Clone, Copy, Debug)]
pub enum Policy {
    /// Keep only the chronologically latest checkpoint.
    LatestOnly,
    /// Keep the latest checkpoint of each calendar day.
    DailyBucket,
    /// Keep the latest checkpoint of each hour.
    HourlyBucket,
}

/// How many leading characters of the dump timestamp form the retention
/// bucket key: the date is the first ten, the date and hour the first
/// thirteen.
pub open spec fn bucket_width(policy: Policy) -> int {
    match policy {
        Policy::LatestOnly => 0,
        Policy::DailyBucket => 10,
        Policy::HourlyBucket => 13,
    }
}

/// The retention bucket a dump timestamp falls into.
pub open spec fn bucket_of(policy: Policy, dump_time: Seq<char>) -> Seq<char> {
    take_at_most(dump_time, bucket_width(policy))
}

/// The kept records of a sequence sorted ascending by dump time: each
/// record whose bucket differs from its successor's, which is the latest
/// record of its bucket.
pub open spec fn keep_of(policy: Policy, s: Seq<CheckpointMeta>) -> Seq<CheckpointMeta>
    decreases s.len(),
{
    if s.len() == 0 {
        Seq::empty()
    } else if s.len() == 1 {
        s
    } else if bucket_of(policy, s[0]@.dump_time) == bucket_of(policy, s[1]@.dump_time) {
        keep_of(policy, s.drop_first())
    } else {
        seq![s[0]] + keep_of(policy, s.drop_first())
    }
}

/// The discarded records: the complement of `keep_of`, in the same order.
pub open spec fn discard_of(policy: Policy, s: Seq<CheckpointMeta>) -> Seq<CheckpointMeta>
    decreases s.len(),
{
    if s.len() <= 1 {
        Seq::empty()
    } else if bucket_of(policy, s[0]@.dump_time) == bucket_of(policy, s[1]@.dump_time) {
        seq![s[0]] + discard_of(policy, s.drop_first())
    } else {
        discard_of(policy, s.drop_first())
    }
}

/// Keep and discard partition the input: together they hold exactly the
/// input's records.
pub proof fn lemma_keep_discard_partition(policy: Policy, s: Seq<CheckpointMeta>)
    ensures
        keep_of(policy, s).to_multiset().add(discard_of(policy, s).to_multiset())
            == s.to_multiset(),
        keep_of(policy, s).len() + discard_of(policy, s).len() == s.len(),
    decreases s.len(),
{
    broadcast use vstd::seq_lib::group_to_multiset_ensures;

    if s.len() == 0 {
        assert(keep_of(policy, s).to_multiset().add(discard_of(policy, s).to_multiset())
            =~= s.to_multiset());
    } else if s.len() == 1 {
        assert(discard_of(policy, s).to_multiset().len() == 0);
        assert(keep_of(policy, s).to_multiset().add(discard_of(policy, s).to_multiset())
            =~= s.to_multiset());
    } else {
        lemma_keep_discard_partition(policy, s.drop_first());
        assert(s =~= s.drop_first().insert(0, s[0]));
        assert(s.to_multiset() =~= s.drop_first().to_multiset().insert(s[0]));
        if bucket_of(policy, s[0]@.dump_time) == bucket_of(policy, s[1]@.dump_time) {
            let d = discard_of(policy, s.drop_first());
            assert(seq![s[0]] + d =~= d.insert(0, s[0]));
            assert((seq![s[0]] + d).to_multiset() =~= d.to_multiset().insert(s[0]));
            assert(keep_of(policy, s).to_multiset().add(discard_of(policy, s).to_multiset())
                =~= s.to_multiset());
        } else {
            let k = keep_of(policy, s.drop_first());
            assert(seq![s[0]] + k =~= k.insert(0, s[0]));
            assert((seq![s[0]] + k).to_multiset() =~= k.to_multiset().insert(s[0]));
            assert(keep_of(policy, s).to_multiset().add(discard_of(policy, s).to_multiset())
                =~= s.to_multiset());
        }
    }
}

/// A nonempty input always keeps something, and always keeps its last
/// (latest) record.
pub proof fn lemma_keep_last(policy: Policy, s: Seq<CheckpointMeta>)
    requires
        s.len() > 0,
    ensures
        keep_of(policy, s).len() > 0,
        keep_of(policy, s).last() == s.last(),
    decreases s.len(),
{
    if s.len() > 1 {
        lemma_keep_last(policy, s.drop_first());
        assert(s.drop_first().last() == s.last());
    }
}

/// Under keep-latest-only every record shares the one empty bucket, so
/// exactly the last record of the sorted input is kept.
pub proof fn lemma_latest_only_keep(s: Seq<CheckpointMeta>)
    requires
        s.len() > 0,
    ensures
        keep_of(Policy::LatestOnly, s) == seq![s.last()],
    decreases s.len(),
{
    assert(forall|t: Seq<char>| take_at_most(t, 0) =~= Seq::<char>::empty());
    if s.len() == 1 {
        assert(s =~= seq![s.last()]);
    } else {
        lemma_latest_only_keep(s.drop_first());
        assert(bucket_of(Policy::LatestOnly, s[0]@.dump_time) == bucket_of(
            Policy::LatestOnly,
            s[1]@.dump_time,
        ));
        assert(s.drop_first().last() == s.last());
    }
}

/// In a sequence sorted by time, buckets are nondecreasing.
proof fn lemma_buckets_monotone(policy: Policy, s: Seq<CheckpointMeta>, i: int, j: int)
    requires
        sorted_by(Sort::Time, s),
        0 <= i <= j < s.len(),
    ensures
        lex_le(bucket_of(policy, s[i]@.dump_time), bucket_of(policy, s[j]@.dump_time)),
{
    if i == j {
        crate::text::lemma_lex_le_total(
            bucket_of(policy, s[i]@.dump_time),
            bucket_of(policy, s[i]@.dump_time),
        );
    } else {
        assert(le_key(Sort::Time, s[i]@, s[j]@));
        lemma_take_at_most_monotone(s[i]@.dump_time, s[j]@.dump_time, bucket_width(policy));
    }
}

/// Distinct kept records lie in distinct buckets.
pub proof fn lemma_keep_distinct_buckets(policy: Policy, s: Seq<CheckpointMeta>)
    requires
        sorted_by(Sort::Time, s),
    ensures
        forall|i: int, j: int|
            0 <= i < j < keep_of(policy, s).len() ==> bucket_of(
                policy,
                #[trigger] keep_of(policy, s)[i]@.dump_time,
            ) != bucket_of(policy, #[trigger] keep_of(policy, s)[j]@.dump_time),
    decreases s.len(),
{
    let k = keep_of(policy, s);
    if s.len() <= 1 {
    } else {
        assert(sorted_by(Sort::Time, s.drop_first())) by {
            assert(forall|i: int, j: int|
                0 <= i < j < s.drop_first().len() ==> le_key(
                    Sort::Time,
                    #[trigger] s.drop_first()[i]@,
                    #[trigger] s.drop_first()[j]@,
                ));
        }
        lemma_keep_distinct_buckets(policy, s.drop_first());
        lemma_keep_in_range(policy, s.drop_first());
        let k2 = keep_of(policy, s.drop_first());
        if bucket_of(policy, s[0]@.dump_time) == bucket_of(policy, s[1]@.dump_time) {
            assert(k == k2);
            assert forall|i: int, j: int| 0 <= i < j < k.len() implies bucket_of(
                policy,
                k[i]@.dump_time,
            ) != bucket_of(policy, k[j]@.dump_time) by {
                assert(k[i] == k2[i]);
                assert(k[j] == k2[j]);
            }
        } else {
            assert forall|i: int, j: int| 0 <= i < j < k.len() implies bucket_of(
                policy,
                k[i]@.dump_time,
            ) != bucket_of(policy, k[j]@.dump_time) by {
                if i == 0 {
                    let b0 = bucket_of(policy, s[0]@.dump_time);
                    let b1 = bucket_of(policy, s[1]@.dump_time);
                    let bj = bucket_of(policy, k2[j - 1]@.dump_time);
                    assert(s.drop_first().contains(k2[j - 1]));
                    let w = choose|w: int|
                        0 <= w < s.drop_first().len() && s.drop_first()[w] == k2[j - 1];
                    lemma_buckets_monotone(policy, s, 0, 1);
                    lemma_buckets_monotone(policy, s.drop_first(), 0, w);
                    assert(bucket_of(policy, s.drop_first()[0]@.dump_time) == b1);
                    if b0 == bj {
                        lemma_lex_le_antisymmetric(b0, b1);
                        assert(false);
                    }
                } else {
                    assert(k[i] == k2[i - 1]);
                    assert(k[j] == k2[j - 1]);
                }
            }
        }
    }
}

/// Every kept record is one of the input's records.
pub proof fn lemma_keep_in_range(policy: Policy, s: Seq<CheckpointMeta>)
    ensures
        forall|i: int|
            0 <= i < keep_of(policy, s).len() ==> s.contains(#[trigger] keep_of(policy, s)[i]),
    decreases s.len(),
{
    let k = keep_of(policy, s);
    if s.len() <= 1 {
        assert forall|i: int| 0 <= i < k.len() implies s.contains(k[i]) by {
            assert(s[0] == k[i]);
        }
    } else {
        lemma_keep_in_range(policy, s.drop_first());
        let k2 = keep_of(policy, s.drop_first());
        assert forall|i: int| 0 <= i < k.len() implies s.contains(k[i]) by {
            if bucket_of(policy, s[0]@.dump_time) == bucket_of(policy, s[1]@.dump_time) {
                assert(s.drop_first().contains(k2[i]));
                let w = choose|w: int|
                    0 <= w < s.drop_first().len() && s.drop_first()[w] == k2[i];
                assert(s[w + 1] == k[i]);
            } else {
                if i == 0 {
                    assert(s[0] == k[0]);
                } else {
                    assert(s.drop_first().contains(k2[i - 1]));
                    let w = choose|w: int|
                        0 <= w < s.drop_first().len() && s.drop_first()[w] == k2[i - 1];
                    assert(s[w + 1] == k[i]);
                }
            }
        }
    }
}

/// Some kept record lies in the same bucket as `r` and is at least as
/// late.
pub open spec fn covered(policy: Policy, s: Seq<CheckpointMeta>, r: CheckpointMeta) -> bool {
    exists|w: int|
        0 <= w < keep_of(policy, s).len() && bucket_of(policy, r@.dump_time) == bucket_of(
            policy,
            (#[trigger] keep_of(policy, s)[w])@.dump_time,
        ) && lex_le(r@.dump_time, keep_of(policy, s)[w]@.dump_time)
}

/// Every record's bucket survives: some kept record lies in the same
/// bucket and is at least as late.
pub proof fn lemma_keep_covers(policy: Policy, s: Seq<CheckpointMeta>)
    requires
        sorted_by(Sort::Time, s),
    ensures
        forall|r: int| 0 <= r < s.len() ==> covered(policy, s, #[trigger] s[r]),
    decreases s.len(),
{
    let k = keep_of(policy, s);
    if s.len() == 0 {
    } else if s.len() == 1 {
        assert forall|r: int| 0 <= r < s.len() implies covered(policy, s, s[r]) by {
            crate::text::lemma_lex_le_total(s[0]@.dump_time, s[0]@.dump_time);
            assert(0 <= 0 < k.len() && bucket_of(policy, s[0]@.dump_time) == bucket_of(
                policy,
                k[0]@.dump_time,
            ) && lex_le(s[0]@.dump_time, k[0]@.dump_time));
        }
    } else {
        assert(sorted_by(Sort::Time, s.drop_first())) by {
            assert(forall|i: int, j: int|
                0 <= i < j < s.drop_first().len() ==> le_key(
                    Sort::Time,
                    #[trigger] s.drop_first()[i]@,
                    #[trigger] s.drop_first()[j]@,
                ));
        }
        lemma_keep_covers(policy, s.drop_first());
        let k2 = keep_of(policy, s.drop_first());
        if bucket_of(policy, s[0]@.dump_time) == bucket_of(policy, s[1]@.dump_time) {
            assert(k == k2);
            assert forall|r: int| 0 <= r < s.len() implies covered(policy, s, s[r]) by {
                if r == 0 {
                    assert(covered(policy, s.drop_first(), s[1]));
                    let w = choose|w: int|
                        0 <= w < k2.len() && bucket_of(policy, s[1]@.dump_time) == bucket_of(
                            policy,
                            (#[trigger] k2[w])@.dump_time,
                        ) && lex_le(s[1]@.dump_time, k2[w]@.dump_time);
                    assert(le_key(Sort::Time, s[0]@, s[1]@));
                    crate::text::lemma_lex_le_transitive(
                        s[0]@.dump_time,
                        s[1]@.dump_time,
                        k2[w]@.dump_time,
                    );
                    assert(0 <= w < k.len() && bucket_of(policy, s[0]@.dump_time)
                        == bucket_of(policy, k[w]@.dump_time) && lex_le(
                        s[0]@.dump_time,
                        k[w]@.dump_time,
                    ));
                } else {
                    assert(s.drop_first()[r - 1] == s[r]);
                    assert(covered(policy, s.drop_first(), s[r]));
                    let w = choose|w: int|
                        0 <= w < k2.len() && bucket_of(policy, s[r]@.dump_time) == bucket_of(
                            policy,
                            (#[trigger] k2[w])@.dump_time,
                        ) && lex_le(s[r]@.dump_time, k2[w]@.dump_time);
                    assert(0 <= w < k.len() && bucket_of(policy, s[r]@.dump_time)
                        == bucket_of(policy, k[w]@.dump_time) && lex_le(
                        s[r]@.dump_time,
                        k[w]@.dump_time,
                    ));
                }
            }
        } else {
            assert(k == seq![s[0]] + k2);
            assert forall|r: int| 0 <= r < s.len() implies covered(policy, s, s[r]) by {
                if r == 0 {
                    crate::text::lemma_lex_le_total(s[0]@.dump_time, s[0]@.dump_time);
                    assert(k[0] == s[0]);
                    assert(0 <= 0 < k.len() && bucket_of(policy, s[0]@.dump_time)
                        == bucket_of(policy, k[0]@.dump_time) && lex_le(
                        s[0]@.dump_time,
                        k[0]@.dump_time,
                    ));
                } else {
                    assert(s.drop_first()[r - 1] == s[r]);
                    assert(covered(policy, s.drop_first(), s[r]));
                    let w = choose|w: int|
                        0 <= w < k2.len() && bucket_of(policy, s[r]@.dump_time) == bucket_of(
                            policy,
                            (#[trigger] k2[w])@.dump_time,
                        ) && lex_le(s[r]@.dump_time, k2[w]@.dump_time);
                    assert(k[w + 1] == k2[w]);
                    assert(0 <= w + 1 < k.len() && bucket_of(policy, s[r]@.dump_time)
                        == bucket_of(policy, k[w + 1]@.dump_time) && lex_le(
                        s[r]@.dump_time,
                        k[w + 1]@.dump_time,
                    ));
                }
            }
        }
    }
}

/// Keeping preserves the sorted order.
pub proof fn lemma_keep_sorted(policy: Policy, s: Seq<CheckpointMeta>)
    requires
        sorted_by(Sort::Time, s),
    ensures
        sorted_by(Sort::Time, keep_of(policy, s)),
    decreases s.len(),
{
    let k = keep_of(policy, s);
    if s.len() <= 1 {
    } else {
        assert(sorted_by(Sort::Time, s.drop_first())) by {
            assert(forall|i: int, j: int|
                0 <= i < j < s.drop_first().len() ==> le_key(
                    Sort::Time,
                    #[trigger] s.drop_first()[i]@,
                    #[trigger] s.drop_first()[j]@,
                ));
        }
        lemma_keep_sorted(policy, s.drop_first());
        lemma_keep_in_range(policy, s.drop_first());
        let k2 = keep_of(policy, s.drop_first());
        if bucket_of(policy, s[0]@.dump_time) != bucket_of(policy, s[1]@.dump_time) {
            assert(k == seq![s[0]] + k2);
            assert forall|i: int, j: int| 0 <= i < j < k.len() implies le_key(
                Sort::Time,
                k[i]@,
                k[j]@,
            ) by {
                if i == 0 {
                    assert(s.drop_first().contains(k2[j - 1]));
                    let w = choose|w: int|
                        0 <= w < s.drop_first().len() && s.drop_first()[w] == k2[j - 1];
                    assert(le_key(Sort::Time, s[0]@, s[w + 1]@));
                } else {
                    assert(k[i] == k2[i - 1]);
                    assert(k[j] == k2[j - 1]);
                }
            }
        }
    }
}

/// An input whose records already lie in pairwise distinct buckets is kept
/// whole: nothing is discarded.
pub proof fn lemma_keep_of_distinct(policy: Policy, s: Seq<CheckpointMeta>)
    requires
        forall|i: int, j: int|
            0 <= i < j < s.len() ==> bucket_of(policy, #[trigger] s[i]@.dump_time) != bucket_of(
                policy,
                #[trigger] s[j]@.dump_time,
            ),
    ensures
        keep_of(policy, s) == s,
        discard_of(policy, s) == Seq::<CheckpointMeta>::empty(),
    decreases s.len(),
{
    if s.len() <= 1 {
    } else {
        assert(bucket_of(policy, s[0]@.dump_time) != bucket_of(policy, s[1]@.dump_time));
        assert(forall|i: int, j: int|
            0 <= i < j < s.drop_first().len() ==> bucket_of(
                policy,
                #[trigger] s.drop_first()[i]@.dump_time,
            ) != bucket_of(policy, #[trigger] s.drop_first()[j]@.dump_time));
        lemma_keep_of_distinct(policy, s.drop_first());
        assert(keep_of(policy, s) =~= s);
    }
}

/// Exec width of the retention bucket key.
fn bucket_width_exec(policy: Policy) -> (w: usize)
    ensures
        w as int == bucket_width(policy),
{
    match policy {
        Policy::LatestOnly => 0,
        Policy::DailyBucket => 10,
        Policy::HourlyBucket => 13,
    }
}

/// Partitions the records of one tagged family into those to keep and
/// those to discard: the input is sorted ascending by dump time, and the
/// latest record of each retention bucket survives.
pub fn select(records: Vec<CheckpointMeta>, policy: Policy) -> (r: (
    Vec<CheckpointMeta>,
    Vec<CheckpointMeta>,
))
    ensures
        r.0@ == keep_of(policy, sort_spec(Sort::Time, records@)),
        r.1@ == discard_of(policy, sort_spec(Sort::Time, records@)),
{
    let width = bucket_width_exec(policy);
    let sorted = handle_list(records, Sort::Time);
    let ghost full = sorted@;
    let mut keep: Vec<CheckpointMeta> = Vec::new();
    let mut discard: Vec<CheckpointMeta> = Vec::new();
    let mut i: usize = 0;
    assert(full.skip(0) =~= full);
    while i < sorted.len()
        invariant
            width as int == bucket_width(policy),
            0 <= i <= full.len(),
            sorted@ == full,
            keep_of(policy, full) == keep@ + keep_of(policy, full.skip(i as int)),
            discard_of(policy, full) == discard@ + discard_of(policy, full.skip(i as int)),
        decreases full.len() - i,
    {
        let ghost tail = full.skip(i as int);
        assert(tail[0] == full[i as int]);
        if i + 1 == sorted.len() {
            assert(tail.len() == 1);
            assert(keep_of(policy, tail) == tail);
            let x = sorted[i].clone();
            keep.push(x);
            proof {
                assert(tail =~= seq![full[i as int]]);
                assert(full.skip(i + 1).len() == 0);
                assert(keep_of(policy, full.skip(i + 1)) =~= Seq::<CheckpointMeta>::empty());
                assert(discard_of(policy, full.skip(i + 1))
                    =~= Seq::<CheckpointMeta>::empty());
            }
            assert(keep@ + keep_of(policy, full.skip(i + 1)) =~= keep_of(policy, full));
            assert(discard@ + discard_of(policy, full.skip(i + 1)) =~= discard_of(
                policy,
                full,
            ));
            i = i + 1;
        } else {
            assert(tail.len() >= 2);
            assert(tail[1] == full[i + 1]);
            assert(tail.drop_first() =~= full.skip(i + 1));
            let same = same_truncation(
                sorted[i].dump_time.as_str(),
                sorted[i + 1].dump_time.as_str(),
                width,
            );
            let x = sorted[i].clone();
            assert(same == (bucket_of(policy, tail[0]@.dump_time) == bucket_of(
                policy,
                tail[1]@.dump_time,
            )));
            if same {
                assert(keep_of(policy, tail) == keep_of(policy, full.skip(i + 1)));
                assert(discard_of(policy, tail) == seq![full[i as int]] + discard_of(
                    policy,
                    full.skip(i + 1),
                ));
                discard.push(x);
                assert(discard@ + discard_of(policy, full.skip(i + 1)) =~= discard_of(
                    policy,
                    full,
                ));
            } else {
                assert(keep_of(policy, tail) == seq![full[i as int]] + keep_of(
                    policy,
                    full.skip(i + 1),
                ));
                assert(discard_of(policy, tail) == discard_of(policy, full.skip(i + 1)));
                keep.push(x);
                assert(keep@ + keep_of(policy, full.skip(i + 1)) =~= keep_of(policy, full));
            }
            i = i + 1;
        }
    }
    assert(full.skip(full.len() as int).len() == 0);
    assert(keep_of(policy, full.skip(full.len() as int)) =~= Seq::<CheckpointMeta>::empty());
    assert(discard_of(policy, full.skip(full.len() as int)) =~= Seq::<CheckpointMeta>::empty());
    assert(keep@ =~= keep_of(policy, full));
    assert(discard@ =~= discard_of(policy, full));
    (keep, discard)
}

} // verus!
