//! Merge planning: filter the store's records to one tagged family, run
//! the retention engine, and report which checkpoints to keep and which
//! to discard. Planning is pure; only a caller acting on a non-dry-run
//! plan ever touches storage.

use vstd::prelude::*;

use crate::Sort;
use crate::errors::StoreError;
use crate::list::sort_spec;
use crate::list::lemma_sort_spec_multiset;
use crate::list::lemma_sort_spec_sorted;
use crate::list::lemma_sort_spec_of_sorted;
use crate::record::CheckpointMeta;
use crate::record::RecordView;
use crate::retention::Policy;
use crate::retention::discard_of;
use crate::retention::keep_of;
use crate::retention::lemma_keep_distinct_buckets;
use crate::retention::lemma_keep_in_range;
use crate::retention::lemma_keep_of_distinct;
use crate::retention::lemma_keep_sorted;
use crate::retention::lemma_latest_only_keep;
use crate::retention::select;
use crate::text::str_eq;

verus! {

/// Whether a record belongs to the family being merged: its tag matches,
/// and its pid matches when a pid filter is given.
pub open spec fn matches_filter(r: RecordView, tag: Seq<char>, pid: Option<i32>) -> bool {
    r.tag == tag && match pid {
        Some(p) => r.pid == p as int,
        None => true,
    }
}

/// The records of the family being merged, in store order.
pub open spec fn filtered_records(
    records: Seq<CheckpointMeta>,
    tag: Seq<char>,
    pid: Option<i32>,
) -> Seq<CheckpointMeta> {
    records.filter(|r: CheckpointMeta| matches_filter(r@, tag, pid))
}

/// What a merge would do: the records that survive and the records that
/// would be (or were) deleted.
pub struct MergePlan {
    /// Records retained by the policy, ascending by dump time.
    pub keep: Vec<CheckpointMeta>,
    /// Records the merge removes, ascending by dump time.
    pub discard: Vec<CheckpointMeta>,
}

/// Plans a merge of the family selected by `tag` (and `pid`, when given):
/// partitions its records into those the policy keeps and those the merge
/// discards. Fails exactly when the filter matches nothing.
pub fn plan_merge(
    records: Vec<CheckpointMeta>,
    tag: &str,
    pid: Option<i32>,
    policy: Policy,
) -> (r: Result<MergePlan, StoreError>)
    ensures
        ({
            let f = filtered_records(records@, tag@, pid);
            match r {
                Ok(plan) => {
                    &&& f.len() > 0
                    &&& plan.keep@ == keep_of(policy, sort_spec(Sort::Time, f))
                    &&& plan.discard@ == discard_of(policy, sort_spec(Sort::Time, f))
                },
                Err(e) => f.len() == 0 && e is NothingToMerge,
            }
        }),
{
    broadcast use vstd::seq_lib::group_filter_ensures;

    let ghost pred = |r: CheckpointMeta| matches_filter(r@, tag@, pid);
    let mut filtered: Vec<CheckpointMeta> = Vec::new();
    let mut i: usize = 0;
    assert(records@.take(0).filter(pred) =~= Seq::<CheckpointMeta>::empty());
    while i < records.len()
        invariant
            0 <= i <= records@.len(),
            pred == (|r: CheckpointMeta| matches_filter(r@, tag@, pid)),
            filtered@ == records@.take(i as int).filter(pred),
        decreases records@.len() - i,
    {
        let tag_matches = str_eq(records[i].tag.as_str(), tag);
        let pid_matches = match pid {
            Some(p) => records[i].pid == p,
            None => true,
        };
        proof {
            assert(records@.take(i + 1) =~= records@.take(i as int).push(records@[i as int]));
            records@.take(i as int).lemma_filter_push(records@[i as int], pred);
        }
        if tag_matches && pid_matches {
            assert(pred(records@[i as int]));
            let x = records[i].clone();
            filtered.push(x);
            assert(filtered@ =~= records@.take(i + 1).filter(pred));
        } else {
            assert(!pred(records@[i as int]));
            assert(filtered@ =~= records@.take(i + 1).filter(pred));
        }
        i = i + 1;
    }
    assert(records@.take(records@.len() as int) =~= records@);
    if filtered.is_empty() {
        return Err(StoreError::NothingToMerge);
    }
    let (keep, discard) = select(filtered, policy);
    Ok(MergePlan { keep, discard })
}

/// Merge planning is deterministic: the same records, filter and policy
/// always yield the identical partition, so repeated dry runs over an
/// unchanged store produce identical reports — and a dry run, which only
/// plans, changes no record.
pub proof fn lemma_merge_plan_deterministic(
    a: Seq<CheckpointMeta>,
    b: Seq<CheckpointMeta>,
    tag: Seq<char>,
    pid: Option<i32>,
    policy: Policy,
)
    requires
        a == b,
    ensures
        keep_of(policy, sort_spec(Sort::Time, filtered_records(a, tag, pid))) == keep_of(
            policy,
            sort_spec(Sort::Time, filtered_records(b, tag, pid)),
        ),
        discard_of(policy, sort_spec(Sort::Time, filtered_records(a, tag, pid))) == discard_of(
            policy,
            sort_spec(Sort::Time, filtered_records(b, tag, pid)),
        ),
{
}

/// A sequence whose records all match the filter is left whole by it.
proof fn lemma_filter_all(s: Seq<CheckpointMeta>, tag: Seq<char>, pid: Option<i32>)
    requires
        forall|i: int| 0 <= i < s.len() ==> matches_filter(#[trigger] s[i]@, tag, pid),
    ensures
        filtered_records(s, tag, pid) == s,
    decreases s.len(),
{
    broadcast use vstd::seq_lib::group_filter_ensures;

    let pred = |r: CheckpointMeta| matches_filter(r@, tag, pid);
    if s.len() == 0 {
        assert(s.filter(pred) =~= s);
    } else {
        assert(forall|i: int|
            0 <= i < s.drop_last().len() ==> matches_filter(
                #[trigger] s.drop_last()[i]@,
                tag,
                pid,
            ));
        lemma_filter_all(s.drop_last(), tag, pid);
        assert(s =~= s.drop_last().push(s.last()));
        assert(pred(s.last()));
        s.drop_last().lemma_filter_push(s.last(), pred);
        assert(s.filter(pred) =~= s);
    }
}

/// After a real merge, the kept family has converged: running the same
/// merge again finds every kept record matching the filter, keeps all of
/// them, and discards nothing. Under keep-latest-only, exactly one record
/// of the family remains.
pub proof fn lemma_merge_convergence(
    records: Seq<CheckpointMeta>,
    tag: Seq<char>,
    pid: Option<i32>,
    policy: Policy,
)
    ensures
        ({
            let f = filtered_records(records, tag, pid);
            let k = keep_of(policy, sort_spec(Sort::Time, f));
            let f2 = filtered_records(k, tag, pid);
            &&& f2 == k
            &&& keep_of(policy, sort_spec(Sort::Time, f2)) == k
            &&& discard_of(policy, sort_spec(Sort::Time, f2)) == Seq::<CheckpointMeta>::empty()
            &&& (policy is LatestOnly && f.len() > 0 ==> k.len() == 1)
        }),
{
    broadcast use vstd::seq_lib::group_filter_ensures;
    broadcast use vstd::seq_lib::group_to_multiset_ensures;

    let pred = |r: CheckpointMeta| matches_filter(r@, tag, pid);
    let f = filtered_records(records, tag, pid);
    let s = sort_spec(Sort::Time, f);
    let k = keep_of(policy, s);
    lemma_sort_spec_sorted(Sort::Time, f);
    lemma_sort_spec_multiset(Sort::Time, f);
    lemma_keep_sorted(policy, s);
    lemma_keep_distinct_buckets(policy, s);
    lemma_keep_in_range(policy, s);
    // every kept record came through the filter
    assert forall|i: int| 0 <= i < k.len() implies matches_filter(#[trigger] k[i]@, tag, pid) by {
        assert(s.contains(k[i]));
        assert(s.to_multiset().contains(k[i]));
        assert(f.to_multiset().contains(k[i]));
        assert(f.contains(k[i]));
        let w = choose|w: int| 0 <= w < f.len() && f[w] == k[i];
        assert(pred(f[w]));
    }
    lemma_filter_all(k, tag, pid);
    lemma_sort_spec_of_sorted(Sort::Time, k);
    lemma_keep_of_distinct(policy, k);
    if policy is LatestOnly && f.len() > 0 {
        lemma_latest_only_keep(s);
    }
}

} // verus!
