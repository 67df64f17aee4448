//! Short-id prefix resolution: map a user-typed prefix to exactly one
//! checkpoint id, or report why that is impossible.

use vstd::prelude::*;

use crate::errors::StoreError;
use crate::text::is_prefix_of;
use crate::text::str_starts_with;

verus! {

/// The store ids that start with `prefix`, in store order.
pub open spec fn matching_ids(ids: Seq<String>, prefix: Seq<char>) -> Seq<String> {
    ids.filter(|s: String| is_prefix_of(prefix, s@))
}

/// Resolves a short id prefix against the store's directory names.
/// A prefix shorter than four characters is rejected; otherwise exactly
/// one match resolves, no match is not found, and two or more matches are
/// ambiguous, with every matching id listed.
pub fn find_by_prefix(prefix: &str, ids: &Vec<String>) -> (r: Result<String, StoreError>)
    ensures
        ({
            let m = matching_ids(ids@, prefix@);
            match r {
                Ok(id) => prefix@.len() >= 4 && m.len() == 1 && id@ == m[0]@,
                Err(e) => match e {
                    StoreError::InvalidPrefix => prefix@.len() < 4,
                    StoreError::NotFound => prefix@.len() >= 4 && m.len() == 0,
                    StoreError::Ambiguous(list) => prefix@.len() >= 4 && m.len() >= 2 && list@
                        == m,
                    _ => false,
                },
            }
        }),
{
    broadcast use vstd::seq_lib::group_filter_ensures;

    if prefix.unicode_len() < 4 {
        return Err(StoreError::InvalidPrefix);
    }
    let ghost pred = |s: String| is_prefix_of(prefix@, s@);
    let mut matches: Vec<String> = Vec::new();
    let mut i: usize = 0;
    assert(ids@.take(0).filter(pred) =~= Seq::<String>::empty());
    while i < ids.len()
        invariant
            0 <= i <= ids@.len(),
            pred == (|s: String| is_prefix_of(prefix@, s@)),
            matches@ == ids@.take(i as int).filter(pred),
        decreases ids@.len() - i,
    {
        proof {
            assert(ids@.take(i + 1) =~= ids@.take(i as int).push(ids@[i as int]));
            ids@.take(i as int).lemma_filter_push(ids@[i as int], pred);
        }
        if str_starts_with(ids[i].as_str(), prefix) {
            assert(pred(ids@[i as int]));
            let x = ids[i].clone();
            matches.push(x);
            assert(matches@ =~= ids@.take(i + 1).filter(pred));
        } else {
            assert(!pred(ids@[i as int]));
            assert(matches@ =~= ids@.take(i + 1).filter(pred));
        }
        i = i + 1;
    }
    assert(ids@.take(ids@.len() as int) =~= ids@);
    if matches.len() == 0 {
        Err(StoreError::NotFound)
    } else if matches.len() == 1 {
        let id = matches[0].clone();
        Ok(id)
    } else {
        Err(StoreError::Ambiguous(matches))
    }
}

} // verus!
