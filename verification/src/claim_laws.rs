//! What holds of every resolution of claims.

use crate::claim::{
    allocated_device, by_index, insert_by_index, resolution, resolve_step, resolved, ResolveStep,
};
use crate::dra::{ClaimRef, ClaimRefModel, PrepareError, ResolvedClaim};
use crate::kube_api::{ClaimModel, ResourceClaim};
use crate::record::views;
use crate::text::decimal_text;
use vstd::prelude::*;

verus! {

/// How often a claim is read from attempt number `attempt` on, given what each
/// read brings.
pub open spec fn reads_made(
    max_attempts: nat,
    retry_delay: nat,
    claim_ref: ClaimRefModel,
    attempt: nat,
    replies: Seq<Result<ClaimModel, Seq<char>>>,
) -> nat
    decreases replies.len(),
{
    if replies.len() == 0 {
        0
    } else {
        let step = resolve_step(max_attempts, retry_delay, claim_ref, attempt, replies[0]);
        if step is Retry {
            1 + reads_made(
                max_attempts,
                retry_delay,
                claim_ref,
                attempt + 1,
                replies.drop_first(),
            )
        } else {
            1
        }
    }
}

proof fn lemma_reads_left(
    max_attempts: nat,
    retry_delay: nat,
    claim_ref: ClaimRefModel,
    attempt: nat,
    replies: Seq<Result<ClaimModel, Seq<char>>>,
)
    requires
        attempt <= max_attempts,
    ensures
        reads_made(max_attempts, retry_delay, claim_ref, attempt, replies) <= max_attempts - attempt
            + 1,
    decreases replies.len(),
{
    if replies.len() > 0 && attempt < max_attempts {
        lemma_reads_left(
            max_attempts,
            retry_delay,
            claim_ref,
            attempt + 1,
            replies.drop_first(),
        );
    }
}

/// However often reads fail, a claim is read at most as often as the resolver
/// allows.
pub proof fn law_reads_are_bounded(
    max_attempts: nat,
    retry_delay: nat,
    claim_ref: ClaimRefModel,
    replies: Seq<Result<ClaimModel, Seq<char>>>,
)
    requires
        max_attempts >= 1,
    ensures
        reads_made(max_attempts, retry_delay, claim_ref, 1, replies) <= max_attempts,
{
    lemma_reads_left(max_attempts, retry_delay, claim_ref, 1, replies);
}

/// A claim object with another UID never resolves a reference, whatever it
/// allocates.
pub proof fn law_other_claims_do_not_resolve(claim_ref: ClaimRefModel, claim: ClaimModel)
    requires
        claim.uid_text() != claim_ref.uid,
    ensures
        resolved(claim_ref, claim) is Err,
{
}

/// A resolved claim is the one that was asked for.
pub proof fn law_resolved_claim_is_the_requested_one(claim_ref: ClaimRefModel, claim: ClaimModel)
    ensures
        match resolved(claim_ref, claim) {
            Ok(result) => result.claim == claim_ref && claim.uid_text() == claim_ref.uid,
            Err(_) => true,
        },
{
}

spec fn index_sorted<T>(items: Seq<(usize, T)>) -> bool {
    forall|i: int, j: int|
        0 <= i < j < items.len() ==> (#[trigger] items[i]).0 <= (#[trigger] items[j]).0
}

proof fn lemma_place_by_index<T>(sorted: Seq<(usize, T)>, item: (usize, T)) -> (i: int)
    requires
        index_sorted(sorted),
    ensures
        0 <= i <= sorted.len(),
        insert_by_index(sorted, item) == sorted.insert(i, item),
        index_sorted(sorted.insert(i, item)),
    decreases sorted.len(),
{
    if sorted.len() > 0 && item.0 < sorted.last().0 {
        let last = sorted.len() - 1;
        let rest = sorted.drop_last();
        assert forall|a: int, b: int| 0 <= a < b < rest.len() implies (#[trigger] rest[a]).0 <= (
        #[trigger] rest[b]).0 by {
            assert(rest[a] == sorted[a] && rest[b] == sorted[b]);
        }
        let i = lemma_place_by_index(rest, item);
        let inner = rest.insert(i, item);
        let all = sorted.insert(i, item);
        assert(all =~= inner.push(sorted[last]));
        assert forall|a: int, b: int| 0 <= a < b < all.len() implies (#[trigger] all[a]).0 <= (
        #[trigger] all[b]).0 by {
            if b < inner.len() {
                assert(all[a] == inner[a] && all[b] == inner[b]);
            } else if a != i {
                let x = if a < i { a } else { a - 1 };
                assert(all[a] == sorted[x]);
                assert(sorted[x].0 <= sorted[last].0);
            }
        }
        i
    } else {
        let i = sorted.len() as int;
        let all = sorted.insert(i, item);
        assert(all =~= sorted.push(item));
        assert forall|a: int, b: int| 0 <= a < b < all.len() implies (#[trigger] all[a]).0 <= (
        #[trigger] all[b]).0 by {
            if b == i && a < i - 1 {
                assert(sorted[a].0 <= sorted[i - 1].0);
            }
        }
        i
    }
}

proof fn lemma_by_index<T>(items: Seq<(usize, T)>)
    ensures
        index_sorted(by_index(items)),
        by_index(items).to_multiset() == items.to_multiset(),
        by_index(items).len() == items.len(),
    decreases items.len(),
{
    if items.len() > 0 {
        let rest = items.drop_last();
        let item = items.last();
        lemma_by_index(rest);
        let i = lemma_place_by_index(by_index(rest), item);
        vstd::seq_lib::to_multiset_insert(by_index(rest), i, item);
        rest.to_multiset_ensures();
        assert(rest.push(item) =~= items);
    } else {
        assert(by_index(items) =~= items);
    }
}

/// The items carry the indices of a request, each once.
pub open spec fn numbered<T>(items: Seq<(usize, T)>) -> bool {
    &&& forall|i: int| 0 <= i < items.len() ==> (#[trigger] items[i]).0 < items.len()
    &&& forall|i: int, j: int|
        0 <= i < j < items.len() ==> (#[trigger] items[i]).0 != (#[trigger] items[j]).0
}

proof fn lemma_sorted_numbers<T>(items: Seq<(usize, T)>, k: int)
    requires
        index_sorted(items),
        numbered(items),
        0 <= k < items.len(),
    ensures
        items[k].0 >= k,
        items[k].0 <= k,
    decreases k,
{
    lemma_at_least(items, k);
    lemma_at_most(items, k);
}

proof fn lemma_at_least<T>(items: Seq<(usize, T)>, k: int)
    requires
        index_sorted(items),
        numbered(items),
        0 <= k < items.len(),
    ensures
        items[k].0 >= k,
    decreases k,
{
    if k > 0 {
        lemma_at_least(items, k - 1);
        assert(items[k - 1].0 <= items[k].0);
        assert(items[k - 1].0 != items[k].0);
    }
}

proof fn lemma_at_most<T>(items: Seq<(usize, T)>, k: int)
    requires
        index_sorted(items),
        numbered(items),
        0 <= k < items.len(),
    ensures
        items[k].0 <= k,
    decreases items.len() - k,
{
    if k < items.len() - 1 {
        lemma_at_most(items, k + 1);
        assert(items[k].0 <= items[k + 1].0);
        assert(items[k].0 != items[k + 1].0);
    } else {
        assert(items[k].0 < items.len());
    }
}

/// However the reads of a batch finish, their results come back in the order of
/// the request: at each place stands the item with that index.
pub proof fn law_request_order_is_restored<T>(items: Seq<(usize, T)>, j: int)
    requires
        numbered(items),
        0 <= j < items.len(),
    ensures
        by_index(items).len() == items.len(),
        by_index(items)[items[j].0 as int] == items[j],
{
    let sorted = by_index(items);
    lemma_by_index(items);
    items.to_multiset_ensures();
    sorted.to_multiset_ensures();
    assert(items.no_duplicates()) by {
        assert forall|a: int, b: int| 0 <= a < b < items.len() implies items[a] != items[b] by {}
    }
    assert forall|a: int| 0 <= a < sorted.len() implies items.contains(#[trigger] sorted[a]) by {
        assert(sorted.contains(sorted[a]));
        assert(sorted.to_multiset().count(sorted[a]) > 0);
    }
    items.lemma_multiset_has_no_duplicates();
    sorted.lemma_multiset_has_no_duplicates_conv();
    assert(sorted.no_duplicates());
    assert(numbered(sorted)) by {
        assert forall|a: int| 0 <= a < sorted.len() implies (#[trigger] sorted[a]).0 < sorted.len() by {
            let x = items.index_of(sorted[a]);
            assert(items[x] == sorted[a]);
        }
        assert forall|a: int, b: int| 0 <= a < b < sorted.len() implies (#[trigger] sorted[a]).0 != (
        #[trigger] sorted[b]).0 by {
            let x = items.index_of(sorted[a]);
            let y = items.index_of(sorted[b]);
            assert(items[x] == sorted[a] && items[y] == sorted[b]);
            assert(sorted[a] != sorted[b]);
            if x < y {
                assert(items[x].0 != items[y].0);
            } else {
                assert(items[y].0 != items[x].0);
            }
        }
    }
    assert(items.contains(items[j]));
    assert(items.to_multiset().count(items[j]) > 0);
    assert(sorted.contains(items[j]));
    let k = sorted.index_of(items[j]);
    lemma_sorted_numbers(sorted, k);
}

/// A claim resolves exactly where the object has the UID of the reference and is
/// allocated, and then to the reference itself and to every device of its
/// allocation: as many as it has results, each in its place by pool and name,
/// for the request that it is named for. Otherwise the reason is told.
pub proof fn law_claims_resolve_to_their_allocation(
    claim_ref: ClaimRef,
    claim: ResourceClaim,
    result: Result<ResolvedClaim, PrepareError>,
)
    requires
        resolution(result) == resolved(claim_ref@, claim@),
    ensures
        ({
            let found = match claim.uid {
                Some(uid) => uid@,
                None => Seq::empty(),
            };
            let allocation = match claim.status {
                Some(status) => status.allocation,
                None => None,
            };
            match result {
                Ok(resolved) => {
                    &&& found == claim_ref.uid@
                    &&& resolved.claim.uid@ == claim_ref.uid@
                    &&& resolved.claim.namespace@ == claim_ref.namespace@
                    &&& resolved.claim.name@ == claim_ref.name@
                    &&& match allocation {
                        Some(allocation) => match allocation.devices {
                            Some(devices) => match devices.results {
                                Some(results) => {
                                    &&& resolved.devices@.len() == results@.len()
                                    &&& forall|i: int|
                                        0 <= i < results@.len() ==> {
                                            let from = #[trigger] results@[i];
                                            let device = resolved.devices@[i];
                                            &&& device.pool_name@ == from.pool@
                                            &&& device.device_name@ == from.device@
                                            &&& match device.request_name {
                                                Some(name) => name@ == from.request@
                                                    && from.request@.len() > 0,
                                                None => from.request@.len() == 0,
                                            }
                                        }
                                },
                                None => resolved.devices@.len() == 0,
                            },
                            None => resolved.devices@.len() == 0,
                        },
                        None => false,
                    }
                },
                Err(PrepareError::ClaimNotAllocated(named)) => {
                    &&& found == claim_ref.uid@
                    &&& allocation is None
                    &&& named.uid@ == claim_ref.uid@
                    &&& named.namespace@ == claim_ref.namespace@
                    &&& named.name@ == claim_ref.name@
                },
                Err(PrepareError::ResolutionFailed(text)) => {
                    &&& found != claim_ref.uid@
                    &&& text@ == "ResourceClaim "@ + claim_ref.namespace@ + "/"@ + claim_ref.name@
                        + " uid mismatch: expected "@ + claim_ref.uid@ + ", found "@ + found
                },
                Err(_) => false,
            }
        }),
{
    if let Ok(resolved) = result {
        assert(views(resolved.devices@).len() == resolved.devices@.len());
        let results = claim@.allocation->0;
        assert forall|i: int| 0 <= i < results.len() implies resolved.devices@[i]@
            == allocated_device(#[trigger] results[i]) by {
            assert(views(resolved.devices@)[i] == resolved.devices@[i]@);
        }
        match claim.status->0.allocation->0.devices {
            Some(devices) => match devices.results {
                Some(given) => {
                    assert forall|i: int| 0 <= i < given@.len() implies {
                        let from = #[trigger] given@[i];
                        let device = resolved.devices@[i];
                        &&& device.pool_name@ == from.pool@
                        &&& device.device_name@ == from.device@
                        &&& match device.request_name {
                            Some(name) => name@ == from.request@ && from.request@.len() > 0,
                            None => from.request@.len() == 0,
                        }
                    } by {
                        assert(results[i] == given@[i]@);
                    }
                },
                None => {},
            },
            None => {},
        }
    }
}

/// What follows a read: the object that was read decides; a read that failed is
/// repeated after the delay while the resolver allows another one, and is told
/// with its cause afterwards.
pub proof fn law_reads_are_decided_by_their_reply(
    max_attempts: nat,
    retry_delay: nat,
    claim_ref: ClaimRef,
    attempt: nat,
    reply: Result<ResourceClaim, String>,
    step: ResolveStep,
)
    requires
        step@ == resolve_step(
            max_attempts,
            retry_delay,
            claim_ref@,
            attempt,
            match reply {
                Ok(claim) => Ok(claim@),
                Err(error) => Err(error@),
            },
        ),
    ensures
        match (reply, step) {
            (Ok(claim), ResolveStep::Done(result)) => resolution(result) == resolved(
                claim_ref@,
                claim@,
            ),
            (Err(_), ResolveStep::Retry(delay)) => attempt < max_attempts && delay@ == retry_delay,
            (
                Err(error),
                ResolveStep::Done(Err(PrepareError::ResolutionFailed(text))),
            ) => attempt >= max_attempts && text@ == "failed to fetch ResourceClaim "@
                + claim_ref.namespace@ + "/"@ + claim_ref.name@ + " after "@ + decimal_text(attempt)
                + " attempt(s): "@ + error@,
            _ => false,
        },
{
    match (reply, step) {
        (Err(error), ResolveStep::Done(Err(PrepareError::ResolutionFailed(text)))) => {
            reveal_strlit("failed to fetch ");
            reveal_strlit("ResourceClaim ");
            reveal_strlit("failed to fetch ResourceClaim ");
            assert("failed to fetch ResourceClaim "@ =~= "failed to fetch "@ + "ResourceClaim "@);
            assert(text@ =~= "failed to fetch ResourceClaim "@ + claim_ref.namespace@ + "/"@
                + claim_ref.name@ + " after "@ + decimal_text(attempt) + " attempt(s): "@ + error@);
        },
        _ => {},
    }
}

} // verus!
