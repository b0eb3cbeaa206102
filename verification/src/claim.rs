//! Resolution of claim references to what the scheduler allocated.

use crate::dra::{
    AllocatedDevice, AllocatedDeviceModel, ClaimRef, ClaimRefModel, PrepareError, PrepareFailure,
    ResolvedClaim, ResolvedClaimModel,
};
use crate::duration::Duration;
use crate::kube_api::{
    AllocationModel, ClaimModel, DeviceRequestAllocationResult, ResourceClaim,
};
use crate::record::{views, Record};
use crate::text::{decimal, decimal_text, same_text};
use vstd::prelude::*;
use vstd::string::*;

verus! {

/// How many claims are read at the same time unless another bound is chosen.
pub const DEFAULT_MAX_CONCURRENT_RESOLVES: usize = 16;

/// How often a claim is read at most unless another number is chosen.
pub const DEFAULT_MAX_ATTEMPTS: usize = 3;

/// The delay before a claim is read again, unless another is chosen.
pub const DEFAULT_RETRY_MILLIS: u64 = 50;

/// Resolves the bare references that kubelet hands a driver, by what the claim
/// objects of the API server say.
#[derive(Clone, Copy, Debug)]
pub struct ClaimResolver {
    max_concurrent_resolves: usize,
    max_attempts: usize,
    retry_delay: Duration,
}

/// What follows a read of a claim: another read after a delay, or the result.
#[derive(Debug, PartialEq, Eq)]
pub enum ResolveStep {
    Retry(Duration),
    Done(Result<ResolvedClaim, PrepareError>),
}

/// What a [`ResolveStep`] says.
pub enum ResolveModel {
    Retry(nat),
    Done(Result<ResolvedClaimModel, PrepareFailure>),
}

/// The result of a resolution, over views.
pub open spec fn resolution(result: Result<ResolvedClaim, PrepareError>) -> Result<
    ResolvedClaimModel,
    PrepareFailure,
> {
    match result {
        Ok(resolved) => Ok(resolved@),
        Err(error) => Err(error@),
    }
}

impl View for ResolveStep {
    type V = ResolveModel;

    open spec fn view(&self) -> ResolveModel {
        match *self {
            ResolveStep::Retry(delay) => ResolveModel::Retry(delay@),
            ResolveStep::Done(result) => ResolveModel::Done(resolution(result)),
        }
    }
}

/// The claim's name with its namespace, as messages show it.
pub open spec fn claim_path(claim: ClaimRefModel) -> Seq<char> {
    "ResourceClaim "@ + claim.namespace + "/"@ + claim.name
}

/// The device of an allocation result. An empty request name counts as none.
pub open spec fn allocated_device(result: AllocationModel) -> AllocatedDeviceModel {
    AllocatedDeviceModel {
        pool_name: result.pool,
        device_name: result.device,
        request_name: if result.request.len() == 0 {
            None
        } else {
            Some(result.request)
        },
    }
}

/// The devices of allocation results.
pub open spec fn allocated_devices(results: Seq<AllocationModel>) -> Seq<AllocatedDeviceModel> {
    Seq::new(results.len(), |i: int| allocated_device(results[i]))
}

/// What a claim object makes of a reference. The UID decides: an object of the
/// same name with another UID is another claim.
pub open spec fn resolved(claim_ref: ClaimRefModel, claim: ClaimModel) -> Result<
    ResolvedClaimModel,
    PrepareFailure,
> {
    if claim.uid_text() != claim_ref.uid {
        Err(
            PrepareFailure::ResolutionFailed(
                claim_path(claim_ref) + " uid mismatch: expected "@ + claim_ref.uid + ", found "@
                    + claim.uid_text(),
            ),
        )
    } else {
        match claim.allocation {
            None => Err(PrepareFailure::ClaimNotAllocated(claim_ref)),
            Some(results) => Ok(
                ResolvedClaimModel { claim: claim_ref, devices: allocated_devices(results) },
            ),
        }
    }
}

/// What follows the read number `attempt` of a claim.
pub open spec fn resolve_step(
    max_attempts: nat,
    retry_delay: nat,
    claim_ref: ClaimRefModel,
    attempt: nat,
    reply: Result<ClaimModel, Seq<char>>,
) -> ResolveModel {
    match reply {
        Ok(claim) => ResolveModel::Done(resolved(claim_ref, claim)),
        Err(error) => if attempt < max_attempts {
            ResolveModel::Retry(retry_delay)
        } else {
            ResolveModel::Done(
                Err(
                    PrepareFailure::ResolutionFailed(
                        "failed to fetch "@ + claim_path(claim_ref) + " after "@ + decimal_text(
                            attempt,
                        ) + " attempt(s): "@ + error,
                    ),
                ),
            )
        },
    }
}

fn path_of(claim: &ClaimRef) -> (text: String)
    ensures
        text@ == claim_path(claim@),
{
    let mut text = "ResourceClaim ".to_owned();
    text.append(claim.namespace.as_str());
    text.append("/");
    text.append(claim.name.as_str());
    text
}

fn devices_of(results: &Vec<DeviceRequestAllocationResult>) -> (devices: Vec<AllocatedDevice>)
    ensures
        views(devices@) == allocated_devices(views(results@)),
{
    let mut devices: Vec<AllocatedDevice> = Vec::new();
    let mut i: usize = 0;
    while i < results.len()
        invariant
            i <= results@.len(),
            devices@.len() == i,
            forall|j: int|
                0 <= j < i ==> (#[trigger] devices@[j])@ == allocated_device(results@[j]@),
        decreases results@.len() - i,
    {
        let result = &results[i];
        devices.push(
            AllocatedDevice {
                pool_name: result.pool.clone(),
                device_name: result.device.clone(),
                request_name: if result.request.as_str().is_empty() {
                    None
                } else {
                    Some(result.request.clone())
                },
            },
        );
        i += 1;
    }
    proof {
        assert(views(devices@) =~= allocated_devices(views(results@)));
    }
    devices
}

/// Resolves a reference by the claim object that was read.
pub fn resolve_claim(claim_ref: &ClaimRef, claim: &ResourceClaim) -> (result: Result<
    ResolvedClaim,
    PrepareError,
>)
    ensures
        resolution(result) == resolved(claim_ref@, claim@),
{
    let found_uid = claim.uid_text();
    if !same_text(found_uid, claim_ref.uid.as_str()) {
        let mut text = path_of(claim_ref);
        text.append(" uid mismatch: expected ");
        text.append(claim_ref.uid.as_str());
        text.append(", found ");
        text.append(found_uid);
        return Err(PrepareError::ResolutionFailed(text));
    }
    let allocation = match &claim.status {
        Some(status) => match &status.allocation {
            Some(allocation) => allocation,
            None => {
                return Err(PrepareError::ClaimNotAllocated(claim_ref.copy()));
            },
        },
        None => {
            return Err(PrepareError::ClaimNotAllocated(claim_ref.copy()));
        },
    };
    let devices: Vec<AllocatedDevice> = match &allocation.devices {
        Some(devices) => match &devices.results {
            Some(results) => devices_of(results),
            None => Vec::new(),
        },
        None => Vec::new(),
    };
    proof {
        assert(views(devices@) =~= allocated_devices(claim@.allocation->0));
    }
    Ok(ResolvedClaim { claim: claim_ref.copy(), devices })
}

impl ClaimResolver {
    /// How many claims are read at the same time at most.
    pub closed spec fn concurrency(self) -> nat {
        self.max_concurrent_resolves as nat
    }

    /// How often a claim is read at most.
    pub closed spec fn attempts(self) -> nat {
        self.max_attempts as nat
    }

    /// The delay before a claim is read again.
    pub closed spec fn delay(self) -> nat {
        self.retry_delay@
    }

    #[verifier::type_invariant]
    closed spec fn inv(self) -> bool {
        1 <= self.max_concurrent_resolves && 1 <= self.max_attempts
    }

    /// A resolver with the default bounds.
    pub fn new() -> (resolver: ClaimResolver)
        ensures
            resolver.concurrency() == DEFAULT_MAX_CONCURRENT_RESOLVES,
            resolver.attempts() == DEFAULT_MAX_ATTEMPTS,
            resolver.delay() == DEFAULT_RETRY_MILLIS * 1_000_000,
            resolver.concurrency() == 16,
            resolver.attempts() == 3,
            resolver.delay() == 50_000_000,
    {
        ClaimResolver {
            max_concurrent_resolves: DEFAULT_MAX_CONCURRENT_RESOLVES,
            max_attempts: DEFAULT_MAX_ATTEMPTS,
            retry_delay: Duration::from_millis(DEFAULT_RETRY_MILLIS),
        }
    }

    /// Bounds how many claims are read at the same time; zero counts as one.
    #[must_use]
    pub fn with_max_concurrent_resolves(self, max_concurrent_resolves: usize) -> (resolver:
        ClaimResolver)
        ensures
            resolver.concurrency() == if max_concurrent_resolves == 0 {
                1
            } else {
                max_concurrent_resolves as nat
            },
            resolver.attempts() == self.attempts(),
            resolver.delay() == self.delay(),
    {
        proof {
            use_type_invariant(&self);
        }
        ClaimResolver {
            max_concurrent_resolves: if max_concurrent_resolves == 0 {
                1
            } else {
                max_concurrent_resolves
            },
            max_attempts: self.max_attempts,
            retry_delay: self.retry_delay,
        }
    }

    /// Bounds how often a claim is read, and sets the delay between reads; zero
    /// attempts count as one.
    #[must_use]
    pub fn with_retry_policy(self, max_attempts: usize, retry_delay: Duration) -> (resolver:
        ClaimResolver)
        ensures
            resolver.concurrency() == self.concurrency(),
            resolver.attempts() == if max_attempts == 0 {
                1
            } else {
                max_attempts as nat
            },
            resolver.delay() == retry_delay@,
    {
        proof {
            use_type_invariant(&self);
        }
        ClaimResolver {
            max_concurrent_resolves: self.max_concurrent_resolves,
            max_attempts: if max_attempts == 0 {
                1
            } else {
                max_attempts
            },
            retry_delay,
        }
    }

    /// How many claims may be read at the same time.
    pub fn max_concurrent_resolves(&self) -> (bound: usize)
        ensures
            bound == self.concurrency(),
            bound >= 1,
    {
        proof {
            use_type_invariant(self);
        }
        self.max_concurrent_resolves
    }

    /// Goes on after the read number `attempt` of a claim, counted from one: a
    /// failed read is repeated while attempts are left.
    pub fn resolve(
        &self,
        claim_ref: &ClaimRef,
        attempt: usize,
        reply: Result<ResourceClaim, String>,
    ) -> (step: ResolveStep)
        ensures
            step@ == resolve_step(
                self.attempts(),
                self.delay(),
                claim_ref@,
                attempt as nat,
                match reply {
                    Ok(claim) => Ok(claim@),
                    Err(error) => Err(error@),
                },
            ),
    {
        match reply {
            Ok(claim) => ResolveStep::Done(resolve_claim(claim_ref, &claim)),
            Err(error) => {
                if attempt < self.max_attempts {
                    return ResolveStep::Retry(self.retry_delay);
                }
                let mut text = "failed to fetch ".to_owned();
                text.append(path_of(claim_ref).as_str());
                text.append(" after ");
                text.append(decimal(attempt as u64).as_str());
                text.append(" attempt(s): ");
                text.append(error.as_str());
                proof {
                    assert(text@ =~= "failed to fetch "@ + claim_path(claim_ref@) + " after "@
                        + decimal_text(attempt as nat) + " attempt(s): "@ + error@);
                }
                ResolveStep::Done(Err(PrepareError::ResolutionFailed(text)))
            },
        }
    }
}

/// Puts an item behind all those whose index is not greater than its own.
pub open spec fn insert_by_index<T>(sorted: Seq<(usize, T)>, item: (usize, T)) -> Seq<(usize, T)>
    decreases sorted.len(),
{
    if sorted.len() > 0 && item.0 < sorted.last().0 {
        insert_by_index(sorted.drop_last(), item).push(sorted.last())
    } else {
        sorted.push(item)
    }
}

/// Items in the order of their indices; those with the same index keep their
/// order.
pub open spec fn by_index<T>(items: Seq<(usize, T)>) -> Seq<(usize, T)>
    decreases items.len(),
{
    if items.len() == 0 {
        Seq::empty()
    } else {
        insert_by_index(by_index(items.drop_last()), items.last())
    }
}

proof fn lemma_insert_by_index<T>(sorted: Seq<(usize, T)>, item: (usize, T), i: int)
    requires
        0 <= i <= sorted.len(),
        forall|j: int| i <= j < sorted.len() ==> item.0 < (#[trigger] sorted[j]).0,
        i > 0 ==> item.0 >= sorted[i - 1].0,
    ensures
        insert_by_index(sorted, item) == sorted.insert(i, item),
    decreases sorted.len(),
{
    if i < sorted.len() {
        let last = sorted.len() - 1;
        assert(item.0 < sorted[last].0);
        lemma_insert_by_index(sorted.drop_last(), item, i);
        assert(sorted.insert(i, item) =~= sorted.drop_last().insert(i, item).push(sorted[last]));
    } else {
        assert(sorted.insert(i, item) =~= sorted.push(item));
    }
}

impl ClaimResolver {
    /// Puts the results of a batch, as they came in, back into the order of the
    /// request: each comes with the index of its claim.
    pub fn resolve_all<T>(finished: Vec<(usize, T)>) -> (results: Vec<T>)
        ensures
            results@ == by_index(finished@).map_values(|item: (usize, T)| item.1),
    {
        let ghost given = finished@;
        let mut sorted: Vec<(usize, T)> = Vec::new();
        proof {
            assert(given.take(0) =~= Seq::empty());
        }
        for item in it: finished
            invariant
                it.seq() == given,
                sorted@ == by_index(given.take(it.index())),
        {
            let mut i: usize = sorted.len();
            while i > 0 && item.0 < sorted[i - 1].0
                invariant
                    i <= sorted@.len(),
                    forall|j: int| i <= j < sorted@.len() ==> item.0 < (#[trigger] sorted@[j]).0,
                decreases i,
            {
                i -= 1;
            }
            proof {
                lemma_insert_by_index(sorted@, item, i as int);
                assert(given.take(it.index() + 1).drop_last() =~= given.take(it.index()));
                assert(given.take(it.index() + 1).last() == item);
            }
            sorted.insert(i, item);
        }
        proof {
            assert(given.take(given.len() as int) =~= given);
        }
        let ghost ordered = sorted@;
        let mut results: Vec<T> = Vec::new();
        for item in it: sorted
            invariant
                it.seq() == ordered,
                results@ == ordered.take(it.index()).map_values(|item: (usize, T)| item.1),
        {
            let ghost earlier = results@;
            results.push(item.1);
            proof {
                let f = |item: (usize, T)| item.1;
                assert(ordered.take(it.index() + 1) =~= ordered.take(it.index()).push(item));
                assert(ordered.take(it.index() + 1).map_values(f) =~= earlier.push(item.1));
            }
        }
        proof {
            assert(ordered.take(ordered.len() as int) =~= ordered);
        }
        results
    }
}

} // verus!
