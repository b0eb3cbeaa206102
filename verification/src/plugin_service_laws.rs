//! What holds of every answer to kubelet about claims.

use crate::dra::{prepare_text, ClaimRef, ClaimRefModel, PrepareError, ResolvedClaim};
use crate::ordered_map::OrderedMap;
use crate::plugin_service::{
    outcome_of, outcomes_left, preparations, prepare_response, prepare_responses, resolve_failures,
    resolved_claims, unprepare_responses, Claim, NodePrepareResourceResponse,
    NodeUnprepareResourceResponse, OutcomesModel, Preparations, Resolution,
};
use crate::record::{map_views, views};
use crate::text::debug_text;
use vstd::prelude::*;

verus! {

/// Every requested claim has an answer under its UID, and nothing else has.
pub proof fn law_every_claim_is_answered(
    outcomes: OutcomesModel,
    claims: Seq<ClaimRefModel>,
    uid: Seq<char>,
)
    ensures
        prepare_responses(outcomes, claims).dom().contains(uid) <==> exists|i: int|
            0 <= i < claims.len() && (#[trigger] claims[i]).uid == uid,
    decreases claims.len(),
{
    if claims.len() > 0 {
        let rest = claims.drop_last();
        law_every_claim_is_answered(outcomes, rest, uid);
        if exists|i: int| 0 <= i < rest.len() && (#[trigger] rest[i]).uid == uid {
            let i = choose|i: int| 0 <= i < rest.len() && (#[trigger] rest[i]).uid == uid;
            assert(claims[i].uid == uid);
        }
        if claims.last().uid == uid {
            assert(claims[claims.len() - 1].uid == uid);
        }
        if exists|i: int| 0 <= i < claims.len() && (#[trigger] claims[i]).uid == uid {
            let i = choose|i: int| 0 <= i < claims.len() && (#[trigger] claims[i]).uid == uid;
            if i < rest.len() {
                assert(rest[i].uid == uid);
            }
        }
    }
}

proof fn lemma_outcome_left(
    outcomes: OutcomesModel,
    claims: Seq<ClaimRefModel>,
    claim: ClaimRefModel,
)
    requires
        !claims.contains(claim),
    ensures
        outcome_of(outcomes_left(outcomes, claims), claim) == outcome_of(outcomes, claim),
        outcomes_left(outcomes, claims).failures.dom().contains(claim)
            <==> outcomes.failures.dom().contains(claim),
        outcomes_left(outcomes, claims).prepared.dom().contains(claim)
            <==> outcomes.prepared.dom().contains(claim),
    decreases claims.len(),
{
    if claims.len() > 0 {
        let rest = claims.drop_last();
        assert(claims.contains(claims[claims.len() - 1]));
        assert forall|other: ClaimRefModel| rest.contains(other) implies claims.contains(other) by {
            assert(claims[rest.index_of(other)] == other);
        }
        lemma_outcome_left(outcomes, rest, claim);
    }
}

/// No two claims of the request have the same UID.
pub open spec fn distinct_uids(claims: Seq<ClaimRefModel>) -> bool {
    forall|i: int, j: int|
        0 <= i < j < claims.len() ==> (#[trigger] claims[i]).uid != (#[trigger] claims[j]).uid
}

/// A claim is answered by its own outcome alone: whatever happens to the other
/// claims of the request, its answer is the same.
pub proof fn law_claims_are_answered_by_themselves(
    outcomes: OutcomesModel,
    claims: Seq<ClaimRefModel>,
    i: int,
)
    requires
        distinct_uids(claims),
        0 <= i < claims.len(),
    ensures
        prepare_responses(outcomes, claims).dom().contains(claims[i].uid),
        prepare_responses(outcomes, claims)[claims[i].uid] == prepare_response(
            outcome_of(outcomes, claims[i]),
        ),
    decreases claims.len(),
{
    let rest = claims.drop_last();
    let last = claims.len() - 1;
    assert forall|a: int, b: int| 0 <= a < b < rest.len() implies (#[trigger] rest[a]).uid != (
    #[trigger] rest[b]).uid by {
        assert(rest[a] == claims[a] && rest[b] == claims[b]);
    }
    if i < last {
        law_claims_are_answered_by_themselves(outcomes, rest, i);
        assert(claims[i].uid != claims[last].uid);
    } else {
        if rest.contains(claims[i]) {
            let j = rest.index_of(claims[i]);
            assert(claims[j].uid != claims[last].uid);
        }
        lemma_outcome_left(outcomes, rest, claims[i]);
    }
}

/// Every claim to be unprepared has an answer under its UID, and nothing else
/// has.
pub proof fn law_every_unprepared_claim_is_answered(
    finished: Seq<(ClaimRef, Result<(), PrepareError>)>,
    uid: Seq<char>,
)
    ensures
        unprepare_responses(finished).dom().contains(uid) <==> exists|i: int|
            0 <= i < finished.len() && (#[trigger] finished[i]).0@.uid == uid,
    decreases finished.len(),
{
    if finished.len() > 0 {
        let rest = finished.drop_last();
        law_every_unprepared_claim_is_answered(rest, uid);
        if exists|i: int| 0 <= i < rest.len() && (#[trigger] rest[i]).0@.uid == uid {
            let i = choose|i: int| 0 <= i < rest.len() && (#[trigger] rest[i]).0@.uid == uid;
            assert(finished[i].0@.uid == uid);
        }
        if finished.last().0@.uid == uid {
            assert(finished[finished.len() - 1].0@.uid == uid);
        }
        if exists|i: int| 0 <= i < finished.len() && (#[trigger] finished[i]).0@.uid == uid {
            let i = choose|i: int| 0 <= i < finished.len() && (#[trigger] finished[i]).0@.uid == uid;
            if i < rest.len() {
                assert(rest[i].0@.uid == uid);
            }
        }
    }
}

/// No two claims to be unprepared have the same UID.
pub open spec fn distinct_finished(finished: Seq<(ClaimRef, Result<(), PrepareError>)>) -> bool {
    forall|i: int, j: int|
        0 <= i < j < finished.len() ==> (#[trigger] finished[i]).0@.uid != (
        #[trigger] finished[j]).0@.uid
}

/// A claim to be unprepared is answered by its own outcome alone: with nothing
/// where it succeeded, and with its own failure where it did not.
pub proof fn law_unprepared_claims_are_answered_by_themselves(
    finished: Seq<(ClaimRef, Result<(), PrepareError>)>,
    i: int,
)
    requires
        distinct_finished(finished),
        0 <= i < finished.len(),
    ensures
        unprepare_responses(finished).dom().contains(finished[i].0@.uid),
        unprepare_responses(finished)[finished[i].0@.uid] == (match finished[i].1 {
            Ok(()) => Seq::empty(),
            Err(error) => prepare_text(error@),
        }),
    decreases finished.len(),
{
    let rest = finished.drop_last();
    let last = finished.len() - 1;
    if i < last {
        assert forall|a: int, b: int| 0 <= a < b < rest.len() implies (#[trigger] rest[a]).0@.uid
            != (#[trigger] rest[b]).0@.uid by {
            assert(rest[a] == finished[a] && rest[b] == finished[b]);
        }
        law_unprepared_claims_are_answered_by_themselves(rest, i);
        assert(finished[i].0@.uid != finished[last].0@.uid);
    }
}

/// The preparer gets every claim of the request that was resolved, and no other,
/// in the order of the request.
pub proof fn law_every_resolved_claim_is_prepared(
    resolved: Seq<Resolution>,
    batch: Seq<ResolvedClaim>,
)
    requires
        views(batch) == resolved_claims(resolved),
    ensures
        views(batch) == resolved.filter(|item: Resolution| item.1 is Ok).map_values(
            |item: Resolution| item.1->Ok_0@,
        ),
        batch.len() == resolved.filter(|item: Resolution| item.1 is Ok).len(),
        forall|i: int|
            #![trigger resolved[i]]
            0 <= i < resolved.len() && resolved[i].1 is Ok ==> views(batch).contains(
                resolved[i].1->Ok_0@,
            ),
{
    lemma_resolved_claims(resolved);
    assert(views(batch).len() == batch.len());
    let found = resolved.filter(|item: Resolution| item.1 is Ok);
    assert forall|i: int|
        #![trigger resolved[i]]
        0 <= i < resolved.len() && resolved[i].1 is Ok implies views(batch).contains(
        resolved[i].1->Ok_0@,
    ) by {
        resolved.filter_lemma(|item: Resolution| item.1 is Ok);
        assert(found.contains(resolved[i]));
        let k = found.index_of(resolved[i]);
        assert(views(batch)[k] == resolved[i].1->Ok_0@);
    }
}

proof fn lemma_resolved_claims(resolved: Seq<Resolution>)
    ensures
        resolved_claims(resolved) == resolved.filter(|item: Resolution| item.1 is Ok).map_values(
            |item: Resolution| item.1->Ok_0@,
        ),
    decreases resolved.len(),
{
    reveal(Seq::filter);
    if resolved.len() > 0 {
        lemma_resolved_claims(resolved.drop_last());
    }
    assert(resolved_claims(resolved) =~= resolved.filter(
        |item: Resolution| item.1 is Ok,
    ).map_values(|item: Resolution| item.1->Ok_0@));
}

/// A claim of the request whose resolution failed is kept with its own failure,
/// and one that was resolved with none.
pub proof fn law_unresolved_claims_keep_their_failure(resolved: Seq<Resolution>, i: int)
    requires
        0 <= i < resolved.len(),
        forall|j: int|
            0 <= j < resolved.len() && j != i ==> (#[trigger] resolved[j]).0@ != resolved[i].0@,
    ensures
        match resolved[i].1 {
            Ok(_) => !resolve_failures(resolved).dom().contains(resolved[i].0@),
            Err(error) => resolve_failures(resolved).dom().contains(resolved[i].0@)
                && resolve_failures(resolved)[resolved[i].0@] == error@,
        },
    decreases resolved.len(),
{
    let rest = resolved.drop_last();
    let last = resolved.len() - 1;
    assert(forall|j: int| 0 <= j < last ==> rest[j] == #[trigger] resolved[j]);
    if i < last {
        assert(forall|j: int|
            0 <= j < rest.len() && j != i ==> (#[trigger] rest[j]).0@ == resolved[j].0@);
        law_unresolved_claims_keep_their_failure(rest, i);
        assert(resolved[last].0@ != resolved[i].0@);
    } else {
        lemma_no_failure(rest, resolved[i].0@);
    }
}

proof fn lemma_no_failure(resolved: Seq<Resolution>, claim: ClaimRefModel)
    requires
        forall|j: int| 0 <= j < resolved.len() ==> (#[trigger] resolved[j]).0@ != claim,
    ensures
        !resolve_failures(resolved).dom().contains(claim),
    decreases resolved.len(),
{
    if resolved.len() > 0 {
        let rest = resolved.drop_last();
        assert(forall|j: int| 0 <= j < rest.len() ==> (#[trigger] rest[j]).0@ == resolved[j].0@);
        lemma_no_failure(rest, claim);
        assert(resolved[resolved.len() - 1].0@ != claim);
    }
}

/// Each failure of a preparation is told by its own text, with what it names.
pub proof fn law_failures_are_told_by_their_text(error: PrepareError, text: Seq<char>)
    requires
        text == prepare_text(error@),
    ensures
        match error {
            PrepareError::ClaimNotAllocated(claim) => text
                == "claim is not allocated: ClaimRef { namespace: "@ + debug_text(claim.namespace@)
                + ", uid: "@ + debug_text(claim.uid@) + ", name: "@ + debug_text(claim.name@)
                + " }"@,
            PrepareError::ResolutionFailed(reason) => text == "claim resolution failed: "@
                + reason@,
            PrepareError::DeviceUnavailable(device) => text == "device unavailable: "@ + device@,
            PrepareError::HookFailed(reason) => text == "hook failed: "@ + reason@,
        },
{
    if let PrepareError::ClaimNotAllocated(claim) = error {
        reveal_strlit("claim is not allocated: ");
        reveal_strlit("ClaimRef { namespace: ");
        reveal_strlit("claim is not allocated: ClaimRef { namespace: ");
        assert("claim is not allocated: ClaimRef { namespace: "@ =~= "claim is not allocated: "@
            + "ClaimRef { namespace: "@);
        assert(text =~= "claim is not allocated: ClaimRef { namespace: "@ + debug_text(
            claim.namespace@,
        ) + ", uid: "@ + debug_text(claim.uid@) + ", name: "@ + debug_text(claim.name@) + " }"@);
    }
}

/// Kubelet's claims are handed on under their own namespace, name and UID.
pub proof fn law_claims_keep_their_names(claim: Claim, claim_ref: ClaimRef)
    requires
        claim_ref@ == claim@,
    ensures
        claim_ref.namespace@ == claim.namespace@,
        claim_ref.name@ == claim.name@,
        claim_ref.uid@ == claim.uid@,
{
}

/// Every claim of a request is answered under its UID: with the devices that the
/// preparer prepared for it, each in its place with its requests, its pool, its
/// name and its CDI devices, and no error; or with no device and the failure of
/// its own resolution or preparation. One that the preparer left out is told so.
pub proof fn law_claims_are_prepared_or_explained(
    claims: Seq<Claim>,
    resolved: Seq<Resolution>,
    prepared: Preparations,
    responses: OrderedMap<String, NodePrepareResourceResponse>,
    i: int,
)
    requires
        map_views(responses@) == prepare_responses(
            OutcomesModel {
                failures: resolve_failures(resolved),
                prepared: preparations(prepared@),
            },
            views(claims),
        ),
        resolved.len() == claims.len(),
        forall|j: int| 0 <= j < claims.len() ==> (#[trigger] resolved[j]).0@ == claims[j]@,
        forall|j: int, k: int|
            0 <= j < k < claims.len() ==> (#[trigger] claims[j]).uid@ != (#[trigger] claims[k]).uid@,
        0 <= i < claims.len(),
    ensures
        responses@.dom().contains(claims[i].uid@),
        ({
            let response = responses@[claims[i].uid@];
            match resolved[i].1 {
                Err(error) => response.devices@.len() == 0 && response.error@ == prepare_text(
                    error@,
                ),
                Ok(_) => if prepared@.dom().contains(claims[i]@) {
                    match prepared@[claims[i]@] {
                        Err(error) => response.devices@.len() == 0 && response.error@
                            == prepare_text(error@),
                        Ok(devices) => {
                            &&& response.error@.len() == 0
                            &&& response.devices@.len() == devices@.len()
                            &&& forall|k: int|
                                0 <= k < devices@.len() ==> {
                                    let device = #[trigger] devices@[k];
                                    let told = response.devices@[k];
                                    &&& told.pool_name@ == device.pool_name@
                                    &&& told.device_name@ == device.device_name@
                                    &&& views(told.request_names@) == views(device.request_names@)
                                    &&& views(told.cdi_device_ids@) == views(device.cdi_device_ids@)
                                    &&& told.share_id is None
                                }
                        },
                    }
                } else {
                    response.devices@.len() == 0 && response.error@
                        == "hook failed: claim preparer returned no result for this claim"@
                },
            }
        }),
{
    let models = views(claims);
    let outcomes = OutcomesModel {
        failures: resolve_failures(resolved),
        prepared: preparations(prepared@),
    };
    assert(models[i] == claims[i]@);
    assert(distinct_uids(models)) by {
        assert forall|j: int, k: int| 0 <= j < k < models.len() implies (#[trigger] models[j]).uid
            != (#[trigger] models[k]).uid by {
            assert(models[j] == claims[j]@ && models[k] == claims[k]@);
            assert(claims[j].uid@ != claims[k].uid@);
        }
    }
    law_claims_are_answered_by_themselves(outcomes, models, i);
    assert forall|j: int| 0 <= j < resolved.len() && j != i implies (#[trigger] resolved[j]).0@
        != resolved[i].0@ by {
        assert(models[j] == claims[j]@);
        if j < i {
            assert(claims[j].uid@ != claims[i].uid@);
        } else {
            assert(claims[i].uid@ != claims[j].uid@);
        }
    }
    law_unresolved_claims_keep_their_failure(resolved, i);
    assert(resolved[i].0@ == claims[i]@);
    let response = responses@[claims[i].uid@];
    assert(map_views(responses@)[claims[i].uid@] == response@);
    assert(views(response.devices@).len() == response.devices@.len());
    match resolved[i].1 {
        Ok(_) => {
            if prepared@.dom().contains(claims[i]@) {
                match prepared@[claims[i]@] {
                    Ok(devices) => {
                        assert forall|k: int| 0 <= k < devices@.len() implies {
                            let device = #[trigger] devices@[k];
                            let told = response.devices@[k];
                            &&& told.pool_name@ == device.pool_name@
                            &&& told.device_name@ == device.device_name@
                            &&& views(told.request_names@) == views(device.request_names@)
                            &&& views(told.cdi_device_ids@) == views(device.cdi_device_ids@)
                            &&& told.share_id is None
                        } by {
                            assert(views(devices@)[k] == devices@[k]@);
                            assert(views(response.devices@)[k] == response.devices@[k]@);
                        }
                    },
                    Err(_) => {},
                }
            } else {
                reveal_strlit("hook failed: ");
                reveal_strlit("claim preparer returned no result for this claim");
                reveal_strlit("hook failed: claim preparer returned no result for this claim");
                assert("hook failed: claim preparer returned no result for this claim"@
                    =~= "hook failed: "@ + "claim preparer returned no result for this claim"@);
            }
        },
        Err(_) => {},
    }
}

/// Every claim to be unprepared is answered under its UID: with no error where it
/// was unprepared, and with its own failure where it was not.
pub proof fn law_claims_are_unprepared_or_explained(
    finished: Seq<(ClaimRef, Result<(), PrepareError>)>,
    responses: OrderedMap<String, NodeUnprepareResourceResponse>,
    i: int,
)
    requires
        map_views(responses@) == unprepare_responses(finished),
        forall|j: int, k: int|
            0 <= j < k < finished.len() ==> (#[trigger] finished[j]).0.uid@ != (
            #[trigger] finished[k]).0.uid@,
        0 <= i < finished.len(),
    ensures
        responses@.dom().contains(finished[i].0.uid@),
        match finished[i].1 {
            Ok(()) => responses@[finished[i].0.uid@].error@.len() == 0,
            Err(error) => responses@[finished[i].0.uid@].error@ == prepare_text(error@),
        },
{
    assert(distinct_finished(finished));
    law_unprepared_claims_are_answered_by_themselves(finished, i);
    assert(map_views(responses@)[finished[i].0@.uid] == responses@[finished[i].0@.uid]@);
}

proof fn lemma_outcome_taken(
    outcomes: OutcomesModel,
    claims: Seq<ClaimRefModel>,
    claim: ClaimRefModel,
)
    requires
        claims.contains(claim),
        !(outcomes.failures.dom().contains(claim) && outcomes.prepared.dom().contains(claim)),
    ensures
        !outcomes_left(outcomes, claims).failures.dom().contains(claim),
        !outcomes_left(outcomes, claims).prepared.dom().contains(claim),
    decreases claims.len(),
{
    let rest = claims.drop_last();
    if rest.contains(claim) {
        lemma_outcome_taken(outcomes, rest, claim);
    } else {
        let k = claims.index_of(claim);
        if k < rest.len() {
            assert(rest[k] == claim);
        }
        lemma_outcome_left(outcomes, rest, claim);
    }
}

/// An outcome answers once: a claim that is named again gets no result.
pub proof fn law_outcomes_answer_once(
    outcomes: OutcomesModel,
    claims: Seq<ClaimRefModel>,
    claim: ClaimRefModel,
)
    requires
        claims.contains(claim),
        !(outcomes.failures.dom().contains(claim) && outcomes.prepared.dom().contains(claim)),
    ensures
        ({
            let response = prepare_responses(outcomes, claims.push(claim))[claim.uid];
            response.devices.len() == 0 && response.error
                == "hook failed: claim preparer returned no result for this claim"@
        }),
{
    assert(claims.push(claim).drop_last() =~= claims);
    lemma_outcome_taken(outcomes, claims, claim);
    reveal_strlit("hook failed: ");
    reveal_strlit("claim preparer returned no result for this claim");
    reveal_strlit("hook failed: claim preparer returned no result for this claim");
    assert("hook failed: claim preparer returned no result for this claim"@ =~= "hook failed: "@
        + "claim preparer returned no result for this claim"@);
}

} // verus!
