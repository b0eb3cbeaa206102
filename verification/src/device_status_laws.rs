//! What holds of every publication of device status.

use crate::device_status::{
    current_entry, desired_entries, entries_are_current, entries_in_order, entry_is_current,
    entry_key, first_step, first_unallocated, is_allocated, same_slot, slot_of, step_after_patch,
    step_after_read, upsert, upsert_all, ClaimDeviceStatusKey, ClaimDeviceStatusPublishOutcome,
    DeviceKey, PublicationModel, ReportModel, StatusFailure, StepModel, CONFLICT,
    MAX_PATCH_ATTEMPTS,
};
use crate::dra::ClaimRefModel;
use crate::kube_api::{AllocationModel, ClaimModel, DeviceStatusModel, KubeFailureModel};
use crate::ordered_map::{in_order, lemma_in_order_of_set, MapKey};
use vstd::prelude::*;

verus! {

/// What comes back from one exchange with the API server: the claim, where it
/// was read, and the answer to an update, where one was sent.
pub struct Exchange {
    pub claim: Result<ClaimModel, KubeFailureModel>,
    pub patched: Result<(), KubeFailureModel>,
}

/// The step after another, given what comes back.
pub open spec fn next_step(
    driver_name: Seq<char>,
    field_manager: Seq<char>,
    step: StepModel,
    reply: Exchange,
) -> StepModel {
    match step {
        StepModel::Read(pending) => step_after_read(
            driver_name,
            field_manager,
            pending,
            reply.claim,
        ),
        StepModel::Patch(_, pending) => step_after_patch(pending, reply.patched),
        StepModel::Done(result) => StepModel::Done(result),
    }
}

/// How many updates are sent from a step on, given all that comes back.
pub open spec fn updates_sent(
    driver_name: Seq<char>,
    field_manager: Seq<char>,
    step: StepModel,
    replies: Seq<Exchange>,
) -> nat
    decreases replies.len(),
{
    let sent: nat = if step is Patch {
        1
    } else {
        0
    };
    if replies.len() == 0 {
        sent
    } else {
        sent + updates_sent(
            driver_name,
            field_manager,
            next_step(driver_name, field_manager, step, replies[0]),
            replies.drop_first(),
        )
    }
}

proof fn lemma_updates_left(
    driver_name: Seq<char>,
    field_manager: Seq<char>,
    step: StepModel,
    replies: Seq<Exchange>,
)
    requires
        match step {
            StepModel::Read(pending) => pending.attempts < MAX_PATCH_ATTEMPTS,
            StepModel::Patch(_, pending) => 1 <= pending.attempts <= MAX_PATCH_ATTEMPTS,
            StepModel::Done(_) => true,
        },
    ensures
        updates_sent(driver_name, field_manager, step, replies) <= match step {
            StepModel::Read(pending) => MAX_PATCH_ATTEMPTS - pending.attempts,
            StepModel::Patch(_, pending) => MAX_PATCH_ATTEMPTS - pending.attempts + 1,
            StepModel::Done(_) => 0,
        },
    decreases replies.len(),
{
    if replies.len() > 0 {
        let next = next_step(driver_name, field_manager, step, replies[0]);
        lemma_updates_left(driver_name, field_manager, next, replies.drop_first());
    }
}

/// Whatever the API server answers, one publication sends at most three
/// updates.
pub proof fn law_updates_are_bounded(
    driver_name: Seq<char>,
    field_manager: Seq<char>,
    claim: ClaimRefModel,
    reports: Seq<ReportModel>,
    replies: Seq<Exchange>,
)
    ensures
        updates_sent(
            driver_name,
            field_manager,
            first_step(driver_name, claim, reports),
            replies,
        ) <= 3,
{
    lemma_updates_left(
        driver_name,
        field_manager,
        first_step(driver_name, claim, reports),
        replies,
    );
}

proof fn lemma_no_unallocated(
    keys: Seq<DeviceKey>,
    results: Seq<AllocationModel>,
    driver_name: Seq<char>,
)
    requires
        first_unallocated(keys, results, driver_name) is None,
    ensures
        forall|i: int| 0 <= i < keys.len() ==> is_allocated(results, driver_name, #[trigger] keys[i]),
    decreases keys.len(),
{
    if keys.len() > 0 {
        lemma_no_unallocated(keys.drop_first(), results, driver_name);
        assert forall|i: int| 0 <= i < keys.len() implies is_allocated(
            results,
            driver_name,
            #[trigger] keys[i],
        ) by {
            if i > 0 {
                assert(keys[i] == keys.drop_first()[i - 1]);
            }
        }
    }
}

/// An update is sent only for the claim that was asked for, with the UID it was
/// asked by, on condition that it still has the version that was read, and only
/// if every reported device is allocated to the driver.
pub proof fn law_updates_are_guarded(
    driver_name: Seq<char>,
    field_manager: Seq<char>,
    pending: PublicationModel,
    found: ClaimModel,
    key: DeviceKey,
)
    requires
        pending.desired.dom().finite(),
        step_after_read(driver_name, field_manager, pending, Ok(found)) is Patch,
        pending.desired.dom().contains(key),
    ensures
        match step_after_read(driver_name, field_manager, pending, Ok(found)) {
            StepModel::Patch(patch, _) => {
                &&& found.uid_text() == pending.claim.uid
                &&& patch.uid == pending.claim.uid
                &&& patch.name == pending.claim.name
                &&& Some(patch.resource_version) == found.resource_version
                &&& patch.resource_version.len() > 0
                &&& patch.field_manager == field_manager
            },
            _ => false,
        },
        is_allocated(found.allocated(), driver_name, key),
        !entries_are_current(found.devices, driver_name, pending.desired),
{
    let keys = in_order::<ClaimDeviceStatusKey>(pending.desired.dom());
    lemma_in_order_of_set::<ClaimDeviceStatusKey>(pending.desired.dom());
    lemma_no_unallocated(keys, found.allocated(), driver_name);
    assert(keys.to_set().contains(key));
    let i = keys.index_of(key);
    assert(is_allocated(found.allocated(), driver_name, keys[i]));
}

/// A claim that already holds every entry is not written.
pub proof fn law_current_claim_is_not_written(
    driver_name: Seq<char>,
    field_manager: Seq<char>,
    pending: PublicationModel,
    found: ClaimModel,
)
    requires
        entries_are_current(found.devices, driver_name, pending.desired),
    ensures
        step_after_read(driver_name, field_manager, pending, Ok(found)) is Done,
{
}

proof fn lemma_slot(devices: Seq<DeviceStatusModel>, entry: DeviceStatusModel)
    ensures
        slot_of(devices, entry) <= devices.len(),
        forall|j: int| 0 <= j < slot_of(devices, entry) ==> !same_slot(#[trigger] devices[j], entry),
        slot_of(devices, entry) < devices.len() ==> same_slot(
            devices[slot_of(devices, entry) as int],
            entry,
        ),
    decreases devices.len(),
{
    if devices.len() > 0 && !same_slot(devices[0], entry) {
        let rest = devices.drop_first();
        lemma_slot(rest, entry);
        assert forall|j: int| 0 <= j < slot_of(devices, entry) implies !same_slot(
            #[trigger] devices[j],
            entry,
        ) by {
            if j > 0 {
                assert(devices[j] == rest[j - 1]);
            }
        }
    }
}

/// Every entry keeps its place, and an entry about a device that is not
/// reported, or of another driver, keeps what it says.
pub proof fn law_other_entries_are_kept(
    devices: Seq<DeviceStatusModel>,
    entries: Seq<DeviceStatusModel>,
    i: int,
)
    requires
        0 <= i < devices.len(),
    ensures
        upsert_all(devices, entries).len() >= devices.len(),
        same_slot(upsert_all(devices, entries)[i], devices[i]),
        (forall|j: int| 0 <= j < entries.len() ==> !same_slot(devices[i], #[trigger] entries[j]))
            ==> upsert_all(devices, entries)[i] == devices[i],
    decreases entries.len(),
{
    if entries.len() > 0 {
        let rest = entries.drop_last();
        let earlier = upsert_all(devices, rest);
        law_other_entries_are_kept(devices, rest, i);
        lemma_slot(earlier, entries.last());
        if forall|j: int| 0 <= j < entries.len() ==> !same_slot(devices[i], #[trigger] entries[j]) {
            assert forall|j: int| 0 <= j < rest.len() implies !same_slot(
                devices[i],
                #[trigger] rest[j],
            ) by {
                assert(rest[j] == entries[j]);
            }
            assert(!same_slot(devices[i], entries[entries.len() - 1]));
        }
    }
}

/// Whatever an update holds was there before or is one of the reported entries:
/// nothing else is written.
pub proof fn law_only_reported_entries_change(
    devices: Seq<DeviceStatusModel>,
    entries: Seq<DeviceStatusModel>,
    i: int,
)
    requires
        0 <= i < upsert_all(devices, entries).len(),
    ensures
        (i < devices.len() && upsert_all(devices, entries)[i] == devices[i]) || entries.contains(
            upsert_all(devices, entries)[i],
        ),
    decreases entries.len(),
{
    if entries.len() > 0 {
        let rest = entries.drop_last();
        let entry = entries.last();
        let earlier = upsert_all(devices, rest);
        let after = upsert_all(devices, entries);
        lemma_slot(earlier, entry);
        assert(entries[entries.len() - 1] == entry);
        if i < earlier.len() && after[i] == earlier[i] {
            law_only_reported_entries_change(devices, rest, i);
            if rest.contains(earlier[i]) {
                assert(entries[rest.index_of(earlier[i])] == earlier[i]);
            }
        }
    }
}

/// No two entries of a driver are about the same device.
pub open spec fn distinct_slots(devices: Seq<DeviceStatusModel>, driver_name: Seq<char>) -> bool {
    forall|i: int, j: int|
        0 <= i < j < devices.len() && (#[trigger] devices[i]).driver == driver_name ==> !same_slot(
            devices[i],
            #[trigger] devices[j],
        )
}

/// The entries are the driver's own, each filed under its device.
pub open spec fn filed(desired: Map<DeviceKey, DeviceStatusModel>, driver_name: Seq<char>) -> bool {
    &&& desired.dom().finite()
    &&& forall|key: DeviceKey| #[trigger]
        desired.dom().contains(key) ==> desired[key].driver == driver_name && entry_key(
            desired[key],
        ) == key
}

/// Accepted reports become entries of the driver, each filed under its device.
pub proof fn law_desired_entries_are_filed(reports: Seq<ReportModel>, driver_name: Seq<char>)
    ensures
        match desired_entries(reports, driver_name) {
            Ok(desired) => filed(desired, driver_name),
            Err(_) => true,
        },
    decreases reports.len(),
{
    if reports.len() > 0 {
        law_desired_entries_are_filed(reports.drop_last(), driver_name);
    }
}

proof fn lemma_current_entry(
    devices: Seq<DeviceStatusModel>,
    driver_name: Seq<char>,
    key: DeviceKey,
    i: int,
)
    requires
        distinct_slots(devices, driver_name),
        0 <= i < devices.len(),
        devices[i].driver == driver_name,
        entry_key(devices[i]) == key,
    ensures
        current_entry(devices, driver_name, key) == Some(devices[i]),
    decreases devices.len(),
{
    let last = devices.len() - 1;
    if i < last {
        assert(!same_slot(devices[i], devices[last]));
        let rest = devices.drop_last();
        assert forall|a: int, b: int|
            0 <= a < b < rest.len() && (#[trigger] rest[a]).driver == driver_name implies !same_slot(
            rest[a],
            #[trigger] rest[b],
        ) by {
            assert(rest[a] == devices[a] && rest[b] == devices[b]);
        }
        lemma_current_entry(rest, driver_name, key, i);
    }
}

proof fn lemma_upsert_distinct(
    devices: Seq<DeviceStatusModel>,
    driver_name: Seq<char>,
    entry: DeviceStatusModel,
)
    requires
        distinct_slots(devices, driver_name),
    ensures
        distinct_slots(upsert(devices, entry), driver_name),
{
    lemma_slot(devices, entry);
    let after = upsert(devices, entry);
    let slot = slot_of(devices, entry) as int;
    assert forall|a: int, b: int|
        0 <= a < b < after.len() && (#[trigger] after[a]).driver == driver_name implies !same_slot(
        after[a],
        #[trigger] after[b],
    ) by {
        if slot < devices.len() {
            assert(same_slot(after[a], devices[a]));
            assert(same_slot(after[b], devices[b]));
            assert(!same_slot(devices[a], devices[b]));
        } else if b < devices.len() {
            assert(!same_slot(devices[a], devices[b]));
        } else {
            assert(!same_slot(devices[a], entry));
        }
    }
}

proof fn lemma_upsert_all_holds(
    devices: Seq<DeviceStatusModel>,
    driver_name: Seq<char>,
    entries: Seq<DeviceStatusModel>,
)
    requires
        distinct_slots(devices, driver_name),
        forall|a: int, b: int|
            0 <= a < b < entries.len() ==> !same_slot(#[trigger] entries[a], #[trigger] entries[b]),
    ensures
        distinct_slots(upsert_all(devices, entries), driver_name),
        forall|m: int|
            0 <= m < entries.len() ==> upsert_all(devices, entries).contains(#[trigger] entries[m]),
    decreases entries.len(),
{
    if entries.len() > 0 {
        let rest = entries.drop_last();
        let entry = entries.last();
        let earlier = upsert_all(devices, rest);
        let after = upsert_all(devices, entries);
        assert forall|a: int, b: int| 0 <= a < b < rest.len() implies !same_slot(
            #[trigger] rest[a],
            #[trigger] rest[b],
        ) by {
            assert(rest[a] == entries[a] && rest[b] == entries[b]);
        }
        lemma_upsert_all_holds(devices, driver_name, rest);
        lemma_upsert_distinct(earlier, driver_name, entry);
        lemma_slot(earlier, entry);
        assert forall|m: int| 0 <= m < entries.len() implies after.contains(#[trigger] entries[m]) by {
            if m < rest.len() {
                assert(rest[m] == entries[m]);
                assert(earlier.contains(rest[m]));
                let at = earlier.index_of(rest[m]);
                assert(!same_slot(entries[m], entries[entries.len() - 1]));
                assert(after[at] == entries[m]);
            } else {
                assert(after[slot_of(earlier, entry) as int] == entry);
            }
        }
    }
}

/// After an update every reported entry is current, so that publishing the same
/// entries again writes nothing. The claim must not have held two entries of
/// the driver about one device.
pub proof fn law_published_entries_are_current(
    devices: Seq<DeviceStatusModel>,
    driver_name: Seq<char>,
    desired: Map<DeviceKey, DeviceStatusModel>,
)
    requires
        filed(desired, driver_name),
        distinct_slots(devices, driver_name),
    ensures
        entries_are_current(
            upsert_all(devices, entries_in_order(desired)),
            driver_name,
            desired,
        ),
{
    let keys = in_order::<ClaimDeviceStatusKey>(desired.dom());
    let entries = entries_in_order(desired);
    let after = upsert_all(devices, entries);
    lemma_in_order_of_set::<ClaimDeviceStatusKey>(desired.dom());
    assert forall|i: int| 0 <= i < keys.len() implies desired.dom().contains(#[trigger] keys[i]) by {
        assert(keys.to_set().contains(keys[i]));
    }
    assert forall|a: int, b: int| 0 <= a < b < entries.len() implies !same_slot(
        #[trigger] entries[a],
        #[trigger] entries[b],
    ) by {
        assert(entries[a] == desired[keys[a]] && entries[b] == desired[keys[b]]);
        assert(desired.dom().contains(keys[a]) && desired.dom().contains(keys[b]));
        assert(ClaimDeviceStatusKey::before(keys[a], keys[b]));
        ClaimDeviceStatusKey::lemma_total(keys[a], keys[b]);
    }
    lemma_upsert_all_holds(devices, driver_name, entries);
    assert forall|key: DeviceKey| #[trigger] desired.dom().contains(key) implies entry_is_current(
        after,
        driver_name,
        key,
        desired[key],
    ) by {
        assert(keys.to_set().contains(key));
        let m = keys.index_of(key);
        assert(entries[m] == desired[key]);
        assert(after.contains(entries[m]));
        let at = after.index_of(entries[m]);
        lemma_current_entry(after, driver_name, key, at);
    }
}

/// Publishing the same reports again, once an update was carried out, changes
/// nothing, whatever version the claim has by then.
pub proof fn law_publishing_again_changes_nothing(
    driver_name: Seq<char>,
    field_manager: Seq<char>,
    claim: ClaimRefModel,
    reports: Seq<ReportModel>,
    found: ClaimModel,
    updated: ClaimModel,
)
    requires
        distinct_slots(found.devices, driver_name),
        match first_step(driver_name, claim, reports) {
            StepModel::Read(pending) => match step_after_read(
                driver_name,
                field_manager,
                pending,
                Ok(found),
            ) {
                StepModel::Patch(patch, _) => updated.uid == found.uid && updated.allocation
                    == found.allocation && updated.devices == patch.devices,
                _ => false,
            },
            _ => false,
        },
    ensures
        match first_step(driver_name, claim, reports) {
            StepModel::Read(pending) => step_after_read(
                driver_name,
                field_manager,
                pending,
                Ok(updated),
            ) == StepModel::Done(Ok(ClaimDeviceStatusPublishOutcome::Unchanged)),
            _ => false,
        },
{
    law_desired_entries_are_filed(reports, driver_name);
    match desired_entries(reports, driver_name) {
        Ok(desired) => {
            law_published_entries_are_current(found.devices, driver_name, desired);
        },
        Err(_) => {},
    }
}

proof fn lemma_desired_keys(reports: Seq<ReportModel>, driver_name: Seq<char>)
    ensures
        match desired_entries(reports, driver_name) {
            Ok(desired) => forall|i: int|
                0 <= i < reports.len() ==> desired.dom().contains((#[trigger] reports[i]).key),
            Err(_) => true,
        },
    decreases reports.len(),
{
    if reports.len() > 0 {
        let rest = reports.drop_last();
        lemma_desired_keys(rest, driver_name);
        if desired_entries(reports, driver_name) is Ok {
            assert forall|i: int| 0 <= i < reports.len() implies desired_entries(
                reports,
                driver_name,
            )->Ok_0.dom().contains((#[trigger] reports[i]).key) by {
                if i < rest.len() {
                    assert(rest[i] == reports[i]);
                }
            }
        }
    }
}

/// Two reports about the same device are refused before anything is read or
/// written.
pub proof fn law_duplicate_reports_are_refused(
    driver_name: Seq<char>,
    claim: ClaimRefModel,
    reports: Seq<ReportModel>,
    i: int,
    j: int,
)
    requires
        0 <= i < j < reports.len(),
        reports[i].key == reports[j].key,
    ensures
        match first_step(driver_name, claim, reports) {
            StepModel::Done(result) => result is Err,
            _ => false,
        },
    decreases reports.len(),
{
    let rest = reports.drop_last();
    if j < rest.len() {
        assert(rest[i] == reports[i] && rest[j] == reports[j]);
        law_duplicate_reports_are_refused(driver_name, claim, rest, i, j);
        lemma_first_step(driver_name, claim, rest);
    } else {
        lemma_desired_keys(rest, driver_name);
        assert(rest[i] == reports[i]);
    }
    lemma_first_step(driver_name, claim, reports);
}

proof fn lemma_first_step(driver_name: Seq<char>, claim: ClaimRefModel, reports: Seq<ReportModel>)
    ensures
        (match first_step(driver_name, claim, reports) {
            StepModel::Done(result) => result is Err,
            _ => false,
        }) == desired_entries(reports, driver_name) is Err,
{
}

/// Only a conflict is tried again; any other failed update ends the publication
/// with that failure.
pub proof fn law_only_conflicts_are_tried_again(pending: PublicationModel, failure: KubeFailureModel)
    requires
        failure.code != Some(CONFLICT),
    ensures
        step_after_patch(pending, Err(failure)) == StepModel::Done(
            Err(StatusFailure::Kubernetes(failure)),
        ),
{
}

} // verus!
