//! What becomes of reported device status: told from the reports and from the
//! claim, field by field.

use crate::device_status::{
    allocation_check, allocation_key, current_entry, desired_entries, entries_are_current, entries_in_order,
    entry_is_current, entry_key, failure_text, first_step, first_unallocated, has_allocation, is_allocated,
    key_text, kubernetes_status, outcome, same_slot, slot_of, step_after_patch, step_after_read, upsert_all,
    ClaimDeviceStatus, ClaimDeviceStatusError, ClaimDeviceStatusKey,
    ClaimDeviceStatusPublishOutcome, DeviceKey, PatchModel, PublicationModel, ReportModel, StatusFailure,
    StepModel,
};
use crate::device_status_laws::{
    law_desired_entries_are_filed, law_only_reported_entries_change, law_other_entries_are_kept,
};
use crate::dra::ClaimRefModel;
use crate::json::{json_same, json_written};
use crate::kube_api::{
    AllocatedDeviceStatus, AllocationModel, ClaimModel, DeviceStatusModel, KubeFailureModel,
};
use crate::ordered_map::{in_order, lemma_in_order_of_set, MapKey};
use crate::record::{opt_view, opt_views};
use crate::text::{decimal_text, text_lt};
use vstd::prelude::*;

verus! {

/// A report becomes an entry that holds all that was reported, under the driver's
/// name: the device by pool, name and share, the conditions, the data and the
/// network data, nothing of it left out. It is refused only with more than eight
/// conditions, or with data that cannot be written or takes more than 10240
/// bytes.
pub proof fn law_reports_are_entered_whole(
    report: ClaimDeviceStatus,
    driver_name: Seq<char>,
    result: Result<AllocatedDeviceStatus, ClaimDeviceStatusError>,
)
    requires
        outcome(result) == kubernetes_status(report@, driver_name),
    ensures
        match result {
            Ok(entry) => {
                &&& entry.driver@ == driver_name
                &&& entry.pool@ == report.pool_name@
                &&& entry.device@ == report.device_name@
                &&& opt_view(entry.share_id) == opt_view(report.share_id)
                &&& entry.data == report.data
                &&& match (entry.conditions, report.conditions) {
                    (Some(entered), Some(reported)) => entered@.len() == reported@.len()
                        && reported@.len() <= 8 && forall|i: int|
                        0 <= i < reported@.len() ==> entered@[i]@ == (#[trigger] reported@[i])@,
                    (None, None) => true,
                    _ => false,
                }
                &&& match (entry.network_data, report.network_data) {
                    (Some(entered), Some(reported)) => {
                        &&& opt_view(entered.hardware_address) == opt_view(
                            reported.hardware_address,
                        )
                        &&& opt_view(entered.interface_name) == opt_view(reported.interface_name)
                        &&& opt_views(entered.ips) == opt_views(reported.ips)
                    },
                    (None, None) => true,
                    _ => false,
                }
                &&& match report.data {
                    Some(data) => match json_written(data) {
                        Ok(raw) => raw.len() <= 10240,
                        Err(_) => false,
                    },
                    None => true,
                }
            },
            Err(ClaimDeviceStatusError::TooManyConditions(key)) => {
                &&& key.pool_name@ == report.pool_name@
                &&& key.device_name@ == report.device_name@
                &&& opt_view(key.share_id) == opt_view(report.share_id)
                &&& match report.conditions {
                    Some(reported) => reported@.len() > 8,
                    None => false,
                }
            },
            Err(ClaimDeviceStatusError::SerializeData(error)) => match report.data {
                Some(data) => json_written(data) == Err::<Seq<u8>, serde_json::Error>(error),
                None => false,
            },
            Err(ClaimDeviceStatusError::DataTooLarge { device, bytes }) => {
                &&& device.pool_name@ == report.pool_name@
                &&& device.device_name@ == report.device_name@
                &&& opt_view(device.share_id) == opt_view(report.share_id)
                &&& bytes > 10240
                &&& match report.data {
                    Some(data) => match json_written(data) {
                        Ok(raw) => raw.len() == bytes,
                        Err(_) => false,
                    },
                    None => false,
                }
            },
            Err(_) => false,
        },
{
    if let Ok(entry) = result {
        match (entry.conditions, report.conditions) {
            (Some(entered), Some(reported)) => {
                let a = opt_views(entry.conditions)->0;
                let b = opt_views(report.conditions)->0;
                assert(a == b);
                assert(a.len() == entered@.len() && b.len() == reported@.len());
                assert forall|i: int| 0 <= i < reported@.len() implies entered@[i]@ == (
                #[trigger] reported@[i])@ by {
                    assert(a[i] == entered@[i]@ && b[i] == reported@[i]@);
                }
            },
            _ => {},
        }
    }
}

/// Every accepted report is desired under its device, with the driver's name and
/// with the conditions, the data and the network data that were reported;
/// nothing else is desired. A list is refused by the first report that is refused
/// by itself or names a device that an earlier one named.
pub proof fn law_every_report_is_desired(reports: Seq<ReportModel>, driver_name: Seq<char>)
    ensures
        match desired_entries(reports, driver_name) {
            Ok(desired) => {
                &&& forall|i: int|
                    0 <= i < reports.len() ==> {
                        let report = #[trigger] reports[i];
                        let entry = desired[report.key];
                        &&& desired.dom().contains(report.key)
                        &&& kubernetes_status(report, driver_name) == Ok::<
                            DeviceStatusModel,
                            StatusFailure,
                        >(entry)
                        &&& entry.driver == driver_name
                        &&& entry.pool == report.key.pool_name
                        &&& entry.device == report.key.device_name
                        &&& entry.share_id == report.key.share_id
                        &&& entry.conditions == report.conditions
                        &&& entry.data == report.data
                        &&& entry.network_data == report.network_data
                    }
                &&& forall|key: DeviceKey| #[trigger]
                    desired.dom().contains(key) ==> exists|i: int|
                        0 <= i < reports.len() && (#[trigger] reports[i]).key == key
                &&& forall|i: int, j: int|
                    0 <= i < j < reports.len() ==> (#[trigger] reports[i]).key != (
                    #[trigger] reports[j]).key
            },
            Err(failure) => exists|k: int|
                0 <= k < reports.len() && desired_entries(reports.take(k), driver_name) is Ok && (
                kubernetes_status(#[trigger] reports[k], driver_name) == Err::<
                    DeviceStatusModel,
                    StatusFailure,
                >(failure) || (kubernetes_status(reports[k], driver_name) is Ok && failure
                    == StatusFailure::DuplicateDeviceStatus(reports[k].key) && exists|j: int|
                    0 <= j < k && (#[trigger] reports[j]).key == reports[k].key)),
        },
    decreases reports.len(),
{
    if reports.len() > 0 {
        let rest = reports.drop_last();
        let last = reports.len() - 1;
        law_every_report_is_desired(rest, driver_name);
        assert(forall|i: int| 0 <= i < last ==> rest[i] == #[trigger] reports[i]);
        assert(reports.take(last) =~= rest);
        assert(reports[last] == reports.last());
        match desired_entries(rest, driver_name) {
            Err(failure) => {
                let k = choose|k: int|
                    0 <= k < rest.len() && desired_entries(rest.take(k), driver_name) is Ok && (
                    kubernetes_status(#[trigger] rest[k], driver_name) == Err::<
                        DeviceStatusModel,
                        StatusFailure,
                    >(failure) || (kubernetes_status(rest[k], driver_name) is Ok && failure
                        == StatusFailure::DuplicateDeviceStatus(rest[k].key) && exists|j: int|
                        0 <= j < k && (#[trigger] rest[j]).key == rest[k].key));
                assert(reports[k] == rest[k]);
                assert(reports.take(k) =~= rest.take(k));
                if !(kubernetes_status(rest[k], driver_name) is Err) {
                    let j = choose|j: int| 0 <= j < k && (#[trigger] rest[j]).key == rest[k].key;
                    assert(reports[j].key == reports[k].key);
                }
            },
            Ok(earlier) => match desired_entries(reports, driver_name) {
                Err(failure) => {
                    if kubernetes_status(reports[last], driver_name) is Ok {
                        assert(earlier.dom().contains(reports[last].key));
                        let j = choose|j: int|
                            0 <= j < rest.len() && (#[trigger] rest[j]).key == reports[last].key;
                        assert(reports[j].key == reports[last].key);
                    }
                },
                Ok(desired) => {
                    assert forall|i: int, j: int| 0 <= i < j < reports.len() implies (
                    #[trigger] reports[i]).key != (#[trigger] reports[j]).key by {
                        if j == last {
                            assert(earlier.dom().contains(rest[i].key));
                        } else {
                            assert(rest[i].key != rest[j].key);
                        }
                    }
                    assert forall|key: DeviceKey| #[trigger]
                        desired.dom().contains(key) implies exists|i: int|
                        0 <= i < reports.len() && (#[trigger] reports[i]).key == key by {
                        if key == reports[last].key {
                        } else {
                            assert(earlier.dom().contains(key));
                            let i = choose|i: int|
                                0 <= i < rest.len() && (#[trigger] rest[i]).key == key;
                            assert(reports[i].key == key);
                        }
                    }
                    assert forall|i: int| 0 <= i < reports.len() implies {
                        let report = #[trigger] reports[i];
                        let entry = desired[report.key];
                        &&& desired.dom().contains(report.key)
                        &&& kubernetes_status(report, driver_name) == Ok::<
                            DeviceStatusModel,
                            StatusFailure,
                        >(entry)
                        &&& entry.driver == driver_name
                        &&& entry.pool == report.key.pool_name
                        &&& entry.device == report.key.device_name
                        &&& entry.share_id == report.key.share_id
                        &&& entry.conditions == report.conditions
                        &&& entry.data == report.data
                        &&& entry.network_data == report.network_data
                    } by {
                        if i < last {
                            assert(rest[i] == reports[i]);
                            assert(reports[i].key != reports[last].key);
                        }
                    }
                },
            },
        }
    }
}

/// The first key without an allocation: all before it have one.
proof fn lemma_first_unallocated(
    keys: Seq<DeviceKey>,
    results: Seq<AllocationModel>,
    driver_name: Seq<char>,
)
    ensures
        match first_unallocated(keys, results, driver_name) {
            Some(key) => exists|k: int|
                0 <= k < keys.len() && #[trigger] keys[k] == key && !is_allocated(
                    results,
                    driver_name,
                    key,
                ) && forall|j: int|
                    0 <= j < k ==> is_allocated(results, driver_name, #[trigger] keys[j]),
            None => forall|j: int|
                0 <= j < keys.len() ==> is_allocated(results, driver_name, #[trigger] keys[j]),
        },
    decreases keys.len(),
{
    if keys.len() > 0 && is_allocated(results, driver_name, keys[0]) {
        let rest = keys.drop_first();
        lemma_first_unallocated(rest, results, driver_name);
        match first_unallocated(rest, results, driver_name) {
            Some(key) => {
                let k = choose|k: int|
                    0 <= k < rest.len() && #[trigger] rest[k] == key && !is_allocated(
                        results,
                        driver_name,
                        key,
                    ) && forall|j: int|
                        0 <= j < k ==> is_allocated(results, driver_name, #[trigger] rest[j]);
                assert(keys[k + 1] == key);
                assert forall|j: int| 0 <= j < k + 1 implies is_allocated(
                    results,
                    driver_name,
                    #[trigger] keys[j],
                ) by {
                    if j > 0 {
                        assert(rest[j - 1] == keys[j]);
                    }
                }
            },
            None => {
                assert forall|j: int| 0 <= j < keys.len() implies is_allocated(
                    results,
                    driver_name,
                    #[trigger] keys[j],
                ) by {
                    if j > 0 {
                        assert(rest[j - 1] == keys[j]);
                    }
                }
            },
        }
    } else if keys.len() > 0 {
        assert(keys[0] == keys[0]);
    }
}

/// Reports pass exactly where every reported device is allocated to the driver by
/// pool, name and share. Where the driver has no allocation at all it is told so;
/// otherwise a device is named that is not allocated to it.
pub proof fn law_only_allocated_devices_pass(
    claim_ref: ClaimRefModel,
    claim: ClaimModel,
    driver_name: Seq<char>,
    devices: Set<DeviceKey>,
    results: Seq<AllocationModel>,
)
    requires
        devices.finite(),
        match claim.allocation {
            Some(allocated) => results == allocated,
            None => results.len() == 0,
        },
    ensures
        match allocation_check(claim_ref, claim, driver_name, devices) {
            Ok(()) => {
                &&& exists|i: int|
                    0 <= i < results.len() && (#[trigger] results[i]).driver == driver_name
                &&& forall|key: DeviceKey| #[trigger]
                    devices.contains(key) ==> exists|i: int|
                        0 <= i < results.len() && (#[trigger] results[i]).driver == driver_name
                            && results[i].pool == key.pool_name && results[i].device
                            == key.device_name && results[i].share_id == key.share_id
            },
            Err(StatusFailure::DriverNotAllocated { namespace, name, driver_name: driver }) => {
                &&& forall|i: int|
                    0 <= i < results.len() ==> (#[trigger] results[i]).driver != driver_name
                &&& namespace == claim_ref.namespace
                &&& name == claim_ref.name
                &&& driver == driver_name
            },
            Err(
                StatusFailure::DeviceNotAllocated {
                    namespace,
                    name,
                    driver_name: driver,
                    device,
                },
            ) => {
                &&& devices.contains(device)
                &&& forall|i: int|
                    0 <= i < results.len() ==> !((#[trigger] results[i]).driver == driver_name
                        && results[i].pool == device.pool_name && results[i].device
                        == device.device_name && results[i].share_id == device.share_id)
                &&& exists|i: int|
                    0 <= i < results.len() && (#[trigger] results[i]).driver == driver_name
                &&& namespace == claim_ref.namespace
                &&& name == claim_ref.name
                &&& driver == driver_name
            },
            Err(_) => false,
        },
{
    assert(results =~= claim.allocated());
    let keys = in_order::<ClaimDeviceStatusKey>(devices);
    lemma_in_order_of_set::<ClaimDeviceStatusKey>(devices);
    lemma_first_unallocated(keys, results, driver_name);
    if has_allocation(results, driver_name) {
        assert forall|key: DeviceKey| is_allocated(results, driver_name, key) implies exists|i: int|
            0 <= i < results.len() && (#[trigger] results[i]).driver == driver_name
                && results[i].pool == key.pool_name && results[i].device == key.device_name
                && results[i].share_id == key.share_id by {
            let i = choose|i: int|
                0 <= i < results.len() && (#[trigger] results[i]).driver == driver_name
                    && allocation_key(results[i]) == key;
            assert(results[i].driver == driver_name);
        }
        match first_unallocated(keys, results, driver_name) {
            None => {
                assert forall|key: DeviceKey| #[trigger] devices.contains(key) implies exists|i: int|
                    0 <= i < results.len() && (#[trigger] results[i]).driver == driver_name
                        && results[i].pool == key.pool_name && results[i].device == key.device_name
                        && results[i].share_id == key.share_id by {
                    assert(keys.to_set().contains(key));
                    let j = keys.index_of(key);
                    assert(is_allocated(results, driver_name, keys[j]));
                }
            },
            Some(device) => {
                let k = choose|k: int|
                    0 <= k < keys.len() && #[trigger] keys[k] == device && !is_allocated(
                        results,
                        driver_name,
                        device,
                    ) && forall|j: int|
                        0 <= j < k ==> is_allocated(results, driver_name, #[trigger] keys[j]);
                assert(keys.to_set().contains(keys[k]));
                assert forall|i: int| 0 <= i < results.len() implies !((
                #[trigger] results[i]).driver == driver_name && results[i].pool
                    == device.pool_name && results[i].device == device.device_name
                    && results[i].share_id == device.share_id) by {
                    if results[i].driver == driver_name && results[i].pool == device.pool_name
                        && results[i].device == device.device_name && results[i].share_id
                        == device.share_id {
                        assert(allocation_key(results[i]) == device);
                    }
                }
            },
        }
    }
}

/// The device that is named as not allocated is the first such in the order of
/// the devices.
pub proof fn law_first_unallocated_device_is_named(
    claim_ref: ClaimRefModel,
    claim: ClaimModel,
    driver_name: Seq<char>,
    devices: Set<DeviceKey>,
    key: DeviceKey,
) -> (i: int)
    requires
        devices.finite(),
        devices.contains(key),
        match allocation_check(claim_ref, claim, driver_name, devices) {
            Err(StatusFailure::DeviceNotAllocated { device, .. }) => ClaimDeviceStatusKey::before(
                key,
                device,
            ),
            _ => false,
        },
    ensures
        match claim.allocation {
            Some(results) => 0 <= i < results.len() && results[i].driver == driver_name
                && results[i].pool == key.pool_name && results[i].device == key.device_name
                && results[i].share_id == key.share_id,
            None => false,
        },
{
    let results = claim.allocated();
    let keys = in_order::<ClaimDeviceStatusKey>(devices);
    lemma_in_order_of_set::<ClaimDeviceStatusKey>(devices);
    lemma_first_unallocated(keys, results, driver_name);
    let device = first_unallocated(keys, results, driver_name)->0;
    let k = choose|k: int|
        0 <= k < keys.len() && #[trigger] keys[k] == device && !is_allocated(
            results,
            driver_name,
            device,
        ) && forall|j: int| 0 <= j < k ==> is_allocated(results, driver_name, #[trigger] keys[j]);
    assert(keys.to_set().contains(key));
    let j = keys.index_of(key);
    if j > k {
        assert(ClaimDeviceStatusKey::before(keys[k], keys[j]));
    }
    ClaimDeviceStatusKey::lemma_total(key, device);
    assert(is_allocated(results, driver_name, keys[j]));
    choose|i: int|
        0 <= i < results.len() && (#[trigger] results[i]).driver == driver_name && allocation_key(
            results[i],
        ) == key
}

/// The entry that counts for a device is the last one of the driver with its
/// pool, its name and its share.
proof fn lemma_current_entry(
    devices: Seq<DeviceStatusModel>,
    driver_name: Seq<char>,
    key: DeviceKey,
)
    ensures
        match current_entry(devices, driver_name, key) {
            Some(entry) => exists|i: int|
                0 <= i < devices.len() && #[trigger] devices[i] == entry && entry.driver
                    == driver_name && entry.pool == key.pool_name && entry.device
                    == key.device_name && entry.share_id == key.share_id && forall|j: int|
                    i < j < devices.len() ==> !((#[trigger] devices[j]).driver == driver_name
                        && devices[j].pool == key.pool_name && devices[j].device
                        == key.device_name && devices[j].share_id == key.share_id),
            None => forall|j: int|
                0 <= j < devices.len() ==> !((#[trigger] devices[j]).driver == driver_name
                    && devices[j].pool == key.pool_name && devices[j].device == key.device_name
                    && devices[j].share_id == key.share_id),
        },
    decreases devices.len(),
{
    if devices.len() > 0 {
        let rest = devices.drop_last();
        let last = devices.len() - 1;
        lemma_current_entry(rest, driver_name, key);
        assert(forall|j: int| 0 <= j < last ==> rest[j] == #[trigger] devices[j]);
        assert(devices[last] == devices.last());
        if devices[last].driver == driver_name && entry_key(devices[last]) == key {
        } else {
            assert(!(devices[last].driver == driver_name && devices[last].pool == key.pool_name
                && devices[last].device == key.device_name && devices[last].share_id
                == key.share_id));
            match current_entry(rest, driver_name, key) {
                Some(entry) => {
                    let i = choose|i: int|
                        0 <= i < rest.len() && #[trigger] rest[i] == entry && entry.driver
                            == driver_name && entry.pool == key.pool_name && entry.device
                            == key.device_name && entry.share_id == key.share_id && forall|j: int|
                            i < j < rest.len() ==> !((#[trigger] rest[j]).driver == driver_name
                                && rest[j].pool == key.pool_name && rest[j].device
                                == key.device_name && rest[j].share_id == key.share_id);
                    assert(devices[i] == entry);
                },
                None => {},
            }
        }
    }
}

/// A claim counts as up to date exactly where, for every desired entry, the last
/// one of the driver about that device holds the same conditions, equal data and
/// the same network data: so no change of any of them is passed over.
pub proof fn law_nothing_outdated_is_current(
    devices: Seq<DeviceStatusModel>,
    driver_name: Seq<char>,
    desired: Map<DeviceKey, DeviceStatusModel>,
)
    requires
        forall|key: DeviceKey| #[trigger]
            desired.dom().contains(key) ==> desired[key].driver == driver_name && desired[key].pool
                == key.pool_name && desired[key].device == key.device_name && desired[key].share_id
                == key.share_id,
    ensures
        entries_are_current(devices, driver_name, desired) <==> forall|key: DeviceKey| #[trigger]
            desired.dom().contains(key) ==> exists|i: int|
                0 <= i < devices.len() && (#[trigger] devices[i]).driver == driver_name
                    && devices[i].pool == key.pool_name && devices[i].device == key.device_name
                    && devices[i].share_id == key.share_id && devices[i].conditions
                    == desired[key].conditions && devices[i].network_data
                    == desired[key].network_data && (match (devices[i].data, desired[key].data) {
                    (Some(held), Some(wanted)) => held == wanted || json_same(held, wanted),
                    (None, None) => true,
                    _ => false,
                }) && forall|j: int|
                    i < j < devices.len() ==> !((#[trigger] devices[j]).driver == driver_name
                        && devices[j].pool == key.pool_name && devices[j].device
                        == key.device_name && devices[j].share_id == key.share_id),
{
    if entries_are_current(devices, driver_name, desired) {
        assert forall|key: DeviceKey| #[trigger] desired.dom().contains(key) implies exists|i: int|
            0 <= i < devices.len() && (#[trigger] devices[i]).driver == driver_name
                && devices[i].pool == key.pool_name && devices[i].device == key.device_name
                && devices[i].share_id == key.share_id && devices[i].conditions
                == desired[key].conditions && devices[i].network_data == desired[key].network_data
                && (match (devices[i].data, desired[key].data) {
                (Some(held), Some(wanted)) => held == wanted || json_same(held, wanted),
                (None, None) => true,
                _ => false,
            }) && forall|j: int|
                i < j < devices.len() ==> !((#[trigger] devices[j]).driver == driver_name
                    && devices[j].pool == key.pool_name && devices[j].device == key.device_name
                    && devices[j].share_id == key.share_id) by {
            lemma_current_entry(devices, driver_name, key);
            assert(entry_is_current(devices, driver_name, key, desired[key]));
            let entry = current_entry(devices, driver_name, key)->0;
            let i = choose|i: int|
                0 <= i < devices.len() && #[trigger] devices[i] == entry && entry.driver
                    == driver_name && entry.pool == key.pool_name && entry.device
                    == key.device_name && entry.share_id == key.share_id && forall|j: int|
                    i < j < devices.len() ==> !((#[trigger] devices[j]).driver == driver_name
                        && devices[j].pool == key.pool_name && devices[j].device
                        == key.device_name && devices[j].share_id == key.share_id);
            assert(devices[i] == entry);
        }
    }
    if forall|key: DeviceKey| #[trigger]
        desired.dom().contains(key) ==> exists|i: int|
            0 <= i < devices.len() && (#[trigger] devices[i]).driver == driver_name
                && devices[i].pool == key.pool_name && devices[i].device == key.device_name
                && devices[i].share_id == key.share_id && devices[i].conditions
                == desired[key].conditions && devices[i].network_data == desired[key].network_data
                && (match (devices[i].data, desired[key].data) {
                (Some(held), Some(wanted)) => held == wanted || json_same(held, wanted),
                (None, None) => true,
                _ => false,
            }) && forall|j: int|
                i < j < devices.len() ==> !((#[trigger] devices[j]).driver == driver_name
                    && devices[j].pool == key.pool_name && devices[j].device == key.device_name
                    && devices[j].share_id == key.share_id) {
        assert forall|key: DeviceKey| #[trigger] desired.dom().contains(key) implies entry_is_current(
            devices,
            driver_name,
            key,
            desired[key],
        ) by {
            lemma_current_entry(devices, driver_name, key);
            let i = choose|i: int|
                0 <= i < devices.len() && (#[trigger] devices[i]).driver == driver_name
                    && devices[i].pool == key.pool_name && devices[i].device == key.device_name
                    && devices[i].share_id == key.share_id && devices[i].conditions
                    == desired[key].conditions && devices[i].network_data
                    == desired[key].network_data && (match (devices[i].data, desired[key].data) {
                    (Some(held), Some(wanted)) => held == wanted || json_same(held, wanted),
                    (None, None) => true,
                    _ => false,
                }) && forall|j: int|
                    i < j < devices.len() ==> !((#[trigger] devices[j]).driver == driver_name
                        && devices[j].pool == key.pool_name && devices[j].device
                        == key.device_name && devices[j].share_id == key.share_id);
            let entry = current_entry(devices, driver_name, key)->0;
            let at = choose|at: int|
                0 <= at < devices.len() && #[trigger] devices[at] == entry && entry.driver
                    == driver_name && entry.pool == key.pool_name && entry.device
                    == key.device_name && entry.share_id == key.share_id && forall|j: int|
                    at < j < devices.len() ==> !((#[trigger] devices[j]).driver == driver_name
                        && devices[j].pool == key.pool_name && devices[j].device
                        == key.device_name && devices[j].share_id == key.share_id);
            assert(devices[i].driver == driver_name);
            assert(devices[at] == entry);
            assert(i == at);
        }
    }
}

/// Two entries are about the same device exactly where driver, pool, device and
/// share agree.
pub proof fn law_entries_are_told_apart(left: DeviceStatusModel, right: DeviceStatusModel)
    ensures
        same_slot(left, right) <==> left.driver == right.driver && left.pool == right.pool
            && left.device == right.device && left.share_id == right.share_id,
{
}

/// Devices come in the order of their pools, then of their names, then of their
/// shares; without a share they come first.
pub proof fn law_device_keys_are_ordered(a: DeviceKey, b: DeviceKey)
    ensures
        ClaimDeviceStatusKey::before(a, b) <==> text_lt(a.pool_name, b.pool_name) || (a.pool_name
            == b.pool_name && (text_lt(a.device_name, b.device_name) || (a.device_name
            == b.device_name && match (a.share_id, b.share_id) {
            (None, Some(_)) => true,
            (Some(x), Some(y)) => text_lt(x, y),
            _ => false,
        }))),
{
}

proof fn lemma_slot(devices: Seq<DeviceStatusModel>, entry: DeviceStatusModel)
    ensures
        slot_of(devices, entry) <= devices.len(),
        slot_of(devices, entry) < devices.len() ==> same_slot(
            devices[slot_of(devices, entry) as int],
            entry,
        ),
    decreases devices.len(),
{
    if devices.len() > 0 && !same_slot(devices[0], entry) {
        lemma_slot(devices.drop_first(), entry);
    }
}

/// Every entry that is put in is there in the end.
proof fn lemma_upsert_all_holds(devices: Seq<DeviceStatusModel>, entries: Seq<DeviceStatusModel>)
    requires
        forall|a: int, b: int|
            0 <= a < b < entries.len() ==> !same_slot(#[trigger] entries[a], #[trigger] entries[b]),
    ensures
        forall|m: int|
            0 <= m < entries.len() ==> upsert_all(devices, entries).contains(#[trigger] entries[m]),
    decreases entries.len(),
{
    if entries.len() > 0 {
        let rest = entries.drop_last();
        let entry = entries.last();
        let earlier = upsert_all(devices, rest);
        let after = upsert_all(devices, entries);
        assert forall|a: int, b: int| 0 <= a < b < rest.len() implies !same_slot(
            #[trigger] rest[a],
            #[trigger] rest[b],
        ) by {
            assert(rest[a] == entries[a] && rest[b] == entries[b]);
        }
        lemma_upsert_all_holds(devices, rest);
        lemma_slot(earlier, entry);
        assert forall|m: int| 0 <= m < entries.len() implies after.contains(#[trigger] entries[m]) by {
            if m < rest.len() {
                assert(rest[m] == entries[m]);
                assert(earlier.contains(rest[m]));
                let at = earlier.index_of(rest[m]);
                assert(!same_slot(entries[m], entries[entries.len() - 1]));
                assert(after[at] == entries[m]);
            } else {
                assert(after[slot_of(earlier, entry) as int] == entry);
            }
        }
    }
}

/// The entries of an update, and those that it was made from.
proof fn lemma_update(
    driver_name: Seq<char>,
    field_manager: Seq<char>,
    claim: ClaimRefModel,
    reports: Seq<ReportModel>,
    found: ClaimModel,
    pending: PublicationModel,
    patch: PatchModel,
    next: PublicationModel,
) -> (entries: Seq<DeviceStatusModel>)
    requires
        first_step(driver_name, claim, reports) == StepModel::Read(pending),
        step_after_read(driver_name, field_manager, pending, Ok(found)) == StepModel::Patch(
            patch,
            next,
        ),
    ensures
        desired_entries(reports, driver_name) == Ok::<
            Map<DeviceKey, DeviceStatusModel>,
            StatusFailure,
        >(pending.desired),
        patch.devices == upsert_all(found.devices, entries),
        forall|a: int, b: int|
            0 <= a < b < entries.len() ==> !same_slot(#[trigger] entries[a], #[trigger] entries[b]),
        forall|key: DeviceKey| #[trigger]
            pending.desired.dom().contains(key) ==> entries.contains(pending.desired[key]),
        forall|m: int|
            0 <= m < entries.len() ==> exists|key: DeviceKey| #[trigger]
                pending.desired.dom().contains(key) && #[trigger] entries[m]
                    == pending.desired[key],
{
    law_desired_entries_are_filed(reports, driver_name);
    let desired = pending.desired;
    let keys = in_order::<ClaimDeviceStatusKey>(desired.dom());
    let entries = entries_in_order(desired);
    lemma_in_order_of_set::<ClaimDeviceStatusKey>(desired.dom());
    assert forall|m: int| 0 <= m < keys.len() implies desired.dom().contains(#[trigger] keys[m]) by {
        assert(keys.to_set().contains(keys[m]));
    }
    assert forall|a: int, b: int| 0 <= a < b < entries.len() implies !same_slot(
        #[trigger] entries[a],
        #[trigger] entries[b],
    ) by {
        assert(entries[a] == desired[keys[a]] && entries[b] == desired[keys[b]]);
        assert(desired.dom().contains(keys[a]) && desired.dom().contains(keys[b]));
        assert(ClaimDeviceStatusKey::before(keys[a], keys[b]));
        ClaimDeviceStatusKey::lemma_total(keys[a], keys[b]);
    }
    assert forall|key: DeviceKey| #[trigger] desired.dom().contains(key) implies entries.contains(
        desired[key],
    ) by {
        assert(keys.to_set().contains(key));
        assert(entries[keys.index_of(key)] == desired[key]);
    }
    assert forall|m: int| 0 <= m < entries.len() implies exists|key: DeviceKey| #[trigger]
        desired.dom().contains(key) && #[trigger] entries[m] == desired[key] by {
        assert(desired.dom().contains(keys[m]));
    }
    entries
}

/// An update holds every report, whole and under the driver's name.
pub proof fn law_updates_hold_every_report(
    driver_name: Seq<char>,
    field_manager: Seq<char>,
    claim: ClaimRefModel,
    reports: Seq<ReportModel>,
    found: ClaimModel,
    pending: PublicationModel,
    patch: PatchModel,
    next: PublicationModel,
    i: int,
) -> (k: int)
    requires
        first_step(driver_name, claim, reports) == StepModel::Read(pending),
        step_after_read(driver_name, field_manager, pending, Ok(found)) == StepModel::Patch(
            patch,
            next,
        ),
        0 <= i < reports.len(),
    ensures
        0 <= k < patch.devices.len(),
        patch.devices[k].driver == driver_name,
        patch.devices[k].pool == reports[i].key.pool_name,
        patch.devices[k].device == reports[i].key.device_name,
        patch.devices[k].share_id == reports[i].key.share_id,
        patch.devices[k].conditions == reports[i].conditions,
        patch.devices[k].data == reports[i].data,
        patch.devices[k].network_data == reports[i].network_data,
{
    law_every_report_is_desired(reports, driver_name);
    let entries = lemma_update(
        driver_name,
        field_manager,
        claim,
        reports,
        found,
        pending,
        patch,
        next,
    );
    lemma_upsert_all_holds(found.devices, entries);
    let entry = pending.desired[reports[i].key];
    assert(pending.desired.dom().contains(reports[i].key));
    let m = entries.index_of(entry);
    assert(patch.devices.contains(entries[m]));
    patch.devices.index_of(entry)
}

/// An update keeps every entry that was there before in its place, and as it was
/// unless a report is about its device.
pub proof fn law_updates_keep_other_entries(
    driver_name: Seq<char>,
    field_manager: Seq<char>,
    claim: ClaimRefModel,
    reports: Seq<ReportModel>,
    found: ClaimModel,
    pending: PublicationModel,
    patch: PatchModel,
    next: PublicationModel,
    j: int,
)
    requires
        first_step(driver_name, claim, reports) == StepModel::Read(pending),
        step_after_read(driver_name, field_manager, pending, Ok(found)) == StepModel::Patch(
            patch,
            next,
        ),
        0 <= j < found.devices.len(),
    ensures
        patch.devices.len() >= found.devices.len(),
        patch.devices[j].driver == found.devices[j].driver,
        patch.devices[j].pool == found.devices[j].pool,
        patch.devices[j].device == found.devices[j].device,
        patch.devices[j].share_id == found.devices[j].share_id,
        found.devices[j].driver != driver_name ==> patch.devices[j] == found.devices[j],
        (forall|i: int|
            0 <= i < reports.len() ==> !((#[trigger] reports[i]).key.pool_name
                == found.devices[j].pool && reports[i].key.device_name == found.devices[j].device
                && reports[i].key.share_id == found.devices[j].share_id)) ==> patch.devices[j]
            == found.devices[j],
{
    law_every_report_is_desired(reports, driver_name);
    let entries = lemma_update(
        driver_name,
        field_manager,
        claim,
        reports,
        found,
        pending,
        patch,
        next,
    );
    law_other_entries_are_kept(found.devices, entries, j);
    law_entries_are_told_apart(patch.devices[j], found.devices[j]);
    if patch.devices[j] != found.devices[j] {
        let m = choose|m: int|
            0 <= m < entries.len() && same_slot(found.devices[j], #[trigger] entries[m]);
        let key = choose|key: DeviceKey| #[trigger]
            pending.desired.dom().contains(key) && entries[m] == pending.desired[key];
        let i = choose|i: int| 0 <= i < reports.len() && (#[trigger] reports[i]).key == key;
        assert(reports[i].key == key);
        law_entries_are_told_apart(found.devices[j], entries[m]);
    }
}

/// An update holds nothing but what was there before and what was reported.
pub proof fn law_updates_write_nothing_else(
    driver_name: Seq<char>,
    field_manager: Seq<char>,
    claim: ClaimRefModel,
    reports: Seq<ReportModel>,
    found: ClaimModel,
    pending: PublicationModel,
    patch: PatchModel,
    next: PublicationModel,
    k: int,
) -> (i: int)
    requires
        first_step(driver_name, claim, reports) == StepModel::Read(pending),
        step_after_read(driver_name, field_manager, pending, Ok(found)) == StepModel::Patch(
            patch,
            next,
        ),
        0 <= k < patch.devices.len(),
    ensures
        patch.name == claim.name,
        patch.uid == claim.uid,
        Some(patch.resource_version) == found.resource_version,
        patch.field_manager == field_manager,
        (k < found.devices.len() && patch.devices[k] == found.devices[k]) || {
            &&& 0 <= i < reports.len()
            &&& patch.devices[k].driver == driver_name
            &&& patch.devices[k].pool == reports[i].key.pool_name
            &&& patch.devices[k].device == reports[i].key.device_name
            &&& patch.devices[k].share_id == reports[i].key.share_id
            &&& patch.devices[k].conditions == reports[i].conditions
            &&& patch.devices[k].data == reports[i].data
            &&& patch.devices[k].network_data == reports[i].network_data
        },
{
    law_every_report_is_desired(reports, driver_name);
    let entries = lemma_update(
        driver_name,
        field_manager,
        claim,
        reports,
        found,
        pending,
        patch,
        next,
    );
    law_only_reported_entries_change(found.devices, entries, k);
    if entries.contains(patch.devices[k]) {
        let m = entries.index_of(patch.devices[k]);
        assert(entries[m] == patch.devices[k]);
        let key = choose|key: DeviceKey| #[trigger]
            pending.desired.dom().contains(key) && entries[m] == pending.desired[key];
        let i = choose|i: int| 0 <= i < reports.len() && (#[trigger] reports[i]).key == key;
        assert(reports[i].key == key);
        i
    } else {
        0
    }
}

/// A publication starts by reading the claim that was named, with every report
/// desired; it ends at once where a report is refused, and where there is none.
pub proof fn law_publications_start_by_reading(
    driver_name: Seq<char>,
    claim: ClaimRefModel,
    reports: Seq<ReportModel>,
)
    ensures
        match desired_entries(reports, driver_name) {
            Err(failure) => first_step(driver_name, claim, reports) == StepModel::Done(
                Err(failure),
            ),
            Ok(desired) => if reports.len() == 0 {
                first_step(driver_name, claim, reports) == StepModel::Done(
                    Ok(ClaimDeviceStatusPublishOutcome::Unchanged),
                )
            } else {
                first_step(driver_name, claim, reports) == StepModel::Read(
                    PublicationModel { claim, desired, attempts: 0 },
                )
            },
        },
{
    law_every_report_is_desired(reports, driver_name);
    if let Ok(desired) = desired_entries(reports, driver_name) {
        if reports.len() > 0 {
            assert(desired.dom().contains(reports[0].key));
        }
    }
}

/// What follows a read of the claim. A failed read, an object with another UID, a
/// device that is not allocated and a claim without a version end the publication
/// with their failure; a claim that is up to date ends it without a change; any
/// other is updated.
pub proof fn law_reads_lead_to_updates(
    driver_name: Seq<char>,
    field_manager: Seq<char>,
    pending: PublicationModel,
    reply: Result<ClaimModel, KubeFailureModel>,
)
    ensures
        ({
            let step = step_after_read(driver_name, field_manager, pending, reply);
            match reply {
                Err(failure) => step == StepModel::Done(Err(StatusFailure::Kubernetes(failure))),
                Ok(found) => {
                    let uid = match found.uid {
                        Some(uid) => uid,
                        None => Seq::empty(),
                    };
                    if uid != pending.claim.uid {
                        step == StepModel::Done(
                            Err(
                                StatusFailure::ClaimIdentityMismatch {
                                    namespace: pending.claim.namespace,
                                    name: pending.claim.name,
                                    expected_uid: pending.claim.uid,
                                    found_uid: uid,
                                },
                            ),
                        )
                    } else {
                        match allocation_check(
                            pending.claim,
                            found,
                            driver_name,
                            pending.desired.dom(),
                        ) {
                            Err(failure) => step == StepModel::Done(Err(failure)),
                            Ok(()) => if entries_are_current(
                                found.devices,
                                driver_name,
                                pending.desired,
                            ) {
                                step == StepModel::Done(
                                    Ok(ClaimDeviceStatusPublishOutcome::Unchanged),
                                )
                            } else {
                                match found.resource_version {
                                    Some(version) if version.len() > 0 => match step {
                                        StepModel::Patch(_, next) => next == (PublicationModel {
                                            attempts: pending.attempts + 1,
                                            ..pending
                                        }),
                                        _ => false,
                                    },
                                    _ => step == StepModel::Done(
                                        Err(
                                            StatusFailure::MissingResourceVersion {
                                                namespace: pending.claim.namespace,
                                                name: pending.claim.name,
                                            },
                                        ),
                                    ),
                                }
                            },
                        }
                    }
                },
            }
        }),
{
}

/// What follows an update: success ends the publication as updated; a conflict is
/// read again with all reports kept, while fewer than three updates were sent;
/// any other failure ends it.
pub proof fn law_answers_end_or_repeat(
    pending: PublicationModel,
    reply: Result<(), KubeFailureModel>,
)
    ensures
        step_after_patch(pending, reply) == match reply {
            Ok(()) => StepModel::Done(Ok(ClaimDeviceStatusPublishOutcome::Updated)),
            Err(failure) => if failure.code == Some(409u16) && pending.attempts < 3 {
                StepModel::Read(pending)
            } else {
                StepModel::Done(Err(StatusFailure::Kubernetes(failure)))
            },
        },
{
}

/// Entries that are new to a claim come behind the others, in the order of their
/// devices.
pub proof fn law_new_entries_stand_in_order(
    devices: Seq<DeviceStatusModel>,
    entries: Seq<DeviceStatusModel>,
    a: int,
    b: int,
)
    requires
        forall|x: int, y: int|
            0 <= x < y < entries.len() ==> ClaimDeviceStatusKey::before(
                entry_key(#[trigger] entries[x]),
                entry_key(#[trigger] entries[y]),
            ),
        devices.len() <= a < b < upsert_all(devices, entries).len(),
    ensures
        ClaimDeviceStatusKey::before(
            entry_key(upsert_all(devices, entries)[a]),
            entry_key(upsert_all(devices, entries)[b]),
        ),
    decreases entries.len(),
{
    if entries.len() > 0 {
        let rest = entries.drop_last();
        let entry = entries.last();
        let earlier = upsert_all(devices, rest);
        let after = upsert_all(devices, entries);
        let last = entries.len() - 1;
        assert(entries[last] == entry);
        lemma_slot(earlier, entry);
        lemma_upsert_all_grows(devices, rest);
        assert forall|x: int, y: int| 0 <= x < y < rest.len() implies ClaimDeviceStatusKey::before(
            entry_key(#[trigger] rest[x]),
            entry_key(#[trigger] rest[y]),
        ) by {
            assert(rest[x] == entries[x] && rest[y] == entries[y]);
        }
        assert forall|k: int| devices.len() <= k < earlier.len() implies after[k] == earlier[k]
            && ClaimDeviceStatusKey::before(entry_key(#[trigger] earlier[k]), entry_key(entry)) by {
            law_only_reported_entries_change(devices, rest, k);
            let m = rest.index_of(earlier[k]);
            assert(rest[m] == entries[m]);
            assert(ClaimDeviceStatusKey::before(entry_key(entries[m]), entry_key(entries[last])));
            ClaimDeviceStatusKey::lemma_total(entry_key(earlier[k]), entry_key(entry));
            if slot_of(earlier, entry) == k {
                assert(same_slot(earlier[k], entry));
            }
        }
        if b < earlier.len() {
            law_new_entries_stand_in_order(devices, rest, a, b);
            assert(after[a] == earlier[a] && after[b] == earlier[b]);
        } else {
            assert(after[a] == earlier[a]);
            assert(after[b] == entry);
        }
    }
}

proof fn lemma_upsert_all_grows(devices: Seq<DeviceStatusModel>, entries: Seq<DeviceStatusModel>)
    ensures
        upsert_all(devices, entries).len() >= devices.len(),
    decreases entries.len(),
{
    if entries.len() > 0 {
        lemma_upsert_all_grows(devices, entries.drop_last());
    }
}

/// The desired entries are put in once each, in the order of their devices.
pub proof fn law_desired_entries_stand_in_order(
    desired: Map<DeviceKey, DeviceStatusModel>,
    i: int,
    j: int,
)
    requires
        desired.dom().finite(),
        forall|key: DeviceKey| #[trigger]
            desired.dom().contains(key) ==> entry_key(desired[key]) == key,
        0 <= i < j < entries_in_order(desired).len(),
    ensures
        entries_in_order(desired).len() == desired.dom().len(),
        ClaimDeviceStatusKey::before(
            entry_key(entries_in_order(desired)[i]),
            entry_key(entries_in_order(desired)[j]),
        ),
{
    let keys = in_order::<ClaimDeviceStatusKey>(desired.dom());
    lemma_in_order_of_set::<ClaimDeviceStatusKey>(desired.dom());
    assert(keys.to_set().contains(keys[i]) && keys.to_set().contains(keys[j]));
    assert(keys.no_duplicates()) by {
        assert forall|a: int, b: int| 0 <= a < b < keys.len() implies keys[a] != keys[b] by {
            ClaimDeviceStatusKey::lemma_total(keys[a], keys[b]);
        }
    }
    keys.unique_seq_to_set();
}

/// Each failure of a publication is shown by its own text, with what it names.
pub proof fn law_status_failures_are_shown_by_their_text(
    error: ClaimDeviceStatusError,
    cause: Seq<char>,
    key: ClaimDeviceStatusKey,
)
    ensures
        key_text(key@) == key.pool_name@ + "/"@ + key.device_name@ + "/"@ + (match key.share_id {
            Some(share) => share@,
            None => "-"@,
        }),
        failure_text(error@, cause) == match error {
            ClaimDeviceStatusError::MissingResourceVersion { namespace, name } => {
                "ResourceClaim "@ + namespace@ + "/"@ + name@
                    + " has no resourceVersion for a conditional update"@
            },
            ClaimDeviceStatusError::ClaimIdentityMismatch {
                namespace,
                name,
                expected_uid,
                found_uid,
            } => {
                "ResourceClaim "@ + namespace@ + "/"@ + name@ + " uid mismatch: expected "@
                    + expected_uid@ + ", found "@ + found_uid@
            },
            ClaimDeviceStatusError::DuplicateDeviceStatus(device) => {
                "device status "@ + key_text(device@) + " was reported more than once"@
            },
            ClaimDeviceStatusError::TooManyConditions(device) => {
                "device status "@ + key_text(device@) + " has more than eight conditions"@
            },
            ClaimDeviceStatusError::DataTooLarge { device, bytes } => {
                "device status "@ + key_text(device@) + " has "@ + decimal_text(bytes as nat)
                    + " bytes of raw data; Kubernetes permits at most "@ + decimal_text(10240)
            },
            ClaimDeviceStatusError::SerializeData(_) => {
                "failed to serialize device status data: "@ + cause
            },
            ClaimDeviceStatusError::DriverNotAllocated { namespace, name, driver_name } => {
                "ResourceClaim "@ + namespace@ + "/"@ + name@ + " has no allocation for driver "@
                    + driver_name@
            },
            ClaimDeviceStatusError::DeviceNotAllocated { namespace, name, driver_name, device } => {
                "device status "@ + key_text(device@) + " is not allocated to driver "@
                    + driver_name@ + " in ResourceClaim "@ + namespace@ + "/"@ + name@
            },
            ClaimDeviceStatusError::Kubernetes(failure) => {
                "Kubernetes API error while publishing ResourceClaim device status: "@
                    + failure.text@
            },
        },
{
}

} // verus!
