//! Publication of a driver's own entries in `ResourceClaim.status.devices`.

use crate::dra::{ClaimRef, ClaimRefModel};
use crate::json::{json_error_text, json_to_vec, json_written};
use crate::kube_api::{
    status_same, AllocatedDeviceStatus, AllocationModel, ClaimModel, Condition, ConditionModel,
    DeviceRequestAllocationResult, DeviceStatusModel, KubeFailure, KubeFailureModel,
    NetworkDeviceData, NetworkDeviceModel, ResourceClaim, ResourceClaimStatus,
};
use crate::ordered_map::{in_order, MapKey, OrderedMap};
use crate::record::{copy_opt, map_views, opt_view, opt_views, same_opt, views, Record};
use crate::text::{
    decimal, decimal_text, lemma_text_lt_total, lemma_text_lt_transitive, same_text, text_lt,
    text_order, TextOrder,
};
use vstd::prelude::*;
use vstd::string::*;

verus! {

/// The name under which status updates are recorded unless another is chosen.
pub const FIELD_MANAGER: &'static str = "k8s-device-plugin-rs";

/// How often one publication sends a status update at most.
pub const MAX_PATCH_ATTEMPTS: usize = 3;

/// How many bytes of raw data Kubernetes permits for one device.
pub const MAX_DATA_BYTES: usize = 10240;

/// How many conditions Kubernetes permits for one device.
pub const MAX_CONDITIONS: usize = 8;

/// Which allocated device a status entry is about.
#[derive(Clone, Debug, PartialEq, Eq, PartialOrd, Ord)]
pub struct ClaimDeviceStatusKey {
    pub pool_name: String,
    pub device_name: String,
    pub share_id: Option<String>,
}

/// What a [`ClaimDeviceStatusKey`] says.
pub struct DeviceKey {
    pub pool_name: Seq<char>,
    pub device_name: Seq<char>,
    pub share_id: Option<Seq<char>>,
}

impl View for ClaimDeviceStatusKey {
    type V = DeviceKey;

    open spec fn view(&self) -> DeviceKey {
        DeviceKey {
            pool_name: self.pool_name@,
            device_name: self.device_name@,
            share_id: opt_view(self.share_id),
        }
    }
}

impl Record for ClaimDeviceStatusKey {
    fn copy(&self) -> ClaimDeviceStatusKey {
        ClaimDeviceStatusKey {
            pool_name: self.pool_name.clone(),
            device_name: self.device_name.clone(),
            share_id: copy_opt(&self.share_id),
        }
    }

    fn same(&self, other: &ClaimDeviceStatusKey) -> bool {
        self.pool_name.same(&other.pool_name) && self.device_name.same(&other.device_name)
            && same_opt(&self.share_id, &other.share_id)
    }
}

/// An absent text comes before every text.
pub open spec fn opt_text_lt(a: Option<Seq<char>>, b: Option<Seq<char>>) -> bool {
    match (a, b) {
        (None, Some(_)) => true,
        (Some(x), Some(y)) => text_lt(x, y),
        _ => false,
    }
}

impl MapKey for ClaimDeviceStatusKey {
    open spec fn before(a: DeviceKey, b: DeviceKey) -> bool {
        ||| text_lt(a.pool_name, b.pool_name)
        ||| a.pool_name == b.pool_name && text_lt(a.device_name, b.device_name)
        ||| a.pool_name == b.pool_name && a.device_name == b.device_name && opt_text_lt(
            a.share_id,
            b.share_id,
        )
    }

    proof fn lemma_total(a: DeviceKey, b: DeviceKey) {
        lemma_text_lt_total(a.pool_name, b.pool_name);
        lemma_text_lt_total(a.device_name, b.device_name);
        match (a.share_id, b.share_id) {
            (Some(x), Some(y)) => lemma_text_lt_total(x, y),
            _ => {},
        }
    }

    proof fn lemma_transitive(a: DeviceKey, b: DeviceKey, c: DeviceKey) {
        if text_lt(a.pool_name, b.pool_name) && text_lt(b.pool_name, c.pool_name) {
            lemma_text_lt_transitive(a.pool_name, b.pool_name, c.pool_name);
        }
        if text_lt(a.device_name, b.device_name) && text_lt(b.device_name, c.device_name) {
            lemma_text_lt_transitive(a.device_name, b.device_name, c.device_name);
        }
        match (a.share_id, b.share_id, c.share_id) {
            (Some(x), Some(y), Some(z)) => {
                if text_lt(x, y) && text_lt(y, z) {
                    lemma_text_lt_transitive(x, y, z);
                }
            },
            _ => {},
        }
    }

    fn place(&self, other: &ClaimDeviceStatusKey) -> TextOrder {
        match text_order(self.pool_name.as_str(), other.pool_name.as_str()) {
            TextOrder::Before => {
                return TextOrder::Before;
            },
            TextOrder::After => {
                return TextOrder::After;
            },
            TextOrder::Same => {},
        }
        match text_order(self.device_name.as_str(), other.device_name.as_str()) {
            TextOrder::Before => {
                return TextOrder::Before;
            },
            TextOrder::After => {
                return TextOrder::After;
            },
            TextOrder::Same => {},
        }
        match (&self.share_id, &other.share_id) {
            (None, None) => TextOrder::Same,
            (None, Some(_)) => TextOrder::Before,
            (Some(_), None) => TextOrder::After,
            (Some(a), Some(b)) => text_order(a.as_str(), b.as_str()),
        }
    }
}

/// A key as it is shown: pool, device and share, or `-` without a share.
pub open spec fn key_text(key: DeviceKey) -> Seq<char> {
    key.pool_name + "/"@ + key.device_name + "/"@ + (match key.share_id {
        Some(share) => share,
        None => "-"@,
    })
}

impl ClaimDeviceStatusKey {
    /// The key as it is shown.
    pub fn to_string(&self) -> (text: String)
        ensures
            text@ == key_text(self@),
    {
        let mut text = self.pool_name.clone();
        text.append("/");
        text.append(self.device_name.as_str());
        text.append("/");
        match &self.share_id {
            Some(share) => text.append(share.as_str()),
            None => text.append("-"),
        }
        text
    }
}

/// A driver's status of one device allocated to a claim.
///
/// The driver's name is not part of it: a [`ClaimDeviceStatusPublisher`] adds
/// its own. `data` is a JSON document of at most [`MAX_DATA_BYTES`] bytes in
/// compact form.
#[derive(Clone, Debug, PartialEq)]
pub struct ClaimDeviceStatus {
    pub pool_name: String,
    pub device_name: String,
    pub share_id: Option<String>,
    pub conditions: Option<Vec<Condition>>,
    pub data: Option<serde_json::Value>,
    pub network_data: Option<NetworkDeviceData>,
}

/// What a [`ClaimDeviceStatus`] says.
pub struct ReportModel {
    pub key: DeviceKey,
    pub conditions: Option<Seq<ConditionModel>>,
    pub data: Option<serde_json::Value>,
    pub network_data: Option<NetworkDeviceModel>,
}

impl View for ClaimDeviceStatus {
    type V = ReportModel;

    open spec fn view(&self) -> ReportModel {
        ReportModel {
            key: DeviceKey {
                pool_name: self.pool_name@,
                device_name: self.device_name@,
                share_id: opt_view(self.share_id),
            },
            conditions: opt_views(self.conditions),
            data: self.data,
            network_data: opt_view(self.network_data),
        }
    }
}

/// Whether publishing changed the claim.
#[derive(Clone, Copy, Debug, PartialEq, Eq, Structural)]
pub enum ClaimDeviceStatusPublishOutcome {
    Updated,
    Unchanged,
}

/// Why a status report was refused or could not be published.
#[derive(Debug)]
pub enum ClaimDeviceStatusError {
    MissingResourceVersion { namespace: String, name: String },
    ClaimIdentityMismatch {
        namespace: String,
        name: String,
        expected_uid: String,
        found_uid: String,
    },
    DuplicateDeviceStatus(ClaimDeviceStatusKey),
    TooManyConditions(ClaimDeviceStatusKey),
    DataTooLarge { device: ClaimDeviceStatusKey, bytes: usize },
    SerializeData(serde_json::Error),
    DriverNotAllocated { namespace: String, name: String, driver_name: String },
    DeviceNotAllocated {
        namespace: String,
        name: String,
        driver_name: String,
        device: Box<ClaimDeviceStatusKey>,
    },
    Kubernetes(KubeFailure),
}

/// What a [`ClaimDeviceStatusError`] says.
pub enum StatusFailure {
    MissingResourceVersion { namespace: Seq<char>, name: Seq<char> },
    ClaimIdentityMismatch {
        namespace: Seq<char>,
        name: Seq<char>,
        expected_uid: Seq<char>,
        found_uid: Seq<char>,
    },
    DuplicateDeviceStatus(DeviceKey),
    TooManyConditions(DeviceKey),
    DataTooLarge { device: DeviceKey, bytes: nat },
    SerializeData(serde_json::Error),
    DriverNotAllocated { namespace: Seq<char>, name: Seq<char>, driver_name: Seq<char> },
    DeviceNotAllocated {
        namespace: Seq<char>,
        name: Seq<char>,
        driver_name: Seq<char>,
        device: DeviceKey,
    },
    Kubernetes(KubeFailureModel),
}

impl View for ClaimDeviceStatusError {
    type V = StatusFailure;

    open spec fn view(&self) -> StatusFailure {
        match *self {
            ClaimDeviceStatusError::MissingResourceVersion { namespace, name } => {
                StatusFailure::MissingResourceVersion { namespace: namespace@, name: name@ }
            },
            ClaimDeviceStatusError::ClaimIdentityMismatch {
                namespace,
                name,
                expected_uid,
                found_uid,
            } => StatusFailure::ClaimIdentityMismatch {
                namespace: namespace@,
                name: name@,
                expected_uid: expected_uid@,
                found_uid: found_uid@,
            },
            ClaimDeviceStatusError::DuplicateDeviceStatus(device) => {
                StatusFailure::DuplicateDeviceStatus(device@)
            },
            ClaimDeviceStatusError::TooManyConditions(device) => StatusFailure::TooManyConditions(
                device@,
            ),
            ClaimDeviceStatusError::DataTooLarge { device, bytes } => StatusFailure::DataTooLarge {
                device: device@,
                bytes: bytes as nat,
            },
            ClaimDeviceStatusError::SerializeData(error) => StatusFailure::SerializeData(error),
            ClaimDeviceStatusError::DriverNotAllocated { namespace, name, driver_name } => {
                StatusFailure::DriverNotAllocated {
                    namespace: namespace@,
                    name: name@,
                    driver_name: driver_name@,
                }
            },
            ClaimDeviceStatusError::DeviceNotAllocated { namespace, name, driver_name, device } => {
                StatusFailure::DeviceNotAllocated {
                    namespace: namespace@,
                    name: name@,
                    driver_name: driver_name@,
                    device: device@,
                }
            },
            ClaimDeviceStatusError::Kubernetes(failure) => StatusFailure::Kubernetes(failure@),
        }
    }
}

/// A failure as it is shown. The cause is what the error of `serde_json` says of
/// itself, where the failure holds one; no other failure shows it.
pub open spec fn failure_text(failure: StatusFailure, cause: Seq<char>) -> Seq<char> {
    match failure {
        StatusFailure::MissingResourceVersion { namespace, name } => {
            "ResourceClaim "@ + namespace + "/"@ + name
                + " has no resourceVersion for a conditional update"@
        },
        StatusFailure::ClaimIdentityMismatch { namespace, name, expected_uid, found_uid } => {
            "ResourceClaim "@ + namespace + "/"@ + name + " uid mismatch: expected "@ + expected_uid
                + ", found "@ + found_uid
        },
        StatusFailure::DuplicateDeviceStatus(device) => {
            "device status "@ + key_text(device) + " was reported more than once"@
        },
        StatusFailure::TooManyConditions(device) => {
            "device status "@ + key_text(device) + " has more than eight conditions"@
        },
        StatusFailure::DataTooLarge { device, bytes } => {
            "device status "@ + key_text(device) + " has "@ + decimal_text(bytes)
                + " bytes of raw data; Kubernetes permits at most "@ + decimal_text(
                MAX_DATA_BYTES as nat,
            )
        },
        StatusFailure::SerializeData(_) => "failed to serialize device status data: "@ + cause,
        StatusFailure::DriverNotAllocated { namespace, name, driver_name } => {
            "ResourceClaim "@ + namespace + "/"@ + name + " has no allocation for driver "@
                + driver_name
        },
        StatusFailure::DeviceNotAllocated { namespace, name, driver_name, device } => {
            "device status "@ + key_text(device) + " is not allocated to driver "@ + driver_name
                + " in ResourceClaim "@ + namespace + "/"@ + name
        },
        StatusFailure::Kubernetes(failure) => {
            "Kubernetes API error while publishing ResourceClaim device status: "@ + failure.text
        },
    }
}

fn claim_prefix(namespace: &str, name: &str) -> (text: String)
    ensures
        text@ == "ResourceClaim "@ + namespace@ + "/"@ + name@,
{
    let mut text = "ResourceClaim ".to_owned();
    text.append(namespace);
    text.append("/");
    text.append(name);
    text
}

fn device_prefix(device: &ClaimDeviceStatusKey) -> (text: String)
    ensures
        text@ == "device status "@ + key_text(device@),
{
    let mut text = "device status ".to_owned();
    text.append(device.to_string().as_str());
    text
}

/// The failure to write a report's data as it is shown, given what the error says
/// of itself.
pub fn serialize_failure(cause: &str) -> (text: String)
    ensures
        text@ == "failed to serialize device status data: "@ + cause@,
{
    let mut text = "failed to serialize device status data: ".to_owned();
    text.append(cause);
    text
}

impl ClaimDeviceStatusError {
    /// The failure as it is shown. What the error of `serde_json` says of itself
    /// is appended as it says it.
    pub fn to_string(&self) -> (text: String)
        ensures
            exists|cause: Seq<char>| text@ == #[trigger] failure_text(self@, cause),
    {
        let text = match self {
            ClaimDeviceStatusError::MissingResourceVersion { namespace, name } => {
                let mut text = claim_prefix(namespace.as_str(), name.as_str());
                text.append(" has no resourceVersion for a conditional update");
                text
            },
            ClaimDeviceStatusError::ClaimIdentityMismatch {
                namespace,
                name,
                expected_uid,
                found_uid,
            } => {
                let mut text = claim_prefix(namespace.as_str(), name.as_str());
                text.append(" uid mismatch: expected ");
                text.append(expected_uid.as_str());
                text.append(", found ");
                text.append(found_uid.as_str());
                text
            },
            ClaimDeviceStatusError::DuplicateDeviceStatus(device) => {
                let mut text = device_prefix(device);
                text.append(" was reported more than once");
                text
            },
            ClaimDeviceStatusError::TooManyConditions(device) => {
                let mut text = device_prefix(device);
                text.append(" has more than eight conditions");
                text
            },
            ClaimDeviceStatusError::DataTooLarge { device, bytes } => {
                let mut text = device_prefix(device);
                text.append(" has ");
                text.append(decimal(*bytes as u64).as_str());
                text.append(" bytes of raw data; Kubernetes permits at most ");
                text.append(decimal(MAX_DATA_BYTES as u64).as_str());
                text
            },
            ClaimDeviceStatusError::SerializeData(error) => {
                let cause = json_error_text(error);
                let text = serialize_failure(cause.as_str());
                proof {
                    assert(text@ == failure_text(self@, cause@));
                }
                text
            },
            ClaimDeviceStatusError::DriverNotAllocated { namespace, name, driver_name } => {
                let mut text = claim_prefix(namespace.as_str(), name.as_str());
                text.append(" has no allocation for driver ");
                text.append(driver_name.as_str());
                text
            },
            ClaimDeviceStatusError::DeviceNotAllocated { namespace, name, driver_name, device } => {
                let mut text = device_prefix(device);
                text.append(" is not allocated to driver ");
                text.append(driver_name.as_str());
                text.append(" in ResourceClaim ");
                text.append(namespace.as_str());
                text.append("/");
                text.append(name.as_str());
                text
            },
            ClaimDeviceStatusError::Kubernetes(failure) => {
                let mut text =
                    "Kubernetes API error while publishing ResourceClaim device status: ".to_owned();
                text.append(failure.text.as_str());
                text
            },
        };
        proof {
            if !(self is SerializeData) {
                assert(text@ == failure_text(self@, Seq::empty()));
            }
        }
        text
    }
}

/// A result over views.
pub open spec fn outcome<T: View>(result: Result<T, ClaimDeviceStatusError>) -> Result<
    T::V,
    StatusFailure,
> {
    match result {
        Ok(value) => Ok(value@),
        Err(error) => Err(error@),
    }
}

/// The entry that a report becomes under a driver's name, or why it is refused:
/// more than [`MAX_CONDITIONS`] conditions, or data that cannot be written or
/// takes more than [`MAX_DATA_BYTES`] bytes.
pub open spec fn kubernetes_status(report: ReportModel, driver_name: Seq<char>) -> Result<
    DeviceStatusModel,
    StatusFailure,
> {
    let entry = DeviceStatusModel {
        conditions: report.conditions,
        data: report.data,
        device: report.key.device_name,
        driver: driver_name,
        network_data: report.network_data,
        pool: report.key.pool_name,
        share_id: report.key.share_id,
    };
    match report.conditions {
        Some(conditions) if conditions.len() > MAX_CONDITIONS => Err(
            StatusFailure::TooManyConditions(report.key),
        ),
        _ => match report.data {
            Some(data) => match json_written(data) {
                Err(error) => Err(StatusFailure::SerializeData(error)),
                Ok(raw) => if raw.len() > MAX_DATA_BYTES {
                    Err(StatusFailure::DataTooLarge { device: report.key, bytes: raw.len() })
                } else {
                    Ok(entry)
                },
            },
            None => Ok(entry),
        },
    }
}

impl ClaimDeviceStatus {
    /// A status that names the device and says nothing more.
    #[must_use]
    pub fn new(pool_name: &str, device_name: &str) -> (status: ClaimDeviceStatus)
        ensures
            status@ == (ReportModel {
                key: DeviceKey {
                    pool_name: pool_name@,
                    device_name: device_name@,
                    share_id: None,
                },
                conditions: None,
                data: None,
                network_data: None,
            }),
    {
        ClaimDeviceStatus {
            pool_name: pool_name.to_owned(),
            device_name: device_name.to_owned(),
            share_id: None,
            conditions: None,
            data: None,
            network_data: None,
        }
    }

    /// The device that the status is about.
    pub fn key(&self) -> (key: ClaimDeviceStatusKey)
        ensures
            key@ == self@.key,
    {
        ClaimDeviceStatusKey {
            pool_name: self.pool_name.clone(),
            device_name: self.device_name.clone(),
            share_id: copy_opt(&self.share_id),
        }
    }

    /// The entry of a claim's status that this becomes under a driver's name.
    pub fn into_kubernetes(self, driver_name: &str) -> (result: Result<
        AllocatedDeviceStatus,
        ClaimDeviceStatusError,
    >)
        ensures
            outcome(result) == kubernetes_status(self@, driver_name@),
    {
        let key = self.key();
        let count: usize = match &self.conditions {
            Some(conditions) => conditions.len(),
            None => 0,
        };
        if count > MAX_CONDITIONS {
            return Err(ClaimDeviceStatusError::TooManyConditions(key));
        }
        if let Some(data) = &self.data {
            match json_to_vec(data) {
                Err(error) => {
                    return Err(ClaimDeviceStatusError::SerializeData(error));
                },
                Ok(raw) => {
                    if raw.len() > MAX_DATA_BYTES {
                        return Err(
                            ClaimDeviceStatusError::DataTooLarge { device: key, bytes: raw.len() },
                        );
                    }
                },
            }
        }
        Ok(
            AllocatedDeviceStatus {
                conditions: self.conditions,
                data: self.data,
                device: self.device_name,
                driver: driver_name.to_owned(),
                network_data: self.network_data,
                pool: self.pool_name,
                share_id: self.share_id,
            },
        )
    }
}

/// The entries that reports become under a driver's name, by device, or the
/// first refusal: a report that is refused by itself, or one whose device was
/// reported before.
pub open spec fn desired_entries(reports: Seq<ReportModel>, driver_name: Seq<char>) -> Result<
    Map<DeviceKey, DeviceStatusModel>,
    StatusFailure,
>
    decreases reports.len(),
{
    if reports.len() == 0 {
        Ok(Map::empty())
    } else {
        let report = reports.last();
        match desired_entries(reports.drop_last(), driver_name) {
            Err(failure) => Err(failure),
            Ok(entries) => match kubernetes_status(report, driver_name) {
                Err(failure) => Err(failure),
                Ok(entry) => if entries.dom().contains(report.key) {
                    Err(StatusFailure::DuplicateDeviceStatus(report.key))
                } else {
                    Ok(entries.insert(report.key, entry))
                },
            },
        }
    }
}

/// The device of an allocation result.
pub open spec fn allocation_key(result: AllocationModel) -> DeviceKey {
    DeviceKey {
        pool_name: result.pool,
        device_name: result.device,
        share_id: result.share_id,
    }
}

/// The device of a status entry.
pub open spec fn entry_key(entry: DeviceStatusModel) -> DeviceKey {
    DeviceKey { pool_name: entry.pool, device_name: entry.device, share_id: entry.share_id }
}

/// Whether a device is allocated to a driver.
pub open spec fn is_allocated(
    results: Seq<AllocationModel>,
    driver_name: Seq<char>,
    key: DeviceKey,
) -> bool {
    exists|i: int|
        0 <= i < results.len() && (#[trigger] results[i]).driver == driver_name && allocation_key(
            results[i],
        ) == key
}

/// Whether any device is allocated to a driver.
pub open spec fn has_allocation(results: Seq<AllocationModel>, driver_name: Seq<char>) -> bool {
    exists|i: int| 0 <= i < results.len() && (#[trigger] results[i]).driver == driver_name
}

/// The first of the keys that is not allocated to a driver.
pub open spec fn first_unallocated(
    keys: Seq<DeviceKey>,
    results: Seq<AllocationModel>,
    driver_name: Seq<char>,
) -> Option<DeviceKey>
    decreases keys.len(),
{
    if keys.len() == 0 {
        None
    } else if !is_allocated(results, driver_name, keys[0]) {
        Some(keys[0])
    } else {
        first_unallocated(keys.drop_first(), results, driver_name)
    }
}

/// Whether every device to be reported is allocated to the driver, or the
/// refusal: no device at all is, or else the first one, in the order of the
/// keys, that is not.
pub open spec fn allocation_check(
    claim_ref: ClaimRefModel,
    claim: ClaimModel,
    driver_name: Seq<char>,
    devices: Set<DeviceKey>,
) -> Result<(), StatusFailure> {
    if !has_allocation(claim.allocated(), driver_name) {
        Err(
            StatusFailure::DriverNotAllocated {
                namespace: claim_ref.namespace,
                name: claim_ref.name,
                driver_name,
            },
        )
    } else {
        match first_unallocated(
            in_order::<ClaimDeviceStatusKey>(devices),
            claim.allocated(),
            driver_name,
        ) {
            Some(device) => Err(
                StatusFailure::DeviceNotAllocated {
                    namespace: claim_ref.namespace,
                    name: claim_ref.name,
                    driver_name,
                    device,
                },
            ),
            None => Ok(()),
        }
    }
}

/// The entry of a driver for a device; of several, the last.
pub open spec fn current_entry(
    devices: Seq<DeviceStatusModel>,
    driver_name: Seq<char>,
    key: DeviceKey,
) -> Option<DeviceStatusModel>
    decreases devices.len(),
{
    if devices.len() == 0 {
        None
    } else if devices.last().driver == driver_name && entry_key(devices.last()) == key {
        Some(devices.last())
    } else {
        current_entry(devices.drop_last(), driver_name, key)
    }
}

/// One desired entry is already there.
pub open spec fn entry_is_current(
    devices: Seq<DeviceStatusModel>,
    driver_name: Seq<char>,
    key: DeviceKey,
    entry: DeviceStatusModel,
) -> bool {
    match current_entry(devices, driver_name, key) {
        Some(current) => status_same(current, entry),
        None => false,
    }
}

/// Every desired entry is already there.
pub open spec fn entries_are_current(
    devices: Seq<DeviceStatusModel>,
    driver_name: Seq<char>,
    desired: Map<DeviceKey, DeviceStatusModel>,
) -> bool {
    forall|key: DeviceKey| #[trigger]
        desired.dom().contains(key) ==> entry_is_current(devices, driver_name, key, desired[key])
}

/// Two entries are about the same device of the same driver.
pub open spec fn same_slot(left: DeviceStatusModel, right: DeviceStatusModel) -> bool {
    left.driver == right.driver && entry_key(left) == entry_key(right)
}

/// The place of the first entry about the same device; the length without one.
pub open spec fn slot_of(devices: Seq<DeviceStatusModel>, entry: DeviceStatusModel) -> nat
    decreases devices.len(),
{
    if devices.len() == 0 {
        0
    } else if same_slot(devices[0], entry) {
        0
    } else {
        1 + slot_of(devices.drop_first(), entry)
    }
}

/// The entries with one of them replaced, or added at the end where there was
/// none about the device.
pub open spec fn upsert(
    devices: Seq<DeviceStatusModel>,
    entry: DeviceStatusModel,
) -> Seq<DeviceStatusModel> {
    if slot_of(devices, entry) < devices.len() {
        devices.update(slot_of(devices, entry) as int, entry)
    } else {
        devices.push(entry)
    }
}

/// The entries with several of them replaced or added, one after the other.
pub open spec fn upsert_all(
    devices: Seq<DeviceStatusModel>,
    entries: Seq<DeviceStatusModel>,
) -> Seq<DeviceStatusModel>
    decreases entries.len(),
{
    if entries.len() == 0 {
        devices
    } else {
        upsert(upsert_all(devices, entries.drop_last()), entries.last())
    }
}

/// The desired entries in the order of their keys.
pub open spec fn entries_in_order(desired: Map<DeviceKey, DeviceStatusModel>) -> Seq<
    DeviceStatusModel,
> {
    let keys = in_order::<ClaimDeviceStatusKey>(desired.dom());
    Seq::new(keys.len(), |i: int| desired[keys[i]])
}

/// The conditional update that a publication sends.
#[derive(Clone, Debug, PartialEq)]
pub struct StatusPatch {
    pub name: String,
    pub uid: String,
    pub resource_version: String,
    pub devices: Vec<AllocatedDeviceStatus>,
    pub field_manager: String,
}

/// What a [`StatusPatch`] says.
pub struct PatchModel {
    pub name: Seq<char>,
    pub uid: Seq<char>,
    pub resource_version: Seq<char>,
    pub devices: Seq<DeviceStatusModel>,
    pub field_manager: Seq<char>,
}

impl View for StatusPatch {
    type V = PatchModel;

    open spec fn view(&self) -> PatchModel {
        PatchModel {
            name: self.name@,
            uid: self.uid@,
            resource_version: self.resource_version@,
            devices: views(self.devices@),
            field_manager: self.field_manager@,
        }
    }
}

/// Publishes the local driver's status of devices allocated to a claim.
///
/// Publication is an upsert: entries that a call leaves out stay as they are.
/// Each attempt reads the claim, checks its UID and that every reported device
/// is allocated to the driver, and sends an update that holds only for the
/// version that was read. A conflict is read and checked again, with at most
/// [`MAX_PATCH_ATTEMPTS`] updates in all.
#[derive(Clone, Debug)]
pub struct ClaimDeviceStatusPublisher {
    driver_name: String,
    field_manager: String,
}

impl ClaimDeviceStatusPublisher {
    /// The driver whose entries are published.
    pub closed spec fn driver(self) -> Seq<char> {
        self.driver_name@
    }

    /// The name under which updates are recorded.
    pub closed spec fn manager(self) -> Seq<char> {
        self.field_manager@
    }

    /// A publisher for a driver.
    #[must_use]
    pub fn new(driver_name: &str) -> (publisher: ClaimDeviceStatusPublisher)
        ensures
            publisher.driver() == driver_name@,
            publisher.manager() == FIELD_MANAGER@,
            publisher.manager() == "k8s-device-plugin-rs"@,
    {
        ClaimDeviceStatusPublisher {
            driver_name: driver_name.to_owned(),
            field_manager: FIELD_MANAGER.to_owned(),
        }
    }

    /// Changes the name under which updates are recorded.
    #[must_use]
    pub fn with_field_manager(self, field_manager: &str) -> (publisher: ClaimDeviceStatusPublisher)
        ensures
            publisher.driver() == self.driver(),
            publisher.manager() == field_manager@,
    {
        ClaimDeviceStatusPublisher {
            driver_name: self.driver_name,
            field_manager: field_manager.to_owned(),
        }
    }

    /// The entries to be published, by device.
    pub fn desired_statuses(&self, statuses: Vec<ClaimDeviceStatus>) -> (result: Result<
        OrderedMap<ClaimDeviceStatusKey, AllocatedDeviceStatus>,
        ClaimDeviceStatusError,
    >)
        ensures
            (match result {
                Ok(desired) => Ok(map_views(desired@)),
                Err(error) => Err(error@),
            }) == desired_entries(views(statuses@), self.driver()),
    {
        let ghost given = statuses@;
        let ghost reports = views(given);
        let mut desired: OrderedMap<ClaimDeviceStatusKey, AllocatedDeviceStatus> =
            OrderedMap::new();
        proof {
            assert(reports.take(0) =~= Seq::empty());
            assert(map_views(desired@) =~= Map::empty());
        }
        for status in it: statuses
            invariant
                it.seq() == given,
                reports == views(given),
                desired_entries(reports.take(it.index()), self.driver()) == Ok::<
                    Map<DeviceKey, DeviceStatusModel>,
                    StatusFailure,
                >(map_views(desired@)),
        {
            let ghost done = it.index();
            let ghost entries = map_views(desired@);
            proof {
                lemma_desired_prefix(reports, self.driver(), done);
            }
            let key = status.key();
            let ghost report = status@;
            let entry = match status.into_kubernetes(self.driver_name.as_str()) {
                Ok(entry) => entry,
                Err(error) => {
                    proof {
                        lemma_desired_failure(reports, self.driver(), done + 1);
                    }
                    return Err(error);
                },
            };
            if desired.contains_key(&key) {
                proof {
                    lemma_desired_failure(reports, self.driver(), done + 1);
                }
                return Err(ClaimDeviceStatusError::DuplicateDeviceStatus(key));
            }
            let ghost entry_model = entry@;
            desired.insert(key, entry);
            proof {
                assert(map_views(desired@) =~= entries.insert(report.key, entry_model));
            }
        }
        proof {
            assert(reports.take(reports.len() as int) =~= reports);
        }
        Ok(desired)
    }
}

proof fn lemma_desired_prefix(reports: Seq<ReportModel>, driver_name: Seq<char>, n: int)
    requires
        0 <= n < reports.len(),
    ensures
        reports.take(n + 1).drop_last() == reports.take(n),
        reports.take(n + 1).last() == reports[n],
{
    assert(reports.take(n + 1).drop_last() =~= reports.take(n));
}

/// A refusal of the first reports is the refusal of all of them.
proof fn lemma_desired_failure(reports: Seq<ReportModel>, driver_name: Seq<char>, n: int)
    requires
        0 <= n <= reports.len(),
        desired_entries(reports.take(n), driver_name) is Err,
    ensures
        desired_entries(reports, driver_name) == desired_entries(reports.take(n), driver_name),
    decreases reports.len() - n,
{
    if n == reports.len() {
        assert(reports.take(n) =~= reports);
    } else {
        lemma_desired_prefix(reports, driver_name, n);
        lemma_desired_failure(reports, driver_name, n + 1);
    }
}

/// The allocation results of a claim, where it has any.
fn allocation_results(claim: &ResourceClaim) -> (results: Option<
    &Vec<DeviceRequestAllocationResult>,
>)
    ensures
        match results {
            Some(found) => views(found@) == claim@.allocated(),
            None => claim@.allocated().len() == 0,
        },
{
    match &claim.status {
        Some(status) => match &status.allocation {
            Some(allocation) => match &allocation.devices {
                Some(devices) => match &devices.results {
                    Some(results) => Some(results),
                    None => None,
                },
                None => None,
            },
            None => None,
        },
        None => None,
    }
}

fn any_allocated(results: &Vec<DeviceRequestAllocationResult>, driver_name: &String) -> (found: bool)
    ensures
        found == has_allocation(views(results@), driver_name@),
{
    let ghost models = views(results@);
    let mut i: usize = 0;
    while i < results.len()
        invariant
            i <= results@.len(),
            models == views(results@),
            forall|j: int| 0 <= j < i ==> (#[trigger] models[j]).driver != driver_name@,
        decreases results@.len() - i,
    {
        if results[i].driver.same(driver_name) {
            proof {
                assert(models[i as int].driver == driver_name@);
            }
            return true;
        }
        i += 1;
    }
    false
}

fn key_allocated(
    results: &Vec<DeviceRequestAllocationResult>,
    driver_name: &String,
    key: &ClaimDeviceStatusKey,
) -> (found: bool)
    ensures
        found == is_allocated(views(results@), driver_name@, key@),
{
    let ghost models = views(results@);
    let mut i: usize = 0;
    while i < results.len()
        invariant
            i <= results@.len(),
            models == views(results@),
            forall|j: int|
                0 <= j < i ==> !((#[trigger] models[j]).driver == driver_name@ && allocation_key(
                    models[j],
                ) == key@),
        decreases results@.len() - i,
    {
        let result = &results[i];
        if result.driver.same(driver_name) && result.pool.same(&key.pool_name)
            && result.device.same(&key.device_name) && same_opt(&result.share_id, &key.share_id) {
            proof {
                assert(models[i as int].driver == driver_name@);
                assert(allocation_key(models[i as int]) == key@);
            }
            return true;
        }
        proof {
            assert(models[i as int] == result@);
        }
        i += 1;
    }
    false
}

proof fn lemma_first_unallocated(
    keys: Seq<DeviceKey>,
    results: Seq<AllocationModel>,
    driver_name: Seq<char>,
    n: int,
)
    requires
        0 <= n <= keys.len(),
        forall|j: int| 0 <= j < n ==> is_allocated(results, driver_name, #[trigger] keys[j]),
    ensures
        first_unallocated(keys, results, driver_name) == first_unallocated(
            keys.skip(n),
            results,
            driver_name,
        ),
    decreases n,
{
    if n == 0 {
        assert(keys.skip(0) =~= keys);
    } else {
        assert(is_allocated(results, driver_name, keys[0]));
        assert forall|j: int| 0 <= j < n - 1 implies is_allocated(
            results,
            driver_name,
            #[trigger] keys.drop_first()[j],
        ) by {
            assert(keys.drop_first()[j] == keys[j + 1]);
        }
        lemma_first_unallocated(keys.drop_first(), results, driver_name, n - 1);
        assert(keys.drop_first().skip(n - 1) =~= keys.skip(n));
    }
}

fn find_last(
    devices: &Vec<AllocatedDeviceStatus>,
    driver_name: &String,
    key: &ClaimDeviceStatusKey,
) -> (found: Option<usize>)
    ensures
        match found {
            Some(i) => i < devices@.len() && current_entry(views(devices@), driver_name@, key@)
                == Some(devices@[i as int]@),
            None => current_entry(views(devices@), driver_name@, key@) is None,
        },
{
    let ghost models = views(devices@);
    let mut n: usize = devices.len();
    proof {
        assert(models.take(n as int) =~= models);
    }
    while n > 0
        invariant
            n <= devices@.len(),
            models == views(devices@),
            current_entry(models, driver_name@, key@) == current_entry(
                models.take(n as int),
                driver_name@,
                key@,
            ),
        decreases n,
    {
        let entry = &devices[n - 1];
        proof {
            assert(models.take(n as int).drop_last() =~= models.take(n - 1));
            assert(models.take(n as int).last() == entry@);
        }
        if entry.driver.same(driver_name) && entry.pool.same(&key.pool_name) && entry.device.same(
            &key.device_name,
        ) && same_opt(&entry.share_id, &key.share_id) {
            return Some(n - 1);
        }
        n -= 1;
    }
    None
}

fn find_slot(devices: &Vec<AllocatedDeviceStatus>, entry: &AllocatedDeviceStatus) -> (slot: usize)
    ensures
        slot == slot_of(views(devices@), entry@),
{
    let ghost models = views(devices@);
    let mut i: usize = 0;
    proof {
        assert(models.skip(0) =~= models);
    }
    while i < devices.len()
        invariant
            i <= devices@.len(),
            models == views(devices@),
            slot_of(models, entry@) == i + slot_of(models.skip(i as int), entry@),
        decreases devices@.len() - i,
    {
        let current = &devices[i];
        proof {
            assert(models.skip(i as int)[0] == current@);
            assert(models.skip(i as int).drop_first() =~= models.skip(i + 1));
        }
        if current.driver.same(&entry.driver) && current.pool.same(&entry.pool)
            && current.device.same(&entry.device) && same_opt(&current.share_id, &entry.share_id) {
            return i;
        }
        i += 1;
    }
    i
}

/// The entries of a claim with the desired ones replaced or added.
pub fn merge_statuses(
    devices: Vec<AllocatedDeviceStatus>,
    desired: &OrderedMap<ClaimDeviceStatusKey, AllocatedDeviceStatus>,
) -> (merged: Vec<AllocatedDeviceStatus>)
    ensures
        views(merged@) == upsert_all(views(devices@), entries_in_order(map_views(desired@))),
{
    let ghost models = views(devices@);
    let ghost entries = entries_in_order(map_views(desired@));
    let mut merged = devices;
    let n: usize = desired.len();
    proof {
        assert(map_views(desired@).dom() =~= desired@.dom());
        assert(entries.take(0) =~= Seq::empty());
    }
    let mut i: usize = 0;
    while i < n
        invariant
            i <= n,
            n == desired.order().len(),
            desired.order() == in_order::<ClaimDeviceStatusKey>(desired@.dom()),
            map_views(desired@).dom() == desired@.dom(),
            entries == entries_in_order(map_views(desired@)),
            views(merged@) == upsert_all(models, entries.take(i as int)),
        decreases n - i,
    {
        let entry = desired.value_at(i).copy();
        let ghost earlier = views(merged@);
        let ghost model = entry@;
        let slot: usize = find_slot(&merged, &entry);
        proof {
            assert(entries.take(i + 1).drop_last() =~= entries.take(i as int));
            assert(entries.take(i + 1).last() == model);
        }
        if slot < merged.len() {
            merged.set(slot, entry);
            proof {
                assert(views(merged@) =~= earlier.update(slot as int, model));
            }
        } else {
            merged.push(entry);
            proof {
                assert(views(merged@) =~= earlier.push(model));
            }
        }
        i += 1;
    }
    proof {
        assert(entries.take(n as int) =~= entries);
    }
    merged
}

impl ClaimDeviceStatusPublisher {
    /// Checks that every device to be reported is allocated to the driver.
    pub fn validate_allocations(
        &self,
        claim_ref: &ClaimRef,
        resource_claim: &ResourceClaim,
        desired: &OrderedMap<ClaimDeviceStatusKey, AllocatedDeviceStatus>,
    ) -> (result: Result<(), ClaimDeviceStatusError>)
        ensures
            (match result {
                Ok(()) => Ok(()),
                Err(error) => Err(error@),
            }) == allocation_check(claim_ref@, resource_claim@, self.driver(), desired@.dom()),
    {
        let ghost allocated = resource_claim@.allocated();
        let results = match allocation_results(resource_claim) {
            Some(results) if any_allocated(results, &self.driver_name) => results,
            _ => {
                return Err(
                    ClaimDeviceStatusError::DriverNotAllocated {
                        namespace: claim_ref.namespace.clone(),
                        name: claim_ref.name.clone(),
                        driver_name: self.driver_name.clone(),
                    },
                );
            },
        };
        let n: usize = desired.len();
        let mut i: usize = 0;
        while i < n
            invariant
                i <= n,
                n == desired.order().len(),
                desired.order() == in_order::<ClaimDeviceStatusKey>(desired@.dom()),
                views(results@) == allocated,
                allocated == resource_claim@.allocated(),
                has_allocation(allocated, self.driver()),
                forall|j: int|
                    0 <= j < i ==> is_allocated(
                        allocated,
                        self.driver(),
                        #[trigger] desired.order()[j],
                    ),
            decreases n - i,
        {
            let key = desired.key_at(i);
            if !key_allocated(results, &self.driver_name, key) {
                proof {
                    lemma_first_unallocated(desired.order(), allocated, self.driver(), i as int);
                    assert(desired.order().skip(i as int)[0] == desired.order()[i as int]);
                }
                return Err(
                    ClaimDeviceStatusError::DeviceNotAllocated {
                        namespace: claim_ref.namespace.clone(),
                        name: claim_ref.name.clone(),
                        driver_name: self.driver_name.clone(),
                        device: Box::new(key.copy()),
                    },
                );
            }
            i += 1;
        }
        proof {
            lemma_first_unallocated(desired.order(), allocated, self.driver(), n as int);
        }
        Ok(())
    }

    /// Whether the claim already holds every desired entry.
    pub fn statuses_are_current(
        &self,
        resource_claim: &ResourceClaim,
        desired: &OrderedMap<ClaimDeviceStatusKey, AllocatedDeviceStatus>,
    ) -> (current: bool)
        ensures
            current == entries_are_current(
                resource_claim@.devices,
                self.driver(),
                map_views(desired@),
            ),
    {
        let none: Vec<AllocatedDeviceStatus> = Vec::new();
        let devices: &Vec<AllocatedDeviceStatus> = match &resource_claim.status {
            Some(status) => match &status.devices {
                Some(devices) => devices,
                None => &none,
            },
            None => &none,
        };
        let ghost models = resource_claim@.devices;
        let ghost entries = map_views(desired@);
        proof {
            assert(views(devices@) =~= models);
            assert(entries.dom() =~= desired@.dom());
        }
        let n: usize = desired.len();
        let mut i: usize = 0;
        while i < n
            invariant
                i <= n,
                n == desired.order().len(),
                desired.order().to_set() == desired@.dom(),
                views(devices@) == models,
                entries == map_views(desired@),
                entries.dom() == desired@.dom(),
                models == resource_claim@.devices,
                forall|j: int|
                    0 <= j < i ==> entry_is_current(
                        models,
                        self.driver(),
                        #[trigger] desired.order()[j],
                        entries[desired.order()[j]],
                    ),
            decreases n - i,
        {
            let key = desired.key_at(i);
            let entry = desired.value_at(i);
            let ghost model = key@;
            let current = match find_last(devices, &self.driver_name, key) {
                Some(at) => devices[at].equals(entry),
                None => false,
            };
            if !current {
                proof {
                    assert(entries.dom().contains(model));
                    assert(!entry_is_current(models, self.driver(), model, entries[model]));
                }
                return false;
            }
            i += 1;
        }
        proof {
            assert forall|key: DeviceKey| #[trigger] entries.dom().contains(key) implies entry_is_current(
                models,
                self.driver(),
                key,
                entries[key],
            ) by {
                assert(desired.order().to_set().contains(key));
                let j = desired.order().index_of(key);
                assert(desired.order()[j] == key);
            }
        }
        true
    }
}

/// A publication under way: what it is to write into which claim, and how many
/// updates it has sent.
pub struct PublicationModel {
    pub claim: ClaimRefModel,
    pub desired: Map<DeviceKey, DeviceStatusModel>,
    pub attempts: nat,
}

/// A publication that waits for the claim.
pub struct PendingRead {
    claim: ClaimRef,
    desired: OrderedMap<ClaimDeviceStatusKey, AllocatedDeviceStatus>,
    attempts: usize,
}

/// A publication that waits for the answer to an update.
pub struct PendingPatch {
    claim: ClaimRef,
    desired: OrderedMap<ClaimDeviceStatusKey, AllocatedDeviceStatus>,
    attempts: usize,
}

impl View for PendingRead {
    type V = PublicationModel;

    closed spec fn view(&self) -> PublicationModel {
        PublicationModel {
            claim: self.claim@,
            desired: map_views(self.desired@),
            attempts: self.attempts as nat,
        }
    }
}

impl View for PendingPatch {
    type V = PublicationModel;

    closed spec fn view(&self) -> PublicationModel {
        PublicationModel {
            claim: self.claim@,
            desired: map_views(self.desired@),
            attempts: self.attempts as nat,
        }
    }
}

impl PendingRead {
    #[verifier::type_invariant]
    closed spec fn inv(self) -> bool {
        self.attempts < MAX_PATCH_ATTEMPTS
    }

    /// The claim to be read.
    pub fn claim(&self) -> (claim: &ClaimRef)
        ensures
            claim@ == self@.claim,
    {
        &self.claim
    }
}

impl PendingPatch {
    #[verifier::type_invariant]
    closed spec fn inv(self) -> bool {
        1 <= self.attempts <= MAX_PATCH_ATTEMPTS
    }

    /// The claim to be updated.
    pub fn claim(&self) -> (claim: &ClaimRef)
        ensures
            claim@ == self@.claim,
    {
        &self.claim
    }
}

/// What a publication does next: read the claim, send an update, or end.
pub enum PublishStep {
    Read(PendingRead),
    Patch(StatusPatch, PendingPatch),
    Done(Result<ClaimDeviceStatusPublishOutcome, ClaimDeviceStatusError>),
}

/// What a [`PublishStep`] says.
pub enum StepModel {
    Read(PublicationModel),
    Patch(PatchModel, PublicationModel),
    Done(Result<ClaimDeviceStatusPublishOutcome, StatusFailure>),
}

impl View for PublishStep {
    type V = StepModel;

    open spec fn view(&self) -> StepModel {
        match *self {
            PublishStep::Read(pending) => StepModel::Read(pending@),
            PublishStep::Patch(patch, pending) => StepModel::Patch(patch@, pending@),
            PublishStep::Done(Ok(result)) => StepModel::Done(Ok(result)),
            PublishStep::Done(Err(error)) => StepModel::Done(Err(error@)),
        }
    }
}

/// The first step: a refused report ends the publication, and so does a call
/// without reports; otherwise the claim is read.
pub open spec fn first_step(
    driver_name: Seq<char>,
    claim: ClaimRefModel,
    reports: Seq<ReportModel>,
) -> StepModel {
    match desired_entries(reports, driver_name) {
        Err(failure) => StepModel::Done(Err(failure)),
        Ok(desired) => if desired == Map::<DeviceKey, DeviceStatusModel>::empty() {
            StepModel::Done(Ok(ClaimDeviceStatusPublishOutcome::Unchanged))
        } else {
            StepModel::Read(PublicationModel { claim, desired, attempts: 0 })
        },
    }
}

/// The step after the claim was read, or could not be.
pub open spec fn step_after_read(
    driver_name: Seq<char>,
    field_manager: Seq<char>,
    pending: PublicationModel,
    reply: Result<ClaimModel, KubeFailureModel>,
) -> StepModel {
    match reply {
        Err(failure) => StepModel::Done(Err(StatusFailure::Kubernetes(failure))),
        Ok(found) => if found.uid_text() != pending.claim.uid {
            StepModel::Done(
                Err(
                    StatusFailure::ClaimIdentityMismatch {
                        namespace: pending.claim.namespace,
                        name: pending.claim.name,
                        expected_uid: pending.claim.uid,
                        found_uid: found.uid_text(),
                    },
                ),
            )
        } else {
            match allocation_check(pending.claim, found, driver_name, pending.desired.dom()) {
                Err(failure) => StepModel::Done(Err(failure)),
                Ok(()) => if entries_are_current(found.devices, driver_name, pending.desired) {
                    StepModel::Done(Ok(ClaimDeviceStatusPublishOutcome::Unchanged))
                } else {
                    match found.resource_version {
                        Some(version) if version.len() > 0 => StepModel::Patch(
                            PatchModel {
                                name: pending.claim.name,
                                uid: pending.claim.uid,
                                resource_version: version,
                                devices: upsert_all(
                                    found.devices,
                                    entries_in_order(pending.desired),
                                ),
                                field_manager,
                            },
                            PublicationModel { attempts: pending.attempts + 1, ..pending },
                        ),
                        _ => StepModel::Done(
                            Err(
                                StatusFailure::MissingResourceVersion {
                                    namespace: pending.claim.namespace,
                                    name: pending.claim.name,
                                },
                            ),
                        ),
                    }
                },
            }
        },
    }
}

/// The HTTP code of an update that met another one.
pub const CONFLICT: u16 = 409;

/// The step after an update was answered. Only a conflict is tried again, and
/// only while attempts are left.
pub open spec fn step_after_patch(
    pending: PublicationModel,
    reply: Result<(), KubeFailureModel>,
) -> StepModel {
    match reply {
        Ok(()) => StepModel::Done(Ok(ClaimDeviceStatusPublishOutcome::Updated)),
        Err(failure) => if failure.code == Some(CONFLICT) && pending.attempts
            < MAX_PATCH_ATTEMPTS {
            StepModel::Read(pending)
        } else {
            StepModel::Done(Err(StatusFailure::Kubernetes(failure)))
        },
    }
}

impl ClaimDeviceStatusPublisher {
    /// Starts to publish status entries for a claim.
    ///
    /// `Unchanged` at the end means that the claim already held every entry,
    /// and nothing was written.
    pub fn publish(&self, claim: &ClaimRef, statuses: Vec<ClaimDeviceStatus>) -> (step: PublishStep)
        ensures
            step@ == first_step(self.driver(), claim@, views(statuses@)),
    {
        match self.desired_statuses(statuses) {
            Err(error) => PublishStep::Done(Err(error)),
            Ok(desired) => {
                let ghost model = map_views(desired@);
                if desired.is_empty() {
                    proof {
                        assert(model =~= Map::empty());
                    }
                    PublishStep::Done(Ok(ClaimDeviceStatusPublishOutcome::Unchanged))
                } else {
                    proof {
                        if model == Map::<DeviceKey, DeviceStatusModel>::empty() {
                            assert(desired@.dom() =~= model.dom());
                            assert(desired@ =~= Map::empty());
                        }
                    }
                    PublishStep::Read(PendingRead { claim: claim.copy(), desired, attempts: 0 })
                }
            },
        }
    }

    /// Goes on after the claim was read, or could not be.
    pub fn claim_read(
        &self,
        pending: PendingRead,
        reply: Result<ResourceClaim, KubeFailure>,
    ) -> (step: PublishStep)
        ensures
            step@ == step_after_read(
                self.driver(),
                self.manager(),
                pending@,
                match reply {
                    Ok(found) => Ok(found@),
                    Err(failure) => Err(failure@),
                },
            ),
    {
        proof {
            use_type_invariant(&pending);
        }
        let found = match reply {
            Ok(found) => found,
            Err(failure) => {
                return PublishStep::Done(Err(ClaimDeviceStatusError::Kubernetes(failure)));
            },
        };
        let ghost model = found@;
        proof {
            assert(pending@.desired.dom() =~= pending.desired@.dom());
        }
        let found_uid = found.uid_text();
        if !same_text(found_uid, pending.claim.uid.as_str()) {
            return PublishStep::Done(
                Err(
                    ClaimDeviceStatusError::ClaimIdentityMismatch {
                        namespace: pending.claim.namespace.clone(),
                        name: pending.claim.name.clone(),
                        expected_uid: pending.claim.uid.clone(),
                        found_uid: found_uid.to_owned(),
                    },
                ),
            );
        }
        if let Err(error) = self.validate_allocations(&pending.claim, &found, &pending.desired) {
            return PublishStep::Done(Err(error));
        }
        if self.statuses_are_current(&found, &pending.desired) {
            return PublishStep::Done(Ok(ClaimDeviceStatusPublishOutcome::Unchanged));
        }
        let resource_version = match found.resource_version {
            Some(version) if !version.as_str().is_empty() => version,
            _ => {
                return PublishStep::Done(
                    Err(
                        ClaimDeviceStatusError::MissingResourceVersion {
                            namespace: pending.claim.namespace.clone(),
                            name: pending.claim.name.clone(),
                        },
                    ),
                );
            },
        };
        let devices: Vec<AllocatedDeviceStatus> = match found.status {
            Some(ResourceClaimStatus { devices: Some(devices), .. }) => devices,
            _ => Vec::new(),
        };
        proof {
            assert(views(devices@) =~= model.devices);
        }
        let patch = StatusPatch {
            name: pending.claim.name.clone(),
            uid: pending.claim.uid.clone(),
            resource_version,
            devices: merge_statuses(devices, &pending.desired),
            field_manager: self.field_manager.clone(),
        };
        let next = PendingPatch {
            attempts: pending.attempts + 1,
            claim: pending.claim,
            desired: pending.desired,
        };
        PublishStep::Patch(patch, next)
    }

    /// Goes on after an update was answered.
    pub fn patch_answered(
        &self,
        pending: PendingPatch,
        reply: Result<(), KubeFailure>,
    ) -> (step: PublishStep)
        ensures
            step@ == step_after_patch(
                pending@,
                match reply {
                    Ok(()) => Ok(()),
                    Err(failure) => Err(failure@),
                },
            ),
    {
        match reply {
            Ok(()) => PublishStep::Done(Ok(ClaimDeviceStatusPublishOutcome::Updated)),
            Err(failure) => {
                let conflict = match failure.code {
                    Some(code) => code == CONFLICT,
                    None => false,
                };
                if conflict && pending.attempts < MAX_PATCH_ATTEMPTS {
                    PublishStep::Read(
                        PendingRead {
                            claim: pending.claim,
                            desired: pending.desired,
                            attempts: pending.attempts,
                        },
                    )
                } else {
                    PublishStep::Done(Err(ClaimDeviceStatusError::Kubernetes(failure)))
                }
            },
        }
    }
}

} // verus!
