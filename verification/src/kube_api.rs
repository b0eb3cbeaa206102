//! The parts of Kubernetes API objects that drivers read and write.

use crate::json::{json_clone, json_eq, json_same};
use crate::record::{
    copy_opt, copy_opt_all, opt_view, opt_views, same_number, same_opt, same_opt_all, views,
    Record,
};
use vstd::prelude::*;

verus! {

/// A failed call of the Kubernetes API.
///
/// `code` is the HTTP code of an answer by the API server; a call that got no
/// answer has none. `text` says what went wrong.
#[derive(Clone, Debug, PartialEq, Eq)]
pub struct KubeFailure {
    pub code: Option<u16>,
    pub text: String,
}

/// What a [`KubeFailure`] says.
pub struct KubeFailureModel {
    pub code: Option<u16>,
    pub text: Seq<char>,
}

impl View for KubeFailure {
    type V = KubeFailureModel;

    open spec fn view(&self) -> KubeFailureModel {
        KubeFailureModel { code: self.code, text: self.text@ }
    }
}

/// A point in time: seconds since the Unix epoch, and nanoseconds.
#[derive(Clone, Copy, Debug, PartialEq, Eq, Structural)]
pub struct Timestamp {
    pub seconds: i64,
    pub nanoseconds: i32,
}

/// One observation of an object's state.
#[derive(Clone, Debug, PartialEq, Eq)]
pub struct Condition {
    pub last_transition_time: Timestamp,
    pub message: String,
    pub observed_generation: Option<i64>,
    pub reason: String,
    pub status: String,
    pub type_: String,
}

/// What a [`Condition`] says.
pub struct ConditionModel {
    pub last_transition_time: Timestamp,
    pub message: Seq<char>,
    pub observed_generation: Option<i64>,
    pub reason: Seq<char>,
    pub status: Seq<char>,
    pub type_: Seq<char>,
}

impl View for Condition {
    type V = ConditionModel;

    open spec fn view(&self) -> ConditionModel {
        ConditionModel {
            last_transition_time: self.last_transition_time,
            message: self.message@,
            observed_generation: self.observed_generation,
            reason: self.reason@,
            status: self.status@,
            type_: self.type_@,
        }
    }
}

impl Record for Condition {
    fn copy(&self) -> Condition {
        Condition {
            last_transition_time: self.last_transition_time,
            message: self.message.clone(),
            observed_generation: self.observed_generation,
            reason: self.reason.clone(),
            status: self.status.clone(),
            type_: self.type_.clone(),
        }
    }

    fn same(&self, other: &Condition) -> bool {
        self.last_transition_time == other.last_transition_time && self.message.same(&other.message)
            && same_number(self.observed_generation, other.observed_generation)
            && self.reason.same(&other.reason) && self.status.same(&other.status)
            && self.type_.same(&other.type_)
    }
}

/// Network information of an allocated device.
#[derive(Clone, Debug, PartialEq, Eq)]
pub struct NetworkDeviceData {
    pub hardware_address: Option<String>,
    pub interface_name: Option<String>,
    pub ips: Option<Vec<String>>,
}

/// What a [`NetworkDeviceData`] says.
pub struct NetworkDeviceModel {
    pub hardware_address: Option<Seq<char>>,
    pub interface_name: Option<Seq<char>>,
    pub ips: Option<Seq<Seq<char>>>,
}

impl View for NetworkDeviceData {
    type V = NetworkDeviceModel;

    open spec fn view(&self) -> NetworkDeviceModel {
        NetworkDeviceModel {
            hardware_address: opt_view(self.hardware_address),
            interface_name: opt_view(self.interface_name),
            ips: opt_views(self.ips),
        }
    }
}

impl Record for NetworkDeviceData {
    fn copy(&self) -> NetworkDeviceData {
        NetworkDeviceData {
            hardware_address: copy_opt(&self.hardware_address),
            interface_name: copy_opt(&self.interface_name),
            ips: copy_opt_all(&self.ips),
        }
    }

    fn same(&self, other: &NetworkDeviceData) -> bool {
        same_opt(&self.hardware_address, &other.hardware_address) && same_opt(
            &self.interface_name,
            &other.interface_name,
        ) && same_opt_all(&self.ips, &other.ips)
    }
}

/// An entry of `ResourceClaim.status.devices`.
#[derive(Clone, Debug, PartialEq)]
pub struct AllocatedDeviceStatus {
    pub conditions: Option<Vec<Condition>>,
    pub data: Option<serde_json::Value>,
    pub device: String,
    pub driver: String,
    pub network_data: Option<NetworkDeviceData>,
    pub pool: String,
    pub share_id: Option<String>,
}

/// What an [`AllocatedDeviceStatus`] says.
pub struct DeviceStatusModel {
    pub conditions: Option<Seq<ConditionModel>>,
    pub data: Option<serde_json::Value>,
    pub device: Seq<char>,
    pub driver: Seq<char>,
    pub network_data: Option<NetworkDeviceModel>,
    pub pool: Seq<char>,
    pub share_id: Option<Seq<char>>,
}

impl View for AllocatedDeviceStatus {
    type V = DeviceStatusModel;

    open spec fn view(&self) -> DeviceStatusModel {
        DeviceStatusModel {
            conditions: opt_views(self.conditions),
            data: self.data,
            device: self.device@,
            driver: self.driver@,
            network_data: opt_view(self.network_data),
            pool: self.pool@,
            share_id: opt_view(self.share_id),
        }
    }
}

/// Two documents are equal; each equals itself.
pub open spec fn documents_same(left: serde_json::Value, right: serde_json::Value) -> bool {
    left == right || json_same(left, right)
}

/// Two documents that may be absent are equal.
pub open spec fn opt_documents_same(
    left: Option<serde_json::Value>,
    right: Option<serde_json::Value>,
) -> bool {
    match (left, right) {
        (Some(l), Some(r)) => documents_same(l, r),
        (None, None) => true,
        _ => false,
    }
}

/// Two status entries are equal: the same fields, and equal data documents.
pub open spec fn status_same(left: DeviceStatusModel, right: DeviceStatusModel) -> bool {
    &&& left.conditions == right.conditions
    &&& opt_documents_same(left.data, right.data)
    &&& left.device == right.device
    &&& left.driver == right.driver
    &&& left.network_data == right.network_data
    &&& left.pool == right.pool
    &&& left.share_id == right.share_id
}

impl AllocatedDeviceStatus {
    /// A second entry that says the same.
    pub fn copy(&self) -> (other: AllocatedDeviceStatus)
        ensures
            other@ == self@,
    {
        AllocatedDeviceStatus {
            conditions: copy_opt_all(&self.conditions),
            data: match &self.data {
                Some(data) => Some(json_clone(data)),
                None => None,
            },
            device: self.device.clone(),
            driver: self.driver.clone(),
            network_data: copy_opt(&self.network_data),
            pool: self.pool.clone(),
            share_id: copy_opt(&self.share_id),
        }
    }

    /// Whether two entries are equal.
    pub fn equals(&self, other: &AllocatedDeviceStatus) -> (same: bool)
        ensures
            same == status_same(self@, other@),
    {
        let same_data = match (&self.data, &other.data) {
            (Some(l), Some(r)) => json_eq(l, r),
            (None, None) => true,
            _ => false,
        };
        same_data && same_opt_all(&self.conditions, &other.conditions) && self.device.same(
            &other.device,
        ) && self.driver.same(&other.driver) && same_opt(&self.network_data, &other.network_data)
            && self.pool.same(&other.pool) && same_opt(&self.share_id, &other.share_id)
    }
}

/// One device that the scheduler allocated to a claim.
#[derive(Clone, Debug, PartialEq, Eq)]
pub struct DeviceRequestAllocationResult {
    pub device: String,
    pub driver: String,
    pub pool: String,
    pub request: String,
    pub share_id: Option<String>,
}

/// What a [`DeviceRequestAllocationResult`] says.
pub struct AllocationModel {
    pub device: Seq<char>,
    pub driver: Seq<char>,
    pub pool: Seq<char>,
    pub request: Seq<char>,
    pub share_id: Option<Seq<char>>,
}

impl View for DeviceRequestAllocationResult {
    type V = AllocationModel;

    open spec fn view(&self) -> AllocationModel {
        AllocationModel {
            device: self.device@,
            driver: self.driver@,
            pool: self.pool@,
            request: self.request@,
            share_id: opt_view(self.share_id),
        }
    }
}

/// The devices of an allocation.
#[derive(Clone, Debug, PartialEq, Eq)]
pub struct DeviceAllocationResult {
    pub results: Option<Vec<DeviceRequestAllocationResult>>,
}

/// What the scheduler allocated to a claim.
#[derive(Clone, Debug, PartialEq, Eq)]
pub struct AllocationResult {
    pub devices: Option<DeviceAllocationResult>,
}

/// The status of a claim.
#[derive(Clone, Debug, PartialEq)]
pub struct ResourceClaimStatus {
    pub allocation: Option<AllocationResult>,
    pub devices: Option<Vec<AllocatedDeviceStatus>>,
}

/// A `ResourceClaim` object as the API server holds it.
#[derive(Clone, Debug, PartialEq)]
pub struct ResourceClaim {
    pub uid: Option<String>,
    pub resource_version: Option<String>,
    pub status: Option<ResourceClaimStatus>,
}

/// What a [`ResourceClaim`] says: no allocation is told from an allocation
/// without devices; an absent list of status entries counts as an empty one.
pub struct ClaimModel {
    pub uid: Option<Seq<char>>,
    pub resource_version: Option<Seq<char>>,
    pub allocation: Option<Seq<AllocationModel>>,
    pub devices: Seq<DeviceStatusModel>,
}

/// The devices of an allocation; an absent list counts as an empty one.
pub open spec fn allocation_devices(allocation: AllocationResult) -> Seq<AllocationModel> {
    match allocation.devices {
        Some(devices) => match devices.results {
            Some(results) => views(results@),
            None => Seq::empty(),
        },
        None => Seq::empty(),
    }
}

impl View for ResourceClaim {
    type V = ClaimModel;

    open spec fn view(&self) -> ClaimModel {
        ClaimModel {
            uid: opt_view(self.uid),
            resource_version: opt_view(self.resource_version),
            allocation: match self.status {
                Some(status) => match status.allocation {
                    Some(allocation) => Some(allocation_devices(allocation)),
                    None => None,
                },
                None => None,
            },
            devices: match self.status {
                Some(status) => match status.devices {
                    Some(devices) => views(devices@),
                    None => Seq::empty(),
                },
                None => Seq::empty(),
            },
        }
    }
}

impl ClaimModel {
    /// The claim's UID, or the empty text where it has none.
    pub open spec fn uid_text(self) -> Seq<char> {
        match self.uid {
            Some(uid) => uid,
            None => Seq::empty(),
        }
    }

    /// The devices allocated to the claim.
    pub open spec fn allocated(self) -> Seq<AllocationModel> {
        match self.allocation {
            Some(devices) => devices,
            None => Seq::empty(),
        }
    }
}

impl ResourceClaim {
    /// The claim's UID, or the empty text where it has none.
    pub fn uid_text(&self) -> (uid: &str)
        ensures
            uid@ == self@.uid_text(),
    {
        match &self.uid {
            Some(uid) => uid.as_str(),
            None => {
                proof {
                    reveal_strlit("");
                }
                ""
            },
        }
    }
}

} // verus!
