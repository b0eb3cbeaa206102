//! What a Dynamic Resource Allocation driver offers, prepares and reports.

use crate::health::Health;
use crate::ordered_map::{MapKey, OrderedMap};
use crate::record::{copy_map, map_views, opt_view, same_map, views, Record};
use crate::text::{
    debug_quoted, debug_text, lemma_text_lt_total, lemma_text_lt_transitive, same_text, text_lt,
    text_order, TextOrder,
};
use vstd::prelude::*;
use vstd::string::*;

verus! {

/// A typed attribute value, which device selectors match against.
#[derive(Clone, Debug, PartialEq)]
pub enum AttributeValue {
    String(String),
    Int(i64),
    Bool(bool),
    /// A version in the form of semantic versioning.
    Version(String),
}

/// What an [`AttributeValue`] says.
pub enum AttributeModel {
    String(Seq<char>),
    Int(i64),
    Bool(bool),
    Version(Seq<char>),
}

impl View for AttributeValue {
    type V = AttributeModel;

    open spec fn view(&self) -> AttributeModel {
        match *self {
            AttributeValue::String(text) => AttributeModel::String(text@),
            AttributeValue::Int(number) => AttributeModel::Int(number),
            AttributeValue::Bool(flag) => AttributeModel::Bool(flag),
            AttributeValue::Version(text) => AttributeModel::Version(text@),
        }
    }
}

impl Record for AttributeValue {
    fn copy(&self) -> AttributeValue {
        match self {
            AttributeValue::String(text) => AttributeValue::String(text.clone()),
            AttributeValue::Int(number) => AttributeValue::Int(*number),
            AttributeValue::Bool(flag) => AttributeValue::Bool(*flag),
            AttributeValue::Version(text) => AttributeValue::Version(text.clone()),
        }
    }

    fn same(&self, other: &AttributeValue) -> bool {
        match (self, other) {
            (AttributeValue::String(l), AttributeValue::String(r)) => l.same(r),
            (AttributeValue::Int(l), AttributeValue::Int(r)) => *l == *r,
            (AttributeValue::Bool(l), AttributeValue::Bool(r)) => *l == *r,
            (AttributeValue::Version(l), AttributeValue::Version(r)) => l.same(r),
            _ => false,
        }
    }
}

/// A quantity of a device's capacity, such as memory or bandwidth.
#[derive(Clone, Copy, Debug, PartialEq, Eq, Structural)]
pub struct Quantity(pub i64);

impl View for Quantity {
    type V = int;

    open spec fn view(&self) -> int {
        self.0 as int
    }
}

impl Record for Quantity {
    fn copy(&self) -> Quantity {
        *self
    }

    fn same(&self, other: &Quantity) -> bool {
        self.0 == other.0
    }
}

/// A device that a driver offers, with the attributes and the capacity that
/// device selectors match against.
#[derive(Clone, Debug, PartialEq)]
pub struct PoolDevice {
    pub name: String,
    pub attributes: OrderedMap<String, AttributeValue>,
    pub capacity: OrderedMap<String, Quantity>,
    pub health: Health,
}

/// What a [`PoolDevice`] says.
pub struct PoolDeviceModel {
    pub name: Seq<char>,
    pub attributes: Map<Seq<char>, AttributeModel>,
    pub capacity: Map<Seq<char>, int>,
    pub health: Health,
}

impl View for PoolDevice {
    type V = PoolDeviceModel;

    open spec fn view(&self) -> PoolDeviceModel {
        PoolDeviceModel {
            name: self.name@,
            attributes: map_views(self.attributes@),
            capacity: map_views(self.capacity@),
            health: self.health,
        }
    }
}

impl Record for PoolDevice {
    fn copy(&self) -> PoolDevice {
        PoolDevice {
            name: self.name.clone(),
            attributes: copy_map(&self.attributes),
            capacity: copy_map(&self.capacity),
            health: self.health,
        }
    }

    fn same(&self, other: &PoolDevice) -> bool {
        same_text(self.name.as_str(), other.name.as_str()) && same_map(
            &self.attributes,
            &other.attributes,
        ) && same_map(&self.capacity, &other.capacity) && self.health == other.health
    }
}

impl PoolDevice {
    /// A healthy device without attributes or capacity.
    pub fn new(name: &str) -> (device: PoolDevice)
        ensures
            device@ == (PoolDeviceModel {
                name: name@,
                attributes: Map::empty(),
                capacity: Map::empty(),
                health: Health::Healthy,
            }),
    {
        let device = PoolDevice {
            name: name.to_owned(),
            attributes: OrderedMap::new(),
            capacity: OrderedMap::new(),
            health: Health::Healthy,
        };
        proof {
            assert(device@.attributes =~= Map::empty());
            assert(device@.capacity =~= Map::empty());
        }
        device
    }

    /// The device with another health.
    pub fn health(self, health: Health) -> (device: PoolDevice)
        ensures
            device@ == (PoolDeviceModel { health, ..self@ }),
    {
        PoolDevice { health, ..self }
    }

    /// The device with an attribute set.
    pub fn attribute(self, key: &str, value: AttributeValue) -> (device: PoolDevice)
        ensures
            device@ == (PoolDeviceModel {
                attributes: self@.attributes.insert(key@, value@),
                ..self@
            }),
    {
        let mut attributes = self.attributes;
        attributes.insert(key.to_owned(), value);
        proof {
            assert(map_views(attributes@) =~= self@.attributes.insert(key@, value@));
        }
        PoolDevice { attributes, ..self }
    }

    /// The device with a capacity set.
    pub fn capacity(self, key: &str, quantity: Quantity) -> (device: PoolDevice)
        ensures
            device@ == (PoolDeviceModel {
                capacity: self@.capacity.insert(key@, quantity@),
                ..self@
            }),
    {
        let mut capacity = self.capacity;
        capacity.insert(key.to_owned(), quantity);
        proof {
            assert(map_views(capacity@) =~= self@.capacity.insert(key@, quantity@));
        }
        PoolDevice { capacity, ..self }
    }
}

/// Identifies a `ResourceClaim` API object.
#[derive(Clone, Debug, PartialEq, Eq, Hash)]
pub struct ClaimRef {
    pub namespace: String,
    pub uid: String,
    pub name: String,
}

/// What a [`ClaimRef`] says.
pub struct ClaimRefModel {
    pub namespace: Seq<char>,
    pub uid: Seq<char>,
    pub name: Seq<char>,
}

impl View for ClaimRef {
    type V = ClaimRefModel;

    open spec fn view(&self) -> ClaimRefModel {
        ClaimRefModel { namespace: self.namespace@, uid: self.uid@, name: self.name@ }
    }
}

impl Record for ClaimRef {
    fn copy(&self) -> ClaimRef {
        ClaimRef {
            namespace: self.namespace.clone(),
            uid: self.uid.clone(),
            name: self.name.clone(),
        }
    }

    fn same(&self, other: &ClaimRef) -> bool {
        self.namespace.same(&other.namespace) && self.uid.same(&other.uid) && self.name.same(
            &other.name,
        )
    }
}

impl MapKey for ClaimRef {
    open spec fn before(a: ClaimRefModel, b: ClaimRefModel) -> bool {
        ||| text_lt(a.namespace, b.namespace)
        ||| a.namespace == b.namespace && text_lt(a.uid, b.uid)
        ||| a.namespace == b.namespace && a.uid == b.uid && text_lt(a.name, b.name)
    }

    proof fn lemma_total(a: ClaimRefModel, b: ClaimRefModel) {
        lemma_text_lt_total(a.namespace, b.namespace);
        lemma_text_lt_total(a.uid, b.uid);
        lemma_text_lt_total(a.name, b.name);
    }

    proof fn lemma_transitive(a: ClaimRefModel, b: ClaimRefModel, c: ClaimRefModel) {
        if text_lt(a.namespace, b.namespace) && text_lt(b.namespace, c.namespace) {
            lemma_text_lt_transitive(a.namespace, b.namespace, c.namespace);
        }
        if text_lt(a.uid, b.uid) && text_lt(b.uid, c.uid) {
            lemma_text_lt_transitive(a.uid, b.uid, c.uid);
        }
        if text_lt(a.name, b.name) && text_lt(b.name, c.name) {
            lemma_text_lt_transitive(a.name, b.name, c.name);
        }
    }

    fn place(&self, other: &ClaimRef) -> TextOrder {
        match text_order(self.namespace.as_str(), other.namespace.as_str()) {
            TextOrder::Before => {
                return TextOrder::Before;
            },
            TextOrder::After => {
                return TextOrder::After;
            },
            TextOrder::Same => {},
        }
        match text_order(self.uid.as_str(), other.uid.as_str()) {
            TextOrder::Before => {
                return TextOrder::Before;
            },
            TextOrder::After => {
                return TextOrder::After;
            },
            TextOrder::Same => {},
        }
        text_order(self.name.as_str(), other.name.as_str())
    }
}

/// One device that the scheduler allocated to a claim.
#[derive(Clone, Debug, PartialEq, Eq)]
pub struct AllocatedDevice {
    pub pool_name: String,
    pub device_name: String,
    /// The claim request that this device satisfies; `None` where it goes with
    /// every request of the claim.
    pub request_name: Option<String>,
}

/// What an [`AllocatedDevice`] says.
pub struct AllocatedDeviceModel {
    pub pool_name: Seq<char>,
    pub device_name: Seq<char>,
    pub request_name: Option<Seq<char>>,
}

impl View for AllocatedDevice {
    type V = AllocatedDeviceModel;

    open spec fn view(&self) -> AllocatedDeviceModel {
        AllocatedDeviceModel {
            pool_name: self.pool_name@,
            device_name: self.device_name@,
            request_name: opt_view(self.request_name),
        }
    }
}

/// A claim with the devices that the scheduler allocated to it.
#[derive(Clone, Debug, PartialEq, Eq)]
pub struct ResolvedClaim {
    pub claim: ClaimRef,
    pub devices: Vec<AllocatedDevice>,
}

/// What a [`ResolvedClaim`] says.
pub struct ResolvedClaimModel {
    pub claim: ClaimRefModel,
    pub devices: Seq<AllocatedDeviceModel>,
}

impl View for ResolvedClaim {
    type V = ResolvedClaimModel;

    open spec fn view(&self) -> ResolvedClaimModel {
        ResolvedClaimModel { claim: self.claim@, devices: views(self.devices@) }
    }
}

/// What a container gets of one prepared device.
#[derive(Clone, Debug, PartialEq, Eq)]
pub struct PreparedDevice {
    pub request_names: Vec<String>,
    pub pool_name: String,
    pub device_name: String,
    /// Fully qualified CDI device names, such as `vendor.com/gpu=gpudevice1`.
    pub cdi_device_ids: Vec<String>,
}

/// What a [`PreparedDevice`] says.
pub struct PreparedDeviceModel {
    pub request_names: Seq<Seq<char>>,
    pub pool_name: Seq<char>,
    pub device_name: Seq<char>,
    pub cdi_device_ids: Seq<Seq<char>>,
}

impl View for PreparedDevice {
    type V = PreparedDeviceModel;

    open spec fn view(&self) -> PreparedDeviceModel {
        PreparedDeviceModel {
            request_names: views(self.request_names@),
            pool_name: self.pool_name@,
            device_name: self.device_name@,
            cdi_device_ids: views(self.cdi_device_ids@),
        }
    }
}

impl Default for PreparedDevice {
    fn default() -> (device: PreparedDevice)
        ensures
            device@ == (PreparedDeviceModel {
                request_names: Seq::empty(),
                pool_name: Seq::empty(),
                device_name: Seq::empty(),
                cdi_device_ids: Seq::empty(),
            }),
    {
        let device = PreparedDevice {
            request_names: Vec::new(),
            pool_name: String::new(),
            device_name: String::new(),
            cdi_device_ids: Vec::new(),
        };
        proof {
            assert(device@.request_names =~= Seq::empty());
            assert(device@.cdi_device_ids =~= Seq::empty());
        }
        device
    }
}

/// Why a claim was not prepared.
#[derive(Clone, Debug, PartialEq, Eq)]
pub enum PrepareError {
    ClaimNotAllocated(ClaimRef),
    ResolutionFailed(String),
    DeviceUnavailable(String),
    HookFailed(String),
}

/// What a [`PrepareError`] says.
pub enum PrepareFailure {
    ClaimNotAllocated(ClaimRefModel),
    ResolutionFailed(Seq<char>),
    DeviceUnavailable(Seq<char>),
    HookFailed(Seq<char>),
}

impl View for PrepareError {
    type V = PrepareFailure;

    open spec fn view(&self) -> PrepareFailure {
        match *self {
            PrepareError::ClaimNotAllocated(claim) => PrepareFailure::ClaimNotAllocated(claim@),
            PrepareError::ResolutionFailed(text) => PrepareFailure::ResolutionFailed(text@),
            PrepareError::DeviceUnavailable(text) => PrepareFailure::DeviceUnavailable(text@),
            PrepareError::HookFailed(text) => PrepareFailure::HookFailed(text@),
        }
    }
}

/// A claim as it is shown in messages.
pub open spec fn claim_text(claim: ClaimRefModel) -> Seq<char> {
    "ClaimRef { namespace: "@ + debug_text(claim.namespace) + ", uid: "@ + debug_text(claim.uid)
        + ", name: "@ + debug_text(claim.name) + " }"@
}

/// A failure as it is shown.
pub open spec fn prepare_text(failure: PrepareFailure) -> Seq<char> {
    match failure {
        PrepareFailure::ClaimNotAllocated(claim) => "claim is not allocated: "@ + claim_text(claim),
        PrepareFailure::ResolutionFailed(text) => "claim resolution failed: "@ + text,
        PrepareFailure::DeviceUnavailable(text) => "device unavailable: "@ + text,
        PrepareFailure::HookFailed(text) => "hook failed: "@ + text,
    }
}

impl PrepareError {
    /// The failure as it is shown.
    pub fn to_string(&self) -> (text: String)
        ensures
            text@ == prepare_text(self@),
    {
        match self {
            PrepareError::ClaimNotAllocated(claim) => {
                let mut text = "claim is not allocated: ".to_owned();
                text.append("ClaimRef { namespace: ");
                text.append(debug_quoted(claim.namespace.as_str()).as_str());
                text.append(", uid: ");
                text.append(debug_quoted(claim.uid.as_str()).as_str());
                text.append(", name: ");
                text.append(debug_quoted(claim.name.as_str()).as_str());
                text.append(" }");
                text
            },
            PrepareError::ResolutionFailed(reason) => {
                let mut text = "claim resolution failed: ".to_owned();
                text.append(reason.as_str());
                text
            },
            PrepareError::DeviceUnavailable(device) => {
                let mut text = "device unavailable: ".to_owned();
                text.append(device.as_str());
                text
            },
            PrepareError::HookFailed(reason) => {
                let mut text = "hook failed: ".to_owned();
                text.append(reason.as_str());
                text
            },
        }
    }
}

/// The devices that a driver offers.
pub trait ResourcePool {
    /// The devices that the driver offers now, by pool name.
    fn devices(&self) -> OrderedMap<String, Vec<PoolDevice>>;
}

/// Prepares and unprepares the devices allocated to claims.
pub trait ClaimPreparer {
    /// Prepares every claim that a pod needs, in one batch.
    ///
    /// Kubelet may ask again for a claim that is prepared already, for example
    /// after the driver restarts, and must get the same result. The map has one
    /// entry for each claim.
    fn prepare(&self, claims: &Vec<ResolvedClaim>) -> OrderedMap<
        ClaimRef,
        Result<Vec<PreparedDevice>, PrepareError>,
    >;

    /// Undoes the preparation of a claim.
    fn unprepare(&self, claim: &ClaimRef) -> Result<(), PrepareError>;
}

/// All that the backend of a driver implements.
pub trait DraDriver: ResourcePool + ClaimPreparer {
    fn driver_name(&self) -> &str;
}

} // verus!
