//! The parts of `ResourceSlice` objects that a driver writes and compares.
//!
//! Where an object of the API server holds fields that a driver never writes,
//! `other_fields` holds them in the form of JSON text; `None` means that no such
//! field is set.

use crate::ordered_map::OrderedMap;
use crate::record::{
    copy_map, copy_opt, map_views, opt_view, opt_views, same_flag, same_map, same_number, same_opt,
    Record,
};
use vstd::prelude::*;

verus! {

/// An attribute of a device.
#[derive(Clone, Debug, PartialEq, Eq)]
pub struct DeviceAttribute {
    pub bool: Option<bool>,
    pub int: Option<i64>,
    pub string: Option<String>,
    pub version: Option<String>,
    pub other_fields: Option<String>,
}

/// What a [`DeviceAttribute`] says.
pub struct DeviceAttributeModel {
    pub bool: Option<bool>,
    pub int: Option<i64>,
    pub string: Option<Seq<char>>,
    pub version: Option<Seq<char>>,
    pub other_fields: Option<Seq<char>>,
}

impl View for DeviceAttribute {
    type V = DeviceAttributeModel;

    open spec fn view(&self) -> DeviceAttributeModel {
        DeviceAttributeModel {
            bool: self.bool,
            int: self.int,
            string: opt_view(self.string),
            version: opt_view(self.version),
            other_fields: opt_view(self.other_fields),
        }
    }
}

impl Record for DeviceAttribute {
    fn copy(&self) -> DeviceAttribute {
        DeviceAttribute {
            bool: self.bool,
            int: self.int,
            string: copy_opt(&self.string),
            version: copy_opt(&self.version),
            other_fields: copy_opt(&self.other_fields),
        }
    }

    fn same(&self, other: &DeviceAttribute) -> bool {
        same_flag(self.bool, other.bool) && same_number(self.int, other.int) && same_opt(
            &self.string,
            &other.string,
        ) && same_opt(&self.version, &other.version) && same_opt(
            &self.other_fields,
            &other.other_fields,
        )
    }
}

/// A capacity of a device; `value` is a quantity in Kubernetes notation.
#[derive(Clone, Debug, PartialEq, Eq)]
pub struct DeviceCapacity {
    pub value: String,
    pub other_fields: Option<String>,
}

/// What a [`DeviceCapacity`] says.
pub struct DeviceCapacityModel {
    pub value: Seq<char>,
    pub other_fields: Option<Seq<char>>,
}

impl View for DeviceCapacity {
    type V = DeviceCapacityModel;

    open spec fn view(&self) -> DeviceCapacityModel {
        DeviceCapacityModel { value: self.value@, other_fields: opt_view(self.other_fields) }
    }
}

impl Record for DeviceCapacity {
    fn copy(&self) -> DeviceCapacity {
        DeviceCapacity { value: self.value.clone(), other_fields: copy_opt(&self.other_fields) }
    }

    fn same(&self, other: &DeviceCapacity) -> bool {
        self.value.same(&other.value) && same_opt(&self.other_fields, &other.other_fields)
    }
}

/// A device of a slice.
#[derive(Clone, Debug, PartialEq, Eq)]
pub struct WireDevice {
    pub name: String,
    pub attributes: Option<OrderedMap<String, DeviceAttribute>>,
    pub capacity: Option<OrderedMap<String, DeviceCapacity>>,
    pub other_fields: Option<String>,
}

/// What a [`WireDevice`] says.
pub struct WireDeviceModel {
    pub name: Seq<char>,
    pub attributes: Option<Map<Seq<char>, DeviceAttributeModel>>,
    pub capacity: Option<Map<Seq<char>, DeviceCapacityModel>>,
    pub other_fields: Option<Seq<char>>,
}

/// The contents of a map that may be absent.
pub open spec fn opt_map<V: View>(map: Option<OrderedMap<String, V>>) -> Option<
    Map<Seq<char>, V::V>,
> {
    match map {
        Some(map) => Some(map_views(map@)),
        None => None,
    }
}

impl View for WireDevice {
    type V = WireDeviceModel;

    open spec fn view(&self) -> WireDeviceModel {
        WireDeviceModel {
            name: self.name@,
            attributes: opt_map(self.attributes),
            capacity: opt_map(self.capacity),
            other_fields: opt_view(self.other_fields),
        }
    }
}

fn copy_opt_map<V: Record>(map: &Option<OrderedMap<String, V>>) -> (copied: Option<
    OrderedMap<String, V>,
>)
    ensures
        opt_map(copied) == opt_map(*map),
{
    match map {
        Some(map) => Some(copy_map(map)),
        None => None,
    }
}

fn same_opt_map<V: Record>(
    left: &Option<OrderedMap<String, V>>,
    right: &Option<OrderedMap<String, V>>,
) -> (same: bool)
    ensures
        same == (opt_map(*left) == opt_map(*right)),
{
    match (left, right) {
        (Some(l), Some(r)) => same_map(l, r),
        (None, None) => true,
        _ => false,
    }
}

impl Record for WireDevice {
    fn copy(&self) -> WireDevice {
        WireDevice {
            name: self.name.clone(),
            attributes: copy_opt_map(&self.attributes),
            capacity: copy_opt_map(&self.capacity),
            other_fields: copy_opt(&self.other_fields),
        }
    }

    fn same(&self, other: &WireDevice) -> bool {
        self.name.same(&other.name) && same_opt_map(&self.attributes, &other.attributes)
            && same_opt_map(&self.capacity, &other.capacity) && same_opt(
            &self.other_fields,
            &other.other_fields,
        )
    }
}

/// The pool that a slice belongs to.
#[derive(Clone, Debug, PartialEq, Eq)]
pub struct WireResourcePool {
    pub name: String,
    pub generation: i64,
    pub resource_slice_count: i64,
}

/// What a [`WireResourcePool`] says.
pub struct WirePoolModel {
    pub name: Seq<char>,
    pub generation: i64,
    pub resource_slice_count: i64,
}

impl View for WireResourcePool {
    type V = WirePoolModel;

    open spec fn view(&self) -> WirePoolModel {
        WirePoolModel {
            name: self.name@,
            generation: self.generation,
            resource_slice_count: self.resource_slice_count,
        }
    }
}

/// What a slice says of a driver, a node and a pool.
#[derive(Clone, Debug, PartialEq, Eq)]
pub struct ResourceSliceSpec {
    pub driver: String,
    pub node_name: Option<String>,
    pub pool: WireResourcePool,
    pub devices: Option<Vec<WireDevice>>,
    pub other_fields: Option<String>,
}

/// What a [`ResourceSliceSpec`] says.
pub struct SliceSpecModel {
    pub driver: Seq<char>,
    pub node_name: Option<Seq<char>>,
    pub pool: WirePoolModel,
    pub devices: Option<Seq<WireDeviceModel>>,
    pub other_fields: Option<Seq<char>>,
}

impl View for ResourceSliceSpec {
    type V = SliceSpecModel;

    open spec fn view(&self) -> SliceSpecModel {
        SliceSpecModel {
            driver: self.driver@,
            node_name: opt_view(self.node_name),
            pool: self.pool@,
            devices: opt_views(self.devices),
            other_fields: opt_view(self.other_fields),
        }
    }
}

/// The object that another one belongs to.
#[derive(Clone, Debug, PartialEq, Eq)]
pub struct OwnerReference {
    pub api_version: String,
    pub kind: String,
    pub name: String,
    pub uid: String,
    pub controller: Option<bool>,
    pub block_owner_deletion: Option<bool>,
}

/// What an [`OwnerReference`] says.
pub struct OwnerModel {
    pub api_version: Seq<char>,
    pub kind: Seq<char>,
    pub name: Seq<char>,
    pub uid: Seq<char>,
    pub controller: Option<bool>,
    pub block_owner_deletion: Option<bool>,
}

impl View for OwnerReference {
    type V = OwnerModel;

    open spec fn view(&self) -> OwnerModel {
        OwnerModel {
            api_version: self.api_version@,
            kind: self.kind@,
            name: self.name@,
            uid: self.uid@,
            controller: self.controller,
            block_owner_deletion: self.block_owner_deletion,
        }
    }
}

impl Record for OwnerReference {
    fn copy(&self) -> OwnerReference {
        OwnerReference {
            api_version: self.api_version.clone(),
            kind: self.kind.clone(),
            name: self.name.clone(),
            uid: self.uid.clone(),
            controller: self.controller,
            block_owner_deletion: self.block_owner_deletion,
        }
    }

    fn same(&self, other: &OwnerReference) -> bool {
        self.api_version.same(&other.api_version) && self.kind.same(&other.kind) && self.name.same(
            &other.name,
        ) && self.uid.same(&other.uid) && same_flag(self.controller, other.controller) && same_flag(
            self.block_owner_deletion,
            other.block_owner_deletion,
        )
    }
}

/// A `ResourceSlice` object: its name, its owners and its specification.
#[derive(Clone, Debug, PartialEq, Eq)]
pub struct ResourceSlice {
    pub name: Option<String>,
    pub owner_references: Option<Vec<OwnerReference>>,
    pub spec: ResourceSliceSpec,
}

/// What a [`ResourceSlice`] says.
pub struct SliceModel {
    pub name: Option<Seq<char>>,
    pub owner_references: Option<Seq<OwnerModel>>,
    pub spec: SliceSpecModel,
}

impl View for ResourceSlice {
    type V = SliceModel;

    open spec fn view(&self) -> SliceModel {
        SliceModel {
            name: opt_view(self.name),
            owner_references: opt_views(self.owner_references),
            spec: self.spec@,
        }
    }
}

} // verus!
