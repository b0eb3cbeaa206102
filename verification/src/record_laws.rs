//! Two values that say the same hold the same in every field, so that a copy is
//! whole and a comparison overlooks nothing.

use crate::device::{Device, DevicePath, HostMount};
use crate::device_plugin::RpcStatus;
use crate::device_status::{ClaimDeviceStatusKey, PublishStep, StatusPatch, StepModel};
use crate::dra::{
    AllocatedDevice, AttributeValue, ClaimRef, PoolDevice, PreparedDevice, Quantity, ResolvedClaim,
};
use crate::kube_api::{
    AllocatedDeviceStatus, Condition, DeviceRequestAllocationResult, KubeFailure, NetworkDeviceData,
};
use crate::ordered_map::{MapKey, OrderedMap};
use crate::record::{map_views, opt_view, opt_views, views};
use crate::resource_slice::{ActionModel, ApiStatus, SliceAction};
use crate::slice_api::{
    DeviceAttribute, DeviceCapacity, OwnerReference, ResourceSlice, ResourceSliceSpec, WireDevice,
    WireResourcePool,
};
use vstd::prelude::*;

verus! {

/// What a list says is what its items say, one by one and in their order.
pub proof fn law_lists_say_what_their_items_say<T: View>(values: Seq<T>, i: int)
    ensures
        views(values).len() == values.len(),
        0 <= i < values.len() ==> views(values)[i] == values[i]@,
{
}

/// What may be absent says nothing where it is absent, and what it holds where it
/// is there.
pub proof fn law_absence_is_told<T: View>(value: Option<T>, values: Option<Vec<T>>, i: int)
    ensures
        match value {
            Some(value) => opt_view(Some(value)) == Some(value@),
            None => opt_view(value) is None,
        },
        match values {
            Some(list) => match opt_views(values) {
                Some(said) => said.len() == list@.len() && (0 <= i < list@.len() ==> said[i]
                    == list@[i]@),
                None => false,
            },
            None => opt_views(values) is None,
        },
{
}

/// What a map says is what its values say, each under its key.
pub proof fn law_maps_say_what_their_values_say<M, T: View>(values: Map<M, T>, key: M)
    ensures
        map_views(values).dom() == values.dom(),
        values.dom().contains(key) ==> map_views(values)[key] == values[key]@,
{
    assert(map_views(values).dom() =~= values.dom());
}

/// Two maps that say the same have the same keys, and under each the same is
/// said.
pub proof fn law_same_maps<K: MapKey, T: View>(
    left: OrderedMap<K, T>,
    right: OrderedMap<K, T>,
    key: K::V,
)
    requires
        map_views(left@) == map_views(right@),
    ensures
        left@.dom() == right@.dom(),
        left@.dom().contains(key) ==> left@[key]@ == right@[key]@,
{
    assert(map_views(left@).dom() =~= left@.dom());
    assert(map_views(right@).dom() =~= right@.dom());
    if left@.dom().contains(key) {
        assert(right@.dom().contains(key));
        law_maps_say_what_their_values_say(left@, key);
        law_maps_say_what_their_values_say(right@, key);
    }
}

/// Device files, mounts and devices.
pub proof fn law_devices_are_whole(
    path: DevicePath,
    other_path: DevicePath,
    mount: HostMount,
    other_mount: HostMount,
    device: Device,
    other_device: Device,
)
    ensures
        path@ == other_path@ ==> path.host_path@ == other_path.host_path@ && path.container_path@
            == other_path.container_path@ && path.permissions == other_path.permissions,
        mount@ == other_mount@ ==> mount.host_path@ == other_mount.host_path@
            && mount.container_path@ == other_mount.container_path@ && mount.read_only
            == other_mount.read_only,
        device@ == other_device@ ==> device.id@ == other_device.id@ && device.health
            == other_device.health && views(device.paths@) == views(other_device.paths@),
{
}

/// Claims, the devices allocated to them, and those prepared for them.
pub proof fn law_claims_are_whole(
    claim: ClaimRef,
    other_claim: ClaimRef,
    device: AllocatedDevice,
    other_device: AllocatedDevice,
    resolved: ResolvedClaim,
    other_resolved: ResolvedClaim,
    prepared: PreparedDevice,
    other_prepared: PreparedDevice,
    result: DeviceRequestAllocationResult,
    other_result: DeviceRequestAllocationResult,
)
    ensures
        claim@ == other_claim@ ==> claim.namespace@ == other_claim.namespace@ && claim.name@
            == other_claim.name@ && claim.uid@ == other_claim.uid@,
        device@ == other_device@ ==> device.pool_name@ == other_device.pool_name@
            && device.device_name@ == other_device.device_name@ && opt_view(device.request_name)
            == opt_view(other_device.request_name),
        resolved@ == other_resolved@ ==> resolved.claim@ == other_resolved.claim@ && views(
            resolved.devices@,
        ) == views(other_resolved.devices@),
        prepared@ == other_prepared@ ==> prepared.pool_name@ == other_prepared.pool_name@
            && prepared.device_name@ == other_prepared.device_name@ && views(
            prepared.request_names@,
        ) == views(other_prepared.request_names@) && views(prepared.cdi_device_ids@) == views(
            other_prepared.cdi_device_ids@,
        ),
        result@ == other_result@ ==> result.device@ == other_result.device@ && result.driver@
            == other_result.driver@ && result.pool@ == other_result.pool@ && result.request@
            == other_result.request@ && opt_view(result.share_id) == opt_view(
            other_result.share_id,
        ),
{
}

/// The entries of a claim's status and all that they hold.
pub proof fn law_status_entries_are_whole(
    condition: Condition,
    other_condition: Condition,
    network: NetworkDeviceData,
    other_network: NetworkDeviceData,
    entry: AllocatedDeviceStatus,
    other_entry: AllocatedDeviceStatus,
    key: ClaimDeviceStatusKey,
    other_key: ClaimDeviceStatusKey,
)
    ensures
        condition@ == other_condition@ ==> condition.last_transition_time
            == other_condition.last_transition_time && condition.message@
            == other_condition.message@ && condition.observed_generation
            == other_condition.observed_generation && condition.reason@ == other_condition.reason@
            && condition.status@ == other_condition.status@ && condition.type_@
            == other_condition.type_@,
        network@ == other_network@ ==> opt_view(network.hardware_address) == opt_view(
            other_network.hardware_address,
        ) && opt_view(network.interface_name) == opt_view(other_network.interface_name)
            && opt_views(network.ips) == opt_views(other_network.ips),
        entry@ == other_entry@ ==> opt_views(entry.conditions) == opt_views(other_entry.conditions)
            && entry.data == other_entry.data && entry.device@ == other_entry.device@
            && entry.driver@ == other_entry.driver@ && opt_view(entry.network_data) == opt_view(
            other_entry.network_data,
        ) && entry.pool@ == other_entry.pool@ && opt_view(entry.share_id) == opt_view(
            other_entry.share_id,
        ),
        key@ == other_key@ ==> key.pool_name@ == other_key.pool_name@ && key.device_name@
            == other_key.device_name@ && opt_view(key.share_id) == opt_view(other_key.share_id),
{
}

/// The devices that a driver offers.
pub proof fn law_offered_devices_are_whole(
    value: AttributeValue,
    other_value: AttributeValue,
    quantity: Quantity,
    other_quantity: Quantity,
    device: PoolDevice,
    other_device: PoolDevice,
)
    ensures
        value@ == other_value@ ==> match (value, other_value) {
            (AttributeValue::String(l), AttributeValue::String(r)) => l@ == r@,
            (AttributeValue::Int(l), AttributeValue::Int(r)) => l == r,
            (AttributeValue::Bool(l), AttributeValue::Bool(r)) => l == r,
            (AttributeValue::Version(l), AttributeValue::Version(r)) => l@ == r@,
            _ => false,
        },
        quantity@ == other_quantity@ ==> quantity.0 == other_quantity.0,
        device@ == other_device@ ==> device.name@ == other_device.name@ && map_views(
            device.attributes@,
        ) == map_views(other_device.attributes@) && map_views(device.capacity@) == map_views(
            other_device.capacity@,
        ) && device.health == other_device.health,
{
}

/// Slices, their devices and their owners.
pub proof fn law_slices_are_whole(
    attribute: DeviceAttribute,
    other_attribute: DeviceAttribute,
    capacity: DeviceCapacity,
    other_capacity: DeviceCapacity,
    device: WireDevice,
    other_device: WireDevice,
    pool: WireResourcePool,
    other_pool: WireResourcePool,
    owner: OwnerReference,
    other_owner: OwnerReference,
)
    ensures
        attribute@ == other_attribute@ ==> attribute.bool == other_attribute.bool && attribute.int
            == other_attribute.int && opt_view(attribute.string) == opt_view(other_attribute.string)
            && opt_view(attribute.version) == opt_view(other_attribute.version) && opt_view(
            attribute.other_fields,
        ) == opt_view(other_attribute.other_fields),
        capacity@ == other_capacity@ ==> capacity.value@ == other_capacity.value@ && opt_view(
            capacity.other_fields,
        ) == opt_view(other_capacity.other_fields),
        device@ == other_device@ ==> {
            &&& device.name@ == other_device.name@
            &&& opt_view(device.other_fields) == opt_view(other_device.other_fields)
            &&& match (device.attributes, other_device.attributes) {
                (Some(l), Some(r)) => map_views(l@) == map_views(r@),
                (None, None) => true,
                _ => false,
            }
            &&& match (device.capacity, other_device.capacity) {
                (Some(l), Some(r)) => map_views(l@) == map_views(r@),
                (None, None) => true,
                _ => false,
            }
        },
        pool@ == other_pool@ ==> pool.name@ == other_pool.name@ && pool.generation
            == other_pool.generation && pool.resource_slice_count == other_pool.resource_slice_count,
        owner@ == other_owner@ ==> owner.api_version@ == other_owner.api_version@ && owner.kind@
            == other_owner.kind@ && owner.name@ == other_owner.name@ && owner.uid@
            == other_owner.uid@ && owner.controller == other_owner.controller
            && owner.block_owner_deletion == other_owner.block_owner_deletion,
{
}

/// A slice says what its fields say, each of them in its place.
pub proof fn law_slices_say_what_they_hold(slice: ResourceSlice, spec_: ResourceSliceSpec)
    requires
        slice.spec == spec_,
    ensures
        slice@.name == opt_view(slice.name),
        slice@.owner_references == opt_views(slice.owner_references),
        slice@.spec.driver == spec_.driver@,
        slice@.spec.node_name == opt_view(spec_.node_name),
        slice@.spec.pool.name == spec_.pool.name@,
        slice@.spec.pool.generation == spec_.pool.generation,
        slice@.spec.pool.resource_slice_count == spec_.pool.resource_slice_count,
        slice@.spec.devices == opt_views(spec_.devices),
        slice@.spec.other_fields == opt_view(spec_.other_fields),
{
}

/// A call of the API server says which call it is, and about what.
pub proof fn law_calls_say_what_they_do(action: SliceAction)
    ensures
        match action {
            SliceAction::Create(slice) => action@ == ActionModel::Create(slice@),
            SliceAction::Replace(slice) => action@ == ActionModel::Replace(slice@),
            SliceAction::Delete(name) => action@ == ActionModel::Delete(name@),
        },
{
}

/// A step of a publication says which step it is; an update says what it holds.
pub proof fn law_steps_say_what_they_do(step: PublishStep, patch: StatusPatch)
    ensures
        match step {
            PublishStep::Read(pending) => step@ == StepModel::Read(pending@),
            PublishStep::Patch(patch, pending) => step@ == StepModel::Patch(patch@, pending@),
            PublishStep::Done(Ok(result)) => step@ == StepModel::Done(Ok(result)),
            PublishStep::Done(Err(error)) => step@ == StepModel::Done(Err(error@)),
        },
        patch@.name == patch.name@,
        patch@.uid == patch.uid@,
        patch@.resource_version == patch.resource_version@,
        patch@.devices == views(patch.devices@),
        patch@.field_manager == patch.field_manager@,
{
}

/// Failed calls keep their code and their text.
pub proof fn law_failures_are_whole(failure: KubeFailure, status: ApiStatus, rpc: RpcStatus)
    ensures
        failure@.code == failure.code,
        failure@.text == failure.text@,
        status@.code == status.code,
        status@.reason == status.reason@,
        status@.message == status.message@,
        rpc@.code == rpc.code,
        rpc@.message == rpc.message@,
{
}

} // verus!
