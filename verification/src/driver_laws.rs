//! What holds of health watches, of a driver's components and of fixed lists of
//! devices, told from what goes in and what comes out.

use crate::allocation::AllocationFailure;
use crate::device::{DeviceModel, DevicePathModel};
use crate::device_plugin::{doubled_delay, RpcCode, RpcStatus, ServerExit};
use crate::dra::{AllocatedDeviceModel, PoolDeviceModel, PrepareFailure};
use crate::health::Health;
use crate::lifecycle::{component_message, exit_message, ComponentExit};
use crate::ordered_map::{in_order, lemma_in_order_of_set, MapKey};
use crate::path::file_name_text;
use crate::record::views;
use crate::resource_health::{
    completion, event_messages, health_message, report_message, unsupported_status, DeviceHealth,
    DraDeviceHealth, HealthStatus, NodeWatchResourcesResponse, ResourceHealthError, ResourceHealthReport,
    ResourceHealthStatus, WatchEvent, WatchMessage, WatchResult,
};
use crate::static_driver::{claim_prepared, is_offered, named_devices};
use crate::static_plugin::{is_missing, listed_devices, place_of, static_allocation};
use crate::text::trim_text;
use vstd::prelude::*;

verus! {

/// The health of a device reaches kubelet whole: pool and name, health, time,
/// timeout and message.
pub proof fn law_health_is_told_whole(device: DraDeviceHealth, message: DeviceHealth)
    requires
        message@ == health_message(device@),
    ensures
        match message.device {
            Some(identifier) => identifier.pool_name@ == device.pool_name@
                && identifier.device_name@ == device.device_name@,
            None => false,
        },
        message.health == match device.health {
            ResourceHealthStatus::Unknown => HealthStatus::Unknown,
            ResourceHealthStatus::Healthy => HealthStatus::Healthy,
            ResourceHealthStatus::Unhealthy => HealthStatus::Unhealthy,
        },
        message.last_updated_time == device.last_updated_time,
        message.health_check_timeout_seconds == device.health_check_timeout_seconds,
        message.message@ == device.message@,
{
}

/// A report reaches kubelet with every device in its place.
pub proof fn law_reports_are_told_whole(
    report: ResourceHealthReport,
    response: NodeWatchResourcesResponse,
    i: int,
)
    requires
        response@ == report_message(report@),
    ensures
        response.devices@.len() == report.devices@.len(),
        0 <= i < report.devices@.len() ==> response.devices@[i]@ == health_message(
            report.devices@[i]@,
        ),
{
    assert(views(response.devices@).len() == response.devices@.len());
    assert(views(report.devices@).len() == report.devices@.len());
    if 0 <= i < report.devices@.len() {
        assert(views(response.devices@)[i] == response.devices@[i]@);
        assert(views(report.devices@)[i] == report.devices@[i]@);
    }
}

/// The end of a watch tells kubelet to come back, and why it ended.
pub proof fn law_ends_are_told_with_their_cause(result: WatchResult, status: RpcStatus)
    requires
        status@ == completion(result),
    ensures
        status.code == RpcCode::Unavailable,
        match result {
            Ok(Ok(())) => status.message@ == "resource health reporter stopped"@,
            Ok(Err(ResourceHealthError::MonitorFailed(reason))) => status.message@
                == "resource health monitor failed: "@ + reason@,
            Err(reason) => status.message@ == "resource health reporter panicked: "@ + reason@,
        },
{
}

/// A report is handed on as one message; the end of a watch hands on every
/// buffered report in its order, and then the end.
pub proof fn law_events_are_handed_on(event: WatchEvent, messages: Seq<WatchMessage>, i: int)
    requires
        views(messages) == event_messages(event),
    ensures
        match event {
            WatchEvent::Report(report) => messages.len() == 1 && match messages[0] {
                WatchMessage::Report(response) => response@ == report_message(report@),
                WatchMessage::End(_) => false,
            },
            WatchEvent::Ended { buffered, result } => {
                &&& messages.len() == buffered@.len() + 1
                &&& 0 <= i < buffered@.len() ==> match messages[i] {
                    WatchMessage::Report(response) => response@ == report_message(buffered@[i]@),
                    WatchMessage::End(_) => false,
                }
                &&& match messages[buffered@.len() as int] {
                    WatchMessage::Report(_) => false,
                    WatchMessage::End(status) => status@ == completion(result),
                }
            },
        },
{
    assert(views(messages).len() == messages.len());
    match event {
        WatchEvent::Report(_) => {
            assert(views(messages)[0] == messages[0]@);
        },
        WatchEvent::Ended { buffered, result } => {
            assert(views(messages)[buffered@.len() as int] == messages[buffered@.len() as int]@);
            if 0 <= i < buffered@.len() {
                assert(views(messages)[i] == messages[i]@);
            }
        },
    }
}

/// The first component that ends is named, with how it ended.
pub proof fn law_ended_components_are_named(exit: ComponentExit)
    ensures
        exit_message(exit) == match exit {
            ComponentExit::Registration(Ok(Ok(()))) => "registration server"@
                + " exited unexpectedly"@,
            ComponentExit::Registration(Ok(Err(error))) => "registration server"@ + " failed: "@
                + error@,
            ComponentExit::Registration(Err(reason)) => "registration server"@ + " panicked: "@
                + reason@,
            ComponentExit::Service(Ok(Ok(()))) => "DRAPlugin service"@ + " exited unexpectedly"@,
            ComponentExit::Service(Ok(Err(error))) => "DRAPlugin service"@ + " failed: "@ + error@,
            ComponentExit::Service(Err(reason)) => "DRAPlugin service"@ + " panicked: "@ + reason@,
            ComponentExit::Publisher(Ok(())) => "ResourceSlice publisher exited unexpectedly"@,
            ComponentExit::Publisher(Err(reason)) => "ResourceSlice publisher panicked: "@
                + reason@,
        },
{
}

/// The delay between attempts to register doubles up to half a minute.
pub proof fn law_registration_delays_double(delay: nat)
    ensures
        delay <= 15_000_000_000 ==> doubled_delay(delay) == 2 * delay,
        delay > 15_000_000_000 ==> doubled_delay(delay) == 30_000_000_000,
{
}

/// The place of an id is that of the first device with it; one without a device
/// has none.
pub proof fn law_ids_find_the_first_device(devices: Seq<DeviceModel>, id: Seq<char>)
    ensures
        place_of(devices, id) <= devices.len(),
        place_of(devices, id) < devices.len() ==> devices[place_of(devices, id) as int].id == id,
        forall|i: int| 0 <= i < place_of(devices, id) ==> (#[trigger] devices[i]).id != id,
    decreases devices.len(),
{
    if devices.len() > 0 && devices[0].id != id {
        let rest = devices.drop_first();
        law_ids_find_the_first_device(rest, id);
        assert forall|i: int| 0 <= i < place_of(devices, id) implies (#[trigger] devices[i]).id
            != id by {
            if i > 0 {
                assert(devices[i] == rest[i - 1]);
            }
        }
    }
}

/// One more id adds all files of its device behind those of the others; it is
/// refused where no device has it, or where a file of the device is missing on
/// the host. A refusal stays.
pub proof fn law_devices_are_allocated_one_by_one(
    devices: Seq<DeviceModel>,
    missing: Seq<Seq<char>>,
    ids: Seq<Seq<char>>,
    id: Seq<char>,
)
    ensures
        static_allocation(devices, missing, Seq::empty()) == Ok::<
            Seq<DevicePathModel>,
            AllocationFailure,
        >(Seq::empty()),
        match static_allocation(devices, missing, ids) {
            Err(failure) => static_allocation(devices, missing, ids.push(id)) == Err::<
                Seq<DevicePathModel>,
                AllocationFailure,
            >(failure),
            Ok(paths) => if place_of(devices, id) == devices.len() {
                static_allocation(devices, missing, ids.push(id)) == Err::<
                    Seq<DevicePathModel>,
                    AllocationFailure,
                >(AllocationFailure::DeviceNotFound(id))
            } else {
                let device = devices[place_of(devices, id) as int];
                if exists|i: int|
                    0 <= i < device.paths.len() && missing.contains(
                        (#[trigger] device.paths[i]).host_path,
                    ) {
                    static_allocation(devices, missing, ids.push(id)) == Err::<
                        Seq<DevicePathModel>,
                        AllocationFailure,
                    >(AllocationFailure::DeviceUnavailable(id))
                } else {
                    static_allocation(devices, missing, ids.push(id)) == Ok::<
                        Seq<DevicePathModel>,
                        AllocationFailure,
                    >(paths + device.paths)
                }
            },
        },
{
    law_ids_find_the_first_device(devices, id);
    assert(ids.push(id).drop_last() =~= ids);
    assert(ids.push(id).last() == id);
    if place_of(devices, id) < devices.len() {
        let device = devices[place_of(devices, id) as int];
        assert(is_missing(device, missing) <==> exists|i: int|
            0 <= i < device.paths.len() && missing.contains(
                (#[trigger] device.paths[i]).host_path,
            ));
    }
}

/// One more piece of a list adds one healthy device at the end, named after the
/// last name on its path, with that one file to be read and written; a piece of
/// white space adds none.
pub proof fn law_listed_paths_become_devices(pieces: Seq<Seq<char>>, piece: Seq<char>)
    ensures
        listed_devices(Seq::empty()) == Seq::<DeviceModel>::empty(),
        trim_text(piece).len() == 0 ==> listed_devices(pieces.push(piece)) == listed_devices(pieces),
        trim_text(piece).len() > 0 ==> ({
            let path = trim_text(piece);
            let devices = listed_devices(pieces.push(piece));
            let device = devices.last();
            &&& devices.len() == listed_devices(pieces).len() + 1
            &&& devices.drop_last() == listed_devices(pieces)
            &&& device.id == match file_name_text(path) {
                Some(name) => name,
                None => path,
            }
            &&& device.health == Health::Healthy
            &&& device.paths.len() == 1
            &&& device.paths[0].host_path == path
            &&& device.paths[0].container_path == path
            &&& device.paths[0].permissions.read
            &&& device.paths[0].permissions.write
            &&& !device.paths[0].permissions.mknod
        }),
{
    assert(pieces.push(piece).drop_last() =~= pieces);
    assert(pieces.push(piece).last() == piece);
    if trim_text(piece).len() > 0 {
        assert(listed_devices(pieces.push(piece)).drop_last() =~= listed_devices(pieces));
    }
}

/// One more piece of a list adds one healthy device of that name at the end,
/// without attributes or capacity; a piece of white space adds none.
pub proof fn law_listed_names_become_devices(pieces: Seq<Seq<char>>, piece: Seq<char>)
    ensures
        named_devices(Seq::empty()) == Seq::<PoolDeviceModel>::empty(),
        trim_text(piece).len() == 0 ==> named_devices(pieces.push(piece)) == named_devices(pieces),
        trim_text(piece).len() > 0 ==> ({
            let devices = named_devices(pieces.push(piece));
            let device = devices.last();
            &&& devices.len() == named_devices(pieces).len() + 1
            &&& devices.drop_last() == named_devices(pieces)
            &&& device.name == trim_text(piece)
            &&& device.attributes.dom() == Set::<Seq<char>>::empty()
            &&& device.capacity.dom() == Set::<Seq<char>>::empty()
            &&& device.health == Health::Healthy
        }),
{
    assert(pieces.push(piece).drop_last() =~= pieces);
    assert(pieces.push(piece).last() == piece);
    if trim_text(piece).len() > 0 {
        let devices = named_devices(pieces.push(piece));
        assert(devices.drop_last() =~= named_devices(pieces));
        assert(devices.last().attributes.dom() =~= Set::<Seq<char>>::empty());
        assert(devices.last().capacity.dom() =~= Set::<Seq<char>>::empty());
    }
}

/// One more device of a claim is prepared by its names behind the others where
/// the fixed pool offers it, and refused by pool and name where it does not. A
/// refusal stays.
pub proof fn law_fixed_devices_are_prepared_one_by_one(
    pool: Seq<char>,
    offered: Seq<PoolDeviceModel>,
    devices: Seq<AllocatedDeviceModel>,
    device: AllocatedDeviceModel,
)
    ensures
        is_offered(pool, offered, device.pool_name, device.device_name) <==> device.pool_name
            == pool && exists|i: int|
            0 <= i < offered.len() && (#[trigger] offered[i]).name == device.device_name,
        match (
            claim_prepared(pool, offered, devices),
            claim_prepared(pool, offered, devices.push(device)),
        ) {
            (Err(failure), Err(told)) => told == failure,
            (Ok(earlier), Ok(prepared)) => {
                &&& is_offered(pool, offered, device.pool_name, device.device_name)
                &&& prepared.len() == earlier.len() + 1
                &&& prepared.drop_last() == earlier
                &&& prepared.last().pool_name == device.pool_name
                &&& prepared.last().device_name == device.device_name
                &&& prepared.last().cdi_device_ids.len() == 0
                &&& match device.request_name {
                    Some(name) => prepared.last().request_names.len() == 1
                        && prepared.last().request_names[0] == name,
                    None => prepared.last().request_names.len() == 0,
                }
            },
            (Ok(_), Err(told)) => !is_offered(
                pool,
                offered,
                device.pool_name,
                device.device_name,
            ) && told == PrepareFailure::DeviceUnavailable(
                device.pool_name + "/"@ + device.device_name,
            ),
            _ => false,
        },
{
    assert(devices.push(device).drop_last() =~= devices);
    assert(devices.push(device).last() == device);
    if let Ok(earlier) = claim_prepared(pool, offered, devices) {
        if let Ok(prepared) = claim_prepared(pool, offered, devices.push(device)) {
            assert(prepared.drop_last() =~= earlier);
        }
    }
}

/// A backend that does not report health says so.
pub proof fn law_unsupported_watches_are_declined(status: RpcStatus)
    requires
        status@ == unsupported_status(),
    ensures
        status.code == RpcCode::Unimplemented,
        status.message@ == "resource health reporting is not supported by this backend"@,
{
}

/// A component is told of by its name and how it ended.
pub proof fn law_ends_of_components_are_told(component: Seq<char>, result: ServerExit)
    ensures
        component_message(component, result) == match result {
            Ok(Ok(())) => component + " exited unexpectedly"@,
            Ok(Err(error)) => component + " failed: "@ + error@,
            Err(reason) => component + " panicked: "@ + reason@,
        },
{
}

/// The keys of a set stand in ascending order, each of them once.
pub proof fn law_keys_stand_in_order<K: MapKey>(keys: Set<K::V>, i: int, j: int)
    requires
        keys.finite(),
        0 <= i < j < in_order::<K>(keys).len(),
    ensures
        K::before(in_order::<K>(keys)[i], in_order::<K>(keys)[j]),
        in_order::<K>(keys).to_set() == keys,
{
    lemma_in_order_of_set::<K>(keys);
}

} // verus!
