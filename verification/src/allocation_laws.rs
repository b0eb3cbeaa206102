//! What kubelet gets when devices are listed, chosen and allocated, told from
//! what the backend said.

use crate::allocation::{AllocationError, K8sDevicePlugin};
use crate::device::{
    identity, path_identity, Device, DeviceModel, DevicePathModel, HostMountModel,
};
use crate::device_plugin::{
    accepted, allocation_status, answer, answers, batch_answer, container_answer, device_paths_verdict,
    device_verdict, identities, is_preference, listing, mounts_verdict, preference, preference_found,
    preference_stops, same_devices, AllocateOutcome, ContainerAllocateResponse, ContainerPreferredAllocationRequest,
    ListAndWatchResponse, RpcCode, RpcStatus,
};
use crate::device_plugin_laws::{law_answers_keep_the_order, law_first_failure_decides};
use crate::health::Health;
use crate::path::path_model;
use crate::permissions::{permissions_text, DevicePermissions};
use crate::record::views;
use crate::validation::Refusal;
use vstd::prelude::*;

verus! {

/// The paths of device files are accepted exactly where each of them starts at
/// the root; otherwise the first that does not decides, the host's before the
/// container's.
pub proof fn law_device_paths_are_absolute(paths: Seq<DevicePathModel>)
    ensures
        match device_paths_verdict(paths) {
            Ok(()) => forall|i: int|
                0 <= i < paths.len() ==> {
                    &&& (#[trigger] paths[i]).host_path.len() > 0
                    &&& paths[i].host_path[0] == '/'
                    &&& paths[i].container_path.len() > 0
                    &&& paths[i].container_path[0] == '/'
                },
            Err(refusal) => exists|i: int|
                0 <= i < paths.len() && ({
                    let host = (#[trigger] paths[i]).host_path;
                    let container = paths[i].container_path;
                    if host.len() == 0 {
                        refusal == Refusal::EmptyPath
                    } else if host[0] != '/' {
                        refusal == Refusal::RelativePath(host)
                    } else if container.len() == 0 {
                        refusal == Refusal::EmptyPath
                    } else {
                        container[0] != '/' && refusal == Refusal::RelativePath(container)
                    }
                }) && forall|j: int|
                    0 <= j < i ==> {
                        &&& (#[trigger] paths[j]).host_path.len() > 0
                        &&& paths[j].host_path[0] == '/'
                        &&& paths[j].container_path.len() > 0
                        &&& paths[j].container_path[0] == '/'
                    },
        },
    decreases paths.len(),
{
    if paths.len() > 0 {
        let rest = paths.drop_last();
        law_device_paths_are_absolute(rest);
        let last = paths.len() - 1;
        assert(forall|j: int| 0 <= j < last ==> (#[trigger] paths[j]) == rest[j]);
        match device_paths_verdict(rest) {
            Ok(()) => {
                assert(paths[last] == paths.last());
            },
            Err(_) => {
                let i = choose|i: int|
                    0 <= i < rest.len() && ({
                        let host = (#[trigger] rest[i]).host_path;
                        let container = rest[i].container_path;
                        let refusal = device_paths_verdict(rest)->Err_0;
                        if host.len() == 0 {
                            refusal == Refusal::EmptyPath
                        } else if host[0] != '/' {
                            refusal == Refusal::RelativePath(host)
                        } else if container.len() == 0 {
                            refusal == Refusal::EmptyPath
                        } else {
                            container[0] != '/' && refusal == Refusal::RelativePath(container)
                        }
                    }) && forall|j: int|
                        0 <= j < i ==> {
                            &&& (#[trigger] rest[j]).host_path.len() > 0
                            &&& rest[j].host_path[0] == '/'
                            &&& rest[j].container_path.len() > 0
                            &&& rest[j].container_path[0] == '/'
                        };
                assert(paths[i] == rest[i]);
            },
        }
    }
}

/// The paths of mounts are accepted exactly where each of them starts at the
/// root; otherwise the first that does not decides, the host's before the
/// container's.
pub proof fn law_mounts_are_absolute(mounts: Seq<HostMountModel>)
    ensures
        match mounts_verdict(mounts) {
            Ok(()) => forall|i: int|
                0 <= i < mounts.len() ==> {
                    &&& (#[trigger] mounts[i]).host_path.len() > 0
                    &&& mounts[i].host_path[0] == '/'
                    &&& mounts[i].container_path.len() > 0
                    &&& mounts[i].container_path[0] == '/'
                },
            Err(refusal) => exists|i: int|
                0 <= i < mounts.len() && ({
                    let host = (#[trigger] mounts[i]).host_path;
                    let container = mounts[i].container_path;
                    if host.len() == 0 {
                        refusal == Refusal::EmptyPath
                    } else if host[0] != '/' {
                        refusal == Refusal::RelativePath(host)
                    } else if container.len() == 0 {
                        refusal == Refusal::EmptyPath
                    } else {
                        container[0] != '/' && refusal == Refusal::RelativePath(container)
                    }
                }) && forall|j: int|
                    0 <= j < i ==> {
                        &&& (#[trigger] mounts[j]).host_path.len() > 0
                        &&& mounts[j].host_path[0] == '/'
                        &&& mounts[j].container_path.len() > 0
                        &&& mounts[j].container_path[0] == '/'
                    },
        },
    decreases mounts.len(),
{
    if mounts.len() > 0 {
        let rest = mounts.drop_last();
        law_mounts_are_absolute(rest);
        let last = mounts.len() - 1;
        assert(forall|j: int| 0 <= j < last ==> (#[trigger] mounts[j]) == rest[j]);
        match mounts_verdict(rest) {
            Ok(()) => {
                assert(mounts[last] == mounts.last());
            },
            Err(_) => {
                let i = choose|i: int|
                    0 <= i < rest.len() && ({
                        let host = (#[trigger] rest[i]).host_path;
                        let container = rest[i].container_path;
                        let refusal = mounts_verdict(rest)->Err_0;
                        if host.len() == 0 {
                            refusal == Refusal::EmptyPath
                        } else if host[0] != '/' {
                            refusal == Refusal::RelativePath(host)
                        } else if container.len() == 0 {
                            refusal == Refusal::EmptyPath
                        } else {
                            container[0] != '/' && refusal == Refusal::RelativePath(container)
                        }
                    }) && forall|j: int|
                        0 <= j < i ==> {
                            &&& (#[trigger] rest[j]).host_path.len() > 0
                            &&& rest[j].host_path[0] == '/'
                            &&& rest[j].container_path.len() > 0
                            &&& rest[j].container_path[0] == '/'
                        };
                assert(mounts[i] == rest[i]);
            },
        }
    }
}

/// Each failure of a backend has its own code, and its text names what the
/// backend named.
pub proof fn law_failures_have_their_codes(error: AllocationError, status: RpcStatus)
    requires
        status@ == allocation_status(error@),
    ensures
        match error {
            AllocationError::DeviceNotFound(id) => status.code == RpcCode::NotFound
                && status.message@ == "device not found: "@ + id@,
            AllocationError::PreferredAllocationUnavailable => status.code == RpcCode::Unimplemented
                && status.message@ == "preferred allocation is not available for this plugin"@,
            AllocationError::HookFailed(reason) => status.code == RpcCode::FailedPrecondition
                && status.message@ == "hook failed: "@ + reason@,
            AllocationError::DeviceUnavailable(device) => status.code == RpcCode::Unavailable
                && status.message@ == "device unavailable: "@ + device@,
        },
{
}

/// A container is given exactly what the backend allocated to it: every device
/// file at its place on the host and in the container with its permissions,
/// every mount, every variable, every annotation and every CDI device, and
/// nothing more. It is refused exactly where a path does not start at the root,
/// where the backend failed, or where its task broke off.
pub proof fn law_containers_get_what_was_allocated(
    outcome: AllocateOutcome,
    result: Result<ContainerAllocateResponse, RpcStatus>,
)
    requires
        answer(result) == container_answer(outcome@),
    ensures
        match (outcome, result) {
            (AllocateOutcome::Finished(Ok(allocation)), Ok(response)) => {
                &&& response.devices@.len() == allocation.device_paths@.len()
                &&& forall|i: int|
                    0 <= i < allocation.device_paths@.len() ==> {
                        let path = #[trigger] allocation.device_paths@[i];
                        let file = response.devices@[i];
                        let granted = path.permissions;
                        &&& file.host_path@ == path.host_path@
                        &&& file.container_path@ == path.container_path@
                        &&& file.permissions@.contains('r') == granted.read
                        &&& file.permissions@.contains('w') == granted.write
                        &&& file.permissions@.contains('m') == granted.mknod
                        &&& file.permissions@.len() == (if granted.read {
                            1int
                        } else {
                            0
                        }) + (if granted.write {
                            1int
                        } else {
                            0
                        }) + (if granted.mknod {
                            1int
                        } else {
                            0
                        })
                        &&& path.host_path@.len() > 0 && path.host_path@[0] == '/'
                        &&& path.container_path@.len() > 0 && path.container_path@[0] == '/'
                    }
                &&& response.mounts@.len() == allocation.mounts@.len()
                &&& forall|i: int|
                    0 <= i < allocation.mounts@.len() ==> {
                        let mount = #[trigger] allocation.mounts@[i];
                        let made = response.mounts@[i];
                        &&& made.host_path@ == mount.host_path@
                        &&& made.container_path@ == mount.container_path@
                        &&& made.read_only == mount.read_only
                        &&& mount.host_path@.len() > 0 && mount.host_path@[0] == '/'
                        &&& mount.container_path@.len() > 0 && mount.container_path@[0] == '/'
                    }
                &&& response.envs@.dom() == allocation.envs@.dom()
                &&& forall|name: Seq<char>| #[trigger]
                    allocation.envs@.dom().contains(name) ==> response.envs@[name]@
                        == allocation.envs@[name]@
                &&& response.annotations@.dom() == allocation.annotations@.dom()
                &&& forall|name: Seq<char>| #[trigger]
                    allocation.annotations@.dom().contains(name) ==> response.annotations@[name]@
                        == allocation.annotations@[name]@
                &&& response.cdi_devices@.len() == allocation.cdi_devices@.len()
                &&& forall|i: int|
                    0 <= i < allocation.cdi_devices@.len() ==> response.cdi_devices@[i].name@ == (
                    #[trigger] allocation.cdi_devices@[i])@
            },
            (AllocateOutcome::Finished(Ok(allocation)), Err(status)) => {
                &&& status.code == RpcCode::Internal
                &&& (exists|i: int|
                    0 <= i < allocation.device_paths@.len() && {
                        let path = #[trigger] allocation.device_paths@[i];
                        ||| path.host_path@.len() == 0
                        ||| path.host_path@[0] != '/'
                        ||| path.container_path@.len() == 0
                        ||| path.container_path@[0] != '/'
                    }) || (exists|i: int|
                    0 <= i < allocation.mounts@.len() && {
                        let mount = #[trigger] allocation.mounts@[i];
                        ||| mount.host_path@.len() == 0
                        ||| mount.host_path@[0] != '/'
                        ||| mount.container_path@.len() == 0
                        ||| mount.container_path@[0] != '/'
                    })
            },
            (AllocateOutcome::Finished(Err(error)), Err(status)) => {
                &&& status.code == match error {
                    AllocationError::DeviceNotFound(_) => RpcCode::NotFound,
                    AllocationError::PreferredAllocationUnavailable => RpcCode::Unimplemented,
                    AllocationError::HookFailed(_) => RpcCode::FailedPrecondition,
                    AllocationError::DeviceUnavailable(_) => RpcCode::Unavailable,
                }
                &&& status@ == allocation_status(error@)
            },
            (AllocateOutcome::Panicked(reason), Err(status)) => status.code == RpcCode::Internal
                && status.message@ == "allocate task panicked: "@ + reason@,
            _ => false,
        },
{
    if let AllocateOutcome::Finished(Ok(allocation)) = outcome {
        let paths = views(allocation.device_paths@);
        let mounts = views(allocation.mounts@);
        law_device_paths_are_absolute(paths);
        law_mounts_are_absolute(mounts);
        assert(forall|i: int|
            0 <= i < paths.len() ==> (#[trigger] allocation.device_paths@[i])@ == paths[i]);
        assert(forall|i: int|
            0 <= i < mounts.len() ==> (#[trigger] allocation.mounts@[i])@ == mounts[i]);
        if let Ok(response) = result {
            let files = response@.devices;
            assert(response@.cdi_devices.len() == response.cdi_devices@.len());
            assert(allocation@.cdi_devices.len() == allocation.cdi_devices@.len());
            assert(response@.devices.len() == response.devices@.len());
            assert(response@.mounts.len() == response.mounts@.len());
            assert forall|i: int| 0 <= i < paths.len() implies {
                let path = #[trigger] allocation.device_paths@[i];
                let file = response.devices@[i];
                let granted = path.permissions;
                &&& file.host_path@ == path.host_path@
                &&& file.container_path@ == path.container_path@
                &&& file.permissions@.contains('r') == granted.read
                &&& file.permissions@.contains('w') == granted.write
                &&& file.permissions@.contains('m') == granted.mknod
                &&& file.permissions@.len() == (if granted.read {
                    1int
                } else {
                    0
                }) + (if granted.write {
                    1int
                } else {
                    0
                }) + (if granted.mknod {
                    1int
                } else {
                    0
                })
            } by {
                let path = allocation.device_paths@[i];
                assert(paths[i] == path@);
                assert(files[i] == response.devices@[i]@);
                lemma_permission_letters(path.permissions, response.devices@[i].permissions@);
            }
            assert forall|i: int| 0 <= i < mounts.len() implies {
                let mount = #[trigger] allocation.mounts@[i];
                let made = response.mounts@[i];
                &&& made.host_path@ == mount.host_path@
                &&& made.container_path@ == mount.container_path@
                &&& made.read_only == mount.read_only
            } by {
                assert(mounts[i] == allocation.mounts@[i]@);
                assert(response@.mounts[i] == response.mounts@[i]@);
            }
            assert(response@.envs.dom() =~= response.envs@.dom());
            assert(allocation@.envs.dom() =~= allocation.envs@.dom());
            assert forall|name: Seq<char>| #[trigger]
                allocation.envs@.dom().contains(name) implies response.envs@[name]@
                == allocation.envs@[name]@ by {
                assert(response@.envs[name] == allocation@.envs[name]);
            }
            assert(response@.annotations.dom() =~= response.annotations@.dom());
            assert(allocation@.annotations.dom() =~= allocation.annotations@.dom());
            assert forall|name: Seq<char>| #[trigger]
                allocation.annotations@.dom().contains(name) implies response.annotations@[name]@
                == allocation.annotations@[name]@ by {
                assert(response@.annotations[name] == allocation@.annotations[name]);
            }
            assert forall|i: int| 0 <= i < allocation.cdi_devices@.len() implies
                response.cdi_devices@[i].name@ == (#[trigger] allocation.cdi_devices@[i])@ by {
                assert(response@.cdi_devices[i] == response.cdi_devices@[i]@);
                assert(allocation@.cdi_devices[i] == allocation.cdi_devices@[i]@);
            }
        }
    }
}

proof fn lemma_permission_letters(granted: DevicePermissions, text: Seq<char>)
    requires
        text == permissions_text(granted),
    ensures
        text.contains('r') == granted.read,
        text.contains('w') == granted.write,
        text.contains('m') == granted.mknod,
        text.len() == (if granted.read {
            1int
        } else {
            0
        }) + (if granted.write {
            1int
        } else {
            0
        }) + (if granted.mknod {
            1int
        } else {
            0
        }),
{
    let r: int = if granted.read {
        1
    } else {
        0
    };
    let w: int = if granted.write {
        1
    } else {
        0
    };
    if granted.read {
        assert(text[0] == 'r');
    }
    if granted.write {
        assert(text[r] == 'w');
    }
    if granted.mknod {
        assert(text[r + w] == 'm');
    }
}

/// All containers of a request are answered, each for itself and in its place,
/// where all of them get their devices; otherwise the first that does not
/// decides.
pub proof fn law_requests_are_answered_whole(
    outcomes: Seq<AllocateOutcome>,
    result: Result<Vec<ContainerAllocateResponse>, RpcStatus>,
)
    requires
        answers(result) == batch_answer(views(outcomes)),
    ensures
        match result {
            Ok(responses) => {
                &&& responses@.len() == outcomes.len()
                &&& forall|i: int|
                    0 <= i < outcomes.len() ==> answer(
                        Ok::<ContainerAllocateResponse, RpcStatus>(responses@[i]),
                    ) == container_answer((#[trigger] outcomes[i])@)
            },
            Err(status) => exists|k: int|
                0 <= k < outcomes.len() && answer(
                    Err::<ContainerAllocateResponse, RpcStatus>(status),
                ) == container_answer((#[trigger] outcomes[k])@) && forall|j: int|
                    0 <= j < k ==> container_answer((#[trigger] outcomes[j])@) is Ok,
        },
{
    let models = views(outcomes);
    match result {
        Ok(responses) => {
            assert(views(responses@).len() == responses@.len());
            if outcomes.len() > 0 {
                law_answers_keep_the_order(models, 0);
            }
            assert forall|i: int| 0 <= i < outcomes.len() implies answer(
                Ok::<ContainerAllocateResponse, RpcStatus>(responses@[i]),
            ) == container_answer((#[trigger] outcomes[i])@) by {
                law_answers_keep_the_order(models, i);
                assert(views(responses@)[i] == responses@[i]@);
                assert(models[i] == outcomes[i]@);
            }
        },
        Err(status) => {
            let k = law_first_failure_decides(models);
            assert(models[k] == outcomes[k]@);
            assert forall|j: int| 0 <= j < k implies container_answer(
                (#[trigger] outcomes[j])@,
            ) is Ok by {
                assert(models[j] == outcomes[j]@);
            }
        },
    }
}

/// Kubelet can be told of a device exactly where its id has between one and 63
/// characters and all its paths start at the root. An id that does not is
/// refused before the paths are looked at.
pub proof fn law_listable_devices(device: DeviceModel)
    ensures
        device_verdict(device) is Ok <==> {
            &&& 1 <= device.id.len() <= 63
            &&& forall|i: int|
                0 <= i < device.paths.len() ==> {
                    &&& (#[trigger] device.paths[i]).host_path.len() > 0
                    &&& device.paths[i].host_path[0] == '/'
                    &&& device.paths[i].container_path.len() > 0
                    &&& device.paths[i].container_path[0] == '/'
                }
        },
        device.id.len() == 0 ==> device_verdict(device) == Err::<(), Refusal>(
            Refusal::EmptyDeviceId,
        ),
        device.id.len() > 63 ==> device_verdict(device) == Err::<(), Refusal>(
            Refusal::DeviceIdTooLong(device.id),
        ),
        1 <= device.id.len() <= 63 ==> device_verdict(device) == device_paths_verdict(device.paths),
{
    law_device_paths_are_absolute(device.paths);
}

/// One more device changes a list by that device alone: it comes last where
/// kubelet can be told of it, and nowhere otherwise.
pub proof fn law_devices_are_listed_one_by_one(devices: Seq<DeviceModel>, device: DeviceModel)
    ensures
        accepted(Seq::empty()) == Seq::<DeviceModel>::empty(),
        accepted(devices.push(device)) == if {
            &&& 1 <= device.id.len() <= 63
            &&& forall|i: int|
                0 <= i < device.paths.len() ==> {
                    &&& (#[trigger] device.paths[i]).host_path.len() > 0
                    &&& device.paths[i].host_path[0] == '/'
                    &&& device.paths[i].container_path.len() > 0
                    &&& device.paths[i].container_path[0] == '/'
                }
        } {
            accepted(devices).push(device)
        } else {
            accepted(devices)
        },
{
    reveal(Seq::filter);
    law_listable_devices(device);
    assert(devices.push(device).drop_last() =~= devices);
    assert(devices.push(device).last() == device);
}

/// Kubelet is told of every device of a list in its place, by its id and the
/// name of its health.
pub proof fn law_listings_tell_id_and_health(devices: Seq<Device>, response: ListAndWatchResponse)
    requires
        response@ == listing(views(devices)),
    ensures
        response.devices@.len() == devices.len(),
        forall|i: int|
            0 <= i < devices.len() ==> {
                let told = response.devices@[i];
                &&& told.id@ == (#[trigger] devices[i]).id@
                &&& told.health@ == match devices[i].health {
                    Health::Healthy => "Healthy"@,
                    Health::Unhealthy => "Unhealthy"@,
                }
            },
{
    let told = views(response.devices@);
    assert(told.len() == response.devices@.len());
    assert forall|i: int| 0 <= i < devices.len() implies {
        let told = response.devices@[i];
        &&& told.id@ == (#[trigger] devices[i]).id@
        &&& told.health@ == match devices[i].health {
            Health::Healthy => "Healthy"@,
            Health::Unhealthy => "Unhealthy"@,
        }
    } by {
        assert(told[i] == response.devices@[i]@);
        assert(views(devices)[i] == devices[i]@);
    }
}

/// Two lists are taken for the same only where they are as long, and every device
/// of either has one in the other with the same id, the same health and the same
/// files: so a new device, one that is gone, and any change of health, path or
/// permissions is reported.
pub proof fn law_changes_are_noticed(left: Seq<DeviceModel>, right: Seq<DeviceModel>, i: int)
    requires
        same_devices(left, right),
        0 <= i < left.len(),
    ensures
        left.len() == right.len(),
        exists|j: int|
            0 <= j < right.len() && (#[trigger] right[j]).id == left[i].id && right[j].health
                == left[i].health && right[j].paths.len() == left[i].paths.len() && forall|k: int|
                0 <= k < left[i].paths.len() ==> {
                    let a = #[trigger] left[i].paths[k];
                    let b = right[j].paths[k];
                    &&& a.permissions == b.permissions
                    &&& path_model(a.host_path) == path_model(b.host_path)
                    &&& path_model(a.container_path) == path_model(b.container_path)
                },
        same_devices(right, left),
{
    let a = identities(left);
    let b = identities(right);
    a.to_multiset_ensures();
    b.to_multiset_ensures();
    assert(a[i] == identity(left[i]));
    assert(a.contains(a[i]));
    assert(a.to_multiset().count(a[i]) > 0);
    assert(b.contains(a[i]));
    let j = b.index_of(a[i]);
    assert(b[j] == identity(right[j]));
    let x = identity(left[i]);
    let y = identity(right[j]);
    assert(x.paths.len() == left[i].paths.len());
    assert(y.paths.len() == right[j].paths.len());
    assert forall|k: int| 0 <= k < left[i].paths.len() implies {
        let a = #[trigger] left[i].paths[k];
        let b = right[j].paths[k];
        &&& a.permissions == b.permissions
        &&& path_model(a.host_path) == path_model(b.host_path)
        &&& path_model(a.container_path) == path_model(b.container_path)
    } by {
        assert(x.paths[k] == path_identity(left[i].paths[k]));
        assert(y.paths[k] == path_identity(right[j].paths[k]));
    }
    assert(right[j].id == left[i].id);
}

/// A backend that chooses devices decides: kubelet gets the ids that it chose, in
/// its order, for the devices and the size that kubelet asked with, or its
/// failure. A negative size never reaches it.
pub proof fn law_preferences_are_the_backends_choice<P: K8sDevicePlugin>(
    backend: P,
    request: ContainerPreferredAllocationRequest,
    result: Result<Vec<String>, RpcStatus>,
)
    requires
        is_preference(backend, request, result),
        !call_ensures(P::preferred_allocation_available, (&backend,), false),
    ensures
        if request.allocation_size < 0 {
            match result {
                Err(status) => status.code == RpcCode::InvalidArgument && status.message@
                    == "allocation_size must be non-negative"@,
                Ok(_) => false,
            }
        } else {
            exists|chosen: Result<Vec<String>, AllocationError>|
                {
                    &&& #[trigger] call_ensures(
                        P::preferred_allocation,
                        (
                            &backend,
                            &request.available_device_ids,
                            &request.must_include_device_ids,
                            request.allocation_size as usize,
                        ),
                        chosen,
                    )
                    &&& match (chosen, result) {
                        (Ok(ids), Ok(answered)) => ids@.len() == answered@.len() && forall|i: int|
                            0 <= i < ids@.len() ==> (#[trigger] ids@[i])@ == answered@[i]@,
                        (Err(error), Err(status)) => status@ == allocation_status(error@),
                        _ => false,
                    }
                }
        },
{
    if request.allocation_size >= 0 {
        let chosen = choose|chosen: Result<Vec<String>, AllocationError>|
            {
                &&& #[trigger] call_ensures(
                    P::preferred_allocation,
                    (
                        &backend,
                        &request.available_device_ids,
                        &request.must_include_device_ids,
                        request.allocation_size as usize,
                    ),
                    chosen,
                )
                &&& (match result {
                    Ok(ids) => Ok(views(ids@)),
                    Err(status) => Err(status@),
                }) == preference(chosen)
            };
        match (chosen, result) {
            (Ok(ids), Ok(answered)) => {
                assert(views(ids@).len() == views(answered@).len());
                assert forall|i: int| 0 <= i < ids@.len() implies (#[trigger] ids@[i])@
                    == answered@[i]@ by {
                    assert(views(ids@)[i] == views(answered@)[i]);
                }
            },
            _ => {},
        }
    }
}

/// Choosing for several containers fails at the first of them that fails, with
/// its failure; those before it had their choice.
pub proof fn law_first_refused_preference_decides<P: K8sDevicePlugin>(
    backend: P,
    requests: Seq<ContainerPreferredAllocationRequest>,
    k: int,
    status: RpcStatus,
    j: int,
) -> (ids: Vec<String>)
    requires
        preference_stops(backend, requests, k, status),
    ensures
        0 <= k < requests.len(),
        is_preference(backend, requests[k], Err(status)),
        0 <= j < k ==> is_preference(backend, requests[j], Ok(ids)),
{
    if 0 <= j < k {
        assert(preference_found(backend, requests[j]));
    }
    choose|ids: Vec<String>| is_preference(backend, requests[j], Ok(ids))
}

/// Devices that say the same, with paths that say the same however they are
/// spelled, are taken for the same.
pub proof fn law_respelled_paths_are_no_change(left: Seq<DeviceModel>, right: Seq<DeviceModel>)
    requires
        left.len() == right.len(),
        forall|i: int|
            0 <= i < left.len() ==> {
                let a = #[trigger] left[i];
                let b = right[i];
                &&& a.id == b.id
                &&& a.health == b.health
                &&& a.paths.len() == b.paths.len()
                &&& forall|k: int|
                    0 <= k < a.paths.len() ==> {
                        &&& (#[trigger] a.paths[k]).permissions == b.paths[k].permissions
                        &&& path_model(a.paths[k].host_path) == path_model(b.paths[k].host_path)
                        &&& path_model(a.paths[k].container_path) == path_model(
                            b.paths[k].container_path,
                        )
                    }
            },
    ensures
        same_devices(left, right),
{
    assert forall|i: int| 0 <= i < left.len() implies identity(#[trigger] left[i]) == identity(
        right[i],
    ) by {
        let a = identity(left[i]);
        let b = identity(right[i]);
        assert forall|k: int| 0 <= k < a.paths.len() implies a.paths[k] == b.paths[k] by {
            assert(left[i].paths[k].permissions == right[i].paths[k].permissions);
            assert(a.paths[k] == path_identity(left[i].paths[k]));
            assert(b.paths[k] == path_identity(right[i].paths[k]));
        }
        assert(a.paths =~= b.paths);
    }
    assert(identities(left) =~= identities(right));
}

} // verus!
