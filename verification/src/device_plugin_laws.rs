//! What holds of every device plugin.

use crate::allocation::K8sDevicePlugin;
use crate::device::{identity, DeviceModel};
use crate::device_plugin::{
    accepted, batch_answer, container_answer, device_verdict, doubled_delay, identities,
    is_preference, no_preference, plugin_socket_name, same_devices,
    ContainerPreferredAllocationRequest, ContainerResponseModel, OutcomeModel, RpcCode, RpcStatus,
    RpcStatusModel, DEVICE_PLUGIN_PATH, SOCKET_NAME_BUDGET,
};
use crate::path::file_name_text;
use crate::registration::{
    registration_socket_name, registration_socket_path, KUBELET_PLUGINS_REGISTRY_PATH,
    REGISTRATION_NAME_BUDGET, REGISTRATION_SOCKET_SUFFIX,
};
use crate::socket_name::{
    is_safe_char, law_socket_names_are_safe, law_socket_names_fit, law_socket_names_keep_the_hash,
    socket_name, MAX_SOCKET_PATH_LEN,
};
use crate::text::split_text;
use vstd::prelude::*;
use vstd::utf8::*;

verus! {

/// The path of a plugin's socket is never too long for a Unix socket, whatever
/// its resource is called.
pub proof fn law_plugin_sockets_fit(resource_name: Seq<char>)
    ensures
        encode_utf8(DEVICE_PLUGIN_PATH@ + plugin_socket_name(resource_name)).len()
            <= MAX_SOCKET_PATH_LEN,
{
    reveal_strlit("/var/lib/kubelet/device-plugins/");
    let name = plugin_socket_name(resource_name);
    let path = DEVICE_PLUGIN_PATH@ + name;
    law_socket_names_fit(resource_name, SOCKET_NAME_BUDGET as nat);
    assert forall|i: int| 0 <= i < name.len() implies is_safe_char(#[trigger] name[i]) by {
        law_socket_names_are_safe(resource_name, SOCKET_NAME_BUDGET as nat, i);
    }
    assert(is_ascii_chars(path)) by {
        assert forall|i: int| 0 <= i < path.len() implies '\0' <= #[trigger] path[i] <= '\u{7f}' by {
            if i >= DEVICE_PLUGIN_PATH@.len() {
                assert(path[i] == name[i - DEVICE_PLUGIN_PATH@.len()]);
            }
        }
    }
    is_ascii_chars_encode_utf8(path);
}

/// The path of a driver's registration socket is never too long for a Unix
/// socket, whatever the driver is called.
pub proof fn law_registration_sockets_fit(driver_name: Seq<char>)
    ensures
        encode_utf8(registration_socket_path(driver_name)).len() <= MAX_SOCKET_PATH_LEN,
        registration_socket_path(driver_name) == KUBELET_PLUGINS_REGISTRY_PATH@
            + registration_socket_name(driver_name),
{
    reveal_strlit("/var/lib/kubelet/plugins_registry/");
    reveal_strlit("-reg.sock");
    let stem = socket_name(driver_name, REGISTRATION_NAME_BUDGET as nat);
    let name = registration_socket_name(driver_name);
    law_socket_names_fit(driver_name, REGISTRATION_NAME_BUDGET as nat);
    law_socket_names_keep_the_hash(driver_name, REGISTRATION_NAME_BUDGET as nat);
    assert forall|i: int| 0 <= i < stem.len() implies is_safe_char(#[trigger] stem[i]) by {
        law_socket_names_are_safe(driver_name, REGISTRATION_NAME_BUDGET as nat, i);
    }
    assert(name[0] == stem[0]);
    let path = registration_socket_path(driver_name);
    let base = KUBELET_PLUGINS_REGISTRY_PATH@;
    assert(path == base + name);
    assert(is_ascii_chars(path)) by {
        assert forall|i: int| 0 <= i < path.len() implies '\0' <= #[trigger] path[i] <= '\u{7f}' by {
            if i >= base.len() + stem.len() {
                assert(path[i] == REGISTRATION_SOCKET_SUFFIX@[i - base.len() - stem.len()]);
            } else if i >= base.len() {
                assert(path[i] == stem[i - base.len()]);
            }
        }
    }
    is_ascii_chars_encode_utf8(path);
}

/// Text without separators in front of which a separator stands is the last
/// piece.
proof fn lemma_split_last(base: Seq<char>, name: Seq<char>, separator: char)
    requires
        base.len() > 0,
        base.last() == separator,
        forall|i: int| 0 <= i < name.len() ==> #[trigger] name[i] != separator,
    ensures
        split_text(base + name, separator) == split_text(base.drop_last(), separator).push(name),
    decreases name.len(),
{
    if name.len() == 0 {
        assert(base + name =~= base);
        assert(name =~= Seq::empty());
    } else {
        let shorter = name.drop_last();
        lemma_split_last(base, shorter, separator);
        assert((base + name).drop_last() =~= base + shorter);
        assert((base + name).last() == name.last());
        assert(name[name.len() - 1] != separator);
        let pieces = split_text(base.drop_last(), separator).push(shorter);
        assert(pieces.drop_last() =~= split_text(base.drop_last(), separator));
        assert(shorter.push(name.last()) =~= name);
    }
}

/// A plugin registers by the name of its socket in kubelet's directory.
pub proof fn law_plugins_register_by_socket_name(resource_name: Seq<char>)
    ensures
        file_name_text(DEVICE_PLUGIN_PATH@ + plugin_socket_name(resource_name)) == Some(
            plugin_socket_name(resource_name),
        ),
{
    reveal_strlit("/var/lib/kubelet/device-plugins/");
    reveal_strlit(".");
    reveal_strlit("..");
    let base = DEVICE_PLUGIN_PATH@;
    let name = plugin_socket_name(resource_name);
    law_socket_names_keep_the_hash(resource_name, SOCKET_NAME_BUDGET as nat);
    assert forall|i: int| 0 <= i < name.len() implies #[trigger] name[i] != '/' by {
        law_socket_names_are_safe(resource_name, SOCKET_NAME_BUDGET as nat, i);
    }
    lemma_split_last(base, name, '/');
    let pieces = split_text(base + name, '/');
    assert(pieces.last() == name);
    assert(name.len() >= 17);
}

proof fn lemma_identity_multiset(left: Seq<DeviceModel>, right: Seq<DeviceModel>)
    requires
        left.to_multiset() == right.to_multiset(),
    ensures
        same_devices(left, right),
    decreases left.len(),
{
    broadcast use vstd::multiset::group_multiset_axioms;

    left.to_multiset_ensures();
    right.to_multiset_ensures();
    if left.len() == 0 {
        assert(identities(left) =~= identities(right));
    } else {
        let device = left.last();
        let shorter = left.drop_last();
        assert(left.contains(device)) by {
            assert(left[left.len() - 1] == device);
        }
        assert(left.to_multiset().count(device) > 0);
        assert(right.to_multiset().count(device) > 0);
        assert(right.contains(device));
        let k = right.index_of(device);
        let rest = right.remove(k);
        shorter.to_multiset_ensures();
        assert(shorter.push(device) =~= left);
        assert(shorter.to_multiset() =~= left.to_multiset().remove(device));
        assert(rest.to_multiset() =~= right.to_multiset().remove(device));
        lemma_identity_multiset(shorter, rest);
        identities(shorter).to_multiset_ensures();
        identities(right).to_multiset_ensures();
        assert(identities(left) =~= identities(shorter).push(identity(device)));
        assert(identities(rest) =~= identities(right).remove(k));
        assert(identities(right)[k] == identity(device));
        let all = identities(right).to_multiset();
        assert(all.count(identity(device)) > 0) by {
            assert(identities(right).contains(identity(device)));
        }
        assert(all.remove(identity(device)).insert(identity(device)) =~= all);
    }
}

/// The order in which devices are listed does not matter to the comparison, and
/// the comparison is an equivalence.
pub proof fn law_device_order_does_not_matter(
    left: Seq<DeviceModel>,
    middle: Seq<DeviceModel>,
    right: Seq<DeviceModel>,
)
    ensures
        left.to_multiset() == right.to_multiset() ==> same_devices(left, right),
        same_devices(left, left),
        same_devices(left, right) ==> same_devices(right, left),
        same_devices(left, middle) && same_devices(middle, right) ==> same_devices(left, right),
{
    if left.to_multiset() == right.to_multiset() {
        lemma_identity_multiset(left, right);
    }
}

proof fn lemma_accepted_count(devices: Seq<DeviceModel>, device: DeviceModel)
    ensures
        accepted(devices).to_multiset().count(device) == if device_verdict(device) is Ok {
            devices.to_multiset().count(device)
        } else {
            0
        },
    decreases devices.len(),
{
    broadcast use vstd::multiset::group_multiset_axioms;

    reveal(Seq::filter);
    devices.to_multiset_ensures();
    accepted(devices).to_multiset_ensures();
    if devices.len() == 0 {
        assert(!devices.contains(device));
        assert(!accepted(devices).contains(device));
    } else {
        let shorter = devices.drop_last();
        lemma_accepted_count(shorter, device);
        shorter.to_multiset_ensures();
        accepted(shorter).to_multiset_ensures();
        assert(shorter.push(devices.last()) =~= devices);
    }
}

/// A backend that lists the same devices in another order causes no update.
pub proof fn law_reordering_causes_no_update(found: Seq<DeviceModel>, before: Seq<DeviceModel>)
    requires
        found.to_multiset() == before.to_multiset(),
    ensures
        same_devices(accepted(found), accepted(before)),
{
    assert forall|device: DeviceModel| accepted(found).to_multiset().count(device) == accepted(
        before,
    ).to_multiset().count(device) by {
        lemma_accepted_count(found, device);
        lemma_accepted_count(before, device);
    }
    assert(accepted(found).to_multiset() =~= accepted(before).to_multiset());
    lemma_identity_multiset(accepted(found), accepted(before));
}

/// A device that is not valid is left out, and takes no valid device with it.
pub proof fn law_invalid_devices_are_left_out(devices: Seq<DeviceModel>, device: DeviceModel)
    ensures
        accepted(devices).contains(device) <==> devices.contains(device) && device_verdict(
            device,
        ) is Ok,
{
    lemma_accepted_count(devices, device);
    devices.to_multiset_ensures();
    accepted(devices).to_multiset_ensures();
}

/// Where every container gets its devices, the answers stand in the order of the
/// request.
pub proof fn law_answers_keep_the_order(outcomes: Seq<OutcomeModel>, i: int)
    requires
        batch_answer(outcomes) is Ok,
        0 <= i < outcomes.len(),
    ensures
        match batch_answer(outcomes) {
            Ok(responses) => responses.len() == outcomes.len() && container_answer(outcomes[i])
                == Ok::<ContainerResponseModel, RpcStatusModel>(responses[i]),
            Err(_) => false,
        },
    decreases outcomes.len(),
{
    let shorter = outcomes.drop_last();
    if i < shorter.len() {
        law_answers_keep_the_order(shorter, i);
        assert(shorter[i] == outcomes[i]);
    }
    if shorter.len() > 0 {
        law_answers_keep_the_order(shorter, 0);
    }
}

/// Where a container does not get its devices, the first such container decides
/// the answer.
pub proof fn law_first_failure_decides(outcomes: Seq<OutcomeModel>) -> (k: int)
    requires
        batch_answer(outcomes) is Err,
    ensures
        0 <= k < outcomes.len(),
        forall|j: int| 0 <= j < k ==> container_answer(#[trigger] outcomes[j]) is Ok,
        match (container_answer(outcomes[k]), batch_answer(outcomes)) {
            (Err(one), Err(all)) => one == all,
            _ => false,
        },
    decreases outcomes.len(),
{
    let shorter = outcomes.drop_last();
    match batch_answer(shorter) {
        Err(_) => {
            let k = law_first_failure_decides(shorter);
            assert forall|j: int| 0 <= j < k implies container_answer(#[trigger] outcomes[j]) is Ok by {
                assert(outcomes[j] == shorter[j]);
            }
            k
        },
        Ok(_) => {
            let k = shorter.len() as int;
            assert forall|j: int| 0 <= j < k implies container_answer(#[trigger] outcomes[j]) is Ok by {
                law_answers_keep_the_order(shorter, j);
                assert(outcomes[j] == shorter[j]);
            }
            k
        },
    }
}

/// The delay after a number of failed attempts to register.
pub open spec fn delay_after(initial_delay: nat, failures: nat) -> nat
    decreases failures,
{
    if failures == 0 {
        initial_delay
    } else {
        doubled_delay(delay_after(initial_delay, (failures - 1) as nat))
    }
}

/// The delay between attempts to register grows, and never exceeds half a minute
/// after the first.
pub proof fn law_registration_delay_is_bounded(initial_delay: nat, failures: nat)
    requires
        failures >= 1,
    ensures
        delay_after(initial_delay, failures) <= 30_000_000_000,
        initial_delay <= 30_000_000_000 ==> delay_after(initial_delay, (failures - 1) as nat)
            <= delay_after(initial_delay, failures),
    decreases failures,
{
    if failures > 1 {
        law_registration_delay_is_bounded(initial_delay, (failures - 1) as nat);
    }
}

/// A backend that never says it chooses devices is never asked to: every request
/// with a size that is not negative is answered that it does not.
pub proof fn law_unavailable_preferences_are_refused<P: K8sDevicePlugin>(
    backend: P,
    request: ContainerPreferredAllocationRequest,
    result: Result<Vec<String>, RpcStatus>,
)
    requires
        request.allocation_size >= 0,
        !call_ensures(P::preferred_allocation_available, (&backend,), true),
        is_preference(backend, request, result),
    ensures
        match result {
            Err(status) => status@ == no_preference() && status.code == RpcCode::Unimplemented
                && status.message@ == "preferred allocation is not available for this plugin"@,
            Ok(_) => false,
        },
{
}

} // verus!
