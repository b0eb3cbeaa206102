//! What the API server holds after a publication, told from what the driver
//! offers.

use crate::dra::{AttributeValue, PoolDevice, PoolDeviceModel};
use crate::resource_slice::{
    canonical, chunks_of, desired_slice, insert_by_name, lemma_canonical_names, names, pool_chunks,
    publication, slice_matches, wire_attribute, wire_device, wire_devices,
    PublisherModel,
};
use crate::resource_slice_laws::{
    apply_all, law_canonical_order_is_stable, law_device_order_is_irrelevant,
    law_publication_is_complete, law_slices_hold_every_device, pools_are_separate, settled,
    settled_at, slice_of,
};
use crate::slice_api::{SliceModel, WireDevice, WireDeviceModel};
use crate::text::{decimal_text, signed_text, text_lt};
use vstd::prelude::*;

verus! {

proof fn lemma_insert_keeps(sorted: Seq<WireDeviceModel>, device: WireDeviceModel)
    ensures
        insert_by_name(sorted, device).to_multiset() == sorted.to_multiset().insert(device),
    decreases sorted.len(),
{
    broadcast use vstd::multiset::group_multiset_axioms;

    if sorted.len() > 0 && text_lt(device.name, sorted.last().name) {
        let rest = sorted.drop_last();
        lemma_insert_keeps(rest, device);
        rest.to_multiset_ensures();
        insert_by_name(rest, device).to_multiset_ensures();
        assert(rest.push(sorted.last()) =~= sorted);
        assert(insert_by_name(sorted, device).to_multiset() =~= sorted.to_multiset().insert(device));
    } else {
        sorted.to_multiset_ensures();
    }
}

/// Sorting devices keeps each of them, whole and as often, and puts none behind
/// one whose name comes after its own.
pub proof fn law_sorting_keeps_every_device(devices: Seq<WireDeviceModel>)
    ensures
        canonical(devices).to_multiset() == devices.to_multiset(),
        canonical(devices).len() == devices.len(),
        forall|i: int, j: int|
            0 <= i < j < devices.len() ==> !text_lt(
                (#[trigger] canonical(devices)[j]).name,
                (#[trigger] canonical(devices)[i]).name,
            ),
    decreases devices.len(),
{
    lemma_canonical_names(devices);
    if devices.len() > 0 {
        let rest = devices.drop_last();
        law_sorting_keeps_every_device(rest);
        lemma_insert_keeps(canonical(rest), devices.last());
        rest.to_multiset_ensures();
        assert(rest.push(devices.last()) =~= devices);
    } else {
        assert(canonical(devices) =~= devices);
    }
}

/// A slice counts as the desired one only where it says the same in every
/// respect: the same owners, driver, node, pool, generation and count, and the
/// same devices as whole records, each as often, in whatever order.
pub proof fn law_matching_slices_hold_the_same(current: SliceModel, desired: SliceModel)
    requires
        slice_matches(current, desired),
    ensures
        current.owner_references == desired.owner_references,
        current.spec.driver == desired.spec.driver,
        current.spec.node_name == desired.spec.node_name,
        current.spec.pool.name == desired.spec.pool.name,
        current.spec.pool.generation == desired.spec.pool.generation,
        current.spec.pool.resource_slice_count == desired.spec.pool.resource_slice_count,
        current.spec.other_fields == desired.spec.other_fields,
        match (current.spec.devices, desired.spec.devices) {
            (Some(held), Some(wanted)) => held.to_multiset() == wanted.to_multiset(),
            (None, None) => true,
            _ => false,
        },
{
    if let Some(held) = current.spec.devices {
        law_sorting_keeps_every_device(held);
    }
}

/// A slice that says the same as the desired one, with its devices in another
/// order, counts as the desired one.
pub proof fn law_same_slices_match(
    current: SliceModel,
    desired: SliceModel,
    held: Seq<WireDeviceModel>,
    wanted: Seq<WireDeviceModel>,
)
    requires
        current.owner_references == desired.owner_references,
        current.spec.driver == desired.spec.driver,
        current.spec.node_name == desired.spec.node_name,
        current.spec.pool == desired.spec.pool,
        current.spec.other_fields == desired.spec.other_fields,
        current.spec.devices == Some(held),
        desired.spec.devices == Some(wanted),
        held.to_multiset() == wanted.to_multiset(),
        forall|i: int, j: int|
            0 <= i < j < wanted.len() ==> text_lt(
                (#[trigger] wanted[i]).name,
                (#[trigger] wanted[j]).name,
            ),
    ensures
        slice_matches(current, desired),
{
    assert forall|i: int, j: int| 0 <= i < j < wanted.len() implies !text_lt(
        (#[trigger] wanted[j]).name,
        (#[trigger] wanted[i]).name,
    ) && wanted[i].name != wanted[j].name by {
        assert(text_lt(wanted[i].name, wanted[j].name));
        crate::text::lemma_text_lt_total(wanted[i].name, wanted[j].name);
    }
    law_canonical_order_is_stable(wanted);
    assert(names(wanted).no_duplicates());
    law_device_order_is_irrelevant(wanted, held);
}

/// After a successful publication the API server holds, for every pool, one slice
/// for each 128 devices that the driver offers in it: under the name of the
/// driver, the node, the pool and the place, with the driver, the node, the pool,
/// the owner and the number of slices, all with one generation. Its devices are
/// exactly those of its part of the offered ones, as whole records.
pub proof fn law_stored_slices_hold_what_is_offered(
    by: PublisherModel,
    existing: Map<Seq<char>, SliceModel>,
    pools: Map<Seq<char>, Seq<PoolDeviceModel>>,
    pool_name: Seq<char>,
    i: nat,
)
    requires
        existing.dom().finite(),
        pools.dom().finite(),
        pools_are_separate(by, pools),
        publication(by, existing, pools).1 is None,
        pools.dom().contains(pool_name),
        128 * i < pools[pool_name].len(),
    ensures
        ({
            let after = apply_all(existing, publication(by, existing, pools).0);
            let first = by.driver_name + "-"@ + by.node_name + "-"@ + pool_name;
            let name = if i == 0 {
                first
            } else {
                first + "-"@ + decimal_text(i)
            };
            let n = pools[pool_name].len();
            let stored = after[name];
            &&& after.dom().contains(first)
            &&& after.dom().contains(name)
            &&& stored.owner_references == Some(seq![by.owner])
            &&& stored.spec.driver == by.driver_name
            &&& stored.spec.node_name == Some(by.node_name)
            &&& stored.spec.pool.name == pool_name
            &&& stored.spec.pool.generation == after[first].spec.pool.generation
            &&& stored.spec.pool.resource_slice_count == (n + 127) / 128
            &&& stored.spec.other_fields is None
            &&& match stored.spec.devices {
                Some(held) => {
                    &&& held.len() == if 128 * i + 128 <= n {
                        128
                    } else {
                        n - 128 * i
                    }
                    &&& i < pool_chunks(pools[pool_name]).len()
                    &&& held.to_multiset() == pool_chunks(pools[pool_name])[i as int].to_multiset()
                    &&& forall|k: int|
                        0 <= k < held.len() ==> exists|j: int|
                            0 <= j < n && #[trigger] held[k] == wire_device(
                                #[trigger] pools[pool_name][j],
                            )
                },
                None => false,
            }
        }),
{
    let after = apply_all(existing, publication(by, existing, pools).0);
    let devices = pools[pool_name];
    let wired = wire_devices(devices);
    let all = canonical(wired);
    let chunks = pool_chunks(devices);
    law_publication_is_complete(by, existing, pools);
    assert(settled(by, after, pools, pool_name));
    let generation = choose|g: i64| settled_at(by, after, pool_name, chunks, chunks.len(), g);
    law_sorting_keeps_every_device(wired);
    law_slices_hold_every_device(all);
    assert(chunks.len() == (devices.len() + 127) / 128);
    let first = slice_of(by, pool_name, 0);
    let name = slice_of(by, pool_name, i);
    let desired = desired_slice(by, pool_name, generation, chunks, i as int);
    assert(after.dom().contains(first) && slice_matches(
        after[first],
        desired_slice(by, pool_name, generation, chunks, 0),
    ));
    assert(after.dom().contains(name) && slice_matches(after[name], desired));
    law_matching_slices_hold_the_same(after[name], desired);
    law_matching_slices_hold_the_same(
        after[first],
        desired_slice(by, pool_name, generation, chunks, 0),
    );
    let held = after[name].spec.devices->0;
    let chunk = chunks[i as int];
    held.to_multiset_ensures();
    chunk.to_multiset_ensures();
    all.to_multiset_ensures();
    wired.to_multiset_ensures();
    assert forall|k: int| 0 <= k < held.len() implies exists|j: int|
        0 <= j < devices.len() && #[trigger] held[k] == wire_device(#[trigger] devices[j]) by {
        assert(held.contains(held[k]));
        assert(held.to_multiset().count(held[k]) > 0);
        assert(chunk.contains(held[k]));
        let c = chunk.index_of(held[k]);
        assert(chunks_of(all)[i as int][c] == all[128 * i + c]);
        assert(all.contains(held[k]));
        assert(all.to_multiset().count(held[k]) > 0);
        assert(wired.contains(held[k]));
        let j = wired.index_of(held[k]);
        assert(wired[j] == wire_device(devices[j]));
    }
}

/// After a successful publication every device that the driver offers is held by
/// a slice of its pool, as a whole record.
pub proof fn law_every_offered_device_is_stored(
    by: PublisherModel,
    existing: Map<Seq<char>, SliceModel>,
    pools: Map<Seq<char>, Seq<PoolDeviceModel>>,
    pool_name: Seq<char>,
    j: int,
) -> (place: (nat, int))
    requires
        existing.dom().finite(),
        pools.dom().finite(),
        pools_are_separate(by, pools),
        publication(by, existing, pools).1 is None,
        pools.dom().contains(pool_name),
        0 <= j < pools[pool_name].len(),
    ensures
        ({
            let after = apply_all(existing, publication(by, existing, pools).0);
            let first = by.driver_name + "-"@ + by.node_name + "-"@ + pool_name;
            let name = if place.0 == 0 {
                first
            } else {
                first + "-"@ + decimal_text(place.0)
            };
            &&& after.dom().contains(name)
            &&& after[name].spec.pool.name == pool_name
            &&& match after[name].spec.devices {
                Some(held) => 0 <= place.1 < held.len() && held[place.1] == wire_device(
                    pools[pool_name][j],
                ),
                None => false,
            }
        }),
{
    let after = apply_all(existing, publication(by, existing, pools).0);
    let devices = pools[pool_name];
    let wired = wire_devices(devices);
    let all = canonical(wired);
    let chunks = pool_chunks(devices);
    law_sorting_keeps_every_device(wired);
    law_slices_hold_every_device(all);
    all.to_multiset_ensures();
    wired.to_multiset_ensures();
    let device = wire_device(devices[j]);
    assert(wired[j] == device);
    assert(wired.contains(device));
    assert(wired.to_multiset().count(device) > 0);
    assert(all.contains(device));
    let p = all.index_of(device);
    let i = (p / 128) as nat;
    assert(chunks_of(all)[p / 128][p % 128] == all[p]);
    law_stored_slices_hold_what_is_offered(by, existing, pools, pool_name, i);
    let name = slice_of(by, pool_name, i);
    let held = after[name].spec.devices->0;
    let chunk = chunks[i as int];
    held.to_multiset_ensures();
    chunk.to_multiset_ensures();
    assert(chunk[p % 128] == device);
    assert(chunk.contains(device));
    assert(chunk.to_multiset().count(device) > 0);
    assert(held.contains(device));
    (i, held.index_of(device))
}

/// An offered device is published under its name with every attribute as its kind
/// of value, every capacity as its number, and nothing else; a map without
/// entries is left out.
pub proof fn law_offered_devices_are_published_whole(device: PoolDevice, wire: WireDevice)
    requires
        wire@ == wire_device(device@),
    ensures
        wire.name@ == device.name@,
        wire.other_fields is None,
        match wire.attributes {
            Some(published) => {
                &&& published@.dom() == device.attributes@.dom()
                &&& forall|key: Seq<char>| #[trigger]
                    device.attributes@.dom().contains(key) ==> {
                        let told = published@[key];
                        &&& told.other_fields is None
                        &&& match device.attributes@[key] {
                            AttributeValue::String(text) => told.bool is None && told.int is None
                                && told.version is None && match told.string {
                                Some(string) => string@ == text@,
                                None => false,
                            },
                            AttributeValue::Int(number) => told.bool is None && told.int == Some(
                                number,
                            ) && told.version is None && told.string is None,
                            AttributeValue::Bool(flag) => told.bool == Some(flag) && told.int
                                is None && told.version is None && told.string is None,
                            AttributeValue::Version(text) => told.bool is None && told.int is None
                                && told.string is None && match told.version {
                                Some(version) => version@ == text@,
                                None => false,
                            },
                        }
                    }
            },
            None => forall|key: Seq<char>| !(#[trigger] device.attributes@.dom().contains(key)),
        },
        match wire.capacity {
            Some(published) => {
                &&& published@.dom() == device.capacity@.dom()
                &&& forall|key: Seq<char>| #[trigger]
                    device.capacity@.dom().contains(key) ==> {
                        &&& published@[key].other_fields is None
                        &&& published@[key].value@ == signed_text(device.capacity@[key].0 as int)
                    }
            },
            None => forall|key: Seq<char>| !(#[trigger] device.capacity@.dom().contains(key)),
        },
{
    let offered = device@;
    assert(offered.attributes.dom() =~= device.attributes@.dom());
    assert(offered.capacity.dom() =~= device.capacity@.dom());
    if let Some(published) = wire.attributes {
        assert(wire@.attributes->0.dom() =~= published@.dom());
        assert forall|key: Seq<char>| #[trigger]
            device.attributes@.dom().contains(key) implies published@[key]@ == wire_attribute(
            device.attributes@[key]@,
        ) by {
            assert(wire@.attributes->0[key] == wire_attribute(offered.attributes[key]));
        }
    } else {
        assert(forall|key: Seq<char>| !(#[trigger] offered.attributes.dom().contains(key)));
    }
    if let Some(published) = wire.capacity {
        assert(wire@.capacity->0.dom() =~= published@.dom());
        assert forall|key: Seq<char>| #[trigger]
            device.capacity@.dom().contains(key) implies published@[key]@
            == crate::resource_slice::wire_capacity(device.capacity@[key].0 as int) by {
            assert(wire@.capacity->0[key] == crate::resource_slice::wire_capacity(
                offered.capacity[key],
            ));
        }
    } else {
        assert(forall|key: Seq<char>| !(#[trigger] offered.capacity.dom().contains(key)));
    }
}

} // verus!
