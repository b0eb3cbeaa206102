//! Reconciliation of a driver's `ResourceSlice` objects with what it offers.

use crate::dra::{AttributeModel, AttributeValue, PoolDevice, PoolDeviceModel, Quantity};
use crate::duration::Duration;
use crate::ordered_map::{in_order, OrderedMap};
use crate::record::{
    copy_all, holds, map_views, opt_view, same_all, same_opt, same_opt_all, views, Record,
};
use crate::slice_api::{
    DeviceAttribute, DeviceAttributeModel, DeviceCapacity, DeviceCapacityModel, OwnerModel,
    OwnerReference, ResourceSlice, ResourceSliceSpec, SliceModel, SliceSpecModel, WireDevice,
    WireDeviceModel, WirePoolModel, WireResourcePool,
};
use crate::text::{
    decimal, decimal_text, lemma_text_lt_total, lemma_text_lt_transitive, signed_decimal,
    signed_text, text_lt, text_order, TextOrder,
};
use vstd::arithmetic::power2::{lemma2_to64, lemma_pow2_strictly_increases, lemma_pow2_unfold, pow2};
use vstd::prelude::*;
use vstd::string::*;

verus! {

/// How many devices Kubernetes permits in one slice.
pub const MAX_DEVICES_PER_SLICE: usize = 128;

/// The name of a pool's slice: driver, node and pool, and from the second slice
/// on its index.
pub open spec fn slice_name_text(
    driver_name: Seq<char>,
    node_name: Seq<char>,
    pool_name: Seq<char>,
    index: nat,
) -> Seq<char> {
    let base = driver_name + "-"@ + node_name + "-"@ + pool_name;
    if index == 0 {
        base
    } else {
        base + "-"@ + decimal_text(index)
    }
}

/// Names a pool's slice.
pub fn slice_name(driver_name: &str, node_name: &str, pool_name: &str, index: usize) -> (name:
    String)
    ensures
        name@ == slice_name_text(driver_name@, node_name@, pool_name@, index as nat),
{
    let mut name = driver_name.to_owned();
    name.append("-");
    name.append(node_name);
    name.append("-");
    name.append(pool_name);
    if index > 0 {
        name.append("-");
        name.append(decimal(index as u64).as_str());
    }
    name
}

/// The wire form of an attribute: the one field of its type is set.
pub open spec fn wire_attribute(value: AttributeModel) -> DeviceAttributeModel {
    let unset = DeviceAttributeModel {
        bool: None,
        int: None,
        string: None,
        version: None,
        other_fields: None,
    };
    match value {
        AttributeModel::String(text) => DeviceAttributeModel { string: Some(text), ..unset },
        AttributeModel::Int(number) => DeviceAttributeModel { int: Some(number), ..unset },
        AttributeModel::Bool(flag) => DeviceAttributeModel { bool: Some(flag), ..unset },
        AttributeModel::Version(text) => DeviceAttributeModel { version: Some(text), ..unset },
    }
}

/// Turns an attribute into its wire form.
pub fn attribute_value_to_wire(value: &AttributeValue) -> (wire: DeviceAttribute)
    ensures
        wire@ == wire_attribute(value@),
{
    let unset = DeviceAttribute {
        bool: None,
        int: None,
        string: None,
        version: None,
        other_fields: None,
    };
    match value {
        AttributeValue::String(text) => DeviceAttribute { string: Some(text.clone()), ..unset },
        AttributeValue::Int(number) => DeviceAttribute { int: Some(*number), ..unset },
        AttributeValue::Bool(flag) => DeviceAttribute { bool: Some(*flag), ..unset },
        AttributeValue::Version(text) => DeviceAttribute { version: Some(text.clone()), ..unset },
    }
}

/// The wire form of a capacity: the quantity in decimal.
pub open spec fn wire_capacity(quantity: int) -> DeviceCapacityModel {
    DeviceCapacityModel { value: signed_text(quantity), other_fields: None }
}

/// The wire form of a device. A map without entries is left out: the API server
/// does not tell it from an absent one.
pub open spec fn wire_device(device: PoolDeviceModel) -> WireDeviceModel {
    WireDeviceModel {
        name: device.name,
        attributes: if device.attributes == Map::<Seq<char>, AttributeModel>::empty() {
            None
        } else {
            Some(device.attributes.map_values(|value: AttributeModel| wire_attribute(value)))
        },
        capacity: if device.capacity == Map::<Seq<char>, int>::empty() {
            None
        } else {
            Some(device.capacity.map_values(|quantity: int| wire_capacity(quantity)))
        },
        other_fields: None,
    }
}

fn attributes_to_wire(attributes: &OrderedMap<String, AttributeValue>) -> (wire: OrderedMap<
    String,
    DeviceAttribute,
>)
    ensures
        map_views(wire@) == map_views(attributes@).map_values(
            |value: AttributeModel| wire_attribute(value),
        ),
{
    let mut wire: OrderedMap<String, DeviceAttribute> = OrderedMap::new();
    let n: usize = attributes.len();
    let ghost keys = attributes.order();
    let mut i: usize = 0;
    while i < n
        invariant
            i <= n,
            n == keys.len(),
            keys == attributes.order(),
            keys.to_set() == attributes@.dom(),
            forall|k: Seq<char>| #[trigger] wire@.dom().contains(k) <==> keys.take(i as int).contains(k),
            forall|k: Seq<char>| #[trigger]
                wire@.dom().contains(k) ==> wire@[k]@ == wire_attribute(attributes@[k]@),
        decreases n - i,
    {
        let key = attributes.key_at(i).clone();
        let value = attribute_value_to_wire(attributes.value_at(i));
        wire.insert(key, value);
        i += 1;
        proof {
            lemma_take_contains(keys, i as int);
        }
    }
    proof {
        assert(keys.take(n as int) =~= keys);
        assert forall|k: Seq<char>| wire@.dom().contains(k) <==> attributes@.dom().contains(k) by {
            assert(keys.to_set().contains(k) <==> keys.contains(k));
        }
        assert(map_views(wire@) =~= map_views(attributes@).map_values(
            |value: AttributeModel| wire_attribute(value),
        ));
    }
    wire
}

fn capacity_to_wire(capacity: &OrderedMap<String, Quantity>) -> (wire: OrderedMap<
    String,
    DeviceCapacity,
>)
    ensures
        map_views(wire@) == map_views(capacity@).map_values(|quantity: int| wire_capacity(quantity)),
{
    let mut wire: OrderedMap<String, DeviceCapacity> = OrderedMap::new();
    let n: usize = capacity.len();
    let ghost keys = capacity.order();
    let mut i: usize = 0;
    while i < n
        invariant
            i <= n,
            n == keys.len(),
            keys == capacity.order(),
            keys.to_set() == capacity@.dom(),
            forall|k: Seq<char>| #[trigger] wire@.dom().contains(k) <==> keys.take(i as int).contains(k),
            forall|k: Seq<char>| #[trigger]
                wire@.dom().contains(k) ==> wire@[k]@ == wire_capacity(capacity@[k]@),
        decreases n - i,
    {
        let key = capacity.key_at(i).clone();
        let quantity = *capacity.value_at(i);
        wire.insert(key, DeviceCapacity { value: signed_decimal(quantity.0), other_fields: None });
        i += 1;
        proof {
            lemma_take_contains(keys, i as int);
        }
    }
    proof {
        assert(keys.take(n as int) =~= keys);
        assert forall|k: Seq<char>| wire@.dom().contains(k) <==> capacity@.dom().contains(k) by {
            assert(keys.to_set().contains(k) <==> keys.contains(k));
        }
        assert(map_views(wire@) =~= map_views(capacity@).map_values(
            |quantity: int| wire_capacity(quantity),
        ));
    }
    wire
}

proof fn lemma_take_contains(keys: Seq<Seq<char>>, i: int)
    requires
        0 < i <= keys.len(),
    ensures
        forall|k: Seq<char>| #[trigger]
            keys.take(i).contains(k) <==> keys.take(i - 1).contains(k) || k == keys[i - 1],
{
    assert(keys.take(i) =~= keys.take(i - 1).push(keys[i - 1]));
    assert forall|k: Seq<char>| #[trigger] keys.take(i).contains(k) <==> keys.take(i - 1).contains(k)
        || k == keys[i - 1] by {
        if keys.take(i - 1).contains(k) {
            let j = keys.take(i - 1).index_of(k);
            assert(keys.take(i)[j] == k);
        }
        if k == keys[i - 1] {
            assert(keys.take(i)[i - 1] == k);
        }
        if keys.take(i).contains(k) {
            let j = keys.take(i).index_of(k);
            if j < i - 1 {
                assert(keys.take(i - 1)[j] == k);
            }
        }
    }
}

/// Turns a device into its wire form.
pub fn pool_device_to_wire(device: &PoolDevice) -> (wire: WireDevice)
    ensures
        wire@ == wire_device(device@),
{
    let attributes = if device.attributes.is_empty() {
        proof {
            assert(device@.attributes =~= Map::empty());
        }
        None
    } else {
        proof {
            if device@.attributes == Map::<Seq<char>, AttributeModel>::empty() {
                assert(device.attributes@.dom() =~= device@.attributes.dom());
                assert(device.attributes@ =~= Map::empty());
            }
        }
        Some(attributes_to_wire(&device.attributes))
    };
    let capacity = if device.capacity.is_empty() {
        proof {
            assert(device@.capacity =~= Map::empty());
        }
        None
    } else {
        proof {
            if device@.capacity == Map::<Seq<char>, int>::empty() {
                assert(device.capacity@.dom() =~= device@.capacity.dom());
                assert(device.capacity@ =~= Map::empty());
            }
        }
        Some(capacity_to_wire(&device.capacity))
    };
    WireDevice { name: device.name.clone(), attributes, capacity, other_fields: None }
}

/// Puts a device behind all those whose names do not come after its own.
pub open spec fn insert_by_name(
    sorted: Seq<WireDeviceModel>,
    device: WireDeviceModel,
) -> Seq<WireDeviceModel>
    decreases sorted.len(),
{
    if sorted.len() > 0 && text_lt(device.name, sorted.last().name) {
        insert_by_name(sorted.drop_last(), device).push(sorted.last())
    } else {
        sorted.push(device)
    }
}

/// Devices in the order of their names; those with the same name keep their
/// order.
pub open spec fn canonical(devices: Seq<WireDeviceModel>) -> Seq<WireDeviceModel>
    decreases devices.len(),
{
    if devices.len() == 0 {
        Seq::empty()
    } else {
        insert_by_name(canonical(devices.drop_last()), devices.last())
    }
}

proof fn lemma_insert_by_name(sorted: Seq<WireDeviceModel>, device: WireDeviceModel, i: int)
    requires
        0 <= i <= sorted.len(),
        forall|j: int| i <= j < sorted.len() ==> text_lt(device.name, (#[trigger] sorted[j]).name),
        i > 0 ==> !text_lt(device.name, sorted[i - 1].name),
    ensures
        insert_by_name(sorted, device) == sorted.insert(i, device),
    decreases sorted.len(),
{
    if i < sorted.len() {
        let last = sorted.len() - 1;
        assert(text_lt(device.name, sorted[last].name));
        lemma_insert_by_name(sorted.drop_last(), device, i);
        assert(sorted.insert(i, device) =~= sorted.drop_last().insert(i, device).push(sorted[last]));
    } else {
        assert(sorted.insert(i, device) =~= sorted.push(device));
    }
}

/// Puts devices in the stable order used for comparison and publication.
pub fn canonicalize_devices(devices: Vec<WireDevice>) -> (sorted: Vec<WireDevice>)
    ensures
        views(sorted@) == canonical(views(devices@)),
{
    let ghost given = devices@;
    let ghost models = views(given);
    let mut sorted: Vec<WireDevice> = Vec::new();
    proof {
        assert(models.take(0) =~= Seq::empty());
        assert(views(sorted@) =~= Seq::empty());
    }
    for device in it: devices
        invariant
            it.seq() == given,
            models == views(given),
            views(sorted@) == canonical(models.take(it.index())),
    {
        let ghost earlier = views(sorted@);
        let ghost model = device@;
        let mut i: usize = sorted.len();
        let mut searching = true;
        while searching && i > 0
            invariant
                i <= sorted@.len(),
                earlier == views(sorted@),
                forall|j: int|
                    i <= j < earlier.len() ==> text_lt(device@.name, (#[trigger] earlier[j]).name),
                !searching ==> i > 0 && !text_lt(device@.name, earlier[i - 1].name),
            decreases i + (if searching { 1int } else { 0 }),
        {
            proof {
                lemma_text_lt_total(device@.name, earlier[i - 1].name);
            }
            match text_order(device.name.as_str(), sorted[i - 1].name.as_str()) {
                TextOrder::Before => {
                    i -= 1;
                },
                _ => {
                    searching = false;
                },
            }
        }
        proof {
            lemma_insert_by_name(earlier, model, i as int);
            assert(models.take(it.index() + 1).drop_last() =~= models.take(it.index()));
            assert(models.take(it.index() + 1).last() == model);
        }
        sorted.insert(i, device);
        proof {
            assert(views(sorted@) =~= earlier.insert(i as int, model));
        }
    }
    proof {
        assert(models.take(models.len() as int) =~= models);
    }
    sorted
}

/// The names of devices.
pub open spec fn names(devices: Seq<WireDeviceModel>) -> Seq<Seq<char>> {
    Seq::new(devices.len(), |i: int| devices[i].name)
}

/// No device stands behind one whose name comes after its own.
pub open spec fn name_sorted(devices: Seq<WireDeviceModel>) -> bool {
    forall|i: int, j: int|
        0 <= i < j < devices.len() ==> !text_lt(
            (#[trigger] devices[j]).name,
            (#[trigger] devices[i]).name,
        )
}

/// Where a device is put among sorted ones.
proof fn lemma_place_by_name(sorted: Seq<WireDeviceModel>, device: WireDeviceModel) -> (i: int)
    requires
        name_sorted(sorted),
    ensures
        0 <= i <= sorted.len(),
        insert_by_name(sorted, device) == sorted.insert(i, device),
        forall|j: int| i <= j < sorted.len() ==> text_lt(device.name, (#[trigger] sorted[j]).name),
        forall|j: int| 0 <= j < i ==> !text_lt(device.name, (#[trigger] sorted[j]).name),
    decreases sorted.len(),
{
    if sorted.len() > 0 && text_lt(device.name, sorted.last().name) {
        let last = sorted.len() - 1;
        let rest = sorted.drop_last();
        assert forall|a: int, b: int| 0 <= a < b < rest.len() implies !text_lt(
            (#[trigger] rest[b]).name,
            (#[trigger] rest[a]).name,
        ) by {
            assert(rest[a] == sorted[a] && rest[b] == sorted[b]);
        }
        let i = lemma_place_by_name(rest, device);
        assert(sorted.insert(i, device) =~= rest.insert(i, device).push(sorted[last]));
        assert forall|j: int| i <= j < sorted.len() implies text_lt(
            device.name,
            (#[trigger] sorted[j]).name,
        ) by {
            if j < last {
                assert(sorted[j] == rest[j]);
            }
        }
        assert forall|j: int| 0 <= j < i implies !text_lt(device.name, (#[trigger] sorted[j]).name) by {
            assert(sorted[j] == rest[j]);
        }
        i
    } else {
        let i = sorted.len() as int;
        assert(sorted.insert(i, device) =~= sorted.push(device));
        assert forall|j: int| 0 <= j < i implies !text_lt(device.name, (#[trigger] sorted[j]).name) by {
            if j < i - 1 {
                let last = sorted[i - 1].name;
                assert(!text_lt(last, sorted[j].name));
                lemma_text_lt_total(last, sorted[j].name);
                lemma_text_lt_total(last, device.name);
                if text_lt(device.name, sorted[j].name) {
                    if text_lt(sorted[j].name, last) {
                        lemma_text_lt_transitive(device.name, sorted[j].name, last);
                    }
                }
            }
        }
        i
    }
}

/// The canonical order is sorted, with the same names as before: none is lost,
/// and none occurs twice that did not before.
pub proof fn lemma_canonical_names(devices: Seq<WireDeviceModel>)
    ensures
        name_sorted(canonical(devices)),
        canonical(devices).len() == devices.len(),
        forall|name: Seq<char>|
            names(canonical(devices)).contains(name) <==> names(devices).contains(name),
        names(canonical(devices)).no_duplicates() <==> names(devices).no_duplicates(),
    decreases devices.len(),
{
    if devices.len() == 0 {
        assert(names(canonical(devices)) =~= names(devices));
    } else {
        let rest = devices.drop_last();
        let device = devices.last();
        let sorted = canonical(rest);
        lemma_canonical_names(rest);
        let i = lemma_place_by_name(sorted, device);
        let all = canonical(devices);
        assert(all == sorted.insert(i, device));
        assert forall|a: int, b: int| 0 <= a < b < all.len() implies !text_lt(
            (#[trigger] all[b]).name,
            (#[trigger] all[a]).name,
        ) by {
            let x = if a < i { a } else { a - 1 };
            let y = if b < i { b } else { b - 1 };
            if a != i && b != i {
                assert(all[a] == sorted[x] && all[b] == sorted[y]);
            } else if a == i {
                assert(all[b] == sorted[y]);
                lemma_text_lt_total(device.name, sorted[y].name);
            } else {
                assert(all[a] == sorted[x]);
            }
        }
        let old_names = names(sorted);
        let new_names = names(all);
        assert(new_names =~= old_names.insert(i, device.name));
        assert(names(devices) =~= names(rest).push(device.name));
        lemma_insert_members(old_names, i, device.name);
        lemma_push_members(names(rest), device.name);
    }
}

proof fn lemma_insert_members(s: Seq<Seq<char>>, i: int, x: Seq<char>)
    requires
        0 <= i <= s.len(),
    ensures
        forall|y: Seq<char>| #[trigger] s.insert(i, x).contains(y) <==> s.contains(y) || y == x,
        s.insert(i, x).no_duplicates() <==> s.no_duplicates() && !s.contains(x),
{
    let t = s.insert(i, x);
    assert forall|y: Seq<char>| #[trigger] t.contains(y) <==> s.contains(y) || y == x by {
        if s.contains(y) {
            let j = s.index_of(y);
            assert(t[if j < i { j } else { j + 1 }] == y);
        }
        if y == x {
            assert(t[i] == y);
        }
        if t.contains(y) {
            let j = t.index_of(y);
            if j != i {
                assert(s[if j < i { j } else { j - 1 }] == y);
            }
        }
    }
    if t.no_duplicates() {
        assert forall|a: int, b: int| 0 <= a < b < s.len() implies s[a] != s[b] by {
            let p = if a < i { a } else { a + 1 };
            let q = if b < i { b } else { b + 1 };
            assert(t[p] == s[a] && t[q] == s[b]);
        }
        if s.contains(x) {
            let j = s.index_of(x);
            let p = if j < i { j } else { j + 1 };
            assert(t[p] == t[i]);
        }
    }
    if s.no_duplicates() && !s.contains(x) {
        assert forall|a: int, b: int| 0 <= a < b < t.len() implies t[a] != t[b] by {
            let p = if a < i { a } else { a - 1 };
            let q = if b < i { b } else { b - 1 };
            if a == i {
                assert(s[q] == t[b]);
                assert(s.contains(s[q]));
            } else if b == i {
                assert(s[p] == t[a]);
                assert(s.contains(s[p]));
            } else {
                assert(s[p] == t[a] && s[q] == t[b]);
            }
        }
    }
}

proof fn lemma_push_members(s: Seq<Seq<char>>, x: Seq<char>)
    ensures
        forall|y: Seq<char>| #[trigger] s.push(x).contains(y) <==> s.contains(y) || y == x,
        s.push(x).no_duplicates() <==> s.no_duplicates() && !s.contains(x),
{
    assert(s.push(x) =~= s.insert(s.len() as int, x));
    lemma_insert_members(s, s.len() as int, x);
}

/// Whether no two devices of a sorted list have the same name.
fn all_distinct(devices: &Vec<WireDevice>) -> (distinct: bool)
    requires
        name_sorted(views(devices@)),
    ensures
        distinct == names(views(devices@)).no_duplicates(),
{
    let ghost models = views(devices@);
    let mut i: usize = 1;
    while i < devices.len()
        invariant
            1 <= i,
            i <= devices@.len() || devices@.len() == 0 && i == 1,
            models == views(devices@),
            name_sorted(models),
            forall|a: int, b: int|
                0 <= a < b < i && b < models.len() ==> text_lt(
                    (#[trigger] models[a]).name,
                    (#[trigger] models[b]).name,
                ),
        decreases devices@.len() - i,
    {
        if devices[i - 1].name.same(&devices[i].name) {
            proof {
                assert(names(models)[i - 1] == names(models)[i as int]);
            }
            return false;
        }
        proof {
            let x = models[i - 1].name;
            let y = models[i as int].name;
            assert(!text_lt(y, x));
            lemma_text_lt_total(x, y);
            assert forall|a: int, b: int| 0 <= a < b < i + 1 && b < models.len() implies text_lt(
                (#[trigger] models[a]).name,
                (#[trigger] models[b]).name,
            ) by {
                if b == i && a < i - 1 {
                    assert(text_lt(models[a].name, models[i - 1].name));
                    lemma_text_lt_transitive(models[a].name, x, y);
                }
            }
        }
        i += 1;
    }
    proof {
        assert forall|a: int, b: int| 0 <= a < b < models.len() implies names(models)[a] != names(
            models,
        )[b] by {
            assert(text_lt(models[a].name, models[b].name));
            lemma_text_lt_total(models[a].name, models[b].name);
        }
    }
    true
}

/// How many slices a number of devices takes.
pub open spec fn chunk_count(n: nat) -> nat {
    (n + 127) / 128
}

/// The devices of one slice: those from 128 times its index on, up to 128.
pub open spec fn chunk_of(devices: Seq<WireDeviceModel>, i: int) -> Seq<WireDeviceModel> {
    devices.subrange(
        128 * i,
        if 128 * (i + 1) <= devices.len() {
            128 * (i + 1)
        } else {
            devices.len() as int
        },
    )
}

/// The devices, slice by slice.
pub open spec fn chunks_of(devices: Seq<WireDeviceModel>) -> Seq<Seq<WireDeviceModel>> {
    Seq::new(chunk_count(devices.len()), |i: int| chunk_of(devices, i))
}

/// The views of lists of devices.
pub open spec fn chunk_views(chunks: Seq<Vec<WireDevice>>) -> Seq<Seq<WireDeviceModel>> {
    Seq::new(chunks.len(), |i: int| views(chunks[i]@))
}

/// Splits devices into slices.
pub fn split_devices(devices: Vec<WireDevice>) -> (chunks: Vec<Vec<WireDevice>>)
    ensures
        chunk_views(chunks@) == chunks_of(views(devices@)),
{
    let ghost given = devices@;
    let ghost models = views(given);
    let mut chunks: Vec<Vec<WireDevice>> = Vec::new();
    let mut current: Vec<WireDevice> = Vec::new();
    for device in it: devices
        invariant
            it.seq() == given,
            models == views(given),
            current@.len() <= 128,
            128 * chunks@.len() + current@.len() == it.index(),
            it.index() > 0 ==> current@.len() > 0,
            views(current@) == models.subrange((128 * chunks@.len()) as int, it.index()),
            forall|i: int|
                0 <= i < chunks@.len() ==> views((#[trigger] chunks@[i])@) == models.subrange(
                    128 * i,
                    128 * (i + 1),
                ),
    {
        let ghost model = device@;
        if current.len() == MAX_DEVICES_PER_SLICE {
            chunks.push(current);
            current = Vec::new();
        }
        let ghost earlier = views(current@);
        proof {
            assert(earlier =~= models.subrange((128 * chunks@.len()) as int, it.index()));
        }
        current.push(device);
        proof {
            assert(views(current@) =~= earlier.push(model));
            assert(models.subrange((128 * chunks@.len()) as int, it.index() + 1) =~= earlier.push(model));
        }
    }
    if current.len() > 0 {
        chunks.push(current);
    }
    proof {
        let count = chunk_count(models.len());
        assert(chunks@.len() == count);
        assert forall|i: int| 0 <= i < count implies chunk_views(chunks@)[i] == chunks_of(
            models,
        )[i] by {}
        assert(chunk_views(chunks@) =~= chunks_of(models));
    }
    chunks
}

/// An answer of the API server, or one in its form, that something failed.
#[derive(Clone, Debug, PartialEq, Eq)]
pub struct ApiStatus {
    pub code: u16,
    pub reason: String,
    pub message: String,
}

/// What an [`ApiStatus`] says.
pub struct ApiStatusModel {
    pub code: u16,
    pub reason: Seq<char>,
    pub message: Seq<char>,
}

impl View for ApiStatus {
    type V = ApiStatusModel;

    open spec fn view(&self) -> ApiStatusModel {
        ApiStatusModel { code: self.code, reason: self.reason@, message: self.message@ }
    }
}

impl ApiStatus {
    /// The status as it is shown: message and reason.
    pub fn to_string(&self) -> (text: String)
        ensures
            text@ == self@.message + ": "@ + self@.reason,
    {
        let mut text = self.message.clone();
        text.append(": ");
        text.append(self.reason.as_str());
        text
    }
}

/// The code of an object that the API server cannot process.
pub const UNPROCESSABLE: u16 = 422;

/// The refusal of an object.
pub open spec fn invalid(message: Seq<char>) -> ApiStatusModel {
    ApiStatusModel { code: UNPROCESSABLE, reason: "Invalid"@, message }
}

/// The refusal of a pool.
pub open spec fn invalid_pool(pool_name: Seq<char>, reason: Seq<char>) -> ApiStatusModel {
    invalid("ResourcePool "@ + pool_name + " "@ + reason)
}

/// The refusal of a pool, with the reason.
pub fn invalid_pool_error(pool_name: &str, reason: &str) -> (error: ApiStatus)
    ensures
        error@ == invalid_pool(pool_name@, reason@),
{
    let mut message = "ResourcePool ".to_owned();
    message.append(pool_name);
    message.append(" ");
    message.append(reason);
    ApiStatus { code: UNPROCESSABLE, reason: "Invalid".to_owned(), message }
}

/// A slice of a pool is there under this name.
pub open spec fn in_pool(
    existing: Map<Seq<char>, SliceModel>,
    pool_name: Seq<char>,
    name: Seq<char>,
) -> bool {
    existing.dom().contains(name) && existing[name].spec.pool.name == pool_name
}

/// A slice says that its pool has so many slices, and holds these devices in
/// whatever order.
pub open spec fn slice_holds(
    slice: SliceModel,
    count: nat,
    devices: Seq<WireDeviceModel>,
) -> bool {
    slice.spec.pool.resource_slice_count == count && match slice.spec.devices {
        Some(held) => canonical(held) == devices,
        None => false,
    }
}

/// A name is that of one of a pool's first `count` slices.
pub open spec fn is_slice_name(
    driver_name: Seq<char>,
    node_name: Seq<char>,
    pool_name: Seq<char>,
    count: nat,
    name: Seq<char>,
) -> bool {
    exists|i: nat|
        i < count && name == #[trigger] slice_name_text(driver_name, node_name, pool_name, i)
}

/// The slice of a pool at an index is there, holds these devices, and has the
/// generation of the first one.
pub open spec fn slice_unchanged(
    existing: Map<Seq<char>, SliceModel>,
    driver_name: Seq<char>,
    node_name: Seq<char>,
    pool_name: Seq<char>,
    chunks: Seq<Seq<WireDeviceModel>>,
    i: int,
) -> bool {
    let name = slice_name_text(driver_name, node_name, pool_name, i as nat);
    let first = slice_name_text(driver_name, node_name, pool_name, 0);
    &&& in_pool(existing, pool_name, name)
    &&& slice_holds(existing[name], chunks.len(), chunks[i])
    &&& existing[name].spec.pool.generation == existing[first].spec.pool.generation
}

/// The slices of a pool are exactly the desired ones, with one generation.
pub open spec fn pool_unchanged(
    existing: Map<Seq<char>, SliceModel>,
    driver_name: Seq<char>,
    node_name: Seq<char>,
    pool_name: Seq<char>,
    chunks: Seq<Seq<WireDeviceModel>>,
) -> bool {
    &&& chunks.len() > 0
    &&& forall|name: Seq<char>| #[trigger]
        in_pool(existing, pool_name, name) ==> is_slice_name(
            driver_name,
            node_name,
            pool_name,
            chunks.len(),
            name,
        )
    &&& forall|i: int|
        0 <= i < chunks.len() ==> #[trigger] slice_unchanged(
            existing,
            driver_name,
            node_name,
            pool_name,
            chunks,
            i,
        )
}

/// The greatest generation among the slices of a pool.
pub open spec fn is_top_generation(
    existing: Map<Seq<char>, SliceModel>,
    pool_name: Seq<char>,
    generation: int,
) -> bool {
    &&& exists|name: Seq<char>| #[trigger]
        in_pool(existing, pool_name, name) && existing[name].spec.pool.generation == generation
    &&& forall|name: Seq<char>| #[trigger]
        in_pool(existing, pool_name, name) ==> existing[name].spec.pool.generation <= generation
}

/// The greatest generation among the slices of a pool; zero without slices.
pub open spec fn top_generation(
    existing: Map<Seq<char>, SliceModel>,
    pool_name: Seq<char>,
) -> int {
    if exists|name: Seq<char>| in_pool(existing, pool_name, name) {
        choose|generation: int| is_top_generation(existing, pool_name, generation)
    } else {
        0
    }
}

/// The generation that a pool's slices get: the one they have where nothing
/// changes, otherwise one more than the greatest there is.
pub open spec fn next_generation(
    existing: Map<Seq<char>, SliceModel>,
    driver_name: Seq<char>,
    node_name: Seq<char>,
    pool_name: Seq<char>,
    chunks: Seq<Seq<WireDeviceModel>>,
) -> Result<i64, ApiStatusModel> {
    if chunks.len() > i64::MAX {
        Err(invalid_pool(pool_name, "requires too many ResourceSlices"@))
    } else if pool_unchanged(existing, driver_name, node_name, pool_name, chunks) {
        Ok(
            existing[slice_name_text(
                driver_name,
                node_name,
                pool_name,
                0,
            )].spec.pool.generation,
        )
    } else if top_generation(existing, pool_name) == i64::MAX {
        Err(invalid_pool(pool_name, "generation cannot be incremented"@))
    } else {
        Ok((top_generation(existing, pool_name) + 1) as i64)
    }
}

/// The names of a pool's slices.
fn slice_names(driver_name: &str, node_name: &str, pool_name: &str, count: usize) -> (names: Vec<
    String,
>)
    ensures
        names@.len() == count,
        forall|i: int|
            0 <= i < count ==> (#[trigger] names@[i])@ == slice_name_text(
                driver_name@,
                node_name@,
                pool_name@,
                i as nat,
            ),
{
    let mut names: Vec<String> = Vec::new();
    let mut i: usize = 0;
    while i < count
        invariant
            i <= count,
            names@.len() == i,
            forall|j: int|
                0 <= j < i ==> (#[trigger] names@[j])@ == slice_name_text(
                    driver_name@,
                    node_name@,
                    pool_name@,
                    j as nat,
                ),
        decreases count - i,
    {
        names.push(slice_name(driver_name, node_name, pool_name, i));
        i += 1;
    }
    names
}

/// Whether a slice says that its pool has so many slices, and holds these
/// devices.
fn slice_holds_devices(slice: &ResourceSlice, count: i64, devices: &Vec<WireDevice>) -> (holds: bool)
    requires
        0 <= count,
    ensures
        holds == slice_holds(slice@, count as nat, views(devices@)),
{
    if slice.spec.pool.resource_slice_count != count {
        return false;
    }
    match &slice.spec.devices {
        Some(held) => same_all(&canonicalize_devices(copy_all(held)), devices),
        None => false,
    }
}

/// What there is of a pool: its greatest generation, and whether every slice
/// has one of the names.
fn survey_pool(
    existing: &OrderedMap<String, ResourceSlice>,
    pool_name: &String,
    names: &Vec<String>,
) -> (survey: (Option<i64>, bool))
    ensures
        match survey.0 {
            Some(generation) => is_top_generation(
                map_views(existing@),
                pool_name@,
                generation as int,
            ),
            None => forall|name: Seq<char>| !in_pool(map_views(existing@), pool_name@, name),
        },
        survey.1 == forall|name: Seq<char>| #[trigger]
            in_pool(map_views(existing@), pool_name@, name) ==> views(names@).contains(name),
{
    let ghost slices = map_views(existing@);
    let n: usize = existing.len();
    let ghost keys = existing.order();
    let mut top: Option<i64> = None;
    let mut known = true;
    let mut i: usize = 0;
    while i < n
        invariant
            i <= n,
            n == keys.len(),
            keys == existing.order(),
            keys.to_set() == existing@.dom(),
            slices == map_views(existing@),
            match top {
                Some(generation) => {
                    &&& exists|j: int|
                        0 <= j < i && #[trigger] in_pool(slices, pool_name@, keys[j])
                            && slices[keys[j]].spec.pool.generation == generation
                    &&& forall|j: int|
                        0 <= j < i && #[trigger] in_pool(slices, pool_name@, keys[j])
                            ==> slices[keys[j]].spec.pool.generation <= generation
                },
                None => forall|j: int| 0 <= j < i ==> !in_pool(slices, pool_name@, #[trigger] keys[j]),
            },
            known == forall|j: int|
                0 <= j < i && #[trigger] in_pool(slices, pool_name@, keys[j]) ==> views(
                    names@,
                ).contains(keys[j]),
        decreases n - i,
    {
        let name = existing.key_at(i);
        let slice = existing.value_at(i);
        proof {
            assert(slices.dom().contains(keys[i as int]));
            assert(slices[keys[i as int]] == slice@);
        }
        if slice.spec.pool.name.same(pool_name) {
            proof {
                assert(in_pool(slices, pool_name@, keys[i as int]));
            }
            let generation: i64 = slice.spec.pool.generation;
            let greatest: i64 = match top {
                Some(other) => if other > generation {
                    other
                } else {
                    generation
                },
                None => generation,
            };
            let ghost before = top;
            top = Some(greatest);
            proof {
                if before is Some && before->0 > generation {
                    let j = choose|j: int|
                        0 <= j < i && #[trigger] in_pool(slices, pool_name@, keys[j])
                            && slices[keys[j]].spec.pool.generation == before->0;
                    assert(in_pool(slices, pool_name@, keys[j]));
                }
            }
            if !holds(names, name) {
                known = false;
            }
        }
        i += 1;
    }
    proof {
        assert forall|name: Seq<char>| #[trigger] in_pool(slices, pool_name@, name) implies exists|j:
            int| 0 <= j < n && #[trigger] keys[j] == name by {
            assert(keys.to_set().contains(name));
            assert(keys[keys.index_of(name)] == name);
        }
    }
    (top, known)
}

/// Determines the generation of a pool's slices.
pub fn pool_generation(
    existing: &OrderedMap<String, ResourceSlice>,
    driver_name: &str,
    node_name: &str,
    pool_name: &String,
    chunks: &Vec<Vec<WireDevice>>,
) -> (generation: Result<i64, ApiStatus>)
    ensures
        (match generation {
            Ok(generation) => Ok(generation),
            Err(error) => Err(error@),
        }) == next_generation(
            map_views(existing@),
            driver_name@,
            node_name@,
            pool_name@,
            chunk_views(chunks@),
        ),
{
    let ghost slices = map_views(existing@);
    let ghost models = chunk_views(chunks@);
    let total: usize = chunks.len();
    if total as u64 > i64::MAX as u64 {
        return Err(invalid_pool_error(pool_name.as_str(), "requires too many ResourceSlices"));
    }
    let count: i64 = total as i64;
    let names = slice_names(driver_name, node_name, pool_name.as_str(), total);
    let (top, known) = survey_pool(existing, pool_name, &names);
    proof {
        assert forall|name: Seq<char>| views(names@).contains(name) <==> #[trigger] is_slice_name(
            driver_name@,
            node_name@,
            pool_name@,
            models.len(),
            name,
        ) by {
            if is_slice_name(driver_name@, node_name@, pool_name@, models.len(), name) {
                let i = choose|i: nat|
                    i < models.len() && name == #[trigger] slice_name_text(
                        driver_name@,
                        node_name@,
                        pool_name@,
                        i,
                    );
                assert(names@[i as int]@ == name);
                assert(views(names@)[i as int] == name);
            }
            if views(names@).contains(name) {
                let i = views(names@).index_of(name);
                assert(names@[i]@ == name);
                assert(name == slice_name_text(driver_name@, node_name@, pool_name@, i as nat));
            }
        }
    }
    let mut unchanged = known && total > 0;
    proof {
        assert(known == forall|name: Seq<char>| #[trigger]
            in_pool(slices, pool_name@, name) ==> is_slice_name(
                driver_name@,
                node_name@,
                pool_name@,
                models.len(),
                name,
            ));
    }
    let mut generation: i64 = 0;
    let mut i: usize = 0;
    while unchanged && i < total
        invariant
            i <= total,
            total == models.len(),
            total <= i64::MAX,
            count == total,
            names@.len() == total,
            models == chunk_views(chunks@),
            slices == map_views(existing@),
            forall|j: int|
                0 <= j < total ==> (#[trigger] names@[j])@ == slice_name_text(
                    driver_name@,
                    node_name@,
                    pool_name@,
                    j as nat,
                ),
            i > 0 ==> generation == slices[slice_name_text(
                driver_name@,
                node_name@,
                pool_name@,
                0,
            )].spec.pool.generation,
            unchanged ==> forall|j: int|
                0 <= j < i ==> #[trigger] slice_unchanged(
                    slices,
                    driver_name@,
                    node_name@,
                    pool_name@,
                    models,
                    j,
                ),
            unchanged ==> total > 0 && forall|name: Seq<char>| #[trigger]
                in_pool(slices, pool_name@, name) ==> is_slice_name(
                    driver_name@,
                    node_name@,
                    pool_name@,
                    models.len(),
                    name,
                ),
            !unchanged ==> !pool_unchanged(
                slices,
                driver_name@,
                node_name@,
                pool_name@,
                models,
            ),
        decreases total - i + (if unchanged { 1int } else { 0 }),
    {
        let ghost name = slice_name_text(driver_name@, node_name@, pool_name@, i as nat);
        let kept = match existing.get(&names[i]) {
            Some(slice) => {
                proof {
                    assert(slices.dom().contains(name));
                    assert(slices[name] == slice@);
                    assert(views(chunks@[i as int]@) == models[i as int]);
                }
                if i == 0 {
                    generation = slice.spec.pool.generation;
                }
                slice.spec.pool.name.same(pool_name) && slice_holds_devices(
                    slice,
                    count,
                    &chunks[i],
                ) && slice.spec.pool.generation == generation
            },
            None => false,
        };
        proof {
            assert(kept == slice_unchanged(
                slices,
                driver_name@,
                node_name@,
                pool_name@,
                models,
                i as int,
            ));
        }
        if kept {
            i += 1;
        } else {
            unchanged = false;
        }
    }
    if unchanged {
        return Ok(generation);
    }
    let current: i64 = match top {
        Some(generation) => {
            proof {
                let chosen = choose|g: int| is_top_generation(slices, pool_name@, g);
                assert(is_top_generation(slices, pool_name@, generation as int));
                assert(is_top_generation(slices, pool_name@, chosen));
                assert(chosen == generation);
            }
            generation
        },
        None => 0,
    };
    if current == i64::MAX {
        return Err(invalid_pool_error(pool_name.as_str(), "generation cannot be incremented"));
    }
    Ok(current + 1)
}

/// A slice's specification with its devices in canonical order.
pub open spec fn canonical_spec(spec_: SliceSpecModel) -> SliceSpecModel {
    SliceSpecModel {
        devices: match spec_.devices {
            Some(devices) => Some(canonical(devices)),
            None => None,
        },
        ..spec_
    }
}

/// A slice says what is desired, its devices in whatever order.
pub open spec fn slice_matches(current: SliceModel, desired: SliceModel) -> bool {
    canonical_spec(current.spec) == desired.spec && current.owner_references
        == desired.owner_references
}

/// Whether a slice says what is desired, its devices in whatever order.
pub fn resource_slice_matches(current: &ResourceSlice, desired: &ResourceSlice) -> (matches: bool)
    ensures
        matches == slice_matches(current@, desired@),
{
    let same_devices = match (&current.spec.devices, &desired.spec.devices) {
        (Some(held), Some(wanted)) => same_all(&canonicalize_devices(copy_all(held)), wanted),
        (None, None) => true,
        _ => false,
    };
    same_devices && current.spec.driver.same(&desired.spec.driver) && same_opt(
        &current.spec.node_name,
        &desired.spec.node_name,
    ) && current.spec.pool.name.same(&desired.spec.pool.name) && current.spec.pool.generation
        == desired.spec.pool.generation && current.spec.pool.resource_slice_count
        == desired.spec.pool.resource_slice_count && same_opt(
        &current.spec.other_fields,
        &desired.spec.other_fields,
    ) && same_opt_all(&current.owner_references, &desired.owner_references)
}

/// One call of the API server that a publication makes.
#[derive(Clone, Debug, PartialEq, Eq)]
pub enum SliceAction {
    Create(ResourceSlice),
    /// Owners and specification of the slice of this name are replaced; its
    /// other metadata stay.
    Replace(ResourceSlice),
    Delete(String),
}

/// What a [`SliceAction`] says.
pub enum ActionModel {
    Create(SliceModel),
    Replace(SliceModel),
    Delete(Seq<char>),
}

impl View for SliceAction {
    type V = ActionModel;

    open spec fn view(&self) -> ActionModel {
        match *self {
            SliceAction::Create(slice) => ActionModel::Create(slice@),
            SliceAction::Replace(slice) => ActionModel::Replace(slice@),
            SliceAction::Delete(name) => ActionModel::Delete(name@),
        }
    }
}

/// Who publishes: a driver on a node, and the owner of its slices.
pub struct PublisherModel {
    pub driver_name: Seq<char>,
    pub node_name: Seq<char>,
    pub owner: OwnerModel,
}

/// The slice of a pool at an index, as it is to be.
pub open spec fn desired_slice(
    by: PublisherModel,
    pool_name: Seq<char>,
    generation: i64,
    chunks: Seq<Seq<WireDeviceModel>>,
    index: int,
) -> SliceModel {
    SliceModel {
        name: Some(slice_name_text(by.driver_name, by.node_name, pool_name, index as nat)),
        owner_references: Some(seq![by.owner]),
        spec: SliceSpecModel {
            driver: by.driver_name,
            node_name: Some(by.node_name),
            pool: WirePoolModel {
                name: pool_name,
                generation,
                resource_slice_count: chunks.len() as i64,
            },
            devices: Some(chunks[index]),
            other_fields: None,
        },
    }
}

/// A plan under way: the slices that no pool has claimed yet, and the calls so
/// far.
pub struct PlanModel {
    pub unclaimed: Map<Seq<char>, SliceModel>,
    pub actions: Seq<ActionModel>,
}

/// A slice is claimed by its name; it is created where there is none, replaced
/// where it says something else, and left alone where it matches.
pub open spec fn place_slice(plan: PlanModel, name: Seq<char>, desired: SliceModel) -> PlanModel {
    PlanModel {
        unclaimed: plan.unclaimed.remove(name),
        actions: if !plan.unclaimed.dom().contains(name) {
            plan.actions.push(ActionModel::Create(desired))
        } else if slice_matches(plan.unclaimed[name], desired) {
            plan.actions
        } else {
            plan.actions.push(ActionModel::Replace(desired))
        },
    }
}

/// The first `n` slices of a pool are placed, in order.
pub open spec fn place_slices(
    by: PublisherModel,
    plan: PlanModel,
    pool_name: Seq<char>,
    generation: i64,
    chunks: Seq<Seq<WireDeviceModel>>,
    n: nat,
) -> PlanModel
    decreases n,
{
    if n == 0 {
        plan
    } else {
        let i = (n - 1) as nat;
        place_slice(
            place_slices(by, plan, pool_name, generation, chunks, i),
            slice_name_text(by.driver_name, by.node_name, pool_name, i),
            desired_slice(by, pool_name, generation, chunks, i as int),
        )
    }
}

/// The wire forms of devices.
pub open spec fn wire_devices(devices: Seq<PoolDeviceModel>) -> Seq<WireDeviceModel> {
    Seq::new(devices.len(), |i: int| wire_device(devices[i]))
}

/// The devices of a pool, slice by slice.
pub open spec fn pool_chunks(devices: Seq<PoolDeviceModel>) -> Seq<Seq<WireDeviceModel>> {
    chunks_of(canonical(wire_devices(devices)))
}

/// A pool is planned: refused where two devices have the same name or no
/// generation is left, skipped without devices, and placed otherwise.
pub open spec fn plan_pool(
    by: PublisherModel,
    plan: PlanModel,
    pool_name: Seq<char>,
    devices: Seq<PoolDeviceModel>,
) -> (PlanModel, Option<ApiStatusModel>) {
    let chunks = pool_chunks(devices);
    if !names(wire_devices(devices)).no_duplicates() {
        (plan, Some(invalid_pool(pool_name, "contains duplicate device names"@)))
    } else if chunks.len() == 0 {
        (plan, None)
    } else {
        match next_generation(
            plan.unclaimed,
            by.driver_name,
            by.node_name,
            pool_name,
            chunks,
        ) {
            Err(error) => (plan, Some(error)),
            Ok(generation) => (
                place_slices(by, plan, pool_name, generation, chunks, chunks.len()),
                None,
            ),
        }
    }
}

/// Pools are planned in the order of their names, up to the first refusal.
pub open spec fn plan_pools(
    by: PublisherModel,
    plan: PlanModel,
    pools: Map<Seq<char>, Seq<PoolDeviceModel>>,
    pool_names: Seq<Seq<char>>,
) -> (PlanModel, Option<ApiStatusModel>)
    decreases pool_names.len(),
{
    if pool_names.len() == 0 {
        (plan, None)
    } else {
        let (planned, failure) = plan_pools(by, plan, pools, pool_names.drop_last());
        if failure is Some {
            (planned, failure)
        } else {
            plan_pool(by, planned, pool_names.last(), pools[pool_names.last()])
        }
    }
}

/// Slices of this driver on this node, by name; a later one of the same name
/// takes the place of an earlier one. What belongs to another driver or node,
/// or has no name, is left out.
pub open spec fn own_slices(
    listed: Seq<SliceModel>,
    driver_name: Seq<char>,
    node_name: Seq<char>,
) -> Map<Seq<char>, SliceModel>
    decreases listed.len(),
{
    if listed.len() == 0 {
        Map::empty()
    } else {
        let earlier = own_slices(listed.drop_last(), driver_name, node_name);
        let slice = listed.last();
        match slice.name {
            Some(name) if slice.spec.driver == driver_name && slice.spec.node_name == Some(
                node_name,
            ) => earlier.insert(name, slice),
            _ => earlier,
        }
    }
}

/// The calls that delete slices, in the order of their names.
pub open spec fn deletions(slices: Set<Seq<char>>) -> Seq<ActionModel> {
    let ordered = in_order::<String>(slices);
    Seq::new(ordered.len(), |i: int| ActionModel::Delete(ordered[i]))
}

/// The calls of one publication, and the refusal that ends it. Slices that no
/// pool claims are deleted last, and only where no pool was refused.
pub open spec fn publication(
    by: PublisherModel,
    existing: Map<Seq<char>, SliceModel>,
    pools: Map<Seq<char>, Seq<PoolDeviceModel>>,
) -> (Seq<ActionModel>, Option<ApiStatusModel>) {
    let start = PlanModel { unclaimed: existing, actions: Seq::empty() };
    let (plan, failure) = plan_pools(by, start, pools, in_order::<String>(pools.dom()));
    if failure is Some {
        (plan.actions, failure)
    } else {
        (plan.actions + deletions(plan.unclaimed.dom()), None)
    }
}

/// The views of lists of devices, by pool.
pub open spec fn pool_views(pools: Map<Seq<char>, Vec<PoolDevice>>) -> Map<
    Seq<char>,
    Seq<PoolDeviceModel>,
> {
    pools.map_values(|devices: Vec<PoolDevice>| views(devices@))
}

/// What one publication does: the calls in their order, and the refusal that
/// ends it after them.
#[derive(Clone, Debug, PartialEq, Eq)]
pub struct PublicationPlan {
    pub actions: Vec<SliceAction>,
    pub failure: Option<ApiStatus>,
}

/// Reconciles the complete snapshot of what a driver offers on a node with the
/// slices that the API server holds.
///
/// The publisher owns all slices of its driver on its node. One publication
/// takes one full snapshot, publishes every desired slice before it deletes the
/// others, and keeps generation and count coherent over the slices of a pool.
#[derive(Clone, Debug)]
pub struct ResourceSlicePublisher {
    driver_name: String,
    node_name: String,
    poll_interval: Duration,
    retry_base_delay: Duration,
    retry_max_delay: Duration,
}

impl ResourceSlicePublisher {
    /// The driver that publishes.
    pub closed spec fn driver(self) -> Seq<char> {
        self.driver_name@
    }

    /// The node that the driver runs on.
    pub closed spec fn node(self) -> Seq<char> {
        self.node_name@
    }

    /// The publisher with the owner of its slices.
    pub open spec fn owned_by(self, owner: OwnerModel) -> PublisherModel {
        PublisherModel { driver_name: self.driver(), node_name: self.node(), owner }
    }
}

fn wire_all(devices: &Vec<PoolDevice>) -> (wire: Vec<WireDevice>)
    ensures
        views(wire@) == wire_devices(views(devices@)),
{
    let mut wire: Vec<WireDevice> = Vec::new();
    let mut i: usize = 0;
    while i < devices.len()
        invariant
            i <= devices@.len(),
            wire@.len() == i,
            forall|j: int| 0 <= j < i ==> (#[trigger] wire@[j])@ == wire_device(devices@[j]@),
        decreases devices@.len() - i,
    {
        wire.push(pool_device_to_wire(&devices[i]));
        i += 1;
    }
    proof {
        assert(views(wire@) =~= wire_devices(views(devices@)));
    }
    wire
}

impl ResourceSlicePublisher {
    /// Plans one pool: claims its slices and adds the calls that they take.
    pub fn reconcile_pool(
        &self,
        owner: &OwnerReference,
        existing: &mut OrderedMap<String, ResourceSlice>,
        pool_name: &String,
        devices: &Vec<PoolDevice>,
        actions: &mut Vec<SliceAction>,
    ) -> (result: Result<(), ApiStatus>)
        ensures
            ({
                let before = PlanModel {
                    unclaimed: map_views(old(existing)@),
                    actions: views(old(actions)@),
                };
                let after = PlanModel {
                    unclaimed: map_views(final(existing)@),
                    actions: views(final(actions)@),
                };
                let failure = match result {
                    Ok(()) => None,
                    Err(error) => Some(error@),
                };
                (after, failure) == plan_pool(
                    self.owned_by(owner@),
                    before,
                    pool_name@,
                    views(devices@),
                )
            }),
    {
        let ghost by = self.owned_by(owner@);
        let ghost before = PlanModel {
            unclaimed: map_views(existing@),
            actions: views(actions@),
        };
        let wire = wire_all(devices);
        let ghost wire_models = views(wire@);
        let sorted = canonicalize_devices(wire);
        proof {
            lemma_canonical_names(wire_models);
        }
        if !all_distinct(&sorted) {
            return Err(invalid_pool_error(pool_name.as_str(), "contains duplicate device names"));
        }
        let chunks = split_devices(sorted);
        let ghost models = chunk_views(chunks@);
        let total: usize = chunks.len();
        if total == 0 {
            return Ok(());
        }
        let generation: i64 = match pool_generation(
            existing,
            self.driver_name.as_str(),
            self.node_name.as_str(),
            pool_name,
            &chunks,
        ) {
            Ok(generation) => generation,
            Err(error) => {
                return Err(error);
            },
        };
        let slice_count: i64 = total as i64;
        let mut index: usize = 0;
        for devices in it: chunks
            invariant
                chunk_views(it.seq()) == models,
                it.seq().len() == total,
                total == models.len(),
                index == it.index(),
                slice_count == total as i64,
                by == self.owned_by(owner@),
                (PlanModel { unclaimed: map_views(existing@), actions: views(actions@) })
                    == place_slices(
                    by,
                    before,
                    pool_name@,
                    generation,
                    models,
                    it.index() as nat,
                ),
        {
            let ghost i = it.index();
            let ghost unclaimed = map_views(existing@);
            let ghost made = views(actions@);
            proof {
                assert(models[i] == views(devices@));
            }
            let name = slice_name(
                self.driver_name.as_str(),
                self.node_name.as_str(),
                pool_name.as_str(),
                index,
            );
            let mut owners: Vec<OwnerReference> = Vec::new();
            owners.push(owner.copy());
            let desired = ResourceSlice {
                name: Some(name.clone()),
                owner_references: Some(owners),
                spec: ResourceSliceSpec {
                    driver: self.driver_name.clone(),
                    node_name: Some(self.node_name.clone()),
                    pool: WireResourcePool {
                        name: pool_name.clone(),
                        generation,
                        resource_slice_count: slice_count,
                    },
                    devices: Some(devices),
                    other_fields: None,
                },
            };
            let ghost wanted = desired@;
            proof {
                assert(views(owners@) =~= seq![owner@]);
                assert(wanted == desired_slice(by, pool_name@, generation, models, i));
                assert(unclaimed.dom().contains(name@) ==> unclaimed[name@] == existing@[name@]@);
            }
            match existing.remove(&name) {
                Some(current) => {
                    if !resource_slice_matches(&current, &desired) {
                        actions.push(SliceAction::Replace(desired));
                        proof {
                            assert(views(actions@) =~= made.push(ActionModel::Replace(wanted)));
                        }
                    }
                },
                None => {
                    actions.push(SliceAction::Create(desired));
                    proof {
                        assert(views(actions@) =~= made.push(ActionModel::Create(wanted)));
                    }
                },
            }
            proof {
                assert(map_views(existing@) =~= unclaimed.remove(name@));
            }
            index += 1;
        }
        Ok(())
    }
}

/// How often the slices are reconciled unless another interval is chosen.
pub const DEFAULT_POLL_SECONDS: u64 = 30;

/// The delay after the first failure unless another is chosen.
pub const DEFAULT_RETRY_BASE_SECONDS: u64 = 1;

/// The longest delay after failures unless another is chosen.
pub const DEFAULT_RETRY_MAX_SECONDS: u64 = 30;

/// The delay after failures in a row: the base delay, doubled with each further
/// failure up to 31 times, and never above the longest delay.
pub open spec fn backoff(base: nat, max: nat, failed_attempts: nat) -> nat {
    let doublings = if failed_attempts == 0 {
        0
    } else if failed_attempts > 32 {
        31
    } else {
        (failed_attempts - 1) as nat
    };
    let delay = base * pow2(doublings);
    if delay <= max {
        delay
    } else {
        max
    }
}

/// The delay after so many failures in a row.
pub fn retry_delay(base: Duration, max: Duration, failed_attempts: u32) -> (delay: Duration)
    ensures
        delay@ == backoff(base@, max@, failed_attempts as nat),
{
    let shift: u32 = if failed_attempts == 0 {
        0
    } else if failed_attempts > 32 {
        31
    } else {
        failed_attempts - 1
    };
    let mut multiplier: u32 = 1;
    let mut i: u32 = 0;
    proof {
        lemma2_to64();
    }
    while i < shift
        invariant
            i <= shift,
            shift <= 31,
            multiplier == pow2(i as nat),
        decreases shift - i,
    {
        proof {
            lemma_pow2_unfold((i + 1) as nat);
            lemma2_to64();
            if i < 30 {
                lemma_pow2_strictly_increases(i as nat, 30);
            }
        }
        multiplier = multiplier * 2;
        i += 1;
    }
    base.saturating_mul(multiplier).min(max)
}

/// A list of own slices, with one more listed.
proof fn lemma_own_slices_step(
    listed: Seq<SliceModel>,
    driver_name: Seq<char>,
    node_name: Seq<char>,
    n: int,
)
    requires
        0 <= n < listed.len(),
    ensures
        listed.take(n + 1).drop_last() == listed.take(n),
        listed.take(n + 1).last() == listed[n],
{
    assert(listed.take(n + 1).drop_last() =~= listed.take(n));
}

impl ResourceSlicePublisher {
    /// The interval between successful reconciliations.
    pub closed spec fn interval(self) -> nat {
        self.poll_interval@
    }

    /// The delay after the first failure.
    pub closed spec fn base_delay(self) -> nat {
        self.retry_base_delay@
    }

    /// The longest delay after failures.
    pub closed spec fn max_delay(self) -> nat {
        self.retry_max_delay@
    }

    /// A publisher for a driver on a node.
    pub fn new(driver_name: &str, node_name: &str) -> (publisher: ResourceSlicePublisher)
        ensures
            publisher.driver() == driver_name@,
            publisher.node() == node_name@,
            publisher.interval() == 30_000_000_000,
            publisher.base_delay() == 1_000_000_000,
            publisher.max_delay() == 30_000_000_000,
    {
        ResourceSlicePublisher {
            driver_name: driver_name.to_owned(),
            node_name: node_name.to_owned(),
            poll_interval: Duration::from_secs(DEFAULT_POLL_SECONDS),
            retry_base_delay: Duration::from_secs(DEFAULT_RETRY_BASE_SECONDS),
            retry_max_delay: Duration::from_secs(DEFAULT_RETRY_MAX_SECONDS),
        }
    }

    /// Changes the interval between successful reconciliations.
    #[must_use]
    pub fn with_poll_interval(self, poll_interval: Duration) -> (publisher: ResourceSlicePublisher)
        ensures
            publisher.driver() == self.driver(),
            publisher.node() == self.node(),
            publisher.interval() == poll_interval@,
            publisher.base_delay() == self.base_delay(),
            publisher.max_delay() == self.max_delay(),
    {
        ResourceSlicePublisher { poll_interval, ..self }
    }

    /// Changes the delays after failures. The longest delay is at least the
    /// first one.
    #[must_use]
    pub fn with_retry_backoff(self, base_delay: Duration, max_delay: Duration) -> (publisher:
        ResourceSlicePublisher)
        ensures
            publisher.driver() == self.driver(),
            publisher.node() == self.node(),
            publisher.interval() == self.interval(),
            publisher.base_delay() == base_delay@,
            publisher.max_delay() == if max_delay@ >= base_delay@ {
                max_delay@
            } else {
                base_delay@
            },
    {
        ResourceSlicePublisher {
            retry_base_delay: base_delay,
            retry_max_delay: max_delay.max(base_delay),
            ..self
        }
    }

    /// The node as the owner of the slices; a node without a UID is refused.
    pub fn owner_reference(&self, node_uid: Option<String>) -> (owner: Result<
        OwnerReference,
        ApiStatus,
    >)
        ensures
            match (node_uid, owner) {
                (Some(uid), Ok(owner)) => owner@ == (OwnerModel {
                    api_version: "v1"@,
                    kind: "Node"@,
                    name: self.node(),
                    uid: uid@,
                    controller: Some(true),
                    block_owner_deletion: Some(false),
                }),
                (None, Err(error)) => error@ == invalid("node object is missing a UID"@),
                _ => false,
            },
    {
        match node_uid {
            Some(uid) => Ok(
                OwnerReference {
                    api_version: "v1".to_owned(),
                    kind: "Node".to_owned(),
                    name: self.node_name.clone(),
                    uid,
                    controller: Some(true),
                    block_owner_deletion: Some(false),
                },
            ),
            None => Err(
                ApiStatus {
                    code: UNPROCESSABLE,
                    reason: "Invalid".to_owned(),
                    message: "node object is missing a UID".to_owned(),
                },
            ),
        }
    }

    /// The field selector that asks the API server for this driver's slices on
    /// this node.
    pub fn field_selector(&self) -> (selector: String)
        ensures
            selector@ == "spec.driver="@ + self.driver() + ",spec.nodeName="@ + self.node(),
    {
        let mut selector = "spec.driver=".to_owned();
        selector.append(self.driver_name.as_str());
        selector.append(",spec.nodeName=");
        selector.append(self.node_name.as_str());
        selector
    }

    /// The listed slices that belong to this driver on this node, by name. A
    /// list that ignored the selector must not lead to deletions elsewhere.
    fn claim_listed(&self, listed: Vec<ResourceSlice>) -> (existing: OrderedMap<
        String,
        ResourceSlice,
    >)
        ensures
            map_views(existing@) == own_slices(views(listed@), self.driver(), self.node()),
    {
        let ghost given = listed@;
        let ghost models = views(given);
        let mut existing: OrderedMap<String, ResourceSlice> = OrderedMap::new();
        proof {
            assert(models.take(0) =~= Seq::empty());
            assert(map_views(existing@) =~= Map::empty());
        }
        for slice in it: listed
            invariant
                it.seq() == given,
                models == views(given),
                map_views(existing@) == own_slices(
                    models.take(it.index()),
                    self.driver(),
                    self.node(),
                ),
        {
            let ghost earlier = map_views(existing@);
            let ghost model = slice@;
            proof {
                lemma_own_slices_step(models, self.driver(), self.node(), it.index());
            }
            let on_node = match &slice.spec.node_name {
                Some(node_name) => node_name.same(&self.node_name),
                None => false,
            };
            if on_node && slice.spec.driver.same(&self.driver_name) {
                let name = match &slice.name {
                    Some(name) => Some(name.clone()),
                    None => None,
                };
                if let Some(name) = name {
                    let ghost key = name@;
                    existing.insert(name, slice);
                    proof {
                        assert(map_views(existing@) =~= earlier.insert(key, model));
                    }
                }
            }
        }
        proof {
            assert(models.take(models.len() as int) =~= models);
        }
        existing
    }

    /// Reconciles the complete snapshot once: what the driver offers, by pool,
    /// with the slices that were listed.
    ///
    /// A pool that is absent or has no devices has no desired slices, so its
    /// slices are deleted.
    pub fn publish_once(
        &self,
        owner: &OwnerReference,
        listed: Vec<ResourceSlice>,
        pools: &OrderedMap<String, Vec<PoolDevice>>,
    ) -> (plan: PublicationPlan)
        ensures
            (views(plan.actions@), opt_view(plan.failure)) == publication(
                self.owned_by(owner@),
                own_slices(views(listed@), self.driver(), self.node()),
                pool_views(pools@),
            ),
    {
        let ghost by = self.owned_by(owner@);
        let ghost offered = pool_views(pools@);
        let mut existing = self.claim_listed(listed);
        let ghost start = PlanModel {
            unclaimed: map_views(existing@),
            actions: Seq::empty(),
        };
        let mut actions: Vec<SliceAction> = Vec::new();
        let n: usize = pools.len();
        let ghost pool_names = pools.order();
        proof {
            assert(offered.dom() =~= pools@.dom());
            assert(pool_names.take(0) =~= Seq::empty());
            assert(views(actions@) =~= Seq::empty());
        }
        let mut i: usize = 0;
        while i < n
            invariant
                i <= n,
                n == pool_names.len(),
                pool_names == pools.order(),
                pool_names == in_order::<String>(offered.dom()),
                offered == pool_views(pools@),
                offered.dom() == pools@.dom(),
                by == self.owned_by(owner@),
                start == (PlanModel { unclaimed: start.unclaimed, actions: Seq::empty() }),
                start.unclaimed == own_slices(views(listed@), self.driver(), self.node()),
                plan_pools(by, start, offered, pool_names.take(i as int)) == (
                    PlanModel { unclaimed: map_views(existing@), actions: views(actions@) },
                    None::<ApiStatusModel>,
                ),
            decreases n - i,
        {
            let pool_name = pools.key_at(i);
            let devices = pools.value_at(i);
            proof {
                assert(pool_names.take(i + 1).drop_last() =~= pool_names.take(i as int));
                assert(offered[pool_names[i as int]] == views(devices@));
            }
            match self.reconcile_pool(owner, &mut existing, pool_name, devices, &mut actions) {
                Ok(()) => {},
                Err(error) => {
                    proof {
                        lemma_plan_stops(by, start, offered, pool_names, i + 1);
                    }
                    return PublicationPlan { actions, failure: Some(error) };
                },
            }
            i += 1;
        }
        proof {
            assert(pool_names.take(n as int) =~= pool_names);
        }
        let left: usize = existing.len();
        let ghost made = views(actions@);
        let ghost ordered = existing.order();
        proof {
            assert(map_views(existing@).dom() =~= existing@.dom());
            assert(views(actions@) =~= made + deletions(existing@.dom()).take(0));
        }
        let mut j: usize = 0;
        while j < left
            invariant
                j <= left,
                left == ordered.len(),
                ordered == existing.order(),
                ordered == in_order::<String>(existing@.dom()),
                views(actions@) == made + deletions(existing@.dom()).take(j as int),
            decreases left - j,
        {
            let ghost earlier = views(actions@);
            actions.push(SliceAction::Delete(existing.key_at(j).clone()));
            proof {
                let all = deletions(existing@.dom());
                assert(all[j as int] == ActionModel::Delete(ordered[j as int]));
                assert(views(actions@) =~= earlier.push(ActionModel::Delete(ordered[j as int])));
                assert(all.take(j + 1) =~= all.take(j as int).push(all[j as int]));
                assert(made + all.take(j + 1) =~= (made + all.take(j as int)).push(all[j as int]));
            }
            j += 1;
        }
        proof {
            let all = deletions(existing@.dom());
            assert(all.take(left as int) =~= all);
        }
        PublicationPlan { actions, failure: None }
    }

    /// What follows an attempt to reconcile: how many have failed in a row, and
    /// how long to wait. A success resets the count.
    pub fn after_attempt(&self, failed_attempts: u32, succeeded: bool) -> (next: (u32, Duration))
        ensures
            next.0 == if succeeded {
                0
            } else if failed_attempts == u32::MAX {
                u32::MAX
            } else {
                (failed_attempts + 1) as u32
            },
            next.1@ == if succeeded {
                self.interval()
            } else {
                backoff(self.base_delay(), self.max_delay(), next.0 as nat)
            },
    {
        if succeeded {
            (0, self.poll_interval)
        } else {
            let failed: u32 = failed_attempts.saturating_add(1);
            (failed, retry_delay(self.retry_base_delay, self.retry_max_delay, failed))
        }
    }
}

/// A refusal among the first pools is the refusal of the publication.
proof fn lemma_plan_stops(
    by: PublisherModel,
    plan: PlanModel,
    pools: Map<Seq<char>, Seq<PoolDeviceModel>>,
    pool_names: Seq<Seq<char>>,
    n: int,
)
    requires
        0 <= n <= pool_names.len(),
        plan_pools(by, plan, pools, pool_names.take(n)).1 is Some,
    ensures
        plan_pools(by, plan, pools, pool_names) == plan_pools(by, plan, pools, pool_names.take(n)),
    decreases pool_names.len() - n,
{
    if n == pool_names.len() {
        assert(pool_names.take(n) =~= pool_names);
    } else {
        assert(pool_names.take(n + 1).drop_last() =~= pool_names.take(n));
        lemma_plan_stops(by, plan, pools, pool_names, n + 1);
    }
}

} // verus!
