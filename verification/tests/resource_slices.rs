use k8s_device_plugin::dra::{AttributeValue, PoolDevice, Quantity};
use k8s_device_plugin::duration::Duration;
use k8s_device_plugin::ordered_map::OrderedMap;
use k8s_device_plugin::resource_slice::{
    canonicalize_devices, pool_device_to_wire, resource_slice_matches, retry_delay, slice_name,
    PublicationPlan, ResourceSlicePublisher, SliceAction,
};
use k8s_device_plugin::slice_api::{
    OwnerReference, ResourceSlice, ResourceSliceSpec, WireDevice, WireResourcePool,
};

fn one_pool(pool_name: &str, devices: Vec<PoolDevice>) -> OrderedMap<String, Vec<PoolDevice>> {
    let mut pools = OrderedMap::new();
    pools.insert(pool_name.to_string(), devices);
    pools
}

fn publisher() -> ResourceSlicePublisher {
    ResourceSlicePublisher::new("example.com", "node-0")
}

fn owner() -> OwnerReference {
    publisher()
        .owner_reference(Some("node-uid-0".to_string()))
        .expect("the node has a UID")
}

fn device(name: &str) -> WireDevice {
    WireDevice {
        name: name.to_string(),
        attributes: None,
        capacity: None,
        other_fields: None,
    }
}

fn owned_slice(
    name: &str,
    generation: i64,
    pool_name: &str,
    slice_count: i64,
    devices: Vec<WireDevice>,
) -> ResourceSlice {
    ResourceSlice {
        name: Some(name.to_string()),
        owner_references: Some(vec![owner()]),
        spec: ResourceSliceSpec {
            driver: "example.com".to_string(),
            node_name: Some("node-0".to_string()),
            pool: WireResourcePool {
                name: pool_name.to_string(),
                generation,
                resource_slice_count: slice_count,
            },
            devices: Some(devices),
            other_fields: None,
        },
    }
}

fn widgets(count: usize) -> Vec<PoolDevice> {
    (0..count)
        .map(|index| PoolDevice::new(&format!("widget-{index:03}")))
        .collect()
}

fn publish(
    pools: &OrderedMap<String, Vec<PoolDevice>>,
    listed: Vec<ResourceSlice>,
) -> PublicationPlan {
    publisher().publish_once(&owner(), listed, pools)
}

#[test]
fn publish_once_creates_slice_when_absent() {
    let plan = publish(
        &one_pool("pool-0", vec![PoolDevice::new("widget-0")]),
        vec![],
    );
    assert_eq!(plan.failure, None);
    assert_eq!(plan.actions.len(), 1);
    let slice = match &plan.actions[0] {
        SliceAction::Create(slice) => slice,
        other => panic!("unexpected {other:?}"),
    };
    assert_eq!(slice.spec.driver, "example.com");
    assert_eq!(slice.spec.node_name, Some("node-0".to_string()));
    assert_eq!(slice.spec.pool.name, "pool-0");
    assert_eq!(slice.spec.pool.generation, 1);
    assert_eq!(slice.spec.pool.resource_slice_count, 1);
    assert_eq!(slice.spec.devices.as_ref().unwrap()[0].name, "widget-0");
    assert_eq!(
        slice.owner_references.as_ref().unwrap()[0].uid,
        "node-uid-0"
    );
    assert_eq!(slice.name, Some("example.com-node-0-pool-0".to_string()));
    assert_eq!(
        publisher().field_selector(),
        "spec.driver=example.com,spec.nodeName=node-0"
    );
}

#[test]
fn publish_once_is_a_noop_when_existing_pool_is_complete() {
    let plan = publish(
        &one_pool("pool-0", vec![PoolDevice::new("widget-0")]),
        vec![owned_slice(
            "example.com-node-0-pool-0",
            4,
            "pool-0",
            1,
            vec![device("widget-0")],
        )],
    );
    assert!(
        plan.actions.is_empty(),
        "complete desired state must not be rewritten"
    );
    assert_eq!(plan.failure, None);
}

#[test]
fn publish_once_is_a_noop_when_existing_devices_are_reordered() {
    let plan = publish(
        &one_pool(
            "pool-0",
            vec![PoolDevice::new("widget-0"), PoolDevice::new("widget-1")],
        ),
        vec![owned_slice(
            "example.com-node-0-pool-0",
            4,
            "pool-0",
            1,
            vec![device("widget-1"), device("widget-0")],
        )],
    );
    assert!(
        plan.actions.is_empty(),
        "device ordering alone must not advance the generation"
    );
}

#[test]
fn publish_once_updates_changed_pool_with_next_generation() {
    let plan = publish(
        &one_pool("pool-0", vec![PoolDevice::new("widget-1")]),
        vec![owned_slice(
            "example.com-node-0-pool-0",
            4,
            "pool-0",
            1,
            vec![device("widget-0")],
        )],
    );
    assert_eq!(plan.actions.len(), 1);
    let slice = match &plan.actions[0] {
        SliceAction::Replace(slice) => slice,
        other => panic!("unexpected {other:?}"),
    };
    assert_eq!(slice.spec.pool.generation, 5);
    assert_eq!(slice.spec.devices.as_ref().unwrap()[0].name, "widget-1");
}

#[test]
fn publish_once_splits_large_pool_with_one_generation_and_count() {
    let plan = publish(&one_pool("pool-0", widgets(129)), vec![]);
    assert_eq!(plan.actions.len(), 2);
    for (action, expected_devices) in plan.actions.iter().zip([128, 1]) {
        let slice = match action {
            SliceAction::Create(slice) => slice,
            other => panic!("unexpected {other:?}"),
        };
        assert_eq!(slice.spec.pool.generation, 1);
        assert_eq!(slice.spec.pool.resource_slice_count, 2);
        assert_eq!(
            slice.spec.devices.as_ref().map(Vec::len),
            Some(expected_devices)
        );
    }
    assert_eq!(
        slice_name("example.com", "node-0", "pool-0", 1),
        "example.com-node-0-pool-0-1"
    );
}

#[test]
fn publish_once_completes_new_generation_before_deleting_stale_slices() {
    let plan = publish(
        &one_pool("pool-0", vec![PoolDevice::new("widget-0")]),
        vec![
            owned_slice(
                "example.com-node-0-pool-0",
                4,
                "pool-0",
                1,
                vec![device("widget-old")],
            ),
            owned_slice(
                "example.com-node-0-removed-pool",
                3,
                "removed-pool",
                1,
                vec![device("widget-old")],
            ),
        ],
    );
    assert_eq!(plan.actions.len(), 2);
    assert!(matches!(
        &plan.actions[0],
        SliceAction::Replace(slice) if slice.spec.pool.generation == 5
    ));
    assert_eq!(
        plan.actions[1],
        SliceAction::Delete("example.com-node-0-removed-pool".to_string())
    );
}

#[test]
fn publish_once_rejects_duplicate_devices_before_mutation() {
    let plan = publish(
        &one_pool(
            "pool-0",
            vec![PoolDevice::new("widget-0"), PoolDevice::new("widget-0")],
        ),
        vec![],
    );
    assert!(
        plan.actions.is_empty(),
        "invalid input must not mutate slices"
    );
    let error = plan.failure.expect("duplicate device names must fail");
    assert!(error.to_string().contains("duplicate device names"));
    assert_eq!(
        error.to_string(),
        "ResourcePool pool-0 contains duplicate device names: Invalid"
    );
    assert_eq!(error.code, 422);
}

#[test]
fn publishing_twice_settles() {
    let mut pools = one_pool("b", widgets(200));
    pools.insert(
        "a".to_string(),
        vec![PoolDevice::new("z").capacity("memory", Quantity(-5)), PoolDevice::new("y")],
    );
    pools.insert("empty".to_string(), vec![]);
    let stale = owned_slice("example.com-node-0-gone", 9, "gone", 1, vec![]);
    let first = publish(&pools, vec![stale]);
    assert_eq!(first.failure, None);
    assert_eq!(first.actions.len(), 4);
    let held = first
        .actions
        .iter()
        .filter_map(|action| match action {
            SliceAction::Create(slice) | SliceAction::Replace(slice) => Some(slice.clone()),
            SliceAction::Delete(_) => None,
        })
        .collect::<Vec<_>>();
    let second = publish(&pools, held.clone());
    assert!(second.actions.is_empty());
    assert_eq!(second.failure, None);

    let reversed = held
        .into_iter()
        .map(|mut slice| {
            slice.spec.devices.as_mut().unwrap().reverse();
            slice
        })
        .collect();
    let third = publish(&pools, reversed);
    assert!(third.actions.is_empty());
    assert_eq!(third.failure, None);
}

#[test]
fn slices_of_others_are_left_alone() {
    let mut other_node = owned_slice("x", 1, "p", 1, vec![]);
    other_node.spec.node_name = Some("node-1".to_string());
    let mut other_driver = owned_slice("y", 1, "p", 1, vec![]);
    other_driver.spec.driver = "other.example.com".to_string();
    let mut no_node = owned_slice("z", 1, "p", 1, vec![]);
    no_node.spec.node_name = None;
    let plan = publish(&OrderedMap::new(), vec![other_node, other_driver, no_node]);
    assert!(plan.actions.is_empty());
}

#[test]
fn a_generation_that_cannot_grow_is_refused() {
    let plan = publish(
        &one_pool("pool-0", vec![PoolDevice::new("widget-1")]),
        vec![owned_slice(
            "example.com-node-0-pool-0",
            i64::MAX,
            "pool-0",
            1,
            vec![device("widget-0")],
        )],
    );
    assert!(plan.actions.is_empty());
    assert_eq!(
        plan.failure.unwrap().message,
        "ResourcePool pool-0 generation cannot be incremented"
    );
}

#[test]
fn fields_of_others_in_a_slice_are_a_change() {
    let mut held = owned_slice(
        "example.com-node-0-pool-0",
        4,
        "pool-0",
        1,
        vec![device("widget-0")],
    );
    held.spec.other_fields = Some("{\"allNodes\":true}".to_string());
    let plan = publish(
        &one_pool("pool-0", vec![PoolDevice::new("widget-0")]),
        vec![held],
    );
    assert!(matches!(
        &plan.actions[..],
        [SliceAction::Replace(slice)] if slice.spec.pool.generation == 4
    ));
}

#[test]
fn a_node_without_a_uid_cannot_own_slices() {
    let error = publisher().owner_reference(None).unwrap_err();
    assert_eq!(error.message, "node object is missing a UID");
    assert_eq!(error.code, 422);
    let owner = owner();
    assert_eq!(owner.api_version, "v1");
    assert_eq!(owner.kind, "Node");
    assert_eq!(owner.name, "node-0");
    assert_eq!(owner.controller, Some(true));
    assert_eq!(owner.block_owner_deletion, Some(false));
}

#[test]
fn devices_are_written_without_empty_maps() {
    let wire = pool_device_to_wire(&PoolDevice::new("widget-0"));
    assert_eq!(wire, device("widget-0"));
    let wire = pool_device_to_wire(
        &PoolDevice::new("widget-0")
            .attribute("model", AttributeValue::String("x1".to_string()))
            .attribute("count", AttributeValue::Int(3))
            .attribute("fast", AttributeValue::Bool(true))
            .attribute("driver", AttributeValue::Version("1.2.3".to_string()))
            .capacity("memory", Quantity(-1024)),
    );
    let attributes = wire.attributes.expect("attributes");
    assert_eq!(attributes.len(), 4);
    assert_eq!(
        attributes.get(&"model".to_string()).unwrap().string,
        Some("x1".to_string())
    );
    assert_eq!(attributes.get(&"count".to_string()).unwrap().int, Some(3));
    assert_eq!(attributes.get(&"fast".to_string()).unwrap().bool, Some(true));
    assert_eq!(
        attributes.get(&"driver".to_string()).unwrap().version,
        Some("1.2.3".to_string())
    );
    let capacity = wire.capacity.expect("capacity");
    assert_eq!(capacity.get(&"memory".to_string()).unwrap().value, "-1024");
}

#[test]
fn canonical_order_is_stable() {
    let mut first = device("b");
    first.other_fields = Some("1".to_string());
    let mut second = device("b");
    second.other_fields = Some("2".to_string());
    assert_eq!(
        canonicalize_devices(vec![first.clone(), second.clone(), device("a")]),
        vec![device("a"), first, second]
    );
}

#[test]
fn owners_matter_to_the_comparison() {
    let desired = owned_slice("x", 1, "p", 1, vec![device("a")]);
    let mut current = desired.clone();
    assert!(resource_slice_matches(&current, &desired));
    current.owner_references = None;
    assert!(!resource_slice_matches(&current, &desired));
}

#[test]
fn retry_delay_is_bounded() {
    assert_eq!(
        retry_delay(Duration::from_millis(10), Duration::from_millis(50), 1),
        Duration::from_millis(10)
    );
    assert_eq!(
        retry_delay(Duration::from_millis(10), Duration::from_millis(50), 4),
        Duration::from_millis(50)
    );
}

#[test]
fn retry_delay_doubles() {
    let base = Duration::from_millis(10);
    let max = Duration::from_secs(1_000_000_000);
    assert_eq!(retry_delay(base, max, 0), base);
    assert_eq!(retry_delay(base, max, 3), Duration::from_millis(40));
    assert_eq!(
        retry_delay(base, max, 4_000_000_000),
        Duration::from_millis(10 * 2_147_483_648)
    );
}

#[test]
fn success_resets_the_backoff() {
    let publisher = publisher()
        .with_poll_interval(Duration::from_secs(7))
        .with_retry_backoff(Duration::from_secs(2), Duration::from_secs(1));
    assert_eq!(
        publisher.after_attempt(5, true),
        (0, Duration::from_secs(7))
    );
    assert_eq!(
        publisher.after_attempt(0, false),
        (1, Duration::from_secs(2))
    );
    assert_eq!(
        publisher.after_attempt(u32::MAX, false),
        (u32::MAX, Duration::from_secs(2))
    );
}
