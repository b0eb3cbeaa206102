use k8s_device_plugin::allocation::{
    AllocationError, ContainerAllocation, DeviceAllocator, DeviceDiscovery, K8sDevicePlugin,
};
use k8s_device_plugin::device::{Device, DevicePath, HostMount};
use k8s_device_plugin::dra::{
    AllocatedDevice, AttributeValue, ClaimPreparer, ClaimRef, DraDriver, PoolDevice, PrepareError,
    PreparedDevice, Quantity, ResolvedClaim, ResourcePool,
};
use k8s_device_plugin::duration::Duration;
use k8s_device_plugin::health::Health;
use k8s_device_plugin::ordered_map::OrderedMap;
use k8s_device_plugin::path::{file_name, is_absolute, join_path, same_path};
use k8s_device_plugin::permissions::DevicePermissions;
use k8s_device_plugin::socket_name::{fnv1a64, invalid_char, sanitize_socket_name};
use k8s_device_plugin::text::{
    decimal, ends_with, hex, same_text, signed_decimal, split, text_order, trim, TextOrder,
};
use k8s_device_plugin::unix_socket::{
    bind_unix_listener, lock_path, recover_or_refuse_active_socket, BindStep, IoErrorKind,
    RecoveryStep,
};
use k8s_device_plugin::validation::{
    is_valid_dns_label, is_valid_dns_subdomain, validate_absolute_path, validate_device_id,
    validate_resource_name, ValidationError,
};

struct StaticDriver {
    name: String,
    pool: String,
    devices: Vec<PoolDevice>,
}

impl ResourcePool for StaticDriver {
    fn devices(&self) -> OrderedMap<String, Vec<PoolDevice>> {
        let mut pools = OrderedMap::new();
        pools.insert(self.pool.clone(), self.devices.clone());
        pools
    }
}

impl ClaimPreparer for StaticDriver {
    fn prepare(
        &self,
        claims: &Vec<ResolvedClaim>,
    ) -> OrderedMap<ClaimRef, Result<Vec<PreparedDevice>, PrepareError>> {
        let mut results = OrderedMap::new();
        for resolved in claims {
            let prepared = resolved
                .devices
                .iter()
                .map(|device| PreparedDevice {
                    request_names: device.request_name.clone().into_iter().collect(),
                    pool_name: device.pool_name.clone(),
                    device_name: device.device_name.clone(),
                    cdi_device_ids: vec![format!(
                        "example.com/{}={}",
                        self.pool, device.device_name
                    )],
                })
                .collect();
            results.insert(resolved.claim.clone(), Ok(prepared));
        }
        results
    }

    fn unprepare(&self, _claim: &ClaimRef) -> Result<(), PrepareError> {
        Ok(())
    }
}

impl DraDriver for StaticDriver {
    fn driver_name(&self) -> &str {
        &self.name
    }
}

fn make_driver() -> StaticDriver {
    StaticDriver {
        name: "example.com/widget".to_string(),
        pool: "node-0".to_string(),
        devices: vec![PoolDevice::new("widget-0")
            .attribute("model", AttributeValue::String("x1".to_string()))],
    }
}

fn make_claim(name: &str, device_name: &str) -> ResolvedClaim {
    ResolvedClaim {
        claim: ClaimRef {
            namespace: "default".to_string(),
            uid: format!("uid-{name}"),
            name: name.to_string(),
        },
        devices: vec![AllocatedDevice {
            pool_name: "node-0".to_string(),
            device_name: device_name.to_string(),
            request_name: Some("req-0".to_string()),
        }],
    }
}

#[test]
fn devices_reports_pool_map() {
    let driver = make_driver();
    let devices = driver.devices();
    assert_eq!(devices.len(), 1);
    let pool = devices.get(&"node-0".to_string()).expect("pool node-0");
    assert_eq!(pool.len(), 1);
    assert_eq!(pool[0].name, "widget-0");
}

#[test]
fn prepare_returns_per_claim_results_for_a_batch() {
    let driver = make_driver();
    let claims = vec![
        make_claim("claim-a", "widget-0"),
        make_claim("claim-b", "widget-1"),
    ];

    let results = driver.prepare(&claims);

    assert_eq!(results.len(), 2);
    let prepared_a = results.get(&claims[0].claim).unwrap().as_ref().unwrap();
    assert_eq!(
        prepared_a[0].cdi_device_ids,
        vec!["example.com/node-0=widget-0"]
    );
    let prepared_b = results.get(&claims[1].claim).unwrap().as_ref().unwrap();
    assert_eq!(
        prepared_b[0].cdi_device_ids,
        vec!["example.com/node-0=widget-1"]
    );
}

#[test]
fn unprepare_unknown_claim_does_not_panic() {
    let driver = make_driver();
    let claim = ClaimRef {
        namespace: "default".to_string(),
        uid: "missing".to_string(),
        name: "missing".to_string(),
    };
    driver.unprepare(&claim).expect("no-op unprepare");
}

#[test]
fn driver_name_is_exposed() {
    let driver = make_driver();
    assert_eq!(driver.driver_name(), "example.com/widget");
}

#[test]
fn prepare_error_display() {
    let err = PrepareError::DeviceUnavailable("widget-0".to_string());
    assert_eq!(err.to_string(), "device unavailable: widget-0");
}

#[test]
fn prepare_errors_show_what_failed() {
    assert_eq!(
        PrepareError::HookFailed("boom".to_string()).to_string(),
        "hook failed: boom"
    );
    assert_eq!(
        PrepareError::ResolutionFailed("gone".to_string()).to_string(),
        "claim resolution failed: gone"
    );
    let claim = ClaimRef {
        namespace: "default".to_string(),
        uid: "uid \"0\"".to_string(),
        name: "claim".to_string(),
    };
    assert_eq!(
        PrepareError::ClaimNotAllocated(claim.clone()).to_string(),
        format!("claim is not allocated: {claim:?}")
    );
}

#[test]
fn pool_device_builder_sets_every_part() {
    let device = PoolDevice::new("widget-0")
        .health(Health::Unhealthy)
        .attribute("model", AttributeValue::String("x1".to_string()))
        .attribute("model", AttributeValue::Int(7))
        .capacity("memory", Quantity(1024));
    assert_eq!(device.name, "widget-0");
    assert_eq!(device.health, Health::Unhealthy);
    assert_eq!(device.attributes.len(), 1);
    assert_eq!(
        device.attributes.get(&"model".to_string()),
        Some(&AttributeValue::Int(7))
    );
    assert_eq!(
        device.capacity.get(&"memory".to_string()),
        Some(&Quantity(1024))
    );
}

#[test]
fn prepared_device_default_is_empty() {
    let device = PreparedDevice::default();
    assert!(device.request_names.is_empty());
    assert!(device.pool_name.is_empty());
    assert!(device.device_name.is_empty());
    assert!(device.cdi_device_ids.is_empty());
}

#[test]
fn health_as_str() {
    assert_eq!(Health::Healthy.as_str(), "Healthy");
    assert_eq!(Health::Unhealthy.as_str(), "Unhealthy");
}

#[test]
fn health_display() {
    assert_eq!(Health::Healthy.to_string(), "Healthy");
    assert_eq!(Health::Unhealthy.to_string(), "Unhealthy");
}

struct StaticPlugin(Vec<Device>);

impl K8sDevicePlugin for StaticPlugin {}

impl DeviceDiscovery for StaticPlugin {
    fn discover(&self) -> Vec<Device> {
        self.0.clone()
    }
}

impl DeviceAllocator for StaticPlugin {
    fn allocate(&self, device_ids: &Vec<String>) -> Result<ContainerAllocation, AllocationError> {
        let mut device_paths = Vec::new();
        for id in device_ids {
            let device = self
                .0
                .iter()
                .find(|device| &device.id == id)
                .ok_or_else(|| AllocationError::DeviceNotFound(id.clone()))?;
            device_paths.extend(device.paths.iter().cloned());
        }
        Ok(ContainerAllocation {
            device_paths,
            ..Default::default()
        })
    }
}

fn make_plugin() -> StaticPlugin {
    let dev = Device::rdwr("dev-0", "/dev/dev0");
    StaticPlugin(vec![dev])
}

fn use_backend<P: K8sDevicePlugin>(plugin: &P) -> Vec<Device> {
    plugin.discover()
}

#[test]
fn discover_is_usable_through_k8s_device_plugin_bound() {
    let plugin = make_plugin();
    let devices = use_backend(&plugin);
    assert_eq!(devices.len(), 1);
    assert_eq!(devices[0].id, "dev-0");
}

#[test]
fn allocate_resolves_known_device() {
    let plugin = make_plugin();
    let allocation = plugin
        .allocate(&vec!["dev-0".to_string()])
        .expect("device is known");
    assert_eq!(allocation.device_paths.len(), 1);
}

#[test]
fn allocate_reports_unknown_device() {
    let plugin = make_plugin();
    let err = plugin
        .allocate(&vec!["missing".to_string()])
        .expect_err("device is unknown");
    assert_eq!(err, AllocationError::DeviceNotFound("missing".to_string()));
    assert_eq!(err.to_string(), "device not found: missing");
}

#[test]
fn hooks_have_safe_defaults() {
    let plugin = make_plugin();
    assert!(!plugin.pre_start_required());
    assert!(!plugin.preferred_allocation_available());
    assert_eq!(plugin.pre_start_container(&vec![]), Ok(()));
    assert_eq!(
        plugin.preferred_allocation(&vec![], &vec![], 1),
        Err(AllocationError::PreferredAllocationUnavailable)
    );
}

#[test]
fn allocation_errors_show_what_failed() {
    assert_eq!(
        AllocationError::PreferredAllocationUnavailable.to_string(),
        "preferred allocation is not available for this plugin"
    );
    assert_eq!(
        AllocationError::HookFailed("x".to_string()).to_string(),
        "hook failed: x"
    );
    assert_eq!(
        AllocationError::DeviceUnavailable("x".to_string()).to_string(),
        "device unavailable: x"
    );
}

#[test]
fn device_permissions_as_str() {
    assert_eq!(
        DevicePermissions {
            read: true,
            write: true,
            mknod: true
        }
        .as_str(),
        "rwm"
    );
    assert_eq!(
        DevicePermissions {
            read: true,
            write: true,
            mknod: false
        }
        .as_str(),
        "rw"
    );
    assert_eq!(
        DevicePermissions {
            read: true,
            write: false,
            mknod: false
        }
        .as_str(),
        "r"
    );
    assert_eq!(
        DevicePermissions {
            read: false,
            write: false,
            mknod: false
        }
        .as_str(),
        ""
    );
}

#[test]
fn device_permissions_name_each_combination() {
    let texts = ["", "m", "w", "wm", "r", "rm", "rw", "rwm"];
    for (bits, text) in texts.iter().enumerate() {
        let permissions = DevicePermissions {
            read: bits & 4 != 0,
            write: bits & 2 != 0,
            mknod: bits & 1 != 0,
        };
        assert_eq!(permissions.as_str(), *text);
        assert_eq!(permissions.to_string(), *text);
    }
    assert_eq!(DevicePermissions::rdonly().as_str(), "r");
    assert_eq!(DevicePermissions::rdwr().as_str(), "rw");
}

#[test]
fn device_constructors() {
    let device = Device::rdwr("dev-0", "/dev/dev0").health(Health::Unhealthy);
    assert_eq!(device.id, "dev-0");
    assert_eq!(device.health, Health::Unhealthy);
    assert_eq!(device.paths, vec![DevicePath::rdwr("/dev/dev0")]);
    assert!(Device::new("x").paths.is_empty());
    let copy = device.copy();
    assert_eq!(copy, device);
    assert!(copy.equals(&device));
    let respelled = Device::rdwr("dev-0", "/dev//./dev0/").health(Health::Unhealthy);
    assert!(device.equals(&respelled));
    assert!(!device.equals(&Device::rdwr("dev-0", "/dev/dev1").health(Health::Unhealthy)));
    let mount = HostMount {
        host_path: "/a".to_string(),
        container_path: "/b".to_string(),
        read_only: true,
    };
    assert!(mount.read_only);
}

#[test]
fn socket_name_sanitize_socket_name_is_deterministic() {
    assert_eq!(
        sanitize_socket_name("example.com/device", 100),
        sanitize_socket_name("example.com/device", 100)
    );
}

#[test]
fn socket_name_sanitize_socket_name_does_not_collide_across_distinct_names() {
    // These two names sanitize to the same "acme_com_gpu" prefix but must not
    // collide once the disambiguating hash suffix is applied.
    assert_ne!(
        sanitize_socket_name("acme.com/gpu", 100),
        sanitize_socket_name("acme_com/gpu", 100)
    );
}

#[test]
fn sanitize_socket_name_keeps_result_within_max_len() {
    let long_name = "example.com/a-very-long-custom-accelerator-resource-name-that-keeps-going";
    let max_len = 50;
    let result = sanitize_socket_name(long_name, max_len);

    assert!(
        result.len() <= max_len,
        "result length {} exceeds max_len {max_len}",
        result.len()
    );
    // The disambiguating hash suffix (`-` + 16 hex digits) must survive
    // truncation intact.
    let suffix = &result[result.len() - 17..];
    assert!(suffix.starts_with('-'));
    assert!(suffix[1..].chars().all(|c| c.is_ascii_hexdigit()));
}

#[test]
fn sanitize_socket_name_honors_tiny_budgets() {
    for max_len in 0..17 {
        let result = sanitize_socket_name("example.com/device", max_len);
        assert_eq!(result.len(), max_len);
    }
}

#[test]
fn fnv1a64_has_its_published_values() {
    assert_eq!(fnv1a64(b""), 0xcbf29ce484222325);
    assert_eq!(fnv1a64(b"a"), 0xaf63dc4c8601ec8c);
    assert_eq!(fnv1a64(b"foobar"), 0x85944171f73967e8);
}

#[test]
fn socket_names_are_readable_and_hashed() {
    assert_eq!(
        sanitize_socket_name("foobar", 100),
        "foobar-85944171f73967e8"
    );
    assert_eq!(sanitize_socket_name("foobar", 20), "foo-85944171f73967e8");
    assert_eq!(sanitize_socket_name("foobar", 17), "-85944171f73967e8");
    assert_eq!(sanitize_socket_name("foobar", 3), "-85");
    assert!(sanitize_socket_name("b\u{e9}/x.y", 100).starts_with("b__x_y-"));
    assert!(invalid_char('.'));
    assert!(!invalid_char('Z'));
}

#[test]
fn refuses_to_replace_an_active_socket() {
    assert_eq!(
        bind_unix_listener(Some(IoErrorKind::AddrInUse)),
        BindStep::Connect
    );
    let step = recover_or_refuse_active_socket("/run/plugin.sock", None);
    assert_eq!(
        step,
        RecoveryStep::Refuse(
            IoErrorKind::AddrInUse,
            "refusing to replace an active Unix socket at /run/plugin.sock".to_string()
        )
    );
}

#[test]
fn recovers_a_stale_socket() {
    let refused = Some((IoErrorKind::ConnectionRefused, "refused".to_string()));
    assert_eq!(
        recover_or_refuse_active_socket("/run/plugin.sock", refused),
        RecoveryStep::RemoveAndBind
    );
    let gone = Some((IoErrorKind::NotFound, "gone".to_string()));
    assert_eq!(
        recover_or_refuse_active_socket("/run/plugin.sock", gone),
        RecoveryStep::Bind
    );
}

#[test]
fn leaves_an_undecided_socket_alone() {
    assert_eq!(bind_unix_listener(None), BindStep::Listen);
    assert_eq!(
        bind_unix_listener(Some(IoErrorKind::Other)),
        BindStep::Fail
    );
    assert_eq!(
        recover_or_refuse_active_socket(
            "/run/plugin.sock",
            Some((IoErrorKind::Other, "denied".to_string()))
        ),
        RecoveryStep::Refuse(
            IoErrorKind::Other,
            "cannot determine whether Unix socket at /run/plugin.sock is stale: denied"
                .to_string()
        )
    );
    assert_eq!(lock_path("/run/plugin.sock"), "/run/plugin.sock.lock");
}

#[test]
fn resource_name_accepts_valid_names() {
    assert!(validate_resource_name("example.com/widget").is_ok());
    assert!(validate_resource_name("a.b.example.com/gpu-v100").is_ok());
}

#[test]
fn resource_name_rejects_empty() {
    assert_eq!(
        validate_resource_name(""),
        Err(ValidationError::EmptyResourceName)
    );
}

#[test]
fn resource_name_rejects_missing_domain() {
    assert_eq!(
        validate_resource_name("widget"),
        Err(ValidationError::MalformedResourceName("widget".to_string()))
    );
}

#[test]
fn resource_name_rejects_extra_slash() {
    assert_eq!(
        validate_resource_name("example.com/widget/extra"),
        Err(ValidationError::MalformedResourceName(
            "example.com/widget/extra".to_string()
        ))
    );
}

#[test]
fn resource_name_rejects_invalid_domain_chars() {
    assert_eq!(
        validate_resource_name("Example.com/widget"),
        Err(ValidationError::InvalidResourceDomain(
            "Example.com".to_string()
        ))
    );
}

#[test]
fn resource_name_rejects_invalid_suffix_chars() {
    assert_eq!(
        validate_resource_name("example.com/my_widget"),
        Err(ValidationError::InvalidResourceNameSuffix(
            "my_widget".to_string()
        ))
    );
}

#[test]
fn resource_name_rejects_reserved_domain() {
    assert_eq!(
        validate_resource_name("kubernetes.io/widget"),
        Err(ValidationError::ReservedResourceDomain(
            "kubernetes.io".to_string()
        ))
    );
}

#[test]
fn resource_name_rejects_reserved_subdomain() {
    assert_eq!(
        validate_resource_name("device-plugins.kubernetes.io/widget"),
        Err(ValidationError::ReservedResourceDomain(
            "device-plugins.kubernetes.io".to_string()
        ))
    );
}

#[test]
fn resource_name_accepts_a_domain_that_only_looks_reserved() {
    assert!(validate_resource_name("notkubernetes.io/widget").is_ok());
    assert!(validate_resource_name("kubernetes.io.example.com/widget").is_ok());
}

#[test]
fn dns_labels_and_subdomains() {
    assert!(is_valid_dns_label("a-0"));
    assert!(!is_valid_dns_label(""));
    assert!(!is_valid_dns_label("-a"));
    assert!(!is_valid_dns_label("a-"));
    assert!(is_valid_dns_label(&"a".repeat(63)));
    assert!(!is_valid_dns_label(&"a".repeat(64)));
    assert!(is_valid_dns_subdomain("a.b"));
    assert!(!is_valid_dns_subdomain("a..b"));
    assert!(!is_valid_dns_subdomain(".a"));
    let long = vec!["a".repeat(63); 4].join(".");
    assert!(!is_valid_dns_subdomain(&long));
    assert!(is_valid_dns_subdomain(&long[2..]));
}

#[test]
fn device_id_rejects_empty() {
    assert_eq!(validate_device_id(""), Err(ValidationError::EmptyDeviceId));
}

#[test]
fn device_id_rejects_too_long() {
    let id = "a".repeat(64);
    assert_eq!(
        validate_device_id(&id),
        Err(ValidationError::DeviceIdTooLong(id))
    );
}

#[test]
fn device_id_accepts_max_length() {
    let id = "a".repeat(63);
    assert!(validate_device_id(&id).is_ok());
}

#[test]
fn device_id_accepts_normal_id() {
    assert!(validate_device_id("widget-0").is_ok());
}

#[test]
fn device_id_limit_counts_characters() {
    assert!(validate_device_id(&"\u{e9}".repeat(63)).is_ok());
    assert!(validate_device_id(&"\u{e9}".repeat(64)).is_err());
}

#[test]
fn path_rejects_empty() {
    assert_eq!(validate_absolute_path(""), Err(ValidationError::EmptyPath));
}

#[test]
fn path_rejects_relative() {
    assert_eq!(
        validate_absolute_path("dev/widget0"),
        Err(ValidationError::RelativePath("dev/widget0".to_string()))
    );
}

#[test]
fn path_accepts_absolute() {
    assert!(validate_absolute_path("/dev/widget0").is_ok());
}

#[test]
fn validation_errors_show_what_was_refused() {
    let name = "a\"b".to_string();
    assert_eq!(
        ValidationError::EmptyResourceName.to_string(),
        "resource name must not be empty"
    );
    assert_eq!(
        ValidationError::MalformedResourceName(name.clone()).to_string(),
        format!("resource name {name:?} must have the form \"<domain>/<name>\"")
    );
    assert_eq!(
        ValidationError::InvalidResourceDomain(name.clone()).to_string(),
        format!("resource name domain {name:?} is not a valid DNS subdomain")
    );
    assert_eq!(
        ValidationError::InvalidResourceNameSuffix(name.clone()).to_string(),
        format!("resource name suffix {name:?} is not a valid DNS label")
    );
    assert_eq!(
        ValidationError::ReservedResourceDomain(name.clone()).to_string(),
        format!("resource name domain {name:?} is reserved for kubernetes.io")
    );
    assert_eq!(
        ValidationError::EmptyDeviceId.to_string(),
        "device id must not be empty"
    );
    assert_eq!(
        ValidationError::DeviceIdTooLong(name.clone()).to_string(),
        format!("device id {name:?} exceeds the 63-character limit")
    );
    assert_eq!(
        ValidationError::EmptyPath.to_string(),
        "path must not be empty"
    );
    assert_eq!(
        ValidationError::RelativePath(name.clone()).to_string(),
        format!("path {name:?} must be absolute")
    );
}

#[test]
fn paths_join_and_compare() {
    assert_eq!(join_path("/a", "b"), "/a/b");
    assert_eq!(join_path("/a/", "b"), "/a/b");
    assert_eq!(join_path("/a", "/b"), "/b");
    assert_eq!(join_path("", "b"), "b");
    assert_eq!(join_path("a", ""), "a/");
    assert!(is_absolute("/"));
    assert!(!is_absolute("a/"));
    assert!(same_path("/a//b/./c/", "/a/b/c"));
    assert!(!same_path("/a/b", "a/b"));
    assert!(!same_path("./a", "a"));
    assert!(!same_path("a/../b", "b"));
    assert_eq!(file_name("/a/b/."), Some("b".to_string()));
    assert_eq!(file_name("/a/.."), None);
    assert_eq!(file_name("/"), None);
}

#[test]
fn texts_are_ordered_split_and_trimmed() {
    assert_eq!(text_order("a", "b"), TextOrder::Before);
    assert_eq!(text_order("a", "a"), TextOrder::Same);
    assert_eq!(text_order("ab", "a"), TextOrder::After);
    assert_eq!(text_order("\u{e9}", "z"), TextOrder::After);
    assert!(same_text("x", "x"));
    assert_eq!(split("a,,b", ','), vec!["a", "", "b"]);
    assert_eq!(split("", ','), vec![""]);
    assert_eq!(trim("\u{3000} a b\t\n"), "a b");
    assert_eq!(trim(" \t"), "");
    assert!(ends_with("abc", "bc"));
    assert!(!ends_with("c", "bc"));
    assert_eq!(decimal(0), "0");
    assert_eq!(decimal(18446744073709551615), "18446744073709551615");
    assert_eq!(signed_decimal(-9223372036854775808), "-9223372036854775808");
    assert_eq!(hex(0xab, 4), "00ab");
}

#[test]
fn ordered_map_keeps_one_value_per_key_in_order() {
    let mut map: OrderedMap<String, String> = OrderedMap::new();
    assert!(map.is_empty());
    assert_eq!(map.insert("b".to_string(), "2".to_string()), None);
    assert_eq!(map.insert("a".to_string(), "1".to_string()), None);
    assert_eq!(
        map.insert("b".to_string(), "3".to_string()),
        Some("2".to_string())
    );
    assert_eq!(map.len(), 2);
    assert_eq!(map.key_at(0), "a");
    assert_eq!(map.value_at(1), "3");
    assert!(map.contains_key(&"a".to_string()));
    let copy = map.clone();
    assert_eq!(copy, map);
    assert_eq!(map.remove(&"a".to_string()), Some("1".to_string()));
    assert_eq!(map.remove(&"a".to_string()), None);
    assert_ne!(copy, map);
}

#[test]
fn durations_saturate() {
    let longest = Duration::from_nanos(u128::MAX);
    assert_eq!(longest.as_nanos(), 18_446_744_073_709_551_615_999_999_999);
    assert_eq!(longest.saturating_mul(2), longest);
    assert_eq!(
        Duration::from_secs(2).saturating_mul(3),
        Duration::from_millis(6000)
    );
    assert_eq!(
        Duration::from_secs(1).min(Duration::from_millis(5)),
        Duration::from_millis(5)
    );
    assert_eq!(
        Duration::from_secs(1).max(Duration::from_millis(5)),
        Duration::from_secs(1)
    );
}
