use std::cell::RefCell;
use std::rc::Rc;

use k8s_device_plugin::allocation::{
    AllocationError, ContainerAllocation, DeviceAllocator, DeviceDiscovery, K8sDevicePlugin,
};
use k8s_device_plugin::device::{Device, DevicePath, HostMount};
use k8s_device_plugin::device_plugin::{
    answer_batch, device_path_to_spec, device_to_proto, devices_equal_ignoring_order,
    sanitize_socket_name, valid_devices, validate_allocation, validate_device, AllocateOutcome,
    AllocationBatch, ContainerPreferredAllocationRequest, DevicePlugin, DevicePluginService, RegistrationRetry,
    RetryStep, RpcCode, RunEvent, RunStep, DEVICE_PLUGIN_PATH, HEALTHY, UNHEALTHY,
};
use k8s_device_plugin::duration::Duration;
use k8s_device_plugin::health::Health;
use k8s_device_plugin::ordered_map::OrderedMap;
use k8s_device_plugin::socket_name::MAX_SOCKET_PATH_LEN;
use k8s_device_plugin::static_plugin::{parse_devices, StaticDevicePlugin};
use k8s_device_plugin::validation::ValidationError;

/// A fixed list of devices whose host paths are all there.
struct PresentDevices(StaticDevicePlugin);

impl DeviceDiscovery for PresentDevices {
    fn discover(&self) -> Vec<Device> {
        self.0.discover()
    }
}

impl DeviceAllocator for PresentDevices {
    fn allocate(&self, device_ids: &Vec<String>) -> Result<ContainerAllocation, AllocationError> {
        self.0.allocate(device_ids, &vec![])
    }
}

impl K8sDevicePlugin for PresentDevices {}

fn make_service() -> DevicePluginService<PresentDevices> {
    let device = Device::rdwr("dev-0", "/dev/null");
    DevicePluginService::new(PresentDevices(StaticDevicePlugin::new(vec![device])))
}

fn make_device(id: &str, health: Health) -> Device {
    Device::new(id).health(health)
}

fn text_map(entries: &[(&str, &str)]) -> OrderedMap<String, String> {
    let mut map = OrderedMap::new();
    for (key, value) in entries {
        map.insert(key.to_string(), value.to_string());
    }
    map
}

#[test]
fn kubelet_socket_path() {
    let endpoint = DevicePlugin::<PresentDevices>::kubelet_socket_path();
    assert_eq!(endpoint, "/var/lib/kubelet/device-plugins/kubelet.sock");
}

#[test]
fn register_uses_socket_filename_as_endpoint() {
    let plugin = DevicePlugin::new("example.com/device", make_service())
        .ok()
        .expect("valid resource name");

    let expected_prefix = "/var/lib/kubelet/device-plugins/example_com_device-";
    assert!(
        plugin.endpoint().starts_with(expected_prefix),
        "endpoint {} should start with {expected_prefix}",
        plugin.endpoint()
    );
    assert!(plugin
        .registration_endpoint()
        .starts_with("example_com_device-"));
}

#[test]
fn new_rejects_malformed_resource_name() {
    let err = DevicePlugin::new("widget", make_service())
        .err()
        .expect("no domain in name");
    assert_eq!(
        err,
        ValidationError::MalformedResourceName("widget".to_string())
    );
}

#[test]
fn tests_sanitize_socket_name_is_deterministic() {
    assert_eq!(
        sanitize_socket_name("example.com/device"),
        sanitize_socket_name("example.com/device")
    );
}

#[test]
fn tests_sanitize_socket_name_does_not_collide_across_distinct_names() {
    // These two names sanitize to the same "acme_com_gpu" prefix but must not
    // collide once the disambiguating hash suffix is applied.
    assert_ne!(
        sanitize_socket_name("acme.com/gpu"),
        sanitize_socket_name("acme_com/gpu")
    );
}

#[test]
fn sanitize_socket_name_keeps_full_endpoint_within_socket_path_limit() {
    let long_name = "example.com/a-very-long-custom-accelerator-resource-name-that-keeps-going";
    let socket_name = sanitize_socket_name(long_name);
    let endpoint_len = DEVICE_PLUGIN_PATH.len() + socket_name.len();

    assert!(
        endpoint_len <= MAX_SOCKET_PATH_LEN,
        "endpoint length {endpoint_len} exceeds the socket path limit of {}",
        MAX_SOCKET_PATH_LEN
    );
    // The disambiguating hash suffix (`-` + 16 hex digits) must survive
    // truncation intact.
    let suffix = &socket_name[socket_name.len() - 17..];
    assert!(suffix.starts_with('-'));
    assert!(suffix[1..].chars().all(|c| c.is_ascii_hexdigit()));
}

#[test]
fn endpoint_budget_is_used_up() {
    let long_name = "example.com/a-very-long-custom-accelerator-resource-name-that-keeps-going";
    assert_eq!(
        DEVICE_PLUGIN_PATH.len() + sanitize_socket_name(long_name).len(),
        MAX_SOCKET_PATH_LEN
    );
}

#[test]
fn devices_equal_ignoring_order_treats_reordered_devices_as_equal() {
    let a = vec![
        make_device("dev-0", Health::Healthy),
        make_device("dev-1", Health::Healthy),
    ];
    let b = vec![
        make_device("dev-1", Health::Healthy),
        make_device("dev-0", Health::Healthy),
    ];

    assert!(devices_equal_ignoring_order(&a, &b));
}

#[test]
fn devices_equal_ignoring_order_detects_real_changes() {
    let a = vec![make_device("dev-0", Health::Healthy)];
    let b = vec![make_device("dev-0", Health::Unhealthy)];

    assert!(!devices_equal_ignoring_order(&a, &b));
}

#[test]
fn devices_equal_ignoring_order_counts_devices() {
    let x = make_device("dev-0", Health::Healthy);
    let y = make_device("dev-0", Health::Unhealthy);
    let a = vec![x.copy(), x.copy(), y.copy()];
    let b = vec![x.copy(), y.copy(), y.copy()];
    let c = vec![y.copy(), x.copy(), x.copy()];
    assert!(!devices_equal_ignoring_order(&a, &b));
    assert!(devices_equal_ignoring_order(&a, &c));
    assert!(!devices_equal_ignoring_order(&a, &vec![x.copy()]));
    assert!(devices_equal_ignoring_order(&vec![], &vec![]));
}

struct DynamicDevicePlugin(Rc<RefCell<Vec<Device>>>);

impl K8sDevicePlugin for DynamicDevicePlugin {}

impl DeviceDiscovery for DynamicDevicePlugin {
    fn discover(&self) -> Vec<Device> {
        self.0.borrow().clone()
    }
}

impl DeviceAllocator for DynamicDevicePlugin {
    fn allocate(&self, _device_ids: &Vec<String>) -> Result<ContainerAllocation, AllocationError> {
        Ok(ContainerAllocation::default())
    }
}

#[test]
fn list_and_watch_does_not_repeat_reordered_but_unchanged_devices() {
    let devices = Rc::new(RefCell::new(vec![
        make_device("dev-0", Health::Healthy),
        make_device("dev-1", Health::Healthy),
    ]));
    let service = DevicePluginService::new(DynamicDevicePlugin(Rc::clone(&devices)))
        .with_poll_interval(Duration::from_millis(5));
    assert_eq!(service.poll_interval(), Duration::from_millis(5));

    let (mut watch, _first) = service.list_and_watch();

    // Same devices, different order: must not be treated as a change.
    *devices.borrow_mut() = vec![
        make_device("dev-1", Health::Healthy),
        make_device("dev-0", Health::Healthy),
    ];

    let second = service.watch_again(&mut watch);
    assert!(
        second.is_none(),
        "no update should be pushed when devices are merely reordered"
    );
}

#[test]
fn converts_device_to_proto() {
    let device = Device::new("dev-0");
    let proto = device_to_proto(&device);
    assert_eq!(proto.id, "dev-0");
    assert_eq!(proto.health, HEALTHY);
}

#[test]
fn converts_device_path_to_spec() {
    let path = DevicePath::rdwr("/dev/mydev0");
    let spec = device_path_to_spec(&path);
    assert_eq!(spec.host_path, "/dev/mydev0");
    assert_eq!(spec.container_path, "/dev/mydev0");
    assert_eq!(spec.permissions, "rw");
}

#[test]
fn list_and_watch_sends_initial_device_list() {
    let service = make_service();
    let (_watch, response) = service.list_and_watch();
    assert_eq!(response.devices.len(), 1);
    assert_eq!(response.devices[0].id, "dev-0");
    assert_eq!(response.devices[0].health, HEALTHY);
}

#[test]
fn list_and_watch_pushes_update_when_devices_change() {
    let devices = Rc::new(RefCell::new(vec![make_device("dev-0", Health::Healthy)]));
    let service = DevicePluginService::new(DynamicDevicePlugin(Rc::clone(&devices)));

    let (mut watch, first) = service.list_and_watch();
    assert_eq!(first.devices[0].health, HEALTHY);

    *devices.borrow_mut() = vec![make_device("dev-0", Health::Unhealthy)];

    let second = service.watch_again(&mut watch).expect("an update");
    assert_eq!(second.devices[0].health, UNHEALTHY);
    assert!(service.watch_again(&mut watch).is_none());
}

#[test]
fn list_and_watch_does_not_repeat_unchanged_devices() {
    let devices = Rc::new(RefCell::new(vec![make_device("dev-0", Health::Healthy)]));
    let service = DevicePluginService::new(DynamicDevicePlugin(Rc::clone(&devices)));

    let (mut watch, _first) = service.list_and_watch();

    assert!(
        service.watch_again(&mut watch).is_none(),
        "no update should be pushed while devices are unchanged"
    );
}

#[test]
fn list_and_watch_drops_invalid_device_but_keeps_valid_sibling() {
    let devices = Rc::new(RefCell::new(vec![
        make_device("dev-0", Health::Healthy),
        make_device("", Health::Healthy),
    ]));
    let service = DevicePluginService::new(DynamicDevicePlugin(Rc::clone(&devices)));

    let (_watch, response) = service.list_and_watch();
    assert_eq!(response.devices.len(), 1);
    assert_eq!(response.devices[0].id, "dev-0");
}

#[test]
fn valid_devices_drops_relative_paths() {
    let bad = Device::rdwr("bad", "dev/x");
    assert_eq!(
        validate_device(&bad),
        Err(ValidationError::RelativePath("dev/x".to_string()))
    );
    let good = Device::rdwr("good", "/dev/x");
    assert_eq!(valid_devices(&vec![bad, good.copy()]), vec![good]);
}

#[test]
fn allocate_known_device() {
    let service = make_service();
    let responses = service.allocate(&vec![vec!["dev-0".to_string()]]).unwrap();
    assert_eq!(responses.len(), 1);
    assert_eq!(responses[0].devices.len(), 1);
    assert_eq!(responses[0].devices[0].host_path, "/dev/null");
}

struct FullFeaturedPlugin;

impl DeviceDiscovery for FullFeaturedPlugin {
    fn discover(&self) -> Vec<Device> {
        vec![]
    }
}

impl DeviceAllocator for FullFeaturedPlugin {
    fn allocate(&self, _device_ids: &Vec<String>) -> Result<ContainerAllocation, AllocationError> {
        Ok(ContainerAllocation {
            mounts: vec![HostMount {
                host_path: "/opt/widget/lib".to_string(),
                container_path: "/opt/widget/lib".to_string(),
                read_only: true,
            }],
            envs: text_map(&[("WIDGET_VISIBLE_DEVICES", "0")]),
            annotations: text_map(&[("widget.example.com/pool", "a")]),
            cdi_devices: vec!["example.com/widget=widget-0".to_string()],
            ..Default::default()
        })
    }
}

impl K8sDevicePlugin for FullFeaturedPlugin {
    fn pre_start_required(&self) -> bool {
        true
    }

    fn pre_start_container(&self, device_ids: &Vec<String>) -> Result<(), AllocationError> {
        if device_ids.iter().any(|id| id == "broken") {
            return Err(AllocationError::HookFailed("device reset failed".into()));
        }
        Ok(())
    }

    fn preferred_allocation_available(&self) -> bool {
        true
    }

    fn preferred_allocation(
        &self,
        available_device_ids: &Vec<String>,
        _must_include_device_ids: &Vec<String>,
        size: usize,
    ) -> Result<Vec<String>, AllocationError> {
        Ok(available_device_ids.iter().take(size).cloned().collect())
    }
}

#[test]
fn allocate_maps_mounts_envs_annotations_and_cdi_devices() {
    let service = DevicePluginService::new(FullFeaturedPlugin);
    let responses = service
        .allocate(&vec![vec!["widget-0".to_string()]])
        .unwrap();
    let container_response = &responses[0];

    assert_eq!(container_response.mounts.len(), 1);
    assert_eq!(container_response.mounts[0].host_path, "/opt/widget/lib");
    assert!(container_response.mounts[0].read_only);

    assert_eq!(
        container_response
            .envs
            .get(&"WIDGET_VISIBLE_DEVICES".to_string()),
        Some(&"0".to_string())
    );
    assert_eq!(
        container_response
            .annotations
            .get(&"widget.example.com/pool".to_string()),
        Some(&"a".to_string())
    );
    assert_eq!(
        container_response.cdi_devices[0].name,
        "example.com/widget=widget-0"
    );
}

struct RelativePathPlugin;

impl DeviceDiscovery for RelativePathPlugin {
    fn discover(&self) -> Vec<Device> {
        vec![]
    }
}

impl DeviceAllocator for RelativePathPlugin {
    fn allocate(&self, _device_ids: &Vec<String>) -> Result<ContainerAllocation, AllocationError> {
        Ok(ContainerAllocation {
            device_paths: vec![DevicePath::rdwr("relative/widget0")],
            ..Default::default()
        })
    }
}

impl K8sDevicePlugin for RelativePathPlugin {}

#[test]
fn allocate_rejects_relative_device_path() {
    let service = DevicePluginService::new(RelativePathPlugin);
    let status = service
        .allocate(&vec![vec!["widget-0".to_string()]])
        .unwrap_err();
    assert_eq!(status.code, RpcCode::Internal);
    assert_eq!(
        status.message,
        "path \"relative/widget0\" must be absolute"
    );
}

#[test]
fn allocations_are_refused_for_relative_mounts() {
    let allocation = ContainerAllocation {
        mounts: vec![HostMount {
            host_path: "/a".to_string(),
            container_path: "".to_string(),
            read_only: false,
        }],
        ..Default::default()
    };
    assert_eq!(
        validate_allocation(&allocation),
        Err(ValidationError::EmptyPath)
    );
}

struct NamingPlugin;

impl DeviceDiscovery for NamingPlugin {
    fn discover(&self) -> Vec<Device> {
        vec![]
    }
}

impl DeviceAllocator for NamingPlugin {
    fn allocate(&self, device_ids: &Vec<String>) -> Result<ContainerAllocation, AllocationError> {
        Ok(ContainerAllocation {
            envs: text_map(&[("DEVICE_IDS", &device_ids.join(","))]),
            ..Default::default()
        })
    }
}

impl K8sDevicePlugin for NamingPlugin {}

#[test]
fn allocate_runs_containers_concurrently_and_preserves_order() {
    let service = DevicePluginService::new(NamingPlugin);
    let requests = (0..5).map(|i| vec![format!("dev-{i}")]).collect::<Vec<_>>();
    let outcomes = requests
        .iter()
        .map(|device_ids| service.allocate_container(device_ids))
        .collect::<Vec<_>>();

    let responses = service.allocate(&requests).unwrap();
    assert_eq!(answer_batch(outcomes), Ok(responses.clone()));

    for (i, container_response) in responses.iter().enumerate() {
        assert_eq!(
            container_response.envs.get(&"DEVICE_IDS".to_string()),
            Some(&format!("dev-{i}"))
        );
    }
    assert_eq!(responses.len(), 5);
}

struct CountingPlugin {
    fail_on: String,
    completed: Rc<RefCell<usize>>,
}

impl DeviceDiscovery for CountingPlugin {
    fn discover(&self) -> Vec<Device> {
        vec![]
    }
}

impl DeviceAllocator for CountingPlugin {
    fn allocate(&self, device_ids: &Vec<String>) -> Result<ContainerAllocation, AllocationError> {
        if device_ids.first().map(String::as_str) == Some(self.fail_on.as_str()) {
            return Err(AllocationError::DeviceNotFound(self.fail_on.clone()));
        }
        *self.completed.borrow_mut() += 1;
        Ok(ContainerAllocation::default())
    }
}

impl K8sDevicePlugin for CountingPlugin {}

#[test]
fn allocate_aborts_in_flight_tasks_when_one_container_fails() {
    let completed = Rc::new(RefCell::new(0));
    let service = DevicePluginService::new(CountingPlugin {
        fail_on: "bad".to_string(),
        completed: Rc::clone(&completed),
    });

    let status = service
        .allocate(&vec![vec!["bad".to_string()], vec!["good".to_string()]])
        .unwrap_err();
    assert_eq!(status.code, RpcCode::NotFound);

    assert_eq!(
        *completed.borrow(),
        0,
        "the sibling container should not have been allocated"
    );
}

#[test]
fn allocate_unknown_device_returns_not_found() {
    let service = make_service();
    let status = service
        .allocate(&vec![vec!["does-not-exist".to_string()]])
        .unwrap_err();
    assert_eq!(status.code, RpcCode::NotFound);
    assert_eq!(status.message, "device not found: does-not-exist");
}

#[test]
fn a_panicked_task_is_an_internal_error() {
    let status = answer_batch(vec![
        AllocateOutcome::Finished(Ok(ContainerAllocation::default())),
        AllocateOutcome::Panicked("boom".to_string()),
        AllocateOutcome::Finished(Err(AllocationError::DeviceNotFound("x".to_string()))),
    ])
    .unwrap_err();
    assert_eq!(status.code, RpcCode::Internal);
    assert_eq!(status.message, "allocate task panicked: boom");
}

#[test]
fn get_device_plugin_options_reports_defaults_when_hooks_unimplemented() {
    let options = make_service().get_device_plugin_options();

    assert!(!options.pre_start_required);
    assert!(!options.get_preferred_allocation_available);
}

#[test]
fn get_device_plugin_options_reports_enabled_hooks() {
    let service = DevicePluginService::new(FullFeaturedPlugin);
    let options = service.get_device_plugin_options();

    assert!(options.pre_start_required);
    assert!(options.get_preferred_allocation_available);
}

#[test]
fn pre_start_container_default_is_a_no_op() {
    make_service()
        .pre_start_container(&vec!["dev-0".to_string()])
        .unwrap();
}

#[test]
fn pre_start_container_surfaces_hook_failure() {
    let service = DevicePluginService::new(FullFeaturedPlugin);
    let status = service
        .pre_start_container(&vec!["broken".to_string()])
        .unwrap_err();
    assert_eq!(status.code, RpcCode::FailedPrecondition);
}

#[test]
fn get_preferred_allocation_default_is_unavailable() {
    let status = make_service()
        .get_preferred_allocation(&vec![ContainerPreferredAllocationRequest {
            available_device_ids: vec!["dev-0".to_string()],
            must_include_device_ids: vec![],
            allocation_size: 1,
        }])
        .unwrap_err();
    assert_eq!(status.code, RpcCode::Unimplemented);
}

#[test]
fn get_preferred_allocation_returns_chosen_devices() {
    let service = DevicePluginService::new(FullFeaturedPlugin);
    let choices = service
        .get_preferred_allocation(&vec![ContainerPreferredAllocationRequest {
            available_device_ids: vec!["dev-0".to_string(), "dev-1".to_string()],
            must_include_device_ids: vec![],
            allocation_size: 1,
        }])
        .unwrap();

    assert_eq!(choices.len(), 1);
    assert_eq!(choices[0], vec!["dev-0"]);
}

#[test]
fn get_preferred_allocation_refuses_a_negative_size() {
    let service = DevicePluginService::new(FullFeaturedPlugin);
    let status = service
        .get_preferred_allocation(&vec![ContainerPreferredAllocationRequest {
            available_device_ids: vec![],
            must_include_device_ids: vec![],
            allocation_size: -1,
        }])
        .unwrap_err();
    assert_eq!(status.code, RpcCode::InvalidArgument);
    assert_eq!(status.message, "allocation_size must be non-negative");
}

#[test]
fn unavailable_devices_are_reported_as_unavailable() {
    let plugin = StaticDevicePlugin::new(vec![Device::rdwr("dev-0", "/dev/dev0")]);
    let error = plugin
        .allocate(&vec!["dev-0".to_string()], &vec!["/dev/dev0".to_string()])
        .unwrap_err();
    assert_eq!(
        error,
        AllocationError::DeviceUnavailable("dev-0".to_string())
    );
    let status = answer_batch(vec![AllocateOutcome::Finished(Err(error))]).unwrap_err();
    assert_eq!(status.code, RpcCode::Unavailable);
    let twice = plugin
        .allocate(&vec!["dev-0".to_string(), "dev-0".to_string()], &vec![])
        .unwrap();
    assert_eq!(twice.device_paths.len(), 2);
}

#[test]
fn try_register_succeeds_on_first_attempt() {
    assert!(RegistrationRetry::try_register(3, Duration::from_millis(1)).is_ok());
    let plugin = DevicePlugin::new("example.com/device", make_service())
        .ok()
        .expect("valid resource name");
    let request = plugin.register();
    assert_eq!(request.version, "v1beta1");
    assert_eq!(request.resource_name, "example.com/device");
    assert_eq!(request.endpoint, plugin.registration_endpoint());
    assert_eq!(
        DevicePlugin::<PresentDevices>::run(RunEvent::Registered),
        RunStep::Wait
    );
}

#[test]
fn try_register_gives_up_after_max_attempts() {
    let mut retry = RegistrationRetry::try_register(3, Duration::from_millis(1))
        .ok()
        .expect("attempts are allowed");
    assert_eq!(
        retry.attempt_failed(),
        RetryStep::RetryAfter(Duration::from_millis(1))
    );
    assert_eq!(
        retry.attempt_failed(),
        RetryStep::RetryAfter(Duration::from_millis(2))
    );
    assert_eq!(retry.attempt_failed(), RetryStep::GiveUp);
    let step = DevicePlugin::<PresentDevices>::run(RunEvent::RegistrationFailed(
        "kubelet down".to_string(),
    ));
    assert_eq!(
        step,
        RunStep::Stop {
            stop_server: true,
            result: Err("kubelet down".to_string())
        }
    );
}

#[test]
fn try_register_retries_until_success() {
    let mut retry = RegistrationRetry::try_register(3, Duration::from_millis(1))
        .ok()
        .expect("attempts are allowed");
    for _ in 0..2 {
        assert_ne!(retry.attempt_failed(), RetryStep::GiveUp);
    }
}

#[test]
fn try_register_needs_an_attempt() {
    assert_eq!(
        RegistrationRetry::try_register(0, Duration::from_millis(1))
            .err()
            .expect("no attempt is refused"),
        "max_attempts must be at least 1"
    );
}

#[test]
fn registration_delay_is_capped() {
    let mut retry = RegistrationRetry::register_with_retry();
    let mut delays = vec![];
    while let RetryStep::RetryAfter(delay) = retry.attempt_failed() {
        delays.push(delay.as_nanos() / 1_000_000_000);
    }
    assert_eq!(delays, vec![1, 2, 4, 8, 16, 30, 30, 30, 30]);
}

#[test]
fn run_reregisters_after_kubelet_disconnects() {
    assert_eq!(
        DevicePlugin::<PresentDevices>::run(RunEvent::KubeletGone),
        RunStep::Register
    );
    assert_eq!(
        DevicePlugin::<PresentDevices>::run(RunEvent::ServerEnded(Ok(Ok(())))),
        RunStep::Stop {
            stop_server: false,
            result: Ok(())
        }
    );
    assert_eq!(
        DevicePlugin::<PresentDevices>::run(RunEvent::ServerEnded(Err("boom".to_string()))),
        RunStep::Stop {
            stop_server: false,
            result: Err("boom".to_string())
        }
    );
}

#[test]
fn parse_devices_splits_trims_and_derives_ids_from_basenames() {
    let devices = parse_devices(" /dev/widget0 , /dev/nested/widget1,/dev/widget2 ");

    let ids: Vec<&str> = devices.iter().map(|d| d.id.as_str()).collect();
    assert_eq!(ids, ["widget0", "widget1", "widget2"]);
}

#[test]
fn parse_devices_drops_empty_entries() {
    let devices = parse_devices("/dev/widget0,,  ,/dev/widget1");

    assert_eq!(devices.len(), 2);
}

#[test]
fn parse_devices_on_empty_string_returns_no_devices() {
    let devices = parse_devices("");

    assert!(devices.is_empty());
}

#[test]
fn parse_devices_falls_back_to_full_path_when_there_is_no_file_name() {
    let devices = parse_devices("/");

    assert_eq!(devices.len(), 1);
    assert_eq!(devices[0].id, "/");
}

#[test]
fn allocate_answers_several_containers_in_their_order() {
    let service = DevicePluginService::new(NamingPlugin);
    let requests = vec![
        vec!["dev-2".to_string()],
        vec!["dev-0".to_string(), "dev-1".to_string()],
        vec![],
    ];

    let responses = service.allocate(&requests).unwrap();

    let named = responses
        .iter()
        .map(|response| response.envs.get(&"DEVICE_IDS".to_string()).unwrap().as_str())
        .collect::<Vec<_>>();
    assert_eq!(named, ["dev-2", "dev-0,dev-1", ""]);
}

#[test]
fn allocate_reports_the_first_container_that_fails() {
    let completed = Rc::new(RefCell::new(0));
    let service = DevicePluginService::new(CountingPlugin {
        fail_on: "bad".to_string(),
        completed: Rc::clone(&completed),
    });

    let status = service
        .allocate(&vec![
            vec!["good".to_string()],
            vec!["bad".to_string()],
            vec!["good".to_string()],
        ])
        .unwrap_err();

    assert_eq!(status.code, RpcCode::NotFound);
    assert_eq!(status.message, "device not found: bad");
    assert_eq!(*completed.borrow(), 1);
}

#[test]
fn a_batch_keeps_its_first_failure() {
    let finished = || AllocateOutcome::Finished(Ok(ContainerAllocation::default()));
    let batch = AllocationBatch::new().add(finished());
    assert!(batch.goes_on());
    let batch = batch.add(AllocateOutcome::Panicked("boom".to_string()));
    assert!(!batch.goes_on());
    let batch = batch
        .add(finished())
        .add(AllocateOutcome::Finished(Err(AllocationError::DeviceNotFound(
            "dev-9".to_string(),
        ))));

    let status = batch.finish().unwrap_err();
    assert_eq!(status.code, RpcCode::Internal);
    assert_eq!(status.message, "allocate task panicked: boom");
    assert_eq!(AllocationBatch::new().finish(), Ok(vec![]));
}

struct UnannouncedPlugin {
    available: bool,
    asked: Rc<RefCell<usize>>,
}

impl DeviceDiscovery for UnannouncedPlugin {
    fn discover(&self) -> Vec<Device> {
        vec![]
    }
}

impl DeviceAllocator for UnannouncedPlugin {
    fn allocate(&self, _device_ids: &Vec<String>) -> Result<ContainerAllocation, AllocationError> {
        Ok(ContainerAllocation::default())
    }
}

impl K8sDevicePlugin for UnannouncedPlugin {
    fn preferred_allocation_available(&self) -> bool {
        self.available
    }

    fn preferred_allocation(
        &self,
        available_device_ids: &Vec<String>,
        _must_include_device_ids: &Vec<String>,
        size: usize,
    ) -> Result<Vec<String>, AllocationError> {
        *self.asked.borrow_mut() += 1;
        Ok(available_device_ids.iter().take(size).cloned().collect())
    }
}

#[test]
fn preferred_allocation_is_only_asked_where_it_is_available() {
    let asked = Rc::new(RefCell::new(0));
    let request = |size: i32| ContainerPreferredAllocationRequest {
        available_device_ids: vec!["dev-0".to_string(), "dev-1".to_string()],
        must_include_device_ids: vec![],
        allocation_size: size,
    };
    let service = |available: bool| {
        DevicePluginService::new(UnannouncedPlugin {
            available,
            asked: Rc::clone(&asked),
        })
    };

    let status = service(false)
        .get_preferred_allocation(&vec![request(1), request(0)])
        .unwrap_err();
    assert_eq!(status.code, RpcCode::Unimplemented);
    assert_eq!(
        status.message,
        "preferred allocation is not available for this plugin"
    );
    let status = service(false).prefer_container(&request(-1)).unwrap_err();
    assert_eq!(status.code, RpcCode::InvalidArgument);
    assert_eq!(service(false).get_preferred_allocation(&vec![]), Ok(vec![]));
    assert_eq!(*asked.borrow(), 0);

    assert_eq!(
        service(true).get_preferred_allocation(&vec![request(1), request(0)]),
        Ok(vec![vec!["dev-0".to_string()], vec![]])
    );
    assert_eq!(*asked.borrow(), 2);
}
