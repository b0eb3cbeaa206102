use k8s_device_plugin::device_plugin::RpcCode;
use k8s_device_plugin::dra::{
    ClaimPreparer, ClaimRef, DraDriver, PoolDevice, PrepareError, PreparedDevice, ResolvedClaim,
    ResourcePool,
};
use k8s_device_plugin::lifecycle::{
    component_error, component_started, publisher_error, wait_for_component_exit, Component,
    ComponentExit, DraPlugin, StartStep,
};
use k8s_device_plugin::ordered_map::OrderedMap;
use k8s_device_plugin::plugin_service::DRA_PLUGIN_SERVICE;
use k8s_device_plugin::probe::{connect_error, rpc_error, DraPluginLivenessProbe};
use k8s_device_plugin::registration::{DraRegistrationServer, KUBELET_PLUGINS_REGISTRY_PATH};
use k8s_device_plugin::resource_health::{
    report_to_wire, DraDeviceHealth, DraResourceHealthService, HealthStatus, ResourceHealthError,
    ResourceHealthReport, ResourceHealthStatus, WatchEvent, WatchMessage,
};
use k8s_device_plugin::socket_name::MAX_SOCKET_PATH_LEN;

#[test]
fn get_info_returns_configured_plugin_info() {
    let server = DraRegistrationServer::new(
        "example.com/widget",
        "/var/lib/kubelet/plugins/example.com/widget/plugin.sock",
    );
    let info = server.get_info();

    assert_eq!(info.type_, "DRAPlugin");
    assert_eq!(info.name, "example.com/widget");
    assert_eq!(
        info.endpoint,
        "/var/lib/kubelet/plugins/example.com/widget/plugin.sock"
    );
    assert_eq!(
        info.supported_versions,
        vec![DRA_PLUGIN_SERVICE.to_string()]
    );
    assert_eq!(DRA_PLUGIN_SERVICE, "v1.DRAPlugin");
}

#[test]
fn registration_sockets_stay_within_the_limit() {
    let long_name = "a".repeat(300);
    let server = DraRegistrationServer::new(&long_name, "/x");
    assert_eq!(server.socket_path().len(), MAX_SOCKET_PATH_LEN);
    assert!(server.socket_path().starts_with(KUBELET_PLUGINS_REGISTRY_PATH));
    assert!(server.socket_path().ends_with("-reg.sock"));
    assert!(DraRegistrationServer::socket_name("example.com").starts_with("example_com-"));
}

fn report(health: ResourceHealthStatus) -> ResourceHealthReport {
    ResourceHealthReport {
        devices: vec![DraDeviceHealth {
            pool_name: "pool-0".to_string(),
            device_name: "widget-0".to_string(),
            health,
            last_updated_time: 1_700_000_000,
            health_check_timeout_seconds: 30,
            message: "monitor update".to_string(),
        }],
    }
}

fn health_of(message: &WatchMessage) -> HealthStatus {
    match message {
        WatchMessage::Report(response) => {
            assert_eq!(response.devices.len(), 1);
            response.devices[0].health
        }
        WatchMessage::End(status) => panic!("stream ended: {status:?}"),
    }
}

#[test]
fn resource_health_updates_reconnect_after_reporter_stops() {
    let service = DraResourceHealthService::new();
    for (health, expected) in [
        (ResourceHealthStatus::Healthy, HealthStatus::Healthy),
        (ResourceHealthStatus::Unhealthy, HealthStatus::Unhealthy),
    ] {
        let mut watch = service.watch_stream().expect("start a health watch");
        // The reporter stops with its report still buffered.
        let messages = watch.handle(WatchEvent::Ended {
            buffered: vec![report(health)],
            result: Ok(Ok(())),
        });
        assert_eq!(messages.len(), 2);
        assert_eq!(health_of(&messages[0]), expected);
        match &messages[1] {
            WatchMessage::End(status) => {
                assert_eq!(status.code, RpcCode::Unavailable);
                assert_eq!(status.message, "resource health reporter stopped");
            }
            other => panic!("unexpected {other:?}"),
        }
        assert!(!watch.goes_on());
    }
}

#[test]
fn unsupported_resource_health_is_explicitly_unimplemented() {
    let status = DraResourceHealthService::unsupported()
        .watch_stream()
        .err()
        .expect("unsupported backend rejects health watches");
    assert_eq!(status.code, RpcCode::Unimplemented);
    assert_eq!(
        status.message,
        "resource health reporting is not supported by this backend"
    );
}

#[test]
fn health_watches_hand_on_reports_and_ends() {
    let mut watch = DraResourceHealthService::new().watch_stream().unwrap();
    let messages = watch.handle(WatchEvent::Report(report(ResourceHealthStatus::Unknown)));
    assert_eq!(messages.len(), 1);
    assert_eq!(health_of(&messages[0]).number(), 0);
    assert!(watch.goes_on());
    let failed = watch.handle(WatchEvent::Ended {
        buffered: vec![],
        result: Ok(Err(ResourceHealthError::MonitorFailed("gone".to_string()))),
    });
    assert!(matches!(
        &failed[..],
        [WatchMessage::End(status)] if status.message == "resource health monitor failed: gone"
    ));
    assert!(watch
        .handle(WatchEvent::Report(report(ResourceHealthStatus::Healthy)))
        .is_empty());
    assert!(!watch.receiver_gone());

    let mut watch = DraResourceHealthService::new().watch_stream().unwrap();
    let ended = watch.handle(WatchEvent::Ended {
        buffered: vec![],
        result: Err("boom".to_string()),
    });
    assert!(matches!(
        &ended[..],
        [WatchMessage::End(status)] if status.message == "resource health reporter panicked: boom"
    ));
    let mut watch = DraResourceHealthService::new().watch_stream().unwrap();
    assert!(watch.receiver_gone());
    assert!(!watch.goes_on());
}

#[test]
fn health_reports_carry_every_field() {
    let response = report_to_wire(report(ResourceHealthStatus::Healthy));
    let device = &response.devices[0];
    assert_eq!(device.device.as_ref().unwrap().pool_name, "pool-0");
    assert_eq!(device.device.as_ref().unwrap().device_name, "widget-0");
    assert_eq!(device.health.number(), 1);
    assert_eq!(HealthStatus::Unhealthy.number(), 2);
    assert_eq!(device.last_updated_time, 1_700_000_000);
    assert_eq!(device.health_check_timeout_seconds, 30);
    assert_eq!(device.message, "monitor update");
}

#[test]
fn wait_for_component_exit_aborts_and_reaps_surviving_tasks() {
    let (stopped, err) = wait_for_component_exit(ComponentExit::Service(Ok(Ok(()))));
    assert!(err.contains("DRAPlugin service exited unexpectedly"));
    assert_eq!(stopped, vec![Component::Registration, Component::Publisher]);

    let (stopped, err) =
        wait_for_component_exit(ComponentExit::Registration(Ok(Err("bad".to_string()))));
    assert_eq!(err, "registration server failed: bad");
    assert_eq!(stopped, vec![Component::Service, Component::Publisher]);

    let (stopped, err) = wait_for_component_exit(ComponentExit::Publisher(Ok(())));
    assert_eq!(err, "ResourceSlice publisher exited unexpectedly");
    assert_eq!(stopped, vec![Component::Registration, Component::Service]);
}

#[test]
fn component_error_reports_unexpected_exit() {
    let err = component_error("registration server", Ok(Ok(())));
    assert!(err
        .to_string()
        .contains("registration server exited unexpectedly"));
}

#[test]
fn component_error_reports_panic() {
    let err = component_error("DRAPlugin service", Err("boom".to_string()));
    assert!(err.to_string().contains("DRAPlugin service panicked"));
}

#[test]
fn publisher_error_reports_unexpected_exit() {
    let err = publisher_error(Ok(()));
    assert!(err
        .to_string()
        .contains("ResourceSlice publisher exited unexpectedly"));
}

#[test]
fn publisher_error_reports_panic() {
    let err = publisher_error(Err("boom".to_string()));
    assert!(err.to_string().contains("ResourceSlice publisher panicked"));
}

#[test]
fn run_at_stops_registration_when_service_startup_fails() {
    assert_eq!(
        component_started(Component::Registration, true),
        StartStep::Start(Component::Service)
    );
    assert_eq!(
        component_started(Component::Service, false),
        StartStep::Fail {
            stop_registration: true
        }
    );
    assert_eq!(
        component_started(Component::Registration, false),
        StartStep::Fail {
            stop_registration: false
        }
    );
    assert_eq!(
        component_started(Component::Service, true),
        StartStep::Start(Component::Publisher)
    );
    assert_eq!(
        component_started(Component::Publisher, true),
        StartStep::Wait
    );
}

struct StaticDraDriver {
    name: String,
}

impl ResourcePool for StaticDraDriver {
    fn devices(&self) -> OrderedMap<String, Vec<PoolDevice>> {
        OrderedMap::new()
    }
}

impl ClaimPreparer for StaticDraDriver {
    fn prepare(
        &self,
        _claims: &Vec<ResolvedClaim>,
    ) -> OrderedMap<ClaimRef, Result<Vec<PreparedDevice>, PrepareError>> {
        OrderedMap::new()
    }

    fn unprepare(&self, _claim: &ClaimRef) -> Result<(), PrepareError> {
        Ok(())
    }
}

impl DraDriver for StaticDraDriver {
    fn driver_name(&self) -> &str {
        &self.name
    }
}

#[test]
fn a_driver_is_put_together_for_its_node() {
    let driver = StaticDraDriver {
        name: "example.com".to_string(),
    };
    let plugin = DraPlugin::new("example.com", "node-0", driver);
    let info = plugin.registration().get_info();
    assert_eq!(info.name, "example.com");
    assert_eq!(
        info.endpoint,
        "/var/lib/kubelet/plugins/example.com/plugin.sock"
    );
    assert_eq!(plugin.plugin_socket_path(), info.endpoint);
    assert_eq!(plugin.plugin_dir(), "/var/lib/kubelet/plugins/example.com");
    assert_eq!(
        plugin.service().preparer().driver_name(),
        plugin.registration().get_info().name
    );
    assert_eq!(
        plugin.publisher().field_selector(),
        "spec.driver=example.com,spec.nodeName=node-0"
    );

    let probe = DraPluginLivenessProbe::new("example.com");
    assert_eq!(
        probe.registration_socket_path(),
        plugin.registration().socket_path()
    );
    assert_eq!(probe.check(&info), Ok(()));
}

#[test]
fn probes_refuse_other_plugins() {
    let probe = DraPluginLivenessProbe::with_socket_paths("/r.sock", "/p/plugin.sock");
    assert_eq!(probe.plugin_socket_path(), "/p/plugin.sock");
    let mut info = DraRegistrationServer::new("example.com", "/p//plugin.sock").get_info();
    assert_eq!(probe.check(&info), Ok(()));
    info.endpoint = "/q".to_string();
    assert_eq!(
        probe.check(&info),
        Err("registration socket /r.sock advertised /q, expected /p/plugin.sock".to_string())
    );
    info.type_ = "CSI".to_string();
    assert_eq!(
        probe.check(&info),
        Err("registration socket /r.sock reported plugin type \"CSI\", not DRAPlugin".to_string())
    );
    assert_eq!(
        connect_error("registration", "/r.sock", "refused"),
        "connect to registration socket /r.sock: refused"
    );
    assert_eq!(
        rpc_error("registration GetInfo", "down"),
        "registration GetInfo probe failed: down"
    );
}
