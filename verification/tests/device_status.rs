use k8s_device_plugin::device_status::{
    serialize_failure, ClaimDeviceStatus, ClaimDeviceStatusError, ClaimDeviceStatusKey,
    ClaimDeviceStatusPublishOutcome, ClaimDeviceStatusPublisher, PendingPatch, PendingRead,
    PublishStep, StatusPatch, MAX_DATA_BYTES, MAX_PATCH_ATTEMPTS,
};
use k8s_device_plugin::dra::ClaimRef;
use k8s_device_plugin::kube_api::{
    AllocatedDeviceStatus, AllocationResult, Condition, DeviceAllocationResult,
    DeviceRequestAllocationResult, KubeFailure, NetworkDeviceData, ResourceClaim,
    ResourceClaimStatus, Timestamp,
};
use serde_json::Value;

const DRIVER: &str = "dra.example.com";

fn json(text: &str) -> Value {
    serde_json::from_str(text).expect("valid JSON")
}

fn claim_ref() -> ClaimRef {
    ClaimRef {
        namespace: "default".to_string(),
        uid: "claim-uid".to_string(),
        name: "claim".to_string(),
    }
}

fn entry(driver: &str, pool: &str, device: &str, data: &str) -> AllocatedDeviceStatus {
    AllocatedDeviceStatus {
        conditions: None,
        data: Some(json(data)),
        device: device.to_string(),
        driver: driver.to_string(),
        network_data: None,
        pool: pool.to_string(),
        share_id: None,
    }
}

fn allocated_claim(devices: Option<Vec<AllocatedDeviceStatus>>) -> ResourceClaim {
    ResourceClaim {
        uid: Some("claim-uid".to_string()),
        resource_version: Some("1".to_string()),
        status: Some(ResourceClaimStatus {
            allocation: Some(AllocationResult {
                devices: Some(DeviceAllocationResult {
                    results: Some(vec![DeviceRequestAllocationResult {
                        request: "widget".to_string(),
                        driver: DRIVER.to_string(),
                        pool: "widget-pool".to_string(),
                        device: "widget-0".to_string(),
                        share_id: None,
                    }]),
                }),
            }),
            devices,
        }),
    }
}

fn status() -> ClaimDeviceStatus {
    ClaimDeviceStatus {
        pool_name: "widget-pool".to_string(),
        device_name: "widget-0".to_string(),
        share_id: None,
        conditions: None,
        data: Some(json(r#"{"phase": "prepared"}"#)),
        network_data: None,
    }
}

fn reading(step: PublishStep) -> PendingRead {
    match step {
        PublishStep::Read(pending) => pending,
        PublishStep::Patch(..) => panic!("an update is sent"),
        PublishStep::Done(result) => panic!("publication ended: {result:?}"),
    }
}

fn patching(step: PublishStep) -> (StatusPatch, PendingPatch) {
    match step {
        PublishStep::Patch(patch, pending) => (patch, pending),
        PublishStep::Read(_) => panic!("the claim is read again"),
        PublishStep::Done(result) => panic!("publication ended: {result:?}"),
    }
}

fn ended(step: PublishStep) -> Result<ClaimDeviceStatusPublishOutcome, ClaimDeviceStatusError> {
    match step {
        PublishStep::Done(result) => result,
        _ => panic!("publication goes on"),
    }
}

fn api_failure(code: u16) -> KubeFailure {
    KubeFailure {
        code: Some(code),
        text: format!("code {code}"),
    }
}

#[test]
fn publish_applies_only_the_local_drivers_allocated_device_status() {
    let publisher = ClaimDeviceStatusPublisher::new(DRIVER);

    let pending = reading(publisher.publish(&claim_ref(), vec![status()]));
    assert_eq!(pending.claim().namespace, "default");
    assert_eq!(pending.claim().name, "claim");
    let (patch, pending) = patching(publisher.claim_read(pending, Ok(allocated_claim(None))));
    assert_eq!(pending.claim().name, "claim");
    assert_eq!(patch.name, "claim");
    assert_eq!(patch.uid, "claim-uid");
    assert_eq!(patch.resource_version, "1");
    assert_eq!(patch.devices.len(), 1);
    assert_eq!(patch.devices[0].driver, DRIVER);
    assert_eq!(patch.devices[0].pool, "widget-pool");
    assert_eq!(patch.devices[0].device, "widget-0");
    assert_eq!(
        patch.devices[0].data.as_ref().unwrap()["phase"],
        json(r#""prepared""#)
    );
    assert_eq!(patch.field_manager, "k8s-device-plugin-rs");

    assert_eq!(
        ended(publisher.patch_answered(pending, Ok(()))).expect("publish status"),
        ClaimDeviceStatusPublishOutcome::Updated
    );
}

#[test]
fn publish_is_idempotent_when_the_device_status_is_current() {
    let publisher = ClaimDeviceStatusPublisher::new(DRIVER);
    let current = entry(DRIVER, "widget-pool", "widget-0", r#"{"phase": "prepared"}"#);

    let pending = reading(publisher.publish(&claim_ref(), vec![status()]));
    assert_eq!(
        ended(publisher.claim_read(pending, Ok(allocated_claim(Some(vec![current])))))
            .expect("publish status"),
        ClaimDeviceStatusPublishOutcome::Unchanged
    );
}

#[test]
fn publish_without_reports_changes_nothing() {
    let publisher = ClaimDeviceStatusPublisher::new(DRIVER);
    assert_eq!(
        ended(publisher.publish(&claim_ref(), vec![])).unwrap(),
        ClaimDeviceStatusPublishOutcome::Unchanged
    );
}

#[test]
fn publish_rejects_an_unallocated_or_foreign_device_before_patching() {
    let publisher = ClaimDeviceStatusPublisher::new(DRIVER);
    let foreign = ClaimDeviceStatus::new("widget-pool", "widget-1");

    let pending = reading(publisher.publish(&claim_ref(), vec![foreign]));
    let result = ended(publisher.claim_read(pending, Ok(allocated_claim(None))));
    assert!(matches!(
        result,
        Err(ClaimDeviceStatusError::DeviceNotAllocated { .. })
    ));
    assert_eq!(
        result.unwrap_err().to_string(),
        "device status widget-pool/widget-1/- is not allocated to driver dra.example.com in ResourceClaim default/claim"
    );
}

#[test]
fn publish_surfaces_authorization_failures() {
    let publisher = ClaimDeviceStatusPublisher::new(DRIVER);

    let pending = reading(publisher.publish(&claim_ref(), vec![status()]));
    let (_patch, pending) = patching(publisher.claim_read(pending, Ok(allocated_claim(None))));
    let error = ended(publisher.patch_answered(pending, Err(api_failure(403))))
        .expect_err("forbidden patch must fail");
    assert!(
        matches!(&error, ClaimDeviceStatusError::Kubernetes(failure) if failure.code == Some(403))
    );
    assert_eq!(
        error.to_string(),
        "Kubernetes API error while publishing ResourceClaim device status: code 403"
    );
}

#[test]
fn publish_surfaces_a_failed_read() {
    let publisher = ClaimDeviceStatusPublisher::new(DRIVER);
    let pending = reading(publisher.publish(&claim_ref(), vec![status()]));
    let failure = KubeFailure {
        code: None,
        text: "no route".to_string(),
    };
    assert!(matches!(
        ended(publisher.claim_read(pending, Err(failure))),
        Err(ClaimDeviceStatusError::Kubernetes(_))
    ));
}

#[test]
fn publish_rejects_duplicate_status_keys_without_an_api_request() {
    let publisher = ClaimDeviceStatusPublisher::new(DRIVER);
    let duplicate = publisher.desired_statuses(vec![status(), status()]);

    assert!(matches!(
        duplicate,
        Err(ClaimDeviceStatusError::DuplicateDeviceStatus(_))
    ));
    let error = ended(publisher.publish(&claim_ref(), vec![status(), status()])).unwrap_err();
    assert_eq!(
        error.to_string(),
        "device status widget-pool/widget-0/- was reported more than once"
    );
}

#[test]
fn successive_upserts_preserve_omitted_foreign_and_shared_entries() {
    let publisher = ClaimDeviceStatusPublisher::new(DRIVER);
    let mut shared = entry(DRIVER, "widget-pool", "widget-0", r#"{"shared": true}"#);
    shared.share_id = Some("00000000-0000-0000-0000-000000000001".to_string());
    let preserved = vec![
        entry(DRIVER, "widget-pool", "widget-1", r#"{"keep": true}"#),
        entry(
            "other.example.com",
            "widget-pool",
            "widget-0",
            r#"{"foreign": true}"#,
        ),
        shared,
    ];
    let mut current = allocated_claim(Some(preserved.clone()));
    let mut updated = status();
    updated.data = Some(json(r#"{"phase": "ready"}"#));

    for (version, report) in [(1, status()), (2, updated)] {
        let pending = reading(publisher.publish(&claim_ref(), vec![report]));
        let (patch, pending) = patching(publisher.claim_read(pending, Ok(current.clone())));
        assert_eq!(patch.resource_version, version.to_string());
        assert_eq!(&patch.devices[..3], &preserved[..]);
        assert_eq!(patch.devices.len(), 4);
        let phase = if version == 1 { "prepared" } else { "ready" };
        assert_eq!(
            patch.devices[3].data,
            Some(json(&format!("{{\"phase\": \"{phase}\"}}")))
        );
        current.status.as_mut().unwrap().devices = Some(patch.devices.clone());
        current.resource_version = Some((version + 1).to_string());
        assert!(ended(publisher.patch_answered(pending, Ok(()))).is_ok());
    }
}

#[test]
fn conflict_rereads_and_preserves_concurrent_foreign_update() {
    let publisher = ClaimDeviceStatusPublisher::new(DRIVER);
    let pending = reading(publisher.publish(&claim_ref(), vec![status()]));
    let (patch, pending) = patching(publisher.claim_read(pending, Ok(allocated_claim(None))));
    assert_eq!(patch.resource_version, "1");
    let pending = reading(publisher.patch_answered(pending, Err(api_failure(409))));

    let foreign = entry("other.example.com", "p", "d", r#"{"new": true}"#);
    let mut current = allocated_claim(Some(vec![foreign.clone()]));
    current.resource_version = Some("2".to_string());
    let (patch, pending) = patching(publisher.claim_read(pending, Ok(current)));
    assert_eq!(patch.resource_version, "2");
    assert_eq!(patch.devices[0], foreign);
    assert_eq!(patch.devices.len(), 2);
    assert!(ended(publisher.patch_answered(pending, Ok(()))).is_ok());
}

#[test]
fn conflict_revalidates_uid_and_allocation_before_retry() {
    for replaced in [false, true] {
        let publisher = ClaimDeviceStatusPublisher::new(DRIVER);
        let pending = reading(publisher.publish(&claim_ref(), vec![status()]));
        let (_patch, pending) = patching(publisher.claim_read(pending, Ok(allocated_claim(None))));
        let pending = reading(publisher.patch_answered(pending, Err(api_failure(409))));
        let mut current = allocated_claim(None);
        if replaced {
            current.uid = Some("replacement-uid".to_string());
        } else {
            current.status.as_mut().unwrap().allocation = None;
        }
        let error = ended(publisher.claim_read(pending, Ok(current)))
            .expect_err("reject stale allocation");
        if replaced {
            assert!(matches!(
                error,
                ClaimDeviceStatusError::ClaimIdentityMismatch { .. }
            ));
            assert_eq!(
                error.to_string(),
                "ResourceClaim default/claim uid mismatch: expected claim-uid, found replacement-uid"
            );
        } else {
            assert!(matches!(
                error,
                ClaimDeviceStatusError::DriverNotAllocated { .. }
            ));
            assert_eq!(
                error.to_string(),
                "ResourceClaim default/claim has no allocation for driver dra.example.com"
            );
        }
    }
}

#[test]
fn conflict_retries_are_bounded() {
    let publisher = ClaimDeviceStatusPublisher::new(DRIVER);
    let mut step = publisher.publish(&claim_ref(), vec![status()]);
    for _ in 0..MAX_PATCH_ATTEMPTS {
        let pending = reading(step);
        let (_patch, pending) = patching(publisher.claim_read(pending, Ok(allocated_claim(None))));
        step = publisher.patch_answered(pending, Err(api_failure(409)));
    }
    assert!(matches!(
        ended(step),
        Err(ClaimDeviceStatusError::Kubernetes(failure)) if failure.code == Some(409)
    ));
    assert_eq!(MAX_PATCH_ATTEMPTS, 3);
}

#[test]
fn missing_resource_version_refuses_unconditional_patch() {
    for version in [None, Some(String::new())] {
        let publisher = ClaimDeviceStatusPublisher::new(DRIVER);
        let mut current = allocated_claim(None);
        current.resource_version = version;
        let pending = reading(publisher.publish(&claim_ref(), vec![status()]));
        let error = ended(publisher.claim_read(pending, Ok(current))).unwrap_err();
        assert!(matches!(
            error,
            ClaimDeviceStatusError::MissingResourceVersion { .. }
        ));
        assert_eq!(
            error.to_string(),
            "ResourceClaim default/claim has no resourceVersion for a conditional update"
        );
    }
}

#[test]
fn status_data_equality_ignores_json_whitespace_and_key_order() {
    let publisher = ClaimDeviceStatusPublisher::new(DRIVER);
    let mut desired = status();
    desired.data = Some(json(r#"{ "b": 2, "a": 1 }"#));
    let current = allocated_claim(Some(vec![entry(
        DRIVER,
        "widget-pool",
        "widget-0",
        r#"{"a": 1, "b": 2}"#,
    )]));
    let desired = publisher
        .desired_statuses(vec![desired])
        .ok()
        .expect("valid status");
    assert!(publisher.statuses_are_current(&current, &desired));
}

#[test]
fn different_data_is_not_current() {
    let publisher = ClaimDeviceStatusPublisher::new(DRIVER);
    let desired = publisher.desired_statuses(vec![status()]).ok().unwrap();
    let stale = allocated_claim(Some(vec![entry(
        DRIVER,
        "widget-pool",
        "widget-0",
        r#"{"phase": "old"}"#,
    )]));
    assert!(!publisher.statuses_are_current(&stale, &desired));
    assert!(!publisher.statuses_are_current(&allocated_claim(None), &desired));
}

fn condition(status: &str) -> Condition {
    Condition {
        last_transition_time: Timestamp {
            seconds: 1_700_000_000,
            nanoseconds: 0,
        },
        message: "m".to_string(),
        observed_generation: Some(1),
        reason: "r".to_string(),
        status: status.to_string(),
        type_: "Ready".to_string(),
    }
}

#[test]
fn conditions_and_network_data_are_compared() {
    let publisher = ClaimDeviceStatusPublisher::new(DRIVER);
    let mut report = status();
    report.conditions = Some(vec![condition("True")]);
    report.network_data = Some(NetworkDeviceData {
        hardware_address: Some("00:00".to_string()),
        interface_name: None,
        ips: Some(vec!["10.0.0.1/24".to_string()]),
    });
    let desired = publisher
        .desired_statuses(vec![report.clone()])
        .ok()
        .unwrap();
    let mut held = report.clone().into_kubernetes(DRIVER).unwrap();
    assert!(publisher
        .statuses_are_current(&allocated_claim(Some(vec![held.clone()])), &desired));
    held.conditions = Some(vec![condition("False")]);
    assert!(!publisher.statuses_are_current(&allocated_claim(Some(vec![held])), &desired));
}

#[test]
fn too_many_conditions_are_refused() {
    let mut report = status();
    report.conditions = Some(vec![condition("True"); 8]);
    assert!(report.clone().into_kubernetes(DRIVER).is_ok());
    report.conditions = Some(vec![condition("True"); 9]);
    let error = report.into_kubernetes(DRIVER).unwrap_err();
    assert_eq!(
        error.to_string(),
        "device status widget-pool/widget-0/- has more than eight conditions"
    );
}

#[test]
fn too_much_data_is_refused() {
    let mut report = status();
    report.share_id = Some("share".to_string());
    // A JSON string takes two bytes for its quotes.
    report.data = Some(Value::from("x".repeat(MAX_DATA_BYTES - 2)));
    assert!(report.clone().into_kubernetes(DRIVER).is_ok());
    report.data = Some(Value::from("x".repeat(MAX_DATA_BYTES - 1)));
    let error = report.into_kubernetes(DRIVER).unwrap_err();
    assert_eq!(
        error.to_string(),
        "device status widget-pool/widget-0/share has 10241 bytes of raw data; Kubernetes permits at most 10240"
    );
}

#[test]
fn a_serialization_failure_is_shown() {
    let cause = serde_json::from_str::<Value>("{").unwrap_err();
    let text = cause.to_string();
    assert_eq!(
        ClaimDeviceStatusError::SerializeData(cause).to_string(),
        format!("failed to serialize device status data: {text}")
    );
    assert_eq!(
        serialize_failure("no such key"),
        "failed to serialize device status data: no such key"
    );
}

#[test]
fn the_field_manager_can_be_chosen() {
    let publisher = ClaimDeviceStatusPublisher::new(DRIVER).with_field_manager("me");
    let pending = reading(publisher.publish(&claim_ref(), vec![status()]));
    let (patch, _pending) = patching(publisher.claim_read(pending, Ok(allocated_claim(None))));
    assert_eq!(patch.field_manager, "me");
}

#[test]
fn keys_are_shown_by_their_parts() {
    let mut key = ClaimDeviceStatusKey {
        pool_name: "p".to_string(),
        device_name: "d".to_string(),
        share_id: None,
    };
    assert_eq!(key.to_string(), "p/d/-");
    key.share_id = Some("s".to_string());
    assert_eq!(key.to_string(), "p/d/s");
    assert_eq!(status().key().device_name, "widget-0");
}
