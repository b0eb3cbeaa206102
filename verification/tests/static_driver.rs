use k8s_device_plugin::dra::{
    AllocatedDevice, ClaimPreparer, ClaimRef, DraDriver, PrepareError, PreparedDevice,
    ResolvedClaim, ResourcePool,
};
use k8s_device_plugin::static_driver::{parse_device_names, StaticDraDriver};

const DRIVER_NAME: &str = "dra.example.com";
const POOL_NAME: &str = "widget-pool";
const DEVICE_NAMES: &str = "widget-0";

fn widget_driver() -> StaticDraDriver {
    StaticDraDriver::new(
        DRIVER_NAME.to_string(),
        POOL_NAME.to_string(),
        parse_device_names(DEVICE_NAMES),
    )
}

fn widget_claim(uid: &str, pool_name: &str, device_name: &str, request: Option<&str>) -> ResolvedClaim {
    ResolvedClaim {
        claim: ClaimRef {
            namespace: "default".to_string(),
            uid: uid.to_string(),
            name: "claim".to_string(),
        },
        devices: vec![AllocatedDevice {
            pool_name: pool_name.to_string(),
            device_name: device_name.to_string(),
            request_name: request.map(str::to_string),
        }],
    }
}

#[test]
fn parse_device_names_splits_trims_and_drops_empty_values() {
    let devices = parse_device_names(" widget-0, ,widget-1 ,, ");

    let names: Vec<&str> = devices.iter().map(|device| device.name.as_str()).collect();
    assert_eq!(names, ["widget-0", "widget-1"]);
}

#[test]
fn static_driver_accepts_devices_from_its_pool_only() {
    let driver = widget_driver();

    assert!(driver.has_device(POOL_NAME, "widget-0"));
    assert!(!driver.has_device("other-pool", "widget-0"));
    assert!(!driver.has_device(POOL_NAME, "other-device"));
}

#[test]
fn static_driver_offers_its_devices_in_one_pool() {
    let driver = widget_driver();
    let pools = driver.devices();

    assert_eq!(driver.driver_name(), DRIVER_NAME);
    assert_eq!(pools.len(), 1);
    assert_eq!(pools.key_at(0), POOL_NAME);
    assert_eq!(*pools.value_at(0), parse_device_names(DEVICE_NAMES));
}

#[test]
fn static_driver_prepares_each_claim_by_its_own_devices() {
    let driver = widget_driver();
    let claims = vec![
        widget_claim("uid-1", POOL_NAME, "widget-0", Some("req-0")),
        widget_claim("uid-2", POOL_NAME, "widget-9", None),
    ];
    let results = driver.prepare(&claims);

    assert_eq!(results.len(), 2);
    assert_eq!(
        results.get(&claims[0].claim),
        Some(&Ok(vec![PreparedDevice {
            request_names: vec!["req-0".to_string()],
            pool_name: POOL_NAME.to_string(),
            device_name: "widget-0".to_string(),
            cdi_device_ids: Vec::new(),
        }]))
    );
    assert_eq!(
        results.get(&claims[1].claim),
        Some(&Err(PrepareError::DeviceUnavailable(
            "widget-pool/widget-9".to_string()
        )))
    );
    assert_eq!(driver.prepare(&claims), results);
    assert_eq!(driver.unprepare(&claims[0].claim), Ok(()));
}
