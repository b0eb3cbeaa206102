use k8s_device_plugin::claim::{resolve_claim, ClaimResolver, ResolveStep};
use k8s_device_plugin::dra::{
    ClaimPreparer, ClaimRef, PrepareError, PreparedDevice, ResolvedClaim,
};
use k8s_device_plugin::duration::Duration;
use k8s_device_plugin::kube_api::{
    AllocationResult, DeviceAllocationResult, DeviceRequestAllocationResult, ResourceClaim,
    ResourceClaimStatus,
};
use k8s_device_plugin::ordered_map::OrderedMap;
use k8s_device_plugin::plugin_service::{
    answer_claims, answer_unprepared, plugin_socket_path, split_resolved, Claim, DraPluginService,
};
use std::cell::RefCell;

fn claim_ref(name: &str, uid: &str) -> ClaimRef {
    ClaimRef {
        namespace: "default".to_string(),
        uid: uid.to_string(),
        name: name.to_string(),
    }
}

fn resource_claim(uid: &str, status: Option<ResourceClaimStatus>) -> ResourceClaim {
    ResourceClaim {
        uid: Some(uid.to_string()),
        resource_version: None,
        status,
    }
}

fn allocated_status(pool: &str, device: &str, request: &str) -> Option<ResourceClaimStatus> {
    Some(ResourceClaimStatus {
        allocation: Some(AllocationResult {
            devices: Some(DeviceAllocationResult {
                results: Some(vec![DeviceRequestAllocationResult {
                    request: request.to_string(),
                    driver: "example.com".to_string(),
                    pool: pool.to_string(),
                    device: device.to_string(),
                    share_id: None,
                }]),
            }),
        }),
        devices: None,
    })
}

fn done(step: ResolveStep) -> Result<ResolvedClaim, PrepareError> {
    match step {
        ResolveStep::Done(result) => result,
        ResolveStep::Retry(_) => panic!("resolution goes on"),
    }
}

#[test]
fn resolve_returns_resolved_claim_for_allocated_claim() {
    let resolver = ClaimResolver::new();
    let claim_ref = claim_ref("my-claim", "claim-uid-0");
    let claim = resource_claim(
        "claim-uid-0",
        allocated_status("node-0", "widget-0", "req-0"),
    );

    let resolved = done(resolver.resolve(&claim_ref, 1, Ok(claim))).expect("resolve succeeds");

    assert_eq!(resolved.claim, claim_ref);
    assert_eq!(resolved.devices.len(), 1);
    assert_eq!(resolved.devices[0].pool_name, "node-0");
    assert_eq!(resolved.devices[0].device_name, "widget-0");
    assert_eq!(resolved.devices[0].request_name, Some("req-0".to_string()));
}

#[test]
fn resolve_detects_uid_mismatch() {
    let resolver = ClaimResolver::new();
    let claim_ref = claim_ref("my-claim", "expected-uid");
    let claim = resource_claim(
        "different-uid",
        allocated_status("node-0", "widget-0", "req-0"),
    );

    let err = done(resolver.resolve(&claim_ref, 1, Ok(claim)))
        .expect_err("uid mismatch must be rejected");

    assert!(matches!(err, PrepareError::ResolutionFailed(_)));
    assert!(err.to_string().contains("uid mismatch"));
    assert_eq!(
        err,
        PrepareError::ResolutionFailed(
            "ResourceClaim default/my-claim uid mismatch: expected expected-uid, found different-uid"
                .to_string()
        )
    );
}

#[test]
fn resolve_rejects_claim_without_allocation() {
    let resolver = ClaimResolver::new();
    let claim_ref = claim_ref("my-claim", "claim-uid-0");
    let status = Some(ResourceClaimStatus {
        allocation: None,
        devices: None,
    });
    let claim = resource_claim("claim-uid-0", status);

    let err = done(resolver.resolve(&claim_ref, 1, Ok(claim)))
        .expect_err("unallocated claim must be rejected");

    assert_eq!(err, PrepareError::ClaimNotAllocated(claim_ref));
}

#[test]
fn an_allocation_may_have_no_devices_and_no_request_name() {
    let claim_ref = claim_ref("my-claim", "uid");
    let mut claim = resource_claim("uid", allocated_status("p", "d", ""));
    let resolved = resolve_claim(&claim_ref, &claim).unwrap();
    assert_eq!(resolved.devices[0].request_name, None);
    claim.status = Some(ResourceClaimStatus {
        allocation: Some(AllocationResult { devices: None }),
        devices: None,
    });
    assert!(resolve_claim(&claim_ref, &claim).unwrap().devices.is_empty());
    claim.uid = None;
    assert!(resolve_claim(&claim_ref, &claim).is_err());
}

#[test]
fn resolve_all_resolves_a_batch_concurrently() {
    let resolver = ClaimResolver::new();
    let claim_refs = vec![claim_ref("claim-a", "uid-a"), claim_ref("claim-b", "uid-b")];
    // The second read finishes first.
    let finished = [1, 0]
        .iter()
        .map(|index| {
            let claim_ref = claim_refs[*index].clone();
            let pool = if *index == 0 { "node-0" } else { "node-1" };
            let claim = resource_claim(
                &claim_ref.uid,
                allocated_status(pool, "widget-0", "req-0"),
            );
            let result = done(resolver.resolve(&claim_ref, 1, Ok(claim)));
            (*index, (claim_ref, result))
        })
        .collect();

    let results = ClaimResolver::resolve_all(finished);

    assert_eq!(results.len(), 2);
    for (claim_ref, result) in &results {
        let resolved = result.as_ref().expect("resolve succeeds");
        let expected_pool = if claim_ref.name == "claim-a" {
            "node-0"
        } else {
            "node-1"
        };
        assert_eq!(resolved.devices[0].pool_name, expected_pool);
    }
}

#[test]
fn resolve_retries_a_transient_api_failure() {
    let resolver = ClaimResolver::new().with_retry_policy(2, Duration::from_millis(0));
    let claim_ref = claim_ref("my-claim", "claim-uid-0");

    assert_eq!(
        resolver.resolve(&claim_ref, 1, Err("InternalError".to_string())),
        ResolveStep::Retry(Duration::from_millis(0))
    );
    let claim = resource_claim(
        "claim-uid-0",
        allocated_status("pool-0", "widget-0", "req-0"),
    );
    let resolved = done(resolver.resolve(&claim_ref, 2, Ok(claim))).expect("retry succeeds");
    assert_eq!(resolved.devices[0].pool_name, "pool-0");
}

#[test]
fn resolve_gives_up_after_the_last_attempt() {
    let resolver = ClaimResolver::new();
    let claim_ref = claim_ref("my-claim", "uid");
    for attempt in 1..3 {
        assert_eq!(
            resolver.resolve(&claim_ref, attempt, Err("down".to_string())),
            ResolveStep::Retry(Duration::from_millis(50))
        );
    }
    assert_eq!(
        done(resolver.resolve(&claim_ref, 3, Err("down".to_string()))),
        Err(PrepareError::ResolutionFailed(
            "failed to fetch ResourceClaim default/my-claim after 3 attempt(s): down".to_string()
        ))
    );
    let once = ClaimResolver::new().with_retry_policy(0, Duration::from_millis(1));
    assert!(done(once.resolve(&claim_ref, 1, Err("down".to_string()))).is_err());
}

#[test]
fn resolve_all_honors_the_concurrency_bound_and_request_order() {
    let resolver = ClaimResolver::new().with_max_concurrent_resolves(1);
    assert_eq!(resolver.max_concurrent_resolves(), 1);
    assert_eq!(
        ClaimResolver::new()
            .with_max_concurrent_resolves(0)
            .max_concurrent_resolves(),
        1
    );
    assert_eq!(ClaimResolver::new().max_concurrent_resolves(), 16);

    let results = ClaimResolver::resolve_all(vec![
        (0, claim_ref("claim-a", "uid-a")),
        (1, claim_ref("claim-b", "uid-b")),
    ]);
    assert_eq!(results[0].name, "claim-a");
    assert_eq!(results[1].name, "claim-b");
}

#[derive(Default)]
struct FakeClaimPreparer {
    prepare_calls: RefCell<usize>,
    unprepare_calls: RefCell<usize>,
    fail_uid: Option<String>,
}

impl FakeClaimPreparer {
    fn failing(fail_uid: &str) -> Self {
        Self {
            fail_uid: Some(fail_uid.to_string()),
            ..Default::default()
        }
    }
}

impl ClaimPreparer for FakeClaimPreparer {
    fn prepare(
        &self,
        claims: &Vec<ResolvedClaim>,
    ) -> OrderedMap<ClaimRef, Result<Vec<PreparedDevice>, PrepareError>> {
        *self.prepare_calls.borrow_mut() += 1;
        let mut results = OrderedMap::new();
        for resolved in claims {
            let result = if self.fail_uid.as_deref() == Some(resolved.claim.uid.as_str()) {
                Err(PrepareError::HookFailed("boom".to_string()))
            } else {
                Ok(resolved
                    .devices
                    .iter()
                    .map(|device| PreparedDevice {
                        request_names: device.request_name.clone().into_iter().collect(),
                        pool_name: device.pool_name.clone(),
                        device_name: device.device_name.clone(),
                        cdi_device_ids: vec![format!(
                            "example.com/{}={}",
                            device.pool_name, device.device_name
                        )],
                    })
                    .collect())
            };
            results.insert(resolved.claim.clone(), result);
        }
        results
    }

    fn unprepare(&self, claim: &ClaimRef) -> Result<(), PrepareError> {
        *self.unprepare_calls.borrow_mut() += 1;
        if self.fail_uid.as_deref() == Some(claim.uid.as_str()) {
            Err(PrepareError::HookFailed("boom".to_string()))
        } else {
            Ok(())
        }
    }
}

fn wire_claim(name: &str, uid: &str) -> Claim {
    Claim {
        namespace: "default".to_string(),
        uid: uid.to_string(),
        name: name.to_string(),
    }
}

/// Resolves every claim of a request by what the API server holds.
fn resolve_request(
    service: &DraPluginService<FakeClaimPreparer>,
    claims: &Vec<Claim>,
    objects: &[(&str, ResourceClaim)],
) -> Vec<(ClaimRef, Result<ResolvedClaim, PrepareError>)> {
    let refs = DraPluginService::<FakeClaimPreparer>::requested_claims(claims);
    let finished = refs
        .into_iter()
        .enumerate()
        .map(|(index, claim_ref)| {
            let object = objects.iter().find(|(name, _)| *name == claim_ref.name);
            let mut attempt = 0;
            let result = loop {
                attempt += 1;
                let reply = match object {
                    Some((_, claim)) => Ok(claim.clone()),
                    None => Err("NotFound".to_string()),
                };
                match service.resolver().resolve(&claim_ref, attempt, reply) {
                    ResolveStep::Done(result) => break result,
                    ResolveStep::Retry(_) => {}
                }
            };
            (index, (claim_ref, result))
        })
        .collect();
    ClaimResolver::resolve_all(finished)
}

#[test]
fn node_prepare_resources_reports_success() {
    let service = DraPluginService::new(ClaimResolver::new(), FakeClaimPreparer::default());
    let claims = vec![wire_claim("my-claim", "uid-0")];
    let objects = [(
        "my-claim",
        resource_claim("uid-0", allocated_status("node-0", "widget-0", "req-0")),
    )];

    let resolved = resolve_request(&service, &claims, &objects);
    let responses = service.node_prepare_resources(&claims, resolved);

    let entry = responses
        .get(&"uid-0".to_string())
        .expect("entry for uid-0");
    assert!(entry.error.is_empty());
    assert_eq!(entry.devices.len(), 1);
    assert_eq!(entry.devices[0].pool_name, "node-0");
    assert_eq!(entry.devices[0].device_name, "widget-0");
    assert_eq!(
        entry.devices[0].cdi_device_ids,
        vec!["example.com/node-0=widget-0"]
    );
    assert_eq!(entry.devices[0].request_names, vec!["req-0"]);
    assert_eq!(entry.devices[0].share_id, None);
    assert_eq!(*service.preparer().prepare_calls.borrow(), 1);
}

#[test]
fn node_prepare_resources_reports_preparer_failure_in_response_not_as_rpc_error() {
    let service =
        DraPluginService::new(ClaimResolver::new(), FakeClaimPreparer::failing("uid-0"));
    let claims = vec![wire_claim("my-claim", "uid-0")];
    let objects = [(
        "my-claim",
        resource_claim("uid-0", allocated_status("node-0", "widget-0", "req-0")),
    )];

    let resolved = resolve_request(&service, &claims, &objects);
    let responses = service.node_prepare_resources(&claims, resolved);

    let entry = responses
        .get(&"uid-0".to_string())
        .expect("entry for uid-0");
    assert!(!entry.error.is_empty());
    assert_eq!(entry.error, "hook failed: boom");
    assert!(entry.devices.is_empty());
}

#[test]
fn node_prepare_resources_keeps_every_claim_when_one_fails_to_resolve() {
    let service = DraPluginService::new(ClaimResolver::new(), FakeClaimPreparer::default());
    let claims = vec![
        wire_claim("good-claim", "uid-good"),
        wire_claim("missing-claim", "uid-missing"),
    ];
    let objects = [(
        "good-claim",
        resource_claim(
            "uid-good",
            allocated_status("node-0", "widget-0", "req-0"),
        ),
    )];

    let resolved = resolve_request(&service, &claims, &objects);
    let responses = service.node_prepare_resources(&claims, resolved);

    assert_eq!(
        responses.len(),
        2,
        "every requested claim must have an entry"
    );

    let good = responses
        .get(&"uid-good".to_string())
        .expect("entry for uid-good");
    assert!(good.error.is_empty());
    assert_eq!(good.devices.len(), 1);

    let missing = responses
        .get(&"uid-missing".to_string())
        .expect("entry for uid-missing");
    assert!(!missing.error.is_empty());
}

#[test]
fn node_prepare_resources_is_idempotent_for_repeated_calls() {
    let service = DraPluginService::new(ClaimResolver::new(), FakeClaimPreparer::default());
    let claims = vec![wire_claim("my-claim", "uid-0")];
    let objects = [(
        "my-claim",
        resource_claim("uid-0", allocated_status("node-0", "widget-0", "req-0")),
    )];

    let resolved = resolve_request(&service, &claims, &objects);
    let first = service.node_prepare_resources(&claims, resolved);
    let resolved = resolve_request(&service, &claims, &objects);
    let second = service.node_prepare_resources(&claims, resolved);

    let key = "uid-0".to_string();
    assert_eq!(
        first.get(&key).unwrap().error,
        second.get(&key).unwrap().error
    );
    assert_eq!(
        first.get(&key).unwrap().devices,
        second.get(&key).unwrap().devices
    );
}

#[test]
fn a_claim_that_the_preparer_left_out_is_answered_with_an_error() {
    let responses = answer_claims(
        vec![claim_ref("a", "uid-a")],
        OrderedMap::new(),
        OrderedMap::new(),
    );
    assert_eq!(
        responses.get(&"uid-a".to_string()).unwrap().error,
        "hook failed: claim preparer returned no result for this claim"
    );
}

#[test]
fn a_repeated_claim_uses_each_outcome_once() {
    let claim = claim_ref("a", "uid-a");
    let mut prepared = OrderedMap::new();
    prepared.insert(claim.clone(), Ok(vec![PreparedDevice::default()]));
    let responses = answer_claims(
        vec![claim.clone(), claim.clone()],
        OrderedMap::new(),
        prepared,
    );
    assert_eq!(responses.len(), 1);
    assert!(responses
        .get(&"uid-a".to_string())
        .unwrap()
        .error
        .contains("no result"));
}

#[test]
fn resolved_claims_are_parted_from_the_others() {
    let a = claim_ref("a", "uid-a");
    let b = claim_ref("b", "uid-b");
    let (claims, failures) = split_resolved(vec![
        (a.clone(), Err(PrepareError::HookFailed("x".to_string()))),
        (
            b.clone(),
            Ok(ResolvedClaim {
                claim: b.clone(),
                devices: vec![],
            }),
        ),
    ]);
    assert_eq!(claims.len(), 1);
    assert_eq!(claims[0].claim, b);
    assert_eq!(
        failures.get(&a),
        Some(&PrepareError::HookFailed("x".to_string()))
    );
}

#[test]
fn node_unprepare_resources_reports_success() {
    let service = DraPluginService::new(ClaimResolver::new(), FakeClaimPreparer::default());

    let responses = service.node_unprepare_resources(&vec![wire_claim("my-claim", "uid-0")]);

    let entry = responses
        .get(&"uid-0".to_string())
        .expect("entry for uid-0");
    assert!(entry.error.is_empty());
    assert_eq!(*service.preparer().unprepare_calls.borrow(), 1);
}

#[test]
fn node_unprepare_resources_reports_failure_in_response_not_as_rpc_error() {
    let service =
        DraPluginService::new(ClaimResolver::new(), FakeClaimPreparer::failing("uid-0"));

    let responses = service.node_unprepare_resources(&vec![
        wire_claim("my-claim", "uid-0"),
        wire_claim("other-claim", "uid-1"),
    ]);

    let entry = responses
        .get(&"uid-0".to_string())
        .expect("entry for uid-0");
    assert!(!entry.error.is_empty());
    assert!(responses
        .get(&"uid-1".to_string())
        .unwrap()
        .error
        .is_empty());
}

#[test]
fn plugin_sockets_have_a_directory_of_their_own() {
    assert_eq!(
        plugin_socket_path("example.com"),
        "/var/lib/kubelet/plugins/example.com/plugin.sock"
    );
}

#[test]
fn reads_that_finish_out_of_order_are_put_back() {
    let failed = |name: &str| {
        (
            claim_ref(name, name),
            Err::<ResolvedClaim, PrepareError>(PrepareError::ResolutionFailed(name.to_string())),
        )
    };
    let resolved = |name: &str| {
        (
            claim_ref(name, name),
            Ok(ResolvedClaim {
                claim: claim_ref(name, name),
                devices: vec![],
            }),
        )
    };
    let results = ClaimResolver::resolve_all(vec![
        (2, failed("claim-c")),
        (0, resolved("claim-a")),
        (3, resolved("claim-d")),
        (1, failed("claim-b")),
    ]);

    assert_eq!(
        results,
        vec![
            resolved("claim-a"),
            failed("claim-b"),
            failed("claim-c"),
            resolved("claim-d"),
        ]
    );
}

#[test]
fn every_unprepared_claim_is_answered_by_its_own_outcome() {
    let responses = answer_unprepared(vec![
        (claim_ref("claim-a", "uid-a"), Ok(())),
        (
            claim_ref("claim-b", "uid-b"),
            Err(PrepareError::HookFailed("boom".to_string())),
        ),
        (claim_ref("claim-c", "uid-c"), Ok(())),
    ]);

    let error = |uid: &str| responses.get(&uid.to_string()).unwrap().error.as_str();
    assert_eq!(responses.len(), 3);
    assert_eq!(error("uid-a"), "");
    assert_eq!(error("uid-b"), "hook failed: boom");
    assert_eq!(error("uid-c"), "");
}
