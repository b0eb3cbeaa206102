//! The service that kubelet asks to prepare and unprepare claims.

use crate::claim::ClaimResolver;
use crate::dra::{
    prepare_text, ClaimPreparer, ClaimRef, ClaimRefModel, PrepareError, PrepareFailure,
    PreparedDevice, PreparedDeviceModel, ResolvedClaim, ResolvedClaimModel,
};
use crate::ordered_map::OrderedMap;
use crate::path::{join_path, join_text};
use crate::record::{map_views, opt_view, views};
use vstd::prelude::*;
use vstd::string::*;

verus! {

/// Where kubelet keeps the directories of its plugins.
pub const KUBELET_PLUGINS_PATH: &'static str = "/var/lib/kubelet/plugins/";

/// The service that a DRA driver registers with kubelet.
pub const DRA_PLUGIN_SERVICE: &'static str = "v1.DRAPlugin";

/// The name of a driver's socket in its directory.
pub const PLUGIN_SOCKET: &'static str = "plugin.sock";

/// A claim as kubelet names it.
#[derive(Clone, Debug, PartialEq, Eq)]
pub struct Claim {
    pub namespace: String,
    pub uid: String,
    pub name: String,
}

impl View for Claim {
    type V = ClaimRefModel;

    open spec fn view(&self) -> ClaimRefModel {
        ClaimRefModel { namespace: self.namespace@, uid: self.uid@, name: self.name@ }
    }
}

/// A prepared device as kubelet is told of it.
#[derive(Clone, Debug, PartialEq, Eq)]
pub struct DeviceMessage {
    pub request_names: Vec<String>,
    pub pool_name: String,
    pub device_name: String,
    pub cdi_device_ids: Vec<String>,
    pub share_id: Option<String>,
}

/// What a [`DeviceMessage`] says.
pub struct DeviceMessageModel {
    pub request_names: Seq<Seq<char>>,
    pub pool_name: Seq<char>,
    pub device_name: Seq<char>,
    pub cdi_device_ids: Seq<Seq<char>>,
    pub share_id: Option<Seq<char>>,
}

impl View for DeviceMessage {
    type V = DeviceMessageModel;

    open spec fn view(&self) -> DeviceMessageModel {
        DeviceMessageModel {
            request_names: views(self.request_names@),
            pool_name: self.pool_name@,
            device_name: self.device_name@,
            cdi_device_ids: views(self.cdi_device_ids@),
            share_id: opt_view(self.share_id),
        }
    }
}

/// The answer for one claim to be prepared: its devices, or an error text.
#[derive(Clone, Debug, PartialEq, Eq)]
pub struct NodePrepareResourceResponse {
    pub devices: Vec<DeviceMessage>,
    pub error: String,
}

/// What a [`NodePrepareResourceResponse`] says.
pub struct PrepareResponseModel {
    pub devices: Seq<DeviceMessageModel>,
    pub error: Seq<char>,
}

impl View for NodePrepareResourceResponse {
    type V = PrepareResponseModel;

    open spec fn view(&self) -> PrepareResponseModel {
        PrepareResponseModel { devices: views(self.devices@), error: self.error@ }
    }
}

/// The answer for one claim to be unprepared: an error text, empty on success.
#[derive(Clone, Debug, PartialEq, Eq)]
pub struct NodeUnprepareResourceResponse {
    pub error: String,
}

impl View for NodeUnprepareResourceResponse {
    type V = Seq<char>;

    open spec fn view(&self) -> Seq<char> {
        self.error@
    }
}

/// The reference to a claim that kubelet names.
pub fn claim_from_wire(claim: &Claim) -> (claim_ref: ClaimRef)
    ensures
        claim_ref@ == claim@,
{
    ClaimRef {
        namespace: claim.namespace.clone(),
        uid: claim.uid.clone(),
        name: claim.name.clone(),
    }
}

/// A prepared device as kubelet is told of it; no share is named.
pub open spec fn device_message(device: PreparedDeviceModel) -> DeviceMessageModel {
    DeviceMessageModel {
        request_names: device.request_names,
        pool_name: device.pool_name,
        device_name: device.device_name,
        cdi_device_ids: device.cdi_device_ids,
        share_id: None,
    }
}

/// Turns a prepared device into what kubelet is told of it.
pub fn prepared_device_to_wire(device: PreparedDevice) -> (message: DeviceMessage)
    ensures
        message@ == device_message(device@),
{
    DeviceMessage {
        request_names: device.request_names,
        pool_name: device.pool_name,
        device_name: device.device_name,
        cdi_device_ids: device.cdi_device_ids,
        share_id: None,
    }
}

/// The result of a preparation, over views.
pub open spec fn preparation(result: Result<Vec<PreparedDevice>, PrepareError>) -> Result<
    Seq<PreparedDeviceModel>,
    PrepareFailure,
> {
    match result {
        Ok(devices) => Ok(views(devices@)),
        Err(error) => Err(error@),
    }
}

/// The answer for one claim: its devices and no error, or the error and no
/// devices.
pub open spec fn prepare_response(
    result: Result<Seq<PreparedDeviceModel>, PrepareFailure>,
) -> PrepareResponseModel {
    match result {
        Ok(devices) => PrepareResponseModel {
            devices: Seq::new(devices.len(), |i: int| device_message(devices[i])),
            error: Seq::empty(),
        },
        Err(failure) => PrepareResponseModel {
            devices: Seq::empty(),
            error: prepare_text(failure),
        },
    }
}

/// Answers for one claim.
pub fn node_prepare_response(result: Result<Vec<PreparedDevice>, PrepareError>) -> (response:
    NodePrepareResourceResponse)
    ensures
        response@ == prepare_response(preparation(result)),
{
    match result {
        Ok(devices) => {
            let ghost given = devices@;
            let mut messages: Vec<DeviceMessage> = Vec::new();
            for device in it: devices
                invariant
                    it.seq() == given,
                    messages@.len() == it.index(),
                    forall|j: int|
                        0 <= j < it.index() ==> (#[trigger] messages@[j])@ == device_message(
                            given[j]@,
                        ),
            {
                messages.push(prepared_device_to_wire(device));
            }
            let response = NodePrepareResourceResponse { devices: messages, error: String::new() };
            proof {
                assert(response@.devices =~= prepare_response(preparation(result)).devices);
            }
            response
        },
        Err(error) => {
            let response = NodePrepareResourceResponse {
                devices: Vec::new(),
                error: error.to_string(),
            };
            proof {
                assert(response@.devices =~= Seq::empty());
            }
            response
        },
    }
}

/// One claim of a request with the outcome of its resolution.
pub type Resolution = (ClaimRef, Result<ResolvedClaim, PrepareError>);

/// The claims that were resolved, in the order of the request.
pub open spec fn resolved_claims(resolved: Seq<Resolution>) -> Seq<ResolvedClaimModel>
    decreases resolved.len(),
{
    if resolved.len() == 0 {
        Seq::empty()
    } else {
        let earlier = resolved_claims(resolved.drop_last());
        match resolved.last().1 {
            Ok(claim) => earlier.push(claim@),
            Err(_) => earlier,
        }
    }
}

/// The claims that were not resolved, with the reasons; of several for one
/// claim, the last.
pub open spec fn resolve_failures(resolved: Seq<Resolution>) -> Map<ClaimRefModel, PrepareFailure>
    decreases resolved.len(),
{
    if resolved.len() == 0 {
        Map::empty()
    } else {
        let earlier = resolve_failures(resolved.drop_last());
        match resolved.last().1 {
            Ok(_) => earlier,
            Err(error) => earlier.insert(resolved.last().0@, error@),
        }
    }
}

/// Parts the claims that were resolved from those that were not.
pub fn split_resolved(resolved: Vec<Resolution>) -> (parts: (
    Vec<ResolvedClaim>,
    OrderedMap<ClaimRef, PrepareError>,
))
    ensures
        views(parts.0@) == resolved_claims(resolved@),
        map_views(parts.1@) == resolve_failures(resolved@),
{
    let ghost given = resolved@;
    let mut claims: Vec<ResolvedClaim> = Vec::new();
    let mut failures: OrderedMap<ClaimRef, PrepareError> = OrderedMap::new();
    proof {
        assert(given.take(0) =~= Seq::empty());
        assert(views(claims@) =~= Seq::empty());
        assert(map_views(failures@) =~= Map::empty());
    }
    for item in it: resolved
        invariant
            it.seq() == given,
            views(claims@) == resolved_claims(given.take(it.index())),
            map_views(failures@) == resolve_failures(given.take(it.index())),
    {
        let ghost earlier_claims = views(claims@);
        let ghost earlier_failures = map_views(failures@);
        proof {
            assert(given.take(it.index() + 1).drop_last() =~= given.take(it.index()));
            assert(given.take(it.index() + 1).last() == item);
        }
        let (claim_ref, result) = item;
        match result {
            Ok(claim) => {
                let ghost model = claim@;
                claims.push(claim);
                proof {
                    assert(views(claims@) =~= earlier_claims.push(model));
                }
            },
            Err(error) => {
                let ghost key = claim_ref@;
                let ghost model = error@;
                failures.insert(claim_ref, error);
                proof {
                    assert(map_views(failures@) =~= earlier_failures.insert(key, model));
                }
            },
        }
    }
    proof {
        assert(given.take(given.len() as int) =~= given);
    }
    (claims, failures)
}

/// The error for a claim that the preparer left out.
pub const NO_RESULT: &'static str = "claim preparer returned no result for this claim";

/// What is still to be answered: why claims were not resolved, and how the
/// others were prepared.
pub struct OutcomesModel {
    pub failures: Map<ClaimRefModel, PrepareFailure>,
    pub prepared: Map<ClaimRefModel, Result<Seq<PreparedDeviceModel>, PrepareFailure>>,
}

/// The outcome for a claim: why it was not resolved, or how it was prepared.
pub open spec fn outcome_of(outcomes: OutcomesModel, claim: ClaimRefModel) -> Result<
    Seq<PreparedDeviceModel>,
    PrepareFailure,
> {
    if outcomes.failures.dom().contains(claim) {
        Err(outcomes.failures[claim])
    } else if outcomes.prepared.dom().contains(claim) {
        outcomes.prepared[claim]
    } else {
        Err(PrepareFailure::HookFailed(NO_RESULT@))
    }
}

/// What is left once a claim is answered: each outcome serves once.
pub open spec fn without_outcome(outcomes: OutcomesModel, claim: ClaimRefModel) -> OutcomesModel {
    if outcomes.failures.dom().contains(claim) {
        OutcomesModel { failures: outcomes.failures.remove(claim), ..outcomes }
    } else {
        OutcomesModel { prepared: outcomes.prepared.remove(claim), ..outcomes }
    }
}

/// What is left once claims are answered in a row.
pub open spec fn outcomes_left(outcomes: OutcomesModel, claims: Seq<ClaimRefModel>) -> OutcomesModel
    decreases claims.len(),
{
    if claims.len() == 0 {
        outcomes
    } else {
        without_outcome(outcomes_left(outcomes, claims.drop_last()), claims.last())
    }
}

/// The answers to a request, by UID; of several claims with one UID, the last
/// decides.
pub open spec fn prepare_responses(
    outcomes: OutcomesModel,
    claims: Seq<ClaimRefModel>,
) -> Map<Seq<char>, PrepareResponseModel>
    decreases claims.len(),
{
    if claims.len() == 0 {
        Map::empty()
    } else {
        let earlier = claims.drop_last();
        prepare_responses(outcomes, earlier).insert(
            claims.last().uid,
            prepare_response(outcome_of(outcomes_left(outcomes, earlier), claims.last())),
        )
    }
}

/// How claims were prepared, by claim.
pub type Preparations = OrderedMap<ClaimRef, Result<Vec<PreparedDevice>, PrepareError>>;

/// How claims were prepared, over views.
pub open spec fn preparations(
    results: Map<ClaimRefModel, Result<Vec<PreparedDevice>, PrepareError>>,
) -> Map<ClaimRefModel, Result<Seq<PreparedDeviceModel>, PrepareFailure>> {
    results.map_values(|result: Result<Vec<PreparedDevice>, PrepareError>| preparation(result))
}

/// Answers a request claim by claim, so that every UID has an answer whatever
/// the preparer returned.
pub fn answer_claims(
    claims: Vec<ClaimRef>,
    failures: OrderedMap<ClaimRef, PrepareError>,
    prepared: Preparations,
) -> (responses: OrderedMap<String, NodePrepareResourceResponse>)
    ensures
        map_views(responses@) == prepare_responses(
            OutcomesModel {
                failures: map_views(failures@),
                prepared: preparations(prepared@),
            },
            views(claims@),
        ),
{
    let ghost given = claims@;
    let ghost models = views(given);
    let ghost outcomes = OutcomesModel {
        failures: map_views(failures@),
        prepared: preparations(prepared@),
    };
    let mut failures = failures;
    let mut prepared = prepared;
    let mut responses: OrderedMap<String, NodePrepareResourceResponse> = OrderedMap::new();
    proof {
        assert(models.take(0) =~= Seq::empty());
        assert(map_views(responses@) =~= Map::empty());
    }
    for claim in it: claims
        invariant
            it.seq() == given,
            models == views(given),
            map_views(responses@) == prepare_responses(outcomes, models.take(it.index())),
            (OutcomesModel { failures: map_views(failures@), prepared: preparations(prepared@) })
                == outcomes_left(outcomes, models.take(it.index())),
    {
        let ghost left = outcomes_left(outcomes, models.take(it.index()));
        let ghost earlier = map_views(responses@);
        let ghost model = claim@;
        proof {
            assert(models.take(it.index() + 1).drop_last() =~= models.take(it.index()));
            assert(models.take(it.index() + 1).last() == model);
            assert(left.failures.dom() =~= failures@.dom());
            assert(left.prepared.dom() =~= prepared@.dom());
        }
        let result: Result<Vec<PreparedDevice>, PrepareError> = match failures.remove(&claim) {
            Some(error) => {
                proof {
                    assert(map_views(failures@) =~= left.failures.remove(model));
                }
                Err(error)
            },
            None => {
                proof {
                    assert(map_views(failures@) =~= left.failures);
                }
                let found = prepared.remove(&claim);
                proof {
                    assert(preparations(prepared@) =~= left.prepared.remove(model));
                }
                match found {
                    Some(result) => result,
                    None => Err(PrepareError::HookFailed(NO_RESULT.to_owned())),
                }
            },
        };
        proof {
            assert(preparation(result) == outcome_of(left, model));
        }
        let response = node_prepare_response(result);
        let ghost answer = response@;
        let uid = claim.uid.clone();
        responses.insert(uid, response);
        proof {
            assert(map_views(responses@) =~= earlier.insert(model.uid, answer));
        }
    }
    proof {
        assert(models.take(models.len() as int) =~= models);
    }
    responses
}

/// The answers to a request to unprepare claims, by UID; of several claims with
/// one UID, the last decides.
pub open spec fn unprepare_responses(
    finished: Seq<(ClaimRef, Result<(), PrepareError>)>,
) -> Map<Seq<char>, Seq<char>>
    decreases finished.len(),
{
    if finished.len() == 0 {
        Map::empty()
    } else {
        unprepare_responses(finished.drop_last()).insert(
            finished.last().0@.uid,
            match finished.last().1 {
                Ok(()) => Seq::empty(),
                Err(error) => prepare_text(error@),
            },
        )
    }
}

/// Answers a request to unprepare claims.
pub fn answer_unprepared(finished: Vec<(ClaimRef, Result<(), PrepareError>)>) -> (responses:
    OrderedMap<String, NodeUnprepareResourceResponse>)
    ensures
        map_views(responses@) == unprepare_responses(finished@),
{
    let ghost given = finished@;
    let mut responses: OrderedMap<String, NodeUnprepareResourceResponse> = OrderedMap::new();
    proof {
        assert(given.take(0) =~= Seq::empty());
        assert(map_views(responses@) =~= Map::empty());
    }
    for item in it: finished
        invariant
            it.seq() == given,
            map_views(responses@) == unprepare_responses(given.take(it.index())),
    {
        let ghost earlier = map_views(responses@);
        proof {
            assert(given.take(it.index() + 1).drop_last() =~= given.take(it.index()));
            assert(given.take(it.index() + 1).last() == item);
        }
        let (claim_ref, result) = item;
        let error = match result {
            Ok(()) => String::new(),
            Err(error) => error.to_string(),
        };
        let ghost answer = error@;
        let ghost uid = claim_ref.uid@;
        responses.insert(claim_ref.uid, NodeUnprepareResourceResponse { error });
        proof {
            assert(map_views(responses@) =~= earlier.insert(uid, answer));
        }
    }
    proof {
        assert(given.take(given.len() as int) =~= given);
    }
    responses
}

/// The service between kubelet and a backend that prepares claims.
pub struct DraPluginService<P: ClaimPreparer> {
    resolver: ClaimResolver,
    preparer: P,
}

fn claim_refs(claims: &Vec<Claim>) -> (refs: Vec<ClaimRef>)
    ensures
        views(refs@) == views(claims@),
{
    let mut refs: Vec<ClaimRef> = Vec::new();
    let mut i: usize = 0;
    while i < claims.len()
        invariant
            i <= claims@.len(),
            refs@.len() == i,
            forall|j: int| 0 <= j < i ==> (#[trigger] refs@[j])@ == claims@[j]@,
        decreases claims@.len() - i,
    {
        refs.push(claim_from_wire(&claims[i]));
        i += 1;
    }
    proof {
        assert(views(refs@) =~= views(claims@));
    }
    refs
}

impl<P: ClaimPreparer> DraPluginService<P> {
    /// The backend.
    pub closed spec fn backend(self) -> P {
        self.preparer
    }

    /// How claims are resolved.
    pub closed spec fn resolves_by(self) -> ClaimResolver {
        self.resolver
    }

    /// A service for a backend.
    pub fn new(resolver: ClaimResolver, preparer: P) -> (service: DraPluginService<P>)
        ensures
            service.backend() == preparer,
            service.resolves_by() == resolver,
    {
        DraPluginService { resolver, preparer }
    }

    /// The backend.
    pub fn preparer(&self) -> (preparer: &P)
        ensures
            *preparer == self.backend(),
    {
        &self.preparer
    }

    /// How claims are resolved.
    pub fn resolver(&self) -> (resolver: &ClaimResolver)
        ensures
            *resolver == self.resolves_by(),
    {
        &self.resolver
    }

    /// The claims of a request that are to be resolved, in its order.
    pub fn requested_claims(claims: &Vec<Claim>) -> (refs: Vec<ClaimRef>)
        ensures
            views(refs@) == views(claims@),
    {
        claim_refs(claims)
    }

    /// Prepares the claims of a request, once each was resolved or not.
    ///
    /// The backend gets all resolved claims in one call. Nothing that goes wrong
    /// with one claim keeps another from being prepared, and every claim has an
    /// answer.
    pub fn node_prepare_resources(
        &self,
        claims: &Vec<Claim>,
        resolved: Vec<Resolution>,
    ) -> (responses: OrderedMap<String, NodePrepareResourceResponse>)
        ensures
            exists|batch: Vec<ResolvedClaim>, prepared: Preparations|
                {
                    &&& #[trigger] call_ensures(P::prepare, (&self.backend(), &batch), prepared)
                    &&& views(batch@) == resolved_claims(resolved@)
                    &&& map_views(responses@) == prepare_responses(
                        OutcomesModel {
                            failures: resolve_failures(resolved@),
                            prepared: preparations(prepared@),
                        },
                        views(claims@),
                    )
                },
    {
        let refs = claim_refs(claims);
        let (batch, failures) = split_resolved(resolved);
        let prepared = self.preparer.prepare(&batch);
        let responses = answer_claims(refs, failures, prepared);
        proof {
            assert(call_ensures(P::prepare, (&self.backend(), &batch), prepared));
        }
        responses
    }

    /// Unprepares the claims of a request, each by itself.
    pub fn node_unprepare_resources(&self, claims: &Vec<Claim>) -> (responses: OrderedMap<
        String,
        NodeUnprepareResourceResponse,
    >)
        ensures
            exists|finished: Seq<(ClaimRef, Result<(), PrepareError>)>|
                {
                    &&& finished.len() == claims@.len()
                    &&& forall|i: int|
                        #![trigger finished[i]]
                        0 <= i < finished.len() ==> finished[i].0@ == claims@[i]@ && call_ensures(
                            P::unprepare,
                            (&self.backend(), &finished[i].0),
                            finished[i].1,
                        )
                    &&& map_views(responses@) == #[trigger] unprepare_responses(finished)
                },
    {
        let refs = claim_refs(claims);
        let ghost given = refs@;
        let mut finished: Vec<(ClaimRef, Result<(), PrepareError>)> = Vec::new();
        proof {
            assert(views(given).len() == views(claims@).len());
            assert forall|i: int| 0 <= i < given.len() implies (#[trigger] given[i])@ == claims@[i]@ by {
                assert(views(given)[i] == views(claims@)[i]);
            }
        }
        for claim in it: refs
            invariant
                it.seq() == given,
                given.len() == claims@.len(),
                forall|i: int| 0 <= i < given.len() ==> (#[trigger] given[i])@ == claims@[i]@,
                finished@.len() == it.index(),
                forall|i: int|
                    #![trigger finished@[i]]
                    0 <= i < finished@.len() ==> finished@[i].0@ == claims@[i]@ && call_ensures(
                        P::unprepare,
                        (&self.backend(), &finished@[i].0),
                        finished@[i].1,
                    ),
        {
            let result = self.preparer.unprepare(&claim);
            finished.push((claim, result));
        }
        let ghost outcomes = finished@;
        let responses = answer_unprepared(finished);
        proof {
            assert(map_views(responses@) == unprepare_responses(outcomes));
        }
        responses
    }
}

/// The path of a driver's socket, in its own directory below kubelet's.
pub open spec fn plugin_socket_text(driver_name: Seq<char>) -> Seq<char> {
    join_text(join_text(KUBELET_PLUGINS_PATH@, driver_name), PLUGIN_SOCKET@)
}

/// The path of a driver's socket.
pub fn plugin_socket_path(driver_name: &str) -> (path: String)
    ensures
        path@ == plugin_socket_text(driver_name@),
{
    join_path(join_path(KUBELET_PLUGINS_PATH, driver_name).as_str(), PLUGIN_SOCKET)
}

} // verus!
