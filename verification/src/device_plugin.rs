//! The device plugin service that kubelet calls, and its registration.

use crate::allocation::{
    allocation_text, AllocationError, AllocationFailure, ContainerAllocation,
    ContainerAllocationModel, K8sDevicePlugin,
};
use crate::device::{
    identity, Device, DeviceIdentity, DeviceModel, DevicePath, DevicePathModel, HostMount,
    HostMountModel,
};
use crate::duration::Duration;
use crate::health::health_text;
use crate::ordered_map::OrderedMap;
use crate::path::{file_name, file_name_text};
use crate::permissions::permissions_text;
use crate::record::{map_views, views};
use crate::socket_name::{sanitize_socket_name as sanitize_within, socket_name};
use crate::validation::{
    device_id_verdict, path_verdict, refusal_text, resource_name_verdict, validate_absolute_path,
    validate_device_id, validate_resource_name, verdict, Refusal, ValidationError,
};
use vstd::prelude::*;
use vstd::string::*;

verus! {

/// What kubelet calls a healthy device.
pub const HEALTHY: &'static str = "Healthy";

/// What kubelet calls an unhealthy device.
pub const UNHEALTHY: &'static str = "Unhealthy";

/// The version of the device plugin API.
pub const VERSION: &'static str = "v1beta1";

/// Where kubelet expects the sockets of device plugins.
pub const DEVICE_PLUGIN_PATH: &'static str = "/var/lib/kubelet/device-plugins/";

/// The name of kubelet's own socket there.
pub const KUBELET_SOCKET: &'static str = "kubelet.sock";

/// The code of a failed call.
#[derive(Clone, Copy, Debug, PartialEq, Eq, Structural)]
pub enum RpcCode {
    InvalidArgument,
    NotFound,
    FailedPrecondition,
    Unimplemented,
    Internal,
    Unavailable,
}

/// Why a call of kubelet failed.
#[derive(Clone, Debug, PartialEq, Eq)]
pub struct RpcStatus {
    pub code: RpcCode,
    pub message: String,
}

/// What an [`RpcStatus`] says.
pub struct RpcStatusModel {
    pub code: RpcCode,
    pub message: Seq<char>,
}

impl View for RpcStatus {
    type V = RpcStatusModel;

    open spec fn view(&self) -> RpcStatusModel {
        RpcStatusModel { code: self.code, message: self.message@ }
    }
}

/// A device as kubelet is told of it.
#[derive(Clone, Debug, PartialEq, Eq)]
pub struct ListedDevice {
    pub id: String,
    pub health: String,
}

/// What a [`ListedDevice`] says.
pub struct ListedDeviceModel {
    pub id: Seq<char>,
    pub health: Seq<char>,
}

impl View for ListedDevice {
    type V = ListedDeviceModel;

    open spec fn view(&self) -> ListedDeviceModel {
        ListedDeviceModel { id: self.id@, health: self.health@ }
    }
}

/// A device as kubelet is told of it: its id and the name of its health.
pub open spec fn listed(device: DeviceModel) -> ListedDeviceModel {
    ListedDeviceModel { id: device.id, health: health_text(device.health) }
}

/// Turns a device into what kubelet is told of it.
pub fn device_to_proto(device: &Device) -> (message: ListedDevice)
    ensures
        message@ == listed(device@),
{
    ListedDevice { id: device.id.clone(), health: device.health.to_string() }
}

/// Whether the paths of a file on the host and in the container are absolute;
/// the host's is checked first.
pub open spec fn places_verdict(host_path: Seq<char>, container_path: Seq<char>) -> Result<
    (),
    Refusal,
> {
    match path_verdict(host_path) {
        Err(refusal) => Err(refusal),
        Ok(()) => path_verdict(container_path),
    }
}

fn validate_places(host_path: &str, container_path: &str) -> (result: Result<(), ValidationError>)
    ensures
        verdict(result) == places_verdict(host_path@, container_path@),
{
    match validate_absolute_path(host_path) {
        Err(error) => Err(error),
        Ok(()) => validate_absolute_path(container_path),
    }
}

/// Whether the paths of device files are absolute, in their order.
pub open spec fn device_paths_verdict(paths: Seq<DevicePathModel>) -> Result<(), Refusal>
    decreases paths.len(),
{
    if paths.len() == 0 {
        Ok(())
    } else {
        match device_paths_verdict(paths.drop_last()) {
            Err(refusal) => Err(refusal),
            Ok(()) => places_verdict(paths.last().host_path, paths.last().container_path),
        }
    }
}

/// Whether the paths of mounts are absolute, in their order.
pub open spec fn mounts_verdict(mounts: Seq<HostMountModel>) -> Result<(), Refusal>
    decreases mounts.len(),
{
    if mounts.len() == 0 {
        Ok(())
    } else {
        match mounts_verdict(mounts.drop_last()) {
            Err(refusal) => Err(refusal),
            Ok(()) => places_verdict(mounts.last().host_path, mounts.last().container_path),
        }
    }
}

proof fn lemma_device_paths_failure(paths: Seq<DevicePathModel>, n: int)
    requires
        0 <= n <= paths.len(),
        device_paths_verdict(paths.take(n)) is Err,
    ensures
        device_paths_verdict(paths) == device_paths_verdict(paths.take(n)),
    decreases paths.len() - n,
{
    if n == paths.len() {
        assert(paths.take(n) =~= paths);
    } else {
        assert(paths.take(n + 1).drop_last() =~= paths.take(n));
        lemma_device_paths_failure(paths, n + 1);
    }
}

proof fn lemma_mounts_failure(mounts: Seq<HostMountModel>, n: int)
    requires
        0 <= n <= mounts.len(),
        mounts_verdict(mounts.take(n)) is Err,
    ensures
        mounts_verdict(mounts) == mounts_verdict(mounts.take(n)),
    decreases mounts.len() - n,
{
    if n == mounts.len() {
        assert(mounts.take(n) =~= mounts);
    } else {
        assert(mounts.take(n + 1).drop_last() =~= mounts.take(n));
        lemma_mounts_failure(mounts, n + 1);
    }
}

fn validate_device_paths(paths: &Vec<DevicePath>) -> (result: Result<(), ValidationError>)
    ensures
        verdict(result) == device_paths_verdict(views(paths@)),
{
    let ghost models = views(paths@);
    let mut i: usize = 0;
    proof {
        assert(models.take(0) =~= Seq::empty());
    }
    while i < paths.len()
        invariant
            i <= paths@.len(),
            models == views(paths@),
            device_paths_verdict(models.take(i as int)) is Ok,
        decreases paths@.len() - i,
    {
        proof {
            assert(models.take(i + 1).drop_last() =~= models.take(i as int));
            assert(models.take(i + 1).last() == paths@[i as int]@);
        }
        match validate_places(paths[i].host_path.as_str(), paths[i].container_path.as_str()) {
            Ok(()) => {},
            Err(error) => {
                proof {
                    lemma_device_paths_failure(models, i + 1);
                }
                return Err(error);
            },
        }
        i += 1;
    }
    proof {
        assert(models.take(i as int) =~= models);
    }
    Ok(())
}

fn validate_mounts(mounts: &Vec<HostMount>) -> (result: Result<(), ValidationError>)
    ensures
        verdict(result) == mounts_verdict(views(mounts@)),
{
    let ghost models = views(mounts@);
    let mut i: usize = 0;
    proof {
        assert(models.take(0) =~= Seq::empty());
    }
    while i < mounts.len()
        invariant
            i <= mounts@.len(),
            models == views(mounts@),
            mounts_verdict(models.take(i as int)) is Ok,
        decreases mounts@.len() - i,
    {
        proof {
            assert(models.take(i + 1).drop_last() =~= models.take(i as int));
            assert(models.take(i + 1).last() == mounts@[i as int]@);
        }
        match validate_places(mounts[i].host_path.as_str(), mounts[i].container_path.as_str()) {
            Ok(()) => {},
            Err(error) => {
                proof {
                    lemma_mounts_failure(models, i + 1);
                }
                return Err(error);
            },
        }
        i += 1;
    }
    proof {
        assert(models.take(i as int) =~= models);
    }
    Ok(())
}

/// Whether kubelet can be told of a device: its id is valid and its paths are
/// absolute.
pub open spec fn device_verdict(device: DeviceModel) -> Result<(), Refusal> {
    match device_id_verdict(device.id) {
        Err(refusal) => Err(refusal),
        Ok(()) => device_paths_verdict(device.paths),
    }
}

/// Checks the id and the paths of a device.
pub fn validate_device(device: &Device) -> (result: Result<(), ValidationError>)
    ensures
        verdict(result) == device_verdict(device@),
{
    match validate_device_id(device.id.as_str()) {
        Err(error) => Err(error),
        Ok(()) => validate_device_paths(&device.paths),
    }
}

/// The devices that kubelet can be told of, in their order.
pub open spec fn accepted(devices: Seq<DeviceModel>) -> Seq<DeviceModel> {
    devices.filter(|device: DeviceModel| device_verdict(device) is Ok)
}

/// Leaves out the devices that kubelet cannot be told of, so that one of them
/// does not keep the others from being reported.
pub fn valid_devices(devices: &Vec<Device>) -> (valid: Vec<Device>)
    ensures
        views(valid@) == accepted(views(devices@)),
{
    let ghost models = views(devices@);
    let mut valid: Vec<Device> = Vec::new();
    let mut i: usize = 0;
    proof {
        reveal(Seq::filter);
        assert(views(valid@) =~= accepted(models.take(0)));
    }
    while i < devices.len()
        invariant
            i <= devices@.len(),
            models == views(devices@),
            views(valid@) == accepted(models.take(i as int)),
        decreases devices@.len() - i,
    {
        let ghost earlier = views(valid@);
        proof {
            reveal(Seq::filter);
            assert(models.take(i + 1).drop_last() =~= models.take(i as int));
            assert(models.take(i + 1).last() == devices@[i as int]@);
        }
        if let Ok(()) = validate_device(&devices[i]) {
            valid.push(devices[i].copy());
            proof {
                assert(views(valid@) =~= earlier.push(devices@[i as int]@));
            }
        }
        i += 1;
    }
    proof {
        assert(models.take(i as int) =~= models);
    }
    valid
}

/// Whether a container can get an allocation: all paths are absolute.
pub open spec fn allocation_verdict(allocation: ContainerAllocationModel) -> Result<(), Refusal> {
    match device_paths_verdict(allocation.device_paths) {
        Err(refusal) => Err(refusal),
        Ok(()) => mounts_verdict(allocation.mounts),
    }
}

/// Checks every path that kubelet would mount into a container.
pub fn validate_allocation(allocation: &ContainerAllocation) -> (result: Result<
    (),
    ValidationError,
>)
    ensures
        verdict(result) == allocation_verdict(allocation@),
{
    match validate_device_paths(&allocation.device_paths) {
        Err(error) => Err(error),
        Ok(()) => validate_mounts(&allocation.mounts),
    }
}

/// What makes the devices of a list equal to others.
pub open spec fn identities(devices: Seq<DeviceModel>) -> Seq<DeviceIdentity> {
    Seq::new(devices.len(), |i: int| identity(devices[i]))
}

/// Two lists hold equal devices, each as often, in whatever order.
pub open spec fn same_devices(left: Seq<DeviceModel>, right: Seq<DeviceModel>) -> bool {
    identities(left).to_multiset() == identities(right).to_multiset()
}

fn count_equal(devices: &Vec<Device>, device: &Device) -> (count: usize)
    ensures
        count == identities(views(devices@)).to_multiset().count(identity(device@)),
{
    let ghost all = identities(views(devices@));
    let mut count: usize = 0;
    let mut i: usize = 0;
    proof {
        broadcast use vstd::multiset::group_multiset_axioms;

        assert(all.take(0) =~= Seq::empty());
        all.take(0).to_multiset_ensures();
        assert(all.take(0).to_multiset().count(identity(device@)) == 0) by {
            assert(!all.take(0).contains(identity(device@)));
        }
    }
    while i < devices.len()
        invariant
            i <= devices@.len(),
            count <= i,
            all == identities(views(devices@)),
            count == all.take(i as int).to_multiset().count(identity(device@)),
        decreases devices@.len() - i,
    {
        proof {
            broadcast use vstd::multiset::group_multiset_axioms;

            all.take(i as int).to_multiset_ensures();
            assert(all.take(i + 1) =~= all.take(i as int).push(identity(devices@[i as int]@)));
        }
        if devices[i].equals(device) {
            count += 1;
        }
        i += 1;
    }
    proof {
        assert(all.take(i as int) =~= all);
    }
    count
}

fn counts_agree(devices: &Vec<Device>, left: &Vec<Device>, right: &Vec<Device>) -> (agree: bool)
    ensures
        agree == forall|i: int|
            #![trigger devices@[i]]
            0 <= i < devices@.len() ==> identities(views(left@)).to_multiset().count(
                identity(devices@[i]@),
            ) == identities(views(right@)).to_multiset().count(identity(devices@[i]@)),
{
    let mut i: usize = 0;
    while i < devices.len()
        invariant
            i <= devices@.len(),
            forall|j: int|
                #![trigger devices@[j]]
                0 <= j < i ==> identities(views(left@)).to_multiset().count(
                    identity(devices@[j]@),
                ) == identities(views(right@)).to_multiset().count(identity(devices@[j]@)),
        decreases devices@.len() - i,
    {
        if count_equal(left, &devices[i]) != count_equal(right, &devices[i]) {
            return false;
        }
        i += 1;
    }
    true
}

/// Compares two snapshots of devices by content, in whatever order, so that a
/// backend that lists its devices in no stable order does not cause updates.
pub fn devices_equal_ignoring_order(a: &Vec<Device>, b: &Vec<Device>) -> (same: bool)
    ensures
        same == same_devices(views(a@), views(b@)),
{
    let same = counts_agree(a, a, b) && counts_agree(b, a, b);
    proof {
        let left = identities(views(a@));
        let right = identities(views(b@));
        left.to_multiset_ensures();
        right.to_multiset_ensures();
        if same {
            assert forall|x: DeviceIdentity| left.to_multiset().count(x)
                == right.to_multiset().count(x) by {
                if left.contains(x) {
                    let k = left.index_of(x);
                    assert(identity(a@[k]@) == x);
                } else if right.contains(x) {
                    let k = right.index_of(x);
                    assert(identity(b@[k]@) == x);
                }
            }
            assert(left.to_multiset() =~= right.to_multiset());
        }
    }
    same
}

/// A device file as kubelet is told of it.
#[derive(Clone, Debug, PartialEq, Eq)]
pub struct DeviceSpec {
    pub container_path: String,
    pub host_path: String,
    pub permissions: String,
}

/// What a [`DeviceSpec`] says.
pub struct DeviceSpecModel {
    pub container_path: Seq<char>,
    pub host_path: Seq<char>,
    pub permissions: Seq<char>,
}

impl View for DeviceSpec {
    type V = DeviceSpecModel;

    open spec fn view(&self) -> DeviceSpecModel {
        DeviceSpecModel {
            container_path: self.container_path@,
            host_path: self.host_path@,
            permissions: self.permissions@,
        }
    }
}

/// A device file as kubelet is told of it.
pub open spec fn device_spec(path: DevicePathModel) -> DeviceSpecModel {
    DeviceSpecModel {
        container_path: path.container_path,
        host_path: path.host_path,
        permissions: permissions_text(path.permissions),
    }
}

/// Turns a device file into what kubelet is told of it.
pub fn device_path_to_spec(path: &DevicePath) -> (message: DeviceSpec)
    ensures
        message@ == device_spec(path@),
{
    DeviceSpec {
        container_path: path.container_path.clone(),
        host_path: path.host_path.clone(),
        permissions: path.permissions.to_string(),
    }
}

/// A mount as kubelet is told of it.
#[derive(Clone, Debug, PartialEq, Eq)]
pub struct Mount {
    pub container_path: String,
    pub host_path: String,
    pub read_only: bool,
}

impl View for Mount {
    type V = HostMountModel;

    open spec fn view(&self) -> HostMountModel {
        HostMountModel {
            host_path: self.host_path@,
            container_path: self.container_path@,
            read_only: self.read_only,
        }
    }
}

/// Turns a mount into what kubelet is told of it.
pub fn host_mount_to_proto(mount: &HostMount) -> (message: Mount)
    ensures
        message@ == mount@,
{
    Mount {
        container_path: mount.container_path.clone(),
        host_path: mount.host_path.clone(),
        read_only: mount.read_only,
    }
}

/// A CDI device as kubelet is told of it.
#[derive(Clone, Debug, PartialEq, Eq)]
pub struct CdiDevice {
    pub name: String,
}

impl View for CdiDevice {
    type V = Seq<char>;

    open spec fn view(&self) -> Seq<char> {
        self.name@
    }
}

/// What kubelet is to give a container.
#[derive(Clone, Debug, PartialEq)]
pub struct ContainerAllocateResponse {
    pub envs: OrderedMap<String, String>,
    pub mounts: Vec<Mount>,
    pub devices: Vec<DeviceSpec>,
    pub annotations: OrderedMap<String, String>,
    pub cdi_devices: Vec<CdiDevice>,
}

/// What a [`ContainerAllocateResponse`] says.
pub struct ContainerResponseModel {
    pub envs: Map<Seq<char>, Seq<char>>,
    pub mounts: Seq<HostMountModel>,
    pub devices: Seq<DeviceSpecModel>,
    pub annotations: Map<Seq<char>, Seq<char>>,
    pub cdi_devices: Seq<Seq<char>>,
}

impl View for ContainerAllocateResponse {
    type V = ContainerResponseModel;

    open spec fn view(&self) -> ContainerResponseModel {
        ContainerResponseModel {
            envs: map_views(self.envs@),
            mounts: views(self.mounts@),
            devices: views(self.devices@),
            annotations: map_views(self.annotations@),
            cdi_devices: views(self.cdi_devices@),
        }
    }
}

/// What kubelet is to give a container for an allocation.
pub open spec fn container_response(allocation: ContainerAllocationModel) -> ContainerResponseModel {
    ContainerResponseModel {
        envs: allocation.envs,
        mounts: allocation.mounts,
        devices: Seq::new(
            allocation.device_paths.len(),
            |i: int| device_spec(allocation.device_paths[i]),
        ),
        annotations: allocation.annotations,
        cdi_devices: allocation.cdi_devices,
    }
}

/// Turns an allocation into what kubelet is to give the container.
pub fn container_allocation_to_response(allocation: ContainerAllocation) -> (response:
    ContainerAllocateResponse)
    ensures
        response@ == container_response(allocation@),
{
    let mut devices: Vec<DeviceSpec> = Vec::new();
    let mut i: usize = 0;
    while i < allocation.device_paths.len()
        invariant
            i <= allocation.device_paths@.len(),
            devices@.len() == i,
            forall|j: int|
                0 <= j < i ==> (#[trigger] devices@[j])@ == device_spec(
                    allocation.device_paths@[j]@,
                ),
        decreases allocation.device_paths@.len() - i,
    {
        devices.push(device_path_to_spec(&allocation.device_paths[i]));
        i += 1;
    }
    let mut mounts: Vec<Mount> = Vec::new();
    let mut j: usize = 0;
    while j < allocation.mounts.len()
        invariant
            j <= allocation.mounts@.len(),
            mounts@.len() == j,
            forall|k: int| 0 <= k < j ==> (#[trigger] mounts@[k])@ == allocation.mounts@[k]@,
        decreases allocation.mounts@.len() - j,
    {
        mounts.push(host_mount_to_proto(&allocation.mounts[j]));
        j += 1;
    }
    let ghost names = allocation.cdi_devices@;
    let mut cdi_devices: Vec<CdiDevice> = Vec::new();
    for name in it: allocation.cdi_devices
        invariant
            it.seq() == names,
            cdi_devices@.len() == it.index(),
            forall|k: int| 0 <= k < it.index() ==> (#[trigger] cdi_devices@[k])@ == names[k]@,
    {
        cdi_devices.push(CdiDevice { name });
    }
    let response = ContainerAllocateResponse {
        envs: allocation.envs,
        mounts,
        devices,
        annotations: allocation.annotations,
        cdi_devices,
    };
    proof {
        let wanted = container_response(allocation@);
        assert(response@.mounts =~= wanted.mounts);
        assert(response@.devices =~= wanted.devices);
        assert(response@.cdi_devices =~= wanted.cdi_devices);
    }
    response
}

/// The code that kubelet gets for a failed allocation.
pub open spec fn allocation_code(failure: AllocationFailure) -> RpcCode {
    match failure {
        AllocationFailure::DeviceNotFound(_) => RpcCode::NotFound,
        AllocationFailure::PreferredAllocationUnavailable => RpcCode::Unimplemented,
        AllocationFailure::HookFailed(_) => RpcCode::FailedPrecondition,
        AllocationFailure::DeviceUnavailable(_) => RpcCode::Unavailable,
    }
}

/// What kubelet gets for a failed allocation.
pub open spec fn allocation_status(failure: AllocationFailure) -> RpcStatusModel {
    RpcStatusModel { code: allocation_code(failure), message: allocation_text(failure) }
}

/// Turns a failed allocation into what kubelet gets, the same way in every call.
pub fn allocation_error_to_status(error: AllocationError) -> (status: RpcStatus)
    ensures
        status@ == allocation_status(error@),
{
    let message = error.to_string();
    let code = match error {
        AllocationError::DeviceNotFound(_) => RpcCode::NotFound,
        AllocationError::PreferredAllocationUnavailable => RpcCode::Unimplemented,
        AllocationError::HookFailed(_) => RpcCode::FailedPrecondition,
        AllocationError::DeviceUnavailable(_) => RpcCode::Unavailable,
    };
    RpcStatus { code, message }
}

/// How the task of one container ended.
#[derive(Debug, PartialEq)]
pub enum AllocateOutcome {
    Finished(Result<ContainerAllocation, AllocationError>),
    /// The task broke off, with the reason.
    Panicked(String),
}

/// What an [`AllocateOutcome`] says.
pub enum OutcomeModel {
    Finished(Result<ContainerAllocationModel, AllocationFailure>),
    Panicked(Seq<char>),
}

/// The result of an allocation, over views.
pub open spec fn allocated(result: Result<ContainerAllocation, AllocationError>) -> Result<
    ContainerAllocationModel,
    AllocationFailure,
> {
    match result {
        Ok(allocation) => Ok(allocation@),
        Err(error) => Err(error@),
    }
}

impl View for AllocateOutcome {
    type V = OutcomeModel;

    open spec fn view(&self) -> OutcomeModel {
        match *self {
            AllocateOutcome::Finished(result) => OutcomeModel::Finished(allocated(result)),
            AllocateOutcome::Panicked(reason) => OutcomeModel::Panicked(reason@),
        }
    }
}

/// What kubelet gets for one container: a failed allocation, one with a path
/// that is not absolute, or a task that broke off is an error.
pub open spec fn container_answer(outcome: OutcomeModel) -> Result<
    ContainerResponseModel,
    RpcStatusModel,
> {
    match outcome {
        OutcomeModel::Finished(Ok(allocation)) => match allocation_verdict(allocation) {
            Ok(()) => Ok(container_response(allocation)),
            Err(refusal) => Err(
                RpcStatusModel { code: RpcCode::Internal, message: refusal_text(refusal) },
            ),
        },
        OutcomeModel::Finished(Err(failure)) => Err(allocation_status(failure)),
        OutcomeModel::Panicked(reason) => Err(
            RpcStatusModel {
                code: RpcCode::Internal,
                message: "allocate task panicked: "@ + reason,
            },
        ),
    }
}

/// The result of a call, over views.
pub open spec fn answer<T: View>(result: Result<T, RpcStatus>) -> Result<T::V, RpcStatusModel> {
    match result {
        Ok(value) => Ok(value@),
        Err(status) => Err(status@),
    }
}

/// Answers for one container.
pub fn answer_container(outcome: AllocateOutcome) -> (result: Result<
    ContainerAllocateResponse,
    RpcStatus,
>)
    ensures
        answer(result) == container_answer(outcome@),
{
    match outcome {
        AllocateOutcome::Finished(Ok(allocation)) => match validate_allocation(&allocation) {
            Ok(()) => Ok(container_allocation_to_response(allocation)),
            Err(error) => Err(RpcStatus { code: RpcCode::Internal, message: error.to_string() }),
        },
        AllocateOutcome::Finished(Err(error)) => Err(allocation_error_to_status(error)),
        AllocateOutcome::Panicked(reason) => {
            let mut message = "allocate task panicked: ".to_owned();
            message.append(reason.as_str());
            Err(RpcStatus { code: RpcCode::Internal, message })
        },
    }
}

/// What kubelet gets for all containers of a request, in its order. The first
/// container that fails decides.
pub open spec fn batch_answer(outcomes: Seq<OutcomeModel>) -> Result<
    Seq<ContainerResponseModel>,
    RpcStatusModel,
>
    decreases outcomes.len(),
{
    if outcomes.len() == 0 {
        Ok(Seq::empty())
    } else {
        with_answer(batch_answer(outcomes.drop_last()), outcomes.last())
    }
}

/// What kubelet gets once one more container has ended: after a failure nothing
/// changes any more.
pub open spec fn with_answer(
    earlier: Result<Seq<ContainerResponseModel>, RpcStatusModel>,
    outcome: OutcomeModel,
) -> Result<Seq<ContainerResponseModel>, RpcStatusModel> {
    match earlier {
        Err(status) => Err(status),
        Ok(responses) => match container_answer(outcome) {
            Ok(response) => Ok(responses.push(response)),
            Err(status) => Err(status),
        },
    }
}

/// The result for all containers, over views.
pub open spec fn answers(result: Result<Vec<ContainerAllocateResponse>, RpcStatus>) -> Result<
    Seq<ContainerResponseModel>,
    RpcStatusModel,
> {
    match result {
        Ok(responses) => Ok(views(responses@)),
        Err(status) => Err(status@),
    }
}

/// The answer to a request while its containers end one by one, in the order of
/// the request.
#[derive(Debug)]
pub struct AllocationBatch {
    result: Result<Vec<ContainerAllocateResponse>, RpcStatus>,
}

impl View for AllocationBatch {
    type V = Result<Seq<ContainerResponseModel>, RpcStatusModel>;

    closed spec fn view(&self) -> Result<Seq<ContainerResponseModel>, RpcStatusModel> {
        answers(self.result)
    }
}

impl AllocationBatch {
    /// The answer before any container has ended.
    pub fn new() -> (batch: AllocationBatch)
        ensures
            batch@ == batch_answer(Seq::empty()),
    {
        let batch = AllocationBatch { result: Ok(Vec::new()) };
        proof {
            assert(views(Seq::<ContainerAllocateResponse>::empty()) =~= Seq::empty());
        }
        batch
    }

    /// Whether no container has failed, so that the next one is to be waited
    /// for.
    pub fn goes_on(&self) -> (open: bool)
        ensures
            open == (self@ is Ok),
    {
        self.result.is_ok()
    }

    /// The answer once the next container has ended.
    pub fn add(self, outcome: AllocateOutcome) -> (batch: AllocationBatch)
        ensures
            batch@ == with_answer(self@, outcome@),
    {
        match self.result {
            Ok(responses) => {
                let mut responses = responses;
                let ghost earlier = views(responses@);
                match answer_container(outcome) {
                    Ok(response) => {
                        let ghost model = response@;
                        responses.push(response);
                        proof {
                            assert(views(responses@) =~= earlier.push(model));
                        }
                        AllocationBatch { result: Ok(responses) }
                    },
                    Err(status) => AllocationBatch { result: Err(status) },
                }
            },
            Err(status) => AllocationBatch { result: Err(status) },
        }
    }

    /// The answer to kubelet.
    pub fn finish(self) -> (result: Result<Vec<ContainerAllocateResponse>, RpcStatus>)
        ensures
            answers(result) == self@,
    {
        self.result
    }
}

/// Answers for all containers of a request, given how each of them ended.
pub fn answer_batch(outcomes: Vec<AllocateOutcome>) -> (result: Result<
    Vec<ContainerAllocateResponse>,
    RpcStatus,
>)
    ensures
        answers(result) == batch_answer(views(outcomes@)),
{
    let ghost given = outcomes@;
    let ghost models = views(given);
    let mut batch = AllocationBatch::new();
    proof {
        assert(models.take(0) =~= Seq::empty());
    }
    for outcome in it: outcomes
        invariant
            it.seq() == given,
            models == views(given),
            batch@ == batch_answer(models.take(it.index())),
    {
        proof {
            assert(models.take(it.index() + 1).drop_last() =~= models.take(it.index()));
            assert(models.take(it.index() + 1).last() == outcome@);
        }
        batch = batch.add(outcome);
    }
    proof {
        assert(models.take(models.len() as int) =~= models);
    }
    batch.finish()
}

/// What kubelet may ask of a plugin beyond listing and allocating.
#[derive(Clone, Copy, Debug, PartialEq, Eq, Structural)]
pub struct DevicePluginOptions {
    pub pre_start_required: bool,
    pub get_preferred_allocation_available: bool,
}

/// The devices that kubelet is told of.
#[derive(Clone, Debug, PartialEq, Eq)]
pub struct ListAndWatchResponse {
    pub devices: Vec<ListedDevice>,
}

impl View for ListAndWatchResponse {
    type V = Seq<ListedDeviceModel>;

    open spec fn view(&self) -> Seq<ListedDeviceModel> {
        views(self.devices@)
    }
}

/// A list of devices as kubelet is told of it.
pub open spec fn listing(devices: Seq<DeviceModel>) -> Seq<ListedDeviceModel> {
    Seq::new(devices.len(), |i: int| listed(devices[i]))
}

/// Turns a list of devices into what kubelet is told of it.
pub fn list_devices(devices: &Vec<Device>) -> (response: ListAndWatchResponse)
    ensures
        response@ == listing(views(devices@)),
{
    let mut messages: Vec<ListedDevice> = Vec::new();
    let mut i: usize = 0;
    while i < devices.len()
        invariant
            i <= devices@.len(),
            messages@.len() == i,
            forall|j: int| 0 <= j < i ==> (#[trigger] messages@[j])@ == listed(devices@[j]@),
        decreases devices@.len() - i,
    {
        messages.push(device_to_proto(&devices[i]));
        i += 1;
    }
    let response = ListAndWatchResponse { devices: messages };
    proof {
        assert(response@ =~= listing(views(devices@)));
    }
    response
}

/// An open watch of kubelet: the devices that it was told of last.
pub struct DeviceWatch {
    last_devices: Vec<Device>,
}

impl View for DeviceWatch {
    type V = Seq<DeviceModel>;

    closed spec fn view(&self) -> Seq<DeviceModel> {
        views(self.last_devices@)
    }
}

impl DeviceWatch {
    /// Opens a watch: kubelet is told of the valid devices among those found.
    pub fn open(discovered: &Vec<Device>) -> (opened: (DeviceWatch, ListAndWatchResponse))
        ensures
            opened.0@ == accepted(views(discovered@)),
            opened.1@ == listing(accepted(views(discovered@))),
    {
        let last_devices = valid_devices(discovered);
        let response = list_devices(&last_devices);
        (DeviceWatch { last_devices }, response)
    }

    /// Goes on after another look at the devices: kubelet is told of them again
    /// only where the valid ones have changed in more than their order.
    pub fn poll(&mut self, discovered: &Vec<Device>) -> (update: Option<ListAndWatchResponse>)
        ensures
            ({
                let found = accepted(views(discovered@));
                if same_devices(found, old(self)@) {
                    update is None && final(self)@ == old(self)@
                } else {
                    final(self)@ == found && match update {
                        Some(response) => response@ == listing(found),
                        None => false,
                    }
                }
            }),
    {
        let devices = valid_devices(discovered);
        if devices_equal_ignoring_order(&devices, &self.last_devices) {
            return None;
        }
        let response = list_devices(&devices);
        self.last_devices = devices;
        Some(response)
    }
}

/// What kubelet asks to be chosen for one container.
#[derive(Clone, Debug, PartialEq, Eq)]
pub struct ContainerPreferredAllocationRequest {
    pub available_device_ids: Vec<String>,
    pub must_include_device_ids: Vec<String>,
    pub allocation_size: i32,
}

/// What kubelet gets for the choice of one container.
pub open spec fn preference(result: Result<Vec<String>, AllocationError>) -> Result<
    Seq<Seq<char>>,
    RpcStatusModel,
> {
    match result {
        Ok(ids) => Ok(views(ids@)),
        Err(error) => Err(allocation_status(error@)),
    }
}

/// The refusal of a negative size.
pub open spec fn negative_size() -> RpcStatusModel {
    RpcStatusModel {
        code: RpcCode::InvalidArgument,
        message: "allocation_size must be non-negative"@,
    }
}

/// The answer of a backend that does not choose devices.
pub open spec fn no_preference() -> RpcStatusModel {
    allocation_status(AllocationFailure::PreferredAllocationUnavailable)
}

/// A result is what the backend chose for one container.
pub open spec fn is_choice<P: K8sDevicePlugin>(
    backend: P,
    request: ContainerPreferredAllocationRequest,
    result: Result<Vec<String>, RpcStatus>,
) -> bool {
    exists|chosen: Result<Vec<String>, AllocationError>|
        {
            &&& #[trigger] call_ensures(
                P::preferred_allocation,
                (
                    &backend,
                    &request.available_device_ids,
                    &request.must_include_device_ids,
                    request.allocation_size as usize,
                ),
                chosen,
            )
            &&& (match result {
                Ok(ids) => Ok(views(ids@)),
                Err(status) => Err(status@),
            }) == preference(chosen)
        }
}

/// A result is the refusal of a negative size, the refusal to choose where the
/// backend says that it does not, or what the backend chose for one container.
pub open spec fn is_preference<P: K8sDevicePlugin>(
    backend: P,
    request: ContainerPreferredAllocationRequest,
    result: Result<Vec<String>, RpcStatus>,
) -> bool {
    if request.allocation_size < 0 {
        match result {
            Err(status) => status@ == negative_size(),
            Ok(_) => false,
        }
    } else {
        exists|available: bool|
            {
                &&& #[trigger] call_ensures(
                    P::preferred_allocation_available,
                    (&backend,),
                    available,
                )
                &&& if available {
                    is_choice(backend, request, result)
                } else {
                    match result {
                        Err(status) => status@ == no_preference(),
                        Ok(_) => false,
                    }
                }
            }
    }
}

/// The backend chose devices for one container.
pub open spec fn preference_found<P: K8sDevicePlugin>(
    backend: P,
    request: ContainerPreferredAllocationRequest,
) -> bool {
    exists|ids: Vec<String>| is_preference(backend, request, Ok(ids))
}

/// The container at place `k` is the first that fails, with this status.
pub open spec fn preference_stops<P: K8sDevicePlugin>(
    backend: P,
    requests: Seq<ContainerPreferredAllocationRequest>,
    k: int,
    status: RpcStatus,
) -> bool {
    &&& 0 <= k < requests.len()
    &&& is_preference(backend, requests[k], Err(status))
    &&& forall|j: int| 0 <= j < k ==> preference_found(backend, #[trigger] requests[j])
}

/// How often a plugin looks at its devices unless another interval is chosen.
pub const DEFAULT_POLL_SECONDS: u64 = 5;

/// The service between kubelet and a backend.
pub struct DevicePluginService<P: K8sDevicePlugin> {
    plugin: P,
    poll_interval: Duration,
}

impl<P: K8sDevicePlugin> DevicePluginService<P> {
    /// The backend.
    pub closed spec fn backend(self) -> P {
        self.plugin
    }

    /// How often the devices are looked at.
    pub closed spec fn interval(self) -> nat {
        self.poll_interval@
    }

    /// A service for a backend.
    pub fn new(plugin: P) -> (service: DevicePluginService<P>)
        ensures
            service.backend() == plugin,
            service.interval() == 5_000_000_000,
    {
        DevicePluginService { plugin, poll_interval: Duration::from_secs(DEFAULT_POLL_SECONDS) }
    }

    /// Changes how often the devices are looked at.
    #[must_use]
    pub fn with_poll_interval(self, poll_interval: Duration) -> (service: DevicePluginService<P>)
        ensures
            service.backend() == self.backend(),
            service.interval() == poll_interval@,
    {
        DevicePluginService { plugin: self.plugin, poll_interval }
    }

    /// The backend.
    pub fn plugin(&self) -> (plugin: &P)
        ensures
            *plugin == self.backend(),
    {
        &self.plugin
    }

    /// How often the devices are looked at.
    pub fn poll_interval(&self) -> (interval: Duration)
        ensures
            interval@ == self.interval(),
    {
        self.poll_interval
    }

    /// What kubelet may ask of the backend.
    pub fn get_device_plugin_options(&self) -> (options: DevicePluginOptions)
        ensures
            call_ensures(P::pre_start_required, (&self.backend(),), options.pre_start_required),
            call_ensures(
                P::preferred_allocation_available,
                (&self.backend(),),
                options.get_preferred_allocation_available,
            ),
    {
        DevicePluginOptions {
            pre_start_required: self.plugin.pre_start_required(),
            get_preferred_allocation_available: self.plugin.preferred_allocation_available(),
        }
    }

    /// Opens a watch on the devices of the backend.
    pub fn list_and_watch(&self) -> (opened: (DeviceWatch, ListAndWatchResponse))
        ensures
            exists|discovered: Vec<Device>| #[trigger]
                call_ensures(P::discover, (&self.backend(),), discovered) && opened.0@ == accepted(
                    views(discovered@),
                ) && opened.1@ == listing(accepted(views(discovered@))),
    {
        let discovered = self.plugin.discover();
        let opened = DeviceWatch::open(&discovered);
        proof {
            assert(call_ensures(P::discover, (&self.backend(),), discovered));
        }
        opened
    }

    /// Looks at the devices of the backend again for an open watch.
    pub fn watch_again(&self, watch: &mut DeviceWatch) -> (update: Option<ListAndWatchResponse>)
        ensures
            exists|discovered: Vec<Device>| #[trigger]
                call_ensures(P::discover, (&self.backend(),), discovered) && ({
                    let found = accepted(views(discovered@));
                    if same_devices(found, old(watch)@) {
                        update is None && final(watch)@ == old(watch)@
                    } else {
                        final(watch)@ == found && match update {
                            Some(response) => response@ == listing(found),
                            None => false,
                        }
                    }
                }),
    {
        let discovered = self.plugin.discover();
        let update = watch.poll(&discovered);
        proof {
            assert(call_ensures(P::discover, (&self.backend(),), discovered));
        }
        update
    }

    /// Allocates the devices of one container.
    pub fn allocate_container(&self, device_ids: &Vec<String>) -> (outcome: AllocateOutcome)
        ensures
            match outcome {
                AllocateOutcome::Finished(result) => call_ensures(
                    P::allocate,
                    (&self.backend(), device_ids),
                    result,
                ),
                AllocateOutcome::Panicked(_) => false,
            },
    {
        AllocateOutcome::Finished(self.plugin.allocate(device_ids))
    }

    /// Allocates the devices of all containers of a request. The first container
    /// that fails decides, and the backend is not asked for those after it.
    pub fn allocate(&self, container_requests: &Vec<Vec<String>>) -> (result: Result<
        Vec<ContainerAllocateResponse>,
        RpcStatus,
    >)
        ensures
            exists|outcomes: Seq<AllocateOutcome>|
                {
                    &&& outcomes.len() <= container_requests@.len()
                    &&& result is Ok ==> outcomes.len() == container_requests@.len()
                    &&& forall|i: int|
                        #![trigger outcomes[i]]
                        0 <= i < outcomes.len() ==> match outcomes[i] {
                            AllocateOutcome::Finished(result) => call_ensures(
                                P::allocate,
                                (&self.backend(), &container_requests@[i]),
                                result,
                            ),
                            AllocateOutcome::Panicked(_) => false,
                        }
                    &&& answers(result) == #[trigger] batch_answer(views(outcomes))
                },
    {
        let ghost mut outcomes: Seq<AllocateOutcome> = Seq::empty();
        let mut batch = AllocationBatch::new();
        let mut i: usize = 0;
        proof {
            assert(views(outcomes) =~= Seq::empty());
        }
        while i < container_requests.len() && batch.goes_on()
            invariant
                i <= container_requests@.len(),
                outcomes.len() == i,
                forall|j: int|
                    #![trigger outcomes[j]]
                    0 <= j < outcomes.len() ==> match outcomes[j] {
                        AllocateOutcome::Finished(result) => call_ensures(
                            P::allocate,
                            (&self.backend(), &container_requests@[j]),
                            result,
                        ),
                        AllocateOutcome::Panicked(_) => false,
                    },
                batch@ == batch_answer(views(outcomes)),
            decreases container_requests@.len() - i,
        {
            let ghost before = outcomes;
            let outcome = self.allocate_container(&container_requests[i]);
            proof {
                outcomes = outcomes.push(outcome);
                assert(views(outcomes).drop_last() =~= views(before));
                assert(views(outcomes).last() == outcome@);
            }
            batch = batch.add(outcome);
            i += 1;
        }
        let result = batch.finish();
        proof {
            assert(answers(result) == batch_answer(views(outcomes)));
        }
        result
    }

    /// Lets the backend choose devices for one container. A negative size is
    /// refused, and a backend that says it does not choose is not asked to.
    pub fn prefer_container(&self, request: &ContainerPreferredAllocationRequest) -> (result:
        Result<Vec<String>, RpcStatus>)
        ensures
            is_preference(self.backend(), *request, result),
    {
        if request.allocation_size < 0 {
            return Err(
                RpcStatus {
                    code: RpcCode::InvalidArgument,
                    message: "allocation_size must be non-negative".to_owned(),
                },
            );
        }
        let available = self.plugin.preferred_allocation_available();
        proof {
            assert(call_ensures(
                P::preferred_allocation_available,
                (&self.backend(),),
                available,
            ));
        }
        if !available {
            return Err(
                allocation_error_to_status(AllocationError::PreferredAllocationUnavailable),
            );
        }
        let chosen = self.plugin.preferred_allocation(
            &request.available_device_ids,
            &request.must_include_device_ids,
            request.allocation_size as usize,
        );
        let ghost outcome = chosen;
        let result = match chosen {
            Ok(ids) => Ok(ids),
            Err(error) => Err(allocation_error_to_status(error)),
        };
        proof {
            assert(call_ensures(
                P::preferred_allocation,
                (
                    &self.backend(),
                    &request.available_device_ids,
                    &request.must_include_device_ids,
                    request.allocation_size as usize,
                ),
                outcome,
            ));
            assert(is_choice(self.backend(), *request, result));
        }
        result
    }

    /// Runs the backend's hook before a container starts.
    pub fn pre_start_container(&self, device_ids: &Vec<String>) -> (result: Result<(), RpcStatus>)
        ensures
            exists|hook: Result<(), AllocationError>|
                {
                    &&& #[trigger] call_ensures(
                        P::pre_start_container,
                        (&self.backend(), device_ids),
                        hook,
                    )
                    &&& match (hook, result) {
                        (Ok(()), Ok(())) => true,
                        (Err(error), Err(status)) => status@ == allocation_status(error@),
                        _ => false,
                    }
                },
    {
        let hook = self.plugin.pre_start_container(device_ids);
        let ghost outcome = hook;
        let result = match hook {
            Ok(()) => Ok(()),
            Err(error) => Err(allocation_error_to_status(error)),
        };
        proof {
            assert(call_ensures(
                P::pre_start_container,
                (&self.backend(), device_ids),
                outcome,
            ));
        }
        result
    }
}

impl<P: K8sDevicePlugin> DevicePluginService<P> {
    /// Lets the backend choose devices for all containers of a request, in its
    /// order. The first container that fails decides.
    pub fn get_preferred_allocation(
        &self,
        container_requests: &Vec<ContainerPreferredAllocationRequest>,
    ) -> (result: Result<Vec<Vec<String>>, RpcStatus>)
        ensures
            match result {
                Ok(choices) => {
                    &&& choices@.len() == container_requests@.len()
                    &&& forall|i: int|
                        #![trigger choices@[i]]
                        0 <= i < choices@.len() ==> is_preference(
                            self.backend(),
                            container_requests@[i],
                            Ok(choices@[i]),
                        )
                },
                Err(status) => exists|k: int| #[trigger]
                    preference_stops(self.backend(), container_requests@, k, status),
            },
    {
        let mut choices: Vec<Vec<String>> = Vec::new();
        let mut i: usize = 0;
        while i < container_requests.len()
            invariant
                i <= container_requests@.len(),
                choices@.len() == i,
                forall|j: int|
                    #![trigger choices@[j]]
                    0 <= j < i ==> is_preference(
                        self.backend(),
                        container_requests@[j],
                        Ok(choices@[j]),
                    ),
            decreases container_requests@.len() - i,
        {
            match self.prefer_container(&container_requests[i]) {
                Ok(ids) => {
                    choices.push(ids);
                },
                Err(status) => {
                    proof {
                        assert forall|j: int| 0 <= j < i implies preference_found(
                            self.backend(),
                            #[trigger] container_requests@[j],
                        ) by {
                            assert(is_preference(
                                self.backend(),
                                container_requests@[j],
                                Ok(choices@[j]),
                            ));
                        }
                        assert(preference_stops(
                            self.backend(),
                            container_requests@,
                            i as int,
                            status,
                        ));
                    }
                    return Err(status);
                },
            }
            i += 1;
        }
        Ok(choices)
    }
}

/// Room for the name of a plugin's socket: what the longest path leaves beside
/// kubelet's directory.
pub const SOCKET_NAME_BUDGET: usize = 75;

/// The name of the socket of a resource's plugin.
pub open spec fn plugin_socket_name(resource_name: Seq<char>) -> Seq<char> {
    socket_name(resource_name, SOCKET_NAME_BUDGET as nat)
}

/// Derives the name of a plugin's socket from its resource, such that the path
/// in kubelet's directory is not too long.
pub fn sanitize_socket_name(name: &str) -> (socket: String)
    ensures
        socket@ == plugin_socket_name(name@),
{
    sanitize_within(name, SOCKET_NAME_BUDGET)
}

/// A device plugin: a service for a resource, the path of its socket and that of
/// kubelet's.
pub struct DevicePlugin<P: K8sDevicePlugin> {
    endpoint: String,
    resource_name: String,
    service: DevicePluginService<P>,
    kubelet_socket: String,
}

impl<P: K8sDevicePlugin> DevicePlugin<P> {
    /// The path of the plugin's socket.
    pub closed spec fn socket_path(self) -> Seq<char> {
        self.endpoint@
    }

    /// The resource that the plugin serves.
    pub closed spec fn resource(self) -> Seq<char> {
        self.resource_name@
    }

    /// The service.
    pub closed spec fn serves(self) -> DevicePluginService<P> {
        self.service
    }

    /// The path of kubelet's socket.
    pub closed spec fn registers_at(self) -> Seq<char> {
        self.kubelet_socket@
    }

    /// A plugin that serves a resource; a name that cannot be that of an
    /// extended resource is refused.
    pub fn new(resource_name: &str, service: DevicePluginService<P>) -> (result: Result<
        DevicePlugin<P>,
        ValidationError,
    >)
        ensures
            match result {
                Ok(plugin) => {
                    &&& resource_name_verdict(resource_name@) is Ok
                    &&& plugin.resource() == resource_name@
                    &&& plugin.serves() == service
                    &&& plugin.socket_path() == DEVICE_PLUGIN_PATH@ + plugin_socket_name(
                        resource_name@,
                    )
                    &&& plugin.registers_at() == DEVICE_PLUGIN_PATH@ + KUBELET_SOCKET@
                    &&& DEVICE_PLUGIN_PATH@ == "/var/lib/kubelet/device-plugins/"@
                    &&& KUBELET_SOCKET@ == "kubelet.sock"@
                },
                Err(error) => resource_name_verdict(resource_name@) == Err::<(), Refusal>(error@),
            },
    {
        match validate_resource_name(resource_name) {
            Err(error) => Err(error),
            Ok(()) => {
                let mut endpoint = DEVICE_PLUGIN_PATH.to_owned();
                endpoint.append(sanitize_socket_name(resource_name).as_str());
                Ok(
                    DevicePlugin {
                        endpoint,
                        resource_name: resource_name.to_owned(),
                        service,
                        kubelet_socket: DevicePlugin::<P>::kubelet_socket_path(),
                    },
                )
            },
        }
    }

    /// The path of kubelet's socket.
    pub fn kubelet_socket_path() -> (path: String)
        ensures
            path@ == DEVICE_PLUGIN_PATH@ + KUBELET_SOCKET@,
            path@ == "/var/lib/kubelet/device-plugins/"@ + "kubelet.sock"@,
    {
        let mut path = DEVICE_PLUGIN_PATH.to_owned();
        path.append(KUBELET_SOCKET);
        path
    }

    /// The path of the plugin's socket.
    pub fn endpoint(&self) -> (endpoint: &str)
        ensures
            endpoint@ == self.socket_path(),
    {
        self.endpoint.as_str()
    }

    /// The resource that the plugin serves.
    pub fn resource_name(&self) -> (name: &str)
        ensures
            name@ == self.resource(),
    {
        self.resource_name.as_str()
    }

    /// The service.
    pub fn service(&self) -> (service: &DevicePluginService<P>)
        ensures
            *service == self.serves(),
    {
        &self.service
    }

    /// The path of kubelet's socket that the plugin registers at.
    pub fn kubelet_socket(&self) -> (path: &str)
        ensures
            path@ == self.registers_at(),
    {
        self.kubelet_socket.as_str()
    }

    /// The name that the plugin registers its socket by: the file name of its
    /// path, or the whole path where it has none.
    pub fn registration_endpoint(&self) -> (endpoint: String)
        ensures
            endpoint@ == match file_name_text(self.socket_path()) {
                Some(name) => name,
                None => self.socket_path(),
            },
    {
        match file_name(self.endpoint.as_str()) {
            Some(name) => name,
            None => self.endpoint.clone(),
        }
    }
}

/// What a plugin tells kubelet to register.
#[derive(Clone, Debug, PartialEq, Eq)]
pub struct RegisterRequest {
    pub version: String,
    pub endpoint: String,
    pub resource_name: String,
}

/// How the server of a plugin ended: it returned, it failed with an error, or it
/// broke off with a reason.
pub type ServerExit = Result<Result<(), String>, String>;

/// What happens to a running plugin.
pub enum RunEvent {
    Registered,
    /// All attempts to register have failed.
    RegistrationFailed(String),
    KubeletGone,
    ServerEnded(ServerExit),
}

/// What a running plugin does next.
#[derive(Debug, PartialEq, Eq)]
pub enum RunStep {
    /// Register with kubelet, again after it was gone.
    Register,
    /// Wait until kubelet is gone or the server ends.
    Wait,
    /// Stop, and the server too where it still runs.
    Stop { stop_server: bool, result: Result<(), String> },
}

impl<P: K8sDevicePlugin> DevicePlugin<P> {
    /// What the plugin tells kubelet to register.
    pub fn register(&self) -> (request: RegisterRequest)
        ensures
            request.version@ == VERSION@,
            request.version@ == "v1beta1"@,
            request.endpoint@ == match file_name_text(self.socket_path()) {
                Some(name) => name,
                None => self.socket_path(),
            },
            request.resource_name@ == self.resource(),
    {
        RegisterRequest {
            version: VERSION.to_owned(),
            endpoint: self.registration_endpoint(),
            resource_name: self.resource_name.clone(),
        }
    }

    /// Decides what a plugin whose server runs does next. It registers anew
    /// whenever kubelet is gone; only a failed registration or the end of its
    /// server stops it.
    pub fn run(event: RunEvent) -> (step: RunStep)
        ensures
            step == match event {
                RunEvent::Registered => RunStep::Wait,
                RunEvent::KubeletGone => RunStep::Register,
                RunEvent::RegistrationFailed(error) => RunStep::Stop {
                    stop_server: true,
                    result: Err(error),
                },
                RunEvent::ServerEnded(Ok(result)) => RunStep::Stop { stop_server: false, result },
                RunEvent::ServerEnded(Err(reason)) => RunStep::Stop {
                    stop_server: false,
                    result: Err(reason),
                },
            },
    {
        match event {
            RunEvent::Registered => RunStep::Wait,
            RunEvent::KubeletGone => RunStep::Register,
            RunEvent::RegistrationFailed(error) => RunStep::Stop {
                stop_server: true,
                result: Err(error),
            },
            RunEvent::ServerEnded(Ok(result)) => RunStep::Stop { stop_server: false, result },
            RunEvent::ServerEnded(Err(reason)) => RunStep::Stop {
                stop_server: false,
                result: Err(reason),
            },
        }
    }
}

/// The longest delay between attempts to register, in seconds.
pub const MAX_REGISTER_DELAY_SECONDS: u64 = 30;

/// How often a plugin tries to register.
pub const REGISTER_ATTEMPTS: u32 = 10;

/// The first delay between attempts to register, in seconds.
pub const REGISTER_DELAY_SECONDS: u64 = 1;

/// The delay after another one: twice as long, up to the longest.
pub open spec fn doubled_delay(delay: nat) -> nat {
    if 2 * delay <= 30_000_000_000 {
        2 * delay
    } else {
        30_000_000_000
    }
}

/// Attempts to register with kubelet: how many are left, and the delay before
/// the next one.
pub struct RegistrationRetry {
    attempts_left: u32,
    delay: Duration,
}

/// What a [`RegistrationRetry`] says.
pub struct RetryModel {
    pub attempts_left: nat,
    pub delay: nat,
}

impl View for RegistrationRetry {
    type V = RetryModel;

    closed spec fn view(&self) -> RetryModel {
        RetryModel { attempts_left: self.attempts_left as nat, delay: self.delay@ }
    }
}

/// What follows a failed attempt to register: another one after a delay, or the
/// end.
#[derive(Clone, Copy, Debug, PartialEq, Eq, Structural)]
pub enum RetryStep {
    RetryAfter(Duration),
    GiveUp,
}

impl RegistrationRetry {
    #[verifier::type_invariant]
    closed spec fn inv(self) -> bool {
        self.attempts_left >= 1 && (self.attempts_left >= 2 ==> 2 * self.delay@
            <= crate::duration::MAX_NANOS)
    }

    /// Starts to register with at most so many attempts; none at all is refused.
    pub fn try_register(max_attempts: u32, initial_delay: Duration) -> (result: Result<
        RegistrationRetry,
        String,
    >)
        requires
            max_attempts >= 2 ==> 2 * initial_delay@ <= crate::duration::MAX_NANOS,
        ensures
            match result {
                Ok(retry) => max_attempts > 0 && retry@ == (RetryModel {
                    attempts_left: max_attempts as nat,
                    delay: initial_delay@,
                }),
                Err(message) => max_attempts == 0 && message@ == "max_attempts must be at least 1"@,
            },
    {
        if max_attempts == 0 {
            return Err("max_attempts must be at least 1".to_owned());
        }
        Ok(RegistrationRetry { attempts_left: max_attempts, delay: initial_delay })
    }

    /// Starts to register with the usual attempts and delays.
    pub fn register_with_retry() -> (retry: RegistrationRetry)
        ensures
            retry@ == (RetryModel {
                attempts_left: REGISTER_ATTEMPTS as nat,
                delay: REGISTER_DELAY_SECONDS as nat * 1_000_000_000,
            }),
            retry@.attempts_left == 10,
            retry@.delay == 1_000_000_000,
    {
        RegistrationRetry {
            attempts_left: REGISTER_ATTEMPTS,
            delay: Duration::from_secs(REGISTER_DELAY_SECONDS),
        }
    }

    /// Goes on after a failed attempt.
    pub fn attempt_failed(&mut self) -> (step: RetryStep)
        ensures
            if old(self)@.attempts_left >= 2 {
                &&& match step {
                    RetryStep::RetryAfter(delay) => delay@ == old(self)@.delay,
                    RetryStep::GiveUp => false,
                }
                &&& final(self)@ == (RetryModel {
                    attempts_left: (old(self)@.attempts_left - 1) as nat,
                    delay: doubled_delay(old(self)@.delay),
                })
            } else {
                step == RetryStep::GiveUp && final(self)@ == old(self)@
            },
    {
        proof {
            use_type_invariant(&*self);
        }
        if self.attempts_left < 2 {
            return RetryStep::GiveUp;
        }
        let delay = self.delay;
        let next = delay.saturating_mul(2).min(Duration::from_secs(MAX_REGISTER_DELAY_SECONDS));
        *self = RegistrationRetry { attempts_left: self.attempts_left - 1, delay: next };
        RetryStep::RetryAfter(delay)
    }
}

} // verus!
