//! What a container gets of its devices, and what a backend implements.

use crate::device::{Device, DevicePath, DevicePathModel, HostMount, HostMountModel};
use crate::ordered_map::OrderedMap;
use crate::record::{map_views, views};
use vstd::prelude::*;
use vstd::string::*;

verus! {

/// What a container gets when its devices are allocated.
#[derive(Clone, Debug, PartialEq)]
pub struct ContainerAllocation {
    pub device_paths: Vec<DevicePath>,
    pub mounts: Vec<HostMount>,
    pub envs: OrderedMap<String, String>,
    pub annotations: OrderedMap<String, String>,
    /// Fully qualified CDI device names, such as `vendor.com/gpu=gpudevice1`.
    pub cdi_devices: Vec<String>,
}

/// What a [`ContainerAllocation`] says.
pub struct ContainerAllocationModel {
    pub device_paths: Seq<DevicePathModel>,
    pub mounts: Seq<HostMountModel>,
    pub envs: Map<Seq<char>, Seq<char>>,
    pub annotations: Map<Seq<char>, Seq<char>>,
    pub cdi_devices: Seq<Seq<char>>,
}

impl View for ContainerAllocation {
    type V = ContainerAllocationModel;

    open spec fn view(&self) -> ContainerAllocationModel {
        ContainerAllocationModel {
            device_paths: views(self.device_paths@),
            mounts: views(self.mounts@),
            envs: map_views(self.envs@),
            annotations: map_views(self.annotations@),
            cdi_devices: views(self.cdi_devices@),
        }
    }
}

impl Default for ContainerAllocation {
    fn default() -> (allocation: ContainerAllocation)
        ensures
            allocation@ == (ContainerAllocationModel {
                device_paths: Seq::empty(),
                mounts: Seq::empty(),
                envs: Map::empty(),
                annotations: Map::empty(),
                cdi_devices: Seq::empty(),
            }),
    {
        let allocation = ContainerAllocation {
            device_paths: Vec::new(),
            mounts: Vec::new(),
            envs: OrderedMap::new(),
            annotations: OrderedMap::new(),
            cdi_devices: Vec::new(),
        };
        proof {
            assert(allocation@.device_paths =~= Seq::empty());
            assert(allocation@.mounts =~= Seq::empty());
            assert(allocation@.envs =~= Map::empty());
            assert(allocation@.annotations =~= Map::empty());
            assert(allocation@.cdi_devices =~= Seq::empty());
        }
        allocation
    }
}

/// Why devices were not allocated.
#[derive(Clone, Debug, PartialEq, Eq)]
pub enum AllocationError {
    DeviceNotFound(String),
    PreferredAllocationUnavailable,
    HookFailed(String),
    /// A known device is missing or inaccessible now, such as hardware that was
    /// unplugged.
    DeviceUnavailable(String),
}

/// What an [`AllocationError`] says.
pub enum AllocationFailure {
    DeviceNotFound(Seq<char>),
    PreferredAllocationUnavailable,
    HookFailed(Seq<char>),
    DeviceUnavailable(Seq<char>),
}

impl View for AllocationError {
    type V = AllocationFailure;

    open spec fn view(&self) -> AllocationFailure {
        match *self {
            AllocationError::DeviceNotFound(id) => AllocationFailure::DeviceNotFound(id@),
            AllocationError::PreferredAllocationUnavailable => {
                AllocationFailure::PreferredAllocationUnavailable
            },
            AllocationError::HookFailed(reason) => AllocationFailure::HookFailed(reason@),
            AllocationError::DeviceUnavailable(device) => AllocationFailure::DeviceUnavailable(
                device@,
            ),
        }
    }
}

/// A failure as it is shown.
pub open spec fn allocation_text(failure: AllocationFailure) -> Seq<char> {
    match failure {
        AllocationFailure::DeviceNotFound(id) => "device not found: "@ + id,
        AllocationFailure::PreferredAllocationUnavailable => {
            "preferred allocation is not available for this plugin"@
        },
        AllocationFailure::HookFailed(reason) => "hook failed: "@ + reason,
        AllocationFailure::DeviceUnavailable(device) => "device unavailable: "@ + device,
    }
}

impl AllocationError {
    /// The failure as it is shown.
    pub fn to_string(&self) -> (text: String)
        ensures
            text@ == allocation_text(self@),
    {
        match self {
            AllocationError::DeviceNotFound(id) => {
                let mut text = "device not found: ".to_owned();
                text.append(id.as_str());
                text
            },
            AllocationError::PreferredAllocationUnavailable => {
                "preferred allocation is not available for this plugin".to_owned()
            },
            AllocationError::HookFailed(reason) => {
                let mut text = "hook failed: ".to_owned();
                text.append(reason.as_str());
                text
            },
            AllocationError::DeviceUnavailable(device) => {
                let mut text = "device unavailable: ".to_owned();
                text.append(device.as_str());
                text
            },
        }
    }
}

/// Finds the devices of a backend.
pub trait DeviceDiscovery {
    /// All devices that the backend knows now, with their health.
    fn discover(&self) -> Vec<Device>;
}

/// Allocates the devices of a backend to containers.
pub trait DeviceAllocator {
    /// What a container gets for these devices.
    fn allocate(&self, device_ids: &Vec<String>) -> Result<ContainerAllocation, AllocationError>;
}

/// All that the backend of a device plugin implements.
///
/// The hooks are optional. A backend that needs kubelet to call one overrides it
/// and the flag that goes with it.
pub trait K8sDevicePlugin: DeviceDiscovery + DeviceAllocator {
    /// Whether kubelet must call [`Self::pre_start_container`] before it starts
    /// a container.
    fn pre_start_required(&self) -> (required: bool)
        default_ensures
            !required,
    {
        false
    }

    /// Runs before kubelet starts a container with these devices.
    fn pre_start_container(&self, _device_ids: &Vec<String>) -> (result: Result<
        (),
        AllocationError,
    >)
        default_ensures
            result is Ok,
    {
        Ok(())
    }

    /// Whether the backend implements [`Self::preferred_allocation`].
    fn preferred_allocation_available(&self) -> (available: bool)
        default_ensures
            !available,
    {
        false
    }

    /// Chooses `size` devices for one container among the available ones, with
    /// all those that must be among them. Only called when
    /// [`Self::preferred_allocation_available`] returns `true`.
    fn preferred_allocation(
        &self,
        _available_device_ids: &Vec<String>,
        _must_include_device_ids: &Vec<String>,
        _size: usize,
    ) -> (chosen: Result<Vec<String>, AllocationError>)
        default_ensures
            chosen == Err::<Vec<String>, AllocationError>(
                AllocationError::PreferredAllocationUnavailable,
            ),
    {
        Err(AllocationError::PreferredAllocationUnavailable)
    }
}

} // verus!
