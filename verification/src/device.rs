//! The devices that a device plugin knows about.

use crate::health::Health;
use crate::path::{path_model, same_path, PathModel};
use crate::permissions::DevicePermissions;
use crate::record::{copy_all, views, Record};
use vstd::prelude::*;
use vstd::string::*;

verus! {

/// A device file, on the host and in the container.
#[derive(Clone, Debug, PartialEq, Eq)]
pub struct DevicePath {
    pub host_path: String,
    pub container_path: String,
    pub permissions: DevicePermissions,
}

/// What a [`DevicePath`] says.
pub struct DevicePathModel {
    pub host_path: Seq<char>,
    pub container_path: Seq<char>,
    pub permissions: DevicePermissions,
}

impl View for DevicePath {
    type V = DevicePathModel;

    open spec fn view(&self) -> DevicePathModel {
        DevicePathModel {
            host_path: self.host_path@,
            container_path: self.container_path@,
            permissions: self.permissions,
        }
    }
}

impl Record for DevicePath {
    fn copy(&self) -> DevicePath {
        DevicePath {
            host_path: self.host_path.clone(),
            container_path: self.container_path.clone(),
            permissions: self.permissions,
        }
    }

    fn same(&self, other: &DevicePath) -> bool {
        self.host_path.same(&other.host_path) && self.container_path.same(&other.container_path)
            && self.permissions == other.permissions
    }
}

/// A host directory or file to be mounted into the container.
#[derive(Clone, Debug, PartialEq, Eq)]
pub struct HostMount {
    pub host_path: String,
    pub container_path: String,
    pub read_only: bool,
}

/// What a [`HostMount`] says.
pub struct HostMountModel {
    pub host_path: Seq<char>,
    pub container_path: Seq<char>,
    pub read_only: bool,
}

impl View for HostMount {
    type V = HostMountModel;

    open spec fn view(&self) -> HostMountModel {
        HostMountModel {
            host_path: self.host_path@,
            container_path: self.container_path@,
            read_only: self.read_only,
        }
    }
}

/// A device with its health and its files.
#[derive(Clone, Debug, PartialEq, Eq)]
pub struct Device {
    pub id: String,
    pub health: Health,
    pub paths: Vec<DevicePath>,
}

/// What a [`Device`] says.
pub struct DeviceModel {
    pub id: Seq<char>,
    pub health: Health,
    pub paths: Seq<DevicePathModel>,
}

impl View for Device {
    type V = DeviceModel;

    open spec fn view(&self) -> DeviceModel {
        DeviceModel { id: self.id@, health: self.health, paths: views(self.paths@) }
    }
}

impl Device {
    /// A healthy device without files.
    pub fn new(id: &str) -> (device: Device)
        ensures
            device@ == (DeviceModel {
                id: id@,
                health: Health::Healthy,
                paths: Seq::empty(),
            }),
    {
        let device = Device { id: id.to_owned(), health: Health::Healthy, paths: Vec::new() };
        proof {
            assert(device@.paths =~= Seq::empty());
        }
        device
    }

    /// A healthy device with one file to be read and written.
    pub fn rdwr(id: &str, path: &str) -> (device: Device)
        ensures
            device@ == (DeviceModel {
                id: id@,
                health: Health::Healthy,
                paths: seq![rdwr_path(path@)],
            }),
    {
        let mut paths: Vec<DevicePath> = Vec::new();
        paths.push(DevicePath::rdwr(path));
        let device = Device { id: id.to_owned(), health: Health::Healthy, paths };
        proof {
            assert(device@.paths =~= seq![rdwr_path(path@)]);
        }
        device
    }

    /// The device with another health.
    pub fn health(self, health: Health) -> (device: Device)
        ensures
            device@ == (DeviceModel { health, ..self@ }),
    {
        Device { id: self.id, health, paths: self.paths }
    }

    /// A second device that says the same.
    pub fn copy(&self) -> (device: Device)
        ensures
            device@ == self@,
    {
        Device { id: self.id.clone(), health: self.health, paths: copy_all(&self.paths) }
    }

    /// Whether two devices are equal.
    pub fn equals(&self, other: &Device) -> (same: bool)
        ensures
            same == (identity(self@) == identity(other@)),
    {
        if !self.id.same(&other.id) || self.health != other.health || self.paths.len()
            != other.paths.len() {
            proof {
                assert(self@.paths.len() == self.paths@.len());
                assert(other@.paths.len() == other.paths@.len());
                if self.paths@.len() != other.paths@.len() {
                    assert(identity(self@).paths.len() != identity(other@).paths.len());
                }
            }
            return false;
        }
        let mut i: usize = 0;
        while i < self.paths.len()
            invariant
                i <= self.paths@.len(),
                self.paths@.len() == other.paths@.len(),
                forall|j: int|
                    0 <= j < i ==> path_identity((#[trigger] self.paths@[j])@) == path_identity(
                        other.paths@[j]@,
                    ),
            decreases self.paths@.len() - i,
        {
            let left = &self.paths[i];
            let right = &other.paths[i];
            if !same_path(left.host_path.as_str(), right.host_path.as_str()) || !same_path(
                left.container_path.as_str(),
                right.container_path.as_str(),
            ) || left.permissions != right.permissions {
                proof {
                    assert(identity(self@).paths[i as int] == path_identity(left@));
                    assert(identity(other@).paths[i as int] == path_identity(right@));
                }
                return false;
            }
            i += 1;
        }
        proof {
            assert(identity(self@).paths =~= identity(other@).paths);
        }
        true
    }
}

/// A file that is the same on the host and in the container, to be read and
/// written.
pub open spec fn rdwr_path(path: Seq<char>) -> DevicePathModel {
    DevicePathModel {
        host_path: path,
        container_path: path,
        permissions: DevicePermissions { read: true, write: true, mknod: false },
    }
}

impl DevicePath {
    /// A file that is the same on the host and in the container, to be read and
    /// written.
    pub fn rdwr(path: &str) -> (device_path: DevicePath)
        ensures
            device_path@ == rdwr_path(path@),
    {
        DevicePath {
            host_path: path.to_owned(),
            container_path: path.to_owned(),
            permissions: DevicePermissions::rdwr(),
        }
    }
}

/// What makes a device file equal to another: the places that its paths say,
/// however they are spelled, and its permissions.
pub struct PathIdentity {
    pub host_path: PathModel,
    pub container_path: PathModel,
    pub permissions: DevicePermissions,
}

/// What makes a device file equal to another.
pub open spec fn path_identity(path: DevicePathModel) -> PathIdentity {
    PathIdentity {
        host_path: path_model(path.host_path),
        container_path: path_model(path.container_path),
        permissions: path.permissions,
    }
}

/// What makes a device equal to another: its id, its health and its files.
pub struct DeviceIdentity {
    pub id: Seq<char>,
    pub health: Health,
    pub paths: Seq<PathIdentity>,
}

/// What makes a device equal to another.
pub open spec fn identity(device: DeviceModel) -> DeviceIdentity {
    DeviceIdentity {
        id: device.id,
        health: device.health,
        paths: Seq::new(device.paths.len(), |i: int| path_identity(device.paths[i])),
    }
}

} // verus!
