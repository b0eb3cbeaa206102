//! A backend with a fixed list of devices.

use crate::allocation::{AllocationError, AllocationFailure, ContainerAllocation};
use crate::device::{rdwr_path, Device, DeviceModel, DevicePath, DevicePathModel};
use crate::health::Health;
use crate::path::{file_name, file_name_text};
use crate::record::{copy_all, holds, views, Record};
use crate::text::{split, split_text, trim, trim_text};
use vstd::prelude::*;
use vstd::string::*;

verus! {

/// A backend whose devices are known from the start. Before each allocation the
/// caller looks which of the host paths are still there.
#[derive(Clone, Debug)]
pub struct StaticDevicePlugin {
    devices: Vec<Device>,
}

impl View for StaticDevicePlugin {
    type V = Seq<DeviceModel>;

    closed spec fn view(&self) -> Seq<DeviceModel> {
        views(self.devices@)
    }
}

/// The place of the first device with an id; the length without one.
pub open spec fn place_of(devices: Seq<DeviceModel>, id: Seq<char>) -> nat
    decreases devices.len(),
{
    if devices.len() == 0 {
        0
    } else if devices[0].id == id {
        0
    } else {
        1 + place_of(devices.drop_first(), id)
    }
}

/// A host path of the device is among the missing ones.
pub open spec fn is_missing(device: DeviceModel, missing: Seq<Seq<char>>) -> bool {
    exists|i: int|
        0 <= i < device.paths.len() && missing.contains((#[trigger] device.paths[i]).host_path)
}

/// The files that a container gets for devices, in the order of the request. The
/// first id that is unknown, or whose device misses a file on the host, is
/// refused.
pub open spec fn static_allocation(
    devices: Seq<DeviceModel>,
    missing: Seq<Seq<char>>,
    ids: Seq<Seq<char>>,
) -> Result<Seq<DevicePathModel>, AllocationFailure>
    decreases ids.len(),
{
    if ids.len() == 0 {
        Ok(Seq::empty())
    } else {
        let id = ids.last();
        let place = place_of(devices, id);
        match static_allocation(devices, missing, ids.drop_last()) {
            Err(failure) => Err(failure),
            Ok(paths) => if place >= devices.len() {
                Err(AllocationFailure::DeviceNotFound(id))
            } else if is_missing(devices[place as int], missing) {
                Err(AllocationFailure::DeviceUnavailable(id))
            } else {
                Ok(paths + devices[place as int].paths)
            },
        }
    }
}

fn misses_file(device: &Device, missing: &Vec<String>) -> (found: bool)
    ensures
        found == is_missing(device@, views(missing@)),
{
    let mut i: usize = 0;
    while i < device.paths.len()
        invariant
            i <= device.paths@.len(),
            forall|j: int|
                0 <= j < i ==> !views(missing@).contains((#[trigger] device@.paths[j]).host_path),
        decreases device.paths@.len() - i,
    {
        if holds(missing, &device.paths[i].host_path) {
            proof {
                assert(device@.paths[i as int].host_path == device.paths@[i as int].host_path@);
            }
            return true;
        }
        i += 1;
    }
    false
}

proof fn lemma_allocation_failure(
    devices: Seq<DeviceModel>,
    missing: Seq<Seq<char>>,
    ids: Seq<Seq<char>>,
    n: int,
)
    requires
        0 <= n <= ids.len(),
        static_allocation(devices, missing, ids.take(n)) is Err,
    ensures
        static_allocation(devices, missing, ids) == static_allocation(devices, missing, ids.take(n)),
    decreases ids.len() - n,
{
    if n == ids.len() {
        assert(ids.take(n) =~= ids);
    } else {
        assert(ids.take(n + 1).drop_last() =~= ids.take(n));
        lemma_allocation_failure(devices, missing, ids, n + 1);
    }
}

impl StaticDevicePlugin {
    /// A backend with these devices.
    pub fn new(devices: Vec<Device>) -> (plugin: StaticDevicePlugin)
        ensures
            plugin@ == views(devices@),
    {
        StaticDevicePlugin { devices }
    }

    /// The devices.
    pub fn discover(&self) -> (devices: Vec<Device>)
        ensures
            views(devices@) == self@,
    {
        let mut devices: Vec<Device> = Vec::new();
        let mut i: usize = 0;
        while i < self.devices.len()
            invariant
                i <= self.devices@.len(),
                devices@.len() == i,
                forall|j: int| 0 <= j < i ==> (#[trigger] devices@[j])@ == self.devices@[j]@,
            decreases self.devices@.len() - i,
        {
            devices.push(self.devices[i].copy());
            i += 1;
        }
        proof {
            assert(views(devices@) =~= self@);
        }
        devices
    }

    /// The place of the first device with an id.
    fn find(&self, id: &String) -> (place: usize)
        ensures
            place == place_of(self@, id@),
            place <= self.devices@.len(),
    {
        let ghost models = self@;
        let mut i: usize = 0;
        proof {
            assert(models.skip(0) =~= models);
        }
        while i < self.devices.len()
            invariant
                i <= self.devices@.len(),
                models == self@,
                models == views(self.devices@),
                place_of(models, id@) == i + place_of(models.skip(i as int), id@),
            decreases self.devices@.len() - i,
        {
            proof {
                assert(models.skip(i as int)[0] == self.devices@[i as int]@);
                assert(models.skip(i as int).drop_first() =~= models.skip(i + 1));
            }
            if self.devices[i].id.same(id) {
                return i;
            }
            i += 1;
        }
        i
    }

    /// Allocates devices, given which host paths are missing now.
    pub fn allocate(&self, device_ids: &Vec<String>, missing: &Vec<String>) -> (result: Result<
        ContainerAllocation,
        AllocationError,
    >)
        ensures
            match (result, static_allocation(self@, views(missing@), views(device_ids@))) {
                (Ok(allocation), Ok(paths)) => {
                    &&& allocation@.device_paths == paths
                    &&& allocation@.mounts.len() == 0
                    &&& allocation@.envs == Map::<Seq<char>, Seq<char>>::empty()
                    &&& allocation@.annotations == Map::<Seq<char>, Seq<char>>::empty()
                    &&& allocation@.cdi_devices.len() == 0
                },
                (Err(error), Err(failure)) => error@ == failure,
                _ => false,
            },
    {
        let ghost ids = views(device_ids@);
        let ghost gone = views(missing@);
        let mut paths: Vec<DevicePath> = Vec::new();
        let mut i: usize = 0;
        proof {
            assert(ids.take(0) =~= Seq::empty());
            assert(views(paths@) =~= Seq::empty());
        }
        while i < device_ids.len()
            invariant
                i <= device_ids@.len(),
                ids == views(device_ids@),
                gone == views(missing@),
                static_allocation(self@, gone, ids.take(i as int)) == Ok::<
                    Seq<DevicePathModel>,
                    AllocationFailure,
                >(views(paths@)),
            decreases device_ids@.len() - i,
        {
            let ghost earlier = views(paths@);
            proof {
                assert(ids.take(i + 1).drop_last() =~= ids.take(i as int));
                assert(ids.take(i + 1).last() == device_ids@[i as int]@);
            }
            let id = &device_ids[i];
            let place: usize = self.find(id);
            if place >= self.devices.len() {
                proof {
                    lemma_allocation_failure(self@, gone, ids, i + 1);
                }
                return Err(AllocationError::DeviceNotFound(id.clone()));
            }
            let device = &self.devices[place];
            proof {
                assert(self@[place as int] == device@);
            }
            if misses_file(device, missing) {
                proof {
                    lemma_allocation_failure(self@, gone, ids, i + 1);
                }
                return Err(AllocationError::DeviceUnavailable(id.clone()));
            }
            let mut copies = copy_all(&device.paths);
            let ghost added = views(copies@);
            let ghost before = paths@;
            let ghost tail = copies@;
            paths.append(&mut copies);
            proof {
                assert(paths@ == before + tail);
                assert(views(paths@) =~= earlier + added);
            }
            i += 1;
        }
        proof {
            assert(ids.take(i as int) =~= ids);
        }
        let none = ContainerAllocation::default();
        Ok(ContainerAllocation { device_paths: paths, ..none })
    }
}

/// The device of a path in a list: named by the last name on the path, or by the
/// path itself where it ends in none.
pub open spec fn listed_device(path: Seq<char>) -> DeviceModel {
    DeviceModel {
        id: match file_name_text(path) {
            Some(name) => name,
            None => path,
        },
        health: Health::Healthy,
        paths: seq![rdwr_path(path)],
    }
}

/// The devices of the pieces of a list, without white space around them; pieces
/// without anything else are left out.
pub open spec fn listed_devices(pieces: Seq<Seq<char>>) -> Seq<DeviceModel>
    decreases pieces.len(),
{
    if pieces.len() == 0 {
        Seq::empty()
    } else {
        let devices = listed_devices(pieces.drop_last());
        let path = trim_text(pieces.last());
        if path.len() == 0 {
            devices
        } else {
            devices.push(listed_device(path))
        }
    }
}

/// Reads a list of device paths with commas between them.
pub fn parse_devices(paths: &str) -> (devices: Vec<Device>)
    ensures
        views(devices@) == listed_devices(split_text(paths@, ',')),
{
    let pieces = split(paths, ',');
    let ghost models = views(pieces@);
    let mut devices: Vec<Device> = Vec::new();
    let mut i: usize = 0;
    proof {
        assert(models.take(0) =~= Seq::empty());
        assert(views(devices@) =~= Seq::empty());
    }
    while i < pieces.len()
        invariant
            i <= pieces@.len(),
            models == views(pieces@),
            views(devices@) == listed_devices(models.take(i as int)),
        decreases pieces@.len() - i,
    {
        let ghost earlier = views(devices@);
        proof {
            assert(models.take(i + 1).drop_last() =~= models.take(i as int));
            assert(models.take(i + 1).last() == pieces@[i as int]@);
        }
        let path = trim(pieces[i].as_str());
        if !path.as_str().is_empty() {
            let id = match file_name(path.as_str()) {
                Some(name) => name,
                None => path.clone(),
            };
            let device = Device::rdwr(id.as_str(), path.as_str());
            let ghost model = device@;
            devices.push(device);
            proof {
                assert(views(devices@) =~= earlier.push(model));
            }
        }
        i += 1;
    }
    proof {
        assert(models.take(i as int) =~= models);
    }
    devices
}

} // verus!
