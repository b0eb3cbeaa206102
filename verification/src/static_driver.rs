//! A driver with one fixed pool of devices.

use crate::dra::{
    AllocatedDevice, AllocatedDeviceModel, ClaimPreparer, ClaimRef, ClaimRefModel, DraDriver,
    PoolDevice, PoolDeviceModel, PrepareError, PrepareFailure, PreparedDevice, PreparedDeviceModel,
    ResolvedClaim, ResolvedClaimModel, ResourcePool,
};
use crate::health::Health;
use crate::ordered_map::OrderedMap;
use crate::plugin_service::{preparation, preparations};
use crate::record::{copy_all, views, Record};
use crate::text::{same_text, split, split_text, trim, trim_text};
use vstd::prelude::*;
use vstd::string::*;

verus! {

/// A driver whose devices are known from the start. A container gets nothing of
/// them but their names.
#[derive(Debug)]
pub struct StaticDraDriver {
    name: String,
    pool: String,
    devices: Vec<PoolDevice>,
}

/// A pool offers a device.
pub open spec fn is_offered(
    pool: Seq<char>,
    devices: Seq<PoolDeviceModel>,
    pool_name: Seq<char>,
    device_name: Seq<char>,
) -> bool {
    pool_name == pool && exists|i: int|
        0 <= i < devices.len() && (#[trigger] devices[i]).name == device_name
}

/// What a container gets of an allocated device.
pub open spec fn prepared_by_name(device: AllocatedDeviceModel) -> PreparedDeviceModel {
    PreparedDeviceModel {
        request_names: match device.request_name {
            Some(name) => seq![name],
            None => Seq::empty(),
        },
        pool_name: device.pool_name,
        device_name: device.device_name,
        cdi_device_ids: Seq::empty(),
    }
}

/// What a container gets of the devices of a claim. The first device that the
/// pool does not offer is refused.
pub open spec fn claim_prepared(
    pool: Seq<char>,
    offered: Seq<PoolDeviceModel>,
    devices: Seq<AllocatedDeviceModel>,
) -> Result<Seq<PreparedDeviceModel>, PrepareFailure>
    decreases devices.len(),
{
    if devices.len() == 0 {
        Ok(Seq::empty())
    } else {
        let device = devices.last();
        match claim_prepared(pool, offered, devices.drop_last()) {
            Ok(earlier) => if is_offered(pool, offered, device.pool_name, device.device_name) {
                Ok(earlier.push(prepared_by_name(device)))
            } else {
                Err(
                    PrepareFailure::DeviceUnavailable(
                        device.pool_name + "/"@ + device.device_name,
                    ),
                )
            },
            Err(failure) => Err(failure),
        }
    }
}

/// The results for a batch of claims; of several about one claim, the last
/// decides.
pub open spec fn batch_prepared(
    pool: Seq<char>,
    offered: Seq<PoolDeviceModel>,
    claims: Seq<ResolvedClaimModel>,
) -> Map<ClaimRefModel, Result<Seq<PreparedDeviceModel>, PrepareFailure>>
    decreases claims.len(),
{
    if claims.len() == 0 {
        Map::empty()
    } else {
        batch_prepared(pool, offered, claims.drop_last()).insert(
            claims.last().claim,
            claim_prepared(pool, offered, claims.last().devices),
        )
    }
}

/// A refusal among the first devices of a claim refuses the claim.
proof fn lemma_refusal_stays(
    pool: Seq<char>,
    offered: Seq<PoolDeviceModel>,
    devices: Seq<AllocatedDeviceModel>,
    n: int,
)
    requires
        0 <= n <= devices.len(),
        claim_prepared(pool, offered, devices.take(n)) is Err,
    ensures
        claim_prepared(pool, offered, devices) == claim_prepared(pool, offered, devices.take(n)),
    decreases devices.len() - n,
{
    if n < devices.len() {
        assert(devices.take(n + 1).drop_last() =~= devices.take(n));
        lemma_refusal_stays(pool, offered, devices, n + 1);
    } else {
        assert(devices.take(n) =~= devices);
    }
}

impl StaticDraDriver {
    /// The name of the driver.
    pub closed spec fn driver(self) -> Seq<char> {
        self.name@
    }

    /// The name of its pool.
    pub closed spec fn pool_name(self) -> Seq<char> {
        self.pool@
    }

    /// The devices of its pool.
    pub closed spec fn offered(self) -> Seq<PoolDeviceModel> {
        views(self.devices@)
    }

    /// A driver that offers devices in one pool.
    pub fn new(name: String, pool: String, devices: Vec<PoolDevice>) -> (driver: StaticDraDriver)
        ensures
            driver.driver() == name@,
            driver.pool_name() == pool@,
            driver.offered() == views(devices@),
    {
        StaticDraDriver { name, pool, devices }
    }

    /// Whether the driver offers a device.
    pub fn has_device(&self, pool_name: &str, device_name: &str) -> (found: bool)
        ensures
            found == is_offered(self.pool_name(), self.offered(), pool_name@, device_name@),
    {
        if !same_text(pool_name, self.pool.as_str()) {
            return false;
        }
        let mut i: usize = 0;
        while i < self.devices.len()
            invariant
                i <= self.devices@.len(),
                pool_name@ == self.pool_name(),
                forall|j: int| 0 <= j < i ==> (#[trigger] self.offered()[j]).name != device_name@,
            decreases self.devices@.len() - i,
        {
            proof {
                assert(self.offered()[i as int] == self.devices@[i as int]@);
            }
            if same_text(self.devices[i].name.as_str(), device_name) {
                return true;
            }
            i += 1;
        }
        false
    }

    /// Prepares the devices of one claim.
    fn prepare_claim(&self, devices: &Vec<AllocatedDevice>) -> (result: Result<
        Vec<PreparedDevice>,
        PrepareError,
    >)
        ensures
            preparation(result) == claim_prepared(
                self.pool_name(),
                self.offered(),
                views(devices@),
            ),
    {
        let ghost models = views(devices@);
        let ghost pool = self.pool_name();
        let ghost offered = self.offered();
        let mut prepared: Vec<PreparedDevice> = Vec::new();
        let mut i: usize = 0;
        proof {
            assert(views(prepared@) =~= Seq::empty());
        }
        while i < devices.len()
            invariant
                i <= devices@.len(),
                models == views(devices@),
                pool == self.pool_name(),
                offered == self.offered(),
                claim_prepared(pool, offered, models.take(i as int)) == Ok::<
                    Seq<PreparedDeviceModel>,
                    PrepareFailure,
                >(views(prepared@)),
            decreases devices@.len() - i,
        {
            let device = &devices[i];
            let ghost earlier = views(prepared@);
            proof {
                assert(models.take(i + 1).drop_last() =~= models.take(i as int));
                assert(models.take(i + 1).last() == device@);
            }
            if !self.has_device(device.pool_name.as_str(), device.device_name.as_str()) {
                let mut refused = device.pool_name.clone();
                refused.append("/");
                refused.append(device.device_name.as_str());
                proof {
                    lemma_refusal_stays(pool, offered, models, i + 1);
                }
                return Err(PrepareError::DeviceUnavailable(refused));
            }
            let mut request_names: Vec<String> = Vec::new();
            if let Some(name) = &device.request_name {
                request_names.push(name.clone());
            }
            let next = PreparedDevice {
                request_names,
                pool_name: device.pool_name.clone(),
                device_name: device.device_name.clone(),
                cdi_device_ids: Vec::new(),
            };
            proof {
                assert(next@.request_names =~= prepared_by_name(device@).request_names);
                assert(next@.cdi_device_ids =~= Seq::empty());
            }
            let ghost model = next@;
            prepared.push(next);
            proof {
                assert(views(prepared@) =~= earlier.push(model));
            }
            i += 1;
        }
        proof {
            assert(models.take(i as int) =~= models);
        }
        Ok(prepared)
    }
}

impl ResourcePool for StaticDraDriver {
    fn devices(&self) -> (pools: OrderedMap<String, Vec<PoolDevice>>)
        ensures
            pools@.dom() == set![self.pool_name()],
            views(pools@[self.pool_name()]@) == self.offered(),
    {
        let mut pools: OrderedMap<String, Vec<PoolDevice>> = OrderedMap::new();
        pools.insert(self.pool.clone(), copy_all(&self.devices));
        proof {
            assert(pools@.dom() =~= set![self.pool_name()]);
        }
        pools
    }
}

impl ClaimPreparer for StaticDraDriver {
    fn prepare(&self, claims: &Vec<ResolvedClaim>) -> (results: OrderedMap<
        ClaimRef,
        Result<Vec<PreparedDevice>, PrepareError>,
    >)
        ensures
            preparations(results@) == batch_prepared(
                self.pool_name(),
                self.offered(),
                views(claims@),
            ),
    {
        let ghost models = views(claims@);
        let ghost pool = self.pool_name();
        let ghost offered = self.offered();
        let mut results: OrderedMap<
            ClaimRef,
            Result<Vec<PreparedDevice>, PrepareError>,
        > = OrderedMap::new();
        let mut i: usize = 0;
        proof {
            assert(preparations(results@) =~= batch_prepared(pool, offered, models.take(0)));
        }
        while i < claims.len()
            invariant
                i <= claims@.len(),
                models == views(claims@),
                pool == self.pool_name(),
                offered == self.offered(),
                preparations(results@) == batch_prepared(pool, offered, models.take(i as int)),
            decreases claims@.len() - i,
        {
            let ghost earlier = preparations(results@);
            proof {
                assert(models.take(i + 1).drop_last() =~= models.take(i as int));
                assert(models.take(i + 1).last() == claims@[i as int]@);
            }
            let result = self.prepare_claim(&claims[i].devices);
            let ghost outcome = preparation(result);
            results.insert(claims[i].claim.copy(), result);
            proof {
                assert(preparations(results@) =~= earlier.insert(
                    claims@[i as int]@.claim,
                    outcome,
                ));
            }
            i += 1;
        }
        proof {
            assert(models.take(i as int) =~= models);
        }
        results
    }

    fn unprepare(&self, claim: &ClaimRef) -> (result: Result<(), PrepareError>)
        ensures
            result is Ok,
    {
        Ok(())
    }
}

impl DraDriver for StaticDraDriver {
    fn driver_name(&self) -> (name: &str)
        ensures
            name@ == self.driver(),
    {
        self.name.as_str()
    }
}

/// The devices of the pieces of a list, without white space around them; pieces
/// without anything else are left out.
pub open spec fn named_devices(pieces: Seq<Seq<char>>) -> Seq<PoolDeviceModel>
    decreases pieces.len(),
{
    if pieces.len() == 0 {
        Seq::empty()
    } else {
        let devices = named_devices(pieces.drop_last());
        let name = trim_text(pieces.last());
        if name.len() == 0 {
            devices
        } else {
            devices.push(
                PoolDeviceModel {
                    name,
                    attributes: Map::empty(),
                    capacity: Map::empty(),
                    health: Health::Healthy,
                },
            )
        }
    }
}

/// Reads a list of device names with commas between them.
pub fn parse_device_names(names: &str) -> (devices: Vec<PoolDevice>)
    ensures
        views(devices@) == named_devices(split_text(names@, ',')),
{
    let pieces = split(names, ',');
    let ghost models = views(pieces@);
    let mut devices: Vec<PoolDevice> = Vec::new();
    let mut i: usize = 0;
    proof {
        assert(models.take(0) =~= Seq::empty());
        assert(views(devices@) =~= Seq::empty());
    }
    while i < pieces.len()
        invariant
            i <= pieces@.len(),
            models == views(pieces@),
            views(devices@) == named_devices(models.take(i as int)),
        decreases pieces@.len() - i,
    {
        let ghost earlier = views(devices@);
        proof {
            assert(models.take(i + 1).drop_last() =~= models.take(i as int));
            assert(models.take(i + 1).last() == pieces@[i as int]@);
        }
        let name = trim(pieces[i].as_str());
        if !name.as_str().is_empty() {
            let device = PoolDevice::new(name.as_str());
            let ghost model = device@;
            devices.push(device);
            proof {
                assert(views(devices@) =~= earlier.push(model));
            }
        }
        i += 1;
    }
    proof {
        assert(models.take(i as int) =~= models);
    }
    devices
}

/// A claim is prepared exactly where the pool offers all its devices, and then
/// each of them is handed to the container in its place.
pub proof fn law_only_offered_devices_are_prepared(
    pool: Seq<char>,
    offered: Seq<PoolDeviceModel>,
    devices: Seq<AllocatedDeviceModel>,
)
    ensures
        match claim_prepared(pool, offered, devices) {
            Ok(prepared) => {
                &&& prepared == devices.map_values(
                    |device: AllocatedDeviceModel| prepared_by_name(device),
                )
                &&& forall|i: int|
                    0 <= i < devices.len() ==> is_offered(
                        pool,
                        offered,
                        (#[trigger] devices[i]).pool_name,
                        devices[i].device_name,
                    )
            },
            Err(_) => exists|i: int|
                0 <= i < devices.len() && !is_offered(
                    pool,
                    offered,
                    (#[trigger] devices[i]).pool_name,
                    devices[i].device_name,
                ),
        },
    decreases devices.len(),
{
    if devices.len() > 0 {
        let earlier = devices.drop_last();
        law_only_offered_devices_are_prepared(pool, offered, earlier);
        match claim_prepared(pool, offered, earlier) {
            Ok(_) => {
                assert(devices.last() == devices[devices.len() - 1]);
                assert forall|i: int|
                    0 <= i < devices.len() - 1 implies is_offered(
                    pool,
                    offered,
                    (#[trigger] devices[i]).pool_name,
                    devices[i].device_name,
                ) by {
                    assert(earlier[i] == devices[i]);
                }
                match claim_prepared(pool, offered, devices) {
                    Ok(prepared) => {
                        assert(prepared =~= devices.map_values(
                            |device: AllocatedDeviceModel| prepared_by_name(device),
                        ));
                    },
                    Err(_) => {},
                }
            },
            Err(_) => {
                let i = choose|i: int|
                    0 <= i < earlier.len() && !is_offered(
                        pool,
                        offered,
                        (#[trigger] earlier[i]).pool_name,
                        earlier[i].device_name,
                    );
                assert(devices[i] == earlier[i]);
            },
        }
    } else {
        assert(Seq::<PreparedDeviceModel>::empty() =~= devices.map_values(
            |device: AllocatedDeviceModel| prepared_by_name(device),
        ));
    }
}

/// Every claim of a batch has a result, no other claim has one, and where a claim
/// comes once, its devices alone decide.
pub proof fn law_every_claim_has_its_result(
    pool: Seq<char>,
    offered: Seq<PoolDeviceModel>,
    claims: Seq<ResolvedClaimModel>,
)
    ensures
        forall|claim: ClaimRefModel|
            batch_prepared(pool, offered, claims).dom().contains(claim) <==> exists|i: int|
                0 <= i < claims.len() && (#[trigger] claims[i]).claim == claim,
        forall|i: int|
            #![trigger claims[i]]
            0 <= i < claims.len() && (forall|j: int|
                0 <= j < claims.len() && j != i ==> (#[trigger] claims[j]).claim
                    != claims[i].claim) ==> batch_prepared(
                pool,
                offered,
                claims,
            )[claims[i].claim] == claim_prepared(pool, offered, claims[i].devices),
    decreases claims.len(),
{
    if claims.len() > 0 {
        let earlier = claims.drop_last();
        let results = batch_prepared(pool, offered, claims);
        law_every_claim_has_its_result(pool, offered, earlier);
        assert forall|claim: ClaimRefModel| results.dom().contains(claim) implies exists|i: int|
            0 <= i < claims.len() && (#[trigger] claims[i]).claim == claim by {
            if claims.last().claim == claim {
                assert(claims[claims.len() - 1].claim == claim);
            } else {
                let i = choose|i: int|
                    0 <= i < earlier.len() && (#[trigger] earlier[i]).claim == claim;
                assert(claims[i].claim == claim);
            }
        }
        assert forall|claim: ClaimRefModel|
            (exists|i: int|
                0 <= i < claims.len() && (#[trigger] claims[i]).claim
                    == claim) implies results.dom().contains(claim) by {
            let i = choose|i: int| 0 <= i < claims.len() && (#[trigger] claims[i]).claim == claim;
            if i < claims.len() - 1 {
                assert(earlier[i].claim == claim);
            }
        }
        assert forall|i: int|
            #![trigger claims[i]]
            0 <= i < claims.len() && (forall|j: int|
                0 <= j < claims.len() && j != i ==> (#[trigger] claims[j]).claim
                    != claims[i].claim) implies results[claims[i].claim] == claim_prepared(
            pool,
            offered,
            claims[i].devices,
        ) by {
            if i < claims.len() - 1 {
                assert(earlier[i] == claims[i]);
                assert(claims[claims.len() - 1].claim != claims[i].claim);
                assert forall|j: int| 0 <= j < earlier.len() && j != i implies (
                #[trigger] earlier[j]).claim != earlier[i].claim by {
                    assert(earlier[j] == claims[j]);
                }
            }
        }
    }
}

} // verus!
