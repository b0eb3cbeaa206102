//! What holds of every publication of slices.

use crate::dra::{PoolDevice, PoolDeviceModel};
use crate::ordered_map::{
    ascending, in_order, lemma_ascending_unique, lemma_in_order_of_set, MapKey,
};
use crate::resource_slice::{
    backoff, canonical, canonical_spec, chunks_of, deletions, desired_slice, in_pool,
    insert_by_name, invalid, invalid_pool, is_slice_name, is_top_generation, lemma_canonical_names, name_sorted, names,
    next_generation, own_slices, place_slice, place_slices, plan_pool, plan_pools, pool_chunks,
    pool_unchanged, pool_views, publication, slice_matches, slice_name_text, slice_unchanged, top_generation,
    wire_devices, ActionModel, ApiStatus, ApiStatusModel, PlanModel, PublisherModel,
    ResourceSlicePublisher,
};
use crate::record::views;
use crate::slice_api::{OwnerModel, SliceModel, SliceSpecModel, WireDeviceModel};
use crate::text::{decimal_text, lemma_decimal_injective, lemma_decimal_nonempty, lemma_text_lt_total};
use vstd::arithmetic::power2::{lemma_pow2_strictly_increases, pow2};
use vstd::prelude::*;

verus! {

/// The slices of a pool hold every device exactly once, in canonical order:
/// device `j` stands in slice `j / 128` at place `j % 128`. No slice is empty,
/// and none has more than 128 devices.
pub proof fn law_slices_hold_every_device(devices: Seq<WireDeviceModel>)
    ensures
        forall|i: int|
            0 <= i < chunks_of(devices).len() ==> 1 <= (#[trigger] chunks_of(devices)[i]).len() <= 128,
        forall|i: int, j: int|
            0 <= i < chunks_of(devices).len() && 0 <= j < chunks_of(devices)[i].len() ==> 128 * i + j
                < devices.len() && (#[trigger] chunks_of(devices)[i][j]) == devices[128 * i + j],
        forall|j: int|
            0 <= j < devices.len() ==> j / 128 < chunks_of(devices).len() && chunks_of(
                devices,
            )[j / 128][j % 128] == #[trigger] devices[j],
{
}

/// Two slices of one pool never have the same name.
pub proof fn law_slice_names_differ(
    driver_name: Seq<char>,
    node_name: Seq<char>,
    pool_name: Seq<char>,
    i: nat,
    j: nat,
)
    requires
        i != j,
    ensures
        slice_name_text(driver_name, node_name, pool_name, i) != slice_name_text(
            driver_name,
            node_name,
            pool_name,
            j,
        ),
{
    let base = driver_name + "-"@ + node_name + "-"@ + pool_name;
    let left = slice_name_text(driver_name, node_name, pool_name, i);
    let right = slice_name_text(driver_name, node_name, pool_name, j);
    let n = base.len() + "-"@.len();
    lemma_decimal_nonempty(i);
    lemma_decimal_nonempty(j);
    if left == right {
        if i != 0 && j != 0 {
            assert(left.skip(n as int) =~= decimal_text(i));
            assert(right.skip(n as int) =~= decimal_text(j));
            lemma_decimal_injective(i, j);
        } else if i == 0 {
            assert(left.len() == base.len());
        } else {
            assert(right.len() == base.len());
        }
    }
}

/// Devices that are sorted already stay as they are.
pub proof fn law_canonical_order_is_stable(devices: Seq<WireDeviceModel>)
    requires
        name_sorted(devices),
    ensures
        canonical(devices) == devices,
    decreases devices.len(),
{
    if devices.len() > 0 {
        let rest = devices.drop_last();
        assert forall|a: int, b: int| 0 <= a < b < rest.len() implies !crate::text::text_lt(
            (#[trigger] rest[b]).name,
            (#[trigger] rest[a]).name,
        ) by {
            assert(rest[a] == devices[a] && rest[b] == devices[b]);
        }
        law_canonical_order_is_stable(rest);
        if rest.len() > 0 {
            assert(rest.last() == devices[devices.len() - 2]);
            assert(!crate::text::text_lt(
                devices[devices.len() - 1].name,
                devices[devices.len() - 2].name,
            ));
        }
        assert(rest.push(devices.last()) =~= devices);
    } else {
        assert(canonical(devices) =~= devices);
    }
}

proof fn lemma_top_generation_below(
    existing: Map<Seq<char>, SliceModel>,
    pool_name: Seq<char>,
    bound: int,
) -> (top: int)
    requires
        exists|name: Seq<char>| in_pool(existing, pool_name, name),
        forall|name: Seq<char>| #[trigger]
            in_pool(existing, pool_name, name) ==> existing[name].spec.pool.generation <= bound,
        bound >= i64::MIN,
    ensures
        is_top_generation(existing, pool_name, top),
    decreases bound - i64::MIN,
{
    if exists|name: Seq<char>| #[trigger]
        in_pool(existing, pool_name, name) && existing[name].spec.pool.generation == bound {
        bound
    } else {
        let name = choose|name: Seq<char>| in_pool(existing, pool_name, name);
        assert(existing[name].spec.pool.generation < bound);
        assert forall|name: Seq<char>| #[trigger] in_pool(
            existing,
            pool_name,
            name,
        ) implies existing[name].spec.pool.generation <= bound - 1 by {}
        lemma_top_generation_below(existing, pool_name, bound - 1)
    }
}

/// A pool that changes gets a generation above those of all its slices; one
/// that does not change keeps its generation.
pub proof fn law_generation_grows_with_changes(
    existing: Map<Seq<char>, SliceModel>,
    driver_name: Seq<char>,
    node_name: Seq<char>,
    pool_name: Seq<char>,
    chunks: Seq<Seq<WireDeviceModel>>,
    name: Seq<char>,
)
    requires
        in_pool(existing, pool_name, name),
        next_generation(existing, driver_name, node_name, pool_name, chunks) is Ok,
    ensures
        match next_generation(existing, driver_name, node_name, pool_name, chunks) {
            Ok(generation) => if pool_unchanged(
                existing,
                driver_name,
                node_name,
                pool_name,
                chunks,
            ) {
                existing[name].spec.pool.generation == generation
            } else {
                existing[name].spec.pool.generation < generation
            },
            Err(_) => false,
        },
{
    let top = lemma_top_generation_below(existing, pool_name, i64::MAX as int);
    assert(is_top_generation(existing, pool_name, top_generation(existing, pool_name)));
    if pool_unchanged(existing, driver_name, node_name, pool_name, chunks) {
        assert(is_slice_name(driver_name, node_name, pool_name, chunks.len(), name));
        let i = choose|i: nat|
            i < chunks.len() && name == #[trigger] slice_name_text(
                driver_name,
                node_name,
                pool_name,
                i,
            );
        assert(slice_unchanged(existing, driver_name, node_name, pool_name, chunks, i as int));
    }
}

/// The delay after failures never exceeds the longest delay, and a further
/// failure never shortens it.
pub proof fn law_retry_delay_is_bounded(base: nat, max: nat, failed: nat, later: nat)
    requires
        failed <= later,
    ensures
        backoff(base, max, failed) <= max,
        backoff(base, max, failed) <= backoff(base, max, later),
        base <= max ==> backoff(base, max, 1) == base,
{
    vstd::arithmetic::power2::lemma2_to64();
    let a: nat = if failed == 0 { 0 } else if failed > 32 { 31 } else { (failed - 1) as nat };
    let b: nat = if later == 0 { 0 } else if later > 32 { 31 } else { (later - 1) as nat };
    if a < b {
        lemma_pow2_strictly_increases(a, b);
    }
    assert(base * pow2(a) <= base * pow2(b)) by (nonlinear_arith)
        requires
            pow2(a) <= pow2(b),
    ;
    assert(base * pow2(0) == base) by (nonlinear_arith)
        requires
            pow2(0) == 1,
    ;
}

/// The slices of the API server after a call.
pub open spec fn apply_action(
    slices: Map<Seq<char>, SliceModel>,
    action: ActionModel,
) -> Map<Seq<char>, SliceModel> {
    match action {
        ActionModel::Create(slice) => match slice.name {
            Some(name) => slices.insert(name, slice),
            None => slices,
        },
        ActionModel::Replace(slice) => match slice.name {
            Some(name) => slices.insert(name, slice),
            None => slices,
        },
        ActionModel::Delete(name) => slices.remove(name),
    }
}

/// The slices of the API server after calls in a row.
pub open spec fn apply_all(
    slices: Map<Seq<char>, SliceModel>,
    actions: Seq<ActionModel>,
) -> Map<Seq<char>, SliceModel>
    decreases actions.len(),
{
    if actions.len() == 0 {
        slices
    } else {
        apply_action(apply_all(slices, actions.drop_last()), actions.last())
    }
}

proof fn lemma_apply_push(
    slices: Map<Seq<char>, SliceModel>,
    actions: Seq<ActionModel>,
    action: ActionModel,
)
    ensures
        apply_all(slices, actions.push(action)) == apply_action(
            apply_all(slices, actions),
            action,
        ),
{
    assert(actions.push(action).drop_last() =~= actions);
}

/// The name of a pool's slice.
pub open spec fn slice_of(by: PublisherModel, pool_name: Seq<char>, i: nat) -> Seq<char> {
    slice_name_text(by.driver_name, by.node_name, pool_name, i)
}

/// A name is that of one of the slices that a pool takes.
pub open spec fn claims(
    by: PublisherModel,
    pools: Map<Seq<char>, Seq<PoolDeviceModel>>,
    pool_name: Seq<char>,
    name: Seq<char>,
) -> bool {
    is_slice_name(
        by.driver_name,
        by.node_name,
        pool_name,
        pool_chunks(pools[pool_name]).len(),
        name,
    )
}

/// A name is that of one of the slices that the pools take.
pub open spec fn claimed(
    by: PublisherModel,
    pools: Map<Seq<char>, Seq<PoolDeviceModel>>,
    pool_names: Seq<Seq<char>>,
    name: Seq<char>,
) -> bool {
    exists|k: int|
        0 <= k < pool_names.len() && #[trigger] claims(by, pools, pool_names[k], name)
}

spec fn separate(
    by: PublisherModel,
    pools: Map<Seq<char>, Seq<PoolDeviceModel>>,
    pool_names: Seq<Seq<char>>,
) -> bool {
    forall|a: int, b: int, name: Seq<char>|
        0 <= a < b < pool_names.len() && #[trigger] claims(by, pools, pool_names[a], name)
            ==> !#[trigger] claims(by, pools, pool_names[b], name)
}

/// The first `n` slices of a pool are there as desired, with this generation.
pub open spec fn settled_at(
    by: PublisherModel,
    slices: Map<Seq<char>, SliceModel>,
    pool_name: Seq<char>,
    chunks: Seq<Seq<WireDeviceModel>>,
    n: nat,
    generation: i64,
) -> bool {
    forall|i: nat|
        i < n ==> slices.dom().contains(#[trigger] slice_of(by, pool_name, i)) && slice_matches(
            slices[slice_of(by, pool_name, i)],
            desired_slice(by, pool_name, generation, chunks, i as int),
        )
}

/// The slices of a pool are there as desired, all with one generation.
pub open spec fn settled(
    by: PublisherModel,
    slices: Map<Seq<char>, SliceModel>,
    pools: Map<Seq<char>, Seq<PoolDeviceModel>>,
    pool_name: Seq<char>,
) -> bool {
    let chunks = pool_chunks(pools[pool_name]);
    &&& names(wire_devices(pools[pool_name])).no_duplicates()
    &&& chunks.len() <= i64::MAX
    &&& exists|generation: i64|
        settled_at(by, slices, pool_name, chunks, chunks.len(), generation)
}

/// One of a pool's first `n` slices has this name.
spec fn one_of(by: PublisherModel, pool_name: Seq<char>, n: nat, name: Seq<char>) -> bool {
    is_slice_name(by.driver_name, by.node_name, pool_name, n, name)
}

proof fn lemma_one_of_step(by: PublisherModel, pool_name: Seq<char>, n: nat)
    ensures
        forall|name: Seq<char>| #[trigger]
            one_of(by, pool_name, n + 1, name) <==> one_of(by, pool_name, n, name) || name == slice_of(
                by,
                pool_name,
                n,
            ),
        !one_of(by, pool_name, n, slice_of(by, pool_name, n)),
{
    assert forall|name: Seq<char>| #[trigger] one_of(by, pool_name, n + 1, name) <==> one_of(
        by,
        pool_name,
        n,
        name,
    ) || name == slice_of(by, pool_name, n) by {
        if one_of(by, pool_name, n, name) {
            let i = choose|i: nat|
                i < n && name == #[trigger] slice_name_text(
                    by.driver_name,
                    by.node_name,
                    pool_name,
                    i,
                );
            assert(i < n + 1);
        }
        if name == slice_of(by, pool_name, n) {
            assert(name == slice_name_text(by.driver_name, by.node_name, pool_name, n));
        }
        if one_of(by, pool_name, n + 1, name) {
            let i = choose|i: nat|
                i < n + 1 && name == #[trigger] slice_name_text(
                    by.driver_name,
                    by.node_name,
                    pool_name,
                    i,
                );
            assert(i < n || i == n);
        }
    }
    if one_of(by, pool_name, n, slice_of(by, pool_name, n)) {
        let i = choose|i: nat|
            i < n && slice_of(by, pool_name, n) == #[trigger] slice_name_text(
                by.driver_name,
                by.node_name,
                pool_name,
                i,
            );
        law_slice_names_differ(by.driver_name, by.node_name, pool_name, i, n);
    }
}

/// The devices of each slice are in canonical order.
proof fn lemma_chunks_sorted(devices: Seq<WireDeviceModel>, i: int)
    requires
        0 <= i < chunks_of(canonical(devices)).len(),
    ensures
        canonical(chunks_of(canonical(devices))[i]) == chunks_of(canonical(devices))[i],
{
    lemma_canonical_names(devices);
    let all = canonical(devices);
    let chunk = chunks_of(all)[i];
    assert forall|a: int, b: int| 0 <= a < b < chunk.len() implies !crate::text::text_lt(
        (#[trigger] chunk[b]).name,
        (#[trigger] chunk[a]).name,
    ) by {
        assert(chunk[a] == all[128 * i + a] && chunk[b] == all[128 * i + b]);
    }
    law_canonical_order_is_stable(chunk);
}

/// What placing the first `n` slices of a pool does to the unclaimed slices and
/// to the API server.
proof fn lemma_place_slices(
    by: PublisherModel,
    existing: Map<Seq<char>, SliceModel>,
    plan: PlanModel,
    pool_name: Seq<char>,
    generation: i64,
    devices: Seq<WireDeviceModel>,
    n: nat,
)
    requires
        n <= chunks_of(canonical(devices)).len(),
        forall|name: Seq<char>| #[trigger]
            one_of(by, pool_name, chunks_of(canonical(devices)).len(), name) ==> (
            plan.unclaimed.dom().contains(name) <==> apply_all(
                existing,
                plan.actions,
            ).dom().contains(name)) && plan.unclaimed[name] == apply_all(existing, plan.actions)[name],
    ensures
        ({
            let chunks = chunks_of(canonical(devices));
            let before = apply_all(existing, plan.actions);
            let placed = place_slices(by, plan, pool_name, generation, chunks, n);
            let after = apply_all(existing, placed.actions);
            &&& forall|name: Seq<char>| #[trigger]
                placed.unclaimed.dom().contains(name) <==> plan.unclaimed.dom().contains(name)
                    && !one_of(by, pool_name, n, name)
            &&& forall|name: Seq<char>|
                !one_of(by, pool_name, n, name) ==> #[trigger] placed.unclaimed[name]
                    == plan.unclaimed[name]
            &&& forall|name: Seq<char>|
                !one_of(by, pool_name, n, name) ==> (#[trigger] after.dom().contains(name)
                    <==> before.dom().contains(name))
            &&& forall|name: Seq<char>|
                !one_of(by, pool_name, n, name) ==> #[trigger] after[name] == before[name]
            &&& settled_at(by, after, pool_name, chunks, n, generation)
        }),
    decreases n,
{
    let chunks = chunks_of(canonical(devices));
    let before = apply_all(existing, plan.actions);
    if n > 0 {
        let m = (n - 1) as nat;
        lemma_place_slices(by, existing, plan, pool_name, generation, devices, m);
        let earlier = place_slices(by, plan, pool_name, generation, chunks, m);
        let middle = apply_all(existing, earlier.actions);
        let placed = place_slices(by, plan, pool_name, generation, chunks, n);
        let after = apply_all(existing, placed.actions);
        let name = slice_of(by, pool_name, m);
        let desired = desired_slice(by, pool_name, generation, chunks, m as int);
        lemma_one_of_step(by, pool_name, m);
        assert(is_slice_name(by.driver_name, by.node_name, pool_name, chunks.len(), name));
        assert(one_of(by, pool_name, chunks.len(), name));
        lemma_chunks_sorted(devices, m as int);
        assert(canonical_spec(desired.spec) == desired.spec);
        assert(placed == place_slice(earlier, name, desired));
        lemma_apply_push(existing, earlier.actions, ActionModel::Create(desired));
        lemma_apply_push(existing, earlier.actions, ActionModel::Replace(desired));
        assert(earlier.unclaimed.dom().contains(name) <==> middle.dom().contains(name));
        assert(earlier.unclaimed[name] == middle[name]);
        assert forall|i: nat| i < n implies after.dom().contains(
            #[trigger] slice_of(by, pool_name, i),
        ) && slice_matches(
            after[slice_of(by, pool_name, i)],
            desired_slice(by, pool_name, generation, chunks, i as int),
        ) by {
            if i < m {
                law_slice_names_differ(by.driver_name, by.node_name, pool_name, i, m);
                assert(middle.dom().contains(slice_of(by, pool_name, i)));
            }
        }
    }
}

/// The first run: what is claimed stands on the API server as desired, and the
/// rest is as it was.
proof fn lemma_first_run(
    by: PublisherModel,
    existing: Map<Seq<char>, SliceModel>,
    pools: Map<Seq<char>, Seq<PoolDeviceModel>>,
    pool_names: Seq<Seq<char>>,
)
    requires
        separate(by, pools, pool_names),
        plan_pools(
            by,
            PlanModel { unclaimed: existing, actions: Seq::empty() },
            pools,
            pool_names,
        ).1 is None,
    ensures
        ({
            let start = PlanModel { unclaimed: existing, actions: Seq::empty() };
            let plan = plan_pools(by, start, pools, pool_names).0;
            let after = apply_all(existing, plan.actions);
            &&& forall|name: Seq<char>| #[trigger]
                plan.unclaimed.dom().contains(name) <==> existing.dom().contains(name) && !claimed(
                    by,
                    pools,
                    pool_names,
                    name,
                )
            &&& forall|name: Seq<char>|
                !claimed(by, pools, pool_names, name) ==> #[trigger] plan.unclaimed[name]
                    == existing[name]
            &&& forall|name: Seq<char>|
                !claimed(by, pools, pool_names, name) ==> (#[trigger] after.dom().contains(name)
                    <==> existing.dom().contains(name))
            &&& forall|name: Seq<char>|
                !claimed(by, pools, pool_names, name) ==> #[trigger] after[name] == existing[name]
            &&& forall|k: int|
                0 <= k < pool_names.len() ==> settled(by, after, pools, #[trigger] pool_names[k])
        }),
    decreases pool_names.len(),
{
    let start = PlanModel { unclaimed: existing, actions: Seq::empty() };
    if pool_names.len() == 0 {
        assert(apply_all(existing, start.actions) == existing);
    } else {
        let rest = pool_names.drop_last();
        let last = pool_names.len() - 1;
        let pool_name = pool_names.last();
        let devices = wire_devices(pools[pool_name]);
        let chunks = pool_chunks(pools[pool_name]);
        assert forall|a: int, b: int, name: Seq<char>|
            0 <= a < b < rest.len() && #[trigger] claims(by, pools, rest[a], name) implies !#[trigger] claims(
            by,
            pools,
            rest[b],
            name,
        ) by {
            assert(rest[a] == pool_names[a] && rest[b] == pool_names[b]);
        }
        lemma_first_run(by, existing, pools, rest);
        let earlier = plan_pools(by, start, pools, rest).0;
        let middle = apply_all(existing, earlier.actions);
        let plan = plan_pools(by, start, pools, pool_names).0;
        let after = apply_all(existing, plan.actions);
        assert forall|name: Seq<char>| #[trigger] claimed(by, pools, pool_names, name) <==> claimed(
            by,
            pools,
            rest,
            name,
        ) || claims(by, pools, pool_name, name) by {
            lemma_claimed_step(by, pools, pool_names, name);
        }
        assert forall|name: Seq<char>| claims(by, pools, pool_name, name) implies !#[trigger] claimed(
            by,
            pools,
            rest,
            name,
        ) by {
            if claimed(by, pools, rest, name) {
                let k = choose|k: int|
                    0 <= k < rest.len() && #[trigger] claims(by, pools, rest[k], name);
                assert(claims(by, pools, pool_names[k], name));
                assert(claims(by, pools, pool_names[last], name));
            }
        }
        if chunks.len() == 0 {
            assert(plan == earlier);
            assert forall|name: Seq<char>| !claims(by, pools, pool_name, name) by {}
            assert(settled_at(by, after, pool_name, chunks, 0, 0));
            assert(settled(by, after, pools, pool_name));
            assert forall|k: int| 0 <= k < pool_names.len() implies settled(
                by,
                after,
                pools,
                #[trigger] pool_names[k],
            ) by {
                if k < last {
                    assert(rest[k] == pool_names[k]);
                }
            }
        } else {
            let generation = match next_generation(
                earlier.unclaimed,
                by.driver_name,
                by.node_name,
                pool_name,
                chunks,
            ) {
                Ok(generation) => generation,
                Err(_) => 0,
            };
            assert(plan == place_slices(by, earlier, pool_name, generation, chunks, chunks.len()));
            assert forall|name: Seq<char>| #[trigger] one_of(by, pool_name, chunks.len(), name) implies (
            earlier.unclaimed.dom().contains(name) <==> middle.dom().contains(name))
                && earlier.unclaimed[name] == middle[name] by {
                assert(claims(by, pools, pool_name, name));
                assert(!claimed(by, pools, rest, name));
            }
            lemma_place_slices(
                by,
                existing,
                earlier,
                pool_name,
                generation,
                devices,
                chunks.len(),
            );
            assert forall|name: Seq<char>| claims(by, pools, pool_name, name) <==> #[trigger] one_of(
                by,
                pool_name,
                chunks.len(),
                name,
            ) by {}
            assert forall|name: Seq<char>| #[trigger] plan.unclaimed.dom().contains(name)
                <==> existing.dom().contains(name) && !claimed(by, pools, pool_names, name) by {
                assert(claimed(by, pools, pool_names, name) <==> claimed(by, pools, rest, name)
                    || one_of(by, pool_name, chunks.len(), name));
            }
            assert forall|name: Seq<char>| !claimed(by, pools, pool_names, name) implies #[trigger] plan.unclaimed[name]
                == existing[name] by {
                assert(!one_of(by, pool_name, chunks.len(), name));
                assert(!claimed(by, pools, rest, name));
                assert(earlier.unclaimed[name] == existing[name]);
            }
            assert forall|name: Seq<char>| !claimed(by, pools, pool_names, name) implies (#[trigger] after.dom().contains(
                name,
            ) <==> existing.dom().contains(name)) by {
                assert(!one_of(by, pool_name, chunks.len(), name));
                assert(!claimed(by, pools, rest, name));
                assert(middle.dom().contains(name) <==> existing.dom().contains(name));
            }
            assert forall|name: Seq<char>| !claimed(by, pools, pool_names, name) implies #[trigger] after[name]
                == existing[name] by {
                assert(!one_of(by, pool_name, chunks.len(), name));
                assert(!claimed(by, pools, rest, name));
                assert(middle[name] == existing[name]);
            }
            assert(settled(by, after, pools, pool_name));
            assert forall|k: int| 0 <= k < pool_names.len() implies settled(
                by,
                after,
                pools,
                #[trigger] pool_names[k],
            ) by {
                if k < last {
                    assert(rest[k] == pool_names[k]);
                    assert(settled(by, middle, pools, rest[k]));
                    lemma_settled_elsewhere(by, middle, after, pools, pool_names, k);
                }
            }
        }
    }
}

proof fn lemma_claimed_step(
    by: PublisherModel,
    pools: Map<Seq<char>, Seq<PoolDeviceModel>>,
    pool_names: Seq<Seq<char>>,
    name: Seq<char>,
)
    requires
        pool_names.len() > 0,
    ensures
        claimed(by, pools, pool_names, name) <==> claimed(by, pools, pool_names.drop_last(), name)
            || claims(by, pools, pool_names.last(), name),
{
    let rest = pool_names.drop_last();
    if claimed(by, pools, rest, name) {
        let k = choose|k: int| 0 <= k < rest.len() && #[trigger] claims(by, pools, rest[k], name);
        assert(claims(by, pools, pool_names[k], name));
    }
    if claims(by, pools, pool_names.last(), name) {
        assert(claims(by, pools, pool_names[pool_names.len() - 1], name));
    }
    if claimed(by, pools, pool_names, name) {
        let k = choose|k: int|
            0 <= k < pool_names.len() && #[trigger] claims(by, pools, pool_names[k], name);
        if k < rest.len() {
            assert(claims(by, pools, rest[k], name));
        }
    }
}

/// Placing the last pool does not disturb an earlier one.
proof fn lemma_settled_elsewhere(
    by: PublisherModel,
    before: Map<Seq<char>, SliceModel>,
    after: Map<Seq<char>, SliceModel>,
    pools: Map<Seq<char>, Seq<PoolDeviceModel>>,
    pool_names: Seq<Seq<char>>,
    k: int,
)
    requires
        0 <= k < pool_names.len() - 1,
        separate(by, pools, pool_names),
        settled(by, before, pools, pool_names[k]),
        forall|name: Seq<char>|
            !claims(by, pools, pool_names.last(), name) ==> (#[trigger] after.dom().contains(name)
                <==> before.dom().contains(name)) && after[name] == before[name],
    ensures
        settled(by, after, pools, pool_names[k]),
{
    let pool_name = pool_names[k];
    let chunks = pool_chunks(pools[pool_name]);
    let generation = choose|generation: i64|
        settled_at(by, before, pool_name, chunks, chunks.len(), generation);
    assert forall|i: nat| i < chunks.len() implies after.dom().contains(
        #[trigger] slice_of(by, pool_name, i),
    ) && slice_matches(
        after[slice_of(by, pool_name, i)],
        desired_slice(by, pool_name, generation, chunks, i as int),
    ) by {
        let name = slice_of(by, pool_name, i);
        assert(name == slice_name_text(by.driver_name, by.node_name, pool_name, i));
        assert(claims(by, pools, pool_names[k], name));
        assert(!claims(by, pools, pool_names[pool_names.len() - 1], name));
        assert(before.dom().contains(name));
        assert(after.dom().contains(name));
    }
    assert(settled_at(by, after, pool_name, chunks, chunks.len(), generation));
}

proof fn lemma_apply_concat(
    slices: Map<Seq<char>, SliceModel>,
    first: Seq<ActionModel>,
    second: Seq<ActionModel>,
)
    ensures
        apply_all(slices, first + second) == apply_all(apply_all(slices, first), second),
    decreases second.len(),
{
    if second.len() == 0 {
        assert(first + second =~= first);
    } else {
        lemma_apply_concat(slices, first, second.drop_last());
        assert((first + second).drop_last() =~= first + second.drop_last());
    }
}

proof fn lemma_apply_deletions(
    slices: Map<Seq<char>, SliceModel>,
    ordered: Seq<Seq<char>>,
    actions: Seq<ActionModel>,
)
    requires
        actions == Seq::new(ordered.len(), |i: int| ActionModel::Delete(ordered[i])),
    ensures
        forall|name: Seq<char>| #[trigger]
            apply_all(slices, actions).dom().contains(name) <==> slices.dom().contains(name)
                && !ordered.contains(name),
        forall|name: Seq<char>|
            !ordered.contains(name) ==> #[trigger] apply_all(slices, actions)[name] == slices[name],
    decreases ordered.len(),
{
    if ordered.len() > 0 {
        let rest = ordered.drop_last();
        let last = ordered.last();
        assert(actions.drop_last() =~= Seq::new(
            rest.len(),
            |i: int| ActionModel::Delete(rest[i]),
        ));
        lemma_apply_deletions(slices, rest, actions.drop_last());
        assert forall|name: Seq<char>| #[trigger] ordered.contains(name) <==> rest.contains(name)
            || name == last by {
            if rest.contains(name) {
                assert(ordered[rest.index_of(name)] == name);
            }
            if name == last {
                assert(ordered[ordered.len() - 1] == name);
            }
            if ordered.contains(name) {
                let k = ordered.index_of(name);
                if k < rest.len() {
                    assert(rest[k] == name);
                }
            }
        }
        assert(actions.last() == ActionModel::Delete(last));
        let earlier = apply_all(slices, actions.drop_last());
        assert(apply_all(slices, actions) == earlier.remove(last));
        assert forall|name: Seq<char>| !ordered.contains(name) implies #[trigger] apply_all(
            slices,
            actions,
        )[name] == slices[name] by {
            assert(!rest.contains(name));
            assert(earlier[name] == slices[name]);
        }
    } else {
        assert(actions =~= Seq::empty());
    }
}

/// Placing slices that are all there as desired takes no calls.
proof fn lemma_place_settled(
    by: PublisherModel,
    plan: PlanModel,
    pool_name: Seq<char>,
    generation: i64,
    chunks: Seq<Seq<WireDeviceModel>>,
    n: nat,
)
    requires
        n <= chunks.len(),
        settled_at(by, plan.unclaimed, pool_name, chunks, chunks.len(), generation),
    ensures
        ({
            let placed = place_slices(by, plan, pool_name, generation, chunks, n);
            &&& placed.actions == plan.actions
            &&& forall|name: Seq<char>| #[trigger]
                placed.unclaimed.dom().contains(name) <==> plan.unclaimed.dom().contains(name)
                    && !one_of(by, pool_name, n, name)
            &&& forall|name: Seq<char>|
                !one_of(by, pool_name, n, name) ==> #[trigger] placed.unclaimed[name]
                    == plan.unclaimed[name]
        }),
    decreases n,
{
    if n > 0 {
        let m = (n - 1) as nat;
        lemma_place_settled(by, plan, pool_name, generation, chunks, m);
        lemma_one_of_step(by, pool_name, m);
        let name = slice_of(by, pool_name, m);
        assert(plan.unclaimed.dom().contains(name));
        let earlier = place_slices(by, plan, pool_name, generation, chunks, m);
        assert(earlier.unclaimed[name] == plan.unclaimed[name]);
    }
}

/// The second run: where the API server holds exactly what is claimed, as
/// desired, nothing is called and nothing is left over.
proof fn lemma_second_run(
    by: PublisherModel,
    slices: Map<Seq<char>, SliceModel>,
    pools: Map<Seq<char>, Seq<PoolDeviceModel>>,
    pool_names: Seq<Seq<char>>,
    n: nat,
)
    requires
        n <= pool_names.len(),
        separate(by, pools, pool_names),
        forall|k: int|
            0 <= k < pool_names.len() ==> settled(by, slices, pools, #[trigger] pool_names[k]),
        forall|name: Seq<char>| #[trigger]
            slices.dom().contains(name) ==> claimed(by, pools, pool_names, name),
        pool_names.no_duplicates(),
    ensures
        ({
            let start = PlanModel { unclaimed: slices, actions: Seq::empty() };
            let (plan, failure) = plan_pools(by, start, pools, pool_names.take(n as int));
            &&& failure is None
            &&& plan.actions == Seq::<ActionModel>::empty()
            &&& forall|name: Seq<char>| #[trigger]
                plan.unclaimed.dom().contains(name) <==> slices.dom().contains(name) && !claimed(
                    by,
                    pools,
                    pool_names.take(n as int),
                    name,
                )
            &&& forall|name: Seq<char>|
                !claimed(by, pools, pool_names.take(n as int), name)
                    ==> #[trigger] plan.unclaimed[name] == slices[name]
        }),
    decreases n,
{
    let start = PlanModel { unclaimed: slices, actions: Seq::empty() };
    if n > 0 {
        let m = (n - 1) as nat;
        lemma_second_run(by, slices, pools, pool_names, m);
        let here = pool_names.take(n as int);
        let rest = pool_names.take(m as int);
        assert(here.drop_last() =~= rest);
        let pool_name = pool_names[m as int];
        assert(here.last() == pool_name);
        let chunks = pool_chunks(pools[pool_name]);
        let earlier = plan_pools(by, start, pools, rest).0;
        let plan = plan_pools(by, start, pools, here).0;
        assert(settled(by, slices, pools, pool_name));
        let generation = choose|generation: i64|
            settled_at(by, slices, pool_name, chunks, chunks.len(), generation);
        assert forall|name: Seq<char>| #[trigger] claimed(by, pools, here, name) <==> claimed(
            by,
            pools,
            rest,
            name,
        ) || claims(by, pools, pool_name, name) by {
            lemma_claimed_step(by, pools, here, name);
        }
        assert forall|name: Seq<char>| claims(by, pools, pool_name, name) implies !#[trigger] claimed(
            by,
            pools,
            rest,
            name,
        ) by {
            if claimed(by, pools, rest, name) {
                let k = choose|k: int|
                    0 <= k < rest.len() && #[trigger] claims(by, pools, rest[k], name);
                assert(claims(by, pools, pool_names[k], name));
                assert(claims(by, pools, pool_names[m as int], name));
            }
        }
        assert forall|i: nat| i < chunks.len() implies earlier.unclaimed.dom().contains(
            #[trigger] slice_of(by, pool_name, i),
        ) && slice_matches(
            earlier.unclaimed[slice_of(by, pool_name, i)],
            desired_slice(by, pool_name, generation, chunks, i as int),
        ) by {
            let name = slice_of(by, pool_name, i);
            assert(name == slice_name_text(by.driver_name, by.node_name, pool_name, i));
            assert(claims(by, pools, pool_name, name));
            assert(!claimed(by, pools, rest, name));
            assert(slices.dom().contains(name));
        }
        assert(settled_at(by, earlier.unclaimed, pool_name, chunks, chunks.len(), generation));
        if chunks.len() == 0 {
            assert(plan == earlier);
            assert forall|name: Seq<char>| !claims(by, pools, pool_name, name) by {}
        } else {
            lemma_settled_pool_unchanged(by, slices, earlier.unclaimed, pools, pool_names, m, generation);
            lemma_place_settled(by, earlier, pool_name, generation, chunks, chunks.len());
            assert forall|name: Seq<char>| claims(by, pools, pool_name, name) <==> #[trigger] one_of(
                by,
                pool_name,
                chunks.len(),
                name,
            ) by {}
            assert(plan == place_slices(by, earlier, pool_name, generation, chunks, chunks.len()));
            assert forall|name: Seq<char>| #[trigger] plan.unclaimed.dom().contains(name)
                <==> slices.dom().contains(name) && !claimed(by, pools, here, name) by {
                assert(claimed(by, pools, here, name) <==> claimed(by, pools, rest, name) || one_of(
                    by,
                    pool_name,
                    chunks.len(),
                    name,
                ));
            }
            assert forall|name: Seq<char>| !claimed(by, pools, here, name) implies #[trigger] plan.unclaimed[name]
                == slices[name] by {
                assert(!one_of(by, pool_name, chunks.len(), name));
                assert(!claimed(by, pools, rest, name));
            }
        }
    } else {
        assert(pool_names.take(0) =~= Seq::empty());
    }
}

/// A pool whose slices are there as desired keeps its generation.
proof fn lemma_settled_pool_unchanged(
    by: PublisherModel,
    slices: Map<Seq<char>, SliceModel>,
    unclaimed: Map<Seq<char>, SliceModel>,
    pools: Map<Seq<char>, Seq<PoolDeviceModel>>,
    pool_names: Seq<Seq<char>>,
    m: nat,
    generation: i64,
)
    requires
        m < pool_names.len(),
        pool_names.no_duplicates(),
        forall|k: int|
            0 <= k < pool_names.len() ==> settled(by, slices, pools, #[trigger] pool_names[k]),
        forall|name: Seq<char>| #[trigger]
            slices.dom().contains(name) ==> claimed(by, pools, pool_names, name),
        forall|name: Seq<char>| #[trigger]
            unclaimed.dom().contains(name) ==> slices.dom().contains(name) && unclaimed[name]
                == slices[name],
        pool_chunks(pools[pool_names[m as int]]).len() > 0,
        settled_at(
            by,
            unclaimed,
            pool_names[m as int],
            pool_chunks(pools[pool_names[m as int]]),
            pool_chunks(pools[pool_names[m as int]]).len(),
            generation,
        ),
    ensures
        next_generation(
            unclaimed,
            by.driver_name,
            by.node_name,
            pool_names[m as int],
            pool_chunks(pools[pool_names[m as int]]),
        ) == Ok::<i64, ApiStatusModel>(generation),
{
    let pool_name = pool_names[m as int];
    let chunks = pool_chunks(pools[pool_name]);
    assert(settled(by, slices, pools, pool_name));
    assert forall|i: int| 0 <= i < chunks.len() implies #[trigger] slice_unchanged(
        unclaimed,
        by.driver_name,
        by.node_name,
        pool_name,
        chunks,
        i,
    ) by {
        let name = slice_of(by, pool_name, i as nat);
        let first = slice_of(by, pool_name, 0);
        assert(unclaimed.dom().contains(name));
        assert(unclaimed.dom().contains(first));
        assert(canonical_spec(unclaimed[name].spec).devices == Some(chunks[i]));
        assert(canonical_spec(unclaimed[name].spec).pool == unclaimed[name].spec.pool);
        assert(canonical_spec(unclaimed[first].spec).pool == unclaimed[first].spec.pool);
    }
    assert forall|name: Seq<char>| #[trigger] in_pool(unclaimed, pool_name, name) implies is_slice_name(
        by.driver_name,
        by.node_name,
        pool_name,
        chunks.len(),
        name,
    ) by {
        assert(slices.dom().contains(name));
        let k = choose|k: int|
            0 <= k < pool_names.len() && #[trigger] claims(by, pools, pool_names[k], name);
        let other = pool_names[k];
        let others = pool_chunks(pools[other]);
        assert(settled(by, slices, pools, other));
        let its = choose|g: i64| settled_at(by, slices, other, others, others.len(), g);
        let i = choose|i: nat|
            i < others.len() && name == #[trigger] slice_name_text(
                by.driver_name,
                by.node_name,
                other,
                i,
            );
        assert(name == slice_of(by, other, i));
        assert(slice_matches(slices[name], desired_slice(by, other, its, others, i as int)));
        assert(canonical_spec(slices[name].spec).pool == slices[name].spec.pool);
        assert(other == pool_name);
    }
    assert(pool_unchanged(unclaimed, by.driver_name, by.node_name, pool_name, chunks));
    assert(slice_unchanged(unclaimed, by.driver_name, by.node_name, pool_name, chunks, 0));
    let first = slice_of(by, pool_name, 0);
    assert(unclaimed.dom().contains(first));
    assert(canonical_spec(unclaimed[first].spec).pool == unclaimed[first].spec.pool);
}

/// No two pools take slices of the same name.
pub open spec fn pools_are_separate(
    by: PublisherModel,
    pools: Map<Seq<char>, Seq<PoolDeviceModel>>,
) -> bool {
    forall|p: Seq<char>, q: Seq<char>, name: Seq<char>|
        p != q && pools.dom().contains(p) && pools.dom().contains(q) && #[trigger] claims(
            by,
            pools,
            p,
            name,
        ) ==> !#[trigger] claims(by, pools, q, name)
}

proof fn lemma_pool_order(by: PublisherModel, pools: Map<Seq<char>, Seq<PoolDeviceModel>>)
    requires
        pools.dom().finite(),
        pools_are_separate(by, pools),
    ensures
        separate(by, pools, in_order::<String>(pools.dom())),
        in_order::<String>(pools.dom()).no_duplicates(),
        in_order::<String>(pools.dom()).to_set() == pools.dom(),
{
    let ordered = in_order::<String>(pools.dom());
    lemma_in_order_of_set::<String>(pools.dom());
    assert forall|a: int, b: int| 0 <= a < b < ordered.len() implies ordered[a] != ordered[b] by {
        assert(String::before(ordered[a], ordered[b]));
        <String as MapKey>::lemma_total(ordered[a], ordered[b]);
    }
    assert forall|a: int, b: int, name: Seq<char>|
        0 <= a < b < ordered.len() && #[trigger] claims(by, pools, ordered[a], name) implies !#[trigger] claims(
        by,
        pools,
        ordered[b],
        name,
    ) by {
        assert(ordered.to_set().contains(ordered[a]));
        assert(ordered.to_set().contains(ordered[b]));
    }
}

/// After a publication the API server holds exactly the slices that the pools
/// take: each as desired, and all slices of a pool with one generation and one
/// count. Pools must not take slices of the same name.
pub proof fn law_publication_is_complete(
    by: PublisherModel,
    existing: Map<Seq<char>, SliceModel>,
    pools: Map<Seq<char>, Seq<PoolDeviceModel>>,
)
    requires
        existing.dom().finite(),
        pools.dom().finite(),
        pools_are_separate(by, pools),
        publication(by, existing, pools).1 is None,
    ensures
        ({
            let after = apply_all(existing, publication(by, existing, pools).0);
            &&& forall|name: Seq<char>| #[trigger]
                after.dom().contains(name) ==> claimed(
                    by,
                    pools,
                    in_order::<String>(pools.dom()),
                    name,
                )
            &&& forall|pool_name: Seq<char>| #[trigger]
                pools.dom().contains(pool_name) ==> settled(by, after, pools, pool_name)
        }),
{
    let ordered = in_order::<String>(pools.dom());
    let start = PlanModel { unclaimed: existing, actions: Seq::empty() };
    let plan = plan_pools(by, start, pools, ordered).0;
    let middle = apply_all(existing, plan.actions);
    let deleted = in_order::<String>(plan.unclaimed.dom());
    let after = apply_all(existing, publication(by, existing, pools).0);
    lemma_pool_order(by, pools);
    lemma_first_run(by, existing, pools, ordered);
    assert(plan.unclaimed.dom().subset_of(existing.dom()));
    vstd::set_lib::lemma_len_subset(plan.unclaimed.dom(), existing.dom());
    lemma_in_order_of_set::<String>(plan.unclaimed.dom());
    lemma_apply_concat(existing, plan.actions, deletions(plan.unclaimed.dom()));
    lemma_apply_deletions(middle, deleted, deletions(plan.unclaimed.dom()));
    assert forall|name: Seq<char>| deleted.contains(name) <==> #[trigger] plan.unclaimed.dom().contains(
        name,
    ) by {
        assert(deleted.to_set().contains(name) <==> deleted.contains(name));
    }
    assert forall|name: Seq<char>| #[trigger] after.dom().contains(name) implies claimed(
        by,
        pools,
        ordered,
        name,
    ) by {
        if !claimed(by, pools, ordered, name) {
            assert(middle.dom().contains(name));
            assert(plan.unclaimed.dom().contains(name));
        }
    }
    assert forall|pool_name: Seq<char>| #[trigger] pools.dom().contains(pool_name) implies settled(
        by,
        after,
        pools,
        pool_name,
    ) by {
        assert(ordered.to_set().contains(pool_name));
        let k = ordered.index_of(pool_name);
        let chunks = pool_chunks(pools[pool_name]);
        assert(settled(by, middle, pools, ordered[k]));
        let generation = choose|g: i64|
            settled_at(by, middle, pool_name, chunks, chunks.len(), g);
        assert forall|i: nat| i < chunks.len() implies after.dom().contains(
            #[trigger] slice_of(by, pool_name, i),
        ) && slice_matches(
            after[slice_of(by, pool_name, i)],
            desired_slice(by, pool_name, generation, chunks, i as int),
        ) by {
            let name = slice_of(by, pool_name, i);
            assert(name == slice_name_text(by.driver_name, by.node_name, pool_name, i));
            assert(claims(by, pools, ordered[k], name));
            assert(claimed(by, pools, ordered, name));
            assert(!plan.unclaimed.dom().contains(name));
            assert(middle.dom().contains(name));
        }
        assert(settled_at(by, after, pool_name, chunks, chunks.len(), generation));
    }
}

/// A slice is listed as it is stored, but for the order of its devices.
pub open spec fn reordered_slice(stored: SliceModel, listed: SliceModel) -> bool {
    &&& listed.name == stored.name
    &&& listed.owner_references == stored.owner_references
    &&& listed.spec == (SliceSpecModel { devices: listed.spec.devices, ..stored.spec })
    &&& match (stored.spec.devices, listed.spec.devices) {
        (Some(devices), Some(reordered)) => devices.to_multiset() == reordered.to_multiset(),
        (None, None) => true,
        _ => false,
    }
}

/// A slice that matches still does with its devices in another order.
proof fn lemma_reordered_matches(stored: SliceModel, listed: SliceModel, desired: SliceModel)
    requires
        slice_matches(stored, desired),
        reordered_slice(stored, listed),
        match desired.spec.devices {
            Some(devices) => names(devices).no_duplicates(),
            None => true,
        },
    ensures
        slice_matches(listed, desired),
{
    match (stored.spec.devices, listed.spec.devices) {
        (Some(devices), Some(reordered)) => {
            lemma_canonical_names(devices);
            law_device_order_is_irrelevant(devices, reordered);
        },
        _ => {},
    }
}

/// Publication settles: once the calls of one publication are carried out,
/// publishing the same snapshot again calls nothing, in whatever order the API
/// server lists the devices of each slice by then. Pools must not take slices of
/// the same name, as those of a pool named `a` and of one named `a-1` can.
pub proof fn law_publication_settles(
    by: PublisherModel,
    existing: Map<Seq<char>, SliceModel>,
    pools: Map<Seq<char>, Seq<PoolDeviceModel>>,
    listed: Map<Seq<char>, SliceModel>,
)
    requires
        existing.dom().finite(),
        pools.dom().finite(),
        pools_are_separate(by, pools),
        publication(by, existing, pools).1 is None,
        listed.dom() == apply_all(existing, publication(by, existing, pools).0).dom(),
        forall|name: Seq<char>| #[trigger]
            listed.dom().contains(name) ==> reordered_slice(
                apply_all(existing, publication(by, existing, pools).0)[name],
                listed[name],
            ),
    ensures
        publication(by, listed, pools) == (Seq::<ActionModel>::empty(), None::<ApiStatusModel>),
{
    let ordered = in_order::<String>(pools.dom());
    let after = apply_all(existing, publication(by, existing, pools).0);
    lemma_pool_order(by, pools);
    law_publication_is_complete(by, existing, pools);
    assert forall|k: int| 0 <= k < ordered.len() implies settled(
        by,
        listed,
        pools,
        #[trigger] ordered[k],
    ) by {
        let pool_name = ordered[k];
        assert(ordered.to_set().contains(pool_name));
        assert(settled(by, after, pools, pool_name));
        let devices = wire_devices(pools[pool_name]);
        let chunks = pool_chunks(pools[pool_name]);
        let generation = choose|g: i64| settled_at(by, after, pool_name, chunks, chunks.len(), g);
        lemma_canonical_names(devices);
        assert forall|i: nat| i < chunks.len() implies listed.dom().contains(
            #[trigger] slice_of(by, pool_name, i),
        ) && slice_matches(
            listed[slice_of(by, pool_name, i)],
            desired_slice(by, pool_name, generation, chunks, i as int),
        ) by {
            let name = slice_of(by, pool_name, i);
            let all = canonical(devices);
            let chunk = chunks[i as int];
            assert(after.dom().contains(name));
            law_slices_hold_every_device(all);
            assert forall|a: int, b: int|
                0 <= a < chunk.len() && 0 <= b < chunk.len() && a != b implies names(chunk)[a]
                != names(chunk)[b] by {
                assert(chunks_of(all)[i as int][a] == all[128 * i + a]);
                assert(chunks_of(all)[i as int][b] == all[128 * i + b]);
                assert(names(all)[128 * i + a] != names(all)[128 * i + b]);
            }
            lemma_reordered_matches(
                after[name],
                listed[name],
                desired_slice(by, pool_name, generation, chunks, i as int),
            );
        }
        assert(settled_at(by, listed, pool_name, chunks, chunks.len(), generation));
    }
    lemma_second_run(by, listed, pools, ordered, ordered.len());
    assert(ordered.take(ordered.len() as int) =~= ordered);
    let again = plan_pools(
        by,
        PlanModel { unclaimed: listed, actions: Seq::empty() },
        pools,
        ordered,
    ).0;
    assert(again.unclaimed.dom() =~= Set::empty());
    lemma_in_order_of_set::<String>(again.unclaimed.dom());
    let none = in_order::<String>(again.unclaimed.dom());
    if none.len() > 0 {
        assert(none.to_set().contains(none[0]));
    }
    assert(again.actions + deletions(again.unclaimed.dom()) =~= Seq::<ActionModel>::empty());
}

/// Only slices of this driver on this node count as its own, each under its own
/// name.
pub proof fn law_own_slices_belong(
    listed: Seq<SliceModel>,
    driver_name: Seq<char>,
    node_name: Seq<char>,
    name: Seq<char>,
)
    requires
        own_slices(listed, driver_name, node_name).dom().contains(name),
    ensures
        listed.contains(own_slices(listed, driver_name, node_name)[name]),
        own_slices(listed, driver_name, node_name)[name].name == Some(name),
        own_slices(listed, driver_name, node_name)[name].spec.driver == driver_name,
        own_slices(listed, driver_name, node_name)[name].spec.node_name == Some(node_name),
    decreases listed.len(),
{
    if listed.len() > 0 {
        let rest = listed.drop_last();
        let earlier = own_slices(rest, driver_name, node_name);
        let all = own_slices(listed, driver_name, node_name);
        if earlier.dom().contains(name) {
            law_own_slices_belong(rest, driver_name, node_name, name);
            assert(listed[rest.index_of(earlier[name])] == earlier[name]);
        }
        assert(listed[listed.len() - 1] == listed.last());
    }
}

/// The name of the slice that a call is about.
pub open spec fn action_name(action: ActionModel) -> Option<Seq<char>> {
    match action {
        ActionModel::Create(slice) => slice.name,
        ActionModel::Replace(slice) => slice.name,
        ActionModel::Delete(name) => Some(name),
    }
}

/// A call creates a slice where there is none, or replaces or deletes one that
/// is there.
pub open spec fn action_fits(action: ActionModel, existing: Map<Seq<char>, SliceModel>) -> bool {
    match action_name(action) {
        Some(name) => !(action is Create) ==> existing.dom().contains(name),
        None => false,
    }
}

proof fn lemma_place_actions(
    by: PublisherModel,
    existing: Map<Seq<char>, SliceModel>,
    plan: PlanModel,
    pool_name: Seq<char>,
    generation: i64,
    chunks: Seq<Seq<WireDeviceModel>>,
    n: nat,
)
    requires
        plan.unclaimed.dom().subset_of(existing.dom()),
        forall|i: int|
            0 <= i < plan.actions.len() ==> action_fits(#[trigger] plan.actions[i], existing)
                && !(plan.actions[i] is Delete),
    ensures
        ({
            let placed = place_slices(by, plan, pool_name, generation, chunks, n);
            &&& placed.unclaimed.dom().subset_of(existing.dom())
            &&& forall|i: int|
                0 <= i < placed.actions.len() ==> action_fits(
                    #[trigger] placed.actions[i],
                    existing,
                ) && !(placed.actions[i] is Delete)
        }),
    decreases n,
{
    if n > 0 {
        lemma_place_actions(by, existing, plan, pool_name, generation, chunks, (n - 1) as nat);
    }
}

proof fn lemma_plan_actions(
    by: PublisherModel,
    existing: Map<Seq<char>, SliceModel>,
    pools: Map<Seq<char>, Seq<PoolDeviceModel>>,
    pool_names: Seq<Seq<char>>,
)
    ensures
        ({
            let start = PlanModel { unclaimed: existing, actions: Seq::empty() };
            let plan = plan_pools(by, start, pools, pool_names).0;
            &&& plan.unclaimed.dom().subset_of(existing.dom())
            &&& forall|i: int|
                0 <= i < plan.actions.len() ==> action_fits(#[trigger] plan.actions[i], existing)
                    && !(plan.actions[i] is Delete)
        }),
    decreases pool_names.len(),
{
    if pool_names.len() > 0 {
        let start = PlanModel { unclaimed: existing, actions: Seq::empty() };
        let rest = pool_names.drop_last();
        lemma_plan_actions(by, existing, pools, rest);
        let earlier = plan_pools(by, start, pools, rest).0;
        let chunks = pool_chunks(pools[pool_names.last()]);
        match next_generation(
            earlier.unclaimed,
            by.driver_name,
            by.node_name,
            pool_names.last(),
            chunks,
        ) {
            Ok(generation) => lemma_place_actions(
                by,
                existing,
                earlier,
                pool_names.last(),
                generation,
                chunks,
                chunks.len(),
            ),
            Err(_) => {},
        }
    }
}

/// A publication replaces and deletes only slices that are its own, and every
/// deletion comes after all slices are created or replaced.
pub proof fn law_calls_keep_to_own_slices(
    by: PublisherModel,
    existing: Map<Seq<char>, SliceModel>,
    pools: Map<Seq<char>, Seq<PoolDeviceModel>>,
)
    requires
        existing.dom().finite(),
    ensures
        forall|i: int|
            0 <= i < publication(by, existing, pools).0.len() ==> action_fits(
                #[trigger] publication(by, existing, pools).0[i],
                existing,
            ),
        forall|i: int, j: int|
            0 <= i < j < publication(by, existing, pools).0.len() && (#[trigger] publication(
                by,
                existing,
                pools,
            ).0[i]) is Delete ==> (#[trigger] publication(by, existing, pools).0[j]) is Delete,
{
    let ordered = in_order::<String>(pools.dom());
    let start = PlanModel { unclaimed: existing, actions: Seq::empty() };
    let (plan, failure) = plan_pools(by, start, pools, ordered);
    let actions = publication(by, existing, pools).0;
    lemma_plan_actions(by, existing, pools, ordered);
    if failure is None {
        let deleted = in_order::<String>(plan.unclaimed.dom());
        vstd::set_lib::lemma_len_subset(plan.unclaimed.dom(), existing.dom());
        lemma_in_order_of_set::<String>(plan.unclaimed.dom());
        assert forall|i: int| 0 <= i < actions.len() implies action_fits(
            #[trigger] actions[i],
            existing,
        ) && (actions[i] is Delete <==> i >= plan.actions.len()) by {
            if i < plan.actions.len() {
                assert(actions[i] == plan.actions[i]);
            } else {
                let k = i - plan.actions.len();
                assert(actions[i] == ActionModel::Delete(deleted[k]));
                assert(deleted.to_set().contains(deleted[k]));
            }
        }
    }
}

/// A pool with two devices of the same name is refused, and changes nothing.
pub proof fn law_duplicate_devices_are_refused(
    by: PublisherModel,
    plan: PlanModel,
    pool_name: Seq<char>,
    devices: Seq<PoolDeviceModel>,
    i: int,
    j: int,
)
    requires
        0 <= i < j < devices.len(),
        devices[i].name == devices[j].name,
    ensures
        plan_pool(by, plan, pool_name, devices).0 == plan,
        plan_pool(by, plan, pool_name, devices).1 is Some,
{
    let all = names(wire_devices(devices));
    assert(all[i] == all[j]);
}

proof fn lemma_canonical_members(devices: Seq<WireDeviceModel>)
    ensures
        forall|device: WireDeviceModel| #[trigger]
            canonical(devices).contains(device) ==> devices.contains(device),
    decreases devices.len(),
{
    if devices.len() > 0 {
        let rest = devices.drop_last();
        lemma_canonical_members(rest);
        lemma_insert_members(canonical(rest), devices.last());
        assert forall|device: WireDeviceModel| #[trigger] canonical(devices).contains(
            device,
        ) implies devices.contains(device) by {
            if canonical(rest).contains(device) {
                assert(devices[rest.index_of(device)] == device);
            } else {
                assert(devices[devices.len() - 1] == device);
            }
        }
    }
}

proof fn lemma_insert_members(sorted: Seq<WireDeviceModel>, device: WireDeviceModel)
    ensures
        forall|other: WireDeviceModel| #[trigger]
            insert_by_name(sorted, device).contains(other) ==> sorted.contains(other) || other
                == device,
    decreases sorted.len(),
{
    let all = insert_by_name(sorted, device);
    if sorted.len() > 0 && crate::text::text_lt(device.name, sorted.last().name) {
        let rest = sorted.drop_last();
        lemma_insert_members(rest, device);
        assert forall|other: WireDeviceModel| #[trigger] all.contains(other) implies sorted.contains(
            other,
        ) || other == device by {
            let k = all.index_of(other);
            let inner = insert_by_name(rest, device);
            if k < inner.len() {
                assert(inner[k] == other);
                assert(inner.contains(other));
                if rest.contains(other) {
                    assert(sorted[rest.index_of(other)] == other);
                }
            } else {
                assert(sorted[sorted.len() - 1] == other);
            }
        }
    } else {
        assert forall|other: WireDeviceModel| #[trigger] all.contains(other) implies sorted.contains(
            other,
        ) || other == device by {
            let k = all.index_of(other);
            if k < sorted.len() {
                assert(sorted[k] == other);
            }
        }
    }
}

proof fn lemma_canonical_ascending(devices: Seq<WireDeviceModel>)
    requires
        names(devices).no_duplicates(),
    ensures
        ascending::<String>(names(canonical(devices))),
{
    lemma_canonical_names(devices);
    let sorted = canonical(devices);
    let all = names(sorted);
    assert forall|i: int, j: int| 0 <= i < j < all.len() implies String::before(
        #[trigger] all[i],
        #[trigger] all[j],
    ) by {
        assert(!crate::text::text_lt(sorted[j].name, sorted[i].name));
        assert(all[i] != all[j]);
        lemma_text_lt_total(sorted[i].name, sorted[j].name);
    }
}

/// Devices without a name in common stay so in another order.
proof fn lemma_same_names(devices: Seq<WireDeviceModel>, reordered: Seq<WireDeviceModel>)
    requires
        names(devices).no_duplicates(),
        devices.to_multiset() == reordered.to_multiset(),
    ensures
        devices.to_set() == reordered.to_set(),
        devices.len() == reordered.len(),
        names(reordered).no_duplicates(),
{
    devices.to_multiset_ensures();
    reordered.to_multiset_ensures();
    assert forall|device: WireDeviceModel| devices.to_set().contains(device)
        <==> reordered.to_set().contains(device) by {
        assert(devices.contains(device) <==> devices.to_multiset().count(device) > 0);
        assert(reordered.contains(device) <==> reordered.to_multiset().count(device) > 0);
    }
    assert(devices.to_set() =~= reordered.to_set());
    let left = names(devices);
    let right = names(reordered);
    assert forall|name: Seq<char>| left.to_set().contains(name) <==> right.to_set().contains(
        name,
    ) by {
        if left.contains(name) {
            let device = devices[left.index_of(name)];
            assert(devices.to_set().contains(device));
            assert(reordered.to_set().contains(device));
            assert(right[reordered.index_of(device)] == name);
        }
        if right.contains(name) {
            let device = reordered[right.index_of(name)];
            assert(reordered.to_set().contains(device));
            assert(devices.to_set().contains(device));
            assert(left[devices.index_of(device)] == name);
        }
    }
    assert(left.to_set() =~= right.to_set());
    left.unique_seq_to_set();
    right.lemma_no_dup_set_cardinality();
}

/// The order in which a driver lists its devices does not matter: the same
/// devices in another order have the same canonical order.
pub proof fn law_device_order_is_irrelevant(
    devices: Seq<WireDeviceModel>,
    reordered: Seq<WireDeviceModel>,
)
    requires
        names(devices).no_duplicates(),
        devices.to_multiset() == reordered.to_multiset(),
    ensures
        canonical(devices) == canonical(reordered),
{
    let left = canonical(devices);
    let right = canonical(reordered);
    lemma_same_names(devices, reordered);
    lemma_canonical_names(devices);
    lemma_canonical_names(reordered);
    lemma_canonical_ascending(devices);
    lemma_canonical_ascending(reordered);
    lemma_canonical_members(devices);
    lemma_canonical_members(reordered);
    assert forall|name: Seq<char>| names(left).to_set().contains(name) <==> names(
        right,
    ).to_set().contains(name) by {
        assert(names(left).contains(name) <==> names(devices).contains(name));
        assert(names(right).contains(name) <==> names(reordered).contains(name));
        if names(devices).contains(name) {
            let k = names(devices).index_of(name);
            assert(devices.to_set().contains(devices[k]));
            assert(reordered.to_set().contains(devices[k]));
            assert(names(reordered)[reordered.index_of(devices[k])] == name);
        }
        if names(reordered).contains(name) {
            let k = names(reordered).index_of(name);
            assert(reordered.to_set().contains(reordered[k]));
            assert(devices.to_set().contains(reordered[k]));
            assert(names(devices)[devices.index_of(reordered[k])] == name);
        }
    }
    assert(names(left).to_set() =~= names(right).to_set());
    lemma_ascending_unique::<String>(names(left), names(right));
    assert forall|i: int| 0 <= i < left.len() implies left[i] == right[i] by {
        assert(names(left)[i] == names(right)[i]);
        assert(left.contains(left[i]));
        assert(right.contains(right[i]));
        assert(devices.contains(left[i]));
        assert(reordered.to_set().contains(right[i]));
        assert(devices.to_set().contains(right[i]));
        let a = devices.index_of(left[i]);
        let b = devices.index_of(right[i]);
        assert(names(devices)[a] == names(devices)[b]);
    }
    assert(left =~= right);
}

/// A pool keeps its generation only where its slices are exactly those that it
/// needs, each with its devices as whole records, the number of slices and one
/// generation. A difference in any field of any device, in the number of slices
/// or in their names raises the generation above that of every slice there is,
/// by one above the greatest; a pool without slices starts at one.
pub proof fn law_changed_devices_raise_the_generation(
    existing: Map<Seq<char>, SliceModel>,
    driver_name: Seq<char>,
    node_name: Seq<char>,
    pool_name: Seq<char>,
    chunks: Seq<Seq<WireDeviceModel>>,
    generation: i64,
)
    requires
        next_generation(existing, driver_name, node_name, pool_name, chunks) == Ok::<
            i64,
            ApiStatusModel,
        >(generation),
        chunks.len() > 0,
    ensures
        ({
            &&& forall|i: nat|
                i < chunks.len() ==> {
                    let name = #[trigger] slice_name_text(driver_name, node_name, pool_name, i);
                    &&& existing.dom().contains(name)
                    &&& existing[name].spec.pool.name == pool_name
                    &&& existing[name].spec.pool.generation == generation
                    &&& existing[name].spec.pool.resource_slice_count == chunks.len()
                    &&& match existing[name].spec.devices {
                        Some(held) => held.to_multiset() == chunks[i as int].to_multiset(),
                        None => false,
                    }
                }
            &&& forall|name: Seq<char>| #[trigger]
                existing.dom().contains(name) && existing[name].spec.pool.name == pool_name
                    ==> exists|i: nat|
                    i < chunks.len() && name == #[trigger] slice_name_text(
                        driver_name,
                        node_name,
                        pool_name,
                        i,
                    )
        }) || ({
            &&& forall|name: Seq<char>| #[trigger]
                existing.dom().contains(name) && existing[name].spec.pool.name == pool_name
                    ==> existing[name].spec.pool.generation < generation
            &&& generation == 1 || exists|name: Seq<char>| #[trigger]
                existing.dom().contains(name) && existing[name].spec.pool.name == pool_name
                    && existing[name].spec.pool.generation == generation - 1
            &&& (forall|name: Seq<char>| #[trigger]
                existing.dom().contains(name) ==> existing[name].spec.pool.name != pool_name)
                ==> generation == 1
        }),
{
    if pool_unchanged(existing, driver_name, node_name, pool_name, chunks) {
        assert(slice_unchanged(existing, driver_name, node_name, pool_name, chunks, 0));
        assert forall|i: nat| i < chunks.len() implies {
            let name = #[trigger] slice_name_text(driver_name, node_name, pool_name, i);
            &&& existing.dom().contains(name)
            &&& existing[name].spec.pool.name == pool_name
            &&& existing[name].spec.pool.generation == generation
            &&& existing[name].spec.pool.resource_slice_count == chunks.len()
            &&& match existing[name].spec.devices {
                Some(held) => held.to_multiset() == chunks[i as int].to_multiset(),
                None => false,
            }
        } by {
            let name = slice_name_text(driver_name, node_name, pool_name, i);
            assert(slice_unchanged(existing, driver_name, node_name, pool_name, chunks, i as int));
            crate::publication_laws::law_sorting_keeps_every_device(
                existing[name].spec.devices->0,
            );
        }
        assert forall|name: Seq<char>| #[trigger]
            existing.dom().contains(name) && existing[name].spec.pool.name
                == pool_name implies exists|i: nat|
            i < chunks.len() && name == #[trigger] slice_name_text(
                driver_name,
                node_name,
                pool_name,
                i,
            ) by {
            assert(in_pool(existing, pool_name, name));
            assert(is_slice_name(driver_name, node_name, pool_name, chunks.len(), name));
        }
    } else {
        if exists|name: Seq<char>| in_pool(existing, pool_name, name) {
            let top = lemma_top_generation_below(existing, pool_name, i64::MAX as int);
            assert(is_top_generation(existing, pool_name, top_generation(existing, pool_name)));
            let name = choose|name: Seq<char>| #[trigger]
                in_pool(existing, pool_name, name) && existing[name].spec.pool.generation
                    == top_generation(existing, pool_name);
            assert(existing.dom().contains(name));
            assert forall|name: Seq<char>| #[trigger]
                existing.dom().contains(name) && existing[name].spec.pool.name
                    == pool_name implies existing[name].spec.pool.generation < generation by {
                assert(in_pool(existing, pool_name, name));
            }
        } else {
            assert forall|name: Seq<char>| #[trigger]
                existing.dom().contains(name) implies existing[name].spec.pool.name != pool_name by {
                assert(!in_pool(existing, pool_name, name));
            }
        }
    }
}

/// A pool whose slices are exactly those that it needs, with the same devices in
/// whatever order, keeps its generation.
pub proof fn law_unchanged_pools_keep_their_generation(
    existing: Map<Seq<char>, SliceModel>,
    driver_name: Seq<char>,
    node_name: Seq<char>,
    pool_name: Seq<char>,
    chunks: Seq<Seq<WireDeviceModel>>,
    generation: i64,
)
    requires
        0 < chunks.len() <= i64::MAX,
        forall|i: int|
            0 <= i < chunks.len() ==> ascending::<String>(names(#[trigger] chunks[i])),
        forall|i: nat|
            i < chunks.len() ==> {
                let name = #[trigger] slice_name_text(driver_name, node_name, pool_name, i);
                &&& existing.dom().contains(name)
                &&& existing[name].spec.pool.name == pool_name
                &&& existing[name].spec.pool.generation == generation
                &&& existing[name].spec.pool.resource_slice_count == chunks.len()
                &&& match existing[name].spec.devices {
                    Some(held) => held.to_multiset() == chunks[i as int].to_multiset(),
                    None => false,
                }
            },
        forall|name: Seq<char>| #[trigger]
            existing.dom().contains(name) && existing[name].spec.pool.name == pool_name
                ==> exists|i: nat|
                i < chunks.len() && name == #[trigger] slice_name_text(
                    driver_name,
                    node_name,
                    pool_name,
                    i,
                ),
    ensures
        next_generation(existing, driver_name, node_name, pool_name, chunks) == Ok::<
            i64,
            ApiStatusModel,
        >(generation),
{
    let first = slice_name_text(driver_name, node_name, pool_name, 0);
    assert(existing[first].spec.pool.generation == generation);
    assert forall|i: int| 0 <= i < chunks.len() implies #[trigger] slice_unchanged(
        existing,
        driver_name,
        node_name,
        pool_name,
        chunks,
        i,
    ) by {
        let name = slice_name_text(driver_name, node_name, pool_name, i as nat);
        assert(existing[name].spec.pool.generation == generation);
        let held = existing[name].spec.devices->0;
        let chunk = chunks[i];
        let all = names(chunk);
        assert forall|a: int, b: int| 0 <= a < b < chunk.len() implies !crate::text::text_lt(
            (#[trigger] chunk[b]).name,
            (#[trigger] chunk[a]).name,
        ) && chunk[a].name != chunk[b].name by {
            assert(String::before(all[a], all[b]));
            lemma_text_lt_total(chunk[a].name, chunk[b].name);
        }
        assert(names(chunk).no_duplicates());
        law_canonical_order_is_stable(chunk);
        law_device_order_is_irrelevant(chunk, held);
    }
    assert forall|name: Seq<char>| #[trigger] in_pool(existing, pool_name, name) implies is_slice_name(
        driver_name,
        node_name,
        pool_name,
        chunks.len(),
        name,
    ) by {
        assert(existing.dom().contains(name));
    }
    assert(pool_unchanged(existing, driver_name, node_name, pool_name, chunks));
}

/// Every listed slice of the driver on the node is known by its name, unless a
/// later one has the same name.
pub proof fn law_own_slices_are_all_known(
    listed: Seq<SliceModel>,
    driver_name: Seq<char>,
    node_name: Seq<char>,
    i: int,
)
    requires
        0 <= i < listed.len(),
        listed[i].name is Some,
        listed[i].spec.driver == driver_name,
        listed[i].spec.node_name == Some(node_name),
        forall|j: int| i < j < listed.len() ==> (#[trigger] listed[j]).name != listed[i].name,
    ensures
        own_slices(listed, driver_name, node_name).dom().contains(listed[i].name->0),
        own_slices(listed, driver_name, node_name)[listed[i].name->0] == listed[i],
    decreases listed.len(),
{
    let rest = listed.drop_last();
    let last = listed.len() - 1;
    if i < last {
        assert(rest[i] == listed[i]);
        assert forall|j: int| i < j < rest.len() implies (#[trigger] rest[j]).name
            != rest[i].name by {
            assert(rest[j] == listed[j]);
        }
        law_own_slices_are_all_known(rest, driver_name, node_name, i);
        assert(listed[last].name != listed[i].name);
    }
}

/// A slice is created where there is none of its name, left alone where the one
/// there is the same, and replaced by the desired one otherwise; either way it is
/// claimed, and no other slice is.
pub proof fn law_slices_are_placed(plan: PlanModel, name: Seq<char>, desired: SliceModel)
    ensures
        place_slice(plan, name, desired).unclaimed == plan.unclaimed.remove(name),
        !plan.unclaimed.dom().contains(name) ==> place_slice(plan, name, desired).actions
            == plan.actions.push(ActionModel::Create(desired)),
        plan.unclaimed.dom().contains(name) && !slice_matches(plan.unclaimed[name], desired)
            ==> place_slice(plan, name, desired).actions == plan.actions.push(
            ActionModel::Replace(desired),
        ),
        plan.unclaimed.dom().contains(name) && slice_matches(plan.unclaimed[name], desired)
            ==> place_slice(plan, name, desired).actions == plan.actions,
{
}

/// A publication that is refused deletes nothing.
pub proof fn law_refused_publications_delete_nothing(
    by: PublisherModel,
    existing: Map<Seq<char>, SliceModel>,
    pools: Map<Seq<char>, Seq<PoolDeviceModel>>,
    i: int,
)
    requires
        publication(by, existing, pools).1 is Some,
        0 <= i < publication(by, existing, pools).0.len(),
    ensures
        !(publication(by, existing, pools).0[i] is Delete),
{
    lemma_plan_actions(by, existing, pools, in_order::<String>(pools.dom()));
}

proof fn lemma_unclaimed_kept(
    by: PublisherModel,
    plan: PlanModel,
    pool_name: Seq<char>,
    generation: i64,
    chunks: Seq<Seq<WireDeviceModel>>,
    n: nat,
)
    ensures
        ({
            let placed = place_slices(by, plan, pool_name, generation, chunks, n).unclaimed;
            forall|name: Seq<char>| #[trigger]
                placed.dom().contains(name) ==> plan.unclaimed.dom().contains(name) && placed[name]
                    == plan.unclaimed[name]
        }),
    decreases n,
{
    if n > 0 {
        let i = (n - 1) as nat;
        lemma_unclaimed_kept(by, plan, pool_name, generation, chunks, i);
        let earlier = place_slices(by, plan, pool_name, generation, chunks, i).unclaimed;
        let placed = place_slices(by, plan, pool_name, generation, chunks, n).unclaimed;
        let taken = slice_name_text(by.driver_name, by.node_name, pool_name, i);
        assert(placed == earlier.remove(taken));
        assert forall|name: Seq<char>| #[trigger] placed.dom().contains(name) implies
            plan.unclaimed.dom().contains(name) && placed[name] == plan.unclaimed[name] by {
            assert(earlier.dom().contains(name));
        }
    }
}

proof fn lemma_pools_pass(
    by: PublisherModel,
    existing: Map<Seq<char>, SliceModel>,
    pools: Map<Seq<char>, Seq<PoolDeviceModel>>,
    pool_names: Seq<Seq<char>>,
)
    requires
        forall|k: int|
            0 <= k < pool_names.len() ==> names(
                wire_devices(pools[#[trigger] pool_names[k]]),
            ).no_duplicates() && pool_chunks(pools[pool_names[k]]).len() <= i64::MAX,
        forall|name: Seq<char>| #[trigger]
            existing.dom().contains(name) ==> existing[name].spec.pool.generation < i64::MAX,
    ensures
        ({
            let start = PlanModel { unclaimed: existing, actions: Seq::empty() };
            let (plan, failure) = plan_pools(by, start, pools, pool_names);
            &&& failure is None
            &&& forall|name: Seq<char>| #[trigger]
                plan.unclaimed.dom().contains(name) ==> existing.dom().contains(name)
                    && plan.unclaimed[name] == existing[name]
        }),
    decreases pool_names.len(),
{
    if pool_names.len() > 0 {
        let start = PlanModel { unclaimed: existing, actions: Seq::empty() };
        let rest = pool_names.drop_last();
        let last = pool_names.last();
        assert forall|k: int| 0 <= k < rest.len() implies names(
            wire_devices(pools[#[trigger] rest[k]]),
        ).no_duplicates() && pool_chunks(pools[rest[k]]).len() <= i64::MAX by {
            assert(rest[k] == pool_names[k]);
        }
        lemma_pools_pass(by, existing, pools, rest);
        let plan = plan_pools(by, start, pools, rest).0;
        let chunks = pool_chunks(pools[last]);
        assert(last == pool_names[pool_names.len() - 1]);
        if exists|name: Seq<char>| in_pool(plan.unclaimed, last, name) {
            let top = lemma_top_generation_below(plan.unclaimed, last, i64::MAX as int);
            assert(is_top_generation(
                plan.unclaimed,
                last,
                top_generation(plan.unclaimed, last),
            ));
            let name = choose|name: Seq<char>| #[trigger]
                in_pool(plan.unclaimed, last, name) && plan.unclaimed[name].spec.pool.generation
                    == top_generation(plan.unclaimed, last);
            assert(existing.dom().contains(name));
        }
        match next_generation(plan.unclaimed, by.driver_name, by.node_name, last, chunks) {
            Ok(generation) => lemma_unclaimed_kept(
                by,
                plan,
                last,
                generation,
                chunks,
                chunks.len(),
            ),
            Err(_) => {},
        }
    }
}

/// A publication succeeds wherever the devices of each pool have different names,
/// the number of slices can be written, and every generation can still grow.
pub proof fn law_valid_pools_are_published(
    by: PublisherModel,
    existing: Map<Seq<char>, SliceModel>,
    pools: Map<Seq<char>, Seq<PoolDeviceModel>>,
)
    requires
        pools.dom().finite(),
        forall|pool_name: Seq<char>, i: int, j: int|
            pools.dom().contains(pool_name) && 0 <= i < j < pools[pool_name].len() ==> (
            #[trigger] pools[pool_name][i]).name != (#[trigger] pools[pool_name][j]).name,
        forall|pool_name: Seq<char>| #[trigger]
            pools.dom().contains(pool_name) ==> pools[pool_name].len() <= 128 * i64::MAX,
        forall|name: Seq<char>| #[trigger]
            existing.dom().contains(name) ==> existing[name].spec.pool.generation < i64::MAX,
    ensures
        publication(by, existing, pools).1 is None,
{
    let ordered = in_order::<String>(pools.dom());
    lemma_in_order_of_set::<String>(pools.dom());
    assert forall|k: int| 0 <= k < ordered.len() implies names(
        wire_devices(pools[#[trigger] ordered[k]]),
    ).no_duplicates() && pool_chunks(pools[ordered[k]]).len() <= i64::MAX by {
        assert(ordered.to_set().contains(ordered[k]));
        let devices = pools[ordered[k]];
        let all = names(wire_devices(devices));
        lemma_canonical_names(wire_devices(devices));
        assert forall|i: int, j: int| 0 <= i < j < all.len() implies all[i] != all[j] by {
            assert(devices[i].name != devices[j].name);
        }
    }
    lemma_pools_pass(by, existing, pools, ordered);
}

/// A refused pool is told of by its name and the reason, as an object that the
/// API server cannot process.
pub proof fn law_refusals_name_the_pool(
    error: ApiStatus,
    pool_name: Seq<char>,
    reason: Seq<char>,
)
    requires
        error@ == invalid_pool(pool_name, reason),
    ensures
        error.code == 422,
        error.reason@ == "Invalid"@,
        error.message@ == "ResourcePool "@ + pool_name + " "@ + reason,
{
}

/// The delay after the first failure is the base delay, each further one doubles
/// it up to the 32nd, and the longest delay bounds it.
pub proof fn law_retry_delay_doubles(base: nat, max: nat, failed: nat)
    requires
        1 <= failed,
    ensures
        backoff(base, max, 0) == backoff(base, max, 1),
        backoff(base, max, 1) == if base <= max {
            base
        } else {
            max
        },
        failed < 32 ==> backoff(base, max, failed + 1) == if 2 * backoff(base, max, failed)
            <= max {
            2 * backoff(base, max, failed)
        } else {
            max
        },
        failed >= 32 ==> backoff(base, max, failed + 1) == backoff(base, max, failed),
{
    vstd::arithmetic::power2::lemma2_to64();
    assert(base * pow2(0) == base) by (nonlinear_arith)
        requires
            pow2(0) == 1,
    ;
    if failed < 32 {
        let k = (failed - 1) as nat;
        vstd::arithmetic::power2::lemma_pow2_unfold(failed);
        assert(pow2(failed) == 2 * pow2(k));
        assert(base * pow2(failed) == 2 * (base * pow2(k))) by (nonlinear_arith)
            requires
                pow2(failed) == 2 * pow2(k),
        ;
    }
}

/// A pool is refused for a reason, and told with it: two of its devices have the
/// same name, its slices are too many to be counted, or a generation of its
/// slices is the greatest there is. Otherwise it is planned.
pub proof fn law_refused_pools_say_why(
    by: PublisherModel,
    plan: PlanModel,
    pool_name: Seq<char>,
    devices: Seq<PoolDeviceModel>,
)
    ensures
        match plan_pool(by, plan, pool_name, devices).1 {
            None => forall|i: int, j: int|
                0 <= i < j < devices.len() ==> (#[trigger] devices[i]).name != (
                #[trigger] devices[j]).name,
            Some(error) => {
                &&& plan_pool(by, plan, pool_name, devices).0 == plan
                &&& error.code == 422
                &&& error.reason == "Invalid"@
                &&& {
                    ||| error.message == "ResourcePool "@ + pool_name + " "@
                        + "contains duplicate device names"@ && exists|i: int, j: int|
                        0 <= i < j < devices.len() && (#[trigger] devices[i]).name == (
                        #[trigger] devices[j]).name
                    ||| error.message == "ResourcePool "@ + pool_name + " "@
                        + "requires too many ResourceSlices"@ && devices.len() > 128 * i64::MAX
                    ||| error.message == "ResourcePool "@ + pool_name + " "@
                        + "generation cannot be incremented"@ && exists|name: Seq<char>| #[trigger]
                        plan.unclaimed.dom().contains(name)
                            && plan.unclaimed[name].spec.pool.name == pool_name
                            && plan.unclaimed[name].spec.pool.generation == i64::MAX
                }
            },
        },
{
    let wired = wire_devices(devices);
    let all = names(wired);
    let chunks = pool_chunks(devices);
    lemma_canonical_names(wired);
    if !all.no_duplicates() {
        let (i, j) = choose|i: int, j: int|
            0 <= i < all.len() && 0 <= j < all.len() && i != j && #[trigger] all[i]
                == #[trigger] all[j];
        if i < j {
            assert(devices[i].name == devices[j].name);
        } else {
            assert(devices[j].name == devices[i].name);
        }
    } else {
        assert forall|i: int, j: int| 0 <= i < j < devices.len() implies (
        #[trigger] devices[i]).name != (#[trigger] devices[j]).name by {
            assert(all[i] != all[j]);
        }
        if chunks.len() > 0 {
            match next_generation(
                plan.unclaimed,
                by.driver_name,
                by.node_name,
                pool_name,
                chunks,
            ) {
                Ok(_) => {},
                Err(_) => {
                    if chunks.len() <= i64::MAX {
                        if exists|name: Seq<char>| in_pool(plan.unclaimed, pool_name, name) {
                            let top = lemma_top_generation_below(
                                plan.unclaimed,
                                pool_name,
                                i64::MAX as int,
                            );
                            assert(is_top_generation(
                                plan.unclaimed,
                                pool_name,
                                top_generation(plan.unclaimed, pool_name),
                            ));
                            let name = choose|name: Seq<char>| #[trigger]
                                in_pool(plan.unclaimed, pool_name, name)
                                    && plan.unclaimed[name].spec.pool.generation
                                    == top_generation(plan.unclaimed, pool_name);
                            assert(plan.unclaimed.dom().contains(name));
                        }
                    }
                },
            }
        }
    }
}

/// Pools are planned one after the other, each on what those before it left; the
/// first that is refused ends the plan, and a pool without devices takes nothing.
pub proof fn law_pools_are_planned_in_turn(
    by: PublisherModel,
    plan: PlanModel,
    pools: Map<Seq<char>, Seq<PoolDeviceModel>>,
    pool_names: Seq<Seq<char>>,
    pool_name: Seq<char>,
)
    ensures
        plan_pools(by, plan, pools, Seq::empty()) == (plan, None::<ApiStatusModel>),
        plan_pools(by, plan, pools, pool_names).1 is Some ==> plan_pools(
            by,
            plan,
            pools,
            pool_names.push(pool_name),
        ) == plan_pools(by, plan, pools, pool_names),
        plan_pools(by, plan, pools, pool_names).1 is None ==> plan_pools(
            by,
            plan,
            pools,
            pool_names.push(pool_name),
        ) == plan_pool(
            by,
            plan_pools(by, plan, pools, pool_names).0,
            pool_name,
            pools[pool_name],
        ),
        pools[pool_name].len() == 0 ==> plan_pool(by, plan, pool_name, pools[pool_name]) == (
            plan,
            None::<ApiStatusModel>,
        ),
{
    assert(pool_names.push(pool_name).drop_last() =~= pool_names);
    assert(pool_names.push(pool_name).last() == pool_name);
    lemma_canonical_names(wire_devices(pools[pool_name]));
}

/// A publication that is refused is refused as the first refused pool is, in the
/// order of the pools' names, with the calls of those before it.
pub proof fn law_publications_follow_the_pools(
    by: PublisherModel,
    existing: Map<Seq<char>, SliceModel>,
    pools: Map<Seq<char>, Seq<PoolDeviceModel>>,
)
    ensures
        ({
            let start = PlanModel { unclaimed: existing, actions: Seq::empty() };
            let (plan, failure) = plan_pools(by, start, pools, in_order::<String>(pools.dom()));
            let (calls, told) = publication(by, existing, pools);
            &&& told == failure
            &&& failure is Some ==> calls == plan.actions
            &&& failure is None ==> calls.len() == plan.actions.len() + in_order::<String>(
                plan.unclaimed.dom(),
            ).len() && calls.take(plan.actions.len() as int) == plan.actions && forall|i: int|
                plan.actions.len() <= i < calls.len() ==> #[trigger] calls[i]
                    == ActionModel::Delete(
                    in_order::<String>(plan.unclaimed.dom())[i - plan.actions.len()],
                )
        }),
{
    let start = PlanModel { unclaimed: existing, actions: Seq::empty() };
    let (plan, failure) = plan_pools(by, start, pools, in_order::<String>(pools.dom()));
    let calls = publication(by, existing, pools).0;
    if failure is None {
        assert(calls.take(plan.actions.len() as int) =~= plan.actions);
    }
}

/// A pool takes one name for each 128 devices: that of the driver, the node and
/// the pool, with the number of the slice behind it from the second on.
pub proof fn law_pools_take_their_names(
    by: PublisherModel,
    pools: Map<Seq<char>, Seq<PoolDeviceModel>>,
    pool_name: Seq<char>,
    name: Seq<char>,
    i: nat,
)
    ensures
        128 * i < pools[pool_name].len() && name == (if i == 0 {
            by.driver_name + "-"@ + by.node_name + "-"@ + pool_name
        } else {
            by.driver_name + "-"@ + by.node_name + "-"@ + pool_name + "-"@ + decimal_text(i)
        }) ==> claims(by, pools, pool_name, name),
        claims(by, pools, pool_name, name) ==> exists|k: nat|
            128 * k < pools[pool_name].len() && name == if k == 0 {
                by.driver_name + "-"@ + by.node_name + "-"@ + pool_name
            } else {
                by.driver_name + "-"@ + by.node_name + "-"@ + pool_name + "-"@
                    + #[trigger] decimal_text(k)
            },
{
    let wired = wire_devices(pools[pool_name]);
    lemma_canonical_names(wired);
    let count = pool_chunks(pools[pool_name]).len();
    assert(count == (pools[pool_name].len() + 127) / 128);
    if 128 * i < pools[pool_name].len() && name == slice_of(by, pool_name, i) {
        assert(i < count && name == slice_name_text(by.driver_name, by.node_name, pool_name, i));
    }
    if claims(by, pools, pool_name, name) {
        let k = choose|k: nat|
            k < count && name == #[trigger] slice_name_text(
                by.driver_name,
                by.node_name,
                pool_name,
                k,
            );
        assert(128 * k < pools[pool_name].len());
        assert(decimal_text(k) == decimal_text(k));
    }
}

/// A publisher publishes as its driver on its node, for the owner that it is
/// given, and what each pool offers.
pub proof fn law_publishers_speak_for_themselves(
    publisher: ResourceSlicePublisher,
    owner: OwnerModel,
    pools: Map<Seq<char>, Vec<PoolDevice>>,
    pool_name: Seq<char>,
    message: Seq<char>,
)
    ensures
        publisher.owned_by(owner).driver_name == publisher.driver(),
        publisher.owned_by(owner).node_name == publisher.node(),
        publisher.owned_by(owner).owner == owner,
        pool_views(pools).dom() == pools.dom(),
        pools.dom().contains(pool_name) ==> pool_views(pools)[pool_name] == views(
            pools[pool_name]@,
        ),
        invalid(message).code == 422,
        invalid(message).reason == "Invalid"@,
        invalid(message).message == message,
{
    assert(pool_views(pools).dom() =~= pools.dom());
}

} // verus!
