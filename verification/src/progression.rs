//! The upgrade economy's resource ledger: which resources have been
//! gathered, and which upgrades they currently afford.

use vstd::prelude::*;

use crate::fixed::sat_add;
use crate::fixed::sat_add64;

verus! {

/// The stat an upgrade improves.
#[derive(Clone, Copy, Debug, PartialEq, Eq, Structural)]
pub enum UpgradeType {
    DmgAdd,
    DmgMult,
    ThrustAdd,
    ThrustMult,
    RotationAdd,
    RotationMult,
    Bounce,
    Pierce,
    Accurancy,
    BulletPerAttack,
    Empty,
}

/// The resource kinds asteroids yield.
#[derive(Clone, Copy, Debug, PartialEq, Eq, PartialOrd, Ord, Hash, Structural)]
pub enum ResourceType {
    Luna,
    Gaia,
    Mars,
    Mercury,
    Venus,
    Jupiter,
    Neptune,
    Uranus,
    Asteroid,
    General,
}

/// The number of resource kinds.
pub const RESOURCE_KINDS: usize = 10;

/// The ledger slot a resource kind is stored in.
pub open spec fn resource_index_spec(r: ResourceType) -> int {
    match r {
        ResourceType::Luna => 0,
        ResourceType::Gaia => 1,
        ResourceType::Mars => 2,
        ResourceType::Mercury => 3,
        ResourceType::Venus => 4,
        ResourceType::Jupiter => 5,
        ResourceType::Neptune => 6,
        ResourceType::Uranus => 7,
        ResourceType::Asteroid => 8,
        ResourceType::General => 9,
    }
}

/// The ledger slot a resource kind is stored in.
pub fn resource_index(r: ResourceType) -> (i: usize)
    ensures
        i as int == resource_index_spec(r),
        i < RESOURCE_KINDS,
{
    match r {
        ResourceType::Luna => 0,
        ResourceType::Gaia => 1,
        ResourceType::Mars => 2,
        ResourceType::Mercury => 3,
        ResourceType::Venus => 4,
        ResourceType::Jupiter => 5,
        ResourceType::Neptune => 6,
        ResourceType::Uranus => 7,
        ResourceType::Asteroid => 8,
        ResourceType::General => 9,
    }
}

/// What each upgrade in the catalogue costs: the resource kind it draws on
/// and the amount that must be on hand.  Entry 0 is the fallback offer
/// shown when nothing is affordable; the candidate scan skips it.
pub open spec fn upgrade_costs_spec() -> Seq<(ResourceType, i64)> {
    seq![
        (ResourceType::General, 0i64),
        (ResourceType::Mars, 100i64),
        (ResourceType::Luna, 150i64),
        (ResourceType::Mercury, 120i64),
        (ResourceType::Luna, 200i64),
        (ResourceType::Mars, 180i64),
        (ResourceType::Uranus, 130i64),
        (ResourceType::Mars, 250i64),
        (ResourceType::Mercury, 220i64),
        (ResourceType::Luna, 300i64),
        (ResourceType::Gaia, 400i64),
        (ResourceType::Uranus, 350i64),
        (ResourceType::Luna, 280i64),
        (ResourceType::Mars, 500i64),
        (ResourceType::Mercury, 450i64),
        (ResourceType::Luna, 600i64),
        (ResourceType::Gaia, 700i64),
        (ResourceType::Uranus, 650i64),
        (ResourceType::Luna, 800i64),
        (ResourceType::Mars, 900i64),
        (ResourceType::Mercury, 850i64),
    ]
}

/// The upgrade catalogue's costs, in catalogue order.
pub fn upgrade_costs() -> (r: Vec<(ResourceType, i64)>)
    ensures
        r@ == upgrade_costs_spec(),
{
    let mut v: Vec<(ResourceType, i64)> = Vec::new();
    v.push((ResourceType::General, 0i64));
    v.push((ResourceType::Mars, 100i64));
    v.push((ResourceType::Luna, 150i64));
    v.push((ResourceType::Mercury, 120i64));
    v.push((ResourceType::Luna, 200i64));
    v.push((ResourceType::Mars, 180i64));
    v.push((ResourceType::Uranus, 130i64));
    v.push((ResourceType::Mars, 250i64));
    v.push((ResourceType::Mercury, 220i64));
    v.push((ResourceType::Luna, 300i64));
    v.push((ResourceType::Gaia, 400i64));
    v.push((ResourceType::Uranus, 350i64));
    v.push((ResourceType::Luna, 280i64));
    v.push((ResourceType::Mars, 500i64));
    v.push((ResourceType::Mercury, 450i64));
    v.push((ResourceType::Luna, 600i64));
    v.push((ResourceType::Gaia, 700i64));
    v.push((ResourceType::Uranus, 650i64));
    v.push((ResourceType::Luna, 800i64));
    v.push((ResourceType::Mars, 900i64));
    v.push((ResourceType::Mercury, 850i64));
    proof {
        assert(v@ =~= upgrade_costs_spec());
    }
    v
}

/// Whether the ledger can pay for catalogue entry `k`.
pub open spec fn affordable(resources: Seq<i64>, k: int) -> bool {
    upgrade_costs_spec()[k].1 <= resources[resource_index_spec(upgrade_costs_spec()[k].0)]
}

/// How many of the catalogue entries in `[1, n)` the ledger can pay for.
pub open spec fn count_affordable(resources: Seq<i64>, n: int) -> int
    decreases n,
{
    if n <= 1 {
        0
    } else {
        count_affordable(resources, n - 1) + if affordable(resources, n - 1) {
            1int
        } else {
            0int
        }
    }
}

/// The resource ledger behind the upgrade menu.
pub struct UpgradeManager {
    resources: Vec<i64>,
}

impl UpgradeManager {
    /// The amount on hand of each resource kind, by ledger slot.
    pub closed spec fn resources_view(&self) -> Seq<i64> {
        self.resources@
    }

    /// A ledger always holds one slot per resource kind.
    pub closed spec fn inv(&self) -> bool {
        self.resources@.len() == RESOURCE_KINDS
    }

    /// An empty ledger: nothing gathered yet.
    pub fn new() -> (r: Self)
        ensures
            r.inv(),
            r.resources_view() =~= Seq::new(RESOURCE_KINDS as nat, |k: int| 0i64),
    {
        let mut v: Vec<i64> = Vec::new();
        let mut i: usize = 0;
        while i < RESOURCE_KINDS
            invariant
                v@.len() == i,
                i <= RESOURCE_KINDS,
                forall|k: int| 0 <= k < i ==> v@[k] == 0i64,
            decreases RESOURCE_KINDS - i,
        {
            v.push(0i64);
            i = i + 1;
        }
        proof {
            assert(v@ =~= Seq::new(RESOURCE_KINDS as nat, |k: int| 0i64));
        }
        UpgradeManager { resources: v }
    }

    /// Credit an amount of a resource kind (saturating).
    pub fn add_resource(&mut self, res: ResourceType, amount: i64)
        requires
            old(self).inv(),
        ensures
            final(self).inv(),
            final(self).resources_view() == old(self).resources_view().update(
                resource_index_spec(res),
                sat_add(
                    old(self).resources_view()[resource_index_spec(res)] as int,
                    amount as int,
                ) as i64,
            ),
    {
        let i = resource_index(res);
        let cur = self.resources[i];
        self.resources[i] = sat_add64(cur, amount);
        proof {
            assert(self.resources@ =~= old(self).resources@.update(
                resource_index_spec(res),
                sat_add(old(self).resources@[resource_index_spec(res)] as int, amount as int) as i64,
            ));
        }
    }

    /// How many catalogue upgrades the gathered resources currently afford
    /// (the fallback entry 0 never counts).
    pub fn count_possible_upgrades(&self) -> (r: i64)
        requires
            self.inv(),
        ensures
            r as int == count_affordable(self.resources_view(), upgrade_costs_spec().len() as int),
    {
        let costs = upgrade_costs();
        let n = costs.len();
        let mut count: i64 = 0;
        let mut k: usize = 1;
        while k < n
            invariant
                1 <= k <= n,
                n == upgrade_costs_spec().len(),
                costs@ == upgrade_costs_spec(),
                self.inv(),
                count as int == count_affordable(self.resources_view(), k as int),
                0 <= count <= k,
            decreases n - k,
        {
            let (res, min) = costs[k];
            let i = resource_index(res);
            if min <= self.resources[i] {
                count = count + 1;
            }
            k = k + 1;
        }
        count
    }

    /// Debit the cost of catalogue entry `k`, as accepting an upgrade from
    /// the menu does.  The ledger may go negative: keeping unaffordable
    /// entries out of the menu is the caller's job, not the ledger's.
    pub fn spend_on_upgrade(&mut self, k: usize) -> (r: bool)
        requires
            old(self).inv(),
        ensures
            final(self).inv(),
            r == (k < upgrade_costs_spec().len()),
            r ==> final(self).resources_view() == old(self).resources_view().update(
                resource_index_spec(upgrade_costs_spec()[k as int].0),
                sat_add(
                    old(self).resources_view()[resource_index_spec(
                        upgrade_costs_spec()[k as int].0,
                    )] as int,
                    -(upgrade_costs_spec()[k as int].1 as int),
                ) as i64,
            ),
            !r ==> final(self).resources_view() == old(self).resources_view(),
    {
        let costs = upgrade_costs();
        if k >= costs.len() {
            return false;
        }
        let (res, min) = costs[k];
        let i = resource_index(res);
        let cur = self.resources[i];
        let neg: i64 = if min == i64::MIN {
            i64::MAX
        } else {
            -min
        };
        proof {
            assert(min > 0 ==> neg as int == -(min as int));
            assert(upgrade_costs_spec()[k as int].1 >= 0);
        }
        self.resources[i] = sat_add64(cur, neg);
        proof {
            assert(self.resources@ =~= old(self).resources@.update(
                resource_index_spec(res),
                sat_add(old(self).resources@[resource_index_spec(res)] as int, -(min as int)) as i64,
            ));
        }
        true
    }

    /// The amount on hand of one resource kind.
    pub fn resource(&self, res: ResourceType) -> (r: i64)
        requires
            self.inv(),
        ensures
            r == self.resources_view()[resource_index_spec(res)],
    {
        let i = resource_index(res);
        self.resources[i]
    }
}

} // verus!
