//! Hit counts per tier and the cost that they stand for.

use vstd::prelude::*;

verus! {

/// Where a cost is paid.
#[derive(Debug, Clone, Copy, PartialEq, Eq, Structural)]
pub enum TierCost {
    L0,
    L1,
    L2,
    L3,
    Miss,
}

impl TierCost {
    /// Relative cost of an access served there.
    pub open spec fn spec_units(self) -> u64 {
        match self {
            TierCost::L0 => 1,
            TierCost::L1 => 4,
            TierCost::L2 => 20,
            TierCost::L3 => 200,
            TierCost::Miss => 1000,
        }
    }

    /// Relative cost of an access served there.
    pub fn units(self) -> (n: u64)
        ensures
            n == self.spec_units(),
    {
        match self {
            TierCost::L0 => 1,
            TierCost::L1 => 4,
            TierCost::L2 => 20,
            TierCost::L3 => 200,
            TierCost::Miss => 1000,
        }
    }
}

/// How an access was served.
#[derive(Debug, Clone, Copy, PartialEq, Eq, Structural)]
pub enum AccessKind {
    L0Hit,
    L1Hit,
    L2Hit,
    L3Hit,
    Miss,
}

impl AccessKind {
    /// The cost of the access.
    pub open spec fn spec_cost(self) -> u64 {
        match self {
            AccessKind::L0Hit => TierCost::L0.spec_units(),
            AccessKind::L1Hit => TierCost::L1.spec_units(),
            AccessKind::L2Hit => TierCost::L2.spec_units(),
            AccessKind::L3Hit => TierCost::L3.spec_units(),
            AccessKind::Miss => TierCost::Miss.spec_units(),
        }
    }

    /// The cost of the access.
    pub fn cost(self) -> (n: u64)
        ensures
            n == self.spec_cost(),
    {
        match self {
            AccessKind::L0Hit => TierCost::L0.units(),
            AccessKind::L1Hit => TierCost::L1.units(),
            AccessKind::L2Hit => TierCost::L2.units(),
            AccessKind::L3Hit => TierCost::L3.units(),
            AccessKind::Miss => TierCost::Miss.units(),
        }
    }
}

/// Accesses per tier and their total cost.
#[derive(Debug, Clone, Copy)]
pub struct HitStats {
    pub l0: u64,
    pub l1: u64,
    pub l2: u64,
    pub l3: u64,
    pub miss: u64,
    pub total_cost: u64,
}

impl HitStats {
    /// No access yet.
    pub open spec fn zero() -> HitStats {
        HitStats { l0: 0, l1: 0, l2: 0, l3: 0, miss: 0, total_cost: 0 }
    }

    /// One more access can be counted.
    pub open spec fn has_room(self) -> bool {
        &&& self.l0 < u64::MAX
        &&& self.l1 < u64::MAX
        &&& self.l2 < u64::MAX
        &&& self.l3 < u64::MAX
        &&& self.miss < u64::MAX
        &&& self.total_cost + 1000 <= u64::MAX
    }

    /// The counts after one more access.
    pub open spec fn recorded(self, kind: AccessKind) -> HitStats {
        let total_cost = (self.total_cost + kind.spec_cost()) as u64;
        match kind {
            AccessKind::L0Hit => HitStats { l0: (self.l0 + 1) as u64, total_cost, ..self },
            AccessKind::L1Hit => HitStats { l1: (self.l1 + 1) as u64, total_cost, ..self },
            AccessKind::L2Hit => HitStats { l2: (self.l2 + 1) as u64, total_cost, ..self },
            AccessKind::L3Hit => HitStats { l3: (self.l3 + 1) as u64, total_cost, ..self },
            AccessKind::Miss => HitStats { miss: (self.miss + 1) as u64, total_cost, ..self },
        }
    }

    /// All accesses.
    pub open spec fn total(self) -> int {
        self.l0 + self.l1 + self.l2 + self.l3 + self.miss
    }

    /// Counts one access.
    pub fn record(&mut self, kind: AccessKind)
        requires
            old(self).has_room(),
        ensures
            *final(self) == old(self).recorded(kind),
    {
        match kind {
            AccessKind::L0Hit => {
                self.l0 = self.l0 + 1;
            },
            AccessKind::L1Hit => {
                self.l1 = self.l1 + 1;
            },
            AccessKind::L2Hit => {
                self.l2 = self.l2 + 1;
            },
            AccessKind::L3Hit => {
                self.l3 = self.l3 + 1;
            },
            AccessKind::Miss => {
                self.miss = self.miss + 1;
            },
        }
        self.total_cost = self.total_cost + kind.cost();
    }

    /// The number of accesses.
    pub fn accesses(&self) -> (n: u64)
        requires
            self.total() <= u64::MAX,
        ensures
            n == self.total(),
    {
        self.l0 + self.l1 + self.l2 + self.l3 + self.miss
    }

    /// The number of accesses that some tier served.
    pub fn hits(&self) -> (n: u64)
        requires
            self.total() <= u64::MAX,
        ensures
            n == self.total() - self.miss,
    {
        self.l0 + self.l1 + self.l2 + self.l3
    }
}

impl Default for HitStats {
    fn default() -> (s: Self)
        ensures
            s == HitStats::zero(),
    {
        HitStats { l0: 0, l1: 0, l2: 0, l3: 0, miss: 0, total_cost: 0 }
    }
}

/// A nearer tier is cheaper, and a miss costs most.
pub proof fn nearer_is_cheaper()
    ensures
        AccessKind::L0Hit.spec_cost() < AccessKind::L1Hit.spec_cost(),
        AccessKind::L1Hit.spec_cost() < AccessKind::L2Hit.spec_cost(),
        AccessKind::L2Hit.spec_cost() < AccessKind::L3Hit.spec_cost(),
        AccessKind::L3Hit.spec_cost() < AccessKind::Miss.spec_cost(),
{
}

/// Every recorded access counts once and adds its own cost.
pub proof fn record_counts_one(s: HitStats, kind: AccessKind)
    requires
        s.has_room(),
    ensures
        s.recorded(kind).total() == s.total() + 1,
        s.recorded(kind).total_cost == s.total_cost + kind.spec_cost(),
{
}

} // verus!
