//! The three storage tiers and the classification of block devices.

use vstd::prelude::*;

verus! {

/// A storage tier, from fastest to cheapest.
#[derive(Clone, Copy, Debug, PartialEq, Eq, Structural)]
pub enum Tier {
    Hot,
    Warm,
    Cold,
}

/// The kind of block device backing a tier.
#[derive(Clone, Copy, Debug, PartialEq, Eq, Structural)]
pub enum BlockClass {
    Nvme,
    Ssd,
    Hdd,
}

impl Tier {
    /// The tier a file is demoted to under capacity pressure. Cold files
    /// have nowhere further down to go.
    pub fn demotion_target(self) -> (t: Tier)
        ensures
            t == self.spec_demotion_target(),
    {
        match self {
            Tier::Hot => Tier::Warm,
            Tier::Warm => Tier::Cold,
            Tier::Cold => Tier::Cold,
        }
    }

    pub open spec fn spec_demotion_target(self) -> Tier {
        match self {
            Tier::Hot => Tier::Warm,
            Tier::Warm => Tier::Cold,
            Tier::Cold => Tier::Cold,
        }
    }

    /// Rank of a tier, fastest first.
    pub fn rank(self) -> (r: u32)
        ensures
            r == self.spec_rank(),
    {
        match self {
            Tier::Hot => 0,
            Tier::Warm => 1,
            Tier::Cold => 2,
        }
    }

    pub open spec fn spec_rank(self) -> u32 {
        match self {
            Tier::Hot => 0,
            Tier::Warm => 1,
            Tier::Cold => 2,
        }
    }
}

impl BlockClass {
    /// The tier served by devices of this class.
    pub fn tier(self) -> (t: Tier)
        ensures
            t == self.spec_tier(),
    {
        match self {
            BlockClass::Nvme => Tier::Hot,
            BlockClass::Ssd => Tier::Warm,
            BlockClass::Hdd => Tier::Cold,
        }
    }

    pub open spec fn spec_tier(self) -> Tier {
        match self {
            BlockClass::Nvme => Tier::Hot,
            BlockClass::Ssd => Tier::Warm,
            BlockClass::Hdd => Tier::Cold,
        }
    }

    /// Rank used when ordering devices fastest first.
    pub fn rank(self) -> (r: u32)
        ensures
            r == self.spec_rank(),
    {
        match self {
            BlockClass::Nvme => 0,
            BlockClass::Ssd => 1,
            BlockClass::Hdd => 2,
        }
    }

    pub open spec fn spec_rank(self) -> u32 {
        match self {
            BlockClass::Nvme => 0,
            BlockClass::Ssd => 1,
            BlockClass::Hdd => 2,
        }
    }
}

/// Classify a block device from what the device discovery reports: whether
/// it is rotational and whether its transport is NVMe.
pub fn classify_device(rotational: bool, nvme_transport: bool) -> (c: BlockClass)
    ensures
        c == spec_classify_device(rotational, nvme_transport),
{
    if !rotational {
        if nvme_transport {
            BlockClass::Nvme
        } else {
            BlockClass::Ssd
        }
    } else {
        BlockClass::Hdd
    }
}

pub open spec fn spec_classify_device(rotational: bool, nvme_transport: bool) -> BlockClass {
    if !rotational {
        if nvme_transport {
            BlockClass::Nvme
        } else {
            BlockClass::Ssd
        }
    } else {
        BlockClass::Hdd
    }
}

/// Which tiers have at least one eligible device behind them. A task whose
/// target tier has no devices is dropped at enqueue time.
#[derive(Clone, Copy, Debug, PartialEq, Eq, Structural)]
pub struct TierAvailability {
    pub hot: bool,
    pub warm: bool,
    pub cold: bool,
}

impl TierAvailability {
    /// All three tiers present; the common case on a full deployment.
    pub fn all() -> (r: TierAvailability)
        ensures
            r.hot && r.warm && r.cold,
    {
        TierAvailability { hot: true, warm: true, cold: true }
    }

    pub open spec fn spec_available(self, t: Tier) -> bool {
        match t {
            Tier::Hot => self.hot,
            Tier::Warm => self.warm,
            Tier::Cold => self.cold,
        }
    }

    pub fn available(self, t: Tier) -> (r: bool)
        ensures
            r == self.spec_available(t),
    {
        match t {
            Tier::Hot => self.hot,
            Tier::Warm => self.warm,
            Tier::Cold => self.cold,
        }
    }

    /// Availability as derived from the classes of the discovered devices:
    /// a tier is available when some device's class serves it.
    pub fn from_classes(classes: &Vec<BlockClass>) -> (r: TierAvailability)
        ensures
            r.hot == classes@.contains(BlockClass::Nvme),
            r.warm == classes@.contains(BlockClass::Ssd),
            r.cold == classes@.contains(BlockClass::Hdd),
    {
        let mut hot = false;
        let mut warm = false;
        let mut cold = false;
        let mut i: usize = 0;
        while i < classes.len()
            invariant
                i <= classes.len(),
                hot == classes@.take(i as int).contains(BlockClass::Nvme),
                warm == classes@.take(i as int).contains(BlockClass::Ssd),
                cold == classes@.take(i as int).contains(BlockClass::Hdd),
            decreases classes.len() - i,
        {
            match classes[i] {
                BlockClass::Nvme => {
                    hot = true;
                },
                BlockClass::Ssd => {
                    warm = true;
                },
                BlockClass::Hdd => {
                    cold = true;
                },
            }
            proof {
                assert(classes@.take(i + 1 as int).drop_last() =~= classes@.take(i as int));
                assert(classes@.take(i + 1 as int).last() == classes@[i as int]);
            }
            i = i + 1;
        }
        proof {
            assert(classes@.take(classes@.len() as int) =~= classes@);
        }
        TierAvailability { hot, warm, cold }
    }
}

} // verus!
