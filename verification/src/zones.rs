//! The five kinds of urban fabric and the parameters that shape each.
use crate::single::F32;
use vstd::prelude::*;

verus! {

/// Number of zone types.
pub const ZONE_COUNT: usize = 5;

/// A kind of urban fabric.
#[derive(Clone, Copy, Debug, PartialEq, Eq, Hash, Structural)]
pub enum ZoneType {
    /// Dense, tall business district.
    Downtown,
    /// Quiet low-rise housing.
    Residential,
    /// Busy mid-rise shopping and offices.
    Commercial,
    /// Wide low warehouses and open lots.
    Industrial,
    /// Foliage and open ground.
    Park,
}

impl ZoneType {
    /// The zone's place in every per-zone table.
    pub open spec fn ordinal(self) -> nat {
        match self {
            ZoneType::Downtown => 0,
            ZoneType::Residential => 1,
            ZoneType::Commercial => 2,
            ZoneType::Industrial => 3,
            ZoneType::Park => 4,
        }
    }

    /// The zone at a place in the tables; the last one for any place beyond.
    pub open spec fn at(i: nat) -> ZoneType {
        if i == 0 {
            ZoneType::Downtown
        } else if i == 1 {
            ZoneType::Residential
        } else if i == 2 {
            ZoneType::Commercial
        } else if i == 3 {
            ZoneType::Industrial
        } else {
            ZoneType::Park
        }
    }

    /// The zone's place in every per-zone table.
    pub fn index(self) -> (i: usize)
        ensures
            i == self.ordinal(),
            i < ZONE_COUNT,
    {
        match self {
            ZoneType::Downtown => 0,
            ZoneType::Residential => 1,
            ZoneType::Commercial => 2,
            ZoneType::Industrial => 3,
            ZoneType::Park => 4,
        }
    }

    /// The zone at place `i` in the tables.
    pub fn from_index(i: usize) -> (z: ZoneType)
        ensures
            z == ZoneType::at(i as nat),
            i < ZONE_COUNT ==> z.ordinal() == i,
    {
        if i == 0 {
            ZoneType::Downtown
        } else if i == 1 {
            ZoneType::Residential
        } else if i == 2 {
            ZoneType::Commercial
        } else if i == 3 {
            ZoneType::Industrial
        } else {
            ZoneType::Park
        }
    }

    /// Every zone, in table order.
    pub fn all() -> (a: [ZoneType; ZONE_COUNT])
        ensures
            forall|i: int| 0 <= i < ZONE_COUNT ==> #[trigger] a[i] == ZoneType::at(i as nat),
    {
        [
            ZoneType::Downtown,
            ZoneType::Residential,
            ZoneType::Commercial,
            ZoneType::Industrial,
            ZoneType::Park,
        ]
    }
}

/// The parameters of one kind of fabric.
#[derive(Clone, Copy, Debug, PartialEq, Eq, Structural)]
pub struct ZoneParams {
    /// Lowest building, in world units.
    pub height_min: F32,
    /// Highest building, in world units.
    pub height_max: F32,
    /// Share of lots that carry a building.
    pub density: F32,
    /// Street period in cells.
    pub block_size: u8,
    /// Number of facade palettes.
    pub palette_count: u8,
    /// Every how many streets one is an arterial; zero for none.
    pub arterial_every: u8,
}

} // verus!
