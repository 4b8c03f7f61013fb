//! The configuration of a memory.
use vstd::prelude::*;
use crate::ddr4::{DDR4Org, Speed};
use crate::memory::MappingType;

verus! {

/// What a memory is built from: how many channels and ranks, which device,
/// at which speed, and how addresses are mapped to coordinates.
#[derive(Debug)]
pub struct Config {
    pub channels: usize,
    pub ranks: usize,
    pub ddr4_org: DDR4Org,
    pub ddr4_speed: Speed,
    pub mapping_type: MappingType,
}

impl Default for Config {
    /// One channel with one rank of 4 Gb x8 devices at DDR4-2400R, addresses
    /// mapped with the channel in the most significant slice.
    fn default() -> (r: Self)
        ensures
            r.channels == 1,
            r.ranks == 1,
            r.mapping_type == MappingType::ChRaBaRoCo,
            r.ddr4_org == DDR4Org::DDR4_4Gb_x8,
            r.ddr4_speed == Speed::DDR4_2400R,
    {
        Self {
            channels: 1,
            ranks: 1,
            mapping_type: MappingType::ChRaBaRoCo,
            ddr4_org: DDR4Org::DDR4_4Gb_x8,
            ddr4_speed: Speed::DDR4_2400R,
        }
    }
}

} // verus!
