//! The race-specific gather/return ability pair, selected once at startup
//! from three fixed pairs. Ability identifiers carry the host protocol's
//! numbering so the connection layer can pass observed orders through
//! unchanged.

use vstd::prelude::*;

verus! {

pub const ABILITY_GATHER_SCV: u64 = 295;
pub const ABILITY_RETURN_SCV: u64 = 296;
pub const ABILITY_GATHER_PROBE: u64 = 298;
pub const ABILITY_RETURN_PROBE: u64 = 299;
pub const ABILITY_GATHER_DRONE: u64 = 1183;
pub const ABILITY_RETURN_DRONE: u64 = 1184;

/// The three playable races; each has one worker type with its own
/// harvest ability pair.
#[derive(Clone, Copy, PartialEq, Eq, Structural, Debug)]
pub enum Race {
    Terran,
    Zerg,
    Protoss,
}

pub open spec fn spec_worker_abilities(race: Race) -> (u64, u64) {
    match race {
        Race::Terran => (ABILITY_GATHER_SCV, ABILITY_RETURN_SCV),
        Race::Zerg => (ABILITY_GATHER_DRONE, ABILITY_RETURN_DRONE),
        Race::Protoss => (ABILITY_GATHER_PROBE, ABILITY_RETURN_PROBE),
    }
}

/// The (gather, return) ability pair of the given race's worker.
pub fn worker_abilities(race: Race) -> (r: (u64, u64))
    ensures
        r == spec_worker_abilities(race),
{
    match race {
        Race::Terran => (ABILITY_GATHER_SCV, ABILITY_RETURN_SCV),
        Race::Zerg => (ABILITY_GATHER_DRONE, ABILITY_RETURN_DRONE),
        Race::Protoss => (ABILITY_GATHER_PROBE, ABILITY_RETURN_PROBE),
    }
}

} // verus!
