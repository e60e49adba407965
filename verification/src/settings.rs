//! What a run is configured with.

use crate::settlement::GeneSettings;
use crate::units::SCALE;
use vstd::prelude::*;

verus! {

/// The configuration of one run. It does not change during the run.
pub struct Settings {
    /// The side of the square grid.
    pub size: u16,
    /// How many settlements the world starts with.
    pub settlements: u16,
    /// How many households each settlement starts with.
    pub households: u16,
    /// The seasonal level of each tick, a fixed-point number in `[0, 1]`.
    /// The table is repeated when the run outlasts it.
    pub seasons: Vec<u64>,
    /// The share of its resources that a household loses at the end of a
    /// tick, a fixed-point number in `[0, 1]`.
    pub degradation: u64,
    /// How the genes of the first households are chosen.
    pub genes: GeneSettings,
    /// Whether the households of a settlement may find their mates in the
    /// settlement itself.
    pub own_settlement_mates: bool,
    /// The seed of the random stream.
    pub seed: u64,
}

/// Why a configuration is refused.
#[derive(Clone, Copy, PartialEq, Eq, Structural, Debug)]
pub enum ConfigError {
    /// The grid has no cell.
    EmptyGrid,
    /// There are more settlements than cells.
    TooManySettlements,
    /// The degradation rate is above 1.
    DegradationOutOfRange,
    /// A seasonal level is above 1.
    SeasonOutOfRange,
}

impl Settings {
    /// Every seasonal level lies in `[0, 1]`.
    pub open spec fn seasons_in_range(self) -> bool {
        forall|i: int| 0 <= i < self.seasons.len() ==> self.seasons[i] <= SCALE
    }

    /// The reason to refuse the configuration, if there is one: the first
    /// that applies, in the order of `ConfigError`.
    pub open spec fn fault(self) -> Option<ConfigError> {
        if self.size == 0 {
            Some(ConfigError::EmptyGrid)
        } else if self.settlements > self.size * self.size {
            Some(ConfigError::TooManySettlements)
        } else if self.degradation > SCALE {
            Some(ConfigError::DegradationOutOfRange)
        } else if !self.seasons_in_range() {
            Some(ConfigError::SeasonOutOfRange)
        } else {
            None
        }
    }

    /// The seasonal level of a tick: read from the table, which is repeated
    /// when the run outlasts it; 0.5 where there is no table.
    pub open spec fn level_spec(self, tick: u32) -> u64 {
        if self.seasons.len() == 0 {
            (SCALE / 2) as u64
        } else {
            self.seasons[tick as int % self.seasons.len() as int]
        }
    }

    /// Looks for a reason to refuse the configuration.
    pub fn check(&self) -> (found: Option<ConfigError>)
        ensures
            found == self.fault(),
    {
        if self.size == 0 {
            return Some(ConfigError::EmptyGrid);
        }
        let side: u64 = self.size as u64;
        assert(side * side <= 0xffff * 0xffff) by (nonlinear_arith)
            requires
                side <= 0xffff,
        ;
        if self.settlements as u64 > side * side {
            return Some(ConfigError::TooManySettlements);
        }
        if self.degradation > SCALE {
            return Some(ConfigError::DegradationOutOfRange);
        }
        let mut i: usize = 0;
        while i < self.seasons.len()
            invariant
                i <= self.seasons.len(),
                self.size != 0,
                self.settlements <= self.size * self.size,
                self.degradation <= SCALE,
                forall|k: int| 0 <= k < i ==> self.seasons[k] <= SCALE,
            decreases self.seasons.len() - i,
        {
            if self.seasons[i] > SCALE {
                assert(!self.seasons_in_range());
                return Some(ConfigError::SeasonOutOfRange);
            }
            i = i + 1;
        }
        None
    }

    /// The seasonal level of a tick.
    pub fn level(&self, tick: u32) -> (level: u64)
        ensures
            level == self.level_spec(tick),
    {
        if self.seasons.len() == 0 {
            SCALE / 2
        } else {
            self.seasons[tick as usize % self.seasons.len()]
        }
    }
}

} // verus!
