//! What navigators share: their tuning, the planning views and the threats
//! around them.
use vstd::prelude::*;

use crate::coarse::{blocks, CoarseView};
use crate::geometry::{Point, ZERO};
use crate::number::Real;
use crate::scene::NavGrid;
use crate::walk::WalkView;

verus! {

/// Default sensing radius, matching the population model: `72`.
pub const DEFAULT_SENSE_RADIUS: u64 = 0x4052_0000_0000_0000;

/// `0.75`
pub const DEFAULT_AGENT_RADIUS: u64 = 0x3fe8_0000_0000_0000;

/// `0.5`
pub const DEFAULT_THREAT_MARGIN: u64 = 0x3fe0_0000_0000_0000;

/// `3`
pub const DEFAULT_AGENT_SPEED: u64 = 0x4008_0000_0000_0000;

/// `6`
pub const DEFAULT_DENSITY_COST: u64 = 0x4018_0000_0000_0000;

/// `0.5`
pub const DEFAULT_REPLAN_SECONDS: u64 = 0x3fe0_0000_0000_0000;

/// `300`
pub const DEFAULT_FAIL_PENALTY: u64 = 0x4072_c000_0000_0000;

#[derive(Clone, Copy, PartialEq, Eq, Structural, Debug)]
pub struct NavConfig {
    /// Fine cells per coarse cell edge in the derived global view.
    pub coarse_factor: usize,
    /// Radius around the agent whose fine geometry is trusted and re-planned.
    pub sense_radius: Real,
    /// Agent body radius; dilates the fine planning view when positive.
    pub agent_radius: Real,
    /// Extra distance kept outside every threat radius.
    pub threat_margin: Real,
    /// Steering speed in world units per second.
    pub speed: Real,
    /// Cost multiplier applied to coarse cells by blocked-cell fraction.
    pub density_cost: Real,
    /// Seconds between periodic local replans while moving.
    pub replan_seconds: Real,
    /// Consecutive failed refinements before reporting `Blocked`.
    pub max_fail_streak: u32,
    /// Settled-node cap for one windowed fine search.
    pub local_expansion_cap: usize,
    /// Cost charged to a coarse cell whose promised passage failed to refine.
    pub fail_penalty: Real,
}

impl NavConfig {
    pub open spec fn usual() -> NavConfig {
        NavConfig {
            coarse_factor: 8,
            sense_radius: Real { bits: DEFAULT_SENSE_RADIUS },
            agent_radius: Real { bits: DEFAULT_AGENT_RADIUS },
            threat_margin: Real { bits: DEFAULT_THREAT_MARGIN },
            speed: Real { bits: DEFAULT_AGENT_SPEED },
            density_cost: Real { bits: DEFAULT_DENSITY_COST },
            replan_seconds: Real { bits: DEFAULT_REPLAN_SECONDS },
            max_fail_streak: 12,
            local_expansion_cap: 6000,
            fail_penalty: Real { bits: DEFAULT_FAIL_PENALTY },
        }
    }

    pub open spec fn spec_inflation(&self) -> Real {
        self.threat_margin.add(self.agent_radius)
    }

    /// How much wider than its radius a threat is kept clear of.
    #[verifier::when_used_as_spec(spec_inflation)]
    pub fn inflation(&self) -> (r: Real)
        ensures
            r == self.spec_inflation(),
    {
        self.threat_margin.add(self.agent_radius)
    }
}

impl Default for NavConfig {
    fn default() -> (r: NavConfig)
        ensures
            r == NavConfig::usual(),
    {
        NavConfig {
            coarse_factor: 8,
            sense_radius: Real { bits: DEFAULT_SENSE_RADIUS },
            agent_radius: Real { bits: DEFAULT_AGENT_RADIUS },
            threat_margin: Real { bits: DEFAULT_THREAT_MARGIN },
            speed: Real { bits: DEFAULT_AGENT_SPEED },
            density_cost: Real { bits: DEFAULT_DENSITY_COST },
            replan_seconds: Real { bits: DEFAULT_REPLAN_SECONDS },
            max_fail_streak: 12,
            local_expansion_cap: 6000,
            fail_penalty: Real { bits: DEFAULT_FAIL_PENALTY },
        }
    }
}

/// An enemy awareness disc the agent must never enter.
#[derive(Clone, Copy, PartialEq, Eq, Structural, Debug)]
pub struct Threat {
    pub center: Point,
    pub radius: Real,
}

/// Shared, immutable planning views. Build once per scene and share across all
/// navigators.
#[derive(Clone, Debug)]
pub struct NavShared {
    pub config: NavConfig,
    pub fine: WalkView,
    pub coarse: CoarseView,
}

impl NavShared {
    pub open spec fn wf(&self) -> bool {
        &&& self.fine.wf()
        &&& self.coarse.wf()
    }

    /// Whether these are the views that a walk grid gives: the fine view is the
    /// grid, dilated for an agent with a body, and the coarse view sums it up.
    pub open spec fn derived_from(&self, base: &WalkView) -> bool {
        let factor: int = if self.config.coarse_factor < 1 {
            1
        } else {
            self.config.coarse_factor as int
        };
        &&& self.fine.same_geometry(base)
        &&& forall|col: int, row: int|
            base.within(col, row) ==> #[trigger] self.fine.blocked_at(col, row) == (if Real::of(
                ZERO,
            ).lt(self.config.agent_radius) {
                base.dilated_at(self.config.agent_radius, col, row)
            } else {
                base.blocked_at(col, row)
            })
        &&& self.coarse.factor == factor
        &&& self.coarse.width == blocks(base.width as int, factor)
        &&& self.coarse.height == blocks(base.height as int, factor)
        &&& self.coarse.origin == base.origin
        &&& self.coarse.cell_size == base.cell_size.mul(Real::from_count(self.coarse.factor as u64))
        &&& forall|col: int, row: int|
            self.coarse.within(col, row) ==> #[trigger] self.coarse.summarizes(
                &self.fine,
                col,
                row,
            )
    }

    /// Derives the planning views from a scene's grid.
    pub fn from_grid(grid: &NavGrid, config: NavConfig) -> (r: NavShared)
        requires
            grid.width <= isize::MAX,
            grid.height <= isize::MAX,
            grid.cells() <= usize::MAX,
            forall|i: int|
                grid.cells() <= i < grid.blocked@.len() && i / 64 > (grid.cells() - 1) / 64
                    ==> #[trigger] grid.blocked@[i] == 0,
        ensures
            r.wf(),
            r.config == config,
            exists|base: WalkView| base.shows(grid) && #[trigger] r.derived_from(&base),
    {
        NavShared::from_view(WalkView::from_nav_grid(grid), config)
    }

    /// Derives the planning views from a walk grid.
    pub fn from_view(base: WalkView, config: NavConfig) -> (r: NavShared)
        requires
            base.wf(),
        ensures
            r.wf(),
            r.config == config,
            r.derived_from(&base),
    {
        let ghost given: WalkView = base;
        let fine: WalkView = if Real::of(ZERO).lt(config.agent_radius) {
            base.dilated(config.agent_radius)
        } else {
            base
        };
        let coarse: CoarseView = CoarseView::from_fine(&fine, config.coarse_factor);
        let r: NavShared = NavShared { config, fine, coarse };
        proof {
            assert forall|col: int, row: int|
                given.within(col, row) implies #[trigger] r.fine.blocked_at(col, row) == (if Real::of(
                ZERO,
            ).lt(config.agent_radius) {
                given.dilated_at(config.agent_radius, col, row)
            } else {
                given.blocked_at(col, row)
            }) by {
                assert(r.fine.within(col, row));
            }
        }
        r
    }
}

} // verus!
