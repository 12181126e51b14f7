//! Generation parameters, immutable for the lifetime of one growth run.
//!
//! Fractional parameters are carried as explicit rationals: per-mille values
//! (`*_pm`, denominator 1000) for blend factors and ratios, and quarters
//! (`prune_pow_q`, the exponent is `prune_pow_q / 4`) for the pruning
//! exponent, so that every decision the engine takes is exact integer
//! arithmetic.

use vstd::prelude::*;

use crate::geom::DIST_LIMIT;

verus! {

/// Denominator of all per-mille parameters.
pub const PM_ONE: u64 = 1000;

/// Largest canvas dimension the sampler accepts.
pub const MAX_DIM: usize = 4096;

/// Largest number of attraction points one run may seed.
pub const MAX_POINTS: usize = 0x10_0000;

#[derive(Clone, Copy, Debug, PartialEq, Eq, Structural)]
pub struct Config {
    /// Distance within which a node considers an attraction point nearby.
    pub attraction_dist: u64,
    /// Distance within which an attraction point is consumed by a node.
    pub kill_dist: u64,
    /// Length of the step a new child node is placed from its parent.
    pub grow_dist: u64,
    /// Minimum spacing a proposal must keep from every existing node.
    pub node_min_dist: u64,
    /// Canvas width, in grid cells / position units.
    pub width: usize,
    /// Canvas height, in grid cells / position units.
    pub height: usize,
    /// Number of children a node may accept before it stops proposing.
    pub max_children: usize,
    /// Largest depth (distance from the root) a node may have.
    pub max_depth: usize,
    /// Number of attraction points seeded at the start of a run.
    pub num_points: usize,
    /// Minimum vertical displacement a proposal must gain over its parent.
    pub min_y_growth: i64,
    /// Blend toward the parent direction, in per-mille of the way.
    pub parent_dir_factor_pm: u32,
    /// Pruning exponent, in quarters: the conflict reach is `weight^(q/4)`.
    pub prune_pow_q: u32,
    /// Pruning size ratio, in per-mille.
    pub prune_size_ratio_pm: u32,
    /// Largest magnitude of the per-step depth-axis jitter.
    pub node_depth_change: i64,
    /// Upper clamp of the depth-axis coordinate.
    pub node_depth_max: i64,
}

impl Config {
    /// Parameter ranges under which every computation of the engine stays
    /// inside machine integer ranges.
    pub open spec fn wf(self) -> bool {
        &&& 1 <= self.width <= MAX_DIM
        &&& 1 <= self.height <= MAX_DIM
        &&& self.attraction_dist <= DIST_LIMIT
        &&& self.kill_dist <= DIST_LIMIT
        &&& self.grow_dist <= DIST_LIMIT
        &&& self.node_min_dist <= DIST_LIMIT
        &&& -(DIST_LIMIT as i64) <= self.min_y_growth <= DIST_LIMIT as i64
        &&& self.parent_dir_factor_pm <= PM_ONE as u32
        &&& self.prune_pow_q <= 8
        &&& self.num_points <= MAX_POINTS
        &&& self.max_depth < usize::MAX
        &&& 0 <= self.node_depth_change <= DIST_LIMIT as i64
        &&& 0 <= self.node_depth_max <= DIST_LIMIT as i64
    }
}

} // verus!
