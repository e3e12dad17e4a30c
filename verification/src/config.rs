//! The validated, immutable configuration the engine consumes.
//!
//! Selectors are closed enumerations, so an unknown metric, strategy or
//! rotation cannot reach the engine; out-of-range bounds are rejected here,
//! before any image is touched.

use vstd::prelude::*;

use crate::ratio::Ratio;
use crate::sort::Metric;

verus! {

/// How far the image is rotated before processing (and rotated back after),
/// in steps of 90°; this chooses the axis the runs are taken along.
#[derive(Clone, Copy, PartialEq, Eq, Structural, Debug)]
pub enum Rotation {
    Rot0,
    Rot90,
    Rot180,
    Rot270,
}

/// The rule that decides where a run ends.
#[derive(Clone, Copy, PartialEq, Eq, Structural, Debug)]
pub enum Exclusion {
    /// A pixel ends the run when `metric` puts it strictly outside
    /// `[lower, upper]`; the metric is chosen independently of the sort metric.
    Threshold { metric: Metric, lower: Ratio, upper: Ratio },
    /// A pixel ends the run when a uniform draw from `[lower, upper)` is 0.
    Random { lower: u32, upper: u32 },
}

impl Exclusion {
    /// Valid bounds: threshold bounds are well-formed ratios in [0, 1];
    /// a random range must be non-empty.
    pub open spec fn wf(self) -> bool {
        match self {
            Exclusion::Threshold { metric, lower, upper } => lower.wf() && upper.wf(),
            Exclusion::Random { lower, upper } => lower < upper,
        }
    }
}

/// Why a configuration was rejected.
#[derive(Clone, Copy, PartialEq, Eq, Structural, Debug)]
pub enum ConfigError {
    /// A threshold bound is not a well-formed ratio in [0, 1].
    BoundOutOfRange,
    /// The random exclusion range `[lower, upper)` is empty.
    EmptyRandomRange,
}

/// The validated configuration: sort metric, exclusion rule and rotation.
/// Constructed once, read-only afterwards.
#[derive(Clone, Copy, PartialEq, Eq, Structural, Debug)]
pub struct Config {
    pub sort_metric: Metric,
    pub exclusion: Exclusion,
    pub rotation: Rotation,
}

impl Config {
    pub open spec fn wf(self) -> bool {
        self.exclusion.wf()
    }

    /// Validates and builds a configuration. Succeeds exactly when the
    /// exclusion bounds are valid, and says why it failed otherwise.
    pub fn new(sort_metric: Metric, exclusion: Exclusion, rotation: Rotation) -> (r: Result<
        Config,
        ConfigError,
    >)
        ensures
            r is Ok <==> exclusion.wf(),
            r matches Ok(c) ==> c == (Config { sort_metric, exclusion, rotation }) && c.wf(),
            r matches Err(e) ==> match exclusion {
                Exclusion::Threshold { metric, lower, upper } => e == ConfigError::BoundOutOfRange
                    && (!lower.wf() || !upper.wf()),
                Exclusion::Random { lower, upper } => e == ConfigError::EmptyRandomRange && lower
                    >= upper,
            },
    {
        match exclusion {
            Exclusion::Threshold { metric, lower, upper } => {
                if lower.den == 0 || lower.den > 100_000 || lower.num > lower.den || upper.den == 0
                    || upper.den > 100_000 || upper.num > upper.den {
                    Err(ConfigError::BoundOutOfRange)
                } else {
                    Ok(Config { sort_metric, exclusion, rotation })
                }
            },
            Exclusion::Random { lower, upper } => {
                if lower >= upper {
                    Err(ConfigError::EmptyRandomRange)
                } else {
                    Ok(Config { sort_metric, exclusion, rotation })
                }
            },
        }
    }
}

/// The default threshold bounds: lower 0.25 and upper 0.8, except that a
/// saturation sort lowers the upper bound to 0.6.
pub fn default_threshold_bounds(sort_metric: Metric) -> (r: (Ratio, Ratio))
    ensures
        r.0 == (Ratio { num: 25, den: 100 }),
        sort_metric == Metric::Saturation ==> r.1 == (Ratio { num: 60, den: 100 }),
        sort_metric != Metric::Saturation ==> r.1 == (Ratio { num: 80, den: 100 }),
        r.0.wf(),
        r.1.wf(),
{
    let upper = if let Metric::Saturation = sort_metric {
        Ratio { num: 60, den: 100 }
    } else {
        Ratio { num: 80, den: 100 }
    };
    (Ratio { num: 25, den: 100 }, upper)
}

/// The default random exclusion range `[0, 5)`: roughly one boundary draw in
/// five pixels.
pub fn default_random_bounds() -> (r: (u32, u32))
    ensures
        r.0 == 0u32,
        r.1 == 5u32,
{
    (0, 5)
}

} // verus!
