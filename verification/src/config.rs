//! The settings of an engine.

use vstd::prelude::*;
use crate::kernel::{Metric, MergeKind};

verus! {

/// The dimensionality that an engine has where none is asked for.
pub const DEFAULT_DIMENSIONALITY: usize = 768;

/// The settings of an engine.
#[derive(Debug, Clone, Copy, PartialEq, Eq, Structural)]
pub struct ArmsConfig {
    /// The dimensionality of every vector.
    pub dimensionality: usize,
    /// How vectors are compared.
    pub metric: Metric,
    /// How vectors are merged.
    pub merge: MergeKind,
    /// Whether vectors and queries are brought to length one first.
    pub normalize_on_insert: bool,
}

impl ArmsConfig {
    /// The usual settings for vectors of the given dimensionality: cosine
    /// proximity, merging by the mean, and normalization.
    pub fn new(dimensionality: usize) -> (c: ArmsConfig)
        ensures
            c == (ArmsConfig {
                dimensionality,
                metric: Metric::Cosine,
                merge: MergeKind::Mean,
                normalize_on_insert: true,
            }),
    {
        ArmsConfig {
            dimensionality,
            metric: Metric::Cosine,
            merge: MergeKind::Mean,
            normalize_on_insert: true,
        }
    }

    /// The settings with another metric.
    pub fn with_metric(self, metric: Metric) -> (c: ArmsConfig)
        ensures
            c == (ArmsConfig { metric, ..self }),
    {
        ArmsConfig { metric, ..self }
    }

    /// The settings with another way of merging.
    pub fn with_merge(self, merge: MergeKind) -> (c: ArmsConfig)
        ensures
            c == (ArmsConfig { merge, ..self }),
    {
        ArmsConfig { merge, ..self }
    }

    /// The settings with normalization switched on or off.
    pub fn with_normalization(self, normalize_on_insert: bool) -> (c: ArmsConfig)
        ensures
            c == (ArmsConfig { normalize_on_insert, ..self }),
    {
        ArmsConfig { normalize_on_insert, ..self }
    }
}

impl Default for ArmsConfig {
    fn default() -> (c: ArmsConfig)
        ensures
            c == (ArmsConfig {
                dimensionality: DEFAULT_DIMENSIONALITY,
                metric: Metric::Cosine,
                merge: MergeKind::Mean,
                normalize_on_insert: true,
            }),
    {
        ArmsConfig::new(DEFAULT_DIMENSIONALITY)
    }
}

} // verus!
