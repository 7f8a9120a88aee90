//! The configuration of the pipeline and its default.

use vstd::prelude::*;

verus! {

/// The confidence threshold of the default configuration: 0.7 in single precision.
pub const DEFAULT_CONFIDENCE_THRESHOLD: u32 = 0x3f33_3333;

/// The overlap threshold of the default configuration: 0.4 in double precision.
pub const DEFAULT_NMS_THRESHOLD: u64 = 0x3fd9_9999_9999_999a;

/// The first variance of the default configuration: 0.1 in single precision.
pub const DEFAULT_CENTER_VARIANCE: u32 = 0x3dcc_cccd;

/// The second variance of the default configuration: 0.2 in single precision.
pub const DEFAULT_SIZE_VARIANCE: u32 = 0x3e4c_cccd;

/// What the pipeline is run with. Real numbers are IEEE-754 bit patterns.
pub struct PostProcessConfig {
    /// Base sizes of the anchors, one list per feature level.
    pub min_sizes: Vec<Vec<usize>>,
    /// Stride of each feature level.
    pub steps: Vec<usize>,
    /// Whether anchor coordinates are clamped into `[0, 1]`.
    pub clip: bool,
    /// A candidate has a confidence strictly above this; single precision.
    pub confidence_threshold: u32,
    /// Suppression removes a box that overlaps a kept one by more than this;
    /// double precision.
    pub nms_threshold: u64,
    /// The scales of the centre offsets and of the size offsets; single precision.
    pub variance: [u32; 2],
}

/// The base sizes of the default configuration.
pub open spec fn default_min_sizes() -> Seq<Seq<usize>> {
    seq![seq![16usize, 32usize], seq![64usize, 128usize], seq![256usize, 512usize]]
}

/// The strides of the default configuration.
pub open spec fn default_steps() -> Seq<usize> {
    seq![8usize, 16usize, 32usize]
}

impl PostProcessConfig {
    /// Whether this is the default configuration.
    pub open spec fn is_default(&self) -> bool {
        &&& self.min_sizes.deep_view() == default_min_sizes()
        &&& self.steps@ == default_steps()
        &&& !self.clip
        &&& self.confidence_threshold == DEFAULT_CONFIDENCE_THRESHOLD
        &&& self.nms_threshold == DEFAULT_NMS_THRESHOLD
        &&& self.variance@ == seq![DEFAULT_CENTER_VARIANCE, DEFAULT_SIZE_VARIANCE]
    }
}

impl Default for PostProcessConfig {
    /// Three feature levels of strides 8, 16 and 32 with two anchor sizes
    /// each, no clipping, a confidence threshold of 0.7, an overlap
    /// threshold of 0.4 and the variances 0.1 and 0.2.
    fn default() -> (config: PostProcessConfig)
        ensures
            config.is_default(),
    {
        let mut min_sizes: Vec<Vec<usize>> = Vec::new();
        min_sizes.push(vec![16, 32]);
        min_sizes.push(vec![64, 128]);
        min_sizes.push(vec![256, 512]);
        let steps: Vec<usize> = vec![8, 16, 32];
        let variance: [u32; 2] = [DEFAULT_CENTER_VARIANCE, DEFAULT_SIZE_VARIANCE];
        proof {
            assert(min_sizes[0]@ =~= seq![16usize, 32usize]);
            assert(min_sizes[1]@ =~= seq![64usize, 128usize]);
            assert(min_sizes[2]@ =~= seq![256usize, 512usize]);
            assert(min_sizes.deep_view() =~~= default_min_sizes());
            assert(steps@ =~= default_steps());
            assert(variance@ =~= seq![DEFAULT_CENTER_VARIANCE, DEFAULT_SIZE_VARIANCE]);
        }
        PostProcessConfig {
            min_sizes,
            steps,
            clip: false,
            confidence_threshold: DEFAULT_CONFIDENCE_THRESHOLD,
            nms_threshold: DEFAULT_NMS_THRESHOLD,
            variance,
        }
    }
}

} // verus!
