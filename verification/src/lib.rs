//! Click detection and repair for a single audio channel: the index and
//! decision logic, stated over sample codes (see [`level`]).

pub mod level;
pub mod metrics;
pub mod pipeline;
pub mod ratio;

pub use level::{
    peak, sample_at_least, sample_greater, sample_is_nan, sample_magnitude, FULL_SCALE, INFINITY,
};
pub use metrics::{click_precision_recall, find_match, transient_mask, ClickMetrics};
pub use pipeline::{
    detect_impulses, impulse_threshold, normalization_peak, repair_impulses,
    run_baseline_pipeline, validate_output, BaselineConfig, BaselineOutput, RepairSpan,
    ValidationResult,
};
pub use ratio::Ratio;
