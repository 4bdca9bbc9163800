use vstd::prelude::*;

pub mod builder;
pub mod calc;
pub mod pipeline;
pub mod raw_log;
pub mod span;
pub mod text;

verus! {

/// Where the tool keeps its data: the directories it tracks, the raw log of observations and
/// the span log.
pub struct Configuration {
    pub track_paths: Vec<String>,
    pub raw_data_path: String,
    pub processed_data_path: String,
}

} // verus!
