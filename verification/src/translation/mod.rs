//! Translation: fidelity checks on model output, series consistency, prompt
//! construction, SSE stream decoding, retry policy and job planning.

pub mod fidelity;
pub mod series;
pub mod sse;
pub mod planner;
pub mod prompt;
pub mod retry;
pub mod translator;
