//! Plain-value logic of a cross-language energy benchmarking tool: the
//! benchmark scheduler state machine, task discovery from directory paths,
//! energy-counter arithmetic, and the sensor/channel selection rules of the
//! hardware samplers.
use vstd::prelude::*;

pub mod text;
pub mod benchmark;
pub mod app;
pub mod metrics;

verus! {

} // verus!
