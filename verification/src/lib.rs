//! Process-mining core: event logs, directly-follows information, the alpha
//! family of Petri net discovery algorithms and the supporting data structures.
use vstd::prelude::*;

pub mod text;
pub mod class_set;
pub mod event_log;
pub mod count_map;
pub mod event_log_info;
pub mod petri_net;
pub mod replay;
pub mod mutations;
pub mod annotations;
pub mod pnml;
pub mod alpha;
pub mod user_data;
pub mod pipelines;
pub mod sets;
pub mod utils;

verus! {

} // verus!
