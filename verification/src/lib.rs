//! Core of a transit punctuality tracker: merging polled departure
//! observations into per-station trip records, and scoring stations by a
//! delay metric over those records.
//!
//! Reading the station list, fetching departures over the network and
//! reading or writing the persisted JSON files all live outside this
//! library; it works on plain values handed in by the caller.

use vstd::prelude::*;

pub mod evaluate;
pub mod poll;
pub mod stations;
pub mod trips;

use crate::evaluate::{EvaluationMode, ProductType};

verus! {

/// One command of the tool's surface: refresh the station list, run the
/// continuous poller, update a single station, or score the collected data.
pub enum Commands {
    FilterStations { minimum_weight: u64 },
    RunServer,
    UpdateStation { station: u64 },
    Evaluate { product_type: ProductType, eval_type: EvaluationMode },
}

} // verus!
