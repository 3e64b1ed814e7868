//! Verified decisions of a farmer cluster controller, and the weights of the
//! messenger pallet's extrinsics.
//!
//! - [`caches`]: which caches of a cache group are known, and when the farmer
//!   cache must be reinitialized with their piece caches.
//! - [`farms`]: which farmers and farms are known, and which farm index each
//!   farm occupies; [`farm_laws`] proves what farmer updates keep.
//! - [`farm_operations`]: the queue of plotted-pieces operations run one at a
//!   time by the farm maintenance loop.
//! - [`weights`]: extrinsic weights.
use vstd::prelude::*;

pub mod caches;
pub mod channel;
pub mod farm_laws;
pub mod farm_operations;
pub mod farms;
pub mod ids;
pub mod index_map;
pub mod weights;

verus! {

} // verus!
