//! Coin-age weighted holder rewards: at every minting block a reward pool is divided
//! among accounts in proportion to a score that weighs how much balance each account
//! has held continuously over a schedule of look-back offsets.
//!
//! - `score`: the score of one account from its checkpoints, and the division of a
//!   pool by scores.
//! - `store`: the maps behind the weight schedule and the balance history.
//! - `pallet`: the engine's state, the administrative schedule update, the per-block
//!   recorder and the distribution step.
//! - `definition`: resolution of schema structure definitions against known structures.
use vstd::prelude::*;

pub mod score;
pub mod store;
pub mod pallet;
pub mod definition;

verus! {

} // verus!
