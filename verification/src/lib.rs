//! Off-chain reproduction of the Sequential Phragmén council election,
//! with a round-by-round trace of the computation for auditing.

pub mod account;
pub mod engine;
pub mod markdown;
pub mod phragmen;
pub mod rational;
pub mod render;
pub mod trace;
pub mod traits;
pub mod types;
