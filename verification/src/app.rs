//! The protocols that the simulator can drive.

pub mod epidemic;
pub mod sps;
pub mod avalanche;
pub mod rps;
