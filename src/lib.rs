//! Pins a host name to the fastest of its known addresses: the candidate
//! list, the choice of the fastest probed address, and the rewrite of the
//! name-resolution override file.

pub mod hosts;
pub mod meta;
pub mod probe;
