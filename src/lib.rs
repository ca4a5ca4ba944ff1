use vstd::prelude::*;

pub mod error;
pub mod qap;
pub mod rsrv;
pub mod text;

verus! {

/// The port on which an evaluation server listens unless told otherwise.
pub const DEFAULT_PORT: u16 = 6311;

} // verus!
