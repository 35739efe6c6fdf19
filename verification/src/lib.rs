//! A small session store for workout-recovery records.
//!
//! A [`store::Storage`] holds an ordered sequence of sessions, each with a
//! unique short identifier, a description and a timestamp in seconds. The
//! store can be encoded to and decoded from a JSON text, and the decoder is
//! proved to invert the encoder.

use vstd::prelude::*;

pub mod codec;
pub mod session;
pub mod store;
mod text;

verus! {

} // verus!
