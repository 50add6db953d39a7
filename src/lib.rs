//! Discovery of Pro DJ Link players: decoding of their announcement packets
//! and a time-windowed store that tells fresh sightings from repeats.

use vstd::prelude::*;

pub mod announce;
pub mod common;
pub mod discovery;

verus! {

} // verus!
