use vstd::prelude::*;
use crate::game::board::State;

verus! {

/// The possible board vertex states, by the letters of their names: White,
/// Empty, Black.
pub type WEB = State;

} // verus!
