//! Decoding of player-info replies of a game-server query protocol.
//!
//! `cursor` reads fields from a byte buffer, `duration` turns the float
//! seconds of the wire into whole seconds, `player_info` decodes records and
//! whole responses, and `wire` describes the encoding and proves how
//! decoding treats encoded, extended and cut-short responses.
use vstd::prelude::*;

pub mod cli;
pub mod cursor;
pub mod duration;
pub mod player_info;
pub mod wire;

verus! {

} // verus!
