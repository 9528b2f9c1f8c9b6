//! Typed frames for a streaming transport: the initial description of a
//! match and the per-turn update.  A transport layer serialises them at the
//! boundary.
use vstd::prelude::*;

verus! {

/// The opening frame of a stream: the board size of the match.
#[derive(Clone)]
pub struct Init {
    pub board_size: usize,
}

/// A handicap announcement.
#[derive(Clone)]
pub struct Handicap {
    pub count: u32,
}

/// One turn of play: the phase word, the colour-coded board, the legality
/// mask and both remaining times.
#[derive(Clone)]
pub struct Turn {
    pub turn: String,
    pub board: Vec<u8>,
    pub moves: Vec<bool>,
    pub black_time: u64,
    pub white_time: u64,
}

/// The closing frame: the final scores.
#[derive(Clone)]
pub struct End {
    pub black_score: u32,
    pub white_score: u32,
}

/// A frame of the stream.
#[derive(Clone)]
pub enum Frame {
    Init(Init),
    Turn(Turn),
}

} // verus!
