//! Event-shaped packets for a transport that reports each kind of change on
//! its own: match settings, handicap, plays, occupancy, clocks and the end
//! of the game.
use vstd::prelude::*;

verus! {

/// The settings of a match as first reported to a new subscriber.
pub struct Initial {
    pub board_size: u32,
    pub komi: u32,
    pub handicap: u32,
    pub fixed_time: u32,
    pub added_time: u32,
}

/// A handicap placement: how many stones, and both clocks afterwards.
pub struct Handicap {
    pub count: u32,
    pub black_time: u32,
    pub white_time: u32,
}

/// A completed play: the mover's colour word, the board and the new
/// legality mask.
pub struct Play {
    pub color: String,
    pub board: Vec<u8>,
    pub moves: Vec<bool>,
}

/// Who is seated and how many watch.
pub struct Occupancy {
    pub black: bool,
    pub white: bool,
    pub spectators: u32,
}

/// Both clocks.
pub struct Time {
    pub black_time: u32,
    pub white_time: u32,
}

/// The end of the game: why it ended, the final scores, the final clocks.
pub struct End {
    pub reason: String,
    pub black_score: u32,
    pub white_score: u32,
    pub black_time: u32,
    pub white_time: u32,
}

/// One event packet.
pub enum Packet {
    Initial(Initial),
    Handicap(Handicap),
    Play(Play),
    Occupancy(Occupancy),
    End(End),
    Time(Time),
}

} // verus!
