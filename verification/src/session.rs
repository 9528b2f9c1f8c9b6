//! The per-match coordinator: it owns one game, the two player clocks and
//! the lobby clock, and the seat occupancy, and turns each inbound message
//! into a state change plus the effects the surroundings must carry out
//! (replies, broadcasts, re-arming the timeout, commands for the external
//! player).  The mailbox, the channels and the delay tasks live outside the
//! library and feed this one step function.
use crate::engine;
use crate::model::{Game, Settings, Stone, Turn};
use crate::timer::Timer;
use vstd::prelude::*;

verus! {

/// How long an unfilled match waits before it expires, in milliseconds.
pub const LOBBY_TIMEOUT_MS: u64 = 300000;

/// One state snapshot broadcast to every subscriber: the colour-coded board,
/// the legality mask, the phase word, seat occupancy, scores, and both
/// remaining times in seconds.
pub struct Packet {
    pub board: Vec<u8>,
    pub moves: Vec<bool>,
    pub turn: String,
    pub black_occupied: bool,
    pub white_occupied: bool,
    pub black_score: u32,
    pub white_score: u32,
    pub black_time: u64,
    pub white_time: u64,
}

/// The numeric colour coding of a board cell in a snapshot.
pub open spec fn stone_code(s: Stone) -> u8 {
    match s {
        Stone::Empty => 0u8,
        Stone::Black => 1u8,
        Stone::White => 2u8,
    }
}

/// The phase word a snapshot shows: "wait" while the lobby clock still runs,
/// afterwards the game phase.
pub open spec fn turn_word(turn: Turn, waiting: bool) -> Seq<char> {
    if waiting {
        "wait"@
    } else {
        match turn {
            Turn::Handicap => "handicap"@,
            Turn::Black => "black"@,
            Turn::White => "white"@,
            Turn::End => "end"@,
        }
    }
}

/// The snapshot `p` reports exactly this state at instant `now`.  While the
/// lobby clock runs both time fields show it; afterwards each side's own
/// clock, in seconds.
pub open spec fn packet_matches(
    p: Packet,
    game: Game,
    timers: [Timer; 3],
    occupancy: [bool; 2],
    now: u64,
) -> bool {
    &&& p.board@.len() == game.board@.len()
    &&& forall|i: int|
        0 <= i < game.board@.len() ==> p.board@[i] == stone_code(#[trigger] game.board@[i])
    &&& p.moves@ == game.valid_moves@
    &&& p.turn@ == turn_word(game.turn, timers[2].running)
    &&& p.black_occupied == occupancy[0]
    &&& p.white_occupied == occupancy[1]
    &&& p.black_score == game.black_score
    &&& p.white_score == game.white_score
    &&& p.black_time == (if timers[2].running {
        timers[2].spec_time(now)
    } else {
        timers[0].spec_time(now)
    }) / 1000
    &&& p.white_time == (if timers[2].running {
        timers[2].spec_time(now)
    } else {
        timers[1].spec_time(now)
    }) / 1000
}

impl Packet {
    /// Builds the snapshot of a match at instant `now`.
    #[verifier::loop_isolation(false)]
    pub fn new(game: &Game, timers: &[Timer; 3], occupancy: &[bool; 2], now: u64) -> (p: Packet)
        requires
            timers@[0].marked_by(now),
            timers@[1].marked_by(now),
            timers@[2].marked_by(now),
        ensures
            packet_matches(p, *game, *timers, *occupancy, now),
    {
        let waiting = timers[2].running();
        let mut board = Vec::<u8>::new();
        let mut i: usize = 0;
        let len = game.board.len();
        while i < len
            invariant
                i <= len,
                board@.len() == i,
                forall|j: int|
                    0 <= j < i ==> board@[j] == stone_code(#[trigger] game.board@[j]),
            decreases len - i,
        {
            let code: u8 = match game.board[i] {
                Stone::Empty => 0,
                Stone::Black => 1,
                Stone::White => 2,
            };
            board.push(code);
            i += 1;
        }
        let moves = game.valid_moves.clone();
        proof {
            assert(moves@ =~= game.valid_moves@);
        }
        let turn_text: &'static str = if waiting {
            "wait"
        } else {
            game.turn.text()
        };
        Packet {
            board,
            moves,
            turn: String::from_str(turn_text),
            black_occupied: occupancy[0],
            white_occupied: occupancy[1],
            black_score: game.black_score,
            white_score: game.white_score,
            black_time: (if waiting {
                timers[2].time(now)
            } else {
                timers[0].time(now)
            }) / 1000,
            white_time: (if waiting {
                timers[2].time(now)
            } else {
                timers[1].time(now)
            }) / 1000,
        }
    }
}

/// The messages a match accepts, from players, spectators, the scheduler and
/// the external player alike.
pub enum Message {
    Join(Stone),
    Leave(Stone),
    Expire,
    Handicap(Stone, Vec<usize>),
    Play(Stone, usize),
    Pass(Stone),
    Resign(Stone),
    Ping,
    Packet,
    Query,
}

/// What one message asks the surroundings to do.  A `schedule` replaces the
/// standing delayed message: cancel it, then deliver `Resign(stone)` after
/// the given duration.  When `ended` turns true the caller tears the match
/// down: cancel the delayed message and tell the external player to quit.
pub struct Effects {
    pub joined: Option<bool>,
    pub broadcast: Option<Packet>,
    pub reply: Option<Packet>,
    pub settings: Option<Settings>,
    pub schedule: Option<(Stone, u64)>,
    pub engine: Vec<engine::Message>,
    pub ended: bool,
}

/// The fields of a match-creation request, as a transport layer delivers
/// them: clock settings in seconds, and for each seat the word "bot" when an
/// automated player should fill it.
pub struct CreateGameForm {
    pub board_size: usize,
    pub komi: u32,
    pub handicap: u32,
    pub fixed_time: u64,
    pub added_time: u64,
    pub black_player: String,
    pub white_player: String,
}

/// Whether a creation request is acceptable: at most an hour on the clock,
/// at most a minute of increment, and at least one seat for a human.
pub fn creation_allowed(fixed_time: u64, added_time: u64, black_bot: bool, white_bot: bool) -> (r:
    bool)
    ensures
        r == (fixed_time <= 3600 && added_time <= 60 && !(black_bot && white_bot)),
{
    fixed_time <= 3600 && added_time <= 60 && !(black_bot && white_bot)
}

/// One match: the game, the clocks for Black, White and the lobby, seat
/// occupancy, which seats an automated player holds, and the clock settings
/// in milliseconds.
pub struct Session {
    pub game: Game,
    pub timers: [Timer; 3],
    pub players: [bool; 2],
    pub bots: [bool; 2],
    pub fixed_time: u64,
    pub added_time: u64,
}

impl Session {
    pub open spec fn wf(self) -> bool {
        self.game.wf()
    }

    /// Every running clock was marked at or before `now`.
    pub open spec fn marked_by(self, now: u64) -> bool {
        forall|i: int| 0 <= i < 3 ==> (#[trigger] self.timers@[i]).marked_by(now)
    }

    /// Crediting an increment cannot overflow any clock.
    pub open spec fn headroom(self) -> bool {
        forall|i: int| 0 <= i < 3 ==> (#[trigger] self.timers@[i]).time + self.added_time
            <= u64::MAX
    }

    /// Everything but the game, the clocks and the seats is as before.
    pub open spec fn same_config(pre: Session, post: Session) -> bool {
        &&& post.bots == pre.bots
        &&& post.fixed_time == pre.fixed_time
        &&& post.added_time == pre.added_time
    }

    /// A fresh match at instant `now`: automated players already hold their
    /// seats, both player clocks stand ready with the fixed time, and the
    /// lobby clock is running.  The caller arms the lobby expiry separately.
    pub fn new(game: Game, bots: [bool; 2], fixed_time: u64, added_time: u64, now: u64) -> (s:
        Session)
        ensures
            s.game == game,
            s.bots == bots,
            s.players == bots,
            s.fixed_time == fixed_time,
            s.added_time == added_time,
            s.timers@[0] == (Timer { time: fixed_time, mark: now, running: false }),
            s.timers@[1] == (Timer { time: fixed_time, mark: now, running: false }),
            s.timers@[2] == (Timer { time: LOBBY_TIMEOUT_MS, mark: now, running: true }),
            s.marked_by(now),
    {
        let s = Session {
            game,
            timers: [
                Timer::new(fixed_time, false, now),
                Timer::new(fixed_time, false, now),
                Timer::new(LOBBY_TIMEOUT_MS, true, now),
            ],
            players: bots,
            bots,
            fixed_time,
            added_time,
        };
        s
    }
}

/// The clock handover after a completed action by the side with clock
/// `mover`: its clock pauses and receives the increment, the clock of
/// `other` starts, the lobby clock is untouched.
pub open spec fn clocks_after_move(
    pre: Session,
    post: Session,
    mover: int,
    other: int,
    now: u64,
) -> bool {
    &&& post.timers@[mover] == (Timer {
        time: (pre.timers@[mover].paused(now).time + pre.added_time) as u64,
        ..pre.timers@[mover].paused(now)
    })
    &&& post.timers@[other] == pre.timers@[other].resumed(now)
    &&& post.timers@[2] == pre.timers@[2]
}

/// The effect of a join: the seat fills if it was free, and when the second
/// seat fills while the lobby clock still runs the match starts, with
/// Black's clock running and a forfeit scheduled against it; if Black's seat
/// is automated the external player is asked for a handicap suggestion.
pub open spec fn join_transition(
    pre: Session,
    post: Session,
    fx: Effects,
    stone: Stone,
    now: u64,
) -> bool {
    let ok = (stone == Stone::Black && !pre.players[0]) || (stone == Stone::White
        && !pre.players[1]);
    let black_seated = pre.players[0] || stone == Stone::Black;
    let white_seated = pre.players[1] || stone == Stone::White;
    let starting = ok && black_seated && white_seated && pre.timers[2].running;
    &&& fx.joined == Some(ok)
    &&& fx.reply is None
    &&& fx.settings is None
    &&& post.game == pre.game
    &&& Session::same_config(pre, post)
    &&& (if ok {
        post.players[0] == black_seated && post.players[1] == white_seated
    } else {
        post.players == pre.players
    })
    &&& (if starting {
        &&& post.timers@[0] == pre.timers@[0].resumed(now)
        &&& post.timers@[1] == pre.timers@[1]
        &&& post.timers@[2] == pre.timers@[2].paused(now)
        &&& fx.schedule == Some((Stone::Black, pre.timers@[0].spec_time(now)))
        &&& (if pre.bots[0] {
            fx.engine@ == seq![engine::Message::Handicap(pre.game.handicap)]
        } else {
            fx.engine@ == Seq::<engine::Message>::empty()
        })
    } else {
        &&& post.timers == pre.timers
        &&& fx.schedule is None
        &&& fx.engine@ == Seq::<engine::Message>::empty()
    })
    &&& (fx.broadcast is Some) == ok
    &&& (fx.broadcast matches Some(p) ==> packet_matches(p, post.game, post.timers, post.players, now))
}

/// The effect of a completed move or pass by `stone`: the game has already
/// changed, the clocks hand over, a forfeit is scheduled against the side
/// now on the clock, everyone hears the new state, and an automated opponent
/// is told what happened and asked to answer.
pub open spec fn turn_effects(
    pre: Session,
    post: Session,
    fx: Effects,
    stone: Stone,
    moved: Option<u32>,
    now: u64,
) -> bool {
    let mover: int = if stone == Stone::Black {
        0
    } else {
        1
    };
    let other: int = 1 - mover;
    let next_stone = if stone == Stone::Black {
        Stone::White
    } else {
        Stone::Black
    };
    &&& clocks_after_move(pre, post, mover, other, now)
    &&& post.players == pre.players
    &&& Session::same_config(pre, post)
    &&& fx.schedule == Some((next_stone, post.timers@[other].spec_time(now)))
    &&& fx.joined is None
    &&& fx.reply is None
    &&& fx.settings is None
    &&& (fx.broadcast matches Some(p) ==> packet_matches(p, post.game, post.timers, post.players, now))
    &&& fx.broadcast is Some
    &&& (if pre.bots[other] {
        match moved {
            Some(position) => fx.engine@ == seq![
                engine::Message::Play(stone, position),
                engine::Message::Genmove,
            ],
            None => fx.engine@ == seq![engine::Message::Genmove],
        }
    } else {
        fx.engine@ == Seq::<engine::Message>::empty()
    })
}

/// Nothing is asked of the surroundings.
pub open spec fn no_effects(fx: Effects) -> bool {
    &&& fx.joined is None
    &&& fx.broadcast is None
    &&& fx.reply is None
    &&& fx.settings is None
    &&& fx.schedule is None
    &&& fx.engine@ == Seq::<engine::Message>::empty()
}

/// A vacated seat: occupancy clears for that colour, everyone hears the new
/// state, and the match keeps running so the seat can be rejoined.
pub open spec fn leave_transition(
    pre: Session,
    post: Session,
    fx: Effects,
    stone: Stone,
    now: u64,
) -> bool {
    &&& post.game == pre.game
    &&& post.timers == pre.timers
    &&& Session::same_config(pre, post)
    &&& post.players[0] == (pre.players[0] && stone != Stone::Black)
    &&& post.players[1] == (pre.players[1] && stone != Stone::White)
    &&& fx.joined is None
    &&& fx.reply is None
    &&& fx.settings is None
    &&& fx.schedule is None
    &&& fx.engine@ == Seq::<engine::Message>::empty()
    &&& fx.broadcast is Some
    &&& (fx.broadcast matches Some(p) ==> packet_matches(p, post.game, post.timers, post.players, now))
}

/// The lobby clock ran out before both seats filled: the game is forced to
/// its end and everyone hears it.
pub open spec fn expire_transition(pre: Session, post: Session, fx: Effects, now: u64) -> bool {
    &&& post == (Session { game: Game { turn: Turn::End, ..pre.game }, ..pre })
    &&& fx.joined is None
    &&& fx.reply is None
    &&& fx.settings is None
    &&& fx.schedule is None
    &&& fx.engine@ == Seq::<engine::Message>::empty()
    &&& fx.broadcast is Some
    &&& (fx.broadcast matches Some(p) ==> packet_matches(p, post.game, post.timers, post.players, now))
}

/// The effects of a completed handicap placement: Black's clock pauses with
/// its increment, White's clock starts with a forfeit scheduled against it,
/// everyone hears the new state, and an automated White is shown each stone
/// and asked to answer.
pub open spec fn handicap_effects(
    pre: Session,
    post: Session,
    fx: Effects,
    stone: Stone,
    positions: Seq<usize>,
    now: u64,
) -> bool {
    &&& clocks_after_move(pre, post, 0, 1, now)
    &&& post.players == pre.players
    &&& Session::same_config(pre, post)
    &&& fx.schedule == Some((Stone::White, post.timers@[1].spec_time(now)))
    &&& fx.joined is None
    &&& fx.reply is None
    &&& fx.settings is None
    &&& fx.broadcast is Some
    &&& (fx.broadcast matches Some(p) ==> packet_matches(p, post.game, post.timers, post.players, now))
    &&& (if pre.bots[1] {
        fx.engine@ == positions.map_values(
            |p: usize| engine::Message::Play(stone, p as u32),
        ).push(engine::Message::Genmove)
    } else {
        fx.engine@ == Seq::<engine::Message>::empty()
    })
}

/// The effects of a completed resignation: nothing moves but the broadcast;
/// the caller sees `ended` and tears the match down.
pub open spec fn resign_effects(pre: Session, post: Session, fx: Effects, now: u64) -> bool {
    &&& post.timers == pre.timers
    &&& post.players == pre.players
    &&& Session::same_config(pre, post)
    &&& fx.joined is None
    &&& fx.reply is None
    &&& fx.settings is None
    &&& fx.schedule is None
    &&& fx.engine@ == Seq::<engine::Message>::empty()
    &&& fx.broadcast is Some
    &&& (fx.broadcast matches Some(p) ==> packet_matches(p, post.game, post.timers, post.players, now))
}

/// The settings a match reports: its game parameters and the clock settings
/// scaled back to seconds.
pub open spec fn settings_of(s: Session) -> Settings {
    Settings {
        board_size: s.game.board_size as u32,
        komi: s.game.komi,
        handicap: s.game.handicap,
        fixed_time: (s.fixed_time / 1000) as u32,
        added_time: (s.added_time / 1000) as u32,
    }
}

impl Effects {
    /// An effects record asking nothing.
    fn none() -> (fx: Effects)
        ensures
            no_effects(fx),
            !fx.ended,
    {
        Effects {
            joined: None,
            broadcast: None,
            reply: None,
            settings: None,
            schedule: None,
            engine: Vec::new(),
            ended: false,
        }
    }
}

impl Session {
    /// Applies one inbound message at instant `now`: mutates the game, the
    /// clocks and the occupancy exactly as the message demands, and returns
    /// what the surroundings must do.  A rejected game action changes
    /// nothing and asks nothing.
    #[verifier::loop_isolation(false)]
    #[verifier::rlimit(100)]
    pub fn handle(&mut self, msg: Message, now: u64) -> (fx: Effects)
        requires
            old(self).wf(),
            old(self).marked_by(now),
            old(self).headroom(),
        ensures
            final(self).wf(),
            final(self).marked_by(now),
            Session::same_config(*old(self), *final(self)),
            fx.ended == (final(self).game.turn == Turn::End),
            (msg matches Message::Join(stone) ==> join_transition(
                *old(self),
                *final(self),
                fx,
                stone,
                now,
            )),
            (msg matches Message::Leave(stone) ==> leave_transition(
                *old(self),
                *final(self),
                fx,
                stone,
                now,
            )),
            (msg == Message::Expire ==> expire_transition(*old(self), *final(self), fx, now)),
            (msg matches Message::Handicap(stone, positions) ==> (if old(
                self,
            ).game.handicap_acceptable(stone, positions@) {
                &&& Game::handicap_rel(old(self).game, final(self).game, positions@)
                &&& handicap_effects(*old(self), *final(self), fx, stone, positions@, now)
            } else {
                *final(self) == *old(self) && no_effects(fx)
            })),
            (msg matches Message::Play(stone, position) ==> (if old(self).game.play_acceptable(
                stone,
                position,
            ) {
                &&& Game::play_rel(old(self).game, final(self).game, stone, position)
                &&& turn_effects(*old(self), *final(self), fx, stone, Some(position as u32), now)
            } else {
                *final(self) == *old(self) && no_effects(fx)
            })),
            (msg matches Message::Pass(stone) ==> (if old(self).game.side_to_move(stone) {
                &&& final(self).game == old(self).game.pass_result(stone)
                &&& turn_effects(*old(self), *final(self), fx, stone, None::<u32>, now)
            } else {
                *final(self) == *old(self) && no_effects(fx)
            })),
            (msg matches Message::Resign(stone) ==> (if old(self).game.side_to_move(stone) {
                &&& Game::resign_rel(old(self).game, final(self).game, stone)
                &&& resign_effects(*old(self), *final(self), fx, now)
            } else {
                *final(self) == *old(self) && no_effects(fx)
            })),
            (msg == Message::Ping ==> *final(self) == *old(self) && fx.broadcast is Some && (
            fx.broadcast matches Some(p) ==> packet_matches(
                p,
                final(self).game,
                final(self).timers,
                final(self).players,
                now,
            )) && fx.joined is None && fx.reply is None && fx.settings is None && fx.schedule
                is None && fx.engine@ == Seq::<engine::Message>::empty()),
            (msg == Message::Packet ==> *final(self) == *old(self) && fx.reply is Some && (
            fx.reply matches Some(p) ==> packet_matches(
                p,
                final(self).game,
                final(self).timers,
                final(self).players,
                now,
            )) && fx.joined is None && fx.broadcast is None && fx.settings is None && fx.schedule
                is None && fx.engine@ == Seq::<engine::Message>::empty()),
            (msg == Message::Query ==> *final(self) == *old(self) && fx.settings == Some(
                settings_of(*old(self)),
            ) && fx.joined is None && fx.broadcast is None && fx.reply is None && fx.schedule
                is None && fx.engine@ == Seq::<engine::Message>::empty()),
    {
        let mut fx = Effects::none();
        match msg {
            Message::Join(stone) => {
                let success = match stone {
                    Stone::Black => if !self.players[0] {
                        self.players[0] = true;
                        true
                    } else {
                        false
                    },
                    Stone::White => if !self.players[1] {
                        self.players[1] = true;
                        true
                    } else {
                        false
                    },
                    Stone::Empty => false,
                };
                if success {
                    if self.players[0] && self.players[1] && self.timers[2].running() {
                        let mut lobby = self.timers[2];
                        lobby.pause(now);
                        self.timers[2] = lobby;
                        let duration = self.timers[0].time(now);
                        let mut black = self.timers[0];
                        black.resume(now);
                        self.timers[0] = black;
                        fx.schedule = Some((Stone::Black, duration));
                        if self.bots[0] {
                            fx.engine.push(engine::Message::Handicap(self.game.handicap));
                        }
                    }
                    fx.broadcast = Some(
                        Packet::new(&self.game, &self.timers, &self.players, now),
                    );
                }
                fx.joined = Some(success);
            },
            Message::Leave(stone) => {
                match stone {
                    Stone::Black => self.players[0] = false,
                    Stone::White => self.players[1] = false,
                    Stone::Empty => (),
                }
                fx.broadcast = Some(Packet::new(&self.game, &self.timers, &self.players, now));
            },
            Message::Expire => {
                self.game.turn = Turn::End;
                fx.broadcast = Some(Packet::new(&self.game, &self.timers, &self.players, now));
            },
            Message::Handicap(stone, positions) => {
                let outcome = self.game.play_handicap(stone, positions.as_slice());
                if outcome.is_ok() {
                    let mut black = self.timers[0];
                    black.pause(now);
                    black.add(self.added_time);
                    self.timers[0] = black;
                    let duration = self.timers[1].time(now);
                    let mut white = self.timers[1];
                    white.resume(now);
                    self.timers[1] = white;
                    fx.schedule = Some((Stone::White, duration));
                    fx.broadcast = Some(
                        Packet::new(&self.game, &self.timers, &self.players, now),
                    );
                    if self.bots[1] {
                        proof {
                            assert(self.game.board@.len() <= 361) by (nonlinear_arith)
                                requires
                                    self.game.wf(),
                                    self.game.board@.len() == self.game.board_size
                                        * self.game.board_size,
                                    self.game.board_size <= 19,
                            ;
                        }
                        let mut cmds = Vec::<engine::Message>::new();
                        let mut i: usize = 0;
                        while i < positions.len()
                            invariant
                                i <= positions@.len(),
                                cmds@.len() == i,
                                forall|j: int|
                                    0 <= j < i ==> cmds@[j] == engine::Message::Play(
                                        stone,
                                        #[trigger] positions@[j] as u32,
                                    ),
                            decreases positions@.len() - i,
                        {
                            let p = positions[i];
                            cmds.push(engine::Message::Play(stone, p as u32));
                            i += 1;
                        }
                        cmds.push(engine::Message::Genmove);
                        proof {
                            assert(cmds@ =~= positions@.map_values(
                                |p: usize| engine::Message::Play(stone, p as u32),
                            ).push(engine::Message::Genmove));
                        }
                        fx.engine = cmds;
                    }
                }
            },
            Message::Play(stone, position) => {
                let outcome = self.game.play(stone, position);
                if outcome.is_ok() {
                    let mover: usize = if matches!(stone, Stone::Black) {
                        0
                    } else {
                        1
                    };
                    let other: usize = 1 - mover;
                    let mut mover_clock = self.timers[mover];
                    mover_clock.pause(now);
                    mover_clock.add(self.added_time);
                    self.timers[mover] = mover_clock;
                    let mut other_clock = self.timers[other];
                    other_clock.resume(now);
                    self.timers[other] = other_clock;
                    let duration = self.timers[other].time(now);
                    let next_stone = if matches!(stone, Stone::Black) {
                        Stone::White
                    } else {
                        Stone::Black
                    };
                    fx.schedule = Some((next_stone, duration));
                    fx.broadcast = Some(
                        Packet::new(&self.game, &self.timers, &self.players, now),
                    );
                    if self.bots[other] {
                        proof {
                            let ghost pre_game = old(self).game;
                            assert(pre_game.board@.len() <= 361) by (nonlinear_arith)
                                requires
                                    pre_game.board@.len() == pre_game.board_size
                                        * pre_game.board_size,
                                    pre_game.board_size <= 19,
                            ;
                        }
                        fx.engine.push(engine::Message::Play(stone, position as u32));
                        fx.engine.push(engine::Message::Genmove);
                        proof {
                            assert(fx.engine@ =~= seq![
                                engine::Message::Play(stone, position as u32),
                                engine::Message::Genmove,
                            ]);
                        }
                    }
                }
            },
            Message::Pass(stone) => {
                let outcome = self.game.pass(stone);
                if outcome.is_ok() {
                    let mover: usize = if matches!(stone, Stone::Black) {
                        0
                    } else {
                        1
                    };
                    let other: usize = 1 - mover;
                    let mut mover_clock = self.timers[mover];
                    mover_clock.pause(now);
                    mover_clock.add(self.added_time);
                    self.timers[mover] = mover_clock;
                    let mut other_clock = self.timers[other];
                    other_clock.resume(now);
                    self.timers[other] = other_clock;
                    let duration = self.timers[other].time(now);
                    let next_stone = if matches!(stone, Stone::Black) {
                        Stone::White
                    } else {
                        Stone::Black
                    };
                    fx.schedule = Some((next_stone, duration));
                    fx.broadcast = Some(
                        Packet::new(&self.game, &self.timers, &self.players, now),
                    );
                    if self.bots[other] {
                        fx.engine.push(engine::Message::Genmove);
                        proof {
                            assert(fx.engine@ =~= seq![engine::Message::Genmove]);
                        }
                    }
                }
            },
            Message::Resign(stone) => {
                let outcome = self.game.resign(stone);
                if outcome.is_ok() {
                    fx.broadcast = Some(
                        Packet::new(&self.game, &self.timers, &self.players, now),
                    );
                }
            },
            Message::Ping => {
                fx.broadcast = Some(Packet::new(&self.game, &self.timers, &self.players, now));
            },
            Message::Packet => {
                fx.reply = Some(Packet::new(&self.game, &self.timers, &self.players, now));
            },
            Message::Query => {
                fx.settings = Some(
                    Settings {
                        board_size: self.game.board_size as u32,
                        komi: self.game.komi,
                        handicap: self.game.handicap,
                        fixed_time: #[verifier::truncate] ((self.fixed_time / 1000) as u32),
                        added_time: #[verifier::truncate] ((self.added_time / 1000) as u32),
                    },
                );
            },
        }
        fx.ended = matches!(self.game.turn, Turn::End);
        fx
    }
}

} // verus!
