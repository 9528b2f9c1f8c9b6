use casual_go::engine;
use casual_go::json::JsonVal;
use casual_go::json::parse_message;
use casual_go::model::{Game, Stone, Turn};
use casual_go::session::{creation_allowed, Message, Packet, Session, LOBBY_TIMEOUT_MS};

fn fresh_session(bots: [bool; 2]) -> Session {
    let game = Game::new(9, 5, 1).unwrap();
    Session::new(game, bots, 600_000, 5_000, 0)
}

#[test]
fn test_creation_allowed() {
    assert!(creation_allowed(3600, 60, false, true));
    assert!(!creation_allowed(3601, 60, false, false));
    assert!(!creation_allowed(3600, 61, false, false));
    assert!(!creation_allowed(600, 5, true, true));
}

#[test]
fn test_join_fills_seats_and_starts_the_match() {
    let mut session = fresh_session([false, false]);
    let fx = session.handle(Message::Join(Stone::Black), 1_000);
    assert_eq!(fx.joined, Some(true));
    assert!(fx.broadcast.is_some());
    assert!(fx.schedule.is_none());
    assert!(!fx.ended);
    // the lobby clock still runs, so the snapshot says "wait"
    assert_eq!(fx.broadcast.unwrap().turn, "wait");
    // a second black join is refused and nothing is broadcast
    let fx = session.handle(Message::Join(Stone::Black), 2_000);
    assert_eq!(fx.joined, Some(false));
    assert!(fx.broadcast.is_none());
    // White joins: the match starts and Black is put on the clock
    let fx = session.handle(Message::Join(Stone::White), 3_000);
    assert_eq!(fx.joined, Some(true));
    assert_eq!(fx.schedule, Some((Stone::Black, 600_000)));
    let packet = fx.broadcast.unwrap();
    assert_eq!(packet.turn, "black");
    assert!(packet.black_occupied && packet.white_occupied);
    assert_eq!(packet.black_time, 600);
    assert_eq!(packet.white_time, 600);
}

#[test]
fn test_join_with_automated_black_requests_handicap() {
    let mut session = fresh_session([true, false]);
    // Black's seat is already held by the automated player
    let fx = session.handle(Message::Join(Stone::Black), 0);
    assert_eq!(fx.joined, Some(false));
    let fx = session.handle(Message::Join(Stone::White), 0);
    assert_eq!(fx.joined, Some(true));
    assert_eq!(fx.engine, vec![engine::Message::Handicap(1)]);
}

#[test]
fn test_play_hands_the_clock_over() {
    let mut session = fresh_session([false, false]);
    session.handle(Message::Join(Stone::Black), 0);
    session.handle(Message::Join(Stone::White), 0);
    // Black plays at ten seconds in: Black banks 590s plus the increment
    let fx = session.handle(Message::Play(Stone::Black, 40), 10_000);
    assert_eq!(fx.schedule, Some((Stone::White, 600_000)));
    let packet = fx.broadcast.unwrap();
    assert_eq!(packet.turn, "white");
    assert_eq!(packet.black_time, 595);
    assert_eq!(packet.white_time, 600);
    assert!(fx.engine.is_empty());
    assert!(!fx.ended);
    // a move out of turn changes nothing and is not broadcast
    let fx = session.handle(Message::Play(Stone::Black, 41), 11_000);
    assert!(fx.broadcast.is_none());
    assert!(fx.schedule.is_none());
}

#[test]
fn test_play_against_automated_white_forwards_the_move() {
    let mut session = fresh_session([false, true]);
    session.handle(Message::Join(Stone::Black), 0);
    let fx = session.handle(Message::Play(Stone::Black, 40), 1_000);
    assert_eq!(
        fx.engine,
        vec![engine::Message::Play(Stone::Black, 40), engine::Message::Genmove]
    );
}

#[test]
fn test_pass_pass_ends_the_session() {
    let mut session = fresh_session([false, false]);
    session.handle(Message::Join(Stone::Black), 0);
    session.handle(Message::Join(Stone::White), 0);
    let fx = session.handle(Message::Pass(Stone::Black), 1_000);
    assert!(!fx.ended);
    let fx = session.handle(Message::Pass(Stone::White), 2_000);
    assert!(fx.ended);
    assert_eq!(fx.broadcast.unwrap().turn, "end");
}

#[test]
fn test_resign_ends_the_session() {
    let mut session = fresh_session([false, false]);
    session.handle(Message::Join(Stone::Black), 0);
    session.handle(Message::Join(Stone::White), 0);
    let fx = session.handle(Message::Resign(Stone::Black), 1_000);
    assert!(fx.ended);
    let packet = fx.broadcast.unwrap();
    assert_eq!(packet.black_score, 0);
    assert_eq!(packet.white_score, 81);
}

#[test]
fn test_expire_ends_the_lobby() {
    let mut session = fresh_session([false, false]);
    session.handle(Message::Join(Stone::Black), 0);
    let fx = session.handle(Message::Expire, LOBBY_TIMEOUT_MS);
    assert!(fx.ended);
    // the lobby clock never paused, so the final frame still reads "wait"
    assert_eq!(fx.broadcast.unwrap().turn, "wait");
}

#[test]
fn test_query_reports_settings() {
    let mut session = fresh_session([false, false]);
    let fx = session.handle(Message::Query, 0);
    let settings = fx.settings.unwrap();
    assert_eq!(settings.board_size, 9);
    assert_eq!(settings.komi, 5);
    assert_eq!(settings.handicap, 1);
    assert_eq!(settings.fixed_time, 600);
    assert_eq!(settings.added_time, 5);
    assert!(fx.broadcast.is_none());
}

#[test]
fn test_packet_snapshot() {
    let game = Game::new(5, 0, 1).unwrap();
    let mut session = Session::new(game, [false, false], 60_000, 0, 0);
    let fx = session.handle(Message::Packet, 0);
    let packet = fx.reply.unwrap();
    assert_eq!(packet.board, vec![0u8; 25]);
    assert_eq!(packet.moves, vec![true; 25]);
    assert_eq!(packet.turn, "wait");
    assert!(!packet.black_occupied && !packet.white_occupied);
    assert_eq!(packet.black_time, LOBBY_TIMEOUT_MS / 1000);
}

#[test]
fn test_ping_broadcasts_a_frame() {
    let mut session = fresh_session([false, false]);
    let fx = session.handle(Message::Ping, 0);
    assert!(fx.broadcast.is_some());
    assert!(fx.reply.is_none());
}

fn obj(fields: Vec<(&str, JsonVal)>) -> JsonVal {
    JsonVal::Obj(fields.into_iter().map(|(k, v)| (k.to_string(), v)).collect())
}

#[test]
fn test_parse_message_actions() {
    let play = obj(vec![
        ("action", JsonVal::Str("play".to_string())),
        ("position", JsonVal::Num(7)),
    ]);
    assert!(matches!(
        parse_message(Stone::Black, &play),
        Some(Message::Play(Stone::Black, 7))
    ));
    let pass = obj(vec![("action", JsonVal::Str("pass".to_string()))]);
    assert!(matches!(parse_message(Stone::White, &pass), Some(Message::Pass(Stone::White))));
    let resign = obj(vec![("action", JsonVal::Str("resign".to_string()))]);
    assert!(matches!(
        parse_message(Stone::White, &resign),
        Some(Message::Resign(Stone::White))
    ));
    let handicap = obj(vec![
        ("action", JsonVal::Str("handicap".to_string())),
        ("positions", JsonVal::Arr(vec![JsonVal::Num(1), JsonVal::Num(2), JsonVal::Num(3)])),
    ]);
    match parse_message(Stone::Black, &handicap) {
        Some(Message::Handicap(stone, positions)) => {
            assert!(stone == Stone::Black);
            assert_eq!(positions, vec![1, 2, 3]);
        },
        _ => panic!("expected a handicap message"),
    }
}

#[test]
fn test_parse_message_rejects_bad_shapes() {
    assert!(parse_message(Stone::Black, &JsonVal::Null).is_none());
    assert!(parse_message(Stone::Black, &JsonVal::Str("play".to_string())).is_none());
    let unknown = obj(vec![("action", JsonVal::Str("dance".to_string()))]);
    assert!(parse_message(Stone::Black, &unknown).is_none());
    let no_position = obj(vec![("action", JsonVal::Str("play".to_string()))]);
    assert!(parse_message(Stone::Black, &no_position).is_none());
    let bad_position = obj(vec![
        ("action", JsonVal::Str("play".to_string())),
        ("position", JsonVal::Str("here".to_string())),
    ]);
    assert!(parse_message(Stone::Black, &bad_position).is_none());
    let bad_list = obj(vec![
        ("action", JsonVal::Str("handicap".to_string())),
        ("positions", JsonVal::Arr(vec![JsonVal::Num(1), JsonVal::NumOther])),
    ]);
    assert!(parse_message(Stone::Black, &bad_list).is_none());
}

#[test]
fn test_turn_word_follows_the_game() {
    let mut session = fresh_session([false, false]);
    session.handle(Message::Join(Stone::Black), 0);
    session.handle(Message::Join(Stone::White), 0);
    let fx = session.handle(Message::Packet, 0);
    assert_eq!(fx.reply.unwrap().turn, "black");
    session.handle(Message::Play(Stone::Black, 0), 0);
    let fx = session.handle(Message::Packet, 0);
    assert_eq!(fx.reply.unwrap().turn, "white");
}

#[test]
fn test_handicap_session_flow() {
    let game = Game::new(9, 0, 3).unwrap();
    let mut session = Session::new(game, [false, true], 600_000, 0, 0);
    session.handle(Message::Join(Stone::Black), 0);
    assert!(session.game.turn == Turn::Handicap);
    let fx = session.handle(Message::Handicap(Stone::Black, vec![20, 24, 60]), 1_000);
    assert!(session.game.turn == Turn::White);
    assert_eq!(fx.schedule, Some((Stone::White, 600_000)));
    assert_eq!(
        fx.engine,
        vec![
            engine::Message::Play(Stone::Black, 20),
            engine::Message::Play(Stone::Black, 24),
            engine::Message::Play(Stone::Black, 60),
            engine::Message::Genmove,
        ]
    );
    // a second handicap placement is out of phase and changes nothing
    let fx = session.handle(Message::Handicap(Stone::Black, vec![0]), 2_000);
    assert!(fx.broadcast.is_none());
    assert!(fx.engine.is_empty());
}

#[test]
fn test_leave_keeps_the_match_running() {
    let mut session = fresh_session([false, false]);
    session.handle(Message::Join(Stone::Black), 0);
    session.handle(Message::Join(Stone::White), 0);
    let fx = session.handle(Message::Leave(Stone::White), 1_000);
    assert!(!fx.ended);
    let packet = fx.broadcast.unwrap();
    assert!(packet.black_occupied);
    assert!(!packet.white_occupied);
}
