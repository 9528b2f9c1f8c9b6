use casual_go::engine::{
    boardsize_line, command_line, index_to_vertex, komi_line, parse_reply, u32_text,
    vertex_to_index, Message,
};
use casual_go::model::Stone;
use casual_go::session;

#[test]
fn test_index_to_vertex() {
    //Corners
    assert_eq!(index_to_vertex(0, 19), "A19");
    assert_eq!(index_to_vertex(18, 19), "T19");
    assert_eq!(index_to_vertex(342, 19), "A1");
    assert_eq!(index_to_vertex(360, 19), "T1");
    //Edges
    assert_eq!(index_to_vertex(8, 19), "J19");
    //Center
    assert_eq!(index_to_vertex(180, 19), "K10");
}

#[test]
fn test_vertex_to_index() {
    //Corners
    assert_eq!(vertex_to_index("A19", 19), Some(0));
    assert_eq!(vertex_to_index("T19", 19), Some(18));
    assert_eq!(vertex_to_index("A1", 19), Some(342));
    assert_eq!(vertex_to_index("T1", 19), Some(360));
    //Center
    assert_eq!(vertex_to_index("K10", 19), Some(180));
}

#[test]
fn test_vertex_round_trip_on_common_boards() {
    for n in [9u32, 13, 19] {
        for index in 0..n * n {
            let vertex = index_to_vertex(index, n);
            assert!(!vertex.contains('I'));
            assert_eq!(vertex_to_index(&vertex, n), Some(index));
        }
    }
}

#[test]
fn test_vertex_rejections() {
    // the skipped letter
    assert_eq!(vertex_to_index("I5", 19), None);
    // rows off the board
    assert_eq!(vertex_to_index("A0", 9), None);
    assert_eq!(vertex_to_index("A10", 9), None);
    assert_eq!(vertex_to_index("A99999999999999999999", 19), None);
    // columns off the board
    assert_eq!(vertex_to_index("T5", 9), None);
    // malformed
    assert_eq!(vertex_to_index("A", 19), None);
    assert_eq!(vertex_to_index("5A", 19), None);
    assert_eq!(vertex_to_index("AB", 19), None);
    assert_eq!(vertex_to_index("", 19), None);
    // lower case is accepted
    assert_eq!(vertex_to_index("k10", 19), Some(180));
}

#[test]
fn test_u32_text() {
    assert_eq!(u32_text(0), "0");
    assert_eq!(u32_text(7), "7");
    assert_eq!(u32_text(19), "19");
    assert_eq!(u32_text(12345), "12345");
}

#[test]
fn test_command_lines() {
    assert_eq!(
        command_line(&Message::Play(Stone::Black, 60), Stone::White, 19),
        "play black D16"
    );
    assert_eq!(command_line(&Message::Genmove, Stone::White, 19), "genmove white");
    assert_eq!(command_line(&Message::Handicap(4), Stone::Black, 19), "place_free_handicap 4");
    assert_eq!(command_line(&Message::Quit, Stone::Black, 19), "quit");
    assert_eq!(boardsize_line(19), "boardsize 19");
    assert_eq!(komi_line(7), "komi 7");
}

#[test]
fn test_parse_reply_moves() {
    let reply = parse_reply("= D16", Stone::White, 19);
    assert!(matches!(reply, Some(session::Message::Play(Stone::White, 60))));
    let reply = parse_reply("= pass", Stone::Black, 19);
    assert!(matches!(reply, Some(session::Message::Pass(Stone::Black))));
    let reply = parse_reply("= RESIGN", Stone::Black, 19);
    assert!(matches!(reply, Some(session::Message::Resign(Stone::Black))));
    // an unreadable vertex is a resignation, not a dropped line
    let reply = parse_reply("= xyz9", Stone::White, 19);
    assert!(matches!(reply, Some(session::Message::Resign(Stone::White))));
}

#[test]
fn test_parse_reply_handicap_list() {
    let reply = parse_reply("= A19 T19 K10", Stone::Black, 19);
    match reply {
        Some(session::Message::Handicap(stone, positions)) => {
            assert!(stone == Stone::Black);
            assert_eq!(positions, vec![0, 18, 180]);
        },
        _ => panic!("expected a handicap suggestion"),
    }
}

#[test]
fn test_parse_reply_ignores_short_or_broken_lines() {
    assert!(parse_reply("", Stone::Black, 19).is_none());
    assert!(parse_reply("=", Stone::Black, 19).is_none());
    assert!(parse_reply("= A1 B2 zz", Stone::Black, 19).is_none());
}
