use junqi::protocol::{decode_client, decode_server, encode_client, encode_server, ClientCommand, ServerMessage};
use junqi::types::{Camp, GameSnapshot, PieceState, Rank};

fn same_command(a: Option<ClientCommand>, b: Option<ClientCommand>) -> bool {
    format!("{a:?}") == format!("{b:?}")
}

fn piece(id: u32, camp: Camp, rank: Rank, revealed: bool, alive: bool, row: usize, col: usize) -> PieceState {
    PieceState { id, camp, rank, revealed, alive, row, col }
}

#[test]
fn client_lines() {
    assert_eq!(encode_client(&ClientCommand::Hello), "HELLO\n");
    assert_eq!(encode_client(&ClientCommand::Reveal { row: 3, col: 4 }), "REVEAL 3 4\n");
    assert_eq!(
        encode_client(&ClientCommand::Move { from: (10, 0), to: (9, 0) }),
        "MOVE 10 0 9 0\n"
    );
}

#[test]
fn client_line_reading() {
    assert!(same_command(decode_client("HELLO"), Some(ClientCommand::Hello)));
    assert!(same_command(decode_client("HELLO extra words"), Some(ClientCommand::Hello)));
    assert!(same_command(
        decode_client("  REVEAL   3\t4  extra\n"),
        Some(ClientCommand::Reveal { row: 3, col: 4 })
    ));
    assert!(same_command(
        decode_client("REVEAL\u{3000}1 2"),
        Some(ClientCommand::Reveal { row: 1, col: 2 })
    ));
    assert!(same_command(
        decode_client("REVEAL +5 06"),
        Some(ClientCommand::Reveal { row: 5, col: 6 })
    ));
    assert!(same_command(
        decode_client("MOVE 1 2 3 4"),
        Some(ClientCommand::Move { from: (1, 2), to: (3, 4) })
    ));
    assert!(decode_client("REVEAL 3").is_none());
    assert!(decode_client("REVEAL -5 6").is_none());
    assert!(decode_client("REVEAL + 6").is_none());
    assert!(decode_client("REVEAL 99999999999999999999999 1").is_none());
    assert!(decode_client("MOVE 1 2 3 x").is_none());
    assert!(decode_client("MOVE 1 2 3").is_none());
    assert!(decode_client("").is_none());
    assert!(decode_client("   ").is_none());
    assert!(decode_client("hello").is_none());
}

#[test]
fn client_round_trip() {
    let commands = [
        ClientCommand::Hello,
        ClientCommand::Reveal { row: 0, col: 0 },
        ClientCommand::Reveal { row: 11, col: 4 },
        ClientCommand::Move { from: (1, 2), to: (3, 4) },
        ClientCommand::Move { from: (usize::MAX, 7), to: (1234567, usize::MAX) },
    ];
    for command in commands {
        let line = encode_client(&command);
        assert!(same_command(decode_client(&line), Some(command)));
        assert!(same_command(decode_client(line.trim_end_matches('\n')), Some(command)));
    }
}

#[test]
fn server_lines() {
    assert_eq!(encode_server(&ServerMessage::Welcome { camp: Camp::Red }), "WELCOME R\n");
    let snapshot = GameSnapshot {
        turn: Camp::Blue,
        pieces: vec![
            piece(0, Camp::Red, Rank::Flag, true, true, 0, 0),
            piece(1, Camp::Blue, Rank::Unknown, false, true, 11, 4),
        ],
    };
    assert_eq!(
        encode_server(&ServerMessage::Snapshot(snapshot)),
        "SNAPSHOT B 0,R,F,1,1,0,0;1,B,U,0,1,11,4\n"
    );
    assert_eq!(
        encode_server(&ServerMessage::Snapshot(GameSnapshot::default())),
        "SNAPSHOT R \n"
    );
    assert_eq!(encode_server(&ServerMessage::Error("a\nb".to_string())), "ERROR a b\n");
    assert_eq!(encode_server(&ServerMessage::Event("刚才".to_string())), "EVENT 刚才\n");
}

fn describe(message: &Option<ServerMessage>) -> String {
    format!("{message:?}")
}

#[test]
fn server_line_reading() {
    match decode_server("WELCOME  B \r\n") {
        Some(ServerMessage::Welcome { camp }) => assert_eq!(camp, Camp::Blue),
        other => panic!("{}", describe(&other)),
    }
    match decode_server("SNAPSHOT R 0,R,F,1,1,0,0;bad;1,B,U,2,1,11,4,extra") {
        Some(ServerMessage::Snapshot(s)) => {
            assert_eq!(s.turn, Camp::Red);
            assert_eq!(
                s.pieces,
                vec![
                    piece(0, Camp::Red, Rank::Flag, true, true, 0, 0),
                    piece(1, Camp::Blue, Rank::Unknown, false, true, 11, 4),
                ]
            );
        }
        other => panic!("{}", describe(&other)),
    }
    match decode_server("SNAPSHOT B") {
        Some(ServerMessage::Snapshot(s)) => {
            assert_eq!(s.turn, Camp::Blue);
            assert!(s.pieces.is_empty());
        }
        other => panic!("{}", describe(&other)),
    }
    assert!(decode_server("SNAPSHOT X 0,R,F,1,1,0,0").is_none());
    assert!(decode_server("WELCOME Q").is_none());
    assert!(decode_server("NOPE x").is_none());
    assert!(decode_server("").is_none());
    match decode_server("ERROR  spaced  ") {
        Some(ServerMessage::Error(t)) => assert_eq!(t, " spaced"),
        other => panic!("{}", describe(&other)),
    }
    match decode_server("EVENT") {
        Some(ServerMessage::Event(t)) => assert_eq!(t, ""),
        other => panic!("{}", describe(&other)),
    }
    match decode_server("SNAPSHOT R 4294967296,R,F,1,1,0,0") {
        Some(ServerMessage::Snapshot(s)) => assert!(s.pieces.is_empty()),
        other => panic!("{}", describe(&other)),
    }
}

#[test]
fn server_round_trip() {
    let snapshot = GameSnapshot {
        turn: Camp::Red,
        pieces: vec![
            piece(u32::MAX, Camp::Blue, Rank::Commander, true, false, 3, 2),
            piece(7, Camp::Red, Rank::Mine, false, true, 9, 1),
            piece(8, Camp::Red, Rank::Unknown, false, true, usize::MAX, 0),
        ],
    };
    let encoded = encode_server(&ServerMessage::Snapshot(snapshot.clone()));
    match decode_server(&encoded) {
        Some(ServerMessage::Snapshot(s)) => {
            assert_eq!(s.turn, snapshot.turn);
            assert_eq!(s.pieces, snapshot.pieces);
        }
        other => panic!("{}", describe(&other)),
    }
    for camp in [Camp::Red, Camp::Blue] {
        match decode_server(&encode_server(&ServerMessage::Welcome { camp })) {
            Some(ServerMessage::Welcome { camp: c }) => assert_eq!(c, camp),
            other => panic!("{}", describe(&other)),
        }
    }
    match decode_server(&encode_server(&ServerMessage::Error("不符合 移动规则".to_string()))) {
        Some(ServerMessage::Error(t)) => assert_eq!(t, "不符合 移动规则"),
        other => panic!("{}", describe(&other)),
    }
}

#[test]
fn server_text_settles_on_the_wire() {
    match decode_server(&encode_server(&ServerMessage::Event("line one\nline two \n".to_string()))) {
        Some(ServerMessage::Event(t)) => assert_eq!(t, "line one line two"),
        other => panic!("{}", describe(&other)),
    }
    match decode_server(&encode_server(&ServerMessage::Error(" \n".to_string()))) {
        Some(ServerMessage::Error(t)) => assert_eq!(t, ""),
        other => panic!("{}", describe(&other)),
    }
}
