use junqi::client::{face_camp, face_text, ClientView};
use junqi::protocol::{ClientCommand, ServerMessage};
use junqi::types::{Camp, GameSnapshot, PieceState, Rank};

fn piece(id: u32, camp: Camp, revealed: bool, alive: bool, row: usize, col: usize) -> PieceState {
    PieceState { id, camp, rank: Rank::Unknown, revealed, alive, row, col }
}

fn view() -> ClientView {
    let mut view = ClientView::new("hello".to_string());
    view.apply_message(ServerMessage::Welcome { camp: Camp::Red });
    view.apply_message(ServerMessage::Snapshot(GameSnapshot {
        turn: Camp::Red,
        pieces: vec![
            piece(0, Camp::Red, true, true, 6, 0),
            piece(1, Camp::Blue, false, true, 5, 0),
            piece(2, Camp::Blue, true, false, 5, 1),
            piece(3, Camp::Blue, true, true, 5, 1),
        ],
    }));
    view
}

fn describe(c: &Option<ClientCommand>) -> String {
    format!("{c:?}")
}

#[test]
fn new_view() {
    let v = ClientView::new("已连接".to_string());
    assert!(v.camp.is_none());
    assert!(v.selected.is_none());
    assert!(v.dirty);
    assert_eq!(v.message, "已连接");
    assert_eq!(v.snapshot.turn, Camp::Red);
}

#[test]
fn messages_update_the_view() {
    let mut v = ClientView::new(String::new());
    v.apply_message(ServerMessage::Welcome { camp: Camp::Blue });
    assert_eq!(v.camp, Some(Camp::Blue));
    assert_eq!(v.message, "你是 Blue 方");
    v.dirty = false;
    v.apply_message(ServerMessage::Snapshot(GameSnapshot::default()));
    assert!(v.dirty);
    v.apply_message(ServerMessage::Error("还没轮到你".to_string()));
    assert_eq!(v.message, "还没轮到你");
    v.apply_message(ServerMessage::Event("news".to_string()));
    assert_eq!(v.message, "news");
}

#[test]
fn status_line() {
    let v = ClientView::new("hello".to_string());
    assert_eq!(v.status_text(), "你是 未分配 方 | 当前回合: Red | hello");
    let v = view();
    assert_eq!(v.status_text(), "你是 Red 方 | 当前回合: Red | 你是 Red 方");
}

#[test]
fn click_without_server() {
    let mut v = view();
    assert!(v.click(6, 0, false).is_none());
    assert_eq!(v.message, "未连接服务器");
    assert!(v.selected.is_none());
}

#[test]
fn clicks_reveal_select_and_move() {
    let mut v = view();
    assert_eq!(describe(&v.click(5, 0, true)), describe(&Some(ClientCommand::Reveal { row: 5, col: 0 })));
    assert!(v.selected.is_none());
    assert!(v.click(6, 0, true).is_none());
    assert_eq!(v.selected, Some((6, 0)));
    assert!(v.is_selected(6, 0));
    assert!(!v.is_selected(5, 0));
    assert_eq!(
        describe(&v.click(5, 1, true)),
        describe(&Some(ClientCommand::Move { from: (6, 0), to: (5, 1) }))
    );
    assert!(v.selected.is_none());
    assert!(v.click(9, 9, true).is_none());
    assert!(v.click(5, 1, true).is_none());
}

#[test]
fn render_only_when_dirty() {
    let mut v = view();
    let drawn = v.take_render().unwrap();
    assert_eq!(drawn.len(), 3);
    assert!(drawn.iter().all(|p| p.alive));
    assert!(!v.dirty);
    assert!(v.take_render().is_none());
}

#[test]
fn piece_faces() {
    let mut p = PieceState { id: 0, camp: Camp::Blue, rank: Rank::Commander, revealed: false, alive: true, row: 0, col: 0 };
    assert_eq!(face_text(p), "?");
    assert_eq!(face_camp(p), None);
    p.revealed = true;
    assert_eq!(face_text(p), "司令");
    assert_eq!(face_camp(p), Some(Camp::Blue));
}
