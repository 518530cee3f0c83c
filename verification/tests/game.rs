use junqi::board::{initial_positions, is_camp};
use junqi::game::{create_camp_pieces, create_pieces, Game, GameError};
use junqi::protocol::{ClientCommand, ServerMessage};
use junqi::types::{Camp, PieceState, Rank};

/// A small game: the listed pieces on the listed cells, all face up
/// unless `hidden` is set.
fn game_of(pieces: &[(Camp, Rank, (usize, usize))], hidden: bool) -> Game {
    let positions = pieces.iter().map(|p| p.2).collect();
    let army = pieces.iter().map(|p| (p.0, p.1)).collect();
    let mut game = Game::deal(positions, army);
    for piece in game.pieces.iter_mut() {
        piece.revealed = !hidden;
    }
    game
}

fn pieces_of(game: &Game) -> Vec<PieceState> {
    game.pieces.clone()
}

#[test]
fn camp_armies() {
    let red = create_camp_pieces(Camp::Red);
    assert_eq!(red.len(), 20);
    assert_eq!(red[0], (Camp::Red, Rank::Flag));
    assert_eq!(red[3], (Camp::Red, Rank::Bomb));
    assert_eq!(red.iter().filter(|p| p.1 == Rank::Mine).count(), 2);
    assert_eq!(red.iter().filter(|p| p.1 == Rank::Division).count(), 2);
    assert_eq!(red.iter().filter(|p| p.1 == Rank::Commander).count(), 1);
    let all = create_pieces();
    assert_eq!(all.len(), 40);
    assert!(all[..20].iter().all(|p| p.0 == Camp::Red));
    assert!(all[20..].iter().all(|p| p.0 == Camp::Blue));
}

#[test]
fn new_game_layout() {
    let game = Game::new();
    assert_eq!(game.turn, Camp::Red);
    assert_eq!(game.pieces.len(), 40);
    let starts = initial_positions();
    let mut cells = vec![];
    for (i, piece) in game.pieces.iter().enumerate() {
        assert_eq!(piece.id as usize, i);
        assert!(piece.alive);
        assert!(!piece.revealed);
        assert!(starts.contains(&(piece.row, piece.col)));
        assert!(!cells.contains(&(piece.row, piece.col)));
        cells.push((piece.row, piece.col));
    }
    for camp in [Camp::Red, Camp::Blue] {
        let mine = game.pieces.iter().filter(|p| p.camp == camp);
        assert_eq!(mine.clone().count(), 20);
        assert_eq!(mine.clone().filter(|p| p.rank == Rank::Flag).count(), 1);
        assert_eq!(mine.filter(|p| p.rank == Rank::Engineer).count(), 2);
    }
}

#[test]
fn new_game_is_shuffled() {
    let game = Game::new();
    let starts = initial_positions();
    let army = create_pieces();
    let cells: Vec<(usize, usize)> = game.pieces.iter().map(|p| (p.row, p.col)).collect();
    let kinds: Vec<(Camp, Rank)> = game.pieces.iter().map(|p| (p.camp, p.rank)).collect();
    assert!(cells != starts || kinds != army);
}

#[test]
fn deal_zips_as_far_as_both_go() {
    let game = Game::deal(vec![(0, 0), (0, 1), (0, 2)], vec![(Camp::Blue, Rank::Bomb), (Camp::Red, Rank::Mine)]);
    assert_eq!(game.pieces.len(), 2);
    assert_eq!(
        game.pieces[1],
        PieceState { id: 1, camp: Camp::Red, rank: Rank::Mine, revealed: false, alive: true, row: 0, col: 1 }
    );
}

#[test]
fn snapshot_hides_face_down_ranks() {
    let mut game = game_of(&[(Camp::Red, Rank::Commander, (0, 0)), (Camp::Blue, Rank::Flag, (0, 1))], true);
    game.pieces[0].revealed = true;
    let snapshot = game.snapshot();
    assert_eq!(snapshot.turn, Camp::Red);
    assert_eq!(snapshot.pieces[0].rank, Rank::Commander);
    assert_eq!(snapshot.pieces[1].rank, Rank::Unknown);
    assert_eq!(snapshot.pieces[1].row, 0);
    assert_eq!(snapshot.pieces[1].col, 1);
}

#[test]
fn reveal_rules() {
    let mut game = game_of(&[(Camp::Red, Rank::Commander, (0, 0)), (Camp::Blue, Rank::Flag, (0, 1))], true);
    let before = pieces_of(&game);
    assert_eq!(game.apply(Camp::Blue, ClientCommand::Reveal { row: 0, col: 0 }), Err(GameError::NotYourTurn));
    assert_eq!(game.pieces, before);
    assert_eq!(game.apply(Camp::Red, ClientCommand::Reveal { row: 5, col: 0 }), Err(GameError::NoPieceHere));
    assert_eq!(game.turn, Camp::Red);
    assert_eq!(game.apply(Camp::Red, ClientCommand::Reveal { row: 0, col: 1 }), Ok(()));
    assert!(game.pieces[1].revealed);
    assert_eq!(game.turn, Camp::Blue);
    assert_eq!(game.apply(Camp::Blue, ClientCommand::Reveal { row: 0, col: 1 }), Err(GameError::AlreadyRevealed));
    assert_eq!(game.turn, Camp::Blue);
}

#[test]
fn hello_changes_nothing() {
    let mut game = game_of(&[(Camp::Red, Rank::Commander, (0, 0))], true);
    let before = pieces_of(&game);
    assert_eq!(game.apply(Camp::Blue, ClientCommand::Hello), Ok(()));
    assert_eq!(game.pieces, before);
    assert_eq!(game.turn, Camp::Red);
}

fn mv(from: (usize, usize), to: (usize, usize)) -> ClientCommand {
    ClientCommand::Move { from, to }
}

#[test]
fn move_refusals() {
    let mut game = game_of(
        &[
            (Camp::Red, Rank::Platoon, (6, 0)),
            (Camp::Red, Rank::Corps, (6, 1)),
            (Camp::Blue, Rank::Company, (5, 0)),
            (Camp::Blue, Rank::Flag, (4, 0)),
            (Camp::Blue, Rank::Mine, (0, 0)),
            (Camp::Blue, Rank::Brigade, (7, 1)),
            (Camp::Red, Rank::Division, (11, 0)),
        ],
        false,
    );
    game.pieces[6].revealed = false;
    let before = pieces_of(&game);
    assert_eq!(game.apply(Camp::Blue, mv((5, 0), (6, 0))), Err(GameError::NotYourTurn));
    assert_eq!(game.apply(Camp::Red, mv((8, 0), (9, 0))), Err(GameError::NoPieceAtStart));
    assert_eq!(game.apply(Camp::Red, mv((5, 0), (4, 0))), Err(GameError::NotYourPiece));
    assert_eq!(game.apply(Camp::Red, mv((11, 0), (10, 0))), Err(GameError::NotRevealed));
    assert_eq!(game.apply(Camp::Red, mv((6, 0), (6, 1))), Err(GameError::OwnPiece));
    assert_eq!(game.apply(Camp::Red, mv((6, 1), (7, 1))), Err(GameError::DefenderInCamp));
    assert_eq!(game.apply(Camp::Red, mv((6, 0), (5, 0))), Err(GameError::WeakAttack));
    assert_eq!(game.apply(Camp::Red, mv((6, 1), (3, 3))), Err(GameError::IllegalMove));
    assert_eq!(game.apply(Camp::Red, mv((6, 0), (1, usize::MAX))), Err(GameError::IllegalMove));
    assert_eq!(game.pieces, before);
    assert_eq!(game.turn, Camp::Red);
}

#[test]
fn flag_guarded_by_mines() {
    let mut game = game_of(
        &[
            (Camp::Red, Rank::Corps, (5, 0)),
            (Camp::Blue, Rank::Flag, (4, 0)),
            (Camp::Blue, Rank::Mine, (0, 0)),
        ],
        false,
    );
    assert_eq!(game.apply(Camp::Red, mv((5, 0), (4, 0))), Err(GameError::FlagGuarded));
    game.pieces[2].alive = false;
    assert_eq!(game.apply(Camp::Red, mv((5, 0), (4, 0))), Ok(()));
    assert!(!game.pieces[1].alive);
    assert_eq!((game.pieces[0].row, game.pieces[0].col), (4, 0));
}

#[test]
fn moves_and_battles() {
    let mut game = game_of(
        &[
            (Camp::Red, Rank::Commander, (6, 0)),
            (Camp::Blue, Rank::Corps, (5, 0)),
            (Camp::Blue, Rank::Bomb, (4, 0)),
            (Camp::Red, Rank::Engineer, (10, 0)),
            (Camp::Blue, Rank::Mine, (11, 1)),
            (Camp::Red, Rank::Company, (6, 2)),
            (Camp::Blue, Rank::Company, (5, 2)),
        ],
        false,
    );
    assert_eq!(game.apply(Camp::Red, mv((6, 0), (5, 0))), Ok(()));
    assert!(!game.pieces[1].alive);
    assert_eq!((game.pieces[0].row, game.pieces[0].col), (5, 0));
    assert_eq!(game.turn, Camp::Blue);
    assert_eq!(game.apply(Camp::Blue, mv((4, 0), (5, 0))), Ok(()));
    assert!(!game.pieces[0].alive);
    assert!(!game.pieces[2].alive);
    assert_eq!(game.apply(Camp::Red, mv((10, 0), (11, 1))), Err(GameError::IllegalMove));
    assert_eq!(game.apply(Camp::Red, mv((10, 0), (11, 0))), Ok(()));
    assert_eq!(game.apply(Camp::Blue, mv((5, 2), (6, 2))), Ok(()));
    assert!(!game.pieces[5].alive);
    assert!(!game.pieces[6].alive);
    assert_eq!(game.apply(Camp::Red, mv((11, 0), (11, 1))), Ok(()));
    assert!(!game.pieces[4].alive);
    assert_eq!((game.pieces[3].row, game.pieces[3].col), (11, 1));
}

#[test]
fn rail_moves_need_a_clear_line() {
    let mut game = game_of(
        &[
            (Camp::Red, Rank::Regiment, (6, 0)),
            (Camp::Red, Rank::Engineer, (10, 0)),
            (Camp::Blue, Rank::Platoon, (6, 2)),
        ],
        false,
    );
    assert_eq!(game.apply(Camp::Red, mv((6, 0), (6, 4))), Err(GameError::IllegalMove));
    assert_eq!(game.apply(Camp::Red, mv((6, 0), (6, 2))), Ok(()));
    assert!(!game.pieces[2].alive);
    game.turn = Camp::Red;
    assert_eq!(game.apply(Camp::Red, mv((10, 0), (5, 4))), Ok(()));
    assert_eq!((game.pieces[1].row, game.pieces[1].col), (5, 4));
}

#[test]
fn error_texts() {
    assert_eq!(GameError::NotYourTurn.message(), "还没轮到你");
    assert_eq!(GameError::IllegalMove.message(), "不符合移动规则");
    assert_eq!(GameError::FlagGuarded.message(), "该阵营仍有地雷，军旗暂时不能被吃");
}

#[test]
fn respond_reports_and_broadcasts() {
    let mut game = game_of(&[(Camp::Red, Rank::Commander, (0, 0))], true);
    let (reply, broadcast) = game.respond(Camp::Blue, ClientCommand::Reveal { row: 0, col: 0 });
    match reply {
        Some(ServerMessage::Error(text)) => assert_eq!(text, "还没轮到你"),
        other => panic!("{other:?}"),
    }
    match broadcast {
        ServerMessage::Snapshot(s) => {
            assert_eq!(s.turn, Camp::Red);
            assert_eq!(s.pieces[0].rank, Rank::Unknown);
        }
        other => panic!("{other:?}"),
    }
    let (reply, broadcast) = game.respond(Camp::Red, ClientCommand::Reveal { row: 0, col: 0 });
    assert!(reply.is_none());
    match broadcast {
        ServerMessage::Snapshot(s) => {
            assert_eq!(s.turn, Camp::Blue);
            assert_eq!(s.pieces[0].rank, Rank::Commander);
        }
        other => panic!("{other:?}"),
    }
}

#[test]
fn pieces_keep_what_they_are() {
    let mut game = Game::new();
    let before = pieces_of(&game);
    let cell = (before[0].row, before[0].col);
    assert_eq!(game.apply(Camp::Red, ClientCommand::Reveal { row: cell.0, col: cell.1 }), Ok(()));
    for (a, b) in before.iter().zip(game.pieces.iter()) {
        assert_eq!(a.id, b.id);
        assert_eq!(a.camp, b.camp);
        assert_eq!(a.rank, b.rank);
        assert!(!is_camp(b.row, b.col));
    }
}

#[test]
fn railway_runs_wrap_below_zero() {
    let mut game = game_of(&[(Camp::Red, Rank::Platoon, (1, 4)), (Camp::Blue, Rank::Flag, (0, 0))], false);
    assert_eq!(game.apply(Camp::Red, mv((1, 4), (1, usize::MAX))), Ok(()));
    assert_eq!((game.pieces[0].row, game.pieces[0].col), (1, usize::MAX));
    assert_eq!(game.turn, Camp::Blue);
}

#[test]
fn overflowing_targets_are_illegal() {
    let mut game = game_of(&[(Camp::Red, Rank::Regiment, (1, 5)), (Camp::Red, Rank::Corps, (0, 0))], false);
    assert_eq!(game.apply(Camp::Red, mv((1, 5), (1, 1usize << 63))), Err(GameError::IllegalMove));
    assert_eq!(game.apply(Camp::Red, mv((0, 0), (usize::MAX, 2))), Err(GameError::IllegalMove));
    assert_eq!(game.apply(Camp::Red, mv((0, 0), (usize::MAX, 0))), Err(GameError::IllegalMove));
    assert_eq!(game.turn, Camp::Red);
    assert_eq!((game.pieces[0].row, game.pieces[0].col), (1, 5));
}
