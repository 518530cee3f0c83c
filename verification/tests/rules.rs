use junqi::board::{terrain_at, Terrain};
use junqi::rules::{move_path, resolve_battle, should_explode, would_lose_attack};
use junqi::types::{BattleOutcome, Camp, PieceState, Rank};

const ALL_RANKS: [Rank; 13] = [
    Rank::Unknown,
    Rank::Flag,
    Rank::Mine,
    Rank::Bomb,
    Rank::Engineer,
    Rank::Platoon,
    Rank::Company,
    Rank::Battalion,
    Rank::Regiment,
    Rank::Brigade,
    Rank::Division,
    Rank::Corps,
    Rank::Commander,
];

fn piece(rank: Rank, row: usize, col: usize) -> PieceState {
    PieceState { id: 0, camp: Camp::Red, rank, revealed: true, alive: true, row, col }
}

#[test]
fn battle_outcomes() {
    assert!(resolve_battle(Rank::Commander, Rank::Corps) == BattleOutcome::AttackerWins);
    assert!(resolve_battle(Rank::Platoon, Rank::Flag) == BattleOutcome::AttackerWins);
    assert!(resolve_battle(Rank::Engineer, Rank::Mine) == BattleOutcome::AttackerWins);
    assert!(resolve_battle(Rank::Corps, Rank::Mine) == BattleOutcome::DefenderWins);
    assert!(resolve_battle(Rank::Platoon, Rank::Company) == BattleOutcome::DefenderWins);
    assert!(resolve_battle(Rank::Bomb, Rank::Commander) == BattleOutcome::BothRemoved);
    assert!(resolve_battle(Rank::Engineer, Rank::Bomb) == BattleOutcome::BothRemoved);
    assert!(resolve_battle(Rank::Bomb, Rank::Mine) == BattleOutcome::BothRemoved);
    assert!(resolve_battle(Rank::Company, Rank::Company) == BattleOutcome::BothRemoved);
}

#[test]
fn refused_attack_is_lost_battle() {
    for a in ALL_RANKS {
        for d in ALL_RANKS {
            assert_eq!(
                would_lose_attack(a, d),
                resolve_battle(a, d) == BattleOutcome::DefenderWins
            );
        }
    }
    assert!(would_lose_attack(Rank::Commander, Rank::Mine));
    assert!(!would_lose_attack(Rank::Engineer, Rank::Mine));
    assert!(!would_lose_attack(Rank::Platoon, Rank::Bomb));
}

#[test]
fn explosion_removes_both() {
    for a in ALL_RANKS {
        for d in ALL_RANKS {
            if should_explode(a, d) {
                assert!(resolve_battle(a, d) == BattleOutcome::BothRemoved);
            }
        }
    }
    assert!(should_explode(Rank::Bomb, Rank::Flag));
    assert!(should_explode(Rank::Corps, Rank::Bomb));
    assert!(!should_explode(Rank::Corps, Rank::Mine));
}

#[test]
fn immobile_pieces_stay() {
    assert_eq!(move_path(piece(Rank::Flag, 0, 0), 0, 1, &vec![]), None);
    assert_eq!(move_path(piece(Rank::Mine, 0, 0), 0, 1, &vec![]), None);
    assert_eq!(move_path(piece(Rank::Unknown, 0, 0), 0, 1, &vec![]), None);
}

#[test]
fn road_steps() {
    assert_eq!(move_path(piece(Rank::Platoon, 0, 0), 0, 1, &vec![]), Some(vec![(0, 1)]));
    assert_eq!(move_path(piece(Rank::Platoon, 1, 0), 2, 1, &vec![]), Some(vec![(2, 1)]));
    assert_eq!(move_path(piece(Rank::Platoon, 2, 1), 3, 0, &vec![]), Some(vec![(3, 0)]));
    assert_eq!(move_path(piece(Rank::Platoon, 0, 0), 1, 1, &vec![]), None);
    assert_eq!(move_path(piece(Rank::Platoon, 0, 0), 0, 2, &vec![]), None);
    assert_eq!(move_path(piece(Rank::Platoon, 0, 4), 0, 5, &vec![]), Some(vec![(0, 5)]));
}

#[test]
fn straight_railway_runs() {
    assert_eq!(
        move_path(piece(Rank::Platoon, 1, 0), 1, 4, &vec![]),
        Some(vec![(1, 1), (1, 2), (1, 3), (1, 4)])
    );
    assert_eq!(
        move_path(piece(Rank::Corps, 10, 4), 5, 4, &vec![]),
        Some(vec![(9, 4), (8, 4), (7, 4), (6, 4), (5, 4)])
    );
    assert_eq!(move_path(piece(Rank::Platoon, 1, 0), 1, 4, &vec![(1, 2)]), None);
    assert_eq!(
        move_path(piece(Rank::Platoon, 1, 0), 1, 4, &vec![(1, 4)]),
        Some(vec![(1, 1), (1, 2), (1, 3), (1, 4)])
    );
    assert_eq!(move_path(piece(Rank::Platoon, 1, 0), 5, 4, &vec![]), None);
    assert_eq!(move_path(piece(Rank::Platoon, 1, 0), 1, 0, &vec![]), Some(vec![(1, 0)]));
    assert_eq!(move_path(piece(Rank::Platoon, 1, 2), 5, 2, &vec![]), None);
}

fn is_rail_walk(from: (usize, usize), path: &[(usize, usize)], to: (usize, usize)) -> bool {
    let mut prev = from;
    for &cell in path {
        let step = prev.0.abs_diff(cell.0) + prev.1.abs_diff(cell.1) == 1;
        if !step || terrain_at(cell.0, cell.1) != Terrain::Railway {
            return false;
        }
        prev = cell;
    }
    path.last() == Some(&to)
}

#[test]
fn engineer_turns_corners() {
    let path = move_path(piece(Rank::Engineer, 1, 0), 5, 4, &vec![]).unwrap();
    assert!(is_rail_walk((1, 0), &path, (5, 4)));
    assert_eq!(path.len(), 8);
    let path = move_path(piece(Rank::Engineer, 1, 0), 1, 2, &vec![(1, 2)]).unwrap();
    assert_eq!(path, vec![(1, 1), (1, 2)]);
    let path = move_path(piece(Rank::Engineer, 1, 0), 10, 4, &vec![(1, 1)]).unwrap();
    assert!(is_rail_walk((1, 0), &path, (10, 4)));
    assert!(!path.contains(&(1, 1)));
    assert_eq!(path.len(), 13);
}

#[test]
fn engineer_blocked() {
    assert_eq!(move_path(piece(Rank::Engineer, 1, 0), 5, 4, &vec![(1, 1), (2, 0)]), None);
    assert_eq!(move_path(piece(Rank::Engineer, 1, 0), 1, 0, &vec![]), None);
    assert_eq!(move_path(piece(Rank::Engineer, 1, 0), 3, 1, &vec![]), None);
}

#[test]
fn straight_runs_wrap_below_zero() {
    assert_eq!(
        move_path(piece(Rank::Platoon, 1, 4), 1, usize::MAX, &vec![]),
        Some(vec![(1, 3), (1, 2), (1, 1), (1, 0), (1, usize::MAX)])
    );
    assert_eq!(move_path(piece(Rank::Platoon, 1, 4), 1, usize::MAX, &vec![(1, 1)]), None);
    assert_eq!(move_path(piece(Rank::Platoon, 1, 0), 1, usize::MAX - 1, &vec![]), Some(vec![(1, usize::MAX), (1, usize::MAX - 1)]));
}

#[test]
fn engineer_off_the_board_finds_its_way_back() {
    assert_eq!(move_path(piece(Rank::Engineer, 1, usize::MAX), 1, 1, &vec![]), Some(vec![(1, 0), (1, 1)]));
    assert_eq!(move_path(piece(Rank::Engineer, 1, 5), 1, 3, &vec![]), Some(vec![(1, 4), (1, 3)]));
}
