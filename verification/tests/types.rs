use junqi::types::{Camp, Rank};

const ALL_RANKS: [Rank; 13] = [
    Rank::Unknown,
    Rank::Flag,
    Rank::Mine,
    Rank::Bomb,
    Rank::Engineer,
    Rank::Platoon,
    Rank::Company,
    Rank::Battalion,
    Rank::Regiment,
    Rank::Brigade,
    Rank::Division,
    Rank::Corps,
    Rank::Commander,
];

#[test]
fn camp_turns_alternate() {
    assert_eq!(Camp::Red.next(), Camp::Blue);
    assert_eq!(Camp::Blue.next(), Camp::Red);
    for camp in [Camp::Red, Camp::Blue] {
        assert_eq!(camp.next().next(), camp);
        assert_ne!(camp.next(), camp);
    }
}

#[test]
fn camp_default_is_red() {
    assert_eq!(Camp::default(), Camp::Red);
}

#[test]
fn camp_codes() {
    assert_eq!(Camp::Red.code(), "R");
    assert_eq!(Camp::Blue.code(), "B");
    assert_eq!(Camp::from_code("R"), Some(Camp::Red));
    assert_eq!(Camp::from_code("B"), Some(Camp::Blue));
    assert_eq!(Camp::from_code("r"), None);
    assert_eq!(Camp::from_code("RB"), None);
    assert_eq!(Camp::from_code(""), None);
    assert_eq!(Camp::from_code(" R"), None);
}

#[test]
fn camp_code_round_trip() {
    for camp in [Camp::Red, Camp::Blue] {
        assert_eq!(Camp::from_code(camp.code()), Some(camp));
    }
}

#[test]
fn camp_name_matches_debug() {
    for camp in [Camp::Red, Camp::Blue] {
        assert_eq!(camp.name(), format!("{camp:?}"));
    }
}

#[test]
fn rank_strengths() {
    assert_eq!(Rank::Unknown.strength(), 0);
    assert_eq!(Rank::Flag.strength(), 0);
    assert_eq!(Rank::Engineer.strength(), 2);
    assert_eq!(Rank::Platoon.strength(), 3);
    assert_eq!(Rank::Division.strength(), 8);
    assert_eq!(Rank::Corps.strength(), 9);
    assert_eq!(Rank::Commander.strength(), 10);
    assert_eq!(Rank::Mine.strength(), 99);
    assert_eq!(Rank::Bomb.strength(), 99);
}

#[test]
fn rank_labels() {
    assert_eq!(Rank::Unknown.label(), "?");
    assert_eq!(Rank::Flag.label(), "军旗");
    assert_eq!(Rank::Mine.label(), "地雷");
    assert_eq!(Rank::Bomb.label(), "炸弹");
    assert_eq!(Rank::Engineer.label(), "工兵");
    assert_eq!(Rank::Commander.label(), "司令");
}

#[test]
fn rank_mobility() {
    assert!(!Rank::Unknown.can_move());
    assert!(!Rank::Flag.can_move());
    assert!(!Rank::Mine.can_move());
    assert!(Rank::Bomb.can_move());
    assert!(Rank::Engineer.can_move());
    assert!(Rank::Commander.can_move());
}

#[test]
fn rank_code_round_trip() {
    for rank in ALL_RANKS {
        assert_eq!(Rank::from_code(rank.code()), Some(rank));
    }
    for (i, a) in ALL_RANKS.iter().enumerate() {
        for b in ALL_RANKS.iter().skip(i + 1) {
            assert_ne!(a.code(), b.code());
        }
    }
}

#[test]
fn rank_codes() {
    assert_eq!(Rank::Battalion.code(), "A");
    assert_eq!(Rank::Regiment.code(), "G");
    assert_eq!(Rank::Corps.code(), "O");
    assert_eq!(Rank::Commander.code(), "S");
    assert_eq!(Rank::from_code("X"), Some(Rank::Bomb));
    assert_eq!(Rank::from_code("Z"), None);
    assert_eq!(Rank::from_code("SS"), None);
    assert_eq!(Rank::from_code(""), None);
}
