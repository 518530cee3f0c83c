use vstd::prelude::*;
use crate::text::chars_of;

verus! {

/// One of the two sides of the game.
#[derive(Clone, Copy, PartialEq, Eq, Debug, Structural)]
pub enum Camp {
    Red,
    Blue,
}

/// The camp that moves after `c`.
pub open spec fn camp_next(c: Camp) -> Camp {
    match c {
        Camp::Red => Camp::Blue,
        Camp::Blue => Camp::Red,
    }
}

/// The one-letter wire code of a camp.
pub open spec fn camp_code(c: Camp) -> Seq<char> {
    match c {
        Camp::Red => seq!['R'],
        Camp::Blue => seq!['B'],
    }
}

/// The camp whose wire code is exactly `s`, if any.
pub open spec fn camp_from_code(s: Seq<char>) -> Option<Camp> {
    if s == seq!['R'] {
        Some(Camp::Red)
    } else if s == seq!['B'] {
        Some(Camp::Blue)
    } else {
        None
    }
}

/// The name of a camp as its `Debug` form prints it.
pub open spec fn camp_name(c: Camp) -> Seq<char> {
    match c {
        Camp::Red => seq!['R', 'e', 'd'],
        Camp::Blue => seq!['B', 'l', 'u', 'e'],
    }
}

impl Default for Camp {
    fn default() -> (c: Self)
        ensures
            c == Camp::Red,
    {
        Camp::Red
    }
}

impl Camp {
    pub fn next(self) -> (r: Self)
        ensures
            r == camp_next(self),
    {
        match self {
            Camp::Red => Camp::Blue,
            Camp::Blue => Camp::Red,
        }
    }

    pub fn code(self) -> (r: &'static str)
        ensures
            r@ == camp_code(self),
    {
        match self {
            Camp::Red => {
                proof {
                    reveal_strlit("R");
                }
                "R"
            },
            Camp::Blue => {
                proof {
                    reveal_strlit("B");
                }
                "B"
            },
        }
    }

    pub fn from_code(code: &str) -> (r: Option<Self>)
        ensures
            r == camp_from_code(code@),
    {
        let chars = chars_of(code);
        Camp::from_chars(chars.as_slice())
    }

    /// The camp whose wire code is exactly the characters `code`, if any.
    pub fn from_chars(code: &[char]) -> (r: Option<Self>)
        ensures
            r == camp_from_code(code@),
    {
        if code.len() != 1 {
            return None;
        }
        let c = code[0];
        assert(code@ =~= seq![c]);
        if c == 'R' {
            Some(Camp::Red)
        } else if c == 'B' {
            Some(Camp::Blue)
        } else {
            None
        }
    }

    /// The camp's name, the text that its `Debug` form prints.
    pub fn name(self) -> (r: &'static str)
        ensures
            r@ == camp_name(self),
    {
        match self {
            Camp::Red => {
                proof {
                    reveal_strlit("Red");
                }
                "Red"
            },
            Camp::Blue => {
                proof {
                    reveal_strlit("Blue");
                }
                "Blue"
            },
        }
    }
}

/// Turns alternate: the camp after the next camp is the camp itself, and
/// the next camp is always the other one.
pub proof fn lemma_camp_next_alternates(c: Camp)
    ensures
        camp_next(camp_next(c)) == c,
        camp_next(c) != c,
{
}

/// Reading back the code of a camp gives the camp.
pub proof fn lemma_camp_code_round_trip(c: Camp)
    ensures
        camp_from_code(camp_code(c)) == Some(c),
{
    assert(seq!['R'] != seq!['B']) by {
        assert(seq!['R'][0] != seq!['B'][0]);
    }
}


/// The rank of a piece; `Unknown` stands for a piece not yet revealed.
#[derive(Clone, Copy, PartialEq, Eq, Debug, Structural)]
pub enum Rank {
    Unknown,
    Flag,
    Mine,
    Bomb,
    Engineer,
    Platoon,
    Company,
    Battalion,
    Regiment,
    Brigade,
    Division,
    Corps,
    Commander,
}

/// How strong a rank is in battle.
pub open spec fn rank_strength(r: Rank) -> i32 {
    match r {
        Rank::Unknown => 0,
        Rank::Flag => 0,
        Rank::Mine => 99,
        Rank::Bomb => 99,
        Rank::Engineer => 2,
        Rank::Platoon => 3,
        Rank::Company => 4,
        Rank::Battalion => 5,
        Rank::Regiment => 6,
        Rank::Brigade => 7,
        Rank::Division => 8,
        Rank::Corps => 9,
        Rank::Commander => 10,
    }
}

/// Whether pieces of a rank may move.
pub open spec fn rank_can_move(r: Rank) -> bool {
    !(r == Rank::Unknown || r == Rank::Flag || r == Rank::Mine)
}

/// The one-letter wire code of a rank.
pub open spec fn rank_code(r: Rank) -> Seq<char> {
    match r {
        Rank::Unknown => seq!['U'],
        Rank::Flag => seq!['F'],
        Rank::Mine => seq!['M'],
        Rank::Bomb => seq!['X'],
        Rank::Engineer => seq!['E'],
        Rank::Platoon => seq!['P'],
        Rank::Company => seq!['C'],
        Rank::Battalion => seq!['A'],
        Rank::Regiment => seq!['G'],
        Rank::Brigade => seq!['B'],
        Rank::Division => seq!['D'],
        Rank::Corps => seq!['O'],
        Rank::Commander => seq!['S'],
    }
}

/// The label shown on a piece of a rank.
pub open spec fn rank_label(r: Rank) -> Seq<char> {
    match r {
        Rank::Unknown => seq!['?'],
        Rank::Flag => seq!['军', '旗'],
        Rank::Mine => seq!['地', '雷'],
        Rank::Bomb => seq!['炸', '弹'],
        Rank::Engineer => seq!['工', '兵'],
        Rank::Platoon => seq!['排', '长'],
        Rank::Company => seq!['连', '长'],
        Rank::Battalion => seq!['营', '长'],
        Rank::Regiment => seq!['团', '长'],
        Rank::Brigade => seq!['旅', '长'],
        Rank::Division => seq!['师', '长'],
        Rank::Corps => seq!['军', '长'],
        Rank::Commander => seq!['司', '令'],
    }
}

/// The rank whose wire code is exactly `s`, if any.
pub open spec fn rank_from_code(s: Seq<char>) -> Option<Rank> {
    if s == seq!['U'] {
        Some(Rank::Unknown)
    } else if s == seq!['F'] {
        Some(Rank::Flag)
    } else if s == seq!['M'] {
        Some(Rank::Mine)
    } else if s == seq!['X'] {
        Some(Rank::Bomb)
    } else if s == seq!['E'] {
        Some(Rank::Engineer)
    } else if s == seq!['P'] {
        Some(Rank::Platoon)
    } else if s == seq!['C'] {
        Some(Rank::Company)
    } else if s == seq!['A'] {
        Some(Rank::Battalion)
    } else if s == seq!['G'] {
        Some(Rank::Regiment)
    } else if s == seq!['B'] {
        Some(Rank::Brigade)
    } else if s == seq!['D'] {
        Some(Rank::Division)
    } else if s == seq!['O'] {
        Some(Rank::Corps)
    } else if s == seq!['S'] {
        Some(Rank::Commander)
    } else {
        None
    }
}

impl Rank {
    pub fn strength(self) -> (r: i32)
        ensures
            r == rank_strength(self),
    {
        match self {
            Rank::Unknown => 0,
            Rank::Flag => 0,
            Rank::Mine => 99,
            Rank::Bomb => 99,
            Rank::Engineer => 2,
            Rank::Platoon => 3,
            Rank::Company => 4,
            Rank::Battalion => 5,
            Rank::Regiment => 6,
            Rank::Brigade => 7,
            Rank::Division => 8,
            Rank::Corps => 9,
            Rank::Commander => 10,
        }
    }

    pub fn label(self) -> (r: &'static str)
        ensures
            r@ == rank_label(self),
    {
        match self {
            Rank::Unknown => {
                proof {
                    reveal_strlit("?");
                }
                "?"
            },
            Rank::Flag => {
                proof {
                    reveal_strlit("军旗");
                }
                "军旗"
            },
            Rank::Mine => {
                proof {
                    reveal_strlit("地雷");
                }
                "地雷"
            },
            Rank::Bomb => {
                proof {
                    reveal_strlit("炸弹");
                }
                "炸弹"
            },
            Rank::Engineer => {
                proof {
                    reveal_strlit("工兵");
                }
                "工兵"
            },
            Rank::Platoon => {
                proof {
                    reveal_strlit("排长");
                }
                "排长"
            },
            Rank::Company => {
                proof {
                    reveal_strlit("连长");
                }
                "连长"
            },
            Rank::Battalion => {
                proof {
                    reveal_strlit("营长");
                }
                "营长"
            },
            Rank::Regiment => {
                proof {
                    reveal_strlit("团长");
                }
                "团长"
            },
            Rank::Brigade => {
                proof {
                    reveal_strlit("旅长");
                }
                "旅长"
            },
            Rank::Division => {
                proof {
                    reveal_strlit("师长");
                }
                "师长"
            },
            Rank::Corps => {
                proof {
                    reveal_strlit("军长");
                }
                "军长"
            },
            Rank::Commander => {
                proof {
                    reveal_strlit("司令");
                }
                "司令"
            },
        }
    }

    pub fn can_move(self) -> (r: bool)
        ensures
            r == rank_can_move(self),
    {
        !(self == Rank::Unknown || self == Rank::Flag || self == Rank::Mine)
    }

    pub fn code(self) -> (r: &'static str)
        ensures
            r@ == rank_code(self),
    {
        match self {
            Rank::Unknown => {
                proof {
                    reveal_strlit("U");
                }
                "U"
            },
            Rank::Flag => {
                proof {
                    reveal_strlit("F");
                }
                "F"
            },
            Rank::Mine => {
                proof {
                    reveal_strlit("M");
                }
                "M"
            },
            Rank::Bomb => {
                proof {
                    reveal_strlit("X");
                }
                "X"
            },
            Rank::Engineer => {
                proof {
                    reveal_strlit("E");
                }
                "E"
            },
            Rank::Platoon => {
                proof {
                    reveal_strlit("P");
                }
                "P"
            },
            Rank::Company => {
                proof {
                    reveal_strlit("C");
                }
                "C"
            },
            Rank::Battalion => {
                proof {
                    reveal_strlit("A");
                }
                "A"
            },
            Rank::Regiment => {
                proof {
                    reveal_strlit("G");
                }
                "G"
            },
            Rank::Brigade => {
                proof {
                    reveal_strlit("B");
                }
                "B"
            },
            Rank::Division => {
                proof {
                    reveal_strlit("D");
                }
                "D"
            },
            Rank::Corps => {
                proof {
                    reveal_strlit("O");
                }
                "O"
            },
            Rank::Commander => {
                proof {
                    reveal_strlit("S");
                }
                "S"
            },
        }
    }

    pub fn from_code(code: &str) -> (r: Option<Self>)
        ensures
            r == rank_from_code(code@),
    {
        let chars = chars_of(code);
        Rank::from_chars(chars.as_slice())
    }

    /// The rank whose wire code is exactly the characters `code`, if any.
    pub fn from_chars(code: &[char]) -> (r: Option<Self>)
        ensures
            r == rank_from_code(code@),
    {
        if code.len() != 1 {
            return None;
        }
        let c = code[0];
        assert(code@ =~= seq![c]);
        if c == 'U' {
            Some(Rank::Unknown)
        } else if c == 'F' {
            Some(Rank::Flag)
        } else if c == 'M' {
            Some(Rank::Mine)
        } else if c == 'X' {
            Some(Rank::Bomb)
        } else if c == 'E' {
            Some(Rank::Engineer)
        } else if c == 'P' {
            Some(Rank::Platoon)
        } else if c == 'C' {
            Some(Rank::Company)
        } else if c == 'A' {
            Some(Rank::Battalion)
        } else if c == 'G' {
            Some(Rank::Regiment)
        } else if c == 'B' {
            Some(Rank::Brigade)
        } else if c == 'D' {
            Some(Rank::Division)
        } else if c == 'O' {
            Some(Rank::Corps)
        } else if c == 'S' {
            Some(Rank::Commander)
        } else {
            None
        }
    }
}


/// Reading back the code of a rank gives the rank; in particular no two
/// ranks share a code.
pub proof fn lemma_rank_code_round_trip(r: Rank)
    ensures
        rank_from_code(rank_code(r)) == Some(r),
{
    assert forall|a: char, b: char| a != b implies seq![a] != seq![b] by {
        assert(seq![a][0] != seq![b][0]);
    }
}

/// A piece as the server tracks it and as a snapshot shows it.
#[derive(Clone, Copy, PartialEq, Eq, Debug, Structural)]
pub struct PieceState {
    pub id: u32,
    pub camp: Camp,
    pub rank: Rank,
    pub revealed: bool,
    pub alive: bool,
    pub row: usize,
    pub col: usize,
}

/// What the players see of a game: whose turn it is and the pieces.
#[derive(Clone, Debug)]
pub struct GameSnapshot {
    pub turn: Camp,
    pub pieces: Vec<PieceState>,
}

impl Default for GameSnapshot {
    fn default() -> (s: Self)
        ensures
            s.turn == Camp::Red,
            s.pieces@ == Seq::<PieceState>::empty(),
    {
        GameSnapshot { turn: Camp::Red, pieces: Vec::new() }
    }
}

/// What becomes of the two pieces of a battle.
#[derive(Clone, Copy, PartialEq, Eq, Debug, Structural)]
pub enum BattleOutcome {
    AttackerWins,
    DefenderWins,
    BothRemoved,
}

} // verus!
