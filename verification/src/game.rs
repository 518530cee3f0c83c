use vstd::prelude::*;
use rand::seq::SliceRandom;
use crate::board::{initial_positions, start_cell, terrain, terrain_at, Terrain};
use crate::protocol::{ClientCommand, MessageView, ServerMessage};
use crate::rules::{
    battle, explodes, loses_attack, move_path, path_exists, resolve_battle, same_cell, should_explode,
    path_fits, path_fits_in, would_lose_attack, Cell,
};
use crate::types::{camp_next, BattleOutcome, Camp, GameSnapshot, PieceState, Rank};

verus! {

/// Why the server refuses a command.
#[derive(Clone, Copy, PartialEq, Eq, Debug, Structural)]
pub enum GameError {
    NotYourTurn,
    NoPieceHere,
    AlreadyRevealed,
    NoPieceAtStart,
    NotYourPiece,
    NotRevealed,
    OwnPiece,
    DefenderInCamp,
    FlagGuarded,
    WeakAttack,
    IllegalMove,
}

/// The text sent to the player whose command is refused.
pub open spec fn error_text(e: GameError) -> Seq<char> {
    match e {
        GameError::NotYourTurn => seq!['还', '没', '轮', '到', '你'],
        GameError::NoPieceHere => seq!['这', '里', '没', '有', '棋', '子'],
        GameError::AlreadyRevealed => seq!['这', '个', '棋', '子', '已', '经', '翻', '开', '了'],
        GameError::NoPieceAtStart => seq!['起', '点', '没', '有', '棋', '子'],
        GameError::NotYourPiece => seq!['只', '能', '移', '动', '自', '己', '的', '棋', '子'],
        GameError::NotRevealed => seq!['只', '能', '移', '动', '已', '翻', '开', '的', '棋', '子'],
        GameError::OwnPiece => seq!['不', '能', '吃', '自', '己', '的', '棋', '子'],
        GameError::DefenderInCamp => seq!['行', '营', '中', '的', '棋', '子', '不', '能', '被', '攻', '击'],
        GameError::FlagGuarded => seq!['该', '阵', '营', '仍', '有', '地', '雷', '，', '军', '旗', '暂', '时', '不', '能', '被', '吃'],
        GameError::WeakAttack => seq!['弱', '子', '不', '能', '主', '动', '攻', '击', '强', '子'],
        GameError::IllegalMove => seq!['不', '符', '合', '移', '动', '规', '则'],
    }
}

impl GameError {
    pub fn message(self) -> (r: &'static str)
        ensures
            r@ == error_text(self),
    {
        match self {
            GameError::NotYourTurn => {
                proof {
                    reveal_strlit("还没轮到你");
                }
                "还没轮到你"
            },
            GameError::NoPieceHere => {
                proof {
                    reveal_strlit("这里没有棋子");
                }
                "这里没有棋子"
            },
            GameError::AlreadyRevealed => {
                proof {
                    reveal_strlit("这个棋子已经翻开了");
                }
                "这个棋子已经翻开了"
            },
            GameError::NoPieceAtStart => {
                proof {
                    reveal_strlit("起点没有棋子");
                }
                "起点没有棋子"
            },
            GameError::NotYourPiece => {
                proof {
                    reveal_strlit("只能移动自己的棋子");
                }
                "只能移动自己的棋子"
            },
            GameError::NotRevealed => {
                proof {
                    reveal_strlit("只能移动已翻开的棋子");
                }
                "只能移动已翻开的棋子"
            },
            GameError::OwnPiece => {
                proof {
                    reveal_strlit("不能吃自己的棋子");
                }
                "不能吃自己的棋子"
            },
            GameError::DefenderInCamp => {
                proof {
                    reveal_strlit("行营中的棋子不能被攻击");
                }
                "行营中的棋子不能被攻击"
            },
            GameError::FlagGuarded => {
                proof {
                    reveal_strlit("该阵营仍有地雷，军旗暂时不能被吃");
                }
                "该阵营仍有地雷，军旗暂时不能被吃"
            },
            GameError::WeakAttack => {
                proof {
                    reveal_strlit("弱子不能主动攻击强子");
                }
                "弱子不能主动攻击强子"
            },
            GameError::IllegalMove => {
                proof {
                    reveal_strlit("不符合移动规则");
                }
                "不符合移动规则"
            },
        }
    }
}

/// The state of a game on the server: whose turn it is and every piece,
/// dead or alive. A new game holds the piece with id `i` at index `i`.
pub struct Game {
    pub turn: Camp,
    pub pieces: Vec<PieceState>,
}

/// `p` is alive and stands on `(row, col)`.
pub open spec fn stands_at(p: PieceState, row: usize, col: usize) -> bool {
    p.alive && p.row == row && p.col == col
}

/// The piece at index `i` is the first that stands on `(row, col)`.
pub open spec fn first_on(ps: Seq<PieceState>, row: usize, col: usize, i: int) -> bool {
    &&& 0 <= i < ps.len()
    &&& stands_at(ps[i], row, col)
    &&& forall|j: int| 0 <= j < i ==> !stands_at(#[trigger] ps[j], row, col)
}

/// The first piece that stands on a cell, if any.
pub open spec fn occupant(ps: Seq<PieceState>, row: usize, col: usize) -> Option<int> {
    if exists|i: int| #[trigger] first_on(ps, row, col, i) {
        Some(choose|i: int| #[trigger] first_on(ps, row, col, i))
    } else {
        None
    }
}

/// Where a piece stands on a cell, some piece is the first to.
proof fn lemma_first_exists(ps: Seq<PieceState>, row: usize, col: usize, i: int)
    requires
        0 <= i < ps.len(),
        stands_at(ps[i], row, col),
    ensures
        exists|k: int| #[trigger] first_on(ps, row, col, k),
    decreases i,
{
    if exists|j: int| 0 <= j < i && stands_at(#[trigger] ps[j], row, col) {
        let j = choose|j: int| 0 <= j < i && stands_at(#[trigger] ps[j], row, col);
        lemma_first_exists(ps, row, col, j);
    } else {
        assert(first_on(ps, row, col, i));
    }
}

/// The occupant of a cell is the first piece standing there, and there is
/// none exactly when no piece stands there.
pub proof fn lemma_occupant(ps: Seq<PieceState>, row: usize, col: usize)
    ensures
        occupant(ps, row, col) matches Some(i) ==> first_on(ps, row, col, i),
        occupant(ps, row, col) is None ==> forall|i: int|
            0 <= i < ps.len() ==> !stands_at(#[trigger] ps[i], row, col),
        forall|i: int| #[trigger] first_on(ps, row, col, i) ==> occupant(ps, row, col) == Some(i),
{
    assert forall|i: int| 0 <= i < ps.len() && occupant(ps, row, col) is None implies !stands_at(
        #[trigger] ps[i],
        row,
        col,
    ) by {
        if stands_at(ps[i], row, col) {
            lemma_first_exists(ps, row, col, i);
        }
    }
    assert forall|i: int| #[trigger] first_on(ps, row, col, i) implies occupant(ps, row, col)
        == Some(i) by {
        let k = choose|k: int| #[trigger] first_on(ps, row, col, k);
        if k < i {
            assert(!stands_at(ps[k], row, col));
        }
        if i < k {
            assert(!stands_at(ps[i], row, col));
        }
    }
}

/// The game is sound: no two pieces share an id, and no two living
/// pieces share a cell.
pub open spec fn pieces_wf(ps: Seq<PieceState>) -> bool {
    &&& ps.len() <= u32::MAX + 1
    &&& forall|i: int, j: int|
        0 <= i < ps.len() && 0 <= j < ps.len() && i != j ==> (#[trigger] ps[i]).id != (
        #[trigger] ps[j]).id
    &&& forall|i: int, j: int|
        0 <= i < ps.len() && 0 <= j < ps.len() && i != j && (#[trigger] ps[i]).alive
            && (#[trigger] ps[j]).alive ==> !(ps[i].row == ps[j].row && ps[i].col == ps[j].col)
}

impl Game {
    pub open spec fn wf(&self) -> bool {
        pieces_wf(self.pieces@)
    }
}

/// The cells of the living pieces, the one with id `ignore` left out, in
/// the order of the pieces.
pub open spec fn occupied_seq(ps: Seq<PieceState>, ignore: Option<u32>) -> Seq<Cell>
    decreases ps.len(),
{
    if ps.len() == 0 {
        seq![]
    } else {
        let before = occupied_seq(ps.drop_last(), ignore);
        let p = ps.last();
        if p.alive && Some(p.id) != ignore {
            before.push((p.row, p.col))
        } else {
            before
        }
    }
}

/// The cells counted as occupied are exactly those on which a living piece
/// stands, the one with id `ignore` left out; dead pieces block nothing.
pub proof fn lemma_occupied_cells_are_living(ps: Seq<PieceState>, ignore: Option<u32>)
    ensures
        forall|c: Cell|
            occupied_seq(ps, ignore).contains(c) <==> exists|i: int|
                0 <= i < ps.len() && (#[trigger] ps[i]).alive && Some(ps[i].id) != ignore && ps[i].row
                    == c.0 && ps[i].col == c.1,
    decreases ps.len(),
{
    if ps.len() > 0 {
        let rest = ps.drop_last();
        lemma_occupied_cells_are_living(rest, ignore);
        let p = ps.last();
        let before = occupied_seq(rest, ignore);
        let keep = p.alive && Some(p.id) != ignore;
        assert(occupied_seq(ps, ignore) == if keep {
            before.push((p.row, p.col))
        } else {
            before
        });
        assert forall|c: Cell|
            occupied_seq(ps, ignore).contains(c) <==> exists|i: int|
                0 <= i < ps.len() && (#[trigger] ps[i]).alive && Some(ps[i].id) != ignore && ps[i].row
                    == c.0 && ps[i].col == c.1 by {
            if occupied_seq(ps, ignore).contains(c) {
                let k = choose|k: int|
                    0 <= k < occupied_seq(ps, ignore).len() && occupied_seq(ps, ignore)[k] == c;
                if k < before.len() {
                    assert(before[k] == c);
                    assert(before.contains(c));
                    let i = choose|i: int|
                        0 <= i < rest.len() && (#[trigger] rest[i]).alive && Some(rest[i].id)
                            != ignore && rest[i].row == c.0 && rest[i].col == c.1;
                    assert(ps[i] == rest[i]);
                } else {
                    assert(ps[ps.len() - 1] == p);
                }
            }
            if exists|i: int|
                0 <= i < ps.len() && (#[trigger] ps[i]).alive && Some(ps[i].id) != ignore && ps[i].row
                    == c.0 && ps[i].col == c.1 {
                let i = choose|i: int|
                    0 <= i < ps.len() && (#[trigger] ps[i]).alive && Some(ps[i].id) != ignore
                        && ps[i].row == c.0 && ps[i].col == c.1;
                if i < rest.len() {
                    assert(rest[i] == ps[i]);
                    assert(before.contains(c));
                    let k = choose|k: int| 0 <= k < before.len() && before[k] == c;
                    if p.alive && Some(p.id) != ignore {
                        assert(before.push((p.row, p.col))[k] == c);
                    }
                } else {
                    assert(ps[i] == p);
                    assert(before.push((p.row, p.col))[before.len() as int] == c);
                }
            }
        }
    }
}

/// Some living piece of `camp` is a mine.
pub open spec fn has_mine(ps: Seq<PieceState>, camp: Camp) -> bool {
    exists|i: int|
        0 <= i < ps.len() && (#[trigger] ps[i]).alive && ps[i].camp == camp && ps[i].rank
            == Rank::Mine
}

/// A piece as the players see it: its rank is hidden until it is revealed.
pub open spec fn shown(p: PieceState) -> PieceState {
    PieceState { rank: if p.revealed { p.rank } else { Rank::Unknown }, ..p }
}

/// What revealing the piece on `(row, col)` does: refused, or the next
/// turn and the pieces with that piece face up.
pub open spec fn after_reveal(
    turn: Camp,
    ps: Seq<PieceState>,
    camp: Camp,
    row: usize,
    col: usize,
) -> Result<(Camp, Seq<PieceState>), GameError> {
    if turn != camp {
        Err(GameError::NotYourTurn)
    } else {
        match occupant(ps, row, col) {
            None => Err(GameError::NoPieceHere),
            Some(i) => if ps[i].revealed {
                Err(GameError::AlreadyRevealed)
            } else {
                Ok((camp_next(turn), ps.update(i, PieceState { revealed: true, ..ps[i] })))
            },
        }
    }
}

/// `p` standing on `to`.
pub open spec fn moved(p: PieceState, to: Cell) -> PieceState {
    PieceState { row: to.0, col: to.1, ..p }
}

pub open spec fn killed(p: PieceState) -> PieceState {
    PieceState { alive: false, ..p }
}

/// The pieces after the piece at index `a` attacks the one at index `d`
/// on `to`.
pub open spec fn after_battle(ps: Seq<PieceState>, a: int, d: int, to: Cell) -> Seq<PieceState> {
    let att = ps[a];
    let def = ps[d];
    match battle(att.rank, def.rank) {
        BattleOutcome::AttackerWins => if explodes(att.rank, def.rank) {
            ps.update(d, killed(def)).update(a, killed(att))
        } else {
            ps.update(d, killed(def)).update(a, moved(att, to))
        },
        BattleOutcome::DefenderWins => ps.update(a, killed(att)),
        BattleOutcome::BothRemoved => ps.update(a, killed(att)).update(d, killed(def)),
    }
}

/// Why the piece at index `a` may not attack the one at index `d`, if it
/// may not.
pub open spec fn attack_refusal(ps: Seq<PieceState>, a: int, d: int) -> Option<GameError> {
    let att = ps[a];
    let def = ps[d];
    if def.camp == att.camp {
        Some(GameError::OwnPiece)
    } else if terrain(def.row as int, def.col as int) == Terrain::Camp {
        Some(GameError::DefenderInCamp)
    } else if def.rank == Rank::Flag && has_mine(ps, def.camp) {
        Some(GameError::FlagGuarded)
    } else if loses_attack(att.rank, def.rank) {
        Some(GameError::WeakAttack)
    } else {
        None
    }
}

/// What moving the piece on `from` to `to` does: refused, or the next
/// turn and the pieces after the move or the battle. A move on which the
/// path search would overflow the machine's integers is refused as
/// illegal.
pub open spec fn after_move(
    turn: Camp,
    ps: Seq<PieceState>,
    camp: Camp,
    from: Cell,
    to: Cell,
) -> Result<(Camp, Seq<PieceState>), GameError> {
    if turn != camp {
        Err(GameError::NotYourTurn)
    } else {
        match occupant(ps, from.0, from.1) {
            None => Err(GameError::NoPieceAtStart),
            Some(a) => {
                let att = ps[a];
                let target = occupant(ps, to.0, to.1);
                if att.camp != camp {
                    Err(GameError::NotYourPiece)
                } else if !att.revealed {
                    Err(GameError::NotRevealed)
                } else if target is Some && attack_refusal(ps, a, target->0) is Some {
                    Err(attack_refusal(ps, a, target->0)->0)
                } else if !path_fits(att, to) || !path_exists(
                    att,
                    to,
                    occupied_seq(ps, Some(att.id)),
                ) {
                    Err(GameError::IllegalMove)
                } else {
                    match target {
                        Some(d) => Ok((camp_next(turn), after_battle(ps, a, d, to))),
                        None => Ok((camp_next(turn), ps.update(a, moved(att, to)))),
                    }
                }
            },
        }
    }
}

/// What a command does to the game.
pub open spec fn after_command(
    turn: Camp,
    ps: Seq<PieceState>,
    camp: Camp,
    command: ClientCommand,
) -> Result<(Camp, Seq<PieceState>), GameError> {
    match command {
        ClientCommand::Hello => Ok((turn, ps)),
        ClientCommand::Reveal { row, col } => after_reveal(turn, ps, camp, row, col),
        ClientCommand::Move { from, to } => after_move(turn, ps, camp, from, to),
    }
}

/// Where two living pieces stand on one cell, the first is the only one.
proof fn lemma_occupant_unique(ps: Seq<PieceState>, row: usize, col: usize, i: int)
    requires
        pieces_wf(ps),
        0 <= i < ps.len(),
        stands_at(ps[i], row, col),
    ensures
        occupant(ps, row, col) == Some(i),
{
    assert forall|j: int| 0 <= j < i implies !stands_at(#[trigger] ps[j], row, col) by {
        if stands_at(ps[j], row, col) {
            assert(ps[j].alive && ps[i].alive);
        }
    }
    assert(first_on(ps, row, col, i));
    lemma_occupant(ps, row, col);
}

impl Game {
    fn ensure_turn(&self, camp: Camp) -> (r: Result<(), GameError>)
        ensures
            r is Ok <==> self.turn == camp,
            r is Err ==> r == Err::<(), GameError>(GameError::NotYourTurn),
    {
        if self.turn == camp {
            Ok(())
        } else {
            Err(GameError::NotYourTurn)
        }
    }

    /// The index of the first living piece on `(row, col)`.
    pub fn piece_index_at(&self, row: usize, col: usize) -> (r: Option<usize>)
        ensures
            r matches Some(i) ==> i < self.pieces@.len() && stands_at(self.pieces@[i as int], row, col),
            r matches Some(i) ==> forall|j: int| 0 <= j < i ==> !stands_at(#[trigger] self.pieces@[j], row, col),
            r == match occupant(self.pieces@, row, col) {
                Some(i) => Some(i as usize),
                None => None,
            },
    {
        let mut i: usize = 0;
        while i < self.pieces.len()
            invariant
                i <= self.pieces@.len(),
                forall|j: int| 0 <= j < i ==> !stands_at(#[trigger] self.pieces@[j], row, col),
            decreases self.pieces@.len() - i,
        {
            let p = self.pieces[i];
            if p.alive && p.row == row && p.col == col {
                proof {
                    assert(first_on(self.pieces@, row, col, i as int));
                    lemma_occupant(self.pieces@, row, col);
                }
                return Some(i);
            }
            i += 1;
        }
        proof {
            lemma_occupant(self.pieces@, row, col);
            if occupant(self.pieces@, row, col) is Some {
                let k = occupant(self.pieces@, row, col)->0;
                assert(!stands_at(self.pieces@[k], row, col));
            }
        }
        None
    }

    /// The cells of the living pieces, the piece with id `ignore_id` left
    /// out.
    pub fn occupied_cells(&self, ignore_id: Option<u32>) -> (cells: Vec<Cell>)
        ensures
            cells@ == occupied_seq(self.pieces@, ignore_id),
    {
        let ghost ps = self.pieces@;
        let mut cells: Vec<Cell> = Vec::new();
        for i in 0..self.pieces.len()
            invariant
                ps == self.pieces@,
                cells@ == occupied_seq(ps.take(i as int), ignore_id),
        {
            let p = self.pieces[i];
            assert(ps.take(i + 1).drop_last() =~= ps.take(i as int));
            assert(ps.take(i + 1).last() == p);
            let keep = match ignore_id {
                Some(id) => p.id != id,
                None => true,
            };
            if p.alive && keep {
                cells.push((p.row, p.col));
            }
        }
        assert(ps.take(ps.len() as int) =~= ps);
        cells
    }

    pub fn has_alive_mine(&self, camp: Camp) -> (b: bool)
        ensures
            b == has_mine(self.pieces@, camp),
    {
        let mut i: usize = 0;
        while i < self.pieces.len()
            invariant
                i <= self.pieces@.len(),
                forall|j: int|
                    0 <= j < i ==> !((#[trigger] self.pieces@[j]).alive && self.pieces@[j].camp == camp
                        && self.pieces@[j].rank == Rank::Mine),
            decreases self.pieces@.len() - i,
        {
            let p = self.pieces[i];
            if p.alive && p.camp == camp && p.rank == Rank::Mine {
                assert(self.pieces@[i as int] == p);
                return true;
            }
            i += 1;
        }
        false
    }

    /// What the players are shown: the turn and the pieces, the rank of
    /// each hidden until it is revealed.
    pub fn snapshot(&self) -> (s: GameSnapshot)
        ensures
            s.turn == self.turn,
            s.pieces@ == self.pieces@.map_values(|p: PieceState| shown(p)),
    {
        let mut pieces: Vec<PieceState> = Vec::new();
        for i in 0..self.pieces.len()
            invariant
                pieces@ =~= self.pieces@.take(i as int).map_values(|p: PieceState| shown(p)),
        {
            let p = self.pieces[i];
            let rank = if p.revealed {
                p.rank
            } else {
                Rank::Unknown
            };
            pieces.push(PieceState { rank, ..p });
        }
        assert(self.pieces@.take(self.pieces@.len() as int) =~= self.pieces@);
        GameSnapshot { turn: self.turn, pieces }
    }
}

/// A command's result and the game it leaves agree with `expected`: on
/// success the new turn and pieces are the expected ones, on refusal the
/// expected error comes back and nothing changes.
pub open spec fn settles(
    r: Result<(), GameError>,
    old_turn: Camp,
    old_pieces: Seq<PieceState>,
    new_turn: Camp,
    new_pieces: Seq<PieceState>,
    expected: Result<(Camp, Seq<PieceState>), GameError>,
) -> bool {
    match expected {
        Ok((t, ps)) => r is Ok && new_turn == t && new_pieces == ps,
        Err(e) => r == Err::<(), GameError>(e) && new_turn == old_turn && new_pieces == old_pieces,
    }
}

impl Game {
    fn reveal_piece(&mut self, camp: Camp, row: usize, col: usize) -> (r: Result<(), GameError>)
        ensures
            old(self).wf() ==> final(self).wf(),
            settles(
                r,
                old(self).turn,
                old(self).pieces@,
                final(self).turn,
                final(self).pieces@,
                after_reveal(old(self).turn, old(self).pieces@, camp, row, col),
            ),
    {
        if let Err(e) = self.ensure_turn(camp) {
            return Err(e);
        }
        let index = match self.piece_index_at(row, col) {
            Some(i) => i,
            None => return Err(GameError::NoPieceHere),
        };
        let piece = self.pieces[index];
        if piece.revealed {
            return Err(GameError::AlreadyRevealed);
        }
        let ghost before = self.pieces@;
        self.pieces.set(index, PieceState { revealed: true, ..piece });
        self.turn = self.turn.next();
        proof {
            let after = self.pieces@;
            if pieces_wf(before) {
                assert forall|i: int, j: int|
                    0 <= i < after.len() && 0 <= j < after.len() && i != j && (#[trigger] after[i]).alive
                        && (#[trigger] after[j]).alive implies !(after[i].row == after[j].row
                    && after[i].col == after[j].col) by {
                    assert(before[i].alive && before[j].alive);
                }
                assert forall|i: int, j: int|
                    0 <= i < after.len() && 0 <= j < after.len() && i != j implies (
                    #[trigger] after[i]).id != (#[trigger] after[j]).id by {
                    assert(before[i].id != before[j].id);
                }
            }
        }
        Ok(())
    }

    /// The attacker at index `a` fights the defender at index `d` on `to`.
    fn resolve_attack(&mut self, a: usize, d: usize, to: Cell)
        requires
            a < old(self).pieces@.len(),
            d < old(self).pieces@.len(),
            a != d,
        ensures
            final(self).turn == old(self).turn,
            final(self).pieces@ == after_battle(old(self).pieces@, a as int, d as int, to),
    {
        let attacker = self.pieces[a];
        let defender = self.pieces[d];
        let explosive = should_explode(attacker.rank, defender.rank);
        match resolve_battle(attacker.rank, defender.rank) {
            BattleOutcome::AttackerWins => {
                self.pieces.set(d, PieceState { alive: false, ..defender });
                if explosive {
                    self.pieces.set(a, PieceState { alive: false, ..attacker });
                } else {
                    self.pieces.set(a, PieceState { row: to.0, col: to.1, ..attacker });
                }
            },
            BattleOutcome::DefenderWins => {
                self.pieces.set(a, PieceState { alive: false, ..attacker });
            },
            BattleOutcome::BothRemoved => {
                self.pieces.set(a, PieceState { alive: false, ..attacker });
                self.pieces.set(d, PieceState { alive: false, ..defender });
            },
        }
    }

    fn move_piece(&mut self, camp: Camp, from: Cell, to: Cell) -> (r: Result<(), GameError>)
        ensures
            old(self).wf() ==> final(self).wf(),
            settles(
                r,
                old(self).turn,
                old(self).pieces@,
                final(self).turn,
                final(self).pieces@,
                after_move(old(self).turn, old(self).pieces@, camp, from, to),
            ),
    {
        let ghost ps = self.pieces@;
        if let Err(e) = self.ensure_turn(camp) {
            return Err(e);
        }
        let attacker_index = match self.piece_index_at(from.0, from.1) {
            Some(i) => i,
            None => return Err(GameError::NoPieceAtStart),
        };
        let attacker = self.pieces[attacker_index];
        if attacker.camp != camp {
            return Err(GameError::NotYourPiece);
        }
        if !attacker.revealed {
            return Err(GameError::NotRevealed);
        }
        let defender_index = self.piece_index_at(to.0, to.1);
        if let Some(index) = defender_index {
            let defender = self.pieces[index];
            if defender.camp == attacker.camp {
                return Err(GameError::OwnPiece);
            }
            if terrain_at(defender.row, defender.col) == Terrain::Camp {
                return Err(GameError::DefenderInCamp);
            }
            if defender.rank == Rank::Flag && self.has_alive_mine(defender.camp) {
                return Err(GameError::FlagGuarded);
            }
            if would_lose_attack(attacker.rank, defender.rank) {
                return Err(GameError::WeakAttack);
            }
        }
        if !path_fits_in(attacker, to.0, to.1) {
            return Err(GameError::IllegalMove);
        }
        let occupied = self.occupied_cells(Some(attacker.id));
        if move_path(attacker, to.0, to.1, &occupied).is_none() {
            return Err(GameError::IllegalMove);
        }
        match defender_index {
            Some(index) => {
                self.resolve_attack(attacker_index, index, to);
                proof {
                    if pieces_wf(ps) {
                        lemma_battle_keeps_wf(ps, attacker_index as int, index as int, to);
                    }
                }
            },
            None => {
                self.pieces.set(attacker_index, PieceState { row: to.0, col: to.1, ..attacker });
                proof {
                    if pieces_wf(ps) {
                        lemma_step_keeps_wf(ps, attacker_index as int, to);
                    }
                }
            },
        }
        self.turn = self.turn.next();
        Ok(())
    }

    /// Carries out a player's command, or says why it is refused.
    pub fn apply(&mut self, camp: Camp, command: ClientCommand) -> (r: Result<(), GameError>)
        ensures
            old(self).wf() ==> final(self).wf(),
            settles(
                r,
                old(self).turn,
                old(self).pieces@,
                final(self).turn,
                final(self).pieces@,
                after_command(old(self).turn, old(self).pieces@, camp, command),
            ),
    {
        match command {
            ClientCommand::Hello => Ok(()),
            ClientCommand::Reveal { row, col } => self.reveal_piece(camp, row, col),
            ClientCommand::Move { from, to } => self.move_piece(camp, from, to),
        }
    }
}

/// A piece that steps onto a free cell keeps the game sound.
proof fn lemma_step_keeps_wf(ps: Seq<PieceState>, a: int, to: Cell)
    requires
        pieces_wf(ps),
        0 <= a < ps.len(),
        ps[a].alive,
        occupant(ps, to.0, to.1) is None,
    ensures
        pieces_wf(ps.update(a, moved(ps[a], to))),
{
    lemma_occupant(ps, to.0, to.1);
    let after = ps.update(a, moved(ps[a], to));
    assert forall|i: int, j: int|
        0 <= i < after.len() && 0 <= j < after.len() && i != j && (#[trigger] after[i]).alive && (
        #[trigger] after[j]).alive implies !(after[i].row == after[j].row && after[i].col
        == after[j].col) by {
        if i == a {
            assert(!stands_at(ps[j], to.0, to.1));
        } else if j == a {
            assert(!stands_at(ps[i], to.0, to.1));
        } else {
            assert(ps[i].alive && ps[j].alive);
        }
    }
    assert forall|i: int, j: int| 0 <= i < after.len() && 0 <= j < after.len() && i != j implies (
    #[trigger] after[i]).id != (#[trigger] after[j]).id by {
        assert(ps[i].id != ps[j].id);
    }
}

/// A battle keeps the game sound.
proof fn lemma_battle_keeps_wf(ps: Seq<PieceState>, a: int, d: int, to: Cell)
    requires
        pieces_wf(ps),
        0 <= a < ps.len(),
        0 <= d < ps.len(),
        a != d,
        stands_at(ps[d], to.0, to.1),
    ensures
        pieces_wf(after_battle(ps, a, d, to)),
{
    let after = after_battle(ps, a, d, to);
    assert(after.len() == ps.len());
    assert forall|i: int| 0 <= i < after.len() implies (#[trigger] after[i]).id == ps[i].id && (
    after[i].alive ==> ps[i].alive) && (i != a ==> after[i].row == ps[i].row && after[i].col
        == ps[i].col) by {
    }
    assert forall|i: int, j: int| 0 <= i < after.len() && 0 <= j < after.len() && i != j implies (
    #[trigger] after[i]).id != (#[trigger] after[j]).id by {
        assert(ps[i].id != ps[j].id);
    }
    assert forall|i: int, j: int|
        0 <= i < after.len() && 0 <= j < after.len() && i != j && (#[trigger] after[i]).alive && (
        #[trigger] after[j]).alive implies !(after[i].row == after[j].row && after[i].col
        == after[j].col) by {
        assert(ps[i].alive && ps[j].alive);
        if i == a && (after[a].row != ps[a].row || after[a].col != ps[a].col) {
            assert(!after[d].alive);
            if j != d {
                assert(!(ps[j].row == ps[d].row && ps[j].col == ps[d].col));
            }
        } else if j == a && (after[a].row != ps[a].row || after[a].col != ps[a].col) {
            assert(!after[d].alive);
            if i != d {
                assert(!(ps[i].row == ps[d].row && ps[i].col == ps[d].col));
            }
        }
    }
}

/// The twenty pieces of a camp: flag, commander, corps commander and bomb,
/// then two each of mines, engineers and the officers from platoon leader
/// to division commander.
pub open spec fn camp_army(c: Camp) -> Seq<(Camp, Rank)> {
    seq![
        (c, Rank::Flag),
        (c, Rank::Commander),
        (c, Rank::Corps),
        (c, Rank::Bomb),
        (c, Rank::Mine),
        (c, Rank::Mine),
        (c, Rank::Engineer),
        (c, Rank::Engineer),
        (c, Rank::Platoon),
        (c, Rank::Platoon),
        (c, Rank::Company),
        (c, Rank::Company),
        (c, Rank::Battalion),
        (c, Rank::Battalion),
        (c, Rank::Regiment),
        (c, Rank::Regiment),
        (c, Rank::Brigade),
        (c, Rank::Brigade),
        (c, Rank::Division),
        (c, Rank::Division),
    ]
}

/// How many pieces of a rank each camp fields: one flag, commander, corps
/// commander and bomb; two mines, engineers, platoon leaders and company,
/// battalion, regiment, brigade and division commanders; no unknown piece.
pub open spec fn pieces_per_camp(r: Rank) -> nat {
    match r {
        Rank::Unknown => 0,
        Rank::Flag | Rank::Commander | Rank::Corps | Rank::Bomb => 1,
        _ => 2,
    }
}

/// How many times `x` occurs in `s`.
pub open spec fn occurrences(s: Seq<(Camp, Rank)>, x: (Camp, Rank)) -> nat
    decreases s.len(),
{
    if s.len() == 0 {
        0
    } else {
        occurrences(s.drop_last(), x) + if s.last() == x {
            1nat
        } else {
            0nat
        }
    }
}

proof fn lemma_occurrences_multiset(s: Seq<(Camp, Rank)>, x: (Camp, Rank))
    ensures
        s.to_multiset().count(x) == occurrences(s, x),
    decreases s.len(),
{
    broadcast use vstd::seq_lib::group_to_multiset_ensures;
    if s.len() == 0 {
        assert(!s.contains(x));
    } else {
        lemma_occurrences_multiset(s.drop_last(), x);
        assert(s =~= s.drop_last().push(s.last()));
    }
}

/// Each camp's army: twenty pieces of that camp, with as many of each rank
/// as `pieces_per_camp` says.
pub proof fn lemma_camp_army_counts(c: Camp, r: Rank, other: Camp)
    requires
        other != c,
    ensures
        camp_army(c).len() == 20,
        camp_army(c).to_multiset().count((c, r)) == pieces_per_camp(r),
        camp_army(c).to_multiset().count((other, r)) == 0,
{
    let s = camp_army(c);
    lemma_occurrences_multiset(s, (c, r));
    lemma_occurrences_multiset(s, (other, r));
    reveal_with_fuel(occurrences, 21);
}

/// The pieces of both camps, red first.
pub open spec fn full_army() -> Seq<(Camp, Rank)> {
    camp_army(Camp::Red) + camp_army(Camp::Blue)
}

pub fn create_camp_pieces(camp: Camp) -> (pieces: Vec<(Camp, Rank)>)
    ensures
        pieces@ == camp_army(camp),
{
    let mut pieces: Vec<(Camp, Rank)> = Vec::new();
    pieces.push((camp, Rank::Flag));
    pieces.push((camp, Rank::Commander));
    pieces.push((camp, Rank::Corps));
    pieces.push((camp, Rank::Bomb));
    let pairs = [
        Rank::Mine,
        Rank::Engineer,
        Rank::Platoon,
        Rank::Company,
        Rank::Battalion,
        Rank::Regiment,
        Rank::Brigade,
        Rank::Division,
    ];
    for k in 0..8
        invariant
            pieces@.len() == 4 + 2 * k,
            pieces@ =~= camp_army(camp).take(4 + 2 * k),
            pairs@ == seq![
                Rank::Mine,
                Rank::Engineer,
                Rank::Platoon,
                Rank::Company,
                Rank::Battalion,
                Rank::Regiment,
                Rank::Brigade,
                Rank::Division,
            ],
    {
        let rank = pairs[k];
        pieces.push((camp, rank));
        pieces.push((camp, rank));
    }
    assert(camp_army(camp).take(20) =~= camp_army(camp));
    pieces
}

pub fn create_pieces() -> (pieces: Vec<(Camp, Rank)>)
    ensures
        pieces@ == full_army(),
{
    let mut pieces = create_camp_pieces(Camp::Red);
    let mut blue = create_camp_pieces(Camp::Blue);
    pieces.append(&mut blue);
    pieces
}

/// Shuffles `items` in place with rand's thread-local generator
/// (`SliceRandom::shuffle`). What comes out is a permutation of what went
/// in; which permutation is left to chance.
#[verifier::external_body]
fn shuffle<T>(items: &mut Vec<T>)
    ensures
        final(items)@.to_multiset() == old(items)@.to_multiset(),
        final(items)@.len() == old(items)@.len(),
{
    items.shuffle(&mut rand::rng());
}

impl Game {
    /// A new game: red to move, and the `i`th piece of `army` face down on
    /// the `i`th cell of `positions`, as far as both go.
    pub fn deal(positions: Vec<Cell>, army: Vec<(Camp, Rank)>) -> (game: Game)
        requires
            positions@.no_duplicates(),
            positions@.len() <= u32::MAX,
        ensures
            game.wf(),
            game.turn == Camp::Red,
            game.pieces@.len() == if positions@.len() <= army@.len() {
                positions@.len()
            } else {
                army@.len()
            },
            forall|i: int|
                0 <= i < game.pieces@.len() ==> #[trigger] game.pieces@[i] == (PieceState {
                    id: i as u32,
                    camp: army@[i].0,
                    rank: army@[i].1,
                    revealed: false,
                    alive: true,
                    row: positions@[i].0,
                    col: positions@[i].1,
                }),
    {
        let n = if positions.len() <= army.len() {
            positions.len()
        } else {
            army.len()
        };
        let mut pieces: Vec<PieceState> = Vec::new();
        for index in 0..n
            invariant
                n <= positions@.len(),
                n <= army@.len(),
                positions@.len() <= u32::MAX,
                pieces@.len() == index,
                forall|i: int|
                    0 <= i < index ==> #[trigger] pieces@[i] == (PieceState {
                        id: i as u32,
                        camp: army@[i].0,
                        rank: army@[i].1,
                        revealed: false,
                        alive: true,
                        row: positions@[i].0,
                        col: positions@[i].1,
                    }),
        {
            let (row, col) = positions[index];
            let (camp, rank) = army[index];
            pieces.push(
                PieceState { id: index as u32, camp, rank, revealed: false, alive: true, row, col },
            );
        }
        let game = Game { turn: Camp::Red, pieces };
        proof {
            let ps = game.pieces@;
            assert forall|i: int, j: int|
                0 <= i < ps.len() && 0 <= j < ps.len() && i != j && (#[trigger] ps[i]).alive && (
                #[trigger] ps[j]).alive implies !(ps[i].row == ps[j].row && ps[i].col == ps[j].col) by {
                assert(positions@[i] != positions@[j]);
            }
            assert forall|i: int| 0 <= i < ps.len() implies (#[trigger] ps[i]).id == i by {
                assert(ps[i].id == i);
            }
        }
        game
    }

    /// A new game: the forty pieces shuffled onto the forty start cells,
    /// face down, red to move.
    pub fn new() -> (game: Game)
        ensures
            game.wf(),
            game.turn == Camp::Red,
            game.pieces@.len() == 40,
            forall|i: int|
                0 <= i < game.pieces@.len() ==> {
                    &&& !(#[trigger] game.pieces@[i]).revealed
                    &&& game.pieces@[i].alive
                    &&& start_cell((game.pieces@[i].row, game.pieces@[i].col))
                },
            Seq::new(40, |i: int| (game.pieces@[i].camp, game.pieces@[i].rank)).to_multiset()
                == full_army().to_multiset(),
    {
        let mut positions = initial_positions();
        let mut army = create_pieces();
        let ghost sorted = positions@;
        shuffle(&mut positions);
        shuffle(&mut army);
        proof {
            broadcast use vstd::seq_lib::group_to_multiset_ensures;

            assert(sorted.no_duplicates()) by {
                assert forall|i: int, j: int| 0 <= i < sorted.len() && 0 <= j < sorted.len() && i
                    != j implies sorted[i] != sorted[j] by {
                    if i < j {
                        assert(crate::board::cell_before(sorted[i], sorted[j]));
                    } else {
                        assert(crate::board::cell_before(sorted[j], sorted[i]));
                    }
                }
            }
            sorted.lemma_multiset_has_no_duplicates();
            positions@.lemma_multiset_has_no_duplicates_conv();
            assert forall|i: int| 0 <= i < positions@.len() implies start_cell(
                #[trigger] positions@[i],
            ) by {
                assert(positions@.to_multiset().count(positions@[i]) > 0);
                assert(sorted.contains(positions@[i]));
            }
            assert(full_army().len() == 40);
        }
        let game = Game::deal(positions, army);
        proof {
            assert(Seq::new(40, |i: int| (game.pieces@[i].camp, game.pieces@[i].rank)) =~= army@);
        }
        game
    }

    /// Handles a player's command: carries it out or refuses it. Gives
    /// the error for the player when refused, and the snapshot that every
    /// player is sent afterwards.
    pub fn respond(&mut self, camp: Camp, command: ClientCommand) -> (r: (
        Option<ServerMessage>,
        ServerMessage,
    ))
        ensures
            old(self).wf() ==> final(self).wf(),
            match after_command(old(self).turn, old(self).pieces@, camp, command) {
                Ok((t, ps)) => r.0 is None && final(self).turn == t && final(self).pieces@ == ps,
                Err(e) => r.0 matches Some(m) && m@ == MessageView::Error(error_text(e))
                    && final(self).turn == old(self).turn && final(self).pieces@ == old(self).pieces@,
            },
            r.1@ == MessageView::Snapshot(
                final(self).turn,
                final(self).pieces@.map_values(|p: PieceState| shown(p)),
            ),
    {
        let result = self.apply(camp, command);
        let reply = match result {
            Err(e) => Some(ServerMessage::Error(String::from_str(e.message()))),
            Ok(()) => None,
        };
        (reply, ServerMessage::Snapshot(self.snapshot()))
    }
}

/// A reveal or a move by the camp whose turn it is not is refused as
/// such, whatever else it asks.
pub proof fn lemma_wrong_turn_refused(
    turn: Camp,
    ps: Seq<PieceState>,
    camp: Camp,
    command: ClientCommand,
)
    requires
        turn != camp,
        !(command is Hello),
    ensures
        after_command(turn, ps, camp, command) == Err::<(Camp, Seq<PieceState>), GameError>(
            GameError::NotYourTurn,
        ),
{
}

/// Whose turn it is changes exactly when a reveal or a move is accepted:
/// the camp that acted had the turn, and the turn passes to the other camp.
pub proof fn lemma_accepted_command_passes_turn(
    turn: Camp,
    ps: Seq<PieceState>,
    camp: Camp,
    command: ClientCommand,
)
    requires
        !(command is Hello),
        after_command(turn, ps, camp, command) is Ok,
    ensures
        camp == turn,
        after_command(turn, ps, camp, command)->Ok_0.0 == camp_next(turn),
{
}

/// What a piece is stays fixed through every command: the pieces keep
/// their number, ids, camps and ranks; a dead piece stays dead, a revealed
/// piece stays revealed; and only a piece of the camp that acted changes
/// its cell, and then only to the cell the move names.
pub proof fn lemma_command_keeps_pieces(
    turn: Camp,
    ps: Seq<PieceState>,
    camp: Camp,
    command: ClientCommand,
)
    requires
        pieces_wf(ps),
        after_command(turn, ps, camp, command) is Ok,
    ensures
        ({
            let next = after_command(turn, ps, camp, command)->Ok_0.1;
            &&& next.len() == ps.len()
            &&& forall|i: int|
                0 <= i < ps.len() ==> {
                    &&& (#[trigger] next[i]).id == ps[i].id
                    &&& next[i].camp == ps[i].camp
                    &&& next[i].rank == ps[i].rank
                    &&& (next[i].alive ==> ps[i].alive)
                    &&& (ps[i].revealed ==> next[i].revealed)
                    &&& ((next[i].row != ps[i].row || next[i].col != ps[i].col) ==> ps[i].camp
                        == camp)
                    &&& ((next[i].row != ps[i].row || next[i].col != ps[i].col) ==> (command
                        matches ClientCommand::Move { to, .. } && next[i].row == to.0 && next[i].col
                        == to.1))
                }
        }),
{
    match command {
        ClientCommand::Hello => {},
        ClientCommand::Reveal { row, col } => {},
        ClientCommand::Move { from, to } => {
            let a = occupant(ps, from.0, from.1)->0;
            let target = occupant(ps, to.0, to.1);
            if let Some(d) = target {
                if a == d {
                    assert(attack_refusal(ps, a, d) is Some);
                }
            }
        },
    }
}

} // verus!
