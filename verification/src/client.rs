use vstd::prelude::*;
use crate::game::stands_at;
use crate::protocol::{ClientCommand, ServerMessage};
use crate::types::{camp_name, rank_label, Camp, GameSnapshot, PieceState};

verus! {

/// What a client knows and shows: its camp once the server has named it,
/// the last snapshot, the piece it has picked up, whether the board must
/// be drawn again, and the line of text it shows the player.
pub struct ClientView {
    pub camp: Option<Camp>,
    pub snapshot: GameSnapshot,
    pub selected: Option<(usize, usize)>,
    pub dirty: bool,
    pub message: String,
}

/// The greeting once the server has named the player's camp.
pub open spec fn welcome_text(c: Camp) -> Seq<char> {
    seq!['你', '是', ' '] + camp_name(c) + seq![' ', '方']
}

/// What the player is told when a click finds no server to send to.
pub open spec fn offline_text() -> Seq<char> {
    seq!['未', '连', '接', '服', '务', '器']
}

/// The status line: the player's camp, whose turn it is, and the message.
pub open spec fn status_line(camp: Option<Camp>, turn: Camp, message: Seq<char>) -> Seq<char> {
    let side = match camp {
        Some(c) => camp_name(c),
        None => seq!['未', '分', '配'],
    };
    seq!['你', '是', ' '] + side + seq![' ', '方', ' ', '|', ' ', '当', '前', '回', '合', ':', ' ']
        + camp_name(turn) + seq![' ', '|', ' '] + message
}

/// The first living piece on `(row, col)`.
pub open spec fn first_at(ps: Seq<PieceState>, row: usize, col: usize) -> Option<PieceState>
    decreases ps.len(),
{
    if ps.len() == 0 {
        None
    } else if stands_at(ps[0], row, col) {
        Some(ps[0])
    } else {
        first_at(ps.drop_first(), row, col)
    }
}

/// The living pieces, in order.
pub open spec fn living(ps: Seq<PieceState>) -> Seq<PieceState>
    decreases ps.len(),
{
    if ps.len() == 0 {
        seq![]
    } else if ps.last().alive {
        living(ps.drop_last()).push(ps.last())
    } else {
        living(ps.drop_last())
    }
}

/// What a click on `(row, col)` does, connected to the server: the
/// command to send, if any, and the piece picked up afterwards.
///
/// A face-down piece is revealed. A face-up piece of the player's own camp
/// is picked up when it is the player's turn and nothing is picked up yet.
/// Otherwise a piece picked up earlier is moved to the cell clicked.
pub open spec fn click_effect(
    camp: Option<Camp>,
    turn: Camp,
    pieces: Seq<PieceState>,
    selected: Option<(usize, usize)>,
    row: usize,
    col: usize,
) -> (Option<ClientCommand>, Option<(usize, usize)>) {
    match first_at(pieces, row, col) {
        Some(p) if !p.revealed => (Some(ClientCommand::Reveal { row, col }), None),
        Some(p) if selected is None && camp == Some(p.camp) && p.camp == turn => (
            None,
            Some((row, col)),
        ),
        _ => match selected {
            Some(from) => (Some(ClientCommand::Move { from, to: (row, col) }), None),
            None => (None, None),
        },
    }
}

/// The piece a click on `(row, col)` acts on is the first living piece
/// standing there; dead pieces are passed over, and there is none exactly
/// when no living piece stands there.
pub proof fn lemma_clicked_piece_is_living(ps: Seq<PieceState>, row: usize, col: usize)
    ensures
        first_at(ps, row, col) matches Some(p) ==> exists|i: int|
            0 <= i < ps.len() && #[trigger] ps[i] == p && p.alive && p.row == row && p.col == col
                && forall|j: int|
                0 <= j < i ==> !((#[trigger] ps[j]).alive && ps[j].row == row && ps[j].col == col),
        first_at(ps, row, col) is None <==> forall|i: int|
            0 <= i < ps.len() ==> !((#[trigger] ps[i]).alive && ps[i].row == row && ps[i].col == col),
    decreases ps.len(),
{
    if ps.len() > 0 {
        let rest = ps.drop_first();
        lemma_clicked_piece_is_living(rest, row, col);
        let q = ps[0];
        if q.alive && q.row == row && q.col == col {
            assert(ps[0] == q);
        } else {
            assert(first_at(ps, row, col) == first_at(rest, row, col));
            if let Some(p) = first_at(rest, row, col) {
                let i = choose|i: int|
                    0 <= i < rest.len() && #[trigger] rest[i] == p && p.alive && p.row == row && p.col
                        == col && forall|j: int|
                        0 <= j < i ==> !((#[trigger] rest[j]).alive && rest[j].row == row && rest[j].col
                            == col);
                assert(ps[i + 1] == p);
                assert forall|j: int| 0 <= j < i + 1 implies !((#[trigger] ps[j]).alive && ps[j].row
                    == row && ps[j].col == col) by {
                    if j > 0 {
                        assert(ps[j] == rest[j - 1]);
                    }
                }
            }
            assert forall|i: int| 0 <= i < ps.len() && first_at(rest, row, col) is None implies !(
            (#[trigger] ps[i]).alive && ps[i].row == row && ps[i].col == col) by {
                if i > 0 {
                    assert(ps[i] == rest[i - 1]);
                }
            }
        }
    }
}

/// What a click may do: it reveals only the face-down living piece
/// clicked; it picks up only a face-up living piece of the player's own
/// camp, on the player's turn, with nothing picked up yet; and it moves only
/// the piece picked up before, to the cell clicked. Whatever it sends, it
/// leaves nothing picked up.
pub proof fn lemma_click_effects(
    camp: Option<Camp>,
    turn: Camp,
    ps: Seq<PieceState>,
    selected: Option<(usize, usize)>,
    row: usize,
    col: usize,
)
    ensures
        ({
            let (command, picked) = click_effect(camp, turn, ps, selected, row, col);
            &&& command matches Some(ClientCommand::Reveal { row: r, col: c }) ==> (r == row && c
                == col && (first_at(ps, row, col) matches Some(p) && !p.revealed && p.alive))
            &&& picked matches Some(cell) ==> (cell == (row, col) && command is None && selected
                is None && (first_at(ps, row, col) matches Some(p) && p.revealed && p.alive && camp
                == Some(p.camp) && p.camp == turn))
            &&& command matches Some(ClientCommand::Move { from, to }) ==> selected == Some(from)
                && to == (row, col)
            &&& command is Some ==> picked is None
            &&& !(command matches Some(ClientCommand::Hello))
        }),
{
    lemma_clicked_piece_is_living(ps, row, col);
}

/// The status line opens with the player's own camp, whoever is to move,
/// and names the camp to move after it.
pub proof fn lemma_status_names_own_camp(camp: Option<Camp>, turn: Camp, message: Seq<char>)
    ensures
        camp matches Some(c) ==> status_line(camp, turn, message).take(3 + camp_name(c).len() as int)
            == seq!['你', '是', ' '] + camp_name(c),
        camp is None ==> status_line(camp, turn, message).take(6) == seq![
            '你',
            '是',
            ' ',
            '未',
            '分',
            '配',
        ],
        ({
            let line = status_line(camp, turn, message);
            let tail = seq![' ', '|', ' '] + message;
            let n = line.len() - tail.len() - camp_name(turn).len();
            &&& line.skip(line.len() - tail.len()) == tail
            &&& line.subrange(n, line.len() - tail.len()) == camp_name(turn)
        }),
{
    let line = status_line(camp, turn, message);
    let side = match camp {
        Some(c) => camp_name(c),
        None => seq!['未', '分', '配'],
    };
    let mid = seq![' ', '方', ' ', '|', ' ', '当', '前', '回', '合', ':', ' '];
    let tail = seq![' ', '|', ' '] + message;
    assert(line =~= seq!['你', '是', ' '] + side + mid + camp_name(turn) + tail);
    assert(line.take(3 + side.len() as int) =~= seq!['你', '是', ' '] + side);
    assert(line.skip(line.len() - tail.len()) =~= tail);
    assert(line.subrange(line.len() - tail.len() - camp_name(turn).len(), line.len() - tail.len())
        =~= camp_name(turn));
}

/// The text on the face of a piece as drawn: the name of its rank once it
/// is revealed, a question mark before.
pub fn face_text(piece: PieceState) -> (r: &'static str)
    ensures
        r@ == if piece.revealed {
            rank_label(piece.rank)
        } else {
            seq!['?']
        },
{
    if piece.revealed {
        piece.rank.label()
    } else {
        proof {
            reveal_strlit("?");
        }
        "?"
    }
}

/// The camp whose colour the face text of a piece takes: its own once it is
/// revealed; none before, when the text is drawn in the neutral colour.
pub fn face_camp(piece: PieceState) -> (r: Option<Camp>)
    ensures
        r == if piece.revealed {
            Some(piece.camp)
        } else {
            None::<Camp>
        },
{
    if piece.revealed {
        Some(piece.camp)
    } else {
        None
    }
}

impl ClientView {
    /// A client that has heard nothing from the server yet.
    pub fn new(message: String) -> (v: ClientView)
        ensures
            v.camp is None,
            v.snapshot.turn == Camp::Red,
            v.snapshot.pieces@ == Seq::<PieceState>::empty(),
            v.selected is None,
            v.dirty,
            v.message@ == message@,
    {
        ClientView {
            camp: None,
            snapshot: GameSnapshot::default(),
            selected: None,
            dirty: true,
            message,
        }
    }

    /// Takes in a message from the server.
    pub fn apply_message(&mut self, message: ServerMessage)
        ensures
            final(self).selected == old(self).selected,
            match message {
                ServerMessage::Welcome { camp } => {
                    &&& final(self).camp == Some(camp)
                    &&& final(self).message@ == welcome_text(camp)
                    &&& final(self).snapshot == old(self).snapshot
                    &&& final(self).dirty == old(self).dirty
                },
                ServerMessage::Snapshot(s) => {
                    &&& final(self).snapshot == s
                    &&& final(self).dirty
                    &&& final(self).camp == old(self).camp
                    &&& final(self).message == old(self).message
                },
                ServerMessage::Error(t) => {
                    &&& final(self).message@ == t@
                    &&& final(self).camp == old(self).camp
                    &&& final(self).snapshot == old(self).snapshot
                    &&& final(self).dirty == old(self).dirty
                },
                ServerMessage::Event(t) => {
                    &&& final(self).message@ == t@
                    &&& final(self).camp == old(self).camp
                    &&& final(self).snapshot == old(self).snapshot
                    &&& final(self).dirty == old(self).dirty
                },
            },
    {
        match message {
            ServerMessage::Welcome { camp } => {
                proof {
                    reveal_strlit("你是 ");
                    reveal_strlit(" 方");
                }
                let mut text = String::from_str("你是 ");
                text.append(camp.name());
                text.append(" 方");
                assert(text@ =~= welcome_text(camp));
                self.camp = Some(camp);
                self.message = text;
            },
            ServerMessage::Snapshot(snapshot) => {
                self.snapshot = snapshot;
                self.dirty = true;
            },
            ServerMessage::Error(text) => {
                self.message = text;
            },
            ServerMessage::Event(text) => {
                self.message = text;
            },
        }
    }

    /// The first living piece on `(row, col)` in the snapshot.
    fn piece_at(&self, row: usize, col: usize) -> (r: Option<PieceState>)
        ensures
            r == first_at(self.snapshot.pieces@, row, col),
    {
        let ghost ps = self.snapshot.pieces@;
        let mut i: usize = 0;
        assert(ps.skip(0) =~= ps);
        while i < self.snapshot.pieces.len()
            invariant
                ps == self.snapshot.pieces@,
                i <= ps.len(),
                first_at(ps.skip(i as int), row, col) == first_at(ps, row, col),
            decreases ps.len() - i,
        {
            let p = self.snapshot.pieces[i];
            assert(ps.skip(i as int)[0] == p);
            assert(ps.skip(i as int).drop_first() =~= ps.skip(i + 1));
            if p.alive && p.row == row && p.col == col {
                return Some(p);
            }
            i += 1;
        }
        assert(ps.skip(i as int) =~= Seq::<PieceState>::empty());
        None
    }

    /// Handles a click on the cell `(row, col)`: gives the command to send
    /// to the server, if any. Without a connection nothing is sent and the
    /// player is told so.
    pub fn click(&mut self, row: usize, col: usize, connected: bool) -> (r: Option<ClientCommand>)
        ensures
            final(self).camp == old(self).camp,
            final(self).snapshot == old(self).snapshot,
            final(self).dirty == old(self).dirty,
            !connected ==> r is None && final(self).selected == old(self).selected
                && final(self).message@ == offline_text(),
            connected ==> (r, final(self).selected) == click_effect(
                old(self).camp,
                old(self).snapshot.turn,
                old(self).snapshot.pieces@,
                old(self).selected,
                row,
                col,
            ) && final(self).message == old(self).message,
    {
        let clicked = self.piece_at(row, col);
        if !connected {
            proof {
                reveal_strlit("未连接服务器");
            }
            self.message = String::from_str("未连接服务器");
            return None;
        }
        if let Some(piece) = clicked {
            if !piece.revealed {
                self.selected = None;
                return Some(ClientCommand::Reveal { row, col });
            }
            let mine = match self.camp {
                Some(c) => c == piece.camp,
                None => false,
            };
            if self.selected.is_none() && mine && piece.camp == self.snapshot.turn {
                self.selected = Some((row, col));
                return None;
            }
        }
        match self.selected.take() {
            Some(from) => Some(ClientCommand::Move { from, to: (row, col) }),
            None => None,
        }
    }

    /// Whether the piece on `(row, col)` is the one picked up.
    pub fn is_selected(&self, row: usize, col: usize) -> (b: bool)
        ensures
            b == (self.selected == Some((row, col))),
    {
        match self.selected {
            Some(cell) => cell.0 == row && cell.1 == col,
            None => false,
        }
    }

    /// When the board must be drawn again: the living pieces to draw, and
    /// the board is then up to date.
    pub fn take_render(&mut self) -> (r: Option<Vec<PieceState>>)
        ensures
            final(self).camp == old(self).camp,
            final(self).snapshot == old(self).snapshot,
            final(self).selected == old(self).selected,
            final(self).message == old(self).message,
            !final(self).dirty,
            old(self).dirty ==> (r matches Some(v) && v@ == living(old(self).snapshot.pieces@)),
            !old(self).dirty ==> r is None,
    {
        if !self.dirty {
            return None;
        }
        self.dirty = false;
        let ghost ps = self.snapshot.pieces@;
        let mut shown: Vec<PieceState> = Vec::new();
        for i in 0..self.snapshot.pieces.len()
            invariant
                ps == self.snapshot.pieces@,
                shown@ == living(ps.take(i as int)),
        {
            let p = self.snapshot.pieces[i];
            assert(ps.take(i + 1).drop_last() =~= ps.take(i as int));
            assert(ps.take(i + 1).last() == p);
            if p.alive {
                shown.push(p);
            }
        }
        assert(ps.take(ps.len() as int) =~= ps);
        Some(shown)
    }

    /// The status line shown above the board.
    pub fn status_text(&self) -> (s: String)
        ensures
            s@ == status_line(self.camp, self.snapshot.turn, self.message@),
    {
        proof {
            reveal_strlit("你是 ");
            reveal_strlit("未分配");
            reveal_strlit(" 方 | 当前回合: ");
            reveal_strlit(" | ");
        }
        let mut s = String::from_str("你是 ");
        match self.camp {
            Some(c) => s.append(c.name()),
            None => s.append("未分配"),
        }
        s.append(" 方 | 当前回合: ");
        s.append(self.snapshot.turn.name());
        s.append(" | ");
        s.append(self.message.as_str());
        assert(s@ =~= status_line(self.camp, self.snapshot.turn, self.message@));
        s
    }
}

} // verus!
