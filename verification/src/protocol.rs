use vstd::prelude::*;
use crate::text::{
    all_digits, chars_of, chars_equal, is_digit, decimal, find_char, is_space, lacks, lemma_decimal, lemma_lacks_concat, lemma_parse_decimal,
    lemma_split_once_at, lemma_split_then, lemma_split_whole, lemma_trim_end_concat, lemma_trim_end_space,
    lemma_words_space_then, lemma_words_word_then, no_space, one_line, parse_number, parse_unsigned,
    push_decimal, push_one_line, split_chars, split_once, split_on, split_words, sub_chars, texts,
    trim, trim_end, trim_start, trimmed_end, trimmed_start, words,
};
use crate::types::{
    camp_code, camp_from_code, lemma_camp_code_round_trip, lemma_rank_code_round_trip, rank_code,
    rank_from_code, Camp, GameSnapshot, PieceState, Rank,
};

verus! {

/// A line that a client sends to the server.
#[derive(Clone, Copy, Debug)]
pub enum ClientCommand {
    Hello,
    Reveal { row: usize, col: usize },
    Move { from: (usize, usize), to: (usize, usize) },
}

/// A line that the server sends to a client.
#[derive(Clone, Debug)]
pub enum ServerMessage {
    Welcome { camp: Camp },
    Snapshot(GameSnapshot),
    Error(String),
    Event(String),
}

/// What a server message says, with its texts as characters.
pub enum MessageView {
    Welcome(Camp),
    Snapshot(Camp, Seq<PieceState>),
    Error(Seq<char>),
    Event(Seq<char>),
}

impl View for ServerMessage {
    type V = MessageView;

    open spec fn view(&self) -> MessageView {
        match self {
            ServerMessage::Welcome { camp } => MessageView::Welcome(*camp),
            ServerMessage::Snapshot(s) => MessageView::Snapshot(s.turn, s.pieces@),
            ServerMessage::Error(t) => MessageView::Error(t@),
            ServerMessage::Event(t) => MessageView::Event(t@),
        }
    }
}

pub open spec fn hello_word() -> Seq<char> {
    seq!['H', 'E', 'L', 'L', 'O']
}

pub open spec fn reveal_word() -> Seq<char> {
    seq!['R', 'E', 'V', 'E', 'A', 'L']
}

pub open spec fn move_word() -> Seq<char> {
    seq!['M', 'O', 'V', 'E']
}

pub open spec fn welcome_word() -> Seq<char> {
    seq!['W', 'E', 'L', 'C', 'O', 'M', 'E']
}

pub open spec fn snapshot_word() -> Seq<char> {
    seq!['S', 'N', 'A', 'P', 'S', 'H', 'O', 'T']
}

pub open spec fn error_word() -> Seq<char> {
    seq!['E', 'R', 'R', 'O', 'R']
}

pub open spec fn event_word() -> Seq<char> {
    seq!['E', 'V', 'E', 'N', 'T']
}

/// The line that encodes a client command.
pub open spec fn client_text(c: ClientCommand) -> Seq<char> {
    match c {
        ClientCommand::Hello => hello_word() + seq!['\n'],
        ClientCommand::Reveal { row, col } => reveal_word() + seq![' '] + decimal(row as nat)
            + seq![' '] + decimal(col as nat) + seq!['\n'],
        ClientCommand::Move { from, to } => move_word() + seq![' '] + decimal(from.0 as nat)
            + seq![' '] + decimal(from.1 as nat) + seq![' '] + decimal(to.0 as nat) + seq![' ']
            + decimal(to.1 as nat) + seq!['\n'],
    }
}

/// The line of a command without its line end, as a reader of lines
/// hands it over.
pub open spec fn client_body(c: ClientCommand) -> Seq<char> {
    match c {
        ClientCommand::Hello => hello_word(),
        ClientCommand::Reveal { row, col } => reveal_word() + seq![' '] + decimal(row as nat)
            + seq![' '] + decimal(col as nat),
        ClientCommand::Move { from, to } => move_word() + seq![' '] + decimal(from.0 as nat)
            + seq![' '] + decimal(from.1 as nat) + seq![' '] + decimal(to.0 as nat) + seq![' ']
            + decimal(to.1 as nat),
    }
}

/// A position read from two words, when both are numbers.
pub open spec fn read_cell(a: Seq<char>, b: Seq<char>) -> Option<(usize, usize)> {
    match (parse_unsigned(a, usize::MAX as int), parse_unsigned(b, usize::MAX as int)) {
        (Some(x), Some(y)) => Some((x as usize, y as usize)),
        _ => None,
    }
}

/// The command that a client line holds: its first word names it and the
/// numbers follow; extra words are ignored.
pub open spec fn read_client(line: Seq<char>) -> Option<ClientCommand> {
    let t = words(line);
    if t.len() == 0 {
        None
    } else if t[0] == hello_word() {
        Some(ClientCommand::Hello)
    } else if t[0] == reveal_word() {
        if t.len() < 3 {
            None
        } else {
            match read_cell(t[1], t[2]) {
                Some(c) => Some(ClientCommand::Reveal { row: c.0, col: c.1 }),
                None => None,
            }
        }
    } else if t[0] == move_word() {
        if t.len() < 5 {
            None
        } else {
            match (read_cell(t[1], t[2]), read_cell(t[3], t[4])) {
                (Some(f), Some(g)) => Some(ClientCommand::Move { from: f, to: g }),
                _ => None,
            }
        }
    } else {
        None
    }
}

pub open spec fn flag_text(b: bool) -> Seq<char> {
    if b {
        seq!['1']
    } else {
        seq!['0']
    }
}

/// A piece as a snapshot line writes it: seven fields joined by commas.
pub open spec fn piece_text(p: PieceState) -> Seq<char> {
    decimal(p.id as nat) + seq![','] + camp_code(p.camp) + seq![','] + rank_code(p.rank) + seq![',']
        + flag_text(p.revealed) + seq![','] + flag_text(p.alive) + seq![','] + decimal(p.row as nat)
        + seq![','] + decimal(p.col as nat)
}

/// The pieces of a snapshot joined by semicolons.
pub open spec fn pieces_text(ps: Seq<PieceState>) -> Seq<char>
    decreases ps.len(),
{
    if ps.len() == 0 {
        seq![]
    } else if ps.len() == 1 {
        piece_text(ps[0])
    } else {
        pieces_text(ps.drop_last()) + seq![';'] + piece_text(ps.last())
    }
}

/// The line that encodes a server message; newlines in a text become
/// spaces.
pub open spec fn server_text(m: MessageView) -> Seq<char> {
    match m {
        MessageView::Welcome(c) => welcome_word() + seq![' '] + camp_code(c) + seq!['\n'],
        MessageView::Snapshot(turn, ps) => snapshot_word() + seq![' '] + camp_code(turn) + seq![' ']
            + pieces_text(ps) + seq!['\n'],
        MessageView::Error(t) => error_word() + seq![' '] + one_line(t) + seq!['\n'],
        MessageView::Event(t) => event_word() + seq![' '] + one_line(t) + seq!['\n'],
    }
}

/// The piece that a field of a snapshot holds, when its first seven
/// comma-separated parts read as one; a flag is set when its part is `1`.
pub open spec fn read_piece(text: Seq<char>) -> Option<PieceState> {
    let f = split_on(text, ',');
    if f.len() < 7 {
        None
    } else {
        match (
            parse_unsigned(f[0], u32::MAX as int),
            camp_from_code(f[1]),
            rank_from_code(f[2]),
            parse_unsigned(f[5], usize::MAX as int),
            parse_unsigned(f[6], usize::MAX as int),
        ) {
            (Some(id), Some(camp), Some(rank), Some(row), Some(col)) => Some(
                PieceState {
                    id: id as u32,
                    camp,
                    rank,
                    revealed: f[3] == seq!['1'],
                    alive: f[4] == seq!['1'],
                    row: row as usize,
                    col: col as usize,
                },
            ),
            _ => None,
        }
    }
}

/// The pieces that the fields hold, skipping fields that hold none.
pub open spec fn read_pieces(fields: Seq<Seq<char>>) -> Seq<PieceState>
    decreases fields.len(),
{
    if fields.len() == 0 {
        seq![]
    } else {
        let before = read_pieces(fields.drop_last());
        match read_piece(fields.last()) {
            Some(p) => before.push(p),
            None => before,
        }
    }
}

/// `s` cut at its first space, or all of `s` and nothing.
pub open spec fn head_and_rest(s: Seq<char>) -> (Seq<char>, Seq<char>) {
    match split_once(s, ' ') {
        Some(p) => p,
        None => (s, seq![]),
    }
}

/// The message that a server line holds. Trailing white space is cut off;
/// the first word names the message and the rest of the line is its body.
pub open spec fn read_server(line: Seq<char>) -> Option<MessageView> {
    let (kind, rest) = head_and_rest(trim_end(line));
    if kind == welcome_word() {
        match camp_from_code(trim(rest)) {
            Some(c) => Some(MessageView::Welcome(c)),
            None => None,
        }
    } else if kind == snapshot_word() {
        let (camp, pieces) = head_and_rest(rest);
        match camp_from_code(camp) {
            Some(c) => Some(
                MessageView::Snapshot(
                    c,
                    if pieces.len() == 0 {
                        seq![]
                    } else {
                        read_pieces(split_on(pieces, ';'))
                    },
                ),
            ),
            None => None,
        }
    } else if kind == error_word() {
        Some(MessageView::Error(rest))
    } else if kind == event_word() {
        Some(MessageView::Event(rest))
    } else {
        None
    }
}

pub fn encode_client(command: &ClientCommand) -> (line: String)
    ensures
        line@ == client_text(*command),
{
    let mut out = String::new();
    match command {
        ClientCommand::Hello => {
            proof {
                reveal_strlit("HELLO\n");
            }
            out.append("HELLO\n");
            assert(out@ =~= client_text(*command));
        },
        ClientCommand::Reveal { row, col } => {
            proof {
                reveal_strlit("REVEAL ");
                reveal_strlit(" ");
                reveal_strlit("\n");
            }
            out.append("REVEAL ");
            push_decimal(&mut out, *row);
            out.append(" ");
            push_decimal(&mut out, *col);
            out.append("\n");
            assert(out@ =~= client_text(*command));
        },
        ClientCommand::Move { from, to } => {
            proof {
                reveal_strlit("MOVE ");
                reveal_strlit(" ");
                reveal_strlit("\n");
            }
            out.append("MOVE ");
            push_decimal(&mut out, from.0);
            out.append(" ");
            push_decimal(&mut out, from.1);
            out.append(" ");
            push_decimal(&mut out, to.0);
            out.append(" ");
            push_decimal(&mut out, to.1);
            out.append("\n");
            assert(out@ =~= client_text(*command));
        },
    }
    out
}

fn read_cell_words(a: &Vec<char>, b: &Vec<char>) -> (r: Option<(usize, usize)>)
    ensures
        r == read_cell(a@, b@),
{
    let x = parse_number(a, usize::MAX);
    let y = parse_number(b, usize::MAX);
    match (x, y) {
        (Some(x), Some(y)) => Some((x, y)),
        _ => None,
    }
}

pub fn decode_client(line: &str) -> (r: Option<ClientCommand>)
    ensures
        r == read_client(line@),
{
    let chars = chars_of(line);
    let t = split_words(&chars);
    proof {
        assert(t@.len() == words(line@).len());
        assert(forall|i: int| 0 <= i < t@.len() ==> t@[i]@ == #[trigger] words(line@)[i]);
    }
    if t.len() == 0 {
        return None;
    }
    assert(t@[0]@ == words(line@)[0]);
    if chars_equal(&t[0], &['H', 'E', 'L', 'L', 'O']) {
        return Some(ClientCommand::Hello);
    }
    if chars_equal(&t[0], &['R', 'E', 'V', 'E', 'A', 'L']) {
        if t.len() < 3 {
            return None;
        }
        assert(t@[1]@ == words(line@)[1] && t@[2]@ == words(line@)[2]);
        return match read_cell_words(&t[1], &t[2]) {
            Some(c) => Some(ClientCommand::Reveal { row: c.0, col: c.1 }),
            None => None,
        };
    }
    if chars_equal(&t[0], &['M', 'O', 'V', 'E']) {
        if t.len() < 5 {
            return None;
        }
        assert(t@[1]@ == words(line@)[1] && t@[2]@ == words(line@)[2]);
        assert(t@[3]@ == words(line@)[3] && t@[4]@ == words(line@)[4]);
        let from = read_cell_words(&t[1], &t[2]);
        let to = read_cell_words(&t[3], &t[4]);
        return match (from, to) {
            (Some(f), Some(g)) => Some(ClientCommand::Move { from: f, to: g }),
            _ => None,
        };
    }
    None
}

fn push_flag(out: &mut String, b: bool)
    ensures
        final(out)@ == old(out)@ + flag_text(b),
{
    proof {
        reveal_strlit("1");
        reveal_strlit("0");
    }
    if b {
        out.append("1");
    } else {
        out.append("0");
    }
}

/// Appends the text of a piece to `out`.
fn encode_piece(out: &mut String, piece: &PieceState)
    ensures
        final(out)@ == old(out)@ + piece_text(*piece),
{
    proof {
        reveal_strlit(",");
    }
    let ghost start = out@;
    push_decimal(out, piece.id as usize);
    out.append(",");
    out.append(piece.camp.code());
    out.append(",");
    out.append(piece.rank.code());
    out.append(",");
    push_flag(out, piece.revealed);
    out.append(",");
    push_flag(out, piece.alive);
    out.append(",");
    push_decimal(out, piece.row);
    out.append(",");
    push_decimal(out, piece.col);
    assert(out@ =~= start + piece_text(*piece));
}

pub fn encode_server(message: &ServerMessage) -> (line: String)
    ensures
        line@ == server_text(message@),
{
    let mut out = String::new();
    proof {
        reveal_strlit(" ");
        reveal_strlit("\n");
        reveal_strlit(";");
    }
    match message {
        ServerMessage::Welcome { camp } => {
            proof {
                reveal_strlit("WELCOME ");
            }
            out.append("WELCOME ");
            out.append(camp.code());
            out.append("\n");
        },
        ServerMessage::Snapshot(snapshot) => {
            proof {
                reveal_strlit("SNAPSHOT ");
            }
            out.append("SNAPSHOT ");
            out.append(snapshot.turn.code());
            out.append(" ");
            let ghost head = out@;
            let ghost ps = snapshot.pieces@;
            let n = snapshot.pieces.len();
            for i in 0..n
                invariant
                    n == ps.len(),
                    ps == snapshot.pieces@,
                    out@ == head + pieces_text(ps.take(i as int)),
            {
                proof {
                    assert(ps.take(i + 1).drop_last() =~= ps.take(i as int));
                    assert(ps.take(i + 1).last() == ps[i as int]);
                    if i == 0 {
                        assert(ps.take(1) =~= seq![ps[0]]);
                    }
                }
                let ghost before = out@;
                proof {
                    reveal_strlit(";");
                }
                if i > 0 {
                    out.append(";");
                }
                encode_piece(&mut out, &snapshot.pieces[i]);
                proof {
                    if i == 0 {
                        assert(pieces_text(ps.take(1)) == piece_text(ps[0]));
                        assert(pieces_text(ps.take(0)) =~= Seq::<char>::empty());
                    } else {
                        assert(pieces_text(ps.take(i + 1)) == pieces_text(ps.take(i as int)) + seq![
                            ';',
                        ] + piece_text(ps[i as int]));
                    }
                }
                assert(out@ =~= head + pieces_text(ps.take(i + 1)));
            }
            assert(ps.take(n as int) =~= ps);
            out.append("\n");
        },
        ServerMessage::Error(text) => {
            proof {
                reveal_strlit("ERROR ");
            }
            out.append("ERROR ");
            push_one_line(&mut out, text.as_str());
            out.append("\n");
        },
        ServerMessage::Event(text) => {
            proof {
                reveal_strlit("EVENT ");
            }
            out.append("EVENT ");
            push_one_line(&mut out, text.as_str());
            out.append("\n");
        },
    }
    assert(out@ =~= server_text(message@));
    out
}

fn decode_piece(text: &Vec<char>) -> (r: Option<PieceState>)
    ensures
        r == read_piece(text@),
{
    let f = split_chars(text, ',');
    proof {
        assert(f@.len() == split_on(text@, ',').len());
        assert(forall|i: int| 0 <= i < f@.len() ==> f@[i]@ == #[trigger] split_on(text@, ',')[i]);
    }
    if f.len() < 7 {
        return None;
    }
    let ghost g = split_on(text@, ',');
    assert(f@[0]@ == g[0] && f@[1]@ == g[1] && f@[2]@ == g[2] && f@[3]@ == g[3]);
    assert(f@[4]@ == g[4] && f@[5]@ == g[5] && f@[6]@ == g[6]);
    let id = parse_number(&f[0], u32::MAX as usize);
    let camp = Camp::from_chars(f[1].as_slice());
    let rank = Rank::from_chars(f[2].as_slice());
    let one = ['1'];
    assert(one@ =~= seq!['1']);
    let revealed = chars_equal(&f[3], &one);
    let alive = chars_equal(&f[4], &one);
    let row = parse_number(&f[5], usize::MAX);
    let col = parse_number(&f[6], usize::MAX);
    match (id, camp, rank, row, col) {
        (Some(id), Some(camp), Some(rank), Some(row), Some(col)) => Some(
            PieceState { id: id as u32, camp, rank, revealed, alive, row, col },
        ),
        _ => None,
    }
}

/// The pieces that the `;`-separated fields of `text` hold.
fn decode_pieces(text: &Vec<char>) -> (r: Vec<PieceState>)
    ensures
        r@ == read_pieces(split_on(text@, ';')),
{
    let fields = split_chars(text, ';');
    let ghost g = split_on(text@, ';');
    proof {
        assert(fields@.len() == g.len());
        assert(forall|i: int| 0 <= i < fields@.len() ==> fields@[i]@ == #[trigger] g[i]);
    }
    let mut pieces: Vec<PieceState> = Vec::new();
    for i in 0..fields.len()
        invariant
            fields@.len() == g.len(),
            forall|k: int| 0 <= k < fields@.len() ==> fields@[k]@ == #[trigger] g[k],
            pieces@ == read_pieces(g.take(i as int)),
    {
        assert(g.take(i + 1).drop_last() =~= g.take(i as int));
        assert(g.take(i + 1).last() == g[i as int]);
        assert(fields@[i as int]@ == g[i as int]);
        match decode_piece(&fields[i]) {
            Some(p) => pieces.push(p),
            None => {},
        }
    }
    assert(g.take(fields@.len() as int) =~= g);
    pieces
}

/// The first word of `chars` and the position where the rest begins.
fn cut_head(chars: &Vec<char>) -> (r: (Vec<char>, usize))
    ensures
        r.1 <= chars@.len(),
        (r.0@, chars@.skip(r.1 as int)) == head_and_rest(chars@),
{
    let j = find_char(chars, ' ');
    if j < chars.len() {
        let head = sub_chars(chars, 0, j);
        assert(head@ =~= chars@.take(j as int));
        (head, j + 1)
    } else {
        let head = sub_chars(chars, 0, j);
        assert(head@ =~= chars@);
        assert(chars@.skip(j as int) =~= Seq::<char>::empty());
        (head, j)
    }
}

pub fn decode_server(line: &str) -> (r: Option<ServerMessage>)
    ensures
        match r {
            Some(m) => read_server(line@) == Some(m@),
            None => read_server(line@) is None,
        },
{
    let chars = chars_of(line);
    let m = trimmed_end(&chars);
    let t = sub_chars(&chars, 0, m);
    assert(t@ =~= trim_end(line@));
    let (kind, at) = cut_head(&t);
    let rest = sub_chars(&t, at, m);
    assert(rest@ =~= t@.skip(at as int));
    if chars_equal(&kind, &['W', 'E', 'L', 'C', 'O', 'M', 'E']) {
        let e = trimmed_end(&rest);
        let front = sub_chars(&rest, 0, e);
        let k = trimmed_start(&front);
        let code = sub_chars(&front, k, e);
        assert(code@ =~= front@.skip(k as int));
        return match Camp::from_chars(code.as_slice()) {
            Some(c) => Some(ServerMessage::Welcome { camp: c }),
            None => None,
        };
    }
    if chars_equal(&kind, &['S', 'N', 'A', 'P', 'S', 'H', 'O', 'T']) {
        let (camp, at2) = cut_head(&rest);
        let pieces_text = sub_chars(&rest, at2, rest.len());
        assert(pieces_text@ =~= rest@.skip(at2 as int));
        let pieces = if pieces_text.len() == 0 {
            Vec::new()
        } else {
            decode_pieces(&pieces_text)
        };
        return match Camp::from_chars(camp.as_slice()) {
            Some(c) => Some(ServerMessage::Snapshot(GameSnapshot { turn: c, pieces })),
            None => None,
        };
    }
    if chars_equal(&kind, &['E', 'R', 'R', 'O', 'R']) {
        let body = String::from_str(line.substring_char(at, m));
        assert(body@ =~= rest@);
        return Some(ServerMessage::Error(body));
    }
    if chars_equal(&kind, &['E', 'V', 'E', 'N', 'T']) {
        let body = String::from_str(line.substring_char(at, m));
        assert(body@ =~= rest@);
        return Some(ServerMessage::Event(body));
    }
    None
}

/// Words of capital letters hold neither white space nor separators.
proof fn lemma_letters(w: Seq<char>)
    requires
        forall|i: int| 0 <= i < w.len() ==> 'A' <= #[trigger] w[i] <= 'Z',
    ensures
        no_space(w),
        lacks(w, ' '),
        lacks(w, ','),
        lacks(w, ';'),
{
}

proof fn lemma_keywords()
    ensures
        no_space(hello_word()),
        no_space(reveal_word()),
        no_space(move_word()),
        lacks(welcome_word(), ' '),
        lacks(snapshot_word(), ' '),
        lacks(error_word(), ' '),
        lacks(event_word(), ' '),
        hello_word() != reveal_word(),
        hello_word() != move_word(),
        reveal_word() != move_word(),
        welcome_word() != snapshot_word(),
        welcome_word() != error_word(),
        welcome_word() != event_word(),
        snapshot_word() != error_word(),
        snapshot_word() != event_word(),
        error_word() != event_word(),
        hello_word().len() >= 1,
        reveal_word().len() >= 1,
        move_word().len() >= 1,
{
    lemma_letters(hello_word());
    lemma_letters(reveal_word());
    lemma_letters(move_word());
    lemma_letters(welcome_word());
    lemma_letters(snapshot_word());
    lemma_letters(error_word());
    lemma_letters(event_word());
    assert(hello_word()[0] != move_word()[0]);
    assert(error_word()[1] != event_word()[1]);
}

/// The words of a numeral followed by the rest of a line.
proof fn lemma_number_then(n: nat, r: Seq<char>)
    requires
        r.len() == 0 || is_space(r[0]),
        n <= usize::MAX,
    ensures
        words(decimal(n) + r) == seq![decimal(n)] + words(r),
        parse_unsigned(decimal(n), usize::MAX as int) == Some(n as int),
{
    lemma_decimal(n);
    lemma_parse_decimal(n, usize::MAX as int);
    lemma_words_word_then(decimal(n), r);
}

proof fn lemma_line_end()
    ensures
        words(seq!['\n']) == Seq::<Seq<char>>::empty(),
{
    lemma_words_space_then('\n', seq![]);
    assert(seq!['\n'] + Seq::<char>::empty() =~= seq!['\n']);
}

proof fn lemma_reveal_words(row: usize, col: usize, nl: Seq<char>)
    requires
        nl == seq!['\n'] || nl == Seq::<char>::empty(),
    ensures
        words(client_body(ClientCommand::Reveal { row, col }) + nl) == seq![
            reveal_word(),
            decimal(row as nat),
            decimal(col as nat),
        ],
        parse_unsigned(decimal(row as nat), usize::MAX as int) == Some(row as int),
        parse_unsigned(decimal(col as nat), usize::MAX as int) == Some(col as int),
{
    lemma_keywords();
    lemma_line_end();
    let sp = seq![' '];
    let d1 = decimal(row as nat);
    let d2 = decimal(col as nat);
    let t2 = d2 + nl;
    lemma_number_then(col as nat, nl);
    let t1 = sp + t2;
    lemma_words_space_then(' ', t2);
    let x1 = d1 + t1;
    lemma_number_then(row as nat, t1);
    let t0 = sp + x1;
    lemma_words_space_then(' ', x1);
    lemma_words_word_then(reveal_word(), t0);
    assert(reveal_word() + t0 =~= client_body(ClientCommand::Reveal { row, col }) + nl);
    assert(words(reveal_word() + t0) =~= seq![reveal_word(), d1, d2]);
}

proof fn lemma_move_words(from: (usize, usize), to: (usize, usize), nl: Seq<char>)
    requires
        nl == seq!['\n'] || nl == Seq::<char>::empty(),
    ensures
        words(client_body(ClientCommand::Move { from, to }) + nl) == seq![
            move_word(),
            decimal(from.0 as nat),
            decimal(from.1 as nat),
            decimal(to.0 as nat),
            decimal(to.1 as nat),
        ],
        parse_unsigned(decimal(from.0 as nat), usize::MAX as int) == Some(from.0 as int),
        parse_unsigned(decimal(from.1 as nat), usize::MAX as int) == Some(from.1 as int),
        parse_unsigned(decimal(to.0 as nat), usize::MAX as int) == Some(to.0 as int),
        parse_unsigned(decimal(to.1 as nat), usize::MAX as int) == Some(to.1 as int),
{
    lemma_keywords();
    lemma_line_end();
    let sp = seq![' '];
    let d1 = decimal(from.0 as nat);
    let d2 = decimal(from.1 as nat);
    let d3 = decimal(to.0 as nat);
    let d4 = decimal(to.1 as nat);
    let t4 = d4 + nl;
    lemma_number_then(to.1 as nat, nl);
    lemma_words_space_then(' ', t4);
    let t3 = d3 + (sp + t4);
    lemma_number_then(to.0 as nat, sp + t4);
    lemma_words_space_then(' ', t3);
    let t2 = d2 + (sp + t3);
    lemma_number_then(from.1 as nat, sp + t3);
    lemma_words_space_then(' ', t2);
    let t1 = d1 + (sp + t2);
    lemma_number_then(from.0 as nat, sp + t2);
    lemma_words_space_then(' ', t1);
    lemma_words_word_then(move_word(), sp + t1);
    assert(move_word() + (sp + t1) =~= client_body(ClientCommand::Move { from, to }) + nl);
    assert(words(move_word() + (sp + t1)) =~= seq![move_word(), d1, d2, d3, d4]);
}

/// Every client command reads back from the line that encodes it, with its
/// line end and without it, as a reader of lines hands it over.
pub proof fn lemma_client_round_trip(c: ClientCommand)
    ensures
        client_text(c) == client_body(c) + seq!['\n'],
        read_client(client_text(c)) == Some(c),
        read_client(client_body(c)) == Some(c),
{
    lemma_keywords();
    let nl = seq!['\n'];
    let none = Seq::<char>::empty();
    assert(client_body(c) + none =~= client_body(c));
    assert(client_text(c) =~= client_body(c) + nl);
    match c {
        ClientCommand::Hello => {
            lemma_line_end();
            lemma_words_word_then(hello_word(), nl);
            lemma_words_word_then(hello_word(), none);
            assert(words(client_text(c)) =~= seq![hello_word()]);
            assert(words(client_body(c)) =~= seq![hello_word()]);
        },
        ClientCommand::Reveal { row, col } => {
            lemma_reveal_words(row, col, nl);
            lemma_reveal_words(row, col, none);
        },
        ClientCommand::Move { from, to } => {
            lemma_move_words(from, to, nl);
            lemma_move_words(from, to, none);
        },
    }
}

proof fn lemma_code_letter(c: Camp, r: Rank)
    ensures
        camp_code(c).len() == 1,
        rank_code(r).len() == 1,
        !is_space(camp_code(c)[0]),
        lacks(camp_code(c), ' '),
        lacks(camp_code(c), ','),
        lacks(camp_code(c), ';'),
        lacks(rank_code(r), ','),
        lacks(rank_code(r), ';'),
{
}

/// Digits hold no white space.
proof fn lemma_digits_no_space(s: Seq<char>)
    requires
        all_digits(s),
    ensures
        no_space(s),
{
    assert forall|i: int| 0 <= i < s.len() implies !is_space(#[trigger] s[i]) by {
        assert(is_digit(s[i]));
    }
}

/// Text without white space stays so when joined.
proof fn lemma_no_space_concat(a: Seq<char>, b: Seq<char>)
    requires
        no_space(a),
        no_space(b),
    ensures
        no_space(a + b),
{
    assert forall|i: int| 0 <= i < (a + b).len() implies !is_space(#[trigger] (a + b)[i]) by {
        if i < a.len() {
            assert((a + b)[i] == a[i]);
        } else {
            assert((a + b)[i] == b[i - a.len()]);
        }
    }
}

/// A piece reads back from the text that encodes it. The text is seven
/// fields parted by commas, with no semicolon and no white space in it.
pub proof fn lemma_piece_round_trip(p: PieceState)
    ensures
        read_piece(piece_text(p)) == Some(p),
        split_on(piece_text(p), ',') == seq![
            decimal(p.id as nat),
            camp_code(p.camp),
            rank_code(p.rank),
            flag_text(p.revealed),
            flag_text(p.alive),
            decimal(p.row as nat),
            decimal(p.col as nat),
        ],
        no_space(piece_text(p)),
        lacks(piece_text(p), ';'),
        piece_text(p).len() >= 1,
        !is_space(piece_text(p).last()),
{
    let c = seq![','];
    let d0 = decimal(p.id as nat);
    let f1 = camp_code(p.camp);
    let f2 = rank_code(p.rank);
    let f3 = flag_text(p.revealed);
    let f4 = flag_text(p.alive);
    let d5 = decimal(p.row as nat);
    let d6 = decimal(p.col as nat);
    lemma_parse_decimal(p.id as nat, u32::MAX as int);
    lemma_parse_decimal(p.row as nat, usize::MAX as int);
    lemma_parse_decimal(p.col as nat, usize::MAX as int);
    lemma_code_letter(p.camp, p.rank);
    lemma_decimal(p.col as nat);
    assert(lacks(f3, ',') && lacks(f4, ',') && lacks(f3, ';') && lacks(f4, ';'));
    let a1 = d0 + c + f1;
    let a2 = a1 + c + f2;
    let a3 = a2 + c + f3;
    let a4 = a3 + c + f4;
    let a5 = a4 + c + d5;
    let a6 = a5 + c + d6;
    assert(a6 =~= piece_text(p));
    lemma_split_whole(d0, ',');
    lemma_split_then(d0, f1, ',');
    lemma_split_then(a1, f2, ',');
    lemma_split_then(a2, f3, ',');
    lemma_split_then(a3, f4, ',');
    lemma_split_then(a4, d5, ',');
    lemma_split_then(a5, d6, ',');
    let f = split_on(piece_text(p), ',');
    assert(f =~= seq![d0, f1, f2, f3, f4, d5, d6]);
    lemma_camp_code_round_trip(p.camp);
    lemma_rank_code_round_trip(p.rank);
    assert(seq!['0'] != seq!['1']) by {
        assert(seq!['0'][0] != seq!['1'][0]);
    }
    assert(lacks(c, ';'));
    lemma_lacks_concat(d0, c, ';');
    lemma_lacks_concat(d0 + c, f1, ';');
    lemma_lacks_concat(a1, c, ';');
    lemma_lacks_concat(a1 + c, f2, ';');
    lemma_lacks_concat(a2, c, ';');
    lemma_lacks_concat(a2 + c, f3, ';');
    lemma_lacks_concat(a3, c, ';');
    lemma_lacks_concat(a3 + c, f4, ';');
    lemma_lacks_concat(a4, c, ';');
    lemma_lacks_concat(a4 + c, d5, ';');
    lemma_lacks_concat(a5, c, ';');
    lemma_lacks_concat(a5 + c, d6, ';');
    assert(a6.last() == d6.last());
    assert(!is_space(d6[d6.len() - 1]));
    lemma_decimal(p.id as nat);
    lemma_decimal(p.row as nat);
    lemma_digits_no_space(d0);
    lemma_digits_no_space(d5);
    lemma_digits_no_space(d6);
    assert(no_space(c));
    assert(no_space(f1));
    assert(no_space(f2)) by {
        assert(!is_space(rank_code(p.rank)[0]));
    }
    assert(no_space(f3) && no_space(f4));
    lemma_no_space_concat(d0, c);
    lemma_no_space_concat(d0 + c, f1);
    lemma_no_space_concat(a1, c);
    lemma_no_space_concat(a1 + c, f2);
    lemma_no_space_concat(a2, c);
    lemma_no_space_concat(a2 + c, f3);
    lemma_no_space_concat(a3, c);
    lemma_no_space_concat(a3 + c, f4);
    lemma_no_space_concat(a4, c);
    lemma_no_space_concat(a4 + c, d5);
    lemma_no_space_concat(a5, c);
    lemma_no_space_concat(a5 + c, d6);
}

/// The parts of the text of several pieces are the texts of the pieces.
proof fn lemma_split_pieces(ps: Seq<PieceState>)
    requires
        ps.len() >= 1,
    ensures
        split_on(pieces_text(ps), ';') == Seq::new(ps.len(), |i: int| piece_text(ps[i])),
        pieces_text(ps).len() >= 1,
        !is_space(pieces_text(ps).last()),
    decreases ps.len(),
{
    lemma_piece_round_trip(ps.last());
    if ps.len() == 1 {
        lemma_piece_round_trip(ps[0]);
        lemma_split_whole(piece_text(ps[0]), ';');
        assert(Seq::new(ps.len(), |i: int| piece_text(ps[i])) =~= seq![piece_text(ps[0])]);
    } else {
        lemma_split_pieces(ps.drop_last());
        lemma_split_then(pieces_text(ps.drop_last()), piece_text(ps.last()), ';');
        assert(Seq::new(ps.len(), |i: int| piece_text(ps[i])) =~= Seq::new(
            ps.drop_last().len(),
            |i: int| piece_text(ps.drop_last()[i]),
        ) + seq![piece_text(ps.last())]);
    }
}

proof fn lemma_read_pieces(ps: Seq<PieceState>)
    ensures
        read_pieces(Seq::new(ps.len(), |i: int| piece_text(ps[i]))) == ps,
    decreases ps.len(),
{
    let f = Seq::new(ps.len(), |i: int| piece_text(ps[i]));
    if ps.len() > 0 {
        lemma_read_pieces(ps.drop_last());
        assert(f.drop_last() =~= Seq::new(ps.drop_last().len(), |i: int| piece_text(ps.drop_last()[i])));
        lemma_piece_round_trip(ps.last());
        assert(ps.drop_last().push(ps.last()) =~= ps);
    } else {
        assert(ps =~= Seq::<PieceState>::empty());
    }
}

/// What a message becomes on its way over the wire: a text loses its
/// newlines, which become spaces, and then its trailing white space.
pub open spec fn settled(m: MessageView) -> MessageView {
    match m {
        MessageView::Error(t) => MessageView::Error(trim_end(one_line(t))),
        MessageView::Event(t) => MessageView::Event(trim_end(one_line(t))),
        _ => m,
    }
}

/// A text that crosses the wire unchanged: no newline and no trailing
/// white space.
pub open spec fn plain(t: Seq<char>) -> bool {
    lacks(t, '\n') && (t.len() == 0 || !is_space(t.last()))
}

pub open spec fn plain_message(m: MessageView) -> bool {
    match m {
        MessageView::Error(t) => plain(t),
        MessageView::Event(t) => plain(t),
        _ => true,
    }
}

proof fn lemma_text_body(word: Seq<char>, t: Seq<char>)
    requires
        lacks(word, ' '),
        word.len() >= 1,
        forall|i: int| 0 <= i < word.len() ==> 'A' <= #[trigger] word[i] <= 'Z',
    ensures
        head_and_rest(trim_end(word + seq![' '] + one_line(t) + seq!['\n'])) == (word, trim_end(
            one_line(t),
        )),
        plain(t) ==> trim_end(one_line(t)) == t,
{
    let l = one_line(t);
    let x = word + seq![' '] + l;
    lemma_trim_end_concat(x, seq!['\n']);
    lemma_trim_end_space('\n');
    lemma_trim_end_concat(word + seq![' '], l);
    lemma_trim_end_concat(word, seq![' ']);
    lemma_trim_end_space(' ');
    assert(!is_space(word.last()));
    assert(trim_end(word) == word);
    if trim_end(l).len() > 0 {
        lemma_split_once_at(word, trim_end(l), ' ');
    } else {
        lemma_split_once_at(word, seq![], ' ');
        assert(trim_end(l) =~= Seq::<char>::empty());
    }
    if plain(t) {
        assert(l =~= t);
    }
}

/// Every server message reads back from the line that encodes it, as the
/// wire leaves it; a message whose texts are plain reads back unchanged.
pub proof fn lemma_server_round_trip(m: MessageView)
    ensures
        read_server(server_text(m)) == Some(settled(m)),
        plain_message(m) ==> read_server(server_text(m)) == Some(m),
{
    lemma_keywords();
    lemma_letters(welcome_word());
    lemma_letters(snapshot_word());
    let sp = seq![' '];
    let nl = seq!['\n'];
    lemma_trim_end_space('\n');
    match m {
        MessageView::Welcome(c) => {
            lemma_code_letter(c, Rank::Unknown);
            let x = welcome_word() + sp + camp_code(c);
            lemma_trim_end_concat(x, nl);
            assert(trim_end(x) == x);
            lemma_split_once_at(welcome_word(), camp_code(c), ' ');
            assert(trim_end(camp_code(c)) == camp_code(c));
            assert(trim_start(camp_code(c)) == camp_code(c));
            lemma_camp_code_round_trip(c);
        },
        MessageView::Snapshot(turn, ps) => {
            lemma_code_letter(turn, Rank::Unknown);
            lemma_camp_code_round_trip(turn);
            let code = camp_code(turn);
            let p = pieces_text(ps);
            let x = snapshot_word() + sp + code + sp + p;
            lemma_trim_end_concat(x, nl);
            assert(x + nl =~= server_text(m));
            if ps.len() == 0 {
                assert(p =~= Seq::<char>::empty());
                let y = snapshot_word() + sp + code;
                lemma_trim_end_concat(y, sp);
                lemma_trim_end_space(' ');
                assert(x =~= y + sp);
                assert(trim_end(y) == y);
                lemma_split_once_at(snapshot_word(), code, ' ');
                lemma_split_once_at(code, seq![], ' ');
                assert(ps =~= Seq::<PieceState>::empty());
            } else {
                lemma_split_pieces(ps);
                assert(trim_end(x) == x);
                assert(x =~= snapshot_word() + sp + (code + sp + p));
                lemma_split_once_at(snapshot_word(), code + sp + p, ' ');
                lemma_split_once_at(code, p, ' ');
                lemma_read_pieces(ps);
            }
        },
        MessageView::Error(t) => {
            lemma_letters(error_word());
            lemma_text_body(error_word(), t);
        },
        MessageView::Event(t) => {
            lemma_letters(event_word());
            lemma_text_body(event_word(), t);
        },
    }
}

} // verus!
