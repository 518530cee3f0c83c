use vstd::prelude::*;

verus! {

pub const BOARD_ROWS: usize = 12;

pub const BOARD_COLS: usize = 5;

/// The rows in which the blue pieces start: `BLUE_HOME_START..BLUE_HOME_END`.
pub const BLUE_HOME_START: usize = 0;

pub const BLUE_HOME_END: usize = 5;

/// The rows in which the red pieces start: `RED_HOME_START..RED_HOME_END`.
pub const RED_HOME_START: usize = 7;

pub const RED_HOME_END: usize = 12;

/// The kind of ground a cell of the board is.
#[derive(Clone, Copy, PartialEq, Eq, Debug, Structural)]
pub enum Terrain {
    Road,
    Railway,
    Camp,
}

/// A line of the board along which a piece may travel.
#[derive(Clone, Copy, Debug)]
pub struct BoardConnection {
    pub from: (usize, usize),
    pub to: (usize, usize),
    pub railway: bool,
}

/// The ten camps, the safe cells in which a piece cannot be attacked.
pub open spec fn camp_cell(row: int, col: int) -> bool {
    ||| row == 2 && col == 1
    ||| row == 2 && col == 3
    ||| row == 3 && col == 2
    ||| row == 4 && col == 1
    ||| row == 4 && col == 3
    ||| row == 7 && col == 1
    ||| row == 7 && col == 3
    ||| row == 8 && col == 2
    ||| row == 9 && col == 1
    ||| row == 9 && col == 3
}

/// The railway: rows 1, 5, 6 and 10 whole, and columns 0, 2 and 4 between
/// rows 1 and 10, camps excepted.
pub open spec fn railway_cell(row: int, col: int) -> bool {
    &&& !camp_cell(row, col)
    &&& (row == 1 || row == 5 || row == 6 || row == 10 || (1 <= row <= 10 && (col == 0 || col
        == 2 || col == 4)))
}

/// The terrain of a cell; cells off the board follow the same rule.
pub open spec fn terrain(row: int, col: int) -> Terrain {
    if camp_cell(row, col) {
        Terrain::Camp
    } else if railway_cell(row, col) {
        Terrain::Railway
    } else {
        Terrain::Road
    }
}

pub open spec fn on_board(cell: (usize, usize)) -> bool {
    cell.0 < BOARD_ROWS && cell.1 < BOARD_COLS
}

/// A row in which the pieces start.
pub open spec fn home_row(row: int) -> bool {
    BLUE_HOME_START <= row < BLUE_HOME_END || RED_HOME_START <= row < RED_HOME_END
}

/// A cell on which a piece is placed at the start of a game.
pub open spec fn start_cell(cell: (usize, usize)) -> bool {
    home_row(cell.0 as int) && cell.1 < BOARD_COLS && !camp_cell(cell.0 as int, cell.1 as int)
}

/// How many of the first `k` cells of `row` are not camps.
pub open spec fn starts_in_row(row: int, k: int) -> int
    decreases k,
{
    if k <= 0 {
        0
    } else {
        starts_in_row(row, k - 1) + if camp_cell(row, k - 1) {
            0int
        } else {
            1int
        }
    }
}

/// How many start cells lie in the rows above `row`.
pub open spec fn starts_above(row: int) -> int
    decreases row,
{
    if row <= 0 {
        0
    } else {
        starts_above(row - 1) + if home_row(row - 1) {
            starts_in_row(row - 1, 5)
        } else {
            0int
        }
    }
}

/// `a` comes strictly before `b` in row-major order.
pub open spec fn cell_before(a: (usize, usize), b: (usize, usize)) -> bool {
    a.0 < b.0 || (a.0 == b.0 && a.1 < b.1)
}

/// Whether the railway runs along the whole line from `from` to `to`.
pub open spec fn railway_link(from: (usize, usize), to: (usize, usize)) -> bool {
    terrain(from.0 as int, from.1 as int) == Terrain::Railway && terrain(to.0 as int, to.1 as int)
        == Terrain::Railway
}

/// A line between a cell and its neighbour below or to its right.
pub open spec fn straight_link(from: (usize, usize), to: (usize, usize)) -> bool {
    &&& on_board(from)
    &&& on_board(to)
    &&& ((to.0 == from.0 + 1 && to.1 == from.1) || (to.0 == from.0 && to.1 == from.1 + 1))
}

/// A diagonal line down and to the right that touches a camp.
pub open spec fn down_right_link(from: (usize, usize), to: (usize, usize)) -> bool {
    &&& on_board(to)
    &&& to.0 == from.0 + 1
    &&& to.1 == from.1 + 1
    &&& (camp_cell(from.0 as int, from.1 as int) || camp_cell(to.0 as int, to.1 as int))
}

/// A diagonal line down and to the left that touches a camp.
pub open spec fn down_left_link(from: (usize, usize), to: (usize, usize)) -> bool {
    &&& on_board(from)
    &&& on_board(to)
    &&& to.0 == from.0 + 1
    &&& from.1 == to.1 + 1
    &&& (camp_cell(from.0 as int, from.1 as int) || camp_cell(to.0 as int, to.1 as int))
}

/// The lines of the board, each listed once, from the upper cell (or the
/// left one) to the other.
pub open spec fn board_link(from: (usize, usize), to: (usize, usize)) -> bool {
    straight_link(from, to) || down_right_link(from, to) || down_left_link(from, to)
}

/// `s` holds a connection from `from` to `to`.
pub open spec fn lists_link(s: Seq<BoardConnection>, from: (usize, usize), to: (usize, usize)) -> bool {
    exists|i: int| 0 <= i < s.len() && #[trigger] s[i].from == from && s[i].to == to
}

/// The board looks the same to both players: mirrored top to bottom or
/// left to right, every cell keeps its terrain, and so does every start
/// cell.
pub proof fn lemma_board_symmetric(row: usize, col: usize)
    requires
        row < BOARD_ROWS,
        col < BOARD_COLS,
    ensures
        terrain(row as int, col as int) == terrain(11 - row, col as int),
        terrain(row as int, col as int) == terrain(row as int, 4 - col),
        start_cell((row, col)) == start_cell(((11 - row) as usize, col)),
        start_cell((row, col)) == start_cell((row, (4 - col) as usize)),
        start_cell((row, col)) <==> (home_row(row as int) && terrain(row as int, col as int)
            != Terrain::Camp),
{
}

pub fn terrain_at(row: usize, col: usize) -> (t: Terrain)
    ensures
        t == terrain(row as int, col as int),
{
    if is_camp(row, col) {
        Terrain::Camp
    } else if is_railway(row, col) {
        Terrain::Railway
    } else {
        Terrain::Road
    }
}

pub fn is_camp(row: usize, col: usize) -> (b: bool)
    ensures
        b == camp_cell(row as int, col as int),
{
    (row == 2 && col == 1) || (row == 2 && col == 3) || (row == 3 && col == 2) || (row == 4 && col
        == 1) || (row == 4 && col == 3) || (row == 7 && col == 1) || (row == 7 && col == 3) || (row
        == 8 && col == 2) || (row == 9 && col == 1) || (row == 9 && col == 3)
}

fn is_railway(row: usize, col: usize) -> (b: bool)
    ensures
        b == railway_cell(row as int, col as int),
{
    if is_camp(row, col) {
        return false;
    }
    row == 1 || row == 5 || row == 6 || row == 10 || (1 <= row && row <= 10 && (col == 0 || col
        == 2 || col == 4))
}

/// Appends the start cells of one row, left to right.
fn push_start_cells(cells: &mut Vec<(usize, usize)>, row: usize)
    requires
        home_row(row as int),
        forall|i: int| 0 <= i < old(cells)@.len() ==> (#[trigger] old(cells)@[i]).0 < row,
    ensures
        final(cells)@.len() == old(cells)@.len() + starts_in_row(row as int, 5),
        forall|i: int| 0 <= i < old(cells)@.len() ==> final(cells)@[i] == old(cells)@[i],
        forall|i: int|
            old(cells)@.len() <= i < final(cells)@.len() ==> (#[trigger] final(cells)@[i]).0 == row
                && start_cell(final(cells)@[i]),
        forall|i: int, j: int|
            old(cells)@.len() <= i < j < final(cells)@.len() ==> cell_before(
                #[trigger] final(cells)@[i],
                #[trigger] final(cells)@[j],
            ),
        forall|c: usize| c < BOARD_COLS && !camp_cell(row as int, c as int) ==> final(cells)@.contains(
            (row, c),
        ),
{
    let ghost start = cells@.len();
    for col in 0..BOARD_COLS
        invariant
            home_row(row as int),
            cells@.len() == start + starts_in_row(row as int, col as int),
            cells@.len() >= start,
            forall|i: int| 0 <= i < start ==> cells@[i] == old(cells)@[i],
            forall|i: int|
                start <= i < cells@.len() ==> (#[trigger] cells@[i]).0 == row && start_cell(
                    cells@[i],
                ) && cells@[i].1 < col,
            forall|i: int, j: int|
                start <= i < j < cells@.len() ==> cell_before(
                    #[trigger] cells@[i],
                    #[trigger] cells@[j],
                ),
            forall|c: usize|
                c < col && !camp_cell(row as int, c as int) ==> cells@.contains((row, c)),
    {
        if terrain_at(row, col) != Terrain::Camp {
            let ghost before = cells@;
            cells.push((row, col));
            assert(cells@[cells@.len() - 1] == (row, col));
            assert forall|c: usize|
                c < col + 1 && !camp_cell(row as int, c as int) implies cells@.contains((row, c)) by {
                if c < col {
                    let k = choose|k: int| 0 <= k < before.len() && before[k] == (row, c);
                    assert(cells@[k] == (row, c));
                }
            }
        }
    }
}

/// The cells on which the pieces start, in row-major order: every cell of
/// the home rows that is not a camp.
pub fn initial_positions() -> (cells: Vec<(usize, usize)>)
    ensures
        forall|i: int| 0 <= i < cells@.len() ==> start_cell(#[trigger] cells@[i]),
        forall|cell: (usize, usize)| start_cell(cell) ==> cells@.contains(cell),
        forall|i: int, j: int|
            0 <= i < j < cells@.len() ==> cell_before(#[trigger] cells@[i], #[trigger] cells@[j]),
        cells@.len() == 40,
{
    let mut cells: Vec<(usize, usize)> = Vec::new();
    for row in BLUE_HOME_START..BLUE_HOME_END
        invariant
            cells@.len() == starts_above(row as int),
            forall|i: int|
                0 <= i < cells@.len() ==> start_cell(#[trigger] cells@[i]) && cells@[i].0 < row,
            forall|cell: (usize, usize)|
                start_cell(cell) && cell.0 < row ==> cells@.contains(cell),
            forall|i: int, j: int|
                0 <= i < j < cells@.len() ==> cell_before(#[trigger] cells@[i], #[trigger] cells@[j]),
    {
        let ghost before = cells@;
        push_start_cells(&mut cells, row);
        proof {
            lemma_rows_extend(before, cells@, row);
        }
    }
    proof {
        assert(starts_above(6) == starts_above(5));
        assert(starts_above(7) == starts_above(6));
    }
    for row in RED_HOME_START..RED_HOME_END
        invariant
            cells@.len() == starts_above(row as int),
            forall|i: int|
                0 <= i < cells@.len() ==> start_cell(#[trigger] cells@[i]) && cells@[i].0 < row,
            forall|cell: (usize, usize)|
                start_cell(cell) && cell.0 < row ==> cells@.contains(cell),
            forall|i: int, j: int|
                0 <= i < j < cells@.len() ==> cell_before(#[trigger] cells@[i], #[trigger] cells@[j]),
    {
        let ghost before = cells@;
        push_start_cells(&mut cells, row);
        proof {
            lemma_rows_extend(before, cells@, row);
        }
    }
    proof {
        lemma_start_count();
    }
    cells
}

/// The board has forty start cells.
proof fn lemma_start_count()
    ensures
        starts_above(12) == 40,
{
    assert(starts_in_row(0, 5) == 5) by {
        reveal_with_fuel(starts_in_row, 6);
    }
    assert(starts_in_row(1, 5) == 5) by {
        reveal_with_fuel(starts_in_row, 6);
    }
    assert(starts_in_row(2, 5) == 3) by {
        reveal_with_fuel(starts_in_row, 6);
    }
    assert(starts_in_row(3, 5) == 4) by {
        reveal_with_fuel(starts_in_row, 6);
    }
    assert(starts_in_row(4, 5) == 3) by {
        reveal_with_fuel(starts_in_row, 6);
    }
    assert(starts_in_row(7, 5) == 3) by {
        reveal_with_fuel(starts_in_row, 6);
    }
    assert(starts_in_row(8, 5) == 4) by {
        reveal_with_fuel(starts_in_row, 6);
    }
    assert(starts_in_row(9, 5) == 3) by {
        reveal_with_fuel(starts_in_row, 6);
    }
    assert(starts_in_row(10, 5) == 5) by {
        reveal_with_fuel(starts_in_row, 6);
    }
    assert(starts_in_row(11, 5) == 5) by {
        reveal_with_fuel(starts_in_row, 6);
    }
    assert(starts_above(0) == 0);
    assert(starts_above(1) == 5);
    assert(starts_above(2) == 10);
    assert(starts_above(3) == 13);
    assert(starts_above(4) == 17);
    assert(starts_above(5) == 20);
    assert(starts_above(6) == 20);
    assert(starts_above(7) == 20);
    assert(starts_above(8) == 23);
    assert(starts_above(9) == 27);
    assert(starts_above(10) == 30);
    assert(starts_above(11) == 35);
    assert(starts_above(12) == 40);
}

proof fn lemma_rows_extend(before: Seq<(usize, usize)>, after: Seq<(usize, usize)>, row: usize)
    requires
        home_row(row as int),
        forall|i: int| 0 <= i < before.len() ==> start_cell(#[trigger] before[i]) && before[i].0 < row,
        forall|cell: (usize, usize)| start_cell(cell) && cell.0 < row ==> before.contains(cell),
        forall|i: int, j: int|
            0 <= i < j < before.len() ==> cell_before(#[trigger] before[i], #[trigger] before[j]),
        after.len() >= before.len(),
        forall|i: int| 0 <= i < before.len() ==> after[i] == before[i],
        forall|i: int|
            before.len() <= i < after.len() ==> (#[trigger] after[i]).0 == row && start_cell(after[i]),
        forall|i: int, j: int|
            before.len() <= i < j < after.len() ==> cell_before(#[trigger] after[i], #[trigger] after[j]),
        forall|c: usize| c < BOARD_COLS && !camp_cell(row as int, c as int) ==> after.contains((row, c)),
    ensures
        forall|i: int| 0 <= i < after.len() ==> start_cell(#[trigger] after[i]) && after[i].0 < row + 1,
        forall|cell: (usize, usize)| start_cell(cell) && cell.0 < row + 1 ==> after.contains(cell),
        forall|i: int, j: int|
            0 <= i < j < after.len() ==> cell_before(#[trigger] after[i], #[trigger] after[j]),
{
    assert forall|i: int| 0 <= i < after.len() implies start_cell(#[trigger] after[i]) && after[i].0
        < row + 1 by {
        if i < before.len() {
            assert(after[i] == before[i]);
        }
    }
    assert forall|cell: (usize, usize)| start_cell(cell) && cell.0 < row + 1 implies after.contains(
        cell,
    ) by {
        if cell.0 < row {
            let k = choose|k: int| 0 <= k < before.len() && before[k] == cell;
            assert(after[k] == cell);
        }
    }
    assert forall|i: int, j: int| 0 <= i < j < after.len() implies cell_before(
        #[trigger] after[i],
        #[trigger] after[j],
    ) by {
        if j < before.len() {
            assert(after[i] == before[i] && after[j] == before[j]);
        } else if i < before.len() {
            assert(after[i] == before[i]);
        }
    }
}

/// No line is listed twice in `s`.
pub open spec fn distinct_links(s: Seq<BoardConnection>) -> bool {
    forall|i: int, j: int|
        0 <= i < j < s.len() ==> !((#[trigger] s[i]).from == (#[trigger] s[j]).from && s[i].to
            == s[j].to)
}

/// A connection that joins the ends of a line of the board and says truly
/// whether the railway runs along it.
pub open spec fn good_connection(c: BoardConnection) -> bool {
    board_link(c.from, c.to) && c.railway == railway_link(c.from, c.to)
}

proof fn lemma_push_link(s: Seq<BoardConnection>, x: BoardConnection)
    requires
        distinct_links(s),
        !lists_link(s, x.from, x.to),
    ensures
        distinct_links(s.push(x)),
        lists_link(s.push(x), x.from, x.to),
        forall|f: (usize, usize), t: (usize, usize)|
            lists_link(s, f, t) ==> #[trigger] lists_link(s.push(x), f, t),
{
    let t = s.push(x);
    assert(t[s.len() as int] == x);
    assert forall|f: (usize, usize), u: (usize, usize)| lists_link(s, f, u) implies #[trigger] lists_link(
        t,
        f,
        u,
    ) by {
        let k = choose|k: int| 0 <= k < s.len() && #[trigger] s[k].from == f && s[k].to == u;
        assert(t[k] == s[k]);
    }
    assert forall|i: int, j: int| 0 <= i < j < t.len() implies !((#[trigger] t[i]).from == (
    #[trigger] t[j]).from && t[i].to == t[j].to) by {
        if j < s.len() {
            assert(t[i] == s[i] && t[j] == s[j]);
        } else {
            assert(t[i] == s[i]);
            if s[i].from == x.from && s[i].to == x.to {
                assert(lists_link(s, x.from, x.to));
            }
        }
    }
}

/// The connection drawn from `from` to `to`.
pub open spec fn link_of(from: (usize, usize), to: (usize, usize)) -> BoardConnection {
    BoardConnection { from, to, railway: railway_link(from, to) }
}

/// The lines listed first for the cell `(row, col)`: the one down, then the
/// one to the right, where the board goes on.
pub open spec fn straight_links_at(row: int, col: int) -> Seq<BoardConnection> {
    let here = (row as usize, col as usize);
    (if row + 1 < BOARD_ROWS {
        seq![link_of(here, ((row + 1) as usize, col as usize))]
    } else {
        seq![]
    }) + (if col + 1 < BOARD_COLS {
        seq![link_of(here, (row as usize, (col + 1) as usize))]
    } else {
        seq![]
    })
}

/// The straight lines of the first `col` cells of `row`.
pub open spec fn straight_links_row(row: int, col: int) -> Seq<BoardConnection>
    decreases col,
{
    if col <= 0 {
        seq![]
    } else {
        straight_links_row(row, col - 1) + straight_links_at(row, col - 1)
    }
}

/// The straight lines of the rows above `row`, row by row.
pub open spec fn straight_links_rows(row: int) -> Seq<BoardConnection>
    decreases row,
{
    if row <= 0 {
        seq![]
    } else {
        straight_links_rows(row - 1) + straight_links_row(row - 1, BOARD_COLS as int)
    }
}

/// The line down and to the right that ends on `(row, col)`, if it touches a
/// camp.
pub open spec fn down_right_at(row: int, col: int) -> Seq<BoardConnection> {
    if camp_cell(row - 1, col - 1) || camp_cell(row, col) {
        seq![link_of(((row - 1) as usize, (col - 1) as usize), (row as usize, col as usize))]
    } else {
        seq![]
    }
}

/// Those lines ending on the cells of `row` in the columns from 1 up to
/// `col`, `col` itself left out.
pub open spec fn down_right_row(row: int, col: int) -> Seq<BoardConnection>
    decreases col,
{
    if col <= 1 {
        seq![]
    } else {
        down_right_row(row, col - 1) + down_right_at(row, col - 1)
    }
}

/// Those lines ending in the rows from 1 up to `row`, `row` left out.
pub open spec fn down_right_rows(row: int) -> Seq<BoardConnection>
    decreases row,
{
    if row <= 1 {
        seq![]
    } else {
        down_right_rows(row - 1) + down_right_row(row - 1, BOARD_COLS as int)
    }
}

/// The line down and to the left that ends on `(row, col)`, if it touches a
/// camp.
pub open spec fn down_left_at(row: int, col: int) -> Seq<BoardConnection> {
    if camp_cell(row - 1, col + 1) || camp_cell(row, col) {
        seq![link_of(((row - 1) as usize, (col + 1) as usize), (row as usize, col as usize))]
    } else {
        seq![]
    }
}

/// Those lines ending on the first `col` cells of `row`.
pub open spec fn down_left_row(row: int, col: int) -> Seq<BoardConnection>
    decreases col,
{
    if col <= 0 {
        seq![]
    } else {
        down_left_row(row, col - 1) + down_left_at(row, col - 1)
    }
}

/// Those lines ending in the rows from 1 up to `row`, `row` left out.
pub open spec fn down_left_rows(row: int) -> Seq<BoardConnection>
    decreases row,
{
    if row <= 1 {
        seq![]
    } else {
        down_left_rows(row - 1) + down_left_row(row - 1, BOARD_COLS - 1)
    }
}

/// Every line of the board in the order it is listed: the straight lines
/// cell by cell in row-major order (down, then right), then the diagonals
/// down to the right, then the diagonals down to the left, each by the cell
/// they end on in row-major order.
pub open spec fn board_link_list() -> Seq<BoardConnection> {
    straight_links_rows(BOARD_ROWS as int) + down_right_rows(BOARD_ROWS as int) + down_left_rows(
        BOARD_ROWS as int,
    )
}

fn connection(from: (usize, usize), to: (usize, usize)) -> (c: BoardConnection)
    ensures
        c.from == from,
        c.to == to,
        c.railway == railway_link(from, to),
        c == link_of(from, to),
{
    BoardConnection {
        from,
        to,
        railway: terrain_at(from.0, from.1) == Terrain::Railway && terrain_at(to.0, to.1)
            == Terrain::Railway,
    }
}

/// Every line of the board, each once: between orthogonal neighbours, and
/// diagonally where one end is a camp. Each says whether it is railway.
pub fn board_connections() -> (links: Vec<BoardConnection>)
    ensures
        links@ == board_link_list(),
        forall|i: int| 0 <= i < links@.len() ==> good_connection(#[trigger] links@[i]),
        forall|f: (usize, usize), t: (usize, usize)|
            board_link(f, t) ==> #[trigger] lists_link(links@, f, t),
        distinct_links(links@),
{
    let mut links: Vec<BoardConnection> = Vec::new();
    for row in 0..BOARD_ROWS
        invariant
            links@ == straight_links_rows(row as int),
            forall|i: int|
                0 <= i < links@.len() ==> good_connection(#[trigger] links@[i])
                    && straight_link(links@[i].from, links@[i].to) && links@[i].from.0 < row,
            forall|f: (usize, usize), t: (usize, usize)|
                straight_link(f, t) && f.0 < row ==> #[trigger] lists_link(links@, f, t),
            distinct_links(links@),
    {
        for col in 0..BOARD_COLS
            invariant
                row < BOARD_ROWS,
                links@ == straight_links_rows(row as int) + straight_links_row(row as int, col as int),
                forall|i: int|
                    0 <= i < links@.len() ==> good_connection(#[trigger] links@[i])
                        && straight_link(links@[i].from, links@[i].to) && cell_before(
                        links@[i].from,
                        (row, col),
                    ),
                forall|f: (usize, usize), t: (usize, usize)|
                    straight_link(f, t) && cell_before(f, (row, col)) ==> #[trigger] lists_link(
                        links@,
                        f,
                        t,
                    ),
                distinct_links(links@),
        {
            let ghost start = links@;
            if row + 1 < BOARD_ROWS {
                let c = connection((row, col), (row + 1, col));
                proof {
                    if lists_link(links@, c.from, c.to) {
                        let k = choose|k: int|
                            0 <= k < links@.len() && #[trigger] links@[k].from == c.from
                                && links@[k].to == c.to;
                        assert(good_connection(links@[k]));
                    }
                    lemma_push_link(links@, c);
                }
                links.push(c);
            }
            let ghost middle = links@;
            if col + 1 < BOARD_COLS {
                let c = connection((row, col), (row, col + 1));
                proof {
                    if lists_link(links@, c.from, c.to) {
                        let k = choose|k: int|
                            0 <= k < links@.len() && #[trigger] links@[k].from == c.from
                                && links@[k].to == c.to;
                        assert(good_connection(links@[k]));
                    }
                    lemma_push_link(links@, c);
                }
                links.push(c);
            }
            assert(links@ =~= straight_links_rows(row as int) + straight_links_row(
                row as int,
                col + 1,
            ));
            assert forall|f: (usize, usize), t: (usize, usize)|
                straight_link(f, t) && cell_before(f, (row, (col + 1) as usize)) implies #[trigger] lists_link(
                links@,
                f,
                t,
            ) by {
                if cell_before(f, (row, col)) {
                    assert(lists_link(start, f, t));
                    assert(lists_link(middle, f, t));
                } else if t.0 == row + 1 {
                    assert(lists_link(middle, f, t));
                }
            }
        }
    }
    for row in 1..BOARD_ROWS
        invariant
            links@ == straight_links_rows(BOARD_ROWS as int) + down_right_rows(row as int),
            forall|i: int|
                0 <= i < links@.len() ==> good_connection(#[trigger] links@[i]) && (straight_link(
                    links@[i].from,
                    links@[i].to,
                ) || (down_right_link(links@[i].from, links@[i].to) && links@[i].to.0 < row)),
            forall|f: (usize, usize), t: (usize, usize)|
                straight_link(f, t) ==> #[trigger] lists_link(links@, f, t),
            forall|f: (usize, usize), t: (usize, usize)|
                down_right_link(f, t) && t.0 < row ==> #[trigger] lists_link(links@, f, t),
            distinct_links(links@),
    {
        for col in 1..BOARD_COLS
            invariant
                1 <= row < BOARD_ROWS,
                links@ == straight_links_rows(BOARD_ROWS as int) + down_right_rows(row as int)
                    + down_right_row(row as int, col as int),
                forall|i: int|
                    0 <= i < links@.len() ==> good_connection(#[trigger] links@[i]) && (
                    straight_link(links@[i].from, links@[i].to) || (down_right_link(
                        links@[i].from,
                        links@[i].to,
                    ) && cell_before(links@[i].to, (row, col)))),
                forall|f: (usize, usize), t: (usize, usize)|
                    straight_link(f, t) ==> #[trigger] lists_link(links@, f, t),
                forall|f: (usize, usize), t: (usize, usize)|
                    down_right_link(f, t) && cell_before(t, (row, col)) ==> #[trigger] lists_link(
                        links@,
                        f,
                        t,
                    ),
                distinct_links(links@),
        {
            let ghost start = links@;
            let from = (row - 1, col - 1);
            let to = (row, col);
            if is_camp(from.0, from.1) || is_camp(to.0, to.1) {
                let c = connection(from, to);
                proof {
                    if lists_link(links@, c.from, c.to) {
                        let k = choose|k: int|
                            0 <= k < links@.len() && #[trigger] links@[k].from == c.from
                                && links@[k].to == c.to;
                        assert(good_connection(links@[k]));
                    }
                    lemma_push_link(links@, c);
                }
                links.push(c);
            }
            assert forall|f: (usize, usize), t: (usize, usize)|
                straight_link(f, t) implies #[trigger] lists_link(links@, f, t) by {
                assert(lists_link(start, f, t));
            }
            assert(links@ =~= straight_links_rows(BOARD_ROWS as int) + down_right_rows(row as int)
                + down_right_row(row as int, col + 1));
            assert forall|f: (usize, usize), t: (usize, usize)|
                down_right_link(f, t) && cell_before(t, (row, (col + 1) as usize)) implies #[trigger] lists_link(
                links@,
                f,
                t,
            ) by {
                if cell_before(t, (row, col)) {
                    assert(lists_link(start, f, t));
                }
            }
        }
    }
    for row in 1..BOARD_ROWS
        invariant
            links@ == straight_links_rows(BOARD_ROWS as int) + down_right_rows(BOARD_ROWS as int)
                + down_left_rows(row as int),
            forall|i: int|
                0 <= i < links@.len() ==> good_connection(#[trigger] links@[i]) && (straight_link(
                    links@[i].from,
                    links@[i].to,
                ) || down_right_link(links@[i].from, links@[i].to) || (down_left_link(
                    links@[i].from,
                    links@[i].to,
                ) && links@[i].to.0 < row)),
            forall|f: (usize, usize), t: (usize, usize)|
                straight_link(f, t) || down_right_link(f, t) ==> #[trigger] lists_link(
                    links@,
                    f,
                    t,
                ),
            forall|f: (usize, usize), t: (usize, usize)|
                down_left_link(f, t) && t.0 < row ==> #[trigger] lists_link(links@, f, t),
            distinct_links(links@),
    {
        for col in 0..BOARD_COLS - 1
            invariant
                1 <= row < BOARD_ROWS,
                links@ == straight_links_rows(BOARD_ROWS as int) + down_right_rows(BOARD_ROWS as int)
                    + down_left_rows(row as int) + down_left_row(row as int, col as int),
                forall|i: int|
                    0 <= i < links@.len() ==> good_connection(#[trigger] links@[i]) && (
                    straight_link(links@[i].from, links@[i].to) || down_right_link(
                        links@[i].from,
                        links@[i].to,
                    ) || (down_left_link(links@[i].from, links@[i].to) && cell_before(
                        links@[i].to,
                        (row, col),
                    ))),
                forall|f: (usize, usize), t: (usize, usize)|
                    straight_link(f, t) || down_right_link(f, t) ==> #[trigger] lists_link(
                        links@,
                        f,
                        t,
                    ),
                forall|f: (usize, usize), t: (usize, usize)|
                    down_left_link(f, t) && cell_before(t, (row, col)) ==> #[trigger] lists_link(
                        links@,
                        f,
                        t,
                    ),
                distinct_links(links@),
        {
            let ghost start = links@;
            let from = (row - 1, col + 1);
            let to = (row, col);
            if is_camp(from.0, from.1) || is_camp(to.0, to.1) {
                let c = connection(from, to);
                proof {
                    if lists_link(links@, c.from, c.to) {
                        let k = choose|k: int|
                            0 <= k < links@.len() && #[trigger] links@[k].from == c.from
                                && links@[k].to == c.to;
                        assert(good_connection(links@[k]));
                    }
                    lemma_push_link(links@, c);
                }
                links.push(c);
            }
            assert forall|f: (usize, usize), t: (usize, usize)|
                straight_link(f, t) || down_right_link(f, t) implies #[trigger] lists_link(
                links@,
                f,
                t,
            ) by {
                assert(lists_link(start, f, t));
            }
            assert(links@ =~= straight_links_rows(BOARD_ROWS as int) + down_right_rows(
                BOARD_ROWS as int,
            ) + down_left_rows(row as int) + down_left_row(row as int, col + 1));
            assert forall|f: (usize, usize), t: (usize, usize)|
                down_left_link(f, t) && cell_before(t, (row, (col + 1) as usize)) implies #[trigger] lists_link(
                links@,
                f,
                t,
            ) by {
                if cell_before(t, (row, col)) {
                    assert(lists_link(start, f, t));
                }
            }
        }
    }
    links
}

} // verus!
