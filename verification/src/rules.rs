use vstd::prelude::*;
use crate::board::{terrain, terrain_at, on_board, Terrain, BOARD_ROWS, BOARD_COLS};
use crate::types::{rank_strength, rank_can_move, BattleOutcome, PieceState, Rank};

verus! {

/// A cell given by row and column.
pub type Cell = (usize, usize);

/// What a battle between `attacker` and `defender` ends in.
pub open spec fn battle(attacker: Rank, defender: Rank) -> BattleOutcome {
    if attacker == Rank::Bomb || defender == Rank::Bomb {
        BattleOutcome::BothRemoved
    } else if defender == Rank::Mine {
        if attacker == Rank::Engineer {
            BattleOutcome::AttackerWins
        } else {
            BattleOutcome::DefenderWins
        }
    } else if rank_strength(attacker) > rank_strength(defender) {
        BattleOutcome::AttackerWins
    } else if rank_strength(attacker) < rank_strength(defender) {
        BattleOutcome::DefenderWins
    } else {
        BattleOutcome::BothRemoved
    }
}

/// A weaker piece may not attack a stronger one: it would lose.
pub open spec fn loses_attack(attacker: Rank, defender: Rank) -> bool {
    if attacker == Rank::Bomb || defender == Rank::Bomb {
        false
    } else if defender == Rank::Mine {
        attacker != Rank::Engineer
    } else {
        rank_strength(attacker) < rank_strength(defender)
    }
}

/// A battle with a bomb in it blows up.
pub open spec fn explodes(attacker: Rank, defender: Rank) -> bool {
    attacker == Rank::Bomb || defender == Rank::Bomb
}

pub fn resolve_battle(attacker: Rank, defender: Rank) -> (r: BattleOutcome)
    ensures
        r == battle(attacker, defender),
{
    if attacker == Rank::Bomb || defender == Rank::Bomb {
        return BattleOutcome::BothRemoved;
    }
    if defender == Rank::Mine {
        return if attacker == Rank::Engineer {
            BattleOutcome::AttackerWins
        } else {
            BattleOutcome::DefenderWins
        };
    }
    let a = attacker.strength();
    let d = defender.strength();
    if a > d {
        BattleOutcome::AttackerWins
    } else if a < d {
        BattleOutcome::DefenderWins
    } else {
        BattleOutcome::BothRemoved
    }
}

pub fn would_lose_attack(attacker: Rank, defender: Rank) -> (r: bool)
    ensures
        r == loses_attack(attacker, defender),
{
    if attacker == Rank::Bomb || defender == Rank::Bomb {
        return false;
    }
    if defender == Rank::Mine {
        return attacker != Rank::Engineer;
    }
    attacker.strength() < defender.strength()
}

pub fn should_explode(attacker: Rank, defender: Rank) -> (r: bool)
    ensures
        r == explodes(attacker, defender),
{
    attacker == Rank::Bomb || defender == Rank::Bomb
}

/// An attack is refused exactly when the battle would go to the defender.
pub proof fn lemma_refused_attack_is_lost_battle(attacker: Rank, defender: Rank)
    ensures
        loses_attack(attacker, defender) <==> battle(attacker, defender)
            == BattleOutcome::DefenderWins,
{
}

/// The officers from the lowest to the highest: engineer, platoon leader,
/// company, battalion, regiment, brigade and division commanders, corps
/// commander, commander in chief.
pub open spec fn officer_chain() -> Seq<Rank> {
    seq![
        Rank::Engineer,
        Rank::Platoon,
        Rank::Company,
        Rank::Battalion,
        Rank::Regiment,
        Rank::Brigade,
        Rank::Division,
        Rank::Corps,
        Rank::Commander,
    ]
}

/// Between two officers the higher one in the chain of command wins,
/// whichever of them attacks; the lower one may not attack the higher; two
/// officers of one rank remove each other.
pub proof fn lemma_higher_officer_wins(i: int, j: int)
    requires
        0 <= i < j < 9,
    ensures
        battle(officer_chain()[j], officer_chain()[i]) == BattleOutcome::AttackerWins,
        battle(officer_chain()[i], officer_chain()[j]) == BattleOutcome::DefenderWins,
        !loses_attack(officer_chain()[j], officer_chain()[i]),
        loses_attack(officer_chain()[i], officer_chain()[j]),
        battle(officer_chain()[i], officer_chain()[i]) == BattleOutcome::BothRemoved,
        battle(officer_chain()[j], officer_chain()[j]) == BattleOutcome::BothRemoved,
{
    let c = officer_chain();
    assert(c[0] == Rank::Engineer && c[1] == Rank::Platoon && c[2] == Rank::Company && c[3]
        == Rank::Battalion && c[4] == Rank::Regiment && c[5] == Rank::Brigade && c[6]
        == Rank::Division && c[7] == Rank::Corps && c[8] == Rank::Commander);
}

/// Exactly the officers and the bomb can move; the flag, mines and
/// pieces not yet known stay where they are.
pub proof fn lemma_movable_ranks(r: Rank)
    ensures
        rank_can_move(r) <==> (officer_chain().contains(r) || r == Rank::Bomb),
{
    let c = officer_chain();
    assert(c[0] == Rank::Engineer && c[1] == Rank::Platoon && c[2] == Rank::Company && c[3]
        == Rank::Battalion && c[4] == Rank::Regiment && c[5] == Rank::Brigade && c[6]
        == Rank::Division && c[7] == Rank::Corps && c[8] == Rank::Commander);
    if rank_can_move(r) && r != Rank::Bomb {
        let k: int = match r {
            Rank::Engineer => 0,
            Rank::Platoon => 1,
            Rank::Company => 2,
            Rank::Battalion => 3,
            Rank::Regiment => 4,
            Rank::Brigade => 5,
            Rank::Division => 6,
            Rank::Corps => 7,
            _ => 8,
        };
        assert(c[k] == r);
    }
}

/// A bomb takes every piece it meets down with it; a mine stops every
/// attacker but an engineer; the flag falls to any officer.
pub proof fn lemma_special_pieces(r: Rank)
    ensures
        battle(Rank::Bomb, r) == BattleOutcome::BothRemoved,
        battle(r, Rank::Bomb) == BattleOutcome::BothRemoved,
        r != Rank::Bomb ==> (battle(r, Rank::Mine) == BattleOutcome::AttackerWins <==> r
            == Rank::Engineer),
        r != Rank::Bomb && r != Rank::Engineer ==> battle(r, Rank::Mine)
            == BattleOutcome::DefenderWins,
        officer_chain().contains(r) ==> battle(r, Rank::Flag) == BattleOutcome::AttackerWins,
{
    let c = officer_chain();
    if c.contains(r) {
        let k = choose|k: int| 0 <= k < c.len() && c[k] == r;
        assert(c[0] == Rank::Engineer && c[1] == Rank::Platoon && c[2] == Rank::Company && c[3]
            == Rank::Battalion && c[4] == Rank::Regiment && c[5] == Rank::Brigade && c[6]
            == Rank::Division && c[7] == Rank::Corps && c[8] == Rank::Commander);
    }
}

/// A battle that explodes removes both pieces.
pub proof fn lemma_explosion_removes_both(attacker: Rank, defender: Rank)
    requires
        explodes(attacker, defender),
    ensures
        battle(attacker, defender) == BattleOutcome::BothRemoved,
{
}

/// How far apart two coordinates are.
pub open spec fn gap(a: usize, b: usize) -> int {
    if a >= b {
        a - b
    } else {
        b - a
    }
}

/// A coordinate read as a signed machine integer, as `as isize` reads it:
/// the values above `isize::MAX` wrap around to the negative ones.
pub open spec fn signed(a: usize) -> int {
    if a <= isize::MAX {
        a as int
    } else {
        a - usize::MAX - 1
    }
}

/// The coordinate that a signed machine integer names, as `as usize`
/// reads it.
pub open spec fn unsigned(x: int) -> usize {
    (if x < 0 {
        x + usize::MAX + 1
    } else {
        x
    }) as usize
}

pub open spec fn fits_isize(x: int) -> bool {
    isize::MIN <= x <= isize::MAX
}

/// The signed distance between two coordinates along a straight railway
/// run fits the machine's signed integers.
pub open spec fn straight_fits(from: Cell, to: Cell) -> bool {
    fits_isize(signed(to.0) - signed(from.0)) && fits_isize(signed(to.1) - signed(from.1))
}

/// The neighbours of `c` can be computed in the machine's signed integers.
pub open spec fn neighbours_fit(c: Cell) -> bool {
    isize::MIN < signed(c.0) < isize::MAX && isize::MIN < signed(c.1) < isize::MAX
}

proof fn lemma_signed_range(a: usize)
    ensures
        fits_isize(signed(a)),
        unsigned(signed(a)) == a,
        a < 60 ==> signed(a) == a,
{
    assert(usize::MAX == 2 * isize::MAX + 1 && isize::MIN == -isize::MAX - 1) by {
        assert(usize::BITS == 32 || usize::BITS == 64);
    }
}

proof fn lemma_unsigned_injective(x: int, y: int)
    requires
        fits_isize(x),
        fits_isize(y),
        unsigned(x) == unsigned(y),
    ensures
        x == y,
{
    assert(usize::MAX == 2 * isize::MAX + 1 && isize::MIN == -isize::MAX - 1) by {
        assert(usize::BITS == 32 || usize::BITS == 64);
    }
}

/// A move of one step along a road: to an orthogonal neighbour, or
/// diagonally into or out of a camp.
pub open spec fn one_step_move(from: Cell, to: Cell) -> bool {
    let dr = gap(from.0, to.0);
    let dc = gap(from.1, to.1);
    dr + dc == 1 || (dr == 1 && dc == 1 && (terrain(from.0 as int, from.1 as int) == Terrain::Camp
        || terrain(to.0 as int, to.1 as int) == Terrain::Camp))
}

/// A road step leads back the way it came.
pub proof fn lemma_one_step_symmetric(from: Cell, to: Cell)
    ensures
        one_step_move(from, to) == one_step_move(to, from),
{
}

/// The signed coordinate `k` steps from `a` toward `b`.
pub open spec fn toward(a: usize, b: usize, k: int) -> int {
    if signed(b) > signed(a) {
        signed(a) + k
    } else if signed(b) < signed(a) {
        signed(a) - k
    } else {
        signed(a)
    }
}

/// How many steps apart two coordinates are, read as signed integers.
pub open spec fn signed_gap(a: usize, b: usize) -> int {
    if signed(b) >= signed(a) {
        signed(b) - signed(a)
    } else {
        signed(a) - signed(b)
    }
}

/// The cell `k` steps from `from` along the straight line to `to`.
pub open spec fn line_cell(from: Cell, to: Cell, k: int) -> Cell {
    (unsigned(toward(from.0, to.0, k)), unsigned(toward(from.1, to.1, k)))
}

/// The cells strictly between `from` and `to` on a row or a column, in
/// order from `from`. Coordinates are counted as signed machine integers,
/// so a run toward a coordinate above `isize::MAX` goes the other way and
/// wraps round below zero.
pub open spec fn line_between(from: Cell, to: Cell) -> Seq<Cell> {
    let n = signed_gap(from.0, to.0) + signed_gap(from.1, to.1);
    Seq::new(if n == 0 { 0 } else { (n - 1) as nat }, |i: int| line_cell(from, to, i + 1))
}

/// The path of a piece that runs along the railway in a straight line:
/// none unless `from` and `to` share a row or a column and every cell
/// between is free railway; else the cells between and then `to`. The
/// run is counted in signed machine integers, so it may leave the board
/// along a railway row and wrap round.
pub open spec fn straight_path(from: Cell, to: Cell, occupied: Seq<Cell>) -> Option<Seq<Cell>> {
    let between = line_between(from, to);
    if from.0 != to.0 && from.1 != to.1 {
        None
    } else if exists|i: int|
        0 <= i < between.len() && (terrain(
            (#[trigger] between[i]).0 as int,
            between[i].1 as int,
        ) != Terrain::Railway || occupied.contains(between[i])) {
        None
    } else {
        Some(between.push(to))
    }
}

/// One step along the railway, to an orthogonal neighbour on the board;
/// the neighbours of `a` are counted from its coordinates read as signed
/// machine integers.
#[verifier::opaque]
pub open spec fn rail_step(a: Cell, b: Cell) -> bool {
    &&& on_board(b)
    &&& terrain(b.0 as int, b.1 as int) == Terrain::Railway
    &&& ((a.0 == b.0 && (signed(a.1) + 1 == b.1 || b.1 + 1 == signed(a.1))) || (a.1 == b.1 && (
    signed(a.0) + 1 == b.0 || b.0 + 1 == signed(a.0))))
}

/// A railway step ends on a railway cell of the board.
proof fn lemma_rail_step_lands(a: Cell, b: Cell)
    requires
        rail_step(a, b),
    ensures
        on_board(b),
        terrain(b.0 as int, b.1 as int) == Terrain::Railway,
{
    reveal(rail_step);
}

/// `w` leads from `from` (excluded) to `to` (its last cell) step by step
/// along the railway, through cells that are not occupied.
pub open spec fn rail_walk(from: Cell, w: Seq<Cell>, to: Cell, occupied: Seq<Cell>) -> bool {
    &&& w.len() >= 1
    &&& w.last() == to
    &&& rail_step(from, w[0])
    &&& forall|i: int| 0 <= i < w.len() - 1 ==> #[trigger] rail_step(w[i], w[i + 1])
    &&& forall|i: int| 0 <= i < w.len() - 1 ==> !occupied.contains(#[trigger] w[i])
}

/// `w` is a walk from `from` to `to` and no walk between them is shorter.
pub open spec fn shortest_walk(from: Cell, w: Seq<Cell>, to: Cell, occupied: Seq<Cell>) -> bool {
    &&& rail_walk(from, w, to, occupied)
    &&& forall|v: Seq<Cell>| rail_walk(from, v, to, occupied) ==> w.len() <= v.len()
}

/// An engineer can run from `from` to another cell `to` along the railway.
pub open spec fn rail_reachable(from: Cell, to: Cell, occupied: Seq<Cell>) -> bool {
    from != to && exists|w: Seq<Cell>| rail_walk(from, w, to, occupied)
}

/// What `move_path` answers for `piece` moving to `to` among `occupied`.
pub open spec fn path_rule(piece: PieceState, to: Cell, occupied: Seq<Cell>, r: Option<Seq<Cell>>) -> bool {
    let from = (piece.row, piece.col);
    if !rank_can_move(piece.rank) {
        r is None
    } else if one_step_move(from, to) {
        r == Some(seq![to])
    } else if terrain(from.0 as int, from.1 as int) != Terrain::Railway || terrain(
        to.0 as int,
        to.1 as int,
    ) != Terrain::Railway {
        r is None
    } else if piece.rank == Rank::Engineer {
        &&& (r is Some <==> rail_reachable(from, to, occupied))
        &&& (r matches Some(p) ==> shortest_walk(from, p, to, occupied))
    } else {
        r == straight_path(from, to, occupied)
    }
}

/// Whether `move_path` finds a path at all.
pub open spec fn path_exists(piece: PieceState, to: Cell, occupied: Seq<Cell>) -> bool {
    let from = (piece.row, piece.col);
    if !rank_can_move(piece.rank) {
        false
    } else if one_step_move(from, to) {
        true
    } else if terrain(from.0 as int, from.1 as int) != Terrain::Railway || terrain(
        to.0 as int,
        to.1 as int,
    ) != Terrain::Railway {
        false
    } else if piece.rank == Rank::Engineer {
        rail_reachable(from, to, occupied)
    } else {
        straight_path(from, to, occupied) is Some
    }
}

/// `move_path` stays within the machine's integers for `piece` moving to
/// `to`: the two gaps add up within `usize`, a straight railway run
/// measures within `isize`, and an engineer's neighbours are found within
/// `isize`. Elsewhere its arithmetic overflows.
pub open spec fn path_fits(piece: PieceState, to: Cell) -> bool {
    let from = (piece.row, piece.col);
    rank_can_move(piece.rank) ==> {
        &&& gap(from.0, to.0) + gap(from.1, to.1) <= usize::MAX
        &&& (!one_step_move(from, to) && terrain(from.0 as int, from.1 as int) == Terrain::Railway
            && terrain(to.0 as int, to.1 as int) == Terrain::Railway) ==> if piece.rank
            == Rank::Engineer {
            neighbours_fit(from)
        } else {
            from.0 == to.0 || from.1 == to.1 ==> straight_fits(from, to)
        }
    }
}

/// Whether `move_path` stays within the machine's integers for `piece`
/// moving to `(to_row, to_col)`.
pub fn path_fits_in(piece: PieceState, to_row: usize, to_col: usize) -> (b: bool)
    ensures
        b == path_fits(piece, (to_row, to_col)),
{
    if !piece.rank.can_move() {
        return true;
    }
    let dr = abs_diff(piece.row, to_row);
    let dc = abs_diff(piece.col, to_col);
    if dr > usize::MAX - dc {
        return false;
    }
    if is_one_step_road_move((piece.row, piece.col), (to_row, to_col)) {
        return true;
    }
    if terrain_at(piece.row, piece.col) != Terrain::Railway || terrain_at(to_row, to_col)
        != Terrain::Railway {
        return true;
    }
    if piece.rank == Rank::Engineer {
        let r = to_signed(piece.row);
        let c = to_signed(piece.col);
        r != isize::MIN && r != isize::MAX && c != isize::MIN && c != isize::MAX
    } else if piece.row != to_row && piece.col != to_col {
        true
    } else {
        let dr = (to_signed(to_row) as i128) - (to_signed(piece.row) as i128);
        let dc = (to_signed(to_col) as i128) - (to_signed(piece.col) as i128);
        isize::MIN as i128 <= dr && dr <= isize::MAX as i128 && isize::MIN as i128 <= dc && dc
            <= isize::MAX as i128
    }
}

/// The path of a piece that moves from its cell to `(to_row, to_col)`:
/// one step along a road; a straight run along the railway; or, for an
/// engineer, a shortest run along the railway, which may turn corners.
/// Its arithmetic is that of the machine: the caller keeps to
/// `path_fits`.
pub fn move_path(piece: PieceState, to_row: usize, to_col: usize, occupied: &Vec<Cell>) -> (r: Option<
    Vec<Cell>,
>)
    requires
        path_fits(piece, (to_row, to_col)),
    ensures
        path_rule(
            piece,
            (to_row, to_col),
            occupied@,
            match r {
                Some(p) => Some(p@),
                None => None,
            },
        ),
        r is Some <==> path_exists(piece, (to_row, to_col), occupied@),
{
    if !piece.rank.can_move() {
        return None;
    }
    if is_one_step_road_move((piece.row, piece.col), (to_row, to_col)) {
        let mut path = Vec::new();
        path.push((to_row, to_col));
        assert(path@ =~= seq![(to_row, to_col)]);
        return Some(path);
    }
    if terrain_at(piece.row, piece.col) != Terrain::Railway || terrain_at(to_row, to_col)
        != Terrain::Railway {
        return None;
    }
    if piece.rank == Rank::Engineer {
        railway_path((piece.row, piece.col), (to_row, to_col), occupied)
    } else {
        railway_straight_path((piece.row, piece.col), (to_row, to_col), occupied)
    }
}

fn abs_diff(a: usize, b: usize) -> (d: usize)
    ensures
        d == gap(a, b),
{
    if a >= b {
        a - b
    } else {
        b - a
    }
}

fn is_one_step_road_move(from: Cell, to: Cell) -> (b: bool)
    requires
        gap(from.0, to.0) + gap(from.1, to.1) <= usize::MAX,
    ensures
        b == one_step_move(from, to),
{
    let dr = abs_diff(from.0, to.0);
    let dc = abs_diff(from.1, to.1);
    if dr + dc == 1 {
        return true;
    }
    dr == 1 && dc == 1 && (terrain_at(from.0, from.1) == Terrain::Camp || terrain_at(to.0, to.1)
        == Terrain::Camp)
}

/// Whether two cells are the same.
pub fn same_cell(a: Cell, b: Cell) -> (r: bool)
    ensures
        r == (a == b),
{
    a.0 == b.0 && a.1 == b.1
}

/// Whether `cell` is among `cells`.
fn contains_cell(cells: &Vec<Cell>, cell: Cell) -> (b: bool)
    ensures
        b == cells@.contains(cell),
{
    let mut i: usize = 0;
    while i < cells.len()
        invariant
            i <= cells@.len(),
            forall|j: int| 0 <= j < i ==> cells@[j] != cell,
        decreases cells@.len() - i,
    {
        if same_cell(cells[i], cell) {
            assert(cells@[i as int] == cell);
            return true;
        }
        i += 1;
    }
    false
}

/// `a` as a signed machine integer.
fn to_signed(a: usize) -> (r: isize)
    ensures
        r == signed(a),
{
    proof {
        lemma_signed_range(a);
    }
    if a <= isize::MAX as usize {
        a as isize
    } else {
        -((usize::MAX - a) as isize) - 1
    }
}

/// The coordinate that `x` names.
fn to_unsigned(x: isize) -> (r: usize)
    ensures
        r == unsigned(x as int),
{
    proof {
        assert(usize::MAX == 2 * isize::MAX + 1 && isize::MIN == -isize::MAX - 1) by {
            assert(usize::BITS == 32 || usize::BITS == 64);
        }
    }
    if x >= 0 {
        x as usize
    } else {
        usize::MAX - ((-(x + 1)) as usize)
    }
}

/// The step, -1, 0 or 1, that leads from `a` toward `b`.
fn direction(a: isize, b: isize) -> (r: isize)
    ensures
        r == (if b > a {
            1int
        } else if b < a {
            -1int
        } else {
            0int
        }),
{
    if b > a {
        1
    } else if b < a {
        -1
    } else {
        0
    }
}

/// The cells on the straight line from `from` to `to` past `k` steps are
/// not yet `to`, and `to` comes at the last step.
proof fn lemma_line_reaches(from: Cell, to: Cell, k: int)
    requires
        from.0 == to.0 || from.1 == to.1,
        1 <= k,
        k <= signed_gap(from.0, to.0) + signed_gap(from.1, to.1),
    ensures
        fits_isize(toward(from.0, to.0, k)),
        fits_isize(toward(from.1, to.1, k)),
        (line_cell(from, to, k) == to) <==> k == signed_gap(from.0, to.0) + signed_gap(from.1, to.1),
{
    lemma_signed_range(from.0);
    lemma_signed_range(from.1);
    lemma_signed_range(to.0);
    lemma_signed_range(to.1);
    let c = line_cell(from, to, k);
    if c == to {
        lemma_unsigned_injective(toward(from.0, to.0, k), signed(to.0));
        lemma_unsigned_injective(toward(from.1, to.1, k), signed(to.1));
    }
}

fn railway_straight_path(from: Cell, to: Cell, occupied: &Vec<Cell>) -> (r: Option<Vec<Cell>>)
    requires
        from.0 == to.0 || from.1 == to.1 ==> straight_fits(from, to),
    ensures
        match r {
            Some(p) => Some(p@),
            None => None,
        } == straight_path(from, to, occupied@),
{
    if from.0 != to.0 && from.1 != to.1 {
        return None;
    }
    proof {
        lemma_signed_range(from.0);
        lemma_signed_range(from.1);
        lemma_signed_range(to.0);
        lemma_signed_range(to.1);
    }
    let ghost between = line_between(from, to);
    let ghost n = signed_gap(from.0, to.0) + signed_gap(from.1, to.1);
    let from_row = to_signed(from.0);
    let from_col = to_signed(from.1);
    let row_step = direction(from_row, to_signed(to.0));
    let col_step = direction(from_col, to_signed(to.1));
    if from.0 == to.0 && from.1 == to.1 {
        assert(n == 0);
        assert(between =~= Seq::<Cell>::empty());
        let mut path: Vec<Cell> = Vec::new();
        path.push(to);
        assert(path@ =~= between.push(to));
        return Some(path);
    }
    proof {
        if n == 0 {
            lemma_unsigned_injective(signed(from.0), signed(to.0));
            lemma_unsigned_injective(signed(from.1), signed(to.1));
        }
        lemma_line_reaches(from, to, 1);
    }
    let mut row: isize = from_row + row_step;
    let mut col: isize = from_col + col_step;
    let mut path: Vec<Cell> = Vec::new();
    let ghost mut k: int = 1;
    while !(to_unsigned(row) == to.0 && to_unsigned(col) == to.1)
        invariant
            from.0 == to.0 || from.1 == to.1,
            between == line_between(from, to),
            n == signed_gap(from.0, to.0) + signed_gap(from.1, to.1),
            n >= 1,
            1 <= k <= n,
            row == toward(from.0, to.0, k),
            col == toward(from.1, to.1, k),
            row_step == (if signed(to.0) > signed(from.0) {
                1int
            } else if signed(to.0) < signed(from.0) {
                -1int
            } else {
                0int
            }),
            col_step == (if signed(to.1) > signed(from.1) {
                1int
            } else if signed(to.1) < signed(from.1) {
                -1int
            } else {
                0int
            }),
            path@ =~= between.take(k - 1),
            forall|i: int|
                0 <= i < k - 1 ==> !(terrain((#[trigger] between[i]).0 as int, between[i].1 as int)
                    != Terrain::Railway || occupied@.contains(between[i])),
        decreases n - k,
    {
        proof {
            lemma_line_reaches(from, to, k);
        }
        let current = (to_unsigned(row), to_unsigned(col));
        assert(current == line_cell(from, to, k));
        assert(k < n);
        assert(current == between[k - 1]);
        if terrain_at(current.0, current.1) != Terrain::Railway || contains_cell(occupied, current) {
            return None;
        }
        path.push(current);
        proof {
            lemma_line_reaches(from, to, k + 1);
        }
        row = row + row_step;
        col = col + col_step;
        proof {
            k = k + 1;
        }
    }
    proof {
        lemma_line_reaches(from, to, k);
    }
    assert(k == n);
    assert(path@ =~= between);
    path.push(to);
    Some(path)
}

/// The place of an on-board cell in a row-major table of the board.
pub open spec fn cell_index(c: Cell) -> int {
    c.0 * 5 + c.1
}

fn index_of(c: Cell) -> (i: usize)
    requires
        on_board(c),
    ensures
        i == cell_index(c),
        i < 60,
{
    c.0 * BOARD_COLS + c.1
}

proof fn lemma_cell_index_injective(a: Cell, b: Cell)
    requires
        on_board(a),
        on_board(b),
        cell_index(a) == cell_index(b),
    ensures
        a == b,
{
}

/// The railway cell of the board at the signed coordinates `(r, c)`, if
/// there is one there.
pub open spec fn rail_cell(r: int, c: int) -> Seq<Cell> {
    if 0 <= r < BOARD_ROWS && 0 <= c < BOARD_COLS && terrain(r, c) == Terrain::Railway {
        seq![(r as usize, c as usize)]
    } else {
        seq![]
    }
}

/// The railway neighbours of `a` on the board, in the order up, down,
/// left, right.
#[verifier::opaque]
pub open spec fn neighbour_list(a: Cell) -> Seq<Cell> {
    let r = signed(a.0);
    let c = signed(a.1);
    rail_cell(r - 1, c) + rail_cell(r + 1, c) + rail_cell(r, c - 1) + rail_cell(r, c + 1)
}

/// Appends the railway cell at `(r, c)`, if there is one.
fn push_rail_cell(neighbors: &mut Vec<Cell>, r: isize, c: isize)
    ensures
        final(neighbors)@ == old(neighbors)@ + rail_cell(r as int, c as int),
{
    if 0 <= r && r < 12 && 0 <= c && c < 5 {
        let cell = (r as usize, c as usize);
        if terrain_at(cell.0, cell.1) == Terrain::Railway {
            let ghost before = neighbors@;
            neighbors.push(cell);
            assert(neighbors@ =~= before + rail_cell(r as int, c as int));
            return;
        }
    }
    assert(neighbors@ =~= old(neighbors)@ + rail_cell(r as int, c as int));
}

/// A cell whose signed coordinate lies on the board is that coordinate.
proof fn lemma_small_signed(a: usize)
    requires
        0 <= signed(a) < 60,
    ensures
        a == signed(a),
{
    lemma_signed_range(a);
}

/// The listed neighbours are exactly the railway steps from `a`.
proof fn lemma_neighbour_list(a: Cell)
    ensures
        forall|n: Cell| rail_step(a, n) <==> neighbour_list(a).contains(n),
        forall|i: int| 0 <= i < neighbour_list(a).len() ==> rail_step(a, #[trigger] neighbour_list(a)[i]),
        neighbour_list(a).len() <= 4,
{
    let r = signed(a.0);
    let c = signed(a.1);
    let l1 = rail_cell(r - 1, c);
    let l2 = rail_cell(r + 1, c);
    let l3 = rail_cell(r, c - 1);
    let l4 = rail_cell(r, c + 1);
    let l = neighbour_list(a);
    reveal(neighbour_list);
    assert(l == l1 + l2 + l3 + l4);
    reveal(rail_step);
    assert forall|i: int| 0 <= i < l.len() implies rail_step(a, #[trigger] l[i]) by {
        let n = l[i];
        if i < l1.len() {
            assert(n == l1[i]);
            lemma_small_signed(a.1);
            lemma_small_signed(n.0);
        } else if i < l1.len() + l2.len() {
            assert(n == l2[i - l1.len()]);
            lemma_small_signed(a.1);
        } else if i < l1.len() + l2.len() + l3.len() {
            assert(n == l3[i - l1.len() - l2.len()]);
            lemma_small_signed(a.0);
        } else {
            assert(n == l4[i - l1.len() - l2.len() - l3.len()]);
            lemma_small_signed(a.0);
        }
    }
    assert forall|n: Cell| rail_step(a, n) implies l.contains(n) by {
        lemma_signed_range(n.0);
        lemma_signed_range(n.1);
        if a.0 == n.0 {
            lemma_signed_range(a.0);
            if signed(a.1) + 1 == n.1 {
                assert(l4 == seq![n]);
                assert(l[(l1.len() + l2.len() + l3.len()) as int] == n);
            } else {
                assert(l3 == seq![n]);
                assert(l[(l1.len() + l2.len()) as int] == n);
            }
        } else {
            lemma_signed_range(a.1);
            if signed(a.0) + 1 == n.0 {
                assert(l2 == seq![n]);
                assert(l[l1.len() as int] == n);
            } else {
                assert(l1 == seq![n]);
                assert(l[0] == n);
            }
        }
    }
    assert forall|n: Cell| l.contains(n) implies rail_step(a, n) by {
        let i = choose|i: int| 0 <= i < l.len() && l[i] == n;
        assert(rail_step(a, l[i]));
    }
}

/// The railway neighbours of `(row, col)` on the board, in the order up,
/// down, left, right.
fn railway_neighbors(row: usize, col: usize) -> (neighbors: Vec<Cell>)
    requires
        neighbours_fit((row, col)),
    ensures
        neighbors@ == neighbour_list((row, col)),
        forall|n: Cell| rail_step((row, col), n) <==> neighbors@.contains(n),
        forall|i: int| 0 <= i < neighbors@.len() ==> rail_step((row, col), #[trigger] neighbors@[i]),
        neighbors@.len() <= 4,
{
    let r = to_signed(row);
    let c = to_signed(col);
    let mut neighbors: Vec<Cell> = Vec::new();
    push_rail_cell(&mut neighbors, r - 1, c);
    push_rail_cell(&mut neighbors, r + 1, c);
    push_rail_cell(&mut neighbors, r, c - 1);
    push_rail_cell(&mut neighbors, r, c + 1);
    assert(neighbors@ =~= neighbour_list((row, col))) by {
        reveal(neighbour_list);
    }
    proof {
        lemma_neighbour_list((row, col));
    }
    neighbors
}

/// The number of cells not yet visited.
pub open spec fn count_unvisited(s: Seq<bool>) -> nat
    decreases s.len(),
{
    if s.len() == 0 {
        0
    } else {
        count_unvisited(s.drop_last()) + if s.last() {
            0nat
        } else {
            1nat
        }
    }
}

proof fn lemma_visit_one(s: Seq<bool>, i: int)
    requires
        0 <= i < s.len(),
        !s[i],
    ensures
        count_unvisited(s.update(i, true)) + 1 == count_unvisited(s),
    decreases s.len(),
{
    let t = s.update(i, true);
    if i == s.len() - 1 {
        assert(t.drop_last() =~= s.drop_last());
    } else {
        assert(t.drop_last() =~= s.drop_last().update(i, true));
        lemma_visit_one(s.drop_last(), i);
    }
}

/// The search tree built so far: `queue[0]` is the start, every later
/// queued cell is a free railway cell on the board, reached by one step
/// from an earlier queued cell that `parent` records for it.
pub open spec fn search_tree(
    from: Cell,
    to: Cell,
    occupied: Seq<Cell>,
    queue: Seq<Cell>,
    parent: Seq<Cell>,
    up: Seq<int>,
) -> bool {
    &&& queue.len() >= 1
    &&& queue[0] == from
    &&& up.len() == queue.len()
    &&& parent.len() == 60
    &&& forall|i: int|
        1 <= i < queue.len() ==> {
            &&& on_board(#[trigger] queue[i])
            &&& queue[i] != from
            &&& queue[i] != to
            &&& !occupied.contains(queue[i])
            &&& 0 <= up[i] < i
            &&& parent[cell_index(queue[i])] == queue[up[i]]
            &&& rail_step(queue[up[i]], queue[i])
        }
}

/// An on-board cell is marked visited exactly when it has been queued.
pub open spec fn visited_matches(visited: Seq<bool>, queue: Seq<Cell>) -> bool {
    &&& visited.len() == 60
    &&& forall|c: Cell| on_board(c) ==> (visited[cell_index(c)] <==> #[trigger] queue.contains(c))
}

/// Every cell one step from a cell already taken from the queue is not the
/// goal, and is queued or occupied.
pub open spec fn closed_up_to(queue: Seq<Cell>, head: int, to: Cell, occupied: Seq<Cell>) -> bool {
    forall|j: int, n: Cell|
        0 <= j < head && #[trigger] rail_step(queue[j], n) ==> n != to && (queue.contains(n)
            || occupied.contains(n))
}

/// `n` is in the queue, at the start or put there while the cell at
/// position `j` or an earlier one was taken.
pub open spec fn queued_by(queue: Seq<Cell>, up: Seq<int>, n: Cell, j: int) -> bool {
    exists|q: int| 0 <= q < queue.len() && #[trigger] queue[q] == n && (q == 0 || up[q] <= j)
}

/// Every free cell one step from a cell taken at position `j` before `head`
/// was queued by then.
pub open spec fn queued_in_order(queue: Seq<Cell>, up: Seq<int>, head: int, occupied: Seq<Cell>) -> bool {
    forall|j: int, n: Cell|
        0 <= j < head && #[trigger] rail_step(queue[j], n) && !occupied.contains(n) ==> queued_by(
            queue,
            up,
            n,
            j,
        )
}

/// `depth[i]` is the number of steps from the start to the queued cell `i`
/// along the recorded parents, and depths never fall along the queue.
pub open spec fn layered(queue: Seq<Cell>, up: Seq<int>, depth: Seq<int>) -> bool {
    &&& depth.len() == queue.len()
    &&& depth[0] == 0
    &&& forall|i: int| 1 <= i < queue.len() ==> #[trigger] depth[i] == depth[up[i]] + 1
    &&& forall|i: int, j: int| 0 <= i <= j < queue.len() ==> #[trigger] depth[i] <= #[trigger] depth[j]
}

/// The facts of a breadth-first search that bound the length of a walk:
/// the positions before `at` are done, and the queue is layered by depth.
pub open spec fn searched_before(
    from: Cell,
    to: Cell,
    occupied: Seq<Cell>,
    queue: Seq<Cell>,
    up: Seq<int>,
    depth: Seq<int>,
    at: int,
) -> bool {
    &&& queue.len() >= 1
    &&& queue[0] == from
    &&& up.len() == queue.len()
    &&& forall|q: int| 1 <= q < queue.len() ==> 0 <= #[trigger] up[q] < q
    &&& layered(queue, up, depth)
    &&& 0 <= at < queue.len()
    &&& closed_up_to(queue, at, to, occupied)
    &&& queued_in_order(queue, up, at, occupied)
}

/// A free cell early on a walk was queued no deeper than its place on the
/// walk.
proof fn lemma_walk_cell_depth(
    from: Cell,
    to: Cell,
    occupied: Seq<Cell>,
    queue: Seq<Cell>,
    up: Seq<int>,
    depth: Seq<int>,
    at: int,
    w: Seq<Cell>,
    i: int,
)
    requires
        searched_before(from, to, occupied, queue, up, depth, at),
        rail_walk(from, w, to, occupied),
        0 <= i < w.len() - 1,
        i + 1 <= depth[at],
    ensures
        exists|q: int| 0 <= q < queue.len() && #[trigger] queue[q] == w[i] && depth[q] <= i + 1,
    decreases i,
{
    assert(depth[0] <= depth[at]);
    if i == 0 {
        assert(rail_step(queue[0], w[0]));
        assert(!occupied.contains(w[0]));
        assert(queued_by(queue, up, w[0], 0));
        let q = choose|q: int| 0 <= q < queue.len() && #[trigger] queue[q] == w[0] && (q == 0 || up[q] <= 0);
        if q != 0 {
            assert(depth[q] == depth[up[q]] + 1);
        }
    } else {
        lemma_walk_cell_depth(from, to, occupied, queue, up, depth, at, w, i - 1);
        let p = choose|q: int| 0 <= q < queue.len() && #[trigger] queue[q] == w[i - 1] && depth[q] <= i;
        if p >= at {
            assert(depth[at] <= depth[p]);
        }
        assert(rail_step(w[i - 1], w[i]));
        assert(rail_step(queue[p], w[i]));
        assert(!occupied.contains(w[i]));
        assert(queued_by(queue, up, w[i], p));
        let q = choose|q: int| 0 <= q < queue.len() && #[trigger] queue[q] == w[i] && (q == 0 || up[q] <= p);
        if q != 0 {
            assert(depth[q] == depth[up[q]] + 1);
            assert(depth[up[q]] <= depth[p]);
        }
    }
}

/// No walk to the goal is shorter than one step past the cell taken at
/// position `at`.
proof fn lemma_walk_is_long(
    from: Cell,
    to: Cell,
    occupied: Seq<Cell>,
    queue: Seq<Cell>,
    up: Seq<int>,
    depth: Seq<int>,
    at: int,
    w: Seq<Cell>,
)
    requires
        searched_before(from, to, occupied, queue, up, depth, at),
        rail_walk(from, w, to, occupied),
    ensures
        w.len() >= depth[at] + 1,
{
    assert(depth[0] <= depth[at]);
    if w.len() < depth[at] + 1 {
        if w.len() == 1 {
            assert(rail_step(queue[0], w[0]));
        } else {
            let i = w.len() - 2;
            lemma_walk_cell_depth(from, to, occupied, queue, up, depth, at, w, i);
            let q = choose|q: int| 0 <= q < queue.len() && #[trigger] queue[q] == w[i] && depth[q] <= i + 1;
            if q >= at {
                assert(depth[at] <= depth[q]);
            }
            assert(rail_step(w[i], w[i + 1]));
            assert(rail_step(queue[q], w[i + 1]));
        }
    }
}

/// Queuing one more cell, found from the cell taken at position `at`,
/// keeps the queue layered and ordered.
proof fn lemma_push_keeps_layers(
    queue: Seq<Cell>,
    up: Seq<int>,
    depth: Seq<int>,
    at: int,
    next: Cell,
    occupied: Seq<Cell>,
)
    requires
        layered(queue, up, depth),
        up.len() == queue.len(),
        0 <= at < queue.len(),
        forall|q: int| 1 <= q < queue.len() ==> 0 <= #[trigger] up[q] < q,
        forall|q: int| 1 <= q < queue.len() ==> #[trigger] up[q] <= at,
        forall|q: int| 0 <= q < queue.len() ==> #[trigger] depth[q] <= depth[at] + 1,
        queued_in_order(queue, up, at, occupied),
    ensures
        layered(queue.push(next), up.push(at), depth.push(depth[at] + 1)),
        forall|q: int| 1 <= q < queue.len() + 1 ==> #[trigger] up.push(at)[q] <= at,
        forall|q: int|
            0 <= q < queue.len() + 1 ==> #[trigger] depth.push(depth[at] + 1)[q] <= depth[at] + 1,
        queued_in_order(queue.push(next), up.push(at), at, occupied),
        forall|n: Cell, j: int|
            queued_by(queue, up, n, j) ==> #[trigger] queued_by(queue.push(next), up.push(at), n, j),
{
    let q2 = queue.push(next);
    let u2 = up.push(at);
    let d2 = depth.push(depth[at] + 1);
    assert forall|n: Cell, j: int| queued_by(queue, up, n, j) implies #[trigger] queued_by(q2, u2, n, j) by {
        lemma_queued_by_push(queue, up, n, j, next, at);
    }
    assert forall|i: int| 1 <= i < q2.len() implies #[trigger] d2[i] == d2[u2[i]] + 1 by {
        if i < queue.len() {
            assert(u2[i] == up[i]);
        }
    }
    assert forall|j: int, n: Cell| 0 <= j < at && #[trigger] rail_step(q2[j], n) && !occupied.contains(n) implies queued_by(
        q2,
        u2,
        n,
        j,
    ) by {
        assert(q2[j] == queue[j]);
        assert(rail_step(queue[j], n));
        lemma_queued_by_push(queue, up, n, j, next, at);
    }
    assert forall|i: int, j: int| 0 <= i <= j < q2.len() implies #[trigger] d2[i] <= #[trigger] d2[j] by {
        if j < queue.len() {
            assert(depth[i] <= depth[j]);
        }
    }
}

/// Queuing one more cell keeps every cell queued as it was.
proof fn lemma_queued_by_push(queue: Seq<Cell>, up: Seq<int>, n: Cell, j: int, x: Cell, a: int)
    requires
        up.len() == queue.len(),
        queued_by(queue, up, n, j),
    ensures
        queued_by(queue.push(x), up.push(a), n, j),
{
    let q = choose|q: int| 0 <= q < queue.len() && #[trigger] queue[q] == n && (q == 0 || up[q] <= j);
    assert(queue.push(x)[q] == n);
    assert(up.push(a)[q] == up[q]);
}

proof fn lemma_contains_after_push(s: Seq<Cell>, x: Cell, y: Cell)
    requires
        s.contains(y),
    ensures
        s.push(x).contains(y),
{
    let k = choose|k: int| 0 <= k < s.len() && s[k] == y;
    assert(s.push(x)[k] == y);
}

proof fn lemma_walk_stays_queued(
    from: Cell,
    to: Cell,
    occupied: Seq<Cell>,
    queue: Seq<Cell>,
    w: Seq<Cell>,
    i: int,
)
    requires
        queue.len() >= 1,
        queue[0] == from,
        closed_up_to(queue, queue.len() as int, to, occupied),
        rail_walk(from, w, to, occupied),
        0 <= i < w.len(),
    ensures
        w[i] != to,
        queue.contains(w[i]) || occupied.contains(w[i]),
    decreases i,
{
    if i == 0 {
        assert(rail_step(queue[0], w[0]));
    } else {
        let p = i - 1;
        lemma_walk_stays_queued(from, to, occupied, queue, w, p);
        assert(!occupied.contains(w[p]));
        let j = choose|j: int| 0 <= j < queue.len() && queue[j] == w[p];
        assert(rail_step(w[p], w[p + 1]));
        assert(w[p + 1] == w[i]);
        assert(rail_step(queue[j], w[i]));
    }
}

/// Once every queued cell has been taken and nothing led to the goal, no
/// walk leads there.
proof fn lemma_no_walk(from: Cell, to: Cell, occupied: Seq<Cell>, queue: Seq<Cell>, w: Seq<Cell>)
    requires
        queue.len() >= 1,
        queue[0] == from,
        closed_up_to(queue, queue.len() as int, to, occupied),
    ensures
        !rail_walk(from, w, to, occupied),
{
    if rail_walk(from, w, to, occupied) {
        lemma_walk_stays_queued(from, to, occupied, queue, w, w.len() - 1);
    }
}

/// `c` followed by its recorded parent, that one's parent, and so on:
/// `n` cells in all.
pub open spec fn ancestors(parent: Seq<Cell>, c: Cell, n: nat) -> Seq<Cell>
    decreases n,
{
    if n == 0 {
        seq![]
    } else {
        seq![c] + ancestors(parent, parent[cell_index(c)], (n - 1) as nat)
    }
}

/// A list of ancestors has the length asked for, starts with its cell,
/// and each later cell is the recorded parent of the one before.
proof fn lemma_ancestors_shape(parent: Seq<Cell>, c: Cell, n: nat)
    ensures
        ancestors(parent, c, n).len() == n,
        n >= 1 ==> ancestors(parent, c, n)[0] == c,
        forall|j: int|
            0 <= j < n - 1 ==> #[trigger] ancestors(parent, c, n)[j + 1] == parent[cell_index(
                ancestors(parent, c, n)[j],
            )],
    decreases n,
{
    if n >= 1 {
        let pc = parent[cell_index(c)];
        let m = (n - 1) as nat;
        lemma_ancestors_shape(parent, pc, m);
        let a = ancestors(parent, c, n);
        let b = ancestors(parent, pc, m);
        assert(a =~= seq![c] + b);
        assert forall|j: int| 0 <= j < n - 1 implies #[trigger] a[j + 1] == parent[cell_index(a[j])] by {
            assert(a[j + 1] == b[j]);
            if j > 0 {
                assert(a[j] == b[j - 1]);
                assert(b[(j - 1) + 1] == parent[cell_index(b[j - 1])]);
            }
        }
    }
}

/// Fewer ancestors are the first ones of more.
proof fn lemma_ancestors_prefix(parent: Seq<Cell>, c: Cell, n: nat, m: nat)
    requires
        n <= m,
    ensures
        ancestors(parent, c, n) == ancestors(parent, c, m).take(n as int),
    decreases n,
{
    lemma_ancestors_shape(parent, c, m);
    if n == 0 {
        assert(ancestors(parent, c, m).take(0) =~= Seq::<Cell>::empty());
    } else {
        let pc = parent[cell_index(c)];
        lemma_ancestors_prefix(parent, pc, (n - 1) as nat, (m - 1) as nat);
        assert(ancestors(parent, c, m) =~= seq![c] + ancestors(parent, pc, (m - 1) as nat));
        assert(ancestors(parent, c, n) =~= ancestors(parent, c, m).take(n as int));
    }
}

/// Following recorded parents from `to` reaches `from` after `k` steps, and
/// the `k` cells before that lie on the board and are not `from`.
pub open spec fn chain_reaches(parent: Seq<Cell>, to: Cell, from: Cell, k: nat) -> bool {
    &&& k >= 1
    &&& ancestors(parent, to, k + 1)[k as int] == from
    &&& forall|j: int|
        0 <= j < k ==> on_board(#[trigger] ancestors(parent, to, k + 1)[j]) && ancestors(
            parent,
            to,
            k + 1,
        )[j] != from
}

/// Follows the recorded parents back from `to` until the one whose parent
/// is `from`, and gives them in order from `from`: the chain of parents
/// read back.
fn rebuild_path(from: Cell, to: Cell, parent: &Vec<Cell>, Ghost(k): Ghost<nat>) -> (path: Vec<Cell>)
    requires
        parent@.len() == 60,
        chain_reaches(parent@, to, from, k),
    ensures
        path@ == ancestors(parent@, to, k).reverse(),
{
    let ghost full = ancestors(parent@, to, k + 1);
    proof {
        lemma_ancestors_shape(parent@, to, k + 1);
        lemma_ancestors_prefix(parent@, to, k, k + 1);
    }
    let mut reversed: Vec<Cell> = Vec::new();
    reversed.push(to);
    let mut current = to;
    assert(reversed@ =~= full.take(1));
    loop
        invariant_except_break
            parent@.len() == 60,
            chain_reaches(parent@, to, from, k),
            full == ancestors(parent@, to, k + 1),
            full.len() == k + 1,
            forall|j: int| 0 <= j < k ==> #[trigger] full[j + 1] == parent@[cell_index(full[j])],
            1 <= reversed@.len() <= k,
            reversed@ == full.take(reversed@.len() as int),
            current == full[reversed@.len() - 1],
        ensures
            reversed@ == full.take(k as int),
        decreases k - reversed@.len(),
    {
        let ghost n = reversed@.len() as int;
        assert(on_board(full[n - 1]));
        let previous = parent[index_of(current)];
        assert(full[(n - 1) + 1] == parent@[cell_index(full[n - 1])]);
        assert(previous == full[n]);
        if same_cell(previous, from) {
            assert(n == k);
            break;
        }
        reversed.push(previous);
        assert(reversed@ =~= full.take(n + 1));
        current = previous;
    }
    let n = reversed.len();
    let mut path: Vec<Cell> = Vec::new();
    let mut i: usize = 0;
    while i < n
        invariant
            n == reversed@.len(),
            i <= n,
            path@ =~= Seq::new(i as nat, |j: int| reversed@[n - 1 - j]),
        decreases n - i,
    {
        path.push(reversed[n - 1 - i]);
        i += 1;
    }
    assert(path@ =~= reversed@.reverse());
    path
}

/// Along the search tree, the parents of a queued cell lead back to the
/// start in as many steps as its depth, by railway steps through free cells
/// of the board.
proof fn lemma_tree_chain(
    from: Cell,
    to: Cell,
    occupied: Seq<Cell>,
    queue: Seq<Cell>,
    parent: Seq<Cell>,
    up: Seq<int>,
    depth: Seq<int>,
    i: int,
)
    requires
        search_tree(from, to, occupied, queue, parent, up),
        layered(queue, up, depth),
        0 <= i < queue.len(),
    ensures
        depth[i] >= 0,
        ancestors(parent, queue[i], (depth[i] + 1) as nat)[depth[i]] == from,
        forall|j: int|
            0 <= j < depth[i] ==> on_board(
                #[trigger] ancestors(parent, queue[i], (depth[i] + 1) as nat)[j],
            ) && ancestors(parent, queue[i], (depth[i] + 1) as nat)[j] != from && !occupied.contains(
                ancestors(parent, queue[i], (depth[i] + 1) as nat)[j],
            ) && rail_step(
                ancestors(parent, queue[i], (depth[i] + 1) as nat)[j + 1],
                ancestors(parent, queue[i], (depth[i] + 1) as nat)[j],
            ),
    decreases i,
{
    let d = depth[i];
    if i == 0 {
        assert(ancestors(parent, parent[cell_index(from)], 0) =~= Seq::<Cell>::empty());
        assert(ancestors(parent, from, 1) =~= seq![from]);
    } else {
        assert(on_board(queue[i]));
        let u = up[i];
        lemma_tree_chain(from, to, occupied, queue, parent, up, depth, u);
        let du = depth[u];
        let b = ancestors(parent, queue[u], (du + 1) as nat);
        let a = ancestors(parent, queue[i], (d + 1) as nat);
        assert(d == du + 1);
        assert(a =~= seq![queue[i]] + b);
        lemma_ancestors_shape(parent, queue[u], (du + 1) as nat);
        assert forall|j: int| 0 <= j < d implies {
            &&& on_board(#[trigger] a[j])
            &&& a[j] != from
            &&& !occupied.contains(a[j])
            &&& rail_step(a[j + 1], a[j])
        } by {
            if j == 0 {
                assert(a[1] == b[0]);
            } else {
                assert(a[j] == b[j - 1]);
                assert(a[j + 1] == b[j]);
            }
        }
    }
}

/// The goal found from the cell taken at position `at` leads back to the
/// start, and the chain read back is a walk as long as the goal is deep.
proof fn lemma_found_walk(
    from: Cell,
    to: Cell,
    occupied: Seq<Cell>,
    queue: Seq<Cell>,
    parent: Seq<Cell>,
    up: Seq<int>,
    depth: Seq<int>,
    at: int,
)
    requires
        search_tree(from, to, occupied, queue, parent, up),
        layered(queue, up, depth),
        0 <= at < queue.len(),
        on_board(to),
        to != from,
        parent[cell_index(to)] == queue[at],
        rail_step(queue[at], to),
    ensures
        depth[at] >= 0,
        chain_reaches(parent, to, from, (depth[at] + 1) as nat),
        ancestors(parent, to, (depth[at] + 1) as nat).len() == depth[at] + 1,
        rail_walk(
            from,
            ancestors(parent, to, (depth[at] + 1) as nat).reverse(),
            to,
            occupied,
        ),
{
    lemma_tree_chain(from, to, occupied, queue, parent, up, depth, at);
    let k = (depth[at] + 1) as nat;
    let b = ancestors(parent, queue[at], k);
    let full = ancestors(parent, to, k + 1);
    lemma_ancestors_shape(parent, queue[at], k);
    assert(full =~= seq![to] + b);
    lemma_ancestors_shape(parent, to, k);
    lemma_ancestors_prefix(parent, to, k, k + 1);
    assert forall|j: int| 0 <= j < k implies on_board(#[trigger] full[j]) && full[j] != from by {
        if j > 0 {
            assert(full[j] == b[j - 1]);
        }
    }
    assert forall|j: int| 0 <= j < k implies #[trigger] rail_step(full[j + 1], full[j]) by {
        if j > 0 {
            assert(full[j] == b[j - 1]);
            assert(full[j + 1] == b[j]);
        }
    }
    let w = ancestors(parent, to, k).reverse();
    assert forall|i: int| 0 <= i < w.len() ==> #[trigger] w[i] == full[k - 1 - i] by {}
    assert(rail_step(full[k as int], full[k - 1]));
    assert forall|i: int| 0 <= i < w.len() - 1 implies #[trigger] rail_step(w[i], w[i + 1]) by {
        assert(w[i] == full[k - 1 - i]);
        assert(w[i + 1] == full[(k - 2 - i) + 1 - 1]);
        assert(rail_step(full[(k - 2 - i) + 1], full[k - 2 - i]));
    }
    assert forall|i: int| 0 <= i < w.len() - 1 implies !occupied.contains(#[trigger] w[i]) by {
        assert(w[i] == full[k - 1 - i]);
        assert(full[k - 1 - i] == b[k - 2 - i]);
    }
    assert(w.last() == full[0]);
}

/// Searches the railway breadth first from `from` for a shortest way to `to`,
/// passing only free cells; `to` itself may be occupied.
#[verifier::spinoff_prover]
#[verifier::rlimit(80)]
fn railway_path(from: Cell, to: Cell, occupied: &Vec<Cell>) -> (r: Option<Vec<Cell>>)
    requires
        neighbours_fit(from),
    ensures
        r is Some <==> rail_reachable(from, to, occupied@),
        r matches Some(p) ==> shortest_walk(from, p@, to, occupied@),
{
    if same_cell(from, to) {
        return None;
    }
    let mut queue: Vec<Cell> = Vec::new();
    queue.push(from);
    let mut head: usize = 0;
    let mut visited: Vec<bool> = Vec::new();
    let mut parent: Vec<Cell> = Vec::new();
    for i in 0..60
        invariant
            visited@.len() == i,
            parent@.len() == i,
            forall|k: int| 0 <= k < i ==> !(#[trigger] visited@[k]),
    {
        visited.push(false);
        parent.push((0, 0));
    }
    if from.0 < BOARD_ROWS && from.1 < BOARD_COLS {
        visited.set(index_of(from), true);
    }
    let ghost mut up: Seq<int> = seq![0int];
    let ghost mut depth: Seq<int> = seq![0int];
    proof {
        assert forall|c: Cell| on_board(c) implies (visited@[cell_index(c)] <==> #[trigger] queue@.contains(c)) by {
            if c == from {
                assert(queue@[0] == from);
            }
            if queue@.contains(c) {
                let k = choose|k: int| 0 <= k < queue@.len() && queue@[k] == c;
                assert(k == 0);
            }
            if visited@[cell_index(c)] {
                lemma_cell_index_injective(c, from);
            }
        }
    }
    while head < queue.len()
        invariant
            from != to,
            neighbours_fit(from),
            search_tree(from, to, occupied@, queue@, parent@, up),
            visited_matches(visited@, queue@),
            head <= queue@.len(),
            closed_up_to(queue@, head as int, to, occupied@),
            layered(queue@, up, depth),
            forall|q: int| 1 <= q < queue@.len() ==> #[trigger] up[q] < head,
            head < queue@.len() ==> forall|q: int|
                0 <= q < queue@.len() ==> #[trigger] depth[q] <= depth[head as int] + 1,
            queued_in_order(queue@, up, head as int, occupied@),
        decreases 2 * count_unvisited(visited@) + queue@.len() - head,
    {
        let current = queue[head];
        let ghost at = head as int;
        let ghost measure = 2 * count_unvisited(visited@) + queue@.len() - head;
        head += 1;
        proof {
            if at > 0 {
                assert(on_board(queue@[at]));
                lemma_signed_range(current.0);
                lemma_signed_range(current.1);
            }
        }
        let neighbors = railway_neighbors(current.0, current.1);
        let mut k: usize = 0;
        while k < neighbors.len()
            invariant
                from != to,
                neighbours_fit(from),
                at == head - 1,
                0 <= at < queue@.len(),
                current == queue@[at],
                forall|n: Cell| rail_step(current, n) <==> neighbors@.contains(n),
                forall|i: int| 0 <= i < neighbors@.len() ==> rail_step(current, #[trigger] neighbors@[i]),
                k <= neighbors@.len(),
                search_tree(from, to, occupied@, queue@, parent@, up),
                visited_matches(visited@, queue@),
                head <= queue@.len(),
                closed_up_to(queue@, at, to, occupied@),
                forall|i: int|
                    0 <= i < k ==> #[trigger] neighbors@[i] != to && (queue@.contains(neighbors@[i])
                        || occupied@.contains(neighbors@[i])),
                2 * count_unvisited(visited@) + queue@.len() - head < measure,
                layered(queue@, up, depth),
                forall|q: int| 1 <= q < queue@.len() ==> #[trigger] up[q] <= at,
                forall|q: int| 0 <= q < queue@.len() ==> #[trigger] depth[q] <= depth[at] + 1,
                queued_in_order(queue@, up, at, occupied@),
                forall|i: int|
                    0 <= i < k ==> occupied@.contains(#[trigger] neighbors@[i]) || queued_by(
                        queue@,
                        up,
                        neighbors@[i],
                        at,
                    ),
            decreases neighbors@.len() - k,
        {
            let next = neighbors[k];
            assert(rail_step(current, next));
            proof {
                lemma_rail_step_lands(current, next);
            }
            if contains_cell(occupied, next) && !same_cell(next, to) {
                k += 1;
                continue;
            }
            let slot = index_of(next);
            if visited[slot] {
                proof {
                    assert(queue@.contains(next));
                    let q = choose|q: int| 0 <= q < queue@.len() && queue@[q] == next;
                    assert(queue@[q] == next);
                    if next == to {
                        let j = choose|j: int| 0 <= j < queue@.len() && queue@[j] == next;
                        assert(queue@[0] == from);
                    }
                }
                k += 1;
                continue;
            }
            let ghost old_queue = queue@;
            let ghost old_visited = visited@;
            let ghost old_parent = parent@;
            proof {
                lemma_visit_one(visited@, slot as int);
            }
            visited.set(slot, true);
            parent.set(slot, current);
            assert(!old_queue.contains(next));
            assert forall|i: int| 1 <= i < old_queue.len() implies parent@[cell_index(
                #[trigger] old_queue[i],
            )] == old_parent[cell_index(old_queue[i])] by {
                if cell_index(old_queue[i]) == slot {
                    lemma_cell_index_injective(old_queue[i], next);
                    assert(old_queue.contains(old_queue[i]));
                }
            }
            if same_cell(next, to) {
                proof {
                    lemma_found_walk(from, to, occupied@, queue@, parent@, up, depth, at);
                }
                let path = rebuild_path(from, to, &parent, Ghost((depth[at] + 1) as nat));
                assert forall|q: int| 1 <= q < queue@.len() implies 0 <= #[trigger] up[q] < q by {
                    assert(on_board(queue@[q]));
                }
                assert(searched_before(from, to, occupied@, queue@, up, depth, at));
                assert forall|w: Seq<Cell>| rail_walk(from, w, to, occupied@) implies path@.len()
                    <= w.len() by {
                    lemma_walk_is_long(from, to, occupied@, queue@, up, depth, at, w);
                }
                return Some(path);
            }
            let ghost old_up = up;
            let ghost old_depth = depth;
            queue.push(next);
            proof {
                up = up.push(at);
                depth = depth.push(old_depth[at] + 1);
                assert forall|q: int| 1 <= q < old_queue.len() implies 0 <= #[trigger] old_up[q] < q by {
                    assert(on_board(old_queue[q]));
                }
                lemma_push_keeps_layers(old_queue, old_up, old_depth, at, next, occupied@);
                assert forall|i: int| 0 <= i < k + 1 implies occupied@.contains(
                    #[trigger] neighbors@[i],
                ) || queued_by(queue@, up, neighbors@[i], at) by {
                    if i == k {
                        assert(queue@[queue@.len() - 1] == next);
                    }
                }
                assert(queue@[queue@.len() - 1] == next);
                if next == from {
                    assert(old_queue[0] == from);
                    assert(old_queue.contains(from));
                }
                assert forall|i: int| 1 <= i < queue@.len() implies {
                    &&& on_board(#[trigger] queue@[i])
                    &&& queue@[i] != from
                    &&& queue@[i] != to
                    &&& !occupied@.contains(queue@[i])
                    &&& 0 <= up[i] < i
                    &&& parent@[cell_index(queue@[i])] == queue@[up[i]]
                    &&& rail_step(queue@[up[i]], queue@[i])
                } by {
                    if i < old_queue.len() {
                        assert(queue@[i] == old_queue[i]);
                        assert(queue@[up[i]] == old_queue[up[i]]);
                    }
                }
                assert forall|c: Cell| on_board(c) implies (visited@[cell_index(c)]
                    <==> #[trigger] queue@.contains(c)) by {
                    if old_queue.contains(c) {
                        lemma_contains_after_push(old_queue, next, c);
                    }
                    if queue@.contains(c) && c != next {
                        let j = choose|j: int| 0 <= j < queue@.len() && queue@[j] == c;
                        assert(old_queue[j] == c);
                    }
                    if cell_index(c) == slot {
                        lemma_cell_index_injective(c, next);
                    }
                }
                assert forall|j: int, n: Cell| 0 <= j < at && #[trigger] rail_step(queue@[j], n) implies n
                    != to && (queue@.contains(n) || occupied@.contains(n)) by {
                    assert(queue@[j] == old_queue[j]);
                    if old_queue.contains(n) {
                        lemma_contains_after_push(old_queue, next, n);
                    }
                }
                assert forall|i: int| 0 <= i < k + 1 implies #[trigger] neighbors@[i] != to && (
                queue@.contains(neighbors@[i]) || occupied@.contains(neighbors@[i])) by {
                    if i < k && old_queue.contains(neighbors@[i]) {
                        lemma_contains_after_push(old_queue, next, neighbors@[i]);
                    }
                }
            }
            k += 1;
        }
        assert forall|j: int, n: Cell| 0 <= j < head && #[trigger] rail_step(queue@[j], n) implies n
            != to && (queue@.contains(n) || occupied@.contains(n)) by {
            if j == at {
                let i = choose|i: int| 0 <= i < neighbors@.len() && neighbors@[i] == n;
            }
        }
        assert forall|j: int, n: Cell|
            0 <= j < head && #[trigger] rail_step(queue@[j], n) && !occupied@.contains(n) implies queued_by(
            queue@,
            up,
            n,
            j,
        ) by {
            if j == at {
                let i = choose|i: int| 0 <= i < neighbors@.len() && neighbors@[i] == n;
                assert(queued_by(queue@, up, neighbors@[i], at));
            }
        }
        if head < queue.len() {
            assert(depth[at] <= depth[head as int]);
        }
    }
    assert forall|w: Seq<Cell>| !rail_walk(from, w, to, occupied@) by {
        lemma_no_walk(from, to, occupied@, queue@, w);
    }
    None
}

} // verus!
