use crate::grid::Cell;
use crate::rng::{draw_model, RndModel};
use vstd::prelude::*;

verus! {

/// Compass direction; the unit vector used to step between cells, one step
/// to clear a wall and two steps to probe the next room.
#[derive(Clone, Copy, PartialEq, Eq, Structural, Debug)]
pub enum Direction {
    North,
    East,
    South,
    West,
}

/// The candidate pool every neighbour search starts from.
pub open spec fn all_dirs() -> Seq<Direction> {
    seq![Direction::North, Direction::East, Direction::South, Direction::West]
}

/// The point `s` steps from `p` in direction `d` (x east, y south).
pub open spec fn step(p: (int, int), d: Direction, s: int) -> (int, int) {
    match d {
        Direction::North => (p.0, p.1 - s),
        Direction::East => (p.0 + s, p.1),
        Direction::South => (p.0, p.1 + s),
        Direction::West => (p.0 - s, p.1),
    }
}

/// A cell matrix with exactly `rows` rows, each of `cols` cells.
pub open spec fn dims_ok(g: Seq<Seq<Cell>>, rows: int, cols: int) -> bool {
    g.len() == rows && (forall|i: int| 0 <= i < rows ==> #[trigger] g[i].len() == cols)
}

/// The point indexes an actual cell of `g`.
pub open spec fn in_grid(g: Seq<Seq<Cell>>, p: (int, int)) -> bool {
    0 <= p.1 < g.len() && 0 <= p.0 < g[p.1].len()
}

pub open spec fn cell_at(g: Seq<Seq<Cell>>, p: (int, int)) -> Cell {
    g[p.1][p.0]
}

pub open spec fn set_at(g: Seq<Seq<Cell>>, p: (int, int), c: Cell) -> Seq<Seq<Cell>> {
    g.update(p.1, g[p.1].update(p.0, c))
}

/// Out of bounds for carving. The outermost ring (index 0 and index max-1
/// on each axis) counts as out of bounds, so a perimeter wall always stays.
pub open spec fn oob(rows: int, cols: int, p: (int, int)) -> bool {
    p.0 <= 0 || p.0 >= cols - 1 || p.1 <= 0 || p.1 >= rows - 1
}

/// A maze room: an interior point with both coordinates odd.
pub open spec fn valid_room(rows: int, cols: int, p: (int, int)) -> bool {
    1 <= p.0 <= cols - 2 && 1 <= p.1 <= rows - 2 && p.0 % 2 == 1 && p.1 % 2 == 1
}

/// Direction `d` can be carved from `p`: the room two steps away is not yet
/// visited, not out of bounds, and still wall.
pub open spec fn viable(
    g: Seq<Seq<Cell>>,
    rows: int,
    cols: int,
    visited: Seq<(int, int)>,
    p: (int, int),
    d: Direction,
) -> bool {
    let nb = step(p, d, 2);
    &&& !visited.contains(nb)
    &&& !oob(rows, cols, nb)
    &&& cell_at(g, nb) != Cell::Empty
}

/// Some direction can be carved from `p` before anything is visited.
pub open spec fn some_viable(g: Seq<Seq<Cell>>, rows: int, cols: int, p: (int, int)) -> bool {
    exists|d: Direction| viable(g, rows, cols, Seq::empty(), p, d)
}

/// A concrete point as a mathematical one.
pub open spec fn pm(p: (isize, isize)) -> (int, int) {
    (p.0 as int, p.1 as int)
}

pub open spec fn pts(s: Seq<(isize, isize)>) -> Seq<(int, int)> {
    s.map_values(|p: (isize, isize)| pm(p))
}

/// Random neighbour selection: draw a uniformly random index into the
/// remaining candidate pool; if the room two steps that way is visited, out
/// of bounds, or already empty, discard the direction and retry, otherwise
/// return it. `None` once the pool is exhausted.
pub open spec fn model_neighbour(
    g: Seq<Seq<Cell>>,
    rows: int,
    cols: int,
    visited: Seq<(int, int)>,
    p: (int, int),
    cands: Seq<Direction>,
    r: RndModel,
) -> (Option<((int, int), Direction)>, RndModel)
    decreases cands.len(),
{
    if cands.len() <= 0 {
        (None::<((int, int), Direction)>, r)
    } else {
        let dr = draw_model(r, cands.len() as int);
        let idx = dr.0;
        let r2 = dr.1;
        let d = cands[idx];
        let nb = step(p, d, 2);
        if visited.contains(nb) || oob(rows, cols, nb) || cell_at(g, nb) == Cell::Empty {
            model_neighbour(g, rows, cols, visited, p, cands.remove(idx), r2)
        } else {
            (Some((nb, d)), r2)
        }
    }
}

/// Number of wall cells in one row.
pub open spec fn row_walls(r: Seq<Cell>) -> nat
    decreases r.len(),
{
    if r.len() == 0 {
        0
    } else {
        row_walls(r.drop_last()) + (if r.last() == Cell::Wall {
            1nat
        } else {
            0
        })
    }
}

/// Number of wall cells in the whole grid; the termination measure of
/// carving, since every carving step turns one wall room empty.
pub open spec fn wall_count(g: Seq<Seq<Cell>>) -> nat
    decreases g.len(),
{
    if g.len() == 0 {
        0
    } else {
        wall_count(g.drop_last()) + row_walls(g.last())
    }
}

/// The three positions a carving step writes are distinct cells of `g`, and
/// the target room is still wall.
pub open spec fn carve_ok(g: Seq<Seq<Cell>>, p: (int, int), mid: (int, int), nb: (int, int)) -> bool {
    &&& in_grid(g, p)
    &&& in_grid(g, mid)
    &&& in_grid(g, nb)
    &&& cell_at(g, nb) == Cell::Wall
    &&& nb != p
    &&& nb != mid
    &&& mid != p
}

/// One carving step: the current point, the cell between, and the neighbour
/// room all become empty.
pub open spec fn carve3(g: Seq<Seq<Cell>>, p: (int, int), mid: (int, int), nb: (int, int)) -> Seq<
    Seq<Cell>,
> {
    set_at(set_at(set_at(g, p, Cell::Empty), mid, Cell::Empty), nb, Cell::Empty)
}

/// The whole carving loop. While the frontier stack is non-empty: pop the
/// current point; search a neighbour; if one is found, carve towards it,
/// mark it visited, push it, and remember the current point for
/// backtracking; otherwise backtrack to the most recent remembered point,
/// or stop when none is left.
pub open spec fn model_carve(
    g: Seq<Seq<Cell>>,
    rows: int,
    cols: int,
    stack: Seq<(int, int)>,
    visited: Seq<(int, int)>,
    prev: Seq<(int, int)>,
    r: RndModel,
) -> Seq<Seq<Cell>>
    decreases wall_count(g), prev.len(),
{
    if stack.len() == 0 {
        g
    } else {
        let p = stack.last();
        let rest = stack.drop_last();
        let nbres = model_neighbour(g, rows, cols, visited, p, all_dirs(), r);
        let r2 = nbres.1;
        match nbres.0 {
            Some(nbd) => {
                let nb = nbd.0;
                let mid = step(p, nbd.1, 1);
                if carve_ok(g, p, mid, nb) {
                    proof {
                        lemma_carve3_wall_count(g, p, mid, nb);
                    }
                    model_carve(
                        carve3(g, p, mid, nb),
                        rows,
                        cols,
                        rest.push(nb),
                        visited.push(nb),
                        prev.push(p),
                        r2,
                    )
                } else {
                    g
                }
            },
            None => {
                if prev.len() == 0 {
                    g
                } else {
                    model_carve(g, rows, cols, rest.push(prev.last()), visited, prev.drop_last(), r2)
                }
            },
        }
    }
}

/// The start coordinates drawn by `generate`: uniform over the interior
/// band that keeps both boundary columns standing, then forced odd.
pub open spec fn force_odd(x: int) -> int {
    if x % 2 == 0 {
        x + 1
    } else {
        x
    }
}

/// The whole generation on a fixed source: draw the start column, then the
/// start row, force both odd, then carve from that room.
pub open spec fn generate_model(g: Seq<Seq<Cell>>, rows: int, cols: int, r: RndModel) -> Seq<
    Seq<Cell>,
> {
    let dx = draw_model(r, cols - 3);
    let dy = draw_model(dx.1, rows - 3);
    let sx = force_odd(1 + dx.0);
    let sy = force_odd(1 + dy.0);
    model_carve(g, rows, cols, seq![(sx, sy)], Seq::empty(), Seq::empty(), dy.1)
}

/// How a carved grid relates to the grid it was carved from: same shape,
/// and every cell is either untouched or newly empty, in which case it is
/// interior (the perimeter ring never changes) and has an odd coordinate
/// (only rooms and the cells between them are carved).
pub open spec fn carve_rel(og: Seq<Seq<Cell>>, gc: Seq<Seq<Cell>>, rows: int, cols: int) -> bool {
    &&& dims_ok(og, rows, cols)
    &&& dims_ok(gc, rows, cols)
    &&& forall|q: (int, int)|
        in_grid(og, q) ==> (#[trigger] cell_at(gc, q) == cell_at(og, q) || (cell_at(gc, q)
            == Cell::Empty && !oob(rows, cols, q) && (q.0 % 2 == 1 || q.1 % 2 == 1)))
}

pub open spec fn opposite(d: Direction) -> Direction {
    match d {
        Direction::North => Direction::South,
        Direction::East => Direction::West,
        Direction::South => Direction::North,
        Direction::West => Direction::East,
    }
}

/// Some cell right beside `q` is empty.
pub open spec fn adjacent_empty(g: Seq<Seq<Cell>>, q: (int, int)) -> bool {
    exists|d: Direction|
        in_grid(g, #[trigger] step(q, d, 1)) && cell_at(g, step(q, d, 1)) == Cell::Empty
}

/// Carving never leaves an isolated empty cell: every cell that was wall
/// before and is empty now stands beside an empty cell.
pub open spec fn no_isolated_carve(og: Seq<Seq<Cell>>, gc: Seq<Seq<Cell>>) -> bool {
    forall|q: (int, int)|
        in_grid(og, q) && cell_at(og, q) != Cell::Empty && #[trigger] cell_at(gc, q) == Cell::Empty
            ==> adjacent_empty(gc, q)
}

/// Every in-bounds room two steps from `q` is already empty: a neighbour
/// search from `q` can never find another wall room to carve.
pub open spec fn fully_probed(g: Seq<Seq<Cell>>, rows: int, cols: int, q: (int, int)) -> bool {
    forall|d: Direction|
        !oob(rows, cols, #[trigger] step(q, d, 2)) ==> cell_at(g, step(q, d, 2)) == Cell::Empty
}

/// The grid is carved to the full: no empty room has an in-bounds room two
/// steps away that is still wall, so no further carving is possible
/// anywhere.
pub open spec fn fully_carved(g: Seq<Seq<Cell>>, rows: int, cols: int) -> bool {
    forall|q: (int, int), d: Direction|
        valid_room(rows, cols, q) && cell_at(g, q) == Cell::Empty && !oob(
            rows,
            cols,
            #[trigger] step(q, d, 2),
        ) ==> cell_at(g, step(q, d, 2)) == Cell::Empty
}

/// Carving has already begun from `sp`: the start room is empty and so is
/// some cell right beside it.
pub open spec fn started(g: Seq<Seq<Cell>>, sp: (int, int)) -> bool {
    &&& cell_at(g, sp) == Cell::Empty
    &&& exists|d: Direction|
        in_grid(g, #[trigger] step(sp, d, 1)) && cell_at(g, step(sp, d, 1)) == Cell::Empty
}

/// Mapping concrete points to mathematical ones preserves membership.
pub proof fn lemma_pts_contains(s: Seq<(isize, isize)>, p: (isize, isize))
    ensures
        pts(s).contains(pm(p)) == s.contains(p),
{
    if s.contains(p) {
        let i = choose|i: int| 0 <= i < s.len() && s[i] == p;
        assert(pts(s)[i] == pm(p));
    }
    if pts(s).contains(pm(p)) {
        let i = choose|i: int| 0 <= i < pts(s).len() && pts(s)[i] == pm(p);
        assert(pm(s[i]) == pm(p));
        assert(s[i].0 == p.0 && s[i].1 == p.1);
        assert(s[i] == p);
    }
}

pub proof fn lemma_pts_push(s: Seq<(isize, isize)>, p: (isize, isize))
    ensures
        pts(s.push(p)) =~= pts(s).push(pm(p)),
{
    assert forall|i: int| 0 <= i < s.len() + 1 implies pts(s.push(p))[i] == pts(s).push(pm(p))[i] by {
        if i < s.len() {
            assert(s.push(p)[i] == s[i]);
        } else {
            assert(s.push(p)[i] == p);
        }
    }
}

pub proof fn lemma_pts_drop_last(s: Seq<(isize, isize)>)
    requires
        s.len() > 0,
    ensures
        pts(s.drop_last()) =~= pts(s).drop_last(),
        pts(s).last() == pm(s.last()),
{
    assert forall|i: int| 0 <= i < s.len() - 1 implies pts(s.drop_last())[i] == pts(s).drop_last()[i] by {
        assert(s.drop_last()[i] == s[i]);
    }
}

pub proof fn lemma_row_walls_update(r: Seq<Cell>, i: int)
    requires
        0 <= i < r.len(),
    ensures
        row_walls(r.update(i, Cell::Empty)) + (if r[i] == Cell::Wall {
            1int
        } else {
            0
        }) == row_walls(r),
    decreases r.len(),
{
    let r2 = r.update(i, Cell::Empty);
    if i == r.len() - 1 {
        assert(r2.drop_last() =~= r.drop_last());
    } else {
        assert(r2.drop_last() =~= r.drop_last().update(i, Cell::Empty));
        lemma_row_walls_update(r.drop_last(), i);
    }
}

pub proof fn lemma_wall_count_set(g: Seq<Seq<Cell>>, p: (int, int))
    requires
        in_grid(g, p),
    ensures
        wall_count(set_at(g, p, Cell::Empty)) + (if cell_at(g, p) == Cell::Wall {
            1int
        } else {
            0
        }) == wall_count(g),
    decreases g.len(),
{
    let g2 = set_at(g, p, Cell::Empty);
    if p.1 == g.len() - 1 {
        assert(g2.drop_last() =~= g.drop_last());
        lemma_row_walls_update(g[p.1], p.0);
    } else {
        assert(g2.drop_last() =~= set_at(g.drop_last(), p, Cell::Empty));
        assert(g2.last() =~= g.last());
        lemma_wall_count_set(g.drop_last(), p);
    }
}

/// Writing one cell changes nothing else: shape kept, the written position
/// holds the new value, every other position its old one.
pub proof fn lemma_set_at(g: Seq<Seq<Cell>>, p: (int, int), c: Cell)
    requires
        in_grid(g, p),
    ensures
        set_at(g, p, c).len() == g.len(),
        forall|i: int| 0 <= i < g.len() ==> #[trigger] set_at(g, p, c)[i].len() == g[i].len(),
        cell_at(set_at(g, p, c), p) == c,
        forall|q: (int, int)|
            in_grid(g, q) && q != p ==> #[trigger] cell_at(set_at(g, p, c), q) == cell_at(g, q),
{
    let g2 = set_at(g, p, c);
    assert forall|q: (int, int)| in_grid(g, q) && q != p implies #[trigger] cell_at(g2, q)
        == cell_at(g, q) by {
        if q.1 == p.1 {
            assert(q.0 != p.0);
        }
    }
}

/// Carving one more interior, odd-lattice cell keeps the carving relation.
pub proof fn lemma_carve_rel_set(
    og: Seq<Seq<Cell>>,
    gc: Seq<Seq<Cell>>,
    rows: int,
    cols: int,
    p: (int, int),
)
    requires
        carve_rel(og, gc, rows, cols),
        in_grid(gc, p),
        !oob(rows, cols, p),
        p.0 % 2 == 1 || p.1 % 2 == 1,
    ensures
        carve_rel(og, set_at(gc, p, Cell::Empty), rows, cols),
{
    lemma_set_at(gc, p, Cell::Empty);
    let g2 = set_at(gc, p, Cell::Empty);
    assert forall|q: (int, int)| in_grid(og, q) implies (#[trigger] cell_at(g2, q) == cell_at(og, q)
        || (cell_at(g2, q) == Cell::Empty && !oob(rows, cols, q) && (q.0 % 2 == 1 || q.1 % 2
        == 1))) by {
        assert(in_grid(gc, q));
        if q != p {
            assert(cell_at(g2, q) == cell_at(gc, q));
        }
    }
}

/// Carving only ever empties cells, so a start room that has been carved
/// out, together with its carved neighbour cell, stays that way.
pub proof fn lemma_started_set(gc: Seq<Seq<Cell>>, p: (int, int), sp: (int, int))
    requires
        started(gc, sp),
        in_grid(gc, p),
        in_grid(gc, sp),
    ensures
        started(set_at(gc, p, Cell::Empty), sp),
{
    lemma_set_at(gc, p, Cell::Empty);
    let g2 = set_at(gc, p, Cell::Empty);
    let d = choose|d: Direction|
        in_grid(gc, #[trigger] step(sp, d, 1)) && cell_at(gc, step(sp, d, 1)) == Cell::Empty;
    assert(in_grid(g2, step(sp, d, 1)));
    assert(cell_at(g2, step(sp, d, 1)) == Cell::Empty);
    assert(cell_at(g2, sp) == Cell::Empty);
}

/// Carving only ever empties cells, so a cell with an empty neighbour
/// keeps one.
pub proof fn lemma_adjacent_empty_set(g: Seq<Seq<Cell>>, p: (int, int), q: (int, int))
    requires
        adjacent_empty(g, q),
        in_grid(g, p),
    ensures
        adjacent_empty(set_at(g, p, Cell::Empty), q),
{
    lemma_set_at(g, p, Cell::Empty);
    let g2 = set_at(g, p, Cell::Empty);
    let d = choose|d: Direction|
        in_grid(g, #[trigger] step(q, d, 1)) && cell_at(g, step(q, d, 1)) == Cell::Empty;
    assert(in_grid(g2, step(q, d, 1)));
    assert(cell_at(g2, step(q, d, 1)) == Cell::Empty);
}

/// Connectivity fragment: on a maze generated from an all-wall grid, no
/// empty cell is isolated — each stands beside another empty cell.
pub proof fn lemma_no_isolated_empty(
    og: Seq<Seq<Cell>>,
    gc: Seq<Seq<Cell>>,
    rows: int,
    cols: int,
)
    requires
        carve_rel(og, gc, rows, cols),
        no_isolated_carve(og, gc),
        forall|q: (int, int)| in_grid(og, q) ==> #[trigger] cell_at(og, q) == Cell::Wall,
    ensures
        forall|q: (int, int)|
            in_grid(gc, q) && #[trigger] cell_at(gc, q) == Cell::Empty ==> adjacent_empty(gc, q),
{
    assert forall|q: (int, int)|
        in_grid(gc, q) && #[trigger] cell_at(gc, q) == Cell::Empty implies adjacent_empty(
        gc,
        q,
    ) by {
        assert(in_grid(og, q));
        assert(cell_at(og, q) == Cell::Wall);
    }
}

/// Number of empty cells in row `r`.
pub open spec fn row_empty_count(r: Seq<Cell>) -> nat
    decreases r.len(),
{
    if r.len() == 0 {
        0
    } else {
        row_empty_count(r.drop_last()) + (if r.last() == Cell::Empty {
            1nat
        } else {
            0
        })
    }
}

/// Number of empty room cells (both coordinates odd) in row `r` at row
/// index `y`.
pub open spec fn row_room_count(r: Seq<Cell>, y: int) -> nat
    decreases r.len(),
{
    if r.len() == 0 {
        0
    } else {
        row_room_count(r.drop_last(), y) + (if r.last() == Cell::Empty && y % 2 == 1 && (r.len()
            - 1) % 2 == 1 {
            1nat
        } else {
            0
        })
    }
}

/// Number of empty corridor cells (at least one even coordinate) in row
/// `r` at row index `y`.
pub open spec fn row_corridor_count(r: Seq<Cell>, y: int) -> nat
    decreases r.len(),
{
    if r.len() == 0 {
        0
    } else {
        row_corridor_count(r.drop_last(), y) + (if r.last() == Cell::Empty && !(y % 2 == 1 && (
        r.len() - 1) % 2 == 1) {
            1nat
        } else {
            0
        })
    }
}

pub open spec fn empty_count(g: Seq<Seq<Cell>>) -> nat
    decreases g.len(),
{
    if g.len() == 0 {
        0
    } else {
        empty_count(g.drop_last()) + row_empty_count(g.last())
    }
}

/// Number of empty rooms: empty cells whose row and column index are both
/// odd.
pub open spec fn room_count(g: Seq<Seq<Cell>>) -> nat
    decreases g.len(),
{
    if g.len() == 0 {
        0
    } else {
        room_count(g.drop_last()) + row_room_count(g.last(), g.len() - 1)
    }
}

/// Number of corridor connections: empty cells that are not rooms.
pub open spec fn corridor_count(g: Seq<Seq<Cell>>) -> nat
    decreases g.len(),
{
    if g.len() == 0 {
        0
    } else {
        corridor_count(g.drop_last()) + row_corridor_count(g.last(), g.len() - 1)
    }
}

/// Every cell of the grid is wall.
pub open spec fn all_wall(g: Seq<Seq<Cell>>) -> bool {
    forall|q: (int, int)| in_grid(g, q) ==> #[trigger] cell_at(g, q) == Cell::Wall
}

/// The two cells beside `q` along its even axis — the rooms it joins,
/// when `q` is a corridor cell — are both empty.
pub open spec fn corridor_sides_empty(g: Seq<Seq<Cell>>, q: (int, int)) -> bool {
    if q.0 % 2 == 0 {
        cell_at(g, (q.0 - 1, q.1)) == Cell::Empty && cell_at(g, (q.0 + 1, q.1)) == Cell::Empty
    } else {
        cell_at(g, (q.0, q.1 - 1)) == Cell::Empty && cell_at(g, (q.0, q.1 + 1)) == Cell::Empty
    }
}

/// Every empty interior corridor cell already joins two empty rooms.
/// Carving keeps this, and it is what makes a corridor cell's emptiness
/// witness exactly one room-to-room connection.
pub open spec fn corridors_join_rooms(g: Seq<Seq<Cell>>, rows: int, cols: int) -> bool {
    forall|q: (int, int)|
        in_grid(g, q) && !oob(rows, cols, q) && cell_at(g, q) == Cell::Empty && !(q.0 % 2 == 1
            && q.1 % 2 == 1) ==> #[trigger] corridor_sides_empty(g, q)
}

pub proof fn lemma_row_all_wall(r: Seq<Cell>, y: int)
    requires
        forall|j: int| 0 <= j < r.len() ==> #[trigger] r[j] == Cell::Wall,
    ensures
        row_empty_count(r) == 0,
        row_room_count(r, y) == 0,
        row_corridor_count(r, y) == 0,
    decreases r.len(),
{
    if r.len() > 0 {
        lemma_row_all_wall(r.drop_last(), y);
    }
}

/// An all-wall grid has no empty cell of any kind.
pub proof fn lemma_all_wall_counts(g: Seq<Seq<Cell>>)
    requires
        all_wall(g),
    ensures
        empty_count(g) == 0,
        room_count(g) == 0,
        corridor_count(g) == 0,
    decreases g.len(),
{
    if g.len() > 0 {
        assert forall|q: (int, int)| in_grid(g.drop_last(), q) implies #[trigger] cell_at(
            g.drop_last(),
            q,
        ) == Cell::Wall by {
            assert(in_grid(g, q) && cell_at(g, q) == Cell::Wall);
        }
        lemma_all_wall_counts(g.drop_last());
        assert forall|j: int| 0 <= j < g.last().len() implies #[trigger] g.last()[j]
            == Cell::Wall by {
            assert(in_grid(g, (j, g.len() - 1)) && cell_at(g, (j, g.len() - 1)) == Cell::Wall);
        }
        lemma_row_all_wall(g.last(), g.len() - 1);
    }
}

pub proof fn lemma_row_counts_update(r: Seq<Cell>, i: int, y: int)
    requires
        0 <= i < r.len(),
    ensures
        row_empty_count(r.update(i, Cell::Empty)) == row_empty_count(r) + (if r[i] == Cell::Empty {
            0int
        } else {
            1
        }),
        row_room_count(r.update(i, Cell::Empty), y) == row_room_count(r, y) + (if r[i]
            != Cell::Empty && y % 2 == 1 && i % 2 == 1 {
            1int
        } else {
            0
        }),
        row_corridor_count(r.update(i, Cell::Empty), y) == row_corridor_count(r, y) + (if r[i]
            != Cell::Empty && !(y % 2 == 1 && i % 2 == 1) {
            1int
        } else {
            0
        }),
    decreases r.len(),
{
    let r2 = r.update(i, Cell::Empty);
    if i == r.len() - 1 {
        assert(r2.drop_last() =~= r.drop_last());
    } else {
        assert(r2.drop_last() =~= r.drop_last().update(i, Cell::Empty));
        lemma_row_counts_update(r.drop_last(), i, y);
    }
}

/// How carving one cell moves the three counts: nothing if it was already
/// empty, else one more room or one more corridor, by its position.
pub proof fn lemma_counts_set(g: Seq<Seq<Cell>>, p: (int, int))
    requires
        in_grid(g, p),
    ensures
        empty_count(set_at(g, p, Cell::Empty)) == empty_count(g) + (if cell_at(g, p)
            == Cell::Empty {
            0int
        } else {
            1
        }),
        room_count(set_at(g, p, Cell::Empty)) == room_count(g) + (if cell_at(g, p) != Cell::Empty
            && p.0 % 2 == 1 && p.1 % 2 == 1 {
            1int
        } else {
            0
        }),
        corridor_count(set_at(g, p, Cell::Empty)) == corridor_count(g) + (if cell_at(g, p)
            != Cell::Empty && !(p.0 % 2 == 1 && p.1 % 2 == 1) {
            1int
        } else {
            0
        }),
    decreases g.len(),
{
    let g2 = set_at(g, p, Cell::Empty);
    if p.1 == g.len() - 1 {
        assert(g2.drop_last() =~= g.drop_last());
        lemma_row_counts_update(g[p.1], p.0, p.1);
    } else {
        assert(g2.drop_last() =~= set_at(g.drop_last(), p, Cell::Empty));
        assert(g2.last() =~= g.last());
        lemma_counts_set(g.drop_last(), p);
    }
}

pub proof fn lemma_row_partition(r: Seq<Cell>, y: int)
    ensures
        row_empty_count(r) == row_room_count(r, y) + row_corridor_count(r, y),
    decreases r.len(),
{
    if r.len() > 0 {
        lemma_row_partition(r.drop_last(), y);
    }
}

/// The empty cells of a grid split exactly into rooms (both coordinates
/// odd) and corridor connections (the rest): the number of empty cells
/// minus the number of empty room cells equals the number of corridor
/// connections.
pub proof fn lemma_empty_cell_partition(g: Seq<Seq<Cell>>)
    ensures
        empty_count(g) == room_count(g) + corridor_count(g),
    decreases g.len(),
{
    if g.len() > 0 {
        lemma_empty_cell_partition(g.drop_last());
        lemma_row_partition(g.last(), g.len() - 1);
    }
}

/// Everything one carving step does to the grid, given a room and a viable
/// direction: the step is well-formed, the carving relation to the
/// original grid is kept, no carved cell is left isolated, the wall count
/// goes down, the written cells are empty afterwards, and progress at the
/// start room is kept.
pub proof fn lemma_carve_step(
    og: Seq<Seq<Cell>>,
    g0: Seq<Seq<Cell>>,
    rows: int,
    cols: int,
    pp: (int, int),
    d: Direction,
    sp: (int, int),
)
    requires
        carve_rel(og, g0, rows, cols),
        no_isolated_carve(og, g0),
        valid_room(rows, cols, pp),
        !oob(rows, cols, step(pp, d, 2)),
        cell_at(g0, step(pp, d, 2)) != Cell::Empty,
        in_grid(g0, sp),
    ensures
        valid_room(rows, cols, step(pp, d, 2)),
        carve_ok(g0, pp, step(pp, d, 1), step(pp, d, 2)),
        carve_rel(og, carve3(g0, pp, step(pp, d, 1), step(pp, d, 2)), rows, cols),
        no_isolated_carve(og, carve3(g0, pp, step(pp, d, 1), step(pp, d, 2))),
        wall_count(carve3(g0, pp, step(pp, d, 1), step(pp, d, 2))) < wall_count(g0),
        cell_at(carve3(g0, pp, step(pp, d, 1), step(pp, d, 2)), pp) == Cell::Empty,
        in_grid(carve3(g0, pp, step(pp, d, 1), step(pp, d, 2)), step(pp, d, 1)),
        cell_at(carve3(g0, pp, step(pp, d, 1), step(pp, d, 2)), step(pp, d, 1)) == Cell::Empty,
        started(g0, sp) ==> started(carve3(g0, pp, step(pp, d, 1), step(pp, d, 2)), sp),
        cell_at(carve3(g0, pp, step(pp, d, 1), step(pp, d, 2)), step(pp, d, 2)) == Cell::Empty,
        !(step(pp, d, 1).0 % 2 == 1 && step(pp, d, 1).1 % 2 == 1),
        forall|r: (int, int)|
            in_grid(g0, r) && #[trigger] cell_at(g0, r) == Cell::Empty ==> cell_at(
                carve3(g0, pp, step(pp, d, 1), step(pp, d, 2)),
                r,
            ) == Cell::Empty,
{
    let mid = step(pp, d, 1);
    let nbp = step(pp, d, 2);
    let g1 = set_at(g0, pp, Cell::Empty);
    let g2 = set_at(g1, mid, Cell::Empty);
    let g3 = set_at(g2, nbp, Cell::Empty);
    assert(valid_room(rows, cols, nbp) && !oob(rows, cols, mid) && (mid.0 % 2 == 1 || mid.1 % 2
        == 1) && !(mid.0 % 2 == 1 && mid.1 % 2 == 1) && nbp != pp && nbp != mid && mid != pp
        && step(mid, opposite(d), 1) == pp && step(nbp, opposite(d), 1) == mid) by {
        match d {
            Direction::North => assert(nbp == (pp.0, pp.1 - 2) && mid == (pp.0, pp.1 - 1)),
            Direction::East => assert(nbp == (pp.0 + 2, pp.1) && mid == (pp.0 + 1, pp.1)),
            Direction::South => assert(nbp == (pp.0, pp.1 + 2) && mid == (pp.0, pp.1 + 1)),
            Direction::West => assert(nbp == (pp.0 - 2, pp.1) && mid == (pp.0 - 1, pp.1)),
        }
    }
    assert(in_grid(g0, pp) && in_grid(g0, mid) && in_grid(g0, nbp));
    assert(cell_at(g0, nbp) == Cell::Wall);
    lemma_set_at(g0, pp, Cell::Empty);
    lemma_set_at(g1, mid, Cell::Empty);
    lemma_set_at(g2, nbp, Cell::Empty);
    lemma_carve_rel_set(og, g0, rows, cols, pp);
    lemma_carve_rel_set(og, g1, rows, cols, mid);
    lemma_carve_rel_set(og, g2, rows, cols, nbp);
    lemma_carve3_wall_count(g0, pp, mid, nbp);
    if started(g0, sp) {
        lemma_started_set(g0, pp, sp);
        lemma_started_set(g1, mid, sp);
        lemma_started_set(g2, nbp, sp);
    }
    assert forall|q: (int, int)|
        in_grid(og, q) && cell_at(og, q) != Cell::Empty && #[trigger] cell_at(g3, q)
            == Cell::Empty implies adjacent_empty(g3, q) by {
        if q == pp {
            assert(in_grid(g3, step(pp, d, 1)) && cell_at(g3, step(pp, d, 1)) == Cell::Empty);
        } else if q == mid {
            assert(in_grid(g3, step(mid, opposite(d), 1)) && cell_at(g3, step(mid, opposite(d), 1))
                == Cell::Empty);
        } else if q == nbp {
            assert(in_grid(g3, step(nbp, opposite(d), 1)) && cell_at(g3, step(nbp, opposite(d), 1))
                == Cell::Empty);
        } else {
            assert(cell_at(g0, q) == Cell::Empty);
            assert(adjacent_empty(g0, q));
            lemma_adjacent_empty_set(g0, pp, q);
            lemma_adjacent_empty_set(g1, mid, q);
            lemma_adjacent_empty_set(g2, nbp, q);
        }
    }
    assert(cell_at(g3, mid) == Cell::Empty);
    assert forall|r: (int, int)|
        in_grid(g0, r) && #[trigger] cell_at(g0, r) == Cell::Empty implies cell_at(g3, r)
        == Cell::Empty by {
        if r != pp && r != mid && r != nbp {
            assert(cell_at(g3, r) == cell_at(g0, r));
        }
    }
}

/// The cells one carving step writes, and nothing else: the three written
/// cells are empty afterwards, every other cell keeps its value, and the
/// shape is kept.
pub proof fn lemma_carve3_cells(g: Seq<Seq<Cell>>, p: (int, int), mid: (int, int), nb: (int, int))
    requires
        in_grid(g, p),
        in_grid(g, mid),
        in_grid(g, nb),
        p != mid,
        p != nb,
        mid != nb,
    ensures
        carve3(g, p, mid, nb).len() == g.len(),
        forall|i: int| 0 <= i < g.len() ==> #[trigger] carve3(g, p, mid, nb)[i].len() == g[i].len(),
        cell_at(carve3(g, p, mid, nb), p) == Cell::Empty,
        cell_at(carve3(g, p, mid, nb), mid) == Cell::Empty,
        cell_at(carve3(g, p, mid, nb), nb) == Cell::Empty,
        forall|r: (int, int)|
            in_grid(g, r) && r != p && r != mid && r != nb ==> #[trigger] cell_at(
                carve3(g, p, mid, nb),
                r,
            ) == cell_at(g, r),
{
    let g1 = set_at(g, p, Cell::Empty);
    let g2 = set_at(g1, mid, Cell::Empty);
    lemma_set_at(g, p, Cell::Empty);
    lemma_set_at(g1, mid, Cell::Empty);
    lemma_set_at(g2, nb, Cell::Empty);
}

/// How one carving step moves the room and corridor counts, once the cell
/// between and the target room are known to be wall: exactly one corridor
/// cell is emptied, and one room — or two, when the current room itself
/// was still wall, as at the very first step.
pub proof fn lemma_counts_carve3(g: Seq<Seq<Cell>>, p: (int, int), mid: (int, int), nb: (int, int))
    requires
        in_grid(g, p),
        in_grid(g, mid),
        in_grid(g, nb),
        p != mid,
        p != nb,
        mid != nb,
        p.0 % 2 == 1 && p.1 % 2 == 1,
        nb.0 % 2 == 1 && nb.1 % 2 == 1,
        !(mid.0 % 2 == 1 && mid.1 % 2 == 1),
        cell_at(g, mid) != Cell::Empty,
        cell_at(g, nb) != Cell::Empty,
    ensures
        room_count(carve3(g, p, mid, nb)) == room_count(g) + (if cell_at(g, p) == Cell::Empty {
            1int
        } else {
            2
        }),
        corridor_count(carve3(g, p, mid, nb)) == corridor_count(g) + 1,
{
    let g1 = set_at(g, p, Cell::Empty);
    let g2 = set_at(g1, mid, Cell::Empty);
    lemma_set_at(g, p, Cell::Empty);
    lemma_set_at(g1, mid, Cell::Empty);
    lemma_set_at(g2, nb, Cell::Empty);
    lemma_counts_set(g, p);
    lemma_counts_set(g1, mid);
    lemma_counts_set(g2, nb);
    assert(cell_at(g1, mid) == cell_at(g, mid));
    assert(cell_at(g2, nb) == cell_at(g, nb));
}

/// One carving step keeps the counting invariants: the corridor cell
/// between the two rooms was still wall (else the target room would
/// already be empty), the step empties that one corridor cell and one or
/// two rooms, corridor cells keep joining two empty rooms, and emptiness
/// is only ever gained.
pub proof fn lemma_carve_step_counts(
    g0: Seq<Seq<Cell>>,
    rows: int,
    cols: int,
    pp: (int, int),
    d: Direction,
)
    requires
        dims_ok(g0, rows, cols),
        valid_room(rows, cols, pp),
        !oob(rows, cols, step(pp, d, 2)),
        cell_at(g0, step(pp, d, 2)) != Cell::Empty,
        corridors_join_rooms(g0, rows, cols),
    ensures
        corridors_join_rooms(carve3(g0, pp, step(pp, d, 1), step(pp, d, 2)), rows, cols),
        room_count(carve3(g0, pp, step(pp, d, 1), step(pp, d, 2))) == room_count(g0) + (if cell_at(
            g0,
            pp,
        ) == Cell::Empty {
            1int
        } else {
            2
        }),
        corridor_count(carve3(g0, pp, step(pp, d, 1), step(pp, d, 2))) == corridor_count(g0) + 1,
        forall|r: (int, int)|
            in_grid(g0, r) && #[trigger] cell_at(g0, r) == Cell::Empty ==> cell_at(
                carve3(g0, pp, step(pp, d, 1), step(pp, d, 2)),
                r,
            ) == Cell::Empty,
        cell_at(carve3(g0, pp, step(pp, d, 1), step(pp, d, 2)), pp) == Cell::Empty,
        cell_at(carve3(g0, pp, step(pp, d, 1), step(pp, d, 2)), step(pp, d, 2)) == Cell::Empty,
{
    let mid = step(pp, d, 1);
    let nbp = step(pp, d, 2);
    let g3 = carve3(g0, pp, mid, nbp);
    match d {
        Direction::North => {
            assert(nbp == (pp.0, pp.1 - 2) && mid == (pp.0, pp.1 - 1));
            assert(mid.0 % 2 == 1 && mid.1 % 2 == 0);
            assert((mid.0, mid.1 - 1) == nbp && (mid.0, mid.1 + 1) == pp);
        },
        Direction::East => {
            assert(nbp == (pp.0 + 2, pp.1) && mid == (pp.0 + 1, pp.1));
            assert(mid.0 % 2 == 0 && mid.1 % 2 == 1);
            assert((mid.0 - 1, mid.1) == pp && (mid.0 + 1, mid.1) == nbp);
        },
        Direction::South => {
            assert(nbp == (pp.0, pp.1 + 2) && mid == (pp.0, pp.1 + 1));
            assert(mid.0 % 2 == 1 && mid.1 % 2 == 0);
            assert((mid.0, mid.1 - 1) == pp && (mid.0, mid.1 + 1) == nbp);
        },
        Direction::West => {
            assert(nbp == (pp.0 - 2, pp.1) && mid == (pp.0 - 1, pp.1));
            assert(mid.0 % 2 == 0 && mid.1 % 2 == 1);
            assert((mid.0 - 1, mid.1) == nbp && (mid.0 + 1, mid.1) == pp);
        },
    }
    assert(valid_room(rows, cols, nbp));
    assert(!oob(rows, cols, mid));
    assert(in_grid(g0, pp) && in_grid(g0, mid) && in_grid(g0, nbp));
    assert(pp != mid && pp != nbp && mid != nbp);
    // the corridor cell between the two rooms is still wall: were it
    // empty, it would already join two empty rooms, one of which is the
    // target room, which is still wall
    if cell_at(g0, mid) == Cell::Empty {
        assert(corridor_sides_empty(g0, mid));
        assert(false);
    }
    lemma_carve3_cells(g0, pp, mid, nbp);
    lemma_counts_carve3(g0, pp, mid, nbp);
    assert forall|r: (int, int)|
        in_grid(g0, r) && #[trigger] cell_at(g0, r) == Cell::Empty implies cell_at(g3, r)
        == Cell::Empty by {
        if r != pp && r != mid && r != nbp {
            assert(cell_at(g3, r) == cell_at(g0, r));
        }
    }
    assert forall|q: (int, int)|
        in_grid(g3, q) && !oob(rows, cols, q) && cell_at(g3, q) == Cell::Empty && !(q.0 % 2 == 1
            && q.1 % 2 == 1) implies #[trigger] corridor_sides_empty(g3, q) by {
        assert(in_grid(g0, q));
        if q == mid {
            assert(cell_at(g3, pp) == Cell::Empty && cell_at(g3, nbp) == Cell::Empty);
            assert(corridor_sides_empty(g3, mid));
        } else {
            assert(q != pp && q != nbp);
            assert(cell_at(g0, q) == Cell::Empty);
            assert(corridor_sides_empty(g0, q));
            if q.0 % 2 == 0 {
                assert(cell_at(g0, (q.0 - 1, q.1)) == Cell::Empty);
                assert(in_grid(g0, (q.0 - 1, q.1)));
                assert(cell_at(g0, (q.0 + 1, q.1)) == Cell::Empty);
                assert(in_grid(g0, (q.0 + 1, q.1)));
                assert(cell_at(g3, (q.0 - 1, q.1)) == Cell::Empty);
                assert(cell_at(g3, (q.0 + 1, q.1)) == Cell::Empty);
            } else {
                assert(cell_at(g0, (q.0, q.1 - 1)) == Cell::Empty);
                assert(in_grid(g0, (q.0, q.1 - 1)));
                assert(cell_at(g0, (q.0, q.1 + 1)) == Cell::Empty);
                assert(in_grid(g0, (q.0, q.1 + 1)));
                assert(cell_at(g3, (q.0, q.1 - 1)) == Cell::Empty);
                assert(cell_at(g3, (q.0, q.1 + 1)) == Cell::Empty);
            }
        }
    }
}

/// A room from which every direction has been rejected is fully probed:
/// each rejected room two steps away is out of bounds, already visited —
/// and every visited room is empty — or empty itself.
pub proof fn lemma_none_probed(
    g: Seq<Seq<Cell>>,
    rows: int,
    cols: int,
    vis: Seq<(int, int)>,
    pp: (int, int),
)
    requires
        forall|d: Direction| !viable(g, rows, cols, vis, pp, d),
        forall|i: int| 0 <= i < vis.len() ==> cell_at(g, #[trigger] vis[i]) == Cell::Empty,
    ensures
        fully_probed(g, rows, cols, pp),
{
    assert forall|d: Direction| !oob(rows, cols, step(pp, d, 2)) implies cell_at(g, step(pp, d, 2))
        == Cell::Empty by {
        assert(!viable(g, rows, cols, vis, pp, d));
        if vis.contains(step(pp, d, 2)) {
            let j = choose|j: int| 0 <= j < vis.len() && vis[j] == step(pp, d, 2);
            assert(cell_at(g, vis[j]) == Cell::Empty);
        }
    }
}

/// One carving step keeps the bookkeeping that every empty room is on the
/// frontier, on the backtracking history, or fully probed: the carved
/// neighbour joins the frontier, the current room moves to the history,
/// and probed rooms stay probed since carving only empties cells.
pub proof fn lemma_probe_inv_carve(
    g0: Seq<Seq<Cell>>,
    rows: int,
    cols: int,
    st0: Seq<(int, int)>,
    prev0: Seq<(int, int)>,
    stack1: Seq<(int, int)>,
    prev1: Seq<(int, int)>,
    pp: (int, int),
    d: Direction,
)
    requires
        dims_ok(g0, rows, cols),
        valid_room(rows, cols, pp),
        !oob(rows, cols, step(pp, d, 2)),
        st0.len() == 1,
        st0.last() == pp,
        stack1 == st0.drop_last().push(step(pp, d, 2)),
        prev1 == prev0.push(pp),
        forall|q: (int, int)|
            valid_room(rows, cols, q) && cell_at(g0, q) == Cell::Empty ==> st0.contains(q)
                || prev0.contains(q) || #[trigger] fully_probed(g0, rows, cols, q),
    ensures
        forall|q: (int, int)|
            valid_room(rows, cols, q) && cell_at(
                carve3(g0, pp, step(pp, d, 1), step(pp, d, 2)),
                q,
            ) == Cell::Empty ==> stack1.contains(q) || prev1.contains(q) || #[trigger] fully_probed(
                carve3(g0, pp, step(pp, d, 1), step(pp, d, 2)),
                rows,
                cols,
                q,
            ),
{
    let mid = step(pp, d, 1);
    let nbp = step(pp, d, 2);
    let g3 = carve3(g0, pp, mid, nbp);
    match d {
        Direction::North => {
            assert(nbp == (pp.0, pp.1 - 2) && mid == (pp.0, pp.1 - 1));
        },
        Direction::East => {
            assert(nbp == (pp.0 + 2, pp.1) && mid == (pp.0 + 1, pp.1));
        },
        Direction::South => {
            assert(nbp == (pp.0, pp.1 + 2) && mid == (pp.0, pp.1 + 1));
        },
        Direction::West => {
            assert(nbp == (pp.0 - 2, pp.1) && mid == (pp.0 - 1, pp.1));
        },
    }
    assert(!(mid.0 % 2 == 1 && mid.1 % 2 == 1));
    assert(in_grid(g0, pp) && in_grid(g0, mid) && in_grid(g0, nbp));
    assert(pp != mid && pp != nbp && mid != nbp);
    lemma_carve3_cells(g0, pp, mid, nbp);
    assert forall|q: (int, int)|
        valid_room(rows, cols, q) && cell_at(g3, q) == Cell::Empty implies stack1.contains(q)
        || prev1.contains(q) || #[trigger] fully_probed(g3, rows, cols, q) by {
        if q == nbp {
            assert(stack1[stack1.len() - 1] == nbp);
            assert(stack1.contains(q));
        } else if q == pp {
            assert(prev1[prev1.len() - 1] == pp);
            assert(prev1.contains(q));
        } else {
            assert(q != mid);
            assert(in_grid(g0, q));
            assert(cell_at(g3, q) == cell_at(g0, q));
            assert(st0.contains(q) || prev0.contains(q) || fully_probed(g0, rows, cols, q));
            if st0.contains(q) {
                let j = choose|j: int| 0 <= j < st0.len() && st0[j] == q;
                assert(j == 0);
                assert(st0[0] == st0.last());
                assert(false);
            } else if prev0.contains(q) {
                let j = choose|j: int| 0 <= j < prev0.len() && prev0[j] == q;
                assert(prev1[j] == q);
                assert(prev1.contains(q));
            } else {
                assert forall|d2: Direction|
                    !oob(rows, cols, step(q, d2, 2)) implies cell_at(g3, step(q, d2, 2))
                    == Cell::Empty by {
                    let t = step(q, d2, 2);
                    assert(cell_at(g0, t) == Cell::Empty);
                    assert(in_grid(g0, t));
                    if t != pp && t != mid && t != nbp {
                        assert(cell_at(g3, t) == cell_at(g0, t));
                    }
                }
                assert(fully_probed(g3, rows, cols, q));
            }
        }
    }
}

/// Discarding a fully probed room from the frontier keeps the bookkeeping:
/// the room it backtracks to, if any, moves from the history to the
/// frontier, and nothing else changes.
pub proof fn lemma_probe_inv_pop(
    g: Seq<Seq<Cell>>,
    rows: int,
    cols: int,
    st0: Seq<(int, int)>,
    prev0: Seq<(int, int)>,
    stack1: Seq<(int, int)>,
    prev1: Seq<(int, int)>,
    pp: (int, int),
)
    requires
        st0.len() == 1,
        st0.last() == pp,
        fully_probed(g, rows, cols, pp),
        prev0.len() == 0 ==> stack1.len() == 0 && prev1.len() == 0,
        prev0.len() > 0 ==> stack1 == st0.drop_last().push(prev0.last()) && prev1
            == prev0.drop_last(),
        forall|q: (int, int)|
            valid_room(rows, cols, q) && cell_at(g, q) == Cell::Empty ==> st0.contains(q)
                || prev0.contains(q) || #[trigger] fully_probed(g, rows, cols, q),
    ensures
        forall|q: (int, int)|
            valid_room(rows, cols, q) && cell_at(g, q) == Cell::Empty ==> stack1.contains(q)
                || prev1.contains(q) || #[trigger] fully_probed(g, rows, cols, q),
{
    assert forall|q: (int, int)|
        valid_room(rows, cols, q) && cell_at(g, q) == Cell::Empty implies stack1.contains(q)
        || prev1.contains(q) || #[trigger] fully_probed(g, rows, cols, q) by {
        if q != pp {
            assert(st0.contains(q) || prev0.contains(q) || fully_probed(g, rows, cols, q));
            if st0.contains(q) {
                let j = choose|j: int| 0 <= j < st0.len() && st0[j] == q;
                assert(j == 0);
                assert(st0[0] == st0.last());
                assert(false);
            } else if prev0.contains(q) {
                let j = choose|j: int| 0 <= j < prev0.len() && prev0[j] == q;
                if j < prev0.len() - 1 {
                    assert(prev1[j] == q);
                    assert(prev1.contains(q));
                } else {
                    assert(q == prev0.last());
                    assert(stack1[stack1.len() - 1] == prev0.last());
                    assert(stack1.contains(q));
                }
            }
        }
    }
}

/// Determinism under fixed randomness: generation is a function of the
/// starting grid and the injected random state alone, so two runs over
/// equal grids with equal injected states produce identical grids.
pub proof fn lemma_generate_deterministic(
    g1: Seq<Seq<Cell>>,
    g2: Seq<Seq<Cell>>,
    rows: int,
    cols: int,
    r1: RndModel,
    r2: RndModel,
)
    requires
        g1 == g2,
        r1 == r2,
    ensures
        generate_model(g1, rows, cols, r1) == generate_model(g2, rows, cols, r2),
{
}

/// Perimeter invariant and odd-lattice shape: from an all-wall grid,
/// carving leaves the whole outermost ring wall, and every empty cell has
/// an odd row or column index.
pub proof fn lemma_generated_from_walls(
    og: Seq<Seq<Cell>>,
    gc: Seq<Seq<Cell>>,
    rows: int,
    cols: int,
)
    requires
        carve_rel(og, gc, rows, cols),
        forall|q: (int, int)| in_grid(og, q) ==> #[trigger] cell_at(og, q) == Cell::Wall,
    ensures
        forall|q: (int, int)|
            in_grid(gc, q) && (q.0 == 0 || q.0 == cols - 1 || q.1 == 0 || q.1 == rows - 1)
                ==> #[trigger] cell_at(gc, q) == Cell::Wall,
        forall|q: (int, int)|
            in_grid(gc, q) && #[trigger] cell_at(gc, q) == Cell::Empty ==> q.0 % 2 == 1 || q.1 % 2
                == 1,
{
    assert forall|q: (int, int)|
        in_grid(gc, q) && (q.0 == 0 || q.0 == cols - 1 || q.1 == 0 || q.1 == rows
            - 1) implies #[trigger] cell_at(gc, q) == Cell::Wall by {
        assert(in_grid(og, q));
        assert(oob(rows, cols, q));
    }
    assert forall|q: (int, int)|
        in_grid(gc, q) && #[trigger] cell_at(gc, q) == Cell::Empty implies q.0 % 2 == 1 || q.1 % 2
        == 1 by {
        assert(in_grid(og, q));
        assert(cell_at(og, q) == Cell::Wall);
    }
}

/// Acyclicity witness: in a grid whose empty cells all lie on the odd
/// lattice — the shape carving produces on an all-wall grid — no 2-by-2
/// block of cells is entirely empty; such a block would mean a cycle.
pub proof fn lemma_no_empty_block(g: Seq<Seq<Cell>>, rows: int, cols: int, x: int, y: int)
    requires
        dims_ok(g, rows, cols),
        0 <= x < cols - 1,
        0 <= y < rows - 1,
        forall|q: (int, int)|
            in_grid(g, q) && #[trigger] cell_at(g, q) == Cell::Empty ==> q.0 % 2 == 1 || q.1 % 2
                == 1,
    ensures
        !(cell_at(g, (x, y)) == Cell::Empty && cell_at(g, (x + 1, y)) == Cell::Empty && cell_at(
            g,
            (x, y + 1),
        ) == Cell::Empty && cell_at(g, (x + 1, y + 1)) == Cell::Empty),
{
    let ex = if x % 2 == 0 {
        x
    } else {
        x + 1
    };
    let ey = if y % 2 == 0 {
        y
    } else {
        y + 1
    };
    assert(ex % 2 == 0 && ey % 2 == 0);
    assert(in_grid(g, (ex, ey)));
    if cell_at(g, (ex, ey)) == Cell::Empty {
        assert(false);
    }
}

pub proof fn lemma_carve3_wall_count(g: Seq<Seq<Cell>>, p: (int, int), mid: (int, int), nb: (int, int))
    requires
        carve_ok(g, p, mid, nb),
    ensures
        wall_count(carve3(g, p, mid, nb)) < wall_count(g),
{
    let g1 = set_at(g, p, Cell::Empty);
    lemma_wall_count_set(g, p);
    lemma_set_at(g, p, Cell::Empty);
    assert(in_grid(g1, mid));
    assert(cell_at(g1, nb) == Cell::Wall);
    let g2 = set_at(g1, mid, Cell::Empty);
    lemma_wall_count_set(g1, mid);
    lemma_set_at(g1, mid, Cell::Empty);
    assert(in_grid(g2, nb));
    assert(cell_at(g2, nb) == Cell::Wall);
    lemma_wall_count_set(g2, nb);
}

} // verus!
