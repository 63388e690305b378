use crate::grid::{grid_cells, grid_get, grid_new, grid_set, Cell, Grid, MAX_DIM};
use crate::model::{
    all_dirs, all_wall, carve3, carve_rel, cell_at, corridor_count, corridors_join_rooms, dims_ok,
    force_odd, fully_carved, fully_probed, generate_model, in_grid, lemma_all_wall_counts,
    lemma_carve3_cells, lemma_carve_step, lemma_carve_step_counts, lemma_none_probed,
    lemma_probe_inv_carve, lemma_probe_inv_pop, lemma_pts_contains, lemma_pts_drop_last,
    lemma_pts_push, model_carve, model_neighbour, no_isolated_carve, oob, pm,
    pts, room_count, set_at, some_viable, started, step, valid_room, viable, wall_count, Direction,
};
use crate::rng::{draw_model, RandomSource};
use vstd::prelude::*;

verus! {

/// A maze under construction or finished: a grid of cells, all wall at
/// first, carved in place by [`Maze::generate`].
pub struct Maze {
    grid: Grid,
    rows: usize,
    cols: usize,
}

impl Maze {
    /// The cells of the maze, row by row.
    pub closed spec fn grid_seq(&self) -> Seq<Seq<Cell>> {
        grid_cells(self.grid)
    }

    pub closed spec fn rows_spec(&self) -> int {
        self.rows as int
    }

    pub closed spec fn cols_spec(&self) -> int {
        self.cols as int
    }

    pub closed spec fn wf(&self) -> bool {
        &&& 1 <= self.rows <= MAX_DIM
        &&& 1 <= self.cols <= MAX_DIM
        &&& dims_ok(self.grid_seq(), self.rows_spec(), self.cols_spec())
    }

    /// A fresh maze of the given size, every cell still wall.
    pub fn new(cols: usize, rows: usize) -> (m: Maze)
        requires
            1 <= cols <= MAX_DIM,
            1 <= rows <= MAX_DIM,
        ensures
            m.wf(),
            m.cols_spec() == cols,
            m.rows_spec() == rows,
            dims_ok(m.grid_seq(), rows as int, cols as int),
            forall|q: (int, int)| in_grid(m.grid_seq(), q) ==> #[trigger] cell_at(m.grid_seq(), q) == Cell::Wall,
    {
        let m = Maze { grid: grid_new(rows, cols), rows, cols };
        proof {
            assert forall|q: (int, int)| in_grid(m.grid_seq(), q) implies #[trigger] cell_at(
                m.grid_seq(),
                q,
            ) == Cell::Wall by {
                assert(m.grid_seq()[q.1][q.0] == Cell::Wall);
            }
        }
        m
    }

    /// Number of rows.
    pub fn rows(&self) -> (r: usize)
        ensures
            r == self.rows_spec(),
    {
        self.rows
    }

    /// Number of columns.
    pub fn cols(&self) -> (r: usize)
        ensures
            r == self.cols_spec(),
    {
        self.cols
    }

    /// The cell in the given row and column.
    pub fn cell(&self, row: usize, col: usize) -> (c: Cell)
        requires
            self.wf(),
            row < self.rows_spec(),
            col < self.cols_spec(),
        ensures
            c == cell_at(self.grid_seq(), (col as int, row as int)),
    {
        grid_get(&self.grid, row, col)
    }

    /// The outermost ring counts as out of bounds for carving, so the
    /// perimeter wall always stays.
    fn is_out_of_bounds(&self, point: (isize, isize)) -> (r: bool)
        requires
            self.wf(),
        ensures
            r == oob(self.rows_spec(), self.cols_spec(), pm(point)),
    {
        point.0 <= 0 || point.0 >= (self.cols - 1) as isize || point.1 <= 0 || point.1 >= (self.rows
            - 1) as isize
    }

    /// Carve a single cell.
    fn carve_cell(&mut self, point: (isize, isize))
        requires
            old(self).wf(),
            in_grid(old(self).grid_seq(), pm(point)),
        ensures
            final(self).wf(),
            final(self).rows_spec() == old(self).rows_spec(),
            final(self).cols_spec() == old(self).cols_spec(),
            final(self).grid_seq() == set_at(old(self).grid_seq(), pm(point), Cell::Empty),
    {
        proof {
            crate::model::lemma_set_at(self.grid_seq(), pm(point), Cell::Empty);
        }
        grid_set(&mut self.grid, point.1 as usize, point.0 as usize, Cell::Empty);
    }

    /// Clear the current cell and the wall cell one step towards the chosen
    /// neighbour.
    fn set_cell_to_empty(&mut self, point: (isize, isize), direction: Direction)
        requires
            old(self).wf(),
            in_grid(old(self).grid_seq(), pm(point)),
            in_grid(old(self).grid_seq(), step(pm(point), direction, 1)),
            -(MAX_DIM as int) <= point.0 as int <= MAX_DIM as int,
            -(MAX_DIM as int) <= point.1 as int <= MAX_DIM as int,
        ensures
            final(self).wf(),
            final(self).rows_spec() == old(self).rows_spec(),
            final(self).cols_spec() == old(self).cols_spec(),
            final(self).grid_seq() == set_at(
                set_at(old(self).grid_seq(), pm(point), Cell::Empty),
                step(pm(point), direction, 1),
                Cell::Empty,
            ),
    {
        let target = step_point(point, direction, 1);
        proof {
            crate::model::lemma_set_at(self.grid_seq(), pm(point), Cell::Empty);
        }
        self.carve_cell(point);
        self.carve_cell(target);
    }
    /// Pick an unvisited, in-bounds, still-wall room two steps away,
    /// drawing directions at random from a shrinking candidate pool seeded
    /// with all four; `None` once every direction has been rejected.
    #[verifier::loop_isolation(false)]
    fn get_neighbour(
        &self,
        point: (isize, isize),
        visited: &Vec<(isize, isize)>,
        rng: &mut RandomSource,
    ) -> (r: Option<((isize, isize), Direction)>)
        requires
            self.wf(),
            valid_room(self.rows_spec(), self.cols_spec(), pm(point)),
            old(rng).wf(),
        ensures
            final(rng).wf(),
            final(rng).is_fixed() == old(rng).is_fixed(),
            match r {
                Some(nbd) => pm(nbd.0) == step(pm(point), nbd.1, 2) && viable(
                    self.grid_seq(),
                    self.rows_spec(),
                    self.cols_spec(),
                    pts(visited@),
                    pm(point),
                    nbd.1,
                ),
                None => forall|d: Direction|
                    !viable(
                        self.grid_seq(),
                        self.rows_spec(),
                        self.cols_spec(),
                        pts(visited@),
                        pm(point),
                        d,
                    ),
            },
            old(rng).is_fixed() ==> ({
                let mr = model_neighbour(
                    self.grid_seq(),
                    self.rows_spec(),
                    self.cols_spec(),
                    pts(visited@),
                    pm(point),
                    all_dirs(),
                    old(rng).model(),
                );
                mr.1 == final(rng).model() && mr.0 == (match r {
                    Some(nbd) => Some((pm(nbd.0), nbd.1)),
                    None => None::<((int, int), Direction)>,
                })
            }),
    {
        let ghost gs = self.grid_seq();
        let ghost rows_g = self.rows_spec();
        let ghost cols_g = self.cols_spec();
        let ghost vis = pts(visited@);
        let ghost p = pm(point);
        let ghost r0 = rng.model();
        let ghost fixed0 = rng.is_fixed();
        let mut directions: Vec<Direction> = Vec::new();
        directions.push(Direction::North);
        directions.push(Direction::East);
        directions.push(Direction::South);
        directions.push(Direction::West);
        proof {
            assert(directions@ =~= all_dirs());
            assert forall|d: Direction| !directions@.contains(d) implies !viable(
                gs,
                rows_g,
                cols_g,
                vis,
                p,
                d,
            ) by {
                match d {
                    Direction::North => assert(directions@[0] == d),
                    Direction::East => assert(directions@[1] == d),
                    Direction::South => assert(directions@[2] == d),
                    Direction::West => assert(directions@[3] == d),
                }
            }
        }
        while directions.len() > 0
            invariant
                self.wf(),
                rng.wf(),
                rng.is_fixed() == fixed0,
                directions@.len() <= 4,
                forall|d: Direction|
                    !directions@.contains(d) ==> !viable(gs, rows_g, cols_g, vis, p, d),
                fixed0 ==> model_neighbour(gs, rows_g, cols_g, vis, p, all_dirs(), r0)
                    == model_neighbour(gs, rows_g, cols_g, vis, p, directions@, rng.model()),
            decreases directions@.len(),
        {
            let ghost dirs0 = directions@;
            let ghost rm_pre = rng.model();
            let n = directions.len();
            let index = rng.draw(n);
            let direction = directions[index];
            let neighbour = step_point(point, direction, 2);
            let rejected: bool;
            if contains_point(visited, neighbour) {
                rejected = true;
            } else if self.is_out_of_bounds(neighbour) {
                rejected = true;
            } else {
                let c = grid_get(&self.grid, neighbour.1 as usize, neighbour.0 as usize);
                rejected = (c == Cell::Empty);
            }
            proof {
                lemma_pts_contains(visited@, neighbour);
                assert(rejected == (vis.contains(pm(neighbour)) || oob(rows_g, cols_g, pm(neighbour))
                    || cell_at(gs, pm(neighbour)) == Cell::Empty));
            }
            if !rejected {
                proof {
                    if fixed0 {
                        assert(draw_model(rm_pre, dirs0.len() as int).0 == index as int);
                        assert(draw_model(rm_pre, dirs0.len() as int).1 == rng.model());
                        assert(model_neighbour(gs, rows_g, cols_g, vis, p, dirs0, rm_pre) == (
                            Some((pm(neighbour), direction)),
                            rng.model(),
                        ));
                    }
                }
                return Some((neighbour, direction));
            }
            directions.remove(index);
            proof {
                assert forall|d: Direction| !directions@.contains(d) implies !viable(
                    gs,
                    rows_g,
                    cols_g,
                    vis,
                    p,
                    d,
                ) by {
                    if dirs0.contains(d) {
                        let j = choose|j: int| 0 <= j < dirs0.len() && dirs0[j] == d;
                        if j < index as int {
                            assert(directions@[j] == dirs0[j]);
                            assert(directions@.contains(d));
                        } else if j > index as int {
                            assert(directions@[j - 1] == dirs0[j]);
                            assert(directions@.contains(d));
                        } else {
                            assert(d == direction);
                        }
                    }
                }
                if fixed0 {
                    assert(model_neighbour(gs, rows_g, cols_g, vis, p, dirs0, rm_pre)
                        == model_neighbour(
                        gs,
                        rows_g,
                        cols_g,
                        vis,
                        p,
                        dirs0.remove(index as int),
                        rng.model(),
                    ));
                }
            }
        }
        proof {
            assert forall|d: Direction| !viable(gs, rows_g, cols_g, vis, p, d) by {
                assert(!directions@.contains(d));
            }
            if fixed0 {
                assert(model_neighbour(gs, rows_g, cols_g, vis, p, directions@, rng.model()) == (
                    None::<((int, int), Direction)>,
                    rng.model(),
                ));
            }
        }
        None
    }

    /// Carve the maze from a forced start room by randomized depth-first
    /// carving with an explicit frontier stack and backtracking stack.
    ///
    /// On a fixed source the result is exactly [`model_carve`] from that
    /// room; whatever the source, the grid only ever gains empty cells, all
    /// of them interior and on the odd lattice, none of them isolated, and
    /// if any direction could be carved from the start room at all, the
    /// start room ends up empty together with a cell right beside it. From
    /// an all-wall grid the carved rooms form a tree — either nothing was
    /// carved, or there is exactly one more empty room than corridor cell,
    /// every corridor cell joins two empty rooms — and the maze is carved
    /// to the full: no empty room still borders an in-bounds room that is
    /// wall.
    #[verifier::loop_isolation(false)]
    #[verifier::rlimit(100)]
    pub fn generate_from(&mut self, start_x: usize, start_y: usize, rng: &mut RandomSource)
        requires
            old(self).wf(),
            old(rng).wf(),
            start_x % 2 == 1,
            start_y % 2 == 1,
            1 <= start_x as int <= old(self).cols_spec() - 2,
            1 <= start_y as int <= old(self).rows_spec() - 2,
        ensures
            final(self).wf(),
            final(self).rows_spec() == old(self).rows_spec(),
            final(self).cols_spec() == old(self).cols_spec(),
            final(rng).wf(),
            final(rng).is_fixed() == old(rng).is_fixed(),
            carve_rel(
                old(self).grid_seq(),
                final(self).grid_seq(),
                old(self).rows_spec(),
                old(self).cols_spec(),
            ),
            no_isolated_carve(old(self).grid_seq(), final(self).grid_seq()),
            all_wall(old(self).grid_seq()) ==> final(self).grid_seq() == old(self).grid_seq()
                || room_count(final(self).grid_seq()) == corridor_count(final(self).grid_seq())
                + 1,
            all_wall(old(self).grid_seq()) ==> corridors_join_rooms(
                final(self).grid_seq(),
                old(self).rows_spec(),
                old(self).cols_spec(),
            ),
            all_wall(old(self).grid_seq()) ==> fully_carved(
                final(self).grid_seq(),
                old(self).rows_spec(),
                old(self).cols_spec(),
            ),
            some_viable(
                old(self).grid_seq(),
                old(self).rows_spec(),
                old(self).cols_spec(),
                (start_x as int, start_y as int),
            ) ==> started(final(self).grid_seq(), (start_x as int, start_y as int)),
            old(rng).is_fixed() ==> final(self).grid_seq() == model_carve(
                old(self).grid_seq(),
                old(self).rows_spec(),
                old(self).cols_spec(),
                seq![(start_x as int, start_y as int)],
                Seq::empty(),
                Seq::empty(),
                old(rng).model(),
            ),
    {
        let ghost og = self.grid_seq();
        let ghost rows_g = self.rows_spec();
        let ghost cols_g = self.cols_spec();
        let ghost r0 = rng.model();
        let ghost fixed0 = rng.is_fixed();
        let start: (isize, isize) = (start_x as isize, start_y as isize);
        let ghost sp = pm(start);
        let mut visited: Vec<(isize, isize)> = Vec::new();
        let mut previous_points: Vec<(isize, isize)> = Vec::new();
        let mut stack: Vec<(isize, isize)> = Vec::new();
        stack.push(start);
        proof {
            assert(sp == (start_x as int, start_y as int));
            assert(pts(stack@) =~= seq![sp]);
            assert(pts(visited@) =~= Seq::<(int, int)>::empty());
            assert(pts(previous_points@) =~= Seq::<(int, int)>::empty());
            if all_wall(og) {
                assert forall|q: (int, int)|
                    in_grid(og, q) && !oob(rows_g, cols_g, q) && cell_at(og, q) == Cell::Empty && !(
                    q.0 % 2 == 1 && q.1 % 2 == 1) implies #[trigger] crate::model::corridor_sides_empty(
                    og,
                    q,
                ) by {
                    assert(cell_at(og, q) == Cell::Wall);
                }
                assert forall|q: (int, int)|
                    valid_room(rows_g, cols_g, q) && cell_at(og, q) == Cell::Empty implies pts(
                    stack@,
                ).contains(q) || pts(previous_points@).contains(q) || #[trigger] fully_probed(
                    og,
                    rows_g,
                    cols_g,
                    q,
                ) by {
                    assert(in_grid(og, q));
                }
            }
        }
        let mut done: bool = false;
        while !done && stack.len() > 0
            invariant
                self.wf(),
                self.rows_spec() == rows_g,
                self.cols_spec() == cols_g,
                rng.wf(),
                rng.is_fixed() == fixed0,
                carve_rel(og, self.grid_seq(), rows_g, cols_g),
                no_isolated_carve(og, self.grid_seq()),
                all_wall(og) ==> corridors_join_rooms(self.grid_seq(), rows_g, cols_g),
                all_wall(og) && visited@.len() == 0 ==> self.grid_seq() == og,
                all_wall(og) && visited@.len() > 0 ==> room_count(self.grid_seq())
                    == visited@.len() + 1 && corridor_count(self.grid_seq()) == visited@.len(),
                all_wall(og) && visited@.len() > 0 ==> forall|i: int|
                    0 <= i < stack@.len() ==> cell_at(self.grid_seq(), pm(#[trigger] stack@[i]))
                        == Cell::Empty,
                all_wall(og) && visited@.len() > 0 ==> forall|i: int|
                    0 <= i < previous_points@.len() ==> cell_at(
                        self.grid_seq(),
                        pm(#[trigger] previous_points@[i]),
                    ) == Cell::Empty,
                !done ==> stack@.len() == 1,
                done ==> stack@.len() == 0 && previous_points@.len() == 0,
                forall|i: int|
                    0 <= i < visited@.len() ==> cell_at(
                        self.grid_seq(),
                        pm(#[trigger] visited@[i]),
                    ) == Cell::Empty,
                all_wall(og) ==> (forall|q: (int, int)|
                    valid_room(rows_g, cols_g, q) && cell_at(self.grid_seq(), q) == Cell::Empty
                        ==> pts(stack@).contains(q) || pts(previous_points@).contains(q)
                        || #[trigger] fully_probed(self.grid_seq(), rows_g, cols_g, q)),
                forall|i: int|
                    0 <= i < stack@.len() ==> valid_room(rows_g, cols_g, pm(#[trigger] stack@[i])),
                forall|i: int|
                    0 <= i < visited@.len() ==> valid_room(
                        rows_g,
                        cols_g,
                        pm(#[trigger] visited@[i]),
                    ),
                forall|i: int|
                    0 <= i < previous_points@.len() ==> valid_room(
                        rows_g,
                        cols_g,
                        pm(#[trigger] previous_points@[i]),
                    ),
                !done ==> (self.grid_seq() == og && visited@.len() == 0 && previous_points@.len()
                    == 0 && stack@ == seq![start]) || started(self.grid_seq(), sp),
                !done && fixed0 ==> model_carve(
                    og,
                    rows_g,
                    cols_g,
                    seq![sp],
                    Seq::empty(),
                    Seq::empty(),
                    r0,
                ) == model_carve(
                    self.grid_seq(),
                    rows_g,
                    cols_g,
                    pts(stack@),
                    pts(visited@),
                    pts(previous_points@),
                    rng.model(),
                ),
                done ==> started(self.grid_seq(), sp) || (self.grid_seq() == og && forall|
                    d: Direction,
                |
                    !viable(og, rows_g, cols_g, Seq::empty(), sp, d)),
                done && fixed0 ==> model_carve(
                    og,
                    rows_g,
                    cols_g,
                    seq![sp],
                    Seq::empty(),
                    Seq::empty(),
                    r0,
                ) == self.grid_seq(),
            decreases
                    wall_count(self.grid_seq()),
                    previous_points@.len(),
                    (if done {
                        0int
                    } else {
                        1
                    }),
        {
            let ghost g0 = self.grid_seq();
            let ghost st0 = stack@;
            let ghost vis0 = visited@;
            let ghost prev0 = previous_points@;
            let ghost rm0 = rng.model();
            let point = stack.pop().unwrap();
            proof {
                assert(stack@ =~= st0.drop_last());
                lemma_pts_drop_last(st0);
            }
            let ghost pp = pm(point);
            let res = self.get_neighbour(point, &visited, rng);
            match res {
                Some(nbd) => {
                    let neighbour = nbd.0;
                    let direction = nbd.1;
                    let ghost nbp = pm(neighbour);
                    let ghost mid = step(pp, direction, 1);
                    proof {
                        lemma_pts_contains(vis0, neighbour);
                        assert(in_grid(g0, sp));
                        lemma_carve_step(og, g0, rows_g, cols_g, pp, direction, sp);
                    }
                    self.set_cell_to_empty(point, direction);
                    self.carve_cell(neighbour);
                    visited.push(neighbour);
                    stack.push(neighbour);
                    previous_points.push(point);
                    proof {
                        let g3 = carve3(g0, pp, mid, nbp);
                        assert(self.grid_seq() == g3);
                        lemma_carve3_cells(g0, pp, mid, nbp);
                        lemma_pts_push(st0.drop_last(), neighbour);
                        lemma_pts_push(vis0, neighbour);
                        lemma_pts_push(prev0, point);
                        assert(pts(stack@) == pts(st0).drop_last().push(nbp));
                        assert(pts(visited@) == pts(vis0).push(nbp));
                        assert(pts(previous_points@) == pts(prev0).push(pp));
                        assert forall|i: int| 0 <= i < visited@.len() implies cell_at(
                            g3,
                            pm(#[trigger] visited@[i]),
                        ) == Cell::Empty by {
                            if i < visited@.len() - 1 {
                                assert(visited@[i] == vis0[i]);
                                assert(in_grid(g0, pm(visited@[i])));
                                assert(cell_at(g0, pm(visited@[i])) == Cell::Empty);
                            } else {
                                assert(visited@[i] == neighbour);
                            }
                        }
                        if all_wall(og) {
                            lemma_carve_step_counts(g0, rows_g, cols_g, pp, direction);
                            if vis0.len() == 0 {
                                assert(in_grid(og, sp));
                                assert(g0 == og);
                                lemma_all_wall_counts(og);
                                assert(in_grid(g0, pp));
                                assert(cell_at(g0, pp) == Cell::Wall);
                                assert(room_count(g3) == 2 && corridor_count(g3) == 1);
                            } else {
                                assert(cell_at(g0, pm(st0.last())) == Cell::Empty);
                                assert(cell_at(g0, pp) == Cell::Empty);
                                assert(room_count(g3) == vis0.len() + 2 && corridor_count(g3)
                                    == vis0.len() + 1);
                            }
                            assert forall|i: int| 0 <= i < stack@.len() implies cell_at(
                                g3,
                                pm(#[trigger] stack@[i]),
                            ) == Cell::Empty by {
                                if i < stack@.len() - 1 {
                                    assert(stack@[i] == st0.drop_last()[i]);
                                    assert(cell_at(g0, pm(stack@[i])) == Cell::Empty);
                                } else {
                                    assert(stack@[i] == neighbour);
                                }
                            }
                            assert forall|i: int| 0 <= i < previous_points@.len() implies cell_at(
                                g3,
                                pm(#[trigger] previous_points@[i]),
                            ) == Cell::Empty by {
                                if i < previous_points@.len() - 1 {
                                    assert(previous_points@[i] == prev0[i]);
                                    assert(cell_at(g0, pm(previous_points@[i])) == Cell::Empty);
                                } else {
                                    assert(previous_points@[i] == point);
                                }
                            }
                            assert(pts(st0).last() == pp);
                            lemma_probe_inv_carve(
                                g0,
                                rows_g,
                                cols_g,
                                pts(st0),
                                pts(prev0),
                                pts(stack@),
                                pts(previous_points@),
                                pp,
                                direction,
                            );
                        }
                        // the start room is empty together with the carved
                        // cell beside it, from this step on
                        if g0 == og && vis0.len() == 0 && st0 == seq![start] {
                            assert(pp == sp);
                            assert(in_grid(g3, step(sp, direction, 1)) && cell_at(
                                g3,
                                step(sp, direction, 1),
                            ) == Cell::Empty);
                            assert(started(g3, sp));
                        }
                        if fixed0 {
                            assert(model_carve(g0, rows_g, cols_g, pts(st0), pts(vis0), pts(prev0), rm0)
                                == model_carve(
                                g3,
                                rows_g,
                                cols_g,
                                pts(st0).drop_last().push(nbp),
                                pts(vis0).push(nbp),
                                pts(prev0).push(pp),
                                rng.model(),
                            ));
                        }
                    }
                },
                None => {
                    if previous_points.len() == 0 {
                        proof {
                            assert(stack@.len() == 0);
                            if g0 == og && vis0.len() == 0 && st0 == seq![start] {
                                assert(pp == sp);
                                assert(pts(vis0) =~= Seq::<(int, int)>::empty());
                                assert(forall|d: Direction|
                                    !viable(og, rows_g, cols_g, Seq::empty(), sp, d));
                            }
                            if all_wall(og) {
                                assert forall|i: int| 0 <= i < pts(vis0).len() implies cell_at(
                                    g0,
                                    #[trigger] pts(vis0)[i],
                                ) == Cell::Empty by {
                                    assert(pts(vis0)[i] == pm(vis0[i]));
                                }
                                lemma_none_probed(g0, rows_g, cols_g, pts(vis0), pp);
                                assert(pts(st0).last() == pp);
                                lemma_probe_inv_pop(
                                    g0,
                                    rows_g,
                                    cols_g,
                                    pts(st0),
                                    pts(prev0),
                                    pts(stack@),
                                    pts(previous_points@),
                                    pp,
                                );
                            }
                            if fixed0 {
                                assert(pts(prev0).len() == 0);
                                assert(model_carve(
                                    g0,
                                    rows_g,
                                    cols_g,
                                    pts(st0),
                                    pts(vis0),
                                    pts(prev0),
                                    rm0,
                                ) == g0);
                            }
                        }
                        done = true;
                        continue;
                    }
                    let last_point = previous_points.pop().unwrap();
                    stack.push(last_point);
                    proof {
                        assert(previous_points@ =~= prev0.drop_last());
                        lemma_pts_drop_last(prev0);
                        lemma_pts_push(st0.drop_last(), last_point);
                        assert(pts(stack@) == pts(st0).drop_last().push(pm(last_point)));
                        assert(pts(previous_points@) == pts(prev0).drop_last());
                        if all_wall(og) {
                            assert forall|i: int| 0 <= i < pts(vis0).len() implies cell_at(
                                g0,
                                #[trigger] pts(vis0)[i],
                            ) == Cell::Empty by {
                                assert(pts(vis0)[i] == pm(vis0[i]));
                            }
                            lemma_none_probed(g0, rows_g, cols_g, pts(vis0), pp);
                            assert(pts(st0).last() == pp);
                            assert(pts(prev0).last() == pm(prev0.last()));
                            lemma_probe_inv_pop(
                                g0,
                                rows_g,
                                cols_g,
                                pts(st0),
                                pts(prev0),
                                pts(stack@),
                                pts(previous_points@),
                                pp,
                            );
                        }
                        if fixed0 {
                            assert(model_carve(g0, rows_g, cols_g, pts(st0), pts(vis0), pts(prev0), rm0)
                                == model_carve(
                                g0,
                                rows_g,
                                cols_g,
                                pts(st0).drop_last().push(pm(last_point)),
                                pts(vis0),
                                pts(prev0).drop_last(),
                                rng.model(),
                            ));
                        }
                    }
                },
            }
        }
        proof {
            if !done {
                assert(stack@.len() == 0);
                assert(started(self.grid_seq(), sp));
                if fixed0 {
                    assert(pts(stack@).len() == 0);
                    assert(model_carve(
                        self.grid_seq(),
                        rows_g,
                        cols_g,
                        pts(stack@),
                        pts(visited@),
                        pts(previous_points@),
                        rng.model(),
                    ) == self.grid_seq());
                }
            }
            if some_viable(og, rows_g, cols_g, sp) && !started(self.grid_seq(), sp) {
                let d = choose|d: Direction| viable(og, rows_g, cols_g, Seq::empty(), sp, d);
                assert(!viable(og, rows_g, cols_g, Seq::empty(), sp, d));
                assert(false);
            }
            if all_wall(og) {
                assert(done);
                assert forall|q: (int, int), d: Direction|
                    valid_room(rows_g, cols_g, q) && cell_at(self.grid_seq(), q) == Cell::Empty
                        && !oob(rows_g, cols_g, #[trigger] step(q, d, 2)) implies cell_at(
                    self.grid_seq(),
                    step(q, d, 2),
                ) == Cell::Empty by {
                    assert(pts(stack@).len() == 0 && pts(previous_points@).len() == 0);
                    assert(pts(stack@).contains(q) || pts(previous_points@).contains(q)
                        || fully_probed(self.grid_seq(), rows_g, cols_g, q));
                    assert(!pts(stack@).contains(q) && !pts(previous_points@).contains(q));
                    assert(fully_probed(self.grid_seq(), rows_g, cols_g, q));
                    assert(cell_at(self.grid_seq(), step(q, d, 2)) == Cell::Empty);
                }
                assert(fully_carved(self.grid_seq(), rows_g, cols_g));
            }
        }
    }

    /// Generate the maze with the given random source: draw the start
    /// column and row from the interior band that keeps both boundary lines
    /// standing, force each odd, and carve depth-first from that room.
    ///
    /// On a fixed source the result is exactly [`generate_model`] of the
    /// grid and the source state, and nothing else.
    pub fn generate_with(&mut self, rng: &mut RandomSource)
        requires
            old(self).wf(),
            old(rng).wf(),
            old(self).cols_spec() >= 4,
            old(self).rows_spec() >= 4,
        ensures
            final(self).wf(),
            final(self).rows_spec() == old(self).rows_spec(),
            final(self).cols_spec() == old(self).cols_spec(),
            final(rng).wf(),
            final(rng).is_fixed() == old(rng).is_fixed(),
            carve_rel(
                old(self).grid_seq(),
                final(self).grid_seq(),
                old(self).rows_spec(),
                old(self).cols_spec(),
            ),
            no_isolated_carve(old(self).grid_seq(), final(self).grid_seq()),
            all_wall(old(self).grid_seq()) ==> final(self).grid_seq() == old(self).grid_seq()
                || room_count(final(self).grid_seq()) == corridor_count(final(self).grid_seq())
                + 1,
            all_wall(old(self).grid_seq()) ==> corridors_join_rooms(
                final(self).grid_seq(),
                old(self).rows_spec(),
                old(self).cols_spec(),
            ),
            all_wall(old(self).grid_seq()) ==> fully_carved(
                final(self).grid_seq(),
                old(self).rows_spec(),
                old(self).cols_spec(),
            ),
            all_wall(old(self).grid_seq()) && (old(self).cols_spec() >= 5 || old(self).rows_spec()
                >= 5) ==> exists|sp: (int, int)|
                valid_room(old(self).rows_spec(), old(self).cols_spec(), sp) && #[trigger] started(
                    final(self).grid_seq(),
                    sp,
                ),
            old(rng).is_fixed() ==> final(self).grid_seq() == generate_model(
                old(self).grid_seq(),
                old(self).rows_spec(),
                old(self).cols_spec(),
                old(rng).model(),
            ),
    {
        let ghost r0 = rng.model();
        let ghost fixed0 = rng.is_fixed();
        let dx = rng.draw(self.cols - 3);
        let mut sx = 1 + dx;
        if sx % 2 == 0 {
            sx = sx + 1;
        }
        let dy = rng.draw(self.rows - 3);
        let mut sy = 1 + dy;
        if sy % 2 == 0 {
            sy = sy + 1;
        }
        let ghost sp = (sx as int, sy as int);
        proof {
            if fixed0 {
                let dxm = draw_model(r0, self.cols_spec() - 3);
                let dym = draw_model(dxm.1, self.rows_spec() - 3);
                assert(sx as int == force_odd(1 + dxm.0));
                assert(sy as int == force_odd(1 + dym.0));
                assert(rng.model() == dym.1);
            }
            if all_wall(self.grid_seq()) && (self.cols_spec() >= 5 || self.rows_spec() >= 5) {
                if self.cols_spec() >= 5 {
                    if sp.0 + 2 <= self.cols_spec() - 2 {
                        assert(step(sp, Direction::East, 2) == (sp.0 + 2, sp.1));
                        assert(in_grid(self.grid_seq(), step(sp, Direction::East, 2)));
                        assert(viable(
                            self.grid_seq(),
                            self.rows_spec(),
                            self.cols_spec(),
                            Seq::empty(),
                            sp,
                            Direction::East,
                        ));
                    } else {
                        assert(step(sp, Direction::West, 2) == (sp.0 - 2, sp.1));
                        assert(in_grid(self.grid_seq(), step(sp, Direction::West, 2)));
                        assert(viable(
                            self.grid_seq(),
                            self.rows_spec(),
                            self.cols_spec(),
                            Seq::empty(),
                            sp,
                            Direction::West,
                        ));
                    }
                } else {
                    if sp.1 + 2 <= self.rows_spec() - 2 {
                        assert(step(sp, Direction::South, 2) == (sp.0, sp.1 + 2));
                        assert(in_grid(self.grid_seq(), step(sp, Direction::South, 2)));
                        assert(viable(
                            self.grid_seq(),
                            self.rows_spec(),
                            self.cols_spec(),
                            Seq::empty(),
                            sp,
                            Direction::South,
                        ));
                    } else {
                        assert(step(sp, Direction::North, 2) == (sp.0, sp.1 - 2));
                        assert(in_grid(self.grid_seq(), step(sp, Direction::North, 2)));
                        assert(viable(
                            self.grid_seq(),
                            self.rows_spec(),
                            self.cols_spec(),
                            Seq::empty(),
                            sp,
                            Direction::North,
                        ));
                    }
                }
                assert(some_viable(self.grid_seq(), self.rows_spec(), self.cols_spec(), sp));
            }
        }
        self.generate_from(sx, sy, rng);
        proof {
            if all_wall(old(self).grid_seq()) && (old(self).cols_spec() >= 5
                || old(self).rows_spec() >= 5) {
                assert(valid_room(old(self).rows_spec(), old(self).cols_spec(), sp));
                assert(started(self.grid_seq(), sp));
            }
        }
    }

    /// Generate the maze with the process random generator.
    pub fn generate(&mut self)
        requires
            old(self).wf(),
            old(self).cols_spec() >= 4,
            old(self).rows_spec() >= 4,
        ensures
            final(self).wf(),
            final(self).rows_spec() == old(self).rows_spec(),
            final(self).cols_spec() == old(self).cols_spec(),
            carve_rel(
                old(self).grid_seq(),
                final(self).grid_seq(),
                old(self).rows_spec(),
                old(self).cols_spec(),
            ),
            no_isolated_carve(old(self).grid_seq(), final(self).grid_seq()),
            all_wall(old(self).grid_seq()) ==> final(self).grid_seq() == old(self).grid_seq()
                || room_count(final(self).grid_seq()) == corridor_count(final(self).grid_seq())
                + 1,
            all_wall(old(self).grid_seq()) ==> corridors_join_rooms(
                final(self).grid_seq(),
                old(self).rows_spec(),
                old(self).cols_spec(),
            ),
            all_wall(old(self).grid_seq()) ==> fully_carved(
                final(self).grid_seq(),
                old(self).rows_spec(),
                old(self).cols_spec(),
            ),
            all_wall(old(self).grid_seq()) && (old(self).cols_spec() >= 5 || old(self).rows_spec()
                >= 5) ==> exists|sp: (int, int)|
                valid_room(old(self).rows_spec(), old(self).cols_spec(), sp) && #[trigger] started(
                    final(self).grid_seq(),
                    sp,
                ),
    {
        let mut rng = RandomSource::system();
        self.generate_with(&mut rng);
    }
}

/// The point `s` steps from `point` in direction `d`.
fn step_point(point: (isize, isize), d: Direction, s: isize) -> (q: (isize, isize))
    requires
        -(MAX_DIM as int) <= point.0 as int <= MAX_DIM as int,
        -(MAX_DIM as int) <= point.1 as int <= MAX_DIM as int,
        0 <= s as int <= 2,
    ensures
        pm(q) == step(pm(point), d, s as int),
{
    match d {
        Direction::North => (point.0, point.1 - s),
        Direction::East => (point.0 + s, point.1),
        Direction::South => (point.0, point.1 + s),
        Direction::West => (point.0 - s, point.1),
    }
}

/// Membership test on the visited list.
fn contains_point(v: &Vec<(isize, isize)>, p: (isize, isize)) -> (r: bool)
    ensures
        r == v@.contains(p),
{
    let mut k: usize = 0;
    while k < v.len()
        invariant
            0 <= k <= v@.len(),
            forall|i: int| 0 <= i < k ==> v@[i] != p,
        decreases v@.len() - k,
    {
        if v[k].0 == p.0 && v[k].1 == p.1 {
            proof {
                assert(v@[k as int] == p);
            }
            return true;
        }
        k = k + 1;
    }
    proof {
        assert(!v@.contains(p));
    }
    false
}

} // verus!
