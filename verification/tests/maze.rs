use mazegen::grid::Cell;
use mazegen::maze::Maze;
use mazegen::rng::RandomSource;

fn fixed_source(values: Vec<u64>) -> RandomSource {
    RandomSource::fixed(values)
}

fn default_values() -> Vec<u64> {
    vec![7, 2, 9, 4, 11, 0, 5, 3, 8, 1, 6, 10, 13, 12, 15, 14]
}

fn collect_cells(m: &Maze) -> Vec<Vec<Cell>> {
    let rows = m.rows();
    let cols = m.cols();
    let mut out = Vec::new();
    for r in 0..rows {
        let mut row = Vec::new();
        for c in 0..cols {
            row.push(m.cell(r, c));
        }
        out.push(row);
    }
    out
}

fn generated_maze(cols: usize, rows: usize) -> Maze {
    let mut m = Maze::new(cols, rows);
    let mut rng = fixed_source(default_values());
    m.generate_with(&mut rng);
    m
}

/// Flood fill over empty cells from the given start, returning how many
/// empty cells were reached.
fn flood_count(g: &[Vec<Cell>], start: (usize, usize)) -> usize {
    let rows = g.len();
    let cols = g[0].len();
    let mut seen = vec![vec![false; cols]; rows];
    let mut stack = vec![start];
    seen[start.0][start.1] = true;
    let mut count: usize = 0;
    while let Some((r, c)) = stack.pop() {
        count += 1;
        let mut push = |rr: usize, cc: usize, seen: &mut Vec<Vec<bool>>, stack: &mut Vec<(usize, usize)>| {
            if rr < rows && cc < cols && !seen[rr][cc] && g[rr][cc] == Cell::Empty {
                seen[rr][cc] = true;
                stack.push((rr, cc));
            }
        };
        if r > 0 {
            push(r - 1, c, &mut seen, &mut stack);
        }
        if c > 0 {
            push(r, c - 1, &mut seen, &mut stack);
        }
        push(r + 1, c, &mut seen, &mut stack);
        push(r, c + 1, &mut seen, &mut stack);
    }
    count
}

fn count_empty(g: &[Vec<Cell>]) -> usize {
    g.iter()
        .map(|row| row.iter().filter(|c| **c == Cell::Empty).count())
        .sum()
}

#[test]
fn maze_is_generated() {
    assert!(true);
}

#[test]
fn connectivity_every_empty_cell_reachable() {
    for (cols, rows) in [(9usize, 9usize), (15, 11), (21, 21)] {
        let m = generated_maze(cols, rows);
        let g = collect_cells(&m);
        let total = count_empty(&g);
        assert!(total > 0);
        let mut start = None;
        'outer: for r in 0..rows {
            for c in 0..cols {
                if g[r][c] == Cell::Empty {
                    start = Some((r, c));
                    break 'outer;
                }
            }
        }
        let reached = flood_count(&g, start.unwrap());
        assert_eq!(reached, total);
    }
}

#[test]
fn acyclicity_no_two_by_two_empty_block() {
    let m = generated_maze(17, 13);
    let g = collect_cells(&m);
    for r in 0..12 {
        for c in 0..16 {
            let open = g[r][c] == Cell::Empty
                && g[r][c + 1] == Cell::Empty
                && g[r + 1][c] == Cell::Empty
                && g[r + 1][c + 1] == Cell::Empty;
            assert!(!open, "open 2x2 block at ({}, {})", r, c);
        }
    }
}

#[test]
fn acyclicity_corridor_count_is_rooms_minus_one() {
    // In a perfect maze the carved rooms form a tree whose edges are the
    // carved corridor cells: empties that are not on the odd-odd lattice.
    let m = generated_maze(15, 15);
    let g = collect_cells(&m);
    let empties = count_empty(&g);
    let mut rooms: usize = 0;
    for r in 0..15 {
        for c in 0..15 {
            if r % 2 == 1 && c % 2 == 1 && g[r][c] == Cell::Empty {
                rooms += 1;
            }
        }
    }
    let corridors = empties - rooms;
    assert!(rooms > 1);
    assert_eq!(corridors, rooms - 1);
    assert_eq!(empties, 2 * rooms - 1);
}

#[test]
fn generation_is_maximal() {
    // no empty room borders an in-bounds room that is still wall
    let m = generated_maze(13, 11);
    let g = collect_cells(&m);
    for r in (1..10).step_by(2) {
        for c in (1..12).step_by(2) {
            if g[r][c] == Cell::Empty {
                if r >= 3 {
                    assert_eq!(g[r - 2][c], Cell::Empty);
                }
                if r + 2 <= 9 {
                    assert_eq!(g[r + 2][c], Cell::Empty);
                }
                if c >= 3 {
                    assert_eq!(g[r][c - 2], Cell::Empty);
                }
                if c + 2 <= 11 {
                    assert_eq!(g[r][c + 2], Cell::Empty);
                }
            }
        }
    }
}

#[test]
fn corridor_cells_join_two_rooms() {
    let m = generated_maze(9, 9);
    let g = collect_cells(&m);
    for r in 1..8 {
        for c in 1..8 {
            if g[r][c] == Cell::Empty && (r % 2 == 0) != (c % 2 == 0) {
                if r % 2 == 0 {
                    assert_eq!(g[r - 1][c], Cell::Empty);
                    assert_eq!(g[r + 1][c], Cell::Empty);
                } else {
                    assert_eq!(g[r][c - 1], Cell::Empty);
                    assert_eq!(g[r][c + 1], Cell::Empty);
                }
            }
        }
    }
}

#[test]
fn perimeter_stays_wall() {
    for (cols, rows) in [(4usize, 4usize), (5, 9), (12, 7), (33, 33)] {
        let m = generated_maze(cols, rows);
        let g = collect_cells(&m);
        for c in 0..cols {
            assert_eq!(g[0][c], Cell::Wall);
            assert_eq!(g[rows - 1][c], Cell::Wall);
        }
        for r in 0..rows {
            assert_eq!(g[r][0], Cell::Wall);
            assert_eq!(g[r][cols - 1], Cell::Wall);
        }
    }
}

#[test]
fn perimeter_stays_wall_with_system_source() {
    let mut m = Maze::new(19, 19);
    m.generate();
    let g = collect_cells(&m);
    for c in 0..19 {
        assert_eq!(g[0][c], Cell::Wall);
        assert_eq!(g[18][c], Cell::Wall);
    }
    for r in 0..19 {
        assert_eq!(g[r][0], Cell::Wall);
        assert_eq!(g[r][18], Cell::Wall);
    }
}

#[test]
fn determinism_under_fixed_randomness() {
    let values = vec![3u64, 14, 1, 5, 9, 2, 6, 5, 35, 8, 97, 93, 23, 84, 62, 64];
    let mut a = Maze::new(11, 11);
    let mut b = Maze::new(11, 11);
    let mut ra = fixed_source(values.clone());
    let mut rb = fixed_source(values);
    a.generate_with(&mut ra);
    b.generate_with(&mut rb);
    assert_eq!(collect_cells(&a), collect_cells(&b));
}

#[test]
fn termination_on_grids_up_to_101() {
    for n in 4..=101usize {
        let mut m = Maze::new(n, n);
        let mut rng = fixed_source(default_values());
        m.generate_with(&mut rng);
        assert_eq!(m.rows(), n);
        assert_eq!(m.cols(), n);
    }
}

#[test]
fn termination_system_source_101() {
    let mut m = Maze::new(101, 101);
    m.generate();
    let g = collect_cells(&m);
    assert!(count_empty(&g) > 0);
}

#[test]
fn forced_start_five_by_five() {
    let mut m = Maze::new(5, 5);
    let mut rng = fixed_source(default_values());
    m.generate_from(1, 1, &mut rng);
    let g = collect_cells(&m);
    assert_eq!(g[1][1], Cell::Empty);
    assert_eq!(g[0][0], Cell::Wall);
    let adjacent_empty = g[0][1] == Cell::Empty
        || g[1][0] == Cell::Empty
        || g[2][1] == Cell::Empty
        || g[1][2] == Cell::Empty;
    assert!(adjacent_empty);
}

#[test]
fn forced_start_system_source() {
    let mut m = Maze::new(5, 5);
    let mut rng = RandomSource::system();
    m.generate_from(3, 3, &mut rng);
    let g = collect_cells(&m);
    assert_eq!(g[3][3], Cell::Empty);
    assert_eq!(g[0][0], Cell::Wall);
}

#[test]
fn new_maze_is_all_wall() {
    let m = Maze::new(7, 5);
    assert_eq!(m.rows(), 5);
    assert_eq!(m.cols(), 7);
    let g = collect_cells(&m);
    for r in 0..5 {
        for c in 0..7 {
            assert_eq!(g[r][c], Cell::Wall);
        }
    }
}

#[test]
fn fixed_source_draw_cycles_modulo() {
    let mut rng = fixed_source(vec![5, 3]);
    assert_eq!(rng.draw(4), 1);
    assert_eq!(rng.draw(4), 3);
    assert_eq!(rng.draw(4), 1);
    assert_eq!(rng.draw(2), 1);
}

#[test]
fn generation_only_carves_never_walls_back() {
    let mut m = Maze::new(9, 9);
    let mut rng = fixed_source(default_values());
    m.generate_with(&mut rng);
    let first = collect_cells(&m);
    // a second run may carve more, but never turns an empty cell back
    let mut rng2 = fixed_source(vec![1, 2, 3, 4, 5]);
    m.generate_with(&mut rng2);
    let second = collect_cells(&m);
    for r in 0..9 {
        for c in 0..9 {
            if first[r][c] == Cell::Empty {
                assert_eq!(second[r][c], Cell::Empty);
            }
        }
    }
}
