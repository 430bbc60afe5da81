use mazegame::generator::{generate, place_start_and_hazard, Maze};
use mazegame::actors::Player;
use mazegame::grid::{CellKind, Direction, GridPosition, MazeError};
use mazegame::reach::is_reachable;
use rand::rngs::StdRng;
use rand::SeedableRng;

fn count(m: &Maze, k: CellKind) -> usize {
    let n = m.grid.size();
    let mut c = 0;
    for x in 0..n {
        for y in 0..n {
            if m.grid.get(x, y) == k {
                c += 1;
            }
        }
    }
    c
}

fn check_maze(m: &Maze, n: usize) {
    assert_eq!(m.grid.size(), n);
    assert_eq!(m.exit, GridPosition::new((n - 1) as i16, (n - 1) as i16));
    assert_eq!(count(m, CellKind::Start), 1);
    assert_eq!(count(m, CellKind::Exit), 1);
    assert_eq!(count(m, CellKind::Hazard), 1);
    assert_eq!(m.grid.get(m.start.x as usize, m.start.y as usize), CellKind::Start);
    assert_eq!(m.grid.get(m.exit.x as usize, m.exit.y as usize), CellKind::Exit);
    assert_eq!(m.grid.get(m.hazard.x as usize, m.hazard.y as usize), CellKind::Hazard);
    assert_ne!(m.start, m.exit);
    assert_ne!(m.start, m.hazard);
    assert_ne!(m.hazard, m.exit);
    assert!(m.start.x >= 1 && m.start.y >= 1);
    assert!(m.hazard.x >= 1 && m.hazard.y >= 1);
    assert!(is_reachable(&m.grid, m.start.x as usize, m.start.y as usize));
    for x in 0..n {
        for y in 0..n {
            if m.grid.get(x, y) == CellKind::Open {
                assert!(is_reachable(&m.grid, x, y));
            }
        }
    }
}

#[test]
fn generated_mazes_are_solvable() {
    for seed in 0..20u64 {
        let mut rng = StdRng::seed_from_u64(seed);
        for n in [5usize, 10, 30] {
            let m = generate(&mut rng, n, 1000).unwrap();
            check_maze(&m, n);
        }
    }
}

#[test]
fn smallest_board_generates() {
    let mut rng = StdRng::seed_from_u64(3);
    let m = generate(&mut rng, 3, 1000).unwrap();
    check_maze(&m, 3);
}

#[test]
fn row_and_column_zero_stay_walls() {
    let mut rng = StdRng::seed_from_u64(11);
    let m = generate(&mut rng, 10, 1000).unwrap();
    for i in 0..10 {
        assert_eq!(m.grid.get(0, i), CellKind::Wall);
        assert_eq!(m.grid.get(i, 0), CellKind::Wall);
    }
}

#[test]
fn too_small_board_is_exhausted() {
    let mut rng = StdRng::seed_from_u64(1);
    for n in 0..3usize {
        assert_eq!(generate(&mut rng, n, 100).err(), Some(MazeError::GenerationExhausted));
    }
}

#[test]
fn zero_attempts_is_exhausted() {
    let mut rng = StdRng::seed_from_u64(1);
    assert_eq!(generate(&mut rng, 10, 0).err(), Some(MazeError::GenerationExhausted));
}

#[test]
fn same_seed_same_maze() {
    let a = generate(&mut StdRng::seed_from_u64(42), 10, 100).unwrap();
    let b = generate(&mut StdRng::seed_from_u64(42), 10, 100).unwrap();
    assert_eq!(a.grid.to_bytes(), b.grid.to_bytes());
    assert_eq!(a.start, b.start);
    assert_eq!(a.hazard, b.hazard);
}

#[test]
fn carving_order_is_shuffled() {
    // Tried first in a fixed order, the step upwards from the start would
    // always be carved when it fits; in a shuffled order it sometimes is not.
    let mut upward_left_wall = false;
    let mut starts = std::collections::HashSet::new();
    for seed in 0..60u64 {
        let m = generate(&mut StdRng::seed_from_u64(seed), 10, 1000).unwrap();
        starts.insert((m.start.x, m.start.y));
        let (x, y) = (m.start.x as usize, m.start.y as usize);
        let up_is_free = y >= 3
            && m.hazard != GridPosition::new(x as i16, (y - 1) as i16)
            && m.hazard != GridPosition::new(x as i16, (y - 2) as i16);
        if up_is_free && m.grid.get(x, y - 1) == CellKind::Wall {
            upward_left_wall = true;
        }
    }
    assert!(upward_left_wall);
    assert!(starts.len() > 1);
}

#[test]
fn placement_by_draws() {
    // size 5: the interior is 4 x 4, the exit is its last cell
    let (s, h) = place_start_and_hazard(5, 0, 0);
    assert_eq!(s, GridPosition::new(1, 1));
    assert_eq!(h, GridPosition::new(1, 2));
    let (s, h) = place_start_and_hazard(5, 5, 5);
    assert_eq!(s, GridPosition::new(2, 2));
    assert_eq!(h, GridPosition::new(2, 3));
    let (s, h) = place_start_and_hazard(5, 5, 4);
    assert_eq!(s, GridPosition::new(2, 2));
    assert_eq!(h, GridPosition::new(2, 1));
    let (s, h) = place_start_and_hazard(5, 14, 13);
    assert_eq!(s, GridPosition::new(4, 3));
    assert_eq!(h, GridPosition::new(4, 2));
    let (s, h) = place_start_and_hazard(5, 0, 13);
    assert_eq!(s, GridPosition::new(1, 1));
    assert_eq!(h, GridPosition::new(4, 3));
}

#[test]
fn carving_leaves_nothing_to_carve() {
    for seed in 0..10u64 {
        let m = generate(&mut StdRng::seed_from_u64(seed), 11, 1000).unwrap();
        let n = 11i32;
        let (sx, sy) = (m.start.x as i32, m.start.y as i32);
        for x in 0..n {
            for y in 0..n {
                let k = m.grid.get(x as usize, y as usize);
                let on_walk = (x == sx && y == sy)
                    || (k == CellKind::Open && (x - sx) % 2 == 0 && (y - sy) % 2 == 0);
                if !on_walk {
                    continue;
                }
                for (dx, dy) in [(0, -1), (0, 1), (-1, 0), (1, 0)] {
                    let (tx, ty) = (x + 2 * dx, y + 2 * dy);
                    if tx < 1 || ty < 1 || tx >= n || ty >= n {
                        continue;
                    }
                    let mid = m.grid.get((x + dx) as usize, (y + dy) as usize);
                    let far = m.grid.get(tx as usize, ty as usize);
                    assert!(!(mid == CellKind::Wall && far == CellKind::Wall));
                }
            }
        }
    }
}

#[test]
fn moves_onto_the_border_are_ignored() {
    let m = generate(&mut StdRng::seed_from_u64(5), 10, 1000).unwrap();
    for i in 1..10i16 {
        let mut p = Player::new(GridPosition::new(1, i));
        p.go(Direction::Left, &m.grid);
        assert_eq!(p.pos, GridPosition::new(1, i));
        let mut q = Player::new(GridPosition::new(i, 1));
        q.go(Direction::Up, &m.grid);
        assert_eq!(q.pos, GridPosition::new(i, 1));
    }
}
