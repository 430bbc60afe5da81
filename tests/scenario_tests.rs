use mazegame::actors::{end_game, Outcome, Player};
use mazegame::generator::generate;
use mazegame::grid::{CellKind, Direction, Grid, GridPosition};
use rand::rngs::StdRng;
use rand::SeedableRng;

// Applies a move by hand: one step when it stays on the board and does not
// enter a wall.
fn step(g: &Grid, p: (i32, i32), d: Direction) -> (i32, i32) {
    let (dx, dy) = match d {
        Direction::Up => (0, -1),
        Direction::Down => (0, 1),
        Direction::Left => (-1, 0),
        Direction::Right => (1, 0),
        Direction::Return => (0, 0),
    };
    let (tx, ty) = (p.0 + dx, p.1 + dy);
    let n = g.size() as i32;
    if tx < 0 || ty < 0 || tx >= n || ty >= n {
        return p;
    }
    if g.get(tx as usize, ty as usize) == CellKind::Wall {
        return p;
    }
    (tx, ty)
}

#[test]
fn seeded_round_of_four_moves() {
    let moves = [Direction::Right, Direction::Right, Direction::Down, Direction::Down];
    for seed in [7u64, 8, 9, 10] {
        let maze = generate(&mut StdRng::seed_from_u64(seed), 10, 1000).unwrap();
        let mut player = Player::new(maze.start);
        let mut expected = (maze.start.x as i32, maze.start.y as i32);
        for d in moves {
            player.go(d, &maze.grid);
            expected = step(&maze.grid, expected, d);
        }
        assert_eq!(player.pos, GridPosition::new(expected.0 as i16, expected.1 as i16));
        let outcome = end_game(&maze.grid, player.pos);
        if player.pos == maze.exit {
            assert_eq!(outcome, Some(Outcome::Escaped));
        } else if player.pos == maze.hazard {
            assert_eq!(outcome, Some(Outcome::HitHazard));
        } else {
            assert_eq!(outcome, None);
        }
    }
}

#[test]
fn hand_made_round_escapes() {
    // x is the first index: Right adds to x, Down adds to y
    let mut g = Grid::new(4, CellKind::Wall);
    g.set(1, 1, CellKind::Start);
    g.set(2, 1, CellKind::Open);
    g.set(3, 1, CellKind::Open);
    g.set(3, 2, CellKind::Open);
    g.set(3, 3, CellKind::Exit);
    g.set(1, 2, CellKind::Hazard);
    let mut p = Player::new(GridPosition::new(1, 1));
    for d in [Direction::Right, Direction::Right, Direction::Down, Direction::Down] {
        p.go(d, &g);
    }
    assert_eq!(p.pos, GridPosition::new(3, 3));
    assert_eq!(end_game(&g, p.pos), Some(Outcome::Escaped));
}

#[test]
fn hand_made_round_hits_hazard() {
    let mut g = Grid::new(4, CellKind::Wall);
    g.set(1, 1, CellKind::Start);
    g.set(1, 2, CellKind::Hazard);
    g.set(3, 3, CellKind::Exit);
    let mut p = Player::new(GridPosition::new(1, 1));
    for d in [Direction::Right, Direction::Right, Direction::Down, Direction::Down] {
        p.go(d, &g);
    }
    // both steps right hit walls; the first step down enters the hazard and
    // the second hits the wall below it
    assert_eq!(p.pos, GridPosition::new(1, 2));
    assert_eq!(end_game(&g, p.pos), Some(Outcome::HitHazard));
}
