use mazegame::actors::{end_game, Bomb, Exit, Menu, Outcome, Player, Wall};
use mazegame::grid::{CellKind, Direction, Grid, GridPosition};

fn cross() -> Grid {
    // (2,2) in the middle; open above and to the right, walls below and to the left
    let mut g = Grid::new(5, CellKind::Wall);
    g.set(2, 2, CellKind::Start);
    g.set(2, 1, CellKind::Open);
    g.set(3, 2, CellKind::Open);
    g.set(4, 2, CellKind::Exit);
    g.set(2, 0, CellKind::Hazard);
    g
}

#[test]
fn move_into_wall_is_ignored() {
    let g = cross();
    let mut p = Player::new(GridPosition::new(2, 2));
    p.go(Direction::Down, &g);
    assert_eq!(p.pos, GridPosition::new(2, 2));
    p.go(Direction::Left, &g);
    assert_eq!(p.pos, GridPosition::new(2, 2));
}

#[test]
fn move_into_open_takes_one_step() {
    let g = cross();
    let mut p = Player::new(GridPosition::new(2, 2));
    p.go(Direction::Up, &g);
    assert_eq!(p.pos, GridPosition::new(2, 1));
    let mut q = Player::new(GridPosition::new(2, 2));
    q.go(Direction::Right, &g);
    assert_eq!(q.pos, GridPosition::new(3, 2));
}

#[test]
fn exit_and_hazard_can_be_entered() {
    let g = cross();
    let mut p = Player::new(GridPosition::new(3, 2));
    p.go(Direction::Right, &g);
    assert_eq!(p.pos, GridPosition::new(4, 2));
    let mut q = Player::new(GridPosition::new(2, 1));
    q.go(Direction::Up, &g);
    assert_eq!(q.pos, GridPosition::new(2, 0));
}

#[test]
fn move_off_the_board_is_ignored() {
    let g = cross();
    let mut p = Player::new(GridPosition::new(4, 2));
    p.go(Direction::Right, &g);
    assert_eq!(p.pos, GridPosition::new(4, 2));
    let mut q = Player::new(GridPosition::new(2, 0));
    q.go(Direction::Up, &g);
    assert_eq!(q.pos, GridPosition::new(2, 0));
}

#[test]
fn return_does_not_move() {
    let g = cross();
    let mut p = Player::new(GridPosition::new(2, 2));
    p.go(Direction::Return, &g);
    assert_eq!(p.pos, GridPosition::new(2, 2));
}

#[test]
fn round_outcomes() {
    let g = cross();
    assert_eq!(end_game(&g, GridPosition::new(4, 2)), Some(Outcome::Escaped));
    assert_eq!(end_game(&g, GridPosition::new(2, 0)), Some(Outcome::HitHazard));
    assert_eq!(end_game(&g, GridPosition::new(2, 2)), None);
    assert_eq!(end_game(&g, GridPosition::new(3, 2)), None);
    assert_eq!(end_game(&g, GridPosition::new(-1, 2)), None);
    assert_eq!(end_game(&g, GridPosition::new(5, 2)), None);
}

#[test]
fn visibility_flags() {
    let mut p = Player::new(GridPosition::new(1, 1));
    assert!(!p.can);
    p.update(true);
    assert!(p.can);
    p.update_pos(GridPosition::new(3, 4));
    assert_eq!(p.pos, GridPosition::new(3, 4));
    assert!(p.can);
    let mut e = Exit::new(GridPosition::new(9, 9));
    e.update(true);
    assert!(e.can);
    assert_eq!(e.pos, GridPosition::new(9, 9));
    let mut b = Bomb::new(GridPosition::new(2, 5));
    assert!(!b.can);
    b.update(true);
    assert!(b.can);
    let mut w = Wall::new(GridPosition::new(0, 0), false);
    w.update(true);
    assert!(w.can);
}

fn menu() -> Menu {
    Menu::new(0, vec!["Solo".to_string(), "Multi".to_string(), "Join".to_string(), "Exit".to_string()])
}

#[test]
fn menu_selection_stays_within_entries() {
    let mut m = menu();
    assert!(!m.go(Direction::Up));
    assert_eq!(m.select, 0);
    for _ in 0..5 {
        assert!(!m.go(Direction::Down));
    }
    assert_eq!(m.select, 3);
    assert!(!m.go(Direction::Up));
    assert_eq!(m.select, 2);
    assert!(m.in_menu);
}

#[test]
fn menu_choices() {
    let mut m = menu();
    assert!(!m.go(Direction::Return));
    assert!(!m.in_menu && m.solo && !m.user_type);

    let mut m = menu();
    m.go(Direction::Down);
    assert!(!m.go(Direction::Return));
    assert!(!m.in_menu && !m.solo && m.user_type);

    let mut m = menu();
    m.go(Direction::Down);
    m.go(Direction::Down);
    assert!(!m.action());
    assert!(!m.in_menu && !m.solo && !m.user_type);

    let mut m = menu();
    for _ in 0..3 {
        m.go(Direction::Down);
    }
    assert!(m.go(Direction::Return));
    assert!(m.in_menu);
}
