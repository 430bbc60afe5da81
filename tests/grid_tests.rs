use mazegame::grid::{CellKind, Direction, Grid, GridPosition, MazeError};

fn kinds() -> Vec<CellKind> {
    vec![CellKind::Wall, CellKind::Open, CellKind::Start, CellKind::Exit, CellKind::Hazard]
}

#[test]
fn new_grid_is_uniform() {
    let g = Grid::new(4, CellKind::Wall);
    assert_eq!(g.size(), 4);
    for x in 0..4 {
        for y in 0..4 {
            assert_eq!(g.get(x, y), CellKind::Wall);
        }
    }
}

#[test]
fn set_changes_one_cell() {
    let mut g = Grid::new(3, CellKind::Open);
    g.set(1, 2, CellKind::Hazard);
    assert_eq!(g.get(1, 2), CellKind::Hazard);
    assert_eq!(g.get(2, 1), CellKind::Open);
    assert_eq!(g.get(0, 0), CellKind::Open);
}

#[test]
fn bytes_are_row_major_symbols() {
    let mut g = Grid::new(2, CellKind::Wall);
    g.set(0, 1, CellKind::Start);
    g.set(1, 0, CellKind::Open);
    g.set(1, 1, CellKind::Exit);
    assert_eq!(g.to_bytes(), vec![b'#', b'P', b' ', b'E']);
}

#[test]
fn hazard_symbol_is_star() {
    let g = Grid::new(1, CellKind::Hazard);
    assert_eq!(g.to_bytes(), vec![b'*']);
}

#[test]
fn round_trip_keeps_every_cell() {
    for n in [1usize, 2, 5, 10, 30] {
        let mut g = Grid::new(n, CellKind::Wall);
        let ks = kinds();
        for x in 0..n {
            for y in 0..n {
                g.set(x, y, ks[(x * 7 + y * 3) % ks.len()]);
            }
        }
        let bytes = g.to_bytes();
        assert_eq!(bytes.len(), n * n);
        let back = Grid::from_bytes(n, &bytes).unwrap();
        assert_eq!(back.size(), n);
        for x in 0..n {
            for y in 0..n {
                assert_eq!(back.get(x, y), g.get(x, y));
            }
        }
        assert_eq!(back.to_bytes(), bytes);
    }
}

#[test]
fn round_trip_of_empty_board() {
    let g = Grid::new(0, CellKind::Wall);
    let bytes = g.to_bytes();
    assert!(bytes.is_empty());
    let back = Grid::from_bytes(0, &bytes).unwrap();
    assert_eq!(back.size(), 0);
}

#[test]
fn short_maze_frame_is_rejected() {
    let bytes = vec![b'#'; 8];
    assert_eq!(Grid::from_bytes(3, &bytes).err(), Some(MazeError::ProtocolShortRead));
    let bytes = vec![b'#'; 10];
    assert_eq!(Grid::from_bytes(3, &bytes).err(), Some(MazeError::ProtocolShortRead));
}

#[test]
fn unknown_symbol_is_malformed() {
    let mut bytes = vec![b'#'; 9];
    bytes[4] = b'x';
    assert_eq!(Grid::from_bytes(3, &bytes).err(), Some(MazeError::MalformedFrame));
}

#[test]
fn every_symbol_decodes() {
    let bytes = vec![b'#', b' ', b'P', b'E'];
    let g = Grid::from_bytes(2, &bytes).unwrap();
    assert_eq!(g.get(0, 0), CellKind::Wall);
    assert_eq!(g.get(0, 1), CellKind::Open);
    assert_eq!(g.get(1, 0), CellKind::Start);
    assert_eq!(g.get(1, 1), CellKind::Exit);
}

#[test]
fn inverse_directions() {
    assert_eq!(Direction::Up.inverse(), Direction::Down);
    assert_eq!(Direction::Down.inverse(), Direction::Up);
    assert_eq!(Direction::Left.inverse(), Direction::Right);
    assert_eq!(Direction::Right.inverse(), Direction::Left);
    assert_eq!(Direction::Return.inverse(), Direction::Return);
}

#[test]
fn grid_position_from_pair() {
    let p: GridPosition = (3i16, -4i16).into();
    assert_eq!(p, GridPosition::new(3, -4));
    assert_eq!(p.x, 3);
    assert_eq!(p.y, -4);
}
