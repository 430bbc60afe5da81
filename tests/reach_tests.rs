use mazegame::grid::{CellKind, Grid};
use mazegame::reach::is_reachable;

fn board(rows: &[&str]) -> Grid {
    let n = rows.len();
    let mut g = Grid::new(n, CellKind::Wall);
    for (x, row) in rows.iter().enumerate() {
        for (y, c) in row.bytes().enumerate() {
            let k = match c {
                b'#' => CellKind::Wall,
                b'P' => CellKind::Start,
                b'E' => CellKind::Exit,
                b'*' => CellKind::Hazard,
                _ => CellKind::Open,
            };
            g.set(x, y, k);
        }
    }
    g
}

#[test]
fn open_corridor_reaches_exit() {
    let g = board(&["P  ", "## ", "##E"]);
    assert!(is_reachable(&g, 0, 0));
}

#[test]
fn walled_in_exit_is_unreachable() {
    let g = board(&["P   ", "    ", "   #", "  #E"]);
    assert!(!is_reachable(&g, 0, 0));
}

#[test]
fn walled_in_exit_on_generated_size() {
    let mut g = Grid::new(10, CellKind::Open);
    g.set(9, 9, CellKind::Exit);
    g.set(8, 9, CellKind::Wall);
    g.set(9, 8, CellKind::Wall);
    g.set(2, 3, CellKind::Start);
    assert!(!is_reachable(&g, 2, 3));
}

#[test]
fn hazard_blocks_the_only_path() {
    let g = board(&["P*E", "###", "###"]);
    let g2 = board(&["P  ", "###", "##E"]);
    assert!(!is_reachable(&g, 0, 0));
    assert!(!is_reachable(&g2, 0, 0));
    let g3 = board(&["P  ", "## ", "#*E"]);
    assert!(is_reachable(&g3, 0, 0));
}

#[test]
fn no_diagonal_steps() {
    let g = board(&["P#", "#E"]);
    assert!(!is_reachable(&g, 0, 0));
}

#[test]
fn start_on_exit_is_reachable() {
    let g = board(&["##", "#E"]);
    assert!(is_reachable(&g, 1, 1));
}

#[test]
fn winding_path_is_found() {
    let g = board(&[
        "P #   ",
        "# # # ",
        "# # # ",
        "#   # ",
        "#####*",
        "##### ",
    ]);
    // the hazard sits on the only way into the last column's foot
    assert!(!is_reachable(&g, 0, 0));
    let g = board(&[
        "P #   ",
        "# # # ",
        "# # # ",
        "#   # ",
        "##### ",
        "#####E",
    ]);
    assert!(is_reachable(&g, 0, 0));
}
