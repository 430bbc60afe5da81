//! The actors on the board and the menu: validated moves of the player, the
//! outcome of a round, and the visibility flags the presentation layer reads.
use vstd::prelude::*;

use crate::generator::Maze;
use crate::grid::{CellKind, Direction, Grid, GridPosition, offset};

verus! {

/// Where a move in direction `d` from `p` ends: one step in `d` when that
/// cell is on the board and not a wall, else `p` itself.
pub open spec fn move_target(g: Grid, p: GridPosition, d: Direction) -> (int, int) {
    let tx = p.x + offset(d).0;
    let ty = p.y + offset(d).1;
    if g.in_bounds(tx, ty) && g.cell(tx, ty) != CellKind::Wall {
        (tx, ty)
    } else {
        (p.x as int, p.y as int)
    }
}

/// A move into a wall leaves the position as it was; a move into an open
/// cell goes one step in the direction of the move.
pub proof fn lemma_move_validation(g: Grid, p: GridPosition, d: Direction)
    ensures
        g.in_bounds(p.x + offset(d).0, p.y + offset(d).1) && g.cell(p.x + offset(d).0, p.y + offset(d).1)
            == CellKind::Wall ==> move_target(g, p, d) == (p.x as int, p.y as int),
        g.in_bounds(p.x + offset(d).0, p.y + offset(d).1) && g.cell(p.x + offset(d).0, p.y + offset(d).1)
            == CellKind::Open ==> move_target(g, p, d) == (p.x + offset(d).0, p.y + offset(d).1),
{
}

/// On a generated maze, a move onto the first row or the first column is
/// ignored: those cells are all walls.
pub proof fn lemma_border_moves_ignored(m: Maze, p: GridPosition, d: Direction)
    requires
        m.valid(),
        p.x + offset(d).0 == 0 || p.y + offset(d).1 == 0,
    ensures
        move_target(m.grid, p, d) == (p.x as int, p.y as int),
{
    let tx = p.x + offset(d).0;
    let ty = p.y + offset(d).1;
    if m.grid.in_bounds(tx, ty) {
        assert(m.grid.cell(tx, ty) == CellKind::Wall);
    }
}

/// How a round ends.
#[derive(Clone, Copy, PartialEq, Eq, Structural, Debug)]
pub enum Outcome {
    Escaped,
    HitHazard,
}

/// The outcome of standing on `(x, y)`: the exit ends the round escaped, the
/// hazard ends it lost, any other cell lets it go on.
pub open spec fn outcome_at(g: Grid, x: int, y: int) -> Option<Outcome> {
    if !g.in_bounds(x, y) {
        None
    } else if g.cell(x, y) == CellKind::Exit {
        Some(Outcome::Escaped)
    } else if g.cell(x, y) == CellKind::Hazard {
        Some(Outcome::HitHazard)
    } else {
        None
    }
}

/// Whether the round is over for an actor at `pos`, and how.
pub fn end_game(grid: &Grid, pos: GridPosition) -> (r: Option<Outcome>)
    requires
        grid.wf(),
    ensures
        r == outcome_at(*grid, pos.x as int, pos.y as int),
{
    if pos.x < 0 || pos.y < 0 {
        return None;
    }
    let x = pos.x as usize;
    let y = pos.y as usize;
    if x >= grid.size() || y >= grid.size() {
        return None;
    }
    match grid.get(x, y) {
        CellKind::Exit => Some(Outcome::Escaped),
        CellKind::Hazard => Some(Outcome::HitHazard),
        _ => None,
    }
}

/// The player: a position on the board and whether it is shown.
pub struct Player {
    pub pos: GridPosition,
    pub can: bool,
}

impl Player {
    pub fn new(pos: GridPosition) -> (p: Player)
        ensures
            p.pos == pos,
            !p.can,
    {
        Player { pos, can: false }
    }

    /// Moves one step in `dir` when the cell there is on the board and not a
    /// wall; otherwise the move is ignored. `Return` does not move.
    pub fn go(&mut self, dir: Direction, map: &Grid)
        requires
            map.wf(),
        ensures
            (final(self).pos.x as int, final(self).pos.y as int) == move_target(*map, old(self).pos, dir),
            final(self).can == old(self).can,
    {
        let x = self.pos.x as i32;
        let y = self.pos.y as i32;
        let (tx, ty): (i32, i32) = match dir {
            Direction::Up => (x, y - 1),
            Direction::Down => (x, y + 1),
            Direction::Left => (x - 1, y),
            Direction::Right => (x + 1, y),
            Direction::Return => (x, y),
        };
        if tx < 0 || ty < 0 {
            return;
        }
        let n = map.size();
        if tx as usize >= n || ty as usize >= n {
            return;
        }
        if map.get(tx as usize, ty as usize) != CellKind::Wall {
            self.pos = GridPosition { x: tx as i16, y: ty as i16 };
        }
    }

    pub fn update(&mut self, can: bool)
        ensures
            final(self).can == can,
            final(self).pos == old(self).pos,
    {
        self.can = can;
    }

    pub fn update_pos(&mut self, pos: GridPosition)
        ensures
            final(self).pos == pos,
            final(self).can == old(self).can,
    {
        self.pos = pos;
    }
}

/// The exit marker and whether it is shown.
pub struct Exit {
    pub pos: GridPosition,
    pub can: bool,
}

impl Exit {
    pub fn new(pos: GridPosition) -> (e: Exit)
        ensures
            e.pos == pos,
            !e.can,
    {
        Exit { pos, can: false }
    }

    pub fn update(&mut self, can: bool)
        ensures
            final(self).can == can,
            final(self).pos == old(self).pos,
    {
        self.can = can;
    }
}

/// The hazard marker and whether it is shown.
pub struct Bomb {
    pub pos: GridPosition,
    pub can: bool,
}

impl Bomb {
    pub fn new(pos: GridPosition) -> (b: Bomb)
        ensures
            b.pos == pos,
            !b.can,
    {
        Bomb { pos, can: false }
    }

    pub fn update(&mut self, can: bool)
        ensures
            final(self).can == can,
            final(self).pos == old(self).pos,
    {
        self.can = can;
    }
}

/// The walls layer and whether it is shown.
pub struct Wall {
    pub pos: GridPosition,
    pub can: bool,
}

impl Wall {
    pub fn new(pos: GridPosition, can: bool) -> (w: Wall)
        ensures
            w.pos == pos,
            w.can == can,
    {
        Wall { pos, can }
    }

    pub fn update(&mut self, can: bool)
        ensures
            final(self).can == can,
            final(self).pos == old(self).pos,
    {
        self.can = can;
    }
}

/// The start menu: the entries, which one is selected, and what was chosen.
/// Entry 0 starts a solo round, 1 hosts a two-player round, 2 joins one and
/// 3 quits.
pub struct Menu {
    pub select: i32,
    pub list: Vec<String>,
    pub in_menu: bool,
    pub solo: bool,
    pub user_type: bool,
}

impl Menu {
    pub fn new(select: i32, list: Vec<String>) -> (m: Menu)
        ensures
            m.select == select,
            m.list@ == list@,
            m.in_menu,
            m.solo,
            !m.user_type,
    {
        Menu { select, list, in_menu: true, solo: true, user_type: false }
    }

    /// Moves the selection up or down within the entries, or confirms it on
    /// `Return`. Returns whether quitting was chosen.
    pub fn go(&mut self, dir: Direction) -> (quit: bool)
        ensures
            final(self).list@ == old(self).list@,
            dir == Direction::Up ==> !quit && final(self).in_menu == old(self).in_menu
                && final(self).solo == old(self).solo && final(self).user_type == old(self).user_type
                && final(self).select == if old(self).select > 0 {
                old(self).select - 1
            } else {
                old(self).select as int
            },
            dir == Direction::Down ==> !quit && final(self).in_menu == old(self).in_menu
                && final(self).solo == old(self).solo && final(self).user_type == old(self).user_type
                && final(self).select == if 0 <= old(self).select < i32::MAX && old(self).select + 1
                < old(self).list@.len() {
                old(self).select + 1
            } else {
                old(self).select as int
            },
            dir == Direction::Return ==> chosen(*old(self), *final(self), quit),
            dir == Direction::Left || dir == Direction::Right ==> !quit && final(self).select
                == old(self).select && final(self).in_menu == old(self).in_menu && final(self).solo
                == old(self).solo && final(self).user_type == old(self).user_type,
    {
        match dir {
            Direction::Up => {
                if self.select > 0 {
                    self.select = self.select - 1;
                }
                false
            },
            Direction::Down => {
                if self.select >= 0 && self.select < i32::MAX && (self.select as usize) + 1 < self.list.len() {
                    self.select = self.select + 1;
                }
                false
            },
            Direction::Return => self.action(),
            _ => false,
        }
    }

    /// Acts on the selected entry. Returns whether quitting was chosen.
    pub fn action(&mut self) -> (quit: bool)
        ensures
            chosen(*old(self), *final(self), quit),
    {
        if self.select == 0 {
            self.in_menu = false;
            false
        } else if self.select == 1 {
            self.in_menu = false;
            self.solo = false;
            self.user_type = true;
            false
        } else if self.select == 2 {
            self.in_menu = false;
            self.solo = false;
            false
        } else {
            self.select == 3
        }
    }
}

/// What confirming the selected entry does: 0 leaves the menu for a solo
/// round, 1 for a hosted two-player round, 2 for a joined one; 3 asks to quit;
/// any other selection does nothing.
pub open spec fn chosen(before: Menu, after: Menu, quit: bool) -> bool {
    &&& after.select == before.select
    &&& after.list@ == before.list@
    &&& quit == (before.select == 3)
    &&& if before.select == 0 {
        !after.in_menu && after.solo == before.solo && after.user_type == before.user_type
    } else if before.select == 1 {
        !after.in_menu && !after.solo && after.user_type
    } else if before.select == 2 {
        !after.in_menu && !after.solo && after.user_type == before.user_type
    } else {
        after.in_menu == before.in_menu && after.solo == before.solo && after.user_type
            == before.user_type
    }
}

} // verus!
