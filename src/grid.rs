//! The maze board: a square matrix of cell kinds, stored row-major, and its
//! one-byte-per-cell wire form.
use vstd::prelude::*;

verus! {

/// What occupies one cell of the board.
#[derive(Clone, Copy, PartialEq, Eq, Structural, Debug)]
pub enum CellKind {
    Wall,
    Open,
    Start,
    Exit,
    Hazard,
}

pub const WALL_SYMBOL: u8 = 35;

pub const OPEN_SYMBOL: u8 = 32;

pub const START_SYMBOL: u8 = 80;

pub const EXIT_SYMBOL: u8 = 69;

pub const HAZARD_SYMBOL: u8 = 42;

/// The printable symbol that stands for a cell kind on the wire
/// (`#`, space, `P`, `E` and `*`).
pub open spec fn symbol_of(k: CellKind) -> u8 {
    match k {
        CellKind::Wall => WALL_SYMBOL,
        CellKind::Open => OPEN_SYMBOL,
        CellKind::Start => START_SYMBOL,
        CellKind::Exit => EXIT_SYMBOL,
        CellKind::Hazard => HAZARD_SYMBOL,
    }
}

/// The cell kind a byte stands for, if it is one of the five symbols.
pub open spec fn kind_of(b: u8) -> Option<CellKind> {
    if b == WALL_SYMBOL {
        Some(CellKind::Wall)
    } else if b == OPEN_SYMBOL {
        Some(CellKind::Open)
    } else if b == START_SYMBOL {
        Some(CellKind::Start)
    } else if b == EXIT_SYMBOL {
        Some(CellKind::Exit)
    } else if b == HAZARD_SYMBOL {
        Some(CellKind::Hazard)
    } else {
        None
    }
}

/// The maze frame of a board: one symbol per cell, row-major.
pub open spec fn encode_cells(cells: Seq<CellKind>) -> Seq<u8> {
    cells.map_values(|k: CellKind| symbol_of(k))
}

/// Whether every byte of a frame is one of the five symbols.
pub open spec fn decodable(bytes: Seq<u8>) -> bool {
    forall|i: int| 0 <= i < bytes.len() ==> (#[trigger] kind_of(bytes[i])).is_some()
}

/// The cells that a decodable frame stands for.
pub open spec fn decode_cells(bytes: Seq<u8>) -> Seq<CellKind> {
    bytes.map_values(|b: u8| kind_of(b).unwrap())
}

/// Position of cell `(x, y)` in the row-major order of an `n × n` board.
pub open spec fn flat_index(n: int, x: int, y: int) -> int {
    x * n + y
}

pub proof fn lemma_flat_index_bounds(n: int, x: int, y: int)
    requires
        0 <= x < n,
        0 <= y < n,
    ensures
        0 <= flat_index(n, x, y) < n * n,
{
    assert(0 <= x * n + y < n * n) by (nonlinear_arith)
        requires
            0 <= x < n,
            0 <= y < n,
    ;
}

pub proof fn lemma_flat_index_injective(n: int, x1: int, y1: int, x2: int, y2: int)
    requires
        0 <= x1 < n,
        0 <= y1 < n,
        0 <= x2 < n,
        0 <= y2 < n,
        flat_index(n, x1, y1) == flat_index(n, x2, y2),
    ensures
        x1 == x2 && y1 == y2,
{
    if x1 < x2 {
        assert(x1 * n + n <= x2 * n) by (nonlinear_arith)
            requires
                x1 < x2,
                0 < n,
        ;
    } else if x2 < x1 {
        assert(x2 * n + n <= x1 * n) by (nonlinear_arith)
            requires
                x2 < x1,
                0 < n,
        ;
    }
}

pub proof fn lemma_square_fits(n: int)
    requires
        0 <= n <= MAX_SIZE,
    ensures
        n * n <= MAX_SIZE * MAX_SIZE,
        n * n <= usize::MAX,
{
    assert(n * n <= 32768 * 32768) by (nonlinear_arith)
        requires
            0 <= n <= 32768,
    ;
}

/// How many entries of `s` equal `a`.
pub open spec fn count_of<A>(s: Seq<A>, a: A) -> nat
    decreases s.len(),
{
    if s.len() == 0 {
        0
    } else {
        count_of(s.drop_last(), a) + if s.last() == a {
            1nat
        } else {
            0nat
        }
    }
}

/// Overwriting one entry equal to `a` with another value lowers the count of `a` by one.
pub proof fn lemma_count_of_update<A>(s: Seq<A>, i: int, b: A)
    requires
        0 <= i < s.len(),
        s[i] != b,
    ensures
        count_of(s.update(i, b), s[i]) + 1 == count_of(s, s[i]),
    decreases s.len(),
{
    let t = s.update(i, b);
    if i == s.len() - 1 {
        assert(t.drop_last() == s.drop_last());
    } else {
        assert(t.drop_last() == s.drop_last().update(i, b));
        lemma_count_of_update(s.drop_last(), i, b);
    }
}

/// The largest side length of a board: every coordinate must fit the
/// 16-bit signed integers of a position frame.
pub const MAX_SIZE: usize = 32768;

/// A square board of `size × size` cells.
pub struct Grid {
    size: usize,
    cells: Vec<CellKind>,
}

impl View for Grid {
    type V = Seq<CellKind>;

    /// The cells, row-major.
    closed spec fn view(&self) -> Seq<CellKind> {
        self.cells@
    }
}

impl Grid {
    /// The side length of the board.
    pub closed spec fn dim(&self) -> nat {
        self.size as nat
    }

    /// The board holds exactly `dim × dim` cells, and its coordinates fit
    /// a position.
    pub open spec fn wf(&self) -> bool {
        &&& self@.len() == self.dim() * self.dim()
        &&& self.dim() * self.dim() <= usize::MAX
        &&& self.dim() <= MAX_SIZE
    }

    /// The cell at `(x, y)`.
    pub open spec fn cell(&self, x: int, y: int) -> CellKind {
        self@[flat_index(self.dim() as int, x, y)]
    }

    pub open spec fn in_bounds(&self, x: int, y: int) -> bool {
        0 <= x < self.dim() && 0 <= y < self.dim()
    }

    /// A board of the given size with every cell of one kind.
    pub fn new(size: usize, kind: CellKind) -> (g: Grid)
        requires
            size <= MAX_SIZE,
        ensures
            g.wf(),
            g.dim() == size,
            g@ == Seq::new((size * size) as nat, |i: int| kind),
    {
        proof {
            lemma_square_fits(size as int);
        }
        let total: usize = size * size;
        let mut cells: Vec<CellKind> = Vec::new();
        let mut i: usize = 0;
        while i < total
            invariant
                i <= total,
                cells@ == Seq::new(i as nat, |j: int| kind),
            decreases total - i,
        {
            cells.push(kind);
            i = i + 1;
        }
        Grid { size, cells }
    }

    pub fn size(&self) -> (n: usize)
        ensures
            n == self.dim(),
    {
        self.size
    }

    pub fn get(&self, x: usize, y: usize) -> (k: CellKind)
        requires
            self.wf(),
            self.in_bounds(x as int, y as int),
        ensures
            k == self.cell(x as int, y as int),
    {
        proof {
            lemma_flat_index_bounds(self.size as int, x as int, y as int);
        }
        self.cells[x * self.size + y]
    }

    pub fn set(&mut self, x: usize, y: usize, kind: CellKind)
        requires
            old(self).wf(),
            old(self).in_bounds(x as int, y as int),
        ensures
            final(self).wf(),
            final(self).dim() == old(self).dim(),
            final(self)@ == old(self)@.update(flat_index(old(self).dim() as int, x as int, y as int), kind),
    {
        proof {
            lemma_flat_index_bounds(self.size as int, x as int, y as int);
        }
        let i: usize = x * self.size + y;
        self.cells.set(i, kind);
    }

    /// The maze frame: every cell as its symbol, row-major.
    pub fn to_bytes(&self) -> (bytes: Vec<u8>)
        ensures
            bytes@ == encode_cells(self@),
    {
        let mut bytes: Vec<u8> = Vec::new();
        let mut i: usize = 0;
        while i < self.cells.len()
            invariant
                i <= self.cells@.len(),
                bytes@ == encode_cells(self.cells@.subrange(0, i as int)),
            decreases self.cells@.len() - i,
        {
            bytes.push(symbol(self.cells[i]));
            proof {
                assert(self.cells@.subrange(0, i + 1) == self.cells@.subrange(0, i as int).push(
                    self.cells@[i as int],
                ));
            }
            i = i + 1;
        }
        proof {
            assert(self.cells@.subrange(0, i as int) == self.cells@);
        }
        bytes
    }

    /// Rebuilds a board of the given size from a maze frame. A frame of
    /// another length than `size × size` is a short read; a byte that is not
    /// one of the five symbols is a malformed frame.
    pub fn from_bytes(size: usize, bytes: &[u8]) -> (r: Result<Grid, MazeError>)
        requires
            size <= MAX_SIZE,
        ensures
            bytes@.len() != size * size ==> r == Err::<Grid, MazeError>(MazeError::ProtocolShortRead),
            bytes@.len() == size * size && !decodable(bytes@) ==> r == Err::<Grid, MazeError>(
                MazeError::MalformedFrame,
            ),
            bytes@.len() == size * size && decodable(bytes@) ==> (r matches Ok(g) && g.wf()
                && g.dim() == size && g@ == decode_cells(bytes@)),
    {
        proof {
            let s = size as int;
            assert(s * s <= u128::MAX) by (nonlinear_arith)
                requires
                    0 <= s <= u64::MAX,
            ;
        }
        if bytes.len() as u128 != size as u128 * size as u128 {
            return Err(MazeError::ProtocolShortRead);
        }
        let mut cells: Vec<CellKind> = Vec::new();
        let mut i: usize = 0;
        while i < bytes.len()
            invariant
                i <= bytes@.len(),
                bytes@.len() == size * size,
                decodable(bytes@.subrange(0, i as int)),
                cells@ == decode_cells(bytes@.subrange(0, i as int)),
            decreases bytes@.len() - i,
        {
            match kind_from_symbol(bytes[i]) {
                Some(k) => {
                    cells.push(k);
                    proof {
                        let pre = bytes@.subrange(0, i as int);
                        let post = bytes@.subrange(0, i + 1);
                        assert(post == pre.push(bytes@[i as int]));
                        assert forall|j: int| 0 <= j < post.len() implies (#[trigger] kind_of(
                            post[j],
                        )).is_some() by {
                            if j < i {
                                assert(post[j] == pre[j]);
                            }
                        }
                        assert(decode_cells(post) == decode_cells(pre).push(k));
                    }
                },
                None => {
                    proof {
                        assert(!(kind_of(bytes@[i as int]).is_some()));
                    }
                    return Err(MazeError::MalformedFrame);
                },
            }
            i = i + 1;
        }
        proof {
            assert(bytes@.subrange(0, i as int) == bytes@);
        }
        proof {
            lemma_square_fits(size as int);
        }
        Ok(Grid { size, cells })
    }
}

/// What can go wrong in generating a maze or in a session.
#[derive(Clone, Copy, PartialEq, Eq, Structural, Debug)]
pub enum MazeError {
    /// No connected maze was found within the attempt bound.
    GenerationExhausted,
    /// The connection to the relay could not be made or was lost.
    ConnectionFailed,
    /// A frame had another length than the protocol fixes.
    ProtocolShortRead,
    /// A byte of a maze frame is not one of the cell symbols.
    MalformedFrame,
}

/// A cell coordinate: `x` is the first index of the board, `y` the second.
#[derive(Clone, Copy, PartialEq, Eq, Structural, Debug)]
pub struct GridPosition {
    pub x: i16,
    pub y: i16,
}

impl GridPosition {
    pub fn new(x: i16, y: i16) -> (p: GridPosition)
        ensures
            p.x == x && p.y == y,
    {
        GridPosition { x, y }
    }
}

impl From<(i16, i16)> for GridPosition {
    fn from(t: (i16, i16)) -> (p: GridPosition) {
        GridPosition { x: t.0, y: t.1 }
    }
}

impl vstd::std_specs::convert::FromSpecImpl<(i16, i16)> for GridPosition {
    open spec fn obeys_from_spec() -> bool {
        true
    }

    open spec fn from_spec(t: (i16, i16)) -> GridPosition {
        GridPosition { x: t.0, y: t.1 }
    }
}

/// A move command, or the confirm key of the menu.
#[derive(Clone, Copy, PartialEq, Eq, Structural, Debug)]
pub enum Direction {
    Up,
    Down,
    Left,
    Right,
    Return,
}

/// The step a direction makes on the board: `Up` and `Down` change `y`,
/// `Left` and `Right` change `x`.
pub open spec fn offset(d: Direction) -> (int, int) {
    match d {
        Direction::Up => (0, -1),
        Direction::Down => (0, 1),
        Direction::Left => (-1, 0),
        Direction::Right => (1, 0),
        Direction::Return => (0, 0),
    }
}

pub open spec fn opposite(d: Direction) -> Direction {
    match d {
        Direction::Up => Direction::Down,
        Direction::Down => Direction::Up,
        Direction::Left => Direction::Right,
        Direction::Right => Direction::Left,
        Direction::Return => Direction::Return,
    }
}

impl Direction {
    /// The direction that undoes this one.
    pub fn inverse(&self) -> (r: Direction)
        ensures
            r == opposite(*self),
            offset(r).0 == -offset(*self).0,
            offset(r).1 == -offset(*self).1,
    {
        match *self {
            Direction::Up => Direction::Down,
            Direction::Down => Direction::Up,
            Direction::Left => Direction::Right,
            Direction::Right => Direction::Left,
            Direction::Return => Direction::Return,
        }
    }
}

pub fn symbol(k: CellKind) -> (b: u8)
    ensures
        b == symbol_of(k),
{
    match k {
        CellKind::Wall => WALL_SYMBOL,
        CellKind::Open => OPEN_SYMBOL,
        CellKind::Start => START_SYMBOL,
        CellKind::Exit => EXIT_SYMBOL,
        CellKind::Hazard => HAZARD_SYMBOL,
    }
}

pub fn kind_from_symbol(b: u8) -> (k: Option<CellKind>)
    ensures
        k == kind_of(b),
{
    if b == WALL_SYMBOL {
        Some(CellKind::Wall)
    } else if b == OPEN_SYMBOL {
        Some(CellKind::Open)
    } else if b == START_SYMBOL {
        Some(CellKind::Start)
    } else if b == EXIT_SYMBOL {
        Some(CellKind::Exit)
    } else if b == HAZARD_SYMBOL {
        Some(CellKind::Hazard)
    } else {
        None
    }
}

/// Flattening a board to its maze frame and reading the frame back gives the
/// same cells, for a board of any size.
pub proof fn lemma_frame_round_trip(cells: Seq<CellKind>)
    ensures
        decodable(encode_cells(cells)),
        decode_cells(encode_cells(cells)) == cells,
        encode_cells(cells).len() == cells.len(),
{
    let bytes = encode_cells(cells);
    assert forall|i: int| 0 <= i < bytes.len() implies (#[trigger] kind_of(bytes[i])).is_some() by {
        assert(bytes[i] == symbol_of(cells[i]));
    }
    assert(decode_cells(bytes) =~= cells);
}

} // verus!
