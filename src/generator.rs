//! Maze generation: place the start, exit and hazard cells, carve passages by
//! a randomised depth-first walk in steps of two, and keep the board only
//! when the exit can be reached from the start.
use vstd::prelude::*;

use rand::Rng;
use rand::rngs::StdRng;
use rand::seq::SliceRandom;

use crate::grid::{
    CellKind, Direction, Grid, GridPosition, MAX_SIZE, MazeError, count_of, flat_index,
    lemma_count_of_update, lemma_flat_index_bounds, lemma_flat_index_injective, offset,
};
use crate::reach::{
    exit_reachable, is_reachable, lemma_reach_join, lemma_reach_reverse, passable, reach_within,
    reachable,
};

verus! {

#[verifier::external_type_specification]
#[verifier::external_body]
pub struct ExStdRng(StdRng);

/// Relies on rand's `Rng::gen_range`: on the non-empty range `0..bound` it
/// returns a value inside the range (it panics on an empty one).
#[verifier::external_body]
fn random_below(rng: &mut StdRng, bound: usize) -> (r: usize)
    requires
        bound > 0,
    ensures
        r < bound,
{
    rng.gen_range(0..bound)
}

/// Relies on rand's `SliceRandom::shuffle`: it permutes the elements in place.
#[verifier::external_body]
fn shuffle_directions(rng: &mut StdRng, steps: &mut Vec<Direction>)
    ensures
        final(steps)@.len() == old(steps)@.len(),
        final(steps)@.to_multiset() == old(steps)@.to_multiset(),
{
    steps.shuffle(rng)
}

/// The exit corner of an `n × n` board.
pub open spec fn exit_of(n: int) -> (int, int) {
    (n - 1, n - 1)
}

/// The `k`-th cell of the interior, row-major over the coordinates `1..size`.
pub open spec fn interior_cell(size: int, k: int) -> (int, int) {
    (1 + k / (size - 1), 1 + k % (size - 1))
}

/// The hazard draw skips the start's place in the row-major order.
pub open spec fn hazard_index(start_draw: int, hazard_draw: int) -> int {
    if hazard_draw >= start_draw {
        hazard_draw + 1
    } else {
        hazard_draw
    }
}

pub open spec fn pos_of(p: GridPosition) -> (int, int) {
    (p.x as int, p.y as int)
}

proof fn lemma_interior_cell(m: int, k1: int, k2: int)
    requires
        m >= 1,
        0 <= k1 < m * m,
        0 <= k2 < m * m,
    ensures
        0 <= k1 / m < m,
        0 <= k1 % m < m,
        (k1 / m == k2 / m && k1 % m == k2 % m) ==> k1 == k2,
        (k1 / m == m - 1 && k1 % m == m - 1) ==> k1 == m * m - 1,
{
    vstd::arithmetic::div_mod::lemma_fundamental_div_mod(k1, m);
    vstd::arithmetic::div_mod::lemma_fundamental_div_mod(k2, m);
    let q = k1 / m;
    let r = k1 % m;
    assert(0 <= r < m);
    assert(0 <= q < m) by (nonlinear_arith)
        requires
            k1 == m * q + r,
            0 <= r < m,
            0 <= k1 < m * m,
            m >= 1,
    ;
    if q == m - 1 && r == m - 1 {
        assert(k1 == m * m - 1) by (nonlinear_arith)
            requires
                k1 == m * q + r,
                q == m - 1,
                r == m - 1,
        ;
    }
}

/// The start and hazard cells chosen by two draws: the start is the
/// `start_draw`-th interior cell, which is never the exit corner (the last
/// one), and the hazard is drawn the same way among the cells left after the
/// start and the exit. Each draw is uniform over the cells it may pick.
pub fn place_start_and_hazard(size: usize, start_draw: usize, hazard_draw: usize) -> (r: (
    GridPosition,
    GridPosition,
))
    requires
        3 <= size <= MAX_SIZE,
        start_draw < (size - 1) * (size - 1) - 1,
        hazard_draw < (size - 1) * (size - 1) - 2,
    ensures
        pos_of(r.0) == interior_cell(size as int, start_draw as int),
        pos_of(r.1) == interior_cell(size as int, hazard_index(start_draw as int, hazard_draw as int)),
        1 <= r.0.x < size && 1 <= r.0.y < size,
        1 <= r.1.x < size && 1 <= r.1.y < size,
        pos_of(r.0) != pos_of(r.1),
        pos_of(r.0) != exit_of(size as int),
        pos_of(r.1) != exit_of(size as int),
{
    let m: usize = size - 1;
    proof {
        assert(m * m <= 32767 * 32767) by (nonlinear_arith)
            requires
                m <= 32767,
        ;
    }
    let hk: usize = if hazard_draw >= start_draw {
        hazard_draw + 1
    } else {
        hazard_draw
    };
    proof {
        lemma_interior_cell(m as int, start_draw as int, hk as int);
        lemma_interior_cell(m as int, hk as int, start_draw as int);
    }
    let start = GridPosition { x: (1 + start_draw / m) as i16, y: (1 + start_draw % m) as i16 };
    let hazard = GridPosition { x: (1 + hk / m) as i16, y: (1 + hk % m) as i16 };
    (start, hazard)
}

/// Passages carved from `before` to `after`: walls may have become open,
/// every other cell is as it was.
pub open spec fn carved_from(before: Seq<CellKind>, after: Seq<CellKind>) -> bool {
    &&& after.len() == before.len()
    &&& forall|i: int|
        0 <= i < before.len() ==> #[trigger] after[i] == before[i] || (before[i] == CellKind::Wall
            && after[i] == CellKind::Open)
}

/// The cell two steps away in direction `d` and the cell between, when the
/// far cell lies in the interior (coordinates `1..n`).
pub open spec fn carve_target(n: int, x: int, y: int, d: Direction) -> Option<(int, int, int, int)> {
    let (dx, dy) = offset(d);
    let tx = x + 2 * dx;
    let ty = y + 2 * dy;
    if d != Direction::Return && 1 <= tx < n && 1 <= ty < n {
        Some((x + dx, y + dy, tx, ty))
    } else {
        None
    }
}

fn carve_step(n: usize, x: usize, y: usize, d: Direction) -> (r: Option<(usize, usize, usize, usize)>)
    requires
        x < n,
        y < n,
    ensures
        r matches Some(t) ==> carve_target(n as int, x as int, y as int, d) == Some(
            (t.0 as int, t.1 as int, t.2 as int, t.3 as int),
        ),
        r is None ==> carve_target(n as int, x as int, y as int, d) is None,
{
    match d {
        Direction::Up => if x >= 1 && y >= 3 {
            Some((x, y - 1, x, y - 2))
        } else {
            None
        },
        Direction::Down => if x >= 1 && n - y > 2 {
            Some((x, y + 1, x, y + 2))
        } else {
            None
        },
        Direction::Left => if y >= 1 && x >= 3 {
            Some((x - 1, y, x - 2, y))
        } else {
            None
        },
        Direction::Right => if y >= 1 && n - x > 2 {
            Some((x + 1, y, x + 2, y))
        } else {
            None
        },
        Direction::Return => None,
    }
}

/// Cell `(cx, cy)` was a wall in `before` and is open in `after`.
pub open spec fn opened(before: Grid, after: Grid, cx: int, cy: int) -> bool {
    &&& after.in_bounds(cx, cy)
    &&& before.cell(cx, cy) == CellKind::Wall
    &&& after.cell(cx, cy) == CellKind::Open
}

/// A walk of at most `k` axis-aligned steps from `(sx, sy)` to `(x, y)` whose
/// cells, but for the first, were all opened between `before` and `after`.
pub open spec fn carved_walk(before: Grid, after: Grid, sx: int, sy: int, x: int, y: int, k: nat) -> bool
    decreases k,
{
    (x == sx && y == sy) || (k > 0 && opened(before, after, x, y) && (carved_walk(
        before,
        after,
        sx,
        sy,
        x - 1,
        y,
        (k - 1) as nat,
    ) || carved_walk(before, after, sx, sy, x + 1, y, (k - 1) as nat) || carved_walk(
        before,
        after,
        sx,
        sy,
        x,
        y - 1,
        (k - 1) as nat,
    ) || carved_walk(before, after, sx, sy, x, y + 1, (k - 1) as nat)))
}

/// Some walk over opened cells joins `(sx, sy)` to `(x, y)`.
pub open spec fn carved_reach(before: Grid, after: Grid, sx: int, sy: int, x: int, y: int) -> bool {
    exists|k: nat| #[trigger] carved_walk(before, after, sx, sy, x, y, k)
}

/// The cells the carving walk stands on: its start, and the opened cells an
/// even number of steps from it on both axes.
pub open spec fn walk_cell(before: Grid, after: Grid, x: int, y: int, cx: int, cy: int) -> bool {
    (cx == x && cy == y) || (opened(before, after, cx, cy) && (cx - x) % 2 == 0 && (cy - y) % 2 == 0)
}

/// Nothing is left to carve from `(cx, cy)` in direction `d`: the far cell is
/// outside the interior, or it or the cell between is not a wall.
pub open spec fn step_settled(g: Grid, cx: int, cy: int, d: Direction) -> bool {
    match carve_target(g.dim() as int, cx, cy, d) {
        Some((mx, my, tx, ty)) => !(g.cell(mx, my) == CellKind::Wall && g.cell(tx, ty) == CellKind::Wall),
        None => true,
    }
}

/// The carving is complete: from no cell the walk stood on could one more
/// passage be carved.
pub open spec fn carve_closed(before: Grid, after: Grid, x: int, y: int) -> bool {
    forall|cx: int, cy: int, d: Direction|
        walk_cell(before, after, x, y, cx, cy) ==> #[trigger] step_settled(after, cx, cy, d)
}

proof fn lemma_carved_walk_step(
    before: Grid,
    after: Grid,
    sx: int,
    sy: int,
    x: int,
    y: int,
    nx: int,
    ny: int,
    k: nat,
)
    requires
        carved_walk(before, after, sx, sy, x, y, k),
        opened(before, after, nx, ny),
        (nx == x - 1 && ny == y) || (nx == x + 1 && ny == y) || (nx == x && ny == y - 1) || (nx
            == x && ny == y + 1),
    ensures
        carved_walk(before, after, sx, sy, nx, ny, k + 1),
{
    assert(((k + 1) - 1) as nat == k);
}

/// Carving more keeps every opened cell opened, and so every walk over them.
proof fn lemma_carved_walk_grows(g0: Grid, g1: Grid, g2: Grid, sx: int, sy: int, x: int, y: int, k: nat)
    requires
        g1.wf(),
        g2.dim() == g1.dim(),
        carved_from(g1@, g2@),
        carved_walk(g0, g1, sx, sy, x, y, k),
    ensures
        carved_walk(g0, g2, sx, sy, x, y, k),
    decreases k,
{
    if x == sx && y == sy {
    } else {
        let n = g1.dim() as int;
        lemma_flat_index_bounds(n, x, y);
        assert(g2@[flat_index(n, x, y)] == g1@[flat_index(n, x, y)] || g1@[flat_index(n, x, y)]
            == CellKind::Wall);
        let j = (k - 1) as nat;
        if carved_walk(g0, g1, sx, sy, x - 1, y, j) {
            lemma_carved_walk_grows(g0, g1, g2, sx, sy, x - 1, y, j);
        } else if carved_walk(g0, g1, sx, sy, x + 1, y, j) {
            lemma_carved_walk_grows(g0, g1, g2, sx, sy, x + 1, y, j);
        } else if carved_walk(g0, g1, sx, sy, x, y - 1, j) {
            lemma_carved_walk_grows(g0, g1, g2, sx, sy, x, y - 1, j);
        } else {
            lemma_carved_walk_grows(g0, g1, g2, sx, sy, x, y + 1, j);
        }
    }
}

/// A walk over opened cells is a walk through passable cells.
pub proof fn lemma_carved_walk_passable(before: Grid, after: Grid, sx: int, sy: int, x: int, y: int, k: nat)
    requires
        carved_walk(before, after, sx, sy, x, y, k),
    ensures
        reach_within(after, sx, sy, x, y, k),
    decreases k,
{
    if x == sx && y == sy {
    } else {
        let j = (k - 1) as nat;
        if carved_walk(before, after, sx, sy, x - 1, y, j) {
            lemma_carved_walk_passable(before, after, sx, sy, x - 1, y, j);
        } else if carved_walk(before, after, sx, sy, x + 1, y, j) {
            lemma_carved_walk_passable(before, after, sx, sy, x + 1, y, j);
        } else if carved_walk(before, after, sx, sy, x, y - 1, j) {
            lemma_carved_walk_passable(before, after, sx, sy, x, y - 1, j);
        } else {
            lemma_carved_walk_passable(before, after, sx, sy, x, y + 1, j);
        }
    }
}

/// A step with nothing left to carve stays so as walls open.
proof fn lemma_settled_grows(g1: Grid, g2: Grid, cx: int, cy: int, d: Direction)
    requires
        g1.wf(),
        g1.in_bounds(cx, cy),
        g2.dim() == g1.dim(),
        carved_from(g1@, g2@),
        step_settled(g1, cx, cy, d),
    ensures
        step_settled(g2, cx, cy, d),
{
    let n = g1.dim() as int;
    if let Some((mx, my, tx, ty)) = carve_target(n, cx, cy, d) {
        lemma_flat_index_bounds(n, mx, my);
        assert(g2@[flat_index(n, mx, my)] == g1@[flat_index(n, mx, my)] || g1@[flat_index(n, mx, my)]
            == CellKind::Wall);
        lemma_flat_index_bounds(n, tx, ty);
        assert(g2@[flat_index(n, tx, ty)] == g1@[flat_index(n, tx, ty)] || g1@[flat_index(n, tx, ty)]
            == CellKind::Wall);
    }
}

/// A cell of the walk with its shuffled directions, `next` of them tried.
struct CarveFrame {
    x: usize,
    y: usize,
    steps: Vec<Direction>,
    next: usize,
}

/// A frame lies in the interior, an even number of steps from the start of
/// the walk on both axes, and holds each of the four moves.
spec fn frame_ok(f: CarveFrame, n: int, x: int, y: int) -> bool {
    &&& 1 <= f.x < n
    &&& 1 <= f.y < n
    &&& (f.x - x) % 2 == 0
    &&& (f.y - y) % 2 == 0
    &&& f.steps@.len() == 4
    &&& f.next <= 4
    &&& forall|d: Direction| d != Direction::Return ==> #[trigger] f.steps@.contains(d)
}

/// Direction `d` from `(cx, cy)` is still to be tried by a frame of the stack.
spec fn step_pending(s: Seq<CarveFrame>, cx: int, cy: int, d: Direction) -> bool {
    exists|i: int, j: int|
        0 <= i < s.len() && s[i].x == cx && s[i].y == cy && s[i].next <= j < s[i].steps@.len()
            && #[trigger] s[i].steps@[j] == d
}

/// Directions left to try on the stack, plus one per frame.
spec fn frames_weight(s: Seq<CarveFrame>) -> nat
    decreases s.len(),
{
    if s.len() == 0 {
        0
    } else {
        frames_weight(s.drop_last()) + (s.last().steps@.len() - s.last().next + 1) as nat
    }
}

fn new_frame(rng: &mut StdRng, x: usize, y: usize) -> (f: CarveFrame)
    ensures
        f.x == x && f.y == y && f.next == 0 && f.steps@.len() == 4,
        forall|d: Direction| d != Direction::Return ==> #[trigger] f.steps@.contains(d),
{
    let mut steps: Vec<Direction> = Vec::new();
    steps.push(Direction::Up);
    steps.push(Direction::Down);
    steps.push(Direction::Left);
    steps.push(Direction::Right);
    let ghost before = steps@;
    shuffle_directions(rng, &mut steps);
    proof {
        assert forall|d: Direction| d != Direction::Return implies #[trigger] steps@.contains(d) by {
            let i: int = match d {
                Direction::Up => 0,
                Direction::Down => 1,
                Direction::Left => 2,
                _ => 3,
            };
            assert(before[i] == d);
            vstd::seq_lib::to_multiset_contains(before, d);
            vstd::seq_lib::to_multiset_contains(steps@, d);
        }
    }
    CarveFrame { x, y, steps, next: 0 }
}

/// The loop invariant of the carving walk, over the board `g` reached from
/// `g0` and the stack `s`.
spec fn carving_state(g0: Grid, g: Grid, x: int, y: int, s: Seq<CarveFrame>) -> bool {
    &&& carving_base(g0, g, x, y, s)
    &&& forall|cx: int, cy: int, d: Direction|
        walk_cell(g0, g, x, y, cx, cy) ==> #[trigger] step_settled(g, cx, cy, d) || step_pending(
            s,
            cx,
            cy,
            d,
        )
}

/// The part of the loop invariant that does not speak of the steps left.
spec fn carving_base(g0: Grid, g: Grid, x: int, y: int, s: Seq<CarveFrame>) -> bool {
    let n = g.dim() as int;
    &&& g.wf()
    &&& g.in_bounds(x, y)
    &&& g.dim() == g0.dim()
    &&& carved_from(g0@, g@)
    &&& forall|i: int|
        0 <= i < s.len() ==> {
            &&& frame_ok(#[trigger] s[i], n, x, y)
            &&& walk_cell(g0, g, x, y, s[i].x as int, s[i].y as int)
            &&& carved_reach(g0, g, x, y, s[i].x as int, s[i].y as int)
        }
    &&& forall|cx: int, cy: int|
        #[trigger] opened(g0, g, cx, cy) ==> 1 <= cx && 1 <= cy && carved_reach(g0, g, x, y, cx, cy)
}

/// Taking the top frame off and, when it has directions left, putting it back
/// with one more tried, where that direction is now settled.
proof fn lemma_carving_retry(
    g0: Grid,
    g: Grid,
    x: int,
    y: int,
    s0: Seq<CarveFrame>,
    s1: Seq<CarveFrame>,
    d0: Direction,
)
    requires
        carving_state(g0, g, x, y, s0),
        s0.len() > 0,
        s1.len() == s0.len(),
        forall|i: int| 0 <= i < s0.len() - 1 ==> s1[i] == s0[i],
        s1.last().x == s0.last().x && s1.last().y == s0.last().y,
        s1.last().steps@ == s0.last().steps@,
        s1.last().next == s0.last().next + 1,
        s0.last().next < 4,
        s0.last().steps@[s0.last().next as int] == d0,
        step_settled(g, s0.last().x as int, s0.last().y as int, d0),
    ensures
        carving_state(g0, g, x, y, s1),
{
    let last = s0.len() - 1;
    assert forall|i: int| 0 <= i < s1.len() implies {
        &&& frame_ok(#[trigger] s1[i], g.dim() as int, x, y)
        &&& walk_cell(g0, g, x, y, s1[i].x as int, s1[i].y as int)
        &&& carved_reach(g0, g, x, y, s1[i].x as int, s1[i].y as int)
    } by {
        assert(frame_ok(s0[i], g.dim() as int, x, y));
        if i == last {
            assert forall|d: Direction| d != Direction::Return implies #[trigger] s1[i].steps@.contains(d) by {
                assert(s0[i].steps@.contains(d));
            }
        }
    }
    assert forall|cx: int, cy: int, d: Direction| walk_cell(g0, g, x, y, cx, cy) implies #[trigger] step_settled(
        g,
        cx,
        cy,
        d,
    ) || step_pending(s1, cx, cy, d) by {
        if !step_settled(g, cx, cy, d) {
            assert(step_pending(s0, cx, cy, d));
            let (i, j) = choose|i: int, j: int|
                0 <= i < s0.len() && s0[i].x == cx && s0[i].y == cy && s0[i].next <= j
                    < s0[i].steps@.len() && #[trigger] s0[i].steps@[j] == d;
            if i < last {
                assert(s1[i] == s0[i]);
                assert(s1[i].steps@[j] == d);
            } else {
                assert(j != s0[i].next);
                assert(s1[i].steps@[j] == d);
            }
        }
    }
}

/// Taking off a frame with every direction tried.
proof fn lemma_carving_pop(g0: Grid, g: Grid, x: int, y: int, s0: Seq<CarveFrame>)
    requires
        carving_state(g0, g, x, y, s0),
        s0.len() > 0,
        s0.last().next >= s0.last().steps@.len(),
    ensures
        carving_state(g0, g, x, y, s0.drop_last()),
{
    let s1 = s0.drop_last();
    assert forall|i: int| 0 <= i < s1.len() implies {
        &&& frame_ok(#[trigger] s1[i], g.dim() as int, x, y)
        &&& walk_cell(g0, g, x, y, s1[i].x as int, s1[i].y as int)
        &&& carved_reach(g0, g, x, y, s1[i].x as int, s1[i].y as int)
    } by {
        assert(s1[i] == s0[i]);
    }
    assert forall|cx: int, cy: int, d: Direction| walk_cell(g0, g, x, y, cx, cy) implies #[trigger] step_settled(
        g,
        cx,
        cy,
        d,
    ) || step_pending(s1, cx, cy, d) by {
        if !step_settled(g, cx, cy, d) {
            assert(step_pending(s0, cx, cy, d));
            let (i, j) = choose|i: int, j: int|
                0 <= i < s0.len() && s0[i].x == cx && s0[i].y == cy && s0[i].next <= j
                    < s0[i].steps@.len() && #[trigger] s0[i].steps@[j] == d;
            assert(i < s1.len());
            assert(s1[i] == s0[i]);
            assert(s1[i].steps@[j] == d);
        }
    }
}

/// Opening the cell between the top frame's cell and a wall two steps away,
/// and that wall, then pushing a frame for the far cell.
proof fn lemma_carving_open(
    g0: Grid,
    g: Grid,
    g2: Grid,
    x: int,
    y: int,
    s1: Seq<CarveFrame>,
    s2: Seq<CarveFrame>,
    d0: Direction,
    mx: int,
    my: int,
    tx: int,
    ty: int,
)
    requires
        carving_base(g0, g, x, y, s1),
        s1.len() > 0,
        carve_target(g.dim() as int, s1.last().x as int, s1.last().y as int, d0) == Some(
            (mx, my, tx, ty),
        ),
        g.cell(mx, my) == CellKind::Wall,
        g.cell(tx, ty) == CellKind::Wall,
        g2.dim() == g.dim(),
        g2@ == g@.update(flat_index(g.dim() as int, mx, my), CellKind::Open).update(
            flat_index(g.dim() as int, tx, ty),
            CellKind::Open,
        ),
        s2.len() == s1.len() + 1,
        forall|i: int| 0 <= i < s1.len() ==> s2[i] == s1[i],
        s2.last().x == tx && s2.last().y == ty && s2.last().next == 0 && s2.last().steps@.len() == 4,
        forall|d: Direction| d != Direction::Return ==> #[trigger] s2.last().steps@.contains(d),
        // the step just tried from the top frame is now settled once both cells open
        forall|cx: int, cy: int, d: Direction|
            walk_cell(g0, g, x, y, cx, cy) && !(cx == s1.last().x && cy == s1.last().y && d == d0)
                ==> #[trigger] step_settled(g, cx, cy, d) || step_pending(s1, cx, cy, d),
    ensures
        carving_state(g0, g2, x, y, s2),
{
    let n = g.dim() as int;
    let f = s1.last();
    let fx = f.x as int;
    let fy = f.y as int;
    let fm = flat_index(n, mx, my);
    let ft = flat_index(n, tx, ty);
    assert(frame_ok(s1[s1.len() - 1], n, x, y));
    assert(walk_cell(g0, g, x, y, fx, fy));
    lemma_flat_index_bounds(n, mx, my);
    lemma_flat_index_bounds(n, tx, ty);
    if fm == ft {
        lemma_flat_index_injective(n, mx, my, tx, ty);
    }
    assert(g2.wf());
    assert forall|i: int| 0 <= i < g@.len() implies #[trigger] g2@[i] == g@[i] || (g@[i] == CellKind::Wall
        && g2@[i] == CellKind::Open) by {}
    assert(carved_from(g@, g2@));
    assert forall|i: int| 0 <= i < g0@.len() implies #[trigger] g2@[i] == g0@[i] || (g0@[i]
        == CellKind::Wall && g2@[i] == CellKind::Open) by {
        assert(g@[i] == g0@[i] || (g0@[i] == CellKind::Wall && g@[i] == CellKind::Open));
    }
    // the cells opened now were walls from the start
    assert(g0.cell(mx, my) == CellKind::Wall) by {
        assert(g@[fm] == g0@[fm] || g0@[fm] == CellKind::Wall);
    }
    assert(g0.cell(tx, ty) == CellKind::Wall) by {
        assert(g@[ft] == g0@[ft] || g0@[ft] == CellKind::Wall);
    }
    assert(opened(g0, g2, mx, my));
    assert(opened(g0, g2, tx, ty));
    // walks carry over, and reach the two new cells
    assert forall|cx: int, cy: int| carved_reach(g0, g, x, y, cx, cy) implies carved_reach(g0, g2, x, y, cx, cy) by {
        let k = choose|k: nat| #[trigger] carved_walk(g0, g, x, y, cx, cy, k);
        lemma_carved_walk_grows(g0, g, g2, x, y, cx, cy, k);
    }
    assert(carved_reach(g0, g, x, y, fx, fy));
    let kf = choose|k: nat| #[trigger] carved_walk(g0, g2, x, y, fx, fy, k);
    lemma_carved_walk_step(g0, g2, x, y, fx, fy, mx, my, kf);
    lemma_carved_walk_step(g0, g2, x, y, mx, my, tx, ty, kf + 1);
    // opened cells of `g2` are those of `g`, and the two new ones
    assert forall|cx: int, cy: int| opened(g0, g2, cx, cy) implies (opened(g0, g, cx, cy) || (cx == mx
        && cy == my) || (cx == tx && cy == ty)) by {
        lemma_flat_index_bounds(n, cx, cy);
        let fc = flat_index(n, cx, cy);
        if fc == fm {
            lemma_flat_index_injective(n, cx, cy, mx, my);
        } else if fc == ft {
            lemma_flat_index_injective(n, cx, cy, tx, ty);
        }
    }
    assert forall|cx: int, cy: int| #[trigger] opened(g0, g2, cx, cy) implies 1 <= cx && 1 <= cy
        && carved_reach(g0, g2, x, y, cx, cy) by {
        if opened(g0, g, cx, cy) {
        } else if cx == mx && cy == my {
        } else {
        }
    }
    // frames
    assert forall|i: int| 0 <= i < s2.len() implies {
        &&& frame_ok(#[trigger] s2[i], n, x, y)
        &&& walk_cell(g0, g2, x, y, s2[i].x as int, s2[i].y as int)
        &&& carved_reach(g0, g2, x, y, s2[i].x as int, s2[i].y as int)
    } by {
        if i < s1.len() {
            assert(s2[i] == s1[i]);
            assert(frame_ok(s1[i], n, x, y));
            let c = s1[i];
            assert(walk_cell(g0, g, x, y, c.x as int, c.y as int));
            if !(c.x == x && c.y == y) {
                assert(opened(g0, g, c.x as int, c.y as int));
                lemma_flat_index_bounds(n, c.x as int, c.y as int);
                assert(g2@[flat_index(n, c.x as int, c.y as int)] == g@[flat_index(n, c.x as int, c.y as int)] || g@[flat_index(n, c.x as int, c.y as int)] == CellKind::Wall);
            }
        } else {
            assert(s2[i] == s2.last());
        }
    }
    // every step from a walk cell is settled or still to be tried
    assert forall|cx: int, cy: int, d: Direction| walk_cell(g0, g2, x, y, cx, cy) implies #[trigger] step_settled(
        g2,
        cx,
        cy,
        d,
    ) || step_pending(s2, cx, cy, d) by {
        if cx == tx && cy == ty && !(cx == x && cy == y) {
            if d != Direction::Return {
                let last = s2.len() - 1;
                assert(s2[last].steps@.contains(d));
                let j = choose|j: int| 0 <= j < s2[last].steps@.len() && s2[last].steps@[j] == d;
                assert(s2[last].steps@[j] == d);
            }
        } else if cx == fx && cy == fy && d == d0 {
            assert(g2.cell(mx, my) == CellKind::Open);
        } else {
            assert(walk_cell(g0, g, x, y, cx, cy)) by {
                if !(cx == x && cy == y) {
                    assert(opened(g0, g, cx, cy) || (cx == mx && cy == my) || (cx == tx && cy == ty));
                    // the cell between has an odd offset on one axis
                    assert(!(cx == mx && cy == my));
                }
            }
            if step_settled(g, cx, cy, d) {
                lemma_settled_grows(g, g2, cx, cy, d);
            } else {
                let (i, j) = choose|i: int, j: int|
                    0 <= i < s1.len() && s1[i].x == cx && s1[i].y == cy && s1[i].next <= j
                        < s1[i].steps@.len() && #[trigger] s1[i].steps@[j] == d;
                assert(s2[i] == s1[i]);
                assert(s2[i].steps@[j] == d);
            }
        }
    }
}

/// Carves passages by a depth-first walk from `(x, y)`: from each cell, in a
/// random order of the four directions, when the cell two steps away lies in
/// the interior and it and the cell between are walls, both become open and
/// the walk goes on from there. An explicit stack replaces recursion.
///
/// Whatever order the directions come in: only walls of the interior open;
/// each opened cell is joined to `(x, y)` by a walk over opened cells; and
/// the walk is complete, with no passage left to carve from any cell it
/// stood on.
fn carve(rng: &mut StdRng, grid: &mut Grid, x: usize, y: usize)
    requires
        old(grid).wf(),
        1 <= x < old(grid).dim(),
        1 <= y < old(grid).dim(),
    ensures
        final(grid).wf(),
        final(grid).dim() == old(grid).dim(),
        carved_from(old(grid)@, final(grid)@),
        forall|cx: int, cy: int|
            #[trigger] opened(*old(grid), *final(grid), cx, cy) ==> 1 <= cx && 1 <= cy && carved_reach(
                *old(grid),
                *final(grid),
                x as int,
                y as int,
                cx,
                cy,
            ),
        carve_closed(*old(grid), *final(grid), x as int, y as int),
{
    let n = grid.size();
    let ghost gin = *grid;
    let mut stack: Vec<CarveFrame> = Vec::new();
    let first = new_frame(rng, x, y);
    stack.push(first);
    proof {
        let g = *grid;
        assert(carved_walk(gin, g, x as int, y as int, x as int, y as int, 0));
        assert forall|i: int| 0 <= i < gin@.len() implies #[trigger] g@[i] == gin@[i] || (gin@[i]
            == CellKind::Wall && g@[i] == CellKind::Open) by {}
        assert(stack@[0] == first);
        assert forall|cx: int, cy: int, d: Direction| walk_cell(gin, g, x as int, y as int, cx, cy) implies #[trigger] step_settled(
            g,
            cx,
            cy,
            d,
        ) || step_pending(stack@, cx, cy, d) by {
            if d != Direction::Return && cx == x && cy == y {
                assert(first.steps@.contains(d));
                let j = choose|j: int| 0 <= j < first.steps@.len() && first.steps@[j] == d;
                assert(stack@[0].steps@[j] == d);
            }
        }
    }
    while stack.len() > 0
        invariant
            carving_state(gin, *grid, x as int, y as int, stack@),
            grid.dim() == n,
        decreases 6 * count_of(grid@, CellKind::Wall) + frames_weight(stack@),
    {
        let ghost s0 = stack@;
        let frame = stack.pop().unwrap();
        proof {
            assert(frame == s0.last());
            assert(stack@ == s0.drop_last());
            assert(frame_ok(s0[s0.len() - 1], n as int, x as int, y as int));
            assert(frames_weight(s0) == frames_weight(stack@) + (frame.steps@.len() - frame.next + 1) as nat);
        }
        if frame.next < frame.steps.len() {
            let d = frame.steps[frame.next];
            let fx = frame.x;
            let fy = frame.y;
            let ghost fsteps = frame.steps@;
            let ghost fnext = frame.next;
            let back = CarveFrame { x: fx, y: fy, steps: frame.steps, next: frame.next + 1 };
            stack.push(back);
            let ghost s1 = stack@;
            proof {
                assert(stack@.drop_last() == s0.drop_last());
                assert(frames_weight(stack@) + 1 == frames_weight(s0));
            }
            let mut carved = false;
            match carve_step(n, fx, fy, d) {
                Some((mx, my, tx, ty)) => {
                    if grid.get(tx, ty) == CellKind::Wall && grid.get(mx, my) == CellKind::Wall {
                        let ghost g = *grid;
                        let ghost c0 = grid@;
                        proof {
                            lemma_flat_index_bounds(n as int, mx as int, my as int);
                            lemma_flat_index_bounds(n as int, tx as int, ty as int);
                            if flat_index(n as int, mx as int, my as int) == flat_index(n as int, tx as int, ty as int) {
                                lemma_flat_index_injective(n as int, mx as int, my as int, tx as int, ty as int);
                            }
                            lemma_count_of_update(c0, flat_index(n as int, mx as int, my as int), CellKind::Open);
                            // the other steps are as they were
                            assert forall|cx: int, cy: int, dd: Direction|
                                walk_cell(gin, g, x as int, y as int, cx, cy) && !(cx == s1.last().x && cy == s1.last().y && dd == d)
                                implies #[trigger] step_settled(g, cx, cy, dd) || step_pending(s1, cx, cy, dd) by {
                                if !step_settled(g, cx, cy, dd) {
                                    let (i, j) = choose|i: int, j: int|
                                        0 <= i < s0.len() && s0[i].x == cx && s0[i].y == cy && s0[i].next <= j
                                            < s0[i].steps@.len() && #[trigger] s0[i].steps@[j] == dd;
                                    if i < s0.len() - 1 {
                                        assert(s1[i] == s0[i]);
                                        assert(s1[i].steps@[j] == dd);
                                    } else {
                                        assert(j != fnext);
                                        assert(s1[i].steps@[j] == dd);
                                    }
                                }
                            }
                            assert forall|i: int| 0 <= i < s1.len() implies {
                                &&& frame_ok(#[trigger] s1[i], n as int, x as int, y as int)
                                &&& walk_cell(gin, g, x as int, y as int, s1[i].x as int, s1[i].y as int)
                                &&& carved_reach(gin, g, x as int, y as int, s1[i].x as int, s1[i].y as int)
                            } by {
                                assert(frame_ok(s0[i], n as int, x as int, y as int));
                                if i == s1.len() - 1 {
                                    assert forall|dd: Direction| dd != Direction::Return implies #[trigger] s1[i].steps@.contains(dd) by {
                                        assert(s0[i].steps@.contains(dd));
                                    }
                                } else {
                                    assert(s1[i] == s0[i]);
                                }
                            }
                            assert(carving_base(gin, g, x as int, y as int, s1));
                        }
                        grid.set(mx, my, CellKind::Open);
                        let ghost c1 = grid@;
                        proof {
                            lemma_count_of_update(c1, flat_index(n as int, tx as int, ty as int), CellKind::Open);
                        }
                        grid.set(tx, ty, CellKind::Open);
                        let next = new_frame(rng, tx, ty);
                        stack.push(next);
                        proof {
                            assert(stack@.drop_last() == s1);
                            assert(frames_weight(stack@) == frames_weight(s1) + 5);
                            assert(count_of(grid@, CellKind::Wall) + 2 == count_of(c0, CellKind::Wall));
                            assert forall|i: int| 0 <= i < s1.len() implies stack@[i] == s1[i] by {}
                            lemma_carving_open(gin, g, *grid, x as int, y as int, s1, stack@, d,
                                mx as int, my as int, tx as int, ty as int);
                        }
                        carved = true;
                    }
                },
                None => {},
            }
            if !carved {
                proof {
                    lemma_carving_retry(gin, *grid, x as int, y as int, s0, s1, d);
                }
            }
        } else {
            proof {
                lemma_carving_pop(gin, *grid, x as int, y as int, s0);
            }
        }
    }
}

/// Cell `i` holds kind `k`, and no other cell does.
pub open spec fn only_at(cells: Seq<CellKind>, k: CellKind, i: int) -> bool {
    &&& 0 <= i < cells.len()
    &&& cells[i] == k
    &&& forall|j: int| 0 <= j < cells.len() && #[trigger] cells[j] == k ==> j == i
}

/// A generated maze: the board with the cells of its start, exit and hazard.
pub struct Maze {
    pub grid: Grid,
    pub start: GridPosition,
    pub exit: GridPosition,
    pub hazard: GridPosition,
}

impl Maze {
    /// The board is well formed; the exit is the corner `(n - 1, n - 1)`; the
    /// start and the hazard lie in the interior; start, exit and hazard are
    /// three distinct cells, each the only cell of its kind; and every cell of
    /// the first row and the first column is a wall.
    pub open spec fn well_placed(&self) -> bool {
        let n = self.grid.dim() as int;
        let cells = self.grid@;
        &&& self.grid.wf()
        &&& 3 <= n <= MAX_SIZE
        &&& pos_of(self.exit) == exit_of(n)
        &&& 1 <= self.start.x < n && 1 <= self.start.y < n
        &&& 1 <= self.hazard.x < n && 1 <= self.hazard.y < n
        &&& pos_of(self.start) != pos_of(self.exit)
        &&& pos_of(self.start) != pos_of(self.hazard)
        &&& pos_of(self.hazard) != pos_of(self.exit)
        &&& only_at(cells, CellKind::Start, flat_index(n, self.start.x as int, self.start.y as int))
        &&& only_at(cells, CellKind::Exit, flat_index(n, self.exit.x as int, self.exit.y as int))
        &&& only_at(cells, CellKind::Hazard, flat_index(n, self.hazard.x as int, self.hazard.y as int))
        &&& forall|cx: int, cy: int|
            self.grid.in_bounds(cx, cy) && (cx == 0 || cy == 0) ==> #[trigger] self.grid.cell(cx, cy)
                == CellKind::Wall
    }

    /// A well-placed board whose exit can be reached from the start and from
    /// every open cell.
    pub open spec fn valid(&self) -> bool {
        &&& self.well_placed()
        &&& exit_reachable(self.grid, self.start.x as int, self.start.y as int)
        &&& forall|cx: int, cy: int|
            self.grid.in_bounds(cx, cy) && #[trigger] self.grid.cell(cx, cy) == CellKind::Open
                ==> exit_reachable(self.grid, cx, cy)
    }
}

/// One try: a board of walls with the exit in its corner, start and hazard
/// drawn from the interior, passages carved from the start. Kept when the
/// exit can be reached from the start; otherwise the rejected board comes
/// back as the error.
fn attempt(rng: &mut StdRng, size: usize) -> (r: Result<Maze, Maze>)
    requires
        3 <= size <= MAX_SIZE,
    ensures
        r matches Ok(m) ==> m.valid() && m.grid.dim() == size,
        r matches Err(m) ==> m.well_placed() && m.grid.dim() == size && !exit_reachable(
            m.grid,
            m.start.x as int,
            m.start.y as int,
        ),
{
    let m: usize = size - 1;
    proof {
        assert(m * m <= 32767 * 32767) by (nonlinear_arith)
            requires
                m <= 32767,
        ;
        assert(m * m >= 4) by (nonlinear_arith)
            requires
                m >= 2,
        ;
    }
    let cells: usize = m * m;
    let start_draw = random_below(rng, cells - 1);
    let hazard_draw = random_below(rng, cells - 2);
    let (start, hazard) = place_start_and_hazard(size, start_draw, hazard_draw);
    let exit = GridPosition { x: m as i16, y: m as i16 };
    let sx = start.x as usize;
    let sy = start.y as usize;
    let hx = hazard.x as usize;
    let hy = hazard.y as usize;
    let mut grid = Grid::new(size, CellKind::Wall);
    grid.set(m, m, CellKind::Exit);
    grid.set(sx, sy, CellKind::Start);
    grid.set(hx, hy, CellKind::Hazard);
    let ghost n = size as int;
    let ghost fe = flat_index(n, m as int, m as int);
    let ghost fs = flat_index(n, sx as int, sy as int);
    let ghost fh = flat_index(n, hx as int, hy as int);
    let ghost g1 = grid@;
    proof {
        lemma_flat_index_bounds(n, m as int, m as int);
        lemma_flat_index_bounds(n, sx as int, sy as int);
        lemma_flat_index_bounds(n, hx as int, hy as int);
        if fe == fs {
            lemma_flat_index_injective(n, m as int, m as int, sx as int, sy as int);
        }
        if fe == fh {
            lemma_flat_index_injective(n, m as int, m as int, hx as int, hy as int);
        }
        if fs == fh {
            lemma_flat_index_injective(n, sx as int, sy as int, hx as int, hy as int);
        }
        assert forall|j: int| 0 <= j < g1.len() && j != fe && j != fs && j != fh implies g1[j]
            == CellKind::Wall by {}
        assert(g1[fe] == CellKind::Exit);
        assert(g1[fs] == CellKind::Start);
        assert(g1[fh] == CellKind::Hazard);
    }
    let ghost gpre = grid;
    carve(rng, &mut grid, sx, sy);
    let found = is_reachable(&grid, sx, sy);
    let maze = Maze { grid, start, exit, hazard };
    proof {
        {
            let g2 = maze.grid@;
            assert forall|j: int| 0 <= j < g2.len() && #[trigger] g2[j] == CellKind::Start implies j == fs by {
                assert(g2[j] == g1[j] || g1[j] == CellKind::Wall);
            }
            assert forall|j: int| 0 <= j < g2.len() && #[trigger] g2[j] == CellKind::Exit implies j == fe by {
                assert(g2[j] == g1[j] || g1[j] == CellKind::Wall);
            }
            assert forall|j: int| 0 <= j < g2.len() && #[trigger] g2[j] == CellKind::Hazard implies j == fh by {
                assert(g2[j] == g1[j] || g1[j] == CellKind::Wall);
            }
            assert(g2[fs] == g1[fs]);
            assert(g2[fe] == g1[fe]);
            assert(g2[fh] == g1[fh]);
            let gg = maze.grid;
            assert forall|cx: int, cy: int| gg.in_bounds(cx, cy) && #[trigger] gg.cell(cx, cy) == CellKind::Open implies reachable(
                gg,
                sx as int,
                sy as int,
                cx,
                cy,
            ) by {
                lemma_flat_index_bounds(n, cx, cy);
                assert(opened(gpre, gg, cx, cy));
                let k = choose|k: nat| #[trigger] carved_walk(gpre, gg, sx as int, sy as int, cx, cy, k);
                lemma_carved_walk_passable(gpre, gg, sx as int, sy as int, cx, cy, k);
            }
            assert forall|cx: int, cy: int| gg.in_bounds(cx, cy) && (cx == 0 || cy == 0) implies #[trigger] gg.cell(cx, cy)
                == CellKind::Wall by {
                let fc = flat_index(n, cx, cy);
                lemma_flat_index_bounds(n, cx, cy);
                if fc == fe {
                    lemma_flat_index_injective(n, cx, cy, m as int, m as int);
                }
                if fc == fs {
                    lemma_flat_index_injective(n, cx, cy, sx as int, sy as int);
                }
                if fc == fh {
                    lemma_flat_index_injective(n, cx, cy, hx as int, hy as int);
                }
                assert(g1[fc] == CellKind::Wall);
                assert(!opened(gpre, gg, cx, cy));
                assert(g2[fc] == g1[fc] || g1[fc] == CellKind::Wall);
            }
            assert(passable(gg, sx as int, sy as int));
            if found {
                let k2 = choose|k: nat| #[trigger] reach_within(gg, sx as int, sy as int, n - 1, n - 1, k);
                assert forall|cx: int, cy: int| gg.in_bounds(cx, cy) && #[trigger] gg.cell(cx, cy) == CellKind::Open implies exit_reachable(
                    gg,
                    cx,
                    cy,
                ) by {
                    assert(reachable(gg, sx as int, sy as int, cx, cy));
                    let k1 = choose|k: nat| #[trigger] reach_within(gg, sx as int, sy as int, cx, cy, k);
                    lemma_reach_reverse(gg, sx as int, sy as int, cx, cy, k1);
                    lemma_reach_join(gg, cx, cy, sx as int, sy as int, n - 1, n - 1, k1, k2);
                }
            }
        }
    }
    if found {
        Ok(maze)
    } else {
        Err(maze)
    }
}

/// Generates a maze of `size × size` cells, trying at most `max_attempts`
/// boards. Fails with `GenerationExhausted` when no try gave a board whose
/// exit can be reached from its start; a board smaller than `3 × 3` has no
/// room for three distinct cells, so no try is made.
pub fn generate(rng: &mut StdRng, size: usize, max_attempts: usize) -> (r: Result<Maze, MazeError>)
    requires
        size <= MAX_SIZE,
    ensures
        r matches Ok(m) ==> m.valid() && m.grid.dim() == size,
        r matches Err(e) ==> e == MazeError::GenerationExhausted,
        size < 3 || max_attempts == 0 ==> r is Err,
{
    if size < 3 {
        return Err(MazeError::GenerationExhausted);
    }
    let mut i: usize = 0;
    while i < max_attempts
        invariant
            3 <= size <= MAX_SIZE,
        decreases max_attempts - i,
    {
        match attempt(rng, size) {
            Ok(m) => {
                return Ok(m);
            },
            Err(_) => {},
        }
        i = i + 1;
    }
    Err(MazeError::GenerationExhausted)
}

} // verus!
