//! Breadth-first search from a start cell to the exit corner.
use vstd::prelude::*;

use crate::grid::{
    CellKind, Grid, count_of, flat_index, lemma_count_of_update, lemma_flat_index_bounds,
    lemma_flat_index_injective,
};

verus! {

/// A cell that a walk may enter: on the board, and neither a wall nor the hazard.
pub open spec fn passable(g: Grid, x: int, y: int) -> bool {
    &&& g.in_bounds(x, y)
    &&& g.cell(x, y) != CellKind::Wall
    &&& g.cell(x, y) != CellKind::Hazard
}

/// `(x, y)` is `(sx, sy)`, or is passable and one step away from a cell that
/// can be reached from `(sx, sy)` within `k - 1` steps.
pub open spec fn reach_within(g: Grid, sx: int, sy: int, x: int, y: int, k: nat) -> bool
    decreases k,
{
    (x == sx && y == sy) || (k > 0 && passable(g, x, y) && (reach_within(g, sx, sy, x - 1, y, (k - 1) as nat)
        || reach_within(g, sx, sy, x + 1, y, (k - 1) as nat)
        || reach_within(g, sx, sy, x, y - 1, (k - 1) as nat)
        || reach_within(g, sx, sy, x, y + 1, (k - 1) as nat)))
}

/// Some walk of axis-aligned steps through passable cells leads from
/// `(sx, sy)` to `(x, y)`.
pub open spec fn reachable(g: Grid, sx: int, sy: int, x: int, y: int) -> bool {
    exists|k: nat| #[trigger] reach_within(g, sx, sy, x, y, k)
}

/// The exit corner `(n - 1, n - 1)` can be reached from `(sx, sy)`.
pub open spec fn exit_reachable(g: Grid, sx: int, sy: int) -> bool {
    reachable(g, sx, sy, g.dim() - 1, g.dim() - 1)
}

/// Every passable neighbour of `(x, y)` is marked in `vis`.
spec fn steps_closed(g: Grid, vis: Seq<bool>, x: int, y: int) -> bool {
    let n = g.dim() as int;
    &&& passable(g, x - 1, y) ==> vis[flat_index(n, x - 1, y)]
    &&& passable(g, x + 1, y) ==> vis[flat_index(n, x + 1, y)]
    &&& passable(g, x, y - 1) ==> vis[flat_index(n, x, y - 1)]
    &&& passable(g, x, y + 1) ==> vis[flat_index(n, x, y + 1)]
}

/// The marked cells are closed under steps into passable cells.
spec fn marks_closed(g: Grid, vis: Seq<bool>) -> bool {
    forall|x: int, y: int|
        g.in_bounds(x, y) && vis[flat_index(g.dim() as int, x, y)] ==> #[trigger] steps_closed(
            g,
            vis,
            x,
            y,
        )
}

/// One step from a reached cell into a passable neighbour reaches it too.
proof fn lemma_reach_step(g: Grid, sx: int, sy: int, x: int, y: int, nx: int, ny: int, k: nat)
    requires
        reach_within(g, sx, sy, x, y, k),
        passable(g, nx, ny),
        (nx == x - 1 && ny == y) || (nx == x + 1 && ny == y) || (nx == x && ny == y - 1) || (nx
            == x && ny == y + 1),
    ensures
        reach_within(g, sx, sy, nx, ny, k + 1),
{
    assert(((k + 1) - 1) as nat == k);
}

/// Whatever can be reached from a marked start lies inside a set of marks
/// closed under steps.
proof fn lemma_reach_stays_marked(g: Grid, vis: Seq<bool>, sx: int, sy: int, x: int, y: int, k: nat)
    requires
        g.wf(),
        vis.len() == g.dim() * g.dim(),
        g.in_bounds(sx, sy),
        vis[flat_index(g.dim() as int, sx, sy)],
        marks_closed(g, vis),
        reach_within(g, sx, sy, x, y, k),
    ensures
        g.in_bounds(x, y),
        vis[flat_index(g.dim() as int, x, y)],
    decreases k,
{
    if x == sx && y == sy {
    } else {
        let j = (k - 1) as nat;
        if reach_within(g, sx, sy, x - 1, y, j) {
            lemma_reach_stays_marked(g, vis, sx, sy, x - 1, y, j);
            assert(steps_closed(g, vis, x - 1, y));
        } else if reach_within(g, sx, sy, x + 1, y, j) {
            lemma_reach_stays_marked(g, vis, sx, sy, x + 1, y, j);
            assert(steps_closed(g, vis, x + 1, y));
        } else if reach_within(g, sx, sy, x, y - 1, j) {
            lemma_reach_stays_marked(g, vis, sx, sy, x, y - 1, j);
            assert(steps_closed(g, vis, x, y - 1));
        } else {
            lemma_reach_stays_marked(g, vis, sx, sy, x, y + 1, j);
            assert(steps_closed(g, vis, x, y + 1));
        }
    }
}

/// Marks cell `(x, y)` and queues it, if it is passable and not yet marked.
fn visit(
    maze: &Grid,
    visited: &mut Vec<bool>,
    queue: &mut Vec<(usize, usize)>,
    x: usize,
    y: usize,
)
    requires
        maze.wf(),
        maze.in_bounds(x as int, y as int),
        old(visited)@.len() == maze.dim() * maze.dim(),
    ensures
        ({
            let f = flat_index(maze.dim() as int, x as int, y as int);
            if passable(*maze, x as int, y as int) && !old(visited)@[f] {
                &&& final(visited)@ == old(visited)@.update(f, true)
                &&& final(queue)@ == old(queue)@.push((x, y))
            } else {
                &&& final(visited)@ == old(visited)@
                &&& final(queue)@ == old(queue)@
            }
        }),
{
    let n = maze.size();
    proof {
        lemma_flat_index_bounds(n as int, x as int, y as int);
    }
    let f: usize = x * n + y;
    let k = maze.get(x, y);
    if k != CellKind::Wall && k != CellKind::Hazard && !visited[f] {
        visited.set(f, true);
        queue.push((x, y));
    }
}

/// The invariant of the search between two dequeues: `head` cells have been
/// expanded, every queued cell is marked and reachable, every mark is queued,
/// expanded cells have all passable neighbours marked, and the exit has not
/// been expanded.
spec fn search_state(
    g: Grid,
    sx: int,
    sy: int,
    vis: Seq<bool>,
    queue: Seq<(usize, usize)>,
    head: int,
) -> bool {
    let n = g.dim() as int;
    &&& vis.len() == n * n
    &&& 0 <= head <= queue.len()
    &&& vis[flat_index(n, sx, sy)]
    &&& forall|i: int|
        0 <= i < queue.len() ==> {
            let c = #[trigger] queue[i];
            &&& g.in_bounds(c.0 as int, c.1 as int)
            &&& vis[flat_index(n, c.0 as int, c.1 as int)]
            &&& reachable(g, sx, sy, c.0 as int, c.1 as int)
        }
    &&& forall|j: int|
        0 <= j < n * n && #[trigger] vis[j] ==> exists|i: int|
            0 <= i < queue.len() && flat_index(n, queue[i].0 as int, queue[i].1 as int) == j
    &&& forall|i: int| 0 <= i < head ==> steps_closed(g, vis, (#[trigger] queue[i]).0 as int, queue[i].1 as int)
    &&& forall|i: int| 0 <= i < head ==> !((#[trigger] queue[i]).0 == n - 1 && queue[i].1 == n - 1)
}

/// What expanding a cell reached within `k` steps may do to the marks and the
/// queue: marks only grow, the queue only grows at its end, each queued cell is
/// a marked cell reached within `k + 1` steps, and each new mark is queued.
spec fn grown(
    g: Grid,
    sx: int,
    sy: int,
    k: nat,
    v0: Seq<bool>,
    q0: Seq<(usize, usize)>,
    v: Seq<bool>,
    q: Seq<(usize, usize)>,
) -> bool {
    let n = g.dim() as int;
    &&& v.len() == v0.len()
    &&& forall|j: int| 0 <= j < v0.len() && v0[j] ==> #[trigger] v[j]
    &&& q.len() >= q0.len()
    &&& q.subrange(0, q0.len() as int) == q0
    &&& forall|i: int|
        q0.len() <= i < q.len() ==> {
            let c = #[trigger] q[i];
            &&& g.in_bounds(c.0 as int, c.1 as int)
            &&& v[flat_index(n, c.0 as int, c.1 as int)]
            &&& reach_within(g, sx, sy, c.0 as int, c.1 as int, k + 1)
        }
    &&& forall|j: int|
        0 <= j < v0.len() && #[trigger] v[j] && !v0[j] ==> exists|i: int|
            q0.len() <= i < q.len() && flat_index(n, q[i].0 as int, q[i].1 as int) == j
    &&& count_of(v, false) + q.len() == count_of(v0, false) + q0.len()
}

proof fn lemma_grown_visit(
    g: Grid,
    sx: int,
    sy: int,
    k: nat,
    x: int,
    y: int,
    nx: usize,
    ny: usize,
    v0: Seq<bool>,
    q0: Seq<(usize, usize)>,
    v1: Seq<bool>,
    q1: Seq<(usize, usize)>,
    v2: Seq<bool>,
    q2: Seq<(usize, usize)>,
)
    requires
        g.wf(),
        v0.len() == g.dim() * g.dim(),
        grown(g, sx, sy, k, v0, q0, v1, q1),
        reach_within(g, sx, sy, x, y, k),
        g.in_bounds(nx as int, ny as int),
        (nx == x - 1 && ny == y) || (nx == x + 1 && ny == y) || (nx == x && ny == y - 1) || (nx
            == x && ny == y + 1),
        ({
            let f = flat_index(g.dim() as int, nx as int, ny as int);
            if passable(g, nx as int, ny as int) && !v1[f] {
                &&& v2 == v1.update(f, true)
                &&& q2 == q1.push((nx, ny))
            } else {
                &&& v2 == v1
                &&& q2 == q1
            }
        }),
    ensures
        grown(g, sx, sy, k, v0, q0, v2, q2),
        forall|j: int| 0 <= j < v1.len() && v1[j] ==> #[trigger] v2[j],
        passable(g, nx as int, ny as int) ==> v2[flat_index(g.dim() as int, nx as int, ny as int)],
{
    let n = g.dim() as int;
    let f = flat_index(n, nx as int, ny as int);
    lemma_flat_index_bounds(n, nx as int, ny as int);
    if passable(g, nx as int, ny as int) && !v1[f] {
        lemma_count_of_update(v1, f, true);
        lemma_reach_step(g, sx, sy, x, y, nx as int, ny as int, k);
        assert(q2.subrange(0, q0.len() as int) == q1.subrange(0, q0.len() as int));
        assert forall|i: int| q0.len() <= i < q2.len() implies {
            let c = #[trigger] q2[i];
            &&& g.in_bounds(c.0 as int, c.1 as int)
            &&& v2[flat_index(n, c.0 as int, c.1 as int)]
            &&& reach_within(g, sx, sy, c.0 as int, c.1 as int, k + 1)
        } by {
            if i < q1.len() {
                assert(q2[i] == q1[i]);
                let c = q1[i];
                lemma_flat_index_bounds(n, c.0 as int, c.1 as int);
            }
        }
        assert forall|j: int| 0 <= j < v0.len() && #[trigger] v2[j] && !v0[j] implies exists|i: int|
            q0.len() <= i < q2.len() && flat_index(n, q2[i].0 as int, q2[i].1 as int) == j by {
            if j == f {
                assert(q2[q1.len() as int] == (nx, ny));
            } else {
                assert(v1[j]);
                let i = choose|i: int|
                    q0.len() <= i < q1.len() && flat_index(n, q1[i].0 as int, q1[i].1 as int) == j;
                assert(q2[i] == q1[i]);
            }
        }
    }
}

/// Expands cell `(x, y)`: visits its four neighbours.
fn expand(
    maze: &Grid,
    visited: &mut Vec<bool>,
    queue: &mut Vec<(usize, usize)>,
    x: usize,
    y: usize,
    Ghost(sx): Ghost<int>,
    Ghost(sy): Ghost<int>,
    Ghost(k): Ghost<nat>,
)
    requires
        maze.wf(),
        maze.in_bounds(x as int, y as int),
        old(visited)@.len() == maze.dim() * maze.dim(),
        reach_within(*maze, sx, sy, x as int, y as int, k),
    ensures
        grown(*maze, sx, sy, k, old(visited)@, old(queue)@, final(visited)@, final(queue)@),
        steps_closed(*maze, final(visited)@, x as int, y as int),
{
    let n = maze.size();
    let ghost g = *maze;
    let ghost v0 = visited@;
    let ghost q0 = queue@;
    proof {
        assert(q0.subrange(0, q0.len() as int) == q0);
    }
    if y > 0 {
        visit(maze, visited, queue, x, y - 1);
        proof {
            lemma_grown_visit(g, sx, sy, k, x as int, y as int, x, (y - 1) as usize, v0, q0, v0, q0, visited@, queue@);
        }
    }
    let ghost v1 = visited@;
    let ghost q1 = queue@;
    if y + 1 < n {
        visit(maze, visited, queue, x, y + 1);
        proof {
            lemma_grown_visit(g, sx, sy, k, x as int, y as int, x, (y + 1) as usize, v0, q0, v1, q1, visited@, queue@);
        }
    }
    let ghost v2 = visited@;
    let ghost q2 = queue@;
    if x > 0 {
        visit(maze, visited, queue, x - 1, y);
        proof {
            lemma_grown_visit(g, sx, sy, k, x as int, y as int, (x - 1) as usize, y, v0, q0, v2, q2, visited@, queue@);
        }
    }
    let ghost v3 = visited@;
    let ghost q3 = queue@;
    if x + 1 < n {
        visit(maze, visited, queue, x + 1, y);
        proof {
            lemma_grown_visit(g, sx, sy, k, x as int, y as int, (x + 1) as usize, y, v0, q0, v3, q3, visited@, queue@);
        }
    }
    proof {
        let nn = n as int;
        let v4 = visited@;
        assert(forall|j: int| 0 <= j < v1.len() && v1[j] ==> #[trigger] v2[j]);
        assert(forall|j: int| 0 <= j < v2.len() && v2[j] ==> #[trigger] v3[j]);
        assert(forall|j: int| 0 <= j < v3.len() && v3[j] ==> #[trigger] v4[j]);
        if passable(g, x as int, y - 1) {
            lemma_flat_index_bounds(nn, x as int, y - 1);
            assert(v1[flat_index(nn, x as int, y - 1)]);
            assert(v2[flat_index(nn, x as int, y - 1)]);
            assert(v3[flat_index(nn, x as int, y - 1)]);
        }
        if passable(g, x as int, y + 1) {
            lemma_flat_index_bounds(nn, x as int, y + 1);
            assert(v2[flat_index(nn, x as int, y + 1)]);
            assert(v3[flat_index(nn, x as int, y + 1)]);
        }
        if passable(g, x - 1, y as int) {
            lemma_flat_index_bounds(nn, x - 1, y as int);
            assert(v3[flat_index(nn, x - 1, y as int)]);
        }
    }
}

proof fn lemma_search_step(
    g: Grid,
    sx: int,
    sy: int,
    v: Seq<bool>,
    q: Seq<(usize, usize)>,
    head: int,
    v2: Seq<bool>,
    q2: Seq<(usize, usize)>,
    k: nat,
)
    requires
        g.wf(),
        g.in_bounds(sx, sy),
        search_state(g, sx, sy, v, q, head),
        0 <= head < q.len(),
        !(q[head].0 == g.dim() - 1 && q[head].1 == g.dim() - 1),
        reach_within(g, sx, sy, q[head].0 as int, q[head].1 as int, k),
        grown(g, sx, sy, k, v, q, v2, q2),
        steps_closed(g, v2, q[head].0 as int, q[head].1 as int),
    ensures
        search_state(g, sx, sy, v2, q2, head + 1),
{
    let n = g.dim() as int;
    assert forall|i: int| 0 <= i < q.len() implies #[trigger] q2[i] == q[i] by {
        assert(q2.subrange(0, q.len() as int)[i] == q2[i]);
    }
    assert forall|i: int| 0 <= i < q2.len() implies {
        let c = #[trigger] q2[i];
        &&& g.in_bounds(c.0 as int, c.1 as int)
        &&& v2[flat_index(n, c.0 as int, c.1 as int)]
        &&& reachable(g, sx, sy, c.0 as int, c.1 as int)
    } by {
        let c = q2[i];
        if i < q.len() {
            assert(q[i] == c);
            lemma_flat_index_bounds(n, c.0 as int, c.1 as int);
            assert(v[flat_index(n, c.0 as int, c.1 as int)]);
        } else {
            assert(reach_within(g, sx, sy, c.0 as int, c.1 as int, k + 1));
        }
    }
    assert forall|j: int| 0 <= j < n * n && #[trigger] v2[j] implies exists|i: int|
        0 <= i < q2.len() && flat_index(n, q2[i].0 as int, q2[i].1 as int) == j by {
        if v[j] {
            let i = choose|i: int| 0 <= i < q.len() && flat_index(n, q[i].0 as int, q[i].1 as int) == j;
            assert(q2[i] == q[i]);
        } else {
            let i = choose|i: int|
                q.len() <= i < q2.len() && flat_index(n, q2[i].0 as int, q2[i].1 as int) == j;
        }
    }
    assert forall|i: int| 0 <= i < head + 1 implies steps_closed(g, v2, (#[trigger] q2[i]).0 as int, q2[i].1 as int) by {
        assert(q2[i] == q[i]);
        if i < head {
            let c = q[i];
            assert(steps_closed(g, v, c.0 as int, c.1 as int));
            if passable(g, c.0 - 1, c.1 as int) {
                lemma_flat_index_bounds(n, c.0 - 1, c.1 as int);
            }
            if passable(g, c.0 + 1, c.1 as int) {
                lemma_flat_index_bounds(n, c.0 + 1, c.1 as int);
            }
            if passable(g, c.0 as int, c.1 - 1) {
                lemma_flat_index_bounds(n, c.0 as int, c.1 - 1);
            }
            if passable(g, c.0 as int, c.1 + 1) {
                lemma_flat_index_bounds(n, c.0 as int, c.1 + 1);
            }
        }
    }
    assert forall|i: int| 0 <= i < head + 1 implies !((#[trigger] q2[i]).0 == n - 1 && q2[i].1 == n - 1) by {
        assert(q2[i] == q[i]);
    }
    lemma_flat_index_bounds(n, sx, sy);
}

/// When every queued cell has been expanded without meeting the exit, the
/// exit cannot be reached.
proof fn lemma_search_exhausted(
    g: Grid,
    sx: int,
    sy: int,
    v: Seq<bool>,
    q: Seq<(usize, usize)>,
)
    requires
        g.wf(),
        g.in_bounds(sx, sy),
        search_state(g, sx, sy, v, q, q.len() as int),
    ensures
        !exit_reachable(g, sx, sy),
{
    let n = g.dim() as int;
    assert forall|x: int, y: int| g.in_bounds(x, y) && v[flat_index(n, x, y)] implies #[trigger] steps_closed(
        g,
        v,
        x,
        y,
    ) by {
        let j = flat_index(n, x, y);
        lemma_flat_index_bounds(n, x, y);
        let i = choose|i: int| 0 <= i < q.len() && flat_index(n, q[i].0 as int, q[i].1 as int) == j;
        let c = q[i];
        lemma_flat_index_injective(n, c.0 as int, c.1 as int, x, y);
    }
    if exit_reachable(g, sx, sy) {
        let k = choose|k: nat| #[trigger] reach_within(g, sx, sy, n - 1, n - 1, k);
        lemma_reach_stays_marked(g, v, sx, sy, n - 1, n - 1, k);
        let j = flat_index(n, n - 1, n - 1);
        let i = choose|i: int| 0 <= i < q.len() && flat_index(n, q[i].0 as int, q[i].1 as int) == j;
        let c = q[i];
        lemma_flat_index_bounds(n, n - 1, n - 1);
        lemma_flat_index_injective(n, c.0 as int, c.1 as int, n - 1, n - 1);
    }
}

/// Whether the exit corner `(n - 1, n - 1)` can be reached from the start
/// cell by axis-aligned steps through cells that are neither walls nor the
/// hazard. Breadth-first search: each cell is queued at most once.
pub fn is_reachable(maze: &Grid, start_row: usize, start_col: usize) -> (r: bool)
    requires
        maze.wf(),
        maze.in_bounds(start_row as int, start_col as int),
    ensures
        r == exit_reachable(*maze, start_row as int, start_col as int),
{
    let ghost g = *maze;
    let ghost sx = start_row as int;
    let ghost sy = start_col as int;
    let n = maze.size();
    let total: usize = n * n;
    let mut visited: Vec<bool> = Vec::new();
    let mut i: usize = 0;
    while i < total
        invariant
            i <= total,
            visited@ == Seq::new(i as nat, |j: int| false),
        decreases total - i,
    {
        visited.push(false);
        i = i + 1;
    }
    proof {
        lemma_flat_index_bounds(n as int, sx, sy);
    }
    let ghost v0 = visited@;
    visited.set(start_row * n + start_col, true);
    let mut queue: Vec<(usize, usize)> = Vec::new();
    queue.push((start_row, start_col));
    proof {
        let f = flat_index(n as int, sx, sy);
        assert(reach_within(g, sx, sy, sx, sy, 0));
        assert forall|j: int| 0 <= j < n * n && #[trigger] visited@[j] implies exists|i: int|
            0 <= i < queue@.len() && flat_index(n as int, queue@[i].0 as int, queue@[i].1 as int) == j by {
            assert(j == f);
            assert(queue@[0] == (start_row, start_col));
        }
    }
    let mut head: usize = 0;
    while head < queue.len()
        invariant
            maze.wf(),
            g == *maze,
            sx == start_row,
            sy == start_col,
            n == maze.dim(),
            maze.in_bounds(sx, sy),
            search_state(g, sx, sy, visited@, queue@, head as int),
        decreases 2 * count_of(visited@, false) + queue@.len() - head,
    {
        let (x, y) = queue[head];
        if x == n - 1 && y == n - 1 {
            proof {
                assert(queue@[head as int] == (x, y));
                assert(reachable(g, sx, sy, x as int, y as int));
                assert(x as int == g.dim() - 1 && y as int == g.dim() - 1);
                assert(exit_reachable(g, sx, sy));
            }
            return true;
        }
        let ghost k = choose|k: nat| #[trigger] reach_within(g, sx, sy, x as int, y as int, k);
        let ghost v = visited@;
        let ghost q = queue@;
        expand(maze, &mut visited, &mut queue, x, y, Ghost(sx), Ghost(sy), Ghost(k));
        proof {
            lemma_search_step(g, sx, sy, v, q, head as int, visited@, queue@, k);
        }
        head = head + 1;
    }
    proof {
        lemma_search_exhausted(g, sx, sy, visited@, queue@);
    }
    false
}

/// A bound on the steps can always be raised.
pub proof fn lemma_reach_more_steps(g: Grid, sx: int, sy: int, x: int, y: int, k: nat)
    requires
        reach_within(g, sx, sy, x, y, k),
    ensures
        reach_within(g, sx, sy, x, y, k + 1),
    decreases k,
{
    if x == sx && y == sy {
    } else {
        let j = (k - 1) as nat;
        if reach_within(g, sx, sy, x - 1, y, j) {
            lemma_reach_more_steps(g, sx, sy, x - 1, y, j);
        } else if reach_within(g, sx, sy, x + 1, y, j) {
            lemma_reach_more_steps(g, sx, sy, x + 1, y, j);
        } else if reach_within(g, sx, sy, x, y - 1, j) {
            lemma_reach_more_steps(g, sx, sy, x, y - 1, j);
        } else {
            lemma_reach_more_steps(g, sx, sy, x, y + 1, j);
        }
        assert(((k + 1) - 1) as nat == k);
    }
}

proof fn lemma_reach_raise(g: Grid, sx: int, sy: int, x: int, y: int, k: nat, d: nat)
    requires
        reach_within(g, sx, sy, x, y, k),
    ensures
        reach_within(g, sx, sy, x, y, k + d),
    decreases d,
{
    if d > 0 {
        lemma_reach_raise(g, sx, sy, x, y, k, (d - 1) as nat);
        lemma_reach_more_steps(g, sx, sy, x, y, (k + d - 1) as nat);
    }
}

/// Two walks joined end to end make a walk.
pub proof fn lemma_reach_join(
    g: Grid,
    ax: int,
    ay: int,
    bx: int,
    by: int,
    cx: int,
    cy: int,
    k1: nat,
    k2: nat,
)
    requires
        reach_within(g, ax, ay, bx, by, k1),
        reach_within(g, bx, by, cx, cy, k2),
    ensures
        reach_within(g, ax, ay, cx, cy, k1 + k2),
    decreases k2,
{
    if cx == bx && cy == by {
        lemma_reach_raise(g, ax, ay, bx, by, k1, k2);
    } else {
        let j = (k2 - 1) as nat;
        assert((k1 + k2 - 1) as nat == k1 + j);
        if reach_within(g, bx, by, cx - 1, cy, j) {
            lemma_reach_join(g, ax, ay, bx, by, cx - 1, cy, k1, j);
        } else if reach_within(g, bx, by, cx + 1, cy, j) {
            lemma_reach_join(g, ax, ay, bx, by, cx + 1, cy, k1, j);
        } else if reach_within(g, bx, by, cx, cy - 1, j) {
            lemma_reach_join(g, ax, ay, bx, by, cx, cy - 1, k1, j);
        } else {
            lemma_reach_join(g, ax, ay, bx, by, cx, cy + 1, k1, j);
        }
    }
}

/// Steps go both ways: a walk from a passable start can be walked back.
pub proof fn lemma_reach_reverse(g: Grid, sx: int, sy: int, x: int, y: int, k: nat)
    requires
        passable(g, sx, sy),
        reach_within(g, sx, sy, x, y, k),
    ensures
        reach_within(g, x, y, sx, sy, k),
    decreases k,
{
    if x == sx && y == sy {
    } else {
        let j = (k - 1) as nat;
        let (px, py) = if reach_within(g, sx, sy, x - 1, y, j) {
            (x - 1, y)
        } else if reach_within(g, sx, sy, x + 1, y, j) {
            (x + 1, y)
        } else if reach_within(g, sx, sy, x, y - 1, j) {
            (x, y - 1)
        } else {
            (x, y + 1)
        };
        lemma_reach_reverse(g, sx, sy, px, py, j);
        assert(passable(g, px, py)) by {
            if !(px == sx && py == sy) {
                assert(reach_within(g, sx, sy, px, py, j));
            }
        }
        assert(reach_within(g, x, y, x, y, 0));
        assert(reach_within(g, x, y, px, py, 1)) by {
            assert(reach_within(g, x, y, px + (x - px), py + (y - py), 0));
            if px == x - 1 {
                assert(reach_within(g, x, y, px + 1, py, 0));
            } else if px == x + 1 {
                assert(reach_within(g, x, y, px - 1, py, 0));
            } else if py == y - 1 {
                assert(reach_within(g, x, y, px, py + 1, 0));
            } else {
                assert(reach_within(g, x, y, px, py - 1, 0));
            }
        }
        lemma_reach_join(g, x, y, px, py, sx, sy, 1, j);
        assert(1 + j == k);
    }
}

/// Every cell next to the exit corner that lies on the board is a wall.
pub open spec fn exit_walled_in(g: Grid) -> bool {
    let e = g.dim() - 1;
    &&& g.in_bounds(e - 1, e) ==> g.cell(e - 1, e) == CellKind::Wall
    &&& g.in_bounds(e, e - 1) ==> g.cell(e, e - 1) == CellKind::Wall
}

/// An exit whose neighbours are all walls cannot be reached from any other
/// start cell that is not itself a wall.
pub proof fn lemma_walled_exit_unreachable(g: Grid, sx: int, sy: int)
    requires
        g.wf(),
        g.in_bounds(sx, sy),
        g.cell(sx, sy) != CellKind::Wall,
        !(sx == g.dim() - 1 && sy == g.dim() - 1),
        exit_walled_in(g),
    ensures
        !exit_reachable(g, sx, sy),
{
    let e = g.dim() - 1;
    if exit_reachable(g, sx, sy) {
        let k = choose|k: nat| #[trigger] reach_within(g, sx, sy, e, e, k);
        let j = (k - 1) as nat;
        assert(!reach_within(g, sx, sy, e - 1, e, j));
        assert(!reach_within(g, sx, sy, e + 1, e, j));
        assert(!reach_within(g, sx, sy, e, e - 1, j));
        assert(!reach_within(g, sx, sy, e, e + 1, j));
    }
}

} // verus!
