use vstd::prelude::*;
use rand::rngs::StdRng;
use crate::grid::{contains_cell, lemma_cells_bound, lemma_index_bounds, lemma_index_injective, next_cell, Cell, Grid, ACTIONS};
use crate::random::draw_below;

verus! {

/// Whether `b` is one move of the search away from `a`: a clamped neighbour
/// that differs from `a` and is no obstacle.
pub open spec fn moves_to(g: Grid, walls: Seq<Cell>, a: Cell, b: Cell) -> bool {
    (g.step(a, 0) == b || g.step(a, 1) == b || g.step(a, 2) == b || g.step(a, 3) == b) && b != a
        && !walls.contains(b)
}

/// A sequence of cells of the grid, each one move from the one before.
pub open spec fn is_walk(g: Grid, walls: Seq<Cell>, p: Seq<Cell>) -> bool {
    &&& p.len() >= 1
    &&& g.contains(p[0])
    &&& forall|i: int| 0 <= i < p.len() - 1 ==> #[trigger] moves_to(g, walls, p[i], p[i + 1])
}

/// Whether a walk leads from `start` to `goal` around the obstacles.
pub open spec fn reachable(g: Grid, start: Cell, goal: Cell, walls: Seq<Cell>) -> bool {
    exists|p: Seq<Cell>| #[trigger] is_walk(g, walls, p) && p[0] == start && p.last() == goal
}

/// The number of `true` entries.
pub open spec fn count_true(s: Seq<bool>) -> nat
    decreases s.len(),
{
    if s.len() == 0 {
        0
    } else {
        count_true(s.drop_last()) + if s.last() {
            1nat
        } else {
            0nat
        }
    }
}

proof fn lemma_count_le(s: Seq<bool>)
    ensures
        count_true(s) <= s.len(),
    decreases s.len(),
{
    if s.len() > 0 {
        lemma_count_le(s.drop_last());
    }
}

proof fn lemma_count_none(s: Seq<bool>)
    requires
        forall|i: int| 0 <= i < s.len() ==> !s[i],
    ensures
        count_true(s) == 0,
    decreases s.len(),
{
    if s.len() > 0 {
        lemma_count_none(s.drop_last());
    }
}

proof fn lemma_count_set(s: Seq<bool>, i: int)
    requires
        0 <= i < s.len(),
        !s[i],
    ensures
        count_true(s.update(i, true)) == count_true(s) + 1,
    decreases s.len(),
{
    let t = s.update(i, true);
    if i == s.len() - 1 {
        assert(t.drop_last() =~= s.drop_last());
    } else {
        assert(t.drop_last() =~= s.drop_last().update(i, true));
        lemma_count_set(s.drop_last(), i);
    }
}

/// A walk extended by one move is still a walk.
proof fn lemma_extend(g: Grid, walls: Seq<Cell>, start: Cell, c: Cell, n: Cell)
    requires
        reachable(g, start, c, walls),
        moves_to(g, walls, c, n),
    ensures
        reachable(g, start, n, walls),
{
    let p = choose|p: Seq<Cell>| #[trigger] is_walk(g, walls, p) && p[0] == start && p.last() == c;
    let q = p.push(n);
    assert forall|i: int| 0 <= i < q.len() - 1 implies #[trigger] moves_to(g, walls, q[i], q[i + 1]) by {
        if i < p.len() - 1 {
            assert(moves_to(g, walls, p[i], p[i + 1]));
        }
    }
    assert(is_walk(g, walls, q));
}

/// The marked cells of the grid are closed under moves.
pub open spec fn closed(g: Grid, walls: Seq<Cell>, seen: Seq<bool>) -> bool {
    forall|c: Cell, n: Cell|
        g.contains(c) && seen[g.index(c)] && #[trigger] moves_to(g, walls, c, n) ==> seen[g.index(n)]
}

/// Every walk from a marked cell stays among marked cells when they are closed.
proof fn lemma_closed_walk(g: Grid, walls: Seq<Cell>, seen: Seq<bool>, p: Seq<Cell>, i: int)
    requires
        g.wf(),
        closed(g, walls, seen),
        is_walk(g, walls, p),
        seen[g.index(p[0])],
        0 <= i < p.len(),
    ensures
        g.contains(p[i]),
        seen[g.index(p[i])],
    decreases i,
{
    if i > 0 {
        lemma_closed_walk(g, walls, seen, p, i - 1);
        let j = i - 1;
        assert(moves_to(g, walls, p[j], p[j + 1]));
    }
}

/// Whether a walk leads from `start` to `goal` that never enters an obstacle.
/// The search goes breadth first from `start`; each cell is queued once.
pub fn has_path(g: &Grid, start: Cell, goal: Cell, walls: &[Cell]) -> (r: bool)
    requires
        g.wf(),
        g.contains(start),
    ensures
        r == reachable(*g, start, goal, walls@),
{
    let ghost gg = *g;
    let ghost ws = walls@;
    if start == goal {
        proof {
            let p = seq![start];
            assert(is_walk(gg, ws, p));
        }
        return true;
    }
    let n = g.cell_count();
    let mut seen: Vec<bool> = Vec::new();
    while seen.len() < n
        invariant
            seen.len() <= n,
            forall|i: int| 0 <= i < seen.len() ==> !seen@[i],
        decreases n - seen.len(),
    {
        seen.push(false);
    }
    proof {
        lemma_count_none(seen@);
        lemma_index_bounds(gg, start);
        assert(is_walk(gg, ws, seq![start]));
        assert(reachable(gg, start, start, ws));
    }
    let si = g.index_of(start);
    proof {
        lemma_count_set(seen@, si as int);
    }
    seen.set(si, true);
    proof {
        if gg.contains(goal) && gg.index(goal) == si as int {
            lemma_index_injective(gg, goal, start);
        }
    }
    let mut queue: Vec<Cell> = Vec::new();
    queue.push(start);
    proof {
        assert forall|c: Cell| gg.contains(c) && #[trigger] seen@[gg.index(c)] implies queue@.contains(c) by {
            lemma_index_bounds(gg, c);
            if gg.index(c) == si as int {
                lemma_index_injective(gg, c, start);
                assert(queue@[0] == start);
            }
        }
        if gg.contains(goal) {
            lemma_index_bounds(gg, goal);
        }
    }
    let mut head: usize = 0;
    while head < queue.len()
        invariant
            gg == *g,
            ws == walls@,
            gg.wf(),
            n == gg.cells(),
            seen.len() == n,
            start != goal,
            head <= queue.len(),
            queue.len() >= 1 && queue@[0] == start,
            queue.len() == count_true(seen@),
            forall|j: int|
                0 <= j < queue.len() ==> gg.contains(#[trigger] queue@[j]) && seen@[gg.index(queue@[j])]
                    && reachable(gg, start, queue@[j], ws) && queue@[j] != goal,
            forall|c: Cell| gg.contains(c) && #[trigger] seen@[gg.index(c)] ==> queue@.contains(c),
            forall|j: int, m: Cell|
                0 <= j < head && #[trigger] moves_to(gg, ws, queue@[j], m) ==> seen@[gg.index(m)],
            gg.contains(goal) ==> !seen@[gg.index(goal)],
        decreases n - head,
    {
        proof {
            lemma_count_le(seen@);
        }
        let c = queue[head];
        let mut k: usize = 0;
        while k < ACTIONS
            invariant
                gg == *g,
                ws == walls@,
                gg.wf(),
                n == gg.cells(),
                seen.len() == n,
                start != goal,
                head < queue.len(),
                queue@[0] == start,
                c == queue@[head as int],
                k <= ACTIONS,
                queue.len() == count_true(seen@),
                forall|j: int|
                    0 <= j < queue.len() ==> gg.contains(#[trigger] queue@[j]) && seen@[gg.index(queue@[j])]
                        && reachable(gg, start, queue@[j], ws) && queue@[j] != goal,
                forall|c2: Cell| gg.contains(c2) && #[trigger] seen@[gg.index(c2)] ==> queue@.contains(c2),
                forall|j: int, m: Cell|
                    0 <= j < head && #[trigger] moves_to(gg, ws, queue@[j], m) ==> seen@[gg.index(m)],
                forall|kk: int|
                    0 <= kk < k && gg.step(c, kk) != c && !ws.contains(gg.step(c, kk))
                        ==> seen@[gg.index(#[trigger] gg.step(c, kk))],
                gg.contains(goal) ==> !seen@[gg.index(goal)],
            decreases ACTIONS - k,
        {
            let ghost seen_before = seen@;
            let nb = next_cell(g, c, k);
            if nb != c && !contains_cell(walls, nb) {
                let ni = g.index_of(nb);
                if !seen[ni] {
                    proof {
                        assert(moves_to(gg, ws, c, nb));
                        lemma_extend(gg, ws, start, c, nb);
                    }
                    if nb == goal {
                        return true;
                    }
                    proof {
                        lemma_count_set(seen@, ni as int);
                        lemma_index_bounds(gg, nb);
                    }
                    let ghost old_seen = seen@;
                    let ghost old_queue = queue@;
                    seen.set(ni, true);
                    queue.push(nb);
                    proof {
                        assert forall|c2: Cell| gg.contains(c2) && #[trigger] seen@[gg.index(c2)] implies queue@.contains(c2) by {
                            if gg.index(c2) == ni as int {
                                lemma_index_injective(gg, c2, nb);
                                assert(queue@[queue.len() - 1] == nb);
                            } else {
                                lemma_index_bounds(gg, c2);
                                assert(old_seen[gg.index(c2)]);
                                let j = choose|j: int| 0 <= j < old_queue.len() && old_queue[j] == c2;
                                assert(queue@[j] == c2);
                            }
                        }
                        assert forall|j: int, m: Cell|
                            0 <= j < head && #[trigger] moves_to(gg, ws, queue@[j], m) implies seen@[gg.index(m)] by {
                            assert(old_queue[j] == queue@[j]);
                            assert(gg.contains(m));
                            lemma_index_bounds(gg, m);
                            assert(old_seen[gg.index(m)]);
                        }
                        assert forall|j: int| 0 <= j < queue.len() implies gg.contains(#[trigger] queue@[j]) && seen@[gg.index(queue@[j])]
                            && reachable(gg, start, queue@[j], ws) && queue@[j] != goal by {
                            if j < old_queue.len() {
                                assert(old_queue[j] == queue@[j]);
                                lemma_index_bounds(gg, queue@[j]);
                            }
                        }
                        if gg.contains(goal) {
                            if gg.index(goal) == ni as int {
                                lemma_index_injective(gg, goal, nb);
                            }
                        }
                    }
                }
            }
            proof {
                assert forall|i: int| 0 <= i < n && seen_before[i] implies seen@[i] by {}
                assert forall|kk: int|
                    0 <= kk < k + 1 && gg.step(c, kk) != c && !ws.contains(gg.step(c, kk))
                        implies seen@[gg.index(#[trigger] gg.step(c, kk))] by {
                    lemma_index_bounds(gg, gg.step(c, kk));
                    if kk < k {
                        assert(seen_before[gg.index(gg.step(c, kk))]);
                    }
                }
            }
            k += 1;
        }
        proof {
            assert forall|j: int, m: Cell|
                0 <= j < head + 1 && #[trigger] moves_to(gg, ws, queue@[j], m) implies seen@[gg.index(m)] by {
                if j == head {
                    if gg.step(c, 0) == m {
                        assert(seen@[gg.index(gg.step(c, 0))]);
                    } else if gg.step(c, 1) == m {
                        assert(seen@[gg.index(gg.step(c, 1))]);
                    } else if gg.step(c, 2) == m {
                        assert(seen@[gg.index(gg.step(c, 2))]);
                    } else {
                        assert(seen@[gg.index(gg.step(c, 3))]);
                    }
                }
            }
        }
        head += 1;
    }
    proof {
        assert forall|c2: Cell, m: Cell|
            gg.contains(c2) && seen@[gg.index(c2)] && #[trigger] moves_to(gg, ws, c2, m) implies seen@[gg.index(m)] by {
            assert(queue@.contains(c2));
            let j = choose|j: int| 0 <= j < queue.len() && queue@[j] == c2;
            assert(moves_to(gg, ws, queue@[j], m));
        }
        assert(closed(gg, ws, seen@));
        if reachable(gg, start, goal, ws) {
            let p = choose|p: Seq<Cell>| #[trigger] is_walk(gg, ws, p) && p[0] == start && p.last() == goal;
            assert(queue@[0] == start);
            lemma_closed_walk(gg, ws, seen@, p, p.len() - 1);
        }
    }
    false
}

/// A move from `c` by action `k` that leads to a free cell not yet visited.
pub open spec fn open_move(g: Grid, walls: Seq<Cell>, visited: Seq<bool>, c: Cell, k: int) -> bool {
    let m = g.step(c, k);
    m != c && !walls.contains(m) && !visited[g.index(m)]
}

/// The number of actions below `k` that are open moves from `c`.
pub open spec fn open_count(g: Grid, walls: Seq<Cell>, visited: Seq<bool>, c: Cell, k: int) -> nat
    decreases k,
{
    if k <= 0 {
        0
    } else {
        open_count(g, walls, visited, c, k - 1) + if open_move(g, walls, visited, c, k - 1) {
            1nat
        } else {
            0nat
        }
    }
}

/// A cell is a dead end when at most one of its moves is open.
pub open spec fn dead_end(g: Grid, walls: Seq<Cell>, visited: Seq<bool>, c: Cell) -> bool {
    open_count(g, walls, visited, c, 4) <= 1
}

/// Whether `state` has at most one neighbour that is free, differs from it,
/// and is not marked in `visited` (indexed by row-major position).
pub fn is_dead_end(g: &Grid, state: Cell, walls: &[Cell], visited: &[bool]) -> (r: bool)
    requires
        g.wf(),
        g.contains(state),
        visited.len() == g.cells(),
    ensures
        r == dead_end(*g, walls@, visited@, state),
{
    let mut valid_moves: usize = 0;
    let mut k: usize = 0;
    while k < ACTIONS
        invariant
            g.wf(),
            g.contains(state),
            visited.len() == g.cells(),
            k <= ACTIONS,
            valid_moves == open_count(*g, walls@, visited@, state, k as int),
            valid_moves <= k,
        decreases ACTIONS - k,
    {
        let next = next_cell(g, state, k);
        let ni = g.index_of(next);
        if next != state && !contains_cell(walls, next) && !visited[ni] {
            valid_moves += 1;
        }
        k += 1;
    }
    valid_moves <= 1
}

/// The obstacles of a world: cells of the grid, pairwise distinct, none of
/// them the start or the goal.
pub open spec fn obstacles_ok(g: Grid, start: Cell, goal: Cell, walls: Seq<Cell>) -> bool {
    &&& walls.no_duplicates()
    &&& forall|i: int|
        0 <= i < walls.len() ==> g.contains(#[trigger] walls[i]) && walls[i] != start && walls[i]
            != goal
}

/// Obstacles that avoid a distinct start and goal leave those two cells free:
/// there are at most `cells - 2` of them.
pub proof fn lemma_obstacles_fit(g: Grid, start: Cell, goal: Cell, walls: Seq<Cell>)
    requires
        g.wf(),
        g.contains(start),
        g.contains(goal),
        start != goal,
        obstacles_ok(g, start, goal, walls),
    ensures
        walls.len() + 2 <= g.cells(),
{
    let idx = walls.map_values(|c: Cell| g.index(c));
    assert forall|i: int, j: int| 0 <= i < idx.len() && 0 <= j < idx.len() && i != j implies idx[i] != idx[j] by {
        if idx[i] == idx[j] {
            lemma_index_injective(g, walls[i], walls[j]);
        }
    }
    idx.unique_seq_to_set();
    let range = vstd::set_lib::set_int_range(0, g.cells() as int);
    vstd::set_lib::lemma_int_range(0, g.cells() as int);
    let si = g.index(start);
    let gi = g.index(goal);
    lemma_index_bounds(g, start);
    lemma_index_bounds(g, goal);
    if si == gi {
        lemma_index_injective(g, start, goal);
    }
    let s = idx.to_set();
    assert forall|x: int| s.contains(x) implies range.contains(x) && x != si && x != gi by {
        let i = choose|i: int| 0 <= i < idx.len() && idx[i] == x;
        lemma_index_bounds(g, walls[i]);
        if x == si {
            lemma_index_injective(g, walls[i], start);
        }
        if x == gi {
            lemma_index_injective(g, walls[i], goal);
        }
    }
    vstd::set_lib::lemma_len_subset(s, range);
    let t = s.insert(si).insert(gi);
    assert(t.subset_of(range));
    vstd::set_lib::lemma_len_subset(t, range);
}

/// Adds `candidate` to the obstacles when it is neither the start, nor the
/// goal, nor already chosen; returns whether it was added.
pub fn place_obstacle(walls: &mut Vec<Cell>, start: Cell, goal: Cell, candidate: Cell) -> (placed: bool)
    ensures
        placed == (candidate != start && candidate != goal && !old(walls)@.contains(candidate)),
        final(walls)@ == (if placed {
            old(walls)@.push(candidate)
        } else {
            old(walls)@
        }),
{
    if candidate != start && candidate != goal && !contains_cell(walls.as_slice(), candidate) {
        walls.push(candidate);
        true
    } else {
        false
    }
}

/// Draws allowed per cell of the grid before one generation attempt gives up.
pub const DRAWS_PER_CELL: usize = 64;

/// The number of obstacles for a density given in thousandths:
/// `floor(cells * density / 1000)`.
pub fn obstacle_count(g: &Grid, density_permille: usize) -> (r: usize)
    requires
        g.wf(),
        density_permille <= 1000,
    ensures
        r == g.cells() * density_permille / 1000,
{
    let n = g.cell_count();
    let n64 = n as u64;
    let d64 = density_permille as u64;
    assert(n64 * d64 <= 268_435_456 * 1000) by (nonlinear_arith)
        requires
            n64 <= 268_435_456,
            d64 <= 1000,
    ;
    assert(n64 * d64 / 1000 <= n64) by (nonlinear_arith)
        requires
            d64 <= 1000,
    ;
    (n64 * d64 / 1000) as usize
}

/// Samples `count` obstacles by rejection: each draw is a uniformly random
/// cell, kept only when `place_obstacle` accepts it. Gives up with `None`
/// after `DRAWS_PER_CELL` draws per cell of the grid.
pub fn generate_random_walls(g: &Grid, start: Cell, goal: Cell, count: usize, rng: &mut StdRng) -> (r: Option<Vec<Cell>>)
    requires
        g.wf(),
    ensures
        count == 0 ==> r.is_some() && *final(rng) == *old(rng),
        r.is_some() ==> r.unwrap()@.len() == count && obstacles_ok(*g, start, goal, r.unwrap()@),
{
    let n = g.cell_count();
    let budget: u64 = n as u64 * DRAWS_PER_CELL as u64;
    let mut draws: u64 = 0;
    let mut walls: Vec<Cell> = Vec::new();
    while walls.len() < count
        invariant
            g.wf(),
            walls@.len() <= count,
            draws <= budget,
            obstacles_ok(*g, start, goal, walls@),
            count == 0 ==> *rng == *old(rng),
        decreases budget - draws,
    {
        if draws == budget {
            return None;
        }
        draws += 1;
        let x = draw_below(rng, g.height);
        let y = draw_below(rng, g.width);
        let candidate = Cell { row: x, col: y };
        let ghost before = walls@;
        let placed = place_obstacle(&mut walls, start, goal, candidate);
        proof {
            if placed {
                assert forall|i: int, j: int|
                    0 <= i < walls@.len() && 0 <= j < walls@.len() && i != j implies walls@[i] != walls@[j] by {
                    if i < before.len() && j < before.len() {
                        assert(before[i] != before[j]);
                    } else if i < before.len() {
                        assert(before[i] == walls@[i]);
                    } else {
                        assert(before[j] == walls@[j]);
                    }
                }
                assert forall|i: int| 0 <= i < walls@.len() implies g.contains(#[trigger] walls@[i]) && walls@[i] != start
                    && walls@[i] != goal by {
                    if i < before.len() {
                        assert(before[i] == walls@[i]);
                    }
                }
            }
        }
    }
    Some(walls)
}

/// A generated world: grid, start, goal and obstacles.
#[derive(Clone, Debug)]
pub struct World {
    pub grid: Grid,
    pub start: Cell,
    pub goal: Cell,
    pub walls: Vec<Cell>,
}

/// Why no world came out.
#[derive(Clone, Copy, Debug, PartialEq, Eq, Structural)]
pub enum WorldError {
    /// Every attempt gave a field with the goal cut off, or ran out of draws.
    GenerationExhausted,
}

impl World {
    /// A world fit for training: distinct start and goal in the grid,
    /// obstacles that avoid both, and a walk from start to goal.
    pub open spec fn wf(&self) -> bool {
        &&& self.grid.wf()
        &&& self.grid.contains(self.start)
        &&& self.grid.contains(self.goal)
        &&& self.start != self.goal
        &&& obstacles_ok(self.grid, self.start, self.goal, self.walls@)
        &&& reachable(self.grid, self.start, self.goal, self.walls@)
    }
}

/// A generated world keeps its goal reachable, and its obstacles hold
/// neither the start nor the goal.
pub proof fn lemma_world_valid(w: World)
    requires
        w.wf(),
    ensures
        reachable(w.grid, w.start, w.goal, w.walls@),
        !w.walls@.contains(w.start),
        !w.walls@.contains(w.goal),
{
}

/// A move followed by a walk is a walk.
proof fn lemma_prepend(g: Grid, walls: Seq<Cell>, a: Cell, n: Cell, b: Cell)
    requires
        g.wf(),
        g.contains(a),
        reachable(g, n, b, walls),
        moves_to(g, walls, a, n),
    ensures
        reachable(g, a, b, walls),
{
    let p = choose|p: Seq<Cell>| #[trigger] is_walk(g, walls, p) && p[0] == n && p.last() == b;
    let q = seq![a] + p;
    assert forall|i: int| 0 <= i < q.len() - 1 implies #[trigger] moves_to(g, walls, q[i], q[i + 1]) by {
        if i > 0 {
            let j = i - 1;
            assert(moves_to(g, walls, p[j], p[j + 1]));
        }
    }
    assert(is_walk(g, walls, q));
}

/// Without obstacles every cell of the grid reaches every other.
pub proof fn lemma_open_grid_reachable(g: Grid, a: Cell, b: Cell)
    requires
        g.wf(),
        g.contains(a),
        g.contains(b),
    ensures
        reachable(g, a, b, Seq::<Cell>::empty()),
    decreases g.distance(a, b),
{
    let e = Seq::<Cell>::empty();
    if a == b {
        assert(is_walk(g, e, seq![a]));
    } else {
        let k: int = if a.row < b.row {
            1
        } else if a.row > b.row {
            0
        } else if a.col < b.col {
            3
        } else {
            2
        };
        let n = g.step(a, k);
        assert(moves_to(g, e, a, n));
        lemma_open_grid_reachable(g, n, b);
        lemma_prepend(g, e, a, n, b);
    }
}

/// The start cell of every world: the top-left corner.
pub open spec fn origin() -> Cell {
    Cell { row: 0, col: 0 }
}

/// The goal for a draw `pick` below `cells - 1`: the cell at row-major
/// position `pick + 1`, so every cell but the top-left corner is equally likely.
pub fn goal_from_draw(g: &Grid, pick: usize) -> (r: Cell)
    requires
        g.wf(),
        pick + 1 < g.cells(),
    ensures
        r == g.cell_at(pick + 1),
        g.contains(r),
        r != origin(),
{
    proof {
        lemma_cells_bound(*g);
    }
    let gi = pick + 1;
    let w = g.width;
    proof {
        vstd::arithmetic::div_mod::lemma_fundamental_div_mod(gi as int, w as int);
        let q = gi as int / w as int;
        let m = gi as int % w as int;
        assert(0 <= q) by (nonlinear_arith)
            requires
                0 <= gi,
                0 < w,
                q == gi as int / w as int,
        ;
        assert(q < g.height) by (nonlinear_arith)
            requires
                gi as int == w * q + m,
                0 <= m < w,
                gi < g.height * w,
                0 <= q,
        ;
        assert(q != 0 || m != 0) by (nonlinear_arith)
            requires
                gi as int == w * q + m,
                gi >= 1,
        ;
    }
    Cell { row: gi / w, col: gi % w }
}

/// Builds a world on grid `g`: the start is the top-left corner, the goal a
/// uniformly drawn other cell, and the obstacles `obstacle_count(g, density)`
/// cells drawn by `generate_random_walls`. A field in which the goal is cut off is
/// drawn again, up to `max_attempts` times in all.
pub fn generate_world(g: &Grid, density_permille: usize, max_attempts: usize, rng: &mut StdRng) -> (r: Result<World, WorldError>)
    requires
        g.wf(),
        g.cells() >= 2,
        density_permille <= 1000,
    ensures
        r is Ok ==> r->Ok_0.wf() && r->Ok_0.grid == *g && r->Ok_0.start == origin()
            && r->Ok_0.walls@.len() == g.cells() * density_permille / 1000,
        density_permille == 0 && max_attempts >= 1 ==> r is Ok,
        max_attempts == 0 ==> r is Err,
        g.cells() * density_permille / 1000 > g.cells() - 2 ==> r is Err,
        r is Err ==> r == Err::<World, WorldError>(WorldError::GenerationExhausted),
{
    let n = g.cell_count();
    let start = Cell { row: 0, col: 0 };
    let pick = draw_below(rng, n - 1);
    let goal = goal_from_draw(g, pick);
    let count = obstacle_count(g, density_permille);
    let mut attempt: usize = 0;
    while attempt < max_attempts
        invariant
            g.wf(),
            g.contains(start),
            g.contains(goal),
            start != goal,
            start == origin(),
            count == g.cells() * density_permille / 1000,
            density_permille == 0 ==> count == 0,
            density_permille == 0 && max_attempts >= 1 ==> attempt == 0,
            g.cells() >= 2,
        decreases max_attempts - attempt,
    {
        match generate_random_walls(g, start, goal, count, rng) {
            Some(walls) => {
                proof {
                    if count == 0 {
                        assert(walls@ =~= Seq::<Cell>::empty());
                        lemma_open_grid_reachable(*g, start, goal);
                    }
                }
                proof {
                    lemma_obstacles_fit(*g, start, goal, walls@);
                }
                if has_path(g, start, goal, walls.as_slice()) {
                    return Ok(World { grid: *g, start, goal, walls });
                }
            },
            None => {},
        }
        attempt += 1;
    }
    Err(WorldError::GenerationExhausted)
}

} // verus!
