use vstd::prelude::*;
use crate::grid::{contains_cell, lemma_index_bounds, next_cell, Cell, Grid, ACTIONS};
use crate::maze::{is_walk, moves_to, World};
use crate::qlearn::{slot, QTable};

verus! {

/// Settings of a greedy rollout.
#[derive(Clone, Copy, Debug)]
pub struct Limits {
    /// Steps allowed in all.
    pub max_steps: usize,
    /// Above this many stuck steps a visited cell may be entered again.
    pub relax_threshold: usize,
    /// Above this many stuck steps the path is cut back.
    pub backtrack_threshold: usize,
    /// Cells removed from the path by one cut.
    pub backtrack_count: usize,
}

impl Limits {
    /// 500 steps; revisits allowed after 3 stuck steps; 5 cells cut after 5.
    pub fn standard() -> (r: Limits)
        ensures
            r.max_steps == 500,
            r.relax_threshold == 3,
            r.backtrack_threshold == 5,
            r.backtrack_count == 5,
    {
        Limits { max_steps: 500, relax_threshold: 3, backtrack_threshold: 5, backtrack_count: 5 }
    }
}

/// Whether action `a` from `c` may be taken: it leads to a free cell other
/// than `c`, not yet visited unless revisits are allowed.
pub open spec fn qualifies(w: World, visited: Seq<bool>, c: Cell, a: int, relaxed: bool) -> bool {
    let n = w.grid.step(c, a);
    !w.walls@.contains(n) && n != c && (!visited[w.grid.index(n)] || relaxed)
}

/// Action `a` qualifies and no qualifying action has a larger value, nor an
/// equal value and a lower index.
pub open spec fn best_qualifying(w: World, values: Seq<i64>, visited: Seq<bool>, c: Cell, relaxed: bool, a: int) -> bool {
    &&& 0 <= a < 4
    &&& qualifies(w, visited, c, a, relaxed)
    &&& forall|b: int|
        0 <= b < 4 && qualifies(w, visited, c, b, relaxed) ==> values[slot(w.grid, c, b)] <= values[slot(w.grid, c, a)]
            && (values[slot(w.grid, c, b)] == values[slot(w.grid, c, a)] ==> a <= b)
}

/// The action that the rollout takes from `c`: the first qualifying one in
/// order of descending value, ties by action index; `None` if none qualifies.
pub open spec fn pick(w: World, values: Seq<i64>, visited: Seq<bool>, c: Cell, relaxed: bool) -> Option<int> {
    if exists|a: int| #[trigger] best_qualifying(w, values, visited, c, relaxed, a) {
        Some(choose|a: int| #[trigger] best_qualifying(w, values, visited, c, relaxed, a))
    } else {
        None
    }
}

/// The first action in order of descending value (ties by action index)
/// that qualifies, if any.
pub fn select_move(table: &QTable, w: &World, visited: &Vec<bool>, c: Cell, relaxed: bool) -> (r: Option<usize>)
    requires
        w.grid.wf(),
        table.grid == w.grid,
        table.values@.len() == w.grid.cells() * 4,
        visited@.len() == w.grid.cells(),
        w.grid.contains(c),
    ensures
        r is None <==> forall|b: int| 0 <= b < 4 ==> !qualifies(*w, visited@, c, b, relaxed),
        r is Some ==> r->Some_0 < ACTIONS && qualifies(*w, visited@, c, r->Some_0 as int, relaxed),
        r is Some ==> forall|b: int|
            0 <= b < 4 && qualifies(*w, visited@, c, b, relaxed) ==> table.values@[slot(w.grid, c, b)]
                <= table.values@[slot(w.grid, c, r->Some_0 as int)] && (table.values@[slot(w.grid, c, b)]
                == table.values@[slot(w.grid, c, r->Some_0 as int)] ==> r->Some_0 <= b),
        r is None ==> pick(*w, table.values@, visited@, c, relaxed) is None,
        r is Some ==> pick(*w, table.values@, visited@, c, relaxed) == Some(r->Some_0 as int),
{
    let mut best: Option<usize> = None;
    let mut a: usize = 0;
    while a < ACTIONS
        invariant
            w.grid.wf(),
            table.grid == w.grid,
            table.values@.len() == w.grid.cells() * 4,
            visited@.len() == w.grid.cells(),
            w.grid.contains(c),
            a <= ACTIONS,
            best is None <==> forall|b: int| 0 <= b < a ==> !qualifies(*w, visited@, c, b, relaxed),
            best is Some ==> best->Some_0 < a && qualifies(*w, visited@, c, best->Some_0 as int, relaxed),
            best is Some ==> forall|b: int|
                0 <= b < a && qualifies(*w, visited@, c, b, relaxed) ==> table.values@[slot(w.grid, c, b)]
                    <= table.values@[slot(w.grid, c, best->Some_0 as int)] && (table.values@[slot(w.grid, c, b)]
                    == table.values@[slot(w.grid, c, best->Some_0 as int)] ==> best->Some_0 <= b),
        decreases ACTIONS - a,
    {
        let n = next_cell(&w.grid, c, a);
        let ni = w.grid.index_of(n);
        let ok = !contains_cell(w.walls.as_slice(), n) && n != c && (!visited[ni] || relaxed);
        assert(ok == qualifies(*w, visited@, c, a as int, relaxed));
        if ok {
            let v = table.value(c, a);
            match best {
                None => {
                    best = Some(a);
                },
                Some(b) => {
                    if v > table.value(c, b) {
                        best = Some(a);
                    }
                },
            }
        }
        a += 1;
    }
    proof {
        let ghost v = table.values@;
        if best is Some {
            let x = best->Some_0 as int;
            assert(best_qualifying(*w, v, visited@, c, relaxed, x));
            let y = choose|a: int| #[trigger] best_qualifying(*w, v, visited@, c, relaxed, a);
            assert(best_qualifying(*w, v, visited@, c, relaxed, y));
            assert(v[slot(w.grid, c, y)] <= v[slot(w.grid, c, x)]);
            assert(v[slot(w.grid, c, x)] <= v[slot(w.grid, c, y)]);
        } else {
            assert forall|a: int| !#[trigger] best_qualifying(*w, v, visited@, c, relaxed, a) by {}
        }
    }
    best
}

/// `visited` with the last `k` cells of `path` unmarked, the last one first.
pub open spec fn unmark_last(g: Grid, visited: Seq<bool>, path: Seq<Cell>, k: int) -> Seq<bool>
    decreases k,
{
    if k <= 0 {
        visited
    } else {
        unmark_last(g, visited, path, k - 1).update(g.index(path[path.len() - k]), false)
    }
}

/// The number of cells that a cut of `count` removes from a path of `len`.
pub open spec fn cut_len(count: int, len: int) -> int {
    if count <= len {
        count
    } else {
        len
    }
}

/// Cuts the last `min(count, len)` cells off `path`, unmarking each in
/// `visited` as it goes.
pub fn backtrack(g: &Grid, path: &mut Vec<Cell>, visited: &mut Vec<bool>, count: usize)
    requires
        g.wf(),
        old(visited)@.len() == g.cells(),
        forall|j: int| 0 <= j < old(path)@.len() ==> g.contains(#[trigger] old(path)@[j]),
    ensures
        final(path)@ == old(path)@.subrange(
            0,
            old(path)@.len() - (if count <= old(path)@.len() {
                count as int
            } else {
                old(path)@.len() as int
            }),
        ),
        final(visited)@.len() == g.cells(),
        final(visited)@ == unmark_last(*g, old(visited)@, old(path)@, cut_len(count as int, old(path)@.len() as int)),
        forall|j: int|
            final(path)@.len() <= j < old(path)@.len() ==> !final(visited)@[g.index(#[trigger] old(path)@[j])],
        forall|i: int|
            0 <= i < g.cells() && (forall|j: int|
                final(path)@.len() <= j < old(path)@.len() ==> g.index(#[trigger] old(path)@[j]) != i)
                ==> final(visited)@[i] == old(visited)@[i],
{
    let ghost p0 = path@;
    let ghost v0 = visited@;
    let mut k: usize = 0;
    while k < count && path.len() > 0
        invariant
            g.wf(),
            visited@.len() == g.cells(),
            k <= count,
            k <= p0.len(),
            path@ == p0.subrange(0, p0.len() - k),
            visited@ == unmark_last(*g, v0, p0, k as int),
            forall|j: int| 0 <= j < p0.len() ==> g.contains(#[trigger] p0[j]),
            forall|j: int| p0.len() - k <= j < p0.len() ==> !visited@[g.index(#[trigger] p0[j])],
            forall|i: int|
                0 <= i < g.cells() && (forall|j: int| p0.len() - k <= j < p0.len() ==> g.index(#[trigger] p0[j]) != i)
                    ==> visited@[i] == v0[i],
        decreases count - k,
    {
        let last = path.pop().unwrap();
        proof {
            assert(last == p0[p0.len() - k - 1]);
            lemma_index_bounds(*g, last);
        }
        let li = g.index_of(last);
        visited.set(li, false);
        k += 1;
        proof {
            assert(path@ =~= p0.subrange(0, p0.len() - k));
            assert forall|j: int| p0.len() - k <= j < p0.len() implies !visited@[g.index(#[trigger] p0[j])] by {
                lemma_index_bounds(*g, p0[j]);
            }
        }
    }
}

/// The state of a rollout: the current cell, the path, the visited marks by
/// row-major position, the stuck count and the number of cuts made.
pub type RollState = (Cell, Seq<Cell>, Seq<bool>, int, int);

/// A rollout before its first step: at the start, nothing visited.
pub open spec fn roll_start(w: World) -> RollState {
    (w.start, seq![w.start], Seq::new(w.grid.cells(), |i: int| false), 0, 0)
}

/// One step of a rollout: mark the current cell, then take the picked move;
/// with none, count the step as stuck, and past the backtrack threshold cut
/// the path back (to the start if nothing is left).
pub open spec fn roll_step(w: World, values: Seq<i64>, limits: Limits, st: RollState) -> RollState {
    let vis = st.2.update(w.grid.index(st.0), true);
    match pick(w, values, vis, st.0, st.3 > limits.relax_threshold) {
        Some(a) => {
            let n = w.grid.step(st.0, a);
            (n, st.1.push(n), vis, 0, st.4)
        },
        None => {
            if st.3 >= limits.backtrack_threshold {
                let k = cut_len(limits.backtrack_count as int, st.1.len() as int);
                let p = st.1.subrange(0, st.1.len() - k);
                let v = unmark_last(w.grid, vis, st.1, k);
                if p.len() == 0 {
                    (w.start, seq![w.start], v, 0, st.4 + 1)
                } else {
                    (p.last(), p, v, 0, st.4 + 1)
                }
            } else {
                (st.0, st.1, vis, st.3 + 1, st.4)
            }
        },
    }
}

/// The rollout after `t` steps; it stays put once it stands on the goal.
pub open spec fn roll_run(w: World, values: Seq<i64>, limits: Limits, t: nat) -> RollState
    decreases t,
{
    if t == 0 {
        roll_start(w)
    } else {
        let prev = roll_run(w, values, limits, (t - 1) as nat);
        if prev.0 == w.goal {
            prev
        } else {
            roll_step(w, values, limits, prev)
        }
    }
}

/// The outcome of a greedy rollout.
#[derive(Clone, Debug)]
pub struct Rollout {
    /// The cells passed, from the start.
    pub path: Vec<Cell>,
    /// Whether the path ends at the goal.
    pub reached: bool,
    /// Steps spent, moves and stuck steps alike.
    pub steps: usize,
    /// How many times the path was cut back.
    pub backtracks: usize,
}

/// Follows the table greedily from the start for at most `max_steps` steps
/// or until the goal: each step takes the best qualifying move, else counts
/// as stuck; past the relax threshold a visited cell may be entered again,
/// past the backtrack threshold the path is cut back by `backtrack_count`
/// cells. A path cut down to nothing starts again from the start.
pub fn rollout(w: &World, table: &QTable, limits: &Limits) -> (r: Rollout)
    requires
        w.wf(),
        table.grid == w.grid,
        table.values@.len() == w.grid.cells() * 4,
    ensures
        r.path@.len() >= 1,
        r.path@[0] == w.start,
        is_walk(w.grid, w.walls@, r.path@),
        r.reached == (r.path@.last() == w.goal),
        r.steps <= limits.max_steps,
        r.path@.len() <= r.steps + 1,
        r.path@ == roll_run(*w, table.values@, *limits, r.steps as nat).1,
        r.backtracks == roll_run(*w, table.values@, *limits, r.steps as nat).4,
        r.steps == limits.max_steps || roll_run(*w, table.values@, *limits, r.steps as nat).0 == w.goal,
        forall|t: nat| t < r.steps ==> #[trigger] roll_run(*w, table.values@, *limits, t).0 != w.goal,
{
    let g = &w.grid;
    let mut visited = crate::qlearn::unmarked(g.cell_count());
    let mut s = w.start;
    let mut path: Vec<Cell> = Vec::new();
    path.push(s);
    let mut stuck: usize = 0;
    let mut backtracks: usize = 0;
    let mut t: usize = 0;
    proof {
        assert(is_walk(*g, w.walls@, path@));
        assert(visited@ =~= Seq::new(w.grid.cells(), |i: int| false));
        assert(path@ =~= seq![w.start]);
    }
    while t < limits.max_steps && s != w.goal
        invariant
            w.wf(),
            *g == w.grid,
            table.grid == w.grid,
            table.values@.len() == w.grid.cells() * 4,
            visited@.len() == g.cells(),
            t <= limits.max_steps,
            path@.len() >= 1,
            path@.len() <= t + 1,
            path@[0] == w.start,
            s == path@.last(),
            is_walk(*g, w.walls@, path@),
            stuck <= limits.backtrack_threshold,
            backtracks <= t,
            (s, path@, visited@, stuck as int, backtracks as int) == roll_run(*w, table.values@, *limits, t as nat),
            forall|t2: nat| t2 < t ==> #[trigger] roll_run(*w, table.values@, *limits, t2).0 != w.goal,
        decreases limits.max_steps - t,
    {
        let ghost before = roll_run(*w, table.values@, *limits, t as nat);
        assert(roll_run(*w, table.values@, *limits, (t + 1) as nat) == roll_step(*w, table.values@, *limits, before));
        proof {
            lemma_walk_in_grid(*g, w.walls@, path@);
        }
        let si = g.index_of(s);
        visited.set(si, true);
        match select_move(table, w, &visited, s, stuck > limits.relax_threshold) {
            Some(a) => {
                let ns = next_cell(g, s, a);
                proof {
                    assert(moves_to(*g, w.walls@, s, ns));
                    lemma_walk_push(*g, w.walls@, path@, ns);
                }
                s = ns;
                path.push(s);
                stuck = 0;
            },
            None => {
                // the count would pass the backtrack threshold
                if stuck >= limits.backtrack_threshold {
                    let ghost p0 = path@;
                    backtrack(g, &mut path, &mut visited, limits.backtrack_count);
                    if path.len() == 0 {
                        path.push(w.start);
                        proof {
                            assert(path@ =~= seq![w.start]);
                            assert(is_walk(*g, w.walls@, path@));
                        }
                    } else {
                        proof {
                            lemma_walk_prefix(*g, w.walls@, p0, path@.len() as int);
                        }
                    }
                    s = path[path.len() - 1];
                    stuck = 0;
                    backtracks += 1;
                } else {
                    stuck += 1;
                }
            },
        }
        t += 1;
        proof {
            assert forall|t2: nat| t2 < t implies #[trigger] roll_run(*w, table.values@, *limits, t2).0 != w.goal by {
                if t2 < t - 1 {
                    assert(roll_run(*w, table.values@, *limits, t2).0 != w.goal);
                }
            }
        }
    }
    let reached = s == w.goal;
    Rollout { path, reached, steps: t, backtracks }
}

proof fn lemma_walk_in_grid(g: Grid, walls: Seq<Cell>, p: Seq<Cell>)
    requires
        g.wf(),
        is_walk(g, walls, p),
    ensures
        forall|j: int| 0 <= j < p.len() ==> g.contains(#[trigger] p[j]),
{
    assert forall|j: int| 0 <= j < p.len() implies g.contains(#[trigger] p[j]) by {
        lemma_walk_cell(g, walls, p, j);
    }
}

proof fn lemma_walk_cell(g: Grid, walls: Seq<Cell>, p: Seq<Cell>, j: int)
    requires
        g.wf(),
        is_walk(g, walls, p),
        0 <= j < p.len(),
    ensures
        g.contains(p[j]),
    decreases j,
{
    if j > 0 {
        lemma_walk_cell(g, walls, p, j - 1);
        let i = j - 1;
        assert(moves_to(g, walls, p[i], p[i + 1]));
    }
}

proof fn lemma_walk_push(g: Grid, walls: Seq<Cell>, p: Seq<Cell>, n: Cell)
    requires
        is_walk(g, walls, p),
        moves_to(g, walls, p.last(), n),
    ensures
        is_walk(g, walls, p.push(n)),
{
    let q = p.push(n);
    assert forall|i: int| 0 <= i < q.len() - 1 implies #[trigger] moves_to(g, walls, q[i], q[i + 1]) by {
        if i < p.len() - 1 {
            assert(moves_to(g, walls, p[i], p[i + 1]));
        }
    }
}

proof fn lemma_walk_prefix(g: Grid, walls: Seq<Cell>, p: Seq<Cell>, len: int)
    requires
        is_walk(g, walls, p),
        1 <= len <= p.len(),
    ensures
        is_walk(g, walls, p.subrange(0, len)),
{
    let q = p.subrange(0, len);
    assert forall|i: int| 0 <= i < q.len() - 1 implies #[trigger] moves_to(g, walls, q[i], q[i + 1]) by {
        assert(moves_to(g, walls, p[i], p[i + 1]));
    }
}

} // verus!
