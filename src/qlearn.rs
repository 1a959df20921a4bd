use vstd::prelude::*;
use rand::rngs::StdRng;
use crate::grid::{lemma_cells_bound, lemma_index_bounds, next_cell, Cell, Grid, ACTIONS};
use crate::maze::{dead_end, is_dead_end, World};
use crate::random::draw_below;

verus! {

/// Fixed-point units in one whole value of the action-value table.
pub const SCALE: i64 = 1000;

/// Exploration rates are counted in millionths; this is a rate of one.
pub const EPSILON_ONE: u64 = 1_000_000;

/// The largest magnitude of a reward constant and the largest denominator
/// of a rate.
pub const LIMIT: i64 = 1_000_000;

/// The largest magnitude of a shaped reward: a reward constant plus the
/// distance-shaping term.
pub const REWARD_MAX: i64 = 2_000_000;

/// Training parameters. Rates are fractions `num / den`; rewards are in
/// fixed-point units (`SCALE` per whole value); exploration rates in
/// millionths.
#[derive(Clone, Copy, Debug)]
pub struct Hyper {
    pub alpha_num: i64,
    pub alpha_den: i64,
    pub gamma_num: i64,
    pub gamma_den: i64,
    pub epsilon_start: u64,
    pub epsilon_min: u64,
    pub decay_num: u64,
    pub decay_den: u64,
    pub episodes: usize,
    pub max_steps: usize,
    pub goal_bonus: i64,
    pub revisit_penalty: i64,
    pub dead_end_penalty: i64,
    pub step_cost: i64,
    pub obstacle_penalty: i64,
    pub shaping_scale: i64,
}

impl Hyper {
    pub open spec fn wf(&self) -> bool {
        &&& 0 <= self.alpha_num <= self.alpha_den <= LIMIT
        &&& 0 < self.alpha_den
        &&& 0 <= self.gamma_num < self.gamma_den <= LIMIT
        &&& self.epsilon_min <= self.epsilon_start <= EPSILON_ONE
        &&& self.decay_num <= self.decay_den <= LIMIT
        &&& 0 < self.decay_den
        &&& -LIMIT <= self.goal_bonus <= LIMIT
        &&& -LIMIT <= self.revisit_penalty <= LIMIT
        &&& -LIMIT <= self.dead_end_penalty <= LIMIT
        &&& -LIMIT <= self.step_cost <= LIMIT
        &&& -LIMIT <= self.obstacle_penalty <= LIMIT
        &&& 0 <= self.shaping_scale <= LIMIT
    }

    /// The bound on every action value that training keeps.
    pub open spec fn value_bound(&self) -> int {
        REWARD_MAX * self.gamma_den
    }

    /// alpha 0.1, gamma 0.99, epsilon from 1 down to 0.05 by a factor of
    /// 0.9995 per episode, 5000 episodes of at most 400 steps; rewards 200
    /// at the goal, -10 on a revisit, -25 into a dead end, -1 per step,
    /// -50 into an obstacle, and a shaping term of up to 2.
    pub fn standard() -> (r: Hyper)
        ensures
            r.wf(),
            r.alpha_num == 1 && r.alpha_den == 10,
            r.gamma_num == 99 && r.gamma_den == 100,
            r.epsilon_start == EPSILON_ONE && r.epsilon_min == 50_000,
            r.decay_num == 9995 && r.decay_den == 10000,
            r.episodes == 5000 && r.max_steps == 400,
            r.goal_bonus == 200 * SCALE,
            r.revisit_penalty == -10 * SCALE,
            r.dead_end_penalty == -25 * SCALE,
            r.step_cost == -1 * SCALE,
            r.obstacle_penalty == -50 * SCALE,
            r.shaping_scale == 2 * SCALE,
    {
        Hyper {
            alpha_num: 1,
            alpha_den: 10,
            gamma_num: 99,
            gamma_den: 100,
            epsilon_start: EPSILON_ONE,
            epsilon_min: 50_000,
            decay_num: 9995,
            decay_den: 10000,
            episodes: 5000,
            max_steps: 400,
            goal_bonus: 200 * SCALE,
            revisit_penalty: -10 * SCALE,
            dead_end_penalty: -25 * SCALE,
            step_cost: -1 * SCALE,
            obstacle_penalty: -50 * SCALE,
            shaping_scale: 2 * SCALE,
        }
    }
}

/// `num * x / den`, rounded away from zero.
pub open spec fn scaled(x: int, num: int, den: int) -> int {
    if x >= 0 {
        (num * x + den - 1) / den
    } else {
        -((num * (-x) + den - 1) / den)
    }
}

/// The temporal-difference update of `q` toward `target` at rate `num / den`.
pub open spec fn td_update(q: int, target: int, num: int, den: int) -> int {
    q + scaled(target - q, num, den)
}

/// A quotient rounded up stays within `k` when the dividend is at most `k * d`.
proof fn lemma_ceil_le(a: int, d: int, k: int)
    requires
        0 <= a <= k * d,
        0 < d,
        0 <= k,
    ensures
        0 <= (a + d - 1) / d <= k,
        a >= 1 ==> (a + d - 1) / d >= 1,
{
    vstd::arithmetic::div_mod::lemma_div_is_ordered(a + d - 1, k * d + (d - 1), d);
    vstd::arithmetic::div_mod::lemma_fundamental_div_mod_converse_div(k * d + (d - 1), d, k, d - 1);
    vstd::arithmetic::div_mod::lemma_div_pos_is_pos(a + d - 1, d);
    if a >= 1 {
        vstd::arithmetic::div_mod::lemma_div_is_ordered(d, a + d - 1, d);
        vstd::arithmetic::div_mod::lemma_fundamental_div_mod_converse_div(d, d, 1, 0);
    }
}

proof fn lemma_scaled_between(x: int, num: int, den: int)
    requires
        0 <= num <= den,
        0 < den,
    ensures
        x >= 0 ==> 0 <= scaled(x, num, den) <= x,
        x < 0 ==> x <= scaled(x, num, den) <= 0,
        x != 0 && num > 0 ==> scaled(x, num, den) != 0,
{
    let y = if x >= 0 {
        x
    } else {
        -x
    };
    assert(0 <= num * y <= y * den) by (nonlinear_arith)
        requires
            0 <= num <= den,
            0 <= y,
    ;
    if y >= 1 && num >= 1 {
        assert(num * y >= 1) by (nonlinear_arith)
            requires
                num >= 1,
                y >= 1,
        ;
    }
    lemma_ceil_le(num * y, den, y);
}

/// An update lands between the old value and the target, and moves off the
/// old value whenever the rate is positive and the two differ.
pub proof fn lemma_td_between(q: int, target: int, num: int, den: int)
    requires
        0 <= num <= den,
        0 < den,
    ensures
        q <= target ==> q <= td_update(q, target, num, den) <= target,
        target <= q ==> target <= td_update(q, target, num, den) <= q,
        num > 0 && target < q ==> td_update(q, target, num, den) < q,
        num > 0 && q < target ==> q < td_update(q, target, num, den),
{
    lemma_scaled_between(target - q, num, den);
}

proof fn lemma_discount_bound(m: int, num: int, den: int, r: int)
    requires
        0 <= num < den,
        0 <= r,
        -(r * den) <= m <= r * den,
    ensures
        -(r * den - r) <= scaled(m, num, den) <= r * den - r,
{
    let y = if m >= 0 {
        m
    } else {
        -m
    };
    assert(0 <= num * y <= ((den - 1) * r) * den) by (nonlinear_arith)
        requires
            0 <= num <= den - 1,
            0 <= y <= r * den,
            0 <= r,
    ;
    assert(0 <= (den - 1) * r) by (nonlinear_arith)
        requires
            1 <= den,
            0 <= r,
    ;
    lemma_ceil_le(num * y, den, (den - 1) * r);
    assert((den - 1) * r == r * den - r) by (nonlinear_arith);
}

/// `scaled(x, num, den)` for values in the range that training produces.
fn scale_rate(x: i64, num: i64, den: i64) -> (r: i64)
    requires
        -4_000_000_000_000 <= x <= 4_000_000_000_000,
        0 <= num <= den <= LIMIT,
        0 < den,
    ensures
        r == scaled(x as int, num as int, den as int),
{
    proof {
        lemma_scaled_between(x as int, num as int, den as int);
    }
    if x >= 0 {
        assert(0 <= num * x <= 4_000_000_000_000_000_000) by (nonlinear_arith)
            requires
                0 <= num <= 1_000_000,
                0 <= x <= 4_000_000_000_000,
        ;
        (num * x + den - 1) / den
    } else {
        let y: i64 = -x;
        assert(0 <= num * y <= 4_000_000_000_000_000_000) by (nonlinear_arith)
            requires
                0 <= num <= 1_000_000,
                0 <= y <= 4_000_000_000_000,
        ;
        -((num * y + den - 1) / den)
    }
}

/// The action-value table: four values per cell, in row-major order of the
/// cells and action order within a cell.
#[derive(Clone, Debug)]
pub struct QTable {
    pub grid: Grid,
    pub values: Vec<i64>,
}

/// The position of the value of action `a` at cell `c`.
pub open spec fn slot(g: Grid, c: Cell, a: int) -> int {
    g.index(c) * 4 + a
}

/// The larger of two values.
pub open spec fn max2(a: int, b: int) -> int {
    if a >= b {
        a
    } else {
        b
    }
}

/// The largest of the four values of the row that starts at `base`.
pub open spec fn row_max(v: Seq<i64>, base: int) -> int {
    max2(max2(v[base] as int, v[base + 1] as int), max2(v[base + 2] as int, v[base + 3] as int))
}

/// The first action of the row that starts at `base` whose value is the
/// largest: a later action wins only with a strictly larger value.
pub open spec fn greedy(v: Seq<i64>, base: int) -> int {
    let m = row_max(v, base);
    if v[base] == m {
        0
    } else if v[base + 1] == m {
        1
    } else if v[base + 2] == m {
        2
    } else {
        3
    }
}

impl QTable {
    /// Four values for each cell of the grid, each within `limit` of zero.
    pub open spec fn bounded(&self, limit: int) -> bool {
        &&& self.grid.wf()
        &&& self.values@.len() == self.grid.cells() * 4
        &&& forall|i: int| 0 <= i < self.values@.len() ==> -limit <= #[trigger] self.values@[i] <= limit
    }

    /// A table of zeros with `WIDTH * HEIGHT * 4` entries.
    pub fn new(g: &Grid) -> (r: QTable)
        requires
            g.wf(),
        ensures
            r.grid == *g,
            r.values@.len() == g.cells() * 4,
            forall|i: int| 0 <= i < r.values@.len() ==> r.values@[i] == 0,
    {
        let n = g.cell_count() * ACTIONS;
        let mut values: Vec<i64> = Vec::new();
        while values.len() < n
            invariant
                values.len() <= n,
                forall|i: int| 0 <= i < values.len() ==> values@[i] == 0,
            decreases n - values.len(),
        {
            values.push(0);
        }
        QTable { grid: *g, values }
    }

    /// The position of the value of action `a` at `c`.
    pub fn slot_of(&self, c: Cell, a: usize) -> (r: usize)
        requires
            self.grid.wf(),
            self.grid.contains(c),
            a < ACTIONS,
        ensures
            r == slot(self.grid, c, a as int),
            r + ACTIONS - a <= self.grid.cells() * 4,
    {
        let i = self.grid.index_of(c);
        proof {
            lemma_cells_bound(self.grid);
        }
        i * ACTIONS + a
    }

    /// The value of action `a` at `c`.
    pub fn value(&self, c: Cell, a: usize) -> (r: i64)
        requires
            self.grid.wf(),
            self.values@.len() == self.grid.cells() * 4,
            self.grid.contains(c),
            a < ACTIONS,
        ensures
            r == self.values@[slot(self.grid, c, a as int)],
    {
        let i = self.slot_of(c, a);
        self.values[i]
    }

    /// The largest value at `c`.
    pub fn max_value(&self, c: Cell) -> (r: i64)
        requires
            self.grid.wf(),
            self.values@.len() == self.grid.cells() * 4,
            self.grid.contains(c),
        ensures
            r == row_max(self.values@, slot(self.grid, c, 0)),
    {
        let b = self.slot_of(c, 0);
        let v0 = self.values[b];
        let v1 = self.values[b + 1];
        let v2 = self.values[b + 2];
        let v3 = self.values[b + 3];
        let m01 = if v0 >= v1 {
            v0
        } else {
            v1
        };
        let m23 = if v2 >= v3 {
            v2
        } else {
            v3
        };
        if m01 >= m23 {
            m01
        } else {
            m23
        }
    }

    /// The action with the largest value at `c`; ties go to the lowest action.
    pub fn best_action(&self, c: Cell) -> (r: usize)
        requires
            self.grid.wf(),
            self.values@.len() == self.grid.cells() * 4,
            self.grid.contains(c),
        ensures
            r == greedy(self.values@, slot(self.grid, c, 0)),
            r < ACTIONS,
    {
        let b = self.slot_of(c, 0);
        let mut best: usize = 0;
        let mut a: usize = 1;
        while a < ACTIONS
            invariant
                b == slot(self.grid, c, 0),
                b + 4 <= self.values@.len(),
                1 <= a <= ACTIONS,
                best < a,
                forall|k: int| 0 <= k < a ==> #[trigger] self.values@[b + k] <= self.values@[b + best],
                forall|k: int| 0 <= k < best ==> #[trigger] self.values@[b + k] < self.values@[b + best],
            decreases ACTIONS - a,
        {
            if self.values[b + a] > self.values[b + best] {
                best = a;
            }
            a += 1;
        }
        best
    }
}

/// The distance-shaping term for a move into `cand`:
/// `scale * (maxd - distance(cand, goal)) / maxd` with `maxd = WIDTH + HEIGHT`.
pub open spec fn shaping(h: Hyper, g: Grid, cand: Cell, goal: Cell) -> int {
    let maxd = g.height + g.width;
    h.shaping_scale * (maxd - g.distance(cand, goal)) / maxd
}

/// The reward before shaping for a move into `cand`, given the cells
/// visited in this episode.
pub open spec fn base_reward(h: Hyper, w: World, visited: Seq<bool>, cand: Cell) -> int {
    if cand == w.goal {
        h.goal_bonus as int
    } else if visited[w.grid.index(cand)] {
        h.revisit_penalty as int
    } else if dead_end(w.grid, w.walls@, visited, cand) {
        h.dead_end_penalty as int
    } else {
        h.step_cost as int
    }
}

/// The shaped reward: the base reward plus the distance-shaping term,
/// on every move, that into the goal included.
pub open spec fn reward(h: Hyper, w: World, visited: Seq<bool>, cand: Cell) -> int {
    base_reward(h, w, visited, cand) + shaping(h, w.grid, cand, w.goal)
}

/// The shaping term is added on a move into the goal as well: such a move
/// earns the goal bonus plus the full shaping scale.
pub proof fn lemma_goal_reward_shaped(h: Hyper, w: World, visited: Seq<bool>)
    requires
        w.grid.wf(),
    ensures
        reward(h, w, visited, w.goal) == h.goal_bonus + h.shaping_scale,
        shaping(h, w.grid, w.goal, w.goal) == h.shaping_scale,
{
    let maxd = w.grid.height + w.grid.width;
    assert(w.grid.distance(w.goal, w.goal) == 0);
    vstd::arithmetic::div_mod::lemma_div_multiples_vanish(h.shaping_scale as int, maxd);
    assert(h.shaping_scale * maxd == maxd * h.shaping_scale) by (nonlinear_arith);
}

proof fn lemma_shaping_bounds(h: Hyper, g: Grid, cand: Cell, goal: Cell)
    requires
        h.wf(),
        g.wf(),
        g.contains(cand),
        g.contains(goal),
    ensures
        0 <= shaping(h, g, cand, goal) <= h.shaping_scale,
{
    let maxd = g.height + g.width;
    let d = g.distance(cand, goal);
    assert(0 <= h.shaping_scale * (maxd - d) <= maxd * h.shaping_scale) by (nonlinear_arith)
        requires
            0 <= d <= maxd,
            0 <= h.shaping_scale,
    ;
    vstd::arithmetic::div_mod::lemma_div_is_ordered(h.shaping_scale * (maxd - d), maxd * h.shaping_scale, maxd);
    vstd::arithmetic::div_mod::lemma_div_multiples_vanish(h.shaping_scale as int, maxd);
    vstd::arithmetic::div_mod::lemma_div_pos_is_pos(h.shaping_scale * (maxd - d), maxd);
}

/// The shaped reward for a move into `cand`; `visited` marks the cells of
/// this episode by row-major position.
pub fn shaped_reward(h: &Hyper, w: &World, visited: &Vec<bool>, cand: Cell) -> (r: i64)
    requires
        h.wf(),
        w.grid.wf(),
        w.grid.contains(cand),
        w.grid.contains(w.goal),
        visited@.len() == w.grid.cells(),
    ensures
        r == reward(*h, *w, visited@, cand),
        -REWARD_MAX <= r <= REWARD_MAX,
{
    let g = &w.grid;
    let base: i64 = if cand == w.goal {
        h.goal_bonus
    } else if visited[g.index_of(cand)] {
        h.revisit_penalty
    } else if is_dead_end(g, cand, w.walls.as_slice(), visited.as_slice()) {
        h.dead_end_penalty
    } else {
        h.step_cost
    };
    let dr: usize = if cand.row >= w.goal.row {
        cand.row - w.goal.row
    } else {
        w.goal.row - cand.row
    };
    let dc: usize = if cand.col >= w.goal.col {
        cand.col - w.goal.col
    } else {
        w.goal.col - cand.col
    };
    let maxd = (g.height + g.width) as i64;
    let d = (dr + dc) as i64;
    proof {
        lemma_shaping_bounds(*h, *g, cand, w.goal);
        assert(h.shaping_scale * (maxd - d) <= 1_000_000 * 2_000_000) by (nonlinear_arith)
            requires
                0 <= h.shaping_scale <= 1_000_000,
                0 <= maxd - d <= 2_000_000,
        ;
        assert(0 <= h.shaping_scale * (maxd - d)) by (nonlinear_arith)
            requires
                0 <= h.shaping_scale,
                0 <= maxd - d,
        ;
    }
    base + h.shaping_scale * (maxd - d) / maxd
}

/// The next exploration rate: `max(epsilon_min, epsilon * decay)`.
pub open spec fn decayed(h: Hyper, epsilon: int) -> int {
    max2(h.epsilon_min as int, epsilon * (h.decay_num as int) / (h.decay_den as int))
}

/// The next exploration rate: `max(epsilon_min, epsilon * decay)`.
pub fn decay_epsilon(h: &Hyper, epsilon: u64) -> (r: u64)
    requires
        h.wf(),
        epsilon <= EPSILON_ONE,
    ensures
        r == decayed(*h, epsilon as int),
{
    assert(epsilon * h.decay_num <= 1_000_000 * 1_000_000) by (nonlinear_arith)
        requires
            epsilon <= 1_000_000,
            h.decay_num <= 1_000_000,
    ;
    let d = epsilon * h.decay_num / h.decay_den;
    if h.epsilon_min >= d {
        h.epsilon_min
    } else {
        d
    }
}

/// From one episode to the next the exploration rate never grows and never
/// drops below its floor.
pub proof fn lemma_epsilon_decay(h: Hyper, epsilon: int)
    requires
        h.wf(),
        h.epsilon_min <= epsilon <= EPSILON_ONE,
    ensures
        h.epsilon_min <= decayed(h, epsilon) <= epsilon,
{
    assert(epsilon * h.decay_num <= h.decay_den * epsilon) by (nonlinear_arith)
        requires
            h.decay_num <= h.decay_den,
            0 <= epsilon,
    ;
    vstd::arithmetic::div_mod::lemma_div_is_ordered(epsilon * h.decay_num, h.decay_den * epsilon, h.decay_den as int);
    vstd::arithmetic::div_mod::lemma_div_multiples_vanish(epsilon as int, h.decay_den as int);
}

/// Moving into an obstacle pulls the value toward the obstacle penalty: from
/// any value at or above the penalty it never rises and never passes it, and
/// from above the penalty at a positive rate it strictly drops.
pub proof fn lemma_obstacle_update_lowers(h: Hyper, q: int)
    requires
        h.wf(),
        h.obstacle_penalty <= q,
    ensures
        h.obstacle_penalty <= td_update(q, h.obstacle_penalty as int, h.alpha_num as int, h.alpha_den as int) <= q,
        h.alpha_num > 0 && q > h.obstacle_penalty ==> td_update(
            q,
            h.obstacle_penalty as int,
            h.alpha_num as int,
            h.alpha_den as int,
        ) < q,
{
    lemma_td_between(q, h.obstacle_penalty as int, h.alpha_num as int, h.alpha_den as int);
}

/// The target of the update for a move into the free cell `cand`: the shaped
/// reward plus the discounted best value at `cand`.
pub open spec fn learn_target(h: Hyper, w: World, values: Seq<i64>, visited: Seq<bool>, cand: Cell) -> int {
    reward(h, w, visited, cand) + scaled(
        row_max(values, slot(w.grid, cand, 0)),
        h.gamma_num as int,
        h.gamma_den as int,
    )
}

/// The effect of one training step with `action` from `state`: the new
/// values, the new visited marks, the new cell, and whether it is the goal.
pub open spec fn train_effect(
    w: World,
    h: Hyper,
    values: Seq<i64>,
    visited: Seq<bool>,
    state: Cell,
    action: int,
) -> (Seq<i64>, Seq<bool>, Cell, bool) {
    let vis = visited.update(w.grid.index(state), true);
    let cand = w.grid.step(state, action);
    let k = slot(w.grid, state, action);
    if w.walls@.contains(cand) {
        (
            values.update(k, td_update(values[k] as int, h.obstacle_penalty as int, h.alpha_num as int, h.alpha_den as int) as i64),
            vis,
            state,
            false,
        )
    } else {
        (
            values.update(
                k,
                td_update(values[k] as int, learn_target(h, w, values, vis, cand), h.alpha_num as int, h.alpha_den as int) as i64,
            ),
            vis,
            cand,
            cand == w.goal,
        )
    }
}

/// An episode before its first step: at the start, nothing visited.
pub open spec fn ep_init(w: World, values: Seq<i64>) -> (Seq<i64>, Seq<bool>, Cell, bool) {
    (values, Seq::new(w.grid.cells(), |i: int| false), w.start, false)
}

/// An episode after taking `acts` in turn, each a step whether it moves or
/// bumps into an obstacle; once at the goal nothing changes.
pub open spec fn ep_state(w: World, h: Hyper, values: Seq<i64>, acts: Seq<int>) -> (Seq<i64>, Seq<bool>, Cell, bool)
    decreases acts.len(),
{
    if acts.len() == 0 {
        ep_init(w, values)
    } else {
        let p = ep_state(w, h, values, acts.drop_last());
        if p.3 {
            p
        } else {
            train_effect(w, h, p.0, p.1, p.2, acts.last())
        }
    }
}

/// A sequence of actions that one episode may take: at most `max_steps`
/// actions, fewer only when the goal was reached.
pub open spec fn run_ok(w: World, h: Hyper, values: Seq<i64>, acts: Seq<int>) -> bool {
    &&& acts.len() <= h.max_steps
    &&& forall|i: int| 0 <= i < acts.len() ==> 0 <= #[trigger] acts[i] < 4
    &&& acts.len() == h.max_steps || ep_state(w, h, values, acts).3
}

/// An episode after `n` steps that each take the greedy action.
pub open spec fn ep_greedy(w: World, h: Hyper, values: Seq<i64>, n: nat) -> (Seq<i64>, Seq<bool>, Cell, bool)
    decreases n,
{
    if n == 0 {
        ep_init(w, values)
    } else {
        let p = ep_greedy(w, h, values, (n - 1) as nat);
        if p.3 {
            p
        } else {
            train_effect(w, h, p.0, p.1, p.2, greedy(p.0, slot(w.grid, p.2, 0)))
        }
    }
}

proof fn lemma_greedy_done(w: World, h: Hyper, values: Seq<i64>, n: nat, m: nat)
    requires
        n <= m,
        ep_greedy(w, h, values, n).3,
    ensures
        ep_greedy(w, h, values, m) == ep_greedy(w, h, values, n),
    decreases m - n,
{
    if m > n {
        lemma_greedy_done(w, h, values, n, (m - 1) as nat);
    }
}

/// The actions of an episode are the greedy ones: each is the greedy action
/// at the cell reached by those before it, in the table as it stood then.
pub open spec fn greedy_run(w: World, h: Hyper, values: Seq<i64>, acts: Seq<int>) -> bool {
    forall|i: int|
        0 <= i < acts.len() ==> #[trigger] acts[i] == greedy(
            ep_state(w, h, values, acts.take(i)).0,
            slot(w.grid, ep_state(w, h, values, acts.take(i)).2, 0),
        )
}

/// The exploration rate of episode `i`: the start rate, decayed once after
/// each episode before it.
pub open spec fn eps_at(h: Hyper, i: nat) -> int
    decreases i,
{
    if i == 0 {
        h.epsilon_start as int
    } else {
        decayed(h, eps_at(h, (i - 1) as nat))
    }
}

/// Over consecutive episodes the exploration rate never grows and never drops
/// below its floor.
pub proof fn lemma_epsilon_schedule(h: Hyper, i: nat)
    requires
        h.wf(),
    ensures
        h.epsilon_min <= eps_at(h, i + 1) <= eps_at(h, i) <= EPSILON_ONE,
    decreases i,
{
    if i > 0 {
        lemma_epsilon_schedule(h, (i - 1) as nat);
    }
    lemma_epsilon_decay(h, eps_at(h, i));
}

/// A table of zeros for the world's grid.
pub open spec fn zeros(w: World) -> Seq<i64> {
    Seq::new(w.grid.cells() * 4, |i: int| 0i64)
}

/// The values after training episodes that take the runs of `runs` in turn.
pub open spec fn trained(w: World, h: Hyper, runs: Seq<Seq<int>>) -> Seq<i64>
    decreases runs.len(),
{
    if runs.len() == 0 {
        zeros(w)
    } else {
        ep_state(w, h, trained(w, h, runs.drop_last()), runs.last()).0
    }
}

/// The values after `n` greedy episodes.
pub open spec fn trained_greedy(w: World, h: Hyper, n: nat) -> Seq<i64>
    decreases n,
{
    if n == 0 {
        zeros(w)
    } else {
        ep_greedy(w, h, trained_greedy(w, h, (n - 1) as nat), h.max_steps as nat).0
    }
}

/// `n` unmarked cells.
pub fn unmarked(n: usize) -> (r: Vec<bool>)
    ensures
        r@.len() == n,
        forall|i: int| 0 <= i < n ==> !r@[i],
{
    let mut v: Vec<bool> = Vec::new();
    while v.len() < n
        invariant
            v.len() <= n,
            forall|i: int| 0 <= i < v.len() ==> !v@[i],
        decreases n - v.len(),
    {
        v.push(false);
    }
    v
}

/// One training step from `state` with the chosen `action`: marks `state`
/// visited, then either stays put and pulls the value toward the obstacle
/// penalty, or moves to the next cell after the bootstrapped update.
/// Returns the new cell and whether it is the goal.
pub fn train_step(
    table: &mut QTable,
    w: &World,
    h: &Hyper,
    visited: &mut Vec<bool>,
    state: Cell,
    action: usize,
) -> (r: (Cell, bool))
    requires
        h.wf(),
        w.wf(),
        old(table).grid == w.grid,
        old(table).bounded(h.value_bound()),
        old(visited)@.len() == w.grid.cells(),
        w.grid.contains(state),
        action < ACTIONS,
    ensures
        final(table).grid == w.grid,
        final(table).bounded(h.value_bound()),
        final(visited)@.len() == old(visited)@.len(),
        final(visited)@ == old(visited)@.update(w.grid.index(state), true),
        (final(table).values@, final(visited)@, r.0, r.1) == train_effect(
            *w,
            *h,
            old(table).values@,
            old(visited)@,
            state,
            action as int,
        ),
        w.walls@.contains(w.grid.step(state, action as int)) ==> r == (state, false)
            && final(table).values@ == old(table).values@.update(
            slot(w.grid, state, action as int),
            td_update(
                old(table).values@[slot(w.grid, state, action as int)] as int,
                h.obstacle_penalty as int,
                h.alpha_num as int,
                h.alpha_den as int,
            ) as i64,
        ),
        !w.walls@.contains(w.grid.step(state, action as int)) ==> r == (
            w.grid.step(state, action as int),
            w.grid.step(state, action as int) == w.goal,
        ) && final(table).values@ == old(table).values@.update(
            slot(w.grid, state, action as int),
            td_update(
                old(table).values@[slot(w.grid, state, action as int)] as int,
                learn_target(*h, *w, old(table).values@, final(visited)@, w.grid.step(state, action as int)),
                h.alpha_num as int,
                h.alpha_den as int,
            ) as i64,
        ),
{
    let g = &w.grid;
    let si = g.index_of(state);
    visited.set(si, true);
    let k = table.slot_of(state, action);
    let q = table.values[k];
    let next = next_cell(g, state, action);
    let ghost bound = h.value_bound();
    proof {
        assert(-bound <= table.values@[k as int] <= bound);
        assert(bound >= REWARD_MAX);
    }
    let target: i64 = if crate::grid::contains_cell(w.walls.as_slice(), next) {
        h.obstacle_penalty
    } else {
        let rw = shaped_reward(h, w, visited, next);
        let m = table.max_value(next);
        proof {
            let b = slot(*g, next, 0);
            lemma_index_bounds(*g, next);
            assert(b + 3 < table.values@.len());
            assert(-bound <= table.values@[b] <= bound);
            assert(-bound <= table.values@[b + 1] <= bound);
            assert(-bound <= table.values@[b + 2] <= bound);
            assert(-bound <= table.values@[b + 3] <= bound);
            lemma_discount_bound(m as int, h.gamma_num as int, h.gamma_den as int, REWARD_MAX as int);
        }
        let disc = scale_rate(m, h.gamma_num, h.gamma_den);
        rw + disc
    };
    proof {
        lemma_td_between(q as int, target as int, h.alpha_num as int, h.alpha_den as int);
    }
    let step = scale_rate(target - q, h.alpha_num, h.alpha_den);
    let nq = q + step;
    let ghost before = table.values@;
    table.values.set(k, nq);
    proof {
        assert forall|i: int| 0 <= i < table.values@.len() implies -bound <= #[trigger] table.values@[i] <= bound by {
            if i != k as int {
                assert(table.values@[i] == before[i]);
            }
        }
    }
    if crate::grid::contains_cell(w.walls.as_slice(), next) {
        (state, false)
    } else {
        (next, next == w.goal)
    }
}

/// The epsilon-greedy decision at `c` once the draws are made: `random_action`
/// when `roll` falls below `epsilon`, else the greedy action.
pub fn epsilon_greedy(table: &QTable, c: Cell, epsilon: u64, roll: u64, random_action: usize) -> (r: usize)
    requires
        table.grid.wf(),
        table.values@.len() == table.grid.cells() * 4,
        table.grid.contains(c),
    ensures
        roll < epsilon ==> r == random_action,
        roll >= epsilon ==> r == greedy(table.values@, slot(table.grid, c, 0)),
{
    if roll < epsilon {
        random_action
    } else {
        table.best_action(c)
    }
}

/// Epsilon-greedy choice at `c`: a roll in millionths below `epsilon` picks
/// a uniformly random action, else the greedy one. At a rate of zero the
/// choice is always greedy.
pub fn choose_action(table: &QTable, c: Cell, epsilon: u64, rng: &mut StdRng) -> (r: usize)
    requires
        table.grid.wf(),
        table.values@.len() == table.grid.cells() * 4,
        table.grid.contains(c),
    ensures
        r < ACTIONS,
        epsilon == 0 ==> r == greedy(table.values@, slot(table.grid, c, 0)),
{
    let roll = draw_below(rng, EPSILON_ONE as usize) as u64;
    if roll < epsilon {
        let a = draw_below(rng, ACTIONS);
        epsilon_greedy(table, c, epsilon, roll, a)
    } else {
        epsilon_greedy(table, c, epsilon, roll, 0)
    }
}

/// One training episode from the start: at most `max_steps` steps, ending
/// early at the goal, with a fresh set of visited cells. Returns whether the
/// goal was reached.
pub fn run_episode(table: &mut QTable, w: &World, h: &Hyper, epsilon: u64, rng: &mut StdRng) -> (reached: bool)
    requires
        h.wf(),
        w.wf(),
        old(table).grid == w.grid,
        old(table).bounded(h.value_bound()),
    ensures
        final(table).grid == w.grid,
        final(table).bounded(h.value_bound()),
        exists|acts: Seq<int>|
            run_ok(*w, *h, old(table).values@, acts) && (epsilon == 0 ==> greedy_run(
                *w,
                *h,
                old(table).values@,
                acts,
            )) && (final(table).values@, reached) == (
                ep_state(*w, *h, old(table).values@, acts).0,
                ep_state(*w, *h, old(table).values@, acts).3,
            ),
        epsilon == 0 ==> (final(table).values@, reached) == (
            ep_greedy(*w, *h, old(table).values@, h.max_steps as nat).0,
            ep_greedy(*w, *h, old(table).values@, h.max_steps as nat).3,
        ),
{
    let ghost v0 = table.values@;
    let ghost mut acts: Seq<int> = Seq::empty();
    let mut visited = unmarked(w.grid.cell_count());
    let mut state = w.start;
    let mut t: usize = 0;
    let mut reached = false;
    proof {
        assert(visited@ =~= Seq::new(w.grid.cells(), |i: int| false));
    }
    while t < h.max_steps && !reached
        invariant
            h.wf(),
            w.wf(),
            table.grid == w.grid,
            table.bounded(h.value_bound()),
            visited@.len() == w.grid.cells(),
            w.grid.contains(state),
            t <= h.max_steps,
            acts.len() == t,
            forall|i: int| 0 <= i < acts.len() ==> 0 <= #[trigger] acts[i] < 4,
            epsilon == 0 ==> greedy_run(*w, *h, v0, acts),
            ep_state(*w, *h, v0, acts) == (table.values@, visited@, state, reached),
            epsilon == 0 ==> ep_greedy(*w, *h, v0, t as nat) == (table.values@, visited@, state, reached),
        decreases h.max_steps - t,
    {
        let action = choose_action(table, state, epsilon, rng);
        let ghost before = (table.values@, visited@, state);
        let (next, done) = train_step(table, w, h, &mut visited, state, action);
        proof {
            let old_acts = acts;
            acts = acts.push(action as int);
            assert(acts.drop_last() =~= old_acts);
            assert forall|i: int| 0 <= i < acts.len() implies 0 <= #[trigger] acts[i] < 4 by {
                if i < old_acts.len() {
                    assert(acts[i] == old_acts[i]);
                }
            }
            assert(ep_state(*w, *h, v0, acts) == train_effect(*w, *h, before.0, before.1, before.2, action as int));
            if epsilon == 0 {
                assert forall|i: int| 0 <= i < acts.len() implies #[trigger] acts[i] == greedy(
                    ep_state(*w, *h, v0, acts.take(i)).0,
                    slot(w.grid, ep_state(*w, *h, v0, acts.take(i)).2, 0),
                ) by {
                    if i < old_acts.len() {
                        assert(acts.take(i) =~= old_acts.take(i));
                        assert(acts[i] == old_acts[i]);
                    } else {
                        assert(acts.take(i) =~= old_acts);
                    }
                }
                assert(ep_greedy(*w, *h, v0, (t + 1) as nat) == train_effect(
                    *w,
                    *h,
                    before.0,
                    before.1,
                    before.2,
                    action as int,
                ));
            }
        }
        state = next;
        reached = done;
        t += 1;
    }
    proof {
        assert(run_ok(*w, *h, v0, acts));
        if epsilon == 0 && reached {
            lemma_greedy_done(*w, *h, v0, t as nat, h.max_steps as nat);
        }
    }
    reached
}

/// Trains a table of zeros for `episodes` episodes, the exploration rate
/// starting at `epsilon_start` and decaying after each episode.
pub fn train(w: &World, h: &Hyper, rng: &mut StdRng) -> (r: QTable)
    requires
        h.wf(),
        w.wf(),
    ensures
        r.grid == w.grid,
        r.bounded(h.value_bound()),
        exists|runs: Seq<Seq<int>>|
            runs.len() == h.episodes && r.values@ == trained(*w, *h, runs) && forall|i: int|
                0 <= i < runs.len() ==> run_ok(*w, *h, trained(*w, *h, runs.subrange(0, i)), #[trigger] runs[i])
                    && (eps_at(*h, i as nat) == 0 ==> greedy_run(*w, *h, trained(*w, *h, runs.subrange(0, i)), runs[i])),
        h.epsilon_start == 0 ==> r.values@ == trained_greedy(*w, *h, h.episodes as nat),
{
    let mut table = QTable::new(&w.grid);
    let mut epsilon = h.epsilon_start;
    let mut ep: usize = 0;
    let ghost mut runs: Seq<Seq<int>> = Seq::empty();
    proof {
        assert(table.values@ =~= zeros(*w));
    }
    while ep < h.episodes
        invariant
            h.wf(),
            w.wf(),
            table.grid == w.grid,
            table.bounded(h.value_bound()),
            h.epsilon_min <= epsilon <= h.epsilon_start,
            h.epsilon_start == 0 ==> epsilon == 0,
            ep <= h.episodes,
            runs.len() == ep,
            table.values@ == trained(*w, *h, runs),
            epsilon == eps_at(*h, ep as nat),
            forall|i: int|
                0 <= i < runs.len() ==> run_ok(*w, *h, trained(*w, *h, runs.subrange(0, i)), #[trigger] runs[i])
                    && (eps_at(*h, i as nat) == 0 ==> greedy_run(*w, *h, trained(*w, *h, runs.subrange(0, i)), runs[i])),
            h.epsilon_start == 0 ==> table.values@ == trained_greedy(*w, *h, ep as nat),
        decreases h.episodes - ep,
    {
        let ghost v0 = table.values@;
        run_episode(&mut table, w, h, epsilon, rng);
        proof {
            let acts = choose|acts: Seq<int>|
                run_ok(*w, *h, v0, acts) && (epsilon == 0 ==> greedy_run(*w, *h, v0, acts)) && (table.values@, true) == (
                    ep_state(*w, *h, v0, acts).0,
                    true,
                );
            let old_runs = runs;
            runs = runs.push(acts);
            assert(runs.drop_last() =~= old_runs);
            assert forall|i: int| 0 <= i < runs.len() implies run_ok(*w, *h, trained(*w, *h, runs.subrange(0, i)), #[trigger] runs[i])
                && (eps_at(*h, i as nat) == 0 ==> greedy_run(*w, *h, trained(*w, *h, runs.subrange(0, i)), runs[i])) by {
                if i < old_runs.len() {
                    assert(runs.subrange(0, i) =~= old_runs.subrange(0, i));
                    assert(runs[i] == old_runs[i]);
                } else {
                    assert(runs.subrange(0, i) =~= old_runs);
                }
            }
            lemma_epsilon_decay(*h, epsilon as int);
        }
        epsilon = decay_epsilon(h, epsilon);
        ep += 1;
        proof {
            assert(eps_at(*h, ep as nat) == decayed(*h, eps_at(*h, (ep - 1) as nat)));
        }
    }
    table
}

} // verus!
