use maze_rl::{
    backtrack, choose_action, decay_epsilon, epsilon_greedy, has_path, rollout, run_episode, select_move, shaped_reward, train,
    train_step, unmarked, Cell, Grid, Hyper, Limits, QTable, World, SCALE,
};
use rand::rngs::StdRng;
use rand::SeedableRng;

fn cell(row: usize, col: usize) -> Cell {
    Cell { row, col }
}

fn world(height: usize, width: usize, start: Cell, goal: Cell, walls: Vec<Cell>) -> World {
    World { grid: Grid { height, width }, start, goal, walls }
}

#[test]
fn new_table_holds_four_zeros_per_cell() {
    let t = QTable::new(&Grid { height: 20, width: 20 });
    assert_eq!(t.values.len(), 20 * 20 * 4);
    assert!(t.values.iter().all(|v| *v == 0));
}

#[test]
fn step_into_obstacle_stays_and_lowers_the_value() {
    let w = world(3, 3, cell(0, 0), cell(2, 2), vec![cell(0, 1)]);
    let h = Hyper::standard();
    let mut t = QTable::new(&w.grid);
    let mut visited = unmarked(9);
    let r = train_step(&mut t, &w, &h, &mut visited, cell(0, 0), 3);
    assert_eq!(r, (cell(0, 0), false));
    assert_eq!(t.value(cell(0, 0), 3), -5000);
    assert!(visited[0]);
    let r = train_step(&mut t, &w, &h, &mut visited, cell(0, 0), 3);
    assert_eq!(r, (cell(0, 0), false));
    assert_eq!(t.value(cell(0, 0), 3), -9500);
    // the other values are untouched
    assert_eq!(t.value(cell(0, 0), 1), 0);
}

#[test]
fn step_into_goal_earns_bonus_and_shaping() {
    let w = world(3, 3, cell(0, 0), cell(2, 2), vec![]);
    let h = Hyper::standard();
    let mut t = QTable::new(&w.grid);
    let mut visited = unmarked(9);
    let r = train_step(&mut t, &w, &h, &mut visited, cell(2, 1), 3);
    assert_eq!(r, (cell(2, 2), true));
    assert_eq!(t.value(cell(2, 1), 3), 20200);
}

#[test]
fn step_bootstraps_from_the_next_cell() {
    let w = world(3, 3, cell(0, 0), cell(2, 2), vec![]);
    let h = Hyper::standard();
    let mut t = QTable::new(&w.grid);
    let i = t.slot_of(cell(1, 0), 3);
    t.values[i] = 10000;
    let mut visited = unmarked(9);
    let r = train_step(&mut t, &w, &h, &mut visited, cell(0, 0), 1);
    assert_eq!(r, (cell(1, 0), false));
    // reward -1000 + 1000 shaping, target 0 + 99 * 10000 / 100 = 9900
    assert_eq!(t.value(cell(0, 0), 1), 990);
}

#[test]
fn reward_at_the_goal_keeps_the_shaping_term() {
    let w = world(3, 3, cell(0, 0), cell(2, 2), vec![]);
    let h = Hyper::standard();
    let visited = unmarked(9);
    assert_eq!(shaped_reward(&h, &w, &visited, cell(2, 2)), 200 * SCALE + 2 * SCALE);
}

#[test]
fn reward_kinds_for_ordinary_moves() {
    let h = Hyper::standard();
    let w = world(3, 3, cell(1, 1), cell(2, 2), vec![]);
    let mut visited = unmarked(9);
    // a step: -1 plus 2 * (6 - 4) / 6
    assert_eq!(shaped_reward(&h, &w, &visited, cell(0, 0)), -1000 + 666);
    visited[0] = true;
    assert_eq!(shaped_reward(&h, &w, &visited, cell(0, 0)), -10000 + 666);
    let w = world(3, 3, cell(1, 1), cell(2, 2), vec![cell(0, 1)]);
    let mut visited = unmarked(9);
    visited[3] = true;
    assert_eq!(shaped_reward(&h, &w, &visited, cell(0, 0)), -25000 + 666);
}

#[test]
fn epsilon_decays_to_its_floor() {
    let h = Hyper::standard();
    assert_eq!(decay_epsilon(&h, 1_000_000), 999_500);
    assert_eq!(decay_epsilon(&h, 50_000), 50_000);
    let mut eps = h.epsilon_start;
    for _ in 0..10_000 {
        let next = decay_epsilon(&h, eps);
        assert!(next <= eps);
        assert!(next >= h.epsilon_min);
        eps = next;
    }
    assert_eq!(eps, h.epsilon_min);
}

#[test]
fn greedy_choice_breaks_ties_low() {
    let g = Grid { height: 2, width: 2 };
    let mut t = QTable::new(&g);
    let mut rng = StdRng::seed_from_u64(5);
    assert_eq!(t.best_action(cell(0, 0)), 0);
    t.values[1] = 4;
    t.values[3] = 4;
    assert_eq!(t.best_action(cell(0, 0)), 1);
    assert_eq!(choose_action(&t, cell(0, 0), 0, &mut rng), 1);
    t.values[3] = 5;
    assert_eq!(t.max_value(cell(0, 0)), 5);
    assert_eq!(choose_action(&t, cell(0, 0), 0, &mut rng), 3);
    for _ in 0..50 {
        assert!(choose_action(&t, cell(0, 0), 1_000_000, &mut rng) < 4);
    }
}

#[test]
fn move_selection_skips_blocked_and_visited_cells() {
    let w = world(3, 3, cell(0, 0), cell(2, 2), vec![]);
    let mut t = QTable::new(&w.grid);
    let mut visited = unmarked(9);
    // all equal: up and left stay put, so down comes first
    assert_eq!(select_move(&t, &w, &visited, cell(0, 0), false), Some(1));
    t.values[3] = 7;
    t.values[1] = 1;
    t.values[0] = 9;
    assert_eq!(select_move(&t, &w, &visited, cell(0, 0), false), Some(3));
    visited[1] = true;
    assert_eq!(select_move(&t, &w, &visited, cell(0, 0), false), Some(1));
    assert_eq!(select_move(&t, &w, &visited, cell(0, 0), true), Some(3));
    visited[3] = true;
    assert_eq!(select_move(&t, &w, &visited, cell(0, 0), false), None);
}

#[test]
fn backtrack_pops_and_unmarks() {
    let g = Grid { height: 3, width: 3 };
    let mut path = vec![cell(0, 0), cell(1, 0), cell(2, 0), cell(2, 1)];
    let mut visited = unmarked(9);
    for c in &path {
        visited[c.row * 3 + c.col] = true;
    }
    backtrack(&g, &mut path, &mut visited, 2);
    assert_eq!(path, vec![cell(0, 0), cell(1, 0)]);
    assert!(!visited[6] && !visited[7]);
    assert!(visited[0] && visited[3]);
    backtrack(&g, &mut path, &mut visited, 5);
    assert!(path.is_empty());
    assert!(!visited[0] && !visited[3]);
}

#[test]
fn trained_two_by_two_reaches_goal_quickly() {
    let w = world(2, 2, cell(0, 0), cell(1, 1), vec![]);
    let h = Hyper::standard();
    let mut rng = StdRng::seed_from_u64(11);
    let t = train(&w, &h, &mut rng);
    assert_eq!(t.values.len(), 16);
    let r = rollout(&w, &t, &Limits::standard());
    assert!(r.reached);
    assert!(r.steps <= 4);
    assert_eq!(r.path[0], cell(0, 0));
    assert_eq!(*r.path.last().unwrap(), cell(1, 1));
}

#[test]
fn trained_maze_rollout_walks_to_goal() {
    let w = world(5, 5, cell(0, 0), cell(4, 4), vec![cell(1, 1), cell(1, 2), cell(1, 3), cell(3, 1), cell(3, 3)]);
    assert!(has_path(&w.grid, w.start, w.goal, &w.walls));
    let mut h = Hyper::standard();
    h.episodes = 1500;
    let mut rng = StdRng::seed_from_u64(2);
    let t = train(&w, &h, &mut rng);
    let r = rollout(&w, &t, &Limits::standard());
    assert!(r.reached);
    assert_eq!(r.path[0], w.start);
    for pair in r.path.windows(2) {
        let d = pair[0].row.abs_diff(pair[1].row) + pair[0].col.abs_diff(pair[1].col);
        assert_eq!(d, 1);
        assert!(!w.walls.contains(&pair[1]));
    }
}

#[test]
fn pocket_forces_backtracking_within_the_step_cap() {
    let w = world(3, 3, cell(0, 0), cell(0, 2), vec![cell(0, 1), cell(2, 1)]);
    let t = QTable::new(&w.grid);
    let limits = Limits { max_steps: 40, relax_threshold: 10, backtrack_threshold: 2, backtrack_count: 1 };
    let r = rollout(&w, &t, &limits);
    assert!(r.backtracks > 0);
    assert!(!r.reached);
    assert_eq!(r.steps, 40);
    assert!(r.path.len() <= 41);
    assert_eq!(r.path[0], cell(0, 0));
}

#[test]
fn standard_limits_escape_the_pocket() {
    let w = world(3, 3, cell(0, 0), cell(0, 2), vec![cell(0, 1), cell(2, 1)]);
    let t = QTable::new(&w.grid);
    let r = rollout(&w, &t, &Limits::standard());
    assert!(r.reached);
    assert!(r.steps <= 500);
}

#[test]
fn epsilon_greedy_follows_the_roll() {
    let g = Grid { height: 2, width: 2 };
    let mut t = QTable::new(&g);
    t.values[2] = 9;
    assert_eq!(epsilon_greedy(&t, cell(0, 0), 500_000, 499_999, 3), 3);
    assert_eq!(epsilon_greedy(&t, cell(0, 0), 500_000, 500_000, 3), 2);
    assert_eq!(epsilon_greedy(&t, cell(0, 0), 0, 0, 1), 2);
}

#[test]
fn bump_just_above_the_floor_still_lowers() {
    let w = world(3, 3, cell(0, 0), cell(2, 2), vec![cell(0, 1)]);
    let h = Hyper::standard();
    let mut t = QTable::new(&w.grid);
    let i = t.slot_of(cell(0, 0), 3);
    t.values[i] = -49995;
    let mut visited = unmarked(9);
    let r = train_step(&mut t, &w, &h, &mut visited, cell(0, 0), 3);
    assert_eq!(r, (cell(0, 0), false));
    assert_eq!(t.value(cell(0, 0), 3), -49996);
    // at the floor it stays
    t.values[i] = -50000;
    train_step(&mut t, &w, &h, &mut visited, cell(0, 0), 3);
    assert_eq!(t.value(cell(0, 0), 3), -50000);
}

#[test]
fn update_rounds_away_from_zero() {
    let w = world(3, 3, cell(0, 0), cell(2, 2), vec![]);
    let h = Hyper::standard();
    let mut t = QTable::new(&w.grid);
    let i = t.slot_of(cell(1, 0), 0);
    t.values[i] = 5;
    let mut visited = unmarked(9);
    // from (0,0) down into (1,0): reward -1000 + 1000, target 99 * 5 / 100 rounded up = 5
    train_step(&mut t, &w, &h, &mut visited, cell(0, 0), 1);
    assert_eq!(t.value(cell(0, 0), 1), 1);
}

#[test]
fn standard_parameters() {
    let h = Hyper::standard();
    assert_eq!((h.alpha_num, h.alpha_den, h.gamma_num, h.gamma_den), (1, 10, 99, 100));
    assert_eq!((h.epsilon_start, h.epsilon_min, h.decay_num, h.decay_den), (1_000_000, 50_000, 9995, 10000));
    assert_eq!((h.episodes, h.max_steps), (5000, 400));
    assert_eq!(h.obstacle_penalty, -50 * SCALE);
}

#[test]
fn greedy_episode_matches_greedy_steps() {
    let w = world(3, 3, cell(0, 0), cell(2, 2), vec![cell(1, 1)]);
    let mut h = Hyper::standard();
    h.max_steps = 30;
    let mut a = QTable::new(&w.grid);
    let mut rng = StdRng::seed_from_u64(4);
    let reached = run_episode(&mut a, &w, &h, 0, &mut rng);
    let mut b = QTable::new(&w.grid);
    let mut visited = unmarked(9);
    let mut s = w.start;
    let mut done = false;
    for _ in 0..h.max_steps {
        let act = b.best_action(s);
        let (n, d) = train_step(&mut b, &w, &h, &mut visited, s, act);
        s = n;
        if d {
            done = true;
            break;
        }
    }
    assert_eq!(reached, done);
    assert_eq!(a.values, b.values);
}
