//! Tabular Q-learning on a grid world with randomly placed obstacles.
//!
//! The library generates an obstacle field that keeps the goal reachable,
//! trains an action-value table with epsilon-greedy exploration and a
//! shaped reward, and rolls out the greedy policy with loop avoidance and
//! backtracking. Values are fixed-point integers.
mod frame;
mod grid;
mod maze;
mod random;
mod qlearn;
mod policy;

pub use frame::{glyph_at, Glyph};
pub use grid::{action_to_delta, clamp_pos, contains_cell, next_cell, Cell, Grid, ACTIONS, MAX_SIDE};
pub use maze::{
    generate_random_walls, generate_world, goal_from_draw, has_path, is_dead_end, obstacle_count, place_obstacle, World,
    WorldError, DRAWS_PER_CELL,
};
pub use policy::{backtrack, rollout, select_move, Limits, Rollout};
pub use qlearn::{
    choose_action, decay_epsilon, epsilon_greedy, run_episode, shaped_reward, train, train_step, unmarked, Hyper,
    QTable, EPSILON_ONE, LIMIT, REWARD_MAX, SCALE,
};
