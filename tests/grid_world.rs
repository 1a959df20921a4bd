use maze_rl::{glyph_at, Glyph};
use maze_rl::{
    action_to_delta, clamp_pos, generate_random_walls, generate_world, goal_from_draw, has_path, is_dead_end, next_cell,
    obstacle_count, place_obstacle, unmarked, Cell, Grid, World, WorldError,
};
use rand::rngs::StdRng;
use rand::SeedableRng;

fn cell(row: usize, col: usize) -> Cell {
    Cell { row, col }
}

fn grid(height: usize, width: usize) -> Grid {
    Grid { height, width }
}

#[test]
fn deltas_of_the_four_moves() {
    assert_eq!(action_to_delta(0), (-1, 0));
    assert_eq!(action_to_delta(1), (1, 0));
    assert_eq!(action_to_delta(2), (0, -1));
    assert_eq!(action_to_delta(3), (0, 1));
    assert_eq!(action_to_delta(7), (0, 0));
}

#[test]
fn clamp_holds_coordinates_to_the_grid() {
    let g = grid(20, 20);
    assert_eq!(clamp_pos(&g, -1, 5), cell(0, 5));
    assert_eq!(clamp_pos(&g, 20, 25), cell(19, 19));
    assert_eq!(clamp_pos(&g, 7, 8), cell(7, 8));
}

#[test]
fn moves_at_the_edge_stay_on_the_edge() {
    let g = grid(3, 4);
    assert_eq!(next_cell(&g, cell(0, 0), 0), cell(0, 0));
    assert_eq!(next_cell(&g, cell(0, 0), 2), cell(0, 0));
    assert_eq!(next_cell(&g, cell(2, 3), 1), cell(2, 3));
    assert_eq!(next_cell(&g, cell(2, 3), 3), cell(2, 3));
    assert_eq!(next_cell(&g, cell(1, 1), 1), cell(2, 1));
    assert_eq!(next_cell(&g, cell(1, 1), 3), cell(1, 2));
}

#[test]
fn open_grid_is_connected() {
    let g = grid(5, 5);
    assert!(has_path(&g, cell(0, 0), cell(4, 4), &[]));
    assert!(has_path(&g, cell(2, 2), cell(2, 2), &[]));
}

#[test]
fn wall_cuts_the_goal_off() {
    let g = grid(3, 3);
    let walls = [cell(0, 1), cell(1, 1), cell(2, 1)];
    assert!(!has_path(&g, cell(0, 0), cell(0, 2), &walls));
    assert!(has_path(&g, cell(0, 0), cell(2, 0), &walls));
}

#[test]
fn walk_goes_around_a_wall() {
    let g = grid(3, 3);
    let walls = [cell(0, 1), cell(1, 1)];
    assert!(has_path(&g, cell(0, 0), cell(0, 2), &walls));
}

#[test]
fn goal_on_an_obstacle_is_unreachable() {
    let g = grid(3, 3);
    assert!(!has_path(&g, cell(0, 0), cell(2, 2), &[cell(2, 2)]));
}

#[test]
fn dead_end_counts_open_neighbours() {
    let g = grid(3, 3);
    let mut visited = unmarked(9);
    // a corner has two open neighbours
    assert!(!is_dead_end(&g, cell(0, 0), &[], &visited));
    // with one of them walled off only one is left
    assert!(is_dead_end(&g, cell(0, 0), &[cell(0, 1)], &visited));
    // a visited neighbour does not count either
    visited[3] = true;
    assert!(is_dead_end(&g, cell(0, 0), &[], &visited));
    // the centre keeps three of four
    assert!(!is_dead_end(&g, cell(1, 1), &[], &visited));
}

#[test]
fn placement_rejects_start_goal_and_repeats() {
    let start = cell(0, 0);
    let goal = cell(2, 2);
    let mut walls = Vec::new();
    assert!(!place_obstacle(&mut walls, start, goal, start));
    assert!(!place_obstacle(&mut walls, start, goal, goal));
    assert!(place_obstacle(&mut walls, start, goal, cell(1, 1)));
    assert!(!place_obstacle(&mut walls, start, goal, cell(1, 1)));
    assert_eq!(walls, vec![cell(1, 1)]);
}

#[test]
fn obstacle_count_floors_the_density() {
    assert_eq!(obstacle_count(&grid(20, 20), 200), 80);
    assert_eq!(obstacle_count(&grid(3, 3), 200), 1);
    assert_eq!(obstacle_count(&grid(3, 3), 0), 0);
    assert_eq!(obstacle_count(&grid(2, 2), 1000), 4);
}

#[test]
fn generated_walls_are_distinct_and_avoid_start_and_goal() {
    let g = grid(20, 20);
    let mut rng = StdRng::seed_from_u64(7);
    let start = cell(0, 0);
    let goal = cell(13, 4);
    let walls = generate_random_walls(&g, start, goal, 80, &mut rng).unwrap();
    assert_eq!(walls.len(), 80);
    for (i, w) in walls.iter().enumerate() {
        assert!(w.row < 20 && w.col < 20);
        assert!(*w != start && *w != goal);
        assert!(!walls[..i].contains(w));
    }
}

#[test]
fn walls_that_cannot_fit_give_up() {
    let g = grid(2, 2);
    let mut rng = StdRng::seed_from_u64(1);
    assert!(generate_random_walls(&g, cell(0, 0), cell(1, 1), 3, &mut rng).is_none());
}

#[test]
fn generated_worlds_keep_the_goal_reachable() {
    for seed in 0..20u64 {
        let g = grid(20, 20);
        let mut rng = StdRng::seed_from_u64(seed);
        let w = generate_world(&g, 200, 1000, &mut rng).unwrap();
        assert_eq!(w.start, cell(0, 0));
        assert_ne!(w.goal, w.start);
        assert!(w.goal.row < 20 && w.goal.col < 20);
        assert_eq!(w.walls.len(), 80);
        assert!(!w.walls.contains(&w.start));
        assert!(!w.walls.contains(&w.goal));
        assert!(has_path(&g, w.start, w.goal, &w.walls));
    }
}

#[test]
fn zero_density_succeeds_on_the_first_attempt() {
    for seed in 0..10u64 {
        let g = grid(6, 5);
        let mut rng = StdRng::seed_from_u64(seed);
        let w: World = generate_world(&g, 0, 1, &mut rng).unwrap();
        assert!(w.walls.is_empty());
        assert!(has_path(&g, w.start, w.goal, &w.walls));
    }
}

#[test]
fn no_attempts_exhausts_generation() {
    let g = grid(4, 4);
    let mut rng = StdRng::seed_from_u64(3);
    assert!(matches!(
        generate_world(&g, 100, 0, &mut rng),
        Err(WorldError::GenerationExhausted)
    ));
}

#[test]
fn frame_glyphs_follow_their_priority() {
    let w = World { grid: grid(3, 3), start: cell(0, 0), goal: cell(2, 2), walls: vec![cell(1, 1)] };
    let path = vec![cell(0, 0), cell(1, 0), cell(2, 0)];
    assert_eq!(glyph_at(&w, &path, 2, cell(2, 2)), Glyph::Goal);
    assert_eq!(glyph_at(&w, &path, 2, cell(1, 1)), Glyph::Wall);
    assert_eq!(glyph_at(&w, &path, 2, cell(2, 0)), Glyph::Agent);
    assert_eq!(glyph_at(&w, &path, 2, cell(1, 0)), Glyph::Trail);
    assert_eq!(glyph_at(&w, &path, 2, cell(0, 0)), Glyph::Trail);
    assert_eq!(glyph_at(&w, &path, 0, cell(0, 0)), Glyph::Agent);
    assert_eq!(glyph_at(&w, &path, 1, cell(0, 0)), Glyph::Trail);
    assert_eq!(glyph_at(&w, &path, 0, cell(1, 0)), Glyph::Empty);
    let path = vec![cell(0, 1), cell(0, 2)];
    assert_eq!(glyph_at(&w, &path, 0, cell(0, 0)), Glyph::Start);
}

#[test]
fn goal_from_draw_skips_the_corner() {
    let g = grid(3, 4);
    assert_eq!(goal_from_draw(&g, 0), cell(0, 1));
    assert_eq!(goal_from_draw(&g, 3), cell(1, 0));
    assert_eq!(goal_from_draw(&g, 10), cell(2, 3));
}

#[test]
fn too_many_obstacles_cannot_fit() {
    let g = grid(2, 2);
    let mut rng = StdRng::seed_from_u64(9);
    assert_eq!(obstacle_count(&g, 750), 3);
    assert!(matches!(generate_world(&g, 750, 5, &mut rng), Err(WorldError::GenerationExhausted)));
}

#[test]
fn no_obstacles_draw_nothing() {
    let g = grid(4, 4);
    let mut rng = StdRng::seed_from_u64(12);
    let before = rng.clone();
    let walls = generate_random_walls(&g, cell(0, 0), cell(3, 3), 0, &mut rng).unwrap();
    assert!(walls.is_empty());
    assert!(rng == before);
}
