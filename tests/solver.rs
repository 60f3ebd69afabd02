use ricochet_robots::algorithm::{factorial, permutation_swaps};
use ricochet_robots::generator::reverse_bfs;
use ricochet_robots::model::{
    Direction, GameMove, GameSpec, GameState, Point, TargetType, WALL_MAP_SIZE,
};
use ricochet_robots::serialize::{dump, load};
use ricochet_robots::solver::{solve, solve_bfs};

fn bordered_walls() -> [[bool; WALL_MAP_SIZE]; WALL_MAP_SIZE] {
    let mut walls = [[false; WALL_MAP_SIZE]; WALL_MAP_SIZE];
    for i in 0..WALL_MAP_SIZE {
        walls[0][i] = true;
        walls[WALL_MAP_SIZE - 1][i] = true;
        walls[i][0] = true;
        walls[i][WALL_MAP_SIZE - 1] = true;
    }
    walls
}

/// Walls on all four sides of field cell `(r, c)`.
fn box_in(walls: &mut [[bool; WALL_MAP_SIZE]; WALL_MAP_SIZE], r: usize, c: usize) {
    walls[2 * r][2 * c + 1] = true;
    walls[2 * r + 2][2 * c + 1] = true;
    walls[2 * r + 1][2 * c] = true;
    walls[2 * r + 1][2 * c + 2] = true;
}

fn state(points: [(i8, i8); 4]) -> GameState {
    GameState { robots: points.map(|(r, c)| Point::new(r, c)) }
}

fn move_index(m: &GameMove) -> usize {
    m.robot_index as usize * 4 + m.direction.index()
}

fn play(spec: &GameSpec, start: &GameState, moves: &[GameMove]) -> GameState {
    let mut current = *start;
    for m in moves {
        current = spec.next_states(&current)[move_index(m)];
    }
    current
}

#[test]
fn one_move_to_the_goal() {
    let spec = GameSpec::new(bordered_walls(), Point::new(0, 15), TargetType::Particular(0));
    let start = state([(0, 0), (15, 15), (15, 14), (15, 13)]);
    let moves = solve_bfs(&spec, &start);
    assert_eq!(moves.len(), 1);
    assert_eq!(moves[0].robot_index, 0);
    assert_eq!(moves[0].direction, Direction::Right);
}

#[test]
fn robot_stops_in_front_of_another_robot() {
    let spec = GameSpec::new(bordered_walls(), Point::new(0, 4), TargetType::Particular(0));
    let start = state([(0, 0), (0, 5), (15, 15), (15, 14)]);
    let moves = solve_bfs(&spec, &start);
    assert_eq!(moves.len(), 1);
    assert_eq!(moves[0].robot_index, 0);
    assert_eq!(moves[0].direction, Direction::Right);
    assert_eq!(play(&spec, &start, &moves).robots[0], Point::new(0, 4));
}

#[test]
fn two_move_ricochet() {
    let spec = GameSpec::new(bordered_walls(), Point::new(15, 5), TargetType::Particular(0));
    let start = state([(0, 0), (15, 6), (8, 8), (9, 9)]);
    let moves = solve_bfs(&spec, &start);
    assert_eq!(moves.len(), 2);
    assert_eq!(play(&spec, &start, &moves).robots[0], Point::new(15, 5));
}

#[test]
fn any_robot_reaches_the_corner_in_two_moves() {
    let spec = GameSpec::new(bordered_walls(), Point::new(15, 15), TargetType::Any);
    let start = state([(0, 0), (1, 2), (2, 4), (3, 6)]);
    let moves = solve_bfs(&spec, &start);
    assert_eq!(moves.len(), 2);
    let end = play(&spec, &start, &moves);
    assert!(end.robots.contains(&Point::new(15, 15)));
}

#[test]
fn enclosed_goal_is_unsolvable() {
    let mut walls = bordered_walls();
    box_in(&mut walls, 7, 7);
    for (r, c) in [(0, 0), (0, 15), (15, 0), (15, 15)] {
        box_in(&mut walls, r, c);
    }
    let spec = GameSpec::new(walls, Point::new(7, 7), TargetType::Particular(0));
    let start = state([(0, 0), (0, 15), (15, 0), (15, 15)]);
    assert!(solve_bfs(&spec, &start).is_empty());
}

#[test]
fn start_on_the_goal_needs_no_move() {
    let spec = GameSpec::new(bordered_walls(), Point::new(3, 3), TargetType::Particular(2));
    let start = state([(0, 0), (1, 1), (3, 3), (5, 5)]);
    assert!(solve_bfs(&spec, &start).is_empty());
}

#[test]
fn equivalent_states_need_as_many_moves() {
    let spec = GameSpec::new(bordered_walls(), Point::new(15, 5), TargetType::Particular(0));
    let start = state([(0, 0), (15, 6), (8, 8), (9, 9)]);
    let swapped = state([(0, 0), (9, 9), (15, 6), (8, 8)]);
    assert_eq!(solve_bfs(&spec, &start).len(), solve_bfs(&spec, &swapped).len());
}

#[test]
fn reverse_search_in_a_closed_block() {
    let mut walls = bordered_walls();
    // a 2 x 2 block at the top-left corner, closed below and on the right
    walls[4][1] = true;
    walls[4][3] = true;
    walls[1][4] = true;
    walls[3][4] = true;
    // and at the corners of the grid, so that the region of the goal stays inside
    walls[4][2] = true;
    walls[4][4] = true;
    walls[2][4] = true;
    let spec = GameSpec::new(walls, Point::new(0, 0), TargetType::Particular(0));
    let found = reverse_bfs(&spec).expect("a winning state exists");
    assert_eq!(found.robots[0], Point::new(0, 0));
    let mut others: Vec<Point> = found.robots[1..].to_vec();
    others.sort_by_key(|p| (p.r, p.c));
    assert_eq!(others, vec![Point::new(0, 1), Point::new(1, 0), Point::new(1, 1)]);
    assert!(solve_bfs(&spec, &found).is_empty());
}

#[test]
fn reverse_search_without_room_finds_nothing() {
    let mut walls = bordered_walls();
    box_in(&mut walls, 4, 4);
    let spec = GameSpec::new(walls, Point::new(4, 4), TargetType::Particular(1));
    assert!(reverse_bfs(&spec).is_none());
}

#[test]
fn factorials() {
    assert_eq!(factorial(0), 1);
    assert_eq!(factorial(3), 6);
    assert_eq!(factorial(4), 24);
}

#[test]
fn swap_positions_of_three_and_four() {
    assert_eq!(permutation_swaps(3), vec![1, 0, 1, 0, 1]);
    assert_eq!(
        permutation_swaps(4),
        vec![2, 1, 0, 2, 0, 1, 2, 0, 2, 1, 0, 2, 0, 1, 2, 0, 2, 1, 0, 2, 0, 1, 2]
    );
}

#[test]
fn swaps_visit_every_permutation_once() {
    for n in 1..=5usize {
        let mut current: Vec<usize> = (0..n).collect();
        let mut seen = vec![current.clone()];
        for pos in permutation_swaps(n) {
            current.swap(pos, pos + 1);
            assert!(!seen.contains(&current));
            seen.push(current.clone());
        }
        assert_eq!(seen.len(), factorial(n));
    }
}

#[test]
fn shortest_length_matches_exhaustive_search() {
    let spec = GameSpec::new(bordered_walls(), Point::new(15, 5), TargetType::Particular(0));
    let start = state([(0, 0), (15, 6), (8, 8), (9, 9)]);
    let mut layer = vec![start];
    let mut best = None;
    for depth in 0..=3usize {
        if layer.iter().any(|s| spec.is_winning_state(s)) {
            best = Some(depth);
            break;
        }
        layer = layer.iter().flat_map(|s| spec.next_states(s)).collect();
    }
    assert_eq!(best, Some(2));
    assert_eq!(solve_bfs(&spec, &start).len(), 2);
}

#[test]
fn solving_a_board_read_from_its_id() {
    let spec = GameSpec::new(bordered_walls(), Point::new(0, 15), TargetType::Particular(0));
    let start = state([(0, 0), (15, 15), (15, 14), (15, 13)]);
    let (spec2, start2) = load(&dump(&spec, &start));
    let moves = solve_bfs(&spec2, &start2);
    assert_eq!(moves.len(), 1);
    assert_eq!(moves[0].robot_index, 0);
    assert_eq!(moves[0].direction, Direction::Right);
}

#[test]
fn map_solver_finds_the_same_shortest_lengths() {
    let spec = GameSpec::new(bordered_walls(), Point::new(0, 15), TargetType::Particular(0));
    let start = state([(0, 0), (15, 15), (15, 14), (15, 13)]);
    let moves = solve(&spec, &start);
    assert_eq!(moves.len(), 1);
    assert_eq!(moves[0].robot_index, 0);
    assert_eq!(moves[0].direction, Direction::Right);

    let spec = GameSpec::new(bordered_walls(), Point::new(15, 5), TargetType::Particular(0));
    let start = state([(0, 0), (15, 6), (8, 8), (9, 9)]);
    let moves = solve(&spec, &start);
    assert_eq!(moves.len(), 2);
    assert_eq!(play(&spec, &start, &moves).robots[0], Point::new(15, 5));

    let spec = GameSpec::new(bordered_walls(), Point::new(15, 15), TargetType::Any);
    let start = state([(0, 0), (1, 2), (2, 4), (3, 6)]);
    assert_eq!(solve(&spec, &start).len(), 2);
}

#[test]
fn map_solver_reports_an_enclosed_goal_as_unsolvable() {
    let mut walls = bordered_walls();
    box_in(&mut walls, 7, 7);
    for (r, c) in [(0, 0), (0, 15), (15, 0), (15, 15)] {
        box_in(&mut walls, r, c);
    }
    let spec = GameSpec::new(walls, Point::new(7, 7), TargetType::Particular(0));
    let start = state([(0, 0), (0, 15), (15, 0), (15, 15)]);
    assert!(solve(&spec, &start).is_empty());
}

#[test]
fn reverse_search_prefers_the_farthest_open_state() {
    let mut walls = bordered_walls();
    // a closed 4 x 4 block at the top-left corner
    for k in 0..=8 {
        walls[8][k] = true;
        walls[k][8] = true;
    }
    let spec = GameSpec::new(walls, Point::new(0, 0), TargetType::Particular(0));
    let found = reverse_bfs(&spec).expect("the block has room");
    let inner = [Point::new(1, 1), Point::new(1, 2), Point::new(2, 1), Point::new(2, 2)];
    // every robot stands in open space: the inner 2 x 2 cells are the only ones without walls
    for robot in found.robots {
        assert!(inner.contains(&robot));
    }
    let found_length = solve(&spec, &found).len();
    // no other open arrangement needs more moves
    for first in 0..4 {
        let mut robots = [inner[first]; 4];
        let mut next = 1;
        for (i, cell) in inner.iter().enumerate() {
            if i != first {
                robots[next] = *cell;
                next += 1;
            }
        }
        let other = GameState { robots };
        assert!(solve(&spec, &other).len() <= found_length);
    }
}
