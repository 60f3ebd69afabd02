use ricochet_robots::model::{Direction, GameSpec, GameState, Point, TargetType, WALL_MAP_SIZE};

fn bordered_walls() -> [[bool; WALL_MAP_SIZE]; WALL_MAP_SIZE] {
    let mut walls = [[false; WALL_MAP_SIZE]; WALL_MAP_SIZE];
    for i in 0..WALL_MAP_SIZE {
        walls[0][i] = true;
        walls[WALL_MAP_SIZE - 1][i] = true;
        walls[i][0] = true;
        walls[i][WALL_MAP_SIZE - 1] = true;
    }
    walls
}

fn state(points: [(i8, i8); 4]) -> GameState {
    GameState { robots: points.map(|(r, c)| Point::new(r, c)) }
}

#[test]
fn fingerprint_packs_four_bytes() {
    let s = state([(1, 2), (3, 4), (5, 6), (7, 8)]);
    assert_eq!(s.to_u32(), 0x1234_5678);
    let t = state([(15, 15), (0, 0), (0, 1), (1, 0)]);
    assert_eq!(t.to_u32(), 0xff00_0110);
}

#[test]
fn fingerprints_of_different_states_differ() {
    let a = state([(1, 2), (3, 4), (5, 6), (7, 8)]);
    let b = state([(3, 4), (1, 2), (5, 6), (7, 8)]);
    let c = state([(1, 2), (3, 4), (5, 6), (7, 9)]);
    assert_ne!(a.to_u32(), b.to_u32());
    assert_ne!(a.to_u32(), c.to_u32());
    assert_ne!(b.to_u32(), c.to_u32());
}

#[test]
fn wall_cache_matches_a_step_by_step_slide() {
    let mut walls = bordered_walls();
    // a wall between (5, 3) and (5, 4)
    walls[11][8] = true;
    let spec = GameSpec::new(walls, Point::new(0, 0), TargetType::Any);
    assert_eq!(spec.wall_steps(Point::new(5, 0), Direction::Right), 3);
    assert_eq!(spec.wall_steps(Point::new(5, 3), Direction::Right), 0);
    assert_eq!(spec.wall_steps(Point::new(5, 4), Direction::Left), 0);
    assert_eq!(spec.wall_steps(Point::new(5, 15), Direction::Left), 11);
    assert_eq!(spec.wall_steps(Point::new(5, 4), Direction::Up), 5);
    assert_eq!(spec.wall_steps(Point::new(5, 4), Direction::Down), 10);
    assert_eq!(spec.wall_steps(Point::new(0, 0), Direction::Up), 0);
}

#[test]
fn next_states_move_one_robot_to_its_stop() {
    let spec = GameSpec::new(bordered_walls(), Point::new(0, 0), TargetType::Particular(0));
    let s = state([(5, 5), (5, 9), (2, 5), (15, 0)]);
    let next = spec.next_states(&s);
    assert_eq!(next.len(), 16);
    // robot 0: up stops under robot 2, down at the wall, left at the wall, right before robot 1
    assert_eq!(next[0], state([(3, 5), (5, 9), (2, 5), (15, 0)]));
    assert_eq!(next[1], state([(15, 5), (5, 9), (2, 5), (15, 0)]));
    assert_eq!(next[2], state([(5, 0), (5, 9), (2, 5), (15, 0)]));
    assert_eq!(next[3], state([(5, 8), (5, 9), (2, 5), (15, 0)]));
    // robot 3 in the corner cannot move down or left
    assert_eq!(next[13], s);
    assert_eq!(next[14], s);
    for (m, t) in next.iter().enumerate() {
        let moved: Vec<usize> = (0..4).filter(|&j| t.robots[j] != s.robots[j]).collect();
        assert!(moved.is_empty() || moved == vec![m / 4]);
    }
}

#[test]
fn every_move_can_be_found_among_predecessors() {
    let spec = GameSpec::new(bordered_walls(), Point::new(0, 0), TargetType::Particular(0));
    let s = state([(5, 5), (5, 9), (2, 5), (15, 0)]);
    for t in spec.next_states(&s) {
        if t != s {
            assert!(spec.prev_states(&t).contains(&s));
        }
    }
}

#[test]
fn predecessors_lead_back_in_one_move() {
    let spec = GameSpec::new(bordered_walls(), Point::new(0, 0), TargetType::Particular(0));
    let s = state([(0, 3), (5, 9), (2, 5), (15, 0)]);
    let previous = spec.prev_states(&s);
    assert!(!previous.is_empty());
    for p in previous {
        assert!(spec.next_states(&p).contains(&s));
    }
}

#[test]
fn winning_for_a_particular_robot_or_any() {
    let particular = GameSpec::new(bordered_walls(), Point::new(4, 4), TargetType::Particular(1));
    let any = GameSpec::new(bordered_walls(), Point::new(4, 4), TargetType::Any);
    let s = state([(4, 4), (1, 1), (2, 2), (3, 3)]);
    assert!(!particular.is_winning_state(&s));
    assert!(any.is_winning_state(&s));
    let t = state([(0, 0), (4, 4), (2, 2), (3, 3)]);
    assert!(particular.is_winning_state(&t));
}

#[test]
fn equivalent_states_permute_the_other_robots() {
    let spec = GameSpec::new(bordered_walls(), Point::new(0, 0), TargetType::Particular(1));
    let s = state([(1, 1), (2, 2), (3, 3), (4, 4)]);
    let class = spec.equivalent_states(&s);
    assert_eq!(class.len(), 6);
    assert_eq!(class[0], s);
    for t in &class {
        assert_eq!(t.robots[1], Point::new(2, 2));
    }
    for a in 0..class.len() {
        for b in a + 1..class.len() {
            assert_ne!(class[a], class[b]);
        }
    }
    let all = spec.equivalent_states_any(&s);
    assert_eq!(all.len(), 24);
    for a in 0..all.len() {
        for b in a + 1..all.len() {
            assert_ne!(all[a], all[b]);
        }
    }
}

#[test]
fn target_robot_index() {
    assert_eq!(TargetType::Any.robot_index(3), 3);
    assert_eq!(TargetType::Particular(2).robot_index(0), 2);
}

#[test]
fn directions_reverse_and_number() {
    assert_eq!(Direction::Up.reverse(), Direction::Down);
    assert_eq!(Direction::Left.reverse(), Direction::Right);
    assert_eq!(Direction::Right.index(), 3);
    assert_eq!(Direction::from_index(1), Direction::Down);
    assert_eq!(Point::from(Direction::Left), Point::new(0, -1));
}
