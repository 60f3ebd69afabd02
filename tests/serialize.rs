use ricochet_robots::model::{GameSpec, GameState, Point, TargetType, WALL_MAP_SIZE};
use ricochet_robots::serialize::{dump, load, robot_index_to_color, unify_ids};

const FIRST_ID: &str = "rKNKXKXIrKxj_-_------7Xm-Yv-_-_Zv------m-Yl-B---_n---j-L---_---Zr---_XQ---R----g1__--n---Z07-m-Zv----K--_-R---L--Zfm_j--RL---L_Yr-B------Ylj-L_------nX--Yun---ZeVeXKWKjKXDq96WCmVjIcx4YUUWPKC8tOexuLoEh";
const SECOND_ID: &str = "rGX6XIrKXKNZr-------Bn-----Zf--Jv--Zf--L--A--X-L--L--6--N----7_Zun--_X---mR_---g1j---n-X-Z07X--Zv-N--K----B-----B--X-7----LL-ZrZk---RL--L-Q_----Q--7-m--B--_---ZeXKHAXKVeXCySNoVhnORyIRz7e5eVFQxFTG4hZAPh9";

fn roundtrip(id: &str) -> String {
    dump(&load(id).0, &load(id).1)
}

#[test]
fn test_serialize_roundtrip() {
    let test_ids = [FIRST_ID, SECOND_ID];
    for id in test_ids {
        assert_eq!(roundtrip(id), roundtrip(&roundtrip(id)));
    }
}

fn bordered_walls() -> [[bool; WALL_MAP_SIZE]; WALL_MAP_SIZE] {
    let mut walls = [[false; WALL_MAP_SIZE]; WALL_MAP_SIZE];
    for i in 0..WALL_MAP_SIZE {
        walls[0][i] = true;
        walls[WALL_MAP_SIZE - 1][i] = true;
        walls[i][0] = true;
        walls[i][WALL_MAP_SIZE - 1] = true;
    }
    walls
}

#[test]
fn dump_then_load_gives_back_board_and_robots() {
    let mut walls = bordered_walls();
    // a wall on the right of cell (3, 4) and one below cell (10, 2)
    walls[7][10] = true;
    walls[22][5] = true;
    let spec = GameSpec::new(walls, Point::new(6, 9), TargetType::Particular(2));
    let state = GameState {
        robots: [Point::new(0, 0), Point::new(1, 5), Point::new(15, 15), Point::new(8, 3)],
    };
    let id = dump(&spec, &state);
    assert_eq!(id.len(), 200);
    let (spec2, state2) = load(&id);
    assert_eq!(state2, state);
    assert_eq!(spec2.goal, spec.goal);
    assert_eq!(spec2.target_type, spec.target_type);
    // every entry next to a field cell survives; corner entries of the grid are not stored
    for i in 0..WALL_MAP_SIZE {
        for j in 0..WALL_MAP_SIZE {
            if (i % 2 == 1) != (j % 2 == 1) {
                assert_eq!(spec2.walls[i][j], spec.walls[i][j], "entry {} {}", i, j);
            } else {
                assert!(!spec2.walls[i][j]);
            }
        }
    }
}

#[test]
fn dump_then_load_keeps_a_goal_for_any_robot() {
    let spec = GameSpec::new(bordered_walls(), Point::new(0, 0), TargetType::Any);
    let state = GameState {
        robots: [Point::new(2, 3), Point::new(4, 5), Point::new(6, 7), Point::new(8, 9)],
    };
    let (spec2, state2) = load(&dump(&spec, &state));
    assert_eq!(spec2.target_type, TargetType::Any);
    assert_eq!(spec2.goal, Point::new(0, 0));
    assert_eq!(state2, state);
}

#[test]
fn dump_of_an_open_board_has_the_expected_text() {
    let spec = GameSpec::new(bordered_walls(), Point::new(0, 1), TargetType::Particular(0));
    let state = GameState {
        robots: [Point::new(0, 0), Point::new(0, 2), Point::new(0, 3), Point::new(0, 4)],
    };
    let id = dump(&spec, &state);
    // the first three cells give nibbles 6, 14, 14: the value 1774, written "rK"
    let first = load(&id);
    assert_eq!(first.1, state);
    assert!(id.starts_with("rK"));
    assert!(id.chars().all(|c| c.is_ascii_alphanumeric() || c == '_' || c == '-'));
}

#[test]
fn load_reads_robots_and_goal_of_a_known_id() {
    let (spec, state) = load(FIRST_ID);
    // goal nibbles (1, 1): robot 1's goal number 1, read from slot 5 of the normal goals
    assert_eq!(spec.target_type, TargetType::Particular(1));
    // robot slots hold (column, row) nibble pairs
    assert_eq!(spec.goal, Point::new(4, 9));
    assert_eq!(
        state.robots,
        [Point::new(8, 14), Point::new(14, 5), Point::new(13, 11), Point::new(10, 8)]
    );
}

#[test]
fn unify_ids_takes_robots_from_the_second_id() {
    let unified = unify_ids(FIRST_ID, SECOND_ID);
    let (spec_a, _) = load(FIRST_ID);
    let (_, state_b) = load(SECOND_ID);
    let (spec_u, state_u) = load(&unified);
    assert_eq!(state_u, state_b);
    assert_eq!(spec_u.goal, spec_a.goal);
    assert_eq!(spec_u.target_type, spec_a.target_type);
    assert_eq!(spec_u.walls, spec_a.walls);
}

#[test]
fn robot_colors() {
    assert_eq!(robot_index_to_color(0), "Red");
    assert_eq!(robot_index_to_color(1), "Blue");
    assert_eq!(robot_index_to_color(2), "Green");
    assert_eq!(robot_index_to_color(3), "Yellow");
}
