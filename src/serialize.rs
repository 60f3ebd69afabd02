use vstd::prelude::*;
use vstd::string::StringSliceAdditionalSpecFns;

use crate::model::{
    border_closed, in_board, shift, state_in_board, wall_beside, Direction, GameSpec, GameState,
    Point, TargetType,
    WallBoard, BOARD_SIZE, ROBOT_COUNT, WALL_MAP_SIZE,
};

verus! {

pub const POSITION_LENGTH: usize = 2;

pub const BASE_ID_START: usize = 0;

pub const BASE_ID_LENGTH: usize = BOARD_SIZE * BOARD_SIZE;

pub const NORMAL_GOAL_ID_START: usize = BASE_ID_START + BASE_ID_LENGTH;

pub const NORMAL_GOAL_ID_LENGTH: usize = ROBOT_COUNT * 4 * POSITION_LENGTH;

pub const WILD_GOAL_ID_START: usize = NORMAL_GOAL_ID_START + NORMAL_GOAL_ID_LENGTH;

pub const WILD_GOAL_ID_LENGTH: usize = POSITION_LENGTH;

pub const ROBOT_ID_START: usize = WILD_GOAL_ID_START + WILD_GOAL_ID_LENGTH;

pub const ROBOT_ID_LENGTH: usize = ROBOT_COUNT * POSITION_LENGTH;

pub const GOAL_ID_START: usize = ROBOT_ID_START + ROBOT_ID_LENGTH;

pub const SINGLE_GOAL_ID_LENGTH: usize = POSITION_LENGTH;

/// Nibbles in a complete board id with one goal.
pub const ID_LENGTH: usize = BASE_ID_LENGTH + NORMAL_GOAL_ID_LENGTH + WILD_GOAL_ID_LENGTH
    + ROBOT_ID_LENGTH + SINGLE_GOAL_ID_LENGTH;

/// A character of the alphabet `0-9 a-z A-Z _ -`, as a byte.
pub open spec fn is_base64_byte(b: u8) -> bool {
    (48 <= b <= 57) || (97 <= b <= 122) || (65 <= b <= 90) || b == 95 || b == 45
}

/// The value, 0 to 63, of a character of the alphabet.
pub open spec fn base64_value(b: u8) -> int {
    if 48 <= b <= 57 {
        b - 48
    } else if 97 <= b <= 122 {
        b - 97 + 10
    } else if 65 <= b <= 90 {
        b - 65 + 36
    } else if b == 95 {
        62
    } else {
        63
    }
}

/// The character of the alphabet for a value below 64.
pub open spec fn base64_char(v: int) -> char {
    if v < 10 {
        ((48 + v) as u8) as char
    } else if v < 36 {
        ((97 + v - 10) as u8) as char
    } else if v < 62 {
        ((65 + v - 36) as u8) as char
    } else if v == 62 {
        '_'
    } else {
        '-'
    }
}

fn base64char_to_int(code: u8) -> (v: u8)
    requires
        is_base64_byte(code),
    ensures
        v == base64_value(code),
{
    if 48 <= code && code <= 57 {
        code - 48u8
    } else if 97 <= code && code <= 122 {
        code - 97u8 + 10
    } else if 65 <= code && code <= 90 {
        code - 65u8 + 10 + 26
    } else if code == 95u8 {
        10 + 26 + 26
    } else {
        10 + 26 + 26 + 1
    }
}

fn int_to_base64char(value: u8) -> (ch: char)
    requires
        value < 64,
    ensures
        ch == base64_char(value as int),
{
    if value < 10 {
        (48u8 + value) as char
    } else if 10 <= value && value < 36 {
        (97u8 + value - 10) as char
    } else if 36 <= value && value < 62 {
        (65u8 + value - 36) as char
    } else if value == 62 {
        '_'
    } else {
        '-'
    }
}

/// A text the codec reads: characters of the alphabet, an even number of them.
pub open spec fn is_id_text(bytes: Seq<u8>) -> bool {
    &&& bytes.len() % 2 == 0
    &&& forall|i: int| 0 <= i < bytes.len() ==> is_base64_byte(#[trigger] bytes[i])
}

/// Nibble `i` of a text: each pair of characters holds a 12-bit value, three nibbles, the most
/// significant first.
pub open spec fn nibble_of(bytes: Seq<u8>, i: int) -> u8 {
    let k = i / 3;
    let v = base64_value(bytes[2 * k]) * 64 + base64_value(bytes[2 * k + 1]);
    if i % 3 == 0 {
        (v / 256) as u8
    } else if i % 3 == 1 {
        (v / 16 % 16) as u8
    } else {
        (v % 16) as u8
    }
}

/// The nibbles of a text.
pub open spec fn nibbles(bytes: Seq<u8>) -> Seq<u8> {
    Seq::new((bytes.len() / 2 * 3) as nat, |i: int| nibble_of(bytes, i))
}

fn to_ints(base64: &str) -> (base16: Vec<u8>)
    requires
        is_id_text(base64.spec_bytes()),
    ensures
        base16@ == nibbles(base64.spec_bytes()),
        forall|i: int| 0 <= i < base16@.len() ==> #[trigger] base16@[i] < 16,
{
    let bytes = base64.as_bytes();
    let ghost text = base64.spec_bytes();
    let mut base16: Vec<u8> = Vec::new();
    let mut fr: usize = 0;
    let len = bytes.len();
    while fr < len
        invariant
            bytes@ == text,
            len == text.len(),
            is_id_text(text),
            fr % 2 == 0,
            fr <= len,
            base16@.len() == fr / 2 * 3,
            forall|i: int| 0 <= i < base16@.len() ==> #[trigger] base16@[i] == nibble_of(text, i),
            forall|i: int| 0 <= i < base16@.len() ==> #[trigger] base16@[i] < 16,
        decreases len - fr,
    {
        assert(is_base64_byte(text[fr as int]) && is_base64_byte(text[fr + 1]));
        let value = base64char_to_int(bytes[fr]) as u16 * 64u16 + base64char_to_int(bytes[fr + 1]) as u16;
        let ghost k = fr / 2;
        let ghost n = base16@.len();
        base16.push((value / 256) as u8);
        base16.push((value / 16 % 16) as u8);
        base16.push((value % 16) as u8);
        proof {
            assert(n == 3 * k);
            assert(n / 3 == k && (n + 1) / 3 == k && (n + 2) / 3 == k);
            assert(n % 3 == 0 && (n + 1) % 3 == 1 && (n + 2) % 3 == 2);
        }
        fr += 2;
    }
    assert(base16@ =~= nibbles(text));
    base16
}

/// The nibbles padded with zeros to a multiple of three.
pub open spec fn padded(ints: Seq<u8>) -> Seq<u8> {
    ints + Seq::new(((3 - ints.len() % 3) % 3) as nat, |i: int| 0u8)
}

/// Character `i` of the text of some nibbles: each three nibbles make two characters.
pub open spec fn text_char(p: Seq<u8>, i: int) -> char {
    let k = i / 2;
    let v = p[3 * k] * 256 + p[3 * k + 1] * 16 + p[3 * k + 2];
    if i % 2 == 0 {
        base64_char(v / 64)
    } else {
        base64_char(v % 64)
    }
}

/// The text of some nibbles.
pub open spec fn text_of(ints: Seq<u8>) -> Seq<char> {
    let p = padded(ints);
    Seq::new((p.len() / 3 * 2) as nat, |i: int| text_char(p, i))
}

/// Relies on `String::push`: appends one character.
#[verifier::external_body]
fn push_char(s: &mut String, ch: char)
    ensures
        final(s)@ == old(s)@.push(ch),
{
    s.push(ch)
}

fn to_base64(ints: &[u8]) -> (base64: String)
    requires
        forall|i: int| 0 <= i < ints@.len() ==> #[trigger] ints@[i] < 16,
        ints@.len() < usize::MAX - 3,
    ensures
        base64@ == text_of(ints@),
{
    let mut padded_ints: Vec<u8> = Vec::new();
    let mut i: usize = 0;
    while i < ints.len()
        invariant
            i <= ints@.len(),
            padded_ints@ == ints@.subrange(0, i as int),
        decreases ints@.len() - i,
    {
        padded_ints.push(ints[i]);
        i += 1;
        assert(padded_ints@ =~= ints@.subrange(0, i as int));
    }
    while padded_ints.len() % 3 != 0
        invariant
            padded_ints@.len() <= ints@.len() + (3 - ints@.len() % 3) % 3,
            padded_ints@.len() >= ints@.len(),
            padded_ints@.subrange(0, ints@.len() as int) == ints@,
            forall|j: int| ints@.len() <= j < padded_ints@.len() ==> #[trigger] padded_ints@[j] == 0,
            ints@.len() < usize::MAX - 3,
        decreases 3 - (padded_ints@.len() - ints@.len()),
    {
        padded_ints.push(0);
        assert(padded_ints@.subrange(0, ints@.len() as int) =~= ints@);
    }
    let ghost p = padded(ints@);
    assert(padded_ints@ =~= p) by {
        assert(padded_ints@.len() == p.len());
        assert forall|j: int| 0 <= j < p.len() implies padded_ints@[j] == p[j] by {
            if j < ints@.len() {
                assert(padded_ints@[j] == padded_ints@.subrange(0, ints@.len() as int)[j]);
            }
        }
    }
    let mut base64 = String::new();
    let mut fr: usize = 0;
    while fr < padded_ints.len()
        invariant
            padded_ints@ == p,
            p.len() % 3 == 0,
            fr % 3 == 0,
            fr <= p.len(),
            forall|j: int| 0 <= j < p.len() ==> #[trigger] p[j] < 16,
            base64@.len() == fr / 3 * 2,
            forall|j: int| 0 <= j < base64@.len() ==> #[trigger] base64@[j] == text_char(p, j),
        decreases p.len() - fr,
    {
        assert(p[fr as int] < 16 && p[fr + 1] < 16 && p[fr + 2] < 16);
        let value = padded_ints[fr] as u16 * 256 + padded_ints[fr + 1] as u16 * 16
            + padded_ints[fr + 2] as u16;
        let ghost n = base64@.len();
        push_char(&mut base64, int_to_base64char((value / 64) as u8));
        push_char(&mut base64, int_to_base64char((value % 64) as u8));
        proof {
            assert(n == fr / 3 * 2);
            assert(n / 2 == fr / 3 && (n + 1) / 2 == fr / 3);
            assert(3 * (fr / 3) == fr);
        }
        fr += 3;
    }
    assert(base64@ =~= text_of(ints@));
    base64
}

/// The point stored at `at`: column first, then row.
pub open spec fn point_at(n: Seq<u8>, at: int) -> Point {
    Point { r: n[at + 1] as i8, c: n[at] as i8 }
}

fn read_point_from_array(arr: &[u8], i: usize) -> (p: Point)
    requires
        i < 0x1000,
        2 * i + 1 < arr@.len(),
        arr@[2 * i] < 16,
        arr@[2 * i + 1] < 16,
    ensures
        p == point_at(arr@, 2 * i),
{
    let ci = i * 2;
    let ri = ci + 1;
    Point::new(arr[ri] as i8, arr[ci] as i8)
}

fn write_point_to_vec(vec: &mut Vec<u8>, point: Point)
    ensures
        final(vec)@ == old(vec)@.push(point.c as u8).push(point.r as u8),
{
    vec.push(point.c as u8);
    vec.push(point.r as u8);
}

/// Whether the wall-grid entry `(i, j)` holds a wall once the cells numbered below `k` are read:
/// each cell's nibble has one bit per side (up, right, down, left from the least significant),
/// clear where a wall stands.
pub open spec fn loaded_wall(n: Seq<u8>, k: int, i: int, j: int) -> bool {
    if i % 2 == 0 && j % 2 == 1 {
        let c = (j - 1) / 2;
        let above = i / 2 - 1;
        let below = i / 2;
        (0 <= above && above * 16 + c < k && n[above * 16 + c] / 4 % 2 == 0) || (below < 16
            && below * 16 + c < k && n[below * 16 + c] % 2 == 0)
    } else if i % 2 == 1 && j % 2 == 0 {
        let r = (i - 1) / 2;
        let left = j / 2 - 1;
        let right = j / 2;
        (0 <= left && r * 16 + left < k && n[r * 16 + left] / 2 % 2 == 0) || (right < 16 && r * 16
            + right < k && n[r * 16 + right] / 8 % 2 == 0)
    } else {
        false
    }
}

/// Each edge of the field is walled in the nibbles.
pub open spec fn edges_walled(n: Seq<u8>) -> bool {
    forall|x: int| 0 <= x < BOARD_SIZE ==> #[trigger] edge_walled(n, x)
}

/// The cells at position `x` along the four edges have a wall on the edge's side.
pub open spec fn edge_walled(n: Seq<u8>, x: int) -> bool {
    &&& n[x] % 2 == 0
    &&& n[15 * 16 + x] / 4 % 2 == 0
    &&& n[x * 16] / 8 % 2 == 0
    &&& n[x * 16 + 15] / 2 % 2 == 0
}

/// The goal nibbles name a goal that the id holds.
pub open spec fn goal_named(n: Seq<u8>) -> bool {
    n[GOAL_ID_START + 1] < ROBOT_COUNT ==> n[GOAL_ID_START as int] * 4 + n[GOAL_ID_START + 1] < 16
}

/// A text `load` accepts: complete, with walled edges and a goal it holds.
pub open spec fn is_loadable(bytes: Seq<u8>) -> bool {
    &&& is_id_text(bytes)
    &&& bytes.len() >= ID_LENGTH / 3 * 2
    &&& edges_walled(nibbles(bytes))
    &&& goal_named(nibbles(bytes))
}

pub open spec fn loaded_target(n: Seq<u8>) -> TargetType {
    if n[GOAL_ID_START + 1] < ROBOT_COUNT {
        TargetType::Particular(n[GOAL_ID_START + 1] as usize)
    } else {
        TargetType::Any
    }
}

pub open spec fn loaded_goal(n: Seq<u8>) -> Point {
    if n[GOAL_ID_START + 1] < ROBOT_COUNT {
        point_at(n, NORMAL_GOAL_ID_START + 2 * (n[GOAL_ID_START as int] * 4 + n[GOAL_ID_START + 1]))
    } else {
        point_at(n, WILD_GOAL_ID_START as int)
    }
}

pub open spec fn loaded_robots(n: Seq<u8>) -> Seq<Point> {
    Seq::new(ROBOT_COUNT as nat, |i: int| point_at(n, ROBOT_ID_START + 2 * i))
}

proof fn lemma_loaded_border(walls: WallBoard, n: Seq<u8>)
    requires
        n.len() >= BASE_ID_LENGTH,
        edges_walled(n),
        forall|i: int, j: int|
            0 <= i < WALL_MAP_SIZE && 0 <= j < WALL_MAP_SIZE ==> #[trigger] walls[i][j]
                == loaded_wall(n, BASE_ID_LENGTH as int, i, j),
    ensures
        border_closed(walls),
{
    assert forall|p: Point, d: Direction|
        in_board(p) && !in_board(shift(p, d, 1)) implies #[trigger] wall_beside(walls, p, d) by {
        match d {
            Direction::Up => {
                assert(edge_walled(n, p.c as int));
                assert(walls[0][2 * p.c + 1] == loaded_wall(n, 256, 0, 2 * p.c + 1));
            },
            Direction::Down => {
                assert(edge_walled(n, p.c as int));
                assert(walls[32][2 * p.c + 1] == loaded_wall(n, 256, 32, 2 * p.c + 1));
            },
            Direction::Left => {
                assert(edge_walled(n, p.r as int));
                assert(walls[2 * p.r + 1][0] == loaded_wall(n, 256, 2 * p.r + 1, 0));
            },
            Direction::Right => {
                assert(edge_walled(n, p.r as int));
                assert(walls[2 * p.r + 1][32] == loaded_wall(n, 256, 2 * p.r + 1, 32));
            },
        }
    }
}

/// Sets one entry of the wall grid.
fn set_wall(walls: &mut WallBoard, i: usize, j: usize)
    requires
        i < WALL_MAP_SIZE,
        j < WALL_MAP_SIZE,
    ensures
        forall|x: int, y: int|
            0 <= x < WALL_MAP_SIZE && 0 <= y < WALL_MAP_SIZE ==> #[trigger] final(walls)[x][y] == (
            (x == i && y == j) || old(walls)[x][y]),
{
    let mut row = walls[i];
    row[j] = true;
    walls[i] = row;
}

/// The cell `(r, c)` puts a wall at wall-grid entry `(i, j)`.
pub open spec fn cell_sets(n: Seq<u8>, r: int, c: int, i: int, j: int) -> bool {
    let x = n[r * 16 + c];
    ||| (i == 2 * r && j == 2 * c + 1 && x % 2 == 0)
    ||| (i == 2 * r + 1 && j == 2 * c + 2 && x / 2 % 2 == 0)
    ||| (i == 2 * r + 2 && j == 2 * c + 1 && x / 4 % 2 == 0)
    ||| (i == 2 * r + 1 && j == 2 * c && x / 8 % 2 == 0)
}

#[verifier::rlimit(50)]
proof fn lemma_loaded_step(n: Seq<u8>, r: int, c: int, i: int, j: int)
    requires
        0 <= r < BOARD_SIZE,
        0 <= c < BOARD_SIZE,
        0 <= i < WALL_MAP_SIZE,
        0 <= j < WALL_MAP_SIZE,
    ensures
        loaded_wall(n, r * 16 + c + 1, i, j) == (loaded_wall(n, r * 16 + c, i, j) || cell_sets(
            n,
            r,
            c,
            i,
            j,
        )),
{
    let k = r * 16 + c;
    if i % 2 == 0 && j % 2 == 1 {
        let cc = (j - 1) / 2;
        let above = i / 2 - 1;
        let below = i / 2;
        assert(above * 16 + cc == k <==> (above == r && cc == c));
        assert(below * 16 + cc == k <==> (below == r && cc == c));
    } else if i % 2 == 1 && j % 2 == 0 {
        let rr = (i - 1) / 2;
        let left = j / 2 - 1;
        let right = j / 2;
        assert(0 <= left ==> (rr * 16 + left == k <==> (rr == r && left == c)));
        assert(right < 16 ==> (rr * 16 + right == k <==> (rr == r && right == c)));
    }
}

/// Puts the walls that the nibble of cell `(r, c)` describes.
fn load_cell(walls: &mut WallBoard, base: &[u8], r: usize, c: usize)
    requires
        base@.len() >= BASE_ID_LENGTH,
        r < BOARD_SIZE,
        c < BOARD_SIZE,
    ensures
        forall|i: int, j: int|
            0 <= i < WALL_MAP_SIZE && 0 <= j < WALL_MAP_SIZE ==> #[trigger] final(walls)[i][j] == (
            old(walls)[i][j] || cell_sets(base@, r as int, c as int, i, j)),
{
    let wall_r = r * 2 + 1;
    let wall_c = c * 2 + 1;
    let idx = r * BOARD_SIZE + c;
    let wall_state = base[idx];
    let ghost before = *walls;
    // (msb) LDRU (lsb)
    if wall_state % 2 == 0 {
        set_wall(walls, wall_r - 1, wall_c);
    }
    let ghost w1 = *walls;
    if wall_state / 2 % 2 == 0 {
        set_wall(walls, wall_r, wall_c + 1);
    }
    let ghost w2 = *walls;
    if wall_state / 4 % 2 == 0 {
        set_wall(walls, wall_r + 1, wall_c);
    }
    let ghost w3 = *walls;
    if wall_state / 8 % 2 == 0 {
        set_wall(walls, wall_r, wall_c - 1);
    }
    assert forall|i: int, j: int|
        0 <= i < WALL_MAP_SIZE && 0 <= j < WALL_MAP_SIZE implies #[trigger] walls[i][j] == (
        before[i][j] || cell_sets(base@, r as int, c as int, i, j)) by {
        assert(w1[i][j] == (before[i][j] || (i == 2 * r && j == 2 * c + 1 && wall_state % 2 == 0)));
        assert(w2[i][j] == (w1[i][j] || (i == 2 * r + 1 && j == 2 * c + 2 && wall_state / 2 % 2
            == 0)));
        assert(w3[i][j] == (w2[i][j] || (i == 2 * r + 2 && j == 2 * c + 1 && wall_state / 4 % 2
            == 0)));
    }
}

/// The wall grid that the base nibbles describe.
fn load_walls(base: &[u8]) -> (walls: WallBoard)
    requires
        base@.len() >= BASE_ID_LENGTH,
    ensures
        forall|i: int, j: int|
            0 <= i < WALL_MAP_SIZE && 0 <= j < WALL_MAP_SIZE ==> #[trigger] walls[i][j]
                == loaded_wall(base@, BASE_ID_LENGTH as int, i, j),
{
    let mut walls: WallBoard = [[false; WALL_MAP_SIZE]; WALL_MAP_SIZE];
    assert forall|i: int, j: int|
        0 <= i < WALL_MAP_SIZE && 0 <= j < WALL_MAP_SIZE implies #[trigger] walls[i][j]
        == loaded_wall(base@, 0, i, j) by {
        assert(walls[i][j] == false);
    }
    let mut r: usize = 0;
    while r < BOARD_SIZE
        invariant
            base@.len() >= BASE_ID_LENGTH,
            r <= BOARD_SIZE,
            forall|i: int, j: int|
                0 <= i < WALL_MAP_SIZE && 0 <= j < WALL_MAP_SIZE ==> #[trigger] walls[i][j]
                    == loaded_wall(base@, r * 16, i, j),
        decreases BOARD_SIZE - r,
    {
        let mut c: usize = 0;
        while c < BOARD_SIZE
            invariant
                base@.len() >= BASE_ID_LENGTH,
                r < BOARD_SIZE,
                c <= BOARD_SIZE,
                forall|i: int, j: int|
                    0 <= i < WALL_MAP_SIZE && 0 <= j < WALL_MAP_SIZE ==> #[trigger] walls[i][j]
                        == loaded_wall(base@, r * 16 + c, i, j),
            decreases BOARD_SIZE - c,
        {
            let ghost before = walls;
            load_cell(&mut walls, base, r, c);
            proof {
                assert forall|i: int, j: int|
                    0 <= i < WALL_MAP_SIZE && 0 <= j < WALL_MAP_SIZE implies #[trigger] walls[i][j]
                    == loaded_wall(base@, r * 16 + c + 1, i, j) by {
                    assert(before[i][j] == loaded_wall(base@, r * 16 + c, i, j));
                    lemma_loaded_step(base@, r as int, c as int, i, j);
                }
            }
            c += 1;
        }
        r += 1;
    }
    walls
}

/// The first goal that the nibbles name, and whom it is for.
fn read_goal(base16: &[u8]) -> (r: (Point, TargetType))
    requires
        base16@.len() >= ID_LENGTH,
        forall|t: int| 0 <= t < base16@.len() ==> #[trigger] base16@[t] < 16,
        goal_named(base16@),
    ensures
        r.0 == loaded_goal(base16@),
        r.1 == loaded_target(base16@),
        r.1.is_valid(),
{
    let ghost n = base16@;
    let normal_goal = vstd::slice::slice_subrange(
        base16,
        NORMAL_GOAL_ID_START,
        NORMAL_GOAL_ID_START + NORMAL_GOAL_ID_LENGTH,
    );
    let wild_goal = vstd::slice::slice_subrange(
        base16,
        WILD_GOAL_ID_START,
        WILD_GOAL_ID_START + WILD_GOAL_ID_LENGTH,
    );
    // robot color order: RBGY
    let goal_cell = base16[GOAL_ID_START];
    let goal_robot = base16[GOAL_ID_START + 1];
    let target_type = if goal_robot < ROBOT_COUNT as u8 {
        TargetType::Particular(goal_robot as usize)
    } else {
        TargetType::Any
    };
    let position = match target_type {
        TargetType::Particular(_) => {
            let idx = (goal_cell * ROBOT_COUNT as u8 + goal_robot) as usize;
            assert(normal_goal@[2 * idx] == n[NORMAL_GOAL_ID_START + 2 * idx]);
            assert(normal_goal@[2 * idx + 1] == n[NORMAL_GOAL_ID_START + 2 * idx + 1]);
            read_point_from_array(normal_goal, idx)
        },
        TargetType::Any => {
            assert(wild_goal@[0] == n[WILD_GOAL_ID_START as int]);
            assert(wild_goal@[1] == n[WILD_GOAL_ID_START + 1]);
            read_point_from_array(wild_goal, 0)
        },
    };
    (position, target_type)
}

/// The robots that the nibbles place.
fn read_robots(base16: &[u8]) -> (state: GameState)
    requires
        base16@.len() >= ID_LENGTH,
        forall|t: int| 0 <= t < base16@.len() ==> #[trigger] base16@[t] < 16,
    ensures
        state@ == loaded_robots(base16@),
        state.wf(),
{
    let ghost n = base16@;
    let robot = vstd::slice::slice_subrange(base16, ROBOT_ID_START, ROBOT_ID_START + ROBOT_ID_LENGTH);
    let mut robots: [Point; ROBOT_COUNT] = [Point::new(0, 0); ROBOT_COUNT];
    let mut i: usize = 0;
    while i < ROBOT_COUNT
        invariant
            n.len() >= ID_LENGTH,
            forall|t: int| 0 <= t < n.len() ==> #[trigger] n[t] < 16,
            robot@ == n.subrange(ROBOT_ID_START as int, ROBOT_ID_START + ROBOT_ID_LENGTH),
            i <= ROBOT_COUNT,
            forall|t: int| 0 <= t < i ==> #[trigger] robots[t] == point_at(n, ROBOT_ID_START + 2 * t),
        decreases ROBOT_COUNT - i,
    {
        assert(robot@[2 * i] == n[ROBOT_ID_START + 2 * i]);
        assert(robot@[2 * i + 1] == n[ROBOT_ID_START + 2 * i + 1]);
        robots[i] = read_point_from_array(robot, i);
        i += 1;
    }
    let state = GameState { robots };
    assert(state@ =~= loaded_robots(n));
    assert forall|t: int| 0 <= t < ROBOT_COUNT implies #[trigger] in_board(state@[t]) by {
        assert(n[ROBOT_ID_START + 2 * t] < 16 && n[ROBOT_ID_START + 2 * t + 1] < 16);
    }
    state
}

/// Whether `load` accepts the text.
pub fn is_loadable_id(base64: &str) -> (b: bool)
    ensures
        b == is_loadable(base64.spec_bytes()),
{
    let bytes = base64.as_bytes();
    let len = bytes.len();
    if len % 2 != 0 || len < ID_LENGTH / 3 * 2 {
        return false;
    }
    let mut i: usize = 0;
    while i < len
        invariant
            bytes@ == base64.spec_bytes(),
            len == bytes@.len(),
            i <= len,
            forall|k: int| 0 <= k < i ==> is_base64_byte(#[trigger] bytes@[k]),
        decreases len - i,
    {
        let b = bytes[i];
        if !((48 <= b && b <= 57) || (97 <= b && b <= 122) || (65 <= b && b <= 90) || b == 95 || b
            == 45) {
            return false;
        }
        i += 1;
    }
    let base16 = to_ints(base64);
    let ghost n = base16@;
    let mut x: usize = 0;
    while x < BOARD_SIZE
        invariant
            n == base16@,
            n == nibbles(base64.spec_bytes()),
            n.len() >= ID_LENGTH,
            x <= BOARD_SIZE,
            forall|y: int| 0 <= y < x ==> #[trigger] edge_walled(n, y),
        decreases BOARD_SIZE - x,
    {
        if !(base16[x] % 2 == 0 && base16[15 * 16 + x] / 4 % 2 == 0 && base16[x * 16] / 8 % 2 == 0
            && base16[x * 16 + 15] / 2 % 2 == 0) {
            assert(!edge_walled(n, x as int));
            return false;
        }
        x += 1;
    }
    let goal_cell = base16[GOAL_ID_START];
    let goal_robot = base16[GOAL_ID_START + 1];
    goal_robot as usize >= ROBOT_COUNT || (goal_cell as usize) * 4 + (goal_robot as usize) < 16
}

/// Reads a board id: the walls, the robots, and the first goal it names.
pub fn load(base64: &str) -> (r: (GameSpec, GameState))
    requires
        is_loadable(base64.spec_bytes()),
    ensures
        r.0.wf(),
        forall|i: int, j: int|
            0 <= i < WALL_MAP_SIZE && 0 <= j < WALL_MAP_SIZE ==> #[trigger] r.0.walls[i][j]
                == loaded_wall(nibbles(base64.spec_bytes()), BASE_ID_LENGTH as int, i, j),
        r.0.goal == loaded_goal(nibbles(base64.spec_bytes())),
        r.0.target_type == loaded_target(nibbles(base64.spec_bytes())),
        r.1@ == loaded_robots(nibbles(base64.spec_bytes())),
        r.1.wf(),
{
    let base16 = to_ints(base64);
    let ghost n = base16@;
    assert(n.len() >= ID_LENGTH);
    let (position, target_type) = read_goal(base16.as_slice());
    let state = read_robots(base16.as_slice());
    let walls = load_walls(base16.as_slice());
    proof {
        lemma_loaded_border(walls, n);
    }
    let spec = GameSpec::new(walls, position, target_type);
    (spec, state)
}

/// The nibble of cell `(r, c)`: a bit for each side without a wall (up, right, down, left).
pub open spec fn wall_nibble(walls: WallBoard, r: int, c: int) -> u8 {
    ((if !walls[2 * r][2 * c + 1] {
        1int
    } else {
        0
    }) + (if !walls[2 * r + 1][2 * c + 2] {
        2int
    } else {
        0
    }) + (if !walls[2 * r + 2][2 * c + 1] {
        4int
    } else {
        0
    }) + (if !walls[2 * r + 1][2 * c] {
        8int
    } else {
        0
    })) as u8
}

/// The cell written into the goal slots that the board does not use: the first cell that is
/// not the goal.
pub open spec fn placeholder(goal: Point) -> Point {
    if goal == (Point { r: 0, c: 0 }) {
        Point { r: 0, c: 1 }
    } else {
        Point { r: 0, c: 0 }
    }
}

/// The nibbles of a board and a state.
pub open spec fn dumped(spec: GameSpec, s: Seq<Point>) -> Seq<u8> {
    let base = Seq::new(BASE_ID_LENGTH as nat, |k: int| wall_nibble(spec.walls, k / 16, k % 16));
    let ng = placeholder(spec.goal);
    let fill = Seq::new(
        (NORMAL_GOAL_ID_LENGTH + WILD_GOAL_ID_LENGTH) as nat,
        |k: int|
            if k % 2 == 0 {
                ng.c as u8
            } else {
                ng.r as u8
            },
    );
    let robots = Seq::new(
        ROBOT_ID_LENGTH as nat,
        |k: int|
            if k % 2 == 0 {
                s[k / 2].c as u8
            } else {
                s[k / 2].r as u8
            },
    );
    let body = base + fill + robots;
    match spec.target_type {
        TargetType::Any => (body + seq![4u8, 4u8]).update(
            WILD_GOAL_ID_START as int,
            spec.goal.c as u8,
        ).update(WILD_GOAL_ID_START + 1, spec.goal.r as u8),
        TargetType::Particular(i) => (body + seq![0u8, i as u8]).update(
            NORMAL_GOAL_ID_START + i * POSITION_LENGTH,
            spec.goal.c as u8,
        ).update(NORMAL_GOAL_ID_START + i * POSITION_LENGTH + 1, spec.goal.r as u8),
    }
}

/// Writes a board and a state as a board id.
pub fn dump(spec: &GameSpec, state: &GameState) -> (r: String)
    requires
        spec.wf(),
        state.wf(),
        in_board(spec.goal),
    ensures
        r@ == text_of(dumped(*spec, state@)),
{
    let mut base16: Vec<u8> = Vec::new();
    let mut r: usize = 0;
    while r < BOARD_SIZE
        invariant
            r <= BOARD_SIZE,
            base16@.len() == r * 16,
            forall|k: int|
                0 <= k < base16@.len() ==> #[trigger] base16@[k] == wall_nibble(
                    spec.walls,
                    k / 16,
                    k % 16,
                ),
        decreases BOARD_SIZE - r,
    {
        let mut c: usize = 0;
        while c < BOARD_SIZE
            invariant
                r < BOARD_SIZE,
                c <= BOARD_SIZE,
                base16@.len() == r * 16 + c,
                forall|k: int|
                    0 <= k < base16@.len() ==> #[trigger] base16@[k] == wall_nibble(
                        spec.walls,
                        k / 16,
                        k % 16,
                    ),
            decreases BOARD_SIZE - c,
        {
            let wall_r = r * 2 + 1;
            let wall_c = c * 2 + 1;
            let mut wall_state: u8 = 0;
            // (msb) LDRU (lsb)
            if !spec.walls[wall_r - 1][wall_c] {
                wall_state += 1;
            }
            if !spec.walls[wall_r][wall_c + 1] {
                wall_state += 2;
            }
            if !spec.walls[wall_r + 1][wall_c] {
                wall_state += 4;
            }
            if !spec.walls[wall_r][wall_c - 1] {
                wall_state += 8;
            }
            proof {
                let k = base16@.len() as int;
                assert(k / 16 == r && k % 16 == c);
            }
            base16.push(wall_state);
            c += 1;
        }
        r += 1;
    }
    // normal goal + wild goal
    let nongoal = if spec.goal != Point::new(0, 0) {
        Point::new(0, 0)
    } else {
        Point::new(0, 1)
    };
    let mut i: usize = 0;
    while i < ROBOT_COUNT * 4 + 1
        invariant
            i <= ROBOT_COUNT * 4 + 1,
            nongoal == placeholder(spec.goal),
            base16@.len() == BASE_ID_LENGTH + 2 * i,
            forall|k: int|
                0 <= k < BASE_ID_LENGTH ==> #[trigger] base16@[k] == wall_nibble(
                    spec.walls,
                    k / 16,
                    k % 16,
                ),
            forall|k: int|
                BASE_ID_LENGTH <= k < base16@.len() ==> #[trigger] base16@[k] == if (k
                    - BASE_ID_LENGTH) % 2 == 0 {
                    nongoal.c as u8
                } else {
                    nongoal.r as u8
                },
        decreases ROBOT_COUNT * 4 + 1 - i,
    {
        write_point_to_vec(&mut base16, nongoal);
        i += 1;
    }
    let mut i: usize = 0;
    while i < ROBOT_COUNT
        invariant
            i <= ROBOT_COUNT,
            nongoal == placeholder(spec.goal),
            base16@.len() == ROBOT_ID_START + 2 * i,
            forall|k: int|
                0 <= k < BASE_ID_LENGTH ==> #[trigger] base16@[k] == wall_nibble(
                    spec.walls,
                    k / 16,
                    k % 16,
                ),
            forall|k: int|
                BASE_ID_LENGTH <= k < ROBOT_ID_START ==> #[trigger] base16@[k] == if (k
                    - BASE_ID_LENGTH) % 2 == 0 {
                    nongoal.c as u8
                } else {
                    nongoal.r as u8
                },
            forall|k: int|
                ROBOT_ID_START <= k < base16@.len() ==> #[trigger] base16@[k] == if (k
                    - ROBOT_ID_START) % 2 == 0 {
                    state@[(k - ROBOT_ID_START) / 2].c as u8
                } else {
                    state@[(k - ROBOT_ID_START) / 2].r as u8
                },
        decreases ROBOT_COUNT - i,
    {
        write_point_to_vec(&mut base16, state.robots[i]);
        i += 1;
    }
    let ghost body = base16@;
    match spec.target_type {
        TargetType::Any => {
            base16.push(4);
            base16.push(4);
            base16.set(WILD_GOAL_ID_START, spec.goal.c as u8);
            base16.set(WILD_GOAL_ID_START + 1, spec.goal.r as u8);
        },
        TargetType::Particular(robot_index) => {
            base16.push(0);
            base16.push(robot_index as u8);
            base16.set(NORMAL_GOAL_ID_START + robot_index * POSITION_LENGTH, spec.goal.c as u8);
            base16.set(
                NORMAL_GOAL_ID_START + robot_index * POSITION_LENGTH + 1,
                spec.goal.r as u8,
            );
        },
    }
    let ghost expected = dumped(*spec, state@);
    assert(body =~= Seq::new(BASE_ID_LENGTH as nat, |k: int| wall_nibble(spec.walls, k / 16, k % 16))
        + Seq::new(
        (NORMAL_GOAL_ID_LENGTH + WILD_GOAL_ID_LENGTH) as nat,
        |k: int|
            if k % 2 == 0 {
                nongoal.c as u8
            } else {
                nongoal.r as u8
            },
    ) + Seq::new(
        ROBOT_ID_LENGTH as nat,
        |k: int|
            if k % 2 == 0 {
                state@[k / 2].c as u8
            } else {
                state@[k / 2].r as u8
            },
    ));
    assert(base16@ =~= expected);
    assert forall|k: int| 0 <= k < base16@.len() implies #[trigger] base16@[k] < 16 by {
        assert(in_board(state@[0]) && in_board(state@[1]) && in_board(state@[2]) && in_board(
            state@[3],
        ));
        if k < BASE_ID_LENGTH {
            assert(base16@[k] == wall_nibble(spec.walls, k / 16, k % 16));
        }
    }
    to_base64(base16.as_slice())
}

pub fn robot_index_to_color(robot_index: u8) -> (name: &'static str)
    requires
        robot_index < ROBOT_COUNT,
    ensures
        robot_index == 0 ==> name@ == "Red"@,
        robot_index == 1 ==> name@ == "Blue"@,
        robot_index == 2 ==> name@ == "Green"@,
        robot_index == 3 ==> name@ == "Yellow"@,
{
    match robot_index {
        0 => "Red",
        1 => "Blue",
        2 => "Green",
        _ => "Yellow",
    }
}

/// The board of one id with the robots of another.
pub fn unify_ids(spec_id: &str, state_id: &str) -> (r: String)
    requires
        is_id_text(spec_id.spec_bytes()),
        is_id_text(state_id.spec_bytes()),
        spec_id.spec_bytes().len() >= ID_LENGTH / 3 * 2,
        state_id.spec_bytes().len() >= ID_LENGTH / 3 * 2,
    ensures
        r@ == text_of(
            nibbles(spec_id.spec_bytes()).subrange(0, ROBOT_ID_START as int) + nibbles(
                state_id.spec_bytes(),
            ).subrange(ROBOT_ID_START as int, GOAL_ID_START as int) + nibbles(
                spec_id.spec_bytes(),
            ).subrange(GOAL_ID_START as int, ID_LENGTH as int),
        ),
{
    let spec_ints = to_ints(spec_id);
    let state_ints = to_ints(state_id);
    let ghost a = spec_ints@;
    let ghost b = state_ints@;
    let mut ints: Vec<u8> = Vec::new();
    let mut i: usize = 0;
    while i < ID_LENGTH
        invariant
            a.len() >= ID_LENGTH,
            b.len() >= ID_LENGTH,
            spec_ints@ == a,
            state_ints@ == b,
            i <= ID_LENGTH,
            ints@.len() == i,
            forall|k: int|
                0 <= k < i ==> #[trigger] ints@[k] == if ROBOT_ID_START <= k < GOAL_ID_START {
                    b[k]
                } else {
                    a[k]
                },
        decreases ID_LENGTH - i,
    {
        if ROBOT_ID_START <= i && i < GOAL_ID_START {
            ints.push(state_ints[i]);
        } else {
            ints.push(spec_ints[i]);
        }
        i += 1;
    }
    assert(ints@ =~= a.subrange(0, ROBOT_ID_START as int) + b.subrange(
        ROBOT_ID_START as int,
        GOAL_ID_START as int,
    ) + a.subrange(GOAL_ID_START as int, ID_LENGTH as int));
    to_base64(ints.as_slice())
}

proof fn lemma_char_round_trip(v: int)
    requires
        0 <= v < 64,
    ensures
        is_base64_byte(base64_char(v) as u8),
        base64_value(base64_char(v) as u8) == v,
        '\0' <= base64_char(v) <= '\u{7f}',
{
}

proof fn lemma_value_digits(a: int, b: int, c: int)
    requires
        0 <= a < 16,
        0 <= b < 16,
        0 <= c < 16,
    ensures
        ({
            let v = a * 256 + b * 16 + c;
            &&& (v / 64) * 64 + v % 64 == v
            &&& 0 <= v / 64 < 64
            &&& 0 <= v % 64 < 64
            &&& v / 256 == a
            &&& v / 16 % 16 == b
            &&& v % 16 == c
        }),
{
    let v = a * 256 + b * 16 + c;
    vstd::arithmetic::div_mod::lemma_fundamental_div_mod_converse(v, 256, a, b * 16 + c);
    vstd::arithmetic::div_mod::lemma_fundamental_div_mod_converse(v, 16, a * 16 + b, c);
    vstd::arithmetic::div_mod::lemma_fundamental_div_mod_converse(a * 16 + b, 16, a, b);
    vstd::arithmetic::div_mod::lemma_fundamental_div_mod(v, 64);
}

/// Reading back the text of some nibbles gives the nibbles, when their count is a multiple of
/// three.
proof fn lemma_text_round_trip(n: Seq<u8>)
    requires
        n.len() % 3 == 0,
        forall|i: int| 0 <= i < n.len() ==> #[trigger] n[i] < 16,
    ensures
        is_id_text(vstd::utf8::encode_utf8(text_of(n))),
        nibbles(vstd::utf8::encode_utf8(text_of(n))) == n,
{
    let text = text_of(n);
    assert(padded(n) =~= n);
    assert forall|i: int| 0 <= i < text.len() implies '\0' <= #[trigger] text[i] <= '\u{7f}'
        && is_base64_byte(text[i] as u8) && base64_value(text[i] as u8) == (if i % 2 == 0 {
        (n[3 * (i / 2)] * 256 + n[3 * (i / 2) + 1] * 16 + n[3 * (i / 2) + 2]) / 64
    } else {
        (n[3 * (i / 2)] * 256 + n[3 * (i / 2) + 1] * 16 + n[3 * (i / 2) + 2]) % 64
    }) by {
        let k = i / 2;
        assert(n[3 * k] < 16 && n[3 * k + 1] < 16 && n[3 * k + 2] < 16);
        lemma_value_digits(n[3 * k] as int, n[3 * k + 1] as int, n[3 * k + 2] as int);
        let v = n[3 * k] * 256 + n[3 * k + 1] * 16 + n[3 * k + 2];
        if i % 2 == 0 {
            lemma_char_round_trip(v / 64);
        } else {
            lemma_char_round_trip(v % 64);
        }
    }
    assert(vstd::utf8::is_ascii_chars(text));
    vstd::utf8::is_ascii_chars_encode_utf8(text);
    let bytes = vstd::utf8::encode_utf8(text);
    assert forall|i: int| 0 <= i < bytes.len() implies is_base64_byte(#[trigger] bytes[i]) by {
        assert(bytes[i] == text[i] as u8);
    }
    assert forall|i: int| 0 <= i < n.len() implies #[trigger] nibble_of(bytes, i) == n[i] by {
        let k = i / 3;
        assert(bytes[2 * k] == text[2 * k] as u8);
        assert(bytes[2 * k + 1] == text[2 * k + 1] as u8);
        assert((2 * k) / 2 == k && (2 * k + 1) / 2 == k && (2 * k) % 2 == 0 && (2 * k + 1) % 2 == 1);
        lemma_value_digits(n[3 * k] as int, n[3 * k + 1] as int, n[3 * k + 2] as int);
    }
    assert(nibbles(bytes) =~= n);
}

proof fn lemma_nibble_bits(walls: WallBoard, r: int, c: int)
    ensures
        (wall_nibble(walls, r, c) % 2 == 0) == walls[2 * r][2 * c + 1],
        (wall_nibble(walls, r, c) / 2 % 2 == 0) == walls[2 * r + 1][2 * c + 2],
        (wall_nibble(walls, r, c) / 4 % 2 == 0) == walls[2 * r + 2][2 * c + 1],
        (wall_nibble(walls, r, c) / 8 % 2 == 0) == walls[2 * r + 1][2 * c],
        wall_nibble(walls, r, c) < 16,
{
}

proof fn lemma_dumped_shape(spec: GameSpec, s: Seq<Point>)
    requires
        spec.wf(),
        state_in_board(s),
        in_board(spec.goal),
    ensures
        dumped(spec, s).len() == ID_LENGTH,
        forall|k: int|
            0 <= k < BASE_ID_LENGTH ==> #[trigger] dumped(spec, s)[k] == wall_nibble(
                spec.walls,
                k / 16,
                k % 16,
            ),
        forall|i: int| 0 <= i < ID_LENGTH ==> #[trigger] dumped(spec, s)[i] < 16,
        goal_named(dumped(spec, s)),
        loaded_goal(dumped(spec, s)) == spec.goal,
        loaded_target(dumped(spec, s)) == spec.target_type,
        loaded_robots(dumped(spec, s)) == s,
{
    let d = dumped(spec, s);
    assert(in_board(s[0]) && in_board(s[1]) && in_board(s[2]) && in_board(s[3]));
    assert forall|i: int| 0 <= i < d.len() implies #[trigger] d[i] < 16 by {
        if i < BASE_ID_LENGTH {
            lemma_nibble_bits(spec.walls, i / 16, i % 16);
        }
    }
    assert(loaded_robots(d) =~= s);
}

#[verifier::rlimit(40)]
proof fn lemma_dumped_edges(spec: GameSpec, s: Seq<Point>)
    requires
        spec.wf(),
        state_in_board(s),
        in_board(spec.goal),
    ensures
        edges_walled(dumped(spec, s)),
{
    let d = dumped(spec, s);
    lemma_dumped_shape(spec, s);
    assert forall|x: int| 0 <= x < BOARD_SIZE implies #[trigger] edge_walled(d, x) by {
        let top = Point { r: 0, c: x as i8 };
        let bottom = Point { r: 15, c: x as i8 };
        let left = Point { r: x as i8, c: 0 };
        let right = Point { r: x as i8, c: 15 };
        assert(wall_beside(spec.walls, top, Direction::Up));
        assert(wall_beside(spec.walls, bottom, Direction::Down));
        assert(wall_beside(spec.walls, left, Direction::Left));
        assert(wall_beside(spec.walls, right, Direction::Right));
        lemma_nibble_bits(spec.walls, 0, x);
        lemma_nibble_bits(spec.walls, 15, x);
        lemma_nibble_bits(spec.walls, x, 0);
        lemma_nibble_bits(spec.walls, x, 15);
        assert(d[x] == wall_nibble(spec.walls, 0, x));
        assert(d[15 * 16 + x] == wall_nibble(spec.walls, 15, x));
        assert(d[x * 16] == wall_nibble(spec.walls, x, 0));
        assert(d[x * 16 + 15] == wall_nibble(spec.walls, x, 15));
    }
}

#[verifier::rlimit(40)]
proof fn lemma_dumped_walls(spec: GameSpec, s: Seq<Point>)
    requires
        spec.wf(),
        state_in_board(s),
        in_board(spec.goal),
    ensures
        forall|i: int, j: int|
            0 <= i < WALL_MAP_SIZE && 0 <= j < WALL_MAP_SIZE && (i + j) % 2 == 1 ==> #[trigger] loaded_wall(
                dumped(spec, s),
                BASE_ID_LENGTH as int,
                i,
                j,
            ) == spec.walls[i][j],
{
    let d = dumped(spec, s);
    lemma_dumped_shape(spec, s);
    assert forall|i: int, j: int|
        0 <= i < WALL_MAP_SIZE && 0 <= j < WALL_MAP_SIZE && (i + j) % 2 == 1 implies #[trigger] loaded_wall(
        d,
        BASE_ID_LENGTH as int,
        i,
        j,
    ) == spec.walls[i][j] by {
        if i % 2 == 0 {
            let c = (j - 1) / 2;
            if i / 2 < 16 {
                lemma_nibble_bits(spec.walls, i / 2, c);
                assert(d[(i / 2) * 16 + c] == wall_nibble(spec.walls, i / 2, c));
            }
            if i / 2 >= 1 {
                lemma_nibble_bits(spec.walls, i / 2 - 1, c);
                assert(d[(i / 2 - 1) * 16 + c] == wall_nibble(spec.walls, i / 2 - 1, c));
            }
        } else {
            let r = (i - 1) / 2;
            if j / 2 < 16 {
                lemma_nibble_bits(spec.walls, r, j / 2);
                assert(d[r * 16 + j / 2] == wall_nibble(spec.walls, r, j / 2));
            }
            if j / 2 >= 1 {
                lemma_nibble_bits(spec.walls, r, j / 2 - 1);
                assert(d[r * 16 + j / 2 - 1] == wall_nibble(spec.walls, r, j / 2 - 1));
            }
        }
    }
}

/// Writing a board and a state as an id, then reading it back, gives the same walls next to
/// the field cells, the same goal and robots: the id is one that `load` accepts.
pub proof fn lemma_codec_round_trip(spec: GameSpec, s: Seq<Point>)
    requires
        spec.wf(),
        state_in_board(s),
        in_board(spec.goal),
    ensures
        ({
            let bytes = vstd::utf8::encode_utf8(text_of(dumped(spec, s)));
            let n = nibbles(bytes);
            &&& is_loadable(bytes)
            &&& loaded_goal(n) == spec.goal
            &&& loaded_target(n) == spec.target_type
            &&& loaded_robots(n) == s
            &&& forall|i: int, j: int|
                0 <= i < WALL_MAP_SIZE && 0 <= j < WALL_MAP_SIZE && (i + j) % 2 == 1 ==> #[trigger] loaded_wall(
                    n,
                    BASE_ID_LENGTH as int,
                    i,
                    j,
                ) == spec.walls[i][j]
        }),
{
    let d = dumped(spec, s);
    lemma_dumped_shape(spec, s);
    lemma_dumped_edges(spec, s);
    lemma_dumped_walls(spec, s);
    lemma_text_round_trip(d);
}

} // verus!
