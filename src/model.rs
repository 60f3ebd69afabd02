use vstd::prelude::*;

use crate::algorithm::{fact, permutation_swaps, swap_positions};

verus! {

pub const ROBOT_COUNT: usize = 4;

pub const BOARD_SIZE: usize = 16;

pub const WALL_MAP_SIZE: usize = BOARD_SIZE * 2 + 1;

/// One move for each robot and direction.
pub const MOVE_COUNT: usize = ROBOT_COUNT * 4;

/// A cell of the board, or of the wall grid, as (row, column).
#[derive(Debug, Clone, Copy, PartialEq, Eq, Hash, Structural)]
pub struct Point {
    pub r: i8,
    pub c: i8,
}

/// True when the point is a cell of the 16 x 16 field.
pub open spec fn in_board(p: Point) -> bool {
    0 <= p.r < BOARD_SIZE && 0 <= p.c < BOARD_SIZE
}

/// Small enough that sums and products of a few of them stay inside `i8`.
pub open spec fn is_small(p: Point) -> bool {
    -32 <= p.r <= 32 && -32 <= p.c <= 32
}

impl Point {
    pub fn new(r: i8, c: i8) -> (p: Point)
        ensures
            p.r == r,
            p.c == c,
    {
        Point { r, c }
    }

    /// Quarter turn: (r, c) -> (-c, r).
    fn rot(&self) -> (p: Point)
        requires
            self.c != i8::MIN,
        ensures
            p.r == -self.c,
            p.c == self.r,
            is_small(*self) ==> is_small(p),
    {
        Point { r: -self.c, c: self.r }
    }

    /// Quarter turn the other way: (r, c) -> (c, -r).
    fn rrot(&self) -> (p: Point)
        requires
            self.r != i8::MIN,
        ensures
            p.r == self.c,
            p.c == -self.r,
            is_small(*self) ==> is_small(p),
    {
        Point { r: self.c, c: -self.r }
    }

    pub fn add(self, rhs: Point) -> (p: Point)
        requires
            i8::MIN <= self.r + rhs.r <= i8::MAX,
            i8::MIN <= self.c + rhs.c <= i8::MAX,
        ensures
            p.r == self.r + rhs.r,
            p.c == self.c + rhs.c,
    {
        Point { r: self.r + rhs.r, c: self.c + rhs.c }
    }

    pub fn mul(self, rhs: i8) -> (p: Point)
        requires
            i8::MIN <= self.r * rhs <= i8::MAX,
            i8::MIN <= self.c * rhs <= i8::MAX,
        ensures
            p.r == self.r * rhs,
            p.c == self.c * rhs,
    {
        Point { r: self.r * rhs, c: self.c * rhs }
    }
}

#[derive(Debug, Clone, Copy, PartialEq, Eq, Hash, Structural)]
pub enum Direction {
    Up,
    Down,
    Left,
    Right,
}

/// Row component of the unit step in a direction.
pub open spec fn dr(d: Direction) -> int {
    match d {
        Direction::Up => -1,
        Direction::Down => 1,
        _ => 0,
    }
}

/// Column component of the unit step in a direction.
pub open spec fn dc(d: Direction) -> int {
    match d {
        Direction::Left => -1,
        Direction::Right => 1,
        _ => 0,
    }
}

/// The point `k` unit steps from `p` in direction `d`.
pub open spec fn shift(p: Point, d: Direction, k: int) -> Point {
    match d {
        Direction::Up => Point { r: (p.r - k) as i8, c: p.c },
        Direction::Down => Point { r: (p.r + k) as i8, c: p.c },
        Direction::Left => Point { r: p.r, c: (p.c - k) as i8 },
        Direction::Right => Point { r: p.r, c: (p.c + k) as i8 },
    }
}

impl Direction {
    /// The number of the direction: Up, Down, Left, Right are 0 to 3.
    pub open spec fn ordinal(self) -> nat {
        match self {
            Direction::Up => 0,
            Direction::Down => 1,
            Direction::Left => 2,
            Direction::Right => 3,
        }
    }

    pub open spec fn of_ordinal(i: int) -> Direction {
        if i == 0 {
            Direction::Up
        } else if i == 1 {
            Direction::Down
        } else if i == 2 {
            Direction::Left
        } else {
            Direction::Right
        }
    }

    pub open spec fn opposite(self) -> Direction {
        match self {
            Direction::Up => Direction::Down,
            Direction::Down => Direction::Up,
            Direction::Left => Direction::Right,
            Direction::Right => Direction::Left,
        }
    }

    pub fn index(&self) -> (i: usize)
        ensures
            i == self.ordinal(),
    {
        match self {
            Direction::Up => 0,
            Direction::Down => 1,
            Direction::Left => 2,
            Direction::Right => 3,
        }
    }

    pub fn from_index(i: usize) -> (d: Direction)
        requires
            i < 4,
        ensures
            d.ordinal() == i,
            d == Direction::of_ordinal(i as int),
    {
        if i == 0 {
            Direction::Up
        } else if i == 1 {
            Direction::Down
        } else if i == 2 {
            Direction::Left
        } else {
            Direction::Right
        }
    }

    pub fn reverse(&self) -> (d: Direction)
        ensures
            d == self.opposite(),
            dr(d) == -dr(*self),
            dc(d) == -dc(*self),
    {
        match self {
            Direction::Up => Direction::Down,
            Direction::Down => Direction::Up,
            Direction::Left => Direction::Right,
            Direction::Right => Direction::Left,
        }
    }
}

impl From<Direction> for Point {
    fn from(direction: Direction) -> (p: Point)
        ensures
            p.r == dr(direction),
            p.c == dc(direction),
    {
        match direction {
            Direction::Up => Point::new(-1, 0),
            Direction::Down => Point::new(1, 0),
            Direction::Left => Point::new(0, -1),
            Direction::Right => Point::new(0, 1),
        }
    }
}

impl vstd::std_specs::convert::FromSpecImpl<Direction> for Point {
    open spec fn obeys_from_spec() -> bool {
        true
    }

    open spec fn from_spec(v: Direction) -> Point {
        Point { r: dr(v) as i8, c: dc(v) as i8 }
    }
}

#[derive(Debug, Clone, Copy, PartialEq, Eq, Structural)]
pub enum TargetType {
    Any,
    Particular(usize),
}

impl TargetType {
    pub open spec fn is_valid(self) -> bool {
        match self {
            TargetType::Any => true,
            TargetType::Particular(i) => i < ROBOT_COUNT,
        }
    }

    pub fn robot_index(self, or_else: usize) -> (i: usize)
        ensures
            i == match self {
                TargetType::Any => or_else,
                TargetType::Particular(k) => k,
            },
    {
        match self {
            TargetType::Any => or_else,
            TargetType::Particular(robot_index) => robot_index,
        }
    }
}


#[derive(Debug, Clone, Copy)]
pub struct GameMove {
    pub robot_index: u8,
    pub direction: Direction,
}

/// The move with number `i`: robot `i / 4`, direction `i % 4`.
pub fn game_move(i: usize) -> (m: GameMove)
    requires
        i < ROBOT_COUNT * 4,
    ensures
        m.robot_index == i / 4,
        m.direction.ordinal() == i % 4,
{
    GameMove { robot_index: (i / 4) as u8, direction: Direction::from_index(i % 4) }
}

pub type WallBoard = [[bool; WALL_MAP_SIZE]; WALL_MAP_SIZE];

/// The wall-grid entry between field cell `p` and its neighbour in direction `d`.
pub open spec fn wall_beside(walls: WallBoard, p: Point, d: Direction) -> bool {
    walls[2 * p.r + 1 + dr(d)][2 * p.c + 1 + dc(d)]
}

/// No robot can leave the field: every edge of the field is walled.
pub open spec fn border_closed(walls: WallBoard) -> bool {
    forall|p: Point, d: Direction|
        #![trigger wall_beside(walls, p, d)]
        in_board(p) && !in_board(shift(p, d, 1)) ==> wall_beside(walls, p, d)
}

/// Number of steps a lone robot at `p` slides in direction `d`, looking at most `fuel` steps ahead.
pub open spec fn wall_slide(walls: WallBoard, p: Point, d: Direction, fuel: nat) -> nat
    decreases fuel,
{
    if fuel == 0 || wall_beside(walls, p, d) {
        0
    } else {
        1 + wall_slide(walls, shift(p, d, 1), d, (fuel - 1) as nat)
    }
}

/// Number of steps a lone robot at `p` slides in direction `d` before a wall stops it.
pub open spec fn wall_steps(walls: WallBoard, p: Point, d: Direction) -> nat {
    wall_slide(walls, p, d, BOARD_SIZE as nat)
}

/// Every cell on the way of a wall slide is on the board, and no wall is crossed.
pub proof fn lemma_wall_slide_path(walls: WallBoard, p: Point, d: Direction, fuel: nat)
    requires
        border_closed(walls),
        in_board(p),
    ensures
        forall|k: int|
            0 <= k <= wall_slide(walls, p, d, fuel) ==> #[trigger] in_board(shift(p, d, k)),
        forall|k: int|
            0 <= k < wall_slide(walls, p, d, fuel) ==> !#[trigger] wall_beside(
                walls,
                shift(p, d, k),
                d,
            ),
        wall_slide(walls, p, d, fuel) < BOARD_SIZE,
    decreases fuel,
{
    if fuel == 0 || wall_beside(walls, p, d) {
        assert(shift(p, d, 0) == p);
    } else {
        let q = shift(p, d, 1);
        lemma_wall_slide_path(walls, q, d, (fuel - 1) as nat);
        let n = wall_slide(walls, p, d, fuel);
        assert forall|k: int| 0 <= k <= n implies #[trigger] in_board(shift(p, d, k)) by {
            if k > 0 {
                assert(shift(p, d, k) == shift(q, d, k - 1));
            } else {
                assert(shift(p, d, 0) == p);
            }
        }
        assert forall|k: int| 0 <= k < n implies !#[trigger] wall_beside(walls, shift(p, d, k), d) by {
            if k > 0 {
                assert(shift(p, d, k) == shift(q, d, k - 1));
            } else {
                assert(shift(p, d, 0) == p);
            }
        }
        assert(in_board(shift(p, d, n as int)));
    }
}

/// Whether a wall stands between field cell `position` and its neighbour in `direction`.
pub(crate) fn _has_wall(walls: &WallBoard, position: Point, direction: Direction) -> (b: bool)
    requires
        in_board(position),
    ensures
        b == wall_beside(*walls, position, direction),
{
    let wall_position = position.mul(2).add(Point::new(1, 1)).add(Point::from(direction));
    walls[wall_position.r as usize][wall_position.c as usize]
}

/// Steps of a lone robot at `position` in `direction` until a wall stops it.
fn slide_to_wall(walls: &WallBoard, position: Point, direction: Direction) -> (steps: u8)
    requires
        border_closed(*walls),
        in_board(position),
    ensures
        steps == wall_steps(*walls, position, direction),
{
    let ghost origin = position;
    let mut steps: u8 = 0;
    let mut position = position;
    proof {
        lemma_wall_slide_path(*walls, origin, direction, BOARD_SIZE as nat);
        assert(shift(origin, direction, 0) == origin);
    }
    while !_has_wall(walls, position, direction)
        invariant
            border_closed(*walls),
            in_board(position),
            in_board(origin),
            steps < BOARD_SIZE,
            position == shift(origin, direction, steps as int),
            steps + wall_slide(*walls, position, direction, (BOARD_SIZE - steps) as nat)
                == wall_steps(*walls, origin, direction),
            wall_steps(*walls, origin, direction) < BOARD_SIZE,
        decreases BOARD_SIZE - steps,
    {
        let next_position = position.add(Point::from(direction));
        assert(next_position == shift(position, direction, 1));
        assert(shift(position, direction, 1) == shift(origin, direction, steps + 1));
        position = next_position;
        steps += 1;
    }
    steps
}

#[derive(Debug)]
pub struct GameSpec {
    pub walls: WallBoard,
    pub goal: Point,
    pub target_type: TargetType,
    /// For each cell and direction, the length of the lone-robot slide (see `wf`).
    pub wall_cache: Vec<Vec<[u8; 4]>>,
}

impl GameSpec {
    /// The wall cache holds, for each cell and direction, the length of the lone-robot slide.
    pub open spec fn cache_consistent(&self) -> bool {
        &&& self.wall_cache@.len() == BOARD_SIZE
        &&& forall|r: int|
            0 <= r < BOARD_SIZE ==> (#[trigger] self.wall_cache@[r])@.len() == BOARD_SIZE
        &&& forall|r: int, c: int, d: int|
            0 <= r < BOARD_SIZE && 0 <= c < BOARD_SIZE && 0 <= d < 4 ==> (
            #[trigger] self.wall_cache@[r]@[c][d]) as nat == wall_steps(
                self.walls,
                Point { r: r as i8, c: c as i8 },
                Direction::of_ordinal(d),
            )
    }

    pub open spec fn wf(&self) -> bool {
        &&& border_closed(self.walls)
        &&& self.target_type.is_valid()
        &&& self.cache_consistent()
    }

    pub fn new(walls: WallBoard, goal: Point, target_type: TargetType) -> (spec: GameSpec)
        requires
            border_closed(walls),
            target_type.is_valid(),
        ensures
            spec.wf(),
            spec.walls == walls,
            spec.goal == goal,
            spec.target_type == target_type,
    {
        let mut wall_cache: Vec<Vec<[u8; 4]>> = Vec::new();
        let mut r: usize = 0;
        while r < BOARD_SIZE
            invariant
                border_closed(walls),
                r <= BOARD_SIZE,
                wall_cache@.len() == r,
                forall|i: int| 0 <= i < r ==> (#[trigger] wall_cache@[i])@.len() == BOARD_SIZE,
                forall|i: int, c: int, d: int|
                    0 <= i < r && 0 <= c < BOARD_SIZE && 0 <= d < 4 ==> (
                    #[trigger] wall_cache@[i]@[c][d]) as nat == wall_steps(
                        walls,
                        Point { r: i as i8, c: c as i8 },
                        Direction::of_ordinal(d),
                    ),
            decreases BOARD_SIZE - r,
        {
            let mut row: Vec<[u8; 4]> = Vec::new();
            let mut c: usize = 0;
            while c < BOARD_SIZE
                invariant
                    border_closed(walls),
                    r < BOARD_SIZE,
                    c <= BOARD_SIZE,
                    row@.len() == c,
                    forall|j: int, d: int|
                        0 <= j < c && 0 <= d < 4 ==> (#[trigger] row@[j][d]) as nat == wall_steps(
                            walls,
                            Point { r: r as i8, c: j as i8 },
                            Direction::of_ordinal(d),
                        ),
                decreases BOARD_SIZE - c,
            {
                let position = Point::new(r as i8, c as i8);
                let mut cell: [u8; 4] = [0u8, 0u8, 0u8, 0u8];
                let mut di: usize = 0;
                while di < 4
                    invariant
                        border_closed(walls),
                        in_board(position),
                        position == (Point { r: r as i8, c: c as i8 }),
                        di <= 4,
                        forall|d: int|
                            0 <= d < di ==> (#[trigger] cell[d]) as nat == wall_steps(
                                walls,
                                position,
                                Direction::of_ordinal(d),
                            ),
                    decreases 4 - di,
                {
                    let direction = Direction::from_index(di);
                    let steps = slide_to_wall(&walls, position, direction);
                    cell[di] = steps;
                    di += 1;
                }
                row.push(cell);
                c += 1;
            }
            wall_cache.push(row);
            r += 1;
        }
        GameSpec { walls, goal, target_type, wall_cache }
    }

    /// Steps a lone robot at `position` slides in `direction` before a wall stops it.
    pub fn wall_steps(&self, position: Point, direction: Direction) -> (steps: u8)
        requires
            self.wf(),
            in_board(position),
        ensures
            steps == wall_steps(self.walls, position, direction),
    {
        self.wall_cache[position.r as usize][position.c as usize][direction.index()]
    }
}

/// Free cells between a robot at `from` and a robot at `to`, when `to` stands ahead of `from` in
/// direction `d`; the board size when it does not.
pub open spec fn gap(from: Point, to: Point, d: Direction) -> int {
    match d {
        Direction::Up => if from.c == to.c && to.r < from.r {
            from.r - to.r - 1
        } else {
            BOARD_SIZE as int
        },
        Direction::Down => if from.c == to.c && from.r < to.r {
            to.r - from.r - 1
        } else {
            BOARD_SIZE as int
        },
        Direction::Left => if from.r == to.r && to.c < from.c {
            from.c - to.c - 1
        } else {
            BOARD_SIZE as int
        },
        Direction::Right => if from.r == to.r && from.c < to.c {
            to.c - from.c - 1
        } else {
            BOARD_SIZE as int
        },
    }
}

pub open spec fn min_int(a: int, b: int) -> int {
    if a < b {
        a
    } else {
        b
    }
}

/// The smallest gap from robot `i` to the robots `0 .. n` in direction `d`.
pub open spec fn robot_gap_upto(s: Seq<Point>, i: int, d: Direction, n: nat) -> int
    decreases n,
{
    if n == 0 {
        BOARD_SIZE as int
    } else {
        min_int(robot_gap_upto(s, i, d, (n - 1) as nat), gap(s[i], s[n - 1], d))
    }
}

/// How far robot `i` could move in direction `d` if only the other robots stood in its way.
pub open spec fn robot_gap(s: Seq<Point>, i: int, d: Direction) -> int {
    robot_gap_upto(s, i, d, ROBOT_COUNT as nat)
}

/// How far robot `i` slides in direction `d`: until a wall or another robot stops it.
pub open spec fn slide_steps(walls: WallBoard, s: Seq<Point>, i: int, d: Direction) -> int {
    min_int(wall_steps(walls, s[i], d) as int, robot_gap(s, i, d))
}

/// The robot moved by move number `m`.
pub open spec fn move_robot(m: int) -> int {
    m / 4
}

/// The direction of move number `m`.
pub open spec fn move_direction(m: int) -> Direction {
    Direction::of_ordinal(m % 4)
}

/// The positions after move number `m` (robot `m / 4` slides in direction `m % 4`).
pub open spec fn step(walls: WallBoard, s: Seq<Point>, m: int) -> Seq<Point> {
    let i = move_robot(m);
    let d = move_direction(m);
    s.update(i, shift(s[i], d, slide_steps(walls, s, i, d)))
}

/// Four robots, each on the field.
pub open spec fn state_in_board(s: Seq<Point>) -> bool {
    &&& s.len() == ROBOT_COUNT
    &&& forall|i: int| 0 <= i < ROBOT_COUNT ==> #[trigger] in_board(s[i])
}

/// The byte of a field cell in the fingerprint: `(r << 4) | c`.
pub open spec fn cell_code(p: Point) -> int {
    p.r * 16 + p.c
}

pub open spec fn fingerprint_upto(s: Seq<Point>, n: nat) -> int
    decreases n,
{
    if n == 0 {
        0
    } else {
        fingerprint_upto(s, (n - 1) as nat) * 256 + cell_code(s[n - 1])
    }
}

/// The four cell bytes, robot 0 in the most significant one.
pub open spec fn fingerprint(s: Seq<Point>) -> int {
    fingerprint_upto(s, ROBOT_COUNT as nat)
}

pub open spec fn pow256(n: nat) -> int
    decreases n,
{
    if n == 0 {
        1
    } else {
        256 * pow256((n - 1) as nat)
    }
}

proof fn lemma_digits(x: int, base: int, q1: int, r1: int, q2: int, r2: int)
    requires
        base > 0,
        0 <= r1 < base,
        0 <= r2 < base,
        x == q1 * base + r1,
        x == q2 * base + r2,
    ensures
        q1 == q2,
        r1 == r2,
{
    vstd::arithmetic::div_mod::lemma_fundamental_div_mod_converse(x, base, q1, r1);
    vstd::arithmetic::div_mod::lemma_fundamental_div_mod_converse(x, base, q2, r2);
}

/// A fingerprint fits in 32 bits.
pub proof fn lemma_fingerprint_bound(s: Seq<Point>)
    requires
        state_in_board(s),
    ensures
        0 <= fingerprint(s) < 0x1_0000_0000,
{
    assert(in_board(s[0]) && in_board(s[1]) && in_board(s[2]) && in_board(s[3]));
    reveal_with_fuel(fingerprint_upto, 5);
}

/// Two states on the field with the same fingerprint are the same state.
pub proof fn lemma_fingerprint_injective(s: Seq<Point>, t: Seq<Point>)
    requires
        state_in_board(s),
        state_in_board(t),
        fingerprint(s) == fingerprint(t),
    ensures
        s == t,
{
    assert(in_board(s[0]) && in_board(s[1]) && in_board(s[2]) && in_board(s[3]));
    assert(in_board(t[0]) && in_board(t[1]) && in_board(t[2]) && in_board(t[3]));
    reveal_with_fuel(fingerprint_upto, 5);
    let s2 = fingerprint_upto(s, 3);
    let t2 = fingerprint_upto(t, 3);
    lemma_digits(fingerprint(s), 256, s2, cell_code(s[3]), t2, cell_code(t[3]));
    let s1 = fingerprint_upto(s, 2);
    let t1 = fingerprint_upto(t, 2);
    lemma_digits(s2, 256, s1, cell_code(s[2]), t1, cell_code(t[2]));
    let s0 = fingerprint_upto(s, 1);
    let t0 = fingerprint_upto(t, 1);
    lemma_digits(s1, 256, s0, cell_code(s[1]), t0, cell_code(t[1]));
    assert(s0 == cell_code(s[0]) && t0 == cell_code(t[0]));
    assert forall|i: int| 0 <= i < ROBOT_COUNT implies s[i] == t[i] by {
        assert(in_board(s[i]) && in_board(t[i]));
        lemma_digits(cell_code(s[i]), 16, s[i].r as int, s[i].c as int, t[i].r as int, t[i].c as int);
    }
    assert(s =~= t);
}

fn calc_up_steps(from: Point, to: Point) -> (steps: u8)
    requires
        is_small(from),
        is_small(to),
    ensures
        steps == gap(from, to, Direction::Up),
{
    if from.c != to.c || from.r <= to.r {
        BOARD_SIZE as u8
    } else {
        (from.r - to.r - 1) as u8
    }
}

/// The positions of the four robots; robot `i` keeps its identity (its colour).
#[derive(Debug, Clone, Copy, Eq, Hash)]
pub struct GameState {
    pub robots: [Point; ROBOT_COUNT],
}

impl PartialEq for GameState {
    fn eq(&self, other: &GameState) -> (b: bool) {
        let b = self.robots[0] == other.robots[0] && self.robots[1] == other.robots[1]
            && self.robots[2] == other.robots[2] && self.robots[3] == other.robots[3];
        proof {
            if b {
                assert(self@ =~= other@);
            }
        }
        b
    }
}

impl vstd::std_specs::cmp::PartialEqSpecImpl for GameState {
    open spec fn obeys_eq_spec() -> bool {
        true
    }

    open spec fn eq_spec(&self, other: &GameState) -> bool {
        self@ == other@
    }
}

impl View for GameState {
    type V = Seq<Point>;

    open spec fn view(&self) -> Seq<Point> {
        self.robots@
    }
}

impl GameState {
    pub open spec fn wf(&self) -> bool {
        state_in_board(self@)
    }

    fn robot_steps(&self, moving_robot_index: usize, direction: Direction) -> (steps: u8)
        requires
            self.wf(),
            moving_robot_index < ROBOT_COUNT,
        ensures
            steps == robot_gap(self@, moving_robot_index as int, direction),
    {
        let mut steps: u8 = BOARD_SIZE as u8;
        let mut robot_index: usize = 0;
        let from = self.robots[moving_robot_index];
        assert(in_board(self@[moving_robot_index as int]));
        while robot_index < ROBOT_COUNT
            invariant
                self.wf(),
                moving_robot_index < ROBOT_COUNT,
                from == self@[moving_robot_index as int],
                in_board(from),
                robot_index <= ROBOT_COUNT,
                steps == robot_gap_upto(
                    self@,
                    moving_robot_index as int,
                    direction,
                    robot_index as nat,
                ),
            decreases ROBOT_COUNT - robot_index,
        {
            let to = self.robots[robot_index];
            assert(in_board(self@[robot_index as int]));
            let candidate = match direction {
                Direction::Up => calc_up_steps(from, to),
                Direction::Right => calc_up_steps(from.rot(), to.rot()),
                Direction::Down => calc_up_steps(from.rot().rot(), to.rot().rot()),
                Direction::Left => calc_up_steps(from.rrot(), to.rrot()),
            };
            assert(candidate == gap(from, to, direction));
            if candidate < steps {
                steps = candidate;
            }
            robot_index += 1;
        }
        steps
    }

    pub fn to_u32(&self) -> (x: u32)
        requires
            self.wf(),
        ensures
            x == fingerprint(self@),
    {
        let mut x: u32 = 0;
        let mut i: usize = 0;
        reveal_with_fuel(pow256, 4);
        assert(pow256(1) == 256);
        assert(pow256(2) == 65536);
        assert(pow256(3) == 16777216);
        while i < ROBOT_COUNT
            invariant
                self.wf(),
                i <= ROBOT_COUNT,
                x == fingerprint_upto(self@, i as nat),
                0 <= x < pow256(i as nat),
                pow256(3) == 16777216,
            decreases ROBOT_COUNT - i,
        {
            let position = self.robots[i];
            assert(in_board(self@[i as int]));
            let rr = position.r as u32;
            let cc = position.c as u32;
            assert(pow256(i as nat) <= 16777216) by {
                reveal_with_fuel(pow256, 4);
            }
            assert((x << 8u32 | rr << 4u32 | cc) == x * 256 + rr * 16 + cc) by (bit_vector)
                requires
                    x < 16777216u32,
                    rr < 16u32,
                    cc < 16u32,
            ;
            x = x << 8 | (position.r as u32) << 4 | position.c as u32;
            i += 1;
        }
        x
    }

    /// Whether a robot stands next to `position` in `direction`; false at the edge of the
    /// field when no wall is there to say so.
    pub fn has_robot_at(&self, position: Point, direction: Direction) -> (b: bool)
        requires
            in_board(position),
        ensures
            in_board(shift(position, direction, 1)) ==> b == self@.contains(
                shift(position, direction, 1),
            ),
    {
        let next = position.add(Point::from(direction));
        assert(next == shift(position, direction, 1));
        self.has_robot(next)
    }

    fn has_robot(&self, position: Point) -> (b: bool)
        ensures
            b == self@.contains(position),
    {
        let mut i: usize = 0;
        while i < ROBOT_COUNT
            invariant
                i <= ROBOT_COUNT,
                self@.len() == ROBOT_COUNT,
                forall|j: int| 0 <= j < i ==> self@[j] != position,
            decreases ROBOT_COUNT - i,
        {
            if self.robots[i] == position {
                return true;
            }
            i += 1;
        }
        false
    }
}

impl GameSpec {
    /// The goal is reached: by the target robot, or by any robot when the goal takes any.
    pub open spec fn winning(&self, s: Seq<Point>) -> bool {
        match self.target_type {
            TargetType::Any => s.contains(self.goal),
            TargetType::Particular(k) => s[k as int] == self.goal,
        }
    }

    pub fn is_winning_state(&self, state: &GameState) -> (b: bool)
        requires
            self.wf(),
        ensures
            b == self.winning(state@),
    {
        match self.target_type {
            TargetType::Any => state.has_robot(self.goal),
            TargetType::Particular(robot_index) => state.robots[robot_index] == self.goal,
        }
    }

    /// Where robot `robot_index` stops when it slides in `direction`.
    fn slide(&self, current_state: &GameState, robot_index: usize, direction: Direction) -> (p:
        Point)
        requires
            self.wf(),
            current_state.wf(),
            robot_index < ROBOT_COUNT,
        ensures
            p == shift(
                current_state@[robot_index as int],
                direction,
                slide_steps(self.walls, current_state@, robot_index as int, direction),
            ),
            in_board(p),
    {
        let position = current_state.robots[robot_index];
        assert(in_board(current_state@[robot_index as int]));
        let wall_steps = self.wall_steps(position, direction);
        let robot_steps = if wall_steps > 0 {
            current_state.robot_steps(robot_index, direction)
        } else {
            0
        };
        let steps = if wall_steps < robot_steps {
            wall_steps
        } else {
            robot_steps
        };
        proof {
            lemma_wall_slide_path(self.walls, position, direction, BOARD_SIZE as nat);
            lemma_robot_gap_nonneg(current_state@, robot_index as int, direction, ROBOT_COUNT as nat);
        }
        assert(steps == slide_steps(self.walls, current_state@, robot_index as int, direction));
        assert(in_board(shift(position, direction, steps as int)));
        let unit = Point::from(direction);
        assert(-16 <= dr(direction) * (steps as int) <= 16 && -16 <= dc(direction) * (steps as int)
            <= 16) by (nonlinear_arith)
            requires
                -1 <= dr(direction) <= 1,
                -1 <= dc(direction) <= 1,
                0 <= steps <= 16,
        ;
        let p = position.add(unit.mul(steps as i8));
        proof {
            lemma_scaled_unit(direction, steps as int);
        }
        assert(p == shift(position, direction, steps as int));
        p
    }

    pub fn next_states(&self, current_state: &GameState) -> (r: [GameState; MOVE_COUNT])
        requires
            self.wf(),
            current_state.wf(),
        ensures
            forall|m: int| 0 <= m < ROBOT_COUNT * 4 ==> #[trigger] r[m]@ == step(self.walls, current_state@, m),
            forall|m: int| 0 <= m < ROBOT_COUNT * 4 ==> #[trigger] r[m].wf(),
    {
        let mut results: [GameState; MOVE_COUNT] = [*current_state; MOVE_COUNT];
        let mut ptr: usize = 0;
        let mut robot_index: usize = 0;
        while robot_index < ROBOT_COUNT
            invariant
                self.wf(),
                current_state.wf(),
                robot_index <= ROBOT_COUNT,
                ptr == robot_index * 4,
                forall|m: int| 0 <= m < ptr ==> #[trigger] results[m]@ == step(self.walls, current_state@, m),
                forall|m: int| 0 <= m < ptr ==> #[trigger] results[m].wf(),
            decreases ROBOT_COUNT - robot_index,
        {
            let mut di: usize = 0;
            while di < 4
                invariant
                    self.wf(),
                    current_state.wf(),
                    robot_index < ROBOT_COUNT,
                    di <= 4,
                    ptr == robot_index * 4 + di,
                    forall|m: int| 0 <= m < ptr ==> #[trigger] results[m]@ == step(self.walls, current_state@, m),
                    forall|m: int| 0 <= m < ptr ==> #[trigger] results[m].wf(),
                decreases 4 - di,
            {
                let direction = Direction::from_index(di);
                let mut next_state = *current_state;
                next_state.robots[robot_index] = self.slide(current_state, robot_index, direction);
                proof {
                    assert(ptr / 4 == robot_index && ptr % 4 == di);
                    assert(next_state@ =~= step(self.walls, current_state@, ptr as int));
                    assert forall|j: int| 0 <= j < ROBOT_COUNT implies #[trigger] in_board(
                        next_state@[j],
                    ) by {
                        if j != robot_index {
                            assert(in_board(current_state@[j]));
                        }
                    }
                }
                results[ptr] = next_state;
                ptr += 1;
                di += 1;
            }
            robot_index += 1;
        }
        results
    }
}

proof fn lemma_scaled_unit(d: Direction, k: int)
    ensures
        dr(d) * k == match d {
            Direction::Up => -k,
            Direction::Down => k,
            _ => 0,
        },
        dc(d) * k == match d {
            Direction::Left => -k,
            Direction::Right => k,
            _ => 0,
        },
{
    let a = dr(d);
    let b = dc(d);
    assert(a == -1 ==> a * k == -k) by (nonlinear_arith);
    assert(a == 1 ==> a * k == k) by (nonlinear_arith);
    assert(a == 0 ==> a * k == 0) by (nonlinear_arith);
    assert(b == -1 ==> b * k == -k) by (nonlinear_arith);
    assert(b == 1 ==> b * k == k) by (nonlinear_arith);
    assert(b == 0 ==> b * k == 0) by (nonlinear_arith);
}

pub proof fn lemma_robot_gap_nonneg(s: Seq<Point>, i: int, d: Direction, n: nat)
    ensures
        0 <= robot_gap_upto(s, i, d, n) <= BOARD_SIZE,
    decreases n,
{
    if n > 0 {
        lemma_robot_gap_nonneg(s, i, d, (n - 1) as nat);
    }
}

/// Index `x` among the indices other than `to_skip`.
pub open spec fn skip_index(x: int, to_skip: int) -> int {
    if x < to_skip {
        x
    } else {
        x + 1
    }
}

fn skipone(x: usize, to_skip: usize) -> (r: usize)
    requires
        x < usize::MAX,
    ensures
        r == skip_index(x as int, to_skip as int),
{
    if x < to_skip {
        x
    } else {
        x + 1
    }
}

/// The robots at `a` and `b` trade places.
pub open spec fn swap_robots(s: Seq<Point>, a: int, b: int) -> Seq<Point> {
    s.update(a, s[b]).update(b, s[a])
}

/// The positions after the first `t` swaps of `sw`, where swap `p` exchanges the robots number
/// `p` and `p + 1` when the robot `skip` is left out of the count.
pub open spec fn after_swaps(s: Seq<Point>, sw: Seq<usize>, skip: int, t: nat) -> Seq<Point>
    decreases t,
{
    if t == 0 {
        s
    } else {
        swap_robots(
            after_swaps(s, sw, skip, (t - 1) as nat),
            skip_index(sw[t - 1] as int, skip),
            skip_index(sw[t - 1] + 1, skip),
        )
    }
}

/// Number of states listed for an equivalence class of the four robots.
pub const ANY_CLASS_SIZE: usize = 24;

/// Number of states listed for an equivalence class of three robots.
pub const PARTICULAR_CLASS_SIZE: usize = 6;

impl GameSpec {
    /// The state, then the state after each swap of `swaps` in turn: the states equal to
    /// `state` up to a reordering of the robots other than `skip` (`skip == ROBOT_COUNT` leaves
    /// none out).
    fn swapped_states(state: &GameState, swaps: &Vec<usize>, skip: usize) -> (r: Vec<GameState>)
        requires
            skip <= ROBOT_COUNT,
            state.wf(),
            forall|t: int|
                0 <= t < swaps@.len() ==> skip_index(#[trigger] swaps@[t] + 1, skip as int)
                    < ROBOT_COUNT,
        ensures
            r@.len() == swaps@.len() + 1,
            forall|t: int|
                0 <= t < r@.len() ==> #[trigger] r@[t]@ == after_swaps(
                    state@,
                    swaps@,
                    skip as int,
                    t as nat,
                ),
            forall|t: int| 0 <= t < r@.len() ==> #[trigger] r@[t].wf(),
    {
        let mut result: Vec<GameState> = Vec::new();
        let mut current = *state;
        result.push(current);
        let mut i: usize = 0;
        while i < swaps.len()
            invariant
                skip <= ROBOT_COUNT,
                state.wf(),
                forall|t: int|
                    0 <= t < swaps@.len() ==> skip_index(#[trigger] swaps@[t] + 1, skip as int)
                        < ROBOT_COUNT,
                i <= swaps@.len(),
                result@.len() == i + 1,
                current@ == after_swaps(state@, swaps@, skip as int, i as nat),
                current.wf(),
                forall|t: int|
                    0 <= t < result@.len() ==> #[trigger] result@[t]@ == after_swaps(
                        state@,
                        swaps@,
                        skip as int,
                        t as nat,
                    ),
                forall|t: int| 0 <= t < result@.len() ==> #[trigger] result@[t].wf(),
            decreases swaps@.len() - i,
        {
            let pos = swaps[i];
            assert(skip_index(swaps@[i as int] + 1, skip as int) < ROBOT_COUNT);
            let a = skipone(pos, skip);
            let b = skipone(pos + 1, skip);
            let ghost before = current@;
            let tmp = current.robots[a];
            current.robots[a] = current.robots[b];
            current.robots[b] = tmp;
            assert(current@ =~= swap_robots(before, a as int, b as int));
            proof {
                assert forall|j: int| 0 <= j < ROBOT_COUNT implies #[trigger] in_board(current@[j]) by {
                    assert(in_board(before[j]));
                    assert(in_board(before[a as int]));
                    assert(in_board(before[b as int]));
                }
            }
            result.push(current);
            i += 1;
        }
        result
    }

    pub fn equivalent_states_any(&self, state: &GameState) -> (r: [GameState; ANY_CLASS_SIZE])
        requires
            state.wf(),
        ensures
            forall|t: int|
                0 <= t < ANY_CLASS_SIZE ==> #[trigger] r[t]@ == after_swaps(
                    state@,
                    swap_positions(ROBOT_COUNT as nat),
                    ROBOT_COUNT as int,
                    t as nat,
                ),
            forall|t: int| 0 <= t < ANY_CLASS_SIZE ==> #[trigger] r[t].wf(),
    {
        let swaps = permutation_swaps(ROBOT_COUNT);
        assert(fact(4) == 24) by {
            reveal_with_fuel(fact, 5);
        }
        let states = GameSpec::swapped_states(state, &swaps, ROBOT_COUNT);
        let mut result: [GameState; ANY_CLASS_SIZE] = [*state; ANY_CLASS_SIZE];
        let mut i: usize = 0;
        while i < ANY_CLASS_SIZE
            invariant
                states@.len() == ANY_CLASS_SIZE,
                i <= ANY_CLASS_SIZE,
                forall|t: int| 0 <= t < ANY_CLASS_SIZE ==> #[trigger] states@[t].wf(),
                forall|t: int| 0 <= t < i ==> #[trigger] result[t] == states@[t],
            decreases ANY_CLASS_SIZE - i,
        {
            result[i] = states[i];
            i += 1;
        }
        result
    }

    pub fn equivalent_states_particular(&self, state: &GameState, robot_index: usize) -> (r: [GameState; PARTICULAR_CLASS_SIZE])
        requires
            state.wf(),
            robot_index < ROBOT_COUNT,
        ensures
            forall|t: int|
                0 <= t < PARTICULAR_CLASS_SIZE ==> #[trigger] r[t]@ == after_swaps(
                    state@,
                    swap_positions((ROBOT_COUNT - 1) as nat),
                    robot_index as int,
                    t as nat,
                ),
            forall|t: int| 0 <= t < PARTICULAR_CLASS_SIZE ==> #[trigger] r[t].wf(),
    {
        let swaps = permutation_swaps(ROBOT_COUNT - 1);
        assert(fact(3) == 6) by {
            reveal_with_fuel(fact, 4);
        }
        let states = GameSpec::swapped_states(state, &swaps, robot_index);
        let mut result: [GameState; PARTICULAR_CLASS_SIZE] = [*state; PARTICULAR_CLASS_SIZE];
        let mut i: usize = 0;
        while i < PARTICULAR_CLASS_SIZE
            invariant
                states@.len() == PARTICULAR_CLASS_SIZE,
                i <= PARTICULAR_CLASS_SIZE,
                forall|t: int| 0 <= t < PARTICULAR_CLASS_SIZE ==> #[trigger] states@[t].wf(),
                forall|t: int| 0 <= t < i ==> #[trigger] result[t] == states@[t],
            decreases PARTICULAR_CLASS_SIZE - i,
        {
            result[i] = states[i];
            i += 1;
        }
        result
    }

    /// The states equivalent to `state` for this goal: the robots that the goal does not single
    /// out trade places.
    pub fn equivalent_states(&self, state: &GameState) -> (r: Vec<GameState>)
        requires
            self.wf(),
            state.wf(),
        ensures
            r@.len() == match self.target_type {
                TargetType::Any => ANY_CLASS_SIZE,
                TargetType::Particular(_) => PARTICULAR_CLASS_SIZE,
            },
            forall|t: int|
                0 <= t < r@.len() ==> #[trigger] r@[t]@ == match self.target_type {
                    TargetType::Any => after_swaps(
                        state@,
                        swap_positions(ROBOT_COUNT as nat),
                        ROBOT_COUNT as int,
                        t as nat,
                    ),
                    TargetType::Particular(k) => after_swaps(
                        state@,
                        swap_positions((ROBOT_COUNT - 1) as nat),
                        k as int,
                        t as nat,
                    ),
                },
            forall|t: int| 0 <= t < r@.len() ==> #[trigger] r@[t].wf(),
    {
        match self.target_type {
            TargetType::Any => {
                let swaps = permutation_swaps(ROBOT_COUNT);
                assert(fact(4) == 24) by {
                    reveal_with_fuel(fact, 5);
                }
                GameSpec::swapped_states(state, &swaps, ROBOT_COUNT)
            },
            TargetType::Particular(robot_index) => {
                let swaps = permutation_swaps(ROBOT_COUNT - 1);
                assert(fact(3) == 6) by {
                    reveal_with_fuel(fact, 4);
                }
                GameSpec::swapped_states(state, &swaps, robot_index)
            },
        }
    }
}

} // verus!
