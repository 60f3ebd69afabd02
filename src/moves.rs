use vstd::prelude::*;

use crate::model::{
    _has_wall, border_closed, gap, in_board, lemma_robot_gap_nonneg, lemma_wall_slide_path,
    robot_gap, robot_gap_upto, shift, slide_steps, state_in_board, step, wall_beside, wall_slide,
    wall_steps, Direction, GameSpec, GameState, Point, WallBoard, BOARD_SIZE, MOVE_COUNT,
    ROBOT_COUNT,
};

verus! {

/// Cells a robot at `pos` moves in direction `d` when it goes one cell at a time and stops at
/// the first wall or robot in its way (looking at most `fuel` cells ahead).
pub open spec fn run(walls: WallBoard, s: Seq<Point>, d: Direction, pos: Point, fuel: nat) -> nat
    decreases fuel,
{
    if fuel == 0 || wall_beside(walls, pos, d) || s.contains(shift(pos, d, 1)) {
        0
    } else {
        1 + run(walls, s, d, shift(pos, d, 1), (fuel - 1) as nat)
    }
}

/// A lone-robot slide ends at a wall.
proof fn lemma_wall_slide_stops(walls: WallBoard, p: Point, d: Direction, fuel: nat)
    requires
        border_closed(walls),
        in_board(p),
        wall_slide(walls, p, d, fuel) < fuel,
    ensures
        wall_beside(walls, shift(p, d, wall_slide(walls, p, d, fuel) as int), d),
    decreases fuel,
{
    if wall_beside(walls, p, d) {
        assert(shift(p, d, 0) == p);
    } else {
        let q = shift(p, d, 1);
        lemma_wall_slide_path(walls, p, d, fuel);
        assert(in_board(shift(p, d, 1)));
        lemma_wall_slide_stops(walls, q, d, (fuel - 1) as nat);
        let n = wall_slide(walls, q, d, (fuel - 1) as nat);
        assert(shift(q, d, n as int) == shift(p, d, n + 1 as int));
    }
}

/// A robot `k >= 1` cells ahead has a gap of `k - 1`, and a gap below the board size puts the
/// robot just past it.
proof fn lemma_gap_position(p: Point, q: Point, d: Direction)
    requires
        in_board(p),
        in_board(q),
    ensures
        forall|k: int|
            1 <= k <= BOARD_SIZE && q == #[trigger] shift(p, d, k) ==> gap(p, q, d) == k - 1,
        gap(p, q, d) < BOARD_SIZE ==> q == shift(p, d, gap(p, q, d) + 1),
        gap(p, q, d) >= 0,
{
}

/// The robot gap is the least of the gaps to the robots, and one of them unless no robot is
/// ahead.
pub proof fn lemma_robot_gap_min(s: Seq<Point>, i: int, d: Direction, n: nat)
    ensures
        forall|j: int| 0 <= j < n ==> robot_gap_upto(s, i, d, n) <= #[trigger] gap(s[i], s[j], d),
        robot_gap_upto(s, i, d, n) == BOARD_SIZE || exists|j: int|
            0 <= j < n && robot_gap_upto(s, i, d, n) == #[trigger] gap(s[i], s[j], d),
    decreases n,
{
    if n > 0 {
        lemma_robot_gap_min(s, i, d, (n - 1) as nat);
    }
}

proof fn lemma_run_from(walls: WallBoard, s: Seq<Point>, i: int, d: Direction, t: int)
    requires
        border_closed(walls),
        state_in_board(s),
        0 <= i < ROBOT_COUNT,
        0 <= t <= slide_steps(walls, s, i, d),
    ensures
        run(walls, s, d, shift(s[i], d, t), (BOARD_SIZE - t) as nat) == slide_steps(walls, s, i, d)
            - t,
        t < slide_steps(walls, s, i, d) ==> !wall_beside(walls, shift(s[i], d, t), d)
            && !s.contains(shift(s[i], d, t + 1)),
        t == slide_steps(walls, s, i, d) ==> wall_beside(walls, shift(s[i], d, t), d)
            || s.contains(shift(s[i], d, t + 1)),
    decreases slide_steps(walls, s, i, d) - t,
{
    let p = s[i];
    assert(in_board(p));
    let w = wall_steps(walls, p, d);
    let r = robot_gap(s, i, d);
    let n = slide_steps(walls, s, i, d);
    lemma_wall_slide_path(walls, p, d, BOARD_SIZE as nat);
    lemma_robot_gap_min(s, i, d, ROBOT_COUNT as nat);
    lemma_robot_gap_nonneg(s, i, d, ROBOT_COUNT as nat);
    let pos = shift(p, d, t);
    assert(in_board(pos));
    if t == n {
        if n == w {
            lemma_wall_slide_stops(walls, p, d, BOARD_SIZE as nat);
        } else {
            assert(r < w);
            let j = choose|j: int| 0 <= j < ROBOT_COUNT && r == #[trigger] gap(s[i], s[j], d);
            assert(in_board(s[j]));
            lemma_gap_position(p, s[j], d);
            assert(s[j] == shift(pos, d, 1));
            assert(s.contains(shift(pos, d, 1)));
            assert(shift(pos, d, 1) == shift(p, d, t + 1));
        }
    } else {
        assert(!wall_beside(walls, shift(p, d, t), d));
        assert(shift(pos, d, 1) == shift(p, d, t + 1));
        assert(!s.contains(shift(pos, d, 1))) by {
            if s.contains(shift(pos, d, 1)) {
                let j = choose|j: int| 0 <= j < s.len() && s[j] == shift(pos, d, 1);
                assert(in_board(s[j]));
                lemma_gap_position(p, s[j], d);
                assert(gap(s[i], s[j], d) == t);
            }
        }
        lemma_run_from(walls, s, i, d, t + 1);
    }
}

/// A move slides the robot one cell at a time until the first wall or robot: the position
/// that `next_states` gives is the end of that walk.
pub proof fn lemma_slide_is_run(walls: WallBoard, s: Seq<Point>, i: int, d: Direction)
    requires
        border_closed(walls),
        state_in_board(s),
        0 <= i < ROBOT_COUNT,
    ensures
        slide_steps(walls, s, i, d) == run(walls, s, d, s[i], BOARD_SIZE as nat),
{
    lemma_robot_gap_nonneg(s, i, d, ROBOT_COUNT as nat);
    lemma_run_from(walls, s, i, d, 0);
    assert(shift(s[i], d, 0) == s[i]);
}

/// Each move changes at most the robot it moves; that robot goes straight, cell by cell, over
/// cells free of walls and robots, and stops where a wall or a robot's pre-move position
/// blocks the next cell.
pub proof fn lemma_move_legality(spec: GameSpec, s: Seq<Point>, m: int)
    requires
        spec.wf(),
        state_in_board(s),
        0 <= m < MOVE_COUNT,
    ensures
        ({
            let t = step(spec.walls, s, m);
            let i = m / 4;
            let d = Direction::of_ordinal(m % 4);
            let k = slide_steps(spec.walls, s, i, d);
            &&& t.len() == ROBOT_COUNT
            &&& forall|j: int| 0 <= j < ROBOT_COUNT && j != i ==> t[j] == s[j]
            &&& t[i] == shift(s[i], d, k)
            &&& forall|u: int|
                0 <= u < k ==> !wall_beside(spec.walls, #[trigger] shift(s[i], d, u), d)
                    && !s.contains(shift(s[i], d, u + 1))
            &&& wall_beside(spec.walls, shift(s[i], d, k), d) || s.contains(shift(s[i], d, k + 1))
        }),
{
    let i = m / 4;
    let d = Direction::of_ordinal(m % 4);
    assert(in_board(s[i]));
    lemma_robot_gap_nonneg(s, i, d, ROBOT_COUNT as nat);
    let k = slide_steps(spec.walls, s, i, d);
    assert forall|u: int| 0 <= u < k implies !wall_beside(spec.walls, #[trigger] shift(s[i], d, u), d)
        && !s.contains(shift(s[i], d, u + 1)) by {
        lemma_run_from(spec.walls, s, i, d, u);
    }
    lemma_run_from(spec.walls, s, i, d, k);
}

/// Robot `i` could have come to rest here by moving in direction `d`: a wall or a robot is
/// next to it on that side.
pub open spec fn stopped(walls: WallBoard, s: Seq<Point>, i: int, d: Direction) -> bool {
    wall_beside(walls, s[i], d) || s.contains(shift(s[i], d, 1))
}

/// The states from which robot `i`, moving against `back`, would stop where it stands: one
/// for each cell behind it up to the first wall or robot.
pub open spec fn predecessors_of(walls: WallBoard, s: Seq<Point>, i: int, back: Direction) -> Seq<
    Seq<Point>,
> {
    if stopped(walls, s, i, back.opposite()) {
        Seq::new(
            run(walls, s, back, s[i], BOARD_SIZE as nat),
            |t: int| s.update(i, shift(s[i], back, t + 1)),
        )
    } else {
        Seq::empty()
    }
}

/// The predecessors for the first `k` pairs of robot and direction.
pub open spec fn predecessors_upto(walls: WallBoard, s: Seq<Point>, k: nat) -> Seq<Seq<Point>>
    decreases k,
{
    if k == 0 {
        Seq::empty()
    } else {
        predecessors_upto(walls, s, (k - 1) as nat) + predecessors_of(
            walls,
            s,
            (k - 1) / 4,
            Direction::of_ordinal((k - 1) % 4),
        )
    }
}

pub open spec fn predecessors(walls: WallBoard, s: Seq<Point>) -> Seq<Seq<Point>> {
    predecessors_upto(walls, s, MOVE_COUNT as nat)
}

pub open spec fn state_views(v: Seq<GameState>) -> Seq<Seq<Point>> {
    v.map_values(|g: GameState| g@)
}

proof fn lemma_wall_symmetric(walls: WallBoard, x: Point, d: Direction)
    requires
        in_board(x),
        in_board(shift(x, d, 1)),
    ensures
        wall_beside(walls, shift(x, d, 1), d.opposite()) == wall_beside(walls, x, d),
{
}

/// Moved back `t` cells from where it was stopped, robot `i` slides forward exactly `t` cells
/// from each point `u` cells back.
proof fn lemma_back_run(walls: WallBoard, s: Seq<Point>, i: int, back: Direction, t: int, u: int)
    requires
        border_closed(walls),
        state_in_board(s),
        s.no_duplicates(),
        0 <= i < ROBOT_COUNT,
        stopped(walls, s, i, back.opposite()),
        1 <= t <= slide_steps(walls, s, i, back),
        0 <= u <= t,
    ensures
        run(
            walls,
            s.update(i, shift(s[i], back, t)),
            back.opposite(),
            shift(s[i], back, u),
            (BOARD_SIZE - t + u) as nat,
        ) == u,
    decreases u,
{
    let d = back.opposite();
    let p = s.update(i, shift(s[i], back, t));
    let x = shift(s[i], back, u);
    assert(in_board(s[i]));
    lemma_wall_slide_path(walls, s[i], back, BOARD_SIZE as nat);
    lemma_robot_gap_nonneg(s, i, back, ROBOT_COUNT as nat);
    assert(in_board(x));
    assert(in_board(shift(s[i], back, t)));
    if u == 0 {
        assert(x == s[i]);
        if !wall_beside(walls, s[i], d) {
            let j = choose|j: int| 0 <= j < s.len() && s[j] == shift(s[i], d, 1);
            assert(j != i);
            assert(p[j] == s[j]);
            assert(p.contains(shift(x, d, 1)));
        }
    } else {
        let y = shift(s[i], back, u - 1);
        assert(in_board(y));
        assert(shift(y, back, 1) == x);
        assert(shift(x, d, 1) == y);
        lemma_run_from(walls, s, i, back, u - 1);
        lemma_wall_symmetric(walls, y, back);
        assert(!wall_beside(walls, x, d));
        assert(!p.contains(y)) by {
            if p.contains(y) {
                let j = choose|j: int| 0 <= j < p.len() && p[j] == y;
                if j == i {
                    assert(shift(s[i], back, t) != y);
                } else {
                    assert(p[j] == s[j]);
                    if u - 1 == 0 {
                        assert(y == s[i]);
                    } else {
                        lemma_run_from(walls, s, i, back, u - 2);
                        assert(s.contains(y));
                    }
                }
            }
        }
        lemma_back_run(walls, s, i, back, t, u - 1);
    }
}

/// Each predecessor of `s` is a state of the field, with robots on distinct cells, from which
/// one move leads to `s`.
proof fn lemma_predecessor_sound(walls: WallBoard, s: Seq<Point>, i: int, back: Direction, t: int)
    requires
        border_closed(walls),
        state_in_board(s),
        s.no_duplicates(),
        0 <= i < ROBOT_COUNT,
        stopped(walls, s, i, back.opposite()),
        1 <= t <= run(walls, s, back, s[i], BOARD_SIZE as nat),
    ensures
        ({
            let p = s.update(i, shift(s[i], back, t));
            &&& state_in_board(p)
            &&& p.no_duplicates()
            &&& step(walls, p, i * 4 + back.opposite().ordinal()) == s
        }),
{
    let d = back.opposite();
    let p = s.update(i, shift(s[i], back, t));
    lemma_slide_is_run(walls, s, i, back);
    assert(in_board(s[i]));
    lemma_wall_slide_path(walls, s[i], back, BOARD_SIZE as nat);
    lemma_robot_gap_nonneg(s, i, back, ROBOT_COUNT as nat);
    let q = shift(s[i], back, t);
    assert(in_board(q));
    lemma_run_from(walls, s, i, back, t - 1);
    assert(!s.contains(q));
    assert(state_in_board(p)) by {
        assert forall|j: int| 0 <= j < ROBOT_COUNT implies #[trigger] in_board(p[j]) by {
            assert(in_board(s[j]));
        }
    }
    assert(p.no_duplicates()) by {
        assert forall|a: int, b: int| 0 <= a < p.len() && 0 <= b < p.len() && a != b implies p[a]
            != p[b] by {
            if a == i {
                assert(s[b] == p[b]);
            } else if b == i {
                assert(s[a] == p[a]);
            } else {
                assert(s[a] != s[b]);
            }
        }
    }
    lemma_back_run(walls, s, i, back, t, t);
    lemma_slide_is_run(walls, p, i, d);
    assert(p[i] == q);
    let m = i * 4 + d.ordinal();
    assert(m / 4 == i && m % 4 == d.ordinal());
    assert(Direction::of_ordinal(m % 4) == d);
    assert(slide_steps(walls, p, i, d) == t);
    assert(shift(q, d, t) == s[i]);
    assert(step(walls, p, m) =~= s);
}

/// What is true of every state listed by `predecessors_upto`.
pub open spec fn leads_to(walls: WallBoard, x: Seq<Point>, s: Seq<Point>) -> bool {
    &&& state_in_board(x)
    &&& x.no_duplicates()
    &&& exists|m: int| 0 <= m < MOVE_COUNT && #[trigger] step(walls, x, m) == s
}

/// Every predecessor is a state of the field, with distinct cells, one move away from `s`.
pub proof fn lemma_predecessors_sound(walls: WallBoard, s: Seq<Point>, k: nat)
    requires
        border_closed(walls),
        state_in_board(s),
        s.no_duplicates(),
        k <= MOVE_COUNT,
    ensures
        forall|x: int|
            0 <= x < predecessors_upto(walls, s, k).len() ==> leads_to(
                walls,
                #[trigger] predecessors_upto(walls, s, k)[x],
                s,
            ),
    decreases k,
{
    if k > 0 {
        lemma_predecessors_sound(walls, s, (k - 1) as nat);
        let a = predecessors_upto(walls, s, (k - 1) as nat);
        let i = (k - 1) / 4;
        let back = Direction::of_ordinal((k - 1) % 4);
        let g = predecessors_of(walls, s, i, back);
        let all = predecessors_upto(walls, s, k);
        assert(all == a + g);
        assert forall|x: int| 0 <= x < all.len() implies leads_to(walls, #[trigger] all[x], s) by {
            if x < a.len() {
                assert(all[x] == a[x]);
            } else {
                let t = x - a.len() + 1;
                assert(all[x] == g[x - a.len()]);
                assert(stopped(walls, s, i, back.opposite()));
                lemma_predecessor_sound(walls, s, i, back, t);
                let m = i * 4 + back.opposite().ordinal();
                assert(step(walls, all[x], m) == s);
            }
        }
    }
}

/// The walk from cell `u` of the line from `x` to the next cell meets neither a wall nor a
/// robot.
pub open spec fn free_step(walls: WallBoard, s: Seq<Point>, d: Direction, x: Point, u: int) -> bool {
    !wall_beside(walls, shift(x, d, u), d) && !s.contains(shift(x, d, u + 1))
}

/// A walk that finds no wall and no robot in its first `n` cells goes at least `n` cells.
proof fn lemma_run_at_least(walls: WallBoard, s: Seq<Point>, d: Direction, x: Point, n: int, u: int)
    requires
        0 <= u <= n <= BOARD_SIZE,
        in_board(x),
        forall|v: int| 0 <= v <= n ==> #[trigger] in_board(shift(x, d, v)),
        forall|v: int| 0 <= v < n ==> #[trigger] free_step(walls, s, d, x, v),
    ensures
        run(walls, s, d, shift(x, d, u), (BOARD_SIZE - u) as nat) >= n - u,
    decreases n - u,
{
    if u < n {
        lemma_run_at_least(walls, s, d, x, n, u + 1);
        let y = shift(x, d, u);
        assert(in_board(y) && in_board(shift(x, d, u + 1)));
        assert(shift(y, d, 1) == shift(x, d, u + 1));
        assert(free_step(walls, s, d, x, u));
    }
}

/// A walk with free cells for its first `n` steps, blocked after them, goes exactly `n` cells.
proof fn lemma_run_exact(walls: WallBoard, s: Seq<Point>, d: Direction, x: Point, n: int, u: int)
    requires
        0 <= u <= n < BOARD_SIZE,
        in_board(x),
        forall|v: int| 0 <= v <= n ==> #[trigger] in_board(shift(x, d, v)),
        forall|v: int| 0 <= v < n ==> #[trigger] free_step(walls, s, d, x, v),
        wall_beside(walls, shift(x, d, n), d) || s.contains(shift(x, d, n + 1)),
    ensures
        run(walls, s, d, shift(x, d, u), (BOARD_SIZE - u) as nat) == n - u,
    decreases n - u,
{
    if u < n {
        lemma_run_exact(walls, s, d, x, n, u + 1);
        let y = shift(x, d, u);
        assert(in_board(y) && in_board(shift(x, d, u + 1)));
        assert(shift(y, d, 1) == shift(x, d, u + 1));
        assert(free_step(walls, s, d, x, u));
    }
}

/// The predecessors listed for the first `k` pairs include those of pair `j` for each `j < k`.
proof fn lemma_predecessors_include(walls: WallBoard, s: Seq<Point>, j: int, k: nat, x: int)
    requires
        0 <= j < k,
        0 <= x < predecessors_of(walls, s, j / 4, Direction::of_ordinal(j % 4)).len(),
    ensures
        predecessors_upto(walls, s, k).contains(
            predecessors_of(walls, s, j / 4, Direction::of_ordinal(j % 4))[x],
        ),
    decreases k,
{
    let a = predecessors_upto(walls, s, (k - 1) as nat);
    let g = predecessors_of(walls, s, (k - 1) / 4, Direction::of_ordinal((k - 1) % 4));
    let e = predecessors_of(walls, s, j / 4, Direction::of_ordinal(j % 4))[x];
    if j == k - 1 {
        assert((a + g)[a.len() + x] == e);
    } else {
        lemma_predecessors_include(walls, s, j, (k - 1) as nat, x);
        let y = choose|y: int| 0 <= y < a.len() && a[y] == e;
        assert((a + g)[y] == e);
    }
}

/// After a move, the robot that moved is stopped on the side it moved towards.
proof fn lemma_stopped_after_move(walls: WallBoard, s: Seq<Point>, i: int, d: Direction)
    requires
        border_closed(walls),
        state_in_board(s),
        0 <= i < ROBOT_COUNT,
        slide_steps(walls, s, i, d) >= 1,
    ensures
        stopped(
            walls,
            s.update(i, shift(s[i], d, slide_steps(walls, s, i, d))),
            i,
            d,
        ),
{
    let p = s[i];
    assert(in_board(p));
    let n = slide_steps(walls, s, i, d);
    let q = shift(p, d, n);
    let t = s.update(i, q);
    lemma_run_from(walls, s, i, d, n);
    if !wall_beside(walls, q, d) {
        let j = choose|j: int| 0 <= j < s.len() && s[j] == shift(p, d, n + 1);
        assert(in_board(s[j]));
        assert(j != i);
        assert(t[j] == s[j]);
        assert(shift(t[i], d, 1) == shift(p, d, n + 1));
    }
}

/// Walking back from where the moved robot stopped, cell `u` leads on to a free cell.
proof fn lemma_back_walk_free(walls: WallBoard, s: Seq<Point>, i: int, d: Direction, u: int)
    requires
        border_closed(walls),
        state_in_board(s),
        s.no_duplicates(),
        0 <= i < ROBOT_COUNT,
        0 <= u < slide_steps(walls, s, i, d),
    ensures
        free_step(
            walls,
            s.update(i, shift(s[i], d, slide_steps(walls, s, i, d))),
            d.opposite(),
            shift(s[i], d, slide_steps(walls, s, i, d)),
            u,
        ),
        in_board(shift(shift(s[i], d, slide_steps(walls, s, i, d)), d.opposite(), u)),
        in_board(shift(shift(s[i], d, slide_steps(walls, s, i, d)), d.opposite(), u + 1)),
{
    let p = s[i];
    assert(in_board(p));
    let n = slide_steps(walls, s, i, d);
    lemma_robot_gap_nonneg(s, i, d, ROBOT_COUNT as nat);
    lemma_wall_slide_path(walls, p, d, BOARD_SIZE as nat);
    let back = d.opposite();
    let q = shift(p, d, n);
    let t = s.update(i, q);
    let x = shift(q, back, u);
    let y = shift(p, d, n - u - 1);
    assert(x == shift(p, d, n - u));
    assert(shift(q, back, u + 1) == y);
    assert(in_board(y));
    assert(shift(y, d, 1) == x);
    lemma_run_from(walls, s, i, d, n - u - 1);
    lemma_wall_symmetric(walls, y, d);
    if t.contains(y) {
        let j = choose|j: int| 0 <= j < t.len() && t[j] == y;
        if j == i {
            assert(q != y);
        } else {
            assert(t[j] == s[j]);
            if n - u - 1 == 0 {
                assert(y == p);
            } else {
                lemma_run_from(walls, s, i, d, n - u - 2);
                assert(s.contains(y));
            }
        }
    }
}

/// Whenever a move changes a state whose robots stand on distinct cells, that state is among
/// the predecessors of the result.
pub proof fn lemma_move_has_predecessor(spec: GameSpec, s: Seq<Point>, m: int)
    requires
        spec.wf(),
        state_in_board(s),
        s.no_duplicates(),
        0 <= m < MOVE_COUNT,
        step(spec.walls, s, m) != s,
    ensures
        predecessors(spec.walls, step(spec.walls, s, m)).contains(s),
{
    let walls = spec.walls;
    let i = m / 4;
    let d = Direction::of_ordinal(m % 4);
    let back = d.opposite();
    let p = s[i];
    assert(in_board(p));
    let n = slide_steps(walls, s, i, d);
    let q = shift(p, d, n);
    let t = step(walls, s, m);
    assert(t == s.update(i, q));
    if n == 0 {
        assert(q == p);
        assert(t =~= s);
    }
    lemma_robot_gap_nonneg(s, i, d, ROBOT_COUNT as nat);
    lemma_wall_slide_path(walls, p, d, BOARD_SIZE as nat);
    assert(in_board(q));
    lemma_stopped_after_move(walls, s, i, d);
    assert(back.opposite() == d);
    assert forall|u: int| 0 <= u <= n implies #[trigger] in_board(shift(q, back, u)) by {
        if u < n {
            lemma_back_walk_free(walls, s, i, d, u);
        } else {
            assert(shift(q, back, u) == p);
        }
    }
    assert forall|u: int| 0 <= u < n implies #[trigger] free_step(walls, t, back, q, u) by {
        lemma_back_walk_free(walls, s, i, d, u);
    }
    assert(t[i] == q);
    lemma_run_at_least(walls, t, back, q, n, 0);
    assert(shift(q, back, 0) == q);
    let g = predecessors_of(walls, t, i, back);
    assert(g[n - 1] == t.update(i, shift(q, back, n)));
    assert(shift(q, back, n) == p);
    assert(t.update(i, p) =~= s);
    let j = i * 4 + back.ordinal();
    assert(j / 4 == i && j % 4 == back.ordinal());
    assert(Direction::of_ordinal(j % 4) == back);
    lemma_predecessors_include(walls, t, j, MOVE_COUNT as nat, n - 1);
}

/// A move is undone by the opposite move when, before it, the robot was stopped on the side
/// it moves back towards (a wall there, or a robot next to it).
pub proof fn lemma_move_undone(spec: GameSpec, s: Seq<Point>, m: int)
    requires
        spec.wf(),
        state_in_board(s),
        s.no_duplicates(),
        0 <= m < MOVE_COUNT,
        step(spec.walls, s, m) != s,
        stopped(spec.walls, s, m / 4, Direction::of_ordinal(m % 4).opposite()),
    ensures
        step(
            spec.walls,
            step(spec.walls, s, m),
            (m / 4) * 4 + Direction::of_ordinal(m % 4).opposite().ordinal(),
        ) == s,
{
    let walls = spec.walls;
    let i = m / 4;
    let d = Direction::of_ordinal(m % 4);
    let back = d.opposite();
    let p = s[i];
    assert(in_board(p));
    let n = slide_steps(walls, s, i, d);
    let q = shift(p, d, n);
    let t = step(walls, s, m);
    assert(t == s.update(i, q));
    if n == 0 {
        assert(q == p);
        assert(t =~= s);
    }
    lemma_robot_gap_nonneg(s, i, d, ROBOT_COUNT as nat);
    lemma_wall_slide_path(walls, p, d, BOARD_SIZE as nat);
    assert(in_board(q));
    assert(n < BOARD_SIZE);
    assert forall|u: int| 0 <= u <= n implies #[trigger] in_board(shift(q, back, u)) by {
        if u < n {
            lemma_back_walk_free(walls, s, i, d, u);
        } else {
            assert(shift(q, back, u) == p);
        }
    }
    assert forall|u: int| 0 <= u < n implies #[trigger] free_step(walls, t, back, q, u) by {
        lemma_back_walk_free(walls, s, i, d, u);
    }
    assert(shift(q, back, n) == p);
    assert(wall_beside(walls, p, back) || t.contains(shift(p, back, 1))) by {
        if !wall_beside(walls, p, back) {
            let j = choose|j: int| 0 <= j < s.len() && s[j] == shift(p, back, 1);
            assert(j != i);
            assert(t[j] == s[j]);
        }
    }
    lemma_run_exact(walls, t, back, q, n, 0);
    assert(shift(q, back, 0) == q);
    assert(t[i] == q);
    assert(state_in_board(t)) by {
        assert forall|j: int| 0 <= j < ROBOT_COUNT implies #[trigger] in_board(t[j]) by {
            assert(in_board(s[j]));
        }
    }
    lemma_slide_is_run(walls, t, i, back);
    let mb = i * 4 + back.ordinal();
    assert(mb / 4 == i && mb % 4 == back.ordinal());
    assert(Direction::of_ordinal(mb % 4) == back);
    assert(step(walls, t, mb) =~= s);
}

/// A move keeps the robots on the field and on distinct cells.
pub proof fn lemma_step_valid(walls: WallBoard, s: Seq<Point>, m: int)
    requires
        border_closed(walls),
        state_in_board(s),
        s.no_duplicates(),
        0 <= m < MOVE_COUNT,
    ensures
        state_in_board(step(walls, s, m)),
        step(walls, s, m).no_duplicates(),
{
    let i = m / 4;
    let d = Direction::of_ordinal(m % 4);
    let p = s[i];
    assert(in_board(p));
    let n = slide_steps(walls, s, i, d);
    lemma_robot_gap_nonneg(s, i, d, ROBOT_COUNT as nat);
    lemma_wall_slide_path(walls, p, d, BOARD_SIZE as nat);
    let q = shift(p, d, n);
    let t = step(walls, s, m);
    assert(t == s.update(i, q));
    assert(in_board(q));
    assert forall|j: int| 0 <= j < ROBOT_COUNT implies #[trigger] in_board(t[j]) by {
        assert(in_board(s[j]));
    }
    if n > 0 {
        lemma_run_from(walls, s, i, d, n - 1);
        assert(!s.contains(q));
    }
    assert forall|a: int, b: int| 0 <= a < t.len() && 0 <= b < t.len() && a != b implies t[a] != t[b] by {
        if a == i && n > 0 {
            assert(s[b] == t[b]);
        } else if b == i && n > 0 {
            assert(s[a] == t[a]);
        } else if n == 0 {
            assert(q == p);
            assert(t[a] == s[a] && t[b] == s[b]);
        } else {
            assert(t[a] == s[a] && t[b] == s[b]);
        }
    }
}

impl GameSpec {
    /// Every state from which one move lands in `current_state`, robot by robot and direction
    /// by direction.
    pub fn prev_states(&self, current_state: &GameState) -> (r: Vec<GameState>)
        requires
            self.wf(),
            current_state.wf(),
        ensures
            state_views(r@) == predecessors(self.walls, current_state@),
            forall|t: int| 0 <= t < r@.len() ==> #[trigger] r@[t].wf(),
    {
        let ghost s = current_state@;
        let mut results: Vec<GameState> = Vec::new();
        let mut robot_index: usize = 0;
        while robot_index < ROBOT_COUNT
            invariant
                self.wf(),
                current_state.wf(),
                s == current_state@,
                robot_index <= ROBOT_COUNT,
                state_views(results@) == predecessors_upto(self.walls, s, (robot_index * 4) as nat),
                forall|t: int| 0 <= t < results@.len() ==> #[trigger] results@[t].wf(),
            decreases ROBOT_COUNT - robot_index,
        {
            let mut di: usize = 0;
            while di < 4
                invariant
                    self.wf(),
                    current_state.wf(),
                    s == current_state@,
                    robot_index < ROBOT_COUNT,
                    di <= 4,
                    state_views(results@) == predecessors_upto(
                        self.walls,
                        s,
                        (robot_index * 4 + di) as nat,
                    ),
                    forall|t: int| 0 <= t < results@.len() ==> #[trigger] results@[t].wf(),
                decreases 4 - di,
            {
                let back_direction = Direction::from_index(di);
                let ghost k = robot_index * 4 + di;
                assert(k / 4 == robot_index && k % 4 == di);
                self.push_predecessors(current_state, robot_index, back_direction, &mut results);
                di += 1;
            }
            robot_index += 1;
        }
        results
    }

    /// Appends the states from which robot `robot_index`, moving against `back_direction`,
    /// stops where it stands.
    fn push_predecessors(
        &self,
        current_state: &GameState,
        robot_index: usize,
        back_direction: Direction,
        results: &mut Vec<GameState>,
    )
        requires
            self.wf(),
            current_state.wf(),
            robot_index < ROBOT_COUNT,
            forall|t: int| 0 <= t < old(results)@.len() ==> #[trigger] old(results)@[t].wf(),
        ensures
            state_views(final(results)@) == state_views(old(results)@) + predecessors_of(
                self.walls,
                current_state@,
                robot_index as int,
                back_direction,
            ),
            forall|t: int| 0 <= t < final(results)@.len() ==> #[trigger] final(results)@[t].wf(),
    {
        let ghost s = current_state@;
        let ghost start = state_views(results@);
        let direction = back_direction.reverse();
        let mut position = current_state.robots[robot_index];
        let ghost p = position;
        assert(in_board(s[robot_index as int]));
        if !(_has_wall(&self.walls, position, direction) || current_state.has_robot_at(
            position,
            direction,
        )) {
            assert(state_views(results@) =~= start + predecessors_of(
                self.walls,
                s,
                robot_index as int,
                back_direction,
            ));
            return;
        }
        let ghost total = run(self.walls, s, back_direction, p, BOARD_SIZE as nat);
        let ghost group = predecessors_of(self.walls, s, robot_index as int, back_direction);
        let mut steps: usize = 0;
        proof {
            assert(shift(p, back_direction, 0) == p);
        }
        while !_has_wall(&self.walls, position, back_direction)
            && !current_state.has_robot_at(position, back_direction)
            invariant
                self.wf(),
                current_state.wf(),
                s == current_state@,
                robot_index < ROBOT_COUNT,
                p == s[robot_index as int],
                in_board(p),
                in_board(position),
                position == shift(p, back_direction, steps as int),
                steps < BOARD_SIZE,
                steps + run(self.walls, s, back_direction, position, (BOARD_SIZE - steps) as nat)
                    == total,
                group == predecessors_of(self.walls, s, robot_index as int, back_direction),
                group.len() == total,
                state_views(results@) == start + group.subrange(0, steps as int),
                forall|t: int| 0 <= t < results@.len() ==> #[trigger] results@[t].wf(),
            decreases BOARD_SIZE - steps,
        {
            let next_position = position.add(Point::from(back_direction));
            assert(next_position == shift(position, back_direction, 1));
            assert(next_position == shift(p, back_direction, steps + 1));
            assert(in_board(next_position));
            position = next_position;
            steps += 1;
            let mut next_state = *current_state;
            next_state.robots[robot_index] = position;
            proof {
                assert(next_state@ =~= s.update(robot_index as int, shift(p, back_direction, steps as int)));
                assert forall|j: int| 0 <= j < ROBOT_COUNT implies #[trigger] in_board(next_state@[j]) by {
                    assert(in_board(s[j]));
                }
            }
            let ghost before = state_views(results@);
            results.push(next_state);
            assert(state_views(results@) =~= before.push(next_state@));
            assert(state_views(results@) =~= start + group.subrange(0, steps as int));
        }
        assert(group.subrange(0, steps as int) =~= group);
    }
}

} // verus!
