use vstd::prelude::*;

use itertools::Itertools;

use crate::model::{
    state_in_board, _has_wall, fingerprint, in_board, lemma_fingerprint_bound, lemma_fingerprint_injective, wall_beside, Direction,
    GameSpec, GameState, Point, TargetType, WallBoard, BOARD_SIZE, ROBOT_COUNT, WALL_MAP_SIZE,
};
use crate::moves::{lemma_predecessors_sound, leads_to, predecessors, state_views};
use crate::solver::{
    apply_moves, bits_for_all_u32, bits_get, bits_of, bits_set, lemma_apply_concat, seen_ok,
    valid_moves, visited_ok, BitSet, STATE_SPACE,
};
use crate::symmetry::{equivalent, is_permutation, keeps_target, permuted};

verus! {

/// Relies on `Itertools::permutations`: every ordering of `k` cells taken from distinct
/// positions of the input, each once, `n! / (n - k)!` of them for `n` cells (none when `k`
/// exceeds `n`).
#[verifier::external_body]
fn cell_permutations(cells: Vec<Point>, k: usize) -> (r: Vec<Vec<Point>>)
    ensures
        forall|t: int| 0 <= t < r@.len() ==> (#[trigger] r@[t])@.len() == k,
        forall|t: int, a: int|
            0 <= t < r@.len() && 0 <= a < k ==> cells@.contains(#[trigger] r@[t]@[a]),
        cells@.no_duplicates() ==> forall|t: int|
            0 <= t < r@.len() ==> (#[trigger] r@[t])@.no_duplicates(),
        r@.len() > 0 <==> k <= cells@.len(),
        r@.len() == falling(cells@.len(), k as nat),
        cells@.no_duplicates() ==> point_views(r@).no_duplicates(),
        cells@.no_duplicates() ==> forall|q: Seq<Point>|
            q.len() == k && q.no_duplicates() && (forall|a: int|
                0 <= a < k ==> cells@.contains(#[trigger] q[a])) ==> #[trigger] point_views(
                r@,
            ).contains(q),
{
    cells.into_iter().permutations(k).collect()
}

/// `n (n - 1) ... (n - k + 1)`: the number of orderings of `k` of `n` items.
pub open spec fn falling(n: nat, k: nat) -> nat
    decreases k,
{
    if k == 0 {
        1
    } else if n == 0 {
        0
    } else {
        n * falling((n - 1) as nat, (k - 1) as nat)
    }
}

pub open spec fn point_views(v: Seq<Vec<Point>>) -> Seq<Seq<Point>> {
    v.map_values(|x: Vec<Point>| x@)
}

/// The wall-grid cell of field cell `p`.
pub open spec fn grid_cell(p: Point) -> (int, int) {
    (2 * p.r + 1, 2 * p.c + 1)
}

/// Marks one entry of a grid of flags.
fn set_flag(grid: &mut [[bool; WALL_MAP_SIZE]; WALL_MAP_SIZE], i: usize, j: usize)
    requires
        i < WALL_MAP_SIZE,
        j < WALL_MAP_SIZE,
    ensures
        forall|x: int, y: int|
            0 <= x < WALL_MAP_SIZE && 0 <= y < WALL_MAP_SIZE ==> #[trigger] final(grid)[x][y] == (
            (x == i && y == j) || old(grid)[x][y]),
{
    let mut row = grid[i];
    row[j] = true;
    grid[i] = row;
}

proof fn lemma_grid_key(x: int, y: int, a: int, b: int)
    requires
        0 <= y < 33,
        0 <= b < 33,
        x * 33 + y == a * 33 + b,
    ensures
        x == a,
        y == b,
{
    vstd::arithmetic::div_mod::lemma_fundamental_div_mod_converse(x * 33 + y, 33, x, y);
    vstd::arithmetic::div_mod::lemma_fundamental_div_mod_converse(x * 33 + y, 33, a, b);
}

/// The wall-grid cell next to `c` in direction `d`.
pub open spec fn grid_neighbour(c: (int, int), d: Direction) -> (int, int) {
    (c.0 + crate::model::dr(d), c.1 + crate::model::dc(d))
}

/// A cell of the wall grid without a wall.
pub open spec fn open_cell(walls: WallBoard, c: (int, int)) -> bool {
    0 <= c.0 < WALL_MAP_SIZE && 0 <= c.1 < WALL_MAP_SIZE && !walls[c.0][c.1]
}

/// `b` is an open neighbour of `a`.
pub open spec fn open_step(walls: WallBoard, a: (int, int), b: (int, int)) -> bool {
    &&& open_cell(walls, b)
    &&& (b == grid_neighbour(a, Direction::Up) || b == grid_neighbour(a, Direction::Down) || b
        == grid_neighbour(a, Direction::Left) || b == grid_neighbour(a, Direction::Right))
}

/// A walk through the wall grid, one open neighbour at a time.
pub open spec fn is_open_path(walls: WallBoard, path: Seq<(int, int)>) -> bool {
    &&& path.len() >= 1
    &&& forall|k: int| 0 <= k < path.len() - 1 ==> #[trigger] open_step(walls, path[k], path[k + 1])
}

/// Some walk through open cells leads from `start` to `c`.
pub open spec fn in_region(walls: WallBoard, start: (int, int), c: (int, int)) -> bool {
    exists|path: Seq<(int, int)>|
        is_open_path(walls, path) && path[0] == start && #[trigger] path.last() == c
}

/// The field cells other than the goal that open walks from the goal's cell reach.
pub open spec fn goal_region(spec: GameSpec) -> Set<Point> {
    Set::new(
        |p: Point|
            in_board(p) && p != spec.goal && in_region(
                spec.walls,
                grid_cell(spec.goal),
                grid_cell(p),
            ),
    )
}

pub open spec fn queue_cell(queue: Seq<(usize, usize)>, t: int) -> (int, int) {
    (queue[t].0 as int, queue[t].1 as int)
}

proof fn lemma_path_extend(walls: WallBoard, start: (int, int), a: (int, int), b: (int, int))
    requires
        in_region(walls, start, a),
        open_step(walls, a, b),
    ensures
        in_region(walls, start, b),
{
    let path = choose|path: Seq<(int, int)>|
        is_open_path(walls, path) && path[0] == start && #[trigger] path.last() == a;
    let longer = path.push(b);
    assert forall|k: int| 0 <= k < longer.len() - 1 implies #[trigger] open_step(
        walls,
        longer[k],
        longer[k + 1],
    ) by {
        if k < path.len() - 1 {
            assert(open_step(walls, path[k], path[k + 1]));
        }
    }
    assert(longer.last() == b);
}

/// Once every queued cell has its open neighbours marked, each cell of the region is marked.
proof fn lemma_region_marked(
    walls: WallBoard,
    vis: [[bool; WALL_MAP_SIZE]; WALL_MAP_SIZE],
    queue: Seq<(usize, usize)>,
    start: (int, int),
    path: Seq<(int, int)>,
)
    requires
        0 <= start.0 < WALL_MAP_SIZE && 0 <= start.1 < WALL_MAP_SIZE,
        vis[start.0][start.1],
        forall|x: int, y: int|
            0 <= x < WALL_MAP_SIZE && 0 <= y < WALL_MAP_SIZE && #[trigger] vis[x][y] ==> exists|t: int|
                0 <= t < queue.len() && queue_cell(queue, t) == (x, y),
        forall|t: int, d: Direction|
            0 <= t < queue.len() && open_cell(walls, #[trigger] grid_neighbour(queue_cell(queue, t), d))
                ==> vis[grid_neighbour(queue_cell(queue, t), d).0][grid_neighbour(
                queue_cell(queue, t),
                d,
            ).1],
        is_open_path(walls, path),
        path[0] == start,
    ensures
        vis[path.last().0][path.last().1],
        0 <= path.last().0 < WALL_MAP_SIZE && 0 <= path.last().1 < WALL_MAP_SIZE,
    decreases path.len(),
{
    if path.len() > 1 {
        let prefix = path.drop_last();
        assert forall|k: int| 0 <= k < prefix.len() - 1 implies #[trigger] open_step(
            walls,
            prefix[k],
            prefix[k + 1],
        ) by {
            assert(open_step(walls, path[k], path[k + 1]));
        }
        lemma_region_marked(walls, vis, queue, start, prefix);
        let a = prefix.last();
        let b = path.last();
        let k = path.len() - 2;
        assert(open_step(walls, path[k], path[k + 1]));
        assert(path[k] == a && path[k + 1] == b);
        let t = choose|t: int| 0 <= t < queue.len() && queue_cell(queue, t) == (a.0, a.1);
        if b == grid_neighbour(a, Direction::Up) {
            assert(open_cell(walls, grid_neighbour(queue_cell(queue, t), Direction::Up)));
        } else if b == grid_neighbour(a, Direction::Down) {
            assert(open_cell(walls, grid_neighbour(queue_cell(queue, t), Direction::Down)));
        } else if b == grid_neighbour(a, Direction::Left) {
            assert(open_cell(walls, grid_neighbour(queue_cell(queue, t), Direction::Left)));
        } else {
            assert(open_cell(walls, grid_neighbour(queue_cell(queue, t), Direction::Right)));
        }
    }
}

/// The wall-grid cells that open walks from the goal's cell reach, found by a flood fill.
fn flood_from_goal(spec: &GameSpec) -> (vis: [[bool; WALL_MAP_SIZE]; WALL_MAP_SIZE])
    requires
        spec.wf(),
        in_board(spec.goal),
    ensures
        forall|x: int, y: int|
            0 <= x < WALL_MAP_SIZE && 0 <= y < WALL_MAP_SIZE ==> (#[trigger] vis[x][y] <==> in_region(
                spec.walls,
                grid_cell(spec.goal),
                (x, y),
            )),
{
    let ghost walls = spec.walls;
    let mut vis: [[bool; WALL_MAP_SIZE]; WALL_MAP_SIZE] = [[false; WALL_MAP_SIZE]; WALL_MAP_SIZE];
    let mut queue: Vec<(usize, usize)> = Vec::new();
    let start_r = (spec.goal.r as usize) * 2 + 1;
    let start_c = (spec.goal.c as usize) * 2 + 1;
    let ghost start = (start_r as int, start_c as int);
    assert(start == grid_cell(spec.goal));
    set_flag(&mut vis, start_r, start_c);
    queue.push((start_r, start_c));
    let ghost mut seen: Set<int> = set![start_r * 33 + start_c];
    proof {
        let path = seq![start];
        assert(is_open_path(walls, path));
        assert(path.last() == start);
        assert forall|x: int, y: int|
            0 <= x < WALL_MAP_SIZE && 0 <= y < WALL_MAP_SIZE && #[trigger] vis[x][y] implies in_region(
            walls,
            start,
            (x, y),
        ) && exists|t: int| 0 <= t < queue@.len() && queue_cell(queue@, t) == (x, y) by {
            assert(x == start_r && y == start_c);
            assert(queue_cell(queue@, 0) == (x, y));
        }
    }
    let mut head: usize = 0;
    while head < queue.len()
        invariant
            walls == spec.walls,
            start == grid_cell(spec.goal),
            start == (start_r as int, start_c as int),
            start_r < WALL_MAP_SIZE,
            start_c < WALL_MAP_SIZE,
            vis[start_r as int][start_c as int],
            forall|t: int|
                0 <= t < queue@.len() ==> (#[trigger] queue@[t]).0 < WALL_MAP_SIZE && queue@[t].1
                    < WALL_MAP_SIZE && vis[queue@[t].0 as int][queue@[t].1 as int],
            seen.finite(),
            seen.len() == queue@.len(),
            seen.subset_of(vstd::set_lib::set_int_range(0, 1089int)),
            forall|x: int, y: int|
                0 <= x < WALL_MAP_SIZE && 0 <= y < WALL_MAP_SIZE ==> (#[trigger] vis[x][y]
                    <==> seen.contains(x * 33 + y)),
            forall|x: int, y: int|
                0 <= x < WALL_MAP_SIZE && 0 <= y < WALL_MAP_SIZE && #[trigger] vis[x][y] ==> in_region(
                    walls,
                    start,
                    (x, y),
                ) && exists|t: int| 0 <= t < queue@.len() && queue_cell(queue@, t) == (x, y),
            forall|t: int, d: Direction|
                0 <= t < head && open_cell(walls, #[trigger] grid_neighbour(queue_cell(queue@, t), d))
                    ==> vis[grid_neighbour(queue_cell(queue@, t), d).0][grid_neighbour(
                    queue_cell(queue@, t),
                    d,
                ).1],
            head <= queue@.len(),
            queue@.len() <= 33 * 33,
        decreases 33 * 33 + 1 - head,
    {
        let (pr, pc) = queue[head];
        let ghost p = (pr as int, pc as int);
        assert(p == queue_cell(queue@, head as int));
        let mut di: usize = 0;
        while di < 4
            invariant
                walls == spec.walls,
                start == grid_cell(spec.goal),
                start == (start_r as int, start_c as int),
                start_r < WALL_MAP_SIZE,
                start_c < WALL_MAP_SIZE,
                vis[start_r as int][start_c as int],
                forall|t: int|
                    0 <= t < queue@.len() ==> (#[trigger] queue@[t]).0 < WALL_MAP_SIZE
                        && queue@[t].1 < WALL_MAP_SIZE && vis[queue@[t].0 as int][queue@[t].1 as int],
                pr < WALL_MAP_SIZE,
                pc < WALL_MAP_SIZE,
                p == (pr as int, pc as int),
                head < queue@.len(),
                p == queue_cell(queue@, head as int),
                vis[pr as int][pc as int],
                seen.finite(),
                seen.len() == queue@.len(),
                seen.subset_of(vstd::set_lib::set_int_range(0, 1089int)),
                forall|x: int, y: int|
                    0 <= x < WALL_MAP_SIZE && 0 <= y < WALL_MAP_SIZE ==> (#[trigger] vis[x][y]
                        <==> seen.contains(x * 33 + y)),
                forall|x: int, y: int|
                    0 <= x < WALL_MAP_SIZE && 0 <= y < WALL_MAP_SIZE && #[trigger] vis[x][y]
                        ==> in_region(walls, start, (x, y)) && exists|t: int|
                        0 <= t < queue@.len() && queue_cell(queue@, t) == (x, y),
                forall|t: int, d: Direction|
                    0 <= t < head && open_cell(walls, #[trigger] grid_neighbour(queue_cell(queue@, t), d))
                        ==> vis[grid_neighbour(queue_cell(queue@, t), d).0][grid_neighbour(
                        queue_cell(queue@, t),
                        d,
                    ).1],
                forall|d: Direction|
                    d.ordinal() < di && open_cell(walls, #[trigger] grid_neighbour(p, d))
                        ==> vis[grid_neighbour(p, d).0][grid_neighbour(p, d).1],
                queue@.len() <= 33 * 33,
                di <= 4,
            decreases 4 - di,
        {
            let direction = Direction::from_index(di);
            let ghost nb = grid_neighbour(p, direction);
            di += 1;
            let (nr, nc) = match direction {
                Direction::Up => {
                    if pr == 0 {
                        continue;
                    }
                    (pr - 1, pc)
                },
                Direction::Down => {
                    if pr + 1 >= WALL_MAP_SIZE {
                        continue;
                    }
                    (pr + 1, pc)
                },
                Direction::Left => {
                    if pc == 0 {
                        continue;
                    }
                    (pr, pc - 1)
                },
                Direction::Right => {
                    if pc + 1 >= WALL_MAP_SIZE {
                        continue;
                    }
                    (pr, pc + 1)
                },
            };
            assert(nb == (nr as int, nc as int));
            if spec.walls[nr][nc] {
                continue;
            }
            if vis[nr][nc] {
                continue;
            }
            let ghost key = nr * 33 + nc;
            let ghost old_vis = vis;
            let ghost old_seen = seen;
            let ghost old_queue = queue@;
            assert(!seen.contains(key));
            proof {
                assert(open_step(walls, p, nb));
                assert(in_region(walls, start, p));
                lemma_path_extend(walls, start, p, nb);
            }
            set_flag(&mut vis, nr, nc);
            queue.push((nr, nc));
            proof {
                seen = seen.insert(key);
                assert(queue_cell(queue@, queue@.len() - 1) == nb);
                assert forall|t: int| 0 <= t < old_queue.len() implies queue_cell(queue@, t)
                    == queue_cell(old_queue, t) by {}
                assert forall|x: int, y: int|
                    0 <= x < WALL_MAP_SIZE && 0 <= y < WALL_MAP_SIZE implies (#[trigger] vis[x][y]
                    <==> seen.contains(x * 33 + y)) by {
                    if x * 33 + y == key {
                        lemma_grid_key(x, y, nr as int, nc as int);
                    }
                    assert(old_vis[x][y] <==> old_seen.contains(x * 33 + y));
                }
                assert forall|x: int, y: int|
                    0 <= x < WALL_MAP_SIZE && 0 <= y < WALL_MAP_SIZE && #[trigger] vis[x][y]
                        implies in_region(walls, start, (x, y)) && exists|t: int|
                        0 <= t < queue@.len() && queue_cell(queue@, t) == (x, y) by {
                    if x == nr && y == nc {
                        assert(queue_cell(queue@, queue@.len() - 1) == (x, y));
                    } else {
                        assert(old_vis[x][y]);
                        let t = choose|t: int| 0 <= t < old_queue.len() && queue_cell(old_queue, t) == (x, y);
                        assert(queue_cell(queue@, t) == (x, y));
                    }
                }
                assert forall|t: int, d: Direction|
                    0 <= t < head && open_cell(walls, #[trigger] grid_neighbour(queue_cell(queue@, t), d))
                        implies vis[grid_neighbour(queue_cell(queue@, t), d).0][grid_neighbour(
                        queue_cell(queue@, t),
                        d,
                    ).1] by {
                    assert(queue_cell(queue@, t) == queue_cell(old_queue, t));
                    assert(open_cell(walls, grid_neighbour(queue_cell(old_queue, t), d)));
                }
                assert forall|t: int|
                    0 <= t < queue@.len() implies (#[trigger] queue@[t]).0 < WALL_MAP_SIZE
                        && queue@[t].1 < WALL_MAP_SIZE && vis[queue@[t].0 as int][queue@[t].1 as int] by {
                    if t < old_queue.len() {
                        assert(queue@[t] == old_queue[t]);
                    }
                }
                vstd::set_lib::lemma_int_range(0, 1089int);
                vstd::set_lib::lemma_len_subset(seen, vstd::set_lib::set_int_range(0, 1089int));
            }
        }
        proof {
            assert forall|t: int, d: Direction|
                0 <= t < head + 1 && open_cell(walls, #[trigger] grid_neighbour(queue_cell(queue@, t), d))
                    implies vis[grid_neighbour(queue_cell(queue@, t), d).0][grid_neighbour(
                    queue_cell(queue@, t),
                    d,
                ).1] by {
                if t == head {
                    assert(d.ordinal() < 4);
                }
            }
        }
        head += 1;
    }
    proof {
        assert forall|x: int, y: int|
            0 <= x < WALL_MAP_SIZE && 0 <= y < WALL_MAP_SIZE implies (#[trigger] vis[x][y] <==> in_region(
            walls,
            start,
            (x, y),
        )) by {
            if in_region(walls, start, (x, y)) {
                let path = choose|path: Seq<(int, int)>|
                    is_open_path(walls, path) && path[0] == start && #[trigger] path.last() == (x, y);
                lemma_region_marked(walls, vis, queue@, start, path);
            }
        }
    }
    vis
}

/// The field cells other than the goal that the flood fill from the goal reached, in row-major
/// order.
fn available_cells(spec: &GameSpec) -> (cells: Vec<Point>)
    requires
        spec.wf(),
        in_board(spec.goal),
    ensures
        cells@.no_duplicates(),
        cells@.to_set() == goal_region(*spec),
        forall|t: int|
            0 <= t < cells@.len() ==> in_board(#[trigger] cells@[t]) && cells@[t] != spec.goal,
{
    let vis = flood_from_goal(spec);
    let mut available: Vec<Point> = Vec::new();
    let mut r: usize = 0;
    while r < BOARD_SIZE
        invariant
            r <= BOARD_SIZE,
            in_board(spec.goal),
            forall|x: int, y: int|
                0 <= x < WALL_MAP_SIZE && 0 <= y < WALL_MAP_SIZE ==> (#[trigger] vis[x][y]
                    <==> in_region(spec.walls, grid_cell(spec.goal), (x, y))),
            forall|t: int|
                0 <= t < available@.len() ==> in_board(#[trigger] available@[t])
                    && available@[t] != spec.goal && available@[t].r * 16 + available@[t].c < r
                    * 16,
            forall|a: int, b: int|
                0 <= a < b < available@.len() ==> #[trigger] available@[a].r * 16 + available@[a].c
                    < #[trigger] available@[b].r * 16 + available@[b].c,
            forall|p: Point|
                #[trigger] goal_region(*spec).contains(p) && p.r * 16 + p.c < r * 16
                    ==> available@.contains(p),
            forall|t: int| 0 <= t < available@.len() ==> goal_region(*spec).contains(#[trigger] available@[t]),
        decreases BOARD_SIZE - r,
    {
        let mut c: usize = 0;
        while c < BOARD_SIZE
            invariant
                r < BOARD_SIZE,
                c <= BOARD_SIZE,
                in_board(spec.goal),
                forall|x: int, y: int|
                    0 <= x < WALL_MAP_SIZE && 0 <= y < WALL_MAP_SIZE ==> (#[trigger] vis[x][y]
                        <==> in_region(spec.walls, grid_cell(spec.goal), (x, y))),
                forall|t: int|
                    0 <= t < available@.len() ==> in_board(#[trigger] available@[t])
                        && available@[t] != spec.goal && available@[t].r * 16 + available@[t].c < r
                        * 16 + c,
                forall|a: int, b: int|
                    0 <= a < b < available@.len() ==> #[trigger] available@[a].r * 16
                        + available@[a].c < #[trigger] available@[b].r * 16 + available@[b].c,
                forall|p: Point|
                    #[trigger] goal_region(*spec).contains(p) && p.r * 16 + p.c < r * 16 + c
                        ==> available@.contains(p),
                forall|t: int| 0 <= t < available@.len() ==> goal_region(*spec).contains(#[trigger] available@[t]),
            decreases BOARD_SIZE - c,
        {
            let field_cell = Point::new(r as i8, c as i8);
            let ghost before = available@;
            assert(grid_cell(field_cell) == ((r * 2 + 1) as int, (c * 2 + 1) as int));
            if vis[r * 2 + 1][c * 2 + 1] && field_cell != spec.goal {
                available.push(field_cell);
                assert(available@.last() == field_cell);
            }
            proof {
                assert forall|p: Point|
                    #[trigger] goal_region(*spec).contains(p) && p.r * 16 + p.c < r * 16 + c + 1
                        implies available@.contains(p) by {
                    if p.r * 16 + p.c < r * 16 + c {
                        assert(before.contains(p));
                        let t = choose|t: int| 0 <= t < before.len() && before[t] == p;
                        assert(available@[t] == p);
                    } else {
                        assert(p == field_cell);
                        assert(available@[available@.len() - 1] == p);
                    }
                }
                assert forall|t: int| 0 <= t < available@.len() implies goal_region(*spec).contains(
                    #[trigger] available@[t],
                ) by {
                    if t < before.len() {
                        assert(available@[t] == before[t]);
                    }
                }
            }
            c += 1;
        }
        r += 1;
    }
    assert forall|a: int, b: int|
        0 <= a < available@.len() && 0 <= b < available@.len() && a != b implies available@[a]
        != available@[b] by {
        if a < b {
            assert(available@[a].r * 16 + available@[a].c < available@[b].r * 16 + available@[b].c);
        } else {
            assert(available@[b].r * 16 + available@[b].c < available@[a].r * 16 + available@[a].c);
        }
    }
    assert(available@.to_set() =~= goal_region(*spec)) by {
        assert forall|p: Point| #[trigger] goal_region(*spec).contains(p) implies available@.contains(p) by {
            assert(in_board(p));
        }
    }
    available
}

/// Robot `goal_robot` on the goal, the other three on distinct cells of the goal's region.
pub open spec fn placement(spec: GameSpec, goal_robot: int, s: Seq<Point>) -> bool {
    &&& s.len() == ROBOT_COUNT
    &&& s[goal_robot] == spec.goal
    &&& s.no_duplicates()
    &&& forall|j: int|
        0 <= j < ROBOT_COUNT && j != goal_robot ==> goal_region(spec).contains(#[trigger] s[j])
}

proof fn lemma_falling_three(m: nat)
    ensures
        falling(m, 3) > 0 <==> m >= 3,
{
    reveal_with_fuel(falling, 4);
    if m >= 3 {
        let a = (m - 1) as nat;
        let b = (m - 2) as nat;
        assert(falling((m - 3) as nat, 0) == 1);
        assert(falling(b, 1) == b * 1);
        assert(falling(a, 2) == a * falling(b, 1));
        assert(falling(m, 3) == m * falling(a, 2));
        assert(m * (a * (b * 1)) > 0) by (nonlinear_arith)
            requires
                m >= 3,
                a >= 2,
                b >= 1,
        ;
    } else if m == 2 {
        assert(falling(0, 1) == 0);
        assert(falling(1, 2) == 1 * falling(0, 1));
    } else if m == 1 {
        assert(falling(0, 2) == 0);
    }
}

/// The winning states in which robot `goal_robot` stands on the goal and the others on
/// distinct cells of the goal's region: each such placement once.
fn winning_states(spec: &GameSpec, goal_robot: usize) -> (r: Vec<GameState>)
    requires
        spec.wf(),
        in_board(spec.goal),
        goal_robot < ROBOT_COUNT,
    ensures
        forall|t: int|
            0 <= t < r@.len() ==> (#[trigger] r@[t]).wf() && placement(
                *spec,
                goal_robot as int,
                r@[t]@,
            ),
        forall|x: Seq<Point>| placement(*spec, goal_robot as int, x) ==> #[trigger] state_views(
            r@,
        ).contains(x),
        state_views(r@).no_duplicates(),
        r@.len() == falling(goal_region(*spec).len(), (ROBOT_COUNT - 1) as nat),
        r@.len() > 0 <==> goal_region(*spec).len() >= ROBOT_COUNT - 1,
{
    let cells = available_cells(spec);
    let ghost cell_seq = cells@;
    proof {
        cell_seq.unique_seq_to_set();
        lemma_falling_three(cell_seq.len());
    }
    let perms = cell_permutations(cells, ROBOT_COUNT - 1);
    let ghost g = goal_robot as int;
    let mut result: Vec<GameState> = Vec::new();
    let mut t: usize = 0;
    while t < perms.len()
        invariant
            spec.wf(),
            in_board(spec.goal),
            goal_robot < ROBOT_COUNT,
            g == goal_robot,
            cell_seq.no_duplicates(),
            cell_seq.to_set() == goal_region(*spec),
            forall|k: int|
                0 <= k < cell_seq.len() ==> in_board(#[trigger] cell_seq[k]) && cell_seq[k]
                    != spec.goal,
            forall|k: int| 0 <= k < perms@.len() ==> (#[trigger] perms@[k])@.len() == ROBOT_COUNT - 1,
            forall|k: int, a: int|
                0 <= k < perms@.len() && 0 <= a < ROBOT_COUNT - 1 ==> cell_seq.contains(
                    #[trigger] perms@[k]@[a],
                ),
            forall|k: int| 0 <= k < perms@.len() ==> (#[trigger] perms@[k])@.no_duplicates(),
            t <= perms@.len(),
            result@.len() == t,
            forall|k: int|
                0 <= k < result@.len() ==> (#[trigger] result@[k]).wf() && placement(
                    *spec,
                    g,
                    result@[k]@,
                ) && result@[k]@ == perms@[k]@.insert(g, spec.goal),
        decreases perms@.len() - t,
    {
        let points = &perms[t];
        let mut robots: [Point; ROBOT_COUNT] = [spec.goal; ROBOT_COUNT];
        let mut i: usize = 0;
        while i < ROBOT_COUNT - 1
            invariant
                points@ == perms@[t as int]@,
                points@.len() == ROBOT_COUNT - 1,
                goal_robot < ROBOT_COUNT,
                i <= ROBOT_COUNT - 1,
                forall|j: int|
                    0 <= j < ROBOT_COUNT ==> #[trigger] robots[j] == if j == goal_robot {
                        spec.goal
                    } else if j < goal_robot && j < i {
                        points@[j]
                    } else if j > goal_robot && j - 1 < i {
                        points@[j - 1]
                    } else {
                        spec.goal
                    },
            decreases ROBOT_COUNT - 1 - i,
        {
            let point = points[i];
            if i < goal_robot {
                robots[i] = point;
            } else {
                robots[i + 1] = point;
            }
            i += 1;
        }
        let state = GameState { robots };
        proof {
            let ps = perms@[t as int]@;
            assert(state@ =~= ps.insert(g, spec.goal));
            assert forall|a: int| 0 <= a < ROBOT_COUNT - 1 implies in_board(#[trigger] ps[a]) && ps[a]
                != spec.goal && goal_region(*spec).contains(ps[a]) by {
                assert(cell_seq.contains(ps[a]));
                let k = choose|k: int| 0 <= k < cell_seq.len() && cell_seq[k] == ps[a];
                assert(in_board(cell_seq[k]));
                assert(cell_seq.to_set().contains(ps[a]));
            }
            assert forall|j: int| 0 <= j < ROBOT_COUNT implies #[trigger] in_board(state@[j]) by {
                if j != goal_robot {
                    assert(in_board(ps[if j < goal_robot { j } else { j - 1 }]));
                }
            }
            assert forall|j: int|
                0 <= j < ROBOT_COUNT && j != g implies goal_region(*spec).contains(#[trigger] state@[j]) by {
                assert(goal_region(*spec).contains(ps[if j < goal_robot { j } else { j - 1 }]));
            }
            assert forall|a: int, b: int|
                0 <= a < ROBOT_COUNT && 0 <= b < ROBOT_COUNT && a != b implies state@[a]
                != state@[b] by {
                if a != goal_robot && b != goal_robot {
                    let ia = if a < goal_robot { a } else { a - 1 };
                    let ib = if b < goal_robot { b } else { b - 1 };
                    assert(ps[ia] != ps[ib]);
                } else if a == goal_robot {
                    assert(ps[if b < goal_robot { b } else { b - 1 }] != spec.goal);
                } else {
                    assert(ps[if a < goal_robot { a } else { a - 1 }] != spec.goal);
                }
            }
        }
        result.push(state);
        t += 1;
    }
    proof {
        let sv = state_views(result@);
        let pv = point_views(perms@);
        assert forall|x: Seq<Point>| placement(*spec, g, x) implies #[trigger] sv.contains(x) by {
            let q = x.remove(g);
            assert forall|a: int| 0 <= a < ROBOT_COUNT - 1 implies cell_seq.contains(#[trigger] q[a]) by {
                let ja = if a < g { a } else { a + 1 };
                assert(q[a] == x[ja]);
                assert(goal_region(*spec).contains(x[ja]));
                assert(cell_seq.to_set().contains(q[a]));
            }
            assert(q.no_duplicates()) by {
                assert forall|a: int, b: int| 0 <= a < q.len() && 0 <= b < q.len() && a != b implies q[a]
                    != q[b] by {
                    let ja = if a < g { a } else { a + 1 };
                    let jb = if b < g { b } else { b + 1 };
                    assert(q[a] == x[ja] && q[b] == x[jb]);
                }
            }
            assert(pv.contains(q));
            let k = choose|k: int| 0 <= k < pv.len() && pv[k] == q;
            assert(pv[k] == perms@[k]@);
            assert(q.insert(g, spec.goal) =~= x);
            assert(sv[k] == result@[k]@);
        }
        assert forall|a: int, b: int| 0 <= a < sv.len() && 0 <= b < sv.len() && a != b implies sv[a]
            != sv[b] by {
            assert(sv[a] == result@[a]@ && sv[b] == result@[b]@);
            assert(pv[a] == perms@[a]@ && pv[b] == perms@[b]@);
            if sv[a] == sv[b] {
                assert(perms@[a]@ =~= result@[a]@.remove(g));
                assert(perms@[b]@ =~= result@[b]@.remove(g));
            }
        }
    }
    result
}

/// Some robot below `n` stands on the goal with the others on distinct cells of its region.
pub open spec fn placement_below(spec: GameSpec, x: Seq<Point>, n: int) -> bool {
    exists|g: int| 0 <= g < n && #[trigger] placement(spec, g, x)
}

/// A winning placement for the goal: of the target robot, or of any robot.
pub open spec fn winning_placement(spec: GameSpec, x: Seq<Point>) -> bool {
    match spec.target_type {
        TargetType::Particular(k) => placement(spec, k as int, x),
        TargetType::Any => placement_below(spec, x, ROBOT_COUNT as int),
    }
}

/// The number of winning placements.
pub open spec fn placement_count(spec: GameSpec) -> nat {
    match spec.target_type {
        TargetType::Particular(_) => falling(goal_region(spec).len(), (ROBOT_COUNT - 1) as nat),
        TargetType::Any => (ROBOT_COUNT * falling(goal_region(spec).len(), (ROBOT_COUNT - 1) as nat)) as nat,
    }
}

/// All winning placements, each once: those of the target robot, or for a goal of any robot
/// those of robot 0, then robot 1, and so on.
fn all_winning_states(spec: &GameSpec) -> (r: Vec<GameState>)
    requires
        spec.wf(),
        in_board(spec.goal),
    ensures
        forall|t: int|
            0 <= t < r@.len() ==> (#[trigger] r@[t]).wf() && r@[t]@.no_duplicates() && spec.winning(
                r@[t]@,
            ) && winning_placement(*spec, r@[t]@),
        forall|x: Seq<Point>| winning_placement(*spec, x) ==> #[trigger] state_views(r@).contains(x),
        state_views(r@).no_duplicates(),
        r@.len() == placement_count(*spec),
        spec.target_type == TargetType::Any ==> forall|g: int, t: int|
            0 <= g < ROBOT_COUNT && g * falling(goal_region(*spec).len(), 3) <= t < (g + 1)
                * falling(goal_region(*spec).len(), 3) ==> #[trigger] placement(*spec, g, r@[t]@),
        r@.len() > 0 <==> goal_region(*spec).len() >= ROBOT_COUNT - 1,
{
    proof {
        lemma_falling_three(goal_region(*spec).len());
    }
    match spec.target_type {
        TargetType::Particular(target_robot) => {
            let r = winning_states(spec, target_robot);
            proof {
                assert forall|t: int| 0 <= t < r@.len() implies spec.winning(#[trigger] r@[t]@) by {
                    assert(placement(*spec, target_robot as int, r@[t]@));
                }
            }
            r
        },
        TargetType::Any => {
            let ghost f = falling(goal_region(*spec).len(), 3);
            let mut all: Vec<GameState> = Vec::new();
            let mut robot_index: usize = 0;
            while robot_index < ROBOT_COUNT
                invariant
                    spec.wf(),
                    in_board(spec.goal),
                    spec.target_type == TargetType::Any,
                    f == falling(goal_region(*spec).len(), 3),
                    f > 0 <==> goal_region(*spec).len() >= ROBOT_COUNT - 1,
                    robot_index <= ROBOT_COUNT,
                    all@.len() == robot_index * f,
                    forall|t: int|
                        0 <= t < all@.len() ==> (#[trigger] all@[t]).wf() && spec.winning(all@[t]@)
                            && placement_below(*spec, all@[t]@, robot_index as int),
                    forall|g: int, t: int|
                        0 <= g < robot_index && g * f <= t < (g + 1) * f ==> #[trigger] placement(*spec, g, all@[t]@),
                    forall|x: Seq<Point>|
                        placement_below(*spec, x, robot_index as int) ==> #[trigger] state_views(
                            all@,
                        ).contains(x),
                    state_views(all@).no_duplicates(),
                decreases ROBOT_COUNT - robot_index,
            {
                let states = winning_states(spec, robot_index);
                let ghost base = all@;
                let mut k: usize = 0;
                while k < states.len()
                    invariant
                        spec.target_type == TargetType::Any,
                        robot_index < ROBOT_COUNT,
                        k <= states@.len(),
                        states@.len() == f,
                        base.len() == robot_index * f,
                        all@.len() == base.len() + k,
                        all@.subrange(0, base.len() as int) == base,
                        forall|t: int|
                            0 <= t < states@.len() ==> (#[trigger] states@[t]).wf() && placement(
                                *spec,
                                robot_index as int,
                                states@[t]@,
                            ),
                        forall|t: int| 0 <= t < k ==> #[trigger] all@[base.len() + t] == states@[t],
                    decreases states@.len() - k,
                {
                    all.push(states[k]);
                    proof {
                        assert(all@.subrange(0, base.len() as int) =~= base);
                    }
                    k += 1;
                }
                proof {
                    let ri = robot_index as int;
                    assert((ri + 1) * f == ri * f + f) by (nonlinear_arith);
                    assert forall|t: int| 0 <= t < base.len() implies #[trigger] all@[t] == base[t] by {
                        assert(all@.subrange(0, base.len() as int)[t] == base[t]);
                    }
                    assert forall|t: int|
                        0 <= t < all@.len() implies (#[trigger] all@[t]).wf() && spec.winning(all@[t]@)
                            && placement_below(*spec, all@[t]@, ri + 1) by {
                        if t < base.len() {
                            assert(all@[t] == base[t]);
                            let g = choose|g: int| 0 <= g < ri && #[trigger] placement(*spec, g, base[t]@);
                            assert(placement(*spec, g, all@[t]@));
                        } else {
                            let k = t - base.len();
                            assert(all@[base.len() + k] == states@[k]);
                            assert(placement(*spec, ri, all@[t]@));
                            assert(all@[t]@[ri] == spec.goal);
                        }
                    }
                    assert forall|g: int, t: int|
                        0 <= g < ri + 1 && g * f <= t < (g + 1) * f implies #[trigger] placement(*spec, g, all@[t]@) by {
                        if g < ri {
                            assert((g + 1) * f <= ri * f) by (nonlinear_arith)
                                requires
                                    g + 1 <= ri,
                                    f >= 0,
                            ;
                            assert(all@[t] == base[t]);
                        } else {
                            let k = t - base.len();
                            assert(all@[base.len() + k] == states@[k]);
                        }
                    }
                    let sv = state_views(all@);
                    let sb = state_views(base);
                    let ss = state_views(states@);
                    assert forall|x: Seq<Point>| placement_below(*spec, x, ri + 1) implies #[trigger] sv.contains(x) by {
                        let g = choose|g: int| 0 <= g < ri + 1 && #[trigger] placement(*spec, g, x);
                        if g < ri {
                            assert(placement_below(*spec, x, ri));
                            assert(sb.contains(x));
                            let t = choose|t: int| 0 <= t < sb.len() && sb[t] == x;
                            assert(sv[t] == all@[t]@ && all@[t] == base[t]);
                        } else {
                            assert(ss.contains(x));
                            let k = choose|k: int| 0 <= k < ss.len() && ss[k] == x;
                            assert(sv[base.len() + k] == all@[base.len() + k]@);
                        }
                    }
                    assert forall|a: int, b: int| 0 <= a < sv.len() && 0 <= b < sv.len() && a != b implies sv[a]
                        != sv[b] by {
                        assert(sv[a] == all@[a]@ && sv[b] == all@[b]@);
                        if a < base.len() && b < base.len() {
                            assert(sb[a] == base[a]@ && sb[b] == base[b]@);
                            assert(all@[a] == base[a] && all@[b] == base[b]);
                        } else if a >= base.len() && b >= base.len() {
                            let ka = a - base.len();
                            let kb = b - base.len();
                            assert(all@[base.len() + ka] == states@[ka]);
                            assert(all@[base.len() + kb] == states@[kb]);
                            assert(ss[ka] == states@[ka]@ && ss[kb] == states@[kb]@);
                        } else {
                            let (old_i, new_i) = if a < base.len() { (a, b) } else { (b, a) };
                            assert(all@[old_i] == base[old_i]);
                            let g = choose|g: int| 0 <= g < ri && #[trigger] placement(*spec, g, base[old_i]@);
                            let kn = new_i - base.len();
                            assert(all@[base.len() + kn] == states@[kn]);
                            assert(placement(*spec, ri, all@[new_i]@));
                            if all@[old_i]@ == all@[new_i]@ {
                                let x = all@[old_i]@;
                                assert(x[g] == spec.goal && x[ri] == spec.goal);
                            }
                        }
                    }
                }
                robot_index += 1;
            }
            proof {
                assert(all@.len() == 4 * f) by (nonlinear_arith)
                    requires
                        all@.len() == 4 * f,
                ;
                assert(4 * f > 0 <==> f > 0) by (nonlinear_arith);
            }
            all
        },
    }
}

/// Some `k` moves from `s` reach a winning placement.
pub open spec fn reaches_in(spec: GameSpec, s: Seq<Point>, k: nat) -> bool {
    exists|ms: Seq<int>|
        ms.len() == k && valid_moves(ms) && #[trigger] winning_placement(
            spec,
            apply_moves(spec.walls, s, ms),
        )
}

/// The fewest moves from `s` to a winning placement are `k`.
pub open spec fn distance_is(spec: GameSpec, s: Seq<Point>, k: nat) -> bool {
    reaches_in(spec, s, k) && forall|j: nat| j < k ==> !#[trigger] reaches_in(spec, s, j)
}

/// Robots on the field, on distinct cells.
pub open spec fn valid_state(s: Seq<Point>) -> bool {
    state_in_board(s) && s.no_duplicates()
}

/// No robot has a wall on any of its four sides.
pub open spec fn in_open_space(spec: GameSpec, s: Seq<Point>) -> bool {
    forall|i: int, d: Direction| 0 <= i < ROBOT_COUNT ==> !#[trigger] wall_beside(spec.walls, s[i], d)
}

/// Whether every robot stands in open space, which makes for a harder puzzle.
fn is_acceptable_final_state(spec: &GameSpec, state: &GameState) -> (b: bool)
    requires
        spec.wf(),
        state.wf(),
    ensures
        b == in_open_space(*spec, state@),
{
    let mut i: usize = 0;
    while i < ROBOT_COUNT
        invariant
            state.wf(),
            i <= ROBOT_COUNT,
            forall|j: int, d: Direction| 0 <= j < i ==> !#[trigger] wall_beside(spec.walls, state@[j], d),
        decreases ROBOT_COUNT - i,
    {
        let robot = state.robots[i];
        assert(in_board(state@[i as int]));
        let mut di: usize = 0;
        while di < 4
            invariant
                state.wf(),
                i < ROBOT_COUNT,
                robot == state@[i as int],
                in_board(robot),
                di <= 4,
                forall|j: int, d: Direction| 0 <= j < i ==> !#[trigger] wall_beside(spec.walls, state@[j], d),
                forall|d: Direction| d.ordinal() < di ==> !#[trigger] wall_beside(spec.walls, robot, d),
            decreases 4 - di,
        {
            let direction = Direction::from_index(di);
            if _has_wall(&spec.walls, robot, direction) {
                assert(!in_open_space(*spec, state@));
                return false;
            }
            di += 1;
        }
        i += 1;
    }
    true
}

proof fn lemma_reaches_back(spec: GameSpec, p: Seq<Point>, s: Seq<Point>, m: int, k: nat)
    requires
        reaches_in(spec, s, k),
        0 <= m < crate::model::MOVE_COUNT,
        crate::model::step(spec.walls, p, m) == s,
    ensures
        reaches_in(spec, p, k + 1),
{
    let ms = choose|ms: Seq<int>|
        ms.len() == k && valid_moves(ms) && #[trigger] winning_placement(
            spec,
            apply_moves(spec.walls, s, ms),
        );
    let single = seq![m];
    assert(single.drop_last() =~= Seq::<int>::empty());
    assert(apply_moves(spec.walls, p, Seq::<int>::empty()) == p);
    assert(apply_moves(spec.walls, p, single) == s);
    lemma_apply_concat(spec.walls, p, single, ms);
    let all = single + ms;
    assert(valid_moves(all)) by {
        assert forall|t: int| 0 <= t < all.len() implies 0 <= #[trigger] all[t]
            < crate::model::MOVE_COUNT by {
            if t > 0 {
                assert(all[t] == ms[t - 1]);
            }
        }
    }
    assert(winning_placement(spec, apply_moves(spec.walls, p, all)));
}

/// Some state of the queue, no further than `bound` from the winning placements, is
/// equivalent to `x`.
pub open spec fn covered(spec: GameSpec, queue: Seq<GameState>, dist: Seq<nat>, x: Seq<Point>, bound: nat) -> bool {
    exists|j: int| 0 <= j < queue.len() && #[trigger] equivalent(spec, x, queue[j]@) && dist[j] <= bound
}

/// The states of the backward search: valid, at most `dist` moves from a winning placement,
/// no two equivalent.
pub open spec fn search_ok(spec: GameSpec, queue: Seq<GameState>, dist: Seq<nat>) -> bool {
    &&& dist.len() == queue.len()
    &&& forall|i: int|
        0 <= i < queue.len() ==> (#[trigger] queue[i]).wf() && queue[i]@.no_duplicates() && reaches_in(
            spec,
            queue[i]@,
            dist[i],
        )
    &&& forall|i: int, j: int|
        0 <= i < queue.len() && 0 <= j < queue.len() && i != j ==> !equivalent(
            spec,
            #[trigger] queue[i]@,
            #[trigger] queue[j]@,
        )
}

/// Distances never decrease along the queue; the states not yet expanded lie in two layers.
pub open spec fn search_layered(dist: Seq<nat>, head: int) -> bool {
    &&& 0 <= head <= dist.len()
    &&& forall|i: int, j: int| 0 <= i <= j < dist.len() ==> #[trigger] dist[i] <= #[trigger] dist[j]
    &&& head < dist.len() ==> dist[dist.len() - 1] <= dist[head] + 1
}

/// Every winning placement is equivalent to a queued state at distance zero.
pub open spec fn seeds_covered(spec: GameSpec, queue: Seq<GameState>, dist: Seq<nat>) -> bool {
    forall|x: Seq<Point>| #[trigger] winning_placement(spec, x) ==> covered(spec, queue, dist, x, 0)
}

/// Every predecessor of a state below `upto` is equivalent to a queued state one layer further
/// at most.
pub open spec fn back_expanded(spec: GameSpec, queue: Seq<GameState>, dist: Seq<nat>, upto: int) -> bool {
    forall|i: int, x: Seq<Point>|
        0 <= i < upto && #[trigger] predecessors(spec.walls, queue[i]@).contains(x) ==> covered(
            spec,
            queue,
            dist,
            x,
            dist[i] + 1,
        )
}

proof fn lemma_covered_push(
    spec: GameSpec,
    queue: Seq<GameState>,
    dist: Seq<nat>,
    x: Seq<Point>,
    bound: nat,
    y: GameState,
    dy: nat,
)
    requires
        dist.len() == queue.len(),
        covered(spec, queue, dist, x, bound),
    ensures
        covered(spec, queue.push(y), dist.push(dy), x, bound),
{
    let j = choose|j: int| 0 <= j < queue.len() && #[trigger] equivalent(spec, x, queue[j]@) && dist[j] <= bound;
    assert(queue.push(y)[j] == queue[j] && dist.push(dy)[j] == dist[j]);
    assert(equivalent(spec, x, queue.push(y)[j]@));
}

/// A state a few moves from a winning placement is equivalent to a queued state no further
/// away, once the search has expanded the layers it needs.
proof fn lemma_reached_covered(
    spec: GameSpec,
    queue: Seq<GameState>,
    dist: Seq<nat>,
    head: int,
    x: Seq<Point>,
    ms: Seq<int>,
)
    requires
        spec.wf(),
        search_ok(spec, queue, dist),
        search_layered(dist, head),
        seeds_covered(spec, queue, dist),
        back_expanded(spec, queue, dist, head),
        valid_state(x),
        valid_moves(ms),
        winning_placement(spec, apply_moves(spec.walls, x, ms)),
        head == queue.len() || ms.len() <= dist[head],
    ensures
        covered(spec, queue, dist, x, ms.len()),
    decreases ms.len(),
{
    if ms.len() == 0 {
        assert(apply_moves(spec.walls, x, ms) == x);
    } else {
        let m = ms[0];
        let rest = ms.drop_first();
        let x1 = crate::model::step(spec.walls, x, m);
        let single = seq![m];
        assert(single.drop_last() =~= Seq::<int>::empty());
        assert(apply_moves(spec.walls, x, Seq::<int>::empty()) == x);
        assert(apply_moves(spec.walls, x, single) == x1);
        lemma_apply_concat(spec.walls, x, single, rest);
        assert(single + rest =~= ms);
        crate::moves::lemma_step_valid(spec.walls, x, m);
        assert(valid_moves(rest)) by {
            assert forall|t: int| 0 <= t < rest.len() implies 0 <= #[trigger] rest[t]
                < crate::model::MOVE_COUNT by {
                assert(rest[t] == ms[t + 1]);
            }
        }
        lemma_reached_covered(spec, queue, dist, head, x1, rest);
        let j1 = choose|j: int|
            0 <= j < queue.len() && #[trigger] equivalent(spec, x1, queue[j]@) && dist[j] <= rest.len();
        if x1 == x {
            assert(equivalent(spec, x, queue[j1]@));
        } else {
            if j1 >= head && head < queue.len() {
                assert(dist[head] <= dist[j1]);
            }
            crate::symmetry::lemma_predecessor_equivalent(spec, x, m, queue[j1]@);
            let y = choose|y: Seq<Point>|
                equivalent(spec, x, y) && state_in_board(y) && y.no_duplicates() && #[trigger] predecessors(
                    spec.walls,
                    queue[j1]@,
                ).contains(y);
            assert(covered(spec, queue, dist, y, dist[j1] + 1));
            let j = choose|j: int| 0 <= j < queue.len() && #[trigger] equivalent(spec, y, queue[j]@) && dist[j] <= dist[j1] + 1;
            crate::symmetry::lemma_equivalent_trans(spec, x, y, queue[j]@);
        }
    }
}

/// Once the search is done, each queued state's distance is its fewest moves to a winning
/// placement, and every state that can reach one is equivalent to a queued state at its own
/// distance.
proof fn lemma_search_done(spec: GameSpec, queue: Seq<GameState>, dist: Seq<nat>)
    requires
        spec.wf(),
        search_ok(spec, queue, dist),
        search_layered(dist, queue.len() as int),
        seeds_covered(spec, queue, dist),
        back_expanded(spec, queue, dist, queue.len() as int),
    ensures
        forall|i: int| 0 <= i < queue.len() ==> distance_is(spec, #[trigger] queue[i]@, dist[i]),
        forall|x: Seq<Point>, k: nat|
            valid_state(x) && #[trigger] distance_is(spec, x, k) ==> exists|j: int|
                0 <= j < queue.len() && #[trigger] equivalent(spec, x, queue[j]@) && dist[j] == k,
{
    assert forall|i: int| 0 <= i < queue.len() implies distance_is(spec, #[trigger] queue[i]@, dist[i]) by {
        assert(queue[i].wf());
        assert forall|k: nat| k < dist[i] implies !#[trigger] reaches_in(spec, queue[i]@, k) by {
            if reaches_in(spec, queue[i]@, k) {
                let ms = choose|ms: Seq<int>|
                    ms.len() == k && valid_moves(ms) && #[trigger] winning_placement(
                        spec,
                        apply_moves(spec.walls, queue[i]@, ms),
                    );
                lemma_reached_covered(spec, queue, dist, queue.len() as int, queue[i]@, ms);
                let j = choose|j: int|
                    0 <= j < queue.len() && #[trigger] equivalent(spec, queue[i]@, queue[j]@) && dist[j] <= k;
                assert(j != i);
            }
        }
    }
    assert forall|x: Seq<Point>, k: nat|
        valid_state(x) && #[trigger] distance_is(spec, x, k) implies exists|j: int|
        0 <= j < queue.len() && #[trigger] equivalent(spec, x, queue[j]@) && dist[j] == k by {
        let ms = choose|ms: Seq<int>|
            ms.len() == k && valid_moves(ms) && #[trigger] winning_placement(
                spec,
                apply_moves(spec.walls, x, ms),
            );
        lemma_reached_covered(spec, queue, dist, queue.len() as int, x, ms);
        let j = choose|j: int| 0 <= j < queue.len() && #[trigger] equivalent(spec, x, queue[j]@) && dist[j] <= k;
        assert(distance_is(spec, queue[j]@, dist[j]));
        crate::symmetry::lemma_equivalent_symm(spec, x, queue[j]@);
        crate::symmetry::lemma_reaches_equivalent(spec, queue[j]@, x, dist[j]);
        assert(dist[j] == k);
    }
}

/// Reordering the robots keeps them in open space.
proof fn lemma_open_equivalent(spec: GameSpec, x: Seq<Point>, y: Seq<Point>)
    requires
        x.len() == ROBOT_COUNT,
        equivalent(spec, x, y),
        in_open_space(spec, x),
    ensures
        in_open_space(spec, y),
{
    let perm = choose|perm: Seq<int>|
        is_permutation(perm) && keeps_target(spec.target_type, perm) && #[trigger] permuted(x, perm)
            == y;
    assert forall|i: int, d: Direction| 0 <= i < ROBOT_COUNT implies !#[trigger] wall_beside(
        spec.walls,
        y[i],
        d,
    ) by {
        assert(y[i] == x[perm[i]]);
        assert(!wall_beside(spec.walls, x[perm[i]], d));
    }
}

/// Queues `state` unless a state equivalent to it was queued before.
fn enqueue_unseen(
    spec: &GameSpec,
    state: GameState,
    vis: &mut BitSet,
    queue: &mut Vec<GameState>,
    Ghost(seen): Ghost<Set<int>>,
) -> (new_seen: Ghost<Set<int>>)
    requires
        spec.wf(),
        state.wf(),
        seen_ok(seen, bits_of(*old(vis)), old(queue)@.len() as int),
        visited_ok(bits_of(*old(vis)), old(queue)@),
        bits_of(*old(vis)).len() == STATE_SPACE,
        forall|t: int| 0 <= t < old(queue)@.len() ==> (#[trigger] old(queue)@[t]).wf(),
    ensures
        seen_ok(new_seen@, bits_of(*final(vis)), final(queue)@.len() as int),
        visited_ok(bits_of(*final(vis)), final(queue)@),
        bits_of(*final(vis)).len() == STATE_SPACE,
        final(queue)@ == old(queue)@ || final(queue)@ == old(queue)@.push(state),
        final(queue)@ == old(queue)@.push(state) ==> forall|j: int|
            0 <= j < old(queue)@.len() ==> !#[trigger] equivalent(*spec, state@, old(queue)@[j]@),
        final(queue)@ == old(queue)@ ==> exists|j: int|
            0 <= j < old(queue)@.len() && #[trigger] equivalent(*spec, state@, old(queue)@[j]@),
        final(queue)@.len() <= STATE_SPACE,
        old(queue)@.len() == 0 ==> final(queue)@.len() == 1,
{
    let equivalents = spec.equivalent_states(&state);
    proof {
        reveal_with_fuel(crate::algorithm::fact, 5);
        assert(equivalents@.len() == crate::symmetry::class_size(*spec));
    }
    let mut e: usize = 0;
    while e < equivalents.len()
        invariant
            spec.wf(),
            state.wf(),
            equivalents@.len() == crate::symmetry::class_size(*spec),
            forall|t: int| 0 <= t < equivalents@.len() ==> #[trigger] equivalents@[t].wf(),
            forall|t: int|
                0 <= t < equivalents@.len() ==> #[trigger] equivalents@[t]@
                    == crate::symmetry::class_member(*spec, state@, t as nat),
            equivalents@.len() > 0,
            equivalents@[0]@ == state@,
            bits_of(*vis).len() == STATE_SPACE,
            e <= equivalents.len(),
            *vis == *old(vis),
            *queue == *old(queue),
            forall|t: int| 0 <= t < old(queue)@.len() ==> (#[trigger] old(queue)@[t]).wf(),
            seen_ok(seen, bits_of(*vis), queue@.len() as int),
            visited_ok(bits_of(*vis), queue@),
            forall|t: int|
                0 <= t < e ==> !bits_of(*vis)[#[trigger] fingerprint(equivalents@[t]@)],
        decreases equivalents.len() - e,
    {
        let id = equivalents[e].to_u32();
        proof {
            assert(equivalents@[e as int].wf());
            lemma_fingerprint_bound(equivalents@[e as int]@);
        }
        if bits_get(vis, id) {
            proof {
                if queue@.len() == 0 {
                    assert(seen.contains(id as int));
                    seen.lemma_len0_is_empty();
                }
                let i = choose|i: int| 0 <= i < queue@.len() && fingerprint(queue@[i]@) == id;
                assert(queue@[i].wf());
                lemma_fingerprint_injective(queue@[i]@, equivalents@[e as int]@);
                crate::symmetry::lemma_class_members_are_reorderings(*spec, state@, e as nat);
                let perm = choose|perm: Seq<int>|
                    is_permutation(perm) && keeps_target(spec.target_type, perm) && #[trigger] permuted(
                        state@,
                        perm,
                    ) == crate::symmetry::class_member(*spec, state@, e as nat);
                assert(equivalent(*spec, state@, queue@[i]@));
                vstd::set_lib::lemma_int_range(0, STATE_SPACE as int);
                vstd::set_lib::lemma_len_subset(
                    seen,
                    vstd::set_lib::set_int_range(0, STATE_SPACE as int),
                );
            }
            return Ghost(seen);
        }
        e += 1;
    }
    proof {
        assert(equivalents@[0]@ == state@);
        assert forall|j: int| 0 <= j < queue@.len() implies !#[trigger] equivalent(*spec, state@, queue@[j]@) by {
            if equivalent(*spec, state@, queue@[j]@) {
                let perm = choose|perm: Seq<int>|
                    is_permutation(perm) && keeps_target(spec.target_type, perm) && #[trigger] permuted(
                        state@,
                        perm,
                    ) == queue@[j]@;
                crate::symmetry::lemma_class_complete(*spec, state@, perm);
                let t = choose|t: nat|
                    t < crate::symmetry::class_size(*spec) && #[trigger] crate::symmetry::class_member(
                        *spec,
                        state@,
                        t,
                    ) == permuted(state@, perm);
                assert(equivalents@[t as int]@ == queue@[j]@);
                assert(queue@[j].wf());
                lemma_fingerprint_bound(queue@[j]@);
                assert(bits_of(*vis)[fingerprint(queue@[j]@)]);
                assert(!bits_of(*vis)[fingerprint(equivalents@[t as int]@)]);
            }
        }
    }
    let id = state.to_u32();
    proof {
        lemma_fingerprint_bound(state@);
        assert(!bits_of(*vis)[fingerprint(equivalents@[0]@)]);
    }
    let ghost old_bits = bits_of(*vis);
    let ghost old_queue = queue@;
    bits_set(vis, id, true);
    queue.push(state);
    let ghost new_seen = seen.insert(id as int);
    proof {
        assert(!old_bits[id as int]);
        assert(!seen.contains(id as int));
        vstd::set_lib::lemma_int_range(0, STATE_SPACE as int);
        vstd::set_lib::lemma_len_subset(new_seen, vstd::set_lib::set_int_range(0, STATE_SPACE as int));
        assert forall|k: int| 0 <= k < STATE_SPACE implies (new_seen.contains(k) <==> #[trigger] bits_of(
            *vis,
        )[k]) by {
            if k != id {
                assert(bits_of(*vis)[k] == old_bits[k]);
            }
        }
        assert forall|i: int| 0 <= i < queue@.len() implies bits_of(*vis)[#[trigger] fingerprint(
            queue@[i]@,
        )] by {
            if i < old_queue.len() {
                assert(queue@[i] == old_queue[i]);
                assert(old_queue[i].wf());
                lemma_fingerprint_bound(old_queue[i]@);
                assert(old_bits[fingerprint(old_queue[i]@)]);
            } else {
                assert(queue@[i] == state);
            }
        }
        assert forall|k: int|
            0 <= k < STATE_SPACE && #[trigger] bits_of(*vis)[k] implies exists|i: int|
            0 <= i < queue@.len() && fingerprint(queue@[i]@) == k by {
            if k == id {
                assert(fingerprint(queue@[old_queue.len() as int]@) == k);
            } else {
                assert(old_bits[k]);
                let i = choose|i: int| 0 <= i < old_queue.len() && fingerprint(old_queue[i]@) == k;
                assert(queue@[i] == old_queue[i]);
            }
        }
        assert(queue@ == old_queue.push(state));
        if queue@ == old_queue {
            assert(queue@.len() == old_queue.len() + 1);
        }
    }
    Ghost(new_seen)
}

/// Breadth-first search backwards from the winning placements, one state for each equivalence
/// class: returns the last state it reaches whose robots all stand in open space, or the last
/// state it reaches when none does; nothing when no winning placement exists. The state
/// returned is as far from the winning placements as any state in open space, and as far as
/// any state at all when it is not in open space itself.
#[verifier::rlimit(100)]
pub fn reverse_bfs(spec: &GameSpec) -> (r: Option<GameState>)
    requires
        spec.wf(),
        in_board(spec.goal),
    ensures
        r.is_some() <==> goal_region(*spec).len() >= ROBOT_COUNT - 1,
        r matches Some(s) ==> s.wf() && s@.no_duplicates() && exists|k: nat|
            distance_is(*spec, s@, k),
        r matches Some(s) ==> forall|x: Seq<Point>, k: nat|
            valid_state(x) && in_open_space(*spec, x) && #[trigger] distance_is(*spec, x, k)
                ==> in_open_space(*spec, s@) && forall|j: nat|
                j < k ==> !#[trigger] reaches_in(*spec, s@, j),
        r matches Some(s) ==> (!in_open_space(*spec, s@) ==> forall|x: Seq<Point>, k: nat|
            valid_state(x) && #[trigger] distance_is(*spec, x, k) ==> forall|j: nat|
                j < k ==> !#[trigger] reaches_in(*spec, s@, j)),
{
    let mut vis = bits_for_all_u32();
    let mut queue: Vec<GameState> = Vec::new();
    let ghost mut seen: Set<int> = Set::empty();
    let ghost mut dist: Seq<nat> = Seq::empty();
    let winning = all_winning_states(spec);
    let mut w: usize = 0;
    proof {
        assert(seen_ok(seen, bits_of(vis), 0)) by {
            assert forall|k: int| 0 <= k < STATE_SPACE implies (seen.contains(k) <==> #[trigger] bits_of(vis)[k]) by {}
        }
    }
    while w < winning.len()
        invariant
            spec.wf(),
            queue@.len() <= STATE_SPACE,
            forall|t: int|
                0 <= t < winning@.len() ==> (#[trigger] winning@[t]).wf() && winning@[t]@.no_duplicates()
                    && winning_placement(*spec, winning@[t]@),
            forall|x: Seq<Point>| winning_placement(*spec, x) ==> #[trigger] state_views(winning@).contains(x),
            w <= winning@.len(),
            winning@.len() > 0 <==> goal_region(*spec).len() >= ROBOT_COUNT - 1,
            queue@.len() > 0 <==> w > 0,
            seen_ok(seen, bits_of(vis), queue@.len() as int),
            visited_ok(bits_of(vis), queue@),
            bits_of(vis).len() == STATE_SPACE,
            search_ok(*spec, queue@, dist),
            forall|i: int| 0 <= i < dist.len() ==> #[trigger] dist[i] == 0,
            forall|t: int| 0 <= t < w ==> covered(*spec, queue@, dist, #[trigger] winning@[t]@, 0),
        decreases winning@.len() - w,
    {
        let winning_state = winning[w];
        let ghost old_queue = queue@;
        let ghost old_dist = dist;
        proof {
            let ms = Seq::<int>::empty();
            assert(apply_moves(spec.walls, winning_state@, ms) == winning_state@);
            assert(reaches_in(*spec, winning_state@, 0));
        }
        let Ghost(s2) = enqueue_unseen(spec, winning_state, &mut vis, &mut queue, Ghost(seen));
        proof {
            seen = s2;
            if queue@ == old_queue.push(winning_state) {
                dist = dist.push(0);
                lemma_search_push(*spec, old_queue, old_dist, winning_state, 0);
                crate::symmetry::lemma_equivalent_refl(*spec, winning_state@);
                assert(queue@[old_queue.len() as int] == winning_state);
                assert(equivalent(*spec, winning_state@, queue@[old_queue.len() as int]@));
                assert forall|t: int| 0 <= t < w + 1 implies covered(*spec, queue@, dist, #[trigger] winning@[t]@, 0) by {
                    if t < w {
                        lemma_covered_push(*spec, old_queue, old_dist, winning@[t]@, 0, winning_state, 0);
                    }
                }
            } else {
                assert(queue@ == old_queue);
                let j = choose|j: int| 0 <= j < old_queue.len() && #[trigger] equivalent(*spec, winning_state@, old_queue[j]@);
                assert(covered(*spec, queue@, dist, winning_state@, 0));
            }
        }
        w += 1;
    }
    proof {
        assert forall|x: Seq<Point>| #[trigger] winning_placement(*spec, x) implies covered(*spec, queue@, dist, x, 0) by {
            assert(state_views(winning@).contains(x));
            let t = choose|t: int| 0 <= t < state_views(winning@).len() && state_views(winning@)[t] == x;
            assert(winning@[t]@ == x);
        }
    }
    let mut result_state: Option<GameState> = None;
    let mut last_state: Option<GameState> = None;
    let ghost mut best: int = 0;
    let mut head: usize = 0;
    while head < queue.len()
        invariant
            spec.wf(),
            seen_ok(seen, bits_of(vis), queue@.len() as int),
            visited_ok(bits_of(vis), queue@),
            bits_of(vis).len() == STATE_SPACE,
            head <= queue@.len(),
            queue@.len() <= STATE_SPACE,
            queue@.len() > 0 <==> goal_region(*spec).len() >= ROBOT_COUNT - 1,
            search_ok(*spec, queue@, dist),
            search_layered(dist, head as int),
            seeds_covered(*spec, queue@, dist),
            back_expanded(*spec, queue@, dist, head as int),
            head > 0 ==> last_state == Some(queue@[head - 1]),
            head == 0 ==> last_state.is_none(),
            result_state.is_some() ==> 0 <= best < head && result_state == Some(queue@[best])
                && in_open_space(*spec, queue@[best]@),
            forall|i: int|
                0 <= i < head && in_open_space(*spec, #[trigger] queue@[i]@) ==> result_state.is_some()
                    && i <= best,
        decreases STATE_SPACE - head,
    {
        let visiting_state = queue[head];
        assert(visiting_state.wf());
        if is_acceptable_final_state(spec, &visiting_state) {
            result_state = Some(visiting_state);
            proof {
                best = head as int;
            }
        }
        last_state = Some(visiting_state);
        let ghost q0 = queue@;
        let ghost d0 = dist;
        let (Ghost(s2), Ghost(d2)) = enqueue_predecessors(
            spec,
            &visiting_state,
            Ghost(head as int),
            &mut vis,
            &mut queue,
            Ghost(seen),
            Ghost(dist),
        );
        proof {
            seen = s2;
            dist = d2;
            assert forall|i: int| 0 <= i <= head implies #[trigger] queue@[i] == q0[i] by {
                assert(queue@.subrange(0, q0.len() as int)[i] == q0[i]);
            }
            if result_state.is_some() {
                assert(queue@[best] == q0[best]);
            }
        }
        head += 1;
    }
    proof {
        if queue@.len() > 0 {
            lemma_search_done(*spec, queue@, dist);
        }
    }
    match result_state {
        Some(s) => {
            proof {
                let n = queue@.len() as int;
                assert(distance_is(*spec, s@, dist[best]));
                assert forall|x: Seq<Point>, k: nat|
                    valid_state(x) && in_open_space(*spec, x) && #[trigger] distance_is(*spec, x, k)
                        implies in_open_space(*spec, s@) && forall|j: nat|
                        j < k ==> !#[trigger] reaches_in(*spec, s@, j) by {
                    let j = choose|j: int| 0 <= j < queue@.len() && #[trigger] equivalent(*spec, x, queue@[j]@) && dist[j] == k;
                    lemma_open_equivalent(*spec, x, queue@[j]@);
                    assert(j <= best);
                    assert(dist[j] <= dist[best]);
                }
            }
            Some(s)
        },
        None => {
            proof {
                if queue@.len() > 0 {
                    let n = queue@.len() as int;
                    let s = queue@[n - 1];
                    assert(distance_is(*spec, s@, dist[n - 1]));
                    assert forall|x: Seq<Point>, k: nat|
                        valid_state(x) && #[trigger] distance_is(*spec, x, k) implies forall|j: nat|
                            j < k ==> !#[trigger] reaches_in(*spec, s@, j) by {
                        let j = choose|j: int| 0 <= j < queue@.len() && #[trigger] equivalent(*spec, x, queue@[j]@) && dist[j] == k;
                        assert(dist[j] <= dist[n - 1]);
                    }
                    assert forall|x: Seq<Point>, k: nat|
                        valid_state(x) && in_open_space(*spec, x) && #[trigger] distance_is(*spec, x, k)
                            implies in_open_space(*spec, s@) && forall|j: nat|
                            j < k ==> !#[trigger] reaches_in(*spec, s@, j) by {
                        let j = choose|j: int| 0 <= j < queue@.len() && #[trigger] equivalent(*spec, x, queue@[j]@) && dist[j] == k;
                        lemma_open_equivalent(*spec, x, queue@[j]@);
                    }
                }
            }
            last_state
        },
    }
}

/// Queues the predecessors of the state at `head` that no queued state is equivalent to, one
/// layer further than it.
fn enqueue_predecessors(
    spec: &GameSpec,
    visiting: &GameState,
    Ghost(head): Ghost<int>,
    vis: &mut BitSet,
    queue: &mut Vec<GameState>,
    Ghost(seen): Ghost<Set<int>>,
    Ghost(dist): Ghost<Seq<nat>>,
) -> (r: (Ghost<Set<int>>, Ghost<Seq<nat>>))
    requires
        spec.wf(),
        0 <= head < old(queue)@.len(),
        *visiting == old(queue)@[head],
        seen_ok(seen, bits_of(*old(vis)), old(queue)@.len() as int),
        visited_ok(bits_of(*old(vis)), old(queue)@),
        bits_of(*old(vis)).len() == STATE_SPACE,
        search_ok(*spec, old(queue)@, dist),
        search_layered(dist, head),
        seeds_covered(*spec, old(queue)@, dist),
        back_expanded(*spec, old(queue)@, dist, head),
    ensures
        seen_ok(r.0@, bits_of(*final(vis)), final(queue)@.len() as int),
        visited_ok(bits_of(*final(vis)), final(queue)@),
        bits_of(*final(vis)).len() == STATE_SPACE,
        final(queue)@.len() <= STATE_SPACE,
        final(queue)@.len() >= old(queue)@.len(),
        final(queue)@.subrange(0, old(queue)@.len() as int) == old(queue)@,
        search_ok(*spec, final(queue)@, r.1@),
        search_layered(r.1@, head),
        seeds_covered(*spec, final(queue)@, r.1@),
        back_expanded(*spec, final(queue)@, r.1@, head + 1),
{
    let ghost q0 = queue@;
    let ghost d0 = dist;
    let ghost mut seen = seen;
    let ghost mut dist = dist;
    assert(queue@.subrange(0, q0.len() as int) =~= q0);
    assert(dist.subrange(0, d0.len() as int) =~= d0);
    assert(visiting.wf());
    proof {
        vstd::set_lib::lemma_int_range(0, STATE_SPACE as int);
        vstd::set_lib::lemma_len_subset(seen, vstd::set_lib::set_int_range(0, STATE_SPACE as int));
    }
    let previous = spec.prev_states(visiting);
    proof {
        lemma_predecessors_sound(spec.walls, visiting@, crate::model::MOVE_COUNT as nat);
    }
    let mut k: usize = 0;
    while k < previous.len()
        invariant
            spec.wf(),
            head < queue@.len(),
            0 <= head,
            *visiting == queue@[head],
            state_views(previous@) == predecessors(spec.walls, visiting@),
            forall|x: int|
                0 <= x < predecessors(spec.walls, visiting@).len() ==> leads_to(
                    spec.walls,
                    #[trigger] predecessors(spec.walls, visiting@)[x],
                    visiting@,
                ),
            forall|t: int| 0 <= t < previous@.len() ==> #[trigger] previous@[t].wf(),
            k <= previous@.len(),
            seen_ok(seen, bits_of(*vis), queue@.len() as int),
            visited_ok(bits_of(*vis), queue@),
            bits_of(*vis).len() == STATE_SPACE,
            queue@.len() <= STATE_SPACE,
            search_ok(*spec, queue@, dist),
            search_layered(dist, head),
            seeds_covered(*spec, queue@, dist),
            back_expanded(*spec, queue@, dist, head),
            forall|t: int|
                0 <= t < k ==> covered(*spec, queue@, dist, #[trigger] previous@[t]@, dist[head] + 1),
            queue@.len() >= q0.len(),
            queue@.subrange(0, q0.len() as int) == q0,
            q0.len() > head,
            dist.subrange(0, d0.len() as int) == d0,
            d0.len() == q0.len(),
        decreases previous@.len() - k,
    {
        let next_state = previous[k];
        let ghost old_queue = queue@;
        let ghost old_dist = dist;
        proof {
            assert(state_views(previous@)[k as int] == next_state@);
            assert(leads_to(spec.walls, next_state@, visiting@));
            let m = choose|m: int|
                0 <= m < crate::model::MOVE_COUNT && #[trigger] crate::model::step(
                    spec.walls,
                    next_state@,
                    m,
                ) == visiting@;
            assert(queue@[head].wf());
            lemma_reaches_back(*spec, next_state@, visiting@, m, dist[head]);
        }
        let Ghost(s2) = enqueue_unseen(spec, next_state, vis, queue, Ghost(seen));
        proof {
            seen = s2;
            let d = (dist[head] + 1) as nat;
            if queue@ == old_queue.push(next_state) {
                dist = dist.push(d);
                lemma_search_push(*spec, old_queue, old_dist, next_state, d as nat);
                crate::symmetry::lemma_equivalent_refl(*spec, next_state@);
                let n = old_queue.len() as int;
                assert(queue@[n] == next_state);
                assert(equivalent(*spec, next_state@, queue@[n]@));
                assert(covered(*spec, queue@, dist, next_state@, d));
                assert forall|t: int| 0 <= t < k implies covered(*spec, queue@, dist, #[trigger] previous@[t]@, d) by {
                    lemma_covered_push(*spec, old_queue, old_dist, previous@[t]@, d, next_state, d as nat);
                }
                assert forall|x: Seq<Point>| #[trigger] winning_placement(*spec, x) implies covered(*spec, queue@, dist, x, 0) by {
                    lemma_covered_push(*spec, old_queue, old_dist, x, 0, next_state, d as nat);
                }
                assert forall|i: int, x: Seq<Point>|
                    0 <= i < head && #[trigger] predecessors(spec.walls, queue@[i]@).contains(x) implies covered(
                    *spec,
                    queue@,
                    dist,
                    x,
                    dist[i] + 1,
                ) by {
                    assert(queue@[i] == old_queue[i] && dist[i] == old_dist[i]);
                    assert(predecessors(spec.walls, old_queue[i]@).contains(x));
                    lemma_covered_push(*spec, old_queue, old_dist, x, old_dist[i] + 1, next_state, d as nat);
                }
                assert forall|i: int, j: int| 0 <= i <= j < dist.len() implies #[trigger] dist[i] <= #[trigger] dist[j] by {
                    if j == n && i < n {
                        assert(old_dist[i] <= old_dist[n - 1]);
                    }
                }
                assert(queue@[head] == old_queue[head]);
                assert(queue@.subrange(0, q0.len() as int) =~= q0) by {
                    assert forall|i: int| 0 <= i < q0.len() implies queue@[i] == q0[i] by {
                        assert(queue@[i] == old_queue[i]);
                        assert(old_queue.subrange(0, q0.len() as int)[i] == q0[i]);
                    }
                }
                assert(dist.subrange(0, d0.len() as int) =~= d0) by {
                    assert forall|i: int| 0 <= i < d0.len() implies dist[i] == d0[i] by {
                        assert(dist[i] == old_dist[i]);
                        assert(old_dist.subrange(0, d0.len() as int)[i] == d0[i]);
                    }
                }
            } else {
                assert(queue@ == old_queue);
                let j = choose|j: int| 0 <= j < old_queue.len() && #[trigger] equivalent(*spec, next_state@, old_queue[j]@);
                assert(dist[j] <= dist[dist.len() - 1]);
                assert(covered(*spec, queue@, dist, next_state@, d));
            }
        }
        k += 1;
    }
    proof {
        assert forall|i: int, x: Seq<Point>|
            0 <= i < head + 1 && #[trigger] predecessors(spec.walls, queue@[i]@).contains(x) implies covered(
            *spec,
            queue@,
            dist,
            x,
            dist[i] + 1,
        ) by {
            if i == head {
                let t = choose|t: int| 0 <= t < state_views(previous@).len() && state_views(previous@)[t] == x;
                assert(previous@[t]@ == x);
            }
        }
    }
    proof {
        assert forall|i: int, x: Seq<Point>|
            0 <= i < head + 1 && #[trigger] predecessors(spec.walls, queue@[i]@).contains(x) implies covered(
            *spec,
            queue@,
            dist,
            x,
            (dist[i] + 1) as nat,
        ) by {
            if i == head {
                assert(queue@[head] == q0[head]);
                let t = choose|t: int| 0 <= t < state_views(previous@).len() && state_views(previous@)[t] == x;
                assert(previous@[t]@ == x);
            }
        }
        if queue@.len() > STATE_SPACE {
            vstd::set_lib::lemma_int_range(0, STATE_SPACE as int);
            vstd::set_lib::lemma_len_subset(seen, vstd::set_lib::set_int_range(0, STATE_SPACE as int));
        }
    }
    (Ghost(seen), Ghost(dist))
}

/// Appending a state not equivalent to any queued one, at a distance it can reach, keeps the
/// queue valid.
proof fn lemma_search_push(spec: GameSpec, queue: Seq<GameState>, dist: Seq<nat>, x: GameState, d: nat)
    requires
        spec.wf(),
        search_ok(spec, queue, dist),
        x.wf(),
        x@.no_duplicates(),
        reaches_in(spec, x@, d),
        forall|j: int| 0 <= j < queue.len() ==> !#[trigger] equivalent(spec, x@, queue[j]@),
    ensures
        search_ok(spec, queue.push(x), dist.push(d)),
{
    let q2 = queue.push(x);
    let d2 = dist.push(d);
    assert forall|i: int| 0 <= i < q2.len() implies (#[trigger] q2[i]).wf() && q2[i]@.no_duplicates() && reaches_in(
        spec,
        q2[i]@,
        d2[i],
    ) by {
        if i < queue.len() {
            assert(q2[i] == queue[i] && d2[i] == dist[i]);
        }
    }
    assert forall|i: int, j: int| 0 <= i < q2.len() && 0 <= j < q2.len() && i != j implies !equivalent(
        spec,
        #[trigger] q2[i]@,
        #[trigger] q2[j]@,
    ) by {
        if i < queue.len() && j < queue.len() {
            assert(q2[i] == queue[i] && q2[j] == queue[j]);
        } else if i == queue.len() {
            assert(q2[j] == queue[j]);
        } else {
            assert(q2[i] == queue[i]);
            assert(q2[j] == x);
            if equivalent(spec, queue[i]@, x@) {
                crate::symmetry::lemma_equivalent_symm(spec, queue[i]@, x@);
            }
        }
    }
}

} // verus!
