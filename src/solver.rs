use vstd::prelude::*;

use bitvec::order::Msb0;
use bitvec::vec::BitVec;

use crate::model::{
    fingerprint, game_move, lemma_fingerprint_bound, lemma_fingerprint_injective, step, GameMove, GameSpec, GameState,
    Point, WallBoard, MOVE_COUNT, ROBOT_COUNT,
};

verus! {

/// A mark for every `u32` key, held in a bit vector of the bitvec crate.
#[verifier::external_body]
pub struct BitSet {
    bits: BitVec<u64, Msb0>,
}

/// The bits held by a bit vector, in index order.
pub uninterp spec fn bits_of(v: BitSet) -> Seq<bool>;

/// Relies on `BitVec::repeat`: one clear bit for every `u32` value.
#[verifier::external_body]
pub(crate) fn bits_for_all_u32() -> (v: BitSet)
    ensures
        bits_of(v).len() == STATE_SPACE,
        forall|i: int| 0 <= i < STATE_SPACE ==> !#[trigger] bits_of(v)[i],
{
    BitSet { bits: BitVec::repeat(false, 1usize << 32) }
}

/// Relies on `BitSlice`'s `Index<usize>`: the bit at `i`.
#[verifier::external_body]
pub(crate) fn bits_get(v: &BitSet, i: u32) -> (b: bool)
    requires
        i < bits_of(*v).len(),
    ensures
        b == bits_of(*v)[i as int],
{
    v.bits[i as usize]
}

/// Relies on `BitSlice::set`: writes one bit and leaves the others.
#[verifier::external_body]
pub(crate) fn bits_set(v: &mut BitSet, i: u32, b: bool)
    requires
        i < bits_of(*old(v)).len(),
    ensures
        bits_of(*final(v)) == bits_of(*old(v)).update(i as int, b),
{
    v.bits.set(i as usize, b)
}

/// Number of fingerprints, the size of the visited set.
pub const STATE_SPACE: u64 = 0x1_0000_0000;

/// The number of a move: robot times four plus direction.
pub open spec fn move_number(m: GameMove) -> int {
    m.robot_index * 4 + m.direction.ordinal()
}

pub open spec fn move_numbers(ms: Seq<GameMove>) -> Seq<int> {
    ms.map_values(|m: GameMove| move_number(m))
}

pub open spec fn valid_moves(ms: Seq<int>) -> bool {
    forall|t: int| 0 <= t < ms.len() ==> 0 <= #[trigger] ms[t] < MOVE_COUNT
}

/// The positions after playing the moves `ms` in order from `s`.
pub open spec fn apply_moves(walls: WallBoard, s: Seq<Point>, ms: Seq<int>) -> Seq<Point>
    decreases ms.len(),
{
    if ms.len() == 0 {
        s
    } else {
        step(walls, apply_moves(walls, s, ms.drop_last()), ms.last())
    }
}

/// Some `k` moves from `s` reach a winning state.
pub open spec fn solvable_in(spec: GameSpec, s: Seq<Point>, k: nat) -> bool {
    exists|ms: Seq<int>|
        ms.len() == k && valid_moves(ms) && #[trigger] spec.winning(apply_moves(spec.walls, s, ms))
}

pub proof fn lemma_apply_concat(walls: WallBoard, s: Seq<Point>, a: Seq<int>, b: Seq<int>)
    ensures
        apply_moves(walls, s, a + b) == apply_moves(walls, apply_moves(walls, s, a), b),
    decreases b.len(),
{
    if b.len() == 0 {
        assert(a + b =~= a);
    } else {
        lemma_apply_concat(walls, s, a, b.drop_last());
        assert((a + b).drop_last() =~= a + b.drop_last());
    }
}

/// The tree that the search builds: node 0 is the start, every other node is one move from its
/// parent, and `dist` counts the moves from the start.
spec fn tree_ok(
    walls: WallBoard,
    init: Seq<Point>,
    nodes: Seq<GameState>,
    parents: Seq<usize>,
    moves: Seq<usize>,
    dist: Seq<nat>,
) -> bool {
    &&& nodes.len() > 0
    &&& parents.len() == nodes.len()
    &&& moves.len() == nodes.len()
    &&& dist.len() == nodes.len()
    &&& nodes[0]@ == init
    &&& dist[0] == 0
    &&& forall|i: int| 0 <= i < nodes.len() ==> #[trigger] nodes[i].wf()
    &&& forall|i: int| 0 < i < nodes.len() ==> #[trigger] edge_ok(walls, nodes, parents, moves, dist, i)
}

/// Node `i` is one move from its parent, one layer further.
spec fn edge_ok(
    walls: WallBoard,
    nodes: Seq<GameState>,
    parents: Seq<usize>,
    moves: Seq<usize>,
    dist: Seq<nat>,
    i: int,
) -> bool {
    &&& parents[i] < i
    &&& moves[i] < MOVE_COUNT
    &&& nodes[i]@ == step(walls, nodes[parents[i] as int]@, moves[i] as int)
    &&& dist[i] == dist[parents[i] as int] + 1
}

/// Distances never decrease along the queue, and the nodes not yet expanded lie in at most two
/// layers.
spec fn layered(dist: Seq<nat>, head: int) -> bool {
    &&& 0 <= head <= dist.len()
    &&& forall|i: int, j: int| 0 <= i <= j < dist.len() ==> dist[i] <= dist[j]
    &&& head < dist.len() ==> dist[dist.len() - 1] <= dist[head] + 1
}

/// The successor of node `i` by move `m` is a node, at most one layer further.
spec fn successor_known(
    walls: WallBoard,
    nodes: Seq<GameState>,
    dist: Seq<nat>,
    i: int,
    m: int,
) -> bool {
    exists|j: int|
        0 <= j < nodes.len() && nodes[j]@ == step(walls, nodes[i]@, m) && dist[j] <= dist[i] + 1
}

/// Each successor of a node below `upto` is a node, at most one layer further.
spec fn expanded(walls: WallBoard, nodes: Seq<GameState>, dist: Seq<nat>, upto: int) -> bool {
    forall|i: int, m: int|
        0 <= i < upto && 0 <= m < MOVE_COUNT ==> #[trigger] successor_known(
            walls,
            nodes,
            dist,
            i,
            m,
        )
}

/// The visited bits are exactly the fingerprints of the nodes.
pub(crate) open spec fn visited_ok(bits: Seq<bool>, nodes: Seq<GameState>) -> bool {
    &&& bits.len() == STATE_SPACE
    &&& forall|i: int| 0 <= i < nodes.len() ==> bits[#[trigger] fingerprint(nodes[i]@)]
    &&& forall|k: int|
        0 <= k < STATE_SPACE && #[trigger] bits[k] ==> exists|i: int|
            0 <= i < nodes.len() && fingerprint(nodes[i]@) == k
}

/// Every state reached by at most `dist[head]` moves (by any number once all nodes are
/// expanded) is a node, no further from the start than those moves.
proof fn lemma_reached_is_node(
    walls: WallBoard,
    init: Seq<Point>,
    nodes: Seq<GameState>,
    parents: Seq<usize>,
    moves: Seq<usize>,
    dist: Seq<nat>,
    head: int,
    ms: Seq<int>,
)
    requires
        tree_ok(walls, init, nodes, parents, moves, dist),
        layered(dist, head),
        expanded(walls, nodes, dist, head),
        valid_moves(ms),
        head == nodes.len() || ms.len() <= dist[head],
    ensures
        exists|j: int|
            0 <= j < nodes.len() && nodes[j]@ == apply_moves(walls, init, ms) && dist[j] <= ms.len(),
    decreases ms.len(),
{
    if ms.len() == 0 {
        assert(nodes[0]@ == apply_moves(walls, init, ms));
    } else {
        let prefix = ms.drop_last();
        assert(valid_moves(prefix)) by {
            assert forall|t: int| 0 <= t < prefix.len() implies 0 <= #[trigger] prefix[t]
                < MOVE_COUNT by {
                assert(prefix[t] == ms[t]);
            }
        }
        lemma_reached_is_node(walls, init, nodes, parents, moves, dist, head, prefix);
        let j0 = choose|j: int|
            0 <= j < nodes.len() && nodes[j]@ == apply_moves(walls, init, prefix) && dist[j]
                <= prefix.len();
        if j0 >= head {
            assert(dist[head] <= dist[j0]);
        }
        let m = ms.last();
        assert(0 <= m < MOVE_COUNT) by {
            assert(ms[ms.len() - 1] == m);
        }
        assert(step(walls, nodes[j0]@, m) == apply_moves(walls, init, ms));
        assert(successor_known(walls, nodes, dist, j0, m));
        let j = choose|j: int|
            0 <= j < nodes.len() && nodes[j]@ == step(walls, nodes[j0]@, m) && dist[j] <= dist[j0]
                + 1;
        assert(nodes[j]@ == apply_moves(walls, init, ms));
    }
}

/// No state reached by at most `bound` moves is winning, when no node is.
proof fn lemma_none_solvable(
    spec: GameSpec,
    init: Seq<Point>,
    nodes: Seq<GameState>,
    parents: Seq<usize>,
    moves: Seq<usize>,
    dist: Seq<nat>,
    head: int,
    k: nat,
)
    requires
        tree_ok(spec.walls, init, nodes, parents, moves, dist),
        layered(dist, head),
        expanded(spec.walls, nodes, dist, head),
        forall|i: int| 0 <= i < nodes.len() ==> !spec.winning(#[trigger] nodes[i]@),
        head == nodes.len() || k <= dist[head],
    ensures
        !solvable_in(spec, init, k),
{
    if solvable_in(spec, init, k) {
        let ms = choose|ms: Seq<int>|
            ms.len() == k && valid_moves(ms) && #[trigger] spec.winning(
                apply_moves(spec.walls, init, ms),
            );
        lemma_reached_is_node(spec.walls, init, nodes, parents, moves, dist, head, ms);
        let j = choose|j: int|
            0 <= j < nodes.len() && nodes[j]@ == apply_moves(spec.walls, init, ms) && dist[j]
                <= ms.len();
        assert(!spec.winning(nodes[j]@));
    }
}

proof fn lemma_expanded_push(
    walls: WallBoard,
    nodes: Seq<GameState>,
    dist: Seq<nat>,
    upto: int,
    x: GameState,
    dx: nat,
)
    requires
        expanded(walls, nodes, dist, upto),
        upto <= nodes.len(),
        dist.len() == nodes.len(),
    ensures
        expanded(walls, nodes.push(x), dist.push(dx), upto),
        forall|i: int, m: int|
            0 <= i < nodes.len() && #[trigger] successor_known(walls, nodes, dist, i, m)
                ==> successor_known(walls, nodes.push(x), dist.push(dx), i, m),
{
    let nodes2 = nodes.push(x);
    let dist2 = dist.push(dx);
    assert forall|i: int, m: int|
        0 <= i < nodes.len() && #[trigger] successor_known(walls, nodes, dist, i, m)
            implies successor_known(walls, nodes2, dist2, i, m) by {
        let j = choose|j: int|
            0 <= j < nodes.len() && nodes[j]@ == step(walls, nodes[i]@, m) && dist[j] <= dist[i]
                + 1;
        assert(nodes2[j] == nodes[j] && dist2[j] == dist[j]);
        assert(nodes2[i] == nodes[i] && dist2[i] == dist[i]);
    }
    assert forall|i: int, m: int| 0 <= i < upto && 0 <= m < MOVE_COUNT implies #[trigger] successor_known(
        walls,
        nodes2,
        dist2,
        i,
        m,
    ) by {
        assert(successor_known(walls, nodes, dist, i, m));
    }
}

proof fn lemma_tree_push(
    walls: WallBoard,
    init: Seq<Point>,
    nodes: Seq<GameState>,
    parents: Seq<usize>,
    moves: Seq<usize>,
    dist: Seq<nat>,
    x: GameState,
    parent: usize,
    m: usize,
)
    requires
        tree_ok(walls, init, nodes, parents, moves, dist),
        parent < nodes.len(),
        m < MOVE_COUNT,
        x@ == step(walls, nodes[parent as int]@, m as int),
        x.wf(),
    ensures
        tree_ok(
            walls,
            init,
            nodes.push(x),
            parents.push(parent),
            moves.push(m),
            dist.push(dist[parent as int] + 1),
        ),
{
    let nodes2 = nodes.push(x);
    let parents2 = parents.push(parent);
    let moves2 = moves.push(m);
    let dist2 = dist.push(dist[parent as int] + 1);
    assert forall|i: int| 0 <= i < nodes2.len() implies #[trigger] nodes2[i].wf() by {
        if i < nodes.len() {
            assert(nodes2[i] == nodes[i]);
        }
    }
    assert forall|i: int| 0 < i < nodes2.len() implies #[trigger] edge_ok(
        walls,
        nodes2,
        parents2,
        moves2,
        dist2,
        i,
    ) by {
        if i < nodes.len() {
            assert(edge_ok(walls, nodes, parents, moves, dist, i));
            assert(parents2[i] == parents[i] && moves2[i] == moves[i] && nodes2[i] == nodes[i]
                && dist2[i] == dist[i]);
            assert(nodes2[parents[i] as int] == nodes[parents[i] as int]);
            assert(dist2[parents[i] as int] == dist[parents[i] as int]);
        } else {
            assert(nodes2[parent as int] == nodes[parent as int]);
            assert(dist2[parent as int] == dist[parent as int]);
        }
    }
    assert(nodes2[0] == nodes[0] && dist2[0] == dist[0]);
}

/// `n` is the number of moves of a shortest solution from `s`; zero when `s` is winning or no
/// solution exists.
pub open spec fn solution_length(spec: GameSpec, s: Seq<Point>, n: nat) -> bool {
    &&& forall|k: nat| k < n ==> !#[trigger] solvable_in(spec, s, k)
    &&& n > 0 ==> solvable_in(spec, s, n)
    &&& n == 0 ==> spec.winning(s) || forall|k: nat| !#[trigger] solvable_in(spec, s, k)
}

/// Shortest solution by breadth-first search over the states reachable from `initial_state`.
///
/// The moves returned reach a winning state, and no shorter sequence of moves does. The result
/// is empty when the start is already winning, or when no winning state can be reached.
pub fn solve_bfs(spec: &GameSpec, initial_state: &GameState) -> (r: Vec<GameMove>)
    requires
        spec.wf(),
        initial_state.wf(),
    ensures
        valid_moves(move_numbers(r@)),
        forall|t: int| 0 <= t < r@.len() ==> (#[trigger] r@[t]).robot_index < ROBOT_COUNT,
        r@.len() > 0 ==> spec.winning(
            apply_moves(spec.walls, initial_state@, move_numbers(r@)),
        ),
        forall|k: nat| k < r@.len() ==> !#[trigger] solvable_in(*spec, initial_state@, k),
        r@.len() == 0 ==> spec.winning(initial_state@) || forall|k: nat|
            !#[trigger] solvable_in(*spec, initial_state@, k),
        solution_length(*spec, initial_state@, r@.len()),
{
    let ghost walls = spec.walls;
    let ghost init = initial_state@;
    if spec.is_winning_state(initial_state) {
        return Vec::new();
    }
    let mut vis = bits_for_all_u32();
    let mut nodes: Vec<GameState> = Vec::new();
    let mut parents: Vec<usize> = Vec::new();
    let mut moves: Vec<usize> = Vec::new();
    let ghost mut dist: Seq<nat> = seq![0nat];
    nodes.push(*initial_state);
    parents.push(0);
    moves.push(0);
    let id = initial_state.to_u32();
    bits_set(&mut vis, id, true);
    let ghost mut seen: Set<int> = set![id as int];
    proof {
        assert forall|k: int| 0 <= k < STATE_SPACE implies (seen.contains(k) <==> #[trigger] bits_of(
            vis,
        )[k]) by {
            if k != id {
                assert(!bits_of(vis)[k]);
            }
        }
        assert forall|k: int| 0 <= k < STATE_SPACE && #[trigger] bits_of(vis)[k] implies exists|
            i: int,
        | 0 <= i < nodes@.len() && fingerprint(nodes@[i]@) == k by {
            assert(fingerprint(nodes@[0]@) == k);
        }
    }
    let mut head: usize = 0;
    let mut found: Option<usize> = None;
    while head < nodes.len() && found.is_none()
        invariant
            spec.wf(),
            walls == spec.walls,
            init == initial_state@,
            !spec.winning(init),
            tree_ok(walls, init, nodes@, parents@, moves@, dist),
            layered(dist, head as int),
            found.is_none() ==> expanded(walls, nodes@, dist, head as int),
            visited_ok(bits_of(vis), nodes@),
            seen_ok(seen, bits_of(vis), nodes@.len() as int),
            nodes@.len() <= STATE_SPACE,
            found.is_none() ==> forall|i: int|
                0 <= i < nodes@.len() ==> !spec.winning(#[trigger] nodes@[i]@),
            found matches Some(f) ==> {
                &&& f < nodes@.len()
                &&& spec.winning(nodes@[f as int]@)
                &&& forall|k: nat| k < dist[f as int] ==> !#[trigger] solvable_in(*spec, init, k)
            },
        decreases STATE_SPACE - head as int,
    {
        let current_state = nodes[head];
        assert(current_state.wf());
        let next_states = spec.next_states(&current_state);
        let mut m: usize = 0;
        while m < MOVE_COUNT
            invariant_except_break
                found.is_none(),
            invariant
                spec.wf(),
                walls == spec.walls,
                init == initial_state@,
                !spec.winning(init),
                head < nodes@.len(),
                current_state == nodes@[head as int],
                forall|t: int|
                    0 <= t < MOVE_COUNT ==> #[trigger] next_states[t]@ == step(
                        walls,
                        current_state@,
                        t,
                    ),
                forall|t: int| 0 <= t < MOVE_COUNT ==> #[trigger] next_states[t].wf(),
                tree_ok(walls, init, nodes@, parents@, moves@, dist),
                layered(dist, head as int),
                expanded(walls, nodes@, dist, head as int),
                forall|t: int|
                    0 <= t < m ==> #[trigger] successor_known(walls, nodes@, dist, head as int, t),
                visited_ok(bits_of(vis), nodes@),
                seen_ok(seen, bits_of(vis), nodes@.len() as int),
                nodes@.len() <= STATE_SPACE,
                m <= MOVE_COUNT,
                found.is_none() ==> forall|i: int|
                    0 <= i < nodes@.len() ==> !spec.winning(#[trigger] nodes@[i]@),
                found matches Some(f) ==> {
                    &&& f < nodes@.len()
                    &&& spec.winning(nodes@[f as int]@)
                    &&& forall|k: nat|
                        k < dist[f as int] ==> !#[trigger] solvable_in(*spec, init, k)
                },
            ensures
                found.is_none() ==> m == MOVE_COUNT,
            decreases MOVE_COUNT - m,
        {
            let next_state = next_states[m];
            assert(next_state.wf());
            let next_id = next_state.to_u32();
            if bits_get(&vis, next_id) {
                proof {
                    let i = choose|i: int|
                        0 <= i < nodes@.len() && fingerprint(nodes@[i]@) == next_id;
                    assert(nodes@[i].wf());
                    lemma_fingerprint_injective(nodes@[i]@, next_state@);
                    assert(dist[i] <= dist[nodes@.len() - 1]);
                    assert(nodes@[i]@ == step(walls, nodes@[head as int]@, m as int));
                    assert(successor_known(walls, nodes@, dist, head as int, m as int));
                }
            } else {
                let ghost old_nodes = nodes@;
                let ghost old_dist = dist;
                let ghost old_bits = bits_of(vis);
                let ghost old_parents = parents@;
                let ghost old_moves = moves@;
                assert(forall|i: int|
                    0 <= i < old_nodes.len() ==> !spec.winning(#[trigger] old_nodes[i]@));
                proof {
                    lemma_expanded_push(walls, nodes@, dist, head as int, next_state, dist[head as int] + 1);
                }
                nodes.push(next_state);
                parents.push(head);
                moves.push(m);
                proof {
                    dist = dist.push(dist[head as int] + 1);
                }
                bits_set(&mut vis, next_id, true);
                proof {
                    let n = nodes@.len() - 1;
                    assert(nodes@[n]@ == step(walls, nodes@[head as int]@, m as int));
                    assert forall|t: int| 0 <= t <= m implies #[trigger] successor_known(
                        walls,
                        nodes@,
                        dist,
                        head as int,
                        t,
                    ) by {
                        if t < m {
                            assert(successor_known(walls, old_nodes, old_dist, head as int, t));
                        } else {
                            assert(nodes@[head as int] == old_nodes[head as int]);
                            assert(nodes@[n]@ == step(walls, nodes@[head as int]@, t));
                        }
                    }
                    assert forall|i: int|
                        0 <= i < nodes@.len() implies bits_of(vis)[#[trigger] fingerprint(
                            nodes@[i]@,
                        )] by {
                        assert(nodes@[i].wf());
                        lemma_fingerprint_bound(nodes@[i]@);
                        if i < n {
                            assert(nodes@[i] == old_nodes[i]);
                            assert(old_bits[fingerprint(old_nodes[i]@)]);
                        } else {
                            assert(nodes@[i] == next_state);
                        }
                    }
                    assert forall|k: int|
                        0 <= k < STATE_SPACE && #[trigger] bits_of(vis)[k] implies exists|i: int|
                        0 <= i < nodes@.len() && fingerprint(nodes@[i]@) == k by {
                        if k == next_id {
                            assert(fingerprint(nodes@[n]@) == k);
                        } else {
                            assert(old_bits[k]);
                            let i = choose|i: int|
                                0 <= i < old_nodes.len() && fingerprint(old_nodes[i]@) == k;
                            assert(nodes@[i] == old_nodes[i]);
                        }
                    }
                    assert(!old_bits[next_id as int]);
                    assert(!seen.contains(next_id as int));
                    seen = seen.insert(next_id as int);
                    vstd::set_lib::lemma_int_range(0, STATE_SPACE as int);
                    vstd::set_lib::lemma_len_subset(
                        seen,
                        vstd::set_lib::set_int_range(0, STATE_SPACE as int),
                    );
                    lemma_tree_push(
                        walls,
                        init,
                        old_nodes,
                        old_parents,
                        old_moves,
                        old_dist,
                        next_state,
                        head,
                        m,
                    );
                    assert(nodes@ == old_nodes.push(next_state));
                    assert(parents@ == old_parents.push(head));
                    assert(moves@ == old_moves.push(m));
                    assert forall|i: int, j: int| 0 <= i <= j < dist.len() implies dist[i] <= dist[j] by {
                        if j == n && i < n {
                            assert(old_dist[i] <= old_dist[n - 1]);
                        }
                    }
                    assert(tree_ok(walls, init, nodes@, parents@, moves@, dist));
                    assert(layered(dist, head as int));
                    assert(visited_ok(bits_of(vis), nodes@));
                    assert(seen_ok(seen, bits_of(vis), nodes@.len() as int));
                }
                if spec.is_winning_state(&next_state) {
                    proof {
                        assert forall|k: nat| k < dist[nodes@.len() - 1] implies !#[trigger] solvable_in(
                            *spec,
                            init,
                            k,
                        ) by {
                            lemma_none_solvable(
                                *spec,
                                init,
                                old_nodes,
                                old_parents,
                                old_moves,
                                old_dist,
                                head as int,
                                k,
                            );
                        }
                    }
                    found = Some(nodes.len() - 1);
                    break;
                }
            }
            m += 1;
        }
        proof {
            if found.is_none() {
                assert forall|i: int, t: int|
                    0 <= i < head + 1 && 0 <= t < MOVE_COUNT implies #[trigger] successor_known(
                    walls,
                    nodes@,
                    dist,
                    i,
                    t,
                ) by {
                    if i < head {
                        assert(expanded(walls, nodes@, dist, head as int));
                    }
                }
            }
        }
        head += 1;
    }
    match found {
        None => {
            proof {
                assert forall|k: nat| !#[trigger] solvable_in(*spec, init, k) by {
                    lemma_none_solvable(*spec, init, nodes@, parents@, moves@, dist, head as int, k);
                }
            }
            Vec::new()
        },
        Some(f) => {
            let r = path_to(Ghost(walls), Ghost(init), &nodes, &parents, &moves, Ghost(dist), f);
            assert(solvable_in(*spec, init, r@.len()));
            r
        },
    }
}

/// Shortest solution by breadth-first search, with the visited states and the way back to
/// each kept in one map from fingerprint to the move and the previous fingerprint.
///
/// The moves returned reach a winning state, and no shorter sequence of moves does. The result
/// is empty when the start is already winning, or when no winning state can be reached.
pub fn solve(spec: &GameSpec, initial_state: &GameState) -> (r: Vec<GameMove>)
    requires
        spec.wf(),
        initial_state.wf(),
    ensures
        valid_moves(move_numbers(r@)),
        forall|t: int| 0 <= t < r@.len() ==> (#[trigger] r@[t]).robot_index < ROBOT_COUNT,
        r@.len() > 0 ==> spec.winning(
            apply_moves(spec.walls, initial_state@, move_numbers(r@)),
        ),
        forall|k: nat| k < r@.len() ==> !#[trigger] solvable_in(*spec, initial_state@, k),
        r@.len() == 0 ==> spec.winning(initial_state@) || forall|k: nat|
            !#[trigger] solvable_in(*spec, initial_state@, k),
        solution_length(*spec, initial_state@, r@.len()),
{
    let ghost walls = spec.walls;
    let ghost init = initial_state@;
    if spec.is_winning_state(initial_state) {
        return Vec::new();
    }
    let mut edges = edges_new();
    let ghost empty_edges = edges_of(edges);
    let mut nodes: Vec<GameState> = Vec::new();
    let ghost mut parents: Seq<usize> = seq![0usize];
    let ghost mut moves: Seq<usize> = seq![0usize];
    let ghost mut dist: Seq<nat> = seq![0nat];
    nodes.push(*initial_state);
    let id = initial_state.to_u32();
    edges_insert(&mut edges, id, (0u8, id));
    proof {
        lemma_marks_insert(empty_edges, id, (0u8, id));
        assert(marks(empty_edges) =~= Seq::new(STATE_SPACE as nat, |k: int| false));
    }
    let ghost mut seen: Set<int> = set![id as int];
    assert(edges_ok(edges_of(edges), nodes@, parents, moves));
    assert(distinct_fingerprints(nodes@));
    proof {
        assert forall|k: int| 0 <= k < STATE_SPACE implies (seen.contains(k) <==> #[trigger] marks(edges_of(edges))[k]) by {
            if k != id {
                assert(!marks(edges_of(edges))[k]);
            }
        }
        assert forall|k: int| 0 <= k < STATE_SPACE && #[trigger] marks(edges_of(edges))[k] implies exists|
            i: int,
        | 0 <= i < nodes@.len() && fingerprint(nodes@[i]@) == k by {
            assert(fingerprint(nodes@[0]@) == k);
        }
    }
    let mut head: usize = 0;
    let mut found: Option<usize> = None;
    while head < nodes.len() && found.is_none()
        invariant
            spec.wf(),
            walls == spec.walls,
            init == initial_state@,
            !spec.winning(init),
            tree_ok(walls, init, nodes@, parents, moves, dist),
            layered(dist, head as int),
            found.is_none() ==> expanded(walls, nodes@, dist, head as int),
            visited_ok(marks(edges_of(edges)), nodes@),
            edges_ok(edges_of(edges), nodes@, parents, moves),
            distinct_fingerprints(nodes@),
            seen_ok(seen, marks(edges_of(edges)), nodes@.len() as int),
            nodes@.len() <= STATE_SPACE,
            found.is_none() ==> forall|i: int|
                0 <= i < nodes@.len() ==> !spec.winning(#[trigger] nodes@[i]@),
            found matches Some(f) ==> {
                &&& f < nodes@.len()
                &&& spec.winning(nodes@[f as int]@)
                &&& forall|k: nat| k < dist[f as int] ==> !#[trigger] solvable_in(*spec, init, k)
            },
        decreases STATE_SPACE - head as int,
    {
        let current_state = nodes[head];
        assert(current_state.wf());
        let current_id = current_state.to_u32();
        let next_states = spec.next_states(&current_state);
        let mut m: usize = 0;
        while m < MOVE_COUNT
            invariant_except_break
                found.is_none(),
            invariant
                spec.wf(),
                walls == spec.walls,
                init == initial_state@,
                !spec.winning(init),
                head < nodes@.len(),
                current_state == nodes@[head as int],
                forall|t: int|
                    0 <= t < MOVE_COUNT ==> #[trigger] next_states[t]@ == step(
                        walls,
                        current_state@,
                        t,
                    ),
                forall|t: int| 0 <= t < MOVE_COUNT ==> #[trigger] next_states[t].wf(),
                tree_ok(walls, init, nodes@, parents, moves, dist),
                layered(dist, head as int),
                expanded(walls, nodes@, dist, head as int),
                forall|t: int|
                    0 <= t < m ==> #[trigger] successor_known(walls, nodes@, dist, head as int, t),
                visited_ok(marks(edges_of(edges)), nodes@),
                edges_ok(edges_of(edges), nodes@, parents, moves),
                distinct_fingerprints(nodes@),
            distinct_fingerprints(nodes@),
                current_id == fingerprint(current_state@),
                seen_ok(seen, marks(edges_of(edges)), nodes@.len() as int),
                nodes@.len() <= STATE_SPACE,
                m <= MOVE_COUNT,
                found.is_none() ==> forall|i: int|
                    0 <= i < nodes@.len() ==> !spec.winning(#[trigger] nodes@[i]@),
                found matches Some(f) ==> {
                    &&& f < nodes@.len()
                    &&& spec.winning(nodes@[f as int]@)
                    &&& forall|k: nat|
                        k < dist[f as int] ==> !#[trigger] solvable_in(*spec, init, k)
                },
            ensures
                found.is_none() ==> m == MOVE_COUNT,
            decreases MOVE_COUNT - m,
        {
            let next_state = next_states[m];
            assert(next_state.wf());
            let next_id = next_state.to_u32();
            if edges_contains(&edges, next_id) {
                proof {
                    assert(marks(edges_of(edges))[next_id as int]);
                    let i = choose|i: int|
                        0 <= i < nodes@.len() && fingerprint(nodes@[i]@) == next_id;
                    assert(nodes@[i].wf());
                    lemma_fingerprint_injective(nodes@[i]@, next_state@);
                    assert(dist[i] <= dist[nodes@.len() - 1]);
                    assert(nodes@[i]@ == step(walls, nodes@[head as int]@, m as int));
                    assert(successor_known(walls, nodes@, dist, head as int, m as int));
                }
            } else {
                let ghost old_nodes = nodes@;
                let ghost old_dist = dist;
                let ghost old_bits = marks(edges_of(edges));
                let ghost old_edges = edges_of(edges);
                let ghost old_parents = parents;
                let ghost old_moves = moves;
                assert(forall|i: int|
                    0 <= i < old_nodes.len() ==> !spec.winning(#[trigger] old_nodes[i]@));
                proof {
                    lemma_expanded_push(walls, nodes@, dist, head as int, next_state, dist[head as int] + 1);
                }
                nodes.push(next_state);
                proof {
                    parents = parents.push(head);
                    moves = moves.push(m);
                    dist = dist.push(dist[head as int] + 1);
                }
                edges_insert(&mut edges, next_id, (m as u8, current_id));
                proof {
                    lemma_marks_insert(old_edges, next_id, (m as u8, current_id));
                }
                proof {
                    let n = nodes@.len() - 1;
                    assert(nodes@[n]@ == step(walls, nodes@[head as int]@, m as int));
                    assert forall|t: int| 0 <= t <= m implies #[trigger] successor_known(
                        walls,
                        nodes@,
                        dist,
                        head as int,
                        t,
                    ) by {
                        if t < m {
                            assert(successor_known(walls, old_nodes, old_dist, head as int, t));
                        } else {
                            assert(nodes@[head as int] == old_nodes[head as int]);
                            assert(nodes@[n]@ == step(walls, nodes@[head as int]@, t));
                        }
                    }
                    assert forall|i: int|
                        0 <= i < nodes@.len() implies marks(edges_of(edges))[#[trigger] fingerprint(
                            nodes@[i]@,
                        )] by {
                        assert(nodes@[i].wf());
                        lemma_fingerprint_bound(nodes@[i]@);
                        if i < n {
                            assert(nodes@[i] == old_nodes[i]);
                            assert(old_bits[fingerprint(old_nodes[i]@)]);
                        } else {
                            assert(nodes@[i] == next_state);
                        }
                    }
                    assert forall|k: int|
                        0 <= k < STATE_SPACE && #[trigger] marks(edges_of(edges))[k] implies exists|i: int|
                        0 <= i < nodes@.len() && fingerprint(nodes@[i]@) == k by {
                        if k == next_id {
                            assert(fingerprint(nodes@[n]@) == k);
                        } else {
                            assert(old_bits[k]);
                            let i = choose|i: int|
                                0 <= i < old_nodes.len() && fingerprint(old_nodes[i]@) == k;
                            assert(nodes@[i] == old_nodes[i]);
                        }
                    }
                    assert(!old_bits[next_id as int]);
                    assert(!seen.contains(next_id as int));
                    seen = seen.insert(next_id as int);
                    vstd::set_lib::lemma_int_range(0, STATE_SPACE as int);
                    vstd::set_lib::lemma_len_subset(
                        seen,
                        vstd::set_lib::set_int_range(0, STATE_SPACE as int),
                    );
                    lemma_tree_push(
                        walls,
                        init,
                        old_nodes,
                        old_parents,
                        old_moves,
                        old_dist,
                        next_state,
                        head,
                        m,
                    );
                    assert(nodes@ == old_nodes.push(next_state));
                    assert(parents == old_parents.push(head));
                    assert(moves == old_moves.push(m));
                    assert forall|i: int, j: int| 0 <= i <= j < dist.len() implies dist[i] <= dist[j] by {
                        if j == n && i < n {
                            assert(old_dist[i] <= old_dist[n - 1]);
                        }
                    }
                    assert(tree_ok(walls, init, nodes@, parents, moves, dist));
                    assert(layered(dist, head as int));
                    assert(visited_ok(marks(edges_of(edges)), nodes@));
                    assert(seen_ok(seen, marks(edges_of(edges)), nodes@.len() as int));
                    lemma_edges_push(walls, init, old_edges, old_nodes, old_parents, old_moves, old_dist, next_state, head, m, old_bits);
                    assert(edges_of(edges) == old_edges.insert(next_id, (m as u8, current_id)));
                }
                if spec.is_winning_state(&next_state) {
                    proof {
                        assert forall|k: nat| k < dist[nodes@.len() - 1] implies !#[trigger] solvable_in(
                            *spec,
                            init,
                            k,
                        ) by {
                            lemma_none_solvable(
                                *spec,
                                init,
                                old_nodes,
                                old_parents,
                                old_moves,
                                old_dist,
                                head as int,
                                k,
                            );
                        }
                    }
                    found = Some(nodes.len() - 1);
                    break;
                }
            }
            m += 1;
        }
        proof {
            if found.is_none() {
                assert forall|i: int, t: int|
                    0 <= i < head + 1 && 0 <= t < MOVE_COUNT implies #[trigger] successor_known(
                    walls,
                    nodes@,
                    dist,
                    i,
                    t,
                ) by {
                    if i < head {
                        assert(expanded(walls, nodes@, dist, head as int));
                    }
                }
            }
        }
        head += 1;
    }
    match found {
        None => {
            proof {
                assert forall|k: nat| !#[trigger] solvable_in(*spec, init, k) by {
                    lemma_none_solvable(*spec, init, nodes@, parents, moves, dist, head as int, k);
                }
            }
            Vec::new()
        },
        Some(f) => {
            let r = path_by_edges(Ghost(walls), Ghost(init), &edges, &nodes, Ghost(parents), Ghost(moves), Ghost(dist), f, id);
            assert(solvable_in(*spec, init, r@.len()));
            r
        },
    }
}

/// Relies on fnv's `FnvHashMap`: a hash map keyed by fingerprints.
#[verifier::external_body]
pub struct BackEdges {
    map: fnv::FnvHashMap<u32, (u8, u32)>,
}

/// What a back-edge map holds.
pub uninterp spec fn edges_of(m: BackEdges) -> Map<u32, (u8, u32)>;

/// Relies on `FnvHashMap::default`: an empty map.
#[verifier::external_body]
fn edges_new() -> (edges: BackEdges)
    ensures
        edges_of(edges).dom().is_empty(),
{
    BackEdges { map: fnv::FnvHashMap::default() }
}

/// Relies on `HashMap::contains_key`: whether the key is present.
#[verifier::external_body]
fn edges_contains(m: &BackEdges, k: u32) -> (b: bool)
    ensures
        b == edges_of(*m).contains_key(k),
{
    m.map.contains_key(&k)
}

/// Relies on `HashMap::insert`: the key now maps to the value, the other keys are kept.
#[verifier::external_body]
fn edges_insert(m: &mut BackEdges, k: u32, v: (u8, u32))
    ensures
        edges_of(*final(m)) == edges_of(*old(m)).insert(k, v),
{
    m.map.insert(k, v);
}

/// Relies on `HashMap::get`: the value of a present key.
#[verifier::external_body]
fn edges_get(m: &BackEdges, k: u32) -> (v: (u8, u32))
    requires
        edges_of(*m).contains_key(k),
    ensures
        v == edges_of(*m)[k],
{
    *m.map.get(&k).unwrap()
}

/// The keys of a back-edge map, as one flag for each `u32`.
pub open spec fn marks(edges: Map<u32, (u8, u32)>) -> Seq<bool> {
    Seq::new(STATE_SPACE as nat, |k: int| edges.contains_key(k as u32))
}

proof fn lemma_marks_insert(edges: Map<u32, (u8, u32)>, k: u32, v: (u8, u32))
    ensures
        marks(edges.insert(k, v)) == marks(edges).update(k as int, true),
{
    assert(marks(edges.insert(k, v)) =~= marks(edges).update(k as int, true));
}

/// Each node but the start maps, by its fingerprint, to its move and its parent's fingerprint.
spec fn edges_ok(
    edges: Map<u32, (u8, u32)>,
    nodes: Seq<GameState>,
    parents: Seq<usize>,
    moves: Seq<usize>,
) -> bool {
    forall|i: int|
        0 < i < nodes.len() ==> #[trigger] edges[fingerprint(nodes[i]@) as u32] == (
        moves[i] as u8,
        fingerprint(nodes[parents[i] as int]@) as u32,
    )
}

/// No two nodes share a fingerprint.
spec fn distinct_fingerprints(nodes: Seq<GameState>) -> bool {
    forall|i: int, j: int|
        0 <= i < nodes.len() && 0 <= j < nodes.len() && i != j ==> fingerprint(
            #[trigger] nodes[i]@,
        ) != fingerprint(#[trigger] nodes[j]@)
}

proof fn lemma_edges_push(
    walls: WallBoard,
    init: Seq<Point>,
    edges: Map<u32, (u8, u32)>,
    nodes: Seq<GameState>,
    parents: Seq<usize>,
    moves: Seq<usize>,
    dist: Seq<nat>,
    x: GameState,
    parent: usize,
    m: usize,
    bits: Seq<bool>,
)
    requires
        tree_ok(walls, init, nodes, parents, moves, dist),
        distinct_fingerprints(nodes),
        edges_ok(edges, nodes, parents, moves),
        bits == marks(edges),
        visited_ok(bits, nodes),
        x.wf(),
        !bits[fingerprint(x@)],
        parent < nodes.len(),
        parents.len() == nodes.len(),
        moves.len() == nodes.len(),
        forall|i: int| 0 <= i < nodes.len() ==> #[trigger] nodes[i].wf(),
    ensures
        edges_ok(
            edges.insert(
                fingerprint(x@) as u32,
                (m as u8, fingerprint(nodes[parent as int]@) as u32),
            ),
            nodes.push(x),
            parents.push(parent),
            moves.push(m),
        ),
        distinct_fingerprints(nodes.push(x)),
{
    let k = fingerprint(x@) as u32;
    let e2 = edges.insert(k, (m as u8, fingerprint(nodes[parent as int]@) as u32));
    let n2 = nodes.push(x);
    let p2 = parents.push(parent);
    let m2 = moves.push(m);
    lemma_fingerprint_bound(x@);
    assert forall|i: int| 0 < i < n2.len() implies #[trigger] e2[fingerprint(n2[i]@) as u32] == (
        m2[i] as u8,
        fingerprint(n2[p2[i] as int]@) as u32,
    ) by {
        if i < nodes.len() {
            assert(edge_ok(walls, nodes, parents, moves, dist, i));
            assert(n2[i] == nodes[i] && p2[i] == parents[i] && m2[i] == moves[i]);
            assert(n2[parents[i] as int] == nodes[parents[i] as int]);
            assert(nodes[i].wf());
            lemma_fingerprint_bound(nodes[i]@);
            assert(bits[fingerprint(nodes[i]@)]);
            assert(fingerprint(nodes[i]@) as u32 != k);
            assert(edges[fingerprint(nodes[i]@) as u32] == (
                moves[i] as u8,
                fingerprint(nodes[parents[i] as int]@) as u32,
            ));
        } else {
            assert(n2[i] == x && p2[i] == parent && m2[i] == m);
            assert(n2[parent as int] == nodes[parent as int]);
        }
    }
    assert forall|i: int, j: int|
        0 <= i < n2.len() && 0 <= j < n2.len() && i != j implies fingerprint(#[trigger] n2[i]@)
        != fingerprint(#[trigger] n2[j]@) by {
        if i < nodes.len() && j < nodes.len() {
            assert(n2[i] == nodes[i] && n2[j] == nodes[j]);
        } else if i < nodes.len() {
            assert(n2[i] == nodes[i]);
            assert(bits[fingerprint(nodes[i]@)]);
        } else {
            assert(n2[j] == nodes[j]);
            assert(bits[fingerprint(nodes[j]@)]);
        }
    }
}

/// The moves from the start to node `f`, found by following the map back from `f`'s
/// fingerprint to the start's.
fn path_by_edges(
    Ghost(walls): Ghost<WallBoard>,
    Ghost(init): Ghost<Seq<Point>>,
    edges: &BackEdges,
    nodes: &Vec<GameState>,
    Ghost(parents): Ghost<Seq<usize>>,
    Ghost(moves): Ghost<Seq<usize>>,
    Ghost(dist): Ghost<Seq<nat>>,
    f: usize,
    init_id: u32,
) -> (r: Vec<GameMove>)
    requires
        tree_ok(walls, init, nodes@, parents, moves, dist),
        edges_ok(edges_of(*edges), nodes@, parents, moves),
        visited_ok(marks(edges_of(*edges)), nodes@),
        distinct_fingerprints(nodes@),
        init_id == fingerprint(init),
        f < nodes@.len(),
    ensures
        valid_moves(move_numbers(r@)),
        forall|t: int| 0 <= t < r@.len() ==> (#[trigger] r@[t]).robot_index < ROBOT_COUNT,
        apply_moves(walls, init, move_numbers(r@)) == nodes@[f as int]@,
        r@.len() == dist[f as int],
{
    let mut reversed: Vec<GameMove> = Vec::new();
    let final_state = nodes[f];
    let mut cur = final_state.to_u32();
    let ghost mut idx: int = f as int;
    let ghost mut path: Seq<int> = seq![];
    assert(nodes@[f as int].wf());
    while cur != init_id
        invariant
            tree_ok(walls, init, nodes@, parents, moves, dist),
            edges_ok(edges_of(*edges), nodes@, parents, moves),
            visited_ok(marks(edges_of(*edges)), nodes@),
            distinct_fingerprints(nodes@),
            init_id == fingerprint(init),
            0 <= idx < nodes@.len(),
            f < nodes@.len(),
            cur == fingerprint(nodes@[idx]@),
            apply_moves(walls, nodes@[idx]@, path) == nodes@[f as int]@,
            path.len() + dist[idx] == dist[f as int],
            reversed@.len() == path.len(),
            valid_moves(path),
            forall|t: int|
                0 <= t < reversed@.len() ==> move_number(#[trigger] reversed@[t]) == path[path.len()
                    - 1 - t] && reversed@[t].robot_index < ROBOT_COUNT,
        decreases idx,
    {
        assert(idx != 0);
        assert(edge_ok(walls, nodes@, parents, moves, dist, idx));
        let ghost parent = parents[idx] as int;
        proof {
            assert(nodes@[idx].wf() && nodes@[parent].wf());
            lemma_fingerprint_bound(nodes@[idx]@);
            lemma_fingerprint_bound(nodes@[parent]@);
            assert(marks(edges_of(*edges))[fingerprint(nodes@[idx]@)]);
            assert(edges_of(*edges)[cur] == (moves[idx] as u8, fingerprint(nodes@[parent]@) as u32));
        }
        let (m, parent_id) = edges_get(edges, cur);
        let g = game_move(m as usize);
        proof {
            let single = seq![moves[idx] as int];
            assert(single.drop_last() =~= Seq::<int>::empty());
            assert(apply_moves(walls, nodes@[parent]@, Seq::<int>::empty()) == nodes@[parent]@);
            assert(apply_moves(walls, nodes@[parent]@, single) == nodes@[idx]@);
            lemma_apply_concat(walls, nodes@[parent]@, single, path);
            path = single + path;
            assert forall|t: int| 0 <= t < path.len() implies 0 <= #[trigger] path[t] < MOVE_COUNT by {
                if t > 0 {
                    assert(path[t] == (single + path.drop_first())[t]);
                }
            }
            idx = parent;
        }
        reversed.push(g);
        cur = parent_id;
    }
    proof {
        assert(nodes@[0]@ == init);
        if idx != 0 {
            assert(fingerprint(nodes@[idx]@) != fingerprint(nodes@[0]@));
        }
    }
    let mut result: Vec<GameMove> = Vec::new();
    let mut i: usize = reversed.len();
    while i > 0
        invariant
            i <= reversed@.len(),
            result@.len() + i == reversed@.len(),
            forall|t: int|
                0 <= t < result@.len() ==> #[trigger] result@[t] == reversed@[reversed@.len() - 1 - t],
        decreases i,
    {
        i -= 1;
        result.push(reversed[i]);
    }
    assert(move_numbers(result@) =~= path);
    result
}

/// The moves along the tree from the start to node `f`.
fn path_to(
    Ghost(walls): Ghost<WallBoard>,
    Ghost(init): Ghost<Seq<Point>>,
    nodes: &Vec<GameState>,
    parents: &Vec<usize>,
    moves: &Vec<usize>,
    Ghost(dist): Ghost<Seq<nat>>,
    f: usize,
) -> (r: Vec<GameMove>)
    requires
        tree_ok(walls, init, nodes@, parents@, moves@, dist),
        f < nodes@.len(),
    ensures
        valid_moves(move_numbers(r@)),
        forall|t: int| 0 <= t < r@.len() ==> (#[trigger] r@[t]).robot_index < ROBOT_COUNT,
        apply_moves(walls, init, move_numbers(r@)) == nodes@[f as int]@,
        r@.len() == dist[f as int],
{
    let mut reversed: Vec<GameMove> = Vec::new();
    let mut cur = f;
    let ghost mut path: Seq<int> = seq![];
    while cur != 0
        invariant
            tree_ok(walls, init, nodes@, parents@, moves@, dist),
            cur < nodes@.len(),
            f < nodes@.len(),
            apply_moves(walls, nodes@[cur as int]@, path) == nodes@[f as int]@,
            path.len() + dist[cur as int] == dist[f as int],
            reversed@.len() == path.len(),
            valid_moves(path),
            forall|t: int|
                0 <= t < reversed@.len() ==> move_number(#[trigger] reversed@[t]) == path[path.len()
                    - 1 - t] && reversed@[t].robot_index < ROBOT_COUNT,
        decreases cur,
    {
        assert(edge_ok(walls, nodes@, parents@, moves@, dist, cur as int));
        let m = moves[cur];
        let parent = parents[cur];
        let g = game_move(m);
        proof {
            let single = seq![m as int];
            assert(single.drop_last() =~= Seq::<int>::empty());
            assert(apply_moves(walls, nodes@[parent as int]@, Seq::<int>::empty()) == nodes@[parent as int]@);
            assert(apply_moves(walls, nodes@[parent as int]@, single) == nodes@[cur as int]@);
            lemma_apply_concat(walls, nodes@[parent as int]@, single, path);
            path = single + path;
            assert forall|t: int| 0 <= t < path.len() implies 0 <= #[trigger] path[t] < MOVE_COUNT by {
                if t > 0 {
                    assert(path[t] == (single + path.drop_first())[t]);
                }
            }
        }
        reversed.push(g);
        cur = parent;
    }
    let mut result: Vec<GameMove> = Vec::new();
    let mut i: usize = reversed.len();
    while i > 0
        invariant
            i <= reversed@.len(),
            result@.len() + i == reversed@.len(),
            forall|t: int|
                0 <= t < result@.len() ==> #[trigger] result@[t] == reversed@[reversed@.len() - 1 - t],
        decreases i,
    {
        i -= 1;
        result.push(reversed[i]);
    }
    assert(move_numbers(result@) =~= path);
    result
}

/// The fingerprints marked visited, as a set: one per node.
pub(crate) open spec fn seen_ok(seen: Set<int>, bits: Seq<bool>, n: int) -> bool {
    &&& seen.finite()
    &&& seen.len() == n
    &&& seen.subset_of(vstd::set_lib::set_int_range(0, STATE_SPACE as int))
    &&& forall|k: int| 0 <= k < STATE_SPACE ==> (seen.contains(k) <==> #[trigger] bits[k])
}

} // verus!
