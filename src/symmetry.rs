use vstd::prelude::*;

use crate::algorithm::{fact, is_arrangement, lemma_swaps_walk, sjt, swap_adjacent, swap_positions};
use crate::model::{
    after_swaps, gap, lemma_robot_gap_nonneg, robot_gap, skip_index, slide_steps, state_in_board,
    step, swap_robots, Direction, GameSpec, Point, TargetType, WallBoard, MOVE_COUNT, ROBOT_COUNT,
};
use crate::moves::{lemma_move_has_predecessor, lemma_robot_gap_min, predecessors};
use crate::solver::{apply_moves, solution_length, solvable_in, valid_moves};

verus! {

/// A reordering of the four robots: robot `j` of the new state is robot `perm[j]` of the old.
pub open spec fn is_permutation(perm: Seq<int>) -> bool {
    &&& perm.len() == ROBOT_COUNT
    &&& forall|j: int| 0 <= j < ROBOT_COUNT ==> 0 <= #[trigger] perm[j] < ROBOT_COUNT
    &&& forall|a: int, b: int| 0 <= a < ROBOT_COUNT && 0 <= b < ROBOT_COUNT && a != b ==> perm[a] != perm[b]
    &&& forall|i: int| 0 <= i < ROBOT_COUNT ==> #[trigger] has_preimage(perm, i)
}

/// Some robot is reordered to position `i`.
pub open spec fn has_preimage(perm: Seq<int>, i: int) -> bool {
    exists|j: int| 0 <= j < ROBOT_COUNT && perm[j] == i
}

/// The reordering leaves in place the robot that the goal singles out.
pub open spec fn keeps_target(target: TargetType, perm: Seq<int>) -> bool {
    match target {
        TargetType::Any => true,
        TargetType::Particular(k) => perm[k as int] == k,
    }
}

pub open spec fn permuted(s: Seq<Point>, perm: Seq<int>) -> Seq<Point> {
    Seq::new(ROBOT_COUNT as nat, |j: int| s[perm[j]])
}

/// The position, under `perm`, of robot `i`.
pub open spec fn preimage(perm: Seq<int>, i: int) -> int {
    choose|j: int| 0 <= j < ROBOT_COUNT && perm[j] == i
}

pub open spec fn inverse(perm: Seq<int>) -> Seq<int> {
    Seq::new(ROBOT_COUNT as nat, |i: int| preimage(perm, i))
}

/// Move `m` of the old state, played on the reordered one.
pub open spec fn moved_move(perm: Seq<int>, m: int) -> int {
    preimage(perm, m / 4) * 4 + m % 4
}

pub open spec fn moved_moves(perm: Seq<int>, ms: Seq<int>) -> Seq<int> {
    ms.map_values(|m: int| moved_move(perm, m))
}

proof fn lemma_preimage(perm: Seq<int>, i: int)
    requires
        is_permutation(perm),
        0 <= i < ROBOT_COUNT,
    ensures
        0 <= preimage(perm, i) < ROBOT_COUNT,
        perm[preimage(perm, i)] == i,
{
    assert(has_preimage(perm, i));
}

proof fn lemma_inverse(perm: Seq<int>)
    requires
        is_permutation(perm),
    ensures
        is_permutation(inverse(perm)),
        forall|j: int| 0 <= j < ROBOT_COUNT ==> #[trigger] inverse(perm)[perm[j]] == j,
{
    let inv = inverse(perm);
    assert forall|i: int| 0 <= i < ROBOT_COUNT implies 0 <= #[trigger] inv[i] < ROBOT_COUNT
        && perm[inv[i]] == i by {
        lemma_preimage(perm, i);
    }
    assert forall|j: int| 0 <= j < ROBOT_COUNT implies #[trigger] inv[perm[j]] == j by {
        lemma_preimage(perm, perm[j]);
    }
    assert forall|i: int| 0 <= i < ROBOT_COUNT implies #[trigger] has_preimage(inv, i) by {
        assert(inv[perm[i]] == i);
    }
    assert forall|a: int, b: int| 0 <= a < ROBOT_COUNT && 0 <= b < ROBOT_COUNT && a != b implies inv[a]
        != inv[b] by {
        assert(perm[inv[a]] == a && perm[inv[b]] == b);
    }
}

/// Reordering the other robots does not change how far a robot can go before one stops it.
proof fn lemma_robot_gap_permuted(s: Seq<Point>, perm: Seq<int>, j: int, d: Direction)
    requires
        is_permutation(perm),
        s.len() == ROBOT_COUNT,
        0 <= j < ROBOT_COUNT,
    ensures
        robot_gap(permuted(s, perm), j, d) == robot_gap(s, perm[j], d),
{
    let t = permuted(s, perm);
    let a = robot_gap(t, j, d);
    let b = robot_gap(s, perm[j], d);
    lemma_robot_gap_min(t, j, d, ROBOT_COUNT as nat);
    lemma_robot_gap_min(s, perm[j], d, ROBOT_COUNT as nat);
    lemma_robot_gap_nonneg(t, j, d, ROBOT_COUNT as nat);
    lemma_robot_gap_nonneg(s, perm[j], d, ROBOT_COUNT as nat);
    assert(t[j] == s[perm[j]]);
    if b != crate::model::BOARD_SIZE {
        let l = choose|l: int| 0 <= l < ROBOT_COUNT && b == #[trigger] gap(s[perm[j]], s[l], d);
        lemma_preimage(perm, l);
        let lj = preimage(perm, l);
        assert(t[lj] == s[l]);
        assert(a <= gap(t[j], t[lj], d));
    }
    if a != crate::model::BOARD_SIZE {
        let l = choose|l: int| 0 <= l < ROBOT_COUNT && a == #[trigger] gap(t[j], t[l], d);
        assert(t[l] == s[perm[l]]);
        assert(b <= gap(s[perm[j]], s[perm[l]], d));
    }
}

/// A move of the reordered state is the reordered move.
proof fn lemma_step_permuted(walls: WallBoard, s: Seq<Point>, perm: Seq<int>, m: int)
    requires
        is_permutation(perm),
        s.len() == ROBOT_COUNT,
        0 <= m < MOVE_COUNT,
    ensures
        step(walls, permuted(s, perm), moved_move(perm, m)) == permuted(step(walls, s, m), perm),
        0 <= moved_move(perm, m) < MOVE_COUNT,
{
    let i = m / 4;
    let d = Direction::of_ordinal(m % 4);
    lemma_preimage(perm, i);
    let j = preimage(perm, i);
    let mm = moved_move(perm, m);
    assert(mm / 4 == j && mm % 4 == m % 4);
    let t = permuted(s, perm);
    lemma_robot_gap_permuted(s, perm, j, d);
    assert(t[j] == s[i]);
    assert(slide_steps(walls, t, j, d) == slide_steps(walls, s, i, d));
    let lhs = step(walls, t, mm);
    let rhs = permuted(step(walls, s, m), perm);
    assert forall|l: int| 0 <= l < ROBOT_COUNT implies lhs[l] == rhs[l] by {
        if l != j {
            assert(perm[l] != perm[j]);
        }
    }
    assert(lhs =~= rhs);
}

proof fn lemma_apply_permuted(walls: WallBoard, s: Seq<Point>, perm: Seq<int>, ms: Seq<int>)
    requires
        is_permutation(perm),
        s.len() == ROBOT_COUNT,
        valid_moves(ms),
    ensures
        apply_moves(walls, permuted(s, perm), moved_moves(perm, ms)) == permuted(
            apply_moves(walls, s, ms),
            perm,
        ),
        valid_moves(moved_moves(perm, ms)),
        apply_moves(walls, s, ms).len() == ROBOT_COUNT,
    decreases ms.len(),
{
    let mv = moved_moves(perm, ms);
    if ms.len() > 0 {
        let prefix = ms.drop_last();
        assert(valid_moves(prefix)) by {
            assert forall|t: int| 0 <= t < prefix.len() implies 0 <= #[trigger] prefix[t]
                < MOVE_COUNT by {
                assert(prefix[t] == ms[t]);
            }
        }
        lemma_apply_permuted(walls, s, perm, prefix);
        assert(mv.drop_last() =~= moved_moves(perm, prefix));
        let m = ms.last();
        assert(0 <= m < MOVE_COUNT) by {
            assert(ms[ms.len() - 1] == m);
        }
        lemma_step_permuted(walls, apply_moves(walls, s, prefix), perm, m);
        assert(mv.last() == moved_move(perm, m));
        assert forall|t: int| 0 <= t < mv.len() implies 0 <= #[trigger] mv[t] < MOVE_COUNT by {
            assert(mv[t] == moved_move(perm, ms[t]));
            lemma_step_permuted(walls, s, perm, ms[t]);
        }
    }
}

proof fn lemma_winning_permuted(spec: GameSpec, s: Seq<Point>, perm: Seq<int>)
    requires
        spec.wf(),
        is_permutation(perm),
        keeps_target(spec.target_type, perm),
        s.len() == ROBOT_COUNT,
    ensures
        spec.winning(permuted(s, perm)) == spec.winning(s),
{
    let t = permuted(s, perm);
    match spec.target_type {
        TargetType::Any => {
            if s.contains(spec.goal) {
                let i = choose|i: int| 0 <= i < s.len() && s[i] == spec.goal;
                lemma_preimage(perm, i);
                assert(t[preimage(perm, i)] == spec.goal);
            }
            if t.contains(spec.goal) {
                let j = choose|j: int| 0 <= j < t.len() && t[j] == spec.goal;
                assert(s[perm[j]] == spec.goal);
            }
        },
        TargetType::Particular(k) => {
            assert(t[k as int] == s[k as int]);
        },
    }
}

proof fn lemma_solvable_permuted(spec: GameSpec, s: Seq<Point>, perm: Seq<int>, k: nat)
    requires
        spec.wf(),
        is_permutation(perm),
        keeps_target(spec.target_type, perm),
        s.len() == ROBOT_COUNT,
        solvable_in(spec, s, k),
    ensures
        solvable_in(spec, permuted(s, perm), k),
{
    let ms = choose|ms: Seq<int>|
        ms.len() == k && valid_moves(ms) && #[trigger] spec.winning(apply_moves(spec.walls, s, ms));
    lemma_apply_permuted(spec.walls, s, perm, ms);
    lemma_winning_permuted(spec, apply_moves(spec.walls, s, ms), perm);
    let mv = moved_moves(perm, ms);
    assert(spec.winning(apply_moves(spec.walls, permuted(s, perm), mv)));
}

/// Robots that the goal does not tell apart can trade places: the reordered state is winning
/// exactly when the state is, and it is solvable in exactly the same numbers of moves.
pub proof fn lemma_equivalent_solvable(spec: GameSpec, s: Seq<Point>, perm: Seq<int>)
    requires
        spec.wf(),
        state_in_board(s),
        is_permutation(perm),
        keeps_target(spec.target_type, perm),
    ensures
        spec.winning(permuted(s, perm)) == spec.winning(s),
        forall|k: nat| #[trigger] solvable_in(spec, permuted(s, perm), k) == solvable_in(spec, s, k),
{
    lemma_winning_permuted(spec, s, perm);
    lemma_inverse(perm);
    let inv = inverse(perm);
    let t = permuted(s, perm);
    assert(permuted(t, inv) =~= s) by {
        assert forall|l: int| 0 <= l < ROBOT_COUNT implies permuted(t, inv)[l] == s[l] by {
            lemma_preimage(perm, l);
        }
    }
    assert(keeps_target(spec.target_type, inv)) by {
        if let TargetType::Particular(k) = spec.target_type {
            assert(inv[perm[k as int]] == k);
        }
    }
    assert forall|k: nat| #[trigger] solvable_in(spec, t, k) == solvable_in(spec, s, k) by {
        if solvable_in(spec, s, k) {
            lemma_solvable_permuted(spec, s, perm, k);
        }
        if solvable_in(spec, t, k) {
            lemma_solvable_permuted(spec, t, inv, k);
        }
    }
}

/// Equivalent states have shortest solutions of the same length.
pub proof fn lemma_equivalent_solution_lengths(
    spec: GameSpec,
    s: Seq<Point>,
    perm: Seq<int>,
    n: nat,
    n_permuted: nat,
)
    requires
        spec.wf(),
        state_in_board(s),
        is_permutation(perm),
        keeps_target(spec.target_type, perm),
        solution_length(spec, s, n),
        solution_length(spec, permuted(s, perm), n_permuted),
    ensures
        n == n_permuted,
{
    lemma_equivalent_solvable(spec, s, perm);
    let t = permuted(s, perm);
    if n < n_permuted {
        if n > 0 {
            assert(solvable_in(spec, t, n));
        } else if spec.winning(s) {
            let ms = Seq::<int>::empty();
            assert(apply_moves(spec.walls, t, ms) == t);
            assert(solvable_in(spec, t, 0));
        } else {
            assert(solvable_in(spec, t, n_permuted));
            assert(!solvable_in(spec, s, n_permuted));
        }
    } else if n_permuted < n {
        if n_permuted > 0 {
            assert(solvable_in(spec, s, n_permuted));
        } else if spec.winning(t) {
            let ms = Seq::<int>::empty();
            assert(apply_moves(spec.walls, s, ms) == s);
            assert(solvable_in(spec, s, 0));
        } else {
            assert(solvable_in(spec, s, n));
            assert(!solvable_in(spec, t, n));
        }
    }
}

/// The state reached after `t` swaps in the listing of `s`'s equivalence class for this goal.
pub open spec fn class_member(spec: GameSpec, s: Seq<Point>, t: nat) -> Seq<Point> {
    match spec.target_type {
        TargetType::Any => after_swaps(s, swap_positions(ROBOT_COUNT as nat), ROBOT_COUNT as int, t),
        TargetType::Particular(k) => after_swaps(
            s,
            swap_positions((ROBOT_COUNT - 1) as nat),
            k as int,
            t,
        ),
    }
}

/// The number of states in the listing of an equivalence class for this goal.
pub open spec fn class_size(spec: GameSpec) -> nat {
    match spec.target_type {
        TargetType::Any => fact(ROBOT_COUNT as nat),
        TargetType::Particular(_) => fact((ROBOT_COUNT - 1) as nat),
    }
}

proof fn lemma_after_swaps_reorder(s: Seq<Point>, sw: Seq<usize>, skip: int, t: nat)
    requires
        s.len() == ROBOT_COUNT,
        0 <= skip <= ROBOT_COUNT,
        t <= sw.len(),
        forall|k: int| 0 <= k < sw.len() ==> skip_index(#[trigger] sw[k] + 1, skip) < ROBOT_COUNT,
    ensures
        exists|perm: Seq<int>|
            is_permutation(perm) && (skip < ROBOT_COUNT ==> perm[skip] == skip) && #[trigger] permuted(
                s,
                perm,
            ) == after_swaps(s, sw, skip, t),
    decreases t,
{
    if t == 0 {
        let id = seq![0int, 1, 2, 3];
        assert forall|i: int| 0 <= i < ROBOT_COUNT implies #[trigger] has_preimage(id, i) by {
            assert(id[i] == i);
        }
        assert(permuted(s, id) =~= s);
    } else {
        lemma_after_swaps_reorder(s, sw, skip, (t - 1) as nat);
        let perm = choose|perm: Seq<int>|
            is_permutation(perm) && (skip < ROBOT_COUNT ==> perm[skip] == skip) && #[trigger] permuted(
                s,
                perm,
            ) == after_swaps(s, sw, skip, (t - 1) as nat);
        let x = sw[t - 1] as int;
        assert(skip_index(sw[t - 1] + 1, skip) < ROBOT_COUNT);
        let a = skip_index(x, skip);
        let b = skip_index(x + 1, skip);
        let perm2 = perm.update(a, perm[b]).update(b, perm[a]);
        assert forall|i: int| 0 <= i < ROBOT_COUNT implies #[trigger] has_preimage(perm2, i) by {
            assert(has_preimage(perm, i));
            let j = choose|j: int| 0 <= j < ROBOT_COUNT && perm[j] == i;
            if j == a {
                assert(perm2[b] == i);
            } else if j == b {
                assert(perm2[a] == i);
            } else {
                assert(perm2[j] == i);
            }
        }
        assert(permuted(s, perm2) =~= swap_robots(permuted(s, perm), a, b));
    }
}

/// Every state that `equivalent_states` lists is the state with its robots reordered, the
/// robot that the goal singles out kept in place.
pub proof fn lemma_class_members_are_reorderings(spec: GameSpec, s: Seq<Point>, t: nat)
    requires
        spec.wf(),
        s.len() == ROBOT_COUNT,
        t < class_size(spec),
    ensures
        exists|perm: Seq<int>|
            is_permutation(perm) && keeps_target(spec.target_type, perm) && #[trigger] permuted(
                s,
                perm,
            ) == class_member(spec, s, t),
{
    match spec.target_type {
        TargetType::Any => {
            lemma_swaps_walk(ROBOT_COUNT as nat);
            let sw = swap_positions(ROBOT_COUNT as nat);
            assert forall|k: int| 0 <= k < sw.len() implies skip_index(#[trigger] sw[k] + 1, ROBOT_COUNT as int)
                < ROBOT_COUNT by {}
            lemma_after_swaps_reorder(s, sw, ROBOT_COUNT as int, t);
        },
        TargetType::Particular(k) => {
            lemma_swaps_walk((ROBOT_COUNT - 1) as nat);
            let sw = swap_positions((ROBOT_COUNT - 1) as nat);
            assert forall|j: int| 0 <= j < sw.len() implies skip_index(#[trigger] sw[j] + 1, k as int)
                < ROBOT_COUNT by {}
            lemma_after_swaps_reorder(s, sw, k as int, t);
        },
    }
}

/// The reordering that the first `t` swaps of `sw` make, robot `skip` left out of the count.
pub open spec fn reordering_after(sw: Seq<usize>, skip: int, t: nat) -> Seq<int>
    decreases t,
{
    if t == 0 {
        seq![0int, 1, 2, 3]
    } else {
        let p = reordering_after(sw, skip, (t - 1) as nat);
        let a = skip_index(sw[t - 1] as int, skip);
        let b = skip_index(sw[t - 1] + 1, skip);
        p.update(a, p[b]).update(b, p[a])
    }
}

/// After `t` swaps, position `skip_index(j)` holds robot `skip_index(a[j] - 1)`, where `a` is
/// permutation number `t` of `1 ..= n`.
#[verifier::rlimit(80)]
proof fn lemma_reordering_follows_walk(s: Seq<Point>, n: nat, skip: int, t: nat)
    requires
        s.len() == ROBOT_COUNT,
        (n == ROBOT_COUNT && skip == ROBOT_COUNT) || (n == ROBOT_COUNT - 1 && 0 <= skip < ROBOT_COUNT),
        t < fact(n),
    ensures
        reordering_after(swap_positions(n), skip, t).len() == ROBOT_COUNT,
        forall|j: int|
            0 <= j < n ==> #[trigger] reordering_after(swap_positions(n), skip, t)[skip_index(j, skip)]
                == skip_index(sjt(n)[t as int][j] - 1, skip),
        skip < ROBOT_COUNT ==> reordering_after(swap_positions(n), skip, t)[skip] == skip,
        after_swaps(s, swap_positions(n), skip, t) == permuted(
            s,
            reordering_after(swap_positions(n), skip, t),
        ),
    decreases t,
{
    lemma_swaps_walk(n);
    let sw = swap_positions(n);
    let perms = sjt(n);
    let r = reordering_after(sw, skip, t);
    if t == 0 {
        assert(perms[0] == crate::algorithm::identity(n));
        assert(permuted(s, r) =~= s);
    } else {
        lemma_reordering_follows_walk(s, n, skip, (t - 1) as nat);
        let p = reordering_after(sw, skip, (t - 1) as nat);
        let x = sw[t - 1] as int;
        assert(x + 1 < n);
        assert(perms[t as int] == swap_adjacent(perms[t - 1], x));
        let a = skip_index(x, skip);
        let b = skip_index(x + 1, skip);
        assert forall|j: int| 0 <= j < n implies #[trigger] r[skip_index(j, skip)] == skip_index(
            perms[t as int][j] - 1,
            skip,
        ) by {
            assert(p[skip_index(j, skip)] == skip_index(perms[t - 1][j] - 1, skip));
            if j == x {
                assert(p[b] == skip_index(perms[t - 1][x + 1] - 1, skip));
            } else if j == x + 1 {
                assert(p[a] == skip_index(perms[t - 1][x] - 1, skip));
            }
        }
        assert(permuted(s, r) =~= swap_robots(permuted(s, p), a, b));
    }
}

/// The states that `equivalent_states` lists are all different when the robots stand on
/// different cells.
pub proof fn lemma_class_members_distinct(spec: GameSpec, s: Seq<Point>, ta: nat, tb: nat)
    requires
        spec.wf(),
        s.len() == ROBOT_COUNT,
        s.no_duplicates(),
        ta < class_size(spec),
        tb < class_size(spec),
        ta != tb,
    ensures
        class_member(spec, s, ta) != class_member(spec, s, tb),
{
    let (n, skip) = match spec.target_type {
        TargetType::Any => (ROBOT_COUNT as nat, ROBOT_COUNT as int),
        TargetType::Particular(k) => ((ROBOT_COUNT - 1) as nat, k as int),
    };
    lemma_reordering_follows_walk(s, n, skip, ta);
    lemma_reordering_follows_walk(s, n, skip, tb);
    lemma_swaps_walk(n);
    let sw = swap_positions(n);
    let ra = reordering_after(sw, skip, ta);
    let rb = reordering_after(sw, skip, tb);
    let pa = sjt(n)[ta as int];
    let pb = sjt(n)[tb as int];
    if class_member(spec, s, ta) == class_member(spec, s, tb) {
        assert(is_arrangement(pa, n) && is_arrangement(pb, n));
        assert forall|j: int| 0 <= j < n implies pa[j] == pb[j] by {
            let i = skip_index(j, skip);
            assert(ra[i] == skip_index(pa[j] - 1, skip));
            assert(rb[i] == skip_index(pb[j] - 1, skip));
            assert(permuted(s, ra)[i] == permuted(s, rb)[i]);
            assert(s[ra[i]] == s[rb[i]]);
        }
        assert(pa =~= pb);
        assert(sjt(n).no_duplicates());
    }
}

/// Position `i` among the positions other than `skip`.
pub open spec fn unskip(i: int, skip: int) -> int {
    if i < skip {
        i
    } else {
        i - 1
    }
}

/// Every reordering that keeps the target robot in place is listed in the class.
pub proof fn lemma_class_complete(spec: GameSpec, s: Seq<Point>, perm: Seq<int>)
    requires
        spec.wf(),
        s.len() == ROBOT_COUNT,
        is_permutation(perm),
        keeps_target(spec.target_type, perm),
    ensures
        exists|t: nat| t < class_size(spec) && #[trigger] class_member(spec, s, t) == permuted(s, perm),
{
    let (n, skip) = match spec.target_type {
        TargetType::Any => (ROBOT_COUNT as nat, ROBOT_COUNT as int),
        TargetType::Particular(k) => ((ROBOT_COUNT - 1) as nat, k as int),
    };
    let a = Seq::new(n, |j: int| (unskip(perm[skip_index(j, skip)], skip) + 1) as usize);
    assert forall|j: int| 0 <= j < n implies perm[skip_index(j, skip)] != skip && 0 <= #[trigger] perm[
        skip_index(j, skip)] < ROBOT_COUNT by {
        if skip < ROBOT_COUNT {
            assert(perm[skip] == skip);
        }
    }
    assert(is_arrangement(a, n)) by {
        assert forall|x: int, y: int| 0 <= x < n && 0 <= y < n && x != y implies a[x] != a[y] by {
            assert(perm[skip_index(x, skip)] != perm[skip_index(y, skip)]);
        }
    }
    lemma_swaps_walk(n);
    assert(sjt(n).contains(a));
    let t = choose|t: int| 0 <= t < sjt(n).len() && sjt(n)[t] == a;
    lemma_reordering_follows_walk(s, n, skip, t as nat);
    let r = reordering_after(swap_positions(n), skip, t as nat);
    assert forall|i: int| 0 <= i < ROBOT_COUNT implies r[i] == perm[i] by {
        if i != skip {
            let j = unskip(i, skip);
            assert(skip_index(j, skip) == i);
            assert(r[skip_index(j, skip)] == skip_index(a[j] - 1, skip));
        }
    }
    assert(permuted(s, r) =~= permuted(s, perm));
    assert(class_member(spec, s, t as nat) == permuted(s, perm));
}

/// `y` is `x` with the robots that the goal does not single out reordered.
pub open spec fn equivalent(spec: GameSpec, x: Seq<Point>, y: Seq<Point>) -> bool {
    exists|perm: Seq<int>|
        is_permutation(perm) && keeps_target(spec.target_type, perm) && #[trigger] permuted(x, perm)
            == y
}

pub proof fn lemma_equivalent_refl(spec: GameSpec, x: Seq<Point>)
    requires
        spec.wf(),
        x.len() == ROBOT_COUNT,
    ensures
        equivalent(spec, x, x),
{
    let id = seq![0int, 1, 2, 3];
    assert forall|i: int| 0 <= i < ROBOT_COUNT implies #[trigger] has_preimage(id, i) by {
        assert(id[i] == i);
    }
    assert(permuted(x, id) =~= x);
    assert(keeps_target(spec.target_type, id));
}

pub proof fn lemma_equivalent_symm(spec: GameSpec, x: Seq<Point>, y: Seq<Point>)
    requires
        spec.wf(),
        x.len() == ROBOT_COUNT,
        equivalent(spec, x, y),
    ensures
        equivalent(spec, y, x),
{
    let perm = choose|perm: Seq<int>|
        is_permutation(perm) && keeps_target(spec.target_type, perm) && #[trigger] permuted(x, perm)
            == y;
    lemma_inverse(perm);
    let inv = inverse(perm);
    assert(permuted(y, inv) =~= x) by {
        assert forall|l: int| 0 <= l < ROBOT_COUNT implies permuted(y, inv)[l] == x[l] by {
            lemma_preimage(perm, l);
        }
    }
    if let TargetType::Particular(k) = spec.target_type {
        assert(inv[perm[k as int]] == k);
    }
}

pub proof fn lemma_equivalent_trans(spec: GameSpec, x: Seq<Point>, y: Seq<Point>, z: Seq<Point>)
    requires
        spec.wf(),
        x.len() == ROBOT_COUNT,
        equivalent(spec, x, y),
        equivalent(spec, y, z),
    ensures
        equivalent(spec, x, z),
{
    let p = choose|perm: Seq<int>|
        is_permutation(perm) && keeps_target(spec.target_type, perm) && #[trigger] permuted(x, perm)
            == y;
    let q = choose|perm: Seq<int>|
        is_permutation(perm) && keeps_target(spec.target_type, perm) && #[trigger] permuted(y, perm)
            == z;
    let c = Seq::new(ROBOT_COUNT as nat, |j: int| p[q[j]]);
    assert forall|i: int| 0 <= i < ROBOT_COUNT implies #[trigger] has_preimage(c, i) by {
        lemma_preimage(p, i);
        lemma_preimage(q, preimage(p, i));
        assert(c[preimage(q, preimage(p, i))] == i);
    }
    assert forall|a: int, b: int| 0 <= a < ROBOT_COUNT && 0 <= b < ROBOT_COUNT && a != b implies c[a]
        != c[b] by {
        assert(q[a] != q[b]);
    }
    assert(permuted(x, c) =~= z);
    assert forall|j: int| 0 <= j < ROBOT_COUNT implies 0 <= #[trigger] c[j] < ROBOT_COUNT by {
        assert(0 <= q[j] < ROBOT_COUNT);
    }
    if let TargetType::Particular(k) = spec.target_type {
        assert(c[k as int] == p[q[k as int]]);
    }
    assert(keeps_target(spec.target_type, c));
    assert(is_permutation(c));
}

/// A reordered state is a move away from the reordered state its original moves to.
pub proof fn lemma_step_equivalent(walls: WallBoard, spec: GameSpec, x: Seq<Point>, y: Seq<Point>, m: int)
    requires
        x.len() == ROBOT_COUNT,
        equivalent(spec, x, y),
        0 <= m < MOVE_COUNT,
    ensures
        exists|m2: int|
            0 <= m2 < MOVE_COUNT && equivalent(spec, step(walls, x, m), #[trigger] step(walls, y, m2)),
{
    let perm = choose|perm: Seq<int>|
        is_permutation(perm) && keeps_target(spec.target_type, perm) && #[trigger] permuted(x, perm)
            == y;
    lemma_step_permuted(walls, x, perm, m);
    let m2 = moved_move(perm, m);
    assert(permuted(step(walls, x, m), perm) == step(walls, y, m2));
}

/// Reordering keeps a winning placement one.
pub proof fn lemma_placement_equivalent(spec: GameSpec, x: Seq<Point>, y: Seq<Point>)
    requires
        spec.wf(),
        x.len() == ROBOT_COUNT,
        equivalent(spec, x, y),
        crate::generator::winning_placement(spec, x),
    ensures
        crate::generator::winning_placement(spec, y),
{
    let perm = choose|perm: Seq<int>|
        is_permutation(perm) && keeps_target(spec.target_type, perm) && #[trigger] permuted(x, perm)
            == y;
    let goal_region = crate::generator::goal_region(spec);
    let g = match spec.target_type {
        TargetType::Particular(k) => k as int,
        TargetType::Any => choose|g: int| 0 <= g < ROBOT_COUNT && #[trigger] crate::generator::placement(spec, g, x),
    };
    assert(crate::generator::placement(spec, g, x));
    lemma_preimage(perm, g);
    let g2 = preimage(perm, g);
    if let TargetType::Particular(k) = spec.target_type {
        assert(perm[k as int] == k);
        assert(g2 == g) by {
            if g2 != g {
                assert(perm[g2] != perm[g]);
            }
        }
    }
    assert forall|j: int| 0 <= j < ROBOT_COUNT && j != g2 implies goal_region.contains(#[trigger] y[j]) by {
        assert(y[j] == x[perm[j]]);
        assert(perm[j] != perm[g2]);
    }
    assert forall|a: int, b: int| 0 <= a < y.len() && 0 <= b < y.len() && a != b implies y[a] != y[b] by {
        assert(perm[a] != perm[b]);
    }
    assert(crate::generator::placement(spec, g2, y));
}

/// Equivalent states reach a winning placement in the same numbers of moves.
pub proof fn lemma_reaches_equivalent(spec: GameSpec, x: Seq<Point>, y: Seq<Point>, k: nat)
    requires
        spec.wf(),
        x.len() == ROBOT_COUNT,
        equivalent(spec, x, y),
        crate::generator::reaches_in(spec, x, k),
    ensures
        crate::generator::reaches_in(spec, y, k),
{
    let perm = choose|perm: Seq<int>|
        is_permutation(perm) && keeps_target(spec.target_type, perm) && #[trigger] permuted(x, perm)
            == y;
    let ms = choose|ms: Seq<int>|
        ms.len() == k && valid_moves(ms) && #[trigger] crate::generator::winning_placement(
            spec,
            apply_moves(spec.walls, x, ms),
        );
    lemma_apply_permuted(spec.walls, x, perm, ms);
    let e = apply_moves(spec.walls, x, ms);
    assert(equivalent(spec, e, permuted(e, perm)));
    lemma_placement_equivalent(spec, e, permuted(e, perm));
    let mv = moved_moves(perm, ms);
    assert(crate::generator::winning_placement(spec, apply_moves(spec.walls, y, mv)));
}

/// When a move leads from `x` to a state equivalent to `q`, a state equivalent to `x` is among
/// the predecessors of `q`.
pub proof fn lemma_predecessor_equivalent(spec: GameSpec, x: Seq<Point>, m: int, q: Seq<Point>)
    requires
        spec.wf(),
        state_in_board(x),
        x.no_duplicates(),
        0 <= m < MOVE_COUNT,
        step(spec.walls, x, m) != x,
        equivalent(spec, step(spec.walls, x, m), q),
    ensures
        exists|y: Seq<Point>|
            equivalent(spec, x, y) && state_in_board(y) && y.no_duplicates() && #[trigger] predecessors(
                spec.walls,
                q,
            ).contains(y),
{
    let x1 = step(spec.walls, x, m);
    let perm = choose|perm: Seq<int>|
        is_permutation(perm) && keeps_target(spec.target_type, perm) && #[trigger] permuted(x1, perm)
            == q;
    let y = permuted(x, perm);
    lemma_step_permuted(spec.walls, x, perm, m);
    let m2 = moved_move(perm, m);
    assert(step(spec.walls, y, m2) == q);
    assert(equivalent(spec, x, y));
    assert(state_in_board(y)) by {
        assert forall|j: int| 0 <= j < ROBOT_COUNT implies #[trigger] crate::model::in_board(y[j]) by {
            assert(crate::model::in_board(x[perm[j]]));
        }
    }
    assert(y.no_duplicates()) by {
        assert forall|a: int, b: int| 0 <= a < y.len() && 0 <= b < y.len() && a != b implies y[a] != y[b] by {
            assert(perm[a] != perm[b]);
        }
    }
    if q == y {
        lemma_inverse(perm);
        let inv = inverse(perm);
        assert(permuted(q, inv) =~= x1) by {
            assert forall|l: int| 0 <= l < ROBOT_COUNT implies permuted(q, inv)[l] == x1[l] by {
                lemma_preimage(perm, l);
            }
        }
        assert(permuted(y, inv) =~= x) by {
            assert forall|l: int| 0 <= l < ROBOT_COUNT implies permuted(y, inv)[l] == x[l] by {
                lemma_preimage(perm, l);
            }
        }
    }
    lemma_move_has_predecessor(spec, y, m2);
}

/// A state listed by `equivalent_states` has a shortest solution of the same length as the
/// state itself.
pub proof fn lemma_class_solution_lengths(
    spec: GameSpec,
    s: Seq<Point>,
    t: nat,
    n: nat,
    n_member: nat,
)
    requires
        spec.wf(),
        state_in_board(s),
        t < class_size(spec),
        solution_length(spec, s, n),
        solution_length(spec, class_member(spec, s, t), n_member),
    ensures
        n == n_member,
{
    lemma_class_members_are_reorderings(spec, s, t);
    let perm = choose|perm: Seq<int>|
        is_permutation(perm) && keeps_target(spec.target_type, perm) && #[trigger] permuted(s, perm)
            == class_member(spec, s, t);
    lemma_equivalent_solution_lengths(spec, s, perm, n, n_member);
}

} // verus!
