use vstd::prelude::*;

verus! {

pub open spec fn fact(n: nat) -> nat
    decreases n,
{
    if n == 0 {
        1
    } else {
        n * fact((n - 1) as nat)
    }
}

pub fn factorial(n: usize) -> (r: usize)
    requires
        fact(n as nat) <= usize::MAX,
    ensures
        r == fact(n as nat),
    decreases n,
{
    if n == 0 {
        1
    } else {
        proof {
            lemma_fact_positive((n - 1) as nat);
            assert(fact((n - 1) as nat) <= fact(n as nat)) by (nonlinear_arith)
                requires
                    fact(n as nat) == n * fact((n - 1) as nat),
                    n >= 1,
                    fact((n - 1) as nat) >= 1,
            ;
        }
        n * factorial(n - 1)
    }
}

pub proof fn lemma_fact_positive(n: nat)
    ensures
        fact(n) >= 1,
    decreases n,
{
    if n > 0 {
        lemma_fact_positive((n - 1) as nat);
        assert(n * fact((n - 1) as nat) >= 1) by (nonlinear_arith)
            requires
                n >= 1,
                fact((n - 1) as nat) >= 1,
        ;
    }
}

/// Where the `j`-th permutation made from parent number `parent` gets the new element: from
/// the left for odd parents, from the right for even ones.
pub open spec fn insert_position(n: nat, parent: int, j: int) -> int {
    if parent % 2 == 1 {
        j
    } else {
        n - 1 - j
    }
}

/// The first `k` permutations made by inserting `n` into `sub`.
pub open spec fn insertions(sub: Seq<usize>, n: nat, parent: int, k: nat) -> Seq<Seq<usize>>
    decreases k,
{
    if k == 0 {
        Seq::empty()
    } else {
        insertions(sub, n, parent, (k - 1) as nat).push(
            sub.insert(insert_position(n, parent, k - 1), n as usize),
        )
    }
}

/// The permutations made from the first `i` parents.
pub open spec fn expand(prev: Seq<Seq<usize>>, n: nat, i: nat) -> Seq<Seq<usize>>
    decreases i,
{
    if i == 0 {
        Seq::empty()
    } else {
        expand(prev, n, (i - 1) as nat) + insertions(prev[i - 1], n, i - 1, n)
    }
}

/// The permutations of `1 ..= n` in Steinhaus-Johnson-Trotter order.
pub open spec fn sjt(n: nat) -> Seq<Seq<usize>>
    decreases n,
{
    if n == 0 {
        seq![Seq::empty()]
    } else {
        expand(sjt((n - 1) as nat), n, sjt((n - 1) as nat).len())
    }
}

proof fn lemma_insertions_shape(sub: Seq<usize>, n: nat, parent: int, k: nat)
    requires
        n >= 1,
        sub.len() == n - 1,
        k <= n,
    ensures
        insertions(sub, n, parent, k).len() == k,
        forall|t: int| 0 <= t < k ==> (#[trigger] insertions(sub, n, parent, k)[t]).len() == n,
    decreases k,
{
    if k > 0 {
        lemma_insertions_shape(sub, n, parent, (k - 1) as nat);
    }
}

proof fn lemma_expand_shape(prev: Seq<Seq<usize>>, n: nat, i: nat)
    requires
        n >= 1,
        i <= prev.len(),
        forall|t: int| 0 <= t < prev.len() ==> (#[trigger] prev[t]).len() == n - 1,
    ensures
        expand(prev, n, i).len() == i * n,
        forall|t: int| 0 <= t < i * n ==> (#[trigger] expand(prev, n, i)[t]).len() == n,
    decreases i,
{
    if i == 0 {
        assert(0 * n == 0) by (nonlinear_arith);
    } else {
        lemma_expand_shape(prev, n, (i - 1) as nat);
        lemma_insertions_shape(prev[i - 1], n, i - 1, n);
        let a = expand(prev, n, (i - 1) as nat);
        let b = insertions(prev[i - 1], n, i - 1, n);
        assert((i - 1) * n + n == i * n) by (nonlinear_arith);
        assert forall|t: int| 0 <= t < i * n implies (#[trigger] expand(prev, n, i)[t]).len() == n by {
            if t < a.len() {
                assert(expand(prev, n, i)[t] == a[t]);
            } else {
                assert(expand(prev, n, i)[t] == b[t - a.len()]);
            }
        }
    }
}

/// There are `n!` permutations, each of length `n`.
pub proof fn lemma_sjt_shape(n: nat)
    ensures
        sjt(n).len() == fact(n),
        forall|t: int| 0 <= t < sjt(n).len() ==> (#[trigger] sjt(n)[t]).len() == n,
    decreases n,
{
    if n > 0 {
        lemma_sjt_shape((n - 1) as nat);
        let prev = sjt((n - 1) as nat);
        lemma_expand_shape(prev, n, prev.len());
        assert(prev.len() * n == n * fact((n - 1) as nat)) by (nonlinear_arith)
            requires
                prev.len() == fact((n - 1) as nat),
        ;
    }
}

pub open spec fn views(v: Seq<Vec<usize>>) -> Seq<Seq<usize>> {
    v.map_values(|x: Vec<usize>| x@)
}

fn permutations(n: usize) -> (r: Vec<Vec<usize>>)
    ensures
        views(r@) == sjt(n as nat),
    decreases n,
{
    if n == 0 {
        let mut r: Vec<Vec<usize>> = Vec::new();
        r.push(Vec::new());
        assert(views(r@) =~= sjt(0));
        return r;
    }
    let perms = permutations(n - 1);
    let ghost prev = sjt((n - 1) as nat);
    proof {
        lemma_sjt_shape((n - 1) as nat);
    }
    let mut result: Vec<Vec<usize>> = Vec::new();
    let mut i: usize = 0;
    while i < perms.len()
        invariant
            n >= 1,
            views(perms@) == prev,
            prev == sjt((n - 1) as nat),
            forall|t: int| 0 <= t < prev.len() ==> (#[trigger] prev[t]).len() == n - 1,
            i <= perms@.len(),
            views(result@) == expand(prev, n as nat, i as nat),
        decreases perms@.len() - i,
    {
        assert(perms@[i as int]@ == prev[i as int]);
        let sub = &perms[i];
        let mut j: usize = 0;
        while j < n
            invariant
                n >= 1,
                views(perms@) == prev,
                i < perms@.len(),
                sub@ == prev[i as int],
                sub@.len() == n - 1,
                j <= n,
                views(result@) == expand(prev, n as nat, i as nat) + insertions(
                    prev[i as int],
                    n as nat,
                    i as int,
                    j as nat,
                ),
            decreases n - j,
        {
            let position = if i % 2 == 1 {
                j
            } else {
                n - 1 - j
            };
            let mut perm = sub.clone();
            perm.insert(position, n);
            let ghost before = views(result@);
            result.push(perm);
            assert(views(result@) =~= before.push(perm@));
            j += 1;
        }
        i += 1;
    }
    result
}

/// Position of the first entry where `a` and `b` differ, looking from `pos` on.
pub open spec fn first_diff_from(a: Seq<usize>, b: Seq<usize>, pos: int) -> Option<int>
    decreases a.len() - pos,
{
    if pos < 0 || pos >= a.len() {
        None
    } else if a[pos] != b[pos] {
        Some(pos)
    } else {
        first_diff_from(a, b, pos + 1)
    }
}

/// For each pair of neighbours among the first `k` permutations, the first position where they
/// differ.
pub open spec fn diff_positions(perms: Seq<Seq<usize>>, k: nat) -> Seq<usize>
    decreases k,
{
    if k == 0 {
        Seq::empty()
    } else {
        let rest = diff_positions(perms, (k - 1) as nat);
        match first_diff_from(perms[k - 1], perms[k as int], 0) {
            Some(p) => rest.push(p as usize),
            None => rest,
        }
    }
}

/// The adjacent swaps that walk through all permutations of `n` elements.
pub open spec fn swap_positions(n: nat) -> Seq<usize> {
    diff_positions(sjt(n), (sjt(n).len() - 1) as nat)
}

proof fn lemma_first_diff_bound(a: Seq<usize>, b: Seq<usize>, pos: int)
    ensures
        first_diff_from(a, b, pos) matches Some(p) ==> pos <= p < a.len() && a[p] != b[p],
    decreases a.len() - pos,
{
    if !(pos < 0 || pos >= a.len()) && a[pos] == b[pos] {
        lemma_first_diff_bound(a, b, pos + 1);
    }
}

/// Swap positions such that successive adjacent swaps, from the identity, walk through the
/// permutations of `n` elements in Steinhaus-Johnson-Trotter order.
pub fn permutation_swaps(n: usize) -> (r: Vec<usize>)
    ensures
        r@ == swap_positions(n as nat),
        forall|t: int| 0 <= t < r@.len() ==> #[trigger] r@[t] + 1 < n,
        n >= 1 ==> r@.len() == fact(n as nat) - 1,
{
    let perms = permutations(n);
    proof {
        lemma_sjt_shape(n as nat);
        lemma_fact_positive(n as nat);
        if n >= 1 {
            lemma_swaps_walk(n as nat);
        }
    }
    let ghost all = sjt(n as nat);
    let mut swap_position: Vec<usize> = Vec::new();
    let mut i: usize = 0;
    assert(perms@.len() == all.len());
    while i < perms.len() - 1
        invariant
            views(perms@) == all,
            all == sjt(n as nat),
            perms@.len() >= 1,
            forall|t: int| 0 <= t < all.len() ==> (#[trigger] all[t]).len() == n,
            i <= perms@.len() - 1,
            swap_position@ == diff_positions(all, i as nat),
            forall|t: int| 0 <= t < swap_position@.len() ==> #[trigger] swap_position@[t] < n,
        decreases perms@.len() - i,
    {
        assert(perms@[i as int]@ == all[i as int]);
        assert(perms@[i + 1]@ == all[i + 1]);
        let a = &perms[i];
        let b = &perms[i + 1];
        let mut pos: usize = 0;
        while pos < a.len()
            invariant
                a@ == all[i as int],
                b@ == all[i + 1],
                a@.len() == n,
                b@.len() == n,
                pos <= a@.len(),
                first_diff_from(a@, b@, 0) == first_diff_from(a@, b@, pos as int),
            ensures
                pos <= a@.len(),
                first_diff_from(a@, b@, 0) == first_diff_from(a@, b@, pos as int),
                pos < a@.len() ==> a@[pos as int] != b@[pos as int],
            decreases a@.len() - pos,
        {
            if a[pos] != b[pos] {
                break;
            }
            pos += 1;
        }
        proof {
            lemma_first_diff_bound(a@, b@, 0);
        }
        if pos < a.len() {
            swap_position.push(pos);
        }
        i += 1;
    }
    swap_position
}

/// `x` holds each of `1 ..= n` once.
pub open spec fn is_arrangement(x: Seq<usize>, n: nat) -> bool {
    &&& x.len() == n
    &&& forall|i: int| 0 <= i < x.len() ==> 1 <= #[trigger] x[i] <= n
    &&& x.no_duplicates()
}

/// `x` with the entries at `p` and `p + 1` exchanged.
pub open spec fn swap_adjacent(x: Seq<usize>, p: int) -> Seq<usize> {
    x.update(p, x[p + 1]).update(p + 1, x[p])
}

/// `1, 2, ..., n`.
pub open spec fn identity(n: nat) -> Seq<usize> {
    Seq::new(n, |i: int| (i + 1) as usize)
}

proof fn lemma_insert_arrangement(sub: Seq<usize>, n: nat, q: int)
    requires
        n >= 1,
        is_arrangement(sub, (n - 1) as nat),
        0 <= q <= sub.len(),
        n <= usize::MAX,
    ensures
        is_arrangement(sub.insert(q, n as usize), n),
{
    let x = sub.insert(q, n as usize);
    assert forall|a: int, b: int| 0 <= a < x.len() && 0 <= b < x.len() && a != b implies x[a]
        != x[b] by {
        if a != q && b != q {
            let sa = if a < q { a } else { a - 1 };
            let sb = if b < q { b } else { b - 1 };
            assert(x[a] == sub[sa] && x[b] == sub[sb]);
        } else if a == q {
            let sb = if b < q { b } else { b - 1 };
            assert(x[b] == sub[sb]);
        } else {
            let sa = if a < q { a } else { a - 1 };
            assert(x[a] == sub[sa]);
        }
    }
}

/// Moving the inserted element one place on is one adjacent swap.
proof fn lemma_insert_next(sub: Seq<usize>, v: usize, q: int)
    requires
        0 <= q < sub.len(),
    ensures
        sub.insert(q + 1, v) == swap_adjacent(sub.insert(q, v), q),
        sub.insert(q, v) == swap_adjacent(sub.insert(q + 1, v), q),
{
    assert(sub.insert(q + 1, v) =~= swap_adjacent(sub.insert(q, v), q));
    assert(sub.insert(q, v) =~= swap_adjacent(sub.insert(q + 1, v), q));
}

/// Inserting at an end keeps an adjacent swap of the rest, shifted past a front insertion.
proof fn lemma_insert_swapped(a: Seq<usize>, v: usize, p: int, at_front: bool)
    requires
        0 <= p,
        p + 1 < a.len(),
    ensures
        at_front ==> swap_adjacent(a, p).insert(0, v) == swap_adjacent(a.insert(0, v), p + 1),
        !at_front ==> swap_adjacent(a, p).insert(a.len() as int, v) == swap_adjacent(
            a.insert(a.len() as int, v),
            p,
        ),
{
    if at_front {
        assert(swap_adjacent(a, p).insert(0, v) =~= swap_adjacent(a.insert(0, v), p + 1));
    } else {
        assert(swap_adjacent(a, p).insert(a.len() as int, v) =~= swap_adjacent(
            a.insert(a.len() as int, v),
            p,
        ));
    }
}

proof fn lemma_insertions_at(sub: Seq<usize>, n: nat, parent: int, k: nat)
    ensures
        insertions(sub, n, parent, k).len() == k,
        forall|j: int|
            0 <= j < k ==> #[trigger] insertions(sub, n, parent, k)[j] == sub.insert(
                insert_position(n, parent, j),
                n as usize,
            ),
    decreases k,
{
    if k > 0 {
        lemma_insertions_at(sub, n, parent, (k - 1) as nat);
    }
}

/// Neighbours in a list differ by one adjacent swap, at a position below `n - 1`.
pub open spec fn adjacent_walk(perms: Seq<Seq<usize>>, n: nat) -> bool {
    forall|k: int|
        0 <= k < perms.len() - 1 ==> #[trigger] adjacent_step(perms[k], perms[k + 1], n)
}

pub open spec fn adjacent_step(x: Seq<usize>, y: Seq<usize>, n: nat) -> bool {
    exists|p: int| 0 <= p && p + 1 < n && y == #[trigger] swap_adjacent(x, p)
}

/// The permutations of one parent form a walk of adjacent swaps.
proof fn lemma_block_walk(sub: Seq<usize>, n: nat, parent: int)
    requires
        n >= 1,
        sub.len() == n - 1,
    ensures
        adjacent_walk(insertions(sub, n, parent, n), n),
{
    let b = insertions(sub, n, parent, n);
    lemma_insertions_at(sub, n, parent, n);
    assert forall|k: int| 0 <= k < b.len() - 1 implies #[trigger] adjacent_step(b[k], b[k + 1], n) by {
        let q = insert_position(n, parent, k);
        if parent % 2 == 1 {
            lemma_insert_next(sub, n as usize, k);
            assert(b[k + 1] == swap_adjacent(b[k], k));
        } else {
            lemma_insert_next(sub, n as usize, q - 1);
            assert(b[k + 1] == swap_adjacent(b[k], q - 1));
        }
    }
}

/// The first `i` blocks form a walk of adjacent swaps, and the last of them ends where the
/// parent's insertion position leaves it.
proof fn lemma_expand_walk(prev: Seq<Seq<usize>>, n: nat, i: nat)
    requires
        n >= 2,
        1 <= i <= prev.len(),
        forall|t: int| 0 <= t < prev.len() ==> (#[trigger] prev[t]).len() == n - 1,
        adjacent_walk(prev, (n - 1) as nat),
    ensures
        adjacent_walk(expand(prev, n, i), n),
        expand(prev, n, i).len() == i * n,
        expand(prev, n, i)[i * n - 1] == prev[i - 1].insert(
            insert_position(n, i - 1, n - 1),
            n as usize,
        ),
    decreases i,
{
    let b = insertions(prev[i - 1], n, i - 1, n);
    lemma_block_walk(prev[i - 1], n, i - 1);
    lemma_insertions_at(prev[i - 1], n, i - 1, n);
    if i == 1 {
        assert(expand(prev, n, 0) =~= Seq::<Seq<usize>>::empty());
        assert(expand(prev, n, 1) =~= b);
        assert(i * n == n) by (nonlinear_arith)
            requires
                i == 1,
        ;
        assert(expand(prev, n, i)[i * n - 1] == b[n - 1]);
    } else {
        lemma_expand_walk(prev, n, (i - 1) as nat);
        let a = expand(prev, n, (i - 1) as nat);
        let e = a + b;
        assert(e == expand(prev, n, i));
        assert((i - 1) * n + n == i * n) by (nonlinear_arith);
        // the step from the last of the previous block to the first of this one
        assert(adjacent_step(prev[i - 2], prev[i - 1], (n - 1) as nat)) by {
            assert(adjacent_step(prev[i - 2], prev[(i - 2) + 1], (n - 1) as nat));
        }
        let p = choose|p: int| 0 <= p && p + 1 < n - 1 && prev[i - 1] == #[trigger] swap_adjacent(prev[i - 2], p);
        let first = b[0];
        let last = a[a.len() - 1];
        if (i - 2) % 2 == 1 {
            lemma_insert_swapped(prev[i - 2], n as usize, p, false);
            assert(first == swap_adjacent(last, p));
        } else {
            lemma_insert_swapped(prev[i - 2], n as usize, p, true);
            assert(first == swap_adjacent(last, p + 1));
        }
        assert(adjacent_step(last, first, n));
        assert forall|k: int| 0 <= k < e.len() - 1 implies #[trigger] adjacent_step(e[k], e[k + 1], n) by {
            if k + 1 < a.len() {
                assert(e[k] == a[k] && e[k + 1] == a[k + 1]);
                assert(adjacent_step(a[k], a[k + 1], n));
            } else if k + 1 == a.len() {
                assert(e[k] == last && e[k + 1] == first);
            } else {
                let kb = k - a.len();
                assert(e[k] == b[kb] && e[k + 1] == b[kb + 1]);
                assert(adjacent_step(b[kb], b[kb + 1], n));
            }
        }
        assert(e[i * n - 1] == b[n - 1]);
    }
}

/// Every listed permutation holds each of `1 ..= n` once, neighbours are one adjacent swap
/// apart, and the first is `1, 2, ..., n`.
proof fn lemma_sjt_walk(n: nat)
    requires
        1 <= n <= usize::MAX,
    ensures
        forall|t: int| 0 <= t < sjt(n).len() ==> is_arrangement(#[trigger] sjt(n)[t], n),
        adjacent_walk(sjt(n), n),
        sjt(n)[0] == identity(n),
        sjt(n).len() == fact(n),
    decreases n,
{
    lemma_sjt_shape(n);
    let prev = sjt((n - 1) as nat);
    lemma_sjt_shape((n - 1) as nat);
    lemma_fact_positive((n - 1) as nat);
    let all = expand(prev, n, prev.len());
    assert(sjt(n) == all);
    if n == 1 {
        assert(prev =~= seq![Seq::<usize>::empty()]);
        lemma_insertions_at(prev[0], 1, 0, 1);
        assert(expand(prev, 1, 0) =~= Seq::<Seq<usize>>::empty());
        assert(all =~= insertions(prev[0], 1, 0, 1));
        assert(all[0] =~= identity(1));
    } else {
        lemma_sjt_walk((n - 1) as nat);
        lemma_expand_walk(prev, n, prev.len());
        // the first permutation appends n to the first parent
        lemma_expand_walk(prev, n, 1);
        assert(all[0] == expand(prev, n, 1)[0]) by {
            lemma_expand_prefix(prev, n, 1, prev.len());
        }
        lemma_insertions_at(prev[0], n, 0, n);
        assert(expand(prev, n, 0) =~= Seq::<Seq<usize>>::empty());
        assert(expand(prev, n, 1) =~= insertions(prev[0], n, 0, n));
        assert(all[0] =~= identity(n));
    }
    assert forall|t: int| 0 <= t < all.len() implies is_arrangement(#[trigger] all[t], n) by {
        lemma_expand_element(prev, n, prev.len(), t);
        let (i, q) = choose|i: int, q: int|
            0 <= i < prev.len() && 0 <= q <= n - 1 && all[t] == #[trigger] prev[i].insert(q, n as usize);
        if n == 1 {
            assert(is_arrangement(prev[i], 0));
        }
        lemma_insert_arrangement(prev[i], n, q);
    }
}

/// The first `i` blocks are a prefix of the first `j`.
proof fn lemma_expand_prefix(prev: Seq<Seq<usize>>, n: nat, i: nat, j: nat)
    requires
        i <= j,
    ensures
        forall|t: int| 0 <= t < expand(prev, n, i).len() ==> #[trigger] expand(prev, n, j)[t] == expand(
            prev,
            n,
            i,
        )[t],
        expand(prev, n, i).len() <= expand(prev, n, j).len(),
    decreases j,
{
    if j > i {
        lemma_expand_prefix(prev, n, i, (j - 1) as nat);
    }
}

/// Each permutation of the first `i` blocks inserts `n` into one of the parents.
proof fn lemma_expand_element(prev: Seq<Seq<usize>>, n: nat, i: nat, t: int)
    requires
        i <= prev.len(),
        0 <= t < expand(prev, n, i).len(),
    ensures
        exists|a: int, q: int|
            0 <= a < i && a < prev.len() && 0 <= q <= n - 1 && expand(prev, n, i)[t]
                == #[trigger] prev[a].insert(q, n as usize),
    decreases i,
{
    let a = expand(prev, n, (i - 1) as nat);
    let b = insertions(prev[i - 1], n, i - 1, n);
    lemma_insertions_at(prev[i - 1], n, i - 1, n);
    if t < a.len() {
        lemma_expand_element(prev, n, (i - 1) as nat, t);
        assert(expand(prev, n, i)[t] == a[t]);
    } else {
        let j = t - a.len();
        assert(expand(prev, n, i)[t] == b[j]);
        let q = insert_position(n, i - 1, j);
        assert(0 <= q <= n - 1);
    }
}

proof fn lemma_first_diff_swap(x: Seq<usize>, p: int, pos: int)
    requires
        x.no_duplicates(),
        0 <= pos <= p,
        p + 1 < x.len(),
    ensures
        first_diff_from(x, swap_adjacent(x, p), pos) == Some(p),
    decreases p - pos,
{
    let y = swap_adjacent(x, p);
    if pos < p {
        assert(x[pos] == y[pos]);
        lemma_first_diff_swap(x, p, pos + 1);
    } else {
        assert(y[p] == x[p + 1]);
        assert(x[p] != x[p + 1]);
    }
}

proof fn lemma_diff_positions_walk(perms: Seq<Seq<usize>>, n: nat, k: nat)
    requires
        adjacent_walk(perms, n),
        forall|t: int| 0 <= t < perms.len() ==> is_arrangement(#[trigger] perms[t], n),
        k < perms.len(),
        n <= usize::MAX,
    ensures
        diff_positions(perms, k).len() == k,
        forall|t: int|
            0 <= t < k ==> #[trigger] diff_positions(perms, k)[t] + 1 < n && perms[t + 1]
                == swap_adjacent(perms[t], diff_positions(perms, k)[t] as int),
    decreases k,
{
    if k > 0 {
        lemma_diff_positions_walk(perms, n, (k - 1) as nat);
        let x = perms[k - 1];
        assert(adjacent_step(x, perms[(k - 1) + 1], n));
        let p = choose|p: int| 0 <= p && p + 1 < n && perms[k as int] == #[trigger] swap_adjacent(x, p);
        assert(is_arrangement(x, n));
        lemma_first_diff_swap(x, p, 0);
        let rest = diff_positions(perms, (k - 1) as nat);
        let all = diff_positions(perms, k);
        assert(all == rest.push(p as usize));
        assert forall|t: int| 0 <= t < k implies #[trigger] all[t] + 1 < n && perms[t + 1]
            == swap_adjacent(perms[t], all[t] as int) by {
            if t < k - 1 {
                assert(all[t] == rest[t]);
            } else {
                assert(all[t] == p as usize);
            }
        }
    }
}

/// The swap positions walk through the permutations of `1 ..= n`: from `1, 2, ..., n`, swap
/// number `t` exchanges the entries at `sw[t]` and `sw[t] + 1` and gives the next permutation
/// of the list; there are `n! - 1` swaps, and the `n!` permutations they pass through are all
/// different and are all the arrangements of `1 ..= n`.
pub proof fn lemma_swaps_walk(n: nat)
    requires
        1 <= n <= usize::MAX,
    ensures
        sjt(n).len() == fact(n),
        swap_positions(n).len() == fact(n) - 1,
        sjt(n)[0] == identity(n),
        forall|t: int|
            0 <= t < swap_positions(n).len() ==> #[trigger] swap_positions(n)[t] + 1 < n
                && sjt(n)[t + 1] == swap_adjacent(sjt(n)[t], swap_positions(n)[t] as int),
        forall|t: int| 0 <= t < sjt(n).len() ==> is_arrangement(#[trigger] sjt(n)[t], n),
        sjt(n).no_duplicates(),
        forall|x: Seq<usize>| is_arrangement(x, n) ==> #[trigger] sjt(n).contains(x),
{
    lemma_sjt_walk(n);
    lemma_sjt_distinct(n);
    lemma_fact_positive(n);
    assert forall|x: Seq<usize>| is_arrangement(x, n) implies #[trigger] sjt(n).contains(x) by {
        lemma_sjt_complete(n, x);
    }
    lemma_diff_positions_walk(sjt(n), n, (sjt(n).len() - 1) as nat);
}

proof fn lemma_insert_injective(a: Seq<usize>, b: Seq<usize>, v: usize, p: int, q: int)
    requires
        !a.contains(v),
        !b.contains(v),
        0 <= p <= a.len(),
        0 <= q <= b.len(),
        a.insert(p, v) == b.insert(q, v),
    ensures
        p == q,
        a == b,
{
    let x = a.insert(p, v);
    assert(x.len() == a.len() + 1);
    assert(b.insert(q, v).len() == b.len() + 1);
    if p < q {
        assert(x[p] == v);
        assert(b.insert(q, v)[p] == b[p]);
    } else if q < p {
        assert(x[q] == b.insert(q, v)[q]);
        assert(x[q] == a[q]);
    }
    assert(a.len() == b.len());
    assert forall|k: int| 0 <= k < a.len() implies a[k] == b[k] by {
        if k < p {
            assert(x[k] == a[k] && b.insert(q, v)[k] == b[k]);
        } else {
            assert(x[k + 1] == a[k] && b.insert(q, v)[k + 1] == b[k]);
        }
    }
    assert(a =~= b);
}

proof fn lemma_expand_distinct(prev: Seq<Seq<usize>>, n: nat, i: nat)
    requires
        n >= 1,
        n <= usize::MAX,
        i <= prev.len(),
        prev.no_duplicates(),
        forall|t: int| 0 <= t < prev.len() ==> is_arrangement(#[trigger] prev[t], (n - 1) as nat),
    ensures
        expand(prev, n, i).no_duplicates(),
    decreases i,
{
    if i > 0 {
        lemma_expand_distinct(prev, n, (i - 1) as nat);
        let a = expand(prev, n, (i - 1) as nat);
        let sub = prev[i - 1];
        let b = insertions(sub, n, i - 1, n);
        lemma_insertions_at(sub, n, i - 1, n);
        assert(is_arrangement(sub, (n - 1) as nat));
        assert(!sub.contains(n as usize));
        let e = a + b;
        assert forall|x: int, y: int| 0 <= x < e.len() && 0 <= y < e.len() && x != y implies e[x]
            != e[y] by {
            if x < a.len() && y < a.len() {
                assert(e[x] == a[x] && e[y] == a[y]);
            } else if x >= a.len() && y >= a.len() {
                let jx = x - a.len();
                let jy = y - a.len();
                assert(e[x] == b[jx] && e[y] == b[jy]);
                if b[jx] == b[jy] {
                    lemma_insert_injective(
                        sub,
                        sub,
                        n as usize,
                        insert_position(n, i - 1, jx),
                        insert_position(n, i - 1, jy),
                    );
                }
            } else {
                let (ia, ib) = if x < a.len() { (x, y) } else { (y, x) };
                lemma_expand_element(prev, n, (i - 1) as nat, ia);
                let (pa, qa) = choose|pa: int, qa: int|
                    0 <= pa < i - 1 && pa < prev.len() && 0 <= qa <= n - 1 && a[ia]
                        == #[trigger] prev[pa].insert(qa, n as usize);
                let jb = ib - a.len();
                assert(e[ia] == a[ia] && e[ib] == b[jb]);
                assert(is_arrangement(prev[pa], (n - 1) as nat));
                assert(!prev[pa].contains(n as usize));
                if a[ia] == b[jb] {
                    lemma_insert_injective(
                        prev[pa],
                        sub,
                        n as usize,
                        qa,
                        insert_position(n, i - 1, jb),
                    );
                }
            }
        }
        assert(e == expand(prev, n, i));
    }
}

/// The `n!` listed permutations are distinct.
proof fn lemma_sjt_distinct(n: nat)
    requires
        n <= usize::MAX,
    ensures
        sjt(n).no_duplicates(),
    decreases n,
{
    if n >= 1 {
        lemma_sjt_distinct((n - 1) as nat);
        let prev = sjt((n - 1) as nat);
        if n >= 2 {
            lemma_sjt_walk((n - 1) as nat);
        } else {
            assert(prev =~= seq![Seq::<usize>::empty()]);
        }
        lemma_expand_distinct(prev, n, prev.len());
    }
}

/// Inserted permutations of parent `a` are listed among the first `i` blocks, for `a < i`.
proof fn lemma_expand_contains(prev: Seq<Seq<usize>>, n: nat, i: nat, a: int, j: int)
    requires
        0 <= a < i <= prev.len(),
        0 <= j < n,
    ensures
        expand(prev, n, i).contains(insertions(prev[a], n, a, n)[j]),
    decreases i,
{
    let left = expand(prev, n, (i - 1) as nat);
    let block = insertions(prev[i - 1], n, i - 1, n);
    lemma_insertions_at(prev[a], n, a, n);
    let e = insertions(prev[a], n, a, n)[j];
    if a == i - 1 {
        assert((left + block)[left.len() + j] == e);
    } else {
        lemma_expand_contains(prev, n, (i - 1) as nat, a, j);
        let y = choose|y: int| 0 <= y < left.len() && left[y] == e;
        assert((left + block)[y] == e);
    }
}

/// Every arrangement of `1 ..= n` is listed.
proof fn lemma_sjt_complete(n: nat, x: Seq<usize>)
    requires
        n <= usize::MAX,
        is_arrangement(x, n),
    ensures
        sjt(n).contains(x),
    decreases n,
{
    if n == 0 {
        assert(x =~= Seq::<usize>::empty());
        assert(sjt(0)[0] == x);
    } else {
        // the position of n in x, and x without it
        lemma_arrangement_holds_max(x, n);
        let q = choose|q: int| 0 <= q < n && x[q] == n as usize;
        let y = x.remove(q);
        assert(y.insert(q, n as usize) =~= x);
        assert(is_arrangement(y, (n - 1) as nat)) by {
            assert forall|k: int| 0 <= k < y.len() implies 1 <= #[trigger] y[k] <= n - 1 by {
                let kx = if k < q { k } else { k + 1 };
                assert(y[k] == x[kx]);
                assert(kx != q);
                assert(x[kx] != x[q]);
            }
            assert forall|a: int, b: int| 0 <= a < y.len() && 0 <= b < y.len() && a != b implies y[a]
                != y[b] by {
                let ax = if a < q { a } else { a + 1 };
                let bx = if b < q { b } else { b + 1 };
                assert(y[a] == x[ax] && y[b] == x[bx]);
            }
        }
        lemma_sjt_complete((n - 1) as nat, y);
        let prev = sjt((n - 1) as nat);
        let a = choose|a: int| 0 <= a < prev.len() && prev[a] == y;
        let j = if a % 2 == 1 { q } else { n - 1 - q };
        assert(insert_position(n, a, j) == q);
        lemma_insertions_at(y, n, a, n);
        assert(insertions(prev[a], n, a, n)[j] == x);
        lemma_expand_contains(prev, n, prev.len(), a, j);
    }
}

/// An arrangement of `1 ..= n` holds `n`.
proof fn lemma_arrangement_holds_max(x: Seq<usize>, n: nat)
    requires
        n >= 1,
        is_arrangement(x, n),
    ensures
        exists|q: int| 0 <= q < n && x[q] == n as usize,
{
    // the entries are n distinct values in 1 ..= n; without n they would be n values in 1 ..= n - 1
    if forall|q: int| 0 <= q < n ==> x[q] != n as usize {
        let s = x.to_set();
        x.unique_seq_to_set();
        let f = |v: int| v as usize;
        let r = vstd::set_lib::set_int_range(1, n as int);
        vstd::set_lib::lemma_int_range(1, n as int);
        vstd::set_lib::lemma_map_size_bound(r, r.map(f), f);
        assert forall|v: usize| s.contains(v) implies r.map(f).contains(v) by {
            let k = choose|k: int| 0 <= k < x.len() && x[k] == v;
            assert(r.contains(v as int));
            assert(f(v as int) == v);
        }
        vstd::set_lib::lemma_len_subset(s, r.map(f));
    }
}

} // verus!
