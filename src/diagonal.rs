use vstd::prelude::*;
use vstd::arithmetic::div_mod::{lemma_add_mod_noop, lemma_small_mod, lemma_mod_self_0};

verus! {

/// Number of diagonal-filter configurations of an intersection with `k` roads: the unfiltered
/// one, plus one for each way of cutting the cyclic order of its roads into two non-empty arcs.
pub open spec fn num_states(k: int) -> int {
    if k < 2 {
        1
    } else {
        1 + k * (k - 1) / 2
    }
}

/// Successor of the arc `[start, end)` in the canonical rotation: arcs are ordered by their end,
/// then by their start.
pub open spec fn next_split(se: (int, int)) -> (int, int) {
    if se.0 + 1 < se.1 {
        (se.0 + 1, se.1)
    } else {
        (1, se.1 + 1)
    }
}

pub open spec fn walk_split(se: (int, int), n: nat) -> (int, int)
    decreases n,
{
    if n == 0 {
        se
    } else {
        walk_split(next_split(se), (n - 1) as nat)
    }
}

/// The arc of positions `[start, end)` that forms the first group of configuration `state`
/// (for `state >= 1`); the arc never holds position 0, whose road is always in the second group.
pub open spec fn split_of(state: int) -> (int, int) {
    walk_split((1, 2), (state - 1) as nat)
}

/// Whether road `r` lies in the first group of configuration `state`.
pub open spec fn in_first_group(roads: Seq<usize>, state: int, r: usize) -> bool {
    exists|p: int| split_of(state).0 <= p < split_of(state).1 && 0 <= p < roads.len() && roads[p] == r
}

/// Whether configuration `state` forbids the movement from `from` into `to`: it does when the
/// two roads fall in different groups.
pub open spec fn diagonal_blocks(roads: Seq<usize>, state: int, from: usize, to: usize) -> bool {
    state != 0 && in_first_group(roads, state, from) != in_first_group(roads, state, to)
}

/// The configuration that follows `state` at an intersection with `k` roads; wraps to unfiltered.
pub open spec fn next_state(state: int, k: int) -> int {
    if state + 1 < num_states(k) {
        state + 1
    } else {
        0
    }
}

/// The configuration reached after cycling `n` times.
pub open spec fn cycled_times(state: int, k: int, n: nat) -> int
    decreases n,
{
    if n == 0 {
        state
    } else {
        next_state(cycled_times(state, k, (n - 1) as nat), k)
    }
}

proof fn lemma_cycled_times_mod(state: int, k: int, n: nat)
    requires
        0 <= state < num_states(k),
    ensures
        cycled_times(state, k, n) == (state + n) % num_states(k),
    decreases n,
{
    let m = num_states(k);
    if n == 0 {
        lemma_small_mod(state as nat, m as nat);
    } else {
        lemma_cycled_times_mod(state, k, (n - 1) as nat);
        let prev = (state + n - 1) % m;
        lemma_add_mod_noop(state + n - 1, 1, m);
        if m == 1 {
            assert((state + n) % 1 == 0);
        } else {
            lemma_small_mod(1, m as nat);
            if prev + 1 < m {
                lemma_small_mod((prev + 1) as nat, m as nat);
            } else {
                lemma_mod_self_0(m);
            }
        }
    }
}

/// Cycling an intersection's diagonal filter once per configuration brings it back to where it
/// started.
pub proof fn lemma_rotation_closure(state: int, k: int)
    requires
        0 <= state < num_states(k),
    ensures
        cycled_times(state, k, num_states(k) as nat) == state,
{
    lemma_cycled_times_mod(state, k, num_states(k) as nat);
    vstd::arithmetic::div_mod::lemma_mod_add_multiples_vanish(state, num_states(k));
    lemma_small_mod(state as nat, num_states(k) as nat);
}

/// Computes the arc of configuration `state`.
pub fn split_of_state(state: u64) -> (res: (u64, u64))
    requires
        1 <= state < u64::MAX / 2,
    ensures
        res.0 as int == split_of(state as int).0,
        res.1 as int == split_of(state as int).1,
{
    let mut cur: (u64, u64) = (1, 2);
    let mut j: u64 = 1;
    while j < state
        invariant
            1 <= j <= state < u64::MAX / 2,
            1 <= cur.0 < cur.1 <= j + 1,
            walk_split((cur.0 as int, cur.1 as int), (state - j) as nat) == split_of(state as int),
        decreases state - j,
    {
        if cur.0 + 1 < cur.1 {
            cur = (cur.0 + 1, cur.1);
        } else {
            cur = (1, cur.1 + 1);
        }
        j = j + 1;
    }
    cur
}

/// Decides whether road `r` lies in the first group of configuration `state`.
pub fn first_group_holds(roads: &Vec<usize>, state: u64, r: usize) -> (res: bool)
    requires
        1 <= state < u64::MAX / 2,
    ensures
        res == in_first_group(roads@, state as int, r),
{
    let (s, e) = split_of_state(state);
    let mut p: usize = 0;
    while p < roads.len()
        invariant
            p <= roads@.len(),
            s as int == split_of(state as int).0,
            e as int == split_of(state as int).1,
            forall|q: int| 0 <= q < p && s <= q < e ==> roads@[q] != r,
        decreases roads@.len() - p,
    {
        if s <= p as u64 && (p as u64) < e && roads[p] == r {
            return true;
        }
        p = p + 1;
    }
    false
}

/// Decides whether configuration `state` forbids the movement from `from` into `to`.
pub fn blocks(roads: &Vec<usize>, state: u64, from: usize, to: usize) -> (res: bool)
    requires
        state < u64::MAX / 2,
    ensures
        res == diagonal_blocks(roads@, state as int, from, to),
{
    if state == 0 {
        return false;
    }
    first_group_holds(roads, state, from) != first_group_holds(roads, state, to)
}

/// Number of configurations for `k` roads.
pub fn count_states(k: usize) -> (res: u64)
    requires
        k <= 65536,
    ensures
        res as int == num_states(k as int),
        res <= 1 + 65536 * 65535 / 2,
{
    if k < 2 {
        1
    } else {
        let kk = k as u64;
        assert(kk * (kk - 1) <= 65536 * 65535) by (nonlinear_arith)
            requires kk <= 65536, kk >= 2;
        assert(kk * (kk - 1) / 2 <= 65536 * 65535 / 2) by (nonlinear_arith)
            requires kk * (kk - 1) <= 65536 * 65535;
        1 + kk * (kk - 1) / 2
    }
}

/// The configuration that follows `state` at an intersection with `k` roads.
pub fn next_config(state: u64, k: usize) -> (res: u64)
    requires
        k <= 65536,
    ensures
        res as int == next_state(state as int, k as int),
{
    let n = count_states(k);
    if state < n - 1 {
        state + 1
    } else {
        0
    }
}

} // verus!
