use vstd::prelude::*;
use crate::network::RoadNetwork;
use crate::diagonal::{diagonal_blocks, blocks, count_states, num_states};
use crate::filters::state_fits;

verus! {

/// A node of the search graph is a road driven in one direction: node `2 * r` drives road `r`
/// from `src` to `dst`, node `2 * r + 1` from `dst` to `src`.
pub open spec fn node_road(n: int) -> int {
    n / 2
}

pub open spec fn node_start(net: &RoadNetwork, n: int) -> usize {
    if n % 2 == 0 {
        net.road(n / 2).src
    } else {
        net.road(n / 2).dst
    }
}

pub open spec fn node_end(net: &RoadNetwork, n: int) -> usize {
    if n % 2 == 0 {
        net.road(n / 2).dst
    } else {
        net.road(n / 2).src
    }
}

pub open spec fn node_length(net: &RoadNetwork, n: int) -> int {
    net.road(n / 2).length as int
}

/// A through-route may drive node `n`: an interior road without a point filter, open to cars,
/// driven in a direction its one-way flag allows.
pub open spec fn usable(
    net: &RoadNetwork,
    interior: Seq<usize>,
    f: (Seq<Option<u64>>, Seq<u64>),
    n: int,
) -> bool {
    &&& 0 <= n < 2 * net.num_roads()
    &&& interior.contains((n / 2) as usize)
    &&& f.0[n / 2] is None
    &&& net.road(n / 2).car_allowed
    &&& (n % 2 == 0 || !net.road(n / 2).oneway)
}

/// A route may go from node `a` straight on into node `b`: they meet at an intersection where
/// the movement is legal and the diagonal filter does not forbid it.
pub open spec fn step_ok(net: &RoadNetwork, f: (Seq<Option<u64>>, Seq<u64>), a: int, b: int) -> bool {
    let i = node_end(net, a) as int;
    &&& node_start(net, b) as int == i
    &&& net.movement_ok(i, a / 2, b / 2)
    &&& !diagonal_blocks(net.roads_at(i), f.1[i] as int, (a / 2) as usize, (b / 2) as usize)
}

/// `w` is a route through the interior that starts at intersection `from`.
pub open spec fn valid_walk(
    net: &RoadNetwork,
    interior: Seq<usize>,
    f: (Seq<Option<u64>>, Seq<u64>),
    w: Seq<usize>,
    from: usize,
) -> bool {
    &&& w.len() >= 1
    &&& node_start(net, w[0] as int) == from
    &&& forall|k: int| 0 <= k < w.len() ==> #[trigger] usable(net, interior, f, w[k] as int)
    &&& forall|k: int| 0 <= k < w.len() - 1 ==> #[trigger] step_ok(net, f, w[k] as int, w[k + 1] as int)
}

/// Total centerline length of the roads of `w`.
pub open spec fn walk_cost(net: &RoadNetwork, w: Seq<usize>) -> int
    decreases w.len(),
{
    if w.len() == 0 {
        0
    } else {
        walk_cost(net, w.drop_last()) + node_length(net, w.last() as int)
    }
}

/// The outcome of a search from `from`: `dist[v]` is the cost of a cheapest route ending with
/// node `v` (`u64::MAX` when no route costs less), and `paths[v]` is such a route.
pub open spec fn search_result(
    net: &RoadNetwork,
    interior: Seq<usize>,
    f: (Seq<Option<u64>>, Seq<u64>),
    from: usize,
    dist: Seq<u64>,
    paths: Seq<Vec<usize>>,
) -> bool {
    &&& dist.len() == 2 * net.num_roads()
    &&& paths.len() == 2 * net.num_roads()
    &&& walks_found(net, interior, f, from, dist, paths)
    &&& forall|w: Seq<usize>|
        #[trigger] valid_walk(net, interior, f, w, from) ==> dist[w.last() as int] <= walk_cost(
            net,
            w,
        )
}

/// Each finite distance is the cost of the route recorded beside it.
pub open spec fn walks_found(
    net: &RoadNetwork,
    interior: Seq<usize>,
    f: (Seq<Option<u64>>, Seq<u64>),
    from: usize,
    dist: Seq<u64>,
    paths: Seq<Vec<usize>>,
) -> bool {
    forall|v: int|
        0 <= v < dist.len() && #[trigger] dist[v] < u64::MAX ==> {
            &&& valid_walk(net, interior, f, paths[v]@, from)
            &&& paths[v]@.last() == v
            &&& walk_cost(net, paths[v]@) == dist[v]
        }
}

/// Whether relaxing the step from `u` into `v` would improve nothing.
spec fn step_relaxed(
    net: &RoadNetwork,
    interior: Seq<usize>,
    f: (Seq<Option<u64>>, Seq<u64>),
    dist: Seq<u64>,
    u: int,
    v: int,
) -> bool {
    dist[u] < u64::MAX && usable(net, interior, f, v) && step_ok(net, f, u, v) ==> dist[v]
        <= dist[u] + node_length(net, v)
}

proof fn lemma_walk_extend(
    net: &RoadNetwork,
    interior: Seq<usize>,
    f: (Seq<Option<u64>>, Seq<u64>),
    from: usize,
    w: Seq<usize>,
    v: usize,
)
    requires
        valid_walk(net, interior, f, w, from),
        usable(net, interior, f, v as int),
        step_ok(net, f, w.last() as int, v as int),
    ensures
        valid_walk(net, interior, f, w.push(v), from),
        walk_cost(net, w.push(v)) == walk_cost(net, w) + node_length(net, v as int),
        w.push(v).last() == v,
{
    let t = w.push(v);
    assert(t.drop_last() =~= w);
    assert forall|k: int| 0 <= k < t.len() implies #[trigger] usable(net, interior, f, t[k] as int) by {
        if k < w.len() {
            assert(usable(net, interior, f, w[k] as int));
        }
    }
    assert forall|k: int| 0 <= k < t.len() - 1 implies #[trigger] step_ok(net, f, t[k] as int, t[k + 1] as int) by {
        if k < w.len() - 1 {
            assert(step_ok(net, f, w[k] as int, w[k + 1] as int));
        } else {
            assert(t[k] == w.last());
        }
    }
}

fn copy_push(p: &Vec<usize>, x: usize) -> (res: Vec<usize>)
    ensures
        res@ == p@.push(x),
{
    let mut res: Vec<usize> = Vec::new();
    let mut k: usize = 0;
    while k < p.len()
        invariant
            k <= p@.len(),
            res@ == p@.subrange(0, k as int),
        decreases p@.len() - k,
    {
        res.push(p[k]);
        k = k + 1;
    }
    res.push(x);
    assert(res@ =~= p@.push(x));
    res
}

/// The search graph is relaxed: no step improves on the distances.
spec fn relaxed(
    net: &RoadNetwork,
    interior: Seq<usize>,
    f: (Seq<Option<u64>>, Seq<u64>),
    from: usize,
    dist: Seq<u64>,
) -> bool {
    &&& forall|v: int|
        0 <= v < dist.len() && #[trigger] usable(net, interior, f, v) && node_start(net, v) == from
            ==> dist[v] <= node_length(net, v)
    &&& forall|u: int, v: int|
        0 <= u < dist.len() && 0 <= v < dist.len() && dist[u] < u64::MAX && #[trigger] usable(
            net,
            interior,
            f,
            v,
        ) && #[trigger] step_ok(net, f, u, v) ==> dist[v] <= dist[u] + node_length(net, v)
}

proof fn lemma_relaxed_bound(
    net: &RoadNetwork,
    interior: Seq<usize>,
    f: (Seq<Option<u64>>, Seq<u64>),
    from: usize,
    dist: Seq<u64>,
    w: Seq<usize>,
)
    requires
        dist.len() == 2 * net.num_roads(),
        relaxed(net, interior, f, from, dist),
        valid_walk(net, interior, f, w, from),
    ensures
        dist[w.last() as int] <= walk_cost(net, w),
    decreases w.len(),
{
    let v = w.last() as int;
    assert(usable(net, interior, f, w[w.len() - 1] as int));
    if w.len() == 1 {
        assert(usable(net, interior, f, w[0] as int));
        assert(w.drop_last().len() == 0);
        assert(w.last() == w[0]);
        assert(walk_cost(net, w) == walk_cost(net, w.drop_last()) + node_length(net, v));
    } else {
        let p = w.drop_last();
        assert forall|k: int| 0 <= k < p.len() implies #[trigger] usable(net, interior, f, p[k] as int) by {
            assert(usable(net, interior, f, w[k] as int));
        }
        assert forall|k: int| 0 <= k < p.len() - 1 implies #[trigger] step_ok(net, f, p[k] as int, p[k + 1] as int) by {
            assert(step_ok(net, f, w[k] as int, w[k + 1] as int));
        }
        lemma_relaxed_bound(net, interior, f, from, dist, p);
        let u = w[w.len() - 2] as int;
        assert(p.last() == w[w.len() - 2]);
        assert(usable(net, interior, f, w[w.len() - 2] as int));
        assert(step_ok(net, f, w[w.len() - 2] as int, w[w.len() - 2 + 1] as int));
        assert(step_ok(net, f, u, v));
        assert(usable(net, interior, f, v));
        assert(walk_cost(net, w) == walk_cost(net, p) + node_length(net, v));
        walk_cost_nonneg(net, p);
        assert(0 <= u < dist.len());
        assert(0 <= v < dist.len());
        if dist[u] < u64::MAX {
            assert(dist[v] <= dist[u] + node_length(net, v));
        }
    }
}

proof fn walk_cost_nonneg(net: &RoadNetwork, w: Seq<usize>)
    ensures
        walk_cost(net, w) >= 0,
    decreases w.len(),
{
    if w.len() > 0 {
        walk_cost_nonneg(net, w.drop_last());
    }
}

/// Sum of the entries of `s`.
spec fn total(s: Seq<u64>) -> int
    decreases s.len(),
{
    if s.len() == 0 {
        0
    } else {
        total(s.drop_last()) + s.last()
    }
}

proof fn lemma_total_update(s: Seq<u64>, i: int, x: u64)
    requires
        0 <= i < s.len(),
    ensures
        total(s.update(i, x)) == total(s) - s[i] + x,
        total(s) >= 0,
    decreases s.len(),
{
    let t = s.update(i, x);
    if i == s.len() - 1 {
        assert(t.drop_last() =~= s.drop_last());
        lemma_total_nonneg(s.drop_last());
    } else {
        assert(t.drop_last() =~= s.drop_last().update(i, x));
        lemma_total_update(s.drop_last(), i, x);
    }
}

proof fn lemma_total_nonneg(s: Seq<u64>)
    ensures
        total(s) >= 0,
    decreases s.len(),
{
    if s.len() > 0 {
        lemma_total_nonneg(s.drop_last());
    }
}

/// Decides whether node `n` is usable.
fn node_usable(
    net: &RoadNetwork,
    interior_mask: &Vec<bool>,
    f: &crate::filters::FilterState,
    n: usize,
) -> (res: bool)
    requires
        net.wf(),
        n < 2 * net.num_roads(),
        interior_mask@.len() == net.num_roads(),
        f@.0.len() == net.num_roads(),
    ensures
        res == (interior_mask@[n as int / 2] && f@.0[n as int / 2] is None && net.road(
            n as int / 2,
        ).car_allowed && (n % 2 == 0 || !net.road(n as int / 2).oneway)),
{
    let r = n / 2;
    let road = net.roads[r];
    interior_mask[r] && f.roads[r].is_none() && road.car_allowed && (n % 2 == 0 || !road.oneway)
}

/// Decides whether a route may go from node `a` into node `b`.
fn step_allowed(net: &RoadNetwork, f: &crate::filters::FilterState, a: usize, b: usize) -> (res:
    bool)
    requires
        net.wf(),
        a < 2 * net.num_roads(),
        b < 2 * net.num_roads(),
        state_fits(net, f@),
    ensures
        res == step_ok(net, f@, a as int, b as int),
{
    let ra = net.roads[a / 2];
    let rb = net.roads[b / 2];
    let i = if a % 2 == 0 { ra.dst } else { ra.src };
    let start_b = if b % 2 == 0 { rb.src } else { rb.dst };
    if start_b != i {
        return false;
    }
    if !net.can_move(i, a / 2, b / 2) {
        return false;
    }
    let roads = &net.intersections[i].roads;
    let bound = count_states(roads.len());
    let state = f.diagonals[i];
    assert(state < bound);
    !blocks(roads, state, a / 2, b / 2)
}

/// Cheapest routes from intersection `from` to every node, by relaxing steps until nothing
/// improves.
fn shortest_walks(
    net: &RoadNetwork,
    interior: Ghost<Seq<usize>>,
    mask: &Vec<bool>,
    f: &crate::filters::FilterState,
    from: usize,
) -> (res: (Vec<u64>, Vec<Vec<usize>>))
    requires
        net.wf(),
        mask@.len() == net.num_roads(),
        forall|r: int| 0 <= r < net.num_roads() ==> #[trigger] mask@[r] == interior@.contains(r as usize),
        state_fits(net, f@),
    ensures
        search_result(net, interior@, f@, from, res.0@, res.1@),
{
    let n = net.roads.len() * 2;
    let mut dist: Vec<u64> = Vec::new();
    let mut paths: Vec<Vec<usize>> = Vec::new();
    let mut v: usize = 0;
    while v < n
        invariant
            net.wf(),
            n == 2 * net.num_roads(),
            mask@.len() == net.num_roads(),
            forall|r: int| 0 <= r < net.num_roads() ==> #[trigger] mask@[r] == interior@.contains(r as usize),
            state_fits(net, f@),
            v <= n,
            dist@.len() == v,
            paths@.len() == v,
            walks_found(net, interior@, f@, from, dist@, paths@),
            forall|x: int|
                0 <= x < v && #[trigger] usable(net, interior@, f@, x) && node_start(net, x) == from
                    ==> dist@[x] <= node_length(net, x),
        decreases n - v,
    {
        let road = net.roads[v / 2];
        let start = if v % 2 == 0 { road.src } else { road.dst };
        let ghost before = dist@;
        let ghost before_paths = paths@;
        if node_usable(net, mask, f, v) && start == from {
            dist.push(road.length);
            let mut p: Vec<usize> = Vec::new();
            p.push(v);
            paths.push(p);
            proof {
                let w = paths@[v as int]@;
                assert(w.drop_last() =~= Seq::<usize>::empty());
                assert(usable(net, interior@, f@, w[0] as int));
                assert(valid_walk(net, interior@, f@, w, from));
                assert(w.last() == v);
                assert(walk_cost(net, w) == walk_cost(net, w.drop_last()) + node_length(net, v as int));
            }
        } else {
            dist.push(u64::MAX);
            paths.push(Vec::new());
        }
        assert forall|x: int| 0 <= x < v + 1 && #[trigger] dist@[x] < u64::MAX implies {
            &&& valid_walk(net, interior@, f@, paths@[x]@, from)
            &&& paths@[x]@.last() == x
            &&& walk_cost(net, paths@[x]@) == dist@[x]
        } by {
            if x < v {
                assert(before[x] == dist@[x]);
                assert(before_paths[x] == paths@[x]);
            }
        }
        assert forall|x: int|
            0 <= x < v + 1 && #[trigger] usable(net, interior@, f@, x) && node_start(net, x) == from
                implies dist@[x] <= node_length(net, x) by {
            if x < v {
                assert(before[x] == dist@[x]);
            }
        }
        v = v + 1;
    }
    let mut changed = true;
    while changed
        invariant
            net.wf(),
            n == 2 * net.num_roads(),
            mask@.len() == net.num_roads(),
            forall|r: int| 0 <= r < net.num_roads() ==> #[trigger] mask@[r] == interior@.contains(r as usize),
            state_fits(net, f@),
            dist@.len() == n,
            paths@.len() == n,
            walks_found(net, interior@, f@, from, dist@, paths@),
            forall|x: int|
                0 <= x < n && #[trigger] usable(net, interior@, f@, x) && node_start(net, x) == from
                    ==> dist@[x] <= node_length(net, x),
            !changed ==> relaxed(net, interior@, f@, from, dist@),
        decreases total(dist@) + if changed { 1int } else { 0int },
    {
        proof {
            lemma_total_nonneg(dist@);
        }
        let ghost d0 = dist@;
        changed = false;
        let mut v: usize = 0;
        while v < n
            invariant
                net.wf(),
                n == 2 * net.num_roads(),
                mask@.len() == net.num_roads(),
                forall|r: int| 0 <= r < net.num_roads() ==> #[trigger] mask@[r] == interior@.contains(r as usize),
                state_fits(net, f@),
                v <= n,
                dist@.len() == n,
                paths@.len() == n,
                walks_found(net, interior@, f@, from, dist@, paths@),
                forall|x: int|
                    0 <= x < n && #[trigger] usable(net, interior@, f@, x) && node_start(net, x) == from
                        ==> dist@[x] <= node_length(net, x),
                total(dist@) + (if changed { 1int } else { 0int }) <= total(d0),
                !changed ==> dist@ == d0,
                !changed ==> forall|a: int, b: int|
                    0 <= a < n && 0 <= b < v ==> #[trigger] step_relaxed(net, interior@, f@, dist@, a, b),
            decreases n - v,
        {
            let mut u: usize = 0;
            while u < n
                invariant
                    net.wf(),
                    n == 2 * net.num_roads(),
                    mask@.len() == net.num_roads(),
                    forall|r: int| 0 <= r < net.num_roads() ==> #[trigger] mask@[r] == interior@.contains(r as usize),
                    state_fits(net, f@),
                    v < n,
                    u <= n,
                    dist@.len() == n,
                    paths@.len() == n,
                    walks_found(net, interior@, f@, from, dist@, paths@),
                    forall|x: int|
                        0 <= x < n && #[trigger] usable(net, interior@, f@, x) && node_start(net, x) == from
                            ==> dist@[x] <= node_length(net, x),
                    total(dist@) + (if changed { 1int } else { 0int }) <= total(d0),
                    !changed ==> dist@ == d0,
                    !changed ==> forall|a: int, b: int|
                        0 <= a < n && 0 <= b < v ==> #[trigger] step_relaxed(net, interior@, f@, dist@, a, b),
                    !changed ==> forall|a: int|
                        0 <= a < u ==> #[trigger] step_relaxed(net, interior@, f@, dist@, a, v as int),
                decreases n - u,
            {
                let du = dist[u];
                let len = net.roads[v / 2].length;
                if du < u64::MAX && du <= u64::MAX - len && node_usable(net, mask, f, v)
                    && step_allowed(net, f, u, v) {
                    let cand = du + len;
                    if cand < dist[v] {
                        let ghost before = dist@;
                        let ghost old_paths = paths@;
                        let np = copy_push(&paths[u], v);
                        proof {
                            assert(dist@[u as int] < u64::MAX);
                            assert(paths@[u as int]@.last() == u);
                            assert(usable(net, interior@, f@, v as int));
                            lemma_walk_extend(net, interior@, f@, from, paths@[u as int]@, v);
                            lemma_total_update(dist@, v as int, cand);
                        }
                        dist.set(v, cand);
                        paths.set(v, np);
                        changed = true;
                        assert forall|x: int| 0 <= x < dist@.len() && #[trigger] dist@[x] < u64::MAX implies {
                            &&& valid_walk(net, interior@, f@, paths@[x]@, from)
                            &&& paths@[x]@.last() == x
                            &&& walk_cost(net, paths@[x]@) == dist@[x]
                        } by {
                            if x != v {
                                assert(before[x] == dist@[x]);
                                assert(old_paths[x] == paths@[x]);
                            }
                        }
                        assert forall|x: int|
                            0 <= x < n && #[trigger] usable(net, interior@, f@, x) && node_start(net, x) == from
                                implies dist@[x] <= node_length(net, x) by {
                            assert(before[x] <= node_length(net, x));
                        }
                    }
                }
                u = u + 1;
            }
            v = v + 1;
        }
        proof {
            if !changed {
                assert forall|a: int, b: int|
                    0 <= a < dist@.len() && 0 <= b < dist@.len() && dist@[a] < u64::MAX && #[trigger] usable(
                        net,
                        interior@,
                        f@,
                        b,
                    ) && #[trigger] step_ok(net, f@, a, b) implies dist@[b] <= dist@[a] + node_length(net, b) by {
                    assert(step_relaxed(net, interior@, f@, dist@, a, b));
                }
            }
            lemma_total_nonneg(dist@);
        }
    }
    proof {
        assert forall|w: Seq<usize>|
            #[trigger] valid_walk(net, interior@, f@, w, from) implies dist@[w.last() as int] <= walk_cost(
                net,
                w,
            ) by {
            lemma_relaxed_bound(net, interior@, f@, from, dist@, w);
        }
    }
    (dist, paths)
}

/// `w` is a route through the interior from intersection `a` to intersection `b`.
pub open spec fn route(
    net: &RoadNetwork,
    interior: Seq<usize>,
    f: (Seq<Option<u64>>, Seq<u64>),
    w: Seq<usize>,
    a: usize,
    b: usize,
) -> bool {
    valid_walk(net, interior, f, w, a) && node_end(net, w.last() as int) == b
}

/// `res` is a cheapest route from `a` to `b` when there is one, and `None` when there is none
/// (routes costing `u64::MAX` or more count as none).
pub open spec fn cheapest_route(
    net: &RoadNetwork,
    interior: Seq<usize>,
    f: (Seq<Option<u64>>, Seq<u64>),
    a: usize,
    b: usize,
    res: Option<Seq<usize>>,
) -> bool {
    match res {
        Some(p) => {
            &&& route(net, interior, f, p, a, b)
            &&& walk_cost(net, p) < u64::MAX
            &&& forall|w: Seq<usize>|
                #[trigger] route(net, interior, f, w, a, b) ==> walk_cost(net, p) <= walk_cost(
                    net,
                    w,
                )
        },
        None => forall|w: Seq<usize>|
            #[trigger] route(net, interior, f, w, a, b) ==> walk_cost(net, w) >= u64::MAX,
    }
}

/// `res` is a cheapest route between `a` and `b`, driven either way, when there is one, and
/// `None` when there is none.
pub open spec fn cheapest_either(
    net: &RoadNetwork,
    interior: Seq<usize>,
    f: (Seq<Option<u64>>, Seq<u64>),
    a: usize,
    b: usize,
    res: Option<Seq<usize>>,
) -> bool {
    match res {
        Some(p) => {
            &&& (route(net, interior, f, p, a, b) || route(net, interior, f, p, b, a))
            &&& walk_cost(net, p) < u64::MAX
            &&& forall|w: Seq<usize>|
                #[trigger] route(net, interior, f, w, a, b) ==> walk_cost(net, p) <= walk_cost(
                    net,
                    w,
                )
            &&& forall|w: Seq<usize>|
                #[trigger] route(net, interior, f, w, b, a) ==> walk_cost(net, p) <= walk_cost(
                    net,
                    w,
                )
        },
        None => {
            &&& forall|w: Seq<usize>|
                #[trigger] route(net, interior, f, w, a, b) ==> walk_cost(net, w) >= u64::MAX
            &&& forall|w: Seq<usize>|
                #[trigger] route(net, interior, f, w, b, a) ==> walk_cost(net, w) >= u64::MAX
        },
    }
}

/// The cheaper of the two directions is a cheapest route either way; on equal cost the one
/// from `a` to `b` is taken.
proof fn lemma_either(
    net: &RoadNetwork,
    interior: Seq<usize>,
    f: (Seq<Option<u64>>, Seq<u64>),
    a: usize,
    b: usize,
    fwd: Option<Seq<usize>>,
    bwd: Option<Seq<usize>>,
)
    requires
        cheapest_route(net, interior, f, a, b, fwd),
        cheapest_route(net, interior, f, b, a, bwd),
    ensures
        fwd is Some && (bwd is None || walk_cost(net, fwd.unwrap()) <= walk_cost(net, bwd.unwrap()))
            ==> cheapest_either(net, interior, f, a, b, fwd),
        !(fwd is Some && (bwd is None || walk_cost(net, fwd.unwrap()) <= walk_cost(net, bwd.unwrap())))
            ==> cheapest_either(net, interior, f, a, b, bwd),
{
}

pub open spec fn opt_view(o: Option<Vec<usize>>) -> Option<Seq<usize>> {
    match o {
        Some(v) => Some(v@),
        None => None,
    }
}

/// Picks, among the searched routes, a cheapest one that ends at `b`; on equal cost the lowest
/// node wins.
fn best_to(
    net: &RoadNetwork,
    interior: Ghost<Seq<usize>>,
    f: &crate::filters::FilterState,
    a: usize,
    b: usize,
    dist: &Vec<u64>,
    paths: &Vec<Vec<usize>>,
) -> (res: (Option<Vec<usize>>, u64))
    requires
        net.wf(),
        search_result(net, interior@, f@, a, dist@, paths@),
    ensures
        cheapest_route(net, interior@, f@, a, b, opt_view(res.0)),
        res.0 matches Some(p) ==> walk_cost(net, p@) == res.1,
{
    let n = dist.len();
    let mut best: usize = n;
    let mut v: usize = 0;
    while v < n
        invariant
            net.wf(),
            search_result(net, interior@, f@, a, dist@, paths@),
            n == dist@.len(),
            v <= n,
            best == n || (best < v && dist@[best as int] < u64::MAX && node_end(net, best as int) == b),
            forall|x: int|
                0 <= x < v && node_end(net, x) == b && #[trigger] dist@[x] < u64::MAX ==> best < n
                    && dist@[best as int] <= dist@[x],
        decreases n - v,
    {
        let road = net.roads[v / 2];
        let end = if v % 2 == 0 { road.dst } else { road.src };
        if end == b && dist[v] < u64::MAX && (best == n || dist[v] < dist[best]) {
            best = v;
        }
        v = v + 1;
    }
    if best == n {
        proof {
            assert forall|w: Seq<usize>| #[trigger] route(net, interior@, f@, w, a, b) implies walk_cost(net, w) >= u64::MAX by {
                assert(valid_walk(net, interior@, f@, w, a));
                assert(usable(net, interior@, f@, w[w.len() - 1] as int));
                assert(w.last() == w[w.len() - 1]);
                let x = w.last() as int;
                assert(dist@[x] <= walk_cost(net, w));
                if dist@[x] < u64::MAX {
                    assert(node_end(net, x) == b);
                }
            }
        }
        (None, u64::MAX)
    } else {
        let p = copy_all(&paths[best]);
        proof {
            assert(dist@[best as int] < u64::MAX);
            assert forall|w: Seq<usize>| #[trigger] route(net, interior@, f@, w, a, b) implies walk_cost(net, p@) <= walk_cost(net, w) by {
                assert(valid_walk(net, interior@, f@, w, a));
                assert(usable(net, interior@, f@, w[w.len() - 1] as int));
                assert(w.last() == w[w.len() - 1]);
                let x = w.last() as int;
                assert(dist@[x] <= walk_cost(net, w));
                if dist@[x] < u64::MAX {
                    assert(node_end(net, x) == b);
                }
            }
        }
        (Some(p), dist[best])
    }
}

fn copy_all(p: &Vec<usize>) -> (res: Vec<usize>)
    ensures
        res@ == p@,
{
    let mut res: Vec<usize> = Vec::new();
    let mut k: usize = 0;
    while k < p.len()
        invariant
            k <= p@.len(),
            res@ == p@.subrange(0, k as int),
        decreases p@.len() - k,
    {
        res.push(p[k]);
        k = k + 1;
    }
    assert(res@ =~= p@);
    res
}

/// Route `p` drives road `r`.
pub open spec fn uses_road(p: Seq<usize>, r: int) -> bool {
    exists|k: int| 0 <= k < p.len() && #[trigger] p[k] as int / 2 == r
}

/// Route `p` passes through intersection `i` (not counting where it starts or ends).
pub open spec fn passes_through(net: &RoadNetwork, p: Seq<usize>, i: int) -> bool {
    exists|k: int| 0 <= k < p.len() - 1 && #[trigger] node_end(net, p[k] as int) == i
}

/// How many of the routes drive road `r`.
pub open spec fn road_count(paths: Seq<Option<Vec<usize>>>, r: int) -> nat
    decreases paths.len(),
{
    if paths.len() == 0 {
        0
    } else {
        road_count(paths.drop_last(), r) + if paths.last() is Some && uses_road(
            paths.last().unwrap()@,
            r,
        ) {
            1nat
        } else {
            0nat
        }
    }
}

/// How many of the routes pass through intersection `i`.
pub open spec fn intersection_count(net: &RoadNetwork, paths: Seq<Option<Vec<usize>>>, i: int) -> nat
    decreases paths.len(),
{
    if paths.len() == 0 {
        0
    } else {
        intersection_count(net, paths.drop_last(), i) + if paths.last() is Some && passes_through(
            net,
            paths.last().unwrap()@,
            i,
        ) {
            1nat
        } else {
            0nat
        }
    }
}

proof fn lemma_counts_bounded(net: &RoadNetwork, paths: Seq<Option<Vec<usize>>>, x: int)
    ensures
        road_count(paths, x) <= paths.len(),
        intersection_count(net, paths, x) <= paths.len(),
    decreases paths.len(),
{
    if paths.len() > 0 {
        lemma_counts_bounded(net, paths.drop_last(), x);
    }
}

fn path_uses_road(p: &Vec<usize>, r: usize) -> (res: bool)
    ensures
        res == uses_road(p@, r as int),
{
    let mut k: usize = 0;
    while k < p.len()
        invariant
            k <= p@.len(),
            forall|j: int| 0 <= j < k ==> #[trigger] p@[j] as int / 2 != r,
        decreases p@.len() - k,
    {
        if p[k] / 2 == r {
            return true;
        }
        k = k + 1;
    }
    false
}

fn path_passes_through(net: &RoadNetwork, p: &Vec<usize>, i: usize) -> (res: bool)
    requires
        net.wf(),
        forall|k: int| 0 <= k < p@.len() ==> #[trigger] p@[k] < 2 * net.num_roads(),
    ensures
        res == passes_through(net, p@, i as int),
{
    let n = p.len();
    if n == 0 {
        return false;
    }
    let mut k: usize = 0;
    while k < n - 1
        invariant
            net.wf(),
            n == p@.len(),
            n >= 1,
            forall|q: int| 0 <= q < p@.len() ==> #[trigger] p@[q] < 2 * net.num_roads(),
            k <= n - 1,
            forall|j: int| 0 <= j < k ==> #[trigger] node_end(net, p@[j] as int) != i,
        decreases n - k,
    {
        let road = net.roads[p[k] / 2];
        let end = if p[k] % 2 == 0 { road.dst } else { road.src };
        if end == i {
            assert(node_end(net, p@[k as int] as int) == i);
            return true;
        }
        k = k + 1;
    }
    false
}

/// Shortcuts through a neighborhood: for each pair of distinct boundary intersections, listed
/// once, a cheapest route between them through the interior, driven in whichever direction is
/// cheaper, if there is one; and how many of those routes use each road
/// and each intersection.
pub struct ShortcutResult {
    /// (entry, exit) boundary intersections.
    pub pairs: Vec<(usize, usize)>,
    pub paths: Vec<Option<Vec<usize>>>,
    pub count_per_road: Vec<usize>,
    pub count_per_intersection: Vec<usize>,
}

impl ShortcutResult {
    /// `self` holds the shortcuts through neighborhood `nb` under filters `f`.
    pub open spec fn describes(
        &self,
        net: &RoadNetwork,
        nb: &crate::perimeter::Neighborhood,
        f: (Seq<Option<u64>>, Seq<u64>),
    ) -> bool {
        &&& self.pairs@.len() == self.paths@.len()
        &&& self.pairs@.no_duplicates()
        &&& forall|k: int|
            0 <= k < self.pairs@.len() ==> #[trigger] pair_entry_ok(
                net,
                nb.interior_roads@,
                f,
                nb.boundary@,
                self.pairs@,
                self.paths@,
                k,
            )
        &&& forall|i: int, j: int|
            0 <= i < j < nb.boundary@.len() ==> self.pairs@.contains(
                (#[trigger] nb.boundary@[i], #[trigger] nb.boundary@[j]),
            )
        &&& self.count_per_road@.len() == net.num_roads()
        &&& self.count_per_intersection@.len() == net.num_intersections()
        &&& forall|r: int|
            0 <= r < net.num_roads() ==> #[trigger] self.count_per_road@[r] == road_count(
                self.paths@,
                r,
            )
        &&& forall|i: int|
            0 <= i < net.num_intersections() ==> #[trigger] self.count_per_intersection@[i]
                == intersection_count(net, self.paths@, i)
        &&& forall|r: int|
            0 <= r < net.num_roads() && f.0[r] is Some ==> #[trigger] self.count_per_road@[r] == 0
    }
}

/// Counts, for each road and intersection, the routes that use it.
fn count_routes(net: &RoadNetwork, paths: &Vec<Option<Vec<usize>>>) -> (res: (Vec<usize>, Vec<usize>))
    requires
        net.wf(),
        forall|k: int, q: int|
            0 <= k < paths@.len() && paths@[k] is Some && 0 <= q < paths@[k].unwrap()@.len() ==> #[trigger] paths@[k].unwrap()@[q]
                < 2 * net.num_roads(),
    ensures
        res.0@.len() == net.num_roads(),
        res.1@.len() == net.num_intersections(),
        forall|r: int| 0 <= r < net.num_roads() ==> #[trigger] res.0@[r] == road_count(paths@, r),
        forall|i: int|
            0 <= i < net.num_intersections() ==> #[trigger] res.1@[i] == intersection_count(
                net,
                paths@,
                i,
            ),
{
    let nr = net.roads.len();
    let ni = net.intersections.len();
    let mut roads: Vec<usize> = Vec::new();
    let mut r: usize = 0;
    while r < nr
        invariant
            r <= nr,
            roads@ == Seq::new(r as nat, |x: int| 0usize),
        decreases nr - r,
    {
        roads.push(0);
        r = r + 1;
        assert(roads@ =~= Seq::new(r as nat, |x: int| 0usize));
    }
    let mut inters: Vec<usize> = Vec::new();
    let mut i: usize = 0;
    while i < ni
        invariant
            i <= ni,
            inters@ == Seq::new(i as nat, |x: int| 0usize),
        decreases ni - i,
    {
        inters.push(0);
        i = i + 1;
        assert(inters@ =~= Seq::new(i as nat, |x: int| 0usize));
    }
    let mut k: usize = 0;
    while k < paths.len()
        invariant
            net.wf(),
            nr == net.num_roads(),
            ni == net.num_intersections(),
            forall|k2: int, q: int|
                0 <= k2 < paths@.len() && paths@[k2] is Some && 0 <= q < paths@[k2].unwrap()@.len() ==> #[trigger] paths@[k2].unwrap()@[q]
                    < 2 * net.num_roads(),
            k <= paths@.len(),
            roads@.len() == nr,
            inters@.len() == ni,
            forall|x: int| 0 <= x < nr ==> #[trigger] roads@[x] == road_count(paths@.subrange(0, k as int), x),
            forall|x: int|
                0 <= x < ni ==> #[trigger] inters@[x] == intersection_count(
                    net,
                    paths@.subrange(0, k as int),
                    x,
                ),
        decreases paths@.len() - k,
    {
        let ghost pre = paths@.subrange(0, k as int);
        let ghost post = paths@.subrange(0, k as int + 1);
        assert(post.drop_last() =~= pre);
        assert(post.last() == paths@[k as int]);
        match &paths[k] {
            None => {},
            Some(p) => {
                let mut x: usize = 0;
                while x < nr
                    invariant
                        nr == net.num_roads(),
                        x <= nr,
                        k < paths@.len(),
                        roads@.len() == nr,
                        pre == paths@.subrange(0, k as int),
                        post == paths@.subrange(0, k as int + 1),
                        post.drop_last() == pre,
                        post.last() == paths@[k as int],
                        paths@[k as int] == Some(*p),
                        forall|y: int| 0 <= y < x ==> #[trigger] roads@[y] == road_count(post, y),
                        forall|y: int| x <= y < nr ==> #[trigger] roads@[y] == road_count(pre, y),
                    decreases nr - x,
                {
                    assert(road_count(post, x as int) == road_count(pre, x as int) + if uses_road(
                        p@,
                        x as int,
                    ) {
                        1nat
                    } else {
                        0nat
                    });
                    if path_uses_road(p, x) {
                        proof {
                            lemma_counts_bounded(net, pre, x as int);
                        }
                        assert(roads@[x as int] == road_count(pre, x as int));
                        assert(pre.len() == k);
                        assert(k < paths.len());
                        roads.set(x, roads[x] + 1);
                    }
                    x = x + 1;
                }
                let mut y: usize = 0;
                while y < ni
                    invariant
                        net.wf(),
                        ni == net.num_intersections(),
                        forall|q: int| 0 <= q < p@.len() ==> #[trigger] p@[q] < 2 * net.num_roads(),
                        y <= ni,
                        k < paths@.len(),
                        inters@.len() == ni,
                        pre == paths@.subrange(0, k as int),
                        post == paths@.subrange(0, k as int + 1),
                        post.drop_last() == pre,
                        post.last() == paths@[k as int],
                        paths@[k as int] == Some(*p),
                        forall|z: int| 0 <= z < y ==> #[trigger] inters@[z] == intersection_count(net, post, z),
                        forall|z: int| y <= z < ni ==> #[trigger] inters@[z] == intersection_count(net, pre, z),
                    decreases ni - y,
                {
                    assert(intersection_count(net, post, y as int) == intersection_count(net, pre, y as int) + if passes_through(
                        net,
                        p@,
                        y as int,
                    ) {
                        1nat
                    } else {
                        0nat
                    });
                    if path_passes_through(net, p, y) {
                        proof {
                            lemma_counts_bounded(net, pre, y as int);
                        }
                        assert(inters@[y as int] == intersection_count(net, pre, y as int));
                        assert(pre.len() == k);
                        assert(k < paths.len());
                        inters.set(y, inters[y] + 1);
                    }
                    y = y + 1;
                }
            },
        }
        k = k + 1;
    }
    assert(paths@.subrange(0, paths@.len() as int) =~= paths@);
    (roads, inters)
}

/// Entry `k` of the result joins two distinct boundary intersections, the earlier one first, and
/// holds a cheapest route between them.
pub open spec fn pair_entry_ok(
    net: &RoadNetwork,
    interior: Seq<usize>,
    f: (Seq<Option<u64>>, Seq<u64>),
    boundary: Seq<usize>,
    pairs: Seq<(usize, usize)>,
    paths: Seq<Option<Vec<usize>>>,
    k: int,
) -> bool {
    &&& exists|i: int, j: int|
        0 <= i < j < boundary.len() && #[trigger] pairs[k] == (boundary[i], boundary[j])
    &&& cheapest_either(net, interior, f, pairs[k].0, pairs[k].1, opt_view(paths[k]))
}

proof fn lemma_route_nodes_in_range(
    net: &RoadNetwork,
    interior: Seq<usize>,
    f: (Seq<Option<u64>>, Seq<u64>),
    w: Seq<usize>,
    a: usize,
    b: usize,
)
    requires
        route(net, interior, f, w, a, b),
    ensures
        forall|q: int| 0 <= q < w.len() ==> #[trigger] w[q] < 2 * net.num_roads(),
{
    assert forall|q: int| 0 <= q < w.len() implies #[trigger] w[q] < 2 * net.num_roads() by {
        assert(usable(net, interior, f, w[q] as int));
    }
}

/// No route drives a road that carries a point filter.
pub proof fn lemma_filtered_road_unused(
    net: &RoadNetwork,
    interior: Seq<usize>,
    f: (Seq<Option<u64>>, Seq<u64>),
    w: Seq<usize>,
    a: usize,
    b: usize,
    r: int,
)
    requires
        route(net, interior, f, w, a, b),
        f.0[r] is Some,
    ensures
        !uses_road(w, r),
{
    if uses_road(w, r) {
        let k = choose|k: int| 0 <= k < w.len() && #[trigger] w[k] as int / 2 == r;
        assert(usable(net, interior, f, w[k] as int));
    }
}

proof fn lemma_filtered_road_count_zero(
    net: &RoadNetwork,
    interior: Seq<usize>,
    f: (Seq<Option<u64>>, Seq<u64>),
    pairs: Seq<(usize, usize)>,
    paths: Seq<Option<Vec<usize>>>,
    r: int,
)
    requires
        pairs.len() == paths.len(),
        forall|k: int|
            0 <= k < paths.len() ==> #[trigger] cheapest_either(
                net,
                interior,
                f,
                pairs[k].0,
                pairs[k].1,
                opt_view(paths[k]),
            ),
        f.0[r] is Some,
    ensures
        road_count(paths, r) == 0,
    decreases paths.len(),
{
    if paths.len() > 0 {
        let n = (paths.len() - 1) as int;
        assert forall|k: int| 0 <= k < paths.drop_last().len() implies #[trigger] cheapest_either(
            net,
            interior,
            f,
            pairs.drop_last()[k].0,
            pairs.drop_last()[k].1,
            opt_view(paths.drop_last()[k]),
        ) by {
            assert(cheapest_either(net, interior, f, pairs[k].0, pairs[k].1, opt_view(paths[k])));
        }
        lemma_filtered_road_count_zero(net, interior, f, pairs.drop_last(), paths.drop_last(), r);
        assert(cheapest_either(net, interior, f, pairs[n].0, pairs[n].1, opt_view(paths[n])));
        if paths.last() is Some {
            let w = paths[n].unwrap()@;
            if route(net, interior, f, w, pairs[n].0, pairs[n].1) {
                lemma_filtered_road_unused(net, interior, f, w, pairs[n].0, pairs[n].1, r);
            } else {
                lemma_filtered_road_unused(net, interior, f, w, pairs[n].1, pairs[n].0, r);
            }
        }
    }
}

/// Placing a point filter only takes routes away: every route under the new filters was already
/// a route before.
pub proof fn lemma_point_filter_keeps_no_new_route(
    net: &RoadNetwork,
    interior: Seq<usize>,
    f: (Seq<Option<u64>>, Seq<u64>),
    r: int,
    offset: u64,
    w: Seq<usize>,
    a: usize,
    b: usize,
)
    requires
        f.0.len() == net.num_roads(),
        0 <= r < f.0.len(),
        f.0[r] is None,
        route(net, interior, crate::filters::toggled(net, f, r, offset), w, a, b),
    ensures
        route(net, interior, f, w, a, b),
{
    let g = crate::filters::toggled(net, f, r, offset);
    assert forall|k: int| 0 <= k < w.len() implies #[trigger] usable(net, interior, f, w[k] as int) by {
        assert(usable(net, interior, g, w[k] as int));
        if w[k] as int / 2 != r {
            assert(g.0[w[k] as int / 2] == f.0[w[k] as int / 2]);
        }
    }
    assert forall|k: int| 0 <= k < w.len() - 1 implies #[trigger] step_ok(net, f, w[k] as int, w[k + 1] as int) by {
        assert(step_ok(net, g, w[k] as int, w[k + 1] as int));
    }
}

/// Placing a point filter never connects a pair of boundary intersections that was not
/// connected, and never makes the cheapest route between them cheaper.
pub proof fn lemma_point_filter_monotone(
    net: &RoadNetwork,
    interior: Seq<usize>,
    f: (Seq<Option<u64>>, Seq<u64>),
    r: int,
    offset: u64,
    a: usize,
    b: usize,
    before: Option<Seq<usize>>,
    after: Option<Seq<usize>>,
)
    requires
        f.0.len() == net.num_roads(),
        0 <= r < f.0.len(),
        f.0[r] is None,
        cheapest_route(net, interior, f, a, b, before),
        cheapest_route(net, interior, crate::filters::toggled(net, f, r, offset), a, b, after),
    ensures
        after is Some ==> before is Some && walk_cost(net, before.unwrap()) <= walk_cost(
            net,
            after.unwrap(),
        ),
{
    if after is Some {
        let w = after.unwrap();
        lemma_point_filter_keeps_no_new_route(net, interior, f, r, offset, w, a, b);
        assert(route(net, interior, f, w, a, b));
    }
}

/// Finds the shortcuts through a neighborhood under the filters `f`: for every pair of distinct
/// boundary intersections a cheapest route through the interior in either direction (from the
/// earlier listed one on equal cost), and per road and intersection
/// the number of those routes that use it.
pub fn recompute(
    net: &RoadNetwork,
    nb: &crate::perimeter::Neighborhood,
    f: &crate::filters::FilterState,
) -> (res: ShortcutResult)
    requires
        net.wf(),
        state_fits(net, f@),
        nb.boundary@.no_duplicates(),
    ensures
        res.describes(net, nb, f@),
{
    let ghost interior = nb.interior_roads@;
    let nr = net.roads.len();
    let mut mask: Vec<bool> = Vec::new();
    let mut r: usize = 0;
    while r < nr
        invariant
            nr == net.num_roads(),
            r <= nr,
            interior == nb.interior_roads@,
            mask@.len() == r,
            forall|x: int| 0 <= x < r ==> #[trigger] mask@[x] == interior.contains(x as usize),
        decreases nr - r,
    {
        mask.push(crate::network::RoadNetwork::contains_road(&nb.interior_roads, r));
        r = r + 1;
    }
    let js = &nb.boundary;
    let m = js.len();
    let mut searches: Vec<(Vec<u64>, Vec<Vec<usize>>)> = Vec::new();
    let mut q: usize = 0;
    while q < m
        invariant
            net.wf(),
            state_fits(net, f@),
            interior == nb.interior_roads@,
            js@ == nb.boundary@,
            nr == net.num_roads(),
            mask@.len() == nr,
            forall|x: int| 0 <= x < nr ==> #[trigger] mask@[x] == interior.contains(x as usize),
            m == js@.len(),
            q <= m,
            searches@.len() == q,
            forall|x: int|
                0 <= x < q ==> search_result(
                    net,
                    interior,
                    f@,
                    js@[x],
                    (#[trigger] searches@[x]).0@,
                    searches@[x].1@,
                ),
        decreases m - q,
    {
        let found = shortest_walks(net, Ghost(interior), &mask, f, js[q]);
        searches.push(found);
        q = q + 1;
    }
    let mut pairs: Vec<(usize, usize)> = Vec::new();
    let mut paths: Vec<Option<Vec<usize>>> = Vec::new();
    let ghost mut idx: Seq<(int, int)> = Seq::empty();
    let mut i: usize = 0;
    while i < m
        invariant
            net.wf(),
            state_fits(net, f@),
            interior == nb.interior_roads@,
            js@ == nb.boundary@,
            js@.no_duplicates(),
            m == js@.len(),
            searches@.len() == m,
            forall|x: int|
                0 <= x < m ==> search_result(
                    net,
                    interior,
                    f@,
                    js@[x],
                    (#[trigger] searches@[x]).0@,
                    searches@[x].1@,
                ),
            i <= m,
            pairs@.len() == paths@.len(),
            idx.len() == pairs@.len(),
            pairs@.no_duplicates(),
            forall|k: int|
                0 <= k < idx.len() ==> 0 <= (#[trigger] idx[k]).0 < idx[k].1 < m && idx[k].0 < i
                    && pairs@[k] == (js@[idx[k].0], js@[idx[k].1]),
            forall|k: int|
                0 <= k < pairs@.len() ==> #[trigger] pair_entry_ok(net, interior, f@, js@, pairs@, paths@, k),
            forall|a: int, b: int|
                0 <= a < i && a < b < m ==> pairs@.contains((#[trigger] js@[a], #[trigger] js@[b])),
        decreases m - i,
    {
        let mut j: usize = i + 1;
        while j < m
            invariant
                net.wf(),
                state_fits(net, f@),
                js@.no_duplicates(),
                m == js@.len(),
                searches@.len() == m,
                forall|x: int|
                    0 <= x < m ==> search_result(
                        net,
                        interior,
                        f@,
                        js@[x],
                        (#[trigger] searches@[x]).0@,
                        searches@[x].1@,
                    ),
                i < m,
                i + 1 <= j <= m,
                pairs@.len() == paths@.len(),
                idx.len() == pairs@.len(),
                pairs@.no_duplicates(),
                forall|k: int|
                    0 <= k < idx.len() ==> 0 <= (#[trigger] idx[k]).0 < idx[k].1 < m && (idx[k].0 < i
                        || (idx[k].0 == i && idx[k].1 < j)) && pairs@[k] == (js@[idx[k].0], js@[idx[k].1]),
                forall|k: int|
                    0 <= k < pairs@.len() ==> #[trigger] pair_entry_ok(net, interior, f@, js@, pairs@, paths@, k),
                forall|a: int, b: int|
                    0 <= a < i && a < b < m ==> pairs@.contains((#[trigger] js@[a], #[trigger] js@[b])),
                forall|b: int| i < b < j ==> pairs@.contains((js@[i as int], #[trigger] js@[b])),
            decreases m - j,
        {
            assert(search_result(net, interior, f@, js@[i as int], searches@[i as int].0@, searches@[i as int].1@));
            assert(search_result(net, interior, f@, js@[j as int], searches@[j as int].0@, searches@[j as int].1@));
            let (fwd, cf) = best_to(net, Ghost(interior), f, js[i], js[j], &searches[i].0, &searches[i].1);
            let (bwd, cb) = best_to(net, Ghost(interior), f, js[j], js[i], &searches[j].0, &searches[j].1);
            proof {
                lemma_either(net, interior, f@, js@[i as int], js@[j as int], opt_view(fwd), opt_view(bwd));
            }
            let take_fwd = fwd.is_some() && (bwd.is_none() || cf <= cb);
            let best = if take_fwd { fwd } else { bwd };
            let ghost old_pairs = pairs@;
            let ghost old_paths = paths@;
            let ghost old_idx = idx;
            pairs.push((js[i], js[j]));
            paths.push(best);
            proof {
                idx = idx.push((i as int, j as int));
                assert forall|k: int| 0 <= k < old_pairs.len() implies old_pairs[k] != (js@[i as int], js@[j as int]) by {
                    assert(0 <= old_idx[k].0 < old_idx[k].1 < m);
                    if old_idx[k].0 == i {
                        assert(old_idx[k].1 != j);
                        assert(js@[old_idx[k].1] != js@[j as int]);
                    } else {
                        assert(js@[old_idx[k].0] != js@[i as int]);
                    }
                }
                assert forall|a: int, b: int| 0 <= a < pairs@.len() && 0 <= b < pairs@.len() && a != b implies pairs@[a] != pairs@[b] by {
                    if a < old_pairs.len() && b < old_pairs.len() {
                        assert(pairs@[a] == old_pairs[a]);
                        assert(pairs@[b] == old_pairs[b]);
                    } else if a < old_pairs.len() {
                        assert(pairs@[a] == old_pairs[a]);
                    } else {
                        assert(pairs@[b] == old_pairs[b]);
                    }
                }
                assert forall|k: int| 0 <= k < idx.len() implies 0 <= (#[trigger] idx[k]).0 < idx[k].1 < m && (idx[k].0 < i
                        || (idx[k].0 == i && idx[k].1 < j + 1)) && pairs@[k] == (js@[idx[k].0], js@[idx[k].1]) by {
                    if k < old_idx.len() {
                        assert(idx[k] == old_idx[k]);
                        assert(pairs@[k] == old_pairs[k]);
                    }
                }
                assert forall|k: int| 0 <= k < pairs@.len() implies #[trigger] pair_entry_ok(net, interior, f@, js@, pairs@, paths@, k) by {
                    if k < old_pairs.len() {
                        assert(pair_entry_ok(net, interior, f@, js@, old_pairs, old_paths, k));
                        assert(pairs@[k] == old_pairs[k]);
                        assert(paths@[k] == old_paths[k]);
                        let (a, b) = choose|a: int, b: int| 0 <= a < b < js@.len() && #[trigger] old_pairs[k] == (js@[a], js@[b]);
                        assert(pairs@[k] == (js@[a], js@[b]));
                    } else {
                        assert(pairs@[k] == (js@[i as int], js@[j as int]));
                        assert(paths@[k] == best);
                    }
                }
                assert forall|x: (usize, usize)| old_pairs.contains(x) implies pairs@.contains(x) by {
                    let q = choose|q: int| 0 <= q < old_pairs.len() && old_pairs[q] == x;
                    assert(pairs@[q] == x);
                }
                assert(pairs@[old_pairs.len() as int] == (js@[i as int], js@[j as int]));
            }
            j = j + 1;
        }
        i = i + 1;
    }
    proof {
        assert forall|k: int, q: int|
            0 <= k < paths@.len() && paths@[k] is Some && 0 <= q < paths@[k].unwrap()@.len() implies #[trigger] paths@[k].unwrap()@[q]
                < 2 * net.num_roads() by {
            assert(pair_entry_ok(net, interior, f@, js@, pairs@, paths@, k));
            if route(net, interior, f@, paths@[k].unwrap()@, pairs@[k].0, pairs@[k].1) {
                lemma_route_nodes_in_range(net, interior, f@, paths@[k].unwrap()@, pairs@[k].0, pairs@[k].1);
            } else {
                lemma_route_nodes_in_range(net, interior, f@, paths@[k].unwrap()@, pairs@[k].1, pairs@[k].0);
            }
        }
    }
    let (count_per_road, count_per_intersection) = count_routes(net, &paths);
    proof {
        assert forall|r: int| 0 <= r < net.num_roads() && f@.0[r] is Some implies #[trigger] count_per_road@[r] == 0 by {
            assert forall|k: int| 0 <= k < paths@.len() implies #[trigger] cheapest_either(
                net,
                interior,
                f@,
                pairs@[k].0,
                pairs@[k].1,
                opt_view(paths@[k]),
            ) by {
                assert(pair_entry_ok(net, interior, f@, js@, pairs@, paths@, k));
            }
            lemma_filtered_road_count_zero(net, interior, f@, pairs@, paths@, r);
        }
    }
    ShortcutResult { pairs, paths, count_per_road, count_per_intersection }
}

} // verus!
