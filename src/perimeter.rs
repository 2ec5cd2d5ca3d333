use vstd::prelude::*;
use crate::network::RoadNetwork;

verus! {

/// A neighborhood boundary: the roads of a cycle, in order, and one intersection inside it.
pub struct Perimeter {
    pub roads: Vec<usize>,
    pub seed: usize,
}

#[derive(Debug)]
pub enum PerimeterError {
    /// The roads do not form a closed simple cycle.
    NotClosed,
    /// The seed is not an intersection off the boundary.
    BadSeed,
    /// The boundary encloses no road.
    NoInterior,
}

/// What a perimeter encloses.
pub struct Neighborhood {
    pub perimeter: Vec<usize>,
    /// The intersections of the boundary cycle; road `k` of the perimeter joins `boundary[k]` and
    /// `boundary[k + 1]` (cyclically).
    pub boundary: Vec<usize>,
    /// The enclosed intersections, in the order the flood fill reached them; the seed comes first.
    pub interior_intersections: Vec<usize>,
    /// The enclosed roads, by increasing identifier.
    pub interior_roads: Vec<usize>,
}

/// Whether road `r` joins intersections `a` and `b`, either way round.
pub open spec fn joins(net: &RoadNetwork, r: int, a: usize, b: usize) -> bool {
    (net.road(r).src == a && net.road(r).dst == b) || (net.road(r).src == b && net.road(r).dst
        == a)
}

/// `js` are the intersections of the closed simple cycle formed by `rs`.
pub open spec fn is_cycle(net: &RoadNetwork, rs: Seq<usize>, js: Seq<usize>) -> bool {
    &&& rs.len() >= 2
    &&& js.len() == rs.len()
    &&& js.no_duplicates()
    &&& forall|k: int|
        0 <= k < rs.len() ==> #[trigger] rs[k] < net.num_roads() && joins(
            net,
            rs[k] as int,
            js[k],
            js[(k + 1) % (rs.len() as int)],
        )
}

/// The other end of road `r` from `x`.
pub open spec fn other_end(net: &RoadNetwork, r: int, x: usize) -> usize {
    if net.road(r).src == x {
        net.road(r).dst
    } else {
        net.road(r).src
    }
}

/// Road `r` is not on the perimeter and leads from `x` to `y`.
pub open spec fn open_link(net: &RoadNetwork, rs: Seq<usize>, r: int, x: usize, y: usize) -> bool {
    &&& 0 <= r < net.num_roads()
    &&& !rs.contains(r as usize)
    &&& joins(net, r, x, y)
}

/// No road off the perimeter leads from an enclosed intersection to one that is neither
/// enclosed nor on the boundary.
pub open spec fn closed_region(
    net: &RoadNetwork,
    rs: Seq<usize>,
    js: Seq<usize>,
    inside: Seq<usize>,
) -> bool {
    forall|r: int, x: usize|
        #![trigger open_link(net, rs, r, x, other_end(net, r, x))]
        inside.contains(x) && open_link(net, rs, r, x, other_end(net, r, x)) ==> {
            ||| inside.contains(other_end(net, r, x))
            ||| js.contains(other_end(net, r, x))
        }
}

/// Every enclosed intersection after the first is reached by a road off the perimeter from an
/// earlier one.
pub open spec fn grown_from_seed(net: &RoadNetwork, rs: Seq<usize>, inside: Seq<usize>) -> bool {
    forall|k: int| 0 < k < inside.len() ==> #[trigger] linked_earlier(net, rs, inside, k)
}

/// `inside[k]` is reached by a road off the perimeter from an earlier entry.
pub open spec fn linked_earlier(net: &RoadNetwork, rs: Seq<usize>, inside: Seq<usize>, k: int) -> bool {
    exists|r: int, j: int| 0 <= j < k && #[trigger] open_link(net, rs, r, inside[j], inside[k])
}

/// Road `r` is off the perimeter and touches an enclosed intersection.
pub open spec fn is_interior_road(net: &RoadNetwork, rs: Seq<usize>, inside: Seq<usize>, r: int) -> bool {
    &&& 0 <= r < net.num_roads()
    &&& !rs.contains(r as usize)
    &&& (inside.contains(net.road(r).src) || inside.contains(net.road(r).dst))
}

impl Neighborhood {
    /// `self` is what perimeter `p` encloses: the boundary cycle, the component of the seed
    /// reached without crossing the boundary, and the roads that touch it.
    pub open spec fn encloses(&self, net: &RoadNetwork, p: &Perimeter) -> bool {
        let rs = p.roads@;
        let inside = self.interior_intersections@;
        &&& self.perimeter@ == rs
        &&& is_cycle(net, rs, self.boundary@)
        &&& inside.len() >= 1
        &&& inside[0] == p.seed
        &&& inside.no_duplicates()
        &&& forall|k: int|
            0 <= k < inside.len() ==> #[trigger] inside[k] < net.num_intersections()
                && !self.boundary@.contains(inside[k])
        &&& grown_from_seed(net, rs, inside)
        &&& closed_region(net, rs, self.boundary@, inside)
        &&& forall|k: int|
            0 <= k < self.interior_roads@.len() ==> is_interior_road(
                net,
                rs,
                inside,
                #[trigger] self.interior_roads@[k] as int,
            )
        &&& forall|r: int|
            #[trigger] is_interior_road(net, rs, inside, r) ==> self.interior_roads@.contains(
                r as usize,
            )
        &&& self.interior_roads@.len() >= 1
        &&& forall|a: int, b: int|
            0 <= a < b < self.interior_roads@.len() ==> #[trigger] self.interior_roads@[a]
                < #[trigger] self.interior_roads@[b]
    }
}

/// Closure: both ends of every enclosed road are enclosed intersections or intersections of the
/// boundary; none lies outside the region.
pub proof fn lemma_interior_closure(net: &RoadNetwork, p: &Perimeter, nb: &Neighborhood)
    requires
        net.wf(),
        nb.encloses(net, p),
    ensures
        forall|k: int|
            0 <= k < nb.interior_roads@.len() ==> {
                let r = #[trigger] nb.interior_roads@[k] as int;
                &&& nb.interior_intersections@.contains(net.road(r).src)
                    || nb.boundary@.contains(net.road(r).src)
                &&& nb.interior_intersections@.contains(net.road(r).dst)
                    || nb.boundary@.contains(net.road(r).dst)
            },
{
    let inside = nb.interior_intersections@;
    assert forall|k: int| 0 <= k < nb.interior_roads@.len() implies {
        let r = #[trigger] nb.interior_roads@[k] as int;
        &&& inside.contains(net.road(r).src) || nb.boundary@.contains(net.road(r).src)
        &&& inside.contains(net.road(r).dst) || nb.boundary@.contains(net.road(r).dst)
    } by {
        let r = nb.interior_roads@[k] as int;
        assert(is_interior_road(net, p.roads@, inside, r));
        let a = net.road(r).src;
        let b = net.road(r).dst;
        if inside.contains(a) {
            assert(open_link(net, p.roads@, r, a, other_end(net, r, a)));
        } else {
            assert(open_link(net, p.roads@, r, b, other_end(net, r, b)));
        }
    }
}

proof fn lemma_distinct_bounded(s: Seq<usize>, n: nat)
    requires
        s.no_duplicates(),
        forall|i: int| 0 <= i < s.len() ==> s[i] < n,
    ensures
        s.len() <= n,
    decreases n,
{
    if n == 0 {
        if s.len() > 0 {
            assert(s[0] < 0);
        }
    } else if s.contains((n - 1) as usize) {
        let p = choose|p: int| 0 <= p < s.len() && s[p] == (n - 1) as usize;
        let t = s.remove(p);
        assert forall|i: int| 0 <= i < t.len() implies t[i] < n - 1 by {
            if i < p {
                assert(t[i] == s[i]);
            } else {
                assert(t[i] == s[i + 1]);
            }
        }
        assert forall|i: int, j: int| 0 <= i < t.len() && 0 <= j < t.len() && i != j implies t[i]
            != t[j] by {
            let si = if i < p { i } else { i + 1 };
            let sj = if j < p { j } else { j + 1 };
            assert(t[i] == s[si]);
            assert(t[j] == s[sj]);
        }
        lemma_distinct_bounded(t, (n - 1) as nat);
    } else {
        lemma_distinct_bounded(s, (n - 1) as nat);
    }
}

fn follow_cycle(net: &RoadNetwork, rs: &Vec<usize>, start: usize) -> (res: Option<Vec<usize>>)
    requires
        net.wf(),
        rs@.len() >= 2,
        forall|k: int| 0 <= k < rs@.len() ==> #[trigger] rs@[k] < net.num_roads(),
    ensures
        res matches Some(js) ==> js@.len() == rs@.len() && js@[0] == start && forall|k: int|
            0 <= k < rs@.len() ==> #[trigger] joins(
                net,
                rs@[k] as int,
                js@[k],
                js@[(k + 1) % (rs@.len() as int)],
            ),
        forall|js: Seq<usize>|
            #[trigger] is_cycle(net, rs@, js) && js[0] == start ==> res is Some && res.unwrap()@ == js,
{
    let m = rs.len();
    let mut js: Vec<usize> = Vec::new();
    let mut cur = start;
    let mut k: usize = 0;
    while k < m
        invariant
            net.wf(),
            m == rs@.len(),
            m >= 2,
            forall|q: int| 0 <= q < rs@.len() ==> #[trigger] rs@[q] < net.num_roads(),
            k <= m,
            js@.len() == k,
            k == 0 ==> cur == start,
            k > 0 ==> js@[0] == start,
            forall|q: int|
                0 <= q < k - 1 ==> #[trigger] joins(net, rs@[q] as int, js@[q], js@[q + 1]),
            k > 0 ==> joins(net, rs@[k - 1] as int, js@[k - 1], cur),
            forall|c: Seq<usize>|
                #[trigger] is_cycle(net, rs@, c) && c[0] == start ==> js@ == c.subrange(0, k as int)
                    && cur == c[(k as int) % (m as int)],
        decreases m - k,
    {
        let road = net.roads[rs[k]];
        let ghost prev = cur;
        js.push(cur);
        if road.src == cur {
            cur = road.dst;
        } else if road.dst == cur {
            cur = road.src;
        } else {
            proof {
                assert forall|c: Seq<usize>| #[trigger] is_cycle(net, rs@, c) && c[0] == start
                    implies false by {
                    assert(joins(net, rs@[k as int] as int, c[k as int], c[(k as int + 1) % (m as int)]));
                    assert((k as int) % (m as int) == k as int) by {
                        vstd::arithmetic::div_mod::lemma_small_mod(k as nat, m as nat);
                    }
                }
            }
            return None;
        }
        proof {
            assert forall|c: Seq<usize>| #[trigger] is_cycle(net, rs@, c) && c[0] == start
                implies js@ == c.subrange(0, k as int + 1) && cur == c[(k as int + 1) % (m as int)] by {
                assert((k as int) % (m as int) == k as int) by {
                    vstd::arithmetic::div_mod::lemma_small_mod(k as nat, m as nat);
                }
                assert(joins(net, rs@[k as int] as int, c[k as int], c[(k as int + 1) % (m as int)]));
                assert(js@ =~= c.subrange(0, k as int + 1));
            }
        }
        k = k + 1;
    }
    if cur != start {
        proof {
            assert forall|c: Seq<usize>| #[trigger] is_cycle(net, rs@, c) && c[0] == start
                implies false by {
                vstd::arithmetic::div_mod::lemma_mod_self_0(m as int);
            }
        }
        return None;
    }
    proof {
        vstd::arithmetic::div_mod::lemma_mod_self_0(m as int);
        assert forall|q: int| 0 <= q < m implies #[trigger] joins(
            net,
            rs@[q] as int,
            js@[q],
            js@[(q + 1) % (m as int)],
        ) by {
            if q + 1 < m {
                vstd::arithmetic::div_mod::lemma_small_mod((q + 1) as nat, m as nat);
            }
        }
        assert forall|c: Seq<usize>| #[trigger] is_cycle(net, rs@, c) && c[0] == start implies js@ == c by {
            assert(js@ =~= c);
        }
    }
    Some(js)
}

/// Intersection `x` is an end of some road of `rs`.
pub open spec fn on_boundary(net: &RoadNetwork, rs: Seq<usize>, x: usize) -> bool {
    exists|k: int|
        0 <= k < rs.len() && (#[trigger] net.road(rs[k] as int).src == x || net.road(
            rs[k] as int,
        ).dst == x)
}

fn simple_cycle_from(net: &RoadNetwork, rs: &Vec<usize>, start: usize) -> (res: Option<Vec<usize>>)
    requires
        net.wf(),
        rs@.len() >= 2,
        forall|k: int| 0 <= k < rs@.len() ==> #[trigger] rs@[k] < net.num_roads(),
    ensures
        res matches Some(js) ==> is_cycle(net, rs@, js@),
        res is None ==> forall|c: Seq<usize>| #[trigger] is_cycle(net, rs@, c) ==> c[0] != start,
{
    let found = follow_cycle(net, rs, start);
    let ghost found_view = found;
    match found {
        None => None,
        Some(js) => {
            let mut a: usize = 0;
            while a < js.len()
                invariant
                    js@.len() == rs@.len(),
                    a <= js@.len(),
                    forall|c: Seq<usize>| #[trigger] is_cycle(net, rs@, c) && c[0] == start ==> js@ == c,
                    forall|k: int|
                        0 <= k < rs@.len() ==> #[trigger] joins(
                            net,
                            rs@[k] as int,
                            js@[k],
                            js@[(k + 1) % (rs@.len() as int)],
                        ),
                    forall|k: int| 0 <= k < rs@.len() ==> #[trigger] rs@[k] < net.num_roads(),
                    forall|i: int, j: int|
                        0 <= i < a && 0 <= j < js@.len() && i != j ==> js@[i] != js@[j],
                decreases js@.len() - a,
            {
                let mut b: usize = 0;
                while b < js.len()
                    invariant
                        js@.len() == rs@.len(),
                        a < js@.len(),
                        forall|c: Seq<usize>| #[trigger] is_cycle(net, rs@, c) && c[0] == start ==> js@ == c,
                        b <= js@.len(),
                        forall|i: int, j: int|
                            0 <= i < a && 0 <= j < js@.len() && i != j ==> js@[i] != js@[j],
                        forall|j: int| 0 <= j < b && a != j ==> js@[a as int] != js@[j],
                    decreases js@.len() - b,
                {
                    if a != b && js[a] == js[b] {
                        proof {
                            assert forall|c: Seq<usize>| #[trigger] is_cycle(net, rs@, c) implies c[0]
                                != start by {
                                if c[0] == start {
                                    assert(js@ == c);
                                    assert(c.no_duplicates());
                                    assert(c[a as int] != c[b as int]);
                                }
                            }
                        }
                        return None;
                    }
                    b = b + 1;
                }
                a = a + 1;
            }
            Some(js)
        },
    }
}

/// Finds the intersections of the cycle that `rs` forms, if it forms one.
pub fn boundary_of(net: &RoadNetwork, rs: &Vec<usize>) -> (res: Option<Vec<usize>>)
    requires
        net.wf(),
    ensures
        res matches Some(js) ==> is_cycle(net, rs@, js@),
        res is None ==> forall|js: Seq<usize>| !#[trigger] is_cycle(net, rs@, js),
{
    if rs.len() < 2 {
        return None;
    }
    let mut k: usize = 0;
    while k < rs.len()
        invariant
            k <= rs@.len(),
            forall|q: int| 0 <= q < k ==> #[trigger] rs@[q] < net.num_roads(),
        decreases rs@.len() - k,
    {
        if rs[k] >= net.roads.len() {
            return None;
        }
        k = k + 1;
    }
    let first = net.roads[rs[0]];
    let found = simple_cycle_from(net, rs, first.src);
    if found.is_some() {
        return found;
    }
    let res = simple_cycle_from(net, rs, first.dst);
    proof {
        if res is None {
            assert forall|js: Seq<usize>| !#[trigger] is_cycle(net, rs@, js) by {
                if is_cycle(net, rs@, js) {
                    assert(joins(net, rs@[0] as int, js[0], js[1int % (rs@.len() as int)]));
                }
            }
        }
    }
    res
}

proof fn lemma_grown_push(net: &RoadNetwork, rs: Seq<usize>, s: Seq<usize>, k: int, r: int, y: usize)
    requires
        grown_from_seed(net, rs, s),
        0 <= k < s.len(),
        open_link(net, rs, r, s[k], y),
    ensures
        grown_from_seed(net, rs, s.push(y)),
{
    let t = s.push(y);
    assert forall|q: int| 0 < q < t.len() implies #[trigger] linked_earlier(net, rs, t, q) by {
        if q < s.len() {
            assert(s[q] == t[q]);
            assert(linked_earlier(net, rs, s, q));
            let (rr, j) = choose|rr: int, j: int| 0 <= j < q && #[trigger] open_link(net, rs, rr, s[j], s[q]);
            assert(open_link(net, rs, rr, t[j], t[q]));
        } else {
            assert(open_link(net, rs, r, t[k], t[q]));
        }
    }
}

/// Floods from `seed` along roads off the perimeter, stopping at the boundary.
fn flood_fill(net: &RoadNetwork, rs: &Vec<usize>, js: &Vec<usize>, seed: usize) -> (inside: Vec<usize>)
    requires
        net.wf(),
        seed < net.num_intersections(),
        !js@.contains(seed),
    ensures
        inside@.len() >= 1,
        inside@[0] == seed,
        inside@.no_duplicates(),
        forall|k: int|
            0 <= k < inside@.len() ==> #[trigger] inside@[k] < net.num_intersections()
                && !js@.contains(inside@[k]),
        grown_from_seed(net, rs@, inside@),
        closed_region(net, rs@, js@, inside@),
{
    let mut inside: Vec<usize> = Vec::new();
    inside.push(seed);
    let mut k: usize = 0;
    while k < inside.len()
        invariant
            net.wf(),
            k <= inside@.len(),
            inside@.len() >= 1,
            inside@[0] == seed,
            inside@.no_duplicates(),
            forall|q: int|
                0 <= q < inside@.len() ==> #[trigger] inside@[q] < net.num_intersections()
                    && !js@.contains(inside@[q]),
            grown_from_seed(net, rs@, inside@),
            forall|r: int, x: usize|
                #![trigger open_link(net, rs@, r, x, other_end(net, r, x))]
                inside@.subrange(0, k as int).contains(x) && open_link(net, rs@, r, x, other_end(net, r, x)) ==> {
                    ||| inside@.contains(other_end(net, r, x))
                    ||| js@.contains(other_end(net, r, x))
                },
        decreases net.num_intersections() - k,
    {
        proof {
            lemma_distinct_bounded(inside@, net.num_intersections());
        }
        let x = inside[k];
        let mut r: usize = 0;
        while r < net.roads.len()
            invariant
                net.wf(),
                k < inside@.len(),
                x == inside@[k as int],
                r <= net.num_roads(),
                inside@.len() >= 1,
                inside@[0] == seed,
                inside@.no_duplicates(),
                forall|q: int|
                    0 <= q < inside@.len() ==> #[trigger] inside@[q] < net.num_intersections()
                        && !js@.contains(inside@[q]),
                grown_from_seed(net, rs@, inside@),
                forall|rr: int, y: usize|
                    #![trigger open_link(net, rs@, rr, y, other_end(net, rr, y))]
                    inside@.subrange(0, k as int).contains(y) && open_link(net, rs@, rr, y, other_end(net, rr, y)) ==> {
                        ||| inside@.contains(other_end(net, rr, y))
                        ||| js@.contains(other_end(net, rr, y))
                    },
                forall|rr: int|
                    0 <= rr < r && #[trigger] open_link(net, rs@, rr, x, other_end(net, rr, x)) ==> {
                        ||| inside@.contains(other_end(net, rr, x))
                        ||| js@.contains(other_end(net, rr, x))
                    },
            decreases net.num_roads() - r,
        {
            let road = net.roads[r];
            let ghost before = inside@;
            if (road.src == x || road.dst == x) && !RoadNetwork::contains_road(rs, r) {
                let y = if road.src == x { road.dst } else { road.src };
                if !RoadNetwork::contains_road(js, y) && !RoadNetwork::contains_road(&inside, y) {
                    inside.push(y);
                    proof {
                        assert(open_link(net, rs@, r as int, inside@[k as int], y));
                        lemma_grown_push(net, rs@, before, k as int, r as int, y);
                        assert(inside@ == before.push(y));
                        assert(grown_from_seed(net, rs@, inside@));
                        assert(inside@.subrange(0, k as int) =~= before.subrange(0, k as int));
                        assert forall|z: usize| before.contains(z) implies inside@.contains(z) by {
                            let j = choose|j: int| 0 <= j < before.len() && before[j] == z;
                            assert(inside@[j] == z);
                        }
                        assert(inside@.contains(y)) by {
                            assert(inside@[before.len() as int] == y);
                        }
                    }
                }
            }
            r = r + 1;
        }
        proof {
            assert forall|rr: int, y: usize|
                #![trigger open_link(net, rs@, rr, y, other_end(net, rr, y))]
                inside@.subrange(0, k as int + 1).contains(y) && open_link(net, rs@, rr, y, other_end(net, rr, y)) implies {
                    ||| inside@.contains(other_end(net, rr, y))
                    ||| js@.contains(other_end(net, rr, y))
                } by {
                let j = choose|j: int| 0 <= j < k + 1 && #[trigger] inside@.subrange(0, k as int + 1)[j] == y;
                if j < k {
                    assert(inside@.subrange(0, k as int).contains(y)) by {
                        assert(inside@.subrange(0, k as int)[j] == y);
                    }
                }
            }
        }
        k = k + 1;
    }
    proof {
        assert(inside@.subrange(0, k as int) =~= inside@);
    }
    inside
}

/// What is wrong with perimeter `p`, if anything: its roads form no closed simple cycle; or its
/// seed is no intersection off the boundary; or every road at the seed lies on the perimeter, so
/// that nothing is enclosed.
pub open spec fn perimeter_problem(net: &RoadNetwork, p: &Perimeter) -> Option<PerimeterError> {
    if forall|js: Seq<usize>| !#[trigger] is_cycle(net, p.roads@, js) {
        Some(PerimeterError::NotClosed)
    } else if p.seed >= net.num_intersections() || on_boundary(net, p.roads@, p.seed) {
        Some(PerimeterError::BadSeed)
    } else if forall|r: int|
        0 <= r < net.num_roads() && #[trigger] net.touches(r, p.seed as int) ==> p.roads@.contains(
            r as usize,
        ) {
        Some(PerimeterError::NoInterior)
    } else {
        None
    }
}

/// Works out what perimeter `p` encloses.
pub fn interior(net: &RoadNetwork, p: &Perimeter) -> (res: Result<Neighborhood, PerimeterError>)
    requires
        net.wf(),
    ensures
        res matches Ok(nb) ==> nb.encloses(net, p),
        res is Ok <==> perimeter_problem(net, p) is None,
        res matches Err(e) ==> perimeter_problem(net, p) == Some(e),
{
    let rs = &p.roads;
    let js = match boundary_of(net, rs) {
        Some(js) => js,
        None => {
            return Err(PerimeterError::NotClosed);
        },
    };
    let m = rs.len();
    proof {
        assert forall|x: usize| on_boundary(net, rs@, x) <==> js@.contains(x) by {
            if on_boundary(net, rs@, x) {
                let q = choose|q: int| 0 <= q < rs@.len() && (#[trigger] net.road(rs@[q] as int).src == x || net.road(rs@[q] as int).dst == x);
                assert(joins(net, rs@[q] as int, js@[q], js@[(q + 1) % (m as int)]));
            }
            if js@.contains(x) {
                let q = choose|q: int| 0 <= q < js@.len() && js@[q] == x;
                assert(joins(net, rs@[q] as int, js@[q], js@[(q + 1) % (m as int)]));
            }
        }
    }
    if p.seed >= net.intersections.len() || RoadNetwork::contains_road(&js, p.seed) {
        return Err(PerimeterError::BadSeed);
    }
    let inside = flood_fill(net, rs, &js, p.seed);
    let mut roads: Vec<usize> = Vec::new();
    let mut r: usize = 0;
    while r < net.roads.len()
        invariant
            net.wf(),
            r <= net.num_roads(),
            forall|k: int|
                0 <= k < roads@.len() ==> is_interior_road(net, rs@, inside@, #[trigger] roads@[k] as int),
            forall|q: int|
                0 <= q < r && #[trigger] is_interior_road(net, rs@, inside@, q) ==> roads@.contains(q as usize),
            forall|k: int| 0 <= k < roads@.len() ==> #[trigger] roads@[k] < r,
            forall|a: int, b: int| 0 <= a < b < roads@.len() ==> #[trigger] roads@[a] < #[trigger] roads@[b],
        decreases net.num_roads() - r,
    {
        let road = net.roads[r];
        let ghost before = roads@;
        if !RoadNetwork::contains_road(rs, r) && (RoadNetwork::contains_road(&inside, road.src)
            || RoadNetwork::contains_road(&inside, road.dst)) {
            roads.push(r);
            proof {
                assert forall|z: usize| before.contains(z) implies roads@.contains(z) by {
                    let j = choose|j: int| 0 <= j < before.len() && before[j] == z;
                    assert(roads@[j] == z);
                }
                assert(roads@[before.len() as int] == r);
                assert forall|k: int| 0 <= k < roads@.len() implies #[trigger] roads@[k] < r + 1 by {
                    if k < before.len() {
                        assert(roads@[k] == before[k]);
                    }
                }
                assert forall|a: int, b: int| 0 <= a < b < roads@.len() implies #[trigger] roads@[a] < #[trigger] roads@[b] by {
                    assert(roads@[a] == before[a]);
                    if b < before.len() {
                        assert(roads@[b] == before[b]);
                    }
                }
            }
        }
        r = r + 1;
    }
    if roads.len() == 0 {
        proof {
            assert forall|q: int| 0 <= q < net.num_roads() && #[trigger] net.touches(q, p.seed as int) implies p.roads@.contains(q as usize) by {
                if !p.roads@.contains(q as usize) {
                    assert(inside@[0] == p.seed);
                    assert(is_interior_road(net, rs@, inside@, q));
                }
            }
        }
        return Err(PerimeterError::NoInterior);
    }
    proof {
        let q0 = roads@[0] as int;
        assert(is_interior_road(net, rs@, inside@, q0));
        assert(!(forall|q: int| 0 <= q < net.num_roads() && #[trigger] net.touches(q, p.seed as int) ==> p.roads@.contains(q as usize))) by {
            // The flood fill only grows along roads off the perimeter, so when a road touches
            // the region one also touches the seed.
            if inside@.len() == 1 {
                assert(net.touches(q0, p.seed as int));
            } else {
                assert(linked_earlier(net, rs@, inside@, 1));
                let (rr, j) = choose|rr: int, j: int| 0 <= j < 1 && #[trigger] open_link(net, rs@, rr, inside@[j], inside@[1]);
                assert(net.touches(rr, p.seed as int));
            }
        }
    }
    Ok(Neighborhood {
        perimeter: rs.clone(),
        boundary: js,
        interior_intersections: inside,
        interior_roads: roads,
    })
}

} // verus!
