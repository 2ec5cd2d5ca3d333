use vstd::prelude::*;

verus! {

/// A road between two intersections. A one-way road may only be driven from `src` to `dst`.
#[derive(Clone, Copy, Debug)]
pub struct Road {
    pub src: usize,
    pub dst: usize,
    /// Length of the centerline.
    pub length: u64,
    pub oneway: bool,
    /// Whether motor vehicles may use the road at all.
    pub car_allowed: bool,
}

pub struct Intersection {
    /// Incident roads, in the order they sit around the intersection.
    pub roads: Vec<usize>,
    /// Turns (from road, to road) that the lane connectivity does not allow.
    pub banned_turns: Vec<(usize, usize)>,
}

/// Read-only snapshot of the road graph, stored densely and indexed by identifier.
pub struct RoadNetwork {
    pub roads: Vec<Road>,
    pub intersections: Vec<Intersection>,
}

/// Largest number of roads that may meet at one intersection.
pub const MAX_ROADS_AT_INTERSECTION: usize = 65536;

impl RoadNetwork {
    pub open spec fn num_roads(&self) -> nat {
        self.roads@.len()
    }

    pub open spec fn num_intersections(&self) -> nat {
        self.intersections@.len()
    }

    pub open spec fn road(&self, r: int) -> Road {
        self.roads@[r]
    }

    pub open spec fn roads_at(&self, i: int) -> Seq<usize> {
        self.intersections@[i].roads@
    }

    pub open spec fn touches(&self, r: int, i: int) -> bool {
        self.road(r).src == i || self.road(r).dst == i
    }

    pub open spec fn wf(&self) -> bool {
        &&& self.roads@.len() < usize::MAX / 4
        &&& self.intersections@.len() < usize::MAX / 4
        &&& forall|r: int|
            0 <= r < self.num_roads() ==> {
                &&& #[trigger] self.road(r).src < self.num_intersections()
                &&& self.road(r).dst < self.num_intersections()
                &&& self.road(r).src != self.road(r).dst
            }
        &&& forall|i: int|
            0 <= i < self.num_intersections() ==> #[trigger] self.roads_at(i).len()
                <= MAX_ROADS_AT_INTERSECTION
        &&& forall|i: int, k: int|
            0 <= i < self.num_intersections() && 0 <= k < self.roads_at(i).len() ==> {
                &&& #[trigger] self.roads_at(i)[k] < self.num_roads()
                &&& self.touches(self.roads_at(i)[k] as int, i)
            }
    }

    /// Whether a vehicle arriving on `from` may enter intersection `i` from it.
    pub open spec fn can_arrive(&self, from: int, i: int) -> bool {
        !self.road(from).oneway || self.road(from).dst == i
    }

    /// Whether a vehicle may leave intersection `i` along `to`.
    pub open spec fn can_depart(&self, to: int, i: int) -> bool {
        !self.road(to).oneway || self.road(to).src == i
    }

    /// A legal movement at `i` from road `from` into road `to`, as derived from the geometry:
    /// two distinct incident roads, both open to cars, one-way directions respected and the
    /// turn not banned by the lane connectivity.
    pub open spec fn movement_ok(&self, i: int, from: int, to: int) -> bool {
        &&& 0 <= i < self.num_intersections()
        &&& from != to
        &&& self.roads_at(i).contains(from as usize)
        &&& self.roads_at(i).contains(to as usize)
        &&& self.road(from).car_allowed
        &&& self.road(to).car_allowed
        &&& self.can_arrive(from, i)
        &&& self.can_depart(to, i)
        &&& !self.intersections@[i].banned_turns@.contains((from as usize, to as usize))
    }

    pub fn contains_road(v: &Vec<usize>, r: usize) -> (res: bool)
        ensures
            res == v@.contains(r),
    {
        let mut k: usize = 0;
        while k < v.len()
            invariant
                k <= v@.len(),
                forall|j: int| 0 <= j < k ==> v@[j] != r,
            decreases v@.len() - k,
        {
            if v[k] == r {
                return true;
            }
            k = k + 1;
        }
        false
    }

    fn contains_turn(v: &Vec<(usize, usize)>, t: (usize, usize)) -> (res: bool)
        ensures
            res == v@.contains(t),
    {
        let mut k: usize = 0;
        while k < v.len()
            invariant
                k <= v@.len(),
                forall|j: int| 0 <= j < k ==> v@[j] != t,
            decreases v@.len() - k,
        {
            if v[k].0 == t.0 && v[k].1 == t.1 {
                return true;
            }
            k = k + 1;
        }
        false
    }

    /// Decides whether a movement is legal at `i` from `from` into `to`.
    pub fn can_move(&self, i: usize, from: usize, to: usize) -> (res: bool)
        requires
            self.wf(),
            from < self.num_roads(),
            to < self.num_roads(),
        ensures
            res == self.movement_ok(i as int, from as int, to as int),
    {
        if i >= self.intersections.len() || from == to {
            return false;
        }
        let inter = &self.intersections[i];
        let rf = self.roads[from];
        let rt = self.roads[to];
        Self::contains_road(&inter.roads, from) && Self::contains_road(&inter.roads, to)
            && rf.car_allowed && rt.car_allowed && (!rf.oneway || rf.dst == i) && (!rt.oneway
            || rt.src == i) && !Self::contains_turn(&inter.banned_turns, (from, to))
    }

    /// All legal movements at intersection `i`, as (from road, to road) pairs.
    pub fn movements_at(&self, i: usize) -> (res: Vec<(usize, usize)>)
        requires
            self.wf(),
            i < self.num_intersections(),
        ensures
            forall|k: int|
                0 <= k < res@.len() ==> self.movement_ok(
                    i as int,
                    #[trigger] res@[k].0 as int,
                    res@[k].1 as int,
                ),
            forall|from: usize, to: usize|
                #[trigger] self.movement_ok(i as int, from as int, to as int) ==> res@.contains(
                    (from, to),
                ),
    {
        let rs = &self.intersections[i].roads;
        let mut res: Vec<(usize, usize)> = Vec::new();
        let mut a: usize = 0;
        while a < rs.len()
            invariant
                self.wf(),
                i < self.num_intersections(),
                rs@ == self.roads_at(i as int),
                a <= rs@.len(),
                forall|k: int|
                    0 <= k < res@.len() ==> self.movement_ok(
                        i as int,
                        #[trigger] res@[k].0 as int,
                        res@[k].1 as int,
                    ),
                forall|from: usize, to: usize|
                    #[trigger] self.movement_ok(i as int, from as int, to as int) && (exists|p: int|
                        0 <= p < a && rs@[p] == from) ==> res@.contains((from, to)),
            decreases rs@.len() - a,
        {
            let mut b: usize = 0;
            while b < rs.len()
                invariant
                    self.wf(),
                    i < self.num_intersections(),
                    rs@ == self.roads_at(i as int),
                    a < rs@.len(),
                    b <= rs@.len(),
                    forall|k: int|
                        0 <= k < res@.len() ==> self.movement_ok(
                            i as int,
                            #[trigger] res@[k].0 as int,
                            res@[k].1 as int,
                        ),
                    forall|from: usize, to: usize|
                        #[trigger] self.movement_ok(i as int, from as int, to as int) && (exists|p: int|
                            0 <= p < a && rs@[p] == from) ==> res@.contains((from, to)),
                    forall|to: usize|
                        #[trigger] self.movement_ok(i as int, rs@[a as int] as int, to as int) && (exists|
                            q: int,
                        |
                            0 <= q < b && rs@[q] == to) ==> res@.contains((rs@[a as int], to)),
                decreases rs@.len() - b,
            {
                let from = rs[a];
                let to = rs[b];
                let ghost before = res@;
                if self.can_move(i, from, to) {
                    res.push((from, to));
                    assert(res@[before.len() as int] == (from, to));
                }
                assert forall|x: (usize, usize)| before.contains(x) implies res@.contains(x) by {
                    let j = choose|j: int| 0 <= j < before.len() && before[j] == x;
                    assert(res@[j] == x);
                }
                b = b + 1;
            }
            assert forall|from: usize, to: usize|
                #[trigger] self.movement_ok(i as int, from as int, to as int) && (exists|p: int|
                    0 <= p < a + 1 && rs@[p] == from) implies res@.contains((from, to)) by {
                let p = choose|p: int| 0 <= p < a + 1 && rs@[p] == from;
                if p == a {
                    let q = choose|q: int| 0 <= q < rs@.len() && rs@[q] == to;
                    assert(self.movement_ok(i as int, rs@[a as int] as int, to as int));
                }
            }
            a = a + 1;
        }
        assert forall|from: usize, to: usize|
            #[trigger] self.movement_ok(i as int, from as int, to as int) implies res@.contains(
                (from, to),
            ) by {
            let p = choose|p: int| 0 <= p < rs@.len() && rs@[p] == from;
        }
        res
    }
}

} // verus!
