use vstd::prelude::*;
use crate::network::RoadNetwork;
use crate::diagonal::{next_state, num_states, next_config};

verus! {

/// The filters in force: for each road the offset along its centerline of its point filter, if
/// any; for each intersection its diagonal-filter configuration (0 when unfiltered).
pub struct FilterState {
    pub roads: Vec<Option<u64>>,
    pub diagonals: Vec<u64>,
}

impl View for FilterState {
    type V = (Seq<Option<u64>>, Seq<u64>);

    open spec fn view(&self) -> (Seq<Option<u64>>, Seq<u64>) {
        (self.roads@, self.diagonals@)
    }
}

/// Whether a road may take a point filter: open to cars and two-way.
pub open spec fn eligible(net: &RoadNetwork, r: int) -> bool {
    net.road(r).car_allowed && !net.road(r).oneway
}

/// Filters whose shape fits the network.
pub open spec fn state_fits(net: &RoadNetwork, v: (Seq<Option<u64>>, Seq<u64>)) -> bool {
    &&& v.0.len() == net.num_roads()
    &&& v.1.len() == net.num_intersections()
    &&& forall|i: int|
        0 <= i < v.1.len() ==> #[trigger] v.1[i] < num_states(net.roads_at(i).len() as int)
}

/// The filters after clicking road `r` at `offset`: an existing point filter goes, otherwise one
/// is placed there; an ineligible road is left alone.
pub open spec fn toggled(
    net: &RoadNetwork,
    v: (Seq<Option<u64>>, Seq<u64>),
    r: int,
    offset: u64,
) -> (Seq<Option<u64>>, Seq<u64>) {
    if !eligible(net, r) {
        v
    } else if v.0[r] is Some {
        (v.0.update(r, None), v.1)
    } else {
        (v.0.update(r, Some(offset)), v.1)
    }
}

/// The filters after advancing intersection `i` to its next diagonal configuration.
pub open spec fn cycled(
    net: &RoadNetwork,
    v: (Seq<Option<u64>>, Seq<u64>),
    i: int,
) -> (Seq<Option<u64>>, Seq<u64>) {
    (v.0, v.1.update(i, next_state(v.1[i] as int, net.roads_at(i).len() as int) as u64))
}

/// Number of roads that carry a point filter.
pub open spec fn count_point_filters(s: Seq<Option<u64>>) -> nat
    decreases s.len(),
{
    if s.len() == 0 {
        0
    } else {
        count_point_filters(s.drop_last()) + if s.last() is Some {
            1nat
        } else {
            0nat
        }
    }
}

/// Number of intersections with a diagonal filter.
pub open spec fn count_diagonal_filters(s: Seq<u64>) -> nat
    decreases s.len(),
{
    if s.len() == 0 {
        0
    } else {
        count_diagonal_filters(s.drop_last()) + if s.last() != 0 {
            1nat
        } else {
            0nat
        }
    }
}

/// Number of filters placed: point filters plus filtered intersections.
pub open spec fn count_filters(v: (Seq<Option<u64>>, Seq<u64>)) -> nat {
    count_point_filters(v.0) + count_diagonal_filters(v.1)
}

proof fn lemma_count_bounds(a: Seq<Option<u64>>, b: Seq<u64>)
    ensures
        count_point_filters(a) <= a.len(),
        count_diagonal_filters(b) <= b.len(),
    decreases a.len() + b.len(),
{
    if a.len() > 0 {
        lemma_count_bounds(a.drop_last(), b);
    }
    if b.len() > 0 {
        lemma_count_bounds(a, b.drop_last());
    }
}

impl FilterState {
    /// Number of filters in force.
    pub fn count(&self) -> (res: usize)
        requires
            self.roads@.len() + self.diagonals@.len() <= usize::MAX,
        ensures
            res == count_filters(self@),
    {
        let mut n: usize = 0;
        let mut k: usize = 0;
        while k < self.roads.len()
            invariant
                k <= self.roads@.len(),
                self.roads@.len() + self.diagonals@.len() <= usize::MAX,
                n == count_point_filters(self.roads@.subrange(0, k as int)),
            decreases self.roads@.len() - k,
        {
            proof {
                let t = self.roads@.subrange(0, k as int + 1);
                assert(t.drop_last() =~= self.roads@.subrange(0, k as int));
                lemma_count_bounds(self.roads@.subrange(0, k as int), Seq::empty());
            }
            if self.roads[k].is_some() {
                n = n + 1;
            }
            k = k + 1;
        }
        assert(self.roads@.subrange(0, k as int) =~= self.roads@);
        proof {
            lemma_count_bounds(self.roads@, Seq::empty());
        }
        let ghost points = n;
        let mut j: usize = 0;
        while j < self.diagonals.len()
            invariant
                j <= self.diagonals@.len(),
                self.roads@.len() + self.diagonals@.len() <= usize::MAX,
                points == count_point_filters(self.roads@),
                points <= self.roads@.len(),
                n == points + count_diagonal_filters(self.diagonals@.subrange(0, j as int)),
            decreases self.diagonals@.len() - j,
        {
            proof {
                let t = self.diagonals@.subrange(0, j as int + 1);
                assert(t.drop_last() =~= self.diagonals@.subrange(0, j as int));
                lemma_count_bounds(Seq::empty(), self.diagonals@.subrange(0, j as int));
            }
            if self.diagonals[j] != 0 {
                n = n + 1;
            }
            j = j + 1;
        }
        assert(self.diagonals@.subrange(0, j as int) =~= self.diagonals@);
        n
    }

    /// A copy of these filters.
    pub fn snapshot(&self) -> (res: FilterState)
        ensures
            res@ == self@,
    {
        let mut roads: Vec<Option<u64>> = Vec::new();
        let mut k: usize = 0;
        while k < self.roads.len()
            invariant
                k <= self.roads@.len(),
                roads@ == self.roads@.subrange(0, k as int),
            decreases self.roads@.len() - k,
        {
            roads.push(self.roads[k]);
            k = k + 1;
        }
        let mut diagonals: Vec<u64> = Vec::new();
        let mut j: usize = 0;
        while j < self.diagonals.len()
            invariant
                j <= self.diagonals@.len(),
                diagonals@ == self.diagonals@.subrange(0, j as int),
            decreases self.diagonals@.len() - j,
        {
            diagonals.push(self.diagonals[j]);
            j = j + 1;
        }
        assert(roads@ =~= self.roads@);
        assert(diagonals@ =~= self.diagonals@);
        FilterState { roads, diagonals }
    }
}

#[derive(Debug)]
pub enum FilterError {
    /// Undo was asked for with no snapshot taken since the last undo.
    NoSnapshot,
}

/// The editable filters of one neighborhood, with a single level of undo.
pub struct ModalFilters {
    pub current: FilterState,
    pub previous_version: Option<FilterState>,
}

/// The state that an undo restores, if any.
pub open spec fn snapshot_view(p: Option<FilterState>) -> Option<(Seq<Option<u64>>, Seq<u64>)> {
    match p {
        Some(s) => Some(s@),
        None => None,
    }
}

/// What an undo yields from the current filters and the snapshot: whether it succeeded, the
/// filters after it and the snapshot left.
pub open spec fn undo_result(
    cur: (Seq<Option<u64>>, Seq<u64>),
    prev: Option<(Seq<Option<u64>>, Seq<u64>)>,
) -> (bool, (Seq<Option<u64>>, Seq<u64>), Option<(Seq<Option<u64>>, Seq<u64>)>) {
    match prev {
        Some(p) => (true, p, None),
        None => (false, cur, None),
    }
}

/// Placing a point filter on a road and then clicking the same road again, at any offset,
/// leaves the filters as they were.
pub proof fn lemma_toggle_twice(
    net: &RoadNetwork,
    v: (Seq<Option<u64>>, Seq<u64>),
    r: int,
    placed_at: u64,
    removed_at: u64,
)
    requires
        0 <= r < v.0.len(),
        v.0[r] is None,
    ensures
        toggled(net, toggled(net, v, r, placed_at), r, removed_at) == v,
{
    if eligible(net, r) {
        assert(toggled(net, toggled(net, v, r, placed_at), r, removed_at).0 =~= v.0);
    }
}

/// An undo right after a snapshot and one edit (a point filter toggled, or a diagonal filter
/// cycled) succeeds and restores exactly the filters from before the edit; a second undo then
/// finds no snapshot.
pub proof fn lemma_undo_after_edit(
    net: &RoadNetwork,
    before: (Seq<Option<u64>>, Seq<u64>),
    r: int,
    offset: u64,
    i: int,
)
    ensures
        undo_result(toggled(net, before, r, offset), Some(before)) == (
            true,
            before,
            None::<(Seq<Option<u64>>, Seq<u64>)>,
        ),
        undo_result(cycled(net, before, i), Some(before)) == (
            true,
            before,
            None::<(Seq<Option<u64>>, Seq<u64>)>,
        ),
        !undo_result(before, None).0,
{
}

impl ModalFilters {
    pub open spec fn fits(&self, net: &RoadNetwork) -> bool {
        &&& state_fits(net, self.current@)
        &&& self.previous_version matches Some(p) ==> state_fits(net, p@)
    }

    /// No filters, and nothing to undo.
    pub fn new(net: &RoadNetwork) -> (res: ModalFilters)
        ensures
            res.current@.0 == Seq::new(net.num_roads(), |r: int| None::<u64>),
            res.current@.1 == Seq::new(net.num_intersections(), |i: int| 0u64),
            res.previous_version is None,
            res.fits(net),
    {
        let mut roads: Vec<Option<u64>> = Vec::new();
        let mut k: usize = 0;
        while k < net.roads.len()
            invariant
                k <= net.roads@.len(),
                roads@ == Seq::new(k as nat, |r: int| None::<u64>),
            decreases net.roads@.len() - k,
        {
            roads.push(None);
            k = k + 1;
            assert(roads@ =~= Seq::new(k as nat, |r: int| None::<u64>));
        }
        let mut diagonals: Vec<u64> = Vec::new();
        let mut j: usize = 0;
        while j < net.intersections.len()
            invariant
                j <= net.intersections@.len(),
                diagonals@ == Seq::new(j as nat, |i: int| 0u64),
            decreases net.intersections@.len() - j,
        {
            diagonals.push(0);
            j = j + 1;
            assert(diagonals@ =~= Seq::new(j as nat, |i: int| 0u64));
        }
        ModalFilters { current: FilterState { roads, diagonals }, previous_version: None }
    }

    /// Whether there is a snapshot to go back to.
    pub fn can_undo(&self) -> (res: bool)
        ensures
            res == (self.previous_version is Some),
    {
        self.previous_version.is_some()
    }

    /// Snapshots the current filters for undo, overwriting any earlier snapshot.
    pub fn begin_edit(&mut self)
        ensures
            final(self).current@ == old(self).current@,
            snapshot_view(final(self).previous_version) == Some(old(self).current@),
    {
        self.previous_version = Some(self.current.snapshot());
    }

    /// Places a point filter on road `r` at `offset` along its centerline, or removes the one
    /// there; an ineligible road is left alone.
    pub fn toggle_point_filter(&mut self, net: &RoadNetwork, r: usize, offset: u64)
        requires
            net.wf(),
            old(self).fits(net),
            r < net.num_roads(),
            offset <= net.road(r as int).length,
        ensures
            final(self).current@ == toggled(net, old(self).current@, r as int, offset),
            snapshot_view(final(self).previous_version) == snapshot_view(
                old(self).previous_version,
            ),
            final(self).fits(net),
    {
        let road = net.roads[r];
        if !road.car_allowed || road.oneway {
            return ;
        }
        if self.current.roads[r].is_some() {
            self.current.roads.set(r, None);
        } else {
            self.current.roads.set(r, Some(offset));
        }
    }

    /// Advances intersection `i` to its next diagonal-filter configuration.
    pub fn cycle_diagonal_filter(&mut self, net: &RoadNetwork, i: usize)
        requires
            net.wf(),
            old(self).fits(net),
            i < net.num_intersections(),
        ensures
            final(self).current@ == cycled(net, old(self).current@, i as int),
            snapshot_view(final(self).previous_version) == snapshot_view(
                old(self).previous_version,
            ),
            final(self).fits(net),
    {
        let k = net.intersections[i].roads.len();
        let next = next_config(self.current.diagonals[i], k);
        self.current.diagonals.set(i, next);
        assert(self.current@.1 =~= cycled(net, old(self).current@, i as int).1);
    }

    /// Restores and discards the snapshot, or fails when there is none.
    pub fn undo(&mut self) -> (res: Result<(), FilterError>)
        ensures
            (res is Ok, final(self).current@, snapshot_view(final(self).previous_version))
                == undo_result(old(self).current@, snapshot_view(old(self).previous_version)),
    {
        match self.previous_version.take() {
            Some(p) => {
                self.current = p;
                Ok(())
            },
            None => Err(FilterError::NoSnapshot),
        }
    }
}

} // verus!
