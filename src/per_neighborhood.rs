use vstd::prelude::*;
use crate::network::RoadNetwork;
use crate::filters::{ModalFilters, FilterError, toggled, cycled, undo_result, snapshot_view, eligible};
use crate::perimeter::{Perimeter, Neighborhood, PerimeterError, interior, perimeter_problem};
use crate::shortcuts::{ShortcutResult, recompute};

verus! {

/// The view of a neighborhood being edited.
#[derive(Clone, Copy, Debug, PartialEq, Eq, Structural)]
pub enum Tab {
    Connectivity,
    Shortcuts,
}

/// Something in a neighborhood that can take a filter.
#[derive(Clone, Copy, Debug, PartialEq, Eq, Structural, Hash)]
pub enum FilterableObj {
    InteriorRoad(usize),
    InteriorIntersection(usize),
}

/// What happened to the clickable objects of a neighborhood.
#[derive(Clone, Copy, Debug)]
pub enum WorldOutcome {
    ClickedObject(FilterableObj),
    /// The debug key was pressed over an object.
    DebugKeypress(FilterableObj),
    Nothing,
}

/// Actions offered by the editing panel.
#[derive(Clone, Copy, Debug)]
pub enum Action {
    BrowseNeighborhoods,
    AdjustBoundary,
    Connectivity,
    Shortcuts,
    CreateFiltersAlongShape,
    Undo,
    PlanRoute,
}

/// Screens that the panel can lead to.
#[derive(Clone, Copy, Debug, PartialEq, Eq, Structural)]
pub enum Screen {
    BrowseNeighborhoods,
    SelectBoundary,
    ConnectivityViewer,
    BrowseShortcuts,
    FreehandFilters,
    RoutePlanner,
}

/// What the caller should do after an action.
#[derive(Clone, Copy, Debug, PartialEq, Eq, Structural)]
pub enum Transition {
    Replace(Screen),
    Push(Screen),
    /// Rebuild the current screen.
    Recreate,
}

/// One neighborhood being edited: the network, what its perimeter encloses, the filters, and
/// the shortcuts under those filters, kept current after every edit.
pub struct Session {
    pub net: RoadNetwork,
    pub neighborhood: Neighborhood,
    pub filters: ModalFilters,
    pub shortcuts: ShortcutResult,
}

impl Session {
    pub open spec fn wf(&self) -> bool {
        &&& self.net.wf()
        &&& self.filters.fits(&self.net)
        &&& self.neighborhood.boundary@.no_duplicates()
        &&& self.neighborhood.interior_intersections@.no_duplicates()
        &&& forall|a: int, b: int|
            0 <= a < b < self.neighborhood.interior_roads@.len()
                ==> #[trigger] self.neighborhood.interior_roads@[a]
                < #[trigger] self.neighborhood.interior_roads@[b]
        &&& forall|k: int|
            0 <= k < self.neighborhood.interior_roads@.len()
                ==> #[trigger] self.neighborhood.interior_roads@[k] < self.net.num_roads()
        &&& forall|k: int|
            0 <= k < self.neighborhood.interior_intersections@.len()
                ==> #[trigger] self.neighborhood.interior_intersections@[k]
                < self.net.num_intersections()
        &&& self.shortcuts.describes(&self.net, &self.neighborhood, self.filters.current@)
    }

    /// Starts editing the neighborhood that `perimeter` encloses, with no filters.
    pub fn new(net: RoadNetwork, perimeter: &Perimeter) -> (res: Result<Session, PerimeterError>)
        requires
            net.wf(),
        ensures
            res matches Ok(s) ==> {
                &&& s.wf()
                &&& s.neighborhood.encloses(&net, perimeter)
                &&& s.filters.previous_version is None
                &&& s.filters.current@.0 == Seq::new(net.num_roads(), |r: int| None::<u64>)
                &&& s.filters.current@.1 == Seq::new(net.num_intersections(), |i: int| 0u64)
            },
            res is Ok <==> perimeter_problem(&net, perimeter) is None,
            res matches Err(e) ==> perimeter_problem(&net, perimeter) == Some(e),
    {
        let neighborhood = match interior(&net, perimeter) {
            Ok(nb) => nb,
            Err(e) => {
                return Err(e);
            },
        };
        assert forall|k: int| 0 <= k < neighborhood.interior_roads@.len() implies #[trigger] neighborhood.interior_roads@[k] < net.num_roads() by {
            assert(crate::perimeter::is_interior_road(&net, perimeter.roads@, neighborhood.interior_intersections@, neighborhood.interior_roads@[k] as int));
        }
        let filters = ModalFilters::new(&net);
        let shortcuts = recompute(&net, &neighborhood, &filters.current);
        Ok(Session { net, neighborhood, filters, shortcuts })
    }

    /// How many filters are in force, as the panel reports it.
    pub fn filters_added(&self) -> (res: usize)
        requires
            self.wf(),
        ensures
            res == crate::filters::count_filters(self.filters.current@),
    {
        self.filters.current.count()
    }

    /// Whether an undo is available.
    pub fn can_undo(&self) -> (res: bool)
        ensures
            res == (self.filters.previous_version is Some),
    {
        self.filters.can_undo()
    }

    /// Restores the filters from before the last edit and recomputes the shortcuts; fails with
    /// `NoSnapshot` when there is nothing to undo.
    pub fn undo(&mut self) -> (res: Result<(), FilterError>)
        requires
            old(self).wf(),
        ensures
            final(self).wf(),
            (res is Ok, final(self).filters.current@, snapshot_view(
                final(self).filters.previous_version,
            )) == undo_result(
                old(self).filters.current@,
                snapshot_view(old(self).filters.previous_version),
            ),
            final(self).net == old(self).net,
            final(self).neighborhood == old(self).neighborhood,
    {
        let res = self.filters.undo();
        if res.is_ok() {
            self.shortcuts = recompute(&self.net, &self.neighborhood, &self.filters.current);
        }
        res
    }

    /// Reacts to a click or key press on the neighborhood's objects. Clicking an eligible road
    /// places a point filter at `dist_along` (the clicked point's distance along its centerline)
    /// or removes the one there; clicking an intersection cycles its diagonal filter. Either
    /// edit can be undone and brings the shortcuts up to date. Returns whether the neighborhood
    /// may have changed, so that the caller redraws.
    pub fn handle_world_outcome(&mut self, outcome: WorldOutcome, dist_along: u64) -> (res: bool)
        requires
            old(self).wf(),
            outcome matches WorldOutcome::ClickedObject(FilterableObj::InteriorRoad(r)) ==> (r
                < old(self).net.num_roads() ==> dist_along <= old(self).net.road(r as int).length),
        ensures
            final(self).wf(),
            final(self).net == old(self).net,
            final(self).neighborhood == old(self).neighborhood,
            match outcome {
                WorldOutcome::ClickedObject(FilterableObj::InteriorRoad(r)) => if r
                    >= old(self).net.num_roads() {
                    !res && final(self).filters == old(self).filters
                } else if !eligible(&old(self).net, r as int) {
                    res && final(self).filters == old(self).filters
                } else {
                    &&& res
                    &&& final(self).filters.current@ == toggled(
                        &old(self).net,
                        old(self).filters.current@,
                        r as int,
                        dist_along,
                    )
                    &&& snapshot_view(final(self).filters.previous_version) == Some(
                        old(self).filters.current@,
                    )
                },
                WorldOutcome::ClickedObject(FilterableObj::InteriorIntersection(i)) => if i
                    >= old(self).net.num_intersections() {
                    !res && final(self).filters == old(self).filters
                } else {
                    &&& res
                    &&& final(self).filters.current@ == cycled(
                        &old(self).net,
                        old(self).filters.current@,
                        i as int,
                    )
                    &&& snapshot_view(final(self).filters.previous_version) == Some(
                        old(self).filters.current@,
                    )
                },
                _ => !res && final(self).filters == old(self).filters,
            },
    {
        match outcome {
            WorldOutcome::ClickedObject(FilterableObj::InteriorRoad(r)) => {
                if r >= self.net.roads.len() {
                    return false;
                }
                let road = self.net.roads[r];
                // Filtering a road that is already closed to cars, or a one-way, makes no sense.
                if !road.car_allowed || road.oneway {
                    return true;
                }
                self.filters.begin_edit();
                self.filters.toggle_point_filter(&self.net, r, dist_along);
                self.shortcuts = recompute(&self.net, &self.neighborhood, &self.filters.current);
                true
            },
            WorldOutcome::ClickedObject(FilterableObj::InteriorIntersection(i)) => {
                if i >= self.net.intersections.len() {
                    return false;
                }
                self.filters.begin_edit();
                self.filters.cycle_diagonal_filter(&self.net, i);
                self.shortcuts = recompute(&self.net, &self.neighborhood, &self.filters.current);
                true
            },
            _ => false,
        }
    }

    /// Decides where an action of the panel leads. `Undo` restores the filters from before the
    /// last edit and asks for the screen to be rebuilt; with nothing to undo it leads nowhere.
    pub fn handle_action(&mut self, action: Action) -> (res: Option<Transition>)
        requires
            old(self).wf(),
        ensures
            final(self).wf(),
            final(self).net == old(self).net,
            final(self).neighborhood == old(self).neighborhood,
            match action {
                Action::BrowseNeighborhoods => res == Some(
                    Transition::Replace(Screen::BrowseNeighborhoods),
                ),
                Action::AdjustBoundary => res == Some(Transition::Replace(Screen::SelectBoundary)),
                Action::Connectivity => res == Some(
                    Transition::Replace(Screen::ConnectivityViewer),
                ),
                Action::Shortcuts => res == Some(Transition::Replace(Screen::BrowseShortcuts)),
                Action::CreateFiltersAlongShape => res == Some(
                    Transition::Push(Screen::FreehandFilters),
                ),
                Action::PlanRoute => res == Some(Transition::Push(Screen::RoutePlanner)),
                Action::Undo => {
                    &&& (res == Some(Transition::Recreate)) == (old(
                        self,
                    ).filters.previous_version is Some)
                    &&& (old(self).filters.previous_version is None ==> res is None)
                    &&& (final(self).filters.current@, snapshot_view(
                        final(self).filters.previous_version,
                    )) == (undo_result(
                        old(self).filters.current@,
                        snapshot_view(old(self).filters.previous_version),
                    ).1, undo_result(
                        old(self).filters.current@,
                        snapshot_view(old(self).filters.previous_version),
                    ).2)
                },
            },
            !(action is Undo) ==> final(self).filters == old(self).filters,
    {
        match action {
            Action::BrowseNeighborhoods => Some(Transition::Replace(Screen::BrowseNeighborhoods)),
            Action::AdjustBoundary => Some(Transition::Replace(Screen::SelectBoundary)),
            Action::Connectivity => Some(Transition::Replace(Screen::ConnectivityViewer)),
            Action::Shortcuts => Some(Transition::Replace(Screen::BrowseShortcuts)),
            Action::CreateFiltersAlongShape => Some(Transition::Push(Screen::FreehandFilters)),
            Action::Undo => {
                match self.undo() {
                    Ok(()) => Some(Transition::Recreate),
                    Err(_) => None,
                }
            },
            Action::PlanRoute => Some(Transition::Push(Screen::RoutePlanner)),
        }
    }

    /// The objects a user may click to edit filters, each with the number of shortcuts that
    /// cross it: the interior roads first, then the interior intersections.
    pub fn make_world(&self) -> (res: Vec<(FilterableObj, usize)>)
        requires
            self.wf(),
        ensures
            res@.len() == self.neighborhood.interior_roads@.len()
                + self.neighborhood.interior_intersections@.len(),
            forall|k: int|
                0 <= k < self.neighborhood.interior_roads@.len() ==> #[trigger] res@[k] == (
                    FilterableObj::InteriorRoad(self.neighborhood.interior_roads@[k]),
                    self.shortcuts.count_per_road@[self.neighborhood.interior_roads@[k] as int],
                ),
            forall|k: int|
                0 <= k < self.neighborhood.interior_intersections@.len() ==> #[trigger] res@[k
                    + self.neighborhood.interior_roads@.len()] == (
                    FilterableObj::InteriorIntersection(
                        self.neighborhood.interior_intersections@[k],
                    ),
                    self.shortcuts.count_per_intersection@[self.neighborhood.interior_intersections@[k] as int],
                ),
    {
        let roads = &self.neighborhood.interior_roads;
        let inters = &self.neighborhood.interior_intersections;
        let mut res: Vec<(FilterableObj, usize)> = Vec::new();
        let mut k: usize = 0;
        while k < roads.len()
            invariant
                self.wf(),
                roads@ == self.neighborhood.interior_roads@,
                forall|q: int| 0 <= q < roads@.len() ==> #[trigger] roads@[q] < self.net.num_roads(),
                k <= roads@.len(),
                res@.len() == k,
                forall|q: int|
                    0 <= q < k ==> #[trigger] res@[q] == (
                        FilterableObj::InteriorRoad(roads@[q]),
                        self.shortcuts.count_per_road@[roads@[q] as int],
                    ),
            decreases roads@.len() - k,
        {
            let r = roads[k];
            res.push((FilterableObj::InteriorRoad(r), self.shortcuts.count_per_road[r]));
            k = k + 1;
        }
        let mut j: usize = 0;
        while j < inters.len()
            invariant
                self.wf(),
                roads@ == self.neighborhood.interior_roads@,
                inters@ == self.neighborhood.interior_intersections@,
                forall|q: int| 0 <= q < inters@.len() ==> #[trigger] inters@[q] < self.net.num_intersections(),
                j <= inters@.len(),
                res@.len() == roads@.len() + j,
                forall|q: int|
                    0 <= q < roads@.len() ==> #[trigger] res@[q] == (
                        FilterableObj::InteriorRoad(roads@[q]),
                        self.shortcuts.count_per_road@[roads@[q] as int],
                    ),
                forall|q: int|
                    0 <= q < j ==> #[trigger] res@[q + roads@.len()] == (
                        FilterableObj::InteriorIntersection(inters@[q]),
                        self.shortcuts.count_per_intersection@[inters@[q] as int],
                    ),
            decreases inters@.len() - j,
        {
            let i = inters[j];
            let ghost before = res@;
            res.push((FilterableObj::InteriorIntersection(i), self.shortcuts.count_per_intersection[i]));
            assert forall|q: int| 0 <= q < roads@.len() implies #[trigger] res@[q] == (
                FilterableObj::InteriorRoad(roads@[q]),
                self.shortcuts.count_per_road@[roads@[q] as int],
            ) by {
                assert(res@[q] == before[q]);
            }
            assert forall|q: int| 0 <= q < j + 1 implies #[trigger] res@[q + roads@.len()] == (
                FilterableObj::InteriorIntersection(inters@[q]),
                self.shortcuts.count_per_intersection@[inters@[q] as int],
            ) by {
                if q < j {
                    assert(res@[q + roads@.len()] == before[q + roads@.len()]);
                }
            }
            j = j + 1;
        }
        res
    }
}

} // verus!
