use ltn::filters::ModalFilters;
use ltn::network::{Intersection, Road, RoadNetwork};
use ltn::per_neighborhood::{Action, FilterableObj, Screen, Session, Tab, Transition, WorldOutcome};
use ltn::perimeter::{interior, Perimeter, PerimeterError};
use ltn::shortcuts::recompute;

fn road(src: usize, dst: usize, length: u64) -> Road {
    Road { src, dst, length, oneway: false, car_allowed: true }
}

fn network(roads: Vec<Road>, n: usize, banned: Vec<(usize, Vec<(usize, usize)>)>) -> RoadNetwork {
    let mut intersections = Vec::new();
    for i in 0..n {
        let mut at = Vec::new();
        for (r, rd) in roads.iter().enumerate() {
            if rd.src == i || rd.dst == i {
                at.push(r);
            }
        }
        let mut banned_turns = Vec::new();
        for (bi, turns) in &banned {
            if *bi == i {
                banned_turns = turns.clone();
            }
        }
        intersections.push(Intersection { roads: at, banned_turns });
    }
    RoadNetwork { roads, intersections }
}

// Intersection 0 is the centre; 1, 2, 3, 4 are north, east, south and west on the boundary.
// Roads 0..4 run from the centre to N, E, S, W; roads 4..8 form the perimeter.
fn four_way(straight_only: bool) -> RoadNetwork {
    let roads = vec![
        road(0, 1, 100),
        road(0, 2, 100),
        road(0, 3, 100),
        road(0, 4, 100),
        road(1, 2, 150),
        road(2, 3, 150),
        road(3, 4, 150),
        road(4, 1, 150),
    ];
    let banned = if straight_only {
        vec![(0, vec![(0, 1), (0, 3), (1, 0), (1, 2), (2, 1), (2, 3), (3, 0), (3, 2)])]
    } else {
        vec![]
    };
    network(roads, 5, banned)
}

fn four_way_perimeter() -> Perimeter {
    Perimeter { roads: vec![4, 5, 6, 7], seed: 0 }
}

fn pair_connected(s: &Session, a: usize, b: usize) -> bool {
    for (k, p) in s.shortcuts.pairs.iter().enumerate() {
        if (p.0 == a && p.1 == b) || (p.0 == b && p.1 == a) {
            return s.shortcuts.paths[k].is_some();
        }
    }
    panic!("pair not found");
}

#[test]
fn four_way_straight_through_counts() {
    let s = Session::new(four_way(true), &four_way_perimeter()).unwrap();
    assert_eq!(s.shortcuts.pairs.len(), 6);
    assert_eq!(s.shortcuts.count_per_intersection[0], 2);
    assert!(pair_connected(&s, 1, 3));
    assert!(pair_connected(&s, 2, 4));
    assert!(!pair_connected(&s, 1, 2));
    for r in 0..4 {
        assert_eq!(s.shortcuts.count_per_road[r], 1);
    }
    for r in 4..8 {
        assert_eq!(s.shortcuts.count_per_road[r], 0);
    }
}

#[test]
fn diagonal_filter_cuts_east_west_only() {
    let mut s = Session::new(four_way(true), &four_way_perimeter()).unwrap();
    // The first configuration of the rotation separates the east road from the others.
    assert!(s.handle_world_outcome(WorldOutcome::ClickedObject(FilterableObj::InteriorIntersection(0)), 0));
    assert_eq!(s.filters.current.diagonals[0], 1);
    assert!(!pair_connected(&s, 2, 4));
    assert!(pair_connected(&s, 1, 3));
    assert_eq!(s.shortcuts.count_per_intersection[0], 1);
    assert_eq!(s.shortcuts.count_per_road[0], 1);
    assert_eq!(s.shortcuts.count_per_road[2], 1);
    assert_eq!(s.shortcuts.count_per_road[1], 0);
    assert_eq!(s.shortcuts.count_per_road[3], 0);
}

#[test]
fn four_way_all_turns_counts() {
    let s = Session::new(four_way(false), &four_way_perimeter()).unwrap();
    assert_eq!(s.shortcuts.count_per_intersection[0], 6);
    for r in 0..4 {
        assert_eq!(s.shortcuts.count_per_road[r], 3);
    }
}

// Boundary a1=2, a2=3, a3=4, b1=5; interior X=0 and Y=1 joined by road R=3.
fn single_link() -> (RoadNetwork, Perimeter) {
    let roads = vec![
        road(0, 2, 50),
        road(0, 3, 50),
        road(0, 4, 50),
        road(0, 1, 200),
        road(1, 5, 50),
        road(2, 3, 80),
        road(3, 4, 80),
        road(4, 5, 300),
        road(5, 2, 300),
    ];
    (network(roads, 6, vec![]), Perimeter { roads: vec![5, 6, 7, 8], seed: 0 })
}

#[test]
fn point_filter_removes_link() {
    let (net, p) = single_link();
    let mut s = Session::new(net, &p).unwrap();
    assert_eq!(s.shortcuts.count_per_road[3], 3);
    assert!(s.handle_world_outcome(WorldOutcome::ClickedObject(FilterableObj::InteriorRoad(3)), 120));
    assert_eq!(s.filters.current.roads[3], Some(120));
    assert_eq!(s.shortcuts.count_per_road[3], 0);
    assert!(!pair_connected(&s, 2, 5));
    assert!(!pair_connected(&s, 3, 5));
    assert!(!pair_connected(&s, 4, 5));
    assert!(pair_connected(&s, 2, 3));
    // Another edit recomputes again, and the road stays out of every route.
    assert!(s.handle_world_outcome(WorldOutcome::ClickedObject(FilterableObj::InteriorIntersection(0)), 0));
    assert_eq!(s.shortcuts.count_per_road[3], 0);
}

#[test]
fn point_filter_at_road_start_also_blocks() {
    let (net, p) = single_link();
    let mut s = Session::new(net, &p).unwrap();
    s.handle_world_outcome(WorldOutcome::ClickedObject(FilterableObj::InteriorRoad(3)), 0);
    assert_eq!(s.shortcuts.count_per_road[3], 0);
}

#[test]
fn filters_never_connect_new_pairs() {
    let (net, p) = single_link();
    let mut s = Session::new(net, &p).unwrap();
    let before: Vec<bool> = s.shortcuts.paths.iter().map(|o| o.is_some()).collect();
    let pairs_before = s.shortcuts.pairs.clone();
    s.handle_world_outcome(WorldOutcome::ClickedObject(FilterableObj::InteriorRoad(1)), 10);
    assert_eq!(s.shortcuts.pairs, pairs_before);
    for (k, o) in s.shortcuts.paths.iter().enumerate() {
        if o.is_some() {
            assert!(before[k]);
        }
    }
    assert_eq!(s.shortcuts.count_per_road[3], 2);
}

#[test]
fn toggle_twice_restores_filters() {
    let (net, p) = single_link();
    let mut s = Session::new(net, &p).unwrap();
    let roads = s.filters.current.roads.clone();
    let diagonals = s.filters.current.diagonals.clone();
    s.handle_world_outcome(WorldOutcome::ClickedObject(FilterableObj::InteriorRoad(0)), 7);
    assert_eq!(s.filters.current.roads[0], Some(7));
    s.handle_world_outcome(WorldOutcome::ClickedObject(FilterableObj::InteriorRoad(0)), 30);
    assert_eq!(s.filters.current.roads, roads);
    assert_eq!(s.filters.current.diagonals, diagonals);
    assert_eq!(s.shortcuts.count_per_road[3], 3);
}

#[test]
fn rotation_returns_after_full_cycle() {
    let mut s = Session::new(four_way(false), &four_way_perimeter()).unwrap();
    // Four roads: the unfiltered state and six ways to cut them into two arcs.
    let mut seen = Vec::new();
    for _ in 0..7 {
        seen.push(s.filters.current.diagonals[0]);
        s.handle_world_outcome(WorldOutcome::ClickedObject(FilterableObj::InteriorIntersection(0)), 0);
    }
    assert_eq!(seen, vec![0, 1, 2, 3, 4, 5, 6]);
    assert_eq!(s.filters.current.diagonals[0], 0);
    assert_eq!(s.shortcuts.count_per_intersection[0], 6);
}

#[test]
fn undo_restores_then_fails() {
    let (net, p) = single_link();
    let mut s = Session::new(net, &p).unwrap();
    assert!(!s.can_undo());
    assert!(s.undo().is_err());
    s.handle_world_outcome(WorldOutcome::ClickedObject(FilterableObj::InteriorRoad(3)), 5);
    assert!(s.can_undo());
    assert_eq!(s.filters_added(), 1);
    assert!(s.undo().is_ok());
    assert_eq!(s.filters.current.roads[3], None);
    assert_eq!(s.filters_added(), 0);
    assert_eq!(s.shortcuts.count_per_road[3], 3);
    assert!(s.undo().is_err());
}

#[test]
fn undo_keeps_only_one_level() {
    let (net, p) = single_link();
    let mut s = Session::new(net, &p).unwrap();
    s.handle_world_outcome(WorldOutcome::ClickedObject(FilterableObj::InteriorRoad(3)), 5);
    s.handle_world_outcome(WorldOutcome::ClickedObject(FilterableObj::InteriorRoad(0)), 5);
    assert!(s.undo().is_ok());
    assert_eq!(s.filters.current.roads[3], Some(5));
    assert_eq!(s.filters.current.roads[0], None);
    assert!(s.undo().is_err());
}

#[test]
fn ineligible_roads_are_left_alone() {
    let (mut net, p) = single_link();
    net.roads[0].oneway = true;
    net.roads[1].car_allowed = false;
    let mut s = Session::new(net, &p).unwrap();
    assert!(s.handle_world_outcome(WorldOutcome::ClickedObject(FilterableObj::InteriorRoad(0)), 5));
    assert!(s.handle_world_outcome(WorldOutcome::ClickedObject(FilterableObj::InteriorRoad(1)), 5));
    assert_eq!(s.filters.current.roads[0], None);
    assert_eq!(s.filters.current.roads[1], None);
    assert!(!s.can_undo());
    assert!(!s.handle_world_outcome(WorldOutcome::ClickedObject(FilterableObj::InteriorRoad(99)), 0));
    assert!(!s.handle_world_outcome(WorldOutcome::DebugKeypress(FilterableObj::InteriorRoad(3)), 0));
    assert!(!s.handle_world_outcome(WorldOutcome::Nothing, 0));
}

#[test]
fn one_way_shortcuts_are_found_in_their_direction() {
    let (mut net, p) = single_link();
    // Road 3 may only be driven from Y to X.
    net.roads[3] = Road { src: 1, dst: 0, length: 200, oneway: true, car_allowed: true };
    let s = Session::new(net, &p).unwrap();
    let mut through = 0;
    for path in s.shortcuts.paths.iter().flatten() {
        if path.iter().any(|n| n / 2 == 3) {
            through += 1;
            // Such a route enters at b1 (intersection 5) along road 4, driven from 5 to 1.
            assert_eq!(path[0], 9);
            assert_eq!(path[1], 6);
        }
    }
    assert_eq!(through, 3);
    assert_eq!(s.shortcuts.count_per_road[3], 3);
    assert!(pair_connected(&s, 2, 5));
}

#[test]
fn reversed_perimeter_gives_same_counts() {
    let (mut net, p) = single_link();
    net.roads[3] = Road { src: 1, dst: 0, length: 200, oneway: true, car_allowed: true };
    let (mut net2, _) = single_link();
    net2.roads[3] = Road { src: 1, dst: 0, length: 200, oneway: true, car_allowed: true };
    let reversed = Perimeter { roads: vec![8, 7, 6, 5], seed: 0 };
    let a = Session::new(net, &p).unwrap();
    let b = Session::new(net2, &reversed).unwrap();
    assert_eq!(a.shortcuts.count_per_road, b.shortcuts.count_per_road);
    assert_eq!(a.shortcuts.count_per_intersection, b.shortcuts.count_per_intersection);
    assert_eq!(a.shortcuts.pairs.len(), 6);
    assert_eq!(b.shortcuts.pairs.len(), 6);
}

#[test]
fn interior_is_closed() {
    let (net, p) = single_link();
    let nb = interior(&net, &p).unwrap();
    assert_eq!(nb.interior_intersections, vec![0, 1]);
    assert_eq!(nb.interior_roads, vec![0, 1, 2, 3, 4]);
    for r in &nb.interior_roads {
        for end in [net.roads[*r].src, net.roads[*r].dst] {
            assert!(nb.interior_intersections.contains(&end) || nb.boundary.contains(&end));
        }
    }
    assert_eq!(nb.boundary.len(), 4);
}

#[test]
fn perimeter_errors() {
    let (net, _) = single_link();
    let open = Perimeter { roads: vec![5, 6, 7], seed: 0 };
    assert!(matches!(interior(&net, &open), Err(PerimeterError::NotClosed)));
    let unknown = Perimeter { roads: vec![5, 6, 7, 42], seed: 0 };
    assert!(matches!(interior(&net, &unknown), Err(PerimeterError::NotClosed)));
    let on_boundary = Perimeter { roads: vec![5, 6, 7, 8], seed: 2 };
    assert!(matches!(interior(&net, &on_boundary), Err(PerimeterError::BadSeed)));
    let missing = Perimeter { roads: vec![5, 6, 7, 8], seed: 17 };
    assert!(matches!(interior(&net, &missing), Err(PerimeterError::BadSeed)));
    let (net2, _) = single_link();
    let mut net2 = net2;
    net2.intersections.push(Intersection { roads: vec![], banned_turns: vec![] });
    let isolated = Perimeter { roads: vec![5, 6, 7, 8], seed: 6 };
    assert!(matches!(interior(&net2, &isolated), Err(PerimeterError::NoInterior)));
    assert!(Session::new(net2, &isolated).is_err());
}

#[test]
fn self_crossing_perimeter_is_refused() {
    // A figure eight through intersection 0 visits it twice.
    let roads = vec![road(0, 1, 1), road(1, 2, 1), road(2, 0, 1), road(0, 3, 1), road(3, 4, 1), road(4, 0, 1)];
    let net = network(roads, 5, vec![]);
    let p = Perimeter { roads: vec![0, 1, 2, 3, 4, 5], seed: 1 };
    assert!(matches!(interior(&net, &p), Err(PerimeterError::NotClosed)));
}

#[test]
fn movements_follow_turn_bans() {
    let net = four_way(true);
    let mut moves = net.movements_at(0);
    moves.sort();
    assert_eq!(moves, vec![(0, 2), (1, 3), (2, 0), (3, 1)]);
    assert!(net.can_move(0, 0, 2));
    assert!(!net.can_move(0, 0, 1));
    assert!(!net.can_move(0, 0, 0));
    let all = four_way(false).movements_at(0);
    assert_eq!(all.len(), 12);
}

#[test]
fn shortest_route_is_chosen() {
    // Two routes from 1 to 2 inside: a direct long road and a short detour via 3.
    let roads = vec![
        road(0, 1, 10),
        road(0, 2, 500),
        road(0, 3, 10),
        road(3, 2, 10),
        road(1, 2, 40),
        road(2, 4, 40),
        road(4, 1, 40),
    ];
    let net = network(roads, 5, vec![]);
    let p = Perimeter { roads: vec![4, 5, 6], seed: 0 };
    let s = Session::new(net, &p).unwrap();
    for (k, pr) in s.shortcuts.pairs.iter().enumerate() {
        if *pr == (1, 2) {
            assert_eq!(s.shortcuts.paths[k], Some(vec![1, 4, 6]));
        }
    }
    assert_eq!(s.shortcuts.count_per_road[1], 0);
    assert_eq!(s.shortcuts.count_per_road[2], 1);
}

#[test]
fn recompute_matches_session() {
    let (net, p) = single_link();
    let nb = interior(&net, &p).unwrap();
    let filters = ModalFilters::new(&net);
    let res = recompute(&net, &nb, &filters.current);
    assert_eq!(res.count_per_road, vec![3, 3, 3, 3, 3, 0, 0, 0, 0]);
    assert_eq!(res.count_per_intersection, vec![6, 3, 0, 0, 0, 0]);
}

#[test]
fn world_lists_objects_with_counts() {
    let (net, p) = single_link();
    let s = Session::new(net, &p).unwrap();
    let world = s.make_world();
    assert_eq!(world.len(), 7);
    assert_eq!(world[3], (FilterableObj::InteriorRoad(3), 3));
    assert_eq!(world[5], (FilterableObj::InteriorIntersection(0), 6));
    assert_eq!(world[6], (FilterableObj::InteriorIntersection(1), 3));
}

#[test]
fn panel_actions() {
    let (net, p) = single_link();
    let mut s = Session::new(net, &p).unwrap();
    assert_eq!(s.handle_action(Action::BrowseNeighborhoods), Some(Transition::Replace(Screen::BrowseNeighborhoods)));
    assert_eq!(s.handle_action(Action::AdjustBoundary), Some(Transition::Replace(Screen::SelectBoundary)));
    assert_eq!(s.handle_action(Action::Connectivity), Some(Transition::Replace(Screen::ConnectivityViewer)));
    assert_eq!(s.handle_action(Action::Shortcuts), Some(Transition::Replace(Screen::BrowseShortcuts)));
    assert_eq!(s.handle_action(Action::CreateFiltersAlongShape), Some(Transition::Push(Screen::FreehandFilters)));
    assert_eq!(s.handle_action(Action::PlanRoute), Some(Transition::Push(Screen::RoutePlanner)));
    assert_eq!(s.handle_action(Action::Undo), None);
    s.handle_world_outcome(WorldOutcome::ClickedObject(FilterableObj::InteriorRoad(3)), 5);
    assert_eq!(s.handle_action(Action::Undo), Some(Transition::Recreate));
    assert_eq!(s.filters.current.roads[3], None);
    assert!(Tab::Connectivity != Tab::Shortcuts);
}

#[test]
fn filter_can_reroute_onto_another_road() {
    let roads = vec![
        road(0, 1, 10),
        road(0, 2, 500),
        road(0, 3, 10),
        road(3, 2, 10),
        road(1, 2, 40),
        road(2, 4, 40),
        road(4, 1, 40),
    ];
    let net = network(roads, 5, vec![]);
    let p = Perimeter { roads: vec![4, 5, 6], seed: 0 };
    let mut s = Session::new(net, &p).unwrap();
    assert_eq!(s.shortcuts.count_per_road[1], 0);
    s.handle_world_outcome(WorldOutcome::ClickedObject(FilterableObj::InteriorRoad(2)), 5);
    // The pair still connects, now over the long direct road.
    assert!(pair_connected(&s, 1, 2));
    assert_eq!(s.shortcuts.count_per_road[2], 0);
    assert_eq!(s.shortcuts.count_per_road[1], 1);
}
