use route_optimizer::catalog::{parse_stop_ref, StopCatalog, StopRecord};
use route_optimizer::groups::{build_corridor_groups, build_stop_groups, ordered_corridor_key};
use route_optimizer::layout::{build_layout, LayoutError, RouteLayout};
use route_optimizer::routes::{collect_referenced_stops, resolve_routes, LayoutWarning, Route, RouteStyle};
use route_optimizer::segments::{
    build_segments, same_corridor, same_or_adjacent_segment, segments_share_stop_id,
    skip_segment_pair_for_spacing, SegmentSpec,
};
use route_optimizer::skeleton::map_skeleton;
use std::collections::BTreeMap;

fn stop(id: &str, name: &str) -> StopRecord {
    StopRecord { id: id.to_string(), name: name.to_string() }
}

fn catalog(entries: &[(&str, &str)]) -> StopCatalog {
    let mut c = StopCatalog::new();
    for (id, name) in entries {
        c.insert(stop(id, name));
    }
    c
}

fn route(id: &str, refs: &[&str]) -> Route {
    Route {
        id: id.to_string(),
        name: format!("{id} line"),
        route: refs.iter().map(|s| s.to_string()).collect(),
        style: RouteStyle { color: "#039696".to_string(), bidirectional: false },
    }
}

fn layout(routes: &[Route], cat: &StopCatalog) -> RouteLayout {
    match build_layout(&routes.to_vec(), cat) {
        Ok(l) => l,
        Err(_) => panic!("layout expected"),
    }
}

#[test]
fn catalog_later_stop_replaces_earlier() {
    let mut c = StopCatalog::new();
    assert_eq!(c.insert(stop("01009", "Main Gate")), 0);
    assert_eq!(c.insert(stop("31001", "Terminal")), 1);
    assert_eq!(c.insert(stop("01009", "North Gate")), 0);
    assert_eq!(c.len(), 2);
    assert_eq!(c.records[0].name, "North Gate");
    assert_eq!(c.find(&"01009".to_string()), Some(0));
    assert_eq!(c.find(&"31001".to_string()), Some(1));
    assert_eq!(c.find(&"99999".to_string()), None);
}

#[test]
fn stop_reference_parsing() {
    let r = parse_stop_ref("01009*");
    assert_eq!(r.id, "01009");
    assert!(r.passthrough);
    let r = parse_stop_ref("01009");
    assert_eq!(r.id, "01009");
    assert!(!r.passthrough);
    let r = parse_stop_ref("01009***");
    assert_eq!(r.id, "01009");
    assert!(r.passthrough);
    let r = parse_stop_ref("*");
    assert_eq!(r.id, "");
    assert!(r.passthrough);
    let r = parse_stop_ref("");
    assert_eq!(r.id, "");
    assert!(!r.passthrough);
    let r = parse_stop_ref("a*b");
    assert_eq!(r.id, "a*b");
    assert!(!r.passthrough);
}

#[test]
fn referenced_stops_in_route_order() {
    let cat = catalog(&[("A", "Alpha"), ("B", "Beta"), ("C", "Gamma")]);
    let routes = vec![route("r1", &["C", "X", "A*"]), route("r2", &["B", "C"])];
    assert_eq!(collect_referenced_stops(&routes, &cat), vec![2, 0, 1, 2]);
}

#[test]
fn no_matching_stops_is_an_error() {
    let cat = catalog(&[("A", "Alpha")]);
    let routes = vec![route("r1", &["X", "Y*"])];
    assert!(matches!(build_layout(&routes, &cat), Err(LayoutError::NoMatchingStops)));
    let empty: Vec<Route> = Vec::new();
    assert!(matches!(build_layout(&empty, &cat), Err(LayoutError::NoMatchingStops)));
}

#[test]
fn resolution_visits_and_warnings() {
    let cat = catalog(&[("A", "Alpha"), ("B", "Beta"), ("C", "Gamma")]);
    let routes = vec![route("r1", &["A", "X", "B*", "C"]), route("r2", &["Z", "B"])];
    let (specs, visits, warnings) = resolve_routes(&routes, &cat);
    assert_eq!(specs.len(), 2);
    assert_eq!(specs[0].visit_indices, vec![0, 1, 2]);
    assert_eq!(specs[1].visit_indices, vec![3]);
    assert_eq!(visits.len(), 4);
    assert_eq!(visits[1].stop_id, "B");
    assert_eq!(visits[1].stop_name, "Beta");
    assert_eq!(visits[1].route_position, 2);
    assert!(visits[1].passthrough);
    assert_eq!(visits[2].route_position, 3);
    assert_eq!(visits[3].route_index, 1);
    assert_eq!(visits[3].route_position, 1);
    assert_eq!(visits[3].stop_index, 1);
    let messages: Vec<String> = warnings.iter().map(|w| w.message()).collect();
    assert_eq!(
        messages,
        vec![
            "Route 'r1' references missing stop 'X'".to_string(),
            "Route 'r2' references missing stop 'Z'".to_string(),
            "Route 'r2' has fewer than two resolved stops".to_string(),
        ]
    );
    assert!(matches!(&warnings[2], LayoutWarning::TooFewStops { route_id } if route_id == "r2"));
}

#[test]
fn segments_link_consecutive_visits() {
    let cat = catalog(&[("A", "Alpha"), ("B", "Beta"), ("C", "Gamma")]);
    let routes = vec![route("r1", &["A", "B", "C"]), route("r2", &["C"]), route("r3", &["B", "A"])];
    let (specs, _, _) = resolve_routes(&routes, &cat);
    let segs = build_segments(&specs);
    assert_eq!(
        segs,
        vec![
            SegmentSpec { route_index: 0, segment_index: 0, a_visit: 0, b_visit: 1 },
            SegmentSpec { route_index: 0, segment_index: 1, a_visit: 1, b_visit: 2 },
            SegmentSpec { route_index: 2, segment_index: 0, a_visit: 4, b_visit: 5 },
        ]
    );
}

#[test]
fn segment_relations() {
    let cat = catalog(&[("A", "Alpha"), ("B", "Beta"), ("C", "Gamma"), ("D", "Delta")]);
    let routes = vec![route("r1", &["A", "B", "C", "D"]), route("r2", &["B", "A"]), route("r3", &["C", "D"])];
    let l = layout(&routes, &cat);
    let s = &l.segments;
    // r1: A-B (0), B-C (1), C-D (2); r2: B-A (3); r3: C-D (4)
    assert!(same_or_adjacent_segment(&s[0], &s[1]));
    assert!(!same_or_adjacent_segment(&s[0], &s[2]));
    assert!(same_corridor(&s[0], &s[3], &l.visits));
    assert!(segments_share_stop_id(&s[1], &s[3], &l.visits));
    assert!(!segments_share_stop_id(&s[0], &s[4], &l.visits));
    assert!(!skip_segment_pair_for_spacing(&s[0], &s[4], &l.visits));
    assert!(skip_segment_pair_for_spacing(&s[2], &s[4], &l.visits));
    for i in 0..s.len() {
        for j in 0..s.len() {
            assert_eq!(
                skip_segment_pair_for_spacing(&s[i], &s[j], &l.visits),
                skip_segment_pair_for_spacing(&s[j], &s[i], &l.visits)
            );
        }
    }
}

#[test]
fn stop_groups_follow_string_order() {
    let ids = ["b", "a", "B", "ab", "", "가", "z", "a"];
    let entries: Vec<(String, String)> = ids.iter().map(|i| (i.to_string(), format!("n{i}"))).collect();
    let mut cat = StopCatalog::new();
    for (id, name) in &entries {
        cat.insert(StopRecord { id: id.clone(), name: name.clone() });
    }
    let routes = vec![route("r1", &ids), route("r2", &["a", "가", "b"])];
    let (_, visits, _) = resolve_routes(&routes, &cat);
    let groups = build_stop_groups(&visits);
    let mut expected: BTreeMap<String, Vec<usize>> = BTreeMap::new();
    for (i, v) in visits.iter().enumerate() {
        expected.entry(v.stop_id.clone()).or_default().push(i);
    }
    let got: Vec<(String, Vec<usize>)> = groups.iter().map(|g| (g.stop_id.clone(), g.visits.clone())).collect();
    let want: Vec<(String, Vec<usize>)> = expected.into_iter().collect();
    assert_eq!(got, want);
    for g in &groups {
        assert_eq!(g.first_visit, g.visits[0]);
        assert_eq!(g.stop_name, visits[g.first_visit].stop_name);
    }
}

#[test]
fn stop_group_members_ordered_by_route_then_position() {
    let cat = catalog(&[("A", "Alpha"), ("B", "Beta")]);
    let routes = vec![route("r1", &["A", "B", "A"]), route("r2", &["B", "A"])];
    let l = layout(&routes, &cat);
    assert_eq!(l.stop_groups.len(), 2);
    assert_eq!(l.stop_groups[0].stop_id, "A");
    assert_eq!(l.stop_groups[0].visits, vec![0, 2, 4]);
    assert_eq!(l.stop_groups[1].visits, vec![1, 3]);
}

#[test]
fn corridors_need_two_routes() {
    let cat = catalog(&[("A", "Alpha"), ("B", "Beta"), ("C", "Gamma")]);
    let routes = vec![
        route("r1", &["A", "B", "C"]),
        route("r2", &["B", "A"]),
        route("r3", &["A", "B"]),
        route("r4", &["C", "B", "C"]),
    ];
    let l = layout(&routes, &cat);
    // segments: r1 A-B 0, B-C 1; r2 B-A 2; r3 A-B 3; r4 C-B 4, B-C 5
    assert_eq!(l.corridor_groups.len(), 2);
    let g0 = &l.corridor_groups[0];
    assert_eq!((g0.stop_a.as_str(), g0.stop_b.as_str()), ("A", "B"));
    let members: Vec<(usize, bool, usize)> =
        g0.members.iter().map(|m| (m.segment_index, m.key_forward, m.slot)).collect();
    assert_eq!(members, vec![(0, true, 0), (2, false, 1), (3, true, 2)]);
    let g1 = &l.corridor_groups[1];
    assert_eq!((g1.stop_a.as_str(), g1.stop_b.as_str()), ("B", "C"));
    let members: Vec<(usize, bool)> = g1.members.iter().map(|m| (m.segment_index, m.key_forward)).collect();
    assert_eq!(members, vec![(1, true), (4, false), (5, true)]);
    let direct = build_corridor_groups(&l.segments, &l.visits);
    assert_eq!(direct.len(), 2);
}

#[test]
fn single_route_corridor_forms_no_group() {
    let cat = catalog(&[("A", "Alpha"), ("B", "Beta")]);
    let routes = vec![route("r1", &["A", "B", "A", "B"])];
    let l = layout(&routes, &cat);
    assert_eq!(l.corridor_groups.len(), 0);
}

#[test]
fn corridor_key_is_ordered_and_symmetric() {
    assert_eq!(ordered_corridor_key("B", "A"), ("A".to_string(), "B".to_string()));
    assert_eq!(ordered_corridor_key("A", "B"), ("A".to_string(), "B".to_string()));
    assert_eq!(ordered_corridor_key("ab", "a"), ("a".to_string(), "ab".to_string()));
    assert_eq!(ordered_corridor_key("x", "x"), ("x".to_string(), "x".to_string()));
    for (a, b) in [("가", "z"), ("10", "9"), ("", "0")] {
        assert_eq!(ordered_corridor_key(a, b), ordered_corridor_key(b, a));
        let (first, second) = ordered_corridor_key(a, b);
        assert!(first <= second);
    }
}

#[test]
fn skeleton_mirrors_layout() {
    let cat = catalog(&[("A", "Alpha"), ("B", "Beta")]);
    let routes = vec![route("r1", &["A", "B*", "Q"]), route("r2", &["B", "A"])];
    let l = layout(&routes, &cat);
    let s = map_skeleton(&l);
    assert_eq!(s.routes.len(), 2);
    assert_eq!(s.routes[0].id, "r1");
    assert_eq!(s.routes[0].name, "r1 line");
    assert_eq!(s.routes[0].style.color, "#039696");
    let stops: Vec<(&str, &str, bool, usize)> = s.routes[0]
        .stops
        .iter()
        .map(|e| (e.id.as_str(), e.name.as_str(), e.passthrough, e.visit_index))
        .collect();
    assert_eq!(stops, vec![("A", "Alpha", false, 0), ("B", "Beta", true, 1)]);
    assert_eq!(s.stops.len(), 2);
    assert_eq!(s.stops[1].id, "B");
    assert_eq!(s.stops[1].stop_index, 1);
    let visits: Vec<(&str, bool, usize)> = s.stops[1]
        .visits
        .iter()
        .map(|v| (v.route_id.as_str(), v.passthrough, v.visit_index))
        .collect();
    assert_eq!(visits, vec![("r1", true, 1), ("r2", false, 2)]);
    assert_eq!(s.warnings, vec!["Route 'r1' references missing stop 'Q'".to_string()]);
}

#[test]
fn layout_is_repeatable() {
    let cat = catalog(&[("A", "Alpha"), ("B", "Beta"), ("C", "Gamma")]);
    let routes = vec![route("r1", &["A", "B", "C"]), route("r2", &["C", "B", "A"]), route("r3", &["B", "A"])];
    let l1 = layout(&routes, &cat);
    let l2 = layout(&routes, &cat);
    let groups = |l: &RouteLayout| -> Vec<(String, Vec<usize>)> {
        l.stop_groups.iter().map(|g| (g.stop_id.clone(), g.visits.clone())).collect()
    };
    let corridors = |l: &RouteLayout| -> Vec<(String, String, Vec<(usize, bool, usize)>)> {
        l.corridor_groups
            .iter()
            .map(|g| {
                (
                    g.stop_a.clone(),
                    g.stop_b.clone(),
                    g.members.iter().map(|m| (m.segment_index, m.key_forward, m.slot)).collect(),
                )
            })
            .collect()
    };
    assert_eq!(groups(&l1), groups(&l2));
    assert_eq!(corridors(&l1), corridors(&l2));
    assert_eq!(l1.segments, l2.segments);
}

#[test]
fn layout_error_message() {
    assert_eq!(
        LayoutError::NoMatchingStops.message(),
        "No matching stops found. Check that route IDs match position IDs."
    );
}

#[test]
fn visits_are_numbered_route_by_route() {
    let cat = catalog(&[("A", "Alpha"), ("B", "Beta"), ("C", "Gamma")]);
    let routes = vec![
        route("r1", &["A", "X", "B*", "C"]),
        route("r2", &["Y"]),
        route("r3", &["C", "A"]),
    ];
    let l = layout(&routes, &cat);
    let all: Vec<usize> = l.routes.iter().flat_map(|r| r.visit_indices.iter().copied()).collect();
    assert_eq!(all, (0..l.visits.len()).collect::<Vec<usize>>());
    assert_eq!(all, vec![0, 1, 2, 3, 4]);
    for (r, spec) in l.routes.iter().enumerate() {
        for &v in &spec.visit_indices {
            assert_eq!(l.visits[v].route_index, r);
        }
    }
    let mut grouped: Vec<usize> = l.stop_groups.iter().flat_map(|g| g.visits.iter().copied()).collect();
    grouped.sort();
    assert_eq!(grouped, all);
}
