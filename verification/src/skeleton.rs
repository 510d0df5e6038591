//! The shape of an optimized map without coordinates: which stops each
//! route shows, in order, and which route visits each stop shows. The
//! caller attaches the coordinates of each visit node.
use vstd::prelude::*;
use crate::catalog::StopCatalog;
use crate::groups::{law_stop_groups_partition, StopGroup};
use crate::layout::{layout_of, RouteLayout};
use crate::segments::all_segments;
use crate::text::lex_lt;
use crate::text::copy_string;
use crate::routes::{
    lemma_visit_start_monotone, route_visit_count, visit_for, visit_start, warning_text, Route,
    RouteSpec, RouteStyle, VisitSpec,
};

verus! {

/// One stop of a route as the map shows it.
pub struct RouteStopEntry {
    pub id: String,
    pub name: String,
    pub passthrough: bool,
    /// The visit node whose coordinates place this stop.
    pub visit_index: usize,
}

/// One route as the map shows it.
pub struct MapRouteEntry {
    pub id: String,
    pub name: String,
    pub style: RouteStyle,
    pub stops: Vec<RouteStopEntry>,
}

/// One route's visit of a stop as the map shows it.
pub struct StopVisitEntry {
    pub route_id: String,
    pub route_name: String,
    pub passthrough: bool,
    pub visit_index: usize,
}

/// One stop as the map shows it, with all its route visits.
pub struct MapStopEntry {
    pub id: String,
    pub name: String,
    /// Catalog slot of the stop (its geographic data).
    pub stop_index: usize,
    /// The visit node whose projection stands for the stop.
    pub first_visit: usize,
    /// The visit nodes whose centroid is the stop's optimized position.
    pub visits: Vec<StopVisitEntry>,
}

/// The whole map without coordinates.
pub struct MapSkeleton {
    pub routes: Vec<MapRouteEntry>,
    pub stops: Vec<MapStopEntry>,
    pub warnings: Vec<String>,
}

/// Every index a layout holds names an existing route or visit node.
pub open spec fn layout_indices_ok(l: RouteLayout) -> bool {
    &&& forall|v: int| 0 <= v < l.visits@.len() ==> #[trigger] l.visits@[v].route_index < l.routes@.len()
    &&& forall|r: int, j: int|
        0 <= r < l.routes@.len() && 0 <= j < l.routes@[r].visit_indices@.len() ==> #[trigger] l.routes@[r].visit_indices@[j]
            < l.visits@.len()
    &&& forall|g: int, t: int|
        0 <= g < l.stop_groups@.len() && 0 <= t < l.stop_groups@[g].visits@.len() ==> #[trigger] l.stop_groups@[g].visits@[t]
            < l.visits@.len()
    &&& forall|g: int|
        0 <= g < l.stop_groups@.len() ==> #[trigger] l.stop_groups@[g].first_visit < l.visits@.len()
}

/// In a layout, every route, visit and group index points at an existing
/// route or visit node, and each visit node belongs to the route that lists
/// it.
pub proof fn law_layout_indices(cat: StopCatalog, routes: Seq<Route>, l: RouteLayout)
    requires
        layout_of(cat, routes, l),
        l.visits@.len() <= usize::MAX,
    ensures
        layout_indices_ok(l),
        forall|r: int, j: int|
            0 <= r < l.routes@.len() && 0 <= j < l.routes@[r].visit_indices@.len() ==> l.visits@[#[trigger] l.routes@[r].visit_indices@[j] as int].route_index
                == r,
{
    assert forall|r: int, j: int|
        0 <= r < l.routes@.len() && 0 <= j < l.routes@[r].visit_indices@.len() implies #[trigger] l.routes@[r].visit_indices@[j]
        < l.visits@.len() by {
        lemma_visit_start_monotone(cat, routes, r + 1, routes.len() as int);
    }
    assert forall|v: int| 0 <= v < l.visits@.len() implies #[trigger] l.visits@[v].route_index < l.routes@.len() by {
        // Find the route whose visit range holds v.
        lemma_visit_owner(cat, routes, l, v);
    }
    assert forall|r: int, j: int|
        0 <= r < l.routes@.len() && 0 <= j < l.routes@[r].visit_indices@.len() implies l.visits@[#[trigger] l.routes@[r].visit_indices@[j] as int].route_index
        == r by {
        assert(visit_for(
            l.visits@[l.routes@[r].visit_indices@[j] as int],
            cat,
            crate::routes::raw_ids(routes[r]),
            r,
            j,
        ));
    }
}

/// The visit lists of the first `r` routes, one after the other.
pub open spec fn concat_visit_indices(routes: Seq<RouteSpec>, r: int) -> Seq<usize>
    decreases r,
{
    if r <= 0 {
        Seq::empty()
    } else {
        concat_visit_indices(routes, r - 1) + routes[r - 1].visit_indices@
    }
}

proof fn lemma_concat_visit_indices(cat: StopCatalog, routes: Seq<Route>, l: RouteLayout, r: int)
    requires
        layout_of(cat, routes, l),
        0 <= r <= routes.len(),
    ensures
        concat_visit_indices(l.routes@, r) == Seq::new(visit_start(cat, routes, r), |v: int| v as usize),
    decreases r,
{
    if r > 0 {
        lemma_concat_visit_indices(cat, routes, l, r - 1);
        let prev = concat_visit_indices(l.routes@, r - 1);
        let start = visit_start(cat, routes, r - 1);
        assert(crate::routes::route_spec_for(
            l.routes@[r - 1],
            routes[r - 1],
            start,
            route_visit_count(cat, routes[r - 1]),
        ));
        assert(concat_visit_indices(l.routes@, r) =~= Seq::new(
            visit_start(cat, routes, r),
            |v: int| v as usize,
        ));
    }
}

/// Some stop group holds visit node `i`.
pub open spec fn in_some_group(groups: Seq<StopGroup>, i: int) -> bool {
    exists|g: int| 0 <= g < groups.len() && #[trigger] groups[g].visits@.contains(i as usize)
}

/// How a layout numbers its visit nodes: the routes' visit lists, one after
/// the other, are exactly `0, 1, .., visits.len() - 1`, and each visit node
/// belongs to the route that lists it. The segments are the consecutive
/// visit pairs of each route, and the stop groups, in strictly increasing id
/// order, split the visit nodes by stop id.
pub proof fn law_visits_numbered_by_route(cat: StopCatalog, routes: Seq<Route>, l: RouteLayout)
    requires
        layout_of(cat, routes, l),
        l.visits@.len() <= usize::MAX,
    ensures
        concat_visit_indices(l.routes@, l.routes@.len() as int) == Seq::new(
            l.visits@.len(),
            |v: int| v as usize,
        ),
        forall|r: int, j: int|
            0 <= r < l.routes@.len() && 0 <= j < l.routes@[r].visit_indices@.len()
                ==> l.visits@[#[trigger] l.routes@[r].visit_indices@[j] as int].route_index == r,
        l.segments@ == all_segments(l.routes@, l.routes@.len() as int),
        forall|g1: int, g2: int|
            0 <= g1 < g2 < l.stop_groups@.len() ==> lex_lt(
                #[trigger] l.stop_groups@[g1].stop_id@,
                #[trigger] l.stop_groups@[g2].stop_id@,
            ),
        forall|i: int, g: int|
            0 <= i < l.visits@.len() && 0 <= g < l.stop_groups@.len() ==> (
            #[trigger] l.stop_groups@[g].visits@.contains(i as usize) <==> #[trigger] l.visits@[i].stop_id@
                == l.stop_groups@[g].stop_id@),
        forall|i: int| 0 <= i < l.visits@.len() ==> #[trigger] in_some_group(l.stop_groups@, i),
{
    lemma_concat_visit_indices(cat, routes, l, routes.len() as int);
    law_layout_indices(cat, routes, l);
    assert forall|i: int| 0 <= i < l.visits@.len() implies #[trigger] in_some_group(l.stop_groups@, i) by {
        law_stop_groups_partition(l.visits@, l.stop_groups@, i);
    }
}

proof fn lemma_visit_owner(cat: StopCatalog, routes: Seq<Route>, l: RouteLayout, v: int)
    requires
        layout_of(cat, routes, l),
        0 <= v < l.visits@.len() <= usize::MAX,
    ensures
        l.visits@[v].route_index < l.routes@.len(),
{
    let n = routes.len() as int;
    // visit_start is monotone from 0 to the total; find r with
    // start(r) <= v < start(r + 1).
    let r = lemma_find_route(cat, routes, v, n);
    let j = v - visit_start(cat, routes, r);
    assert(crate::routes::route_spec_for(
        l.routes@[r],
        routes[r],
        visit_start(cat, routes, r),
        route_visit_count(cat, routes[r]),
    ));
    assert(l.routes@[r].visit_indices@[j] as int == v);
    assert(visit_for(l.visits@[v], cat, crate::routes::raw_ids(routes[r]), r, j));
}

proof fn lemma_find_route(cat: StopCatalog, routes: Seq<Route>, v: int, n: int) -> (r: int)
    requires
        0 <= n <= routes.len(),
        0 <= v < visit_start(cat, routes, n),
    ensures
        0 <= r < n,
        visit_start(cat, routes, r) <= v < visit_start(cat, routes, r + 1),
    decreases n,
{
    if v >= visit_start(cat, routes, n - 1) {
        n - 1
    } else {
        lemma_find_route(cat, routes, v, n - 1)
    }
}

/// `e` shows visit `v` as a stop of its route.
pub open spec fn route_stop_entry_for(e: RouteStopEntry, visits: Seq<VisitSpec>, v: usize) -> bool {
    &&& e.visit_index == v
    &&& e.id@ == visits[v as int].stop_id@
    &&& e.name@ == visits[v as int].stop_name@
    &&& e.passthrough == visits[v as int].passthrough
}

/// `e` shows visit `v` as a visit of its stop.
pub open spec fn stop_visit_entry_for(
    e: StopVisitEntry,
    routes: Seq<RouteSpec>,
    visits: Seq<VisitSpec>,
    v: usize,
) -> bool {
    let r = visits[v as int].route_index as int;
    &&& e.visit_index == v
    &&& e.route_id@ == routes[r].id@
    &&& e.route_name@ == routes[r].name@
    &&& e.passthrough == visits[v as int].passthrough
}

/// `s` is the map shape of layout `l`.
pub open spec fn skeleton_of(l: RouteLayout, s: MapSkeleton) -> bool {
    &&& s.routes@.len() == l.routes@.len()
    &&& forall|r: int|
        0 <= r < l.routes@.len() ==> {
            let e = #[trigger] s.routes@[r];
            let rs = l.routes@[r];
            &&& e.id@ == rs.id@
            &&& e.name@ == rs.name@
            &&& e.style.color@ == rs.style.color@
            &&& e.style.bidirectional == rs.style.bidirectional
            &&& e.stops@.len() == rs.visit_indices@.len()
            &&& forall|j: int|
                0 <= j < e.stops@.len() ==> route_stop_entry_for(
                    #[trigger] e.stops@[j],
                    l.visits@,
                    rs.visit_indices@[j],
                )
        }
    &&& s.stops@.len() == l.stop_groups@.len()
    &&& forall|g: int|
        0 <= g < l.stop_groups@.len() ==> {
            let e = #[trigger] s.stops@[g];
            let grp = l.stop_groups@[g];
            &&& e.id@ == grp.stop_id@
            &&& e.name@ == grp.stop_name@
            &&& e.first_visit == grp.first_visit
            &&& e.stop_index == l.visits@[grp.first_visit as int].stop_index
            &&& e.visits@.len() == grp.visits@.len()
            &&& forall|t: int|
                0 <= t < e.visits@.len() ==> stop_visit_entry_for(
                    #[trigger] e.visits@[t],
                    l.routes@,
                    l.visits@,
                    grp.visits@[t],
                )
        }
    &&& s.warnings@.len() == l.warnings@.len()
    &&& forall|w: int|
        0 <= w < l.warnings@.len() ==> #[trigger] s.warnings@[w]@ == warning_text(l.warnings@[w]@)
}

/// The map shape of a layout: each route with its stops in route order, each
/// stop group with its route visits in group order, and the warning texts.
pub fn map_skeleton(l: &RouteLayout) -> (s: MapSkeleton)
    requires
        layout_indices_ok(*l),
    ensures
        skeleton_of(*l, s),
{
    let mut routes: Vec<MapRouteEntry> = Vec::new();
    let nr = l.routes.len();
    let mut r: usize = 0;
    while r < nr
        invariant
            nr == l.routes@.len(),
            r <= nr,
            layout_indices_ok(*l),
            routes@.len() == r,
            forall|q: int|
                0 <= q < r ==> {
                    let e = #[trigger] routes@[q];
                    let rs = l.routes@[q];
                    &&& e.id@ == rs.id@
                    &&& e.name@ == rs.name@
                    &&& e.style.color@ == rs.style.color@
                    &&& e.style.bidirectional == rs.style.bidirectional
                    &&& e.stops@.len() == rs.visit_indices@.len()
                    &&& forall|j: int|
                        0 <= j < e.stops@.len() ==> route_stop_entry_for(
                            #[trigger] e.stops@[j],
                            l.visits@,
                            rs.visit_indices@[j],
                        )
                },
        decreases nr - r,
    {
        let rs = &l.routes[r];
        let mut stops: Vec<RouteStopEntry> = Vec::new();
        let m = rs.visit_indices.len();
        let mut j: usize = 0;
        while j < m
            invariant
                m == rs.visit_indices@.len(),
                j <= m,
                r < nr,
                nr == l.routes@.len(),
                *rs == l.routes@[r as int],
                layout_indices_ok(*l),
                stops@.len() == j,
                forall|k: int|
                    0 <= k < j ==> route_stop_entry_for(
                        #[trigger] stops@[k],
                        l.visits@,
                        rs.visit_indices@[k],
                    ),
            decreases m - j,
        {
            let v = rs.visit_indices[j];
            proof {
                assert(l.routes@[r as int].visit_indices@[j as int] < l.visits@.len());
            }
            let visit = &l.visits[v];
            stops.push(
                RouteStopEntry {
                    id: copy_string(&visit.stop_id),
                    name: copy_string(&visit.stop_name),
                    passthrough: visit.passthrough,
                    visit_index: v,
                },
            );
            j = j + 1;
        }
        routes.push(
            MapRouteEntry {
                id: copy_string(&rs.id),
                name: copy_string(&rs.name),
                style: RouteStyle {
                    color: copy_string(&rs.style.color),
                    bidirectional: rs.style.bidirectional,
                },
                stops,
            },
        );
        r = r + 1;
    }
    let mut stops: Vec<MapStopEntry> = Vec::new();
    let ng = l.stop_groups.len();
    let mut g: usize = 0;
    while g < ng
        invariant
            ng == l.stop_groups@.len(),
            g <= ng,
            layout_indices_ok(*l),
            stops@.len() == g,
            forall|h: int|
                0 <= h < g ==> {
                    let e = #[trigger] stops@[h];
                    let grp = l.stop_groups@[h];
                    &&& e.id@ == grp.stop_id@
                    &&& e.name@ == grp.stop_name@
                    &&& e.first_visit == grp.first_visit
                    &&& e.stop_index == l.visits@[grp.first_visit as int].stop_index
                    &&& e.visits@.len() == grp.visits@.len()
                    &&& forall|t: int|
                        0 <= t < e.visits@.len() ==> stop_visit_entry_for(
                            #[trigger] e.visits@[t],
                            l.routes@,
                            l.visits@,
                            grp.visits@[t],
                        )
                },
        decreases ng - g,
    {
        let grp = &l.stop_groups[g];
        let mut entries: Vec<StopVisitEntry> = Vec::new();
        let m = grp.visits.len();
        let mut t: usize = 0;
        while t < m
            invariant
                m == grp.visits@.len(),
                t <= m,
                g < ng,
                ng == l.stop_groups@.len(),
                *grp == l.stop_groups@[g as int],
                layout_indices_ok(*l),
                entries@.len() == t,
                forall|k: int|
                    0 <= k < t ==> stop_visit_entry_for(
                        #[trigger] entries@[k],
                        l.routes@,
                        l.visits@,
                        grp.visits@[k],
                    ),
            decreases m - t,
        {
            let v = grp.visits[t];
            proof {
                assert(l.stop_groups@[g as int].visits@[t as int] < l.visits@.len());
            }
            let visit = &l.visits[v];
            let route = &l.routes[visit.route_index];
            entries.push(
                StopVisitEntry {
                    route_id: copy_string(&route.id),
                    route_name: copy_string(&route.name),
                    passthrough: visit.passthrough,
                    visit_index: v,
                },
            );
            t = t + 1;
        }
        proof {
            assert(l.stop_groups@[g as int].first_visit < l.visits@.len());
        }
        stops.push(
            MapStopEntry {
                id: copy_string(&grp.stop_id),
                name: copy_string(&grp.stop_name),
                stop_index: l.visits[grp.first_visit].stop_index,
                first_visit: grp.first_visit,
                visits: entries,
            },
        );
        g = g + 1;
    }
    let mut warnings: Vec<String> = Vec::new();
    let nw = l.warnings.len();
    let mut w: usize = 0;
    while w < nw
        invariant
            nw == l.warnings@.len(),
            w <= nw,
            warnings@.len() == w,
            forall|k: int| 0 <= k < w ==> #[trigger] warnings@[k]@ == warning_text(l.warnings@[k]@),
        decreases nw - w,
    {
        warnings.push(l.warnings[w].message());
        w = w + 1;
    }
    MapSkeleton { routes, stops, warnings }
}

} // verus!
