//! The structure of an optimization problem: resolved routes and visits,
//! segments, stop groups, corridor groups and warnings, built from route
//! definitions and a stop catalog.
use vstd::prelude::*;
use crate::catalog::StopCatalog;
use crate::groups::{
    build_corridor_groups, build_stop_groups, corridor_groups_of, stop_groups_of, CorridorGroup,
    StopGroup,
};
use crate::routes::{
    collect_referenced_stops, lemma_referenced_len, lemma_visit_start_monotone, resolution_matches,
    resolve_routes, visit_total, route_visit_count, visit_start, LayoutWarning, Route, RouteSpec,
    VisitSpec,
};
use crate::segments::{all_segments, build_segments, law_segments_follow_routes, segment_in, SegmentSpec};

verus! {

/// Why no layout can be built.
#[derive(Clone, Copy, PartialEq, Eq, Structural, Debug)]
pub enum LayoutError {
    /// No route references a stop that the catalog holds.
    NoMatchingStops,
}

/// The text of a layout error.
pub open spec fn layout_error_text(e: LayoutError) -> Seq<char> {
    match e {
        LayoutError::NoMatchingStops => "No matching stops found. Check that route IDs match position IDs."@,
    }
}

impl LayoutError {
    /// The error as a sentence.
    pub fn message(&self) -> (m: String)
        ensures
            m@ == layout_error_text(*self),
    {
        match self {
            LayoutError::NoMatchingStops => String::from_str(
                "No matching stops found. Check that route IDs match position IDs.",
            ),
        }
    }
}

/// The structure of the problem the optimizer works on.
pub struct RouteLayout {
    pub routes: Vec<RouteSpec>,
    pub visits: Vec<VisitSpec>,
    pub segments: Vec<SegmentSpec>,
    pub stop_groups: Vec<StopGroup>,
    pub corridor_groups: Vec<CorridorGroup>,
    pub warnings: Vec<LayoutWarning>,
}

/// `l` is the layout of `routes` against `cat`.
pub open spec fn layout_of(cat: StopCatalog, routes: Seq<Route>, l: RouteLayout) -> bool {
    &&& resolution_matches(cat, routes, l.routes@, l.visits@, l.warnings@)
    &&& l.segments@ == all_segments(l.routes@, l.routes@.len() as int)
    &&& stop_groups_of(l.visits@, l.stop_groups@)
    &&& corridor_groups_of(l.segments@, l.visits@, l.corridor_groups@)
}

/// Builds the problem structure. Fails when no route references a known
/// stop; otherwise every route is kept, with warnings for what did not
/// resolve.
pub fn build_layout(routes: &Vec<Route>, catalog: &StopCatalog) -> (res: Result<RouteLayout, LayoutError>)
    requires
        catalog.wf(),
    ensures
        res is Err <==> visit_total(*catalog, routes@) == 0,
        res matches Ok(l) ==> layout_of(*catalog, routes@, l),
{
    let referenced = collect_referenced_stops(routes, catalog);
    proof {
        lemma_referenced_len(*catalog, routes@, routes@.len() as int);
        assert(referenced@.map_values(|x: usize| x as int).len() == referenced@.len());
    }
    if referenced.len() == 0 {
        return Err(LayoutError::NoMatchingStops);
    }
    let (route_specs, visits, warnings) = resolve_routes(routes, catalog);
    let segments = build_segments(&route_specs);
    let stop_groups = build_stop_groups(&visits);
    let route_count = route_specs.len();
    proof {
        assert(route_specs@.len() == route_count);
        let rs = route_specs@;
        let cat = *catalog;
        assert forall|q: int| 0 <= q < rs.len() implies #[trigger] rs[q].visit_indices@.len() <= usize::MAX by {
            assert(rs[q].visit_indices@.len() == route_visit_count(cat, routes@[q]));
            lemma_visit_start_monotone(cat, routes@, q + 1, routes@.len() as int);
        }
        law_segments_follow_routes(rs, rs.len() as int);
        assert forall|s: int| 0 <= s < segments@.len() implies segment_in(visits@, #[trigger] segments@[s]) by {
            let seg = segments@[s];
            let q = seg.route_index as int;
            let j = seg.segment_index as int;
            lemma_visit_start_monotone(cat, routes@, q + 1, routes@.len() as int);
            assert(rs[q].visit_indices@[j] as int == visit_start(cat, routes@, q) + j);
            assert(rs[q].visit_indices@[j + 1] as int == visit_start(cat, routes@, q) + j + 1);
        }
    }
    let corridor_groups = build_corridor_groups(&segments, &visits);
    Ok(RouteLayout { routes: route_specs, visits, segments, stop_groups, corridor_groups, warnings })
}

} // verus!
