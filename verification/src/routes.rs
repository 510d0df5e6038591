//! Route definitions and their resolution against the stop catalog: every
//! stop reference that names a known stop becomes one visit node (visits of
//! the same stop by different routes stay separate nodes), and every
//! reference that names no known stop becomes a warning.
use vstd::prelude::*;
use crate::catalog::{ends_with_star, parse_stop_ref, trim_stars, StopCatalog};
use crate::text::copy_string;

verus! {

/// Drawing style of a route.
#[derive(Clone, Debug)]
pub struct RouteStyle {
    pub color: String,
    pub bidirectional: bool,
}

/// A route definition: its id, display name, the stop references it visits
/// in order (a trailing `*` marks a pass-through stop), and its style.
#[derive(Clone, Debug)]
pub struct Route {
    pub id: String,
    pub name: String,
    pub route: Vec<String>,
    pub style: RouteStyle,
}

/// A resolved route: its identity and the visit nodes it runs through.
pub struct RouteSpec {
    pub id: String,
    pub name: String,
    pub style: RouteStyle,
    pub visit_indices: Vec<usize>,
}

/// One visit of one route at one catalog stop.
pub struct VisitSpec {
    pub route_index: usize,
    /// Position of the stop reference in the route definition.
    pub route_position: usize,
    /// Catalog slot of the stop.
    pub stop_index: usize,
    pub stop_id: String,
    pub stop_name: String,
    pub passthrough: bool,
}

/// The content of a layout warning.
pub ghost enum WarningView {
    MissingStop { route_id: Seq<char>, stop_id: Seq<char> },
    TooFewStops { route_id: Seq<char> },
}

/// A problem found while resolving routes; resolution goes on after it.
pub enum LayoutWarning {
    /// The route references a stop id that the catalog does not hold.
    MissingStop { route_id: String, stop_id: String },
    /// Fewer than two of the route's references resolved.
    TooFewStops { route_id: String },
}

impl View for LayoutWarning {
    type V = WarningView;

    open spec fn view(&self) -> WarningView {
        match self {
            LayoutWarning::MissingStop { route_id, stop_id } => WarningView::MissingStop {
                route_id: route_id@,
                stop_id: stop_id@,
            },
            LayoutWarning::TooFewStops { route_id } => WarningView::TooFewStops {
                route_id: route_id@,
            },
        }
    }
}

pub open spec fn warning_views(ws: Seq<LayoutWarning>) -> Seq<WarningView> {
    ws.map_values(|w: LayoutWarning| w@)
}

/// The text of a warning.
pub open spec fn warning_text(w: WarningView) -> Seq<char> {
    match w {
        WarningView::MissingStop { route_id, stop_id } => "Route '"@ + route_id
            + "' references missing stop '"@ + stop_id + "'"@,
        WarningView::TooFewStops { route_id } => "Route '"@ + route_id
            + "' has fewer than two resolved stops"@,
    }
}

impl LayoutWarning {
    /// The warning as a sentence.
    pub fn message(&self) -> (m: String)
        ensures
            m@ == warning_text(self@),
    {
        match self {
            LayoutWarning::MissingStop { route_id, stop_id } => {
                let mut m = String::from_str("Route '");
                m.append(route_id.as_str());
                m.append("' references missing stop '");
                m.append(stop_id.as_str());
                m.append("'");
                m
            },
            LayoutWarning::TooFewStops { route_id } => {
                let mut m = String::from_str("Route '");
                m.append(route_id.as_str());
                m.append("' has fewer than two resolved stops");
                m
            },
        }
    }
}

// ---------------------------------------------------------------------------
// Specification of resolution
// ---------------------------------------------------------------------------

/// The stop references of a route, as character sequences.
pub open spec fn raw_ids(route: Route) -> Seq<Seq<char>> {
    route.route@.map_values(|s: String| s@)
}

/// The reference names a catalog stop.
pub open spec fn resolves(cat: StopCatalog, raw: Seq<char>) -> bool {
    cat.lookup(trim_stars(raw)) is Some
}

/// Positions, in order, of the references that name a catalog stop.
pub open spec fn resolved_positions(cat: StopCatalog, raws: Seq<Seq<char>>) -> Seq<int>
    decreases raws.len(),
{
    if raws.len() == 0 {
        Seq::empty()
    } else {
        let prev = resolved_positions(cat, raws.drop_last());
        if resolves(cat, raws.last()) {
            prev.push(raws.len() - 1)
        } else {
            prev
        }
    }
}

/// Catalog slots, in order, of the stops a list of references names.
pub open spec fn resolved_slots(cat: StopCatalog, raws: Seq<Seq<char>>) -> Seq<int>
    decreases raws.len(),
{
    if raws.len() == 0 {
        Seq::empty()
    } else {
        let prev = resolved_slots(cat, raws.drop_last());
        if resolves(cat, raws.last()) {
            prev.push(cat.lookup(trim_stars(raws.last()))->0)
        } else {
            prev
        }
    }
}

/// Number of visit nodes a route gets.
pub open spec fn route_visit_count(cat: StopCatalog, route: Route) -> nat {
    resolved_positions(cat, raw_ids(route)).len()
}

/// Index of the first visit node of route `r`: visits are numbered route by
/// route.
pub open spec fn visit_start(cat: StopCatalog, routes: Seq<Route>, r: int) -> nat
    decreases r,
{
    if r <= 0 {
        0
    } else {
        visit_start(cat, routes, r - 1) + route_visit_count(cat, routes[r - 1])
    }
}

/// Number of visit nodes of all routes.
pub open spec fn visit_total(cat: StopCatalog, routes: Seq<Route>) -> nat {
    visit_start(cat, routes, routes.len() as int)
}

/// Catalog slots of all stops the routes reference, route by route, with
/// repetitions.
pub open spec fn referenced_slots(cat: StopCatalog, routes: Seq<Route>, r: int) -> Seq<int>
    decreases r,
{
    if r <= 0 {
        Seq::empty()
    } else {
        referenced_slots(cat, routes, r - 1) + resolved_slots(cat, raw_ids(routes[r - 1]))
    }
}

/// Warnings for the references of a route that name no catalog stop.
pub open spec fn missing_warnings(cat: StopCatalog, route_id: Seq<char>, raws: Seq<Seq<char>>) -> Seq<
    WarningView,
>
    decreases raws.len(),
{
    if raws.len() == 0 {
        Seq::empty()
    } else {
        let prev = missing_warnings(cat, route_id, raws.drop_last());
        if resolves(cat, raws.last()) {
            prev
        } else {
            prev.push(WarningView::MissingStop { route_id, stop_id: trim_stars(raws.last()) })
        }
    }
}

/// All warnings of one route: missing stops in order, then a warning if
/// fewer than two references resolved.
pub open spec fn route_warnings(cat: StopCatalog, route: Route) -> Seq<WarningView> {
    missing_warnings(cat, route.id@, raw_ids(route)) + if route_visit_count(cat, route) < 2 {
        seq![WarningView::TooFewStops { route_id: route.id@ }]
    } else {
        Seq::empty()
    }
}

/// Warnings of the first `r` routes, route by route.
pub open spec fn layout_warnings(cat: StopCatalog, routes: Seq<Route>, r: int) -> Seq<WarningView>
    decreases r,
{
    if r <= 0 {
        Seq::empty()
    } else {
        layout_warnings(cat, routes, r - 1) + route_warnings(cat, routes[r - 1])
    }
}

/// `v` is the visit for the `j`-th resolved reference of route `r`.
pub open spec fn visit_for(
    v: VisitSpec,
    cat: StopCatalog,
    raws: Seq<Seq<char>>,
    r: int,
    j: int,
) -> bool {
    let pos = resolved_positions(cat, raws)[j];
    &&& v.route_index == r
    &&& v.route_position == pos
    &&& cat.lookup(trim_stars(raws[pos])) == Some(v.stop_index as int)
    &&& v.passthrough == ends_with_star(raws[pos])
    &&& v.stop_id@ == cat.records@[v.stop_index as int].id@
    &&& v.stop_name@ == cat.records@[v.stop_index as int].name@
}

/// `rs` is the resolved form of `route`, whose visits are the `count` nodes
/// numbered from `start`.
pub open spec fn route_spec_for(rs: RouteSpec, route: Route, start: nat, count: nat) -> bool {
    &&& rs.id@ == route.id@
    &&& rs.name@ == route.name@
    &&& rs.style.color@ == route.style.color@
    &&& rs.style.bidirectional == route.style.bidirectional
    &&& rs.visit_indices@ == Seq::new(count, |t: int| (start + t) as usize)
}

/// The resolution of `routes` against `cat` is `(specs, visits, warnings)`.
pub open spec fn resolution_matches(
    cat: StopCatalog,
    routes: Seq<Route>,
    specs: Seq<RouteSpec>,
    visits: Seq<VisitSpec>,
    warnings: Seq<LayoutWarning>,
) -> bool {
    &&& specs.len() == routes.len()
    &&& visits.len() == visit_total(cat, routes)
    &&& forall|r: int|
        0 <= r < routes.len() ==> route_spec_for(
            #[trigger] specs[r],
            routes[r],
            visit_start(cat, routes, r),
            route_visit_count(cat, routes[r]),
        )
    &&& forall|r: int, j: int|
        0 <= r < routes.len() && 0 <= j < specs[r].visit_indices@.len() ==> visit_for(
            visits[#[trigger] specs[r].visit_indices@[j] as int],
            cat,
            raw_ids(routes[r]),
            r,
            j,
        )
    &&& warning_views(warnings) == layout_warnings(cat, routes, routes.len() as int)
}

// ---------------------------------------------------------------------------
// Lemmas
// ---------------------------------------------------------------------------

pub proof fn lemma_visit_start_monotone(cat: StopCatalog, routes: Seq<Route>, q: int, r: int)
    requires
        0 <= q <= r,
    ensures
        visit_start(cat, routes, q) <= visit_start(cat, routes, r),
    decreases r - q,
{
    if q < r {
        lemma_visit_start_monotone(cat, routes, q, r - 1);
    }
}

pub proof fn lemma_resolved_slots_len(cat: StopCatalog, raws: Seq<Seq<char>>)
    ensures
        resolved_slots(cat, raws).len() == resolved_positions(cat, raws).len(),
    decreases raws.len(),
{
    if raws.len() > 0 {
        lemma_resolved_slots_len(cat, raws.drop_last());
    }
}

pub proof fn lemma_referenced_len(cat: StopCatalog, routes: Seq<Route>, r: int)
    ensures
        referenced_slots(cat, routes, r).len() == visit_start(cat, routes, r),
    decreases r,
{
    if r > 0 {
        lemma_referenced_len(cat, routes, r - 1);
        lemma_resolved_slots_len(cat, raw_ids(routes[r - 1]));
    }
}

/// Resolved positions are increasing positions of the list.
pub proof fn lemma_resolved_positions_bounds(cat: StopCatalog, raws: Seq<Seq<char>>)
    ensures
        forall|j: int|
            0 <= j < resolved_positions(cat, raws).len() ==> 0 <= #[trigger] resolved_positions(
                cat,
                raws,
            )[j] < raws.len(),
    decreases raws.len(),
{
    if raws.len() > 0 {
        lemma_resolved_positions_bounds(cat, raws.drop_last());
        let prev = resolved_positions(cat, raws.drop_last());
        assert forall|j: int| 0 <= j < resolved_positions(cat, raws).len() implies 0
            <= #[trigger] resolved_positions(cat, raws)[j] < raws.len() by {
            if j < prev.len() {
                assert(resolved_positions(cat, raws)[j] == prev[j]);
            }
        }
    }
}

/// Resolved positions increase strictly.
pub proof fn lemma_resolved_positions_increasing(cat: StopCatalog, raws: Seq<Seq<char>>)
    ensures
        forall|j1: int, j2: int|
            0 <= j1 < j2 < resolved_positions(cat, raws).len() ==> #[trigger] resolved_positions(
                cat,
                raws,
            )[j1] < #[trigger] resolved_positions(cat, raws)[j2],
    decreases raws.len(),
{
    if raws.len() > 0 {
        lemma_resolved_positions_increasing(cat, raws.drop_last());
        lemma_resolved_positions_bounds(cat, raws.drop_last());
        let prev = resolved_positions(cat, raws.drop_last());
        let cur = resolved_positions(cat, raws);
        assert forall|j1: int, j2: int| 0 <= j1 < j2 < cur.len() implies #[trigger] cur[j1] < #[trigger] cur[j2] by {
            if j2 < prev.len() {
                assert(cur[j1] == prev[j1] && cur[j2] == prev[j2]);
            } else {
                assert(cur[j1] == prev[j1]);
            }
        }
    }
}

/// Each route's visit nodes follow its references in order, one node per
/// reference that names a catalog stop, and each node is at the stop its
/// reference names, marked pass-through exactly when the reference ends in
/// `*`.
pub proof fn law_visits_follow_references(
    cat: StopCatalog,
    routes: Seq<Route>,
    specs: Seq<RouteSpec>,
    visits: Seq<VisitSpec>,
    warnings: Seq<LayoutWarning>,
    r: int,
)
    requires
        resolution_matches(cat, routes, specs, visits, warnings),
        0 <= r < routes.len(),
    ensures
        specs[r].visit_indices@.len() == resolved_positions(cat, raw_ids(routes[r])).len(),
        forall|j1: int, j2: int|
            0 <= j1 < j2 < specs[r].visit_indices@.len() ==> visits[#[trigger] specs[r].visit_indices@[j1] as int].route_position
                < visits[#[trigger] specs[r].visit_indices@[j2] as int].route_position,
        forall|j: int|
            0 <= j < specs[r].visit_indices@.len() ==> {
                let v = visits[#[trigger] specs[r].visit_indices@[j] as int];
                let raw = raw_ids(routes[r])[v.route_position as int];
                &&& v.route_index == r
                &&& resolves(cat, raw)
                &&& cat.lookup(trim_stars(raw)) == Some(v.stop_index as int)
                &&& v.passthrough == ends_with_star(raw)
            },
{
    let raws = raw_ids(routes[r]);
    lemma_resolved_positions_increasing(cat, raws);
    assert(route_spec_for(specs[r], routes[r], visit_start(cat, routes, r), route_visit_count(cat, routes[r])));
    assert forall|j1: int, j2: int|
        0 <= j1 < j2 < specs[r].visit_indices@.len() implies visits[#[trigger] specs[r].visit_indices@[j1] as int].route_position
        < visits[#[trigger] specs[r].visit_indices@[j2] as int].route_position by {
        assert(visit_for(visits[specs[r].visit_indices@[j1] as int], cat, raws, r, j1));
        assert(visit_for(visits[specs[r].visit_indices@[j2] as int], cat, raws, r, j2));
    }
    assert forall|j: int| 0 <= j < specs[r].visit_indices@.len() implies {
        let v = visits[#[trigger] specs[r].visit_indices@[j] as int];
        let raw = raw_ids(routes[r])[v.route_position as int];
        &&& v.route_index == r
        &&& resolves(cat, raw)
        &&& cat.lookup(trim_stars(raw)) == Some(v.stop_index as int)
        &&& v.passthrough == ends_with_star(raw)
    } by {
        assert(visit_for(visits[specs[r].visit_indices@[j] as int], cat, raws, r, j));
    }
}

proof fn lemma_take_last<T>(s: Seq<T>, p: int)
    requires
        0 <= p < s.len(),
    ensures
        s.take(p + 1).drop_last() == s.take(p),
        s.take(p + 1).last() == s[p],
        s.take(p + 1).len() == p + 1,
{
    assert(s.take(p + 1).drop_last() =~= s.take(p));
}

// ---------------------------------------------------------------------------
// Resolution
// ---------------------------------------------------------------------------

/// Catalog slots of all stops referenced by the routes, route by route and
/// reference by reference, repetitions included.
pub fn collect_referenced_stops(routes: &Vec<Route>, catalog: &StopCatalog) -> (slots: Vec<usize>)
    requires
        catalog.wf(),
    ensures
        slots@.map_values(|x: usize| x as int) == referenced_slots(
            *catalog,
            routes@,
            routes@.len() as int,
        ),
{
    let mut slots: Vec<usize> = Vec::new();
    let nr = routes.len();
    let mut r: usize = 0;
    while r < nr
        invariant
            catalog.wf(),
            nr == routes@.len(),
            r <= nr,
            slots@.map_values(|x: usize| x as int) == referenced_slots(*catalog, routes@, r as int),
        decreases nr - r,
    {
        let route = &routes[r];
        let ghost raws = raw_ids(*route);
        let ghost base = referenced_slots(*catalog, routes@, r as int);
        let n = route.route.len();
        let mut p: usize = 0;
        while p < n
            invariant
                catalog.wf(),
                n == raws.len(),
                raws == raw_ids(*route),
                p <= n,
                slots@.map_values(|x: usize| x as int) == base + resolved_slots(
                    *catalog,
                    raws.take(p as int),
                ),
            decreases n - p,
        {
            let sref = parse_stop_ref(route.route[p].as_str());
            proof {
                lemma_take_last(raws, p as int);
                assert(raws[p as int] == route.route@[p as int]@);
            }
            let ghost old_slots = slots@;
            let ghost next_take = raws.take(p + 1);
            match catalog.find(&sref.id) {
                Some(k) => {
                    slots.push(k);
                    proof {
                        assert(resolves(*catalog, next_take.last()));
                        assert(resolved_slots(*catalog, next_take) == resolved_slots(
                            *catalog,
                            raws.take(p as int),
                        ).push(k as int));
                        assert(slots@.map_values(|x: usize| x as int) =~= old_slots.map_values(
                            |x: usize| x as int,
                        ).push(k as int));
                    }
                },
                None => {
                    proof {
                        assert(!resolves(*catalog, next_take.last()));
                        assert(resolved_slots(*catalog, next_take) == resolved_slots(
                            *catalog,
                            raws.take(p as int),
                        ));
                    }
                },
            }
            p = p + 1;
            assert(slots@.map_values(|x: usize| x as int) =~= base + resolved_slots(
                *catalog,
                raws.take(p as int),
            ));
        }
        assert(raws.take(n as int) =~= raws);
        r = r + 1;
    }
    slots
}

/// Resolves every route against the catalog: one visit node per reference
/// that names a catalog stop (numbered route by route), the resolved routes,
/// and the warnings for references that name no stop and for routes left
/// with fewer than two visits.
pub fn resolve_routes(routes: &Vec<Route>, catalog: &StopCatalog) -> (res: (
    Vec<RouteSpec>,
    Vec<VisitSpec>,
    Vec<LayoutWarning>,
))
    requires
        catalog.wf(),
    ensures
        resolution_matches(*catalog, routes@, res.0@, res.1@, res.2@),
{
    let ghost cat = *catalog;
    let mut specs: Vec<RouteSpec> = Vec::new();
    let mut visits: Vec<VisitSpec> = Vec::new();
    let mut warnings: Vec<LayoutWarning> = Vec::new();
    let nr = routes.len();
    let mut r: usize = 0;
    while r < nr
        invariant
            catalog.wf(),
            cat == *catalog,
            nr == routes@.len(),
            r <= nr,
            specs@.len() == r,
            visits@.len() == visit_start(cat, routes@, r as int),
            forall|q: int|
                0 <= q < r ==> route_spec_for(
                    #[trigger] specs@[q],
                    routes@[q],
                    visit_start(cat, routes@, q),
                    route_visit_count(cat, routes@[q]),
                ),
            forall|q: int, j: int|
                0 <= q < r && 0 <= j < specs@[q].visit_indices@.len() ==> visit_for(
                    visits@[#[trigger] specs@[q].visit_indices@[j] as int],
                    cat,
                    raw_ids(routes@[q]),
                    q,
                    j,
                ),
            warning_views(warnings@) == layout_warnings(cat, routes@, r as int),
        decreases nr - r,
    {
        let route = &routes[r];
        let ghost raws = raw_ids(*route);
        let ghost start = visit_start(cat, routes@, r as int);
        let ghost warn_base = layout_warnings(cat, routes@, r as int);
        let ghost visits_before = visits@;
        let n = route.route.len();
        let mut visit_indices: Vec<usize> = Vec::new();
        let mut p: usize = 0;
        while p < n
            invariant
                catalog.wf(),
                cat == *catalog,
                n == raws.len(),
                raws == raw_ids(*route),
                r < nr,
                nr == routes@.len(),
                *route == routes@[r as int],
                p <= n,
                start == visit_start(cat, routes@, r as int),
                visits@.len() == start + resolved_positions(cat, raws.take(p as int)).len(),
                visits@.take(start as int) == visits_before,
                visits_before.len() == start,
                visit_indices@ == Seq::new(
                    resolved_positions(cat, raws.take(p as int)).len(),
                    |t: int| (start + t) as usize,
                ),
                forall|j: int|
                    0 <= j < resolved_positions(cat, raws.take(p as int)).len() ==> visit_for(
                        #[trigger] visits@[start + j],
                        cat,
                        raws.take(p as int),
                        r as int,
                        j,
                    ),
                warning_views(warnings@) == warn_base + missing_warnings(
                    cat,
                    route.id@,
                    raws.take(p as int),
                ),
            decreases n - p,
        {
            let raw = &route.route[p];
            let sref = parse_stop_ref(raw.as_str());
            proof {
                lemma_take_last(raws, p as int);
                lemma_resolved_positions_bounds(cat, raws.take(p as int));
                assert(raws[p as int] == raw@);
            }
            let ghost prev_take = raws.take(p as int);
            let ghost next_take = raws.take(p + 1);
            match catalog.find(&sref.id) {
                Some(k) => {
                    let idx = visits.len();
                    let visit = VisitSpec {
                        route_index: r,
                        route_position: p,
                        stop_index: k,
                        stop_id: copy_string(&catalog.records[k].id),
                        stop_name: copy_string(&catalog.records[k].name),
                        passthrough: sref.passthrough,
                    };
                    visits.push(visit);
                    visit_indices.push(idx);
                    proof {
                        assert(resolved_positions(cat, next_take) == resolved_positions(
                            cat,
                            prev_take,
                        ).push(p as int));
                        let cnt = resolved_positions(cat, next_take).len();
                        assert forall|j: int| 0 <= j < cnt implies visit_for(
                            #[trigger] visits@[start + j],
                            cat,
                            next_take,
                            r as int,
                            j,
                        ) by {
                            if j < cnt - 1 {
                                assert(visit_for(visits@[start + j], cat, prev_take, r as int, j));
                                let pos = resolved_positions(cat, prev_take)[j];
                                assert(next_take[pos] == prev_take[pos]);
                            } else {
                                assert(next_take[p as int] == raws[p as int]);
                            }
                        }
                        assert(visit_indices@ =~= Seq::new(
                            cnt,
                            |t: int| (start + t) as usize,
                        ));
                        assert(visits@.take(start as int) =~= visits_before);
                        assert(missing_warnings(cat, route.id@, next_take) == missing_warnings(
                            cat,
                            route.id@,
                            prev_take,
                        ));
                    }
                },
                None => {
                    let w = LayoutWarning::MissingStop {
                        route_id: copy_string(&route.id),
                        stop_id: sref.id,
                    };
                    let ghost old_w = warnings@;
                    warnings.push(w);
                    proof {
                        assert(!resolves(cat, next_take.last()));
                        assert(missing_warnings(cat, route.id@, next_take) == missing_warnings(
                            cat,
                            route.id@,
                            prev_take,
                        ).push(WarningView::MissingStop { route_id: route.id@, stop_id: sref.id@ }));
                        assert(warning_views(warnings@) =~= warning_views(old_w).push(
                            WarningView::MissingStop { route_id: route.id@, stop_id: sref.id@ },
                        ));
                        assert(resolved_positions(cat, next_take) == resolved_positions(
                            cat,
                            prev_take,
                        ));
                        assert forall|j: int|
                            0 <= j < resolved_positions(cat, next_take).len() implies visit_for(
                            #[trigger] visits@[start + j],
                            cat,
                            next_take,
                            r as int,
                            j,
                        ) by {
                            assert(visit_for(visits@[start + j], cat, prev_take, r as int, j));
                            let pos = resolved_positions(cat, prev_take)[j];
                            assert(next_take[pos] == prev_take[pos]);
                        }
                        assert(warning_views(warnings@) =~= warn_base + missing_warnings(
                            cat,
                            route.id@,
                            next_take,
                        ));
                    }
                },
            }
            p = p + 1;
        }
        proof {
            assert(raws.take(n as int) =~= raws);
            assert(routes@[r as int] == *route);
            assert(route_visit_count(cat, routes@[r as int]) == visit_indices@.len());
        }
        let ghost warn_mid = warnings@;
        proof {
            assert(warning_views(warn_mid) == warn_base + missing_warnings(
                cat,
                routes@[r as int].id@,
                raw_ids(routes@[r as int]),
            ));
        }
        if visit_indices.len() < 2 {
            warnings.push(LayoutWarning::TooFewStops { route_id: copy_string(&route.id) });
            proof {
                assert(warning_views(warnings@) =~= warning_views(warn_mid).push(
                    WarningView::TooFewStops { route_id: route.id@ },
                ));
            }
        }
        proof {
            assert(layout_warnings(cat, routes@, r + 1) == layout_warnings(cat, routes@, r as int)
                + route_warnings(cat, routes@[r as int]));
            assert(warning_views(warnings@) =~= layout_warnings(cat, routes@, r + 1));
        }
        let ghost vi = visit_indices@;
        proof {
            assert(resolved_positions(cat, raws.take(n as int)) == resolved_positions(cat, raws));
            assert(vi == Seq::new(
                route_visit_count(cat, routes@[r as int]),
                |t: int| (start + t) as usize,
            ));
        }
        let spec = RouteSpec {
            id: copy_string(&route.id),
            name: copy_string(&route.name),
            style: RouteStyle {
                color: copy_string(&route.style.color),
                bidirectional: route.style.bidirectional,
            },
            visit_indices,
        };
        specs.push(spec);
        let total = visits.len();
        proof {
            let cnt = route_visit_count(cat, routes@[r as int]);
            assert(visit_start(cat, routes@, r + 1) == start + cnt);
            assert forall|q: int, j: int|
                0 <= q < r + 1 && 0 <= j < specs@[q].visit_indices@.len() implies visit_for(
                visits@[#[trigger] specs@[q].visit_indices@[j] as int],
                cat,
                raw_ids(routes@[q]),
                q,
                j,
            ) by {
                if q < r {
                    lemma_visit_start_monotone(cat, routes@, q + 1, r as int);
                    let idx = specs@[q].visit_indices@[j] as int;
                    assert(idx < start);
                    assert(visits@[idx] == visits_before[idx]);
                } else {
                    assert(specs@[q].visit_indices@ == vi);
                    assert(start + j < total);
                    assert(specs@[q].visit_indices@[j] as int == start + j);
                }
            }
        }
        r = r + 1;
    }
    (specs, visits, warnings)
}

} // verus!
