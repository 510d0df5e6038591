//! Route segments (consecutive visit pairs of a route) and the relations
//! between two segments that decide which spacing terms apply to them.
use vstd::prelude::*;
use crate::routes::{RouteSpec, VisitSpec};

verus! {

/// The `segment_index`-th leg of route `route_index`, from visit `a_visit`
/// to visit `b_visit`.
#[derive(Clone, Copy, PartialEq, Eq, Structural, Debug)]
pub struct SegmentSpec {
    pub route_index: usize,
    pub segment_index: usize,
    pub a_visit: usize,
    pub b_visit: usize,
}

/// The legs of one route: each pair of consecutive visits.
pub open spec fn route_segments(r: int, vi: Seq<usize>) -> Seq<SegmentSpec> {
    Seq::new(
        if vi.len() == 0 {
            0
        } else {
            (vi.len() - 1) as nat
        },
        |j: int|
            SegmentSpec {
                route_index: r as usize,
                segment_index: j as usize,
                a_visit: vi[j],
                b_visit: vi[j + 1],
            },
    )
}

/// The legs of the first `r` routes, route by route.
pub open spec fn all_segments(routes: Seq<RouteSpec>, r: int) -> Seq<SegmentSpec>
    decreases r,
{
    if r <= 0 {
        Seq::empty()
    } else {
        all_segments(routes, r - 1) + route_segments(r - 1, routes[r - 1].visit_indices@)
    }
}

/// The segments of all routes, route by route, each from one visit to the
/// next.
pub fn build_segments(routes: &Vec<RouteSpec>) -> (segments: Vec<SegmentSpec>)
    ensures
        segments@ == all_segments(routes@, routes@.len() as int),
{
    let mut segments: Vec<SegmentSpec> = Vec::new();
    let nr = routes.len();
    let mut r: usize = 0;
    while r < nr
        invariant
            nr == routes@.len(),
            r <= nr,
            segments@ == all_segments(routes@, r as int),
        decreases nr - r,
    {
        let vi = &routes[r].visit_indices;
        let ghost base = segments@;
        let n = vi.len();
        let mut j: usize = 0;
        if n > 0 {
            while j + 1 < n
                invariant
                    n == vi@.len(),
                    n > 0,
                    j + 1 <= n,
                    vi@ == routes@[r as int].visit_indices@,
                    segments@ == base + route_segments(r as int, vi@).take(j as int),
                decreases n - j,
            {
                segments.push(
                    SegmentSpec { route_index: r, segment_index: j, a_visit: vi[j], b_visit: vi[j + 1] },
                );
                j = j + 1;
                assert(segments@ =~= base + route_segments(r as int, vi@).take(j as int));
            }
            assert(route_segments(r as int, vi@).take(j as int) =~= route_segments(r as int, vi@));
        } else {
            assert(segments@ =~= base + route_segments(r as int, vi@));
        }
        r = r + 1;
    }
    segments
}

/// The two segments share a visit, or are the same or neighbouring legs of
/// one route.
pub open spec fn same_or_adjacent_spec(a: SegmentSpec, b: SegmentSpec) -> bool {
    ||| a.a_visit == b.a_visit
    ||| a.a_visit == b.b_visit
    ||| a.b_visit == b.a_visit
    ||| a.b_visit == b.b_visit
    ||| (a.route_index == b.route_index && -1 <= a.segment_index - b.segment_index <= 1)
}

pub fn same_or_adjacent_segment(a: &SegmentSpec, b: &SegmentSpec) -> (r: bool)
    ensures
        r == same_or_adjacent_spec(*a, *b),
{
    let index_gap = if a.segment_index >= b.segment_index {
        a.segment_index - b.segment_index
    } else {
        b.segment_index - a.segment_index
    };
    a.a_visit == b.a_visit || a.a_visit == b.b_visit || a.b_visit == b.a_visit || a.b_visit
        == b.b_visit || (a.route_index == b.route_index && index_gap <= 1)
}

/// The stop id at the given end of a segment.
pub open spec fn end_stop(visits: Seq<VisitSpec>, v: usize) -> Seq<char> {
    visits[v as int].stop_id@
}

pub open spec fn segment_in(visits: Seq<VisitSpec>, s: SegmentSpec) -> bool {
    s.a_visit < visits.len() && s.b_visit < visits.len()
}

/// Some end of `a` is at the same stop as some end of `b`.
pub open spec fn share_stop_spec(a: SegmentSpec, b: SegmentSpec, visits: Seq<VisitSpec>) -> bool {
    let a0 = end_stop(visits, a.a_visit);
    let a1 = end_stop(visits, a.b_visit);
    let b0 = end_stop(visits, b.a_visit);
    let b1 = end_stop(visits, b.b_visit);
    a0 == b0 || a0 == b1 || a1 == b0 || a1 == b1
}

/// Both segments join the same two stops, in either direction.
pub open spec fn same_corridor_spec(a: SegmentSpec, b: SegmentSpec, visits: Seq<VisitSpec>) -> bool {
    let a0 = end_stop(visits, a.a_visit);
    let a1 = end_stop(visits, a.b_visit);
    let b0 = end_stop(visits, b.a_visit);
    let b1 = end_stop(visits, b.b_visit);
    (a0 == b0 && a1 == b1) || (a0 == b1 && a1 == b0)
}

/// Pairs of segments that the line-spacing terms leave alone.
pub open spec fn skip_pair_spec(a: SegmentSpec, b: SegmentSpec, visits: Seq<VisitSpec>) -> bool {
    same_or_adjacent_spec(a, b) || share_stop_spec(a, b, visits) || same_corridor_spec(a, b, visits)
}

pub fn segments_share_stop_id(a: &SegmentSpec, b: &SegmentSpec, visits: &Vec<VisitSpec>) -> (r:
    bool)
    requires
        segment_in(visits@, *a),
        segment_in(visits@, *b),
    ensures
        r == share_stop_spec(*a, *b, visits@),
{
    let a0 = &visits[a.a_visit].stop_id;
    let a1 = &visits[a.b_visit].stop_id;
    let b0 = &visits[b.a_visit].stop_id;
    let b1 = &visits[b.b_visit].stop_id;
    *a0 == *b0 || *a0 == *b1 || *a1 == *b0 || *a1 == *b1
}

pub fn same_corridor(a: &SegmentSpec, b: &SegmentSpec, visits: &Vec<VisitSpec>) -> (r: bool)
    requires
        segment_in(visits@, *a),
        segment_in(visits@, *b),
    ensures
        r == same_corridor_spec(*a, *b, visits@),
{
    let a0 = &visits[a.a_visit].stop_id;
    let a1 = &visits[a.b_visit].stop_id;
    let b0 = &visits[b.a_visit].stop_id;
    let b1 = &visits[b.b_visit].stop_id;
    (*a0 == *b0 && *a1 == *b1) || (*a0 == *b1 && *a1 == *b0)
}

pub fn skip_segment_pair_for_spacing(a: &SegmentSpec, b: &SegmentSpec, visits: &Vec<VisitSpec>) -> (r:
    bool)
    requires
        segment_in(visits@, *a),
        segment_in(visits@, *b),
    ensures
        r == skip_pair_spec(*a, *b, visits@),
        r <==> (stops_meet(*a, *b, visits@) || neighbour_legs(*a, *b)),
{
    proof {
        law_skip_exactly_meeting_or_neighbour(*a, *b, visits@);
    }
    same_or_adjacent_segment(a, b) || segments_share_stop_id(a, b, visits) || same_corridor(
        a,
        b,
        visits,
    )
}

/// Some end of `a` and some end of `b` are at the same stop.
pub open spec fn stops_meet(a: SegmentSpec, b: SegmentSpec, visits: Seq<VisitSpec>) -> bool {
    exists|x: usize, y: usize|
        (x == a.a_visit || x == a.b_visit) && (y == b.a_visit || y == b.b_visit)
            && #[trigger] visits[x as int].stop_id@ == #[trigger] visits[y as int].stop_id@
}

/// `a` and `b` are the same or consecutive legs of one route.
pub open spec fn neighbour_legs(a: SegmentSpec, b: SegmentSpec) -> bool {
    a.route_index == b.route_index && -1 <= a.segment_index - b.segment_index <= 1
}

/// The spacing terms skip exactly the pairs of segments that meet at a stop
/// (an end of one is at the same stop as an end of the other, which covers
/// shared visits and parallel legs between the same two stops) and the
/// pairs of the same or consecutive legs of one route.
pub proof fn law_skip_exactly_meeting_or_neighbour(
    a: SegmentSpec,
    b: SegmentSpec,
    visits: Seq<VisitSpec>,
)
    ensures
        skip_pair_spec(a, b, visits) <==> (stops_meet(a, b, visits) || neighbour_legs(a, b)),
{
    let a0 = visits[a.a_visit as int].stop_id@;
    let a1 = visits[a.b_visit as int].stop_id@;
    let b0 = visits[b.a_visit as int].stop_id@;
    let b1 = visits[b.b_visit as int].stop_id@;
    if stops_meet(a, b, visits) {
        let (x, y) = choose|x: usize, y: usize|
            (x == a.a_visit || x == a.b_visit) && (y == b.a_visit || y == b.b_visit)
                && #[trigger] visits[x as int].stop_id@ == #[trigger] visits[y as int].stop_id@;
        assert(share_stop_spec(a, b, visits));
    }
    if share_stop_spec(a, b, visits) {
        if a0 == b0 {
            assert(visits[a.a_visit as int].stop_id@ == visits[b.a_visit as int].stop_id@);
        } else if a0 == b1 {
            assert(visits[a.a_visit as int].stop_id@ == visits[b.b_visit as int].stop_id@);
        } else if a1 == b0 {
            assert(visits[a.b_visit as int].stop_id@ == visits[b.a_visit as int].stop_id@);
        } else {
            assert(visits[a.b_visit as int].stop_id@ == visits[b.b_visit as int].stop_id@);
        }
        assert(stops_meet(a, b, visits));
    }
    if same_or_adjacent_spec(a, b) && !neighbour_legs(a, b) {
        if a.a_visit == b.a_visit {
            assert(visits[a.a_visit as int].stop_id@ == visits[b.a_visit as int].stop_id@);
        } else if a.a_visit == b.b_visit {
            assert(visits[a.a_visit as int].stop_id@ == visits[b.b_visit as int].stop_id@);
        } else if a.b_visit == b.a_visit {
            assert(visits[a.b_visit as int].stop_id@ == visits[b.a_visit as int].stop_id@);
        } else {
            assert(visits[a.b_visit as int].stop_id@ == visits[b.b_visit as int].stop_id@);
        }
        assert(stops_meet(a, b, visits));
    }
}

/// Whether two segments are skipped by the spacing terms does not depend on
/// the order in which they are taken.
pub proof fn law_segment_relations_symmetric(
    a: SegmentSpec,
    b: SegmentSpec,
    visits: Seq<VisitSpec>,
)
    ensures
        same_or_adjacent_spec(a, b) == same_or_adjacent_spec(b, a),
        share_stop_spec(a, b, visits) == share_stop_spec(b, a, visits),
        same_corridor_spec(a, b, visits) == same_corridor_spec(b, a, visits),
        skip_pair_spec(a, b, visits) == skip_pair_spec(b, a, visits),
{
}

/// Every segment links two consecutive visits of its route: its ends are the
/// route's `segment_index`-th and next visit, and a route with `k` visits
/// contributes `k - 1` segments.
pub proof fn law_segments_follow_routes(routes: Seq<RouteSpec>, r: int)
    requires
        0 <= r <= routes.len() <= usize::MAX,
        forall|q: int| 0 <= q < routes.len() ==> #[trigger] routes[q].visit_indices@.len() <= usize::MAX,
    ensures
        forall|s: int|
            0 <= s < all_segments(routes, r).len() ==> {
                let seg = #[trigger] all_segments(routes, r)[s];
                let vi = routes[seg.route_index as int].visit_indices@;
                &&& 0 <= seg.route_index < r
                &&& seg.segment_index + 1 < vi.len()
                &&& seg.a_visit == vi[seg.segment_index as int]
                &&& seg.b_visit == vi[seg.segment_index + 1]
            },
    decreases r,
{
    if r > 0 {
        law_segments_follow_routes(routes, r - 1);
        let prev = all_segments(routes, r - 1);
        let tail = route_segments(r - 1, routes[r - 1].visit_indices@);
        assert forall|s: int| 0 <= s < all_segments(routes, r).len() implies {
            let seg = #[trigger] all_segments(routes, r)[s];
            let vi = routes[seg.route_index as int].visit_indices@;
            &&& 0 <= seg.route_index < r
            &&& seg.segment_index + 1 < vi.len()
            &&& seg.a_visit == vi[seg.segment_index as int]
            &&& seg.b_visit == vi[seg.segment_index + 1]
        } by {
            if s < prev.len() {
                assert(all_segments(routes, r)[s] == prev[s]);
            } else {
                let t = s - prev.len();
                assert(all_segments(routes, r)[s] == tail[t]);
                assert(routes[r - 1].visit_indices@.len() <= usize::MAX);
                assert(tail[t].route_index as int == r - 1);
                assert(tail[t].segment_index as int == t);
            }
        }
    }
}

} // verus!
