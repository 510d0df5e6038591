//! Stop groups (all visits of one stop, one node per route visit) and
//! corridor groups (segments of different routes joining the same two
//! stops, laid out as parallel lanes).
use vstd::prelude::*;
use crate::grouping::{
    group_key, group_keys, grouped_by_key, key_before, key_view, key_views, lemma_matching_members,
    lemma_pair_irreflexive, lemma_pair_transitive, lemma_sorted_listing_unique, matching, pair_lt,
    sort_indices_by_key, sorted_by_key, strict_order, strictly_sorted,
};
use crate::routes::VisitSpec;
use crate::segments::{end_stop, segment_in, SegmentSpec};
use crate::text::{chars_of, lex_compare, lex_le, lex_lt, lemma_lex_irreflexive, lemma_lex_total,
    string_from_chars, LexOrder, lemma_lex_asymmetric, lemma_lex_transitive, copy_string};

verus! {

// ---------------------------------------------------------------------------
// Stop groups
// ---------------------------------------------------------------------------

/// All visit nodes of one stop.
pub struct StopGroup {
    pub stop_id: String,
    pub stop_name: String,
    /// The visit whose stop data (name, position) represents the group.
    pub first_visit: usize,
    /// The visits of this stop, ordered by route, then by position in the
    /// route.
    pub visits: Vec<usize>,
}

/// Ordering key of a visit inside its stop group: route, then position in
/// the route definition.
pub open spec fn visit_order_keys(visits: Seq<VisitSpec>) -> Seq<(u128, u128)> {
    visits.map_values(|v: VisitSpec| (v.route_index as u128, v.route_position as u128))
}

/// `groups` are the stop groups of `visits`: one per distinct stop id, in
/// increasing id order, each holding exactly the visits at its stop.
pub open spec fn stop_groups_of(visits: Seq<VisitSpec>, groups: Seq<StopGroup>) -> bool {
    &&& forall|g1: int, g2: int|
        0 <= g1 < g2 < groups.len() ==> lex_lt(
            #[trigger] groups[g1].stop_id@,
            #[trigger] groups[g2].stop_id@,
        )
    &&& forall|g: int|
        0 <= g < groups.len() ==> {
            let grp = #[trigger] groups[g];
            &&& grp.visits@.len() > 0
            &&& grp.first_visit == grp.visits@[0]
            &&& grp.first_visit < visits.len()
            &&& grp.stop_id@ == visits[grp.first_visit as int].stop_id@
            &&& grp.stop_name@ == visits[grp.first_visit as int].stop_name@
            &&& sorted_by_key(visit_order_keys(visits), grp.visits@)
            &&& forall|i: int|
                0 <= i < visits.len() ==> (grp.visits@.contains(i as usize) <==> visits[i].stop_id@
                    == grp.stop_id@)
            &&& forall|t: int| 0 <= t < grp.visits@.len() ==> #[trigger] grp.visits@[t] < visits.len()
        }
    &&& forall|i: int| 0 <= i < visits.len() ==> stop_has_group(groups, #[trigger] visits[i].stop_id@)
}

/// Some group is the group of stop `id`.
pub open spec fn stop_has_group(groups: Seq<StopGroup>, id: Seq<char>) -> bool {
    exists|g: int| 0 <= g < groups.len() && #[trigger] groups[g].stop_id@ == id
}

/// Groups the visit nodes by stop id, in increasing id order.
pub fn build_stop_groups(visits: &Vec<VisitSpec>) -> (groups: Vec<StopGroup>)
    ensures
        stop_groups_of(visits@, groups@),
{
    let n = visits.len();
    let mut keys: Vec<(Vec<char>, Vec<char>)> = Vec::new();
    let mut sel: Vec<bool> = Vec::new();
    let mut order_keys: Vec<(u128, u128)> = Vec::new();
    let mut i: usize = 0;
    while i < n
        invariant
            n == visits@.len(),
            i <= n,
            keys@.len() == i,
            sel@.len() == i,
            order_keys@.len() == i,
            forall|j: int| 0 <= j < i ==> #[trigger] key_view(keys@[j]) == (visits@[j].stop_id@, Seq::<char>::empty()),
            forall|j: int| 0 <= j < i ==> #[trigger] sel@[j],
            order_keys@ == visit_order_keys(visits@).take(i as int),
        decreases n - i,
    {
        let id_chars = chars_of(visits[i].stop_id.as_str());
        keys.push((id_chars, Vec::new()));
        sel.push(true);
        order_keys.push((visits[i].route_index as u128, visits[i].route_position as u128));
        i = i + 1;
        assert(order_keys@ =~= visit_order_keys(visits@).take(i as int));
    }
    assert(order_keys@ =~= visit_order_keys(visits@));
    let ghost kv = key_views(keys@);
    assert forall|j: int| 0 <= j < n implies #[trigger] kv[j] == (visits@[j].stop_id@, Seq::<char>::empty()) by {
        assert(kv[j] == key_view(keys@[j]));
    }
    let raw = group_keys(&keys, &sel);
    let ghost rg = raw@;
    let mut groups: Vec<StopGroup> = Vec::new();
    let ng = raw.len();
    let mut g: usize = 0;
    while g < ng
        invariant
            n == visits@.len(),
            ng == rg.len(),
            rg == raw@,
            g <= ng,
            kv == key_views(keys@),
            keys@.len() == n,
            sel@.len() == n,
            forall|j: int| 0 <= j < n ==> #[trigger] sel@[j],
            forall|j: int| 0 <= j < n ==> #[trigger] kv[j] == (visits@[j].stop_id@, Seq::<char>::empty()),
            order_keys@ == visit_order_keys(visits@),
            grouped_by_key(kv, sel@, rg, n as int),
            groups@.len() == g,
            forall|h: int| 0 <= h < g ==> (#[trigger] groups@[h]).stop_id@ == group_key(kv, rg, h).0,
            forall|h: int| 0 <= h < g ==> {
                let grp = #[trigger] groups@[h];
                &&& grp.visits@.len() > 0
                &&& grp.first_visit == grp.visits@[0]
                &&& grp.first_visit < visits@.len()
                &&& grp.stop_id@ == visits@[grp.first_visit as int].stop_id@
                &&& grp.stop_name@ == visits@[grp.first_visit as int].stop_name@
                &&& sorted_by_key(visit_order_keys(visits@), grp.visits@)
                &&& forall|i: int|
                    0 <= i < visits@.len() ==> (grp.visits@.contains(i as usize) <==> visits@[i].stop_id@
                        == grp.stop_id@)
                &&& forall|t: int| 0 <= t < grp.visits@.len() ==> #[trigger] grp.visits@[t] < visits@.len()
            },
        decreases ng - g,
    {
        let members = &raw[g];
        let ghost key = group_key(kv, rg, g as int);
        proof {
            assert(rg[g as int]@.len() > 0);
            assert(members@ == matching(kv, sel@, key, n as int));
            lemma_matching_members(kv, sel@, key, n as int);
            assert forall|t: int| 0 <= t < members@.len() implies #[trigger] members@[t] < order_keys@.len() by {
                assert(members@[t] == matching(kv, sel@, key, n as int)[t]);
            }
            assert forall|a: int, b: int| 0 <= a < b < members@.len() implies #[trigger] members@[a]
                != #[trigger] members@[b] by {
                assert(matching(kv, sel@, key, n as int)[a] < matching(kv, sel@, key, n as int)[b]);
            }
        }
        let sorted = sort_indices_by_key(members, &order_keys);
        let first = sorted[0];
        proof {
            assert(sorted@.contains(first));
            assert(members@.contains(first));
            let t = choose|t: int| 0 <= t < members@.len() && members@[t] == first;
            assert(matching(kv, sel@, key, n as int)[t] == first);
            assert(kv[first as int] == key);
            assert(key.0 == visits@[first as int].stop_id@);
        }
        let grp = StopGroup {
            stop_id: copy_string(&visits[first].stop_id),
            stop_name: copy_string(&visits[first].stop_name),
            first_visit: first,
            visits: sorted,
        };
        groups.push(grp);
        proof {
            let grp = groups@[g as int];
            assert forall|i: int| 0 <= i < visits@.len() implies (grp.visits@.contains(i as usize)
                <==> visits@[i].stop_id@ == grp.stop_id@) by {
                if visits@[i].stop_id@ == grp.stop_id@ {
                    assert(kv[i] == key);
                    assert(matching(kv, sel@, key, n as int).contains(i as usize));
                    assert(members@.contains(i as usize));
                    assert(sorted@.contains(i as usize));
                }
                if grp.visits@.contains(i as usize) {
                    assert(members@.contains(i as usize));
                    let t = choose|t: int| 0 <= t < members@.len() && members@[t] == i as usize;
                    assert(matching(kv, sel@, key, n as int)[t] == i as usize);
                }
            }
            assert forall|t: int| 0 <= t < grp.visits@.len() implies #[trigger] grp.visits@[t] < visits@.len() by {
                assert(sorted@.contains(sorted@[t]));
                assert(members@.contains(sorted@[t]));
            }
        }
        g = g + 1;
    }
    proof {
        assert forall|g1: int, g2: int| 0 <= g1 < g2 < groups@.len() implies lex_lt(
            #[trigger] groups@[g1].stop_id@,
            #[trigger] groups@[g2].stop_id@,
        ) by {
            let k1 = group_key(kv, rg, g1);
            let k2 = group_key(kv, rg, g2);
            assert(pair_lt(k1, k2));
            let f1 = rg[g1]@[0] as int;
            let f2 = rg[g2]@[0] as int;
            assert(rg[g1]@ == matching(kv, sel@, k1, n as int));
            lemma_matching_members(kv, sel@, k1, n as int);
            assert(rg[g2]@ == matching(kv, sel@, k2, n as int));
            lemma_matching_members(kv, sel@, k2, n as int);
            assert(matching(kv, sel@, k1, n as int)[0] as int == f1);
            assert(matching(kv, sel@, k2, n as int)[0] as int == f2);
            assert(k1.1 == Seq::<char>::empty());
            assert(k2.1 == Seq::<char>::empty());
            lemma_lex_irreflexive(k1.1);
        }
        assert forall|i: int| 0 <= i < visits@.len() implies stop_has_group(groups@, #[trigger] visits@[i].stop_id@) by {
            assert(sel@[i]);
            assert(kv[i] == (visits@[i].stop_id@, Seq::<char>::empty()));
            let h = choose|h: int| 0 <= h < rg.len() && #[trigger] group_key(kv, rg, h) == kv[i];
            assert(groups@[h].stop_id@ == group_key(kv, rg, h).0);
            assert(0 <= h < groups@.len() && groups@[h].stop_id@ == visits@[i].stop_id@);
        }
    }
    groups
}

// ---------------------------------------------------------------------------
// Corridors
// ---------------------------------------------------------------------------

/// The unordered stop pair of a corridor, smaller id first.
pub open spec fn corridor_key(a: Seq<char>, b: Seq<char>) -> (Seq<char>, Seq<char>) {
    if lex_le(a, b) {
        (a, b)
    } else {
        (b, a)
    }
}

/// The stop pair of two ids, smaller id first.
pub fn ordered_corridor_key(a: &str, b: &str) -> (key: (String, String))
    ensures
        (key.0@, key.1@) == corridor_key(a@, b@),
{
    let ac = chars_of(a);
    let bc = chars_of(b);
    match lex_compare(&ac, &bc) {
        LexOrder::Greater => {
            proof {
                lemma_lex_irreflexive(a@);
            }
            (b.to_owned(), a.to_owned())
        },
        _ => (a.to_owned(), b.to_owned()),
    }
}

/// The corridor key does not depend on the direction of travel, and lists
/// the smaller id first.
pub proof fn law_corridor_key_symmetric(a: Seq<char>, b: Seq<char>)
    ensures
        corridor_key(a, b) == corridor_key(b, a),
        lex_le(corridor_key(a, b).0, corridor_key(a, b).1),
{
    lemma_lex_total(a, b);
    if lex_lt(a, b) {
        lemma_lex_asymmetric(a, b);
    } else if lex_lt(b, a) {
        lemma_lex_asymmetric(b, a);
    }
}

/// One segment of a corridor group, in its lane slot.
pub struct CorridorMember {
    pub segment_index: usize,
    /// The segment runs from the corridor's first stop to its second.
    pub key_forward: bool,
    /// Lane slot: position of the member in the group.
    pub slot: usize,
}

/// Segments of at least two routes that join the same two stops.
pub struct CorridorGroup {
    pub stop_a: String,
    pub stop_b: String,
    pub members: Vec<CorridorMember>,
}

/// The corridor key of a segment.
pub open spec fn segment_key(visits: Seq<VisitSpec>, seg: SegmentSpec) -> (Seq<char>, Seq<char>) {
    corridor_key(end_stop(visits, seg.a_visit), end_stop(visits, seg.b_visit))
}

/// The segment joins two different stops.
pub open spec fn joins_two_stops(visits: Seq<VisitSpec>, seg: SegmentSpec) -> bool {
    end_stop(visits, seg.a_visit) != end_stop(visits, seg.b_visit)
}

/// Ordering key of a segment inside its corridor: route, then leg number.
pub open spec fn segment_order_keys(segments: Seq<SegmentSpec>) -> Seq<(u128, u128)> {
    segments.map_values(|s: SegmentSpec| (s.route_index as u128, s.segment_index as u128))
}

pub open spec fn member_indices(members: Seq<CorridorMember>) -> Seq<usize> {
    members.map_values(|m: CorridorMember| m.segment_index)
}

/// `groups` are the corridor groups of `segments`: for every stop pair that
/// segments of at least two different routes join, one group, in increasing
/// pair order, holding exactly the segments that join that pair.
pub open spec fn corridor_groups_of(
    segments: Seq<SegmentSpec>,
    visits: Seq<VisitSpec>,
    groups: Seq<CorridorGroup>,
) -> bool {
    &&& forall|g1: int, g2: int|
        0 <= g1 < g2 < groups.len() ==> pair_lt(
            (#[trigger] groups[g1].stop_a@, groups[g1].stop_b@),
            (#[trigger] groups[g2].stop_a@, groups[g2].stop_b@),
        )
    &&& forall|g: int|
        0 <= g < groups.len() ==> {
            let grp = #[trigger] groups[g];
            let key = (grp.stop_a@, grp.stop_b@);
            let idx = member_indices(grp.members@);
            &&& sorted_by_key(segment_order_keys(segments), idx)
            &&& forall|t: int|
                0 <= t < grp.members@.len() ==> {
                    let m = #[trigger] grp.members@[t];
                    &&& m.slot == t
                    &&& m.segment_index < segments.len()
                    &&& m.key_forward == (end_stop(visits, segments[m.segment_index as int].a_visit)
                        == grp.stop_a@)
                }
            &&& forall|s: int|
                0 <= s < segments.len() ==> (idx.contains(s as usize) <==> (joins_two_stops(
                    visits,
                    segments[s],
                ) && segment_key(visits, segments[s]) == key))
            &&& exists|t1: int, t2: int|
                0 <= t1 < grp.members@.len() && 0 <= t2 < grp.members@.len() && segments[grp.members@[t1].segment_index as int].route_index
                    != segments[grp.members@[t2].segment_index as int].route_index
        }
    &&& forall|s1: int, s2: int|
        0 <= s1 < segments.len() && 0 <= s2 < segments.len() && joins_two_stops(
            visits,
            #[trigger] segments[s1],
        ) && joins_two_stops(visits, #[trigger] segments[s2]) && segment_key(visits, segments[s1])
            == segment_key(visits, segments[s2]) && segments[s1].route_index
            != segments[s2].route_index ==> exists|g: int|
            0 <= g < groups.len() && (#[trigger] groups[g].stop_a@, groups[g].stop_b@) == segment_key(
                visits,
                segments[s1],
            )
}

/// Some member of the group belongs to another route than its first member.
pub open spec fn has_two_routes(segments: Seq<SegmentSpec>, members: Seq<usize>) -> bool {
    exists|t: int|
        0 <= t < members.len() && #[trigger] segments[members[t] as int].route_index
            != segments[members[0] as int].route_index
}

/// Properties of one finished corridor group.
pub open spec fn corridor_group_ok(
    segments: Seq<SegmentSpec>,
    visits: Seq<VisitSpec>,
    grp: CorridorGroup,
) -> bool {
    let key = (grp.stop_a@, grp.stop_b@);
    let idx = member_indices(grp.members@);
    &&& sorted_by_key(segment_order_keys(segments), idx)
    &&& forall|t: int|
        0 <= t < grp.members@.len() ==> {
            let m = #[trigger] grp.members@[t];
            &&& m.slot == t
            &&& m.segment_index < segments.len()
            &&& m.key_forward == (end_stop(visits, segments[m.segment_index as int].a_visit)
                == grp.stop_a@)
        }
    &&& forall|s: int|
        0 <= s < segments.len() ==> (idx.contains(s as usize) <==> (joins_two_stops(
            visits,
            segments[s],
        ) && segment_key(visits, segments[s]) == key))
    &&& exists|t1: int, t2: int|
        0 <= t1 < grp.members@.len() && 0 <= t2 < grp.members@.len()
            && segments[grp.members@[t1].segment_index as int].route_index
            != segments[grp.members@[t2].segment_index as int].route_index
}

/// Groups the segments of different routes that join the same two stops, in
/// increasing stop-pair order; within a group, members are ordered by route
/// and leg number and take consecutive lane slots. Pairs joined by one route
/// only form no group.
pub fn build_corridor_groups(segments: &Vec<SegmentSpec>, visits: &Vec<VisitSpec>) -> (groups: Vec<
    CorridorGroup,
>)
    requires
        forall|s: int| 0 <= s < segments@.len() ==> segment_in(visits@, #[trigger] segments@[s]),
    ensures
        corridor_groups_of(segments@, visits@, groups@),
{
    let n = segments.len();
    let mut keys: Vec<(Vec<char>, Vec<char>)> = Vec::new();
    let mut sel: Vec<bool> = Vec::new();
    let mut order_keys: Vec<(u128, u128)> = Vec::new();
    let mut i: usize = 0;
    while i < n
        invariant
            n == segments@.len(),
            forall|s: int| 0 <= s < segments@.len() ==> segment_in(visits@, #[trigger] segments@[s]),
            i <= n,
            keys@.len() == i,
            sel@.len() == i,
            forall|j: int| 0 <= j < i ==> #[trigger] key_view(keys@[j]) == segment_key(visits@, segments@[j]),
            forall|j: int| 0 <= j < i ==> #[trigger] sel@[j] == joins_two_stops(visits@, segments@[j]),
            order_keys@ == segment_order_keys(segments@).take(i as int),
        decreases n - i,
    {
        let seg = segments[i];
        proof {
            assert(segment_in(visits@, segments@[i as int]));
        }
        let a = chars_of(visits[seg.a_visit].stop_id.as_str());
        let b = chars_of(visits[seg.b_visit].stop_id.as_str());
        let c = lex_compare(&a, &b);
        proof {
            lemma_lex_irreflexive(a@);
            lemma_lex_total(a@, b@);
        }
        match c {
            LexOrder::Greater => {
                keys.push((b, a));
                sel.push(true);
            },
            LexOrder::Less => {
                keys.push((a, b));
                sel.push(true);
            },
            LexOrder::Equal => {
                keys.push((a, b));
                sel.push(false);
            },
        }
        order_keys.push((seg.route_index as u128, seg.segment_index as u128));
        i = i + 1;
        assert(order_keys@ =~= segment_order_keys(segments@).take(i as int));
    }
    assert(order_keys@ =~= segment_order_keys(segments@));
    let ghost kv = key_views(keys@);
    assert forall|j: int| 0 <= j < n implies #[trigger] kv[j] == segment_key(visits@, segments@[j]) by {
        assert(kv[j] == key_view(keys@[j]));
    }
    let raw = group_keys(&keys, &sel);
    let ghost rg = raw@;
    let mut groups: Vec<CorridorGroup> = Vec::new();
    let ng = raw.len();
    let mut g: usize = 0;
    while g < ng
        invariant
            n == segments@.len(),
            forall|s: int| 0 <= s < segments@.len() ==> segment_in(visits@, #[trigger] segments@[s]),
            ng == rg.len(),
            rg == raw@,
            g <= ng,
            kv == key_views(keys@),
            keys@.len() == n,
            sel@.len() == n,
            forall|j: int| 0 <= j < n ==> #[trigger] sel@[j] == joins_two_stops(visits@, segments@[j]),
            forall|j: int| 0 <= j < n ==> #[trigger] kv[j] == segment_key(visits@, segments@[j]),
            order_keys@ == segment_order_keys(segments@),
            grouped_by_key(kv, sel@, rg, n as int),
            forall|o: int|
                0 <= o < groups@.len() ==> exists|h: int|
                    0 <= h < g && (#[trigger] groups@[o].stop_a@, groups@[o].stop_b@) == group_key(kv, rg, h),
            forall|o1: int, o2: int|
                0 <= o1 < o2 < groups@.len() ==> pair_lt(
                    (#[trigger] groups@[o1].stop_a@, groups@[o1].stop_b@),
                    (#[trigger] groups@[o2].stop_a@, groups@[o2].stop_b@),
                ),
            forall|o: int| 0 <= o < groups@.len() ==> corridor_group_ok(segments@, visits@, #[trigger] groups@[o]),
            forall|h: int|
                0 <= h < g && has_two_routes(segments@, #[trigger] rg[h]@) ==> exists|o: int|
                    0 <= o < groups@.len() && (#[trigger] groups@[o].stop_a@, groups@[o].stop_b@) == group_key(kv, rg, h),
        decreases ng - g,
    {
        let members = &raw[g];
        let ghost key = group_key(kv, rg, g as int);
        proof {
            assert(rg[g as int]@.len() > 0);
            assert(members@ == matching(kv, sel@, key, n as int));
            lemma_matching_members(kv, sel@, key, n as int);
            assert forall|t: int| 0 <= t < members@.len() implies #[trigger] members@[t] < order_keys@.len() by {
                assert(members@[t] == matching(kv, sel@, key, n as int)[t]);
            }
            assert forall|a: int, b: int| 0 <= a < b < members@.len() implies #[trigger] members@[a]
                != #[trigger] members@[b] by {
                assert(matching(kv, sel@, key, n as int)[a] < matching(kv, sel@, key, n as int)[b]);
            }
        }
        let m = members.len();
        let first_route = segments[members[0]].route_index;
        let mut two = false;
        let mut t: usize = 1;
        while t < m
            invariant
                m == members@.len(),
                m > 0,
                1 <= t <= m,
                n == segments@.len(),
                forall|u: int| 0 <= u < members@.len() ==> #[trigger] members@[u] < n,
                first_route == segments@[members@[0] as int].route_index,
                two == has_two_routes(segments@, members@.take(t as int)),
            decreases m - t,
        {
            proof {
                let tk = members@.take(t + 1);
                assert(tk[0] == members@[0]);
                if has_two_routes(segments@, tk) {
                    let u = choose|u: int| 0 <= u < tk.len() && #[trigger] segments@[tk[u] as int].route_index
                        != segments@[tk[0] as int].route_index;
                    if u < t {
                        assert(members@.take(t as int)[u] == tk[u]);
                        assert(members@.take(t as int)[0] == tk[0]);
                    }
                }
                if has_two_routes(segments@, members@.take(t as int)) {
                    let tk0 = members@.take(t as int);
                    let u = choose|u: int| 0 <= u < tk0.len() && #[trigger] segments@[tk0[u] as int].route_index
                        != segments@[tk0[0] as int].route_index;
                    assert(tk[u] == tk0[u]);
                }
                assert(tk[t as int] == members@[t as int]);
            }
            if segments[members[t]].route_index != first_route {
                two = true;
            }
            t = t + 1;
        }
        proof {
            assert(members@.take(m as int) =~= members@);
        }
        let ghost old_groups = groups@;
        if two {
            let sorted = sort_indices_by_key(members, &order_keys);
            let first = members[0];
            proof {
                assert(matching(kv, sel@, key, n as int)[0] == first);
                assert(kv[first as int] == key);
                assert(key == key_view(keys@[first as int]));
            }
            let stop_a = string_from_chars(&keys[first].0);
            let stop_b = string_from_chars(&keys[first].1);
            let mut list: Vec<CorridorMember> = Vec::new();
            let sn = sorted.len();
            let mut t: usize = 0;
            while t < sn
                invariant
                    sn == sorted@.len(),
                    t <= sn,
                    n == segments@.len(),
                    forall|s: int| 0 <= s < segments@.len() ==> segment_in(visits@, #[trigger] segments@[s]),
                    forall|x: usize| #[trigger] sorted@.contains(x) <==> members@.contains(x),
                    forall|u: int| 0 <= u < members@.len() ==> #[trigger] members@[u] < n,
                    list@.len() == t,
                    member_indices(list@) == sorted@.take(t as int),
                    forall|u: int|
                        0 <= u < t ==> {
                            let mm = #[trigger] list@[u];
                            &&& mm.slot == u
                            &&& mm.segment_index < segments@.len()
                            &&& mm.key_forward == (end_stop(visits@, segments@[mm.segment_index as int].a_visit)
                                == stop_a@)
                        },
                decreases sn - t,
            {
                let s = sorted[t];
                proof {
                    assert(sorted@.contains(s));
                    let u = choose|u: int| 0 <= u < members@.len() && members@[u] == s;
                    assert(segment_in(visits@, segments@[s as int]));
                }
                let fwd = visits[segments[s].a_visit].stop_id == stop_a;
                list.push(CorridorMember { segment_index: s, key_forward: fwd, slot: t });
                t = t + 1;
                assert(member_indices(list@) =~= sorted@.take(t as int));
            }
            proof {
                assert(member_indices(list@) =~= sorted@);
            }
            let grp = CorridorGroup { stop_a, stop_b, members: list };
            groups.push(grp);
            proof {
                let grp = groups@[groups@.len() - 1];
                assert((grp.stop_a@, grp.stop_b@) == key);
                let idx = member_indices(grp.members@);
                assert(idx == sorted@);
                assert forall|s: int| 0 <= s < segments@.len() implies (idx.contains(s as usize) <==> (
                    joins_two_stops(visits@, segments@[s]) && segment_key(visits@, segments@[s]) == key))
                    by {
                    if joins_two_stops(visits@, segments@[s]) && segment_key(visits@, segments@[s]) == key {
                        assert(sel@[s] && kv[s] == key);
                        assert(matching(kv, sel@, key, n as int).contains(s as usize));
                        assert(members@.contains(s as usize));
                    }
                    if idx.contains(s as usize) {
                        assert(members@.contains(s as usize));
                        let u = choose|u: int| 0 <= u < members@.len() && members@[u] == s as usize;
                        assert(matching(kv, sel@, key, n as int)[u] == s as usize);
                    }
                }
                let u = choose|u: int| 0 <= u < members@.len() && #[trigger] segments@[members@[u] as int].route_index
                    != segments@[members@[0] as int].route_index;
                assert(sorted@.contains(members@[u]));
                assert(sorted@.contains(members@[0]));
                let t1 = choose|t1: int| 0 <= t1 < sorted@.len() && sorted@[t1] == members@[u];
                let t2 = choose|t2: int| 0 <= t2 < sorted@.len() && sorted@[t2] == members@[0];
                assert(grp.members@[t1].segment_index == members@[u]);
                assert(grp.members@[t2].segment_index == members@[0]);
                assert(corridor_group_ok(segments@, visits@, grp));
                assert forall|o: int| 0 <= o < groups@.len() implies exists|h: int|
                    0 <= h < g + 1 && (#[trigger] groups@[o].stop_a@, groups@[o].stop_b@) == group_key(kv, rg, h) by {
                    if o < old_groups.len() {
                        assert(groups@[o] == old_groups[o]);
                    } else {
                        assert((groups@[o].stop_a@, groups@[o].stop_b@) == group_key(kv, rg, g as int));
                    }
                }
                assert forall|o1: int, o2: int| 0 <= o1 < o2 < groups@.len() implies pair_lt(
                    (#[trigger] groups@[o1].stop_a@, groups@[o1].stop_b@),
                    (#[trigger] groups@[o2].stop_a@, groups@[o2].stop_b@),
                ) by {
                    if o2 < old_groups.len() {
                        assert(groups@[o1] == old_groups[o1]);
                        assert(groups@[o2] == old_groups[o2]);
                    } else {
                        assert(groups@[o1] == old_groups[o1]);
                        let h = choose|h: int|
                            0 <= h < g && (#[trigger] old_groups[o1].stop_a@, old_groups[o1].stop_b@) == group_key(kv, rg, h);
                        assert(pair_lt(group_key(kv, rg, h), group_key(kv, rg, g as int)));
                    }
                }
                assert forall|o: int| 0 <= o < groups@.len() implies corridor_group_ok(segments@, visits@, #[trigger] groups@[o]) by {
                    if o < old_groups.len() {
                        assert(groups@[o] == old_groups[o]);
                    }
                }
                assert forall|h: int|
                    0 <= h < g + 1 && has_two_routes(segments@, #[trigger] rg[h]@) implies exists|o: int|
                        0 <= o < groups@.len() && (#[trigger] groups@[o].stop_a@, groups@[o].stop_b@) == group_key(kv, rg, h) by {
                    if h < g {
                        let o = choose|o: int|
                            0 <= o < old_groups.len() && (#[trigger] old_groups[o].stop_a@, old_groups[o].stop_b@) == group_key(kv, rg, h);
                        assert(groups@[o] == old_groups[o]);
                    } else {
                        assert((groups@[old_groups.len() as int].stop_a@, groups@[old_groups.len() as int].stop_b@) == group_key(kv, rg, h));
                    }
                }
            }
        } else {
            proof {
                assert(!has_two_routes(segments@, rg[g as int]@));
            }
        }
        g = g + 1;
    }
    proof {
        assert forall|s1: int, s2: int|
            0 <= s1 < segments@.len() && 0 <= s2 < segments@.len() && joins_two_stops(
                visits@,
                #[trigger] segments@[s1],
            ) && joins_two_stops(visits@, #[trigger] segments@[s2]) && segment_key(visits@, segments@[s1])
                == segment_key(visits@, segments@[s2]) && segments@[s1].route_index
                != segments@[s2].route_index implies exists|o: int|
                0 <= o < groups@.len() && (#[trigger] groups@[o].stop_a@, groups@[o].stop_b@) == segment_key(
                    visits@,
                    segments@[s1],
                ) by {
            assert(sel@[s1] && sel@[s2]);
            let k = kv[s1];
            assert(kv[s2] == k);
            let h = choose|h: int| 0 <= h < rg.len() && #[trigger] group_key(kv, rg, h) == kv[s1];
            assert(rg[h]@ == matching(kv, sel@, k, n as int));
            lemma_matching_members(kv, sel@, k, n as int);
            assert(rg[h]@.contains(s1 as usize));
            assert(rg[h]@.contains(s2 as usize));
            let u1 = choose|u: int| 0 <= u < rg[h]@.len() && rg[h]@[u] == s1 as usize;
            let u2 = choose|u: int| 0 <= u < rg[h]@.len() && rg[h]@[u] == s2 as usize;
            if segments@[rg[h]@[u1] as int].route_index == segments@[rg[h]@[0] as int].route_index {
                assert(segments@[rg[h]@[u2] as int].route_index != segments@[rg[h]@[0] as int].route_index);
            }
            assert(has_two_routes(segments@, rg[h]@));
        }
        assert forall|o: int| 0 <= o < groups@.len() implies corridor_group_ok(segments@, visits@, #[trigger] groups@[o]) by {}
    }
    groups
}

// ---------------------------------------------------------------------------
// Laws
// ---------------------------------------------------------------------------

/// Stop groups partition the visit nodes: every visit node belongs to
/// exactly one stop group, the group of its stop.
pub proof fn law_stop_groups_partition(visits: Seq<VisitSpec>, groups: Seq<StopGroup>, i: int)
    requires
        stop_groups_of(visits, groups),
        0 <= i < visits.len(),
    ensures
        exists|g: int| 0 <= g < groups.len() && #[trigger] groups[g].visits@.contains(i as usize),
        forall|g1: int, g2: int|
            0 <= g1 < groups.len() && 0 <= g2 < groups.len() && groups[g1].visits@.contains(i as usize)
                && groups[g2].visits@.contains(i as usize) ==> g1 == g2,
{
    assert(stop_has_group(groups, visits[i].stop_id@));
    let g = choose|g: int| 0 <= g < groups.len() && #[trigger] groups[g].stop_id@ == visits[i].stop_id@;
    let grp = groups[g];
    assert(grp.visits@.contains(i as usize));
    assert forall|g1: int, g2: int|
        0 <= g1 < groups.len() && 0 <= g2 < groups.len() && groups[g1].visits@.contains(i as usize)
            && groups[g2].visits@.contains(i as usize) implies g1 == g2 by {
        let a = groups[g1];
        let b = groups[g2];
        assert(a.stop_id@ == visits[i].stop_id@);
        assert(b.stop_id@ == visits[i].stop_id@);
        if g1 < g2 {
            assert(lex_lt(groups[g1].stop_id@, groups[g2].stop_id@));
            lemma_lex_irreflexive(a.stop_id@);
        } else if g2 < g1 {
            assert(lex_lt(groups[g2].stop_id@, groups[g1].stop_id@));
            lemma_lex_irreflexive(a.stop_id@);
        }
    }
}

proof fn lemma_lex_strict_order()
    ensures
        strict_order(|a: Seq<char>, b: Seq<char>| lex_lt(a, b)),
{
    let lt = |a: Seq<char>, b: Seq<char>| lex_lt(a, b);
    assert forall|x: Seq<char>| !#[trigger] lt(x, x) by {
        lemma_lex_irreflexive(x);
    }
    assert forall|x: Seq<char>, y: Seq<char>, z: Seq<char>|
        #[trigger] lt(x, y) && #[trigger] lt(y, z) implies lt(x, z) by {
        lemma_lex_transitive(x, y, z);
    }
}

proof fn lemma_pair_strict_order()
    ensures
        strict_order(|a: (Seq<char>, Seq<char>), b: (Seq<char>, Seq<char>)| pair_lt(a, b)),
{
    let lt = |a: (Seq<char>, Seq<char>), b: (Seq<char>, Seq<char>)| pair_lt(a, b);
    assert forall|x: (Seq<char>, Seq<char>)| !#[trigger] lt(x, x) by {
        lemma_pair_irreflexive(x);
    }
    assert forall|x: (Seq<char>, Seq<char>), y: (Seq<char>, Seq<char>), z: (Seq<char>, Seq<char>)|
        #[trigger] lt(x, y) && #[trigger] lt(y, z) implies lt(x, z) by {
        lemma_pair_transitive(x, y, z);
    }
}

proof fn lemma_key_strict_order(keys: Seq<(u128, u128)>)
    ensures
        strict_order(|i: usize, j: usize| key_before(keys, i, j)),
{
}

pub open spec fn group_ids(groups: Seq<StopGroup>) -> Seq<Seq<char>> {
    groups.map_values(|g: StopGroup| g.stop_id@)
}

/// The stop groups are determined by the visits: any two groupings that meet
/// the contract list the same stops in the same order, each with the same
/// visit nodes in the same order.
pub proof fn law_stop_groups_determined(
    visits: Seq<VisitSpec>,
    groups1: Seq<StopGroup>,
    groups2: Seq<StopGroup>,
)
    requires
        stop_groups_of(visits, groups1),
        stop_groups_of(visits, groups2),
    ensures
        groups1.len() == groups2.len(),
        forall|g: int|
            0 <= g < groups1.len() ==> #[trigger] groups1[g].stop_id@ == groups2[g].stop_id@
                && groups1[g].visits@ == groups2[g].visits@ && groups1[g].first_visit
                == groups2[g].first_visit,
{
    let lt = |a: Seq<char>, b: Seq<char>| lex_lt(a, b);
    lemma_lex_strict_order();
    let ids1 = group_ids(groups1);
    let ids2 = group_ids(groups2);
    assert forall|i: int, j: int| 0 <= i < j < ids1.len() implies lt(#[trigger] ids1[i], #[trigger] ids1[j]) by {
        assert(lex_lt(groups1[i].stop_id@, groups1[j].stop_id@));
    }
    assert forall|i: int, j: int| 0 <= i < j < ids2.len() implies lt(#[trigger] ids2[i], #[trigger] ids2[j]) by {
        assert(lex_lt(groups2[i].stop_id@, groups2[j].stop_id@));
    }
    assert forall|x: Seq<char>| ids1.contains(x) <==> ids2.contains(x) by {
        if ids1.contains(x) {
            let g = choose|g: int| 0 <= g < ids1.len() && ids1[g] == x;
            let f = groups1[g].first_visit as int;
            assert(visits[f].stop_id@ == x);
            assert(stop_has_group(groups2, visits[f].stop_id@));
            let h = choose|h: int| 0 <= h < groups2.len() && #[trigger] groups2[h].stop_id@ == x;
            assert(ids2[h] == x);
        }
        if ids2.contains(x) {
            let g = choose|g: int| 0 <= g < ids2.len() && ids2[g] == x;
            let f = groups2[g].first_visit as int;
            assert(visits[f].stop_id@ == x);
            assert(stop_has_group(groups1, visits[f].stop_id@));
            let h = choose|h: int| 0 <= h < groups1.len() && #[trigger] groups1[h].stop_id@ == x;
            assert(ids1[h] == x);
        }
    }
    lemma_sorted_listing_unique(ids1, ids2, lt);
    let keys = visit_order_keys(visits);
    let klt = |i: usize, j: usize| key_before(keys, i, j);
    lemma_key_strict_order(keys);
    assert forall|g: int| 0 <= g < groups1.len() implies #[trigger] groups1[g].stop_id@
        == groups2[g].stop_id@ && groups1[g].visits@ == groups2[g].visits@
        && groups1[g].first_visit == groups2[g].first_visit by {
        assert(ids1[g] == ids2[g]);
        let a = groups1[g];
        let b = groups2[g];
        assert(strictly_sorted(a.visits@, klt));
        assert(strictly_sorted(b.visits@, klt));
        assert forall|x: usize| a.visits@.contains(x) <==> b.visits@.contains(x) by {
            if a.visits@.contains(x) {
                let t = choose|t: int| 0 <= t < a.visits@.len() && a.visits@[t] == x;
                assert(a.visits@[t] < visits.len());
                assert(visits[x as int].stop_id@ == a.stop_id@);
            }
            if b.visits@.contains(x) {
                let t = choose|t: int| 0 <= t < b.visits@.len() && b.visits@[t] == x;
                assert(b.visits@[t] < visits.len());
                assert(visits[x as int].stop_id@ == b.stop_id@);
            }
        }
        lemma_sorted_listing_unique(a.visits@, b.visits@, klt);
    }
}

pub open spec fn corridor_keys(groups: Seq<CorridorGroup>) -> Seq<(Seq<char>, Seq<char>)> {
    groups.map_values(|g: CorridorGroup| (g.stop_a@, g.stop_b@))
}

/// The corridor groups are determined by the segments: any two groupings
/// that meet the contract list the same stop pairs in the same order, each
/// with the same members in the same lanes.
pub proof fn law_corridor_groups_determined(
    segments: Seq<SegmentSpec>,
    visits: Seq<VisitSpec>,
    groups1: Seq<CorridorGroup>,
    groups2: Seq<CorridorGroup>,
)
    requires
        corridor_groups_of(segments, visits, groups1),
        corridor_groups_of(segments, visits, groups2),
    ensures
        groups1.len() == groups2.len(),
        forall|g: int|
            0 <= g < groups1.len() ==> #[trigger] groups1[g].stop_a@ == groups2[g].stop_a@
                && groups1[g].stop_b@ == groups2[g].stop_b@ && groups1[g].members@
                == groups2[g].members@,
{
    let lt = |a: (Seq<char>, Seq<char>), b: (Seq<char>, Seq<char>)| pair_lt(a, b);
    lemma_pair_strict_order();
    let k1 = corridor_keys(groups1);
    let k2 = corridor_keys(groups2);
    assert forall|i: int, j: int| 0 <= i < j < k1.len() implies lt(#[trigger] k1[i], #[trigger] k1[j]) by {
        assert(pair_lt((groups1[i].stop_a@, groups1[i].stop_b@), (groups1[j].stop_a@, groups1[j].stop_b@)));
    }
    assert forall|i: int, j: int| 0 <= i < j < k2.len() implies lt(#[trigger] k2[i], #[trigger] k2[j]) by {
        assert(pair_lt((groups2[i].stop_a@, groups2[i].stop_b@), (groups2[j].stop_a@, groups2[j].stop_b@)));
    }
    assert forall|x: (Seq<char>, Seq<char>)| k1.contains(x) <==> k2.contains(x) by {
        if k1.contains(x) {
            let g = choose|g: int| 0 <= g < k1.len() && k1[g] == x;
            lemma_group_witness(segments, visits, groups1, groups2, g);
            let h = choose|h: int| 0 <= h < groups2.len() && (#[trigger] groups2[h].stop_a@, groups2[h].stop_b@) == x;
            assert(k2[h] == x);
        }
        if k2.contains(x) {
            let g = choose|g: int| 0 <= g < k2.len() && k2[g] == x;
            lemma_group_witness(segments, visits, groups2, groups1, g);
            let h = choose|h: int| 0 <= h < groups1.len() && (#[trigger] groups1[h].stop_a@, groups1[h].stop_b@) == x;
            assert(k1[h] == x);
        }
    }
    lemma_sorted_listing_unique(k1, k2, lt);
    let keys = segment_order_keys(segments);
    let klt = |i: usize, j: usize| key_before(keys, i, j);
    lemma_key_strict_order(keys);
    assert forall|g: int| 0 <= g < groups1.len() implies #[trigger] groups1[g].stop_a@
        == groups2[g].stop_a@ && groups1[g].stop_b@ == groups2[g].stop_b@ && groups1[g].members@
        == groups2[g].members@ by {
        assert(k1[g] == k2[g]);
        let a = groups1[g];
        let b = groups2[g];
        let ia = member_indices(a.members@);
        let ib = member_indices(b.members@);
        assert(strictly_sorted(ia, klt));
        assert(strictly_sorted(ib, klt));
        assert forall|x: usize| ia.contains(x) <==> ib.contains(x) by {
            if ia.contains(x) {
                let t = choose|t: int| 0 <= t < ia.len() && ia[t] == x;
                assert(a.members@[t].segment_index < segments.len());
            }
            if ib.contains(x) {
                let t = choose|t: int| 0 <= t < ib.len() && ib[t] == x;
                assert(b.members@[t].segment_index < segments.len());
            }
        }
        lemma_sorted_listing_unique(ia, ib, klt);
        assert forall|t: int| 0 <= t < a.members@.len() implies a.members@[t] == b.members@[t] by {
            assert(ia[t] == ib[t]);
            assert(a.members@[t].slot == t);
            assert(b.members@[t].slot == t);
        }
        assert(a.members@ =~= b.members@);
    }
}

proof fn lemma_group_witness(
    segments: Seq<SegmentSpec>,
    visits: Seq<VisitSpec>,
    from: Seq<CorridorGroup>,
    to: Seq<CorridorGroup>,
    g: int,
)
    requires
        corridor_groups_of(segments, visits, from),
        corridor_groups_of(segments, visits, to),
        0 <= g < from.len(),
    ensures
        exists|h: int|
            0 <= h < to.len() && (#[trigger] to[h].stop_a@, to[h].stop_b@) == (from[g].stop_a@, from[g].stop_b@),
{
    let grp = from[g];
    let key = (grp.stop_a@, grp.stop_b@);
    let idx = member_indices(grp.members@);
    let (t1, t2) = choose|t1: int, t2: int|
        0 <= t1 < grp.members@.len() && 0 <= t2 < grp.members@.len()
            && segments[grp.members@[t1].segment_index as int].route_index
            != segments[grp.members@[t2].segment_index as int].route_index;
    let s1 = grp.members@[t1].segment_index as int;
    let s2 = grp.members@[t2].segment_index as int;
    assert(idx[t1] == s1 as usize);
    assert(idx[t2] == s2 as usize);
    assert(idx.contains(s1 as usize));
    assert(idx.contains(s2 as usize));
    assert(joins_two_stops(visits, segments[s1]) && segment_key(visits, segments[s1]) == key);
    assert(joins_two_stops(visits, segments[s2]) && segment_key(visits, segments[s2]) == key);
}

} // verus!
