//! Transfer stops: the candidate orders of a stop's visit nodes, enumerated
//! in the order a swap-based depth-first search visits them, and the route
//! "arms" that leave each node of a transfer stop.
use vstd::prelude::*;
use crate::routes::{RouteSpec, VisitSpec};

verus! {

// ---------------------------------------------------------------------------
// Candidate orders
// ---------------------------------------------------------------------------

/// `s` with the entries at `i` and `j` exchanged.
pub open spec fn swap_seq(s: Seq<usize>, i: int, j: int) -> Seq<usize> {
    s.update(i, s[j]).update(j, s[i])
}

/// The orders reached from `cur` by fixing positions before `start` and
/// permuting the rest: for each position `index` from `start` on, bring
/// `cur[index]` to `start` and recurse on the remainder.
pub open spec fn perm_leaves(cur: Seq<usize>, start: int) -> Seq<Seq<usize>>
    decreases cur.len() - start, cur.len() - start + 1,
{
    if start < 0 || start >= cur.len() {
        seq![cur]
    } else {
        perm_branches(cur, start, start)
    }
}

/// The orders of the branches `index`, `index + 1`, ... at depth `start`.
pub open spec fn perm_branches(cur: Seq<usize>, start: int, index: int) -> Seq<Seq<usize>>
    decreases cur.len() - start, cur.len() - index,
{
    if start < 0 || start >= cur.len() || index < start || index >= cur.len() {
        Seq::empty()
    } else {
        perm_leaves(swap_seq(cur, start, index), start + 1) + perm_branches(cur, start, index + 1)
    }
}

pub open spec fn vec_views(v: Seq<Vec<usize>>) -> Seq<Seq<usize>> {
    v.map_values(|x: Vec<usize>| x@)
}

fn copy_vec(v: &Vec<usize>) -> (c: Vec<usize>)
    ensures
        c@ == v@,
{
    let mut c: Vec<usize> = Vec::new();
    let n = v.len();
    let mut i: usize = 0;
    while i < n
        invariant
            n == v@.len(),
            i <= n,
            c@ == v@.take(i as int),
        decreases n - i,
    {
        c.push(v[i]);
        i = i + 1;
        assert(c@ =~= v@.take(i as int));
    }
    assert(v@.take(n as int) =~= v@);
    c
}

fn swap_entries(v: &mut Vec<usize>, i: usize, j: usize)
    requires
        i < old(v)@.len(),
        j < old(v)@.len(),
    ensures
        final(v)@ == swap_seq(old(v)@, i as int, j as int),
{
    let a = v[i];
    let b = v[j];
    v.set(i, b);
    v.set(j, a);
}

proof fn lemma_swap_twice(s: Seq<usize>, i: int, j: int)
    requires
        0 <= i < s.len(),
        0 <= j < s.len(),
    ensures
        swap_seq(swap_seq(s, i, j), i, j) == s,
{
    assert(swap_seq(swap_seq(s, i, j), i, j) =~= s);
}

fn search_permutations(start: usize, current: &mut Vec<usize>, out: &mut Vec<Vec<usize>>)
    requires
        start <= old(current)@.len(),
    ensures
        final(current)@ == old(current)@,
        vec_views(final(out)@) == vec_views(old(out)@) + perm_leaves(old(current)@, start as int),
    decreases old(current)@.len() - start, 1int,
{
    let n = current.len();
    if start == n {
        let leaf = copy_vec(current);
        out.push(leaf);
        assert(vec_views(out@) =~= vec_views(old(out)@) + perm_leaves(old(current)@, start as int));
        return;
    }
    let ghost base = current@;
    let ghost out_base = vec_views(out@);
    let mut index: usize = start;
    while index < n
        invariant
            n == base.len(),
            n == old(current)@.len(),
            start < n,
            start <= index <= n,
            current@ == base,
            vec_views(out@) + perm_branches(base, start as int, index as int) == out_base
                + perm_branches(base, start as int, start as int),
        decreases n - index,
    {
        swap_entries(current, start, index);
        let ghost swapped = current@;
        let ghost before = vec_views(out@);
        search_permutations(start + 1, current, out);
        assert(current@ == swapped);
        swap_entries(current, start, index);
        proof {
            lemma_swap_twice(base, start as int, index as int);
            assert(perm_branches(base, start as int, index as int) == perm_leaves(swapped, start + 1)
                + perm_branches(base, start as int, index + 1));
            assert(vec_views(out@) == before + perm_leaves(swapped, start + 1));
            assert(vec_views(out@) + perm_branches(base, start as int, index + 1) =~= before
                + perm_branches(base, start as int, index as int));
        }
        index = index + 1;
    }
    assert(perm_branches(base, start as int, n as int) =~= Seq::<Seq<usize>>::empty());
    assert(vec_views(out@) =~= out_base + perm_branches(base, start as int, start as int));
}

/// Every order of `base`, in the order of a depth-first search that swaps
/// each later entry into the current position in turn.
pub fn transfer_order_permutations(base: &Vec<usize>) -> (orders: Vec<Vec<usize>>)
    ensures
        vec_views(orders@) == perm_leaves(base@, 0),
{
    let mut current = copy_vec(base);
    let mut out: Vec<Vec<usize>> = Vec::new();
    search_permutations(0, &mut current, &mut out);
    assert(vec_views(out@) =~= Seq::<Seq<usize>>::empty() + perm_leaves(base@, 0));
    out
}

pub open spec fn factorial(n: nat) -> nat
    decreases n,
{
    if n == 0 {
        1
    } else {
        n * factorial((n - 1) as nat)
    }
}

proof fn lemma_swap_multiset(s: Seq<usize>, i: int, j: int)
    requires
        0 <= i < s.len(),
        0 <= j < s.len(),
    ensures
        swap_seq(s, i, j).to_multiset() == s.to_multiset(),
        swap_seq(s, i, j).len() == s.len(),
        forall|k: int| 0 <= k < s.len() && k != i && k != j ==> #[trigger] swap_seq(s, i, j)[k] == s[k],
        swap_seq(s, i, j)[i] == s[j],
{
    broadcast use vstd::seq_lib::to_multiset_update, vstd::seq_lib::to_multiset_contains, vstd::multiset::group_multiset_axioms;

    if i != j {
        assert(s.contains(s[i]));
        assert(s.to_multiset().count(s[i]) > 0);
        let s1 = s.update(i, s[j]);
        assert(s1.to_multiset() == s.to_multiset().insert(s[j]).remove(s[i]));
        assert(s1[j] == s[j]);
        assert(s1.update(j, s[i]).to_multiset() == s1.to_multiset().insert(s[i]).remove(s[j]));
        assert(s1.update(j, s[i]).to_multiset() =~= s.to_multiset());
    } else {
        assert(swap_seq(s, i, j) =~= s);
    }
}

proof fn lemma_leaves_laws(cur: Seq<usize>, start: int)
    requires
        0 <= start <= cur.len(),
    ensures
        perm_leaves(cur, start).len() == factorial((cur.len() - start) as nat),
        perm_leaves(cur, start).len() > 0,
        perm_leaves(cur, start)[0] == cur,
        forall|t: int|
            0 <= t < perm_leaves(cur, start).len() ==> {
                let leaf = #[trigger] perm_leaves(cur, start)[t];
                &&& leaf.to_multiset() == cur.to_multiset()
                &&& leaf.len() == cur.len()
                &&& forall|k: int| 0 <= k < start ==> leaf[k] == cur[k]
            },
    decreases cur.len() - start, cur.len() - start + 1,
{
    if start < cur.len() {
        lemma_branches_laws(cur, start, start);
        assert(swap_seq(cur, start, start) =~= cur);
        lemma_leaves_laws(cur, start + 1);
        assert(perm_leaves(cur, start)[0] == perm_leaves(cur, start + 1)[0]);
        let m = (cur.len() - start) as nat;
        assert(factorial(m) == m * factorial((m - 1) as nat));
    } else {
        assert(factorial(0) == 1);
    }
}

proof fn lemma_branches_laws(cur: Seq<usize>, start: int, index: int)
    requires
        0 <= start < cur.len(),
        start <= index <= cur.len(),
    ensures
        perm_branches(cur, start, index).len() == (cur.len() - index) * factorial(
            (cur.len() - start - 1) as nat,
        ),
        forall|t: int|
            0 <= t < perm_branches(cur, start, index).len() ==> {
                let leaf = #[trigger] perm_branches(cur, start, index)[t];
                &&& leaf.to_multiset() == cur.to_multiset()
                &&& leaf.len() == cur.len()
                &&& forall|k: int| 0 <= k < start ==> leaf[k] == cur[k]
            },
    decreases cur.len() - start, cur.len() - index,
{
    if index < cur.len() {
        let sw = swap_seq(cur, start, index);
        lemma_swap_multiset(cur, start, index);
        lemma_leaves_laws(sw, start + 1);
        lemma_branches_laws(cur, start, index + 1);
        let left = perm_leaves(sw, start + 1);
        let right = perm_branches(cur, start, index + 1);
        assert(perm_branches(cur, start, index) == left + right);
        let f = factorial((cur.len() - start - 1) as nat);
        assert((cur.len() - index) * f == f + (cur.len() - index - 1) * f) by (nonlinear_arith);
        assert forall|t: int| 0 <= t < perm_branches(cur, start, index).len() implies {
            let leaf = #[trigger] perm_branches(cur, start, index)[t];
            &&& leaf.to_multiset() == cur.to_multiset()
            &&& leaf.len() == cur.len()
            &&& forall|k: int| 0 <= k < start ==> leaf[k] == cur[k]
        } by {
            if t < left.len() {
                let leaf = left[t];
                assert(perm_branches(cur, start, index)[t] == leaf);
                assert forall|k: int| 0 <= k < start implies leaf[k] == cur[k] by {
                    assert(leaf[k] == sw[k]);
                }
            } else {
                assert(perm_branches(cur, start, index)[t] == right[t - left.len()]);
            }
        }
    }
}

/// The search yields `n!` orders for `n` entries, starts with `base` itself,
/// and every order it yields holds exactly the entries of `base`.
pub proof fn law_permutations_complete(base: Seq<usize>)
    ensures
        perm_leaves(base, 0).len() == factorial(base.len()),
        perm_leaves(base, 0)[0] == base,
        forall|t: int|
            0 <= t < perm_leaves(base, 0).len() ==> (#[trigger] perm_leaves(base, 0)[t]).to_multiset()
                == base.to_multiset(),
{
    lemma_leaves_laws(base, 0);
}

/// No entry occurs twice.
pub open spec fn no_duplicates(s: Seq<usize>) -> bool {
    forall|i: int, j: int| 0 <= i < j < s.len() ==> #[trigger] s[i] != #[trigger] s[j]
}

/// No two listed orders are the same.
pub open spec fn pairwise_distinct(s: Seq<Seq<usize>>) -> bool {
    forall|a: int, b: int| 0 <= a < b < s.len() ==> #[trigger] s[a] != #[trigger] s[b]
}

proof fn lemma_leaves_distinct(cur: Seq<usize>, start: int)
    requires
        0 <= start <= cur.len(),
        no_duplicates(cur),
    ensures
        pairwise_distinct(perm_leaves(cur, start)),
    decreases cur.len() - start, cur.len() - start + 1,
{
    if start < cur.len() {
        lemma_branches_distinct(cur, start, start);
    }
}

proof fn lemma_branches_distinct(cur: Seq<usize>, start: int, index: int)
    requires
        0 <= start < cur.len(),
        start <= index <= cur.len(),
        no_duplicates(cur),
    ensures
        pairwise_distinct(perm_branches(cur, start, index)),
        forall|t: int|
            0 <= t < perm_branches(cur, start, index).len() ==> exists|i: int|
                index <= i < cur.len() && (#[trigger] perm_branches(cur, start, index)[t])[start]
                    == cur[i],
    decreases cur.len() - start, cur.len() - index,
{
    if index < cur.len() {
        let sw = swap_seq(cur, start, index);
        lemma_swap_multiset(cur, start, index);
        assert forall|i: int, j: int| 0 <= i < j < sw.len() implies #[trigger] sw[i] != #[trigger] sw[j] by {
            let ci = if i == start { index } else if i == index { start } else { i };
            let cj = if j == start { index } else if j == index { start } else { j };
            assert(sw[i] == cur[ci]);
            assert(sw[j] == cur[cj]);
            assert(ci != cj);
            if ci < cj {
                assert(cur[ci] != cur[cj]);
            } else {
                assert(cur[cj] != cur[ci]);
            }
        }
        lemma_leaves_laws(sw, start + 1);
        lemma_leaves_distinct(sw, start + 1);
        lemma_branches_distinct(cur, start, index + 1);
        let left = perm_leaves(sw, start + 1);
        let right = perm_branches(cur, start, index + 1);
        let all = perm_branches(cur, start, index);
        assert(all == left + right);
        assert forall|t: int| 0 <= t < left.len() implies (#[trigger] left[t])[start] == cur[index] by {
            assert(left[t][start] == sw[start]);
        }
        assert forall|t: int| 0 <= t < all.len() implies exists|i: int|
            index <= i < cur.len() && (#[trigger] all[t])[start] == cur[i] by {
            if t < left.len() {
                assert(all[t] == left[t]);
                assert(all[t][start] == cur[index]);
            } else {
                assert(all[t] == right[t - left.len()]);
            }
        }
        assert forall|a: int, b: int| 0 <= a < b < all.len() implies #[trigger] all[a] != #[trigger] all[b] by {
            if b < left.len() {
                assert(all[a] == left[a] && all[b] == left[b]);
            } else if a >= left.len() {
                assert(all[a] == right[a - left.len()] && all[b] == right[b - left.len()]);
            } else {
                assert(all[a] == left[a]);
                assert(all[b] == right[b - left.len()]);
                let i = choose|i: int|
                    index + 1 <= i < cur.len() && (#[trigger] right[b - left.len()])[start] == cur[i];
                assert(all[a][start] == cur[index]);
                assert(cur[index] != cur[i]);
            }
        }
    }
}

/// With distinct entries, the search never yields the same order twice, so
/// its `n!` orders are all the orders of the entries.
pub proof fn law_permutations_distinct(base: Seq<usize>)
    requires
        no_duplicates(base),
    ensures
        pairwise_distinct(perm_leaves(base, 0)),
{
    lemma_leaves_distinct(base, 0);
}

// ---------------------------------------------------------------------------
// Transfer arms
// ---------------------------------------------------------------------------

/// A route leg leaving a transfer node: from `visit_index` towards the
/// neighbouring visit `neighbor` of the same route.
#[derive(Clone, Copy, PartialEq, Eq, Structural, Debug)]
pub struct ArmLink {
    pub route_index: usize,
    pub visit_index: usize,
    pub neighbor: usize,
}

/// Position of the first occurrence of `v` in `s`, or -1.
pub open spec fn first_position(s: Seq<usize>, v: usize) -> int
    decreases s.len(),
{
    if s.len() == 0 {
        -1
    } else {
        let p = first_position(s.drop_last(), v);
        if p >= 0 {
            p
        } else if s.last() == v {
            s.len() - 1
        } else {
            -1
        }
    }
}

/// The arms of visit `v`, found at position `k` of its route: towards the
/// previous visit, then the next one, leaving out neighbours at the same
/// stop.
pub open spec fn visit_arms(routes: Seq<RouteSpec>, visits: Seq<VisitSpec>, v: usize, k: int) -> Seq<
    ArmLink,
> {
    let r = visits[v as int].route_index;
    let vi = routes[r as int].visit_indices@;
    let id = visits[v as int].stop_id@;
    let prev = if k > 0 && visits[vi[k - 1] as int].stop_id@ != id {
        seq![ArmLink { route_index: r, visit_index: v, neighbor: vi[k - 1] }]
    } else {
        Seq::empty()
    };
    let next = if k + 1 < vi.len() && visits[vi[k + 1] as int].stop_id@ != id {
        seq![ArmLink { route_index: r, visit_index: v, neighbor: vi[k + 1] }]
    } else {
        Seq::empty()
    };
    prev + next
}

/// The arms of the first `t` visits of `order`.
pub open spec fn order_arms(
    routes: Seq<RouteSpec>,
    visits: Seq<VisitSpec>,
    order: Seq<usize>,
    t: int,
) -> Seq<ArmLink>
    decreases t,
{
    if t <= 0 {
        Seq::empty()
    } else {
        let v = order[t - 1];
        let k = first_position(routes[visits[v as int].route_index as int].visit_indices@, v);
        order_arms(routes, visits, order, t - 1) + if k < 0 {
            Seq::empty()
        } else {
            visit_arms(routes, visits, v, k)
        }
    }
}

/// `a` leaves a visit of `order` towards the previous or next visit of that
/// visit's route, and that neighbour is at another stop.
pub open spec fn arm_joins_route_neighbours(
    routes: Seq<RouteSpec>,
    visits: Seq<VisitSpec>,
    order: Seq<usize>,
    a: ArmLink,
) -> bool {
    let vi = routes[a.route_index as int].visit_indices@;
    &&& order.contains(a.visit_index)
    &&& a.route_index == visits[a.visit_index as int].route_index
    &&& visits[a.neighbor as int].stop_id@ != visits[a.visit_index as int].stop_id@
    &&& exists|k: int|
        0 <= k < vi.len() && #[trigger] vi[k] == a.visit_index && ((k > 0 && a.neighbor == vi[k - 1]) || (
        k + 1 < vi.len() && a.neighbor == vi[k + 1]))
}

proof fn lemma_first_position_absent(s: Seq<usize>, v: usize)
    requires
        forall|j: int| 0 <= j < s.len() ==> s[j] != v,
    ensures
        first_position(s, v) == -1,
    decreases s.len(),
{
    if s.len() > 0 {
        lemma_first_position_absent(s.drop_last(), v);
    }
}

proof fn lemma_first_position_exact(s: Seq<usize>, v: usize, k: int)
    requires
        0 <= k < s.len(),
        s[k] == v,
        forall|j: int| 0 <= j < k ==> s[j] != v,
    ensures
        first_position(s, v) == k,
    decreases s.len(),
{
    if k == s.len() - 1 {
        lemma_first_position_absent(s.drop_last(), v);
    } else {
        lemma_first_position_exact(s.drop_last(), v, k);
    }
}

proof fn lemma_order_arms_grow(
    routes: Seq<RouteSpec>,
    visits: Seq<VisitSpec>,
    order: Seq<usize>,
    t: int,
    u: int,
    x: ArmLink,
)
    requires
        0 <= t <= u,
        order_arms(routes, visits, order, t).contains(x),
    ensures
        order_arms(routes, visits, order, u).contains(x),
    decreases u - t,
{
    if u > t {
        lemma_order_arms_grow(routes, visits, order, t, u - 1, x);
        let prev = order_arms(routes, visits, order, u - 1);
        let i = choose|i: int| 0 <= i < prev.len() && prev[i] == x;
        assert(order_arms(routes, visits, order, u)[i] == x);
    }
}

/// A transfer node's arms reach both of its route neighbours: for the node
/// `order[t]`, found first at position `k` of its route, the arms hold the
/// link to the previous visit when there is one at another stop, and the
/// link to the next visit when there is one at another stop, whether or not
/// the node is at an end of its route.
pub proof fn law_arms_reach_route_neighbours(
    routes: Seq<RouteSpec>,
    visits: Seq<VisitSpec>,
    order: Seq<usize>,
    t: int,
    k: int,
)
    requires
        arm_inputs_ok(routes, visits),
        forall|u: int| 0 <= u < order.len() ==> #[trigger] order[u] < visits.len(),
        0 <= t < order.len(),
        ({
            let v = order[t];
            let vi = routes[visits[v as int].route_index as int].visit_indices@;
            &&& 0 <= k < vi.len()
            &&& vi[k] == v
            &&& forall|j: int| 0 <= j < k ==> vi[j] != v
        }),
    ensures
        ({
            let v = order[t];
            let r = visits[v as int].route_index;
            let vi = routes[r as int].visit_indices@;
            let arms = order_arms(routes, visits, order, order.len() as int);
            &&& (k > 0 && visits[vi[k - 1] as int].stop_id@ != visits[v as int].stop_id@) ==> arms.contains(
                ArmLink { route_index: r, visit_index: v, neighbor: vi[k - 1] },
            )
            &&& (k + 1 < vi.len() && visits[vi[k + 1] as int].stop_id@ != visits[v as int].stop_id@)
                ==> arms.contains(ArmLink { route_index: r, visit_index: v, neighbor: vi[k + 1] })
        }),
{
    let v = order[t];
    let r = visits[v as int].route_index;
    let vi = routes[r as int].visit_indices@;
    lemma_first_position_exact(vi, v, k);
    let before = order_arms(routes, visits, order, t);
    let here = visit_arms(routes, visits, v, k);
    let upto = order_arms(routes, visits, order, t + 1);
    assert(upto == before + here);
    let id = visits[v as int].stop_id@;
    let p = ArmLink { route_index: r, visit_index: v, neighbor: vi[k - 1] };
    let q = ArmLink { route_index: r, visit_index: v, neighbor: vi[k + 1] };
    if k > 0 && visits[vi[k - 1] as int].stop_id@ != id {
        assert(here[0] == p);
        assert(upto[before.len() as int] == p);
        lemma_order_arms_grow(routes, visits, order, t + 1, order.len() as int, p);
    }
    if k + 1 < vi.len() && visits[vi[k + 1] as int].stop_id@ != id {
        let j = here.len() - 1;
        assert(here[j] == q);
        assert(upto[before.len() + j] == q);
        lemma_order_arms_grow(routes, visits, order, t + 1, order.len() as int, q);
    }
}

/// Every arm leaves a node of `order` towards the previous or next visit of
/// that node's route, and never towards a visit at the same stop.
pub proof fn law_arms_are_route_neighbours(
    routes: Seq<RouteSpec>,
    visits: Seq<VisitSpec>,
    order: Seq<usize>,
    t: int,
)
    requires
        arm_inputs_ok(routes, visits),
        forall|u: int| 0 <= u < order.len() ==> #[trigger] order[u] < visits.len(),
        0 <= t <= order.len(),
    ensures
        forall|i: int|
            0 <= i < order_arms(routes, visits, order, t).len() ==> arm_joins_route_neighbours(
                routes,
                visits,
                order,
                #[trigger] order_arms(routes, visits, order, t)[i],
            ),
    decreases t,
{
    if t > 0 {
        law_arms_are_route_neighbours(routes, visits, order, t - 1);
        let v = order[t - 1];
        let r = visits[v as int].route_index;
        let vi = routes[r as int].visit_indices@;
        let k = first_position(vi, v);
        lemma_first_position_bounds(vi, v);
        let before = order_arms(routes, visits, order, t - 1);
        let all = order_arms(routes, visits, order, t);
        assert(order.contains(v)) by {
            assert(order[t - 1] == v);
        }
        assert forall|i: int| 0 <= i < all.len() implies arm_joins_route_neighbours(
            routes,
            visits,
            order,
            #[trigger] all[i],
        ) by {
            if i < before.len() {
                assert(all[i] == before[i]);
            } else {
                let here = visit_arms(routes, visits, v, k);
                assert(k >= 0);
                assert(all == before + here);
                let a = all[i];
                assert(a == here[i - before.len()]);
                assert(vi[k] == v);
            }
        }
    }
}

/// The data of a layout that arm lookups index into are consistent.
pub open spec fn arm_inputs_ok(routes: Seq<RouteSpec>, visits: Seq<VisitSpec>) -> bool {
    &&& forall|v: int| 0 <= v < visits.len() ==> #[trigger] visits[v].route_index < routes.len()
    &&& forall|r: int, j: int|
        0 <= r < routes.len() && 0 <= j < routes[r].visit_indices@.len() ==> #[trigger] routes[r].visit_indices@[j]
            < visits.len()
}

proof fn lemma_first_position_step(s: Seq<usize>, v: usize, k: int)
    requires
        0 <= k < s.len(),
    ensures
        first_position(s.take(k + 1), v) == if first_position(s.take(k), v) >= 0 {
            first_position(s.take(k), v)
        } else if s[k] == v {
            k
        } else {
            -1
        },
{
    assert(s.take(k + 1).drop_last() =~= s.take(k));
}

proof fn lemma_first_position_bounds(s: Seq<usize>, v: usize)
    ensures
        -1 <= first_position(s, v) < s.len(),
        first_position(s, v) >= 0 ==> s[first_position(s, v)] == v,
    decreases s.len(),
{
    if s.len() > 0 {
        lemma_first_position_bounds(s.drop_last(), v);
    }
}

/// The arms leaving the nodes of a transfer stop, node by node in `order`:
/// for each node, the leg to the previous and to the next visit of its
/// route (found at the node's first position in the route), except legs to
/// a visit at the same stop.
pub fn transfer_arm_links(order: &Vec<usize>, routes: &Vec<RouteSpec>, visits: &Vec<VisitSpec>) -> (arms:
    Vec<ArmLink>)
    requires
        arm_inputs_ok(routes@, visits@),
        forall|t: int| 0 <= t < order@.len() ==> #[trigger] order@[t] < visits@.len(),
    ensures
        arms@ == order_arms(routes@, visits@, order@, order@.len() as int),
{
    let mut arms: Vec<ArmLink> = Vec::new();
    let n = order.len();
    let mut t: usize = 0;
    while t < n
        invariant
            n == order@.len(),
            t <= n,
            arm_inputs_ok(routes@, visits@),
            forall|u: int| 0 <= u < order@.len() ==> #[trigger] order@[u] < visits@.len(),
            arms@ == order_arms(routes@, visits@, order@, t as int),
        decreases n - t,
    {
        let v = order[t];
        let r = visits[v].route_index;
        let vi = &routes[r].visit_indices;
        let m = vi.len();
        let mut k: usize = 0;
        let mut found = false;
        while k < m && !found
            invariant
                m == vi@.len(),
                k <= m,
                found ==> k < m && vi@[k as int] == v && first_position(vi@, v) == k,
                !found ==> first_position(vi@.take(k as int), v) == -1,
            decreases m - k, if found { 0int } else { 1int },
        {
            proof {
                lemma_first_position_step(vi@, v, k as int);
            }
            if vi[k] == v {
                found = true;
                proof {
                    assert(first_position(vi@.take(k + 1), v) == k);
                    lemma_prefix_first_position(vi@, v, k + 1);
                }
            } else {
                k = k + 1;
            }
        }
        let ghost before = arms@;
        if found {
            let id = &visits[v].stop_id;
            if k > 0 {
                let nb = vi[k - 1];
                proof {
                    assert(routes@[r as int].visit_indices@[k - 1] < visits@.len());
                }
                if visits[nb].stop_id != *id {
                    arms.push(ArmLink { route_index: r, visit_index: v, neighbor: nb });
                }
            }
            if k + 1 < m {
                let nb = vi[k + 1];
                proof {
                    assert(routes@[r as int].visit_indices@[k + 1] < visits@.len());
                }
                if visits[nb].stop_id != *id {
                    arms.push(ArmLink { route_index: r, visit_index: v, neighbor: nb });
                }
            }
            proof {
                assert(arms@ =~= before + visit_arms(routes@, visits@, v, k as int));
            }
        } else {
            proof {
                assert(vi@.take(m as int) =~= vi@);
            }
        }
        t = t + 1;
        proof {
            assert(arms@ =~= order_arms(routes@, visits@, order@, t as int));
        }
    }
    arms
}

proof fn lemma_prefix_first_position(s: Seq<usize>, v: usize, p: int)
    requires
        0 <= p <= s.len(),
        first_position(s.take(p), v) >= 0,
    ensures
        first_position(s, v) == first_position(s.take(p), v),
    decreases s.len() - p,
{
    if p < s.len() {
        lemma_first_position_step(s, v, p);
        lemma_prefix_first_position(s, v, p + 1);
    } else {
        assert(s.take(p) =~= s);
    }
}

} // verus!
