//! Drawing order and grid arithmetic of the rendered map: the order in which
//! stop labels are placed, the legend grid, and the addressing of visit
//! coordinates in the optimizer's variable list.
use vstd::prelude::*;
use crate::grouping::{key_before, lemma_sorted_listing_unique, sort_indices_by_key, strict_order};
use crate::text::chars_of;

verus! {

// ---------------------------------------------------------------------------
// Label placement order
// ---------------------------------------------------------------------------

/// Placement priority of a stop label: longer names and busier stops are
/// placed first.
pub open spec fn label_priority_spec(name_len: nat, visit_count: nat) -> nat {
    4 * name_len + 6 * visit_count
}

/// Each visit adds 6 to a stop's placement priority and each character of
/// its name adds 4, starting from 0 for an unnamed stop without visits.
pub proof fn law_label_priority_steps(name: Seq<char>, c: char, visit_count: nat)
    ensures
        label_priority_spec(0, 0) == 0,
        label_priority_spec(name.len(), visit_count + 1) == label_priority_spec(name.len(), visit_count) + 6,
        label_priority_spec(name.push(c).len(), visit_count) == label_priority_spec(name.len(), visit_count) + 4,
{
}

/// The placement priority of a stop with the given name and number of
/// visits.
pub fn label_priority(name: &str, visit_count: usize) -> (p: u128)
    ensures
        p == label_priority_spec(name@.len(), visit_count as nat),
        p == 4 * name@.len() + 6 * visit_count,
{
    let n = chars_of(name).len();
    4 * (n as u128) + 6 * (visit_count as u128)
}

/// `order` lists `0..n` by decreasing priority, lower index first among
/// equal priorities.
pub open spec fn label_order_spec(priorities: Seq<u128>, order: Seq<usize>) -> bool {
    &&& order.len() == priorities.len()
    &&& forall|x: usize| #[trigger] order.contains(x) <==> x < priorities.len()
    &&& forall|a: int, b: int|
        0 <= a < b < order.len() ==> {
            let pa = priorities[#[trigger] order[a] as int];
            let pb = priorities[#[trigger] order[b] as int];
            pa > pb || (pa == pb && order[a] < order[b])
        }
}

/// The order in which stop labels are placed: by decreasing priority, and
/// in stop order among equal priorities.
pub fn label_order(priorities: &Vec<u128>) -> (order: Vec<usize>)
    ensures
        label_order_spec(priorities@, order@),
{
    let n = priorities.len();
    let mut idx: Vec<usize> = Vec::new();
    let mut keys: Vec<(u128, u128)> = Vec::new();
    let mut i: usize = 0;
    while i < n
        invariant
            n == priorities@.len(),
            i <= n,
            idx@.len() == i,
            keys@.len() == i,
            forall|j: int| 0 <= j < i ==> #[trigger] idx@[j] == j,
            forall|j: int| 0 <= j < i ==> (#[trigger] keys@[j]).0 == u128::MAX - priorities@[j] && keys@[j].1 == 0,
        decreases n - i,
    {
        idx.push(i);
        keys.push((u128::MAX - priorities[i], 0));
        i = i + 1;
    }
    let order = sort_indices_by_key(&idx, &keys);
    proof {
        assert forall|x: usize| #[trigger] order@.contains(x) <==> x < priorities@.len() by {
            if x < n {
                assert(idx@[x as int] == x);
                assert(idx@.contains(x));
            }
            if order@.contains(x) {
                assert(idx@.contains(x));
            }
        }
        assert forall|a: int, b: int| 0 <= a < b < order@.len() implies {
            let pa = priorities@[#[trigger] order@[a] as int];
            let pb = priorities@[#[trigger] order@[b] as int];
            pa > pb || (pa == pb && order@[a] < order@[b])
        } by {
            assert(order@.contains(order@[a]));
            assert(order@.contains(order@[b]));
            assert(key_before(keys@, order@[a], order@[b]));
        }
    }
    order
}

/// The label order is determined by the priorities: two orders that both
/// list every stop by decreasing priority, stop order breaking ties, are the
/// same order.
pub proof fn law_label_order_determined(priorities: Seq<u128>, order1: Seq<usize>, order2: Seq<usize>)
    requires
        label_order_spec(priorities, order1),
        label_order_spec(priorities, order2),
    ensures
        order1 == order2,
{
    let lt = |i: usize, j: usize|
        priorities[i as int] > priorities[j as int] || (priorities[i as int] == priorities[j as int]
            && i < j);
    assert(strict_order(lt));
    assert forall|a: int, b: int| 0 <= a < b < order1.len() implies lt(#[trigger] order1[a], #[trigger] order1[b]) by {}
    assert forall|a: int, b: int| 0 <= a < b < order2.len() implies lt(#[trigger] order2[a], #[trigger] order2[b]) by {}
    assert forall|x: usize| order1.contains(x) <==> order2.contains(x) by {}
    lemma_sorted_listing_unique(order1, order2, lt);
}

/// A stop is labelled as pass-through when it has visits and every one of
/// them passes through.
pub open spec fn passthrough_only_spec(flags: Seq<bool>) -> bool {
    flags.len() > 0 && forall|i: int| 0 <= i < flags.len() ==> #[trigger] flags[i]
}

/// A stop with no visits is not pass-through only, one visit decides by its
/// own mark, and a stop whose visits split into two non-empty parts is
/// pass-through only exactly when both parts are; so a single visit that
/// serves the stop anywhere in the list makes the label a served one.
pub proof fn law_passthrough_only_all_marks(flags: Seq<bool>, more: Seq<bool>, x: bool)
    ensures
        !passthrough_only_spec(Seq::<bool>::empty()),
        passthrough_only_spec(seq![x]) == x,
        flags.len() > 0 && more.len() > 0 ==> passthrough_only_spec(flags + more) == (
        passthrough_only_spec(flags) && passthrough_only_spec(more)),
        forall|i: int| 0 <= i < flags.len() && !flags[i] ==> !passthrough_only_spec(flags),
{
    let one = seq![x];
    assert(one[0] == x);
    if flags.len() > 0 && more.len() > 0 {
        let joined = flags + more;
        if passthrough_only_spec(joined) {
            assert forall|i: int| 0 <= i < flags.len() implies #[trigger] flags[i] by {
                assert(joined[i] == flags[i]);
            }
            assert forall|i: int| 0 <= i < more.len() implies #[trigger] more[i] by {
                assert(joined[flags.len() + i] == more[i]);
            }
        }
        if passthrough_only_spec(flags) && passthrough_only_spec(more) {
            assert forall|i: int| 0 <= i < joined.len() implies #[trigger] joined[i] by {
                if i < flags.len() {
                    assert(joined[i] == flags[i]);
                } else {
                    assert(joined[i] == more[i - flags.len()]);
                }
            }
        }
    }
}

/// Whether a stop whose visits carry the given pass-through marks is drawn
/// with a pass-through label.
pub fn passthrough_only(flags: &Vec<bool>) -> (b: bool)
    ensures
        b == passthrough_only_spec(flags@),
        b ==> forall|i: int| 0 <= i < flags@.len() ==> #[trigger] flags@[i],
        b ==> flags@.len() > 0,
        (flags@.len() > 0 && forall|i: int| 0 <= i < flags@.len() ==> #[trigger] flags@[i]) ==> b,
{
    let n = flags.len();
    if n == 0 {
        return false;
    }
    let mut i: usize = 0;
    while i < n
        invariant
            n == flags@.len(),
            i <= n,
            forall|j: int| 0 <= j < i ==> #[trigger] flags@[j],
        decreases n - i,
    {
        if !flags[i] {
            return false;
        }
        i = i + 1;
    }
    true
}

// ---------------------------------------------------------------------------
// Legend grid
// ---------------------------------------------------------------------------

/// Number of legend rows for `count` routes in `columns` columns; an empty
/// legend still takes one row.
pub open spec fn legend_rows_spec(count: nat, columns: nat) -> nat {
    let m = if count == 0 {
        1
    } else {
        count
    };
    (m / columns + if m % columns == 0 {
        0nat
    } else {
        1nat
    }) as nat
}

pub fn legend_row_count(route_count: usize, columns: usize) -> (rows: usize)
    requires
        columns >= 1,
    ensures
        rows == legend_rows_spec(route_count as nat, columns as nat),
{
    let m = if route_count == 0 {
        1
    } else {
        route_count
    };
    let extra: usize = if m % columns == 0 {
        0
    } else {
        1
    };
    proof {
        assert(m / columns <= m) by (nonlinear_arith)
            requires
                columns >= 1,
        ;
        if extra == 1 {
            assert(m / columns < m) by (nonlinear_arith)
                requires
                    columns >= 1,
                    m % columns != 0,
                    m >= 1,
            ;
        }
    }
    m / columns + extra
}

/// Column and row of legend entry `index`: entries fill rows left to right.
pub fn legend_cell(index: usize, columns: usize) -> (cell: (usize, usize))
    requires
        columns >= 1,
    ensures
        cell.0 == index % columns,
        cell.1 == index / columns,
{
    (index % columns, index / columns)
}

/// Every legend entry has a cell of its own inside the legend grid: distinct
/// entries get distinct cells, and every row it uses is counted.
pub proof fn law_legend_cells(count: nat, columns: nat, i: nat, j: nat)
    requires
        columns >= 1,
        i < count,
        j < count,
        i != j,
    ensures
        i % columns < columns,
        i / columns < legend_rows_spec(count, columns),
        (i % columns, i / columns) != (j % columns, j / columns),
{
    let c = columns as int;
    let ii = i as int;
    let jj = j as int;
    let m = count as int;
    assert(ii == c * (ii / c) + ii % c) by (nonlinear_arith)
        requires
            c >= 1,
    ;
    assert(jj == c * (jj / c) + jj % c) by (nonlinear_arith)
        requires
            c >= 1,
    ;
    assert(ii % c < c) by (nonlinear_arith)
        requires
            c >= 1,
    ;
    assert(ii / c <= m / c) by (nonlinear_arith)
        requires
            c >= 1,
            ii < m,
    ;
    if ii / c == m / c {
        assert(m % c != 0) by (nonlinear_arith)
            requires
                c >= 1,
                ii < m,
                ii / c == m / c,
                ii >= 0,
        ;
    }
}

// ---------------------------------------------------------------------------
// Optimizer variables
// ---------------------------------------------------------------------------

/// Handle of a value recorded on the optimizer's differentiation tape.
#[derive(Clone, Copy, PartialEq, Eq, Structural, Debug)]
pub struct Var {
    pub index: usize,
}

/// A point whose coordinates are tape values.
#[derive(Clone, Copy, PartialEq, Eq, Structural, Debug)]
pub struct AdPoint {
    pub x: Var,
    pub y: Var,
}

/// The coordinates of a visit: its x and y are variables `2 * visit_index`
/// and `2 * visit_index + 1`.
pub fn visit_point(vars: &[Var], visit_index: usize) -> (p: AdPoint)
    requires
        2 * visit_index + 1 < vars@.len(),
    ensures
        p.x == vars@[2 * visit_index as int],
        p.y == vars@[2 * visit_index + 1],
{
    let n = vars.len();
    assert(2 * visit_index + 1 < n);
    AdPoint { x: vars[visit_index * 2], y: vars[visit_index * 2 + 1] }
}

} // verus!
