//! Grouping items by a pair of text keys in key order, and ordering indices
//! by a numeric key. Stop groups, corridor groups and the label order are
//! built from these.
use vstd::prelude::*;
use crate::text::{
    lex_compare, lex_lt, lemma_lex_asymmetric, lemma_lex_irreflexive, lemma_lex_total,
    lemma_lex_transitive, LexOrder,
};

verus! {

// ---------------------------------------------------------------------------
// Pairs of text keys
// ---------------------------------------------------------------------------

/// Lexicographic order on pairs of character sequences.
pub open spec fn pair_lt(x: (Seq<char>, Seq<char>), y: (Seq<char>, Seq<char>)) -> bool {
    lex_lt(x.0, y.0) || (x.0 == y.0 && lex_lt(x.1, y.1))
}

pub proof fn lemma_pair_irreflexive(x: (Seq<char>, Seq<char>))
    ensures
        !pair_lt(x, x),
{
    lemma_lex_irreflexive(x.0);
    lemma_lex_irreflexive(x.1);
}

pub proof fn lemma_pair_transitive(
    x: (Seq<char>, Seq<char>),
    y: (Seq<char>, Seq<char>),
    z: (Seq<char>, Seq<char>),
)
    requires
        pair_lt(x, y),
        pair_lt(y, z),
    ensures
        pair_lt(x, z),
{
    if lex_lt(x.0, y.0) && lex_lt(y.0, z.0) {
        lemma_lex_transitive(x.0, y.0, z.0);
    } else if x.0 == y.0 && y.0 == z.0 {
        lemma_lex_transitive(x.1, y.1, z.1);
    }
}

pub proof fn lemma_pair_total(x: (Seq<char>, Seq<char>), y: (Seq<char>, Seq<char>))
    ensures
        pair_lt(x, y) || pair_lt(y, x) || x == y,
{
    lemma_lex_total(x.0, y.0);
    lemma_lex_total(x.1, y.1);
}

pub proof fn lemma_pair_asymmetric(x: (Seq<char>, Seq<char>), y: (Seq<char>, Seq<char>))
    requires
        pair_lt(x, y),
    ensures
        !pair_lt(y, x),
        x != y,
{
    lemma_pair_irreflexive(x);
    if pair_lt(y, x) {
        lemma_pair_transitive(x, y, x);
    }
}

/// The meaning of a comparison result for two key pairs.
pub open spec fn pair_order_of(x: (Seq<char>, Seq<char>), y: (Seq<char>, Seq<char>)) -> LexOrder {
    if x == y {
        LexOrder::Equal
    } else if pair_lt(x, y) {
        LexOrder::Less
    } else {
        LexOrder::Greater
    }
}

pub open spec fn key_view(k: (Vec<char>, Vec<char>)) -> (Seq<char>, Seq<char>) {
    (k.0@, k.1@)
}

pub open spec fn key_views(keys: Seq<(Vec<char>, Vec<char>)>) -> Seq<(Seq<char>, Seq<char>)> {
    keys.map_values(|k: (Vec<char>, Vec<char>)| key_view(k))
}

/// Compares two key pairs, first component first.
pub fn pair_compare(x: &(Vec<char>, Vec<char>), y: &(Vec<char>, Vec<char>)) -> (r: LexOrder)
    ensures
        r == pair_order_of(key_view(*x), key_view(*y)),
{
    let first = lex_compare(&x.0, &y.0);
    match first {
        LexOrder::Equal => {
            let second = lex_compare(&x.1, &y.1);
            proof {
                lemma_lex_irreflexive(x.0@);
                if second == LexOrder::Equal {
                    assert(key_view(*x) == key_view(*y));
                }
            }
            second
        },
        _ => {
            proof {
                lemma_lex_total(x.0@, y.0@);
                if first == LexOrder::Less {
                    lemma_lex_asymmetric(x.0@, y.0@);
                } else {
                    lemma_lex_irreflexive(x.0@);
                }
            }
            first
        },
    }
}

// ---------------------------------------------------------------------------
// Grouping by key
// ---------------------------------------------------------------------------

/// Indices below `n`, ascending, of the included items whose key is `k`.
pub open spec fn matching(
    kv: Seq<(Seq<char>, Seq<char>)>,
    inc: Seq<bool>,
    k: (Seq<char>, Seq<char>),
    n: int,
) -> Seq<usize>
    decreases n,
{
    if n <= 0 {
        Seq::empty()
    } else if inc[n - 1] && kv[n - 1] == k {
        matching(kv, inc, k, n - 1).push((n - 1) as usize)
    } else {
        matching(kv, inc, k, n - 1)
    }
}

/// The members of `matching` are the included items below `n` with key
/// `k`, in strictly increasing order.
pub proof fn lemma_matching_members(
    kv: Seq<(Seq<char>, Seq<char>)>,
    inc: Seq<bool>,
    k: (Seq<char>, Seq<char>),
    n: int,
)
    requires
        0 <= n <= usize::MAX + 1,
    ensures
        forall|t: int|
            0 <= t < matching(kv, inc, k, n).len() ==> {
                let j = #[trigger] matching(kv, inc, k, n)[t] as int;
                0 <= j < n && inc[j] && kv[j] == k
            },
        forall|t1: int, t2: int|
            0 <= t1 < t2 < matching(kv, inc, k, n).len() ==> #[trigger] matching(kv, inc, k, n)[t1]
                < #[trigger] matching(kv, inc, k, n)[t2],
        forall|j: int|
            0 <= j < n && inc[j] && kv[j] == k ==> #[trigger] matching(kv, inc, k, n).contains(
                j as usize,
            ),
    decreases n,
{
    if n > 0 {
        lemma_matching_members(kv, inc, k, n - 1);
        let prev = matching(kv, inc, k, n - 1);
        let cur = matching(kv, inc, k, n);
        if inc[n - 1] && kv[n - 1] == k {
            assert forall|t: int| 0 <= t < cur.len() implies {
                let j = #[trigger] cur[t] as int;
                0 <= j < n && inc[j] && kv[j] == k
            } by {
                if t < prev.len() {
                    assert(cur[t] == prev[t]);
                }
            }
            assert forall|t1: int, t2: int| 0 <= t1 < t2 < cur.len() implies #[trigger] cur[t1]
                < #[trigger] cur[t2] by {
                if t2 < prev.len() {
                    assert(cur[t1] == prev[t1] && cur[t2] == prev[t2]);
                } else {
                    assert(cur[t1] == prev[t1]);
                    assert((prev[t1] as int) < n - 1);
                }
            }
            assert forall|j: int| 0 <= j < n && inc[j] && kv[j] == k implies #[trigger] cur.contains(
                j as usize,
            ) by {
                if j < n - 1 {
                    assert(prev.contains(j as usize));
                    let t = choose|t: int| 0 <= t < prev.len() && prev[t] == j as usize;
                    assert(cur[t] == j as usize);
                } else {
                    assert(cur[prev.len() as int] == j as usize);
                }
            }
        } else {
            assert forall|j: int| 0 <= j < n && inc[j] && kv[j] == k implies #[trigger] cur.contains(
                j as usize,
            ) by {
                assert(j < n - 1);
                assert(prev.contains(j as usize));
            }
        }
    }
}

pub proof fn lemma_matching_empty(
    kv: Seq<(Seq<char>, Seq<char>)>,
    inc: Seq<bool>,
    k: (Seq<char>, Seq<char>),
    n: int,
)
    requires
        forall|j: int| 0 <= j < n && inc[j] ==> kv[j] != k,
    ensures
        matching(kv, inc, k, n).len() == 0,
    decreases n,
{
    if n > 0 {
        lemma_matching_empty(kv, inc, k, n - 1);
    }
}

/// The key of group `g`: the key of its first member.
pub open spec fn group_key(
    kv: Seq<(Seq<char>, Seq<char>)>,
    groups: Seq<Vec<usize>>,
    g: int,
) -> (Seq<char>, Seq<char>) {
    kv[groups[g]@[0] as int]
}

/// `groups` partitions the included items below `n` by key: one nonempty
/// group per key, in increasing key order, each holding all items with its
/// key in increasing index order.
pub open spec fn grouped_by_key(
    kv: Seq<(Seq<char>, Seq<char>)>,
    inc: Seq<bool>,
    groups: Seq<Vec<usize>>,
    n: int,
) -> bool {
    &&& forall|g: int|
        0 <= g < groups.len() ==> #[trigger] groups[g]@.len() > 0 && groups[g]@ == matching(
            kv,
            inc,
            group_key(kv, groups, g),
            n,
        )
    &&& forall|g1: int, g2: int|
        0 <= g1 < g2 < groups.len() ==> pair_lt(
            #[trigger] group_key(kv, groups, g1),
            #[trigger] group_key(kv, groups, g2),
        )
    &&& forall|j: int|
        0 <= j < n && inc[j] ==> exists|g: int|
            0 <= g < groups.len() && #[trigger] group_key(kv, groups, g) == kv[j]
}

/// Groups the included items by key, in increasing key order; each group
/// lists its items in increasing index order.
pub fn group_keys(keys: &Vec<(Vec<char>, Vec<char>)>, selected: &Vec<bool>) -> (groups: Vec<
    Vec<usize>,
>)
    requires
        keys@.len() == selected@.len(),
    ensures
        grouped_by_key(key_views(keys@), selected@, groups@, keys@.len() as int),
{
    let ghost kv = key_views(keys@);
    let ghost inc = selected@;
    let n = keys.len();
    let mut groups: Vec<Vec<usize>> = Vec::new();
    let mut i: usize = 0;
    while i < n
        invariant
            n == keys@.len(),
            n == inc.len(),
            inc == selected@,
            kv == key_views(keys@),
            i <= n,
            grouped_by_key(kv, inc, groups@, i as int),
            forall|g: int, t: int|
                0 <= g < groups@.len() && 0 <= t < groups@[g]@.len() ==> #[trigger] groups@[g]@[t] < i,
        decreases n - i,
    {
        proof {
            assert(kv[i as int] == key_view(keys@[i as int]));
        }
        if selected[i] {
            let len = groups.len();
            let mut p: usize = 0;
            let mut found = false;
            let mut done = false;
            while p < len && !done
                invariant
                    len == groups@.len(),
                    p <= len,
                    forall|g: int| 0 <= g < groups@.len() ==> #[trigger] groups@[g]@.len() > 0,
                    forall|g: int| 0 <= g < p ==> pair_lt(#[trigger] group_key(kv, groups@, g), kv[i as int]),
                    done ==> p < len,
                    found ==> done,
                    forall|g: int, t: int|
                        0 <= g < groups@.len() && 0 <= t < groups@[g]@.len() ==> #[trigger] groups@[g]@[t] < i,
                    done && found ==> group_key(kv, groups@, p as int) == kv[i as int],
                    done && !found ==> pair_lt(kv[i as int], group_key(kv, groups@, p as int)),
                    kv == key_views(keys@),
                    i < n,
                    n == keys@.len(),
                decreases (len - p) + (if done { 0int } else { 1int }),
            {
                let first = groups[p][0];
                proof {
                    assert(kv[first as int] == key_view(keys@[first as int]));
                    assert(group_key(kv, groups@, p as int) == kv[first as int]);
                }
                let c = pair_compare(&keys[first], &keys[i]);
                match c {
                    LexOrder::Less => {
                        p = p + 1;
                    },
                    LexOrder::Equal => {
                        found = true;
                        done = true;
                    },
                    LexOrder::Greater => {
                        proof {
                            lemma_pair_total(kv[first as int], kv[i as int]);
                        }
                        done = true;
                    },
                }
            }
            let ghost old_groups = groups@;
            let ghost key_i = kv[i as int];
            if found {
                let mut members = groups.remove(p);
                members.push(i);
                groups.insert(p, members);
                proof {
                    assert(groups@ =~= old_groups.update(p as int, groups@[p as int]));
                    assert(groups@[p as int]@ == old_groups[p as int]@.push(i));
                    assert(group_key(kv, groups@, p as int) == key_i);
                    assert forall|g: int| 0 <= g < groups@.len() implies #[trigger] group_key(kv, groups@, g)
                        == group_key(kv, old_groups, g) by {
                        if g == p as int {
                            assert(groups@[g]@[0] == old_groups[g]@[0]);
                        }
                    }
                    assert forall|g: int|
                        0 <= g < groups@.len() implies #[trigger] groups@[g]@.len() > 0 && groups@[g]@
                        == matching(kv, inc, group_key(kv, groups@, g), i + 1) by {
                        let k = group_key(kv, groups@, g);
                        if g == p as int {
                            assert(matching(kv, inc, k, i + 1) == matching(kv, inc, k, i as int).push(i));
                        } else {
                            if g < p {
                                lemma_pair_asymmetric(group_key(kv, old_groups, g), key_i);
                            } else {
                                lemma_pair_asymmetric(key_i, group_key(kv, old_groups, g));
                            }
                            assert(k != key_i);
                            assert(matching(kv, inc, k, i + 1) == matching(kv, inc, k, i as int));
                        }
                    }
                    assert forall|j: int| 0 <= j < i + 1 && inc[j] implies exists|g: int|
                        0 <= g < groups@.len() && #[trigger] group_key(kv, groups@, g) == kv[j] by {
                        if j < i {
                            let g = choose|g: int|
                                0 <= g < old_groups.len() && #[trigger] group_key(kv, old_groups, g) == kv[j];
                            assert(group_key(kv, groups@, g) == kv[j]);
                        } else {
                            assert(group_key(kv, groups@, p as int) == kv[j]);
                        }
                    }
                }
            } else {
                let mut members: Vec<usize> = Vec::new();
                members.push(i);
                groups.insert(p, members);
                proof {
                    // Items before `i` with the same key would have a group,
                    // and every group differs from key_i.
                    assert forall|g: int| 0 <= g < old_groups.len() implies #[trigger] group_key(
                        kv,
                        old_groups,
                        g,
                    ) != key_i by {
                        if g < p {
                            lemma_pair_asymmetric(group_key(kv, old_groups, g), key_i);
                        } else if g == p as int {
                            lemma_pair_asymmetric(key_i, group_key(kv, old_groups, g));
                        } else {
                            assert(pair_lt(group_key(kv, old_groups, p as int), group_key(kv, old_groups, g)));
                            lemma_pair_transitive(key_i, group_key(kv, old_groups, p as int), group_key(kv, old_groups, g));
                            lemma_pair_asymmetric(key_i, group_key(kv, old_groups, g));
                        }
                    }
                    assert forall|j: int| 0 <= j < i && inc[j] implies kv[j] != key_i by {
                        let g = choose|g: int|
                            0 <= g < old_groups.len() && #[trigger] group_key(kv, old_groups, g) == kv[j];
                    }
                    lemma_matching_empty(kv, inc, key_i, i as int);
                    assert(matching(kv, inc, key_i, i + 1) =~= seq![i]);
                    assert forall|g: int| 0 <= g < groups@.len() implies #[trigger] group_key(kv, groups@, g)
                        == if g < p {
                        group_key(kv, old_groups, g)
                    } else if g == p {
                        key_i
                    } else {
                        group_key(kv, old_groups, g - 1)
                    } by {
                        if g < p {
                            assert(groups@[g] == old_groups[g]);
                        } else if g > p {
                            assert(groups@[g] == old_groups[g - 1]);
                        }
                    }
                    assert forall|g: int|
                        0 <= g < groups@.len() implies #[trigger] groups@[g]@.len() > 0 && groups@[g]@
                        == matching(kv, inc, group_key(kv, groups@, g), i + 1) by {
                        let k = group_key(kv, groups@, g);
                        if g == p as int {
                            assert(groups@[g]@ =~= seq![i]);
                        } else {
                            let og = if g < p { g } else { g - 1 };
                            assert(groups@[g] == old_groups[og]);
                            assert(k == group_key(kv, old_groups, og));
                            assert(k != key_i);
                            assert(matching(kv, inc, k, i + 1) == matching(kv, inc, k, i as int));
                        }
                    }
                    assert forall|g1: int, g2: int| 0 <= g1 < g2 < groups@.len() implies pair_lt(
                        #[trigger] group_key(kv, groups@, g1),
                        #[trigger] group_key(kv, groups@, g2),
                    ) by {
                        let k1 = group_key(kv, groups@, g1);
                        let k2 = group_key(kv, groups@, g2);
                        if g2 < p {
                            assert(k1 == group_key(kv, old_groups, g1));
                            assert(k2 == group_key(kv, old_groups, g2));
                        } else if g2 == p {
                            assert(k1 == group_key(kv, old_groups, g1));
                        } else if g1 > p {
                            assert(k1 == group_key(kv, old_groups, g1 - 1));
                            assert(k2 == group_key(kv, old_groups, g2 - 1));
                        } else if g1 == p {
                            assert(k2 == group_key(kv, old_groups, g2 - 1));
                            if g2 - 1 > p {
                                assert(pair_lt(group_key(kv, old_groups, p as int), group_key(kv, old_groups, g2 - 1)));
                                lemma_pair_transitive(key_i, group_key(kv, old_groups, p as int), group_key(kv, old_groups, g2 - 1));
                            }
                        } else {
                            assert(k1 == group_key(kv, old_groups, g1));
                            assert(k2 == group_key(kv, old_groups, g2 - 1));
                        }
                    }
                    assert forall|j: int| 0 <= j < i + 1 && inc[j] implies exists|g: int|
                        0 <= g < groups@.len() && #[trigger] group_key(kv, groups@, g) == kv[j] by {
                        if j < i {
                            let g = choose|g: int|
                                0 <= g < old_groups.len() && #[trigger] group_key(kv, old_groups, g) == kv[j];
                            if g < p {
                                assert(group_key(kv, groups@, g) == kv[j]);
                            } else {
                                assert(group_key(kv, groups@, g + 1) == kv[j]);
                            }
                        } else {
                            assert(group_key(kv, groups@, p as int) == kv[j]);
                        }
                    }
                }
            }
        } else {
            proof {
                assert forall|g: int| 0 <= g < groups@.len() implies #[trigger] groups@[g]@.len() > 0
                    && groups@[g]@ == matching(kv, inc, group_key(kv, groups@, g), i + 1) by {
                    assert(matching(kv, inc, group_key(kv, groups@, g), i + 1) == matching(
                        kv,
                        inc,
                        group_key(kv, groups@, g),
                        i as int,
                    ));
                }
            }
        }
        i = i + 1;
    }
    groups
}

// ---------------------------------------------------------------------------
// Ordering indices by a numeric key
// ---------------------------------------------------------------------------

/// Item `i` comes before item `j`: smaller key, the index breaking ties.
pub open spec fn key_before(keys: Seq<(u128, u128)>, i: usize, j: usize) -> bool {
    let a = keys[i as int];
    let b = keys[j as int];
    a.0 < b.0 || (a.0 == b.0 && a.1 < b.1) || (a.0 == b.0 && a.1 == b.1 && i < j)
}

/// The indices are listed in strictly increasing `key_before` order.
pub open spec fn sorted_by_key(keys: Seq<(u128, u128)>, s: Seq<usize>) -> bool {
    forall|a: int, b: int| 0 <= a < b < s.len() ==> key_before(keys, #[trigger] s[a], #[trigger] s[b])
}

fn item_before(keys: &Vec<(u128, u128)>, i: usize, j: usize) -> (r: bool)
    requires
        i < keys@.len(),
        j < keys@.len(),
    ensures
        r == key_before(keys@, i, j),
{
    let a = keys[i];
    let b = keys[j];
    a.0 < b.0 || (a.0 == b.0 && a.1 < b.1) || (a.0 == b.0 && a.1 == b.1 && i < j)
}

/// Reorders distinct indices by key, smaller keys first and smaller index
/// first among equal keys.
pub fn sort_indices_by_key(idx: &Vec<usize>, keys: &Vec<(u128, u128)>) -> (res: Vec<usize>)
    requires
        forall|t: int| 0 <= t < idx@.len() ==> #[trigger] idx@[t] < keys@.len(),
        forall|a: int, b: int| 0 <= a < b < idx@.len() ==> #[trigger] idx@[a] != #[trigger] idx@[b],
    ensures
        res@.len() == idx@.len(),
        forall|x: usize| #[trigger] res@.contains(x) <==> idx@.contains(x),
        sorted_by_key(keys@, res@),
{
    let n = idx.len();
    let mut res: Vec<usize> = Vec::new();
    let mut t: usize = 0;
    while t < n
        invariant
            n == idx@.len(),
            t <= n,
            forall|u: int| 0 <= u < idx@.len() ==> #[trigger] idx@[u] < keys@.len(),
            forall|a: int, b: int| 0 <= a < b < idx@.len() ==> #[trigger] idx@[a] != #[trigger] idx@[b],
            res@.len() == t,
            forall|x: usize| #[trigger] res@.contains(x) <==> idx@.take(t as int).contains(x),
            sorted_by_key(keys@, res@),
        decreases n - t,
    {
        let x = idx[t];
        proof {
            assert forall|q: int| 0 <= q < res@.len() implies #[trigger] res@[q] != x && res@[q] < keys@.len() by {
                assert(res@.contains(res@[q]));
                let tk = idx@.take(t as int);
                let u = choose|u: int| 0 <= u < tk.len() && #[trigger] tk[u] == res@[q];
                assert(idx@[u] == res@[q]);
            }
        }
        let len = res.len();
        let mut p: usize = 0;
        while p < len && item_before(keys, res[p], x)
            invariant
                len == res@.len(),
                p <= len,
                x < keys@.len(),
                forall|q: int| 0 <= q < res@.len() ==> #[trigger] res@[q] < keys@.len(),
                forall|q: int| 0 <= q < p ==> key_before(keys@, #[trigger] res@[q], x),
            decreases len - p,
        {
            p = p + 1;
        }
        let ghost old_res = res@;
        res.insert(p, x);
        proof {
            assert(idx@.take(t + 1) =~= idx@.take(t as int).push(x));
            assert forall|y: usize| #[trigger] res@.contains(y) <==> idx@.take(t + 1).contains(y) by {
                if res@.contains(y) {
                    let q = choose|q: int| 0 <= q < res@.len() && res@[q] == y;
                    if q < p {
                        assert(old_res[q] == y);
                        assert(old_res.contains(y));
                    } else if q > p {
                        assert(old_res[q - 1] == y);
                        assert(old_res.contains(y));
                    }
                    assert(idx@.take(t + 1)[t as int] == x);
                }
                if idx@.take(t + 1).contains(y) {
                    let tk = idx@.take(t + 1);
                    let u = choose|u: int| 0 <= u < tk.len() && #[trigger] tk[u] == y;
                    if u < t {
                        assert(idx@.take(t as int)[u] == y);
                        assert(old_res.contains(y));
                        let q = choose|q: int| 0 <= q < old_res.len() && old_res[q] == y;
                        if q < p {
                            assert(res@[q] == y);
                        } else {
                            assert(res@[q + 1] == y);
                        }
                    } else {
                        assert(res@[p as int] == x);
                    }
                }
            }
            assert forall|a: int, b: int| 0 <= a < b < res@.len() implies key_before(
                keys@,
                #[trigger] res@[a],
                #[trigger] res@[b],
            ) by {
                if b < p {
                    assert(res@[a] == old_res[a] && res@[b] == old_res[b]);
                } else if b == p {
                    assert(res@[a] == old_res[a]);
                } else if a > p {
                    assert(res@[a] == old_res[a - 1] && res@[b] == old_res[b - 1]);
                } else if a == p {
                    assert(res@[b] == old_res[b - 1]);
                    assert(!key_before(keys@, old_res[p as int], x));
                    assert(old_res[p as int] != x);
                    if b - 1 > p {
                        assert(key_before(keys@, old_res[p as int], old_res[b - 1]));
                    }
                } else {
                    assert(res@[a] == old_res[a]);
                    assert(res@[b] == old_res[b - 1]);
                    assert(key_before(keys@, old_res[a], x));
                    assert(!key_before(keys@, old_res[p as int], x));
                    assert(old_res[p as int] != x);
                    if b - 1 > p {
                        assert(key_before(keys@, old_res[p as int], old_res[b - 1]));
                    }
                }
            }
        }
        t = t + 1;
    }
    assert(idx@.take(n as int) =~= idx@);
    res
}

// ---------------------------------------------------------------------------
// Uniqueness of sorted listings
// ---------------------------------------------------------------------------

/// `lt` is a strict order.
pub open spec fn strict_order<A>(lt: spec_fn(A, A) -> bool) -> bool {
    &&& forall|x: A| !#[trigger] lt(x, x)
    &&& forall|x: A, y: A, z: A| #[trigger] lt(x, y) && #[trigger] lt(y, z) ==> lt(x, z)
}

/// `s` is listed in strictly increasing `lt` order.
pub open spec fn strictly_sorted<A>(s: Seq<A>, lt: spec_fn(A, A) -> bool) -> bool {
    forall|i: int, j: int| 0 <= i < j < s.len() ==> lt(#[trigger] s[i], #[trigger] s[j])
}

/// Two strictly sorted listings of the same elements are the same listing.
pub proof fn lemma_sorted_listing_unique<A>(s1: Seq<A>, s2: Seq<A>, lt: spec_fn(A, A) -> bool)
    requires
        strict_order(lt),
        strictly_sorted(s1, lt),
        strictly_sorted(s2, lt),
        forall|x: A| s1.contains(x) <==> s2.contains(x),
    ensures
        s1 == s2,
    decreases s1.len(),
{
    if s1.len() == 0 {
        if s2.len() > 0 {
            assert(s2.contains(s2[0]));
        }
        assert(s1 =~= s2);
    } else if s2.len() == 0 {
        assert(s1.contains(s1[0]));
    } else {
        let a = s1[0];
        let b = s2[0];
        assert(s1.contains(a));
        assert(s2.contains(b));
        if a != b {
            let k = choose|k: int| 0 <= k < s2.len() && s2[k] == a;
            let m = choose|m: int| 0 <= m < s1.len() && s1[m] == b;
            assert(k > 0 && m > 0);
            assert(lt(b, a));
            assert(lt(a, b));
            assert(lt(a, a));
        }
        let t1 = s1.drop_first();
        let t2 = s2.drop_first();
        assert forall|x: A| t1.contains(x) <==> t2.contains(x) by {
            if t1.contains(x) {
                let i = choose|i: int| 0 <= i < t1.len() && t1[i] == x;
                assert(s1[i + 1] == x);
                assert(lt(a, x));
                assert(s1.contains(x));
                let j = choose|j: int| 0 <= j < s2.len() && s2[j] == x;
                if j == 0 {
                    assert(lt(x, x));
                }
                assert(t2[j - 1] == x);
            }
            if t2.contains(x) {
                let i = choose|i: int| 0 <= i < t2.len() && t2[i] == x;
                assert(s2[i + 1] == x);
                assert(lt(b, x));
                assert(s2.contains(x));
                let j = choose|j: int| 0 <= j < s1.len() && s1[j] == x;
                if j == 0 {
                    assert(lt(x, x));
                }
                assert(t1[j - 1] == x);
            }
        }
        assert forall|i: int, j: int| 0 <= i < j < t1.len() implies lt(#[trigger] t1[i], #[trigger] t1[j]) by {
            assert(t1[i] == s1[i + 1] && t1[j] == s1[j + 1]);
        }
        assert forall|i: int, j: int| 0 <= i < j < t2.len() implies lt(#[trigger] t2[i], #[trigger] t2[j]) by {
            assert(t2[i] == s2[i + 1] && t2[j] == s2[j + 1]);
        }
        lemma_sorted_listing_unique(t1, t2, lt);
        assert(a == b);
        assert(t1 == t2);
        assert forall|i: int| 0 <= i < s1.len() implies s1[i] == s2[i] by {
            if i > 0 {
                assert(s1[i] == t1[i - 1]);
                assert(s2[i] == t2[i - 1]);
            }
        }
        assert(s1 =~= s2);
    }
}

} // verus!
