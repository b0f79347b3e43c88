//! The level planner: a pure function from a store to its level partition.
//!
//! An item with no dependencies has level 1; otherwise its level is one more
//! than the largest level among its dependencies. Because every edge points
//! at an earlier insertion, one pass over the table in insertion order
//! settles every level. The partition groups item ids by level, ascending;
//! it is a function of the dependency structure alone, so the same store
//! always yields the same partition.

use crate::store::{AddCall, GraphStore, StoreModel, replay, store_wf};
use vstd::prelude::*;

verus! {

/// The larger of two naturals.
pub open spec fn nat_max(a: nat, b: nat) -> nat {
    if a > b {
        a
    } else {
        b
    }
}

/// Largest value of `levels` among the first `k` positions that the edge row
/// `es` names; 0 when it names none.
pub open spec fn deps_level_max(levels: Seq<nat>, es: Seq<usize>, k: int) -> nat
    decreases k,
{
    if k <= 0 {
        0
    } else {
        let d = es[k - 1] as int;
        let l: nat = if 0 <= d < levels.len() {
            levels[d]
        } else {
            0
        };
        nat_max(l, deps_level_max(levels, es, k - 1))
    }
}

/// The levels of the first `n` items, each defined from the levels of its
/// (strictly earlier) dependencies.
pub open spec fn levels_upto<P>(m: StoreModel<P>, n: int) -> Seq<nat>
    decreases n,
{
    if n <= 0 {
        Seq::empty()
    } else {
        let pre = levels_upto(m, n - 1);
        pre.push(1 + deps_level_max(pre, m.edges[n - 1], m.edges[n - 1].len() as int))
    }
}

/// The level of item `i`: 1 when it has no dependencies, otherwise one more
/// than the largest level among its dependencies.
pub open spec fn level_of<P>(m: StoreModel<P>, i: int) -> nat {
    levels_upto(m, m.items.len() as int)[i]
}

/// Largest level among the dependencies of item `i`.
pub open spec fn dep_levels_max<P>(m: StoreModel<P>, i: int) -> nat {
    deps_level_max(
        levels_upto(m, m.items.len() as int),
        m.edges[i],
        m.edges[i].len() as int,
    )
}

/// Largest level among the first `n` items; 0 for an empty store.
pub open spec fn max_level_upto<P>(m: StoreModel<P>, n: int) -> nat
    decreases n,
{
    if n <= 0 {
        0
    } else {
        nat_max(level_of(m, n - 1), max_level_upto(m, n - 1))
    }
}

/// Largest level in the store; 0 for an empty store.
pub open spec fn max_level<P>(m: StoreModel<P>) -> nat {
    max_level_upto(m, m.items.len() as int)
}

/// Ids of the items among the first `n` whose level is `lev`, in insertion
/// order.
pub open spec fn ids_at_level_upto<P>(m: StoreModel<P>, n: int, lev: nat) -> Seq<u64>
    decreases n,
{
    if n <= 0 {
        Seq::empty()
    } else {
        let pre = ids_at_level_upto(m, n - 1, lev);
        if level_of(m, n - 1) == lev {
            pre.push(m.items[n - 1].id)
        } else {
            pre
        }
    }
}

/// The level partition: entry `k` holds the ids of level `k + 1`, so the
/// groups come in ascending level order.
pub open spec fn level_partition<P>(m: StoreModel<P>) -> Seq<Seq<u64>> {
    Seq::new(
        max_level(m),
        |k: int| ids_at_level_upto(m, m.items.len() as int, (k + 1) as nat),
    )
}

proof fn lemma_levels_upto_len<P>(m: StoreModel<P>, n: int)
    requires
        n >= 0,
    ensures
        levels_upto(m, n).len() == n,
    decreases n,
{
    if n > 0 {
        lemma_levels_upto_len(m, n - 1);
    }
}

/// `deps_level_max` reads `levels` only at the positions the edge row names.
proof fn lemma_dlm_agree(l1: Seq<nat>, l2: Seq<nat>, es: Seq<usize>, k: int)
    requires
        forall|t: int|
            0 <= t < k ==> (#[trigger] es[t]) < l1.len() && es[t] < l2.len() && l1[es[t] as int]
                == l2[es[t] as int],
    ensures
        deps_level_max(l1, es, k) == deps_level_max(l2, es, k),
    decreases k,
{
    if k > 0 {
        lemma_dlm_agree(l1, l2, es, k - 1);
    }
}

/// The maximum dominates every level the edge row names.
proof fn lemma_dlm_ge(levels: Seq<nat>, es: Seq<usize>, k: int, t: int)
    requires
        0 <= t < k,
        es[t] < levels.len(),
    ensures
        deps_level_max(levels, es, k) >= levels[es[t] as int],
    decreases k,
{
    if t < k - 1 {
        lemma_dlm_ge(levels, es, k - 1, t);
    }
}

/// A nonempty maximum is attained at some named position.
proof fn lemma_dlm_witness(levels: Seq<nat>, es: Seq<usize>, k: int)
    requires
        k > 0,
        forall|t: int| 0 <= t < k ==> (#[trigger] es[t]) < levels.len(),
    ensures
        exists|t: int|
            0 <= t < k && deps_level_max(levels, es, k) == levels[#[trigger] es[t] as int],
    decreases k,
{
    let d = es[k - 1] as int;
    if k == 1 {
        assert(deps_level_max(levels, es, 0) == 0);
        assert(0 <= d < levels.len());
        assert(deps_level_max(levels, es, k) == nat_max(levels[d], 0));
        assert(deps_level_max(levels, es, k) == levels[d]);
    } else {
        lemma_dlm_witness(levels, es, k - 1);
        if deps_level_max(levels, es, k) != deps_level_max(levels, es, k - 1) {
            assert(deps_level_max(levels, es, k) == levels[d]);
        }
    }
}

/// Earlier prefixes of the level table agree with later ones.
proof fn lemma_levels_upto_prefix<P>(m: StoreModel<P>, n1: int, n2: int)
    requires
        store_wf(m),
        0 <= n1 <= n2 <= m.items.len(),
    ensures
        forall|i: int| 0 <= i < n1 ==> levels_upto(m, n2)[i] == levels_upto(m, n1)[i],
    decreases n2 - n1,
{
    lemma_levels_upto_len(m, n1);
    lemma_levels_upto_len(m, n2);
    if n2 > n1 {
        lemma_levels_upto_prefix(m, n1, n2 - 1);
        lemma_levels_upto_len(m, n2 - 1);
    }
}

/// The level recurrence, stated over the finished level table: level 1
/// with no dependencies, otherwise one more than the largest dependency
/// level, which every dependency's level lies strictly below and some
/// dependency's level attains.
pub proof fn lemma_level_rule<P>(m: StoreModel<P>, i: int)
    requires
        store_wf(m),
        0 <= i < m.items.len(),
    ensures
        level_of(m, i) == 1 + dep_levels_max(m, i),
        m.edges[i].len() == 0 ==> level_of(m, i) == 1,
        forall|k: int|
            0 <= k < m.edges[i].len() ==> level_of(m, (#[trigger] m.edges[i][k]) as int) < level_of(
                m,
                i,
            ),
        m.edges[i].len() > 0 ==> exists|k: int|
            0 <= k < m.edges[i].len() && level_of(m, i) == 1 + level_of(
                m,
                (#[trigger] m.edges[i][k]) as int,
            ),
{
    let n = m.items.len() as int;
    let es = m.edges[i];
    let full = levels_upto(m, n);
    let pre = levels_upto(m, i);
    lemma_levels_upto_len(m, n);
    lemma_levels_upto_len(m, i);
    lemma_levels_upto_len(m, i + 1);
    lemma_levels_upto_prefix(m, i + 1, n);
    lemma_levels_upto_prefix(m, i, i + 1);
    lemma_levels_upto_prefix(m, i, n);
    assert(level_of(m, i) == levels_upto(m, i + 1)[i]);
    assert(levels_upto(m, i + 1)[i] == 1 + deps_level_max(pre, es, es.len() as int));
    assert forall|t: int| 0 <= t < es.len() as int implies (#[trigger] es[t]) < pre.len()
        && es[t] < full.len() && pre[es[t] as int] == full[es[t] as int] by {
        assert(es[t] < i);
    }
    lemma_dlm_agree(pre, full, es, es.len() as int);
    assert(level_of(m, i) == 1 + dep_levels_max(m, i));
    assert forall|k: int|
        0 <= k < es.len() implies level_of(m, (#[trigger] es[k]) as int) < level_of(m, i) by {
        lemma_dlm_ge(full, es, es.len() as int, k);
        assert(full[es[k] as int] == level_of(m, es[k] as int));
    }
    if es.len() > 0 {
        lemma_dlm_witness(full, es, es.len() as int);
    }
}

/// Levels are positive and at most one past the item's position.
pub proof fn lemma_level_bound<P>(m: StoreModel<P>, i: int)
    requires
        store_wf(m),
        0 <= i < m.items.len(),
    ensures
        1 <= level_of(m, i) <= i + 1,
    decreases i,
{
    lemma_level_rule(m, i);
    let es = m.edges[i];
    if es.len() == 0 {
    } else {
        let k = choose|k: int|
            0 <= k < es.len() && level_of(m, i) == 1 + level_of(m, (#[trigger] es[k]) as int);
        lemma_level_bound(m, es[k] as int);
    }
}

/// Every level is at most the store's maximum level.
pub proof fn lemma_level_le_max<P>(m: StoreModel<P>, n: int, i: int)
    requires
        0 <= i < n,
    ensures
        level_of(m, i) <= max_level_upto(m, n),
    decreases n,
{
    if i < n - 1 {
        lemma_level_le_max(m, n - 1, i);
    }
}

/// Membership in a level group: exactly the ids of the items with that
/// level, and the group repeats no position.
proof fn lemma_ids_membership<P>(m: StoreModel<P>, n: int, lev: nat)
    requires
        0 <= n <= m.items.len(),
    ensures
        forall|id: u64|
            ids_at_level_upto(m, n, lev).contains(id) <==> exists|i: int|
                0 <= i < n && (#[trigger] m.items[i].id) == id && level_of(m, i) == lev,
    decreases n,
{
    if n > 0 {
        lemma_ids_membership(m, n - 1, lev);
        let pre = ids_at_level_upto(m, n - 1, lev);
        let cur = ids_at_level_upto(m, n, lev);
        assert forall|id: u64| cur.contains(id) implies exists|i: int|
            0 <= i < n && (#[trigger] m.items[i].id) == id && level_of(m, i) == lev by {
            if level_of(m, n - 1) == lev {
                let t = choose|t: int| 0 <= t < cur.len() && cur[t] == id;
                if t < pre.len() {
                    assert(pre.contains(id));
                } else {
                    assert(m.items[n - 1].id == id);
                }
            } else {
                assert(pre.contains(id));
            }
        }
        assert forall|id: u64|
            (exists|i: int| 0 <= i < n && (#[trigger] m.items[i].id) == id && level_of(m, i) == lev)
            implies cur.contains(id) by {
            let i = choose|i: int|
                0 <= i < n && (#[trigger] m.items[i].id) == id && level_of(m, i) == lev;
            if i < n - 1 {
                assert(pre.contains(id));
                let t = choose|t: int| 0 <= t < pre.len() && pre[t] == id;
                assert(cur[t] == id);
                assert(cur.contains(id));
            } else {
                assert(cur[cur.len() - 1] == id);
                assert(cur.contains(id));
            }
        }
    }
}

/// Each position of a level group comes from a distinct item of that level.
proof fn lemma_ids_positions<P>(m: StoreModel<P>, n: int, lev: nat)
    requires
        store_wf(m),
        0 <= n <= m.items.len(),
    ensures
        forall|t: int|
            #![trigger ids_at_level_upto(m, n, lev)[t]]
            0 <= t < ids_at_level_upto(m, n, lev).len() ==> exists|i: int|
                0 <= i < n && (#[trigger] m.items[i].id) == ids_at_level_upto(m, n, lev)[t]
                    && level_of(m, i) == lev,
        forall|t1: int, t2: int|
            0 <= t1 < t2 < ids_at_level_upto(m, n, lev).len() ==> ids_at_level_upto(m, n, lev)[t1]
                != ids_at_level_upto(m, n, lev)[t2],
    decreases n,
{
    if n > 0 {
        lemma_ids_positions(m, n - 1, lev);
        let pre = ids_at_level_upto(m, n - 1, lev);
        let cur = ids_at_level_upto(m, n, lev);
        if level_of(m, n - 1) == lev {
            assert forall|t: int| #![trigger cur[t]] 0 <= t < cur.len() implies exists|i: int|
                0 <= i < n && (#[trigger] m.items[i].id) == cur[t] && level_of(m, i) == lev by {
                if t < pre.len() {
                    assert(cur[t] == pre[t]);
                } else {
                    assert(cur[t] == m.items[n - 1].id);
                }
            }
            assert forall|t1: int, t2: int| 0 <= t1 < t2 < cur.len() implies cur[t1]
                != cur[t2] by {
                if t2 < pre.len() {
                } else {
                    let i = choose|i: int|
                        0 <= i < n - 1 && (#[trigger] m.items[i].id) == pre[t1] && level_of(m, i)
                            == lev;
                    assert(m.items[i].id != m.items[n - 1].id);
                }
            }
        }
    }
}

/// Law: the level partition covers every item exactly once. Each item's id
/// stands in the group of its level and in no other group, every entry of a
/// group is some item's id of that level, and no group repeats an id.
pub proof fn lemma_partition<P>(m: StoreModel<P>)
    requires
        store_wf(m),
    ensures
        forall|i: int|
            0 <= i < m.items.len() ==> 1 <= level_of(m, i) && level_of(m, i) <= level_partition(
                m,
            ).len(),
        forall|i: int|
            0 <= i < m.items.len() ==> #[trigger] level_partition(m)[level_of(m, i) - 1].contains(
                m.items[i].id,
            ),
        forall|i: int, l2: int|
            0 <= i < m.items.len() && 0 <= l2 < level_partition(m).len() && l2 != level_of(m, i) - 1
                ==> !(#[trigger] level_partition(m)[l2].contains(m.items[i].id)),
        forall|l: int, t: int|
            #![trigger level_partition(m)[l][t]]
            0 <= l < level_partition(m).len() && 0 <= t < level_partition(m)[l].len() ==> exists|
                i: int,
            |
                0 <= i < m.items.len() && (#[trigger] m.items[i].id) == level_partition(m)[l][t]
                    && level_of(m, i) == (l + 1) as nat,
        forall|l: int, t1: int, t2: int|
            #![trigger level_partition(m)[l][t1], level_partition(m)[l][t2]]
            0 <= l < level_partition(m).len() && 0 <= t1 < t2 < level_partition(m)[l].len()
                ==> level_partition(m)[l][t1] != level_partition(m)[l][t2],
{
    let n = m.items.len() as int;
    assert forall|i: int| 0 <= i < n implies 1 <= level_of(m, i) && level_of(m, i)
        <= level_partition(m).len() by {
        lemma_level_bound(m, i);
        lemma_level_le_max(m, n, i);
    }
    assert forall|i: int| 0 <= i < n implies #[trigger] level_partition(m)[level_of(m, i)
        - 1].contains(m.items[i].id) by {
        lemma_level_bound(m, i);
        lemma_level_le_max(m, n, i);
        let lev = level_of(m, i);
        lemma_ids_membership(m, n, lev);
        assert(level_partition(m)[lev - 1] == ids_at_level_upto(m, n, lev));
    }
    assert forall|i: int, l2: int|
        0 <= i < n && 0 <= l2 < level_partition(m).len() && l2 != level_of(m, i)
            - 1 implies !(#[trigger] level_partition(m)[l2].contains(m.items[i].id)) by {
        let lev2 = (l2 + 1) as nat;
        lemma_ids_membership(m, n, lev2);
        if level_partition(m)[l2].contains(m.items[i].id) {
            let j = choose|j: int|
                0 <= j < n && (#[trigger] m.items[j].id) == m.items[i].id && level_of(m, j) == lev2;
            assert(j == i);
        }
    }
    assert forall|l: int, t: int|
        #![trigger level_partition(m)[l][t]]
        0 <= l < level_partition(m).len() && 0 <= t < level_partition(m)[l].len() implies exists|
        i: int,
    |
        0 <= i < n && (#[trigger] m.items[i].id) == level_partition(m)[l][t] && level_of(m, i) == (l
            + 1) as nat by {
        lemma_ids_positions(m, n, (l + 1) as nat);
        assert(level_partition(m)[l] == ids_at_level_upto(m, n, (l + 1) as nat));
    }
    assert forall|l: int, t1: int, t2: int|
        #![trigger level_partition(m)[l][t1], level_partition(m)[l][t2]]
        0 <= l < level_partition(m).len() && 0 <= t1 < t2 < level_partition(
            m,
        )[l].len() implies level_partition(m)[l][t1] != level_partition(m)[l][t2] by {
        lemma_ids_positions(m, n, (l + 1) as nat);
        assert(level_partition(m)[l] == ids_at_level_upto(m, n, (l + 1) as nat));
    }
}

/// Law: the level partition is a function of the insertion sequence alone.
/// Two stores built by replaying the same calls are the same model, so their
/// partitions are equal: rebuilding never changes the grouping.
pub proof fn lemma_round_trip<P>(calls: Seq<AddCall<P>>, m1: StoreModel<P>, m2: StoreModel<P>)
    requires
        m1 == replay(calls),
        m2 == replay(calls),
    ensures
        m1 == m2,
        level_partition(m1) == level_partition(m2),
{
}

/// The level of every item, in table order. The values follow the level
/// recurrence exactly.
pub fn level_values<P>(store: &GraphStore<P>) -> (r: Vec<usize>)
    requires
        store.wf(),
    ensures
        r@.len() == store@.items.len(),
        forall|i: int| 0 <= i < r@.len() ==> (#[trigger] r@[i]) as nat == level_of(store@, i),
{
    let ghost m = store@;
    let ghost full = levels_upto(m, m.items.len() as int);
    proof {
        lemma_levels_upto_len(m, m.items.len() as int);
    }
    let n = store.len();
    let mut r: Vec<usize> = Vec::new();
    let mut i: usize = 0;
    while i < n
        invariant
            store.wf(),
            m == store@,
            n == m.items.len(),
            0 <= i <= n,
            r@.len() == i,
            forall|j: int| 0 <= j < i ==> (#[trigger] r@[j]) as nat == level_of(m, j),
        decreases n - i,
    {
        let dn = store.dep_count(i);
        let mut mx: usize = 0;
        let mut k: usize = 0;
        proof {
            lemma_level_rule(m, i as int);
            lemma_level_bound(m, i as int);
            assert forall|t: int| 0 <= t < m.edges[i as int].len() implies level_of(
                m,
                (#[trigger] m.edges[i as int][t]) as int,
            ) <= i by {
                lemma_level_bound(m, m.edges[i as int][t] as int);
            }
        }
        while k < dn
            invariant
                store.wf(),
                m == store@,
                n == m.items.len(),
                0 <= i < n,
                r@.len() == i,
                forall|j: int| 0 <= j < i ==> (#[trigger] r@[j]) as nat == level_of(m, j),
                dn == m.edges[i as int].len(),
                0 <= k <= dn,
                mx as nat == deps_level_max(
                    levels_upto(m, m.items.len() as int),
                    m.edges[i as int],
                    k as int,
                ),
                mx <= i,
            decreases dn - k,
        {
            let d = store.dep_index(i, k);
            let lv = r[d];
            proof {
                lemma_levels_upto_len(m, m.items.len() as int);
                lemma_level_bound(m, d as int);
                assert(m.edges[i as int][k as int] == d);
                assert(lv as nat == level_of(m, d as int));
                assert(levels_upto(m, m.items.len() as int)[d as int] == level_of(m, d as int));
            }
            if lv > mx {
                mx = lv;
            }
            proof {
                let full = levels_upto(m, m.items.len() as int);
                let es = m.edges[i as int];
                assert(0 <= (es[k as int] as int) < full.len());
                assert(deps_level_max(full, es, k + 1) == nat_max(
                    full[es[k as int] as int],
                    deps_level_max(full, es, k as int),
                ));
            }
            k += 1;
        }
        proof {
            assert(mx as nat == dep_levels_max(m, i as int));
            assert((mx + 1) as nat == level_of(m, i as int));
        }
        r.push(mx + 1);
        i += 1;
    }
    r
}

/// The level partition of a (read-only) store: entry `k` holds the ids of
/// the items of level `k + 1`, in insertion order, so the groups come in
/// ascending level order and each id appears exactly once overall.
pub fn compute_levels<P>(store: &GraphStore<P>) -> (r: Vec<Vec<u64>>)
    requires
        store.wf(),
    ensures
        r@.len() == max_level(store@),
        forall|k: int|
            0 <= k < r@.len() ==> (#[trigger] r@[k])@ == ids_at_level_upto(
                store@,
                store@.items.len() as int,
                (k + 1) as nat,
            ),
        r@.map_values(|v: Vec<u64>| v@) == level_partition(store@),
{
    let ghost m = store@;
    let n = store.len();
    let lv = level_values(store);
    let mut maxl: usize = 0;
    let mut i: usize = 0;
    while i < n
        invariant
            store.wf(),
            m == store@,
            n == m.items.len(),
            lv@.len() == n,
            forall|j: int| 0 <= j < n ==> (#[trigger] lv@[j]) as nat == level_of(m, j),
            0 <= i <= n,
            maxl as nat == max_level_upto(m, i as int),
            maxl <= n,
        decreases n - i,
    {
        proof {
            lemma_level_bound(m, i as int);
        }
        if lv[i] > maxl {
            maxl = lv[i];
        }
        i += 1;
    }
    let mut r: Vec<Vec<u64>> = Vec::new();
    let mut lev: usize = 0;
    while lev < maxl
        invariant
            store.wf(),
            m == store@,
            n == m.items.len(),
            lv@.len() == n,
            forall|j: int| 0 <= j < n ==> (#[trigger] lv@[j]) as nat == level_of(m, j),
            maxl as nat == max_level(m),
            maxl <= n,
            0 <= lev <= maxl,
            r@.len() == lev,
            forall|t: int|
                0 <= t < lev ==> (#[trigger] r@[t])@ == ids_at_level_upto(m, n as int, (t
                    + 1) as nat),
        decreases maxl - lev,
    {
        let target = lev + 1;
        let mut g: Vec<u64> = Vec::new();
        let mut j: usize = 0;
        while j < n
            invariant
                store.wf(),
                m == store@,
                n == m.items.len(),
                lv@.len() == n,
                forall|t: int| 0 <= t < n ==> (#[trigger] lv@[t]) as nat == level_of(m, t),
                0 <= j <= n,
                target == lev + 1,
                lev < maxl <= n,
                g@ == ids_at_level_upto(m, j as int, target as nat),
            decreases n - j,
        {
            if lv[j] == target {
                g.push(store.item_at(j).id);
            }
            j += 1;
        }
        r.push(g);
        lev += 1;
    }
    proof {
        assert(r@.map_values(|v: Vec<u64>| v@) =~= level_partition(m));
    }
    r
}

} // verus!
