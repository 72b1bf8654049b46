//! Stable ordering of memory items by an integer key.
use vstd::prelude::*;

use crate::domain::{items_view, MemoryItem, MemoryItemView};

verus! {

broadcast use vstd::seq_lib::group_to_multiset_ensures;

/// The orders items are listed in.
#[derive(Clone, Copy, Debug, PartialEq, Eq, Structural)]
pub enum ItemOrder {
    /// Most lifetime lapses first.
    MostLapsesFirst,
    /// Earliest next review first (most overdue first).
    SoonestDueFirst,
}

/// The key an order sorts by, ascending.
pub open spec fn order_key(m: MemoryItemView, by: ItemOrder) -> int {
    match by {
        ItemOrder::MostLapsesFirst => -(m.total_lapses as int),
        ItemOrder::SoonestDueFirst => m.next_review as int,
    }
}

/// `x` placed into `s` after every element whose key is not greater than its
/// own, and before the trailing elements with greater keys.
pub open spec fn insert_in_order(s: Seq<MemoryItemView>, x: MemoryItemView, by: ItemOrder) -> Seq<
    MemoryItemView,
>
    decreases s.len(),
{
    if s.len() == 0 || order_key(s.last(), by) <= order_key(x, by) {
        s.push(x)
    } else {
        insert_in_order(s.drop_last(), x, by).push(s.last())
    }
}

/// `s` sorted by key, stably: elements with equal keys keep their order.
pub open spec fn stable_sorted(s: Seq<MemoryItemView>, by: ItemOrder) -> Seq<MemoryItemView>
    decreases s.len(),
{
    if s.len() == 0 {
        s
    } else {
        insert_in_order(stable_sorted(s.drop_last(), by), s.last(), by)
    }
}

/// Keys never decrease along `s`.
pub open spec fn keys_ascending(s: Seq<MemoryItemView>, by: ItemOrder) -> bool {
    forall|i: int, j: int| 0 <= i < j < s.len() ==> order_key(s[i], by) <= order_key(s[j], by)
}

proof fn lemma_insert_at(s: Seq<MemoryItemView>, x: MemoryItemView, by: ItemOrder, p: int)
    requires
        0 <= p <= s.len(),
        forall|k: int| p <= k < s.len() ==> order_key(s[k], by) > order_key(x, by),
        p == 0 || order_key(s[p - 1], by) <= order_key(x, by),
    ensures
        insert_in_order(s, x, by) == s.insert(p, x),
    decreases s.len(),
{
    if s.len() == p {
        assert(s.insert(p, x) =~= s.push(x));
    } else {
        assert(order_key(s.last(), by) > order_key(x, by));
        lemma_insert_at(s.drop_last(), x, by, p);
        assert(s.drop_last().insert(p, x).push(s.last()) =~= s.insert(p, x));
    }
}

/// Whether `a` goes after `x` in the order: its key is greater.
fn goes_after(a: &MemoryItem, x: &MemoryItem, by: ItemOrder) -> (after: bool)
    ensures
        after == (order_key(a@, by) > order_key(x@, by)),
{
    match by {
        ItemOrder::MostLapsesFirst => a.total_lapses < x.total_lapses,
        ItemOrder::SoonestDueFirst => a.next_review > x.next_review,
    }
}

/// Copies of `items`, stably sorted in the given order.
pub fn sort_items(items: &[MemoryItem], by: ItemOrder) -> (r: Vec<MemoryItem>)
    ensures
        items_view(r@) == stable_sorted(items_view(items@), by),
{
    let ghost iv = items_view(items@);
    let mut r: Vec<MemoryItem> = Vec::new();
    let n = items.len();
    proof {
        assert(iv.take(0) =~= Seq::<MemoryItemView>::empty());
        assert(items_view(r@) =~= Seq::<MemoryItemView>::empty());
    }
    for i in 0..n
        invariant
            n == items@.len(),
            iv == items_view(items@),
            items_view(r@) == stable_sorted(iv.take(i as int), by),
    {
        let x = items[i].duplicate();
        let mut p = r.len();
        while p > 0 && goes_after(&r[p - 1], &x, by)
            invariant
                0 <= p <= r@.len(),
                forall|k: int| p <= k < r@.len() ==> order_key(r@[k]@, by) > order_key(x@, by),
            decreases p,
        {
            p = p - 1;
        }
        let ghost before = items_view(r@);
        proof {
            lemma_insert_at(before, x@, by, p as int);
            assert(iv.take(i + 1).drop_last() =~= iv.take(i as int));
            assert(iv.take(i + 1).last() == x@);
        }
        r.insert(p, x);
        proof {
            assert(items_view(r@) =~= before.insert(p as int, x@));
        }
    }
    proof {
        assert(iv.take(n as int) =~= iv);
    }
    r
}

proof fn lemma_insert_in_order_sorted(s: Seq<MemoryItemView>, x: MemoryItemView, by: ItemOrder)
    requires
        keys_ascending(s, by),
    ensures
        keys_ascending(insert_in_order(s, x, by), by),
        insert_in_order(s, x, by).to_multiset() == s.to_multiset().insert(x),
        insert_in_order(s, x, by).len() == s.len() + 1,
        forall|k: int|
            0 <= k < insert_in_order(s, x, by).len() ==> #[trigger] insert_in_order(s, x, by)[k]
                == x || s.contains(insert_in_order(s, x, by)[k]),
    decreases s.len(),
{
    if s.len() == 0 || order_key(s.last(), by) <= order_key(x, by) {
        let t = s.push(x);
        assert forall|k: int| 0 <= k < t.len() implies t[k] == x || s.contains(t[k]) by {
            if k < s.len() {
                assert(s[k] == t[k]);
            }
        }
    } else {
        let d = s.drop_last();
        assert(keys_ascending(d, by));
        lemma_insert_in_order_sorted(d, x, by);
        let i = insert_in_order(d, x, by);
        let t = i.push(s.last());
        assert(d.push(s.last()) =~= s);
        assert forall|a: int, b: int| 0 <= a < b < t.len() implies order_key(t[a], by)
            <= order_key(t[b], by) by {
            if b == t.len() - 1 {
                if i[a] != x {
                    let j = choose|j: int| 0 <= j < d.len() && d[j] == i[a];
                    assert(s[j] == d[j]);
                }
            }
        }
        assert forall|k: int| 0 <= k < t.len() implies t[k] == x || s.contains(t[k]) by {
            if k < i.len() {
                if i[k] != x {
                    let j = choose|j: int| 0 <= j < d.len() && d[j] == i[k];
                    assert(s[j] == d[j]);
                }
            } else {
                assert(s[s.len() - 1] == t[k]);
            }
        }
    }
}

/// Law: a stable sort orders by key and keeps exactly the same elements
/// (a permutation).
pub proof fn lemma_stable_sorted(s: Seq<MemoryItemView>, by: ItemOrder)
    ensures
        keys_ascending(stable_sorted(s, by), by),
        stable_sorted(s, by).to_multiset() == s.to_multiset(),
        stable_sorted(s, by).len() == s.len(),
    decreases s.len(),
{
    if s.len() > 0 {
        lemma_stable_sorted(s.drop_last(), by);
        lemma_insert_in_order_sorted(stable_sorted(s.drop_last(), by), s.last(), by);
        assert(s.drop_last().push(s.last()) =~= s);
    }
}

} // verus!
