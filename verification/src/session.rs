//! Review-session orchestration over the in-memory vault: finding items,
//! reviewing one by id, the due list, the session queue and merging imports.
use vstd::prelude::*;

use crate::domain::{due_at, items_view, MemoryItem, MemoryItemView};
use crate::error::SynapseError;
use crate::graph::has_id;
use crate::ordering::{sort_items, stable_sorted, ItemOrder};
use crate::scheduler::{can_record_review, review_recorded, Scheduler};
use crate::seqs::lemma_filter_push;

verus! {

/// `i` is the position of the first item with id `id`.
pub open spec fn first_with_id(items: Seq<MemoryItemView>, id: Seq<char>, i: int) -> bool {
    &&& 0 <= i < items.len()
    &&& items[i].id == id
    &&& forall|k: int| 0 <= k < i ==> items[k].id != id
}

/// The position of the first item with id `id`, if any.
pub fn find_memory(items: &[MemoryItem], id: &str) -> (r: Option<usize>)
    ensures
        match r {
            Some(i) => first_with_id(items_view(items@), id@, i as int),
            None => !has_id(items_view(items@), id@),
        },
{
    let key = id.to_owned();
    let n = items.len();
    for i in 0..n
        invariant
            n == items@.len(),
            key@ == id@,
            forall|k: int| 0 <= k < i ==> items@[k]@.id != id@,
    {
        if items[i].id == key {
            return Some(i);
        }
    }
    None
}

/// Reviews the first item with id `id` with `score` using `scheduler`, and
/// returns a copy of the updated item; the other items are untouched. Fails
/// with `NotFound`, changing nothing, when no item has that id.
pub fn review_memory<S: Scheduler>(
    items: &mut [MemoryItem],
    scheduler: &S,
    id: &str,
    score: u8,
) -> (r: Result<MemoryItem, SynapseError>)
    requires
        forall|i: int|
            first_with_id(items_view(old(items)@), id@, i) ==> can_record_review(
                #[trigger] old(items)@[i]@,
            ),
    ensures
        final(items)@.len() == old(items)@.len(),
        match r {
            Ok(m) => exists|i: int|
                first_with_id(items_view(old(items)@), id@, i) && review_recorded(
                    old(items)@[i]@,
                    #[trigger] final(items)@[i]@,
                    score,
                ) && m@ == final(items)@[i]@ && forall|k: int|
                    0 <= k < old(items)@.len() && k != i ==> final(items)@[k]@ == old(items)@[k]@,
            Err(e) => e matches SynapseError::NotFound(x) && x@ == id@ && !has_id(
                items_view(old(items)@),
                id@,
            ) && items_view(final(items)@) == items_view(old(items)@),
        },
{
    match find_memory(items, id) {
        Some(i) => {
            proof {
                assert(items_view(items@)[i as int] == items@[i as int]@);
            }
            scheduler.schedule(&mut items[i], score);
            Ok(items[i].duplicate())
        },
        None => Err(SynapseError::NotFound(id.to_owned())),
    }
}

/// Copies of the items that are due at instant `now`, in order.
pub fn due_memories(items: &[MemoryItem], now: i64) -> (r: Vec<MemoryItem>)
    ensures
        items_view(r@) == items_view(items@).filter(|m: MemoryItemView| due_at(m, now as int)),
{
    let ghost iv = items_view(items@);
    let mut r: Vec<MemoryItem> = Vec::new();
    let n = items.len();
    proof {
        assert(iv.take(0) =~= Seq::<MemoryItemView>::empty());
        reveal_with_fuel(Seq::filter, 1);
        assert(items_view(r@) =~= Seq::<MemoryItemView>::empty());
    }
    for i in 0..n
        invariant
            n == items@.len(),
            iv == items_view(items@),
            items_view(r@) == iv.take(i as int).filter(|m: MemoryItemView| due_at(m, now as int)),
    {
        proof {
            assert(iv.take(i + 1) =~= iv.take(i as int).push(iv[i as int]));
            lemma_filter_push(
                iv.take(i as int),
                iv[i as int],
                |m: MemoryItemView| due_at(m, now as int),
            );
        }
        if items[i].is_due_at(now) {
            let ghost before = r@;
            r.push(items[i].duplicate());
            proof {
                assert(items_view(r@) =~= items_view(before).push(iv[i as int]));
            }
        }
    }
    proof {
        assert(iv.take(n as int) =~= iv);
    }
    r
}

/// The items for a review session at instant `now`: the due items, most
/// overdue first (earliest next review; ties keep their order), at most
/// `limit` of them, or `daily_review_limit` when no limit is given.
pub fn start_review_session(
    items: &[MemoryItem],
    now: i64,
    limit: Option<usize>,
    daily_review_limit: u32,
) -> (r: Vec<MemoryItem>)
    ensures
        ({
            let cap: int = match limit {
                Some(l) => l as int,
                None => daily_review_limit as int,
            };
            let queue = stable_sorted(
                items_view(items@).filter(|m: MemoryItemView| due_at(m, now as int)),
                ItemOrder::SoonestDueFirst,
            );
            items_view(r@) == queue.take(if cap < queue.len() { cap } else { queue.len() as int })
        }),
{
    let cap: usize = match limit {
        Some(l) => l,
        None => daily_review_limit as usize,
    };
    let due = due_memories(items, now);
    let mut queue = sort_items(due.as_slice(), ItemOrder::SoonestDueFirst);
    let ghost all = items_view(queue@);
    proof {
        crate::ordering::lemma_stable_sorted(items_view(due@), ItemOrder::SoonestDueFirst);
    }
    queue.truncate(cap);
    proof {
        if cap < all.len() {
            assert(items_view(queue@) =~= all.take(cap as int));
        } else {
            assert(items_view(queue@) =~= all.take(all.len() as int));
        }
    }
    queue
}

/// `s` with `x` merged in: it replaces the first item with the same id, or
/// is appended when there is none.
pub open spec fn merge_one(s: Seq<MemoryItemView>, x: MemoryItemView) -> Seq<MemoryItemView> {
    if has_id(s, x.id) {
        let i = choose|i: int| first_with_id(s, x.id, i);
        s.update(i, x)
    } else {
        s.push(x)
    }
}

/// `s` with every item of `imported` merged in, in order.
pub open spec fn merge_all(s: Seq<MemoryItemView>, imported: Seq<MemoryItemView>) -> Seq<
    MemoryItemView,
>
    decreases imported.len(),
{
    if imported.len() == 0 {
        s
    } else {
        merge_one(merge_all(s, imported.drop_last()), imported.last())
    }
}

proof fn lemma_first_unique(s: Seq<MemoryItemView>, id: Seq<char>, i: int, j: int)
    requires
        first_with_id(s, id, i),
        first_with_id(s, id, j),
    ensures
        i == j,
{
}

/// Merges imported items into the vault: an item whose id already exists
/// overwrites the first item with that id, a new id is appended. Returns the
/// number of items imported.
pub fn merge_memories(memories: &mut Vec<MemoryItem>, imported: &[MemoryItem]) -> (count: usize)
    ensures
        count == imported@.len(),
        items_view(final(memories)@) == merge_all(items_view(old(memories)@), items_view(imported@)),
{
    let ghost iv = items_view(imported@);
    let n = imported.len();
    proof {
        assert(iv.take(0) =~= Seq::<MemoryItemView>::empty());
    }
    for j in 0..n
        invariant
            n == imported@.len(),
            iv == items_view(imported@),
            items_view(memories@) == merge_all(items_view(old(memories)@), iv.take(j as int)),
    {
        let x = imported[j].duplicate();
        let ghost before = items_view(memories@);
        proof {
            assert(iv.take(j + 1).drop_last() =~= iv.take(j as int));
            assert(iv.take(j + 1).last() == x@);
        }
        match find_memory(memories.as_slice(), x.id.as_str()) {
            Some(i) => {
                memories.set(i, x);
                proof {
                    let k = choose|k: int| first_with_id(before, x@.id, k);
                    lemma_first_unique(before, x@.id, i as int, k);
                    assert(items_view(memories@) =~= before.update(i as int, x@));
                }
            },
            None => {
                memories.push(x);
                proof {
                    assert(items_view(memories@) =~= before.push(x@));
                }
            },
        }
    }
    proof {
        assert(iv.take(n as int) =~= iv);
    }
    n
}

proof fn lemma_first_exists(s: Seq<MemoryItemView>, id: Seq<char>)
    requires
        has_id(s, id),
    ensures
        exists|i: int| first_with_id(s, id, i),
    decreases s.len(),
{
    let d = s.drop_last();
    if has_id(d, id) {
        lemma_first_exists(d, id);
        let i = choose|i: int| first_with_id(d, id, i);
        assert(d[i] == s[i]);
        assert forall|k: int| 0 <= k < i implies s[k].id != id by {
            assert(d[k] == s[k]);
        }
        assert(first_with_id(s, id, i));
    } else {
        let last = s.len() - 1;
        assert forall|k: int| 0 <= k < last implies s[k].id != id by {
            assert(d[k] == s[k]);
        }
        let j = choose|j: int| 0 <= j < s.len() && s[j].id == id;
        if j < last {
            assert(d[j] == s[j]);
        }
        assert(first_with_id(s, id, last));
    }
}

/// Law: after a merge every imported id is in the vault.
pub proof fn lemma_merge_keeps_imported_ids(
    s: Seq<MemoryItemView>,
    imported: Seq<MemoryItemView>,
    k: int,
)
    requires
        0 <= k < imported.len(),
    ensures
        has_id(merge_all(s, imported), imported[k].id),
    decreases imported.len(),
{
    let init = imported.drop_last();
    let x = imported.last();
    let m = merge_all(s, init);
    if k == imported.len() - 1 {
        if has_id(m, x.id) {
            lemma_first_exists(m, x.id);
            let i = choose|i: int| first_with_id(m, x.id, i);
            assert(merge_one(m, x)[i].id == x.id);
        } else {
            assert(merge_one(m, x)[m.len() as int].id == x.id);
        }
    } else {
        lemma_merge_keeps_imported_ids(s, init, k);
        assert(init[k] == imported[k]);
        lemma_merge_one_keeps_ids(m, x, imported[k].id);
    }
}

/// Merging one item never loses an id.
proof fn lemma_merge_one_keeps_ids(s: Seq<MemoryItemView>, x: MemoryItemView, id: Seq<char>)
    requires
        has_id(s, id),
    ensures
        has_id(merge_one(s, x), id),
{
    let j = choose|j: int| 0 <= j < s.len() && s[j].id == id;
    if has_id(s, x.id) {
        lemma_first_exists(s, x.id);
        let i = choose|i: int| first_with_id(s, x.id, i);
        if i == j {
            assert(merge_one(s, x)[i].id == id);
        } else {
            assert(merge_one(s, x)[j].id == id);
        }
    } else {
        assert(merge_one(s, x)[j].id == id);
    }
}

/// What merging one item does: with `i` the first position of its id (if
/// any), that position now holds the item and all others are untouched;
/// otherwise the item is appended.
proof fn lemma_merge_one_shape(s: Seq<MemoryItemView>, x: MemoryItemView)
    ensures
        has_id(s, x.id) ==> exists|i: int|
            first_with_id(s, x.id, i) && #[trigger] merge_one(s, x) == s.update(i, x),
        !has_id(s, x.id) ==> merge_one(s, x) == s.push(x),
{
    if has_id(s, x.id) {
        lemma_first_exists(s, x.id);
        let i = choose|i: int| first_with_id(s, x.id, i);
        assert(merge_one(s, x) == s.update(i, x));
    }
}

/// The position of `imported[j]` is the last one with its id.
pub open spec fn last_with_id(imported: Seq<MemoryItemView>, j: int) -> bool {
    &&& 0 <= j < imported.len()
    &&& forall|l: int| j < l < imported.len() ==> imported[l].id != imported[j].id
}

/// Law: merging never shrinks the vault, keeps every item whose id is not
/// imported where it was, and for every imported id puts the last imported
/// item with that id (later imports win) at the first position with that id.
pub proof fn lemma_merge_closed_form(s: Seq<MemoryItemView>, imported: Seq<MemoryItemView>)
    ensures
        merge_all(s, imported).len() >= s.len(),
        forall|k: int|
            0 <= k < s.len() && !has_id(imported, s[k].id) ==> #[trigger] merge_all(
                s,
                imported,
            )[k] == s[k],
        forall|j: int|
            #[trigger] last_with_id(imported, j) ==> exists|i: int|
                first_with_id(merge_all(s, imported), imported[j].id, i) && merge_all(
                    s,
                    imported,
                )[i] == imported[j],
    decreases imported.len(),
{
    if imported.len() > 0 {
        let init = imported.drop_last();
        let x = imported.last();
        let n = imported.len() - 1;
        let m = merge_all(s, init);
        let r = merge_all(s, imported);
        lemma_merge_closed_form(s, init);
        lemma_merge_one_shape(m, x);
        assert(r == merge_one(m, x));
        assert forall|k: int|
            0 <= k < s.len() && !has_id(imported, s[k].id) implies #[trigger] r[k] == s[k] by {
            assert(!has_id(init, s[k].id)) by {
                if has_id(init, s[k].id) {
                    let l = choose|l: int| 0 <= l < init.len() && init[l].id == s[k].id;
                    assert(imported[l] == init[l]);
                }
            }
            assert(m[k] == s[k]);
            assert(x.id != s[k].id) by {
                assert(imported[n] == x);
            }
            if has_id(m, x.id) {
                let i = choose|i: int| first_with_id(m, x.id, i) && merge_one(m, x) == m.update(i, x);
                assert(i != k);
            }
        }
        assert forall|j: int| #[trigger] last_with_id(imported, j) implies exists|i: int|
            first_with_id(r, imported[j].id, i) && r[i] == imported[j] by {
            if j == n {
                if has_id(m, x.id) {
                    let i = choose|i: int| first_with_id(m, x.id, i) && merge_one(m, x) == m.update(i, x);
                    assert(first_with_id(r, x.id, i));
                } else {
                    assert(first_with_id(r, x.id, m.len() as int)) by {
                        assert forall|k: int| 0 <= k < m.len() implies r[k].id != x.id by {
                            assert(r[k] == m[k]);
                        }
                    }
                }
            } else {
                let id = imported[j].id;
                assert(init[j] == imported[j]);
                assert(x.id != id);
                assert(last_with_id(init, j)) by {
                    assert forall|l: int| j < l < init.len() implies init[l].id != init[j].id by {
                        assert(init[l] == imported[l]);
                    }
                }
                let i = choose|i: int| first_with_id(m, id, i) && m[i] == imported[j];
                if has_id(m, x.id) {
                    let i2 = choose|i2: int|
                        first_with_id(m, x.id, i2) && merge_one(m, x) == m.update(i2, x);
                    assert(i2 != i);
                    assert(first_with_id(r, id, i)) by {
                        assert forall|k: int| 0 <= k < i implies r[k].id != id by {
                            if k != i2 {
                                assert(r[k] == m[k]);
                            }
                        }
                    }
                    assert(r[i] == imported[j]);
                } else {
                    assert(first_with_id(r, id, i)) by {
                        assert forall|k: int| 0 <= k < i implies r[k].id != id by {
                            assert(r[k] == m[k]);
                        }
                    }
                    assert(r[i] == imported[j]);
                }
            }
        }
    }
}

} // verus!
