//! Statistics over a vault: counts, retention, streaks, per-track summaries,
//! the review heatmap, retention over time and the hardest items.
use vstd::prelude::*;
use std::collections::BTreeMap;

use crate::clock::{day_of, day_of_millis, now_millis};
use crate::domain::{due_at, items_view, leech, MemoryItem, MemoryItemView, ReviewLogEntry};
use crate::ordering::{sort_items, stable_sorted, ItemOrder};
use crate::scheduler::recalled;
use crate::seqs::{
    count_with_key, count_with_keys, has_key, lemma_i64_keys_ordered, lemma_count_with_keys_total, lemma_filter_none, lemma_filter_push,
    lemma_filter_same, lemma_filter_weaker,
};
use crate::text::{
    lemma_text_lt_asymmetric, lemma_text_lt_irreflexive, lemma_text_lt_total,
    lemma_text_lt_transitive, str_lt, text_lt,
};

verus! {

/// Every review of every item, item by item, each history in order.
pub open spec fn all_reviews(items: Seq<MemoryItemView>) -> Seq<ReviewLogEntry>
    decreases items.len(),
{
    if items.len() == 0 {
        Seq::empty()
    } else {
        all_reviews(items.drop_last()) + items.last().review_log
    }
}

/// Whether a review was a successful recall.
pub open spec fn successful(e: ReviewLogEntry) -> bool {
    recalled(e.score)
}

/// The calendar day of a review.
pub open spec fn review_day(e: ReviewLogEntry) -> int {
    day_of(e.reviewed_at as int)
}

/// Sum of the ease factors (hundredths) of the items.
pub open spec fn ease_sum(items: Seq<MemoryItemView>) -> int
    decreases items.len(),
{
    if items.len() == 0 {
        0
    } else {
        ease_sum(items.drop_last()) + items.last().ease
    }
}

/// Every review of the items, copied into one list.
pub fn collect_reviews(items: &[MemoryItem]) -> (r: Vec<ReviewLogEntry>)
    ensures
        r@ == all_reviews(items_view(items@)),
{
    let ghost iv = items_view(items@);
    let mut r: Vec<ReviewLogEntry> = Vec::new();
    let n = items.len();
    proof {
        assert(iv.take(0) =~= Seq::<MemoryItemView>::empty());
    }
    for i in 0..n
        invariant
            n == items@.len(),
            iv == items_view(items@),
            r@ == all_reviews(iv.take(i as int)),
    {
        let log = &items[i].review_log;
        let m = log.len();
        let ghost base = r@;
        for j in 0..m
            invariant
                m == log@.len(),
                r@ =~= base + log@.take(j as int),
        {
            r.push(log[j]);
            proof {
                assert(log@.take(j + 1) =~= log@.take(j as int).push(log@[j as int]));
            }
        }
        proof {
            assert(log@.take(m as int) =~= log@);
            assert(iv.take(i + 1).drop_last() =~= iv.take(i as int));
            assert(iv.take(i + 1).last() == iv[i as int]);
        }
    }
    proof {
        assert(iv.take(n as int) =~= iv);
    }
    r
}

/// How many of the reviews were successful recalls.
pub fn count_successful(reviews: &Vec<ReviewLogEntry>) -> (c: usize)
    ensures
        c == reviews@.filter(|e: ReviewLogEntry| successful(e)).len(),
{
    let mut c: usize = 0;
    let n = reviews.len();
    proof {
        assert(reviews@.take(0) =~= Seq::<ReviewLogEntry>::empty());
        reveal_with_fuel(Seq::filter, 1);
    }
    for i in 0..n
        invariant
            n == reviews@.len(),
            c == reviews@.take(i as int).filter(|e: ReviewLogEntry| successful(e)).len(),
            c <= i,
    {
        proof {
            assert(reviews@.take(i + 1) =~= reviews@.take(i as int).push(reviews@[i as int]));
            lemma_filter_push(
                reviews@.take(i as int),
                reviews@[i as int],
                |e: ReviewLogEntry| successful(e),
            );
        }
        if reviews[i].score >= 3 {
            c = c + 1;
        }
    }
    proof {
        assert(reviews@.take(n as int) =~= reviews@);
    }
    c
}

/// Aggregate numbers about a vault. Rates and averages are derived from the
/// counts and sums kept here.
#[derive(Clone, Copy, Debug, PartialEq, Eq, Structural)]
pub struct Stats {
    pub total_items: usize,
    pub due_now: usize,
    pub total_reviews: usize,
    /// Reviews with score 3 or more; the retention rate is this over `total_reviews`.
    pub successful_reviews: usize,
    pub current_streak_days: u32,
    pub best_streak_days: u32,
    /// Sum of the items' ease factors in hundredths; the average ease is this
    /// over `total_items`.
    pub ease_sum: u128,
    pub leech_count: usize,
}

/// Counts the items that are due at `now`, the leeches, and sums the ease.
fn count_items(items: &[MemoryItem], now: i64) -> (r: (usize, usize, u128))
    ensures
        r.0 == items_view(items@).filter(|m: MemoryItemView| due_at(m, now as int)).len(),
        r.1 == items_view(items@).filter(|m: MemoryItemView| leech(m)).len(),
        r.2 == ease_sum(items_view(items@)),
{
    let ghost iv = items_view(items@);
    let mut due: usize = 0;
    let mut leeches: usize = 0;
    let mut sum: u128 = 0;
    let n = items.len();
    proof {
        assert(iv.take(0) =~= Seq::<MemoryItemView>::empty());
        reveal_with_fuel(Seq::filter, 1);
    }
    for i in 0..n
        invariant
            n == items@.len(),
            iv == items_view(items@),
            due == iv.take(i as int).filter(|m: MemoryItemView| due_at(m, now as int)).len(),
            leeches == iv.take(i as int).filter(|m: MemoryItemView| leech(m)).len(),
            sum == ease_sum(iv.take(i as int)),
            due <= i,
            leeches <= i,
            sum <= i * 0xffff_ffff,
    {
        proof {
            assert(iv.take(i + 1) =~= iv.take(i as int).push(iv[i as int]));
            assert(iv.take(i + 1).drop_last() =~= iv.take(i as int));
            lemma_filter_push(
                iv.take(i as int),
                iv[i as int],
                |m: MemoryItemView| due_at(m, now as int),
            );
            lemma_filter_push(iv.take(i as int), iv[i as int], |m: MemoryItemView| leech(m));
        }
        if items[i].is_due_at(now) {
            due = due + 1;
        }
        if items[i].is_leech() {
            leeches = leeches + 1;
        }
        sum = sum + items[i].ease as u128;
    }
    proof {
        assert(iv.take(n as int) =~= iv);
    }
    (due, leeches, sum)
}

/// The calendar days on which reviews happened.
pub open spec fn review_days(reviews: Seq<ReviewLogEntry>) -> Set<int> {
    Set::new(|d: int| exists|k: int| 0 <= k < reviews.len() && review_day(reviews[k]) == d)
}

/// The values held in a list of day numbers.
pub open spec fn values(s: Seq<i64>) -> Set<int> {
    Set::new(|d: int| exists|k: int| 0 <= k < s.len() && s[k] == d)
}

/// Each value is smaller than the next.
pub open spec fn strictly_increasing(s: Seq<i64>) -> bool {
    forall|i: int, j: int| 0 <= i < j < s.len() ==> s[i] < s[j]
}

/// All `len` days from `start` on are in `days`.
pub open spec fn consecutive_days(days: Set<int>, start: int, len: int) -> bool {
    forall|k: int| 0 <= k < len ==> #[trigger] days.contains(start + k)
}

/// All `len` days up to and including `end` are in `days`.
pub open spec fn run_ending_at(days: Set<int>, end: int, len: int) -> bool {
    consecutive_days(days, end - len + 1, len)
}

/// No run of consecutive days in `days` is longer than a `u32` can count.
pub open spec fn runs_fit_u32(days: Set<int>) -> bool {
    forall|start: int, len: int| consecutive_days(days, start, len) ==> len <= u32::MAX
}

/// `b` is the length of the longest run of consecutive days in `days`.
pub open spec fn longest_run_is(days: Set<int>, b: int) -> bool {
    &&& exists|start: int| consecutive_days(days, start, b)
    &&& forall|start: int, len: int| consecutive_days(days, start, len) ==> len <= b
}

/// `m` is the latest of the days.
pub open spec fn latest_day(days: Set<int>, m: int) -> bool {
    days.contains(m) && (forall|d: int| days.contains(d) ==> d <= m)
}

/// `c` is the current streak: 0 when there is no day or the latest day is
/// more than one day before `today`; otherwise the length of the run of
/// consecutive days ending at the latest day.
pub open spec fn current_run_is(days: Set<int>, today: int, c: int) -> bool {
    &&& (forall|d: int| !days.contains(d)) ==> c == 0
    &&& forall|m: int|
        #[trigger] latest_day(days, m) ==> if today - m > 1 {
            c == 0
        } else {
            consecutive_days(days, m - c + 1, c) && !days.contains(m - c)
        }
}

/// Adds day `d` to a strictly increasing list of days, keeping it so.
fn insert_day(ds: &mut Vec<i64>, d: i64)
    requires
        strictly_increasing(old(ds)@),
    ensures
        strictly_increasing(final(ds)@),
        values(final(ds)@) == values(old(ds)@).insert(d as int),
{
    let n = ds.len();
    let mut p: usize = 0;
    while p < n && ds[p] < d
        invariant
            n == ds@.len(),
            p <= n,
            forall|k: int| 0 <= k < p ==> ds@[k] < d,
        decreases n - p,
    {
        p = p + 1;
    }
    if p < n && ds[p] == d {
        proof {
            assert(values(ds@) =~= values(ds@).insert(d as int));
        }
    } else {
        let ghost before = ds@;
        ds.insert(p, d);
        proof {
            before.insert_ensures(p as int, d);
            assert forall|i: int, j: int| 0 <= i < j < ds@.len() implies ds@[i] < ds@[j] by {
                if j < p {
                } else if j == p {
                } else if i < p {
                    assert(before[j - 1] >= d);
                } else if i == p {
                    assert(before[j - 1] >= d);
                    assert(before[j - 1] != d || p < n);
                    if p < n {
                        assert(before[p as int] > d);
                        assert(before[p as int] <= before[j - 1]);
                    }
                } else {
                    assert(before[i - 1] < before[j - 1]);
                }
            }
            assert forall|x: int| values(ds@).contains(x) <==> values(before).insert(
                d as int,
            ).contains(x) by {
                if values(ds@).contains(x) {
                    let k = choose|k: int| 0 <= k < ds@.len() && ds@[k] == x;
                    if k < p {
                        assert(before[k] == x);
                    } else if k > p {
                        assert(before[k - 1] == x);
                    }
                }
                if values(before).contains(x) {
                    let k = choose|k: int| 0 <= k < before.len() && before[k] == x;
                    if k < p {
                        assert(ds@[k] == x);
                    } else {
                        assert(ds@[k + 1] == x);
                    }
                }
                if x == d {
                    assert(ds@[p as int] == x);
                }
            }
            assert(values(ds@) =~= values(before).insert(d as int));
        }
    }
}

/// The days on which reviews happened, each once, in increasing order.
pub fn review_day_list(reviews: &Vec<ReviewLogEntry>) -> (ds: Vec<i64>)
    ensures
        strictly_increasing(ds@),
        values(ds@) == review_days(reviews@),
{
    let mut ds: Vec<i64> = Vec::new();
    let n = reviews.len();
    proof {
        assert(values(ds@) =~= review_days(reviews@.take(0)));
    }
    for i in 0..n
        invariant
            n == reviews@.len(),
            strictly_increasing(ds@),
            values(ds@) == review_days(reviews@.take(i as int)),
    {
        let d = day_of_millis(reviews[i].reviewed_at);
        insert_day(&mut ds, d);
        proof {
            let t = reviews@.take(i + 1);
            assert forall|x: int| review_days(t).contains(x) <==> review_days(
                reviews@.take(i as int),
            ).insert(d as int).contains(x) by {
                if review_days(t).contains(x) {
                    let k = choose|k: int| 0 <= k < t.len() && review_day(t[k]) == x;
                    if k < i {
                        assert(reviews@.take(i as int)[k] == t[k]);
                    }
                }
                if review_days(reviews@.take(i as int)).contains(x) {
                    let k = choose|k: int|
                        0 <= k < reviews@.take(i as int).len() && review_day(
                            reviews@.take(i as int)[k],
                        ) == x;
                    assert(t[k] == reviews@.take(i as int)[k]);
                }
                if x == d {
                    assert(review_day(t[i as int]) == x);
                }
            }
            assert(review_days(t) =~= review_days(reviews@.take(i as int)).insert(d as int));
        }
    }
    proof {
        assert(reviews@.take(n as int) =~= reviews@);
    }
    ds
}

/// In a strictly increasing list, the run of consecutive days ending at
/// `ds[j]` is at most `c` long when `ds[j] - c` is not among the days.
proof fn lemma_run_bounded(days: Set<int>, e: int, c: int, len: int)
    requires
        !days.contains(e - c),
        c >= 0,
        consecutive_days(days, e - len + 1, len),
    ensures
        len <= c,
{
    if len > c {
        assert(days.contains((e - len + 1) + (len - 1 - c)));
    }
}

/// The length of the longest run of consecutive days in `ds`.
fn longest_run(ds: &Vec<i64>) -> (b: u32)
    requires
        strictly_increasing(ds@),
        runs_fit_u32(values(ds@)),
    ensures
        longest_run_is(values(ds@), b as int),
{
    let ghost days = values(ds@);
    let n = ds.len();
    if n == 0 {
        proof {
            assert(consecutive_days(days, 0, 0));
            assert forall|start: int, len: int| consecutive_days(days, start, len) implies len
                <= 0 by {
                if len > 0 {
                    assert(days.contains(start + 0));
                }
            }
        }
        return 0;
    }
    let mut best: u32 = 1;
    let mut cur: u32 = 1;
    let ghost mut best_start: int = ds@[0] as int;
    proof {
        assert(days.contains(ds@[0] as int));
        assert(consecutive_days(days, ds@[0] as int, 1)) by {
            assert forall|k: int| 0 <= k < 1 implies #[trigger] days.contains(ds@[0] + k) by {
                assert(ds@[0] + k == ds@[0]);
            }
        }
        assert(!days.contains(ds@[0] - 1)) by {
            if days.contains(ds@[0] - 1) {
                let k = choose|k: int| 0 <= k < ds@.len() && #[trigger] ds@[k] == ds@[0] - 1;
                assert(ds@[k] >= ds@[0]);
            }
        }
        assert forall|len: int| #[trigger] run_ending_at(days, ds@[0] as int, len) implies len
            <= 1 by {
            lemma_run_bounded(days, ds@[0] as int, 1, len);
        }
    }
    for i in 1..n
        invariant
            n == ds@.len(),
            days == values(ds@),
            strictly_increasing(ds@),
            runs_fit_u32(days),
            1 <= cur <= best,
            consecutive_days(days, ds@[i - 1] - cur + 1, cur as int),
            !days.contains(ds@[i - 1] - cur),
            consecutive_days(days, best_start, best as int),
            forall|j: int, len: int|
                0 <= j < i && #[trigger] run_ending_at(days, ds@[j] as int, len) ==> len <= best,
    {
        let prev = ds[i - 1];
        let d = ds[i];
        let ghost old_cur = cur as int;
        if d as i128 - prev as i128 == 1 {
            proof {
                assert(consecutive_days(days, d - old_cur, old_cur + 1)) by {
                    assert forall|k: int| 0 <= k < old_cur + 1 implies #[trigger] days.contains(
                        d - old_cur + k,
                    ) by {
                        if k < old_cur {
                            assert(days.contains((prev - old_cur + 1) + k));
                        } else {
                            assert(days.contains(ds@[i as int] as int));
                        }
                    }
                }
                assert(old_cur + 1 <= u32::MAX);
            }
            cur = cur + 1;
        } else {
            proof {
                assert(consecutive_days(days, d as int, 1)) by {
                    assert forall|k: int| 0 <= k < 1 implies #[trigger] days.contains(d + k) by {
                        assert(days.contains(ds@[i as int] as int));
                    }
                }
                assert(!days.contains(d - 1)) by {
                    if days.contains(d - 1) {
                        let k = choose|k: int| 0 <= k < ds@.len() && ds@[k] == d - 1;
                        if k < i {
                            assert(ds@[k] <= ds@[i - 1]);
                        } else {
                            assert(ds@[k] >= ds@[i as int]);
                        }
                    }
                }
            }
            cur = 1;
        }
        proof {
            assert(!days.contains(d - cur));
            assert forall|len: int| #[trigger] run_ending_at(days, d as int, len) implies len
                <= cur by {
                lemma_run_bounded(days, d as int, cur as int, len);
            }
        }
        if cur > best {
            best = cur;
            proof {
                best_start = d - cur + 1;
            }
        }
    }
    proof {
        assert forall|start: int, len: int| consecutive_days(days, start, len) implies len
            <= best by {
            if len > 0 {
                assert(days.contains(start + (len - 1)));
                let j = choose|j: int| 0 <= j < ds@.len() && ds@[j] == start + len - 1;
                assert(run_ending_at(days, ds@[j] as int, len));
            }
        }
    }
    best
}

/// The current streak ending at the latest of the days in `ds`, given
/// today's day number.
fn current_run(ds: &Vec<i64>, today: i64) -> (c: u32)
    requires
        strictly_increasing(ds@),
        runs_fit_u32(values(ds@)),
    ensures
        current_run_is(values(ds@), today as int, c as int),
{
    let ghost days = values(ds@);
    let n = ds.len();
    if n == 0 {
        proof {
            assert forall|m: int| days.contains(m) implies false by {
                let k = choose|k: int| 0 <= k < ds@.len() && ds@[k] == m;
            }
        }
        return 0;
    }
    let last = ds[n - 1];
    proof {
        assert(days.contains(last as int));
        assert forall|d: int| days.contains(d) implies d <= last by {
            let k = choose|k: int| 0 <= k < ds@.len() && ds@[k] == d;
            if k < n - 1 {
                assert(ds@[k] < ds@[n - 1]);
            }
        }
    }
    if today as i128 - last as i128 > 1 {
        proof {
            assert forall|m: int| #[trigger] latest_day(days, m) implies m == last by {
                assert(last <= m);
            }
        }
        return 0;
    }
    let mut count: u32 = 1;
    let mut k: usize = n - 1;
    let mut done = false;
    proof {
        assert(consecutive_days(days, last as int, 1)) by {
            assert forall|j: int| 0 <= j < 1 implies #[trigger] days.contains(last + j) by {
                assert(last + j == last);
            }
        }
    }
    while k > 0 && !done
        invariant
            n == ds@.len(),
            days == values(ds@),
            strictly_increasing(ds@),
            runs_fit_u32(days),
            0 <= k < n,
            last == ds@[n - 1],
            count as int == n - k,
            ds@[k as int] == last - count + 1,
            consecutive_days(days, last - count + 1, count as int),
            done ==> !days.contains(last - count),
        decreases 2 * k + if done { 0int } else { 1int },
    {
        let prev = ds[k - 1];
        if ds[k] as i128 - prev as i128 == 1 {
            proof {
                assert(consecutive_days(days, last - count, count + 1)) by {
                    assert forall|j: int| 0 <= j < count + 1 implies #[trigger] days.contains(
                        last - count + j,
                    ) by {
                        if j > 0 {
                            assert(days.contains((last - count + 1) + (j - 1)));
                        } else {
                            assert(days.contains(ds@[k - 1] as int));
                        }
                    }
                }
                assert(count + 1 <= u32::MAX);
            }
            count = count + 1;
            k = k - 1;
        } else {
            proof {
                assert(!days.contains(last - count)) by {
                    if days.contains(last - count) {
                        let j = choose|j: int| 0 <= j < ds@.len() && ds@[j] == last - count;
                        if j < k {
                            assert(ds@[j] <= ds@[k - 1]);
                        } else {
                            assert(ds@[j] >= ds@[k as int]);
                        }
                    }
                }
            }
            done = true;
        }
    }
    proof {
        if !done {
            assert(k == 0);
            assert(!days.contains(last - count)) by {
                if days.contains(last - count) {
                    let j = choose|j: int| 0 <= j < ds@.len() && ds@[j] == last - count;
                    assert(ds@[j] >= ds@[0]);
                }
            }
        }
        assert forall|m: int| #[trigger] latest_day(days, m) implies m == last by {
            assert(last <= m);
        }
    }
    count
}

proof fn lemma_review_days_have_latest(reviews: Seq<ReviewLogEntry>)
    requires
        reviews.len() > 0,
    ensures
        exists|m: int| latest_day(review_days(reviews), m),
    decreases reviews.len(),
{
    let days = review_days(reviews);
    let last = review_day(reviews.last());
    assert(days.contains(last)) by {
        assert(review_day(reviews[reviews.len() - 1]) == last);
    }
    if reviews.len() == 1 {
        assert forall|d: int| days.contains(d) implies d <= last by {
            let k = choose|k: int| 0 <= k < reviews.len() && review_day(reviews[k]) == d;
            assert(k == 0);
        }
        assert(latest_day(days, last));
    } else {
        let init = reviews.drop_last();
        lemma_review_days_have_latest(init);
        let m0 = choose|m: int| latest_day(review_days(init), m);
        let m = if m0 >= last { m0 } else { last };
        assert(days.contains(m)) by {
            if m == m0 {
                let k = choose|k: int| 0 <= k < init.len() && review_day(init[k]) == m0;
                assert(reviews[k] == init[k]);
            }
        }
        assert forall|d: int| days.contains(d) implies d <= m by {
            let k = choose|k: int| 0 <= k < reviews.len() && review_day(reviews[k]) == d;
            if k < reviews.len() - 1 {
                assert(init[k] == reviews[k]);
                assert(review_days(init).contains(d));
            }
        }
        assert(latest_day(days, m));
    }
}

/// Law: the current streak is never longer than the best streak.
pub proof fn lemma_current_streak_at_most_best(
    reviews: Seq<ReviewLogEntry>,
    today: int,
    c: int,
    b: int,
)
    requires
        current_run_is(review_days(reviews), today, c),
        longest_run_is(review_days(reviews), b),
    ensures
        c <= b,
{
    let days = review_days(reviews);
    assert(consecutive_days(days, 0, 0));
    if c > 0 {
        if reviews.len() == 0 {
            assert forall|d: int| !days.contains(d) by {
                if days.contains(d) {
                    let k = choose|k: int| 0 <= k < reviews.len() && review_day(reviews[k]) == d;
                    assert(false);
                }
            }
            assert(c == 0);
        } else {
            lemma_review_days_have_latest(reviews);
            let m = choose|m: int| latest_day(days, m);
            assert(latest_day(days, m));
            assert(today - m <= 1);
            assert(consecutive_days(days, m - c + 1, c));
            assert(c <= b);
        }
    }
}

/// Whether `s` are the statistics of `items` at instant `now`.
pub open spec fn stats_of(items: Seq<MemoryItemView>, now: i64, s: Stats) -> bool {
    &&& s.total_items == items.len()
    &&& s.due_now == items.filter(|m: MemoryItemView| due_at(m, now as int)).len()
    &&& s.leech_count == items.filter(|m: MemoryItemView| leech(m)).len()
    &&& s.ease_sum == ease_sum(items)
    &&& s.total_reviews == all_reviews(items).len()
    &&& s.successful_reviews == all_reviews(items).filter(|e: ReviewLogEntry| successful(e)).len()
    &&& longest_run_is(review_days(all_reviews(items)), s.best_streak_days as int)
    &&& current_run_is(review_days(all_reviews(items)), day_of(now as int), s.current_streak_days as int)
}

/// The statistics of `items` at instant `now`: item, due and leech counts,
/// review and success counts, the ease sum, and the current and best streaks
/// of consecutive review days (the current one counted up to today, the day
/// of `now`).
pub fn compute_stats_at(items: &[MemoryItem], now: i64) -> (s: Stats)
    requires
        runs_fit_u32(review_days(all_reviews(items_view(items@)))),
    ensures
        stats_of(items_view(items@), now, s),
{
    let (due_now, leech_count, ease_sum) = count_items(items, now);
    let reviews = collect_reviews(items);
    let successful_reviews = count_successful(&reviews);
    let days = review_day_list(&reviews);
    let today = day_of_millis(now);
    let current_streak_days = current_run(&days, today);
    let best_streak_days = longest_run(&days);
    Stats {
        total_items: items.len(),
        due_now,
        total_reviews: reviews.len(),
        successful_reviews,
        current_streak_days,
        best_streak_days,
        ease_sum,
        leech_count,
    }
}

/// The statistics of `items` right now (see `compute_stats_at`).
pub fn compute_stats(items: &[MemoryItem]) -> (s: Stats)
    requires
        runs_fit_u32(review_days(all_reviews(items_view(items@)))),
    ensures
        exists|now: i64| crate::clock::clock_instant(now as int) && stats_of(items_view(items@), now, s),
{
    let now = now_millis();
    compute_stats_at(items, now)
}

/// Item and due counts of one training track.
#[derive(Clone, Debug, PartialEq)]
pub struct TrackSummary {
    pub name: String,
    pub total: usize,
    pub due: usize,
}

/// How many items belong to track `name`.
pub open spec fn track_total(items: Seq<MemoryItemView>, name: Seq<char>) -> nat {
    items.filter(|m: MemoryItemView| m.training_track == name).len()
}

/// How many items of track `name` are due at `now`.
pub open spec fn track_due(items: Seq<MemoryItemView>, name: Seq<char>, now: int) -> nat {
    items.filter(|m: MemoryItemView| m.training_track == name && due_at(m, now)).len()
}

/// Some item belongs to track `name`.
pub open spec fn is_track(items: Seq<MemoryItemView>, name: Seq<char>) -> bool {
    exists|j: int| 0 <= j < items.len() && items[j].training_track == name
}

/// The names sorted strictly in text order.
pub open spec fn names_ascending(s: Seq<TrackSummary>) -> bool {
    forall|a: int, b: int| 0 <= a < b < s.len() ==> text_lt(s[a].name@, s[b].name@)
}

/// Some summary is for track `name`.
pub open spec fn lists_track(summaries: Seq<TrackSummary>, name: Seq<char>) -> bool {
    exists|k: int| 0 <= k < summaries.len() && summaries[k].name@ == name
}

/// `summaries` lists each track of `items` once, sorted alphabetically, with
/// its item count and due count at `now`.
pub open spec fn tracks_summarized(
    items: Seq<MemoryItemView>,
    summaries: Seq<TrackSummary>,
    now: int,
) -> bool {
    &&& names_ascending(summaries)
    &&& forall|k: int| 0 <= k < summaries.len() ==> is_track(items, #[trigger] summaries[k].name@)
    &&& forall|j: int| 0 <= j < items.len() ==> lists_track(summaries, #[trigger] items[j].training_track)
    &&& forall|k: int|
        0 <= k < summaries.len() ==> #[trigger] summaries[k].total == track_total(
            items,
            summaries[k].name@,
        ) && summaries[k].due == track_due(items, summaries[k].name@, now)
}

proof fn lemma_track_counts_step(t: Seq<MemoryItemView>, x: MemoryItemView, name: Seq<char>, now: int)
    ensures
        track_total(t.push(x), name) == track_total(t, name) + if x.training_track == name {
            1nat
        } else {
            0nat
        },
        track_due(t.push(x), name, now) == track_due(t, name, now) + if x.training_track == name
            && due_at(x, now) {
            1nat
        } else {
            0nat
        },
        track_due(t, name, now) <= track_total(t, name) <= t.len(),
{
    lemma_filter_push(t, x, |m: MemoryItemView| m.training_track == name);
    lemma_filter_push(t, x, |m: MemoryItemView| m.training_track == name && due_at(m, now));
    lemma_filter_weaker(
        t,
        |m: MemoryItemView| m.training_track == name && due_at(m, now),
        |m: MemoryItemView| m.training_track == name,
    );
}

proof fn lemma_listed_counts(t: Seq<MemoryItemView>, x: MemoryItemView, before: Seq<TrackSummary>, now: int)
    requires
        tracks_summarized(t, before, now),
    ensures
        forall|k: int|
            0 <= k < before.len() ==> #[trigger] before[k].due <= before[k].total <= t.len(),
{
    assert forall|k: int| 0 <= k < before.len() implies #[trigger] before[k].due
        <= before[k].total <= t.len() by {
        lemma_track_counts_step(t, x, before[k].name@, now);
    }
}

proof fn lemma_track_increment(
    t: Seq<MemoryItemView>,
    x: MemoryItemView,
    before: Seq<TrackSummary>,
    after: Seq<TrackSummary>,
    p: int,
    now: int,
)
    requires
        tracks_summarized(t, before, now),
        0 <= p < before.len(),
        before[p].name@ == x.training_track,
        after.len() == before.len(),
        forall|k: int| 0 <= k < before.len() && k != p ==> after[k] == before[k],
        after[p].name == before[p].name,
        after[p].total == before[p].total + 1,
        after[p].due == before[p].due + if due_at(x, now) { 1int } else { 0int },
    ensures
        tracks_summarized(t.push(x), after, now),
{
    let u = t.push(x);
    assert forall|a: int, b: int| 0 <= a < b < after.len() implies text_lt(
        after[a].name@,
        after[b].name@,
    ) by {
        assert(after[a].name == before[a].name);
        assert(after[b].name == before[b].name);
    }
    assert forall|k: int| 0 <= k < after.len() implies is_track(u, #[trigger] after[k].name@) by {
        assert(after[k].name == before[k].name);
        assert(is_track(t, before[k].name@));
        let j = choose|j: int| 0 <= j < t.len() && t[j].training_track == before[k].name@;
        assert(u[j] == t[j]);
    }
    assert forall|j: int| 0 <= j < u.len() implies lists_track(after, #[trigger] u[j].training_track) by {
        if j < t.len() {
            assert(u[j] == t[j]);
            assert(lists_track(before, t[j].training_track));
            let k = choose|k: int| 0 <= k < before.len() && before[k].name@ == t[j].training_track;
            assert(after[k].name == before[k].name);
        } else {
            assert(after[p].name@ == u[j].training_track);
        }
    }
    assert forall|k: int| 0 <= k < after.len() implies #[trigger] after[k].total == track_total(
        u,
        after[k].name@,
    ) && after[k].due == track_due(u, after[k].name@, now) by {
        assert(before[k].total == track_total(t, before[k].name@));
        lemma_track_counts_step(t, x, before[k].name@, now);
        if k != p {
            lemma_text_lt_asymmetric(before[k].name@, before[p].name@);
            lemma_text_lt_irreflexive(before[k].name@);
        }
    }
    assert(names_ascending(after));
    assert(forall|k: int| 0 <= k < after.len() ==> is_track(u, #[trigger] after[k].name@));
    assert(forall|j: int| 0 <= j < u.len() ==> lists_track(after, #[trigger] u[j].training_track));
    assert(forall|k: int|
        0 <= k < after.len() ==> #[trigger] after[k].total == track_total(u, after[k].name@)
            && after[k].due == track_due(u, after[k].name@, now));
    assert(tracks_summarized(u, after, now));
}

#[verifier::spinoff_prover]
#[verifier::rlimit(40)]
proof fn lemma_insert_keeps_names_ascending(before: Seq<TrackSummary>, summary: TrackSummary, p: int)
    requires
        names_ascending(before),
        0 <= p <= before.len(),
        forall|k: int| 0 <= k < p ==> text_lt(before[k].name@, summary.name@),
        p < before.len() ==> text_lt(summary.name@, before[p].name@),
    ensures
        names_ascending(before.insert(p, summary)),
{
    let after = before.insert(p, summary);
    before.insert_ensures(p, summary);
    assert forall|a: int, b: int| 0 <= a < b < after.len() implies text_lt(
        after[a].name@,
        after[b].name@,
    ) by {
        if b < p {
        } else if b == p {
        } else if a < p {
            if b - 1 > p {
                lemma_text_lt_transitive(summary.name@, before[p].name@, before[b - 1].name@);
            }
            lemma_text_lt_transitive(before[a].name@, summary.name@, before[b - 1].name@);
        } else if a == p {
            if b - 1 > p {
                lemma_text_lt_transitive(summary.name@, before[p].name@, before[b - 1].name@);
            }
        } else {
        }
    }
}

proof fn lemma_new_track(
    t: Seq<MemoryItemView>,
    x: MemoryItemView,
    before: Seq<TrackSummary>,
    p: int,
    now: int,
)
    requires
        tracks_summarized(t, before, now),
        0 <= p <= before.len(),
        forall|k: int| 0 <= k < p ==> text_lt(before[k].name@, x.training_track),
        p < before.len() ==> before[p].name@ != x.training_track && !text_lt(
            before[p].name@,
            x.training_track,
        ),
    ensures
        p < before.len() ==> text_lt(x.training_track, before[p].name@),
        forall|k: int| 0 <= k < before.len() ==> before[k].name@ != x.training_track,
        track_total(t, x.training_track) == 0,
        track_due(t, x.training_track, now) == 0,
{
    if p < before.len() {
        lemma_text_lt_total(before[p].name@, x.training_track);
    }
    assert forall|k: int| 0 <= k < before.len() implies before[k].name@ != x.training_track by {
        lemma_text_lt_irreflexive(x.training_track);
        if k > p {
            lemma_text_lt_transitive(x.training_track, before[p].name@, before[k].name@);
        }
    }
    assert forall|j: int| 0 <= j < t.len() implies t[j].training_track != x.training_track by {
        assert(lists_track(before, t[j].training_track));
        let k = choose|k: int| 0 <= k < before.len() && before[k].name@ == t[j].training_track;
    }
    lemma_filter_none(t, |m: MemoryItemView| m.training_track == x.training_track);
    lemma_track_counts_step(t, x, x.training_track, now);
}

proof fn lemma_insert_lists_tracks(
    t: Seq<MemoryItemView>,
    x: MemoryItemView,
    before: Seq<TrackSummary>,
    summary: TrackSummary,
    p: int,
    now: int,
)
    requires
        tracks_summarized(t, before, now),
        0 <= p <= before.len(),
        summary.name@ == x.training_track,
    ensures
        forall|k: int|
            0 <= k < before.insert(p, summary).len() ==> is_track(
                t.push(x),
                #[trigger] before.insert(p, summary)[k].name@,
            ),
        forall|j: int|
            0 <= j < t.push(x).len() ==> lists_track(
                before.insert(p, summary),
                #[trigger] t.push(x)[j].training_track,
            ),
{
    let u = t.push(x);
    let after = before.insert(p, summary);
    before.insert_ensures(p, summary);
    assert forall|k: int| 0 <= k < after.len() implies is_track(u, #[trigger] after[k].name@) by {
        if k == p {
            assert(u[t.len() as int].training_track == x.training_track);
        } else {
            let k0 = if k < p { k } else { k - 1 };
            assert(after[k] == before[k0]);
            assert(is_track(t, before[k0].name@));
            let j = choose|j: int| 0 <= j < t.len() && t[j].training_track == before[k0].name@;
            assert(u[j] == t[j]);
        }
    }
    assert forall|j: int| 0 <= j < u.len() implies lists_track(after, #[trigger] u[j].training_track) by {
        if j < t.len() {
            assert(u[j] == t[j]);
            assert(lists_track(before, t[j].training_track));
            let k = choose|k: int| 0 <= k < before.len() && before[k].name@ == t[j].training_track;
            if k < p {
                assert(after[k] == before[k]);
            } else {
                assert(after[k + 1] == before[k]);
            }
        } else {
            assert(after[p].name@ == u[j].training_track);
        }
    }
}

proof fn lemma_insert_counts(
    t: Seq<MemoryItemView>,
    x: MemoryItemView,
    before: Seq<TrackSummary>,
    summary: TrackSummary,
    p: int,
    now: int,
)
    requires
        tracks_summarized(t, before, now),
        0 <= p <= before.len(),
        forall|k: int| 0 <= k < before.len() ==> before[k].name@ != x.training_track,
        track_total(t, x.training_track) == 0,
        track_due(t, x.training_track, now) == 0,
        summary.name@ == x.training_track,
        summary.total == 1,
        summary.due == if due_at(x, now) { 1int } else { 0int },
    ensures
        forall|k: int|
            0 <= k < before.insert(p, summary).len() ==> #[trigger] before.insert(p, summary)[k].total
                == track_total(t.push(x), before.insert(p, summary)[k].name@) && before.insert(
                p,
                summary,
            )[k].due == track_due(t.push(x), before.insert(p, summary)[k].name@, now),
{
    let u = t.push(x);
    let after = before.insert(p, summary);
    before.insert_ensures(p, summary);
    assert forall|k: int| 0 <= k < after.len() implies #[trigger] after[k].total == track_total(
        u,
        after[k].name@,
    ) && after[k].due == track_due(u, after[k].name@, now) by {
        if k != p {
            let k0 = if k < p { k } else { k - 1 };
            assert(after[k] == before[k0]);
            assert(before[k0].total == track_total(t, before[k0].name@));
            lemma_track_counts_step(t, x, before[k0].name@, now);
        } else {
            lemma_track_counts_step(t, x, x.training_track, now);
        }
    }
}

proof fn lemma_track_insert(
    t: Seq<MemoryItemView>,
    x: MemoryItemView,
    before: Seq<TrackSummary>,
    summary: TrackSummary,
    p: int,
    now: int,
)
    requires
        tracks_summarized(t, before, now),
        0 <= p <= before.len(),
        forall|k: int| 0 <= k < p ==> text_lt(before[k].name@, x.training_track),
        p < before.len() ==> before[p].name@ != x.training_track && !text_lt(
            before[p].name@,
            x.training_track,
        ),
        summary.name@ == x.training_track,
        summary.total == 1,
        summary.due == if due_at(x, now) { 1int } else { 0int },
    ensures
        tracks_summarized(t.push(x), before.insert(p, summary), now),
{
    lemma_new_track(t, x, before, p, now);
    lemma_insert_keeps_names_ascending(before, summary, p);
    lemma_insert_lists_tracks(t, x, before, summary, p, now);
    lemma_insert_counts(t, x, before, summary, p, now);
    let u = t.push(x);
    let after = before.insert(p, summary);
    assert(names_ascending(after));
    assert(forall|k: int| 0 <= k < after.len() ==> is_track(u, #[trigger] after[k].name@));
    assert(forall|j: int| 0 <= j < u.len() ==> lists_track(after, #[trigger] u[j].training_track));
    assert(forall|k: int|
        0 <= k < after.len() ==> #[trigger] after[k].total == track_total(u, after[k].name@)
            && after[k].due == track_due(u, after[k].name@, now));
}

/// Per-track item and due counts at instant `now`, sorted alphabetically by
/// track name.
pub fn list_tracks_at(items: &[MemoryItem], now: i64) -> (r: Vec<TrackSummary>)
    ensures
        tracks_summarized(items_view(items@), r@, now as int),
{
    let ghost iv = items_view(items@);
    let mut r: Vec<TrackSummary> = Vec::new();
    let n = items.len();
    for i in 0..n
        invariant
            n == items@.len(),
            iv == items_view(items@),
            tracks_summarized(iv.take(i as int), r@, now as int),
    {
        let ghost t = iv.take(i as int);
        let ghost x = iv[i as int];
        let item = &items[i];
        let due = item.is_due_at(now);
        proof {
            assert(iv.take(i + 1) =~= t.push(x));
            assert(item@ == x);
            lemma_listed_counts(t, x, r@, now as int);
        }
        let len = r.len();
        let mut p: usize = 0;
        while p < len && str_lt(r[p].name.as_str(), item.training_track.as_str())
            invariant
                len == r@.len(),
                p <= len,
                item@ == x,
                forall|k: int| 0 <= k < p ==> text_lt(r@[k].name@, x.training_track),
            decreases len - p,
        {
            p = p + 1;
        }
        let ghost before = r@;
        if p < len && r[p].name == item.training_track {
            proof {
                assert(before[p as int].due <= before[p as int].total <= i);
            }
            let total = r[p].total + 1;
            let d = if due { r[p].due + 1 } else { r[p].due };
            r[p].total = total;
            r[p].due = d;
            proof {
                lemma_track_increment(t, x, before, r@, p as int, now as int);
            }
        } else {
            let summary = TrackSummary {
                name: item.training_track.clone(),
                total: 1,
                due: if due { 1 } else { 0 },
            };
            proof {
                lemma_track_insert(t, x, before, summary, p as int, now as int);
            }
            r.insert(p, summary);
        }
    }
    proof {
        assert(iv.take(n as int) =~= iv);
    }
    r
}

/// Per-track item and due counts right now, sorted alphabetically by track
/// name.
pub fn list_tracks(items: &[MemoryItem]) -> (r: Vec<TrackSummary>)
    ensures
        exists|now: i64|
            crate::clock::clock_instant(now as int) && tracks_summarized(
                items_view(items@),
                r@,
                now as int,
            ),
{
    let now = now_millis();
    list_tracks_at(items, now)
}

/// How many of the reviews happened on calendar day `day`.
pub open spec fn reviews_on(reviews: Seq<ReviewLogEntry>, day: int) -> nat {
    reviews.filter(|e: ReviewLogEntry| review_day(e) == day).len()
}

/// How many of the reviews on calendar day `day` were successful.
pub open spec fn successes_on(reviews: Seq<ReviewLogEntry>, day: int) -> nat {
    reviews.filter(|e: ReviewLogEntry| review_day(e) == day && successful(e)).len()
}

/// The reviews and the successful reviews of each calendar day, keyed by
/// day; a day without reviews has no entry.
fn day_tallies(reviews: &Vec<ReviewLogEntry>) -> (m: BTreeMap<i64, (usize, usize)>)
    ensures
        forall|d: i64|
            #[trigger] m@.contains_key(d) ==> m@[d].0 == reviews_on(reviews@, d as int)
                && m@[d].1 == successes_on(reviews@, d as int),
        forall|d: i64|
            #![trigger m@.contains_key(d)]
            !m@.contains_key(d) ==> reviews_on(reviews@, d as int) == 0 && successes_on(
                reviews@,
                d as int,
            ) == 0,
{
    broadcast use vstd::std_specs::btree::group_btree_axioms;

    proof {
        lemma_i64_keys_ordered();
    }
    let mut m: BTreeMap<i64, (usize, usize)> = BTreeMap::new();
    let n = reviews.len();
    proof {
        assert(reviews@.take(0) =~= Seq::<ReviewLogEntry>::empty());
        reveal_with_fuel(Seq::filter, 1);
    }
    for i in 0..n
        invariant
            n == reviews@.len(),
            forall|d: i64|
                #[trigger] m@.contains_key(d) ==> m@[d].0 == reviews_on(
                    reviews@.take(i as int),
                    d as int,
                ) && m@[d].1 == successes_on(reviews@.take(i as int), d as int) && m@[d].1
                    <= m@[d].0 <= i,
            forall|d: i64|
                #![trigger m@.contains_key(d)]
                !m@.contains_key(d) ==> reviews_on(reviews@.take(i as int), d as int) == 0
                    && successes_on(reviews@.take(i as int), d as int) == 0,
    {
        let ghost t = reviews@.take(i as int);
        let e = reviews[i];
        let day = day_of_millis(e.reviewed_at);
        let (total, ok) = match m.get(&day) {
            Some(c) => *c,
            None => (0, 0),
        };
        let ok2 = if e.score >= 3 {
            ok + 1
        } else {
            ok
        };
        let ghost before = m@;
        m.insert(day, (total + 1, ok2));
        proof {
            assert(reviews@.take(i + 1) =~= t.push(e));
            assert forall|d: i64| #[trigger] m@.contains_key(d) implies m@[d].0 == reviews_on(
                reviews@.take(i + 1),
                d as int,
            ) && m@[d].1 == successes_on(reviews@.take(i + 1), d as int) && m@[d].1 <= m@[d].0
                <= i + 1 by {
                lemma_filter_push(t, e, |x: ReviewLogEntry| review_day(x) == d as int);
                lemma_filter_push(
                    t,
                    e,
                    |x: ReviewLogEntry| review_day(x) == d as int && successful(x),
                );
                if d != day {
                    assert(before.contains_key(d));
                }
            }
            assert forall|d: i64|
                #![trigger m@.contains_key(d)]
                !m@.contains_key(d) implies reviews_on(reviews@.take(i + 1), d as int) == 0
                    && successes_on(reviews@.take(i + 1), d as int) == 0 by {
                lemma_filter_push(t, e, |x: ReviewLogEntry| review_day(x) == d as int);
                lemma_filter_push(
                    t,
                    e,
                    |x: ReviewLogEntry| review_day(x) == d as int && successful(x),
                );
                assert(!before.contains_key(d));
            }
        }
    }
    proof {
        assert(reviews@.take(n as int) =~= reviews@);
    }
    m
}

/// Review count of one calendar day.
#[derive(Clone, Debug, PartialEq)]
pub struct HeatmapDay {
    /// Days since 1970-01-01.
    pub date: i64,
    pub review_count: usize,
}

/// Review counts per calendar day for the last `days` days up to and
/// including day `today`, oldest first: one entry per day, days without
/// reviews included with a count of 0 (none at all for 0 days).
pub fn review_heatmap_on(items: &[MemoryItem], days: u32, today: i64) -> (r: Vec<HeatmapDay>)
    requires
        -200_000_000_000 <= today <= 200_000_000_000,
    ensures
        r@.len() == days,
        forall|k: int|
            0 <= k < r@.len() ==> #[trigger] r@[k].date == today - days + 1 + k
                && r@[k].review_count == reviews_on(
                all_reviews(items_view(items@)),
                r@[k].date as int,
            ),
{
    let reviews = collect_reviews(items);
    let tallies = day_tallies(&reviews);
    broadcast use vstd::std_specs::btree::group_btree_axioms;

    let start: i64 = today - days as i64 + 1;
    let mut out: Vec<HeatmapDay> = Vec::new();
    for k in 0..days
        invariant
            start == today - days + 1,
            reviews@ == all_reviews(items_view(items@)),
            forall|d: i64|
                #[trigger] tallies@.contains_key(d) ==> tallies@[d].0 == reviews_on(reviews@, d as int)
                    && tallies@[d].1 == successes_on(reviews@, d as int),
            forall|d: i64|
                #![trigger tallies@.contains_key(d)]
                !tallies@.contains_key(d) ==> reviews_on(reviews@, d as int) == 0 && successes_on(
                    reviews@,
                    d as int,
                ) == 0,
            out@.len() == k,
            forall|j: int|
                0 <= j < out@.len() ==> #[trigger] out@[j].date == start + j
                    && out@[j].review_count == reviews_on(reviews@, out@[j].date as int),
    {
        let date = start + k as i64;
        proof {
            lemma_i64_keys_ordered();
        }
        let count = match tallies.get(&date) {
            Some(c) => c.0,
            None => 0,
        };
        out.push(HeatmapDay { date, review_count: count });
    }
    out
}

/// Review counts per calendar day for the last `days` days up to today (see
/// `review_heatmap_on`).
pub fn review_heatmap(items: &[MemoryItem], days: u32) -> (r: Vec<HeatmapDay>)
    ensures
        exists|now: i64|
            crate::clock::clock_instant(now as int) && r@.len() == days && forall|k: int|
                0 <= k < r@.len() ==> #[trigger] r@[k].date == day_of(now as int) - days + 1 + k
                    && r@[k].review_count == reviews_on(
                    all_reviews(items_view(items@)),
                    r@[k].date as int,
                ),
{
    let now = now_millis();
    let today = day_of_millis(now);
    review_heatmap_on(items, days, today)
}

/// Reviews and successes of one calendar day.
#[derive(Clone, Debug, PartialEq)]
pub struct RetentionPoint {
    /// Days since 1970-01-01.
    pub date: i64,
    pub reviews: usize,
    /// Reviews with score 3 or more; that day's retention rate is this over `reviews`.
    pub successes: usize,
}

/// Daily review and success counts, oldest first, one point per day that had
/// reviews. Days with zero reviews are omitted rather than shown as 0%, since
/// "no data" and "0% retention" are different things.
pub fn retention_over_time(items: &[MemoryItem]) -> (r: Vec<RetentionPoint>)
    ensures
        strictly_increasing(r@.map_values(|p: RetentionPoint| p.date)),
        values(r@.map_values(|p: RetentionPoint| p.date)) == review_days(
            all_reviews(items_view(items@)),
        ),
        forall|k: int|
            #![trigger r@[k]]
            0 <= k < r@.len() ==> r@[k].reviews == reviews_on(
                all_reviews(items_view(items@)),
                r@[k].date as int,
            ) && r@[k].successes == successes_on(
                all_reviews(items_view(items@)),
                r@[k].date as int,
            ),
{
    let reviews = collect_reviews(items);
    let ds = review_day_list(&reviews);
    let tallies = day_tallies(&reviews);
    broadcast use vstd::std_specs::btree::group_btree_axioms;

    let mut out: Vec<RetentionPoint> = Vec::new();
    let n = ds.len();
    for i in 0..n
        invariant
            n == ds@.len(),
            reviews@ == all_reviews(items_view(items@)),
            forall|d: i64|
                #[trigger] tallies@.contains_key(d) ==> tallies@[d].0 == reviews_on(reviews@, d as int)
                    && tallies@[d].1 == successes_on(reviews@, d as int),
            forall|d: i64|
                #![trigger tallies@.contains_key(d)]
                !tallies@.contains_key(d) ==> reviews_on(reviews@, d as int) == 0 && successes_on(
                    reviews@,
                    d as int,
                ) == 0,
            out@.map_values(|p: RetentionPoint| p.date) =~= ds@.take(i as int),
            forall|k: int|
                #![trigger out@[k]]
                0 <= k < out@.len() ==> out@[k].reviews == reviews_on(
                    reviews@,
                    out@[k].date as int,
                ) && out@[k].successes == successes_on(reviews@, out@[k].date as int),
    {
        let date = ds[i];
        proof {
            lemma_i64_keys_ordered();
        }
        let (total, ok) = match tallies.get(&date) {
            Some(c) => *c,
            None => (0, 0),
        };
        let ghost before = out@;
        out.push(RetentionPoint { date, reviews: total, successes: ok });
        proof {
            assert(out@.map_values(|p: RetentionPoint| p.date) =~= before.map_values(
                |p: RetentionPoint| p.date,
            ).push(date));
            assert(ds@.take(i + 1) =~= ds@.take(i as int).push(date));
        }
    }
    proof {
        assert(ds@.take(n as int) =~= ds@);
        assert forall|k: int| #![trigger out@[k]] 0 <= k < out@.len() implies out@[k].reviews == reviews_on(
            all_reviews(items_view(items@)),
            out@[k].date as int,
        ) && out@[k].successes == successes_on(all_reviews(items_view(items@)), out@[k].date as int) by {
            assert(out@[k].reviews == reviews_on(reviews@, out@[k].date as int));
        }
    }
    out
}

/// Law: every point of the retention curve has at least one review, and no
/// more successes than reviews.
pub proof fn lemma_retention_points_have_data(reviews: Seq<ReviewLogEntry>, day: int)
    requires
        review_days(reviews).contains(day),
    ensures
        reviews_on(reviews, day) >= 1,
        successes_on(reviews, day) <= reviews_on(reviews, day),
{
    broadcast use vstd::seq_lib::group_filter_ensures;

    let k = choose|k: int| 0 <= k < reviews.len() && review_day(reviews[k]) == day;
    let f = reviews.filter(|e: ReviewLogEntry| review_day(e) == day);
    assert(f.contains(reviews[k]));
    lemma_filter_weaker(
        reviews,
        |e: ReviewLogEntry| review_day(e) == day && successful(e),
        |e: ReviewLogEntry| review_day(e) == day,
    );
}

/// The `n` items with the most lifetime lapses, worst first; items with equal
/// lapses keep their order.
pub fn hardest_items(items: &[MemoryItem], n: usize) -> (r: Vec<MemoryItem>)
    ensures
        items_view(r@) == stable_sorted(items_view(items@), ItemOrder::MostLapsesFirst).take(
            if n < items@.len() { n as int } else { items@.len() as int },
        ),
{
    let mut sorted = sort_items(items, ItemOrder::MostLapsesFirst);
    let ghost all = items_view(sorted@);
    proof {
        crate::ordering::lemma_stable_sorted(items_view(items@), ItemOrder::MostLapsesFirst);
    }
    sorted.truncate(n);
    proof {
        if n < items@.len() {
            assert(items_view(sorted@) =~= all.take(n as int));
        } else {
            assert(items_view(sorted@) =~= all.take(items@.len() as int));
        }
    }
    sorted
}

/// Law: the best streak is at most the number of days with reviews, which is
/// at most the number of reviews; with at least one review it is at least
/// one day.
pub proof fn lemma_best_streak_bounded(reviews: Seq<ReviewLogEntry>, b: int)
    requires
        longest_run_is(review_days(reviews), b),
    ensures
        review_days(reviews).finite(),
        review_days(reviews).len() <= reviews.len(),
        0 <= b <= review_days(reviews).len(),
        reviews.len() > 0 ==> b >= 1,
{
    let days = review_days(reviews);
    let ds = reviews.map_values(|e: ReviewLogEntry| review_day(e));
    assert forall|d: int| days.contains(d) <==> ds.to_set().contains(d) by {
        if days.contains(d) {
            let k = choose|k: int| 0 <= k < reviews.len() && review_day(reviews[k]) == d;
            assert(ds[k] == d);
        }
        if ds.to_set().contains(d) {
            let k = choose|k: int| 0 <= k < ds.len() && ds[k] == d;
            assert(review_day(reviews[k]) == d);
        }
    }
    assert(days =~= ds.to_set());
    ds.lemma_cardinality_of_set();
    vstd::seq_lib::seq_to_set_is_finite(ds);
    assert(consecutive_days(days, 0, 0));
    let start = choose|start: int| consecutive_days(days, start, b);
    vstd::set_lib::lemma_int_range(start, start + b);
    let range = vstd::set_lib::set_int_range(start, start + b);
    assert forall|d: int| range.contains(d) implies days.contains(d) by {
        assert(days.contains(start + (d - start)));
    }
    vstd::set_lib::lemma_len_subset(range, days);
    if reviews.len() > 0 {
        let d = review_day(reviews[0]);
        assert(days.contains(d));
        assert(consecutive_days(days, d, 1)) by {
            assert forall|k: int| 0 <= k < 1 implies #[trigger] days.contains(d + k) by {
                assert(d + k == d);
            }
        }
    }
}

/// An item's track, as the key items are grouped by.
pub open spec fn track_key() -> spec_fn(MemoryItemView) -> Seq<char> {
    |m: MemoryItemView| m.training_track
}

/// The item counts of the summaries, added up.
pub open spec fn summary_totals(s: Seq<TrackSummary>) -> int
    decreases s.len(),
{
    if s.len() == 0 {
        0
    } else {
        summary_totals(s.drop_last()) + s.last().total
    }
}

/// The track names of the summaries, in order.
pub open spec fn summary_names(s: Seq<TrackSummary>) -> Seq<Seq<char>> {
    s.map_values(|t: TrackSummary| t.name@)
}

proof fn lemma_summary_totals_by_key(items: Seq<MemoryItemView>, s: Seq<TrackSummary>)
    requires
        forall|k: int| 0 <= k < s.len() ==> #[trigger] s[k].total == track_total(items, s[k].name@),
    ensures
        summary_totals(s) == count_with_keys(items, track_key(), summary_names(s)),
    decreases s.len(),
{
    if s.len() > 0 {
        let init = s.drop_last();
        assert forall|k: int| 0 <= k < init.len() implies #[trigger] init[k].total == track_total(
            items,
            init[k].name@,
        ) by {
            assert(init[k] == s[k]);
        }
        lemma_summary_totals_by_key(items, init);
        assert(summary_names(s).drop_last() =~= summary_names(init));
        let name = s.last().name@;
        assert(s[s.len() - 1].total == track_total(items, name));
        assert(summary_names(s).last() == name);
        lemma_filter_same(items, has_key(track_key(), name), |m: MemoryItemView| m.training_track == name);
        assert(count_with_key(items, track_key(), name) == track_total(items, name));
    }
}

/// Law: the track summaries account for every item exactly once: their item
/// counts add up to the number of items.
pub proof fn lemma_track_totals_sum(items: Seq<MemoryItemView>, summaries: Seq<TrackSummary>, now: int)
    requires
        tracks_summarized(items, summaries, now),
    ensures
        summary_totals(summaries) == items.len(),
{
    lemma_summary_totals_by_key(items, summaries);
    let names = summary_names(summaries);
    assert(names.no_duplicates()) by {
        assert forall|a: int, b: int|
            0 <= a < names.len() && 0 <= b < names.len() && a != b implies names[a] != names[b] by {
            if a < b {
                lemma_text_lt_irreflexive(summaries[a].name@);
                assert(text_lt(summaries[a].name@, summaries[b].name@));
            } else {
                lemma_text_lt_irreflexive(summaries[b].name@);
                assert(text_lt(summaries[b].name@, summaries[a].name@));
            }
        }
    }
    assert forall|i: int| 0 <= i < items.len() implies names.contains(
        track_key()(#[trigger] items[i]),
    ) by {
        assert(lists_track(summaries, items[i].training_track));
        let k = choose|k: int|
            0 <= k < summaries.len() && summaries[k].name@ == items[i].training_track;
        assert(names[k] == items[i].training_track);
    }
    lemma_count_with_keys_total(items, track_key(), names);
}

/// A review's calendar day, as the key reviews are grouped by.
pub open spec fn day_key() -> spec_fn(ReviewLogEntry) -> int {
    |e: ReviewLogEntry| review_day(e)
}

/// The review counts of the points, added up.
pub open spec fn point_reviews(s: Seq<RetentionPoint>) -> int
    decreases s.len(),
{
    if s.len() == 0 {
        0
    } else {
        point_reviews(s.drop_last()) + s.last().reviews
    }
}

/// The days of the points, in order.
pub open spec fn point_days(s: Seq<RetentionPoint>) -> Seq<int> {
    s.map_values(|p: RetentionPoint| p.date as int)
}

proof fn lemma_point_reviews_by_key(reviews: Seq<ReviewLogEntry>, s: Seq<RetentionPoint>)
    requires
        forall|k: int|
            0 <= k < s.len() ==> #[trigger] s[k].reviews == reviews_on(reviews, s[k].date as int),
    ensures
        point_reviews(s) == count_with_keys(reviews, day_key(), point_days(s)),
    decreases s.len(),
{
    if s.len() > 0 {
        let init = s.drop_last();
        assert forall|k: int| 0 <= k < init.len() implies #[trigger] init[k].reviews == reviews_on(
            reviews,
            init[k].date as int,
        ) by {
            assert(init[k] == s[k]);
        }
        lemma_point_reviews_by_key(reviews, init);
        assert(point_days(s).drop_last() =~= point_days(init));
        let day = s.last().date as int;
        assert(s[s.len() - 1].reviews == reviews_on(reviews, day));
        assert(point_days(s).last() == day);
        lemma_filter_same(reviews, has_key(day_key(), day), |e: ReviewLogEntry| review_day(e) == day);
        assert(count_with_key(reviews, day_key(), day) == reviews_on(reviews, day));
    }
}

/// Law: the retention curve accounts for every review exactly once: the
/// review counts of its days add up to the number of reviews.
pub proof fn lemma_retention_counts_sum(reviews: Seq<ReviewLogEntry>, points: Seq<RetentionPoint>)
    requires
        strictly_increasing(points.map_values(|p: RetentionPoint| p.date)),
        values(points.map_values(|p: RetentionPoint| p.date)) == review_days(reviews),
        forall|k: int|
            #![trigger points[k]]
            0 <= k < points.len() ==> points[k].reviews == reviews_on(reviews, points[k].date as int),
    ensures
        point_reviews(points) == reviews.len(),
{
    let dates = points.map_values(|p: RetentionPoint| p.date);
    let days = point_days(points);
    assert forall|k: int| 0 <= k < points.len() implies #[trigger] points[k].reviews == reviews_on(
        reviews,
        points[k].date as int,
    ) by {
    }
    lemma_point_reviews_by_key(reviews, points);
    assert(days.no_duplicates()) by {
        assert forall|a: int, b: int|
            0 <= a < days.len() && 0 <= b < days.len() && a != b implies days[a] != days[b] by {
            if a < b {
                assert(dates[a] < dates[b]);
            } else {
                assert(dates[b] < dates[a]);
            }
        }
    }
    assert forall|i: int| 0 <= i < reviews.len() implies days.contains(
        day_key()(#[trigger] reviews[i]),
    ) by {
        let d = review_day(reviews[i]);
        assert(review_days(reviews).contains(d));
        assert(values(dates).contains(d));
        let k = choose|k: int| 0 <= k < dates.len() && dates[k] == d;
        assert(days[k] == d);
    }
    lemma_count_with_keys_total(reviews, day_key(), days);
}

} // verus!
