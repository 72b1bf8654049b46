//! Review scheduling: the `Scheduler` strategy and the classic SM-2 algorithm.
use vstd::prelude::*;

use crate::clock::{clock_instant, now_millis, MS_PER_DAY};
use crate::domain::{MemoryItem, MemoryItemView, ReviewLogEntry};

verus! {

/// The review score actually used: scores above 5 count as 5.
pub open spec fn clamp_score(score: u8) -> u8 {
    if score > 5 { 5 } else { score }
}

/// A review with this (clamped) score is a successful recall (score 3 or more).
pub open spec fn recalled(score: u8) -> bool {
    score >= 3
}

/// The counters of the item can still grow by one.
pub open spec fn can_record_review(m: MemoryItemView) -> bool {
    &&& m.repetitions < u32::MAX
    &&& m.lapses < u32::MAX
    &&& m.total_lapses < u32::MAX
}

/// The instant a review is due `interval_days` days after `now`.
pub open spec fn due_after(now: int, interval_days: u32) -> int {
    now + interval_days * MS_PER_DAY
}

/// What every scheduler does when it records a review of `old` with `score`,
/// yielding `new`: the clamped score and the intervals before and after are
/// appended to the history (which is otherwise kept), the next review is
/// `interval_days` days after the review, a recall extends the run of
/// repetitions and ends a run of lapses, a failure resets the repetitions and
/// counts one more lapse, both in a row and over the item's lifetime; the
/// item's identity, content and links are untouched.
pub open spec fn review_recorded(old: MemoryItemView, new: MemoryItemView, score: u8) -> bool {
    let s = clamp_score(score);
    let n = old.review_log.len();
    let entry = new.review_log[n as int];
    &&& new.review_log.len() == n + 1
    &&& new.review_log.take(n as int) == old.review_log
    &&& entry.score == s
    &&& entry.interval_before_days == old.interval_days
    &&& entry.interval_after_days == new.interval_days
    &&& clock_instant(entry.reviewed_at as int)
    &&& new.next_review == due_after(entry.reviewed_at as int, new.interval_days)
    &&& if recalled(s) {
        &&& new.repetitions == old.repetitions + 1
        &&& new.lapses == 0
        &&& new.total_lapses == old.total_lapses
    } else {
        &&& new.repetitions == 0
        &&& new.lapses == old.lapses + 1
        &&& new.total_lapses == old.total_lapses + 1
    }
    &&& new.id == old.id
    &&& new.training_track == old.training_track
    &&& new.prompt == old.prompt
    &&& new.content == old.content
    &&& new.created_at == old.created_at
    &&& new.related_ids == old.related_ids
}

/// Strategy for scheduling the next review of a `MemoryItem`.
///
/// Kept as a trait so another algorithm (FSRS) can be dropped in without
/// touching domain or storage code.
pub trait Scheduler {
    /// Applies a review with the given quality `score` (0-5, Anki/SM-2
    /// convention: 5 = perfect recall, 0 = total blackout) to the item.
    fn schedule(&self, item: &mut MemoryItem, score: u8)
        requires
            can_record_review(old(item)@),
        ensures
            review_recorded(old(item)@, final(item)@, score),
    ;
}

/// Classic SM-2 spaced-repetition algorithm.
pub struct Sm2Scheduler;

/// `interval * ease / 100` rounded to the nearest day (halves up), as a `u32`
/// (saturating): the interval stretched by the ease factor.
pub open spec fn stretch(interval: u32, ease: u32) -> u32 {
    let x = (interval * ease + 50) / 100;
    if x > u32::MAX { u32::MAX } else { x as u32 }
}

/// The SM-2 interval after a review of `m` with clamped score `s`: 1 day after
/// a failure, else 1 day, 6 days, then the previous interval times the ease.
pub open spec fn sm2_interval(m: MemoryItemView, s: u8) -> u32 {
    if !recalled(s) {
        1
    } else if m.repetitions == 0 {
        1
    } else if m.repetitions == 1 {
        6
    } else {
        stretch(m.interval_days, m.ease)
    }
}

/// The SM-2 ease after a review with clamped score `s`, in hundredths:
/// EF' = EF + 0.1 - (5 - q) * (0.08 + (5 - q) * 0.02), never below 1.3.
pub open spec fn sm2_ease(ease: u32, s: u8) -> u32 {
    let d = 5 - s;
    let e = ease + 10 - d * (8 + 2 * d);
    if e < 130 {
        130
    } else if e > u32::MAX {
        u32::MAX
    } else {
        e as u32
    }
}

/// The item after an SM-2 review with `score` at instant `now`.
pub open spec fn after_sm2_review(m: MemoryItemView, score: u8, now: i64) -> MemoryItemView {
    let s = clamp_score(score);
    let interval = sm2_interval(m, s);
    let ease = sm2_ease(m.ease, s);
    let entry = ReviewLogEntry {
        reviewed_at: now,
        score: s,
        interval_before_days: m.interval_days,
        interval_after_days: interval,
        ease_after: ease,
        difficulty_after: None,
        stability_after: None,
    };
    MemoryItemView {
        repetitions: if recalled(s) { (m.repetitions + 1) as u32 } else { 0 },
        lapses: if recalled(s) { 0 } else { (m.lapses + 1) as u32 },
        total_lapses: if recalled(s) { m.total_lapses } else { (m.total_lapses + 1) as u32 },
        interval_days: interval,
        ease,
        next_review: due_after(now as int, interval) as i64,
        review_log: m.review_log.push(entry),
        ..m
    }
}

/// The ease after a review, in hundredths.
fn next_ease(ease: u32, s: u8) -> (e: u32)
    requires
        s <= 5,
    ensures
        e == sm2_ease(ease, s),
{
    let d: i64 = 5 - s as i64;
    assert(0 <= d * (8 + 2 * d) <= 90) by (nonlinear_arith)
        requires
            0 <= d <= 5,
    ;
    let e: i64 = ease as i64 + 10 - d * (8 + 2 * d);
    if e < 130 {
        130
    } else if e > u32::MAX as i64 {
        u32::MAX
    } else {
        e as u32
    }
}

/// The interval stretched by the ease, rounded to whole days.
fn stretched_interval(interval: u32, ease: u32) -> (r: u32)
    ensures
        r == stretch(interval, ease),
{
    assert((interval as u128) * (ease as u128) <= 0xffff_ffff_u128 * 0xffff_ffff_u128)
        by (nonlinear_arith);
    let product: u128 = interval as u128 * ease as u128;
    let x: u128 = (product + 50) / 100;
    if x > u32::MAX as u128 {
        u32::MAX
    } else {
        x as u32
    }
}

impl Sm2Scheduler {
    /// Applies an SM-2 review with `score` to `item` at instant `now`.
    pub fn review_at(&self, item: &mut MemoryItem, score: u8, now: i64)
        requires
            can_record_review(old(item)@),
            clock_instant(now as int),
        ensures
            final(item)@ == after_sm2_review(old(item)@, score, now),
    {
        let ghost before = item@;
        let score = if score > 5 { 5 } else { score };
        let interval_before = item.interval_days;

        if score >= 3 {
            item.interval_days = if item.repetitions == 0 {
                1
            } else if item.repetitions == 1 {
                6
            } else {
                stretched_interval(item.interval_days, item.ease)
            };
            item.repetitions = item.repetitions + 1;
            item.lapses = 0;
        } else {
            item.repetitions = 0;
            item.interval_days = 1;
            item.lapses = item.lapses + 1;
            item.total_lapses = item.total_lapses + 1;
        }

        item.ease = next_ease(item.ease, score);
        item.next_review = now + item.interval_days as i64 * MS_PER_DAY;

        item.review_log.push(
            ReviewLogEntry {
                reviewed_at: now,
                score,
                interval_before_days: interval_before,
                interval_after_days: item.interval_days,
                ease_after: item.ease,
                difficulty_after: None,
                stability_after: None,
            },
        );
        proof {
            assert(item@ == after_sm2_review(before, score, now));
        }
    }
}

impl Scheduler for Sm2Scheduler {
    fn schedule(&self, item: &mut MemoryItem, score: u8)
        ensures
            exists|now: i64|
                clock_instant(now as int) && final(item)@ == after_sm2_review(
                    old(item)@,
                    score,
                    now,
                ),
    {
        let now = now_millis();
        self.review_at(item, score, now);
        proof {
            lemma_sm2_records_review(old(item)@, score, now);
        }
    }
}

/// An SM-2 review records the review as every scheduler must.
pub proof fn lemma_sm2_records_review(m: MemoryItemView, score: u8, now: i64)
    requires
        can_record_review(m),
        clock_instant(now as int),
    ensures
        review_recorded(m, after_sm2_review(m, score, now), score),
{
    let new = after_sm2_review(m, score, now);
    assert(new.review_log.take(m.review_log.len() as int) =~= m.review_log);
}

/// Failed reviews in a history.
pub open spec fn failures(log: Seq<ReviewLogEntry>) -> nat
    decreases log.len(),
{
    if log.len() == 0 {
        0
    } else {
        failures(log.drop_last()) + if recalled(log.last().score) { 0nat } else { 1nat }
    }
}

/// Length of the run of reviews at the end of a history whose outcome
/// (recalled or not) is `outcome`.
pub open spec fn trailing_run(log: Seq<ReviewLogEntry>, outcome: bool) -> nat
    decreases log.len(),
{
    if log.len() == 0 || recalled(log.last().score) != outcome {
        0
    } else {
        trailing_run(log.drop_last(), outcome) + 1
    }
}

/// The item's counters agree with its history: repetitions is the run of
/// recalls at the end, lapses the run of failures at the end, and
/// total_lapses the number of failures overall.
pub open spec fn counters_match_history(m: MemoryItemView) -> bool {
    &&& m.repetitions == trailing_run(m.review_log, true)
    &&& m.lapses == trailing_run(m.review_log, false)
    &&& m.total_lapses == failures(m.review_log)
}

/// Law: a fresh item's counters agree with its (empty) history.
pub proof fn lemma_fresh_counters_match(m: MemoryItemView)
    requires
        m.review_log.len() == 0,
        m.repetitions == 0,
        m.lapses == 0,
        m.total_lapses == 0,
    ensures
        counters_match_history(m),
{
}

/// Law: every scheduler keeps the counters in agreement with the history, so
/// a success resets the lapses in a row but never the lifetime total, and the
/// lifetime total is exactly the number of failed reviews.
pub proof fn lemma_review_keeps_counters(old: MemoryItemView, new: MemoryItemView, score: u8)
    requires
        counters_match_history(old),
        review_recorded(old, new, score),
    ensures
        counters_match_history(new),
{
    let n = old.review_log.len();
    assert(new.review_log.drop_last() =~= new.review_log.take(n as int));
}

/// Law: an SM-2 review never leaves the ease factor below 1.3.
pub proof fn lemma_sm2_ease_floor(m: MemoryItemView, score: u8, now: i64)
    ensures
        after_sm2_review(m, score, now).ease >= 130,
{
}

/// The SM-2 state is sane: the ease is at least 1.3, and an item with a
/// success behind it has an interval of at least one day.
pub open spec fn sm2_well_formed(m: MemoryItemView) -> bool {
    &&& m.ease >= 130
    &&& m.repetitions > 0 ==> m.interval_days >= 1
}

/// Law: an SM-2 review of a sane item schedules at least one day ahead and
/// keeps the item sane; a fresh item is sane.
pub proof fn lemma_sm2_keeps_well_formed(m: MemoryItemView, score: u8, now: i64)
    requires
        sm2_well_formed(m),
    ensures
        sm2_well_formed(after_sm2_review(m, score, now)),
        after_sm2_review(m, score, now).interval_days >= 1,
{
    if m.repetitions >= 2 {
        lemma_stretch_at_least(m.interval_days, m.ease);
    }
}

proof fn lemma_stretch_at_least(interval: u32, ease: u32)
    requires
        ease >= 100,
    ensures
        stretch(interval, ease) >= interval,
{
    assert((interval * ease + 50) / 100 >= interval) by (nonlinear_arith)
        requires
            ease >= 100,
            interval >= 0,
    ;
}

/// Law: once past the first two successes, a successful SM-2 review of a sane
/// item never shortens the interval.
pub proof fn lemma_sm2_success_never_shrinks(m: MemoryItemView, score: u8, now: i64)
    requires
        sm2_well_formed(m),
        m.repetitions >= 2,
        recalled(clamp_score(score)),
    ensures
        after_sm2_review(m, score, now).interval_days >= m.interval_days,
{
    lemma_stretch_at_least(m.interval_days, m.ease);
}

/// Law: a failed SM-2 review starts over: no repetitions, one day.
pub proof fn lemma_sm2_failure_starts_over(m: MemoryItemView, score: u8, now: i64)
    requires
        !recalled(clamp_score(score)),
    ensures
        after_sm2_review(m, score, now).repetitions == 0,
        after_sm2_review(m, score, now).interval_days == 1,
{
}

/// Law: the SM-2 interval after a successful review depends on the run of
/// successes before it, not on the previous interval alone: the first success
/// after a fresh start or a failure schedules exactly 1 day, the second
/// exactly 6 days, and later ones the previous interval times the ease,
/// rounded to the nearest day (as long as that fits a `u32`). The next review
/// is that many days after the review.
pub proof fn lemma_sm2_recall_interval(m: MemoryItemView, score: u8, now: i64)
    requires
        clamp_score(score) >= 3,
        m.repetitions < u32::MAX,
        clock_instant(now as int),
    ensures
        m.repetitions == 0 ==> after_sm2_review(m, score, now).interval_days == 1,
        m.repetitions == 1 ==> after_sm2_review(m, score, now).interval_days == 6,
        m.repetitions >= 2 && m.interval_days * m.ease + 50 <= u32::MAX * 100 ==> {
            let iv = after_sm2_review(m, score, now).interval_days as int;
            &&& iv * 100 <= m.interval_days * m.ease + 50
            &&& m.interval_days * m.ease + 50 < iv * 100 + 100
        },
        after_sm2_review(m, score, now).next_review == now + after_sm2_review(
            m,
            score,
            now,
        ).interval_days * MS_PER_DAY,
        after_sm2_review(m, score, now).repetitions == m.repetitions + 1,
{
    let iv = after_sm2_review(m, score, now).interval_days;
    assert(0 <= now + iv * MS_PER_DAY <= i64::MAX) by (nonlinear_arith)
        requires
            0 <= now <= 8_210_266_876_799_999,
            0 <= iv <= 0xffff_ffff,
            MS_PER_DAY == 86_400_000,
    ;
    if m.repetitions >= 2 && m.interval_days * m.ease + 50 <= u32::MAX * 100 {
        let x = m.interval_days * m.ease + 50;
        assert((x / 100) * 100 <= x < (x / 100) * 100 + 100) by (nonlinear_arith)
            requires
                x >= 0,
        ;
    }
}

/// Law: a failed SM-2 review (score 0-2) always schedules the next review 1
/// day out, whatever the history.
pub proof fn lemma_sm2_failure_interval(m: MemoryItemView, score: u8, now: i64)
    requires
        clamp_score(score) < 3,
        clock_instant(now as int),
    ensures
        after_sm2_review(m, score, now).interval_days == 1,
        after_sm2_review(m, score, now).next_review == now + MS_PER_DAY,
{
}

/// Law: the SM-2 ease moves by a fixed step per score (in hundredths: +10
/// for 5, 0 for 4, -14 for 3, -32 for 2, -54 for 1, -80 for 0; scores above 5
/// count as 5), never below 1.3, saturating at the top of a `u32`.
pub proof fn lemma_sm2_ease_steps(m: MemoryItemView, score: u8, now: i64)
    ensures
        ({
            let s = clamp_score(score);
            let step: int = if s == 5 {
                10
            } else if s == 4 {
                0
            } else if s == 3 {
                -14
            } else if s == 2 {
                -32
            } else if s == 1 {
                -54
            } else {
                -80
            };
            let e = m.ease + step;
            after_sm2_review(m, score, now).ease == if e < 130 {
                130
            } else if e > u32::MAX {
                u32::MAX as int
            } else {
                e
            }
        }),
{
    let s = clamp_score(score);
    let d: int = 5 - s as int;
    assert(0 <= d <= 5);
    assert(d * (8 + 2 * d) == if d == 0 {
        0int
    } else if d == 1 {
        10
    } else if d == 2 {
        24
    } else if d == 3 {
        42
    } else if d == 4 {
        64
    } else {
        90
    }) by (nonlinear_arith)
        requires
            0 <= d <= 5,
    ;
}

} // verus!
