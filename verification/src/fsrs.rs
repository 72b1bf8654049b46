//! The decision and bookkeeping half of FSRS-6 (Free Spaced Repetition
//! Scheduler). The formulas themselves (exponentials and powers over
//! difficulty and stability) work in floating point and are applied by the
//! application; this module decides which formula applies to a review, maps
//! scores onto ratings, and records the outcome on the item.
use vstd::prelude::*;

use crate::clock::{clock_instant, MS_PER_DAY};
use crate::domain::{MemoryItem, MemoryItemView, ReviewLogEntry};
use crate::scheduler::{
    after_sm2_review, can_record_review, clamp_score, due_after, recalled, review_recorded,
};

verus! {

/// The longest interval FSRS schedules, in days (about a hundred years).
pub const MAX_INTERVAL_DAYS: u32 = 36_500;

/// FSRS's 4-point rating scale.
#[derive(Clone, Copy, Debug, PartialEq, Eq, Structural)]
pub enum FsrsRating {
    Again,
    Hard,
    Good,
    Easy,
}

/// This app's 0-5 review score on FSRS's 4-point scale: 0-2 Again, 3 Hard,
/// 4 Good, 5 (and above) Easy.
pub open spec fn rating_of(score: u8) -> FsrsRating {
    let s = clamp_score(score);
    if s <= 2 {
        FsrsRating::Again
    } else if s == 3 {
        FsrsRating::Hard
    } else if s == 4 {
        FsrsRating::Good
    } else {
        FsrsRating::Easy
    }
}

/// Maps this app's 0-5 review score onto FSRS's 4-point rating scale.
pub fn fsrs_rating(score: u8) -> (r: FsrsRating)
    ensures
        r == rating_of(score),
{
    let s = if score > 5 { 5 } else { score };
    match s {
        0..=2 => FsrsRating::Again,
        3 => FsrsRating::Hard,
        4 => FsrsRating::Good,
        _ => FsrsRating::Easy,
    }
}

/// The numeric grade of a rating, 1 (Again) to 4 (Easy).
pub open spec fn grade_of(r: FsrsRating) -> u8 {
    match r {
        FsrsRating::Again => 1,
        FsrsRating::Hard => 2,
        FsrsRating::Good => 3,
        FsrsRating::Easy => 4,
    }
}

impl FsrsRating {
    /// The numeric grade, 1 (Again) to 4 (Easy).
    pub fn grade(&self) -> (g: u8)
        ensures
            g == grade_of(*self),
    {
        match self {
            FsrsRating::Again => 1,
            FsrsRating::Hard => 2,
            FsrsRating::Good => 3,
            FsrsRating::Easy => 4,
        }
    }
}

/// Which FSRS formulas a review uses.
#[derive(Clone, Copy, Debug, PartialEq, Eq, Structural)]
pub enum FsrsStep {
    /// No FSRS state or no earlier review yet: initial difficulty and stability.
    Initial,
    /// Less than a whole day since the last review: the short-term stability formula.
    SameDay,
    /// The last review was this many whole days ago (at least one).
    Later { elapsed_days: u64 },
}

/// Whole days from instant `last` to instant `now`, never negative.
pub open spec fn elapsed_days(last: int, now: int) -> int {
    if now - last <= 0 {
        0
    } else {
        (now - last) / (MS_PER_DAY as int)
    }
}

/// Which formulas apply to a review of `m` at instant `now`: the initial ones
/// unless the item has a difficulty, a stability and an earlier review; then
/// the same-day formula if the last review is less than a day ago, else the
/// long-term ones with the whole days elapsed.
pub open spec fn fsrs_step_of(m: MemoryItemView, now: int) -> FsrsStep {
    if m.difficulty is Some && m.stability is Some && m.review_log.len() > 0 {
        let e = elapsed_days(m.review_log.last().reviewed_at as int, now);
        if e < 1 {
            FsrsStep::SameDay
        } else {
            FsrsStep::Later { elapsed_days: e as u64 }
        }
    } else {
        FsrsStep::Initial
    }
}

/// Decides which FSRS formulas a review of `item` at instant `now` uses.
pub fn fsrs_step(item: &MemoryItem, now: i64) -> (step: FsrsStep)
    ensures
        step == fsrs_step_of(item@, now as int),
{
    let n = item.review_log.len();
    if item.difficulty.is_some() && item.stability.is_some() && n > 0 {
        let last = item.review_log[n - 1].reviewed_at;
        let diff: i128 = now as i128 - last as i128;
        let e: i128 = if diff <= 0 { 0 } else { diff / (MS_PER_DAY as i128) };
        proof {
            assert(e == elapsed_days(last as int, now as int));
            assert(e <= u64::MAX) by (nonlinear_arith)
                requires
                    diff <= 0 ==> e == 0,
                    diff > 0 ==> e == diff / 86_400_000,
                    diff <= 18_446_744_073_709_551_615,
            ;
        }
        if e < 1 {
            FsrsStep::SameDay
        } else {
            FsrsStep::Later { elapsed_days: e as u64 }
        }
    } else {
        FsrsStep::Initial
    }
}

/// The item after an FSRS review with `score` at instant `now`, given the new
/// difficulty and stability (binary64 bits) and the interval the formulas
/// produced. The ease factor is left as it is.
pub open spec fn after_fsrs_review(
    m: MemoryItemView,
    score: u8,
    now: i64,
    difficulty: u64,
    stability: u64,
    interval_days: u32,
) -> MemoryItemView {
    let s = clamp_score(score);
    let again = rating_of(s) == FsrsRating::Again;
    let entry = ReviewLogEntry {
        reviewed_at: now,
        score: s,
        interval_before_days: m.interval_days,
        interval_after_days: interval_days,
        ease_after: m.ease,
        difficulty_after: Some(difficulty),
        stability_after: Some(stability),
    };
    MemoryItemView {
        difficulty: Some(difficulty),
        stability: Some(stability),
        interval_days,
        next_review: due_after(now as int, interval_days) as i64,
        repetitions: if again { 0 } else { (m.repetitions + 1) as u32 },
        lapses: if again { (m.lapses + 1) as u32 } else { 0 },
        total_lapses: if again { (m.total_lapses + 1) as u32 } else { m.total_lapses },
        review_log: m.review_log.push(entry),
        ..m
    }
}

/// Records an FSRS review with `score` at instant `now`, given the new
/// difficulty and stability (binary64 bits) and the interval in days that
/// the FSRS formulas produced (at least one day, at most `MAX_INTERVAL_DAYS`).
pub fn record_fsrs_review(
    item: &mut MemoryItem,
    score: u8,
    now: i64,
    difficulty: u64,
    stability: u64,
    interval_days: u32,
)
    requires
        can_record_review(old(item)@),
        clock_instant(now as int),
        1 <= interval_days <= MAX_INTERVAL_DAYS,
    ensures
        final(item)@ == after_fsrs_review(old(item)@, score, now, difficulty, stability, interval_days),
        1 <= final(item).interval_days <= MAX_INTERVAL_DAYS,
{
    let ghost before = item@;
    let score = if score > 5 { 5 } else { score };
    let rating = fsrs_rating(score);
    let interval_before = item.interval_days;

    item.difficulty = Some(difficulty);
    item.stability = Some(stability);
    item.interval_days = interval_days;
    item.next_review = now + interval_days as i64 * MS_PER_DAY;

    match rating {
        FsrsRating::Again => {
            item.repetitions = 0;
            item.lapses = item.lapses + 1;
            item.total_lapses = item.total_lapses + 1;
        },
        _ => {
            item.repetitions = item.repetitions + 1;
            item.lapses = 0;
        },
    }

    item.review_log.push(
        ReviewLogEntry {
            reviewed_at: now,
            score,
            interval_before_days: interval_before,
            interval_after_days: interval_days,
            ease_after: item.ease,
            difficulty_after: Some(difficulty),
            stability_after: Some(stability),
        },
    );
    proof {
        assert(item@ == after_fsrs_review(before, score, now, difficulty, stability, interval_days));
    }
}

/// Law: "Again" is exactly a failed review (score below 3), so FSRS and SM-2
/// agree on what counts as a lapse.
pub proof fn lemma_again_is_failure(score: u8)
    ensures
        (rating_of(score) == FsrsRating::Again) == !recalled(clamp_score(score)),
{
}

/// Law: an FSRS review records the review as every scheduler must.
pub proof fn lemma_fsrs_records_review(
    m: MemoryItemView,
    score: u8,
    now: i64,
    difficulty: u64,
    stability: u64,
    interval_days: u32,
)
    requires
        can_record_review(m),
        clock_instant(now as int),
    ensures
        review_recorded(
            m,
            after_fsrs_review(m, score, now, difficulty, stability, interval_days),
            score,
        ),
{
    let new = after_fsrs_review(m, score, now, difficulty, stability, interval_days);
    assert(new.review_log.take(m.review_log.len() as int) =~= m.review_log);
}

/// Law: the first FSRS review of a fresh item uses the initial formulas.
pub proof fn lemma_fresh_item_starts_initial(m: MemoryItemView, now: int)
    requires
        m.difficulty is None || m.stability is None || m.review_log.len() == 0,
    ensures
        fsrs_step_of(m, now) == FsrsStep::Initial,
{
}

/// Law: switching schedulers is never destructive: an SM-2 review keeps the
/// item's FSRS difficulty and stability, and an FSRS review keeps its SM-2
/// ease factor.
pub proof fn lemma_schedulers_keep_each_others_state(
    m: MemoryItemView,
    score: u8,
    now: i64,
    difficulty: u64,
    stability: u64,
    interval_days: u32,
)
    ensures
        after_sm2_review(m, score, now).difficulty == m.difficulty,
        after_sm2_review(m, score, now).stability == m.stability,
        after_fsrs_review(m, score, now, difficulty, stability, interval_days).ease == m.ease,
{
}

/// Law: FSRS counts elapsed days from the latest review in the history: with
/// FSRS state in place, a review at instant `t` appended to any history makes
/// the step at `t + k` whole days `+ r` (`r` under a day) the same-day one for
/// `k == 0` and the long-term one with exactly `k` elapsed days otherwise.
pub proof fn lemma_fsrs_elapsed_from_latest(m: MemoryItemView, e: ReviewLogEntry, k: int, r: int)
    requires
        m.difficulty is Some,
        m.stability is Some,
        0 <= k <= u64::MAX,
        0 <= r < MS_PER_DAY,
    ensures
        ({
            let m2 = MemoryItemView { review_log: m.review_log.push(e), ..m };
            let now = e.reviewed_at + k * MS_PER_DAY + r;
            &&& k == 0 ==> fsrs_step_of(m2, now) == FsrsStep::SameDay
            &&& k >= 1 ==> fsrs_step_of(m2, now) == FsrsStep::Later { elapsed_days: k as u64 }
        }),
{
    let m2 = MemoryItemView { review_log: m.review_log.push(e), ..m };
    assert(m2.review_log.last() == e);
    let d = k * MS_PER_DAY + r;
    assert(d >= 0 && (d > 0 ==> d / (MS_PER_DAY as int) == k)) by (nonlinear_arith)
        requires
            d == k * 86_400_000 + r,
            0 <= k,
            0 <= r < 86_400_000,
    ;
}

/// Law: right after an FSRS review at `now`, another review at the same
/// instant is a same-day review.
pub proof fn lemma_fsrs_review_then_same_day(
    m: MemoryItemView,
    score: u8,
    now: i64,
    difficulty: u64,
    stability: u64,
    interval_days: u32,
)
    ensures
        fsrs_step_of(after_fsrs_review(m, score, now, difficulty, stability, interval_days), now as int)
            == FsrsStep::SameDay,
{
    let m2 = after_fsrs_review(m, score, now, difficulty, stability, interval_days);
    assert(m2.review_log.last().reviewed_at == now);
}

/// Law: the FSRS grade of a 0-5 score is the score minus one, at least 1
/// (Again) and at most 4 (Easy); scores above 5 count as 5.
pub proof fn lemma_fsrs_grade_of_score(score: u8)
    ensures
        grade_of(rating_of(score)) == if score <= 2 {
            1
        } else if score >= 5 {
            4
        } else {
            score - 1
        },
{
}

/// Law: a review at or before the instant of the latest review (a clock that
/// went backwards) counts as a same-day review.
pub proof fn lemma_fsrs_clock_backwards_same_day(m: MemoryItemView, now: int)
    requires
        m.difficulty is Some,
        m.stability is Some,
        m.review_log.len() > 0,
        now <= m.review_log.last().reviewed_at,
    ensures
        fsrs_step_of(m, now) == FsrsStep::SameDay,
{
}

/// Law: an FSRS review stores the difficulty, stability and interval it was
/// given, on the item and in the new history entry, and schedules the next
/// review that many days later.
pub proof fn lemma_fsrs_review_stores_state(
    m: MemoryItemView,
    score: u8,
    now: i64,
    difficulty: u64,
    stability: u64,
    interval_days: u32,
)
    requires
        clock_instant(now as int),
    ensures
        ({
            let r = after_fsrs_review(m, score, now, difficulty, stability, interval_days);
            &&& r.difficulty == Some(difficulty)
            &&& r.stability == Some(stability)
            &&& r.interval_days == interval_days
            &&& r.ease == m.ease
            &&& r.next_review == now + interval_days * MS_PER_DAY
            &&& r.review_log.last().difficulty_after == Some(difficulty)
            &&& r.review_log.last().stability_after == Some(stability)
            &&& r.review_log.last().reviewed_at == now
            &&& r.review_log.last().interval_after_days == interval_days
        }),
{
    assert(0 <= now + interval_days * MS_PER_DAY <= i64::MAX) by (nonlinear_arith)
        requires
            0 <= now <= 8_210_266_876_799_999,
            0 <= interval_days <= 0xffff_ffff,
            MS_PER_DAY == 86_400_000,
    ;
}

} // verus!
