//! XP, levels, titles and achievements, derived fresh from the statistics and
//! the vault (there is no stored XP counter to drift out of sync).
use vstd::prelude::*;

use crate::domain::{items_view, MemoryItem, MemoryItemView};
use crate::seqs::lemma_filter_push;
use crate::stats::Stats;

verus! {

/// An achievement and whether it is unlocked.
#[derive(Clone, Debug, PartialEq)]
pub struct Achievement {
    pub id: &'static str,
    pub title: &'static str,
    pub description: &'static str,
    pub unlocked: bool,
}

/// XP, level, title and achievements of a vault.
#[derive(Clone, Debug, PartialEq)]
pub struct GamificationSummary {
    pub xp: u32,
    pub level: u32,
    pub title: String,
    pub achievements: Vec<Achievement>,
}

/// XP: 10 for every review and 5 more for every successful one, each count
/// taken as a `u32`.
pub open spec fn xp_of(stats: Stats) -> int {
    (stats.total_reviews as u32) * 10 + (stats.successful_reviews as u32) * 5
}

/// XP rewards consistent effort over raw luck: every review counts, and a
/// correct one counts more.
fn compute_xp(stats: &Stats) -> (xp: u32)
    requires
        xp_of(*stats) <= u32::MAX,
    ensures
        xp == xp_of(*stats),
{
    #[verifier::truncate]
    let total = stats.total_reviews as u32;
    #[verifier::truncate]
    let successful = stats.successful_reviews as u32;
    total * 10 + successful * 5
}

/// The title that goes with a level.
pub open spec fn title_for(level: u32) -> Seq<char> {
    if level <= 2 {
        "Landlubber"@
    } else if level <= 5 {
        "Deckhand"@
    } else if level <= 10 {
        "First Mate"@
    } else if level <= 20 {
        "Captain"@
    } else {
        "Blackbeard's Own"@
    }
}

/// The title that goes with a level.
pub fn title_for_level(level: u32) -> (title: &'static str)
    ensures
        title@ == title_for(level),
{
    if level <= 2 {
        "Landlubber"
    } else if level <= 5 {
        "Deckhand"
    } else if level <= 10 {
        "First Mate"
    } else if level <= 20 {
        "Captain"
    } else {
        "Blackbeard's Own"
    }
}

/// `a` is the achievement with these texts and status.
pub open spec fn achievement_is(
    a: Achievement,
    id: &str,
    title: &str,
    description: &str,
    unlocked: bool,
) -> bool {
    &&& a.id@ == id@
    &&& a.title@ == title@
    &&& a.description@ == description@
    &&& a.unlocked == unlocked
}

/// How many items are linked to at least one other memory.
pub open spec fn linked_count(items: Seq<MemoryItemView>) -> nat {
    items.filter(|m: MemoryItemView| m.related_ids.len() > 0).len()
}

fn count_linked(items: &[MemoryItem]) -> (c: usize)
    ensures
        c == linked_count(items_view(items@)),
{
    let ghost iv = items_view(items@);
    let mut c: usize = 0;
    let n = items.len();
    proof {
        assert(iv.take(0) =~= Seq::<MemoryItemView>::empty());
        reveal_with_fuel(Seq::filter, 1);
    }
    for i in 0..n
        invariant
            n == items@.len(),
            iv == items_view(items@),
            c == linked_count(iv.take(i as int)),
            c <= i,
    {
        proof {
            assert(iv.take(i + 1) =~= iv.take(i as int).push(iv[i as int]));
            lemma_filter_push(
                iv.take(i as int),
                iv[i as int],
                |m: MemoryItemView| m.related_ids.len() > 0,
            );
        }
        if items[i].related_ids.len() > 0 {
            c = c + 1;
        }
    }
    proof {
        assert(iv.take(n as int) =~= iv);
    }
    c
}

/// XP, level (one per 500 XP), title and the six achievements: First Blood
/// (a first review), Iron Will (a 7-day streak), Century Club (100 reviews),
/// Sharpshooter (90%+ retention over at least 20 reviews), Leech Slayer (no
/// leeches with at least 10 memories) and Cartographer (at least 5 linked
/// memories).
pub fn compute_gamification(items: &[MemoryItem], stats: &Stats) -> (g: GamificationSummary)
    requires
        xp_of(*stats) <= u32::MAX,
    ensures
        g.xp == xp_of(*stats),
        g.level == g.xp / 500,
        g.title@ == title_for(g.level),
        g.achievements@.len() == 6,
        achievement_is(
            g.achievements@[0],
            "first_blood",
            "First Blood",
            "Complete your first review",
            stats.total_reviews >= 1,
        ),
        achievement_is(
            g.achievements@[1],
            "iron_will",
            "Iron Will",
            "Hit a 7-day review streak",
            stats.best_streak_days >= 7,
        ),
        achievement_is(
            g.achievements@[2],
            "century_club",
            "Century Club",
            "Complete 100 total reviews",
            stats.total_reviews >= 100,
        ),
        achievement_is(
            g.achievements@[3],
            "sharpshooter",
            "Sharpshooter",
            "90%+ retention over at least 20 reviews",
            stats.total_reviews >= 20 && stats.successful_reviews * 10 >= stats.total_reviews * 9,
        ),
        achievement_is(
            g.achievements@[4],
            "leech_slayer",
            "Leech Slayer",
            "Zero leeches with at least 10 memories in the vault",
            items@.len() >= 10 && stats.leech_count == 0,
        ),
        achievement_is(
            g.achievements@[5],
            "cartographer",
            "Cartographer",
            "Link at least 5 memories into your knowledge graph",
            linked_count(items_view(items@)) >= 5,
        ),
{
    let xp = compute_xp(stats);
    let level = xp / 500;
    let title = title_for_level(level).to_owned();
    let sharp = stats.total_reviews >= 20 && stats.successful_reviews as u128 * 10
        >= stats.total_reviews as u128 * 9;
    let linked = count_linked(items);

    let mut achievements: Vec<Achievement> = Vec::new();
    achievements.push(
        Achievement {
            id: "first_blood",
            title: "First Blood",
            description: "Complete your first review",
            unlocked: stats.total_reviews >= 1,
        },
    );
    achievements.push(
        Achievement {
            id: "iron_will",
            title: "Iron Will",
            description: "Hit a 7-day review streak",
            unlocked: stats.best_streak_days >= 7,
        },
    );
    achievements.push(
        Achievement {
            id: "century_club",
            title: "Century Club",
            description: "Complete 100 total reviews",
            unlocked: stats.total_reviews >= 100,
        },
    );
    achievements.push(
        Achievement {
            id: "sharpshooter",
            title: "Sharpshooter",
            description: "90%+ retention over at least 20 reviews",
            unlocked: sharp,
        },
    );
    achievements.push(
        Achievement {
            id: "leech_slayer",
            title: "Leech Slayer",
            description: "Zero leeches with at least 10 memories in the vault",
            unlocked: items.len() >= 10 && stats.leech_count == 0,
        },
    );
    achievements.push(
        Achievement {
            id: "cartographer",
            title: "Cartographer",
            description: "Link at least 5 memories into your knowledge graph",
            unlocked: linked >= 5,
        },
    );

    GamificationSummary { xp, level, title, achievements }
}

/// Law: XP rewards effort: one more review is worth 10 XP, and 15 if it was a
/// successful recall.
pub proof fn lemma_xp_per_review(before: Stats, after: Stats, success: bool)
    requires
        after.total_reviews == before.total_reviews + 1,
        after.successful_reviews == before.successful_reviews + if success { 1int } else { 0int },
        after.total_reviews <= u32::MAX,
        after.successful_reviews <= u32::MAX,
    ensures
        xp_of(after) == xp_of(before) + if success { 15int } else { 10int },
{
}

/// Law: the titles by level: levels 0-2 are "Landlubber", 3-5 "Deckhand",
/// 6-10 "First Mate", 11-20 "Captain", and every level from 21 on
/// "Blackbeard's Own".
pub proof fn lemma_titles_by_level(level: u32)
    ensures
        level <= 2 ==> title_for(level) == "Landlubber"@,
        3 <= level <= 5 ==> title_for(level) == "Deckhand"@,
        6 <= level <= 10 ==> title_for(level) == "First Mate"@,
        11 <= level <= 20 ==> title_for(level) == "Captain"@,
        level >= 21 ==> title_for(level) == "Blackbeard's Own"@,
{
}

/// Law: XP decides the level (one per 500 XP) and the level the title: for
/// any statistics whose XP fits, the summary's level is the XP divided by 500
/// and 6-10 is "First Mate", so 3000 to 5499 XP is a First Mate.
pub proof fn lemma_first_mate_xp(g: GamificationSummary)
    requires
        g.level == g.xp / 500,
        g.title@ == title_for(g.level),
        3000 <= g.xp < 5500,
    ensures
        g.title@ == "First Mate"@,
{
}

} // verus!
