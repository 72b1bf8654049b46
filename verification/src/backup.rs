//! Backup snapshots: their names, which ones are listed and in what order,
//! and which ones rotate out.
use vstd::prelude::*;
use vstd::string::StrSliceExecFns;
use vstd::string::StringExecFns;

use crate::calendar::{
    lemma_common_prefix, lemma_lt_then_append, lemma_stamp_text_len, lemma_stamp_text_ordered,
    stamp_text, utc_year,
};
use crate::clock::clock_instant;
use crate::domain::texts;
use crate::text::{
    lemma_text_lt_asymmetric, lemma_text_lt_irreflexive, lemma_text_lt_total,
    lemma_text_lt_transitive, str_lt, text_lt,
};

verus! {

/// Backups beyond this count are deleted, oldest first.
pub const MAX_BACKUPS: usize = 10;

/// The UTC time of instant `ms` written as `YYYYMMDDTHHMMSS.mmmZ`.
pub uninterp spec fn utc_stamp(ms: int) -> Seq<char>;

/// Writes instant `ms` as `YYYYMMDDTHHMMSS.mmmZ` in UTC.
///
/// Calls `chrono::DateTime::<Utc>::from_timestamp_millis` and formats the
/// result with the pattern `%Y%m%dT%H%M%S%.3fZ`. The result is a function of
/// the instant alone (`utc_stamp`). For years up to 9999 chrono's documented
/// fields (`%Y` zero-padded to four digits, `%m`, `%d`, `%H`, `%M`, `%S` to
/// two, `%.3f` a dot and three digits of milliseconds) give `stamp_text` over
/// the proleptic Gregorian calendar; later years are written with a sign and
/// more digits, which is left to the name.
#[verifier::external_body]
fn format_utc_stamp(ms: i64) -> (text: String)
    requires
        clock_instant(ms as int),
    ensures
        text@ == utc_stamp(ms as int),
        utc_year(ms as int) <= 9999 ==> text@ == stamp_text(ms as int),
{
    chrono::DateTime::<chrono::Utc>::from_timestamp_millis(ms)
        .expect("instant within the calendar range")
        .format("%Y%m%dT%H%M%S%.3fZ")
        .to_string()
}

/// The snapshot name of a backup made at instant `ms` (up to the year 9999).
pub open spec fn backup_name(ms: int) -> Seq<char> {
    "memories-"@ + stamp_text(ms) + ".json"@
}

/// The snapshot name for instant `now`: `memories-<UTC stamp>.json`.
pub fn backup_filename(now: i64) -> (name: String)
    requires
        clock_instant(now as int),
    ensures
        name@ == "memories-"@ + utc_stamp(now as int) + ".json"@,
        utc_year(now as int) <= 9999 ==> name@ == backup_name(now as int),
{
    let mut name = "memories-".to_owned();
    let stamp = format_utc_stamp(now);
    name.append(stamp.as_str());
    name.append(".json");
    name
}

/// A file name whose extension (the part after the last dot, when that dot
/// is not the first character) is `json`.
pub open spec fn has_json_extension(name: Seq<char>) -> bool {
    name.len() >= 6 && name.subrange(name.len() - 5, name.len() as int) == ".json"@
}

/// Whether a file name has the extension `json`.
pub fn is_json_file(name: &str) -> (json: bool)
    ensures
        json == has_json_extension(name@),
{
    let n = name.unicode_len();
    if n < 6 {
        return false;
    }
    let suffix = ".json";
    proof {
        reveal_strlit(".json");
        assert(suffix@.len() == 5);
    }
    let mut i: usize = 0;
    while i < 5
        invariant
            n == name@.len(),
            n >= 6,
            i <= 5,
            suffix@ == ".json"@,
            suffix@.len() == 5,
            forall|k: int| 0 <= k < i ==> name@[n - 5 + k] == suffix@[k],
        decreases 5 - i,
    {
        if name.get_char(n - 5 + i) != suffix.get_char(i) {
            proof {
                assert(name@.subrange(n - 5, n as int)[i as int] != ".json"@[i as int]);
            }
            return false;
        }
        i = i + 1;
    }
    proof {
        assert(name@.subrange(n - 5, n as int) =~= ".json"@);
    }
    true
}

/// Names sorted strictly in text order.
pub open spec fn texts_ascending(s: Seq<Seq<char>>) -> bool {
    forall|a: int, b: int| 0 <= a < b < s.len() ==> text_lt(s[a], s[b])
}

/// Inserts `x` into an ascending list of names, keeping it ascending.
fn insert_name(v: &mut Vec<String>, x: String)
    requires
        texts_ascending(texts(old(v)@)),
        !texts(old(v)@).contains(x@),
    ensures
        texts_ascending(texts(final(v)@)),
        texts(final(v)@).to_set() == texts(old(v)@).to_set().insert(x@),
{
    let n = v.len();
    let mut p: usize = 0;
    while p < n && str_lt(v[p].as_str(), x.as_str())
        invariant
            n == v@.len(),
            p <= n,
            forall|k: int| 0 <= k < p ==> text_lt(v@[k]@, x@),
        decreases n - p,
    {
        p = p + 1;
    }
    let ghost before = texts(v@);
    proof {
        if p < n {
            assert(before[p as int] == v@[p as int]@);
            lemma_text_lt_total(v@[p as int]@, x@);
            assert(v@[p as int]@ != x@);
        }
    }
    let ghost xv = x@;
    v.insert(p, x);
    proof {
        let after = texts(v@);
        assert(after =~= before.insert(p as int, xv));
        before.insert_ensures(p as int, xv);
        assert forall|a: int, b: int| 0 <= a < b < after.len() implies text_lt(after[a], after[b]) by {
            if b < p {
            } else if b == p {
            } else if a < p {
                if b - 1 > p {
                    lemma_text_lt_transitive(xv, before[p as int], before[b - 1]);
                }
                lemma_text_lt_transitive(before[a], xv, before[b - 1]);
            } else if a == p {
                if b - 1 > p {
                    lemma_text_lt_transitive(xv, before[p as int], before[b - 1]);
                }
            } else {
            }
        }
        assert(after.to_set() =~= before.to_set().insert(xv)) by {
            assert forall|t: Seq<char>| after.contains(t) <==> before.insert(p as int, xv).contains(t) by {}
            assert forall|t: Seq<char>| #![auto] after.contains(t) implies before.to_set().insert(xv).contains(t) by {
                let k = choose|k: int| 0 <= k < after.len() && after[k] == t;
                if k < p {
                    assert(before[k] == t);
                } else if k > p {
                    assert(before[k - 1] == t);
                }
            }
            assert forall|t: Seq<char>| #![auto] before.to_set().insert(xv).contains(t) implies after.contains(t) by {
                if t == xv {
                    assert(after[p as int] == t);
                } else {
                    let k = choose|k: int| 0 <= k < before.len() && before[k] == t;
                    if k < p {
                        assert(after[k] == t);
                    } else {
                        assert(after[k + 1] == t);
                    }
                }
            }
        }
    }
}

/// The backup files among the names of a directory's entries (those with the
/// extension `json`), oldest first: in text order, which for these names is
/// the order of their timestamps.
pub fn backups_oldest_first(names: &Vec<String>) -> (r: Vec<String>)
    requires
        texts(names@).no_duplicates(),
    ensures
        texts_ascending(texts(r@)),
        texts(r@).to_set() == texts(names@).to_set().filter(|t: Seq<char>| has_json_extension(t)),
{
    let mut r: Vec<String> = Vec::new();
    let n = names.len();
    proof {
        assert(texts(names@).take(0) =~= Seq::<Seq<char>>::empty());
        assert(texts(r@).to_set() =~= Set::<Seq<char>>::empty());
        assert(texts(names@).take(0).to_set().filter(|t: Seq<char>| has_json_extension(t)) =~= Set::<Seq<char>>::empty());
    }
    for i in 0..n
        invariant
            n == names@.len(),
            texts(names@).no_duplicates(),
            texts_ascending(texts(r@)),
            texts(r@).to_set() == texts(names@).take(i as int).to_set().filter(
                |t: Seq<char>| has_json_extension(t),
            ),
    {
        let ghost pre = texts(names@).take(i as int);
        let ghost x = names@[i as int]@;
        proof {
            assert(texts(names@).take(i + 1) =~= pre.push(x));
            assert(pre.push(x).to_set() =~= pre.to_set().insert(x)) by {
                assert forall|t: Seq<char>| #![auto] pre.push(x).contains(t) <==> pre.to_set().insert(x).contains(t) by {
                    if pre.push(x).contains(t) {
                        let k = choose|k: int| 0 <= k < pre.push(x).len() && pre.push(x)[k] == t;
                        if k < pre.len() {
                            assert(pre[k] == t);
                        }
                    }
                    if pre.contains(t) {
                        let k = choose|k: int| 0 <= k < pre.len() && pre[k] == t;
                        assert(pre.push(x)[k] == t);
                    }
                    if t == x {
                        assert(pre.push(x)[pre.len() as int] == t);
                    }
                }
            }
        }
        if is_json_file(names[i].as_str()) {
            proof {
                assert(!texts(r@).contains(x)) by {
                    if texts(r@).contains(x) {
                        assert(texts(r@).to_set().contains(x));
                        assert(pre.to_set().contains(x));
                        let k = choose|k: int| 0 <= k < pre.len() && pre[k] == x;
                        assert(texts(names@)[k] == texts(names@)[i as int]);
                    }
                }
            }
            insert_name(&mut r, names[i].clone());
            proof {
                assert(texts(r@).to_set() =~= pre.push(x).to_set().filter(
                    |t: Seq<char>| has_json_extension(t),
                ));
            }
        } else {
            proof {
                assert(texts(r@).to_set() =~= pre.push(x).to_set().filter(
                    |t: Seq<char>| has_json_extension(t),
                ));
            }
        }
    }
    proof {
        assert(texts(names@).take(n as int) =~= texts(names@));
    }
    r
}

/// The backups to delete so that at most `MAX_BACKUPS` remain: the oldest
/// ones beyond that count.
pub fn backups_to_rotate_out(oldest_first: &Vec<String>) -> (r: Vec<String>)
    ensures
        texts(r@) == if oldest_first@.len() > MAX_BACKUPS {
            texts(oldest_first@).take(oldest_first@.len() - MAX_BACKUPS)
        } else {
            Seq::empty()
        },
{
    let mut r: Vec<String> = Vec::new();
    let n = oldest_first.len();
    if n > MAX_BACKUPS {
        let m = n - MAX_BACKUPS;
        for i in 0..m
            invariant
                n == oldest_first@.len(),
                m == n - MAX_BACKUPS,
                m <= n,
                texts(r@) =~= texts(oldest_first@).take(i as int),
        {
            r.push(oldest_first[i].clone());
            proof {
                assert(texts(oldest_first@).take(i + 1) =~= texts(oldest_first@).take(i as int).push(
                    oldest_first@[i as int]@,
                ));
            }
        }
    } else {
        proof {
            assert(texts(r@) =~= Seq::<Seq<char>>::empty());
        }
    }
    r
}

/// The backups newest first: the reverse of oldest first.
pub fn newest_first(oldest_first: &Vec<String>) -> (r: Vec<String>)
    ensures
        texts(r@) == texts(oldest_first@).reverse(),
{
    let mut r: Vec<String> = Vec::new();
    let n = oldest_first.len();
    let mut i: usize = n;
    while i > 0
        invariant
            n == oldest_first@.len(),
            i <= n,
            texts(r@) =~= texts(oldest_first@).skip(i as int).reverse(),
        decreases i,
    {
        i = i - 1;
        let ghost before = r@;
        r.push(oldest_first[i].clone());
        proof {
            let s = texts(oldest_first@);
            assert(texts(r@) =~= texts(before).push(s[i as int]));
            assert(s.skip(i as int).reverse() =~= s.skip(i + 1).reverse().push(s[i as int]));
        }
    }
    proof {
        assert(texts(oldest_first@).skip(0) =~= texts(oldest_first@));
    }
    r
}

/// Law: rotation keeps the newest backups: after removing the ones to rotate
/// out, `min(count, MAX_BACKUPS)` remain, and every removed backup is older
/// than every kept one.
pub proof fn lemma_rotation_keeps_newest(oldest_first: Seq<Seq<char>>)
    requires
        texts_ascending(oldest_first),
        oldest_first.len() > MAX_BACKUPS,
    ensures
        ({
            let cut = oldest_first.len() - MAX_BACKUPS;
            let kept = oldest_first.skip(cut);
            let removed = oldest_first.take(cut);
            &&& kept.len() == MAX_BACKUPS
            &&& removed + kept == oldest_first
            &&& forall|a: int, b: int|
                0 <= a < removed.len() && 0 <= b < kept.len() ==> text_lt(removed[a], kept[b])
        }),
{
    let cut = oldest_first.len() - MAX_BACKUPS;
    assert(oldest_first.take(cut) + oldest_first.skip(cut) =~= oldest_first);
    assert forall|a: int, b: int|
        0 <= a < oldest_first.take(cut).len() && 0 <= b < oldest_first.skip(cut).len() implies text_lt(
        oldest_first.take(cut)[a],
        oldest_first.skip(cut)[b],
    ) by {
        assert(oldest_first.take(cut)[a] == oldest_first[a]);
        assert(oldest_first.skip(cut)[b] == oldest_first[cut + b]);
    }
}

/// The backups that remain after rotating out the oldest ones beyond
/// `MAX_BACKUPS` (the complement of `backups_to_rotate_out`).
pub open spec fn kept_after_rotation(oldest_first: Seq<Seq<char>>) -> Seq<Seq<char>> {
    if oldest_first.len() > MAX_BACKUPS {
        oldest_first.skip(oldest_first.len() - MAX_BACKUPS)
    } else {
        oldest_first
    }
}

/// Law: after a backup `x` is written and rotation runs, `min(count,
/// MAX_BACKUPS)` backups remain, they are the newest ones, and when `x`'s
/// name comes after every other backup's name, `x` is among them.
pub proof fn lemma_backup_survives_rotation(oldest_first: Seq<Seq<char>>, x: Seq<char>)
    requires
        texts_ascending(oldest_first),
        oldest_first.contains(x),
        forall|k: int|
            0 <= k < oldest_first.len() && oldest_first[k] != x ==> text_lt(
                #[trigger] oldest_first[k],
                x,
            ),
    ensures
        kept_after_rotation(oldest_first).len() == if oldest_first.len() > MAX_BACKUPS {
            MAX_BACKUPS as int
        } else {
            oldest_first.len() as int
        },
        kept_after_rotation(oldest_first).contains(x),
        oldest_first.len() > MAX_BACKUPS ==> forall|a: int, b: int|
            0 <= a < oldest_first.len() - MAX_BACKUPS && 0 <= b < MAX_BACKUPS ==> text_lt(
                #[trigger] oldest_first[a],
                #[trigger] kept_after_rotation(oldest_first)[b],
            ),
{
    let n = oldest_first.len();
    let i = choose|i: int| 0 <= i < n && oldest_first[i] == x;
    if i < n - 1 {
        assert(text_lt(oldest_first[i], oldest_first[n - 1]));
        lemma_text_lt_irreflexive(x);
        assert(oldest_first[n - 1] != x);
        assert(text_lt(oldest_first[n - 1], x));
        lemma_text_lt_asymmetric(x, oldest_first[n - 1]);
    }
    assert(i == n - 1);
    let kept = kept_after_rotation(oldest_first);
    if n > MAX_BACKUPS {
        assert(kept[MAX_BACKUPS - 1] == x);
        assert forall|a: int, b: int|
            0 <= a < n - MAX_BACKUPS && 0 <= b < MAX_BACKUPS implies text_lt(
            #[trigger] oldest_first[a],
            #[trigger] kept[b],
        ) by {
            assert(kept[b] == oldest_first[n - MAX_BACKUPS + b]);
        }
    } else {
        assert(kept[n - 1] == x);
    }
}

/// Law: backup names sort in creation order: the name of a backup made at a
/// later instant comes later in text order (so oldest-first by name is
/// oldest-first by time), up to the end of the year 9999.
pub proof fn lemma_backup_names_chronological(a: int, b: int)
    requires
        0 <= a < b,
        utc_year(b) <= 9999,
    ensures
        text_lt(backup_name(a), backup_name(b)),
{
    lemma_stamp_text_ordered(a, b);
    lemma_stamp_text_len(a);
    lemma_stamp_text_len(b);
    let json = ".json"@;
    lemma_lt_then_append(stamp_text(a), stamp_text(b), json, json);
    lemma_common_prefix("memories-"@, stamp_text(a) + json, stamp_text(b) + json);
    assert(backup_name(a) =~= "memories-"@ + (stamp_text(a) + json));
    assert(backup_name(b) =~= "memories-"@ + (stamp_text(b) + json));
}

} // verus!
