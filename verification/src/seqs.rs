//! Facts about sequences used across the library's proofs.
use vstd::prelude::*;

verus! {

/// Filtering a sequence extended by one element.
pub proof fn lemma_filter_push<T>(s: Seq<T>, x: T, p: spec_fn(T) -> bool)
    ensures
        s.push(x).filter(p) == (if p(x) { s.filter(p).push(x) } else { s.filter(p) }),
{
    reveal_with_fuel(Seq::filter, 1);
    assert(s.push(x).drop_last() =~= s);
}

/// Filtering keeps nothing when no element qualifies.
pub proof fn lemma_filter_none<T>(s: Seq<T>, p: spec_fn(T) -> bool)
    requires
        forall|k: int| 0 <= k < s.len() ==> !p(#[trigger] s[k]),
    ensures
        s.filter(p).len() == 0,
    decreases s.len(),
{
    reveal_with_fuel(Seq::filter, 1);
    if s.len() > 0 {
        assert(!p(s[s.len() - 1]));
        lemma_filter_none(s.drop_last(), p);
    }
}

/// Filtering never keeps more than there is, nor more than a weaker filter.
pub proof fn lemma_filter_weaker<T>(s: Seq<T>, p: spec_fn(T) -> bool, q: spec_fn(T) -> bool)
    requires
        forall|x: T| #[trigger] p(x) ==> q(x),
    ensures
        s.filter(p).len() <= s.filter(q).len(),
        s.filter(q).len() <= s.len(),
    decreases s.len(),
{
    reveal_with_fuel(Seq::filter, 1);
    if s.len() > 0 {
        lemma_filter_weaker(s.drop_last(), p, q);
    }
}

/// Two filters that agree on every element keep the same elements.
pub proof fn lemma_filter_same<T>(s: Seq<T>, p: spec_fn(T) -> bool, q: spec_fn(T) -> bool)
    requires
        forall|k: int| 0 <= k < s.len() ==> p(#[trigger] s[k]) == q(s[k]),
    ensures
        s.filter(p) == s.filter(q),
    decreases s.len(),
{
    reveal_with_fuel(Seq::filter, 1);
    if s.len() > 0 {
        assert(p(s[s.len() - 1]) == q(s[s.len() - 1]));
        lemma_filter_same(s.drop_last(), p, q);
    }
}

/// Whether an element has key `key` under `f`.
pub open spec fn has_key<A, K>(f: spec_fn(A) -> K, key: K) -> spec_fn(A) -> bool {
    |a: A| f(a) == key
}

/// How many elements of `s` have key `key` under `f`.
pub open spec fn count_with_key<A, K>(s: Seq<A>, f: spec_fn(A) -> K, key: K) -> nat {
    s.filter(has_key(f, key)).len()
}

/// The counts of the keys in `keys`, added up.
pub open spec fn count_with_keys<A, K>(s: Seq<A>, f: spec_fn(A) -> K, keys: Seq<K>) -> nat
    decreases keys.len(),
{
    if keys.len() == 0 {
        0
    } else {
        count_with_keys(s, f, keys.drop_last()) + count_with_key(s, f, keys.last())
    }
}

proof fn lemma_count_with_keys_empty<A, K>(f: spec_fn(A) -> K, keys: Seq<K>)
    ensures
        count_with_keys(Seq::<A>::empty(), f, keys) == 0,
    decreases keys.len(),
{
    reveal_with_fuel(Seq::filter, 1);
    if keys.len() > 0 {
        lemma_count_with_keys_empty(f, keys.drop_last());
        let last = keys.last();
        assert(Seq::<A>::empty().filter(has_key(f, last)).len() == 0);
    }
}

proof fn lemma_count_with_keys_push<A, K>(s: Seq<A>, x: A, f: spec_fn(A) -> K, keys: Seq<K>)
    requires
        keys.no_duplicates(),
    ensures
        count_with_keys(s.push(x), f, keys) == count_with_keys(s, f, keys) + if keys.contains(
            f(x),
        ) {
            1nat
        } else {
            0nat
        },
    decreases keys.len(),
{
    if keys.len() > 0 {
        let init = keys.drop_last();
        let last = keys.last();
        assert(init.no_duplicates()) by {
            assert forall|a: int, b: int| 0 <= a < init.len() && 0 <= b < init.len() && a != b implies init[a] != init[b] by {
                assert(init[a] == keys[a] && init[b] == keys[b]);
            }
        }
        lemma_count_with_keys_push(s, x, f, init);
        lemma_filter_push(s, x, has_key(f, last));
        if init.contains(f(x)) {
            let i = choose|i: int| 0 <= i < init.len() && init[i] == f(x);
            assert(keys[i] == f(x));
            assert(keys[keys.len() - 1] == last);
            assert(f(x) != last);
            assert(keys.contains(f(x)));
        } else if f(x) == last {
            assert(keys[keys.len() - 1] == f(x));
            assert(keys.contains(f(x)));
        } else {
            assert(!keys.contains(f(x))) by {
                if keys.contains(f(x)) {
                    let i = choose|i: int| 0 <= i < keys.len() && keys[i] == f(x);
                    assert(i < keys.len() - 1);
                    assert(init[i] == f(x));
                }
            }
        }
    }
}

/// Counting by key: when the keys are distinct and every element's key is
/// among them, the counts of the keys add up to the number of elements.
pub proof fn lemma_count_with_keys_total<A, K>(s: Seq<A>, f: spec_fn(A) -> K, keys: Seq<K>)
    requires
        keys.no_duplicates(),
        forall|i: int| 0 <= i < s.len() ==> keys.contains(f(#[trigger] s[i])),
    ensures
        count_with_keys(s, f, keys) == s.len(),
    decreases s.len(),
{
    if s.len() == 0 {
        assert(s =~= Seq::<A>::empty());
        lemma_count_with_keys_empty(f, keys);
    } else {
        let init = s.drop_last();
        let x = s.last();
        assert forall|i: int| 0 <= i < init.len() implies keys.contains(f(#[trigger] init[i])) by {
            assert(init[i] == s[i]);
        }
        lemma_count_with_keys_total(init, f, keys);
        assert(s =~= init.push(x));
        lemma_count_with_keys_push(init, x, f, keys);
        assert(keys.contains(f(s[s.len() - 1])));
    }
}

/// Day numbers (`i64`) are ordered keys: their comparison obeys the laws
/// that ordered maps rely on.
pub proof fn lemma_i64_keys_ordered()
    ensures
        vstd::laws_cmp::obeys_cmp::<i64>(),
{
    broadcast use vstd::laws_cmp::group_laws_cmp;
}

} // verus!
