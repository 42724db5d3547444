//! Mathematical vocabulary for linear searches.
use vstd::prelude::*;

verus! {

/// Index of the first element at or after `from` that satisfies `p`.
pub open spec fn first_index<T>(s: Seq<T>, p: spec_fn(T) -> bool, from: int) -> Option<int>
    decreases s.len() - from,
{
    if from < 0 || from >= s.len() {
        None
    } else if p(s[from]) {
        Some(from)
    } else {
        first_index(s, p, from + 1)
    }
}

/// Number of elements that satisfy `p`.
pub open spec fn count<T>(s: Seq<T>, p: spec_fn(T) -> bool) -> nat
    decreases s.len(),
{
    if s.len() == 0 {
        0
    } else {
        count(s.drop_last(), p) + (if p(s.last()) {
            1nat
        } else {
            0nat
        })
    }
}

/// What `first_index` returns, in terms of the elements alone.
pub proof fn lemma_first_index<T>(s: Seq<T>, p: spec_fn(T) -> bool, from: int)
    requires
        0 <= from <= s.len(),
    ensures
        match first_index(s, p, from) {
            Some(i) => from <= i < s.len() && p(s[i]) && forall|j: int|
                from <= j < i ==> !p(#[trigger] s[j]),
            None => forall|j: int| from <= j < s.len() ==> !p(#[trigger] s[j]),
        },
    decreases s.len() - from,
{
    if from < s.len() && !p(s[from]) {
        lemma_first_index(s, p, from + 1);
    }
}

/// The element at `i` is the first match as soon as no earlier element matches.
pub proof fn lemma_first_index_is<T>(s: Seq<T>, p: spec_fn(T) -> bool, from: int, i: int)
    requires
        0 <= from <= i < s.len(),
        p(s[i]),
        forall|j: int| from <= j < i ==> !p(#[trigger] s[j]),
    ensures
        first_index(s, p, from) == Some(i),
{
    lemma_first_index(s, p, from);
}

/// Without any match there is no first match.
pub proof fn lemma_first_index_none<T>(s: Seq<T>, p: spec_fn(T) -> bool, from: int)
    requires
        0 <= from <= s.len(),
        forall|j: int| from <= j < s.len() ==> !p(#[trigger] s[j]),
    ensures
        first_index(s, p, from) is None,
{
    lemma_first_index(s, p, from);
}

/// Replacing one element changes the count by that element alone.
pub proof fn lemma_count_update<T>(s: Seq<T>, p: spec_fn(T) -> bool, i: int, v: T)
    requires
        0 <= i < s.len(),
    ensures
        count(s.update(i, v), p) == count(s, p) - (if p(s[i]) {
            1int
        } else {
            0
        }) + (if p(v) {
            1int
        } else {
            0
        }),
    decreases s.len(),
{
    if i == s.len() - 1 {
        assert(s.update(i, v).drop_last() =~= s.drop_last());
    } else {
        assert(s.update(i, v).drop_last() =~= s.drop_last().update(i, v));
        lemma_count_update(s.drop_last(), p, i, v);
    }
}

/// A count never exceeds the length, and is zero when nothing matches.
pub proof fn lemma_count_bounds<T>(s: Seq<T>, p: spec_fn(T) -> bool)
    ensures
        count(s, p) <= s.len(),
        (forall|j: int| 0 <= j < s.len() ==> !p(#[trigger] s[j])) ==> count(s, p) == 0,
        (exists|j: int| 0 <= j < s.len() && p(#[trigger] s[j])) ==> count(s, p) > 0,
        (forall|j: int| 0 <= j < s.len() ==> p(#[trigger] s[j])) ==> count(s, p) == s.len(),
        (exists|j: int| 0 <= j < s.len() && !p(#[trigger] s[j])) ==> count(s, p) < s.len(),
    decreases s.len(),
{
    if s.len() > 0 {
        lemma_count_bounds(s.drop_last(), p);
        assert(forall|j: int| 0 <= j < s.len() - 1 ==> s.drop_last()[j] == s[j]);
        assert(s.last() == s[s.len() - 1]);
        if exists|j: int| 0 <= j < s.len() && p(#[trigger] s[j]) {
            let j = choose|j: int| 0 <= j < s.len() && p(#[trigger] s[j]);
            if j < s.len() - 1 {
                assert(p(s.drop_last()[j]));
            }
        }
        if exists|j: int| 0 <= j < s.len() && !p(#[trigger] s[j]) {
            let j = choose|j: int| 0 <= j < s.len() && !p(#[trigger] s[j]);
            if j < s.len() - 1 {
                assert(!p(s.drop_last()[j]));
            }
        }
        if forall|j: int| 0 <= j < s.len() ==> !p(#[trigger] s[j]) {
            assert forall|j: int| 0 <= j < s.drop_last().len() implies !p(#[trigger] s.drop_last()[j]) by {
                assert(!p(s[j]));
            }
        }
        if forall|j: int| 0 <= j < s.len() ==> p(#[trigger] s[j]) {
            assert forall|j: int| 0 <= j < s.drop_last().len() implies p(#[trigger] s.drop_last()[j]) by {
                assert(p(s[j]));
            }
        }
    }
}

/// The contents of the occupied slots that satisfy `p`, in slot order.
pub open spec fn collected<T>(slots: Seq<Option<T>>, p: spec_fn(T) -> bool) -> Seq<T>
    decreases slots.len(),
{
    if slots.len() == 0 {
        seq![]
    } else {
        let rest = collected(slots.drop_last(), p);
        match slots.last() {
            Some(v) => if p(v) {
                rest.push(v)
            } else {
                rest
            },
            None => rest,
        }
    }
}

/// One more slot adds at most its own contents.
pub proof fn lemma_collected_step<T>(slots: Seq<Option<T>>, p: spec_fn(T) -> bool, i: int)
    requires
        0 <= i < slots.len(),
    ensures
        collected(slots.take(i + 1), p) == (match slots[i] {
            Some(v) if p(v) => collected(slots.take(i), p).push(v),
            _ => collected(slots.take(i), p),
        }),
{
    assert(slots.take(i + 1).drop_last() =~= slots.take(i));
}

/// What is collected is what the slots hold.
pub proof fn lemma_collected_members<T>(slots: Seq<Option<T>>, p: spec_fn(T) -> bool)
    ensures
        collected(slots, p).len() <= slots.len(),
        forall|k: int|
            0 <= k < collected(slots, p).len() ==> p(#[trigger] collected(slots, p)[k]) && exists|
                i: int,
            |
                0 <= i < slots.len() && #[trigger] slots[i] == Some(collected(slots, p)[k]),
        forall|i: int|
            0 <= i < slots.len() && (#[trigger] slots[i]) is Some && p(slots[i]->0) ==> collected(
                slots,
                p,
            ).contains(slots[i]->0),
    decreases slots.len(),
{
    if slots.len() > 0 {
        let init = slots.drop_last();
        let all = collected(slots, p);
        let rest = collected(init, p);
        lemma_collected_members(init, p);
        assert forall|k: int| 0 <= k < all.len() implies p(#[trigger] all[k]) && exists|i: int|
            0 <= i < slots.len() && #[trigger] slots[i] == Some(all[k]) by {
            if k < rest.len() {
                assert(all[k] == rest[k]);
                let i = choose|i: int| 0 <= i < init.len() && #[trigger] init[i] == Some(rest[k]);
                assert(slots[i] == Some(all[k]));
            } else {
                assert(slots[slots.len() - 1] == Some(all[k]));
            }
        }
        assert forall|i: int|
            0 <= i < slots.len() && (#[trigger] slots[i]) is Some && p(slots[i]->0) implies all.contains(
            slots[i]->0,
        ) by {
            if i < slots.len() - 1 {
                assert(init[i] == slots[i]);
                let k = choose|k: int| 0 <= k < rest.len() && rest[k] == init[i]->0;
                assert(all[k] == slots[i]->0);
            } else {
                assert(all[all.len() - 1] == slots[i]->0);
            }
        }
    }
}

} // verus!
