//! The order in which the members of a JSON object are visited.

use vstd::prelude::*;

verus! {

/// `a` comes strictly before `b` in the order of strings: at the first character in which they
/// differ `a` has the smaller one, or `a` ends first.
pub open spec fn precedes(a: Seq<char>, b: Seq<char>) -> bool
    decreases a.len(),
{
    if b.len() == 0 {
        false
    } else if a.len() == 0 {
        true
    } else if a[0] != b[0] {
        (a[0] as int) < (b[0] as int)
    } else {
        precedes(a.drop_first(), b.drop_first())
    }
}

/// Each key comes strictly before all that follow it.
pub open spec fn ascending(keys: Seq<Seq<char>>) -> bool {
    forall|i: int, j: int| 0 <= i < j < keys.len() ==> precedes(keys[i], keys[j])
}

/// `key` satisfies `p`, and comes before every other key that does.
pub open spec fn is_least(p: spec_fn(Seq<char>) -> bool, key: Seq<char>) -> bool {
    &&& p(key)
    &&& forall|other: Seq<char>| #[trigger] p(other) ==> other == key || precedes(key, other)
}

/// The first key that satisfies `p`.
pub open spec fn least(p: spec_fn(Seq<char>) -> bool) -> Option<Seq<char>> {
    if exists|key: Seq<char>| is_least(p, key) {
        Some(choose|key: Seq<char>| is_least(p, key))
    } else {
        None
    }
}

/// No two keys come before each other, so no key comes before itself.
pub proof fn lemma_precedes_asymmetric(a: Seq<char>, b: Seq<char>)
    requires
        precedes(a, b),
    ensures
        !precedes(b, a),
        a != b,
    decreases a.len(),
{
    if a.len() > 0 && a[0] == b[0] {
        lemma_precedes_asymmetric(a.drop_first(), b.drop_first());
    }
}

/// Of two keys that differ, one comes before the other.
pub proof fn lemma_precedes_total(a: Seq<char>, b: Seq<char>)
    ensures
        a == b || precedes(a, b) || precedes(b, a),
    decreases a.len(),
{
    if a.len() == 0 || b.len() == 0 {
        assert(a.len() == b.len() ==> a =~= b);
    } else if a[0] == b[0] {
        lemma_precedes_total(a.drop_first(), b.drop_first());
        if a.drop_first() == b.drop_first() {
            assert(a =~= seq![a[0]] + a.drop_first());
            assert(b =~= seq![b[0]] + b.drop_first());
        }
    }
}

/// What comes before a key that comes before another comes before that other.
pub proof fn lemma_precedes_transitive(a: Seq<char>, b: Seq<char>, c: Seq<char>)
    requires
        precedes(a, b),
        precedes(b, c),
    ensures
        precedes(a, c),
    decreases a.len(),
{
    if a.len() > 0 && a[0] == b[0] && b[0] == c[0] {
        lemma_precedes_transitive(a.drop_first(), b.drop_first(), c.drop_first());
    }
}

/// Of finitely many keys that satisfy `p`, one is the first.
pub proof fn lemma_some_least(p: spec_fn(Seq<char>) -> bool, keys: Set<Seq<char>>) -> (first: Seq<char>)
    requires
        keys.finite(),
        forall|key: Seq<char>| #[trigger] p(key) ==> keys.contains(key),
        exists|key: Seq<char>| #[trigger] p(key),
    ensures
        is_least(p, first),
    decreases keys.len(),
{
    let found = choose|key: Seq<char>| #[trigger] p(key);
    let others = |key: Seq<char>| p(key) && key != found;
    if exists|key: Seq<char>| #[trigger] others(key) {
        let first = lemma_some_least(others, keys.remove(found));
        assert(others(first));
        lemma_precedes_total(found, first);
        if precedes(found, first) {
            assert forall|other: Seq<char>| #[trigger] p(other) implies other == found || precedes(
                found,
                other,
            ) by {
                if other != found && other != first {
                    assert(others(other));
                    lemma_precedes_transitive(found, first, other);
                }
            }
            found
        } else {
            assert forall|other: Seq<char>| #[trigger] p(other) implies other == first || precedes(
                first,
                other,
            ) by {
                if other != found {
                    assert(others(other));
                }
            }
            first
        }
    } else {
        assert forall|other: Seq<char>| #[trigger] p(other) implies other == found by {
            assert(!others(other));
        }
        found
    }
}

/// There is at most one first key.
pub proof fn lemma_least(p: spec_fn(Seq<char>) -> bool, key: Seq<char>)
    requires
        is_least(p, key),
    ensures
        least(p) == Some(key),
{
    let found = choose|k: Seq<char>| is_least(p, k);
    if found != key {
        assert(p(found) && p(key));
        lemma_precedes_asymmetric(key, found);
    }
}

/// Of keys in order, the first that satisfies `p` is the first of all.
pub proof fn lemma_first(p: spec_fn(Seq<char>) -> bool, keys: Seq<Seq<char>>, i: int)
    requires
        ascending(keys),
        forall|key: Seq<char>| #[trigger] p(key) ==> keys.to_set().contains(key),
        0 <= i < keys.len(),
        p(keys[i]),
        forall|j: int| 0 <= j < i ==> !#[trigger] p(keys[j]),
    ensures
        is_least(p, keys[i]),
        least(p) == Some(keys[i]),
{
    assert forall|other: Seq<char>| #[trigger] p(other) implies other == keys[i] || precedes(keys[i], other) by {
        assert(keys.to_set().contains(other));
        let j = keys.index_of(other);
        assert(keys[j] == other);
    }
    lemma_least(p, keys[i]);
}

/// Where none of the keys satisfies `p`, there is no first.
pub proof fn lemma_none(p: spec_fn(Seq<char>) -> bool, keys: Seq<Seq<char>>)
    requires
        forall|key: Seq<char>| #[trigger] p(key) ==> keys.to_set().contains(key),
        forall|j: int| 0 <= j < keys.len() ==> !#[trigger] p(keys[j]),
    ensures
        forall|key: Seq<char>| !#[trigger] p(key),
        least(p) is None,
{
    assert forall|key: Seq<char>| !#[trigger] p(key) by {
        if p(key) {
            assert(keys.to_set().contains(key));
            assert(keys[keys.index_of(key)] == key);
        }
    }
    assert forall|key: Seq<char>| !is_least(p, key) by {
        assert(!p(key));
    }
}

/// Visiting one more key.
pub proof fn lemma_next(keys: Seq<Seq<char>>, i: int)
    requires
        0 <= i < keys.len(),
    ensures
        keys.take(i + 1).to_set() == keys.take(i).to_set().insert(keys[i]),
        forall|key: Seq<char>| #[trigger]
            keys.take(i + 1).contains(key) <==> keys.take(i).contains(key) || key == keys[i],
{
    let before = keys.take(i);
    let after = keys.take(i + 1);
    assert forall|key: Seq<char>| #[trigger] after.contains(key) <==> before.contains(key) || key == keys[i] by {
        if before.contains(key) {
            assert(after[before.index_of(key)] == key);
        }
        if after.contains(key) && after.index_of(key) < i {
            assert(before[after.index_of(key)] == key);
        }
        assert(after[i] == keys[i]);
    }
    assert(after.to_set() =~= before.to_set().insert(keys[i]));
}

/// Of keys in order, those visited before one are those that come before it.
pub proof fn lemma_visited(keys: Seq<Seq<char>>, i: int)
    requires
        ascending(keys),
        0 <= i < keys.len(),
    ensures
        !keys.take(i).contains(keys[i]),
        forall|key: Seq<char>| #[trigger]
            keys.take(i).contains(key) <==> keys.to_set().contains(key) && precedes(key, keys[i]),
{
    let before = keys.take(i);
    assert forall|key: Seq<char>| #[trigger] before.contains(key) <==> keys.to_set().contains(key) && precedes(
        key,
        keys[i],
    ) by {
        if before.contains(key) {
            assert(keys[before.index_of(key)] == key);
        }
        if keys.to_set().contains(key) && precedes(key, keys[i]) {
            let j = keys.index_of(key);
            assert(keys[j] == key);
            if j > i {
                lemma_precedes_asymmetric(keys[i], keys[j]);
            } else if j == i {
                lemma_precedes_asymmetric(key, keys[i]);
            }
            assert(before[j] == key);
        }
    }
    if before.contains(keys[i]) {
        lemma_precedes_asymmetric(keys[i], keys[i]);
    }
}

/// A text comes before one that goes on where it ends; and of two texts that first differ in a
/// character, the one with the smaller character comes first. No other text comes before another.
pub proof fn law_order(common: Seq<char>, a: Seq<char>, b: Seq<char>)
    ensures
        b.len() > 0 ==> precedes(common, common + b),
        a.len() > 0 && b.len() > 0 && (a[0] as int) < (b[0] as int) ==> precedes(common + a, common + b),
        precedes(a, b) ==> !precedes(b, a) && a != b,
        precedes(a, b) || precedes(b, a) || a == b,
    decreases common.len(),
{
    lemma_precedes_total(a, b);
    if precedes(a, b) {
        lemma_precedes_asymmetric(a, b);
    }
    if common.len() == 0 {
        assert(common + a =~= a);
        assert(common + b =~= b);
    } else {
        assert((common + a).drop_first() =~= common.drop_first() + a);
        assert((common + b).drop_first() =~= common.drop_first() + b);
        law_order(common.drop_first(), a, b);
    }
}

} // verus!
