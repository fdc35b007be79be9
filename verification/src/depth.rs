//! How deep references can lead.

use vstd::prelude::*;
use crate::components::{Components, are_finite};
use crate::json::JsonView;
use crate::order::{is_least, least, lemma_least, lemma_some_least, precedes};
use crate::pointer::{Pointer, pointer};
use crate::resolve::{
    Outcome, all_answered, array_resolution, brought, component_key, component_resolution, failing, fails, is_value, item_resolution, item_resolutions,
    lemma_first_failing_item, lemma_some_first_failure, member_resolution, member_resolutions, object_resolution,
    own, ref_key, resolution, resolved, value_of,
};

verus! {

/// What following a reference to the component at `key` comes to, when at most `depth` references
/// are followed one inside the other.
spec fn followed(depth: nat, components: Components, key: Seq<char>) -> Outcome {
    if depth == 0 {
        None
    } else {
        resolution((depth - 1) as nat, components[key].0, components[key].1, components)
    }
}

/// What is answered with the first depth is answered in the same way with the second.
spec fn agrees(first: nat, second: nat, components: Components) -> bool {
    forall|key: Seq<char>|
        components.contains_key(key) && (#[trigger] followed(first, components, key)) is Some ==> followed(
            second,
            components,
            key,
        ) == followed(first, components, key)
}

/// Objects whose members come to the same values come to the same value; those in which the first
/// failure is the same fail in the same way.
proof fn lemma_same_members(
    object: Map<Seq<char>, JsonView>,
    first: spec_fn(Seq<char>) -> Outcome,
    second: spec_fn(Seq<char>) -> Outcome,
)
    requires
        forall|key: Seq<char>|
            object.contains_key(key) && (#[trigger] first(key)) is Some ==> second(key) == first(key),
    ensures
        object_resolution(object, first) is Some ==> object_resolution(object, second) == object_resolution(
            object,
            first,
        ),
{
    if forall|key: Seq<char>| !fails(object, first, key) {
        assert forall|key: Seq<char>| !fails(object, second, key) by {
            assert(!fails(object, first, key));
        }
        assert forall|key: Seq<char>| object.contains_key(key) implies second(key) == #[trigger] first(key) by {
            assert(!fails(object, first, key));
        }
        assert(own(object, first) =~= own(object, second));
        assert(first(ref_key()) == first(ref_key()));
        assert(brought(object, first) =~= brought(object, second));
    } else if object_resolution(object, first) is Some {
        let p = failing(object, first);
        let q = failing(object, second);
        let key = least(p)->0;
        assert(is_least(p, key));
        assert(fails(object, first, key));
        assert(fails(object, second, key));
        assert forall|other: Seq<char>| #[trigger] q(other) implies other == key || precedes(key, other) by {
            assert(fails(object, second, other));
            assert(fails(object, first, other));
            assert(p(other));
        }
        assert(q(key));
        lemma_least(q, key);
    }
}

/// Arrays whose items come to the same values come to the same value; those in which the first
/// failure is the same fail in the same way.
proof fn lemma_same_items(count: nat, first: spec_fn(int) -> Outcome, second: spec_fn(int) -> Outcome)
    requires
        forall|i: int| 0 <= i < count && (#[trigger] first(i)) is Some ==> second(i) == first(i),
    ensures
        array_resolution(count, first) is Some ==> array_resolution(count, second) == array_resolution(
            count,
            first,
        ),
{
    if forall|i: int| 0 <= i < count ==> is_value(#[trigger] first(i)) {
        assert forall|i: int| 0 <= i < count implies is_value(#[trigger] second(i)) by {
            assert(is_value(first(i)));
        }
        assert(Seq::new(count, |i: int| value_of(first(i))) =~= Seq::new(count, |i: int| value_of(second(i)))) by {
            assert forall|i: int| 0 <= i < count implies value_of(#[trigger] second(i)) == value_of(first(i)) by {
                assert(is_value(first(i)));
            }
        }
    } else {
        let i = lemma_some_first_failure(count, first);
        lemma_first_failing_item(count, first, i);
        if first(i) is Some {
            assert forall|j: int| 0 <= j < i implies is_value(#[trigger] second(j)) by {
                assert(is_value(first(j)));
            }
            lemma_first_failing_item(count, second, i);
        }
    }
}

/// A value's outcome depends on the depth only through the outcomes of the references in it.
proof fn lemma_agrees(first: nat, second: nat, local_file: Seq<char>, value: JsonView, components: Components)
    requires
        agrees(first, second, components),
    ensures
        resolution(first, local_file, value, components) is Some ==> resolution(
            second,
            local_file,
            value,
            components,
        ) == resolution(first, local_file, value, components),
    decreases value,
{
    match value {
        JsonView::Object(object) => {
            let a = member_resolutions(first, local_file, object, components);
            let b = member_resolutions(second, local_file, object, components);
            assert forall|key: Seq<char>| object.contains_key(key) && (#[trigger] a(key)) is Some implies b(key)
                == a(key) by {
                assert(decreases_to!(value => value->Object_0[key]));
                lemma_agrees(first, second, local_file, object[key], components);
                assert(a(key) == member_resolution(first, local_file, object, components, key));
                assert(b(key) == member_resolution(second, local_file, object, components, key));
            }
            lemma_same_members(object, a, b);
        },
        JsonView::Array(items) => {
            let a = item_resolutions(first, local_file, items, components);
            let b = item_resolutions(second, local_file, items, components);
            assert forall|i: int| 0 <= i < items.len() && (#[trigger] a(i)) is Some implies b(i) == a(i) by {
                assert(decreases_to!(value => value->Array_0[i]));
                lemma_agrees(first, second, local_file, items[i], components);
                assert(a(i) == item_resolution(first, local_file, items, components, i));
                assert(b(i) == item_resolution(second, local_file, items, components, i));
            }
            lemma_same_items(items.len(), a, b);
        },
        JsonView::String(reference) => match pointer(reference) {
            Pointer::To { file, name } => {
                let key = component_key(local_file, file, name);
                if components.contains_key(key) {
                    assert(resolution(first, local_file, value, components) == followed(first, components, key));
                    assert(resolution(second, local_file, value, components) == followed(second, components, key));
                }
            },
            _ => {},
        },
        _ => {},
    }
}

/// More depth changes no answer.
proof fn lemma_deeper(depth: nat, components: Components)
    ensures
        agrees(depth, depth + 1, components),
    decreases depth,
{
    if depth > 0 {
        lemma_deeper((depth - 1) as nat, components);
        assert forall|key: Seq<char>|
            components.contains_key(key) && (#[trigger] followed(depth, components, key)) is Some implies followed(
            depth + 1,
            components,
            key,
        ) == followed(depth, components, key) by {
            lemma_agrees((depth - 1) as nat, depth, components[key].0, components[key].1, components);
        }
    }
}

/// However much more depth there is, no answer changes.
proof fn lemma_much_deeper(depth: nat, deeper: nat, components: Components)
    requires
        depth <= deeper,
    ensures
        agrees(depth, deeper, components),
    decreases deeper,
{
    if depth < deeper {
        let before = (deeper - 1) as nat;
        lemma_much_deeper(depth, before, components);
        lemma_deeper(before, components);
        assert forall|key: Seq<char>|
            components.contains_key(key) && (#[trigger] followed(depth, components, key)) is Some implies followed(
            deeper,
            components,
            key,
        ) == followed(depth, components, key) by {
            assert(followed(before, components, key) is Some);
        }
    }
}

/// The components to which a reference can be followed.
spec fn settled(depth: nat, components: Components) -> Set<Seq<char>> {
    components.dom().filter(|key: Seq<char>| followed(depth, components, key) is Some)
}

/// Once one more reference settles no further component, no number of them does.
proof fn lemma_stable(depth: nat, deeper: nat, components: Components)
    requires
        depth <= deeper,
        settled(depth, components) == settled(depth + 1, components),
    ensures
        agrees(deeper, depth, components),
    decreases deeper,
{
    if depth < deeper {
        let before = (deeper - 1) as nat;
        lemma_stable(depth, before, components);
        lemma_deeper(depth, components);
        assert forall|key: Seq<char>|
            components.contains_key(key) && (#[trigger] followed(deeper, components, key)) is Some implies followed(
            depth,
            components,
            key,
        ) == followed(deeper, components, key) by {
            lemma_agrees(before, depth, components[key].0, components[key].1, components);
            assert(followed(depth + 1, components, key) == followed(deeper, components, key));
            assert(settled(depth + 1, components).contains(key));
            assert(settled(depth, components).contains(key));
            assert(followed(depth, components, key) is Some);
        }
    }
}

/// Each further reference settles a component, until no further one is settled.
proof fn lemma_growth(depth: nat, components: Components)
    requires
        components.dom().finite(),
    ensures
        settled(depth, components).len() >= depth || exists|stop: nat|
            stop < depth && #[trigger] settled(stop, components) == settled(stop + 1, components),
    decreases depth,
{
    if depth > 0 {
        let before = (depth - 1) as nat;
        lemma_growth(before, components);
        lemma_deeper(before, components);
        if !(exists|stop: nat| stop < depth && #[trigger] settled(stop, components) == settled(stop + 1, components)) {
            let small = settled(before, components);
            let large = settled(depth, components);
            assert(small != large);
            assert forall|key: Seq<char>| small.contains(key) implies large.contains(key) by {
                assert(followed(before, components, key) is Some);
            }
            let fresh = choose|key: Seq<char>| large.contains(key) && !small.contains(key);
            assert(large.contains(fresh) && !small.contains(fresh)) by {
                if forall|key: Seq<char>| large.contains(key) ==> small.contains(key) {
                    assert(small =~= large);
                }
            }
            assert(small.insert(fresh).subset_of(large));
            assert(large.finite());
            vstd::set_lib::lemma_len_subset(small.insert(fresh), large);
        }
    }
}

/// Following as many references one inside the other as there are components is always enough: an
/// answer that any depth gives is the answer. So where there is none, the references never come to
/// an end, or one of them cannot be cut.
pub proof fn law_depth(depth: nat, local_file: Seq<char>, value: JsonView, components: Components)
    requires
        components.dom().finite(),
    ensures
        resolution(depth, local_file, value, components) is Some ==> resolved(local_file, value, components)
            == resolution(depth, local_file, value, components),
{
    let count = components.dom().len();
    lemma_growth(count + 1, components);
    assert(settled(count + 1, components).subset_of(components.dom()));
    vstd::set_lib::lemma_len_subset(settled(count + 1, components), components.dom());
    let stop = choose|stop: nat|
        stop < count + 1 && #[trigger] settled(stop, components) == settled(stop + 1, components);
    if depth <= count {
        lemma_much_deeper(depth, count, components);
        lemma_agrees(depth, count, local_file, value, components);
    } else {
        lemma_stable(stop, depth, components);
        lemma_agrees(depth, stop, local_file, value, components);
        lemma_much_deeper(stop, count, components);
        lemma_agrees(stop, count, local_file, value, components);
    }
}

/// `reference` is one of those that resolving `value` comes to: a string is one, and so is a string at
/// `$ref` in an object, however deep inside objects and arrays.
pub open spec fn comes_to(value: JsonView, reference: Seq<char>) -> bool
    decreases value,
{
    match value {
        JsonView::String(text) => text == reference,
        JsonView::Object(object) => exists|key: Seq<char>| #[trigger]
            object.contains_key(key) && {
                proof {
                    assert(decreases_to!(value => value->Object_0[key]));
                }
                object[key] is String == (key == ref_key()) && comes_to(object[key], reference)
            },
        JsonView::Array(items) => exists|i: int|
            0 <= i < items.len() && {
                proof {
                    assert(decreases_to!(value => value->Array_0[i]));
                }
                !(items[i] is String) && comes_to(#[trigger] items[i], reference)
            },
        _ => false,
    }
}

/// `reference`, found in `local_file`, can be cut, unless it is malformed; and if it leads to a known
/// component, to one whose rank is below `bound`.
pub open spec fn leads_below(
    local_file: Seq<char>,
    reference: Seq<char>,
    components: Components,
    rank: spec_fn(Seq<char>) -> nat,
    bound: nat,
) -> bool {
    match pointer(reference) {
        Pointer::Malformed => true,
        Pointer::Truncated => false,
        Pointer::To { file, name } => {
            let key = component_key(local_file, file, name);
            components.contains_key(key) ==> rank(key) < bound
        },
    }
}

/// Every reference in a component leads to a component of smaller rank, or to none that is known. So
/// the references do not run in a circle; and each of them can be cut.
pub open spec fn is_ranked(components: Components, rank: spec_fn(Seq<char>) -> nat) -> bool {
    forall|key: Seq<char>, reference: Seq<char>|
        components.contains_key(key) && #[trigger] comes_to(components[key].1, reference) ==> leads_below(
            components[key].0,
            reference,
            components,
            rank,
            rank(key),
        )
}

/// An object has an answer if all its members have.
proof fn lemma_object_answered(object: Map<Seq<char>, JsonView>, member: spec_fn(Seq<char>) -> Outcome)
    requires
        object.dom().finite(),
        forall|key: Seq<char>| object.contains_key(key) ==> (#[trigger] member(key)) is Some,
    ensures
        object_resolution(object, member) is Some,
{
    let p = failing(object, member);
    if exists|key: Seq<char>| fails(object, member, key) {
        let found = choose|key: Seq<char>| fails(object, member, key);
        assert(p(found));
        let first = lemma_some_least(p, object.dom());
        lemma_least(p, first);
        assert(fails(object, member, first));
    }
}

/// An array has an answer if all its items have.
proof fn lemma_array_answered(count: nat, item: spec_fn(int) -> Outcome)
    requires
        forall|i: int| 0 <= i < count ==> (#[trigger] item(i)) is Some,
    ensures
        array_resolution(count, item) is Some,
{
    if exists|i: int| 0 <= i < count && !is_value(#[trigger] item(i)) {
        let first = lemma_some_first_failure(count, item);
        lemma_first_failing_item(count, item, first);
    }
}

/// A value whose references all lead below a rank has an answer at that depth.
proof fn lemma_answered(
    bound: nat,
    local_file: Seq<char>,
    value: JsonView,
    components: Components,
    rank: spec_fn(Seq<char>) -> nat,
)
    requires
        value.is_finite(),
        are_finite(components),
        is_ranked(components, rank),
        forall|reference: Seq<char>| #[trigger]
            comes_to(value, reference) ==> leads_below(local_file, reference, components, rank, bound),
    ensures
        resolution(bound, local_file, value, components) is Some,
    decreases bound, value,
{
    match value {
        JsonView::Object(object) => {
            let member = member_resolutions(bound, local_file, object, components);
            assert forall|key: Seq<char>| object.contains_key(key) implies (#[trigger] member(key)) is Some by {
                assert(decreases_to!(value => value->Object_0[key]));
                assert(member(key) == member_resolution(bound, local_file, object, components, key));
                if object[key] is String == (key == ref_key()) {
                    assert forall|reference: Seq<char>| #[trigger]
                        comes_to(object[key], reference) implies leads_below(
                        local_file,
                        reference,
                        components,
                        rank,
                        bound,
                    ) by {
                        assert(comes_to(value, reference));
                    }
                    lemma_answered(bound, local_file, object[key], components, rank);
                }
            }
            lemma_object_answered(object, member);
        },
        JsonView::Array(items) => {
            let item = item_resolutions(bound, local_file, items, components);
            assert forall|i: int| 0 <= i < items.len() implies (#[trigger] item(i)) is Some by {
                assert(decreases_to!(value => value->Array_0[i]));
                assert(item(i) == item_resolution(bound, local_file, items, components, i));
                assert(items[i].is_finite());
                if !(items[i] is String) {
                    assert forall|reference: Seq<char>| #[trigger]
                        comes_to(items[i], reference) implies leads_below(
                        local_file,
                        reference,
                        components,
                        rank,
                        bound,
                    ) by {
                        assert(comes_to(value, reference));
                    }
                    lemma_answered(bound, local_file, items[i], components, rank);
                }
            }
            lemma_array_answered(items.len(), item);
        },
        JsonView::String(reference) => {
            assert(comes_to(value, reference));
            if let Pointer::To { file, name } = pointer(reference) {
                let key = component_key(local_file, file, name);
                if components.contains_key(key) {
                    let less = (bound - 1) as nat;
                    assert forall|other: Seq<char>| #[trigger]
                        comes_to(components[key].1, other) implies leads_below(
                        components[key].0,
                        other,
                        components,
                        rank,
                        less,
                    ) by {
                        assert(leads_below(components[key].0, other, components, rank, rank(key)));
                    }
                    lemma_answered(less, components[key].0, components[key].1, components, rank);
                }
            }
        },
        _ => {},
    }
}

/// Finitely many keys have ranks below some bound.
proof fn lemma_bounded(keys: Set<Seq<char>>, rank: spec_fn(Seq<char>) -> nat) -> (bound: nat)
    requires
        keys.finite(),
    ensures
        forall|key: Seq<char>| #[trigger] keys.contains(key) ==> rank(key) < bound,
    decreases keys.len(),
{
    if keys.is_empty() {
        0
    } else {
        let key = keys.choose();
        let others = lemma_bounded(keys.remove(key), rank);
        let bound = if others > rank(key) {
            others
        } else {
            rank(key) + 1
        };
        assert forall|other: Seq<char>| #[trigger] keys.contains(other) implies rank(other) < bound by {
            if other != key {
                assert(keys.remove(key).contains(other));
            }
        }
        bound
    }
}

/// Where the references in the components can be ranked, so that they do not run in a circle, every
/// value whose own references can be cut has an answer.
pub proof fn law_answered(
    local_file: Seq<char>,
    value: JsonView,
    components: Components,
    rank: spec_fn(Seq<char>) -> nat,
)
    requires
        value.is_finite(),
        are_finite(components),
        is_ranked(components, rank),
        forall|reference: Seq<char>| #[trigger] comes_to(value, reference) ==> !(pointer(reference) is Truncated),
    ensures
        resolved(local_file, value, components) is Some,
{
    let bound = lemma_bounded(components.dom(), rank);
    lemma_answered(bound, local_file, value, components, rank);
    law_depth(bound, local_file, value, components);
}

/// Where the references in the components can be ranked, so that they do not run in a circle, every
/// component has an answer.
pub proof fn law_all_answered(components: Components, rank: spec_fn(Seq<char>) -> nat)
    requires
        are_finite(components),
        is_ranked(components, rank),
    ensures
        all_answered(components),
{
    assert forall|key: Seq<char>| components.contains_key(key) implies (#[trigger] component_resolution(
        components,
        key,
    )) is Some by {
        let (file, value) = components[key];
        assert forall|reference: Seq<char>| #[trigger] comes_to(value, reference) implies !(pointer(
            reference,
        ) is Truncated) by {
            assert(leads_below(file, reference, components, rank, rank(key)));
        }
        law_answered(file, value, components, rank);
    }
}

} // verus!
