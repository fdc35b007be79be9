//! What each value resolves to, given what the values inside it resolve to.

use vstd::prelude::*;
use crate::components::Components;
use crate::dereferenced::{law_dereferenced, law_reference, lemma_all_values};
use crate::json::JsonView;
use crate::order::{
    is_least, law_order, least, lemma_least, lemma_precedes_asymmetric, lemma_precedes_total, lemma_some_least, precedes,
};
use crate::pointer::{Pointer, pointer};
use crate::problem::{ErrorView, Problem};
use crate::resolve::{
    Outcome, array_resolution, brought, failing, fails, is_first_failure, item_resolution, item_resolutions,
    lemma_first_failing_item, member_resolution, member_resolutions, object_resolution, overwritten, own, resolution,
    resolved, spliced, value_of,
};

verus! {

/// `null`, booleans and numbers resolve to themselves.
pub proof fn law_scalar(local_file: Seq<char>, value: JsonView, components: Components)
    requires
        value is Null || value is Bool || value is Number,
    ensures
        resolved(local_file, value, components) == Some(Ok::<JsonView, ErrorView>(value)),
{
}

/// A string resolves to what the component to which it leads resolves to in the file of that
/// component. The key of the component is the file and the name; where the reference names no file,
/// the file in which it stands and the name.
pub proof fn law_string(
    local_file: Seq<char>,
    reference: Seq<char>,
    components: Components,
    file: Seq<char>,
    name: Seq<char>,
    key: Seq<char>,
)
    requires
        components.dom().finite(),
        pointer(reference) == (Pointer::To { file, name }),
        key == (if file.len() == 0 {
            local_file + name
        } else {
            file + name
        }),
    ensures
        components.contains_key(key) ==> resolved(local_file, JsonView::String(reference), components)
            == resolved(components[key].0, components[key].1, components),
        !components.contains_key(key) ==> resolved(local_file, JsonView::String(reference), components) == Some(
            Err::<JsonView, ErrorView>(Problem::UnknownReference { file: local_file, reference }),
        ),
{
    if components.contains_key(key) {
        law_reference(local_file, reference, components);
    }
}

/// A string that is not written as a reference is a problem, and one that cannot be cut has no
/// answer.
pub proof fn law_no_reference(local_file: Seq<char>, reference: Seq<char>, components: Components)
    ensures
        pointer(reference) is Malformed ==> resolved(local_file, JsonView::String(reference), components) == Some(
            Err::<JsonView, ErrorView>(Problem::BadReference { file: local_file, reference }),
        ),
        pointer(reference) is Truncated ==> resolved(local_file, JsonView::String(reference), components) is None,
{
}

/// An array resolves to the array of what the objects and arrays in it resolve to, each in its
/// place, with every other item as it is.
pub proof fn law_array(
    local_file: Seq<char>,
    items: Seq<JsonView>,
    components: Components,
    values: Seq<JsonView>,
)
    requires
        values.len() == items.len(),
        forall|i: int|
            0 <= i < items.len() ==> if (#[trigger] items[i]) is Object || items[i] is Array {
                resolved(local_file, items[i], components) == Some(Ok::<JsonView, ErrorView>(values[i]))
            } else {
                values[i] == items[i]
            },
    ensures
        resolved(local_file, JsonView::Array(items), components) == Some(
            Ok::<JsonView, ErrorView>(JsonView::Array(values)),
        ),
{
    let depth = components.dom().len();
    let item = item_resolutions(depth, local_file, items, components);
    assert forall|i: int| 0 <= i < items.len() implies (#[trigger] item(i)) == Some(
        Ok::<JsonView, ErrorView>(values[i]),
    ) by {
        assert(item(i) == item_resolution(depth, local_file, items, components, i));
        assert(items[i] == items[i]);
    }
    assert(Seq::new(items.len(), |i: int| value_of(item(i))) =~= values);
    assert(array_resolution(items.len(), item) == Some(Ok::<JsonView, ErrorView>(JsonView::Array(values))));
}

/// An array in which an object or array does not resolve to a value comes to what the first of them
/// comes to.
pub proof fn law_array_fails(
    local_file: Seq<char>,
    items: Seq<JsonView>,
    components: Components,
    i: int,
)
    requires
        0 <= i < items.len(),
        items[i] is Object || items[i] is Array,
        !(resolved(local_file, items[i], components) matches Some(Ok(_))),
        forall|j: int|
            0 <= j < i && ((#[trigger] items[j]) is Object || items[j] is Array) ==> (resolved(
                local_file,
                items[j],
                components,
            ) matches Some(Ok(_))),
    ensures
        resolved(local_file, JsonView::Array(items), components) == resolved(local_file, items[i], components),
{
    let depth = components.dom().len();
    let item = item_resolutions(depth, local_file, items, components);
    assert(item(i) == item_resolution(depth, local_file, items, components, i));
    assert forall|j: int| 0 <= j < i implies (#[trigger] item(j) matches Some(Ok(_))) by {
        assert(item(j) == item_resolution(depth, local_file, items, components, j));
        assert(items[j] == items[j]);
    }
    assert(is_first_failure(items.len(), item, i));
    lemma_first_failing_item(items.len(), item, i);
}

/// An object without a reference resolves to the object of what the objects and arrays in it resolve
/// to, each at its key, with every other member as it is. What stands at `$ref` is left out.
pub proof fn law_object(
    local_file: Seq<char>,
    object: Map<Seq<char>, JsonView>,
    components: Components,
    values: Map<Seq<char>, JsonView>,
)
    requires
        !(object.contains_key("$ref"@) && object["$ref"@] is String),
        values.dom() == object.dom().remove("$ref"@),
        forall|key: Seq<char>| #[trigger]
            values.contains_key(key) ==> if object[key] is Object || object[key] is Array {
                resolved(local_file, object[key], components) == Some(Ok::<JsonView, ErrorView>(values[key]))
            } else {
                values[key] == object[key]
            },
    ensures
        resolved(local_file, JsonView::Object(object), components) == Some(
            Ok::<JsonView, ErrorView>(JsonView::Object(values)),
        ),
{
    let depth = components.dom().len();
    let member = member_resolutions(depth, local_file, object, components);
    assert forall|key: Seq<char>| object.contains_key(key) implies #[trigger] member(key) == (if key == "$ref"@ {
        Some(Ok::<JsonView, ErrorView>(object[key]))
    } else {
        Some(Ok::<JsonView, ErrorView>(values[key]))
    }) by {
        assert(member(key) == member_resolution(depth, local_file, object, components, key));
        if key != "$ref"@ {
            assert(object.dom().remove("$ref"@).contains(key));
            assert(values.contains_key(key));
        }
    }
    assert forall|key: Seq<char>| !fails(object, member, key) by {
        if object.contains_key(key) {
            assert(member(key) is Some);
        }
    }
    assert forall|key: Seq<char>| values.contains_key(key) <==> #[trigger] own(object, member).contains_key(key) by {
        assert(values.dom().contains(key) <==> object.dom().remove("$ref"@).contains(key));
    }
    assert(own(object, member) =~= values) by {
        assert forall|key: Seq<char>| #[trigger] own(object, member).contains_key(key) implies own(
            object,
            member,
        )[key] == values[key] by {
            assert(member(key) is Some);
        }
    }
    assert(brought(object, member).union_prefer_right(own(object, member)) =~= values);
}

/// An object with a reference that leads to an object resolves to all members of that object, and
/// over them the object's own members, resolved. None of its members that come before the reference
/// is brought in again.
pub proof fn law_object_with_reference(
    local_file: Seq<char>,
    object: Map<Seq<char>, JsonView>,
    components: Components,
    target: Map<Seq<char>, JsonView>,
    values: Map<Seq<char>, JsonView>,
)
    requires
        object.contains_key("$ref"@),
        object["$ref"@] is String,
        resolved(local_file, object["$ref"@], components) == Some(
            Ok::<JsonView, ErrorView>(JsonView::Object(target)),
        ),
        forall|key: Seq<char>| #[trigger]
            target.contains_key(key) && object.contains_key(key) ==> !precedes(key, "$ref"@),
        values.dom() == object.dom().remove("$ref"@).union(target.dom()),
        forall|key: Seq<char>| #[trigger]
            values.contains_key(key) ==> if !object.contains_key(key) || key == "$ref"@ {
                values[key] == target[key]
            } else if object[key] is Object || object[key] is Array {
                resolved(local_file, object[key], components) == Some(Ok::<JsonView, ErrorView>(values[key]))
            } else {
                values[key] == object[key]
            },
    ensures
        resolved(local_file, JsonView::Object(object), components) == Some(
            Ok::<JsonView, ErrorView>(JsonView::Object(values)),
        ),
{
    let depth = components.dom().len();
    let member = member_resolutions(depth, local_file, object, components);
    assert(member("$ref"@) == member_resolution(depth, local_file, object, components, "$ref"@));
    lemma_not_overwritten(object, target);
    assert(member("$ref"@) == Some(Ok::<JsonView, ErrorView>(JsonView::Object(target))));
    assert forall|key: Seq<char>| object.contains_key(key) && key != "$ref"@ implies #[trigger] member(key) == Some(
        Ok::<JsonView, ErrorView>(values[key]),
    ) by {
        assert(member(key) == member_resolution(depth, local_file, object, components, key));
        assert(object.dom().remove("$ref"@).union(target.dom()).contains(key));
        assert(values.contains_key(key));
    }
    assert forall|key: Seq<char>| !fails(object, member, key) by {
        if object.contains_key(key) {
            assert(member(key) is Some);
        }
    }
    let whole = brought(object, member).union_prefer_right(own(object, member));
    assert(brought(object, member) =~= target);
    assert forall|key: Seq<char>| #[trigger] whole.contains_key(key) <==> values.contains_key(key) by {
        assert(values.dom().contains(key) <==> object.dom().remove("$ref"@).union(target.dom()).contains(key));
    }
    assert forall|key: Seq<char>| #[trigger] whole.contains_key(key) implies whole[key] == values[key] by {
        assert(values.contains_key(key));
        if own(object, member).contains_key(key) {
            assert(member(key) is Some);
        }
    }
    assert(whole =~= values);
}

/// Where no key that comes before the reference is brought in, nothing is overwritten.
proof fn lemma_not_overwritten(object: Map<Seq<char>, JsonView>, target: Map<Seq<char>, JsonView>)
    requires
        forall|key: Seq<char>| #[trigger]
            target.contains_key(key) && object.contains_key(key) ==> !precedes(key, "$ref"@),
    ensures
        least(overwritten(object, target)) is None,
{
    let p = overwritten(object, target);
    assert forall|key: Seq<char>| !is_least(p, key) by {
        assert(!p(key));
    }
}

/// The first member that does not come to a value decides.
proof fn lemma_first_member(
    object: Map<Seq<char>, JsonView>,
    member: spec_fn(Seq<char>) -> Outcome,
    key: Seq<char>,
)
    requires
        object.contains_key(key),
        !(member(key) matches Some(Ok(_))),
        forall|other: Seq<char>| #[trigger]
            object.contains_key(other) && precedes(other, key) ==> (member(other) matches Some(Ok(_))),
    ensures
        object_resolution(object, member) == member(key),
{
    let p = failing(object, member);
    assert(fails(object, member, key));
    assert forall|other: Seq<char>| #[trigger] p(other) implies other == key || precedes(key, other) by {
        lemma_precedes_total(other, key);
        assert(object.contains_key(other));
    }
    assert(p(key));
    lemma_least(p, key);
}

/// An object in which a member that is an object or array does not resolve to a value, and every
/// member before it does, comes to what that member comes to.
pub proof fn law_object_fails(
    local_file: Seq<char>,
    object: Map<Seq<char>, JsonView>,
    components: Components,
    key: Seq<char>,
)
    requires
        object.contains_key(key),
        key != "$ref"@,
        object[key] is Object || object[key] is Array,
        !(resolved(local_file, object[key], components) matches Some(Ok(_))),
        forall|other: Seq<char>| #[trigger]
            object.contains_key(other) && precedes(other, key) && other != "$ref"@ && (object[other] is Object
                || object[other] is Array) ==> (resolved(local_file, object[other], components) matches Some(Ok(_))),
        object.contains_key("$ref"@) && precedes("$ref"@, key) && object["$ref"@] is String ==> {
            &&& resolved(local_file, object["$ref"@], components) matches Some(Ok(JsonView::Object(target)))
            &&& forall|other: Seq<char>| #[trigger]
                target.contains_key(other) && object.contains_key(other) ==> !precedes(other, "$ref"@)
        },
    ensures
        resolved(local_file, JsonView::Object(object), components) == resolved(local_file, object[key], components),
{
    let depth = components.dom().len();
    let member = member_resolutions(depth, local_file, object, components);
    assert(member(key) == member_resolution(depth, local_file, object, components, key));
    assert forall|other: Seq<char>| #[trigger] object.contains_key(other) && precedes(other, key) implies (member(
        other,
    ) matches Some(Ok(_))) by {
        assert(member(other) == member_resolution(depth, local_file, object, components, other));
        if other == "$ref"@ && object[other] is String {
            lemma_not_overwritten(object, resolved(local_file, object["$ref"@], components)->0->Ok_0->Object_0);
        }
    }
    lemma_first_member(object, member, key);
}

/// An object with a reference, before which every member resolves to a value, comes to what the
/// reference comes to, where that is no value. A reference to a value that is no object is a problem;
/// so is one that brings in a key that stands before it, and the first such key is named.
pub proof fn law_reference_fails(
    local_file: Seq<char>,
    object: Map<Seq<char>, JsonView>,
    components: Components,
    reference: Seq<char>,
)
    requires
        object.contains_key("$ref"@),
        object["$ref"@] == JsonView::String(reference),
        forall|other: Seq<char>| #[trigger]
            object.contains_key(other) && precedes(other, "$ref"@) && (object[other] is Object
                || object[other] is Array) ==> (resolved(local_file, object[other], components) matches Some(Ok(_))),
    ensures
        resolved(local_file, JsonView::String(reference), components) is None ==> resolved(
            local_file,
            JsonView::Object(object),
            components,
        ) is None,
        resolved(local_file, JsonView::String(reference), components) matches Some(Err(problem)) ==> resolved(
            local_file,
            JsonView::Object(object),
            components,
        ) == Some(Err::<JsonView, ErrorView>(problem)),
        resolved(local_file, JsonView::String(reference), components) matches Some(Ok(value)) && !(value is Object)
            ==> resolved(local_file, JsonView::Object(object), components) == Some(
            Err::<JsonView, ErrorView>(Problem::NotAnObject { reference }),
        ),
        forall|target: Map<Seq<char>, JsonView>, key: Seq<char>|
            resolved(local_file, JsonView::String(reference), components) == Some(
                Ok::<JsonView, ErrorView>(JsonView::Object(target)),
            ) && #[trigger] target.contains_key(key) && object.contains_key(key) && precedes(key, "$ref"@) && (
            forall|other: Seq<char>| #[trigger]
                target.contains_key(other) && object.contains_key(other) ==> !precedes(other, key)) ==> resolved(
                local_file,
                JsonView::Object(object),
                components,
            ) == Some(Err::<JsonView, ErrorView>(Problem::Overwritten { file: local_file, key })),
{
    let depth = components.dom().len();
    let member = member_resolutions(depth, local_file, object, components);
    let outcome = resolved(local_file, JsonView::String(reference), components);
    assert(member("$ref"@) == member_resolution(depth, local_file, object, components, "$ref"@));
    assert(member("$ref"@) == spliced(local_file, object, reference, outcome));
    assert forall|other: Seq<char>| #[trigger] object.contains_key(other) && precedes(other, "$ref"@) implies (member(
        other,
    ) matches Some(Ok(_))) by {
        assert(member(other) == member_resolution(depth, local_file, object, components, other));
        lemma_precedes_asymmetric(other, "$ref"@);
    }
    if !(member("$ref"@) matches Some(Ok(_))) {
        lemma_first_member(object, member, "$ref"@);
    }
    assert forall|target: Map<Seq<char>, JsonView>, key: Seq<char>|
        outcome == Some(Ok::<JsonView, ErrorView>(JsonView::Object(target))) && #[trigger] target.contains_key(key)
            && object.contains_key(key) && precedes(key, "$ref"@) && (forall|other: Seq<char>| #[trigger]
            target.contains_key(other) && object.contains_key(other) ==> !precedes(other, key)) implies resolved(
        local_file,
        JsonView::Object(object),
        components,
    ) == Some(Err::<JsonView, ErrorView>(Problem::Overwritten { file: local_file, key })) by {
        let p = overwritten(object, target);
        assert(p(key));
        assert forall|other: Seq<char>| #[trigger] p(other) implies other == key || precedes(key, other) by {
            lemma_precedes_total(other, key);
            assert(target.contains_key(other));
        }
        lemma_least(p, key);
        lemma_first_member(object, member, "$ref"@);
    }
}

/// An object with a reference and nothing else resolves to what the reference resolves to, wherever
/// that is an object, a problem or no answer. So references to objects can be wrapped and followed at
/// will.
pub proof fn law_only_reference(local_file: Seq<char>, reference: Seq<char>, components: Components)
    ensures
        (resolved(local_file, JsonView::String(reference), components) matches Some(Ok(value)) ==> value is Object)
            ==> resolved(
            local_file,
            JsonView::Object(map!["$ref"@ => JsonView::String(reference)]),
            components,
        ) == resolved(local_file, JsonView::String(reference), components),
{
    let object = map!["$ref"@ => JsonView::String(reference)];
    let outcome = resolved(local_file, JsonView::String(reference), components);
    law_order("$ref"@, "$ref"@, "$ref"@);
    assert forall|other: Seq<char>| object.contains_key(other) implies !precedes(other, "$ref"@) by {
        assert(other == "$ref"@);
    }
    law_reference_fails(local_file, object, components, reference);
    if let Some(Ok(JsonView::Object(target))) = outcome {
        assert(object.dom().remove("$ref"@).union(target.dom()) =~= target.dom());
        law_object_with_reference(local_file, object, components, target, target);
    }
}

/// What an object that resolves to a value resolves to: an object. It has each of the object's own
/// members, resolved; and where there is a reference, that leads to an object, whose every key it has,
/// with the value there unless the object has the key itself. It has no other key, and none is `$ref`.
pub proof fn law_object_value(
    local_file: Seq<char>,
    object: Map<Seq<char>, JsonView>,
    components: Components,
    value: JsonView,
)
    requires
        object.dom().finite(),
        resolved(local_file, JsonView::Object(object), components) == Some(Ok::<JsonView, ErrorView>(value)),
    ensures
        value is Object,
        !value->Object_0.contains_key("$ref"@),
        forall|key: Seq<char>| #[trigger]
            object.contains_key(key) && key != "$ref"@ ==> {
                &&& value->Object_0.contains_key(key)
                &&& if object[key] is Object || object[key] is Array {
                    resolved(local_file, object[key], components) == Some(
                        Ok::<JsonView, ErrorView>(value->Object_0[key]),
                    )
                } else {
                    value->Object_0[key] == object[key]
                }
            },
        object.contains_key("$ref"@) && object["$ref"@] is String ==> {
            &&& resolved(local_file, object["$ref"@], components) matches Some(Ok(JsonView::Object(target)))
            &&& forall|key: Seq<char>| #[trigger]
                target.contains_key(key) ==> {
                    &&& value->Object_0.contains_key(key)
                    &&& !object.contains_key(key) ==> value->Object_0[key] == target[key]
                    &&& object.contains_key(key) ==> !precedes(key, "$ref"@)
                }
            &&& forall|key: Seq<char>| #[trigger]
                value->Object_0.contains_key(key) ==> object.contains_key(key) || target.contains_key(key)
        },
        !(object.contains_key("$ref"@) && object["$ref"@] is String) ==> value->Object_0.dom()
            == object.dom().remove("$ref"@),
{
    let depth = components.dom().len();
    let member = member_resolutions(depth, local_file, object, components);
    lemma_all_values(object, member);
    law_dereferenced(local_file, JsonView::Object(object), components);
    let whole = value->Object_0;
    assert(whole == brought(object, member).union_prefer_right(own(object, member)));
    assert forall|key: Seq<char>| #[trigger] object.contains_key(key) && key != "$ref"@ implies {
        &&& whole.contains_key(key)
        &&& if object[key] is Object || object[key] is Array {
            resolved(local_file, object[key], components) == Some(Ok::<JsonView, ErrorView>(whole[key]))
        } else {
            whole[key] == object[key]
        }
    } by {
        assert(member(key) == member_resolution(depth, local_file, object, components, key));
        assert(own(object, member).contains_key(key));
    }
    if object.contains_key("$ref"@) && object["$ref"@] is String {
        let outcome = resolved(local_file, object["$ref"@], components);
        assert(member("$ref"@) == member_resolution(depth, local_file, object, components, "$ref"@));
        assert(member("$ref"@) == spliced(local_file, object, object["$ref"@]->String_0, outcome));
        let target = outcome->0->Ok_0->Object_0;
        assert(brought(object, member) == target);
        let p = overwritten(object, target);
        assert forall|key: Seq<char>| #[trigger] target.contains_key(key) && object.contains_key(key) implies !precedes(
            key,
            "$ref"@,
        ) by {
            if precedes(key, "$ref"@) {
                assert(p(key));
                let first = lemma_some_least(p, object.dom());
                lemma_least(p, first);
            }
        }
    } else {
        assert(whole.dom() =~= object.dom().remove("$ref"@));
    }
}

/// An object whose reference has no answer, and in which nothing is resolved before it, has none.
proof fn lemma_object_without_answer(
    depth: nat,
    local_file: Seq<char>,
    object: Map<Seq<char>, JsonView>,
    components: Components,
)
    requires
        object.contains_key("$ref"@),
        object["$ref"@] is String,
        resolution(depth, local_file, object["$ref"@], components) is None,
        forall|other: Seq<char>| #[trigger]
            object.contains_key(other) && precedes(other, "$ref"@) ==> !(object[other] is Object)
                && !(object[other] is Array),
    ensures
        resolution(depth, local_file, JsonView::Object(object), components) is None,
{
    let member = member_resolutions(depth, local_file, object, components);
    assert(member("$ref"@) == member_resolution(depth, local_file, object, components, "$ref"@));
    assert forall|other: Seq<char>| #[trigger] object.contains_key(other) && precedes(other, "$ref"@) implies (member(
        other,
    ) matches Some(Ok(_))) by {
        assert(member(other) == member_resolution(depth, local_file, object, components, other));
        lemma_precedes_asymmetric(other, "$ref"@);
    }
    lemma_first_member(object, member, "$ref"@);
}

/// A component in a circle has no answer, at whatever depth.
proof fn lemma_circle(
    depth: nat,
    components: Components,
    circle: Set<Seq<char>>,
    reference: spec_fn(Seq<char>) -> Seq<char>,
    key: Seq<char>,
)
    requires
        circle.contains(key),
        forall|k: Seq<char>| #[trigger]
            circle.contains(k) ==> components.contains_key(k) && refers(components[k].1, reference(k)) && (pointer(
                reference(k),
            ) matches Pointer::To { file, name } && circle.contains(
                if file.len() == 0 {
                    components[k].0 + name
                } else {
                    file + name
                },
            )),
    ensures
        resolution(depth, components[key].0, components[key].1, components) is None,
    decreases depth,
{
    let (local_file, value) = components[key];
    let text = reference(key);
    let next = if pointer(text)->file.len() == 0 {
        local_file + pointer(text)->name
    } else {
        pointer(text)->file + pointer(text)->name
    };
    assert(circle.contains(next));
    if depth > 0 {
        lemma_circle((depth - 1) as nat, components, circle, reference, next);
    }
    assert(resolution(depth, local_file, JsonView::String(text), components) is None);
    if let JsonView::Object(object) = value {
        lemma_object_without_answer(depth, local_file, object, components);
    }
}

/// `value` is the reference `reference`, or an object with that reference in which nothing is to be
/// resolved before it.
pub open spec fn refers(value: JsonView, reference: Seq<char>) -> bool {
    ||| value == JsonView::String(reference)
    ||| {
        &&& value is Object
        &&& value->Object_0.contains_key("$ref"@)
        &&& value->Object_0["$ref"@] == JsonView::String(reference)
        &&& forall|other: Seq<char>| #[trigger]
            value->Object_0.contains_key(other) && precedes(other, "$ref"@) ==> !(value->Object_0[other] is Object)
                && !(value->Object_0[other] is Array)
    }
}

/// Components that refer to each other in a circle have no answer.
pub proof fn law_circle(
    components: Components,
    circle: Set<Seq<char>>,
    reference: spec_fn(Seq<char>) -> Seq<char>,
    key: Seq<char>,
)
    requires
        circle.contains(key),
        forall|k: Seq<char>| #[trigger]
            circle.contains(k) ==> components.contains_key(k) && refers(components[k].1, reference(k)) && (pointer(
                reference(k),
            ) matches Pointer::To { file, name } && circle.contains(
                if file.len() == 0 {
                    components[k].0 + name
                } else {
                    file + name
                },
            )),
    ensures
        resolved(components[key].0, components[key].1, components) is None,
{
    lemma_circle(components.dom().len(), components, circle, reference, key);
}

} // verus!
