//! What holds of every resolved value.

use vstd::prelude::*;
use crate::components::{
    Components, Document, declared, declares, documents_finite, law_declared_are_loaded, law_loaded_finite, loaded,
};
use crate::depth::law_depth;
use crate::json::JsonView;
use crate::order::least;
use crate::pointer::{Pointer, law_local, law_written, pointer, without_slashes};
use crate::problem::ErrorView;
use crate::resolve::{
    Outcome, array_resolution, brought, component_key, component_resolution, fails, is_resolved_map, is_value,
    item_resolution, item_resolutions, lemma_first_failing_item, lemma_some_first_failure, member_resolution,
    member_resolutions, object_resolution, own, ref_key, resolution, resolved, spliced, value_of,
};

verus! {

/// No object in `value`, however deep inside objects and arrays, has a member at `$ref`.
pub open spec fn is_dereferenced(value: JsonView) -> bool
    decreases value,
{
    match value {
        JsonView::Object(object) => forall|key: Seq<char>| #[trigger]
            object.contains_key(key) ==> {
                proof {
                    assert(decreases_to!(value => value->Object_0[key]));
                }
                key != ref_key() && is_dereferenced(object[key])
            },
        JsonView::Array(items) => forall|i: int|
            0 <= i < items.len() ==> {
                proof {
                    assert(decreases_to!(value => value->Array_0[i]));
                }
                is_dereferenced(#[trigger] items[i])
            },
        _ => true,
    }
}

/// A value that resolving gives, at whatever depth, holds no reference.
proof fn lemma_dereferenced(depth: nat, local_file: Seq<char>, value: JsonView, components: Components)
    requires
        is_value(resolution(depth, local_file, value, components)),
    ensures
        !(value_of(resolution(depth, local_file, value, components)) is String),
        is_dereferenced(value_of(resolution(depth, local_file, value, components))),
    decreases depth, value,
{
    match value {
        JsonView::Object(object) => {
            let member = member_resolutions(depth, local_file, object, components);
            lemma_all_values(object, member);
            let whole = value_of(object_resolution(object, member))->Object_0;
            assert forall|key: Seq<char>| #[trigger] whole.contains_key(key) implies key != ref_key()
                && is_dereferenced(whole[key]) by {
                if own(object, member).contains_key(key) {
                    assert(decreases_to!(value => value->Object_0[key]));
                    assert(is_value(member(key)));
                    assert(member(key) == member_resolution(depth, local_file, object, components, key));
                    if object[key] is Object || object[key] is Array {
                        lemma_dereferenced(depth, local_file, object[key], components);
                    }
                } else {
                    assert(brought(object, member).contains_key(key));
                    let reference = object[ref_key()];
                    assert(decreases_to!(value => value->Object_0[ref_key()]));
                    assert(is_value(member(ref_key())));
                    assert(member(ref_key()) == member_resolution(
                        depth,
                        local_file,
                        object,
                        components,
                        ref_key(),
                    ));
                    let target = resolution(depth, local_file, reference, components);
                    assert(member(ref_key()) == spliced(local_file, object, reference->String_0, target));
                    assert(target == member(ref_key()));
                    lemma_dereferenced(depth, local_file, reference, components);
                }
            }
        },
        JsonView::Array(items) => {
            let item = item_resolutions(depth, local_file, items, components);
            lemma_all_items(items.len(), item);
            let whole = value_of(array_resolution(items.len(), item))->Array_0;
            assert forall|i: int| 0 <= i < whole.len() implies is_dereferenced(#[trigger] whole[i]) by {
                assert(decreases_to!(value => value->Array_0[i]));
                assert(is_value(item(i)));
                assert(item(i) == item_resolution(depth, local_file, items, components, i));
                if items[i] is Object || items[i] is Array {
                    lemma_dereferenced(depth, local_file, items[i], components);
                }
            }
        },
        JsonView::String(reference) => {
            if let Pointer::To { file, name } = pointer(reference) {
                let key = component_key(local_file, file, name);
                lemma_dereferenced((depth - 1) as nat, components[key].0, components[key].1, components);
            }
        },
        _ => {},
    }
}

/// An object that comes to a value has members that all do.
pub proof fn lemma_all_values(object: Map<Seq<char>, JsonView>, member: spec_fn(Seq<char>) -> Outcome)
    requires
        is_value(object_resolution(object, member)),
    ensures
        forall|key: Seq<char>| #[trigger] object.contains_key(key) ==> is_value(member(key)),
        object_resolution(object, member) == Some(
            Ok::<JsonView, ErrorView>(
                JsonView::Object(brought(object, member).union_prefer_right(own(object, member))),
            ),
        ),
{
    if forall|key: Seq<char>| !fails(object, member, key) {
        assert forall|key: Seq<char>| #[trigger] object.contains_key(key) implies is_value(member(key)) by {
            assert(!fails(object, member, key));
        }
    } else {
        let p = crate::resolve::failing(object, member);
        let key = least(p)->0;
        assert(crate::order::is_least(p, key));
        assert(p(key));
    }
}

/// An array that comes to a value has items that all do.
proof fn lemma_all_items(count: nat, item: spec_fn(int) -> Outcome)
    requires
        is_value(array_resolution(count, item)),
    ensures
        forall|i: int| 0 <= i < count ==> is_value(#[trigger] item(i)),
        array_resolution(count, item) == Some(
            Ok::<JsonView, ErrorView>(JsonView::Array(Seq::new(count, |i: int| value_of(item(i))))),
        ),
{
    if exists|i: int| 0 <= i < count && !is_value(#[trigger] item(i)) {
        let first = lemma_some_first_failure(count, item);
        lemma_first_failing_item(count, item, first);
    }
}

/// Resolving leaves no reference: what it gives is never a string, and no object in it, however deep
/// inside objects and arrays, has a member at `$ref`.
pub proof fn law_dereferenced(local_file: Seq<char>, value: JsonView, components: Components)
    requires
        is_value(resolved(local_file, value, components)),
    ensures
        !(value_of(resolved(local_file, value, components)) is String),
        is_dereferenced(value_of(resolved(local_file, value, components))),
{
    lemma_dereferenced(components.dom().len(), local_file, value, components);
}

/// A value without references is not changed, at whatever depth.
proof fn lemma_unchanged(depth: nat, local_file: Seq<char>, value: JsonView, components: Components)
    requires
        is_dereferenced(value),
        !(value is String),
    ensures
        resolution(depth, local_file, value, components) == Some(Ok::<JsonView, ErrorView>(value)),
    decreases value,
{
    if let JsonView::Object(object) = value {
        let member = member_resolutions(depth, local_file, object, components);
        assert forall|key: Seq<char>| object.contains_key(key) implies #[trigger] member(key) == Some(
            Ok::<JsonView, ErrorView>(object[key]),
        ) by {
            assert(decreases_to!(value => value->Object_0[key]));
            assert(member(key) == member_resolution(depth, local_file, object, components, key));
            if object[key] is Object || object[key] is Array {
                lemma_unchanged(depth, local_file, object[key], components);
            }
        }
        assert forall|key: Seq<char>| !fails(object, member, key) by {
            if object.contains_key(key) {
                assert(is_value(member(key)));
            }
        }
        assert(!object.contains_key(ref_key()));
        assert(brought(object, member).union_prefer_right(own(object, member)) =~= object);
    } else if let JsonView::Array(items) = value {
        let item = item_resolutions(depth, local_file, items, components);
        assert forall|i: int| 0 <= i < items.len() implies #[trigger] item(i) == Some(
            Ok::<JsonView, ErrorView>(items[i]),
        ) by {
            assert(decreases_to!(value => value->Array_0[i]));
            assert(item(i) == item_resolution(depth, local_file, items, components, i));
            if items[i] is Object || items[i] is Array {
                lemma_unchanged(depth, local_file, items[i], components);
            }
        }
        assert(Seq::new(items.len(), |i: int| value_of(item(i))) =~= items);
    }
}

/// A value without references resolves to itself, in every file and with whatever components.
pub proof fn law_unchanged(local_file: Seq<char>, value: JsonView, components: Components)
    requires
        is_dereferenced(value),
        !(value is String),
    ensures
        resolved(local_file, value, components) == Some(Ok::<JsonView, ErrorView>(value)),
{
    lemma_unchanged(components.dom().len(), local_file, value, components);
}

/// Resolving a second time changes nothing, in whatever file and with whatever components.
pub proof fn law_resolved_once(
    local_file: Seq<char>,
    value: JsonView,
    components: Components,
    other_file: Seq<char>,
    other_components: Components,
)
    requires
        is_value(resolved(local_file, value, components)),
    ensures
        resolved(other_file, value_of(resolved(local_file, value, components)), other_components) == resolved(
            local_file,
            value,
            components,
        ),
{
    law_dereferenced(local_file, value, components);
    law_unchanged(other_file, value_of(resolved(local_file, value, components)), other_components);
}

/// The map of the resolved components holds no reference.
pub proof fn law_map_dereferenced(components: Components, map: Map<Seq<char>, JsonView>, key: Seq<char>)
    requires
        is_resolved_map(components, Ok(map)),
        map.contains_key(key),
    ensures
        !(map[key] is String),
        is_dereferenced(map[key]),
{
    assert(component_resolution(components, key) == Some(Ok::<JsonView, ErrorView>(map[key])));
    law_dereferenced(components[key].0, components[key].1, components);
}

/// A value that resolving gives stays what it is when components are added, at whatever depth.
proof fn lemma_more_components(
    depth: nat,
    local_file: Seq<char>,
    value: JsonView,
    components: Components,
    more: Components,
)
    requires
        components.submap_of(more),
        is_value(resolution(depth, local_file, value, components)),
    ensures
        resolution(depth, local_file, value, more) == resolution(depth, local_file, value, components),
    decreases depth, value,
{
    match value {
        JsonView::Object(object) => {
            let first = member_resolutions(depth, local_file, object, components);
            let second = member_resolutions(depth, local_file, object, more);
            lemma_all_values(object, first);
            assert forall|key: Seq<char>| #[trigger] object.contains_key(key) implies second(key) == first(key) by {
                assert(decreases_to!(value => value->Object_0[key]));
                assert(is_value(first(key)));
                assert(first(key) == member_resolution(depth, local_file, object, components, key));
                assert(second(key) == member_resolution(depth, local_file, object, more, key));
                if key == ref_key() && object[key] is String {
                    let target = resolution(depth, local_file, object[key], components);
                    assert(first(key) == spliced(local_file, object, object[key]->String_0, target));
                    lemma_more_components(depth, local_file, object[key], components, more);
                } else if key != ref_key() && (object[key] is Object || object[key] is Array) {
                    lemma_more_components(depth, local_file, object[key], components, more);
                }
            }
            assert forall|key: Seq<char>| !fails(object, second, key) by {
                if object.contains_key(key) {
                    assert(is_value(first(key)));
                }
            }
            assert(own(object, first) =~= own(object, second));
            assert(brought(object, first) =~= brought(object, second));
        },
        JsonView::Array(items) => {
            let first = item_resolutions(depth, local_file, items, components);
            let second = item_resolutions(depth, local_file, items, more);
            lemma_all_items(items.len(), first);
            assert forall|i: int| 0 <= i < items.len() implies #[trigger] second(i) == first(i) by {
                assert(decreases_to!(value => value->Array_0[i]));
                assert(is_value(first(i)));
                assert(first(i) == item_resolution(depth, local_file, items, components, i));
                assert(second(i) == item_resolution(depth, local_file, items, more, i));
                if items[i] is Object || items[i] is Array {
                    lemma_more_components(depth, local_file, items[i], components, more);
                }
            }
            assert forall|i: int| 0 <= i < items.len() implies is_value(#[trigger] second(i)) by {
                assert(is_value(first(i)));
            }
            assert(Seq::new(items.len(), |i: int| value_of(first(i))) =~= Seq::new(
                items.len(),
                |i: int| value_of(second(i)),
            ));
        },
        JsonView::String(reference) => {
            if let Pointer::To { file, name } = pointer(reference) {
                let key = component_key(local_file, file, name);
                assert(components.contains_key(key));
                assert(more.contains_key(key) && more[key] == components[key]);
                lemma_more_components(
                    (depth - 1) as nat,
                    components[key].0,
                    components[key].1,
                    components,
                    more,
                );
            }
        },
        _ => {},
    }
}

/// Further components change no value: what resolves, resolves to the same when more is known.
pub proof fn law_more_components(
    local_file: Seq<char>,
    value: JsonView,
    components: Components,
    more: Components,
)
    requires
        components.submap_of(more),
        more.dom().finite(),
        is_value(resolved(local_file, value, components)),
    ensures
        resolved(local_file, value, more) == resolved(local_file, value, components),
{
    let depth = components.dom().len();
    lemma_more_components(depth, local_file, value, components, more);
    law_depth(depth, local_file, value, more);
}

/// A reference to a known component resolves to what the component resolves to.
pub proof fn law_reference(local_file: Seq<char>, reference: Seq<char>, components: Components)
    requires
        components.dom().finite(),
        pointer(reference) is To,
        components.contains_key(
            component_key(local_file, pointer(reference)->file, pointer(reference)->name),
        ),
    ensures
        resolved(local_file, JsonView::String(reference), components) == component_resolution(
            components,
            component_key(local_file, pointer(reference)->file, pointer(reference)->name),
        ),
{
    let key = component_key(local_file, pointer(reference)->file, pointer(reference)->name);
    let count = components.dom().len();
    let value = JsonView::String(reference);
    let direct = component_resolution(components, key);
    assert(resolution(count + 1, local_file, value, components) == direct);
    if direct is Some {
        law_depth(count + 1, local_file, value, components);
    } else if resolved(local_file, value, components) is Some {
        let inner = (count - 1) as nat;
        law_depth(inner, components[key].0, components[key].1, components);
    }
}

/// Inside a file, a reference that names no file resolves as the reference that names that file
/// does anywhere.
pub proof fn law_local_reference(
    file: Seq<char>,
    other_file: Seq<char>,
    fragment: Seq<char>,
    components: Components,
)
    requires
        components.dom().finite(),
        file.len() > 0,
        !file.contains('#'),
        without_slashes(file) == file,
        pointer(seq!['#'] + fragment) is To,
        components.contains_key(file + pointer(seq!['#'] + fragment)->name),
    ensures
        resolved(file, JsonView::String(seq!['#'] + fragment), components) == resolved(
            other_file,
            JsonView::String(file + seq!['#'] + fragment),
            components,
        ),
{
    law_local(file, fragment);
    law_reference(file, seq!['#'] + fragment, components);
    law_reference(other_file, file + seq!['#'] + fragment, components);
}

/// A reference to a component that a document declares resolves to what the component resolves to in
/// that document, wherever it stands: the path of the document, slashes or none,
/// `#components/schemas/`, and the name. In the document itself the path can be left out.
pub proof fn law_declared_component(
    documents: Seq<Document>,
    i: int,
    name: Seq<char>,
    slashes: Seq<char>,
    other_file: Seq<char>,
)
    requires
        loaded(documents) is Ok,
        documents_finite(documents),
        0 <= i < documents.len(),
        declares(documents[i], name, documents[i].1 + name),
        forall|j: int, other: Seq<char>|
            i < j < documents.len() ==> !#[trigger] declares(documents[j], other, documents[i].1 + name),
        documents[i].1.len() > 0,
        !documents[i].1.contains('#'),
        without_slashes(documents[i].1) == documents[i].1,
        forall|k: int| 0 <= k < slashes.len() ==> slashes[k] == '/',
    ensures
        resolved(
            other_file,
            JsonView::String(documents[i].1 + slashes + "#components/schemas/"@ + name),
            loaded(documents)->Ok_0,
        ) == resolved(documents[i].1, declared(documents[i], name).1, loaded(documents)->Ok_0),
        name.len() > 0 ==> resolved(
            documents[i].1,
            JsonView::String("#components/schemas/"@ + name),
            loaded(documents)->Ok_0,
        ) == resolved(documents[i].1, declared(documents[i], name).1, loaded(documents)->Ok_0),
{
    let path = documents[i].1;
    let components = loaded(documents)->Ok_0;
    law_declared_are_loaded(documents, i, name);
    law_loaded_finite(documents);
    let file = path + slashes;
    assert(!file.contains('#')) by {
        if file.contains('#') {
            let k = file.index_of('#');
            if k < path.len() {
                assert(path[k] == '#');
            } else {
                assert(slashes[k - path.len()] == '#');
            }
        }
    }
    lemma_slashes(path, slashes);
    law_written(file, name);
    law_reference(other_file, file + "#components/schemas/"@ + name, components);
    if name.len() > 0 {
        let none = Seq::<char>::empty();
        law_written(none, name);
        assert(none + "#components/schemas/"@ + name =~= "#components/schemas/"@ + name);
        law_reference(path, "#components/schemas/"@ + name, components);
    }
}

/// Slashes at the end are cut.
proof fn lemma_slashes(text: Seq<char>, slashes: Seq<char>)
    requires
        without_slashes(text) == text,
        forall|k: int| 0 <= k < slashes.len() ==> slashes[k] == '/',
    ensures
        without_slashes(text + slashes) == text,
    decreases slashes.len(),
{
    if slashes.len() == 0 {
        assert(text + slashes == text);
    } else {
        assert((text + slashes).last() == '/');
        assert((text + slashes).drop_last() == text + slashes.drop_last());
        lemma_slashes(text, slashes.drop_last());
    }
}

} // verus!
