//! Resolving references: putting in place of each the component that it leads to.

use vstd::prelude::*;
use vstd::string::StringExecFns;
use crate::components::{Components, RefMap};
use crate::dereferenced::{is_dereferenced, law_dereferenced, law_map_dereferenced};
use crate::json::{Json, JsonView, Object, texts, values_view};
use crate::order::{
    ascending, is_least, least, lemma_first, lemma_least, lemma_next, lemma_none, lemma_visited, precedes,
};
use crate::pointer::{Pointer, pointer, read_reference};
use crate::problem::{Error, ErrorView, Problem};
use crate::text::same_text;

verus! {

/// What resolving a value comes to: `None` where there is no answer, because the references never
/// come to an end or because one of them cannot be cut.
pub type Outcome = Option<Result<JsonView, ErrorView>>;

/// The key of the member that holds a reference.
pub open spec fn ref_key() -> Seq<char> {
    "$ref"@
}

/// The key of the component to which a reference found in `local_file` leads.
pub open spec fn component_key(local_file: Seq<char>, file: Seq<char>, name: Seq<char>) -> Seq<char> {
    if file.len() == 0 {
        local_file + name
    } else {
        file + name
    }
}

/// Resolving gave a value.
pub open spec fn is_value(outcome: Outcome) -> bool {
    outcome matches Some(Ok(_))
}

/// The value that resolving gave.
pub open spec fn value_of(outcome: Outcome) -> JsonView {
    outcome->0->Ok_0
}

/// `key` is one of `brought` that `object` has too, and that comes before the reference there.
pub open spec fn is_overwritten(
    object: Map<Seq<char>, JsonView>,
    brought: Map<Seq<char>, JsonView>,
    key: Seq<char>,
) -> bool {
    brought.contains_key(key) && object.contains_key(key) && precedes(key, ref_key())
}

/// The keys that a reference in `object` would overwrite with what it brings in.
pub open spec fn overwritten(
    object: Map<Seq<char>, JsonView>,
    brought: Map<Seq<char>, JsonView>,
) -> spec_fn(Seq<char>) -> bool {
    |key: Seq<char>| is_overwritten(object, brought, key)
}

/// The members that the reference in `object` brings in, given what it leads to.
pub open spec fn spliced(
    local_file: Seq<char>,
    object: Map<Seq<char>, JsonView>,
    reference: Seq<char>,
    target: Outcome,
) -> Outcome {
    match target {
        Some(Ok(JsonView::Object(brought))) => match least(overwritten(object, brought)) {
            Some(key) => Some(Err(Problem::Overwritten { file: local_file, key })),
            None => target,
        },
        Some(Ok(_)) => Some(Err(Problem::NotAnObject { reference })),
        _ => target,
    }
}

/// The member of `object` at `key` does not come to a value.
pub open spec fn fails(
    object: Map<Seq<char>, JsonView>,
    member: spec_fn(Seq<char>) -> Outcome,
    key: Seq<char>,
) -> bool {
    object.contains_key(key) && !is_value(member(key))
}

/// The keys whose members do not come to a value.
pub open spec fn failing(
    object: Map<Seq<char>, JsonView>,
    member: spec_fn(Seq<char>) -> Outcome,
) -> spec_fn(Seq<char>) -> bool {
    |key: Seq<char>| fails(object, member, key)
}

/// The members that the reference in `object` brings in, if there is one.
pub open spec fn brought(
    object: Map<Seq<char>, JsonView>,
    member: spec_fn(Seq<char>) -> Outcome,
) -> Map<Seq<char>, JsonView> {
    if object.contains_key(ref_key()) && object[ref_key()] is String {
        value_of(member(ref_key()))->Object_0
    } else {
        Map::<Seq<char>, JsonView>::empty()
    }
}

/// The members that `object` has besides the reference.
pub open spec fn own(
    object: Map<Seq<char>, JsonView>,
    member: spec_fn(Seq<char>) -> Outcome,
) -> Map<Seq<char>, JsonView> {
    Map::new(
        |key: Seq<char>| object.contains_key(key) && key != ref_key(),
        |key: Seq<char>| value_of(member(key)),
    )
}

/// What an object resolves to, given what each member comes to: the members that the reference
/// brings in, and over them the object's own members. Where members fail, the first one decides.
pub open spec fn object_resolution(
    object: Map<Seq<char>, JsonView>,
    member: spec_fn(Seq<char>) -> Outcome,
) -> Outcome {
    if forall|key: Seq<char>| !fails(object, member, key) {
        Some(Ok(JsonView::Object(brought(object, member).union_prefer_right(own(object, member)))))
    } else {
        match least(failing(object, member)) {
            Some(key) => member(key),
            None => None,
        }
    }
}

/// The item at `i`, of `count`, is the first that does not come to a value.
pub open spec fn is_first_failure(count: nat, item: spec_fn(int) -> Outcome, i: int) -> bool {
    &&& 0 <= i < count
    &&& !is_value(item(i))
    &&& forall|j: int| 0 <= j < i ==> is_value(#[trigger] item(j))
}

/// What an array of `count` items resolves to, given what each item comes to: the array of the
/// values to which they come. Where items fail, the first one decides.
pub open spec fn array_resolution(count: nat, item: spec_fn(int) -> Outcome) -> Outcome {
    if forall|i: int| 0 <= i < count ==> is_value(#[trigger] item(i)) {
        Some(Ok(JsonView::Array(Seq::new(count, |i: int| value_of(item(i))))))
    } else {
        item(choose|i: int| is_first_failure(count, item, i))
    }
}

/// What `value`, found in `local_file`, resolves to when at most `depth` references are followed
/// one inside the other.
///
/// A string is a reference, and resolves to what the component resolves to in the file that
/// declares it. In an object each member, and in an array each item, that is an object or an array
/// is resolved in turn, and in an object a reference at `$ref` gives way to the members of the
/// component that it leads to. Every other value stays as it is.
pub open spec fn resolution(
    depth: nat,
    local_file: Seq<char>,
    value: JsonView,
    components: Components,
) -> Outcome
    decreases depth, value, 2nat,
{
    match value {
        JsonView::Object(object) => object_resolution(
            object,
            member_resolutions(depth, local_file, object, components),
        ),
        JsonView::Array(items) => array_resolution(
            items.len(),
            item_resolutions(depth, local_file, items, components),
        ),
        JsonView::String(reference) => match pointer(reference) {
            Pointer::Malformed => Some(Err(Problem::BadReference { file: local_file, reference })),
            Pointer::Truncated => None,
            Pointer::To { file, name } => {
                let key = component_key(local_file, file, name);
                if !components.contains_key(key) {
                    Some(Err(Problem::UnknownReference { file: local_file, reference }))
                } else if depth == 0 {
                    None
                } else {
                    resolution((depth - 1) as nat, components[key].0, components[key].1, components)
                }
            },
        },
        _ => Some(Ok(value)),
    }
}

/// What `value`, found inside an object or an array, comes to. A string there is no reference.
pub open spec fn nested_resolution(
    depth: nat,
    local_file: Seq<char>,
    value: JsonView,
    components: Components,
) -> Outcome
    decreases depth, value, 3nat,
{
    match value {
        JsonView::Object(_) | JsonView::Array(_) => resolution(depth, local_file, value, components),
        _ => Some(Ok(value)),
    }
}

/// What each of `items` comes to.
pub open spec fn item_resolutions(
    depth: nat,
    local_file: Seq<char>,
    items: Seq<JsonView>,
    components: Components,
) -> spec_fn(int) -> Outcome
    decreases depth, JsonView::Array(items), 1nat,
{
    |i: int| item_resolution(depth, local_file, items, components, i)
}

/// What the item at `i` comes to.
pub open spec fn item_resolution(
    depth: nat,
    local_file: Seq<char>,
    items: Seq<JsonView>,
    components: Components,
    i: int,
) -> Outcome
    decreases depth, JsonView::Array(items), 0nat,
{
    if !(0 <= i < items.len()) {
        None
    } else {
        proof {
            let whole = JsonView::Array(items);
            assert(whole->Array_0 == items);
            assert(decreases_to!(whole => whole->Array_0[i]));
        }
        nested_resolution(depth, local_file, items[i], components)
    }
}

/// What each member of `object` comes to.
pub open spec fn member_resolutions(
    depth: nat,
    local_file: Seq<char>,
    object: Map<Seq<char>, JsonView>,
    components: Components,
) -> spec_fn(Seq<char>) -> Outcome
    decreases depth, JsonView::Object(object), 1nat,
{
    |key: Seq<char>| member_resolution(depth, local_file, object, components, key)
}

/// What the member of `object` at `key` comes to: at `$ref`, the members that a reference brings
/// in, or nothing; elsewhere, the resolved member.
pub open spec fn member_resolution(
    depth: nat,
    local_file: Seq<char>,
    object: Map<Seq<char>, JsonView>,
    components: Components,
    key: Seq<char>,
) -> Outcome
    decreases depth, JsonView::Object(object), 0nat,
{
    if !object.contains_key(key) {
        None
    } else {
        let value = object[key];
        proof {
            let whole = JsonView::Object(object);
            assert(whole->Object_0 == object);
            assert(decreases_to!(whole => whole->Object_0[key]));
        }
        if key == ref_key() {
            match value {
                JsonView::String(reference) => spliced(
                    local_file,
                    object,
                    reference,
                    resolution(depth, local_file, value, components),
                ),
                _ => Some(Ok(value)),
            }
        } else {
            nested_resolution(depth, local_file, value, components)
        }
    }
}

/// What `value`, found in `local_file`, resolves to. No more references are ever followed one
/// inside the other than there are components: see `law_depth`.
pub open spec fn resolved(local_file: Seq<char>, value: JsonView, components: Components) -> Outcome {
    resolution(components.dom().len(), local_file, value, components)
}

/// A result as specifications speak of it.
pub open spec fn result_view(result: Result<Json, Error>) -> Result<JsonView, ErrorView> {
    match result {
        Ok(value) => Ok(value@),
        Err(problem) => Err(problem@),
    }
}

/// An answer as specifications speak of it.
pub open spec fn answer_view(answer: Option<Result<Json, Error>>) -> Outcome {
    match answer {
        Some(result) => Some(result_view(result)),
        None => None,
    }
}

/// What has been assembled of an object once the members at `keys` have been visited.
spec fn visited(
    object: Map<Seq<char>, JsonView>,
    member: spec_fn(Seq<char>) -> Outcome,
    keys: Seq<Seq<char>>,
) -> Map<Seq<char>, JsonView> {
    let start = if keys.contains(ref_key()) {
        brought(object, member)
    } else {
        Map::<Seq<char>, JsonView>::empty()
    };
    start.union_prefer_right(own(object, member).restrict(keys.to_set()))
}

/// What visiting the member at `keys[i]` adds to what has been assembled.
proof fn lemma_visit(
    object: Map<Seq<char>, JsonView>,
    member: spec_fn(Seq<char>) -> Outcome,
    keys: Seq<Seq<char>>,
    i: int,
)
    requires
        ascending(keys),
        keys.to_set() == object.dom(),
        0 <= i < keys.len(),
    ensures
        keys[i] != ref_key() ==> visited(object, member, keys.take(i + 1)) == visited(
            object,
            member,
            keys.take(i),
        ).insert(keys[i], value_of(member(keys[i]))),
        keys[i] == ref_key() ==> visited(object, member, keys.take(i + 1)) == brought(
            object,
            member,
        ).union_prefer_right(visited(object, member, keys.take(i))),
        keys[i] == ref_key() ==> forall|key: Seq<char>| #[trigger]
            visited(object, member, keys.take(i)).contains_key(key) <==> object.contains_key(key)
                && precedes(key, ref_key()),
{
    let before = keys.take(i);
    let after = keys.take(i + 1);
    lemma_next(keys, i);
    lemma_visited(keys, i);
    assert(keys.to_set().contains(keys[i]));
    let x = visited(object, member, before);
    let y = visited(object, member, after);
    if keys[i] != ref_key() {
        assert(y =~= x.insert(keys[i], value_of(member(keys[i]))));
    } else {
        assert(y =~= brought(object, member).union_prefer_right(x));
    }
}

/// When the members are visited in order, the first that fails decides.
proof fn lemma_first_failure(
    object: Map<Seq<char>, JsonView>,
    member: spec_fn(Seq<char>) -> Outcome,
    keys: Seq<Seq<char>>,
    i: int,
)
    requires
        ascending(keys),
        keys.to_set() == object.dom(),
        0 <= i < keys.len(),
        forall|j: int| 0 <= j < i ==> is_value(#[trigger] member(keys[j])),
        !is_value(member(keys[i])),
    ensures
        object_resolution(object, member) == member(keys[i]),
{
    let p = failing(object, member);
    assert(keys.to_set().contains(keys[i]));
    assert(fails(object, member, keys[i]));
    assert forall|j: int| 0 <= j < i implies !#[trigger] p(keys[j]) by {
        assert(is_value(member(keys[j])));
    }
    lemma_first(p, keys, i);
}

/// When no member fails, the object has been assembled once all are visited.
proof fn lemma_no_failure(
    object: Map<Seq<char>, JsonView>,
    member: spec_fn(Seq<char>) -> Outcome,
    keys: Seq<Seq<char>>,
)
    requires
        keys.to_set() == object.dom(),
        forall|j: int| 0 <= j < keys.len() ==> is_value(#[trigger] member(keys[j])),
    ensures
        object_resolution(object, member) == Some(
            Ok::<JsonView, ErrorView>(JsonView::Object(visited(object, member, keys))),
        ),
{
    let p = failing(object, member);
    assert forall|j: int| 0 <= j < keys.len() implies !#[trigger] p(keys[j]) by {
        assert(is_value(member(keys[j])));
    }
    lemma_none(p, keys);
    assert forall|key: Seq<char>| !fails(object, member, key) by {
        assert(!p(key));
    }
    assert(keys.contains(ref_key()) == keys.to_set().contains(ref_key()));
    assert(own(object, member).restrict(keys.to_set()) =~= own(object, member));
}

/// The keys that two objects have in common.
spec fn shared(
    first: Map<Seq<char>, JsonView>,
    second: Map<Seq<char>, JsonView>,
) -> spec_fn(Seq<char>) -> bool {
    |key: Seq<char>| first.contains_key(key) && second.contains_key(key)
}

/// Adds the members of `brought` to `object`, up to the first whose key `object` already has.
fn splice(object: &mut Object, brought: &Object) -> (overwritten: Option<String>)
    ensures
        match overwritten {
            Some(key) => is_least(shared(brought@, old(object)@), key@),
            None => {
                &&& final(object)@ == brought@.union_prefer_right(old(object)@)
                &&& forall|k: Seq<char>|
                    !(#[trigger] brought@.contains_key(k) && old(object)@.contains_key(k))
            },
        },
{
    let keys = brought.keys();
    let ghost order = texts(keys@);
    for i in 0..keys.len()
        invariant
            order == texts(keys@),
            ascending(order),
            order.to_set() == brought@.dom(),
            object@ == brought@.restrict(order.take(i as int).to_set()).union_prefer_right(old(object)@),
            forall|j: int| 0 <= j < i ==> !old(object)@.contains_key(#[trigger] order[j]),
    {
        let ghost key = order[i as int];
        assert(key == keys@[i as int]@);
        assert(order.to_set().contains(key));
        proof {
            lemma_next(order, i as int);
            lemma_visited(order, i as int);
        }
        if let Some(value) = brought.get(keys[i].as_str()) {
            let replaced = object.insert(keys[i].clone(), value.clone());
            if replaced {
                proof {
                    lemma_first(shared(brought@, old(object)@), order, i as int);
                }
                return Some(keys[i].clone());
            }
        }
        assert(object@ =~= brought@.restrict(order.take(i + 1).to_set()).union_prefer_right(old(object)@));
    }
    proof {
        assert(order.take(order.len() as int) == order);
        assert(brought@.restrict(order.to_set()) =~= brought@);
        let p = shared(brought@, old(object)@);
        lemma_none(p, order);
        assert forall|k: Seq<char>| !(#[trigger] brought@.contains_key(k) && old(object)@.contains_key(k)) by {
            assert(!p(k));
        }
    }
    None
}

/// Resolves the members of `object` one after the other.
fn resolve_object(depth: usize, local_file: &str, object: &Object, ref_map: &RefMap) -> (answer: Option<
    Result<Json, Error>,
>)
    ensures
        answer_view(answer) == resolution(depth as nat, local_file@, JsonView::Object(object@), ref_map@),
    decreases depth, JsonView::Object(object@), 0nat,
{
    let ghost members = object@;
    let ghost member = member_resolutions(depth as nat, local_file@, members, ref_map@);
    let keys = object.keys();
    let ghost order = texts(keys@);
    let mut assembled = Object::new();
    assert(assembled@ =~= visited(members, member, order.take(0)));
    for i in 0..keys.len()
        invariant
            members == object@,
            member == member_resolutions(depth as nat, local_file@, members, ref_map@),
            order == texts(keys@),
            ascending(order),
            order.to_set() == members.dom(),
            forall|j: int| 0 <= j < i ==> is_value(#[trigger] member(order[j])),
            assembled@ == visited(members, member, order.take(i as int)),
    {
        let ghost key = order[i as int];
        let ghost before = assembled@;
        proof {
            assert(key == keys@[i as int]@);
            assert(order.to_set().contains(key));
            assert(member(key) == member_resolution(depth as nat, local_file@, members, ref_map@, key));
            lemma_visit(members, member, order, i as int);
            let whole = JsonView::Object(members);
            assert(whole->Object_0 == members);
            assert(decreases_to!(whole => whole->Object_0[key]));
        }
        if let Some(value) = object.get(keys[i].as_str()) {
            if same_text(keys[i].as_str(), "$ref") {
                if let Json::String(reference) = value {
                    match resolve_within(depth, local_file, value, ref_map) {
                        None => {
                            proof {
                                lemma_first_failure(members, member, order, i as int);
                            }
                            return None;
                        },
                        Some(Err(problem)) => {
                            proof {
                                lemma_first_failure(members, member, order, i as int);
                            }
                            return Some(Err(problem));
                        },
                        Some(Ok(Json::Object(target))) => {
                            if let Some(overwritten_key) = splice(&mut assembled, &target) {
                                proof {
                                    let p = shared(target@, before);
                                    let q = overwritten(members, target@);
                                    assert forall|k: Seq<char>| #[trigger] q(k) == p(k) by {
                                        assert(before.contains_key(k) <==> members.contains_key(k) && precedes(
                                            k,
                                            ref_key(),
                                        ));
                                    }
                                    assert(p(overwritten_key@));
                                    lemma_least(q, overwritten_key@);
                                    lemma_first_failure(members, member, order, i as int);
                                }
                                return Some(
                                    Err(
                                        Problem::Overwritten {
                                            file: local_file.to_owned(),
                                            key: overwritten_key,
                                        },
                                    ),
                                );
                            }
                            proof {
                                let q = overwritten(members, target@);
                                assert forall|k: Seq<char>| !is_least(q, k) by {
                                    assert(before.contains_key(k) <==> members.contains_key(k) && precedes(
                                        k,
                                        ref_key(),
                                    ));
                                    assert(!q(k));
                                }
                            }
                        },
                        Some(Ok(_)) => {
                            proof {
                                lemma_first_failure(members, member, order, i as int);
                            }
                            return Some(Err(Problem::NotAnObject { reference: reference.clone() }));
                        },
                    }
                }
            } else {
                match resolve_nested(depth, local_file, value, ref_map) {
                    None => {
                        proof {
                            lemma_first_failure(members, member, order, i as int);
                        }
                        return None;
                    },
                    Some(Err(problem)) => {
                        proof {
                            lemma_first_failure(members, member, order, i as int);
                        }
                        return Some(Err(problem));
                    },
                    Some(Ok(resolved_value)) => {
                        let _ = assembled.insert(keys[i].clone(), resolved_value);
                    },
                }
            }
        }
        assert(is_value(member(key)));
        assert(assembled@ =~= visited(members, member, order.take(i + 1)));
    }
    proof {
        assert(order.take(order.len() as int) == order);
        lemma_no_failure(members, member, order);
    }
    Some(Ok(Json::Object(assembled)))
}

/// Where items fail, one of them is the first.
pub proof fn lemma_some_first_failure(count: nat, item: spec_fn(int) -> Outcome) -> (first: int)
    requires
        exists|i: int| 0 <= i < count && !is_value(#[trigger] item(i)),
    ensures
        is_first_failure(count, item, first),
    decreases count,
{
    let less = (count - 1) as nat;
    if exists|i: int| 0 <= i < less && !is_value(#[trigger] item(i)) {
        lemma_some_first_failure(less, item)
    } else {
        count - 1
    }
}

/// An array whose first failure is the item at `i` fails as that item does.
pub proof fn lemma_first_failing_item(count: nat, item: spec_fn(int) -> Outcome, i: int)
    requires
        is_first_failure(count, item, i),
    ensures
        array_resolution(count, item) == item(i),
{
    let found = choose|k: int| is_first_failure(count, item, k);
    assert(is_first_failure(count, item, found));
    if found < i {
        assert(is_value(item(found)));
    } else if i < found {
        assert(is_value(item(i)));
    }
}

/// Resolves `items` one after the other.
fn resolve_array(depth: usize, local_file: &str, items: &Vec<Json>, ref_map: &RefMap) -> (answer: Option<
    Result<Json, Error>,
>)
    ensures
        answer_view(answer) == resolution(
            depth as nat,
            local_file@,
            JsonView::Array(values_view(items@)),
            ref_map@,
        ),
    decreases depth, JsonView::Array(values_view(items@)), 0nat,
{
    let ghost values = values_view(items@);
    let ghost item = item_resolutions(depth as nat, local_file@, values, ref_map@);
    let mut assembled: Vec<Json> = Vec::new();
    for i in 0..items.len()
        invariant
            values == values_view(items@),
            item == item_resolutions(depth as nat, local_file@, values, ref_map@),
            assembled@.len() == i,
            forall|j: int|
                0 <= j < i ==> (#[trigger] item(j)) == Some(Ok::<JsonView, ErrorView>(assembled@[j]@)),
    {
        proof {
            assert(values[i as int] == items@[i as int]@);
            assert(item(i as int) == item_resolution(depth as nat, local_file@, values, ref_map@, i as int));
            let whole = JsonView::Array(values);
            assert(whole->Array_0 == values);
            assert(decreases_to!(whole => whole->Array_0[i as int]));
        }
        match resolve_nested(depth, local_file, &items[i], ref_map) {
            None => {
                proof {
                    lemma_first_failing_item(values.len(), item, i as int);
                }
                return None;
            },
            Some(Err(problem)) => {
                proof {
                    lemma_first_failing_item(values.len(), item, i as int);
                }
                return Some(Err(problem));
            },
            Some(Ok(value)) => {
                assembled.push(value);
            },
        }
    }
    let whole = Json::Array(assembled);
    assert(whole@->Array_0 =~= Seq::new(values.len(), |i: int| value_of(item(i))));
    Some(Ok(whole))
}

/// Resolves `value`, found inside an object or an array.
fn resolve_nested(depth: usize, local_file: &str, value: &Json, ref_map: &RefMap) -> (answer: Option<
    Result<Json, Error>,
>)
    ensures
        answer_view(answer) == nested_resolution(depth as nat, local_file@, value@, ref_map@),
    decreases depth, value@, 2nat,
{
    match value {
        Json::Object(_) | Json::Array(_) => resolve_within(depth, local_file, value, ref_map),
        _ => Some(Ok(value.clone())),
    }
}

/// Resolves `value`, following at most `depth` references one inside the other.
fn resolve_within(depth: usize, local_file: &str, value: &Json, ref_map: &RefMap) -> (answer: Option<
    Result<Json, Error>,
>)
    ensures
        answer_view(answer) == resolution(depth as nat, local_file@, value@, ref_map@),
    decreases depth, value@, 1nat,
{
    match value {
        Json::Object(object) => resolve_object(depth, local_file, object, ref_map),
        Json::Array(items) => {
            assert(value@->Array_0 =~= values_view(items@));
            resolve_array(depth, local_file, items, ref_map)
        },
        Json::String(reference) => match read_reference(reference.as_str()) {
            Pointer::Malformed => Some(
                Err(Problem::BadReference { file: local_file.to_owned(), reference: reference.clone() }),
            ),
            Pointer::Truncated => None,
            Pointer::To { file, name } => {
                let mut key = if file.as_str().is_empty() {
                    local_file.to_owned()
                } else {
                    file
                };
                key.append(name.as_str());
                match ref_map.get(key.as_str()) {
                    None => Some(
                        Err(
                            Problem::UnknownReference {
                                file: local_file.to_owned(),
                                reference: reference.clone(),
                            },
                        ),
                    ),
                    Some(component) => if depth == 0 {
                        None
                    } else {
                        resolve_within(depth - 1, component.file.as_str(), &component.value, ref_map)
                    },
                }
            },
        },
        _ => Some(Ok(value.clone())),
    }
}

/// Resolves `value`, found in `local_file`. There is no answer where the references never come to
/// an end, or where one of them cannot be cut behind the path to the components.
pub fn ref_resolve_checked(local_file: &str, value: &Json, ref_map: &RefMap) -> (answer: Option<
    Result<Json, Error>,
>)
    ensures
        answer_view(answer) == resolved(local_file@, value@, ref_map@),
{
    resolve_within(ref_map.len(), local_file, value, ref_map)
}

/// Resolves `value`, found in `local_file`: each reference in it gives way to the component that it
/// leads to, resolved in turn, so that none is left.
pub fn ref_resolve(local_file: &str, value: &Json, ref_map: &RefMap) -> (result: Result<Json, Error>)
    requires
        resolved(local_file@, value@, ref_map@) is Some,
    ensures
        Some(result_view(result)) == resolved(local_file@, value@, ref_map@),
        result matches Ok(found) ==> is_dereferenced(found@),
{
    let result = ref_resolve_checked(local_file, value, ref_map).unwrap();
    proof {
        if result is Ok {
            law_dereferenced(local_file@, value@, ref_map@);
        }
    }
    result
}

/// What the component at `key` resolves to.
pub open spec fn component_resolution(components: Components, key: Seq<char>) -> Outcome {
    resolved(components[key].0, components[key].1, components)
}

/// Every component has an answer.
pub open spec fn all_answered(components: Components) -> bool {
    forall|key: Seq<char>|
        components.contains_key(key) ==> (#[trigger] component_resolution(components, key)) is Some
}

/// `result` holds what each component resolves to, or the problem of one that cannot be resolved.
/// Which one, where there are several, is left open: the components have no order.
pub open spec fn is_resolved_map(
    components: Components,
    result: Result<Map<Seq<char>, JsonView>, ErrorView>,
) -> bool {
    match result {
        Ok(map) => {
            &&& map.dom() == components.dom()
            &&& forall|key: Seq<char>|
                components.contains_key(key) ==> (#[trigger] component_resolution(components, key)) == Some(
                    Ok::<JsonView, ErrorView>(map[key]),
                )
        },
        Err(problem) => exists|key: Seq<char>|
            components.contains_key(key) && (#[trigger] component_resolution(components, key)) == Some(
                Err::<JsonView, ErrorView>(problem),
            ),
    }
}

/// Where every component resolves, there is one resolved map, in whatever order the components are
/// visited.
pub proof fn law_resolved_map_determined(
    components: Components,
    map: Map<Seq<char>, JsonView>,
    result: Result<Map<Seq<char>, JsonView>, ErrorView>,
)
    requires
        is_resolved_map(components, Ok(map)),
        is_resolved_map(components, result),
    ensures
        result == Ok::<Map<Seq<char>, JsonView>, ErrorView>(map),
{
    if let Ok(other) = result {
        assert forall|key: Seq<char>| #[trigger] map.contains_key(key) implies other[key] == map[key] by {
            let outcome = component_resolution(components, key);
        }
        assert(other =~= map);
    }
}

/// A resolved map as specifications speak of it.
pub open spec fn map_view(result: Result<Object, Error>) -> Result<Map<Seq<char>, JsonView>, ErrorView> {
    match result {
        Ok(map) => Ok(map@),
        Err(problem) => Err(problem@),
    }
}

/// Resolves every component. There is no answer where one of them has none.
pub fn ref_resolved_checked(ref_map: &RefMap) -> (answer: Option<Result<Object, Error>>)
    ensures
        answer is Some <==> all_answered(ref_map@),
        answer is Some ==> is_resolved_map(ref_map@, map_view(answer->0)),
{
    let keys = ref_map.keys();
    let ghost order = texts(keys@);
    let ghost components = ref_map@;
    let mut resolved_map = Object::new();
    let mut found_problem: Option<Error> = None;
    for i in 0..keys.len()
        invariant
            components == ref_map@,
            order == texts(keys@),
            order.to_set() == components.dom(),
            forall|j: int|
                0 <= j < i ==> (#[trigger] component_resolution(components, order[j])) is Some,
            found_problem is Some ==> is_resolved_map(components, Err(found_problem->0@)),
            found_problem is None ==> {
                &&& resolved_map@.dom() == order.take(i as int).to_set()
                &&& forall|j: int|
                    0 <= j < i ==> (#[trigger] component_resolution(components, order[j])) == Some(
                        Ok::<JsonView, ErrorView>(resolved_map@[order[j]]),
                    )
            },
    {
        let ghost key = order[i as int];
        assert(key == keys@[i as int]@);
        assert(order.to_set().contains(key));
        if let Some(component) = ref_map.get(keys[i].as_str()) {
            match ref_resolve_checked(component.file.as_str(), &component.value, ref_map) {
                None => {
                    assert(component_resolution(components, key) is None);
                    return None;
                },
                Some(Err(problem)) => {
                    assert(component_resolution(components, key) == Some(
                        Err::<JsonView, ErrorView>(problem@),
                    ));
                    found_problem = Some(problem);
                },
                Some(Ok(value)) => {
                    let _ = resolved_map.insert(keys[i].clone(), value);
                },
            }
        }
        proof {
            assert(component_resolution(components, key) is Some);
            lemma_next(order, i as int);
        }
    }
    proof {
        assert(order.take(order.len() as int) == order);
        assert forall|key: Seq<char>| components.contains_key(key) implies (#[trigger] component_resolution(
            components,
            key,
        )) is Some by {
            assert(order.to_set().contains(key));
            assert(order[order.index_of(key)] == key);
        }
    }
    match found_problem {
        Some(problem) => Some(Err(problem)),
        None => {
            proof {
                assert forall|key: Seq<char>| components.contains_key(key) implies (
                #[trigger] component_resolution(components, key)) == Some(
                    Ok::<JsonView, ErrorView>(resolved_map@[key]),
                ) by {
                    assert(order.to_set().contains(key));
                    assert(order[order.index_of(key)] == key);
                }
            }
            Some(Ok(resolved_map))
        },
    }
}

/// Resolves every component, so that no reference is left.
pub fn ref_resolved(ref_map: &RefMap) -> (result: Result<Object, Error>)
    requires
        all_answered(ref_map@),
    ensures
        is_resolved_map(ref_map@, map_view(result)),
        result matches Ok(map) ==> forall|key: Seq<char>| #[trigger]
            map@.contains_key(key) ==> is_dereferenced(map@[key]),
{
    let result = ref_resolved_checked(ref_map).unwrap();
    proof {
        if result is Ok {
            let map = map_view(result)->Ok_0;
            assert forall|key: Seq<char>| #[trigger] map.contains_key(key) implies is_dereferenced(map[key]) by {
                law_map_dereferenced(ref_map@, map, key);
            }
        }
    }
    result
}

/// The resolved map holds, at the key of each component, what the component resolves to in its file,
/// and nothing else; a problem is that of a component. So where every component resolves to a value
/// the result is a map, and where one does not it is a problem.
pub proof fn law_resolved_map(
    components: Components,
    result: Result<Map<Seq<char>, JsonView>, ErrorView>,
)
    requires
        is_resolved_map(components, result),
    ensures
        result matches Ok(map) ==> map.dom() == components.dom() && forall|key: Seq<char>| #[trigger]
            components.contains_key(key) ==> resolved(components[key].0, components[key].1, components) == Some(
                Ok::<JsonView, ErrorView>(map[key]),
            ),
        result matches Err(problem) ==> exists|key: Seq<char>| #[trigger]
            components.contains_key(key) && resolved(components[key].0, components[key].1, components) == Some(
                Err::<JsonView, ErrorView>(problem),
            ),
        result is Ok <==> forall|key: Seq<char>| #[trigger]
            components.contains_key(key) ==> (resolved(
                components[key].0,
                components[key].1,
                components,
            ) matches Some(Ok(_))),
{
    match result {
        Ok(map) => {
            assert forall|key: Seq<char>| #[trigger] components.contains_key(key) implies resolved(
                components[key].0,
                components[key].1,
                components,
            ) == Some(Ok::<JsonView, ErrorView>(map[key])) by {
                assert(component_resolution(components, key) == Some(Ok::<JsonView, ErrorView>(map[key])));
            }
        },
        Err(problem) => {
            let key = choose|key: Seq<char>|
                components.contains_key(key) && (#[trigger] component_resolution(components, key)) == Some(
                    Err::<JsonView, ErrorView>(problem),
                );
            assert(components.contains_key(key));
        },
    }
}

/// There is a resolved map, or a problem, exactly for the components that all have an answer.
pub proof fn law_answers(components: Components)
    ensures
        all_answered(components) <==> forall|key: Seq<char>| #[trigger]
            components.contains_key(key) ==> resolved(components[key].0, components[key].1, components) is Some,
{
    if all_answered(components) {
        assert forall|key: Seq<char>| #[trigger] components.contains_key(key) implies resolved(
            components[key].0,
            components[key].1,
            components,
        ) is Some by {
            assert(component_resolution(components, key) is Some);
        }
    }
}

/// A result and an answer hold the views of what they hold.
pub proof fn law_result_views(value: Json, map: Object, problem: Error)
    ensures
        result_view(Ok(value)) == Ok::<JsonView, ErrorView>(value@),
        result_view(Err(problem)) == Err::<JsonView, ErrorView>(problem@),
        answer_view(Some(Ok(value))) == Some(Ok::<JsonView, ErrorView>(value@)),
        answer_view(Some(Err(problem))) == Some(Err::<JsonView, ErrorView>(problem@)),
        answer_view(None) is None,
        map_view(Ok(map)) == Ok::<Map<Seq<char>, JsonView>, ErrorView>(map@),
        map_view(Err(problem)) == Err::<Map<Seq<char>, JsonView>, ErrorView>(problem@),
{
}

} // verus!
