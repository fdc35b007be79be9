//! The methods of the documents: replacing the references in them, and merging them.

use vstd::hash_set::StringHashSet;
use vstd::prelude::*;
use crate::components::{Document, documents_view};
use crate::json::{Json, JsonView, Object, texts, values_view};
use crate::order::{
    ascending, is_least, least, lemma_first, lemma_least, lemma_next, lemma_none, lemma_precedes_total,
    lemma_some_least, precedes,
};
use crate::problem::{Error, ErrorView, Problem};
use crate::resolve::{map_view, ref_key, result_view};

verus! {

/// The value to which a reference in a method leads.
pub open spec fn looked_up(
    local_file: Seq<char>,
    reference: Seq<char>,
    resolved_map: Map<Seq<char>, JsonView>,
) -> Result<JsonView, ErrorView> {
    if resolved_map.contains_key(reference) {
        Ok(resolved_map[reference])
    } else {
        Err(Problem::UnknownMethodReference { file: local_file, reference })
    }
}

/// `value` with the reference in it replaced: a string is a reference, and an object may have one
/// at `$ref`. Nothing else changes, and no other member is looked into.
pub open spec fn replaced(
    local_file: Seq<char>,
    value: JsonView,
    resolved_map: Map<Seq<char>, JsonView>,
) -> Result<JsonView, ErrorView> {
    match value {
        JsonView::String(reference) => looked_up(local_file, reference, resolved_map),
        JsonView::Object(object) => if object.contains_key(ref_key()) && object[ref_key()] is String {
            match looked_up(local_file, object[ref_key()]->String_0, resolved_map) {
                Ok(target) => Ok(JsonView::Object(object.insert(ref_key(), target))),
                Err(problem) => Err(problem),
            }
        } else {
            Ok(value)
        },
        _ => Ok(value),
    }
}

/// The value to which a reference in a method leads.
fn look_up(local_file: &str, reference: &String, resolved_map: &Object) -> (result: Result<Json, Error>)
    ensures
        result_view(result) == looked_up(local_file@, reference@, resolved_map@),
{
    match resolved_map.get(reference.as_str()) {
        Some(target) => Ok(target.clone()),
        None => Err(
            Problem::UnknownMethodReference { file: local_file.to_owned(), reference: reference.clone() },
        ),
    }
}

/// Replaces the reference in `value`, found in `local_file`.
pub fn ref_replace(local_file: &str, value: &Json, resolved_map: &Object) -> (result: Result<Json, Error>)
    ensures
        result_view(result) == replaced(local_file@, value@, resolved_map@),
{
    match value {
        Json::String(reference) => look_up(local_file, reference, resolved_map),
        Json::Object(object) => match object.get("$ref") {
            Some(Json::String(reference)) => match look_up(local_file, reference, resolved_map) {
                Ok(target) => {
                    let mut copy = object.clone();
                    let _ = copy.insert("$ref".to_owned(), target);
                    Ok(Json::Object(copy))
                },
                Err(problem) => Err(problem),
            },
            _ => Ok(value.clone()),
        },
        _ => Ok(value.clone()),
    }
}

/// The reference in the method at `key` cannot be replaced.
pub open spec fn is_stuck(
    path: Seq<char>,
    methods: Map<Seq<char>, JsonView>,
    resolved_map: Map<Seq<char>, JsonView>,
    key: Seq<char>,
) -> bool {
    methods.contains_key(key) && replaced(path, methods[key], resolved_map) is Err
}

/// The methods whose reference cannot be replaced.
pub open spec fn stuck(
    path: Seq<char>,
    methods: Map<Seq<char>, JsonView>,
    resolved_map: Map<Seq<char>, JsonView>,
) -> spec_fn(Seq<char>) -> bool {
    |key: Seq<char>| is_stuck(path, methods, resolved_map, key)
}

/// The methods with their references replaced.
pub open spec fn all_replaced(
    path: Seq<char>,
    methods: Map<Seq<char>, JsonView>,
    resolved_map: Map<Seq<char>, JsonView>,
) -> Map<Seq<char>, JsonView> {
    methods.map_values(|method: JsonView| replaced(path, method, resolved_map)->Ok_0)
}

/// A document with the references in its methods replaced. Where that fails for several methods,
/// the first one decides.
pub open spec fn with_methods_replaced(document: Document, resolved_map: Map<Seq<char>, JsonView>) -> Result<
    Map<Seq<char>, JsonView>,
    ErrorView,
> {
    let (json, path) = document;
    if !json.contains_key("methods"@) {
        Err(Problem::NoMethods { path })
    } else {
        match json["methods"@] {
            JsonView::Object(methods) => match least(stuck(path, methods, resolved_map)) {
                Some(key) => Err(replaced(path, methods[key], resolved_map)->Err_0),
                None => Ok(
                    json.insert("methods"@, JsonView::Object(all_replaced(path, methods, resolved_map))),
                ),
            },
            _ => Err(Problem::MethodsNotObject { path }),
        }
    }
}

/// Replaces the references in the methods of a document.
pub fn methods_replace(json: &Object, path: &str, resolved_map: &Object) -> (result: Result<Object, Error>)
    ensures
        map_view(result) == with_methods_replaced((json@, path@), resolved_map@),
{
    let methods = match json.get("methods") {
        None => {
            return Err(Problem::NoMethods { path: path.to_owned() });
        },
        Some(Json::Object(methods)) => methods,
        Some(_) => {
            return Err(Problem::MethodsNotObject { path: path.to_owned() });
        },
    };
    let keys = methods.keys();
    let ghost order = texts(keys@);
    let mut copy = Object::new();
    for i in 0..keys.len()
        invariant
            json@.contains_key("methods"@),
            json@["methods"@] == JsonView::Object(methods@),
            order == texts(keys@),
            ascending(order),
            order.to_set() == methods@.dom(),
            forall|j: int| 0 <= j < i ==> !is_stuck(path@, methods@, resolved_map@, #[trigger] order[j]),
            copy@ == all_replaced(path@, methods@, resolved_map@).restrict(order.take(i as int).to_set()),
    {
        let ghost key = order[i as int];
        assert(key == keys@[i as int]@);
        assert(order.to_set().contains(key));
        if let Some(method) = methods.get(keys[i].as_str()) {
            match ref_replace(path, method, resolved_map) {
                Ok(value) => {
                    let _ = copy.insert(keys[i].clone(), value);
                },
                Err(problem) => {
                    proof {
                        lemma_first(stuck(path@, methods@, resolved_map@), order, i as int);
                    }
                    return Err(problem);
                },
            }
        }
        proof {
            lemma_next(order, i as int);
            assert(copy@ =~= all_replaced(path@, methods@, resolved_map@).restrict(order.take(i + 1).to_set()));
        }
    }
    proof {
        assert(order.take(order.len() as int) == order);
        assert(copy@ =~= all_replaced(path@, methods@, resolved_map@));
        lemma_none(stuck(path@, methods@, resolved_map@), order);
    }
    let mut changed = json.clone();
    let _ = changed.insert("methods".to_owned(), Json::Object(copy));
    Ok(changed)
}

/// The documents with the references in their methods replaced. Where that fails for several
/// documents, the first one decides.
pub open spec fn documents_replaced(documents: Seq<Document>, resolved_map: Map<Seq<char>, JsonView>) -> Result<
    Seq<Document>,
    ErrorView,
>
    decreases documents.len(),
{
    if documents.len() == 0 {
        Ok(Seq::empty())
    } else {
        match documents_replaced(documents.drop_last(), resolved_map) {
            Err(problem) => Err(problem),
            Ok(done) => match with_methods_replaced(documents.last(), resolved_map) {
                Err(problem) => Err(problem),
                Ok(json) => Ok(done.push((json, documents.last().1))),
            },
        }
    }
}

/// Once a document fails, no later one changes that.
proof fn lemma_replaced_prefix(
    documents: Seq<Document>,
    resolved_map: Map<Seq<char>, JsonView>,
    count: int,
)
    requires
        0 <= count <= documents.len(),
        documents_replaced(documents.take(count), resolved_map) is Err,
    ensures
        documents_replaced(documents, resolved_map) == documents_replaced(documents.take(count), resolved_map),
    decreases documents.len(),
{
    if count < documents.len() {
        assert(documents.drop_last().take(count) == documents.take(count));
        lemma_replaced_prefix(documents.drop_last(), resolved_map, count);
    } else {
        assert(documents.take(count) == documents);
    }
}

/// Replaces the references in the methods of the documents.
pub fn documents_replace(documents: &Vec<(Object, String)>, resolved_map: &Object) -> (result: Result<
    Vec<(Object, String)>,
    Error,
>)
    ensures
        match result {
            Ok(done) => documents_replaced(documents_view(documents@), resolved_map@) == Ok::<
                Seq<Document>,
                ErrorView,
            >(documents_view(done@)),
            Err(problem) => documents_replaced(documents_view(documents@), resolved_map@) == Err::<
                Seq<Document>,
                ErrorView,
            >(problem@),
        },
{
    let ghost views = documents_view(documents@);
    let mut done: Vec<(Object, String)> = Vec::new();
    assert(documents_view(done@) =~= Seq::<Document>::empty());
    for i in 0..documents.len()
        invariant
            views == documents_view(documents@),
            documents_replaced(views.take(i as int), resolved_map@) == Ok::<Seq<Document>, ErrorView>(
                documents_view(done@),
            ),
    {
        let ghost after = views.take(i + 1);
        let ghost before = documents_view(done@);
        assert(after.drop_last() == views.take(i as int));
        assert(after.last() == (documents@[i as int].0@, documents@[i as int].1@));
        match methods_replace(&documents[i].0, documents[i].1.as_str(), resolved_map) {
            Ok(json) => {
                done.push((json, documents[i].1.clone()));
                assert(documents_view(done@) =~= before.push((json@, documents@[i as int].1@)));
            },
            Err(problem) => {
                proof {
                    lemma_replaced_prefix(views, resolved_map@, i + 1);
                }
                return Err(problem);
            },
        }
    }
    assert(views.take(views.len() as int) == views);
    Ok(done)
}

/// The name of a method.
pub open spec fn name_of(method: JsonView, path: Seq<char>) -> Result<Seq<char>, ErrorView> {
    match method {
        JsonView::Object(members) => if !members.contains_key("name"@) {
            Err(Problem::MethodWithoutName { path })
        } else {
            match members["name"@] {
                JsonView::String(name) => Ok(name),
                _ => Err(Problem::MethodNameNotString { path }),
            }
        },
        _ => Err(Problem::MethodNotObject { path }),
    }
}

/// `method` has the name `name`.
pub open spec fn is_named(method: JsonView, name: Seq<char>) -> bool {
    method matches JsonView::Object(members) && members.contains_key("name"@) && members["name"@]
        == JsonView::String(name)
}

/// One of `methods` has the name `name`.
pub open spec fn has_name(methods: Seq<JsonView>, name: Seq<char>) -> bool {
    exists|i: int| 0 <= i < methods.len() && is_named(#[trigger] methods[i], name)
}

/// The methods collected so far and one more, unless it has the name of one of them.
pub open spec fn with_method(collected: Seq<JsonView>, method: JsonView, path: Seq<char>) -> Result<
    Seq<JsonView>,
    ErrorView,
> {
    match name_of(method, path) {
        Err(problem) => Err(problem),
        Ok(name) => if has_name(collected, name) {
            Err(Problem::DuplicateMethod { path, name })
        } else {
            Ok(collected.push(method))
        },
    }
}

/// The methods collected so far and those of one more document.
pub open spec fn with_methods(collected: Seq<JsonView>, methods: Seq<JsonView>, path: Seq<char>) -> Result<
    Seq<JsonView>,
    ErrorView,
>
    decreases methods.len(),
{
    if methods.len() == 0 {
        Ok(collected)
    } else {
        match with_methods(collected, methods.drop_last(), path) {
            Err(problem) => Err(problem),
            Ok(more) => with_method(more, methods.last(), path),
        }
    }
}

/// The methods of a document.
pub open spec fn methods_of(document: Document) -> Result<Seq<JsonView>, ErrorView> {
    let (json, path) = document;
    if !json.contains_key("methods"@) {
        Err(Problem::NoMethodsToMerge { path })
    } else {
        match json["methods"@] {
            JsonView::Array(methods) => Ok(methods),
            _ => Err(Problem::MethodsNotArray { path }),
        }
    }
}

/// The methods of the documents, one document after the other.
pub open spec fn collected(documents: Seq<Document>) -> Result<Seq<JsonView>, ErrorView>
    decreases documents.len(),
{
    if documents.len() == 0 {
        Ok(Seq::empty())
    } else {
        match collected(documents.drop_last()) {
            Err(problem) => Err(problem),
            Ok(before) => match methods_of(documents.last()) {
                Err(problem) => Err(problem),
                Ok(methods) => with_methods(before, methods, documents.last().1),
            },
        }
    }
}

/// The merged document: all methods, under `methods`.
pub open spec fn merged(documents: Seq<Document>) -> Result<Map<Seq<char>, JsonView>, ErrorView> {
    match collected(documents) {
        Err(problem) => Err(problem),
        Ok(methods) => Ok(Map::empty().insert("methods"@, JsonView::Array(methods))),
    }
}

/// Once a method cannot be added, no later one changes that.
proof fn lemma_with_methods_prefix(
    before: Seq<JsonView>,
    methods: Seq<JsonView>,
    path: Seq<char>,
    count: int,
)
    requires
        0 <= count <= methods.len(),
        with_methods(before, methods.take(count), path) is Err,
    ensures
        with_methods(before, methods, path) == with_methods(before, methods.take(count), path),
    decreases methods.len(),
{
    if count < methods.len() {
        assert(methods.drop_last().take(count) == methods.take(count));
        lemma_with_methods_prefix(before, methods.drop_last(), path, count);
    } else {
        assert(methods.take(count) == methods);
    }
}

/// Once a document cannot be merged, no later one changes that.
proof fn lemma_collected_prefix(documents: Seq<Document>, count: int)
    requires
        0 <= count <= documents.len(),
        collected(documents.take(count)) is Err,
    ensures
        collected(documents) == collected(documents.take(count)),
    decreases documents.len(),
{
    if count < documents.len() {
        assert(documents.drop_last().take(count) == documents.take(count));
        lemma_collected_prefix(documents.drop_last(), count);
    } else {
        assert(documents.take(count) == documents);
    }
}

/// The name of a method.
fn find_name<'a>(method: &'a Json, path: &str) -> (found: Result<&'a String, Error>)
    ensures
        match found {
            Ok(name) => name_of(method@, path@) == Ok::<Seq<char>, ErrorView>(name@),
            Err(problem) => name_of(method@, path@) == Err::<Seq<char>, ErrorView>(problem@),
        },
{
    match method {
        Json::Object(members) => match members.get("name") {
            None => Err(Problem::MethodWithoutName { path: path.to_owned() }),
            Some(Json::String(name)) => Ok(name),
            Some(_) => Err(Problem::MethodNameNotString { path: path.to_owned() }),
        },
        _ => Err(Problem::MethodNotObject { path: path.to_owned() }),
    }
}

/// `names` holds the names of `methods`.
spec fn holds_names(names: Set<Seq<char>>, methods: Seq<JsonView>) -> bool {
    forall|name: Seq<char>| names.contains(name) <==> #[trigger] has_name(methods, name)
}

/// Adds the methods of a document to those collected so far.
fn collect_methods(
    collected_methods: &mut Vec<Json>,
    names: &mut StringHashSet,
    methods: &Vec<Json>,
    path: &str,
) -> (result: Result<(), Error>)
    requires
        holds_names(old(names)@, values_view(old(collected_methods)@)),
    ensures
        match result {
            Ok(()) => {
                &&& with_methods(values_view(old(collected_methods)@), values_view(methods@), path@) == Ok::<
                    Seq<JsonView>,
                    ErrorView,
                >(values_view(final(collected_methods)@))
                &&& holds_names(final(names)@, values_view(final(collected_methods)@))
            },
            Err(problem) => with_methods(
                values_view(old(collected_methods)@),
                values_view(methods@),
                path@,
            ) == Err::<Seq<JsonView>, ErrorView>(problem@),
        },
{
    let ghost start = values_view(collected_methods@);
    let ghost views = values_view(methods@);
    for i in 0..methods.len()
        invariant
            start == values_view(old(collected_methods)@),
            views == values_view(methods@),
            with_methods(start, views.take(i as int), path@) == Ok::<Seq<JsonView>, ErrorView>(
                values_view(collected_methods@),
            ),
            holds_names(names@, values_view(collected_methods@)),
    {
        let ghost before = values_view(collected_methods@);
        let ghost after = views.take(i + 1);
        assert(after.drop_last() == views.take(i as int));
        assert(after.last() == methods@[i as int]@);
        match find_name(&methods[i], path) {
            Err(problem) => {
                proof {
                    lemma_with_methods_prefix(start, views, path@, i + 1);
                }
                return Err(problem);
            },
            Ok(name) => {
                assert(names@.contains(name@) <==> has_name(before, name@));
                if !names.insert(name.clone()) {
                    proof {
                        lemma_with_methods_prefix(start, views, path@, i + 1);
                    }
                    return Err(Problem::DuplicateMethod { path: path.to_owned(), name: name.clone() });
                }
                collected_methods.push(methods[i].clone());
                proof {
                    let now = values_view(collected_methods@);
                    assert(now =~= before.push(methods@[i as int]@));
                    assert forall|n: Seq<char>| names@.contains(n) <==> #[trigger] has_name(now, n) by {
                        assert(now[before.len() as int] == methods@[i as int]@);
                        if has_name(before, n) {
                            let k = choose|k: int| 0 <= k < before.len() && is_named(#[trigger] before[k], n);
                            assert(is_named(now[k], n));
                        }
                        if has_name(now, n) {
                            let k = choose|k: int| 0 <= k < now.len() && is_named(#[trigger] now[k], n);
                            if k < before.len() {
                                assert(is_named(before[k], n));
                            }
                        }
                        assert(is_named(now[before.len() as int], name@));
                    }
                }
            },
        }
    }
    assert(views.take(views.len() as int) == views);
    Ok(())
}

/// Merges the methods of the documents.
pub fn methods_merge(documents: &Vec<(Object, String)>) -> (result: Result<Object, Error>)
    ensures
        map_view(result) == merged(documents_view(documents@)),
{
    let ghost views = documents_view(documents@);
    let mut collected_methods: Vec<Json> = Vec::new();
    let mut names = StringHashSet::new();
    assert(values_view(collected_methods@) =~= Seq::<JsonView>::empty());
    for i in 0..documents.len()
        invariant
            views == documents_view(documents@),
            collected(views.take(i as int)) == Ok::<Seq<JsonView>, ErrorView>(
                values_view(collected_methods@),
            ),
            holds_names(names@, values_view(collected_methods@)),
    {
        let ghost after = views.take(i + 1);
        assert(after.drop_last() == views.take(i as int));
        assert(after.last() == (documents@[i as int].0@, documents@[i as int].1@));
        let path = documents[i].1.as_str();
        match documents[i].0.get("methods") {
            None => {
                proof {
                    lemma_collected_prefix(views, i + 1);
                }
                return Err(Problem::NoMethodsToMerge { path: path.to_owned() });
            },
            Some(Json::Array(methods)) => {
                assert(after.last().0["methods"@]->Array_0 =~= values_view(methods@));
                match collect_methods(&mut collected_methods, &mut names, methods, path) {
                    Ok(()) => {},
                    Err(problem) => {
                        proof {
                            lemma_collected_prefix(views, i + 1);
                        }
                        return Err(problem);
                    },
                }
            },
            Some(_) => {
                proof {
                    lemma_collected_prefix(views, i + 1);
                }
                return Err(Problem::MethodsNotArray { path: path.to_owned() });
            },
        }
    }
    assert(views.take(views.len() as int) == views);
    let mut document = Object::new();
    let ghost methods = values_view(collected_methods@);
    let value = Json::Array(collected_methods);
    assert(value@->Array_0 =~= methods);
    let _ = document.insert("methods".to_owned(), value);
    Ok(document)
}

/// Replacing references keeps a document's members, and changes none but `methods`; there it keeps
/// every key.
pub proof fn law_members_kept(document: Document, resolved_map: Map<Seq<char>, JsonView>)
    requires
        with_methods_replaced(document, resolved_map) is Ok,
    ensures
        with_methods_replaced(document, resolved_map)->Ok_0.dom() == document.0.dom(),
        forall|key: Seq<char>|
            key != "methods"@ && document.0.contains_key(key) ==> #[trigger] with_methods_replaced(
                document,
                resolved_map,
            )->Ok_0[key] == document.0[key],
        document.0["methods"@] is Object,
        with_methods_replaced(document, resolved_map)->Ok_0["methods"@] is Object,
        with_methods_replaced(document, resolved_map)->Ok_0["methods"@]->Object_0.dom()
            == document.0["methods"@]->Object_0.dom(),
{
    let json = with_methods_replaced(document, resolved_map)->Ok_0;
    assert(json.dom() =~= document.0.dom());
    assert(json["methods"@]->Object_0.dom() =~= document.0["methods"@]->Object_0.dom());
}

/// A method that is neither a string nor an object with a reference of its own is not changed.
pub proof fn law_replaced_without_reference(
    local_file: Seq<char>,
    value: JsonView,
    resolved_map: Map<Seq<char>, JsonView>,
)
    requires
        !(value is String),
        value is Object ==> !(value->Object_0.contains_key(ref_key()) && value->Object_0[ref_key()] is String),
    ensures
        replaced(local_file, value, resolved_map) == Ok::<JsonView, ErrorView>(value),
{
}

/// All methods of the documents, one document after the other.
pub open spec fn all_methods(documents: Seq<Document>) -> Seq<JsonView>
    decreases documents.len(),
{
    if documents.len() == 0 {
        Seq::empty()
    } else {
        all_methods(documents.drop_last()) + methods_of(documents.last())->Ok_0
    }
}

/// `method` has a name.
pub open spec fn has_some_name(method: JsonView) -> bool {
    exists|name: Seq<char>| is_named(method, name)
}

/// Every method has a name, and no two have the same.
pub open spec fn have_distinct_names(methods: Seq<JsonView>) -> bool {
    &&& forall|i: int| 0 <= i < methods.len() ==> has_some_name(#[trigger] methods[i])
    &&& forall|i: int, j: int, name: Seq<char>|
        0 <= i < j < methods.len() && #[trigger] is_named(methods[i], name) ==> !#[trigger] is_named(
            methods[j],
            name,
        )
}

/// Adding methods keeps those collected so far, in front of the new ones, and keeps names distinct.
proof fn lemma_with_methods(before: Seq<JsonView>, methods: Seq<JsonView>, path: Seq<char>)
    requires
        have_distinct_names(before),
        with_methods(before, methods, path) is Ok,
    ensures
        with_methods(before, methods, path)->Ok_0 == before + methods,
        have_distinct_names(before + methods),
    decreases methods.len(),
{
    if methods.len() == 0 {
        assert(before + methods == before);
    } else {
        let less = methods.drop_last();
        let method = methods.last();
        lemma_with_methods(before, less, path);
        let sum = before + less;
        assert(sum.push(method) =~= before + methods);
        let name = name_of(method, path)->Ok_0;
        assert(is_named(method, name));
        let all = sum.push(method);
        assert forall|i: int| 0 <= i < all.len() implies has_some_name(#[trigger] all[i]) by {
            if i < sum.len() {
                assert(all[i] == sum[i]);
            } else {
                assert(is_named(all[i], name));
            }
        }
        assert forall|i: int, j: int, n: Seq<char>|
            0 <= i < j < all.len() && #[trigger] is_named(all[i], n) implies !#[trigger] is_named(all[j], n) by {
            assert(is_named(sum[i], n));
            if j < sum.len() {
                assert(all[j] == sum[j]);
            } else if is_named(all[j], n) {
                assert(has_name(sum, name));
            }
        }
        assert(have_distinct_names(all));
    }
}

/// The merged document holds all methods of the documents, in their order, each as it was, and no
/// two of the same name.
pub proof fn law_merged(documents: Seq<Document>)
    requires
        merged(documents) is Ok,
    ensures
        merged(documents)->Ok_0 == Map::<Seq<char>, JsonView>::empty().insert(
            "methods"@,
            JsonView::Array(all_methods(documents)),
        ),
        have_distinct_names(all_methods(documents)),
    decreases documents.len(),
{
    if documents.len() > 0 {
        let before = documents.drop_last();
        law_merged(before);
        assert(merged(before)->Ok_0["methods"@] == JsonView::Array(collected(before)->Ok_0));
        assert(collected(before)->Ok_0 == all_methods(before));
        lemma_with_methods(all_methods(before), methods_of(documents.last())->Ok_0, documents.last().1);
    }
}

/// References are replaced only where `methods` is an object, and methods are merged only where it
/// is an array. So documents whose references have been replaced are refused by the merge, which
/// names the first of them.
pub proof fn law_replaced_not_merged(documents: Seq<Document>, resolved_map: Map<Seq<char>, JsonView>)
    requires
        documents.len() > 0,
        documents_replaced(documents, resolved_map) is Ok,
    ensures
        merged(documents_replaced(documents, resolved_map)->Ok_0) == Err::<Map<Seq<char>, JsonView>, ErrorView>(
            Problem::MethodsNotArray { path: documents[0].1 },
        ),
{
    lemma_replaced_first(documents, resolved_map);
    let done = documents_replaced(documents, resolved_map)->Ok_0;
    let first = done.take(1);
    assert(first.last() == done[0]);
    assert(first.drop_last() == Seq::<Document>::empty());
    assert(collected(first.drop_last()) == Ok::<Seq<JsonView>, ErrorView>(Seq::empty()));
    lemma_collected_prefix(done, 1);
}

/// The first document keeps its place and its path, and its methods are an object.
proof fn lemma_replaced_first(documents: Seq<Document>, resolved_map: Map<Seq<char>, JsonView>)
    requires
        documents.len() > 0,
        documents_replaced(documents, resolved_map) is Ok,
    ensures
        documents_replaced(documents, resolved_map)->Ok_0.len() > 0,
        documents_replaced(documents, resolved_map)->Ok_0[0].1 == documents[0].1,
        documents_replaced(documents, resolved_map)->Ok_0[0].0.contains_key("methods"@),
        documents_replaced(documents, resolved_map)->Ok_0[0].0["methods"@] is Object,
    decreases documents.len(),
{
    if documents.len() > 1 {
        lemma_replaced_first(documents.drop_last(), resolved_map);
    } else {
        assert(documents_replaced(documents.drop_last(), resolved_map) == Ok::<Seq<Document>, ErrorView>(
            Seq::empty(),
        ));
    }
}

/// A method that is a reference becomes what the map holds for it, and one that is an object with a
/// reference keeps its keys and its other members, while the reference becomes what the map holds for
/// it. A reference for which the map holds nothing is a problem.
pub proof fn law_replaced(
    local_file: Seq<char>,
    object: Map<Seq<char>, JsonView>,
    reference: Seq<char>,
    resolved_map: Map<Seq<char>, JsonView>,
)
    requires
        object.contains_key("$ref"@),
        object["$ref"@] == JsonView::String(reference),
    ensures
        resolved_map.contains_key(reference) ==> {
            &&& replaced(local_file, JsonView::String(reference), resolved_map) == Ok::<JsonView, ErrorView>(
                resolved_map[reference],
            )
            &&& replaced(local_file, JsonView::Object(object), resolved_map) matches Ok(JsonView::Object(whole))
            &&& whole.dom() == object.dom()
            &&& whole["$ref"@] == resolved_map[reference]
            &&& forall|key: Seq<char>| #[trigger]
                object.contains_key(key) && key != "$ref"@ ==> whole[key] == object[key]
        },
        !resolved_map.contains_key(reference) ==> {
            &&& replaced(local_file, JsonView::String(reference), resolved_map) == Err::<JsonView, ErrorView>(
                Problem::UnknownMethodReference { file: local_file, reference },
            )
            &&& replaced(local_file, JsonView::Object(object), resolved_map) == Err::<JsonView, ErrorView>(
                Problem::UnknownMethodReference { file: local_file, reference },
            )
        },
{
    assert(object.insert("$ref"@, resolved_map[reference]).dom() =~= object.dom());
}

/// A method that is no string, and an object without a string at `$ref`, stay as they are.
pub proof fn law_not_replaced(
    local_file: Seq<char>,
    value: JsonView,
    resolved_map: Map<Seq<char>, JsonView>,
)
    ensures
        value is Null || value is Bool || value is Number || value is Array ==> replaced(
            local_file,
            value,
            resolved_map,
        ) == Ok::<JsonView, ErrorView>(value),
        value is Object && !value->Object_0.contains_key("$ref"@) ==> replaced(local_file, value, resolved_map)
            == Ok::<JsonView, ErrorView>(value),
        value is Object && value->Object_0.contains_key("$ref"@) && !(value->Object_0["$ref"@] is String)
            ==> replaced(local_file, value, resolved_map) == Ok::<JsonView, ErrorView>(value),
{
}

/// A document in whose methods every reference can be replaced is a document again: the method at
/// each key is what replacing the reference in it gives, and no other member changes.
pub proof fn law_methods_replaced(
    document: Document,
    methods: Map<Seq<char>, JsonView>,
    resolved_map: Map<Seq<char>, JsonView>,
)
    requires
        document.0.contains_key("methods"@),
        document.0["methods"@] == JsonView::Object(methods),
        forall|key: Seq<char>| #[trigger]
            methods.contains_key(key) ==> replaced(document.1, methods[key], resolved_map) is Ok,
    ensures
        with_methods_replaced(document, resolved_map) matches Ok(json) && {
            &&& json.dom() == document.0.dom()
            &&& forall|key: Seq<char>| #[trigger]
                document.0.contains_key(key) && key != "methods"@ ==> json[key] == document.0[key]
            &&& json["methods"@] matches JsonView::Object(done) && {
                &&& done.dom() == methods.dom()
                &&& forall|key: Seq<char>| #[trigger]
                    methods.contains_key(key) ==> replaced(document.1, methods[key], resolved_map) == Ok::<
                        JsonView,
                        ErrorView,
                    >(done[key])
            }
        },
{
    let p = stuck(document.1, methods, resolved_map);
    assert forall|key: Seq<char>| !is_least(p, key) by {
        assert(!p(key));
    }
    let done = all_replaced(document.1, methods, resolved_map);
    assert(done.dom() =~= methods.dom());
    assert(document.0.insert("methods"@, JsonView::Object(done)).dom() =~= document.0.dom());
}

/// Where the methods of a document are replaced, the reference in every method can be replaced, and
/// the method at each key is what that gives.
pub proof fn law_each_method_replaced(
    document: Document,
    resolved_map: Map<Seq<char>, JsonView>,
    key: Seq<char>,
)
    requires
        JsonView::Object(document.0).is_finite(),
        with_methods_replaced(document, resolved_map) is Ok,
    ensures
        document.0.contains_key("methods"@),
        document.0["methods"@] is Object,
        with_methods_replaced(document, resolved_map)->Ok_0["methods"@] is Object,
        document.0["methods"@]->Object_0.contains_key(key) ==> with_methods_replaced(
            document,
            resolved_map,
        )->Ok_0["methods"@]->Object_0.contains_key(key) && replaced(
            document.1,
            document.0["methods"@]->Object_0[key],
            resolved_map,
        ) == Ok::<JsonView, ErrorView>(
            with_methods_replaced(document, resolved_map)->Ok_0["methods"@]->Object_0[key],
        ),
{
    let whole = JsonView::Object(document.0);
    assert(whole->Object_0 == document.0);
    assert(document.0["methods"@].is_finite());
    let methods = document.0["methods"@]->Object_0;
    let p = stuck(document.1, methods, resolved_map);
    assert forall|other: Seq<char>| #[trigger] methods.contains_key(other) implies replaced(
        document.1,
        methods[other],
        resolved_map,
    ) is Ok by {
        if !(replaced(document.1, methods[other], resolved_map) is Ok) {
            assert(p(other));
            let first = lemma_some_least(p, methods.dom());
            lemma_least(p, first);
        }
    }
    law_methods_replaced(document, methods, resolved_map);
}

/// A document without methods, and one whose methods are no object, are refused; and where references
/// cannot be replaced, the first method with such a reference decides.
pub proof fn law_methods_refused(
    document: Document,
    resolved_map: Map<Seq<char>, JsonView>,
    key: Seq<char>,
)
    ensures
        !document.0.contains_key("methods"@) ==> with_methods_replaced(document, resolved_map) == Err::<
            Map<Seq<char>, JsonView>,
            ErrorView,
        >(Problem::NoMethods { path: document.1 }),
        document.0.contains_key("methods"@) && !(document.0["methods"@] is Object) ==> with_methods_replaced(
            document,
            resolved_map,
        ) == Err::<Map<Seq<char>, JsonView>, ErrorView>(Problem::MethodsNotObject { path: document.1 }),
        document.0.contains_key("methods"@) && document.0["methods"@] is Object ==> {
            let methods = document.0["methods"@]->Object_0;
            methods.contains_key(key) && replaced(document.1, methods[key], resolved_map) is Err && (forall|
                other: Seq<char>,
            | #[trigger]
                methods.contains_key(other) && precedes(other, key) ==> replaced(
                    document.1,
                    methods[other],
                    resolved_map,
                ) is Ok) ==> with_methods_replaced(document, resolved_map) == Err::<
                Map<Seq<char>, JsonView>,
                ErrorView,
            >(replaced(document.1, methods[key], resolved_map)->Err_0)
        },
{
    if document.0.contains_key("methods"@) && document.0["methods"@] is Object {
        let methods = document.0["methods"@]->Object_0;
        let p = stuck(document.1, methods, resolved_map);
        if p(key) && (forall|other: Seq<char>| #[trigger]
            methods.contains_key(other) && precedes(other, key) ==> replaced(
                document.1,
                methods[other],
                resolved_map,
            ) is Ok) {
            assert forall|other: Seq<char>| #[trigger] p(other) implies other == key || precedes(key, other) by {
                lemma_precedes_total(key, other);
                assert(methods.contains_key(other));
            }
            lemma_least(p, key);
        }
    }
}

/// Any number of documents is replaced where each of them can be, each in its place and with its path;
/// otherwise the first that cannot be decides.
pub proof fn law_documents_replaced(documents: Seq<Document>, resolved_map: Map<Seq<char>, JsonView>)
    ensures
        documents_replaced(documents, resolved_map) is Ok <==> forall|i: int|
            0 <= i < documents.len() ==> with_methods_replaced(#[trigger] documents[i], resolved_map) is Ok,
        documents_replaced(documents, resolved_map) matches Ok(done) ==> {
            &&& done.len() == documents.len()
            &&& forall|i: int|
                0 <= i < documents.len() ==> (#[trigger] done[i]).1 == documents[i].1 && with_methods_replaced(
                    documents[i],
                    resolved_map,
                ) == Ok::<Map<Seq<char>, JsonView>, ErrorView>(done[i].0)
        },
        forall|i: int|
            0 <= i < documents.len() && with_methods_replaced(#[trigger] documents[i], resolved_map) is Err && (
            forall|j: int| 0 <= j < i ==> with_methods_replaced(#[trigger] documents[j], resolved_map) is Ok)
                ==> documents_replaced(documents, resolved_map) == Err::<Seq<Document>, ErrorView>(
                with_methods_replaced(documents[i], resolved_map)->Err_0,
            ),
    decreases documents.len(),
{
    if documents.len() > 0 {
        let before = documents.drop_last();
        let last = documents.len() - 1;
        law_documents_replaced(before, resolved_map);
        assert(documents[last] == documents.last());
        assert forall|i: int| 0 <= i < before.len() implies before[i] == #[trigger] documents[i] by {
        }
        if documents_replaced(before, resolved_map) is Ok {
            assert forall|i: int| 0 <= i < last implies with_methods_replaced(
                #[trigger] documents[i],
                resolved_map,
            ) is Ok by {
                assert(with_methods_replaced(before[i], resolved_map) is Ok);
            }
        } else {
            let k = choose|k: int|
                0 <= k < before.len() && !(with_methods_replaced(#[trigger] before[k], resolved_map) is Ok);
            assert(!(with_methods_replaced(documents[k], resolved_map) is Ok));
            assert forall|i: int|
                0 <= i < documents.len() && with_methods_replaced(#[trigger] documents[i], resolved_map) is Err && (
                forall|j: int| 0 <= j < i ==> with_methods_replaced(#[trigger] documents[j], resolved_map) is Ok)
                implies documents_replaced(documents, resolved_map) == Err::<Seq<Document>, ErrorView>(
                with_methods_replaced(documents[i], resolved_map)->Err_0,
            ) by {
                assert(i <= k);
                assert(before[i] == documents[i]);
                assert forall|j: int| 0 <= j < i implies with_methods_replaced(
                    #[trigger] before[j],
                    resolved_map,
                ) is Ok by {
                    assert(with_methods_replaced(documents[j], resolved_map) is Ok);
                }
            }
        }
    }
}

/// Methods with names of their own are all added.
proof fn lemma_all_added(before: Seq<JsonView>, methods: Seq<JsonView>, path: Seq<char>)
    requires
        forall|a: int|
            0 <= a < (before + methods).len() ==> {
                let method = #[trigger] (before + methods)[a];
                method is Object && method->Object_0.contains_key("name"@) && method->Object_0["name"@] is String
            },
        forall|a: int, b: int|
            0 <= a < b < (before + methods).len() ==> (#[trigger] (before + methods)[a])->Object_0["name"@] != (
            #[trigger] (before + methods)[b])->Object_0["name"@],
    ensures
        with_methods(before, methods, path) == Ok::<Seq<JsonView>, ErrorView>(before + methods),
    decreases methods.len(),
{
    let all = before + methods;
    if methods.len() == 0 {
        assert(all =~= before);
    } else {
        let less = methods.drop_last();
        let sum = before + less;
        assert(all =~= sum.push(methods.last()));
        assert forall|a: int| 0 <= a < sum.len() implies {
            let method = #[trigger] sum[a];
            method is Object && method->Object_0.contains_key("name"@) && method->Object_0["name"@] is String
        } by {
            assert(sum[a] == all[a]);
        }
        assert forall|a: int, b: int| 0 <= a < b < sum.len() implies (#[trigger] sum[a])->Object_0["name"@] != (
        #[trigger] sum[b])->Object_0["name"@] by {
            assert(sum[a] == all[a] && sum[b] == all[b]);
        }
        lemma_all_added(before, less, path);
        let method = methods.last();
        assert(method == all[all.len() - 1]);
        let name = method->Object_0["name"@]->String_0;
        if has_name(sum, name) {
            let k = choose|k: int| 0 <= k < sum.len() && is_named(#[trigger] sum[k], name);
            assert(sum[k] == all[k]);
        }
    }
}

/// Any number of documents is merged, with any number of methods, where each has an array at
/// `methods`, every method is an object with a string at `name`, and no two have the same name. Then
/// the merged document has nothing but `methods`, and there all the methods, in their order.
pub proof fn law_merge(documents: Seq<Document>, methods: Seq<Seq<JsonView>>)
    requires
        methods.len() == documents.len(),
        forall|i: int| #![trigger documents[i]] #![trigger methods[i]]
            0 <= i < documents.len() ==> documents[i].0.contains_key("methods"@) && documents[i].0["methods"@]
                == JsonView::Array(methods[i]),
        forall|a: int|
            0 <= a < methods.flatten().len() ==> {
                let method = #[trigger] methods.flatten()[a];
                method is Object && method->Object_0.contains_key("name"@) && method->Object_0["name"@] is String
            },
        forall|a: int, b: int|
            0 <= a < b < methods.flatten().len() ==> (#[trigger] methods.flatten()[a])->Object_0["name"@] != (
            #[trigger] methods.flatten()[b])->Object_0["name"@],
    ensures
        merged(documents) == Ok::<Map<Seq<char>, JsonView>, ErrorView>(
            map!["methods"@ => JsonView::Array(methods.flatten())],
        ),
{
    lemma_collected(documents, methods);
}

/// The methods are collected as they are merged.
proof fn lemma_collected(documents: Seq<Document>, methods: Seq<Seq<JsonView>>)
    requires
        methods.len() == documents.len(),
        forall|i: int| #![trigger documents[i]] #![trigger methods[i]]
            0 <= i < documents.len() ==> documents[i].0.contains_key("methods"@) && documents[i].0["methods"@]
                == JsonView::Array(methods[i]),
        forall|a: int|
            0 <= a < methods.flatten().len() ==> {
                let method = #[trigger] methods.flatten()[a];
                method is Object && method->Object_0.contains_key("name"@) && method->Object_0["name"@] is String
            },
        forall|a: int, b: int|
            0 <= a < b < methods.flatten().len() ==> (#[trigger] methods.flatten()[a])->Object_0["name"@] != (
            #[trigger] methods.flatten()[b])->Object_0["name"@],
    ensures
        collected(documents) == Ok::<Seq<JsonView>, ErrorView>(methods.flatten()),
    decreases documents.len(),
{
    if documents.len() > 0 {
        let before = documents.drop_last();
        let earlier = methods.drop_last();
        let all = methods.flatten();
        let some = earlier.flatten();
        earlier.lemma_flatten_push(methods.last());
        assert(earlier.push(methods.last()) =~= methods);
        assert(all =~= some + methods.last());
        assert(documents[documents.len() - 1] == documents.last());
        assert forall|i: int| #![trigger before[i]] #![trigger earlier[i]] 0 <= i < before.len() implies
            before[i].0.contains_key("methods"@) && before[i].0["methods"@] == JsonView::Array(earlier[i]) by {
            assert(before[i] == documents[i] && earlier[i] == methods[i]);
        }
        assert forall|a: int| 0 <= a < some.len() implies {
            let method = #[trigger] some[a];
            method is Object && method->Object_0.contains_key("name"@) && method->Object_0["name"@] is String
        } by {
            assert(some[a] == all[a]);
        }
        assert forall|a: int, b: int| 0 <= a < b < some.len() implies (#[trigger] some[a])->Object_0["name"@] != (
        #[trigger] some[b])->Object_0["name"@] by {
            assert(some[a] == all[a] && some[b] == all[b]);
        }
        lemma_collected(before, earlier);
        lemma_all_added(some, methods.last(), documents.last().1);
    }
}

/// What stands in the way of a document decides, once the documents before it are merged: that it has
/// no `methods`, or none that are an array.
pub proof fn law_merge_refused(documents: Seq<Document>, i: int)
    requires
        0 <= i < documents.len(),
        merged(documents.take(i)) is Ok,
    ensures
        !documents[i].0.contains_key("methods"@) ==> merged(documents) == Err::<Map<Seq<char>, JsonView>, ErrorView>(
            Problem::NoMethodsToMerge { path: documents[i].1 },
        ),
        documents[i].0.contains_key("methods"@) && !(documents[i].0["methods"@] is Array) ==> merged(documents)
            == Err::<Map<Seq<char>, JsonView>, ErrorView>(Problem::MethodsNotArray { path: documents[i].1 }),
{
    let after = documents.take(i + 1);
    assert(after.drop_last() == documents.take(i));
    assert(after.last() == documents[i]);
    if collected(after) is Err {
        lemma_collected_prefix(documents, i + 1);
    }
}

/// A method that cannot be merged decides, once the documents and the methods before it are: one that
/// is no object, that has no name, whose name is no string, or whose name one of those before it has.
pub proof fn law_method_refused(
    documents: Seq<Document>,
    methods: Seq<Seq<JsonView>>,
    i: int,
    a: int,
)
    requires
        0 <= i < documents.len(),
        methods.len() == i,
        forall|j: int| #![trigger documents[j]] #![trigger methods[j]]
            0 <= j < i ==> documents[j].0.contains_key("methods"@) && documents[j].0["methods"@]
                == JsonView::Array(methods[j]),
        documents[i].0.contains_key("methods"@),
        documents[i].0["methods"@] is Array,
        0 <= a < documents[i].0["methods"@]->Array_0.len(),
        ({
            let before = methods.flatten() + documents[i].0["methods"@]->Array_0.take(a);
            &&& forall|k: int|
                0 <= k < before.len() ==> (#[trigger] before[k]) is Object && before[k]->Object_0.contains_key("name"@)
                    && before[k]->Object_0["name"@] is String
            &&& forall|k: int, l: int|
                0 <= k < l < before.len() ==> (#[trigger] before[k])->Object_0["name"@] != (
                #[trigger] before[l])->Object_0["name"@]
        }),
    ensures
        ({
            let before = methods.flatten() + documents[i].0["methods"@]->Array_0.take(a);
            let method = documents[i].0["methods"@]->Array_0[a];
            let path = documents[i].1;
            &&& !(method is Object) ==> merged(documents) == Err::<Map<Seq<char>, JsonView>, ErrorView>(
                Problem::MethodNotObject { path },
            )
            &&& method is Object && !method->Object_0.contains_key("name"@) ==> merged(documents) == Err::<
                Map<Seq<char>, JsonView>,
                ErrorView,
            >(Problem::MethodWithoutName { path })
            &&& method is Object && method->Object_0.contains_key("name"@) && !(
            method->Object_0["name"@] is String) ==> merged(documents) == Err::<
                Map<Seq<char>, JsonView>,
                ErrorView,
            >(Problem::MethodNameNotString { path })
            &&& forall|k: int|
                0 <= k < before.len() && method is Object && method->Object_0.contains_key("name"@)
                    && method->Object_0["name"@] is String && (#[trigger] before[k])->Object_0["name"@]
                    == method->Object_0["name"@] ==> merged(documents) == Err::<
                    Map<Seq<char>, JsonView>,
                    ErrorView,
                >(Problem::DuplicateMethod { path, name: method->Object_0["name"@]->String_0 })
        }),
{
    let after = documents.take(i + 1);
    let earlier = documents.take(i);
    let path = documents[i].1;
    let mine = documents[i].0["methods"@]->Array_0;
    let collected_before = methods.flatten();
    let before = collected_before + mine.take(a);
    let method = mine[a];
    assert(after.drop_last() == earlier);
    assert(after.last() == documents[i]);
    assert forall|j: int| #![trigger earlier[j]] #![trigger methods[j]] 0 <= j < i implies
        earlier[j].0.contains_key("methods"@) && earlier[j].0["methods"@] == JsonView::Array(methods[j]) by {
        assert(earlier[j] == documents[j]);
    }
    assert forall|k: int| 0 <= k < collected_before.len() implies {
        let m = #[trigger] collected_before[k];
        m is Object && m->Object_0.contains_key("name"@) && m->Object_0["name"@] is String
    } by {
        assert(collected_before[k] == before[k]);
    }
    assert forall|k: int, l: int| 0 <= k < l < collected_before.len() implies (
    #[trigger] collected_before[k])->Object_0["name"@] != (#[trigger] collected_before[l])->Object_0["name"@] by {
        assert(collected_before[k] == before[k] && collected_before[l] == before[l]);
    }
    lemma_collected(earlier, methods);
    lemma_all_added(collected_before, mine.take(a), path);
    let with = mine.take(a + 1);
    assert(with.drop_last() =~= mine.take(a));
    assert(with.last() == method);
    assert(with_methods(collected_before, with, path) == with_method(before, method, path));
    if with_method(before, method, path) is Err {
        lemma_with_methods_prefix(collected_before, mine, path, a + 1);
        lemma_collected_prefix(documents, i + 1);
    }
    assert forall|k: int|
        0 <= k < before.len() && method is Object && method->Object_0.contains_key("name"@)
            && method->Object_0["name"@] is String && (#[trigger] before[k])->Object_0["name"@]
            == method->Object_0["name"@] implies merged(documents) == Err::<Map<Seq<char>, JsonView>, ErrorView>(
        Problem::DuplicateMethod { path, name: method->Object_0["name"@]->String_0 },
    ) by {
        let name = method->Object_0["name"@]->String_0;
        assert(is_named(before[k], name));
        assert(has_name(before, name));
    }
}

} // verus!
