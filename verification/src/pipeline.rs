//! From the documents to the merged one.

use vstd::prelude::*;
use crate::components::{
    Components, Document, documents_finite, documents_view, law_load, law_loaded_finite, loaded, ref_load,
};
use crate::depth::{is_ranked, law_all_answered};
use crate::json::{JsonView, Object};
use crate::methods::{
    documents_replace, documents_replaced, law_documents_replaced, law_merge, law_replaced_not_merged, merged,
    methods_merge,
};
use crate::problem::{Error, ErrorView};
use crate::resolve::{
    all_answered, is_resolved_map, law_resolved_map_determined, map_view, ref_resolved_checked,
};

verus! {

/// The documents merged, once the components are resolved: the references in the methods are
/// replaced, and then the methods are merged.
pub open spec fn replaced_and_merged(
    documents: Seq<Document>,
    resolved_map: Map<Seq<char>, JsonView>,
) -> Result<Map<Seq<char>, JsonView>, ErrorView> {
    match documents_replaced(documents, resolved_map) {
        Err(problem) => Err(problem),
        Ok(done) => merged(done),
    }
}

/// `result` is what follows once the components are resolved, or fail to be.
pub open spec fn follows(
    documents: Seq<Document>,
    resolution: Result<Map<Seq<char>, JsonView>, ErrorView>,
    result: Result<Map<Seq<char>, JsonView>, ErrorView>,
) -> bool {
    match resolution {
        Err(problem) => result == Err::<Map<Seq<char>, JsonView>, ErrorView>(problem),
        Ok(resolved_map) => result == replaced_and_merged(documents, resolved_map),
    }
}

/// `result` is what becomes of the documents: the first step that fails decides.
pub open spec fn is_merge(
    documents: Seq<Document>,
    result: Result<Map<Seq<char>, JsonView>, ErrorView>,
) -> bool {
    match loaded(documents) {
        Err(problem) => result == Err::<Map<Seq<char>, JsonView>, ErrorView>(problem),
        Ok(components) => exists|resolution: Result<Map<Seq<char>, JsonView>, ErrorView>|
            #[trigger] is_resolved_map(components, resolution) && follows(documents, resolution, result),
    }
}

/// Every component that the documents declare has an answer.
pub open spec fn is_answered(documents: Seq<Document>) -> bool {
    match loaded(documents) {
        Err(_) => true,
        Ok(components) => all_answered(components),
    }
}

/// What follows from the resolved components is the merge.
proof fn lemma_merge(
    documents: Seq<Document>,
    components: Components,
    resolution: Result<Map<Seq<char>, JsonView>, ErrorView>,
    result: Result<Map<Seq<char>, JsonView>, ErrorView>,
)
    requires
        loaded(documents) == Ok::<Components, ErrorView>(components),
        is_resolved_map(components, resolution),
        follows(documents, resolution, result),
    ensures
        is_merge(documents, result),
{
    assert(is_resolved_map(loaded(documents)->Ok_0, resolution));
}

/// Merges the documents, each given with the path of its file, as `merge_documents` does. There is no
/// answer where a component that they declare has none.
pub fn merge_documents_checked(documents: &Vec<(Object, String)>) -> (answer: Option<Result<Object, Error>>)
    ensures
        answer is Some <==> is_answered(documents_view(documents@)),
        answer is Some ==> is_merge(documents_view(documents@), map_view(answer->0)),
{
    let ref_map = match ref_load(documents) {
        Ok(ref_map) => ref_map,
        Err(problem) => {
            return Some(Err(problem));
        },
    };
    let resolution = match ref_resolved_checked(&ref_map) {
        Some(resolution) => resolution,
        None => {
            return None;
        },
    };
    let ghost outcome = map_view(resolution);
    let result = match resolution {
        Err(problem) => Err(problem),
        Ok(resolved_map) => match documents_replace(documents, &resolved_map) {
            Err(problem) => Err(problem),
            Ok(done) => methods_merge(&done),
        },
    };
    proof {
        lemma_merge(documents_view(documents@), ref_map@, outcome, map_view(result));
    }
    Some(result)
}

/// Merges the documents, each given with the path of its file: their components are collected and
/// resolved, the references in their methods replaced, and their methods merged.
///
/// Without documents the merged one has no methods. Once there is a document the result is always a
/// problem, at the latest that replaced methods are an object and cannot be merged: see
/// `law_never_merged`.
pub fn merge_documents(documents: &Vec<(Object, String)>) -> (result: Result<Object, Error>)
    requires
        is_answered(documents_view(documents@)),
    ensures
        is_merge(documents_view(documents@), map_view(result)),
{
    merge_documents_checked(documents).unwrap()
}

/// Where the references in the components that the documents declare can be ranked, so that they do
/// not run in a circle, there is an answer.
pub proof fn law_merge_answered(documents: Seq<Document>, rank: spec_fn(Seq<char>) -> nat)
    requires
        documents_finite(documents),
        loaded(documents) matches Ok(components) ==> is_ranked(components, rank),
    ensures
        is_answered(documents),
{
    if let Ok(components) = loaded(documents) {
        law_loaded_finite(documents);
        law_all_answered(components, rank);
    }
}

/// Where there are documents, the whole way never gives a merged one: it always ends in a problem.
pub proof fn law_never_merged(
    documents: Seq<Document>,
    result: Result<Map<Seq<char>, JsonView>, ErrorView>,
)
    requires
        documents.len() > 0,
        is_merge(documents, result),
    ensures
        result is Err,
{
    if let Ok(components) = loaded(documents) {
        let resolution = choose|resolution: Result<Map<Seq<char>, JsonView>, ErrorView>|
            #[trigger] is_resolved_map(components, resolution) && follows(documents, resolution, result);
        if let Ok(resolved_map) = resolution {
            if documents_replaced(documents, resolved_map) is Ok {
                law_replaced_not_merged(documents, resolved_map);
            }
        }
    }
}

/// The whole way: a problem with loading is the result; then a problem with a component; then one with
/// the methods of a document; and at last what merging the replaced documents gives.
pub proof fn law_whole_way(documents: Seq<Document>, result: Result<Map<Seq<char>, JsonView>, ErrorView>)
    requires
        is_merge(documents, result),
    ensures
        loaded(documents) matches Err(problem) ==> result == Err::<Map<Seq<char>, JsonView>, ErrorView>(problem),
        forall|resolved_map: Map<Seq<char>, JsonView>|
            loaded(documents) is Ok && #[trigger] is_resolved_map(loaded(documents)->Ok_0, Ok(resolved_map)) ==> (
            match documents_replaced(documents, resolved_map) {
                Err(problem) => result == Err::<Map<Seq<char>, JsonView>, ErrorView>(problem),
                Ok(done) => result == merged(done),
            }),
        loaded(documents) is Ok && (forall|resolved_map: Map<Seq<char>, JsonView>|
            !#[trigger] is_resolved_map(loaded(documents)->Ok_0, Ok(resolved_map))) ==> (result matches Err(problem)
            && is_resolved_map(loaded(documents)->Ok_0, Err(problem))),
{
    if let Ok(components) = loaded(documents) {
        let resolution = choose|resolution: Result<Map<Seq<char>, JsonView>, ErrorView>|
            #[trigger] is_resolved_map(components, resolution) && follows(documents, resolution, result);
        assert forall|resolved_map: Map<Seq<char>, JsonView>| #[trigger]
            is_resolved_map(components, Ok(resolved_map)) implies (match documents_replaced(documents, resolved_map) {
            Err(problem) => result == Err::<Map<Seq<char>, JsonView>, ErrorView>(problem),
            Ok(done) => result == merged(done),
        }) by {
            law_resolved_map_determined(components, resolved_map, resolution);
        }
    }
}

/// There is an answer exactly if loading is a problem, or every component has an answer.
pub proof fn law_merge_answers(documents: Seq<Document>)
    ensures
        is_answered(documents) <==> (loaded(documents) is Ok ==> all_answered(loaded(documents)->Ok_0)),
{
}

/// Without documents, the merged one has no methods.
pub proof fn law_nothing_to_merge(result: Result<Map<Seq<char>, JsonView>, ErrorView>)
    requires
        is_merge(Seq::<Document>::empty(), result),
    ensures
        result == Ok::<Map<Seq<char>, JsonView>, ErrorView>(
            map!["methods"@ => JsonView::Array(Seq::<JsonView>::empty())],
        ),
{
    let none = Seq::<Document>::empty();
    let empty = Map::<Seq<char>, JsonView>::empty();
    law_load(none, Seq::empty());
    let components = loaded(none)->Ok_0;
    assert forall|key: Seq<char>| !components.contains_key(key) by {
        if components.contains_key(key) {
            assert(loaded(none)->Ok_0.contains_key(key));
        }
    }
    assert(empty.dom() =~= components.dom());
    assert(is_resolved_map(components, Ok(empty)));
    law_whole_way(none, result);
    law_documents_replaced(none, empty);
    let done = documents_replaced(none, empty)->Ok_0;
    assert(done =~= none);
    law_merge(none, Seq::empty());
}

} // verus!
