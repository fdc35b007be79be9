//! The components that the documents declare, and the map that holds them.

use vstd::hash_map::StringHashMap;
use vstd::prelude::*;
use vstd::string::StringExecFns;
use crate::json::{Json, JsonView, Object, law_json_finite, law_object_finite, texts};
use crate::order::{
    ascending, is_least, least, lemma_first, lemma_least, lemma_next, lemma_none, lemma_precedes_total,
    lemma_visited, precedes,
};
use crate::problem::{Error, ErrorView, Problem};

verus! {

/// The known components by their keys, each with the file that declares it.
pub type Components = Map<Seq<char>, (Seq<char>, JsonView)>;

/// A component, and the file that declares it.
#[derive(Debug)]
pub struct Component {
    pub file: String,
    pub value: Json,
}

impl View for Component {
    type V = (Seq<char>, JsonView);

    open spec fn view(&self) -> (Seq<char>, JsonView) {
        (self.file@, self.value@)
    }
}

/// The known components. A component's key is the path of its file followed by its name.
pub struct RefMap {
    components: StringHashMap<Component>,
    keys: Vec<String>,
}

impl View for RefMap {
    type V = Components;

    closed spec fn view(&self) -> Components {
        self.components@.restrict(texts(self.keys@).to_set()).map_values(|component: Component| component@)
    }
}

impl RefMap {
    /// `keys` lists the keys of the components, each once.
    #[verifier::type_invariant]
    spec fn inv(self) -> bool {
        &&& texts(self.keys@).no_duplicates()
        &&& texts(self.keys@).to_set() == self.components@.dom()
    }

    /// A map without components.
    pub fn new() -> (map: RefMap)
        ensures
            map@ == Map::<Seq<char>, (Seq<char>, JsonView)>::empty(),
    {
        let components: StringHashMap<Component> = StringHashMap::new();
        let keys: Vec<String> = Vec::new();
        assert(texts(keys@).to_set() =~= components@.dom());
        let map = RefMap { components, keys };
        assert(map@ =~= Map::<Seq<char>, (Seq<char>, JsonView)>::empty());
        map
    }

    /// The component at `key`.
    pub fn get(&self, key: &str) -> (component: Option<&Component>)
        ensures
            match component {
                Some(found) => self@.contains_key(key@) && found@ == self@[key@],
                None => !self@.contains_key(key@),
            },
    {
        proof {
            use_type_invariant(self);
        }
        self.components.get(key)
    }

    /// Stores `component` at `key`, in place of the one that was there.
    pub fn insert(&mut self, key: String, component: Component)
        ensures
            final(self)@ == old(self)@.insert(key@, component@),
    {
        proof {
            use_type_invariant(&*self);
        }
        let mut taken = RefMap::new();
        std::mem::swap(self, &mut taken);
        let RefMap { mut components, mut keys } = taken;
        let ghost before = texts(keys@);
        if !components.contains_key(key.as_str()) {
            keys.push(key.clone());
            assert(texts(keys@) == before.push(key@));
        }
        components.insert(key, component);
        assert(texts(keys@).to_set() =~= components@.dom()) by {
            assert forall|k: Seq<char>| components@.contains_key(k) implies texts(keys@).contains(k) by {
                if before.contains(k) {
                    let i = before.index_of(k);
                    assert(texts(keys@)[i] == k);
                } else {
                    assert(before.to_set().contains(k) == before.contains(k));
                    assert(texts(keys@)[before.len() as int] == k);
                }
            }
        }
        *self = RefMap { components, keys };
        assert(self@ =~= old(self)@.insert(key@, component@));
    }

    /// How many components there are.
    pub fn len(&self) -> (count: usize)
        ensures
            count == self@.dom().len(),
            self@.dom().finite(),
    {
        proof {
            use_type_invariant(self);
        }
        assert(self@.dom() =~= self.components@.dom());
        self.components.len()
    }

    /// The keys of the components, each once.
    pub fn keys(&self) -> (keys: &Vec<String>)
        ensures
            texts(keys@).no_duplicates(),
            texts(keys@).to_set() == self@.dom(),
    {
        proof {
            use_type_invariant(self);
        }
        assert(self@.dom() =~= self.components@.dom());
        &self.keys
    }
}

/// There are finitely many components, and each is finite.
pub open spec fn are_finite(components: Components) -> bool {
    &&& components.dom().finite()
    &&& forall|key: Seq<char>| #[trigger] components.contains_key(key) ==> components[key].1.is_finite()
}

/// The components that a map holds are always finite.
pub proof fn law_ref_map_finite(ref_map: RefMap)
    ensures
        are_finite(ref_map@),
{
    let keys = texts(ref_map.keys@);
    vstd::seq_lib::seq_to_set_is_finite(keys);
    vstd::set_lib::lemma_len_subset(ref_map@.dom(), keys.to_set());
    assert forall|key: Seq<char>| #[trigger] ref_map@.contains_key(key) implies ref_map@[key].1.is_finite() by {
        law_json_finite(ref_map.components@[key].value);
    }
}

/// A document and the path of its file, as specifications speak of them.
pub type Document = (Map<Seq<char>, JsonView>, Seq<char>);

/// The documents as specifications speak of them.
pub open spec fn documents_view(documents: Seq<(Object, String)>) -> Seq<Document> {
    Seq::new(documents.len(), |i: int| (documents[i].0@, documents[i].1@))
}

/// Each of the documents is finite.
pub open spec fn documents_finite(documents: Seq<Document>) -> bool {
    forall|i: int| 0 <= i < documents.len() ==> JsonView::Object((#[trigger] documents[i]).0).is_finite()
}

/// Documents are always finite.
pub proof fn law_documents_finite(documents: Seq<(Object, String)>)
    ensures
        documents_finite(documents_view(documents)),
{
    assert forall|i: int| 0 <= i < documents.len() implies JsonView::Object(
        (#[trigger] documents_view(documents)[i]).0,
    ).is_finite() by {
        law_object_finite(documents[i].0);
    }
}

/// The schemas that a document declares.
pub open spec fn schemas_of(json: Map<Seq<char>, JsonView>, path: Seq<char>) -> Result<
    Map<Seq<char>, JsonView>,
    ErrorView,
> {
    if !json.contains_key("components"@) {
        Err(Problem::NoComponents { path })
    } else {
        match json["components"@] {
            JsonView::Object(components) => if !components.contains_key("schemas"@) {
                Err(Problem::NoSchemas { path })
            } else {
                match components["schemas"@] {
                    JsonView::Object(schemas) => Ok(schemas),
                    _ => Err(Problem::SchemasNotObject { path }),
                }
            },
            _ => Err(Problem::ComponentsNotObject { path }),
        }
    }
}

/// The schemas of the file at `path` as components.
pub open spec fn filed(schemas: Map<Seq<char>, JsonView>, path: Seq<char>) -> Components {
    Map::new(
        |key: Seq<char>| path.is_prefix_of(key) && schemas.contains_key(key.skip(path.len() as int)),
        |key: Seq<char>| (path, schemas[key.skip(path.len() as int)]),
    )
}

/// The name of a schema is already the key of a component: of one that was known before, or of one
/// that comes before it in the same file.
pub open spec fn is_taken(
    known: Components,
    schemas: Map<Seq<char>, JsonView>,
    path: Seq<char>,
    name: Seq<char>,
) -> bool {
    &&& schemas.contains_key(name)
    &&& known.contains_key(name) || exists|other: Seq<char>| #[trigger]
        schemas.contains_key(other) && precedes(other, name) && path + other == name
}

/// The names of schemas that are already the keys of components.
pub open spec fn taken(
    known: Components,
    schemas: Map<Seq<char>, JsonView>,
    path: Seq<char>,
) -> spec_fn(Seq<char>) -> bool {
    |name: Seq<char>| is_taken(known, schemas, path, name)
}

/// The components that are known once a document has been added to those known before. A component
/// takes the place of one with the same key.
pub open spec fn with_document(known: Components, document: Document) -> Result<Components, ErrorView> {
    let (json, path) = document;
    match schemas_of(json, path) {
        Err(problem) => Err(problem),
        Ok(schemas) => match least(taken(known, schemas, path)) {
            Some(name) => Err(Problem::DuplicateComponent { path, name }),
            None => Ok(known.union_prefer_right(filed(schemas, path))),
        },
    }
}

/// The components that the documents declare.
pub open spec fn loaded(documents: Seq<Document>) -> Result<Components, ErrorView>
    decreases documents.len(),
{
    if documents.len() == 0 {
        Ok(Map::empty())
    } else {
        match loaded(documents.drop_last()) {
            Err(problem) => Err(problem),
            Ok(known) => with_document(known, documents.last()),
        }
    }
}

/// What finite documents declare is finite.
pub proof fn law_loaded_finite(documents: Seq<Document>)
    requires
        documents_finite(documents),
        loaded(documents) is Ok,
    ensures
        are_finite(loaded(documents)->Ok_0),
    decreases documents.len(),
{
    if documents.len() > 0 {
        let before = documents.drop_last();
        let (json, path) = documents.last();
        assert forall|i: int| 0 <= i < before.len() implies JsonView::Object(
            (#[trigger] before[i]).0,
        ).is_finite() by {
            assert(before[i] == documents[i]);
        }
        law_loaded_finite(before);
        let whole = JsonView::Object(json);
        assert(whole->Object_0 == json);
        assert(documents[documents.len() - 1] == documents.last());
        assert(whole.is_finite());
        assert(json["components"@].is_finite());
        assert(json["components"@]->Object_0["schemas"@].is_finite());
        let schemas = schemas_of(json, path)->Ok_0;
        assert(schemas.dom().finite());
        let added = filed(schemas, path);
        let keys = schemas.dom().map(|name: Seq<char>| path + name);
        schemas.dom().lemma_map_finite(|name: Seq<char>| path + name);
        assert forall|key: Seq<char>| #[trigger] added.contains_key(key) implies keys.contains(key)
            && added[key].1.is_finite() by {
            let name = key.skip(path.len() as int);
            assert(schemas.contains_key(name));
            assert(path + name =~= key);
        }
        vstd::set_lib::lemma_len_subset(added.dom(), keys);
        let known = loaded(before)->Ok_0;
        let all = loaded(documents)->Ok_0;
        assert(all.dom() =~= known.dom().union(added.dom()));
        assert forall|key: Seq<char>| #[trigger] all.contains_key(key) implies all[key].1.is_finite() by {
            if !added.contains_key(key) {
                assert(known.contains_key(key));
            }
        }
    }
}

/// Once a document cannot be added, no later one changes that.
proof fn lemma_loaded_prefix(documents: Seq<Document>, count: int)
    requires
        0 <= count <= documents.len(),
        loaded(documents.take(count)) is Err,
    ensures
        loaded(documents) == loaded(documents.take(count)),
    decreases documents.len(),
{
    if count < documents.len() {
        assert(documents.drop_last().take(count) == documents.take(count));
        lemma_loaded_prefix(documents.drop_last(), count);
    } else {
        assert(documents.take(count) == documents);
    }
}

/// The schemas of a document.
fn find_schemas<'a>(json: &'a Object, path: &str) -> (found: Result<&'a Object, Error>)
    ensures
        match found {
            Ok(schemas) => schemas_of(json@, path@) == Ok::<Map<Seq<char>, JsonView>, ErrorView>(schemas@),
            Err(problem) => schemas_of(json@, path@) == Err::<Map<Seq<char>, JsonView>, ErrorView>(problem@),
        },
{
    match json.get("components") {
        None => Err(Problem::NoComponents { path: path.to_owned() }),
        Some(Json::Object(components)) => match components.get("schemas") {
            None => Err(Problem::NoSchemas { path: path.to_owned() }),
            Some(Json::Object(schemas)) => Ok(schemas),
            Some(_) => Err(Problem::SchemasNotObject { path: path.to_owned() }),
        },
        Some(_) => Err(Problem::ComponentsNotObject { path: path.to_owned() }),
    }
}

/// The components that the first `names` of a file add.
spec fn filed_names(schemas: Map<Seq<char>, JsonView>, path: Seq<char>, names: Seq<Seq<char>>) -> Components {
    filed(schemas.restrict(names.to_set()), path)
}

/// Adds the components that a document declares.
fn add_document(ref_map: &mut RefMap, json: &Object, path: &str) -> (result: Result<(), Error>)
    ensures
        match result {
            Ok(()) => with_document(old(ref_map)@, (json@, path@)) == Ok::<Components, ErrorView>(
                final(ref_map)@,
            ),
            Err(problem) => with_document(old(ref_map)@, (json@, path@)) == Err::<Components, ErrorView>(
                problem@,
            ),
        },
{
    let schemas = match find_schemas(json, path) {
        Ok(schemas) => schemas,
        Err(problem) => {
            return Err(problem);
        },
    };
    let ghost known = ref_map@;
    let names = schemas.keys();
    let ghost order = texts(names@);
    assert(known.union_prefer_right(filed_names(schemas@, path@, order.take(0))) =~= known);
    for i in 0..names.len()
        invariant
            known == old(ref_map)@,
            schemas_of(json@, path@) == Ok::<Map<Seq<char>, JsonView>, ErrorView>(schemas@),
            order == texts(names@),
            ascending(order),
            order.to_set() == schemas@.dom(),
            ref_map@ == known.union_prefer_right(filed_names(schemas@, path@, order.take(i as int))),
            forall|j: int| 0 <= j < i ==> !is_taken(known, schemas@, path@, #[trigger] order[j]),
    {
        let ghost name = order[i as int];
        assert(name == names@[i as int]@);
        assert(order.to_set().contains(name));
        proof {
            lemma_taken(known, schemas@, path@, order, i as int);
        }
        if ref_map.get(names[i].as_str()).is_some() {
            proof {
                lemma_first(taken(known, schemas@, path@), order, i as int);
            }
            return Err(Problem::DuplicateComponent { path: path.to_owned(), name: names[i].clone() });
        }
        if let Some(value) = schemas.get(names[i].as_str()) {
            let mut key = path.to_owned();
            key.append(names[i].as_str());
            ref_map.insert(key, Component { file: path.to_owned(), value: value.clone() });
        }
    }
    proof {
        assert(order.take(order.len() as int) == order);
        assert(schemas@.restrict(order.to_set()) =~= schemas@);
        lemma_none(taken(known, schemas@, path@), order);
    }
    Ok(())
}

/// When the schemas are added in order, a name is found among the keys exactly if it is taken, and
/// otherwise adds one key.
proof fn lemma_taken(
    known: Components,
    schemas: Map<Seq<char>, JsonView>,
    path: Seq<char>,
    order: Seq<Seq<char>>,
    i: int,
)
    requires
        ascending(order),
        order.to_set() == schemas.dom(),
        0 <= i < order.len(),
    ensures
        known.union_prefer_right(filed_names(schemas, path, order.take(i))).contains_key(order[i]) == is_taken(
            known,
            schemas,
            path,
            order[i],
        ),
        known.union_prefer_right(filed_names(schemas, path, order.take(i + 1))) == known.union_prefer_right(
            filed_names(schemas, path, order.take(i)),
        ).insert(path + order[i], (path, schemas[order[i]])),
{
    let before = order.take(i);
    let after = order.take(i + 1);
    let name = order[i];
    assert(order.to_set().contains(name));
    lemma_next(order, i);
    lemma_visited(order, i);
    let small = filed_names(schemas, path, before);
    let large = filed_names(schemas, path, after);
    let key = path + name;
    assert(key.skip(path.len() as int) == name);
    if small.contains_key(name) {
        let other = name.skip(path.len() as int);
        assert(path + other == name);
        assert(before.contains(other));
    }
    if exists|other: Seq<char>| #[trigger] schemas.contains_key(other) && precedes(other, name) && path + other == name {
        let other = choose|other: Seq<char>| #[trigger]
            schemas.contains_key(other) && precedes(other, name) && path + other == name;
        assert(name.skip(path.len() as int) == other);
        assert(before.contains(other));
        assert(small.contains_key(name));
    }
    assert forall|k: Seq<char>| #[trigger] large.contains_key(k) <==> small.contains_key(k) || k == key by {
        if path.is_prefix_of(k) {
            assert(k == path + k.skip(path.len() as int));
        }
        assert(path.is_prefix_of(key));
    }
    assert(large =~= small.insert(key, (path, schemas[name])));
    assert(known.union_prefer_right(large) =~= known.union_prefer_right(small).insert(
        key,
        (path, schemas[name]),
    ));
}

/// Collects the components that the documents declare.
pub fn ref_load(documents: &Vec<(Object, String)>) -> (result: Result<RefMap, Error>)
    ensures
        match result {
            Ok(ref_map) => loaded(documents_view(documents@)) == Ok::<Components, ErrorView>(ref_map@),
            Err(problem) => loaded(documents_view(documents@)) == Err::<Components, ErrorView>(problem@),
        },
{
    let ghost views = documents_view(documents@);
    let mut ref_map = RefMap::new();
    for i in 0..documents.len()
        invariant
            views == documents_view(documents@),
            loaded(views.take(i as int)) == Ok::<Components, ErrorView>(ref_map@),
    {
        let ghost after = views.take(i + 1);
        assert(after.drop_last() == views.take(i as int));
        assert(after.last() == (documents@[i as int].0@, documents@[i as int].1@));
        match add_document(&mut ref_map, &documents[i].0, documents[i].1.as_str()) {
            Ok(()) => {},
            Err(problem) => {
                proof {
                    lemma_loaded_prefix(views, i + 1);
                }
                return Err(problem);
            },
        }
    }
    assert(views.take(views.len() as int) == views);
    Ok(ref_map)
}

/// The component at `key` is the schema `name` of a document.
pub open spec fn declares(document: Document, name: Seq<char>, key: Seq<char>) -> bool {
    &&& schemas_of(document.0, document.1) is Ok
    &&& schemas_of(document.0, document.1)->Ok_0.contains_key(name)
    &&& key == document.1 + name
}

/// The component that a document declares under `name`.
pub open spec fn declared(document: Document, name: Seq<char>) -> (Seq<char>, JsonView) {
    (document.1, schemas_of(document.0, document.1)->Ok_0[name])
}

/// Every component that is known once the documents are loaded is declared by one of them, and is
/// kept as it is declared there, with the path of that document.
pub proof fn law_loaded_are_declared(documents: Seq<Document>, key: Seq<char>) -> (found: (int, Seq<char>))
    requires
        loaded(documents) is Ok,
        loaded(documents)->Ok_0.contains_key(key),
    ensures
        0 <= found.0 < documents.len(),
        declares(documents[found.0], found.1, key),
        loaded(documents)->Ok_0[key] == declared(documents[found.0], found.1),
    decreases documents.len(),
{
    let last = documents.last();
    let schemas = schemas_of(last.0, last.1)->Ok_0;
    if filed(schemas, last.1).contains_key(key) {
        let name = key.skip(last.1.len() as int);
        assert(key == last.1 + name);
        (documents.len() - 1, name)
    } else {
        law_loaded_are_declared(documents.drop_last(), key)
    }
}

/// Every component that a document declares is known once the documents are loaded; and unless a
/// later document declares one with the same key, it is kept as it is declared.
pub proof fn law_declared_are_loaded(documents: Seq<Document>, i: int, name: Seq<char>)
    requires
        loaded(documents) is Ok,
        0 <= i < documents.len(),
        declares(documents[i], name, documents[i].1 + name),
    ensures
        loaded(documents)->Ok_0.contains_key(documents[i].1 + name),
        (forall|j: int, other: Seq<char>|
            i < j < documents.len() ==> !#[trigger] declares(documents[j], other, documents[i].1 + name))
            ==> loaded(documents)->Ok_0[documents[i].1 + name] == declared(documents[i], name),
    decreases documents.len(),
{
    let last = documents.last();
    let schemas = schemas_of(last.0, last.1)->Ok_0;
    let key = documents[i].1 + name;
    let before = documents.drop_last();
    if i < documents.len() - 1 {
        assert(before[i] == documents[i]);
        law_declared_are_loaded(before, i, name);
        if forall|j: int, other: Seq<char>|
            i < j < documents.len() ==> !#[trigger] declares(documents[j], other, key) {
            assert forall|j: int, other: Seq<char>| i < j < before.len() implies !#[trigger] declares(
                before[j],
                other,
                key,
            ) by {
                assert(!declares(documents[j], other, key));
            }
            if filed(schemas, last.1).contains_key(key) {
                let other = key.skip(last.1.len() as int);
                assert(key == last.1 + other);
                assert(declares(documents[documents.len() - 1], other, key));
            }
        }
    } else {
        assert(key.skip(last.1.len() as int) == name);
        assert(last.1.is_prefix_of(key));
    }
}

/// A document stands for its members and the path of its file, in its place among the documents; and
/// a component for its file and its value.
pub proof fn law_document_views(documents: Seq<(Object, String)>, component: Component)
    ensures
        documents_view(documents).len() == documents.len(),
        forall|i: int|
            0 <= i < documents.len() ==> (#[trigger] documents_view(documents)[i]) == (
                documents[i].0@,
                documents[i].1@,
            ),
        component@ == (component.file@, component.value@),
{
}

/// What stands in the way of a document decides, once the documents before it are loaded: that it has
/// no `components`, or none that are an object, or no `schemas` in them, or none that are an object.
pub proof fn law_load_refused(documents: Seq<Document>, i: int)
    requires
        0 <= i < documents.len(),
        loaded(documents.take(i)) is Ok,
    ensures
        !documents[i].0.contains_key("components"@) ==> loaded(documents) == Err::<Components, ErrorView>(
            Problem::NoComponents { path: documents[i].1 },
        ),
        documents[i].0.contains_key("components"@) ==> {
            let components = documents[i].0["components"@];
            &&& !(components is Object) ==> loaded(documents) == Err::<Components, ErrorView>(
                Problem::ComponentsNotObject { path: documents[i].1 },
            )
            &&& components is Object && !components->Object_0.contains_key("schemas"@) ==> loaded(documents)
                == Err::<Components, ErrorView>(Problem::NoSchemas { path: documents[i].1 })
            &&& components is Object && components->Object_0.contains_key("schemas"@)
                && !(components->Object_0["schemas"@] is Object) ==> loaded(documents) == Err::<
                Components,
                ErrorView,
            >(Problem::SchemasNotObject { path: documents[i].1 })
        },
{
    let after = documents.take(i + 1);
    assert(after.drop_last() == documents.take(i));
    assert(after.last() == documents[i]);
    if loaded(after) is Err {
        lemma_loaded_prefix(documents, i + 1);
    }
}

/// A name that is already the key of a component decides, once the documents before are loaded and
/// where no name before it in the same document is: of a component of those documents, or of one that
/// comes before it in the same document.
pub proof fn law_load_duplicate(
    documents: Seq<Document>,
    i: int,
    schemas: Map<Seq<char>, JsonView>,
    name: Seq<char>,
)
    requires
        0 <= i < documents.len(),
        loaded(documents.take(i)) is Ok,
        documents[i].0.contains_key("components"@),
        documents[i].0["components"@] is Object,
        documents[i].0["components"@]->Object_0.contains_key("schemas"@),
        documents[i].0["components"@]->Object_0["schemas"@] == JsonView::Object(schemas),
        schemas.contains_key(name),
        loaded(documents.take(i))->Ok_0.contains_key(name) || exists|other: Seq<char>| #[trigger]
            schemas.contains_key(other) && precedes(other, name) && documents[i].1 + other == name,
        forall|earlier: Seq<char>| #[trigger]
            schemas.contains_key(earlier) && precedes(earlier, name) ==> !loaded(
                documents.take(i),
            )->Ok_0.contains_key(earlier),
        forall|earlier: Seq<char>, other: Seq<char>| #[trigger]
            schemas.contains_key(earlier) && precedes(earlier, name) && #[trigger] schemas.contains_key(other)
                && precedes(other, earlier) ==> documents[i].1 + other != earlier,
    ensures
        loaded(documents) == Err::<Components, ErrorView>(
            Problem::DuplicateComponent { path: documents[i].1, name },
        ),
{
    let after = documents.take(i + 1);
    assert(after.drop_last() == documents.take(i));
    assert(after.last() == documents[i]);
    let known = loaded(documents.take(i))->Ok_0;
    let p = taken(known, schemas, documents[i].1);
    assert(p(name));
    assert forall|other: Seq<char>| #[trigger] p(other) implies other == name || precedes(name, other) by {
        lemma_precedes_total(name, other);
        assert(schemas.contains_key(other));
    }
    lemma_least(p, name);
    lemma_loaded_prefix(documents, i + 1);
}

/// Any number of documents is loaded, where each has an object at `components` with an object at
/// `schemas`, and no name of a schema is already the key of a component that is collected before it.
/// Then the components are the schemas of all the documents, each at the path of its document followed
/// by its name, with that path; of two with the same key, the one of the later document.
pub proof fn law_load(documents: Seq<Document>, schemas: Seq<Map<Seq<char>, JsonView>>)
    requires
        schemas.len() == documents.len(),
        forall|i: int| #![trigger documents[i]] #![trigger schemas[i]]
            0 <= i < documents.len() ==> {
                &&& documents[i].0.contains_key("components"@)
                &&& documents[i].0["components"@] is Object
                &&& documents[i].0["components"@]->Object_0.contains_key("schemas"@)
                &&& documents[i].0["components"@]->Object_0["schemas"@] == JsonView::Object(schemas[i])
            },
        forall|i: int, j: int, name: Seq<char>, other: Seq<char>|
            0 <= j < i < documents.len() && #[trigger] schemas[i].contains_key(name)
                && #[trigger] schemas[j].contains_key(other) ==> documents[j].1 + other != name,
        forall|i: int, name: Seq<char>, other: Seq<char>|
            0 <= i < documents.len() && #[trigger] schemas[i].contains_key(name)
                && #[trigger] schemas[i].contains_key(other) && precedes(other, name) ==> documents[i].1 + other
                != name,
    ensures
        loaded(documents) is Ok,
        forall|key: Seq<char>| #[trigger]
            loaded(documents)->Ok_0.contains_key(key) <==> exists|i: int, name: Seq<char>|
                0 <= i < documents.len() && #[trigger] schemas[i].contains_key(name) && key == documents[i].1
                    + name,
        forall|i: int, name: Seq<char>|
            0 <= i < documents.len() && #[trigger] schemas[i].contains_key(name) && (forall|j: int, other: Seq<char>|
                i < j < documents.len() && #[trigger] schemas[j].contains_key(other) ==> documents[j].1 + other
                    != documents[i].1 + name) ==> loaded(documents)->Ok_0[documents[i].1 + name] == (
                documents[i].1,
                schemas[i][name],
            ),
    decreases documents.len(),
{
    if documents.len() > 0 {
        let before = documents.drop_last();
        let earlier = schemas.drop_last();
        let last = documents.len() - 1;
        let (json, path) = documents.last();
        let mine = schemas.last();
        assert(documents[last] == documents.last() && schemas[last] == mine);
        assert forall|i: int| #![trigger before[i]] #![trigger earlier[i]] 0 <= i < before.len() implies {
            &&& before[i].0.contains_key("components"@)
            &&& before[i].0["components"@] is Object
            &&& before[i].0["components"@]->Object_0.contains_key("schemas"@)
            &&& before[i].0["components"@]->Object_0["schemas"@] == JsonView::Object(earlier[i])
        } by {
            assert(before[i] == documents[i] && earlier[i] == schemas[i]);
        }
        assert forall|i: int, j: int, name: Seq<char>, other: Seq<char>|
            0 <= j < i < before.len() && #[trigger] earlier[i].contains_key(name)
                && #[trigger] earlier[j].contains_key(other) implies before[j].1 + other != name by {
            assert(schemas[i].contains_key(name) && schemas[j].contains_key(other));
        }
        assert forall|i: int, name: Seq<char>, other: Seq<char>|
            0 <= i < before.len() && #[trigger] earlier[i].contains_key(name)
                && #[trigger] earlier[i].contains_key(other) && precedes(other, name) implies before[i].1 + other
            != name by {
            assert(schemas[i].contains_key(name) && schemas[i].contains_key(other));
        }
        law_load(before, earlier);
        let known = loaded(before)->Ok_0;
        let p = taken(known, mine, path);
        assert forall|name: Seq<char>| !is_least(p, name) by {
            if p(name) {
                assert(schemas[last].contains_key(name));
                if known.contains_key(name) {
                    let (j, other) = choose|j: int, other: Seq<char>|
                        0 <= j < before.len() && #[trigger] earlier[j].contains_key(other) && name == before[j].1
                            + other;
                    assert(schemas[j].contains_key(other));
                } else {
                    let other = choose|other: Seq<char>| #[trigger]
                        mine.contains_key(other) && precedes(other, name) && path + other == name;
                    assert(schemas[last].contains_key(other));
                }
            }
        }
        let added = filed(mine, path);
        let all = loaded(documents)->Ok_0;
        assert(all == known.union_prefer_right(added));
        assert forall|name: Seq<char>| mine.contains_key(name) implies #[trigger] added.contains_key(path + name)
            && added[path + name] == (path, mine[name]) by {
            assert((path + name).skip(path.len() as int) =~= name);
            assert(path.is_prefix_of(path + name));
        }
        assert forall|key: Seq<char>| #[trigger] added.contains_key(key) implies key == path + key.skip(
            path.len() as int,
        ) by {
        }
        assert forall|key: Seq<char>| #[trigger] all.contains_key(key) <==> exists|i: int, name: Seq<char>|
            0 <= i < documents.len() && #[trigger] schemas[i].contains_key(name) && key == documents[i].1 + name by {
            if all.contains_key(key) {
                if added.contains_key(key) {
                    assert(schemas[last].contains_key(key.skip(path.len() as int)));
                } else {
                    let (j, other) = choose|j: int, other: Seq<char>|
                        0 <= j < before.len() && #[trigger] earlier[j].contains_key(other) && key == before[j].1
                            + other;
                    assert(schemas[j].contains_key(other));
                }
            }
            if exists|i: int, name: Seq<char>|
                0 <= i < documents.len() && #[trigger] schemas[i].contains_key(name) && key == documents[i].1
                    + name {
                let (i, name) = choose|i: int, name: Seq<char>|
                    0 <= i < documents.len() && #[trigger] schemas[i].contains_key(name) && key == documents[i].1
                        + name;
                if i == last {
                    assert(added.contains_key(path + name));
                } else {
                    assert(earlier[i].contains_key(name) && key == before[i].1 + name);
                    assert(known.contains_key(key));
                }
            }
        }
        assert forall|i: int, name: Seq<char>|
            0 <= i < documents.len() && #[trigger] schemas[i].contains_key(name) && (forall|j: int, other: Seq<char>|
                i < j < documents.len() && #[trigger] schemas[j].contains_key(other) ==> documents[j].1 + other
                    != documents[i].1 + name) implies all[documents[i].1 + name] == (
            documents[i].1,
            schemas[i][name],
        ) by {
            let key = documents[i].1 + name;
            if i == last {
                assert(added.contains_key(path + name));
            } else {
                assert(earlier[i].contains_key(name) && before[i] == documents[i]);
                assert forall|j: int, other: Seq<char>|
                    i < j < before.len() && #[trigger] earlier[j].contains_key(other) implies before[j].1 + other
                    != before[i].1 + name by {
                    assert(schemas[j].contains_key(other));
                }
                if added.contains_key(key) {
                    assert(schemas[last].contains_key(key.skip(path.len() as int)));
                }
                assert(known.contains_key(key));
            }
        }
    }
}

} // verus!
