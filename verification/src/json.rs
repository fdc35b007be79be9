//! JSON values, and the objects among them.

use vstd::prelude::*;
use crate::order::ascending;

verus! {

/// `serde_json::Map`; of what it holds, only what `map_slots` names is known.
#[verifier::external_type_specification]
#[verifier::external_body]
#[verifier::reject_recursive_types(K)]
#[verifier::reject_recursive_types(V)]
pub struct ExMap<K, V>(serde_json::Map<K, V>);

/// `serde_json::Value`, which occurs here only as what a `serde_json::Map` stores.
#[verifier::external_type_specification]
#[verifier::external_body]
pub struct ExValue(serde_json::Value);

/// `serde_json::Number`, which is carried through and never looked into.
#[verifier::external_type_specification]
#[verifier::external_body]
pub struct ExNumber(serde_json::Number);

/// What a `serde_json::Map` holds: each of its keys, with the number stored there if it is an
/// integer that `u64` can hold, and with `None` for any other value.
pub uninterp spec fn map_slots(map: serde_json::Map<String, serde_json::Value>) -> Map<Seq<char>, Option<u64>>;

/// `serde_json::Map::new` makes a map without entries.
#[verifier::external_body]
fn map_new() -> (made: serde_json::Map<String, serde_json::Value>)
    ensures
        map_slots(made).dom() == Set::<Seq<char>>::empty(),
{
    serde_json::Map::new()
}

/// `serde_json::Map::get` finds what is stored at `key`, or `None` where nothing is.
#[verifier::external_body]
fn map_get(map: &serde_json::Map<String, serde_json::Value>, key: &str) -> (slot: Option<Option<u64>>)
    ensures
        slot == (if map_slots(*map).contains_key(key@) {
            Some(map_slots(*map)[key@])
        } else {
            None
        }),
{
    map.get(key).map(|value| value.as_u64())
}

/// `serde_json::Map::insert` stores the integer `slot` at `key`, in place of what was there.
#[verifier::external_body]
fn map_insert(map: &mut serde_json::Map<String, serde_json::Value>, key: String, slot: u64)
    ensures
        map_slots(*final(map)) == map_slots(*old(map)).insert(key@, Some(slot)),
{
    map.insert(key, serde_json::Value::from(slot));
}

/// `serde_json::Map::keys` walks the keys of the map, each once. The map is a `BTreeMap` of strings
/// (the feature `preserve_order` is off), so the keys come in the order of strings.
#[verifier::external_body]
fn map_keys(map: &serde_json::Map<String, serde_json::Value>) -> (keys: Vec<String>)
    ensures
        ascending(texts(keys@)),
        texts(keys@).to_set() == map_slots(*map).dom(),
{
    map.keys().cloned().collect()
}

/// `serde_json::Map::clone` makes a map with the same entries.
#[verifier::external_body]
fn map_clone(map: &serde_json::Map<String, serde_json::Value>) -> (copy: serde_json::Map<
    String,
    serde_json::Value,
>)
    ensures
        map_slots(copy) == map_slots(*map),
{
    map.clone()
}

/// `serde_json::Number::clone` gives the same number.
pub assume_specification[ <serde_json::Number as Clone>::clone ](
    number: &serde_json::Number,
) -> (copy: serde_json::Number)
    ensures
        copy == *number,
;

/// The characters of each string.
pub open spec fn texts(strings: Seq<String>) -> Seq<Seq<char>> {
    Seq::new(strings.len(), |i: int| strings[i]@)
}

/// A JSON value as a mathematical value: strings are sequences of characters, and an object is a
/// map.
pub enum JsonView {
    Null,
    Bool(bool),
    Number(serde_json::Number),
    String(Seq<char>),
    Array(Seq<JsonView>),
    Object(Map<Seq<char>, JsonView>),
}

impl JsonView {
    /// Every object in the value, however deep inside objects and arrays, has finitely many members.
    pub open spec fn is_finite(self) -> bool
        decreases self,
    {
        match self {
            JsonView::Object(object) => {
                &&& object.dom().finite()
                &&& forall|key: Seq<char>| #[trigger]
                    object.contains_key(key) ==> {
                        proof {
                            assert(decreases_to!(self => self->Object_0[key]));
                        }
                        object[key].is_finite()
                    }
            },
            JsonView::Array(items) => forall|i: int|
                0 <= i < items.len() ==> {
                    proof {
                        assert(decreases_to!(self => self->Array_0[i]));
                    }
                    (#[trigger] items[i]).is_finite()
                },
            _ => true,
        }
    }
}

/// A JSON value.
#[derive(Debug)]
pub enum Json {
    Null,
    Bool(bool),
    Number(serde_json::Number),
    String(String),
    Array(Vec<Json>),
    Object(Object),
}

/// A JSON object. Its members stand in a vector, in no particular order; `slots` finds a member's
/// place there by its key, and gives the order in which the keys are visited.
#[derive(Debug)]
pub struct Object {
    slots: serde_json::Map<String, serde_json::Value>,
    members: Vec<Json>,
}

impl Json {
    /// The mathematical value.
    pub open spec fn model(self) -> JsonView
        decreases self,
    {
        match self {
            Json::Null => JsonView::Null,
            Json::Bool(b) => JsonView::Bool(b),
            Json::Number(n) => JsonView::Number(n),
            Json::String(s) => JsonView::String(s@),
            Json::Array(items) => JsonView::Array(
                Seq::new(
                    items@.len(),
                    |i: int|
                        if 0 <= i < items@.len() {
                            items@[i].model()
                        } else {
                            JsonView::Null
                        },
                ),
            ),
            Json::Object(object) => JsonView::Object(object.model()),
        }
    }
}

impl Object {
    /// The members by their keys. (What is asked of the slots besides the key, `inv` says of every
    /// object.)
    pub closed spec fn model(self) -> Map<Seq<char>, JsonView>
        decreases self,
    {
        Map::new(
            |key: Seq<char>|
                map_slots(self.slots).dom().finite() && map_slots(self.slots).contains_key(key)
                    && map_slots(self.slots)[key] is Some && map_slots(self.slots)[key]->0
                    < self.members@.len(),
            |key: Seq<char>|
                if map_slots(self.slots)[key] is Some && map_slots(self.slots)[key]->0 < self.members@.len() {
                    self.members@[map_slots(self.slots)[key]->0 as int].model()
                } else {
                    JsonView::Null
                },
        )
    }
}

impl View for Json {
    type V = JsonView;

    open spec fn view(&self) -> JsonView {
        self.model()
    }
}

impl View for Object {
    type V = Map<Seq<char>, JsonView>;

    open spec fn view(&self) -> Map<Seq<char>, JsonView> {
        self.model()
    }
}

impl Object {
    /// There are finitely many keys, and every key has a member of its own.
    #[verifier::type_invariant]
    spec fn inv(self) -> bool {
        let slots = map_slots(self.slots);
        &&& slots.dom().finite()
        &&& forall|key: Seq<char>| #[trigger]
            slots.contains_key(key) ==> slots[key] is Some && slots[key]->0 < self.members@.len()
        &&& forall|a: Seq<char>, b: Seq<char>|
            #![trigger slots.contains_key(a), slots.contains_key(b)]
            slots.contains_key(a) && slots.contains_key(b) && slots[a] == slots[b] ==> a == b
    }

    /// An object without members.
    pub fn new() -> (object: Object)
        ensures
            object@ == Map::<Seq<char>, JsonView>::empty(),
    {
        let object = Object { slots: map_new(), members: Vec::new() };
        assert(object@ =~= Map::<Seq<char>, JsonView>::empty());
        object
    }

    /// The member at `key`.
    pub fn get(&self, key: &str) -> (member: Option<&Json>)
        ensures
            match member {
                Some(value) => self@.contains_key(key@) && value@ == self@[key@],
                None => !self@.contains_key(key@),
            },
    {
        proof {
            use_type_invariant(self);
        }
        match map_get(&self.slots, key) {
            Some(Some(slot)) => {
                assert(slot < self.members.len());
                Some(&self.members[slot as usize])
            },
            _ => None,
        }
    }

    /// Stores `value` at `key`, in place of the member that was there, and says whether there was
    /// one.
    pub fn insert(&mut self, key: String, value: Json) -> (replaced: bool)
        ensures
            final(self)@ == old(self)@.insert(key@, value@),
            replaced == old(self)@.contains_key(key@),
    {
        proof {
            use_type_invariant(&*self);
        }
        let mut taken = Object::new();
        std::mem::swap(self, &mut taken);
        let Object { mut slots, mut members } = taken;
        match map_get(&slots, key.as_str()) {
            Some(Some(slot)) => {
                members.set(slot as usize, value);
                *self = Object { slots, members };
                assert(self@ =~= old(self)@.insert(key@, value@));
                true
            },
            _ => {
                let slot: u64 = members.len() as u64;
                members.push(value);
                map_insert(&mut slots, key, slot);
                *self = Object { slots, members };
                assert(self@ =~= old(self)@.insert(key@, value@));
                false
            },
        }
    }

    /// The keys, in the order in which members are visited.
    pub fn keys(&self) -> (keys: Vec<String>)
        ensures
            ascending(texts(keys@)),
            texts(keys@).to_set() == self@.dom(),
    {
        proof {
            use_type_invariant(self);
        }
        let keys = map_keys(&self.slots);
        assert(map_slots(self.slots).dom() =~= self@.dom());
        keys
    }
}

/// Every value is finite.
pub proof fn law_json_finite(json: Json)
    ensures
        json@.is_finite(),
    decreases json,
{
    match json {
        Json::Array(items) => {
            let whole = json@->Array_0;
            assert forall|i: int| 0 <= i < whole.len() implies (#[trigger] whole[i]).is_finite() by {
                law_json_finite(items@[i]);
            }
        },
        Json::Object(object) => {
            law_object_finite(object);
        },
        _ => {},
    }
}

/// Every object is finite.
pub proof fn law_object_finite(object: Object)
    ensures
        object@.dom().finite(),
        JsonView::Object(object@).is_finite(),
    decreases object,
{
    let slots = map_slots(object.slots);
    let whole = JsonView::Object(object@);
    if slots.dom().finite() {
        vstd::set_lib::lemma_len_subset(object@.dom(), slots.dom());
    } else {
        assert(object@.dom() =~= Set::empty());
    }
    assert(whole->Object_0 == object@);
    assert forall|key: Seq<char>| #[trigger] object@.contains_key(key) implies object@[key].is_finite() by {
        law_json_finite(object.members@[slots[key]->0 as int]);
    }
}

/// The values as specifications speak of them.
pub open spec fn values_view(values: Seq<Json>) -> Seq<JsonView> {
    Seq::new(values.len(), |i: int| values[i]@)
}

/// A copy of each of `items`.
fn clone_all(items: &Vec<Json>) -> (copies: Vec<Json>)
    ensures
        copies@.len() == items@.len(),
        forall|i: int| 0 <= i < items@.len() ==> (#[trigger] copies@[i])@ == items@[i]@,
    decreases items,
{
    let mut copies: Vec<Json> = Vec::new();
    for i in 0..items.len()
        invariant
            copies@.len() == i,
            forall|j: int| 0 <= j < i ==> (#[trigger] copies@[j])@ == items@[j]@,
    {
        let item = &items[i];
        copies.push(item.clone());
    }
    copies
}

impl Clone for Json {
    fn clone(&self) -> (copy: Json)
        ensures
            copy@ == self@,
        decreases self,
    {
        match self {
            Json::Null => Json::Null,
            Json::Bool(b) => Json::Bool(*b),
            Json::Number(n) => Json::Number(n.clone()),
            Json::String(s) => Json::String(s.clone()),
            Json::Array(items) => {
                let copy = Json::Array(clone_all(items));
                assert(copy@->Array_0 =~= self@->Array_0);
                copy
            },
            Json::Object(object) => Json::Object(object.clone()),
        }
    }
}

impl Clone for Object {
    fn clone(&self) -> (copy: Object)
        ensures
            copy@ == self@,
        decreases self,
    {
        proof {
            use_type_invariant(self);
        }
        let copy = Object { slots: map_clone(&self.slots), members: clone_all(&self.members) };
        assert(copy@ =~= self@);
        copy
    }
}

/// What a value stands for: each kind for itself, an array for its items in their order, and an
/// object for its members by their keys.
pub proof fn law_json_view(flag: bool, number: serde_json::Number, text: String, items: Vec<Json>, object: Object)
    ensures
        Json::Null@ == JsonView::Null,
        Json::Bool(flag)@ == JsonView::Bool(flag),
        Json::Number(number)@ == JsonView::Number(number),
        Json::String(text)@ == JsonView::String(text@),
        Json::Array(items)@ is Array,
        Json::Array(items)@->Array_0.len() == items@.len(),
        forall|i: int| 0 <= i < items@.len() ==> (#[trigger] Json::Array(items)@->Array_0[i]) == items@[i]@,
        Json::Object(object)@ == JsonView::Object(object@),
        values_view(items@).len() == items@.len(),
        forall|i: int| 0 <= i < items@.len() ==> (#[trigger] values_view(items@)[i]) == items@[i]@,
{
}

} // verus!
