//! JSON values and the merge that combines them.
use vstd::prelude::*;

use crate::order::Comparison;
use crate::parse::compare_str;

verus! {

/// The mathematical model of a JSON value.
pub enum JsonView {
    Null,
    Bool(bool),
    Number(Seq<char>),
    Text(Seq<char>),
    Array(Seq<JsonView>),
    Object(Map<Seq<char>, JsonView>),
}

/// A JSON value. A number is held as its text.
#[derive(Debug)]
pub enum Json {
    Null,
    Bool(bool),
    Number(String),
    Text(String),
    Array(Vec<Json>),
    Object(JsonObject),
}

/// The members of a JSON object. No key occurs twice.
#[derive(Debug)]
pub struct JsonObject {
    entries: Vec<(String, Json)>,
}

/// No key of `entries` occurs twice.
spec fn distinct_keys(entries: Seq<(String, Json)>) -> bool {
    forall|i: int, j: int|
        0 <= i < j < entries.len() ==> (#[trigger] entries[i]).0@ != (#[trigger] entries[j]).0@
}

impl View for Json {
    type V = JsonView;

    open spec fn view(&self) -> JsonView {
        json_view(*self)
    }
}

impl View for JsonObject {
    type V = Map<Seq<char>, JsonView>;

    open spec fn view(&self) -> Map<Seq<char>, JsonView> {
        self.members()
    }
}

impl JsonObject {
    /// The members by key.
    pub closed spec fn members(self) -> Map<Seq<char>, JsonView>
        decreases self,
    {
        fields_view(self.entries@)
    }
}

/// The model of a JSON value.
pub open spec fn json_view(json: Json) -> JsonView
    decreases json,
{
    match json {
        Json::Null => JsonView::Null,
        Json::Bool(value) => JsonView::Bool(value),
        Json::Number(text) => JsonView::Number(text@),
        Json::Text(text) => JsonView::Text(text@),
        Json::Array(items) => JsonView::Array(
            Seq::new(
                items@.len(),
                |i: int|
                    if 0 <= i < items@.len() {
                        json_view(items@[i])
                    } else {
                        JsonView::Null
                    },
            ),
        ),
        Json::Object(object) => JsonView::Object(object.members()),
    }
}

/// The model of the members of an object.
spec fn fields_view(entries: Seq<(String, Json)>) -> Map<Seq<char>, JsonView>
    decreases entries,
{
    if entries.len() == 0 {
        Map::empty()
    } else {
        fields_view(entries.subrange(0, entries.len() - 1)).insert(
            entries[entries.len() - 1].0@,
            json_view(entries[entries.len() - 1].1),
        )
    }
}

/// The members of a value: those of an object, and none of any other value.
pub open spec fn fields_of(json: JsonView) -> Map<Seq<char>, JsonView> {
    match json {
        JsonView::Object(fields) => fields,
        _ => Map::empty(),
    }
}

/// `target` after `source` was merged into it: null leaves it as it is, an object is merged into it
/// member by member, passing over null members, and any other value replaces it.
pub open spec fn merged(source: JsonView, target: JsonView) -> JsonView
    decreases source,
{
    match source {
        JsonView::Null => target,
        JsonView::Object(fields) => JsonView::Object(
            Map::new(
                |key: Seq<char>|
                    fields_of(target).contains_key(key) || (fields.contains_key(key)
                        && fields[key] !is Null),
                |key: Seq<char>|
                    if !fields.contains_key(key) || fields[key] is Null {
                        fields_of(target)[key]
                    } else if fields_of(target).contains_key(key) {
                        merged(fields[key], fields_of(target)[key])
                    } else {
                        fields[key]
                    },
            ),
        ),
        _ => source,
    }
}

/// The values merged one after the other into null.
pub open spec fn merge_all(values: Seq<JsonView>) -> JsonView
    decreases values.len(),
{
    if values.len() == 0 {
        JsonView::Null
    } else {
        merged(values.last(), merge_all(values.drop_last()))
    }
}

/// The members of `target` after those of `source` were merged into them.
pub open spec fn merged_fields(
    source: Map<Seq<char>, JsonView>,
    target: Map<Seq<char>, JsonView>,
) -> Map<Seq<char>, JsonView> {
    fields_of(merged(JsonView::Object(source), JsonView::Object(target)))
}

/// Merging an object depends on the members of the target alone.
proof fn lemma_merged_object(source: Map<Seq<char>, JsonView>, target: JsonView)
    ensures
        merged(JsonView::Object(source), target) == JsonView::Object(
            merged_fields(source, fields_of(target)),
        ),
{
    assert(fields_of(merged(JsonView::Object(source), target)) =~= merged_fields(
        source,
        fields_of(target),
    ));
}

/// One more member is merged on its own.
proof fn lemma_merged_insert(
    source: Map<Seq<char>, JsonView>,
    target: Map<Seq<char>, JsonView>,
    key: Seq<char>,
    value: JsonView,
)
    requires
        !source.contains_key(key),
    ensures
        merged_fields(source.insert(key, value), target) == ({
            let fields = merged_fields(source, target);
            if value is Null {
                fields
            } else if fields.contains_key(key) {
                fields.insert(key, merged(value, fields[key]))
            } else {
                fields.insert(key, value)
            }
        }),
{
    let fields = merged_fields(source, target);
    let result = if value is Null {
        fields
    } else if fields.contains_key(key) {
        fields.insert(key, merged(value, fields[key]))
    } else {
        fields.insert(key, value)
    };
    assert(merged_fields(source.insert(key, value), target) =~= result);
}

/// The keys of the model are those of the entries, and distinct keys have the values of their
/// entries.
proof fn lemma_fields_view(entries: Seq<(String, Json)>)
    ensures
        forall|i: int| 0 <= i < entries.len() ==> fields_view(entries).contains_key((#[trigger] entries[i]).0@),
        forall|key: Seq<char>| #[trigger]
            fields_view(entries).contains_key(key) ==> exists|i: int|
                0 <= i < entries.len() && (#[trigger] entries[i]).0@ == key,
        distinct_keys(entries) ==> forall|i: int|
            0 <= i < entries.len() ==> fields_view(entries)[(#[trigger] entries[i]).0@] == json_view(
                entries[i].1,
            ),
    decreases entries.len(),
{
    if entries.len() > 0 {
        let rest = entries.subrange(0, entries.len() - 1);
        lemma_fields_view(rest);
        assert forall|i: int| 0 <= i < entries.len() implies fields_view(entries).contains_key(
            (#[trigger] entries[i]).0@,
        ) by {
            if i < entries.len() - 1 {
                assert(rest[i] == entries[i]);
            }
        }
        assert forall|key: Seq<char>| #[trigger] fields_view(entries).contains_key(key) implies exists|
            i: int,
        | 0 <= i < entries.len() && (#[trigger] entries[i]).0@ == key by {
            if key == entries[entries.len() - 1].0@ {
                assert(entries[entries.len() - 1].0@ == key);
            } else {
                let i = choose|i: int| 0 <= i < rest.len() && (#[trigger] rest[i]).0@ == key;
                assert(entries[i].0@ == key);
            }
        }
        if distinct_keys(entries) {
            assert forall|i: int, j: int| 0 <= i < j < rest.len() implies (#[trigger] rest[i]).0@ != (
            #[trigger] rest[j]).0@ by {
                assert(entries[i].0@ != entries[j].0@);
            }
            assert forall|i: int| 0 <= i < entries.len() implies fields_view(entries)[(
            #[trigger] entries[i]).0@] == json_view(entries[i].1) by {
                if i < entries.len() - 1 {
                    assert(rest[i] == entries[i]);
                    assert(entries[i].0@ != entries[entries.len() - 1].0@);
                }
            }
        }
    }
}

impl JsonObject {
    #[verifier::type_invariant]
    spec fn inv(self) -> bool {
        distinct_keys(self.entries@)
    }

    /// The object without members.
    pub fn new() -> (object: Self)
        ensures
            object@ == Map::<Seq<char>, JsonView>::empty(),
    {
        JsonObject { entries: Vec::new() }
    }

    /// The members with their keys.
    pub fn into_entries(self) -> (entries: Vec<(String, Json)>)
        ensures
            forall|i: int, j: int|
                0 <= i < j < entries.len() ==> (#[trigger] entries[i]).0@ != (#[trigger] entries[j]).0@,
            forall|key: Seq<char>| #[trigger]
                self@.contains_key(key) <==> exists|i: int|
                    0 <= i < entries.len() && (#[trigger] entries[i]).0@ == key,
            forall|i: int|
                0 <= i < entries.len() ==> self@[(#[trigger] entries[i]).0@] == entries[i].1@,
    {
        proof {
            use_type_invariant(&self);
            lemma_fields_view(self.entries@);
        }
        self.entries
    }

    /// The position of the member `key`.
    fn position(&self, key: &str) -> (position: Option<usize>)
        ensures
            match position {
                Some(i) => i < self.entries@.len() && self.entries@[i as int].0@ == key@,
                None => forall|i: int| 0 <= i < self.entries@.len() ==> (#[trigger] self.entries@[i]).0@ != key@,
            },
    {
        let mut i: usize = 0;
        while i < self.entries.len()
            invariant
                i <= self.entries.len(),
                forall|j: int| 0 <= j < i ==> (#[trigger] self.entries@[j]).0@ != key@,
            decreases self.entries.len() - i,
        {
            match compare_str(self.entries[i].0.as_str(), key) {
                Comparison::Equal => {
                    return Some(i);
                },
                _ => {},
            }
            i = i + 1;
        }
        None
    }

    /// Sets the member `key` to `value`.
    pub fn insert(&mut self, key: String, value: Json)
        ensures
            final(self)@ == old(self)@.insert(key@, value@),
    {
        proof {
            use_type_invariant(&*self);
        }
        let ghost before = self.entries@;
        let found = self.position(key.as_str());
        let mut entries: Vec<(String, Json)> = Vec::new();
        std::mem::swap(&mut self.entries, &mut entries);
        match found {
            Some(i) => {
                entries[i] = (key, value);
                proof {
                    lemma_replaced(before, entries@, i as int);
                }
            },
            None => {
                entries.push((key, value));
                assert(entries@.subrange(0, entries@.len() - 1) =~= before);
            },
        }
        self.entries = entries;
    }
}

/// Replacing the value of one entry changes that member only.
proof fn lemma_replaced(before: Seq<(String, Json)>, after: Seq<(String, Json)>, i: int)
    requires
        distinct_keys(before),
        0 <= i < before.len(),
        after == before.update(i, after[i]),
        after[i].0@ == before[i].0@,
    ensures
        distinct_keys(after),
        fields_view(after) == fields_view(before).insert(after[i].0@, json_view(after[i].1)),
{
    assert forall|j: int, k: int| 0 <= j < k < after.len() implies (#[trigger] after[j]).0@ != (
    #[trigger] after[k]).0@ by {
        assert(before[j].0@ != before[k].0@);
    }
    lemma_fields_view(before);
    lemma_fields_view(after);
    let expected = fields_view(before).insert(after[i].0@, json_view(after[i].1));
    assert forall|key: Seq<char>|
        #![trigger fields_view(after).contains_key(key)]
        #![trigger expected.contains_key(key)]
        fields_view(after).contains_key(key) == expected.contains_key(key) by {
        if fields_view(after).contains_key(key) {
            let j = choose|j: int| 0 <= j < after.len() && (#[trigger] after[j]).0@ == key;
            assert(before[j].0@ == key);
        }
        if fields_view(before).contains_key(key) {
            let j = choose|j: int| 0 <= j < before.len() && (#[trigger] before[j]).0@ == key;
            assert(after[j].0@ == key);
        }
    }
    assert forall|key: Seq<char>| #[trigger] fields_view(after).contains_key(key) implies fields_view(after)[key]
        == expected[key] by {
        let j = choose|j: int| 0 <= j < after.len() && (#[trigger] after[j]).0@ == key;
        assert(before[j].0@ == key);
        if j != i {
            assert(before[j] == after[j]);
            if j < i {
                assert(after[j].0@ != after[i].0@);
            } else {
                assert(after[i].0@ != after[j].0@);
            }
        }
    }
    assert(fields_view(after) =~= expected);
}

impl JsonObject {
    /// Merges `value` into the member `key`, or adds it where there is no such member.
    fn merge_member(&mut self, key: String, value: Json)
        ensures
            final(self)@ == old(self)@.insert(
                key@,
                (if old(self)@.contains_key(key@) {
                    merged(value@, old(self)@[key@])
                } else {
                    value@
                }),
            ),
        decreases value, 1int,
    {
        proof {
            use_type_invariant(&*self);
            lemma_fields_view(self.entries@);
        }
        let ghost before = self.entries@;
        let found = self.position(key.as_str());
        let mut entries: Vec<(String, Json)> = Vec::new();
        std::mem::swap(&mut self.entries, &mut entries);
        match found {
            Some(i) => {
                let mut member = Json::Null;
                std::mem::swap(&mut entries[i].1, &mut member);
                merge_non_null_json_value_into(value, &mut member);
                entries[i] = (key, member);
                proof {
                    assert(before[i as int].0@ == key@);
                    assert(entries@ =~= before.update(i as int, entries@[i as int]));
                    lemma_replaced(before, entries@, i as int);
                }
            },
            None => {
                entries.push((key, value));
                assert(entries@.subrange(0, entries@.len() - 1) =~= before);
            },
        }
        self.entries = entries;
    }
}

/// Merges `source` into `target`. Null values in `source` leave what `target` has in their place.
pub fn merge_non_null_json_value_into(source: Json, target: &mut Json)
    ensures
        final(target)@ == merged(source@, old(target)@),
    decreases source, 0int,
{
    match source {
        Json::Object(source_object) => {
            proof {
                use_type_invariant(&source_object);
            }
            let mut previous = Json::Null;
            std::mem::swap(target, &mut previous);
            let mut target_object = match previous {
                Json::Object(object) => object,
                _ => JsonObject::new(),
            };
            let ghost fields = target_object@;
            let ghost entries = source_object.entries@;
            proof {
                assert(source@ == JsonView::Object(source_object.members()));
                assert(source_object.members() == fields_view(entries));
                assert(fields == fields_of(old(target)@));
                assert(entries.take(0) =~= Seq::empty());
                assert(merged_fields(Map::empty(), fields) =~= fields);
            }
            for entry in iter: source_object.entries
                invariant
                    iter.seq() == entries,
                    distinct_keys(entries),
                    decreases_to!(source => entries),
                    target_object@ == merged_fields(fields_view(entries.take(iter.index())), fields),
            {
                let ghost i = iter.index();
                let (key, value) = entry;
                proof {
                    assert(entries.take(i + 1).subrange(0, i) =~= entries.take(i));
                    lemma_fields_view(entries.take(i));
                    if fields_view(entries.take(i)).contains_key(key@) {
                        let j = choose|j: int| 0 <= j < i && (#[trigger] entries.take(i)[j]).0@ == key@;
                        assert(entries[j].0@ != entries[i].0@);
                    }
                    lemma_merged_insert(fields_view(entries.take(i)), fields, key@, value@);
                }
                match value {
                    Json::Null => {},
                    _ => target_object.merge_member(key, value),
                }
            }
            assert(entries.take(entries.len() as int) =~= entries);
            *target = Json::Object(target_object);
            proof {
                lemma_merged_object(fields_view(entries), old(target)@);
                assert(target@ == JsonView::Object(target_object.members()));
            }
        },
        Json::Null => {},
        other => {
            *target = other;
        },
    }
}

} // verus!
