//! What merging JSON values, ordering and paths mean, member by member and element by element.
use vstd::prelude::*;
use vstd::utf8::encode_utf8;

use crate::json::{merge_all, merge_non_null_json_value_into, merged, Json, JsonView};
use crate::order::Comparison;
use crate::order::{byte_order, bytes_less, bytes_order, lemma_bytes_order, lex_less};
use crate::order::{lemma_lex_order, splits_at, strict_total_order};
use crate::parse::str_less;
use crate::path::{component_less, component_order, lemma_component_order};
use crate::path::{path_less, ComponentView, PathComponent, PathView, SettingsPath};
use crate::path_map::PathMap;
use crate::setting::{decodes, encoded, encodes, loaded_via_json_merge};
use crate::setting::{try_load_via_json_merge, JsonCodec, Setting};

verus! {

/// The model of a JSON value tells every value from every other: its kind, its text or truth, its
/// items in order, and its members.
pub proof fn law_json_models(json: Json)
    ensures
        json is Null <==> json@ is Null,
        json matches Json::Bool(value) ==> json@ == JsonView::Bool(value),
        json matches Json::Number(text) ==> json@ == JsonView::Number(text@),
        json matches Json::Text(text) ==> json@ == JsonView::Text(text@),
        json matches Json::Object(object) ==> json@ == JsonView::Object(object@),
        json matches Json::Array(items) ==> {
            &&& json@ is Array && json@->Array_0.len() == items@.len()
            &&& forall|i: int| 0 <= i < items@.len() ==> json@->Array_0[i] == (#[trigger] items@[i])@
        },
{
}

/// Merging null changes nothing, and a value that is neither null nor an object replaces the target.
/// An object is merged member by member, each on its own: a member that is null or not there leaves
/// that of the target, one that the target has is merged into it, and any other is taken as it is.
/// A target that is no object counts as one without members.
pub proof fn law_members_are_merged_on_their_own(source: JsonView, target: JsonView, key: Seq<char>)
    ensures
        source is Null ==> merged(source, target) == target,
        source !is Null && source !is Object ==> merged(source, target) == source,
        source matches JsonView::Object(fields) ==> {
            &&& merged(source, target) is Object
            &&& {
                let result = merged(source, target)->Object_0;
                let given = fields.contains_key(key) && fields[key] !is Null;
                let there = target is Object && target->Object_0.contains_key(key);
                &&& result.contains_key(key) <==> given || there
                &&& given && there ==> result[key] == merged(fields[key], target->Object_0[key])
                &&& given && !there ==> result[key] == fields[key]
                &&& !given && there ==> result[key] == target->Object_0[key]
            }
        },
{
}

/// The value at the end of a chain of member names, if the chain leads to one.
pub open spec fn member_at(json: JsonView, keys: Seq<Seq<char>>) -> Option<JsonView>
    decreases keys.len(),
{
    if keys.len() == 0 {
        Some(json)
    } else {
        match json {
            JsonView::Object(fields) => if fields.contains_key(keys[0]) {
                member_at(fields[keys[0]], keys.skip(1))
            } else {
                None
            },
            _ => None,
        }
    }
}

/// Whatever the source gives, at any depth, is in the merged value: a value that is neither null nor
/// an object wins over anything that the target has in its place.
pub proof fn law_source_values_win(source: JsonView, target: JsonView, keys: Seq<Seq<char>>)
    requires
        member_at(source, keys) matches Some(value) && value !is Null && value !is Object,
    ensures
        member_at(merged(source, target), keys) == member_at(source, keys),
    decreases keys.len(),
{
    if keys.len() > 0 {
        let fields = source->Object_0;
        let member = fields[keys[0]];
        law_members_are_merged_on_their_own(source, target, keys[0]);
        if member is Null {
            assert(keys.skip(1).len() == 0 || member_at(member, keys.skip(1)) is None);
        }
        if target is Object && target->Object_0.contains_key(keys[0]) {
            law_source_values_win(member, target->Object_0[keys[0]], keys.skip(1));
        }
    }
}

/// Whatever the target has, at any depth, stays in the merged value, where the source has nothing or
/// null in its place, and nothing but objects on the way to it.
pub proof fn law_target_values_stay(source: JsonView, target: JsonView, keys: Seq<Seq<char>>)
    requires
        member_at(target, keys) is Some,
        member_at(source, keys) matches Some(value) ==> value is Null,
        forall|n: int|
            0 <= n < keys.len() ==> (member_at(source, #[trigger] keys.take(n)) matches Some(value)
                ==> value is Null || value is Object),
    ensures
        member_at(merged(source, target), keys) == member_at(target, keys),
    decreases keys.len(),
{
    assert(keys.take(0) =~= Seq::empty());
    law_members_are_merged_on_their_own(source, target, keys[0]);
    if keys.len() > 0 {
        assert(member_at(source, keys.take(0)) == Some(source));
        if source is Object && source->Object_0.contains_key(keys[0]) {
            let member = source->Object_0[keys[0]];
            let rest = keys.skip(1);
            assert forall|n: int| 0 <= n < rest.len() implies (member_at(
                member,
                #[trigger] rest.take(n),
            ) matches Some(value) ==> value is Null || value is Object) by {
                assert(keys.take(n + 1).skip(1) =~= rest.take(n));
                assert(keys.take(n + 1)[0] == keys[0]);
                assert(member_at(source, keys.take(n + 1)) == member_at(member, rest.take(n)));
            }
            if member !is Null {
                law_target_values_stay(member, target->Object_0[keys[0]], rest);
            }
        }
    }
}

/// Merging one value into another changes the target to the merged value.
pub proof fn law_merging_changes_the_target(source: Json, target: &mut Json)
    requires
        call_ensures(merge_non_null_json_value_into, (source, target), ()),
    ensures
        final(target)@ == merged(source@, old(target)@),
        source is Null ==> final(target)@ == old(target)@,
        source@ !is Null && source@ !is Object ==> final(target)@ == source@,
        source@ is Object ==> final(target)@ is Object,
{
}

/// What was loaded through the JSON merge was read from the value that comes of merging what the
/// codec wrote for the default content and for every user content, each over the ones before it.
pub proof fn law_merge_loads_every_content<Content, Value, K: JsonCodec<Content, Value>>(
    codec: &K,
    default_value: &Content,
    user_values: &[&Content],
    result: Result<Value, String>,
)
    requires
        call_ensures(
            try_load_via_json_merge::<Content, Value, K>,
            (codec, default_value, user_values),
            result,
        ),
    ensures
        exists|jsons: Seq<Json>, merges: Seq<JsonView>, read: Json| {
            &&& #[trigger] jsons.len() == user_values@.len() + 1
            &&& #[trigger] merges.len() == jsons.len()
            &&& call_ensures(K::to_json, (codec, default_value), jsons[0])
            &&& merges[0] == merged(jsons[0]@, JsonView::Null)
            &&& forall|i: int|
                0 < i < jsons.len() ==> {
                    &&& call_ensures(K::to_json, (codec, user_values@[i - 1]), #[trigger] jsons[i])
                    &&& merges[i] == merged(jsons[i]@, merges[i - 1])
                }
            &&& read@ == merges[merges.len() - 1]
            &&& #[trigger] call_ensures(K::from_json, (codec, read), result)
        },
{
    lemma_merge_steps::<Content, Value, K>(codec, default_value, user_values, result);
}

/// What a setting loads through the JSON merge was read from the value that comes of merging what it
/// wrote for the default content and for every user content, each over the ones before it.
pub proof fn law_setting_merges_every_content<S: Setting + JsonCodec<S::FileContent, S::Value>>(
    setting: &S,
    default_value: &S::FileContent,
    user_values: &[&S::FileContent],
    value: S::Value,
)
    requires
        call_ensures(S::load_via_json_merge, (setting, default_value, user_values), value),
    ensures
        exists|jsons: Seq<Json>, merges: Seq<JsonView>, read: Json| {
            &&& #[trigger] jsons.len() == user_values@.len() + 1
            &&& #[trigger] merges.len() == jsons.len()
            &&& call_ensures(S::to_json, (setting, default_value), jsons[0])
            &&& merges[0] == merged(jsons[0]@, JsonView::Null)
            &&& forall|i: int|
                0 < i < jsons.len() ==> {
                    &&& call_ensures(S::to_json, (setting, user_values@[i - 1]), #[trigger] jsons[i])
                    &&& merges[i] == merged(jsons[i]@, merges[i - 1])
                }
            &&& read@ == merges[merges.len() - 1]
            &&& #[trigger] call_ensures(S::from_json, (setting, read), Ok::<S::Value, String>(value))
        },
{
    lemma_merge_steps::<S::FileContent, S::Value, S>(setting, default_value, user_values, Ok(value));
}

/// The steps of the JSON merge.
proof fn lemma_merge_steps<Content, Value, K: JsonCodec<Content, Value>>(
    codec: &K,
    default_value: &Content,
    user_values: &[&Content],
    result: Result<Value, String>,
)
    requires
        loaded_via_json_merge::<Content, Value, K>(
            *codec,
            *default_value,
            user_values@.unref(),
            result,
        ),
    ensures
        exists|jsons: Seq<Json>, merges: Seq<JsonView>, read: Json| {
            &&& #[trigger] jsons.len() == user_values@.len() + 1
            &&& #[trigger] merges.len() == jsons.len()
            &&& call_ensures(K::to_json, (codec, default_value), jsons[0])
            &&& merges[0] == merged(jsons[0]@, JsonView::Null)
            &&& forall|i: int|
                0 < i < jsons.len() ==> {
                    &&& call_ensures(K::to_json, (codec, user_values@[i - 1]), #[trigger] jsons[i])
                    &&& merges[i] == merged(jsons[i]@, merges[i - 1])
                }
            &&& read@ == merges[merges.len() - 1]
            &&& #[trigger] call_ensures(K::from_json, (codec, read), result)
        },
{
    let contents = seq![*default_value] + user_values@.unref();
    let views = choose|views: Seq<JsonView>|
        #[trigger] encoded::<Content, Value, K>(*codec, contents, views) && decodes::<Content, Value, K>(
            *codec,
            merge_all(views),
            result,
        );
    let read = choose|read: Json|
        read@ == merge_all(views) && #[trigger] call_ensures(K::from_json, (codec, read), result);
    assert(user_values@.unref().len() == user_values@.len());
    let jsons = Seq::new(
        views.len(),
        |i: int|
            choose|written: Json|
                written@ == views[i] && #[trigger] call_ensures(
                    K::to_json,
                    (codec, &contents[i]),
                    written,
                ),
    );
    let merges = Seq::new(views.len(), |i: int| merge_all(views.take(i + 1)));
    assert forall|i: int| 0 <= i < jsons.len() implies {
        &&& jsons[i]@ == views[i]
        &&& call_ensures(K::to_json, (codec, &contents[i]), #[trigger] jsons[i])
    } by {
        assert(encodes::<Content, Value, K>(*codec, contents[i], views[i]));
    }
    assert(views.take(1).drop_last() =~= Seq::empty());
    assert(merge_all(views.take(1).drop_last()) is Null);
    assert(merges[0] == merged(jsons[0]@, JsonView::Null));
    assert forall|i: int| 0 < i < jsons.len() implies {
        &&& call_ensures(K::to_json, (codec, user_values@[i - 1]), #[trigger] jsons[i])
        &&& merges[i] == merged(jsons[i]@, merges[i - 1])
    } by {
        assert(contents[i] == *user_values@[i - 1]);
        assert(views.take(i + 1).drop_last() =~= views.take(i));
        assert(views.take(i + 1).last() == views[i]);
    }
    assert(views.take(views.len() as int) =~= views);
    assert(jsons.len() == user_values@.len() + 1 && merges.len() == jsons.len());
}

/// Over a strict total order of elements, sequences are ordered by the first element in which they
/// differ, and a sequence comes before every longer one that begins with it.
proof fn lemma_first_difference<T>(
    less: spec_fn(T, T) -> bool,
    common: Seq<T>,
    x: T,
    xs: Seq<T>,
    y: T,
    ys: Seq<T>,
)
    requires
        strict_total_order(less),
        x != y,
    ensures
        lex_less(less, common.push(x) + xs, common.push(y) + ys) <==> less(x, y),
        lex_less(less, common, common.push(x) + xs),
        !lex_less(less, common.push(x) + xs, common),
        !lex_less(less, common, common),
{
    let a = common.push(x) + xs;
    let b = common.push(y) + ys;
    let lex = |a: Seq<T>, b: Seq<T>| lex_less(less, a, b);
    lemma_lex_order(less);
    assert(strict_total_order(lex));
    let n = common.len() as int;
    assert(a[n] == x && b[n] == y);
    assert(forall|j: int| 0 <= j < n ==> a[j] == common[j] && b[j] == common[j]);
    assert(splits_at(less, common, a, n));
    assert(lex(common, a));
    assert(!lex(common, common));
    assert(lex(common, a) && lex(a, common) ==> lex(common, common));
    if less(x, y) {
        assert(splits_at(less, a, b, n));
    } else {
        assert(less(y, x));
        assert(splits_at(less, b, a, n));
        assert(lex(b, a));
        assert(lex(a, b) && lex(b, a) ==> lex(a, a));
        assert(!lex(a, a));
    }
}

/// Byte strings are ordered by the first byte in which they differ, and one comes before every
/// longer one that begins with it. Strings are ordered as the bytes of their UTF-8 encoding.
pub proof fn law_strings_are_ordered_by_bytes(
    common: Seq<u8>,
    x: u8,
    xs: Seq<u8>,
    y: u8,
    ys: Seq<u8>,
    s: Seq<char>,
    t: Seq<char>,
)
    requires
        x != y,
    ensures
        bytes_less(common.push(x) + xs, common.push(y) + ys) <==> x < y,
        bytes_less(common, common.push(x) + xs),
        !bytes_less(common.push(x) + xs, common),
        !bytes_less(common, common),
        str_less(s, t) <==> bytes_less(encode_utf8(s), encode_utf8(t)),
{
    assert(strict_total_order(byte_order()));
    lemma_first_difference(byte_order(), common, x, xs, y, ys);
}

/// Components are ordered by kind: prefixes before the root directory, then the current and the
/// parent directory, then names. Components of one kind are ordered by the first name in which they
/// differ.
pub proof fn law_components_are_ordered_by_kind(
    a: ComponentView,
    b: ComponentView,
    common: Seq<Seq<u8>>,
    x: Seq<u8>,
    xs: Seq<Seq<u8>>,
    y: Seq<u8>,
    ys: Seq<Seq<u8>>,
)
    requires
        x != y,
    ensures
        a.kind is Verbatim && b.kind !is Verbatim ==> component_less(a, b),
        a.kind is VerbatimUnc && b.kind !is Verbatim && b.kind !is VerbatimUnc ==> component_less(a, b),
        a.kind is VerbatimDisk && (b.kind is DeviceNs || b.kind is Unc || b.kind is Disk) ==> component_less(
            a,
            b,
        ),
        a.kind is DeviceNs && (b.kind is Unc || b.kind is Disk) ==> component_less(a, b),
        a.kind is Unc && b.kind is Disk ==> component_less(a, b),
        b.kind is RootDir && (a.kind is VerbatimDisk || a.kind is DeviceNs || a.kind is Unc
            || a.kind is Disk) ==> component_less(a, b),
        b.kind is CurDir && (a.kind is VerbatimDisk || a.kind is DeviceNs || a.kind is Unc
            || a.kind is Disk || a.kind is RootDir) ==> component_less(a, b),
        b.kind is ParentDir && a.kind !is ParentDir && a.kind !is Normal ==> component_less(a, b),
        b.kind is Normal && a.kind !is Normal ==> component_less(a, b),
        component_less(a, b) ==> !component_less(b, a),
        a.kind == b.kind && a.names == common.push(x) + xs && b.names == common.push(y) + ys ==> (
        component_less(a, b) <==> bytes_less(x, y)),
        a.kind == b.kind && a.names == common && b.names == common.push(y) + ys ==> component_less(a, b),
{
    lemma_bytes_order();
    lemma_first_difference(bytes_order(), common, x, xs, y, ys);
    lemma_first_difference(bytes_order(), common, y, ys, x, xs);
    lemma_component_order();
    let less = component_order();
    assert(less(a, b) == component_less(a, b) && less(b, a) == component_less(b, a));
    assert(!less(a, a));
    assert(less(a, b) && less(b, a) ==> less(a, a));
}

/// Paths are ordered by the first component in which they differ, and a directory comes before
/// everything inside it.
pub proof fn law_paths_are_ordered_by_component(
    common: PathView,
    x: ComponentView,
    xs: PathView,
    y: ComponentView,
    ys: PathView,
)
    requires
        x != y,
    ensures
        path_less(common.push(x) + xs, common.push(y) + ys) <==> component_less(x, y),
        path_less(common, common.push(x) + xs),
        !path_less(common.push(x) + xs, common),
        !path_less(common, common),
{
    lemma_component_order();
    lemma_first_difference(component_order(), common, x, xs, y, ys);
}

/// Comparing two paths tells which one comes first.
pub proof fn law_comparing_paths(a: &SettingsPath, b: &SettingsPath, result: Comparison)
    requires
        call_ensures(SettingsPath::compare, (a, b), result),
    ensures
        result is Equal <==> a@ == b@,
        result is Greater <==> path_less(b@, a@),
        result is Less ==> path_less(a@, b@),
{
}

/// A path starts with another exactly where it is that path followed by more components.
pub proof fn law_starting_with(path: &SettingsPath, base: &SettingsPath, result: bool)
    requires
        call_ensures(SettingsPath::starts_with, (path, base), result),
    ensures
        result <==> exists|rest: PathView| path@ == #[trigger] (base@ + rest),
{
    if result {
        let rest = path@.skip(base@.len() as int);
        assert(path@ =~= base@ + rest);
    }
    if exists|rest: PathView| path@ == #[trigger] (base@ + rest) {
        let rest = choose|rest: PathView| path@ == #[trigger] (base@ + rest);
        assert((base@ + rest).take(base@.len() as int) =~= base@);
    }
}

/// A map by path hands out its paths in ascending order, each with the value that it has for it, and
/// it hands out every path that it has.
pub proof fn law_path_map_is_in_order<T>(
    map: &PathMap<T>,
    len: usize,
    i: usize,
    j: usize,
    a: &SettingsPath,
    b: &SettingsPath,
    value: &T,
    path: PathView,
)
    requires
        map.wf(),
        call_ensures(PathMap::<T>::len, (map,), len),
        i < j < len,
        call_ensures(PathMap::<T>::path_at, (map, i), a),
        call_ensures(PathMap::<T>::path_at, (map, j), b),
        call_ensures(PathMap::<T>::value_at, (map, i), value),
    ensures
        path_less(a@, b@),
        map@.contains_key(a@) && map@[a@] == *value,
        map@.contains_key(path) <==> exists|k: int| 0 <= k < len && #[trigger] map.paths()[k] == path,
{
    map.lemma_paths();
    if map@.contains_key(path) {
        assert(map.paths().contains(path));
    }
    if exists|k: int| 0 <= k < len && #[trigger] map.paths()[k] == path {
        assert(map.paths().contains(path));
    }
    assert(map@.contains_key(map.paths()[i as int]));
}

/// The model of a path has the kind and the names of every component.
pub proof fn law_path_models(components: Vec<PathComponent>, path: SettingsPath, i: int, j: int)
    requires
        call_ensures(SettingsPath::new, (components,), path),
        0 <= i < components@.len(),
    ensures
        path@.len() == components@.len(),
        path@[i].kind == components@[i].kind,
        path@[i].names.len() == components@[i].names@.len(),
        0 <= j < components@[i].names@.len() ==> path@[i].names[j] == components@[i].names@[j]@,
{
}

} // verus!
