//! What holds of several calls, and of the order in which they are made.
use vstd::prelude::*;

use crate::json::{fields_of, merge_all, merged, JsonView};
use crate::laws::{law_contents_decide_values, law_current_values_are_not_stale};
use crate::laws::{law_default_settings_update_values, law_local_settings_keep_values_current};
use crate::laws::{law_merge_twice, law_removed_local_settings_keep_values_current};
use crate::laws::{law_user_settings_keep_values_current, lemma_layers_other};
use crate::model::{customizes, Outcome, SettingsModel};
use crate::parse::json_object;
use crate::path::{path_starts_with, PathView};
use crate::setting::{decodes, encoded, encodes, fixed_name, loaded_via_json_merge, named};
use crate::setting::{pure_codec, pure_load, pure_read, JsonCodec, Setting};

verus! {

/// A call that sets a file.
pub enum Call {
    /// The default settings are set to a text.
    Default(Seq<char>),
    /// The user settings are set to a text.
    User(Seq<char>),
    /// The local settings of a directory are set to a text, or removed.
    Local(PathView, Option<Seq<char>>),
}

impl<S: Setting> SettingsModel<S> {
    /// This model and `other` differ at most in the order of the keys: they have the same settings
    /// with the same field names, the same contents and the same values.
    pub open spec fn alike(self, other: Self) -> bool {
        &&& self == SettingsModel { keys: self.keys, ..other }
        &&& forall|id: u64| #[trigger]
            self.settings.contains_key(id) ==> self.field_name(id) == other.field_name(id)
    }

    /// `after` is this model, and `outcome` what came of it, after `call`.
    pub open spec fn calls(self, call: Call, outcome: Outcome, after: Self) -> bool {
        match call {
            Call::Default(json) => self.sets_default(json, outcome, after),
            Call::User(json) => self.sets_user(json, outcome, after),
            Call::Local(path, content) => self.sets_local(path, content, outcome, after),
        }
    }

    /// `after` is this model, and `outcomes` what came of each call, after `calls` one by one.
    pub open spec fn history(self, calls: Seq<Call>, outcomes: Seq<Outcome>, after: Self) -> bool
        decreases calls.len(),
    {
        if calls.len() == 0 {
            outcomes.len() == 0 && after == self
        } else {
            outcomes.len() == calls.len() && exists|before: Self|
                self.history(calls.drop_last(), outcomes.drop_last(), before)
                    && #[trigger] before.calls(calls.last(), outcomes.last(), after)
        }
    }

    /// This is a new store after `settings` were registered one by one.
    pub open spec fn registered(self, settings: Seq<(u64, S)>) -> bool
        decreases settings.len(),
    {
        if settings.len() == 0 {
            self == (SettingsModel::<S> {
                keys: Seq::empty(),
                settings: Map::empty(),
                default_settings: Map::empty(),
                user_settings: None,
                local_settings: Map::empty(),
                global_values: Map::empty(),
                local_values: Map::empty(),
            })
        } else {
            let (type_id, setting) = settings.last();
            self.valid() && exists|before: Self|
                before.registered(settings.drop_last()) && !before.settings.contains_key(type_id)
                    && #[trigger] before.registers(type_id, setting, self)
        }
    }
}

/// The field name of a setting depends on the keys alone.
proof fn lemma_same_names<S: Setting>(a: SettingsModel<S>, b: SettingsModel<S>)
    requires
        a.keys_valid(),
        a.keys == b.keys,
        a.settings == b.settings,
    ensures
        b.keys_valid(),
        forall|id: u64| #[trigger] a.settings.contains_key(id) ==> a.field_name(id) == b.field_name(id),
{
    a.lemma_keys_valid(b);
    assert forall|id: u64| #[trigger] a.settings.contains_key(id) implies a.field_name(id)
        == b.field_name(id) by {
        let i = choose|i: int| 0 <= i < a.keys.len() && (#[trigger] a.keys[i]).1 == id;
        a.lemma_field_name(i);
        b.lemma_field_name(i);
    }
}

/// What the settings have from a file depends on the texts of their fields alone.
proof fn lemma_same_map<S: Setting>(
    a: SettingsModel<S>,
    b: SettingsModel<S>,
    json: Seq<char>,
    members: Map<Seq<char>, Seq<char>>,
    a_map: Map<u64, S::FileContent>,
    b_map: Map<u64, S::FileContent>,
)
    requires
        a.settings == b.settings,
        forall|id: u64| #[trigger] a.settings.contains_key(id) ==> a.field_name(id) == b.field_name(id),
        a.pure_reads(),
        a.is_setting_map(json, members, a_map),
        b.is_setting_map(json, members, b_map),
    ensures
        a_map == b_map,
{
    assert forall|id: u64| a_map.get(id) == b_map.get(id) by {
        if a.settings.contains_key(id) {
            assert(b.settings.contains_key(id));
            assert(pure_read(a.settings[id]));
        } else {
            assert(!a_map.dom().contains(id) && !b_map.dom().contains(id));
        }
    }
    lemma_same_entries(a_map, b_map);
}

/// Maps that give the same for every key are the same.
pub proof fn lemma_same_entries<K, V>(a: Map<K, V>, b: Map<K, V>)
    requires
        forall|key: K| a.get(key) == b.get(key),
    ensures
        a == b,
{
    assert forall|key: K| #[trigger] a.dom().contains(key) == #[trigger] b.dom().contains(key) by {
        assert(a.get(key) == b.get(key));
    }
    assert(a.dom() =~= b.dom());
    assert forall|key: K| #[trigger] a.dom().contains(key) implies a[key] == b[key] by {
        assert(a.get(key) == b.get(key));
    }
    assert(a =~= b);
}

/// Loading the same settings anew with the same contents gives the same values, where the values
/// that are left alone are the same.
pub proof fn lemma_same_values<S: Setting>(
    a: SettingsModel<S>,
    b: SettingsModel<S>,
    changed: Set<u64>,
    changed_path: Option<PathView>,
    a_after: SettingsModel<S>,
    b_after: SettingsModel<S>,
)
    requires
        a.same_contents(b),
        a.pure_loads(),
        a.local_values.dom() == a.settings.dom(),
        b.local_values.dom() == a.settings.dom(),
        a.recomputed(changed, changed_path, a_after),
        b.recomputed(changed, changed_path, b_after),
        forall|id: u64| #[trigger]
            a.settings.contains_key(id) && (changed_path is Some || !changed.contains(id))
                ==> a.global_values.get(id) == b.global_values.get(id),
        forall|id: u64, path: PathView|
            a.settings.contains_key(id) && !(changed.contains(id) && a.reloads(id, changed_path, path))
                ==> #[trigger] a.local_values[id].get(path) == b.local_values[id].get(path),
    ensures
        a_after.global_values == b_after.global_values,
        a_after.local_values == b_after.local_values,
{
    assert forall|id: u64| #[trigger] a.settings.contains_key(id) implies a_after.global_values.get(id)
        == b_after.global_values.get(id) && a_after.local_values[id] == b_after.local_values[id] by {
        assert(b.settings.contains_key(id));
        assert(pure_load(a.settings[id]));
        assert(a.user_layer(id) == b.user_layer(id));
        let x = a_after.local_values[id];
        let y = b_after.local_values[id];
        assert forall|path: PathView| x.get(path) == y.get(path) by {
            assert(a.reloads(id, changed_path, path) == b.reloads(id, changed_path, path));
            if changed.contains(id) && a.reloads(id, changed_path, path) {
                assert(a.user_values(id, Some(path)) == b.user_values(id, Some(path)));
            } else {
                assert(a.local_values[id].get(path) == b.local_values[id].get(path));
            }
        }
        lemma_same_entries(x, y);
    }
    assert forall|id: u64| a_after.global_values.get(id) == b_after.global_values.get(id) by {
        if !a.settings.contains_key(id) {
            assert(!a_after.global_values.dom().contains(id));
            assert(!b_after.global_values.dom().contains(id));
        }
    }
    lemma_same_entries(a_after.global_values, b_after.global_values);
    assert forall|id: u64| #[trigger] a_after.local_values.contains_key(id) implies a_after.local_values[id]
        == b_after.local_values[id] by {
        assert(a.settings.contains_key(id));
    }
    assert(a_after.local_values =~= b_after.local_values);
}

/// Loading anew a second time changes nothing, and concerns the same settings, where what each
/// setting loads is a function of the contents.
pub proof fn law_recomputing_again_changes_nothing<S: Setting>(
    before: SettingsModel<S>,
    user_settings_changed: bool,
    changed_path: Option<PathView>,
    old_types: Set<u64>,
    after: SettingsModel<S>,
    again: SettingsModel<S>,
)
    requires
        before.valid(),
        before.pure_loads(),
        before.recomputed(
            before.changed_types(user_settings_changed, changed_path, old_types),
            changed_path,
            after,
        ),
        after.recomputed(
            after.changed_types(user_settings_changed, changed_path, old_types),
            changed_path,
            again,
        ),
    ensures
        again == after,
        after.changed_types(user_settings_changed, changed_path, old_types) == before.changed_types(
            user_settings_changed,
            changed_path,
            old_types,
        ),
{
    let changed = before.changed_types(user_settings_changed, changed_path, old_types);
    assert forall|id: u64, path: PathView|
        before.settings.contains_key(id) && !(changed.contains(id) && before.reloads(id, changed_path, path))
        implies #[trigger] before.local_values[id].get(path) == after.local_values[id].get(path) by {
    }
    lemma_same_values(before, after, changed, changed_path, after, again);
}

/// The order of a file's members does not matter, and neither do members that belong to no setting:
/// where every setting has a field name, files that give each of those fields the same text, or both
/// none, are read alike.
pub proof fn law_only_registered_members_matter<S: Setting>(
    model: SettingsModel<S>,
    a: Seq<char>,
    b: Seq<char>,
    a_members: Map<Seq<char>, Seq<char>>,
    b_members: Map<Seq<char>, Seq<char>>,
    a_map: Map<u64, S::FileContent>,
    b_map: Map<u64, S::FileContent>,
)
    requires
        model.pure_reads(),
        json_object(a) == Some(a_members),
        json_object(b) == Some(b_members),
        forall|id: u64| #[trigger]
            model.settings.contains_key(id) ==> (model.field_name(id) matches Some(name)
                && a_members.get(name) == b_members.get(name)),
        model.is_setting_map(a, a_members, a_map),
        model.is_setting_map(b, b_members, b_map),
    ensures
        a_map == b_map,
{
    assert forall|id: u64| a_map.get(id) == b_map.get(id) by {
        if model.settings.contains_key(id) {
            assert(pure_read(model.settings[id]));
        } else {
            assert(!a_map.dom().contains(id) && !b_map.dom().contains(id));
        }
    }
    lemma_same_entries(a_map, b_map);
}

/// New default settings replace the ones before them: nothing of an earlier default settings file
/// survives a later one, whatever the store held, where what each setting reads and loads is a
/// function of the text and of the contents.
pub proof fn law_defaults_are_replaced<S: Setting>(
    before: SettingsModel<S>,
    first: Seq<char>,
    second: Seq<char>,
    between: SettingsModel<S>,
    after: SettingsModel<S>,
    second_alone: SettingsModel<S>,
)
    requires
        before.valid(),
        before.pure_reads(),
        before.pure_loads(),
        before.sets_default(first, Outcome::Done, between),
        between.sets_default(second, Outcome::Done, after),
        before.sets_default(second, Outcome::Done, second_alone),
    ensures
        after == second_alone,
{
    let members = json_object(second)->0;
    let settings = second_alone.default_settings;
    lemma_same_names(before, between);
    lemma_same_map(before, between, second, members, settings, after.default_settings);
    let a = SettingsModel { default_settings: settings, ..before };
    let b = SettingsModel { default_settings: settings, ..between };
    let first_model = SettingsModel { default_settings: between.default_settings, ..before };
    assert forall|id: u64, path: PathView|
        a.settings.contains_key(id) && !(a.settings.dom().contains(id) && a.reloads(id, None, path))
        implies #[trigger] a.local_values[id].get(path) == b.local_values[id].get(path) by {
        assert(first_model.settings.contains_key(id));
        assert(!first_model.reloads(id, None, path));
    }
    lemma_same_values(a, b, before.settings.dom(), None, second_alone, after);
}

/// A setting that was loaded with a file has default content.
proof fn lemma_user_types_have_defaults<S: Setting>(
    before: SettingsModel<S>,
    json: Seq<char>,
    after: SettingsModel<S>,
)
    requires
        before.valid(),
        before.sets_user(json, Outcome::Done, after),
    ensures
        after.user_types().union(before.user_types()).subset_of(before.default_settings.dom()),
{
    let changed = after.user_types().union(before.user_types());
    let model = SettingsModel { user_settings: after.user_settings, ..before };
    assert forall|id: u64| changed.contains(id) implies before.default_settings.dom().contains(id) by {
        assert(before.settings.dom().contains(id));
        assert(model.settings.contains_key(id));
    }
}

/// A new user settings file replaces the one before it: in a store that is up to date, nothing of an
/// earlier file survives a later one, where what each setting reads and loads is a function of the
/// text and of the contents.
pub proof fn law_user_settings_are_replaced<S: Setting>(
    before: SettingsModel<S>,
    first: Seq<char>,
    second: Seq<char>,
    between: SettingsModel<S>,
    after: SettingsModel<S>,
    second_alone: SettingsModel<S>,
)
    requires
        before.valid(),
        before.coherent(),
        before.pure_reads(),
        before.pure_loads(),
        between.valid(),
        after.valid(),
        second_alone.valid(),
        before.sets_user(first, Outcome::Done, between),
        between.sets_user(second, Outcome::Done, after),
        before.sets_user(second, Outcome::Done, second_alone),
    ensures
        after == second_alone,
{
    let members = json_object(second)->0;
    lemma_same_names(before, between);
    lemma_same_map(
        before,
        between,
        second,
        members,
        second_alone.user_settings->0,
        after.user_settings->0,
    );
    lemma_user_types_have_defaults(before, first, between);
    lemma_user_types_have_defaults(between, second, after);
    lemma_user_types_have_defaults(before, second, second_alone);
    law_user_settings_keep_values_current(before, between.user_settings->0, between);
    law_user_settings_keep_values_current(between, after.user_settings->0, after);
    law_user_settings_keep_values_current(before, second_alone.user_settings->0, second_alone);
    law_contents_decide_values(after, second_alone);
}

/// A second settings file for a directory replaces the first, where it has content for every setting
/// that the first has content for: it is not merged with it. What each setting reads and loads is a
/// function of the text and of the contents.
pub proof fn law_local_settings_are_replaced<S: Setting>(
    before: SettingsModel<S>,
    path: PathView,
    first: Seq<char>,
    second: Seq<char>,
    between: SettingsModel<S>,
    after: SettingsModel<S>,
    second_alone: SettingsModel<S>,
)
    requires
        before.valid(),
        before.pure_reads(),
        before.pure_loads(),
        before.sets_local(path, Some(first), Outcome::Done, between),
        between.sets_local(path, Some(second), Outcome::Done, after),
        before.sets_local(path, Some(second), Outcome::Done, second_alone),
        between.local_settings[path].dom().subset_of(second_alone.local_settings[path].dom()),
    ensures
        after == second_alone,
{
    let members = json_object(second)->0;
    let settings = second_alone.local_settings[path];
    lemma_same_names(before, between);
    lemma_same_map(before, between, second, members, settings, after.local_settings[path]);
    let local_settings = before.local_settings.insert(path, settings);
    let first_model = SettingsModel {
        local_settings: before.local_settings.insert(path, between.local_settings[path]),
        ..before
    };
    assert(between.local_settings.insert(path, settings) =~= local_settings);
    let a = SettingsModel { local_settings, ..before };
    let b = SettingsModel { local_settings, ..between };
    let changed = settings.dom();
    assert forall|id: u64, p: PathView|
        a.settings.contains_key(id) && !(changed.contains(id) && a.reloads(id, Some(path), p))
        implies #[trigger] a.local_values[id].get(p) == b.local_values[id].get(p) by {
        assert(first_model.settings.contains_key(id));
        if between.local_settings[path].dom().contains(id) {
            assert(changed.contains(id));
            assert(!first_model.reloads(id, Some(path), p));
        }
    }
    assert forall|id: u64| #[trigger] a.settings.contains_key(id) implies a.global_values.get(id)
        == b.global_values.get(id) by {
        assert(first_model.settings.contains_key(id));
    }
    lemma_same_values(a, b, changed, Some(path), second_alone, after);
}

/// `settings` has content for every setting that the settings file of `path` has content for.
pub open spec fn covers<C>(
    local_settings: Map<PathView, Map<u64, C>>,
    path: PathView,
    settings: Map<u64, C>,
) -> bool {
    local_settings.contains_key(path) ==> local_settings[path].dom().subset_of(settings.dom())
}

/// The local values after the settings of two directories were set one after the other: those in the
/// one or the other that customize a setting of its file are loaded from all the contents, and the
/// rest are as before.
proof fn lemma_two_directories<S: Setting>(
    before: SettingsModel<S>,
    p: PathView,
    p_settings: Map<u64, S::FileContent>,
    q: PathView,
    q_settings: Map<u64, S::FileContent>,
    between: SettingsModel<S>,
    after: SettingsModel<S>,
    id: u64,
    path: PathView,
)
    requires
        p != q,
        before.settings.contains_key(id),
        covers(before.local_settings, p, p_settings),
        covers(before.local_settings, q, q_settings),
        (SettingsModel {
            local_settings: before.local_settings.insert(p, p_settings),
            ..before
        }).recomputed(p_settings.dom(), Some(p), between),
        (SettingsModel {
            local_settings: between.local_settings.insert(q, q_settings),
            ..between
        }).recomputed(q_settings.dom(), Some(q), after),
    ensures
        after.global_values.get(id) == before.global_values.get(id),
        if customizes(after.local_settings, path, id) && ((p_settings.contains_key(id)
            && path_starts_with(path, p)) || (q_settings.contains_key(id) && path_starts_with(path, q))) {
            after.local_values[id].contains_key(path) && after.loads(
                id,
                Some(path),
                after.local_values[id][path],
            )
        } else {
            after.local_values[id].get(path) == before.local_values[id].get(path)
        },
{
    let first = SettingsModel {
        local_settings: before.local_settings.insert(p, p_settings),
        ..before
    };
    let second = SettingsModel {
        local_settings: between.local_settings.insert(q, q_settings),
        ..between
    };
    assert(first.settings.contains_key(id));
    assert(second.settings.contains_key(id));
    if before.local_settings.contains_key(q) && before.local_settings[q].dom().contains(id) {
        assert(q_settings.dom().contains(id));
    }
    if path == q {
        assert(path.take(q.len() as int) =~= q);
    }
    if q_settings.contains_key(id) && second.reloads(id, Some(q), path) {
    } else if p_settings.contains_key(id) && first.reloads(id, Some(p), path) {
        lemma_layers_other(first.local_settings, second.local_settings, q, id, path);
        assert(after.user_layer(id) == first.user_layer(id));
        assert(after.local_values[id].get(path) == between.local_values[id].get(path));
    }
}

/// The settings of two directories can be set in either order, also where one lies in the other:
/// where neither had settings, or each file has content for every setting that the one it replaces
/// had content for, the store is the same. What each setting reads and loads is a function of the
/// text and of the contents.
pub proof fn law_local_settings_commute<S: Setting>(
    before: SettingsModel<S>,
    p: PathView,
    p_json: Seq<char>,
    q: PathView,
    q_json: Seq<char>,
    p_first: SettingsModel<S>,
    q_second: SettingsModel<S>,
    q_first: SettingsModel<S>,
    p_second: SettingsModel<S>,
)
    requires
        p != q,
        before.valid(),
        before.pure_reads(),
        before.pure_loads(),
        before.sets_local(p, Some(p_json), Outcome::Done, p_first),
        p_first.sets_local(q, Some(q_json), Outcome::Done, q_second),
        before.sets_local(q, Some(q_json), Outcome::Done, q_first),
        q_first.sets_local(p, Some(p_json), Outcome::Done, p_second),
        covers(before.local_settings, p, p_first.local_settings[p]),
        covers(before.local_settings, q, q_first.local_settings[q]),
    ensures
        q_second == p_second,
{
    let p_settings = p_first.local_settings[p];
    let q_settings = q_first.local_settings[q];
    lemma_same_names(before, p_first);
    lemma_same_names(before, q_first);
    lemma_same_map(before, p_first, q_json, json_object(q_json)->0, q_settings, q_second.local_settings[q]);
    lemma_same_map(before, q_first, p_json, json_object(p_json)->0, p_settings, p_second.local_settings[p]);
    let x = q_second;
    let y = p_second;
    assert(x.local_settings =~= y.local_settings);
    assert forall|id: u64| #[trigger] before.settings.contains_key(id) implies x.global_values.get(id)
        == y.global_values.get(id) && x.local_values[id] == y.local_values[id] by {
        assert(pure_load(before.settings[id]));
        assert(x.user_layer(id) == y.user_layer(id));
        lemma_two_directories(before, p, p_settings, q, q_settings, p_first, x, id, p);
        lemma_two_directories(before, q, q_settings, p, p_settings, q_first, y, id, p);
        assert forall|path: PathView| x.local_values[id].get(path) == y.local_values[id].get(path) by {
            lemma_two_directories(before, p, p_settings, q, q_settings, p_first, x, id, path);
            lemma_two_directories(before, q, q_settings, p, p_settings, q_first, y, id, path);
        }
        lemma_same_entries(x.local_values[id], y.local_values[id]);
    }
    assert forall|id: u64| x.global_values.get(id) == y.global_values.get(id) by {
        if !before.settings.contains_key(id) {
            assert(!x.global_values.dom().contains(id));
            assert(!y.global_values.dom().contains(id));
        }
    }
    lemma_same_entries(x.global_values, y.global_values);
    assert forall|id: u64| #[trigger] x.local_values.contains_key(id) implies x.local_values[id]
        == y.local_values[id] by {
        assert(before.local_values.dom().contains(id));
        assert(before.settings.contains_key(id));
    }
    assert(x.local_values =~= y.local_values);
}

/// A call keeps a store valid.
proof fn lemma_call_keeps_valid<S: Setting>(
    before: SettingsModel<S>,
    call: Call,
    outcome: Outcome,
    after: SettingsModel<S>,
)
    requires
        before.valid(),
        before.calls(call, outcome, after),
    ensures
        after.valid(),
        after.settings == before.settings,
        after.keys == before.keys,
{
    before.lemma_keys_valid(after);
    assert forall|path: PathView| #[trigger] after.local_settings.contains_key(path) implies
        after.local_settings[path].dom().subset_of(after.settings.dom()) by {
        if before.local_settings.contains_key(path) {
            assert(before.local_settings[path].dom().subset_of(before.settings.dom()));
        }
    }
    if let Call::Local(path, None) = call {
        assert(before.without_local(path).local_values.dom() =~= before.local_values.dom());
    }
    assert(after.local_values.dom() == before.settings.dom());
}

/// The same call does the same to stores that differ at most in the order of the keys.
pub proof fn lemma_alike_call<S: Setting>(
    a: SettingsModel<S>,
    b: SettingsModel<S>,
    call: Call,
    a_outcome: Outcome,
    b_outcome: Outcome,
    a_after: SettingsModel<S>,
    b_after: SettingsModel<S>,
)
    requires
        a.valid(),
        b.valid(),
        a.alike(b),
        a.pure_reads(),
        a.pure_loads(),
        a.calls(call, a_outcome, a_after),
        b.calls(call, b_outcome, b_after),
    ensures
        a_outcome == b_outcome,
        a_after.alike(b_after),
{
    lemma_call_keeps_valid(a, call, a_outcome, a_after);
    lemma_call_keeps_valid(b, call, b_outcome, b_after);
    lemma_same_names(a, a_after);
    lemma_same_names(b, b_after);
    match call {
        Call::Default(json) => {
            if let Some(members) = json_object(json) {
                let settings = a_after.default_settings;
                lemma_same_map(a, b, json, members, settings, b_after.default_settings);
                if settings.dom() == a.settings.dom() {
                    let x = SettingsModel { default_settings: settings, ..a };
                    let y = SettingsModel { default_settings: settings, ..b };
                    lemma_same_values(x, y, a.settings.dom(), None, a_after, b_after);
                }
            }
        },
        Call::User(json) => {
            if let Some(members) = json_object(json) {
                let settings = a_after.user_settings->0;
                lemma_same_map(a, b, json, members, settings, b_after.user_settings->0);
                let x = SettingsModel { user_settings: Some(settings), ..a };
                let y = SettingsModel { user_settings: Some(settings), ..b };
                lemma_same_values(x, y, settings.dom().union(a.user_types()), None, a_after, b_after);
            }
        },
        Call::Local(path, Some(json)) => {
            if let Some(members) = json_object(json) {
                let settings = a_after.local_settings[path];
                lemma_same_map(a, b, json, members, settings, b_after.local_settings[path]);
                let local_settings = a.local_settings.insert(path, settings);
                let x = SettingsModel { local_settings, ..a };
                let y = SettingsModel { local_settings, ..b };
                lemma_same_values(x, y, settings.dom(), Some(path), a_after, b_after);
            }
        },
        Call::Local(path, None) => {
            let x = a.without_local(path);
            let y = b.without_local(path);
            assert(x.local_values.dom() =~= a.local_values.dom());
            assert(x.local_values =~= y.local_values);
            lemma_same_values(x, y, a.new_types(true, Some(path)), Some(path), a_after, b_after);
        },
    }
}

/// Stores that differ at most in the order of their keys cannot be told apart: any calls have the
/// same outcomes on both, and leave every setting with the same value at every path. What each
/// setting reads and loads is a function of the text and of the contents.
pub proof fn law_key_order_does_not_matter<S: Setting>(
    a: SettingsModel<S>,
    b: SettingsModel<S>,
    calls: Seq<Call>,
    a_outcomes: Seq<Outcome>,
    b_outcomes: Seq<Outcome>,
    a_after: SettingsModel<S>,
    b_after: SettingsModel<S>,
)
    requires
        a.valid(),
        b.valid(),
        a.alike(b),
        a.pure_reads(),
        a.pure_loads(),
        a.history(calls, a_outcomes, a_after),
        b.history(calls, b_outcomes, b_after),
    ensures
        a_outcomes == b_outcomes,
        a_after.alike(b_after),
        forall|id: u64, path: Option<PathView>| #[trigger]
            a_after.value(id, path) == b_after.value(id, path),
        a_after.valid(),
        b_after.valid(),
        a_after.settings == a.settings,
    decreases calls.len(),
{
    if calls.len() == 0 {
        assert(a_outcomes =~= b_outcomes);
    } else {
        let rest = calls.drop_last();
        let x = choose|x: SettingsModel<S>|
            a.history(rest, a_outcomes.drop_last(), x)
                && #[trigger] x.calls(calls.last(), a_outcomes.last(), a_after);
        let y = choose|y: SettingsModel<S>|
            b.history(rest, b_outcomes.drop_last(), y)
                && #[trigger] y.calls(calls.last(), b_outcomes.last(), b_after);
        law_key_order_does_not_matter(
            a,
            b,
            rest,
            a_outcomes.drop_last(),
            b_outcomes.drop_last(),
            x,
            y,
        );
        lemma_alike_call(x, y, calls.last(), a_outcomes.last(), b_outcomes.last(), a_after, b_after);
        lemma_call_keeps_valid(x, calls.last(), a_outcomes.last(), a_after);
        lemma_call_keeps_valid(y, calls.last(), b_outcomes.last(), b_after);
        assert(a_outcomes =~= a_outcomes.drop_last().push(a_outcomes.last()));
        assert(b_outcomes =~= b_outcomes.drop_last().push(b_outcomes.last()));
    }
}

/// What a new store holds once settings have been registered.
proof fn lemma_registered<S: Setting>(model: SettingsModel<S>, settings: Seq<(u64, S)>)
    requires
        model.registered(settings),
    ensures
        model.valid(),
        model == (SettingsModel::<S> {
            keys: model.keys,
            settings: model.settings,
            default_settings: Map::empty(),
            user_settings: None,
            local_settings: Map::empty(),
            global_values: Map::empty(),
            local_values: model.local_values,
        }),
        forall|id: u64| #[trigger]
            model.settings.contains_key(id) ==> {
                &&& settings.contains((id, model.settings[id]))
                &&& model.local_values[id] == Map::<PathView, S::Value>::empty()
                &&& named(model.settings[id], model.field_name(id))
            },
        forall|pair: (u64, S)| #[trigger]
            settings.contains(pair) ==> model.settings.contains_key(pair.0) && model.settings[pair.0] == pair.1,
    decreases settings.len(),
{
    if settings.len() > 0 {
        let (type_id, setting) = settings.last();
        let rest = settings.drop_last();
        let before = choose|before: SettingsModel<S>|
            before.registered(rest) && !before.settings.contains_key(type_id)
                && #[trigger] before.registers(type_id, setting, model);
        lemma_registered(before, rest);
        let (index, name) = choose|index: int, name: Option<Seq<char>>|
            0 <= index <= before.keys.len() && named(setting, name) && model.keys
                == #[trigger] before.keys.insert(index, (name, type_id));
        assert(settings =~= rest.push(settings.last()));
        assert forall|id: u64| #[trigger] model.settings.contains_key(id) implies {
            &&& settings.contains((id, model.settings[id]))
            &&& model.local_values[id] == Map::<PathView, S::Value>::empty()
            &&& named(model.settings[id], model.field_name(id))
        } by {
            if id == type_id {
                assert(model.keys[index] == (name, type_id));
                model.lemma_field_name(index);
                assert(settings[settings.len() - 1] == (id, model.settings[id]));
            } else {
                assert(before.settings.contains_key(id));
                let pair = (id, before.settings[id]);
                assert(rest.contains(pair));
                let k = rest.index_of(pair);
                assert(settings[k] == pair);
                let i = choose|i: int| 0 <= i < before.keys.len() && (#[trigger] before.keys[i]).1 == id;
                let j = if i < index {
                    i
                } else {
                    i + 1
                };
                assert(model.keys[j] == before.keys[i]);
                before.lemma_field_name(i);
                model.lemma_field_name(j);
            }
        }
        assert forall|pair: (u64, S)| #[trigger] settings.contains(pair) implies
            model.settings.contains_key(pair.0) && model.settings[pair.0] == pair.1 by {
            let k = settings.index_of(pair);
            if k < rest.len() {
                assert(rest[k] == pair);
                assert(rest.contains(pair));
            }
        }
    }
}

/// The order in which settings are registered does not matter: after the same settings were
/// registered in two new stores, in whatever order, any calls have the same outcomes on both, and
/// leave every setting with the same value at every path. Each setting always gives the same field
/// name, and what it reads and loads is a function of the text and of the contents.
pub proof fn law_registration_order_does_not_matter<S: Setting>(
    a_settings: Seq<(u64, S)>,
    b_settings: Seq<(u64, S)>,
    a: SettingsModel<S>,
    b: SettingsModel<S>,
    calls: Seq<Call>,
    a_outcomes: Seq<Outcome>,
    b_outcomes: Seq<Outcome>,
    a_after: SettingsModel<S>,
    b_after: SettingsModel<S>,
)
    requires
        a.registered(a_settings),
        b.registered(b_settings),
        forall|pair: (u64, S)| #[trigger] a_settings.contains(pair) <==> b_settings.contains(pair),
        a.fixed_names(),
        a.pure_reads(),
        a.pure_loads(),
        a.history(calls, a_outcomes, a_after),
        b.history(calls, b_outcomes, b_after),
    ensures
        a_outcomes == b_outcomes,
        forall|id: u64, path: Option<PathView>| #[trigger]
            a_after.value(id, path) == b_after.value(id, path),
{
    lemma_registered(a, a_settings);
    lemma_registered(b, b_settings);
    assert forall|id: u64| a.settings.get(id) == b.settings.get(id) by {
        if a.settings.contains_key(id) {
            assert(a_settings.contains((id, a.settings[id])));
            assert(b_settings.contains((id, a.settings[id])));
        } else if b.settings.contains_key(id) {
            assert(a_settings.contains((id, b.settings[id])));
        }
    }
    lemma_same_entries(a.settings, b.settings);
    assert forall|id: u64| #[trigger] a.settings.contains_key(id) implies a.field_name(id)
        == b.field_name(id) by {
        assert(fixed_name(a.settings[id]));
        assert(b.settings.contains_key(id));
    }
    assert forall|id: u64| #[trigger] a.local_values.contains_key(id) implies a.local_values[id]
        == b.local_values[id] by {
        assert(a.settings.contains_key(id));
        assert(b.settings.contains_key(id));
    }
    assert(a.local_values =~= b.local_values);
    law_key_order_does_not_matter(a, b, calls, a_outcomes, b_outcomes, a_after, b_after);
}

/// A codec that is a function writes the same contents as the same JSON values.
proof fn lemma_same_jsons<Content, Value, K: JsonCodec<Content, Value>>(
    codec: K,
    contents: Seq<Content>,
    a: Seq<JsonView>,
    b: Seq<JsonView>,
)
    requires
        pure_codec::<Content, Value, K>(codec),
        encoded::<Content, Value, K>(codec, contents, a),
        encoded::<Content, Value, K>(codec, contents, b),
    ensures
        a == b,
{
    assert forall|i: int| 0 <= i < a.len() implies a[i] == b[i] by {
        assert(encodes::<Content, Value, K>(codec, contents[i], a[i]));
        assert(encodes::<Content, Value, K>(codec, contents[i], b[i]));
    }
    assert(a =~= b);
}

/// Giving the last content a second time changes nothing: the JSON merge loads the same from it,
/// where what the codec writes and reads are functions. The last content is the default content
/// where there are no user contents.
pub proof fn law_value_given_twice<Content, Value, K: JsonCodec<Content, Value>>(
    codec: K,
    default_value: Content,
    user_values: Seq<Content>,
    once: Result<Value, String>,
    twice: Result<Value, String>,
)
    requires
        pure_codec::<Content, Value, K>(codec),
        loaded_via_json_merge::<Content, Value, K>(codec, default_value, user_values, once),
        loaded_via_json_merge::<Content, Value, K>(
            codec,
            default_value,
            user_values.push((seq![default_value] + user_values).last()),
            twice,
        ),
    ensures
        twice == once,
{
    let contents = seq![default_value] + user_values;
    let last = contents.last();
    let a = choose|jsons: Seq<JsonView>|
        #[trigger] encoded::<Content, Value, K>(codec, contents, jsons) && decodes::<Content, Value, K>(
            codec,
            merge_all(jsons),
            once,
        );
    let longer = seq![default_value] + user_values.push(last);
    let b = choose|jsons: Seq<JsonView>|
        #[trigger] encoded::<Content, Value, K>(codec, longer, jsons) && decodes::<Content, Value, K>(
            codec,
            merge_all(jsons),
            twice,
        );
    assert(longer =~= contents.push(last));
    assert(encoded::<Content, Value, K>(codec, contents, b.drop_last())) by {
        assert forall|i: int| 0 <= i < b.drop_last().len() implies encodes::<Content, Value, K>(
            codec,
            contents[i],
            #[trigger] b.drop_last()[i],
        ) by {
            assert(encodes::<Content, Value, K>(codec, longer[i], b[i]));
        }
    }
    lemma_same_jsons::<Content, Value, K>(codec, contents, a, b.drop_last());
    assert(encodes::<Content, Value, K>(codec, longer[a.len() as int], b[a.len() as int]));
    assert(encodes::<Content, Value, K>(codec, contents[a.len() - 1], a[a.len() - 1]));
    assert(b.last() == a.last());
    law_merge_twice(a.last(), merge_all(a.drop_last()));
}

/// Whether `call` sets the local settings of `path` to a text.
pub open spec fn adds(call: Call, path: PathView) -> bool {
    call matches Call::Local(p, Some(_)) && p == path
}

/// Whether `call` removes the local settings of `path`.
pub open spec fn removes(call: Call, path: PathView) -> bool {
    call matches Call::Local(p, None) && p == path
}

/// Whether `calls` set the local settings of `path`, and do not remove them again.
pub open spec fn leaves(calls: Seq<Call>, path: PathView) -> bool {
    exists|i: int|
        0 <= i < calls.len() && adds(#[trigger] calls[i], path) && forall|k: int|
            i < k < calls.len() ==> !removes(#[trigger] calls[k], path)
}

/// No call sets the local settings of a directory for which the calls before it left some: each
/// directory's are set at most once, or removed before they are set again.
pub open spec fn no_overwriting(calls: Seq<Call>) -> bool {
    forall|i: int, path: PathView|
        0 <= i < calls.len() && adds(#[trigger] calls[i], path) ==> !(#[trigger] leaves(
            calls.take(i),
            path,
        ))
}

/// A call that succeeds, or changes nothing, keeps every value up to date, unless it sets the local
/// settings of a directory that has some.
proof fn lemma_call_keeps_values_current<S: Setting>(
    before: SettingsModel<S>,
    call: Call,
    outcome: Outcome,
    after: SettingsModel<S>,
)
    requires
        before.valid(),
        before.coherent(),
        before.calls(call, outcome, after),
        outcome !is MissingFields,
        forall|path: PathView| #[trigger] adds(call, path) ==> !before.local_settings.contains_key(path),
    ensures
        after.coherent(),
{
    match call {
        Call::Default(json) => {
            if outcome is Done {
                law_current_values_are_not_stale(before);
                law_default_settings_update_values(before, after.default_settings, after);
            }
        },
        Call::User(json) => {
            if outcome is Done {
                lemma_user_types_have_defaults(before, json, after);
                law_user_settings_keep_values_current(before, after.user_settings->0, after);
            }
        },
        Call::Local(path, Some(json)) => {
            if outcome is Done {
                let settings = after.local_settings[path];
                let model = SettingsModel {
                    local_settings: before.local_settings.insert(path, settings),
                    ..before
                };
                assert(adds(call, path));
                assert forall|id: u64| settings.dom().contains(id) implies
                    before.default_settings.dom().contains(id) by {
                    assert(model.settings.dom().contains(id));
                    assert(model.settings.contains_key(id));
                    assert(path.take(path.len() as int) =~= path);
                    assert(model.reloads(id, Some(path), path));
                    assert(after.local_values[id].contains_key(path));
                }
                law_local_settings_keep_values_current(before, path, settings, after);
            }
        },
        Call::Local(path, None) => {
            let model = before.without_local(path);
            let changed = before.new_types(true, Some(path));
            assert forall|id: u64| #[trigger] changed.contains(id) && model.needs_default(id, Some(path))
                implies before.default_settings.contains_key(id) by {
                let p = choose|p: PathView| model.reloads(id, Some(path), p);
                assert(before.local_settings[path].dom().contains(id));
                assert(model.settings.contains_key(id));
                assert(after.local_values[id].contains_key(p));
            }
            law_removed_local_settings_keep_values_current(before, path, after);
        },
    }
}

/// Which directories have settings files after calls: at most those that had some before, and those
/// for which the calls left some.
proof fn lemma_directories<S: Setting>(
    before: SettingsModel<S>,
    calls: Seq<Call>,
    outcomes: Seq<Outcome>,
    after: SettingsModel<S>,
)
    requires
        before.valid(),
        before.history(calls, outcomes, after),
    ensures
        after.valid(),
        after.settings == before.settings,
        forall|path: PathView| #[trigger]
            after.local_settings.contains_key(path) ==> before.local_settings.contains_key(path) || leaves(
                calls,
                path,
            ),
    decreases calls.len(),
{
    if calls.len() > 0 {
        let rest = calls.drop_last();
        let call = calls.last();
        let between = choose|between: SettingsModel<S>|
            before.history(rest, outcomes.drop_last(), between)
                && #[trigger] between.calls(call, outcomes.last(), after);
        lemma_directories(before, rest, outcomes.drop_last(), between);
        lemma_call_keeps_valid(between, call, outcomes.last(), after);
        assert forall|path: PathView| #[trigger] after.local_settings.contains_key(path) implies
            before.local_settings.contains_key(path) || leaves(calls, path) by {
            if adds(call, path) {
                assert(adds(calls[calls.len() - 1], path));
            } else {
                assert(between.local_settings.contains_key(path));
                if leaves(rest, path) {
                    let i = choose|i: int|
                        0 <= i < rest.len() && adds(#[trigger] rest[i], path) && forall|k: int|
                            i < k < rest.len() ==> !removes(#[trigger] rest[k], path);
                    assert(adds(calls[i], path));
                    assert forall|k: int| i < k < calls.len() implies !removes(
                        #[trigger] calls[k],
                        path,
                    ) by {
                        if k < rest.len() {
                            assert(!removes(rest[k], path));
                        }
                    }
                }
            }
        }
    }
}

/// A store whose settings were registered, and then set by any calls that succeeded or changed
/// nothing, is up to date, where no call overwrites the settings file of a directory.
pub proof fn law_history_keeps_values_current<S: Setting>(
    settings: Seq<(u64, S)>,
    before: SettingsModel<S>,
    calls: Seq<Call>,
    outcomes: Seq<Outcome>,
    after: SettingsModel<S>,
)
    requires
        before.registered(settings),
        before.history(calls, outcomes, after),
        no_overwriting(calls),
        forall|i: int| 0 <= i < outcomes.len() ==> (#[trigger] outcomes[i]) !is MissingFields,
    ensures
        after.coherent(),
    decreases calls.len(),
{
    lemma_registered(before, settings);
    if calls.len() == 0 {
        assert forall|id: u64| #[trigger] before.settings.contains_key(id) implies before.coherent_at(
            id,
        ) by {
            assert(before.local_values[id] == Map::<PathView, S::Value>::empty());
        }
    } else {
        let rest = calls.drop_last();
        let call = calls.last();
        let between = choose|between: SettingsModel<S>|
            before.history(rest, outcomes.drop_last(), between)
                && #[trigger] between.calls(call, outcomes.last(), after);
        assert forall|i: int, path: PathView|
            0 <= i < rest.len() && adds(#[trigger] rest[i], path) implies !(#[trigger] leaves(
            rest.take(i),
            path,
        )) by {
            assert(rest.take(i) =~= calls.take(i));
            assert(adds(calls[i], path));
        }
        assert forall|i: int| 0 <= i < outcomes.drop_last().len() implies (
        #[trigger] outcomes.drop_last()[i]) !is MissingFields by {
            assert(outcomes[i] !is MissingFields);
        }
        law_history_keeps_values_current(settings, before, rest, outcomes.drop_last(), between);
        lemma_directories(before, rest, outcomes.drop_last(), between);
        assert(calls.take(calls.len() - 1) =~= rest);
        assert forall|path: PathView| #[trigger] adds(call, path) implies
            !between.local_settings.contains_key(path) by {
            assert(adds(calls[calls.len() - 1], path));
            assert(!leaves(calls.take(calls.len() - 1), path));
        }
        assert(outcomes[outcomes.len() - 1] !is MissingFields);
        lemma_call_keeps_values_current(between, call, outcomes.last(), after);
    }
}

/// Whatever calls were made since the settings of a store were registered, every local value belongs
/// to a directory with a settings file.
pub proof fn law_values_belong_to_files<S: Setting>(
    settings: Seq<(u64, S)>,
    before: SettingsModel<S>,
    calls: Seq<Call>,
    outcomes: Seq<Outcome>,
    after: SettingsModel<S>,
)
    requires
        before.registered(settings),
        before.history(calls, outcomes, after),
    ensures
        after.values_have_files(),
    decreases calls.len(),
{
    lemma_registered(before, settings);
    if calls.len() > 0 {
        let rest = calls.drop_last();
        let call = calls.last();
        let between = choose|between: SettingsModel<S>|
            before.history(rest, outcomes.drop_last(), between)
                && #[trigger] between.calls(call, outcomes.last(), after);
        law_values_belong_to_files(settings, before, rest, outcomes.drop_last(), between);
        lemma_directories(before, rest, outcomes.drop_last(), between);
        assert forall|id: u64, path: PathView|
            after.settings.contains_key(id) && #[trigger] after.local_values[id].contains_key(path)
            implies after.local_settings.contains_key(path) by {
            lemma_call_keeps_valid(between, call, outcomes.last(), after);
            assert(between.settings.contains_key(id));
            assert(between.local_values.contains_key(id));
            assert(between.local_values[id].contains_key(path) ==> between.local_settings.contains_key(
                path,
            ));
            if let Call::Local(p, None) = call {
                assert(between.without_local(p).settings.contains_key(id));
            }
        }
    }
}

/// Removing the local settings of a directory right after they were added gives back the store of
/// before, where no directory at or below it had settings, and every local value belonged to a
/// directory with a settings file.
pub proof fn law_removal_restores_the_store<S: Setting>(
    before: SettingsModel<S>,
    path: PathView,
    json: Seq<char>,
    between: SettingsModel<S>,
    after: SettingsModel<S>,
)
    requires
        before.valid(),
        before.values_have_files(),
        forall|p: PathView| #[trigger]
            before.local_settings.contains_key(p) ==> !path_starts_with(p, path),
        before.sets_local(path, Some(json), Outcome::Done, between),
        between.sets_local(path, None, Outcome::Done, after),
    ensures
        after == before,
{
    let settings = between.local_settings[path];
    let added = SettingsModel {
        local_settings: before.local_settings.insert(path, settings),
        ..before
    };
    let removed = between.without_local(path);
    assert(path.take(path.len() as int) =~= path);
    assert(!before.local_settings.contains_key(path));
    assert(removed.local_settings =~= before.local_settings);
    assert forall|id: u64| #[trigger] before.settings.contains_key(id) implies after.global_values.get(id)
        == before.global_values.get(id) && after.local_values[id] == before.local_values[id] by {
        assert(added.settings.contains_key(id));
        assert(removed.settings.contains_key(id));
        assert(between.local_values.contains_key(id));
        assert forall|p: PathView| after.local_values[id].get(p) == before.local_values[id].get(p) by {
            assert(!removed.reloads(id, Some(path), p));
            assert(removed.local_values[id].get(p) == after.local_values[id].get(p));
            if p == path {
                assert(!before.local_values[id].contains_key(path));
            } else {
                assert(!added.reloads(id, Some(path), p));
                assert(between.local_values[id].get(p) == before.local_values[id].get(p));
            }
        }
        lemma_same_entries(after.local_values[id], before.local_values[id]);
    }
    assert forall|id: u64| after.global_values.get(id) == before.global_values.get(id) by {
        if !before.settings.contains_key(id) {
            assert(!after.global_values.dom().contains(id));
            assert(!before.global_values.dom().contains(id));
        }
    }
    lemma_same_entries(after.global_values, before.global_values);
    assert(after.local_values.dom() =~= before.local_values.dom());
    assert forall|id: u64| #[trigger] after.local_values.contains_key(id) implies after.local_values[id]
        == before.local_values[id] by {
        assert(before.settings.contains_key(id));
    }
    assert(after.local_values =~= before.local_values);
}

/// A value that adds nothing to a merge: null, or an object whose members are all null.
pub open spec fn is_null_layer(json: JsonView) -> bool {
    json is Null || (json is Object && forall|key: Seq<char>| #[trigger]
        fields_of(json).contains_key(key) ==> fields_of(json)[key] is Null)
}

/// What is merged over equal merges is equal.
proof fn lemma_merge_suffix(a: Seq<JsonView>, b: Seq<JsonView>, suffix: Seq<JsonView>)
    requires
        merge_all(a) == merge_all(b),
    ensures
        merge_all(a + suffix) == merge_all(b + suffix),
    decreases suffix.len(),
{
    if suffix.len() == 0 {
        assert(a + suffix =~= a);
        assert(b + suffix =~= b);
    } else {
        lemma_merge_suffix(a, b, suffix.drop_last());
        assert((a + suffix).drop_last() =~= a + suffix.drop_last());
        assert((b + suffix).drop_last() =~= b + suffix.drop_last());
    }
}

/// Null layers change nothing, wherever they stand: the JSON merge loads the same without a content
/// that is written as null, and without one that is written as an object of nulls where the contents
/// before it merge to an object. What the codec writes and reads are functions.
pub proof fn law_null_layer_changes_nothing<Content, Value, K: JsonCodec<Content, Value>>(
    codec: K,
    default_value: Content,
    outer: Seq<Content>,
    layer: Content,
    inner: Seq<Content>,
    outer_jsons: Seq<JsonView>,
    layer_json: JsonView,
    without: Result<Value, String>,
    with: Result<Value, String>,
)
    requires
        pure_codec::<Content, Value, K>(codec),
        encoded::<Content, Value, K>(codec, seq![default_value] + outer, outer_jsons),
        encodes::<Content, Value, K>(codec, layer, layer_json),
        is_null_layer(layer_json),
        layer_json is Null || merge_all(outer_jsons) is Object,
        loaded_via_json_merge::<Content, Value, K>(codec, default_value, outer + inner, without),
        loaded_via_json_merge::<Content, Value, K>(
            codec,
            default_value,
            outer.push(layer) + inner,
            with,
        ),
    ensures
        with == without,
{
    let first = seq![default_value] + outer;
    let n = first.len() as int;
    let short = seq![default_value] + (outer + inner);
    let long = seq![default_value] + (outer.push(layer) + inner);
    let a = choose|jsons: Seq<JsonView>|
        #[trigger] encoded::<Content, Value, K>(codec, short, jsons) && decodes::<Content, Value, K>(
            codec,
            merge_all(jsons),
            without,
        );
    let b = choose|jsons: Seq<JsonView>|
        #[trigger] encoded::<Content, Value, K>(codec, long, jsons) && decodes::<Content, Value, K>(
            codec,
            merge_all(jsons),
            with,
        );
    let suffix = a.subrange(n, a.len() as int);
    assert(short =~= first + inner);
    assert(long =~= first.push(layer) + inner);
    assert(a =~= outer_jsons + suffix) by {
        assert forall|i: int| 0 <= i < n implies a[i] == outer_jsons[i] by {
            assert(encodes::<Content, Value, K>(codec, short[i], a[i]));
            assert(encodes::<Content, Value, K>(codec, first[i], outer_jsons[i]));
        }
    }
    assert(b =~= outer_jsons.push(layer_json) + suffix) by {
        assert forall|i: int| 0 <= i < b.len() implies b[i] == (outer_jsons.push(layer_json) + suffix)[i] by {
            assert(encodes::<Content, Value, K>(codec, long[i], b[i]));
            if i < n {
                assert(encodes::<Content, Value, K>(codec, first[i], outer_jsons[i]));
            } else if i > n {
                assert(encodes::<Content, Value, K>(codec, short[i - 1], a[i - 1]));
            }
        }
    }
    let target = merge_all(outer_jsons);
    assert(outer_jsons.push(layer_json).drop_last() =~= outer_jsons);
    assert(merged(layer_json, target) == target) by {
        if layer_json is Object {
            assert(fields_of(merged(layer_json, target)) =~= fields_of(target));
        }
    }
    lemma_merge_suffix(outer_jsons.push(layer_json), outer_jsons, suffix);
}

} // verus!
