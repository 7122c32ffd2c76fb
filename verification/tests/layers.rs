use settings::order::Comparison;
use settings::{ComponentKind, PathComponent, Setting, SettingsError, SettingsPath, SettingsStore};

/// A setting whose value lists the texts that it was loaded from.
struct Trace(Option<&'static str>);

impl Setting for Trace {
    type FileContent = String;
    type Value = Vec<String>;

    fn field_name(&self) -> Option<&'static str> {
        self.0
    }

    fn deserialize(&self, json: &str) -> Result<String, String> {
        if json == "false" {
            Err("not a text of this setting".to_string())
        } else {
            Ok(json.to_string())
        }
    }

    fn load(&self, default_value: &String, user_values: &[&String]) -> Vec<String> {
        let mut values = vec![default_value.clone()];
        for value in user_values {
            values.push((*value).clone());
        }
        values
    }
}

/// A setting that is read from the root object.
struct Root;

impl Setting for Root {
    type FileContent = String;
    type Value = usize;

    fn deserialize(&self, json: &str) -> Result<String, String> {
        Ok(json.to_string())
    }

    fn load(&self, default_value: &String, user_values: &[&String]) -> usize {
        default_value.len() + user_values.len()
    }
}

const A: u64 = 7;
const B: u64 = 3;

fn path(components: &[&str]) -> SettingsPath {
    SettingsPath::new(
        components
            .iter()
            .map(|component| match *component {
                "/" => PathComponent { kind: ComponentKind::RootDir, names: vec![] },
                "." => PathComponent { kind: ComponentKind::CurDir, names: vec![] },
                ".." => PathComponent { kind: ComponentKind::ParentDir, names: vec![] },
                name => PathComponent {
                    kind: ComponentKind::Normal,
                    names: vec![name.as_bytes().to_vec()],
                },
            })
            .collect(),
    )
}

fn store() -> SettingsStore<Trace> {
    let mut store = SettingsStore::default();
    store.register_setting(B, Trace(Some("b")));
    store.register_setting(A, Trace(Some("a")));
    store.set_default_settings(r#"{"a": 0, "b": 10}"#).unwrap();
    store
}

fn at(store: &SettingsStore<Trace>, id: u64, components: &[&str]) -> Vec<String> {
    store.get(id, Some(&path(components))).clone()
}

fn global(store: &SettingsStore<Trace>, id: u64) -> Vec<String> {
    store.get(id, None).clone()
}

#[test]
fn new_store_has_no_values() {
    let store = SettingsStore::<Trace>::default();
    assert!(!store.is_registered(A));
    assert!(store.find(A, None).is_none());
}

#[test]
fn registered_setting_has_no_value_before_defaults() {
    let mut store = SettingsStore::default();
    store.register_setting(A, Trace(Some("a")));
    assert!(store.is_registered(A));
    assert!(store.find(A, None).is_none());
    assert!(store.find(A, Some(&path(&["/"]))).is_none());
}

#[test]
fn value_combines_all_layers() {
    let mut store = store();
    store.set_user_settings(r#"{"a": 1}"#).unwrap();
    store.set_local_settings(path(&["/", "x", "y"]), Some(r#"{"a": 3}"#)).unwrap();
    store.set_local_settings(path(&["/", "x"]), Some(r#"{"a": 2}"#)).unwrap();
    assert_eq!(at(&store, A, &["/", "x", "y", "z"]), vec!["0", "1", "2", "3"]);
    assert_eq!(at(&store, A, &["/", "x", "y"]), vec!["0", "1", "2", "3"]);
    assert_eq!(at(&store, A, &["/", "x", "q"]), vec!["0", "1", "2"]);
    assert_eq!(at(&store, A, &["/", "xy"]), vec!["0", "1"]);
    assert_eq!(global(&store, A), vec!["0", "1"]);
    assert_eq!(at(&store, B, &["/", "x", "y"]), vec!["10"]);
}

#[test]
fn directory_without_content_adds_no_layer() {
    let mut store = store();
    store.set_local_settings(path(&["/", "x"]), Some(r#"{"a": 2}"#)).unwrap();
    store.set_local_settings(path(&["/", "x", "y"]), Some(r#"{"b": 12}"#)).unwrap();
    store.set_local_settings(path(&["/", "x", "y", "z"]), Some(r#"{"a": 4}"#)).unwrap();
    assert_eq!(at(&store, A, &["/", "x", "y", "z"]), vec!["0", "2", "4"]);
    assert_eq!(at(&store, A, &["/", "x", "y"]), vec!["0", "2"]);
    assert_eq!(at(&store, B, &["/", "x", "y", "z"]), vec!["10", "12"]);
}

#[test]
fn user_settings_reload_local_values() {
    let mut store = store();
    store.set_local_settings(path(&["/", "x"]), Some(r#"{"a": 2}"#)).unwrap();
    store.set_user_settings(r#"{"a": 1}"#).unwrap();
    assert_eq!(at(&store, A, &["/", "x"]), vec!["0", "1", "2"]);
    store.set_user_settings(r#"{"b": 11}"#).unwrap();
    assert_eq!(at(&store, A, &["/", "x"]), vec!["0", "2"]);
    assert_eq!(global(&store, A), vec!["0"]);
    assert_eq!(global(&store, B), vec!["10", "11"]);
}

#[test]
fn default_settings_reload_everything() {
    let mut store = store();
    store.set_user_settings(r#"{"a": 1}"#).unwrap();
    store.set_local_settings(path(&["/", "x"]), Some(r#"{"a": 2}"#)).unwrap();
    store.set_default_settings(r#"{"a": 5, "b": 6}"#).unwrap();
    assert_eq!(global(&store, A), vec!["5", "1"]);
    assert_eq!(at(&store, A, &["/", "x"]), vec!["5", "1", "2"]);
    assert_eq!(global(&store, B), vec!["6"]);
}

#[test]
fn local_settings_stay_inside_their_directory() {
    let mut store = store();
    store.set_local_settings(path(&["/", "x"]), Some(r#"{"a": 2}"#)).unwrap();
    store.set_local_settings(path(&["/", "y"]), Some(r#"{"a": 3}"#)).unwrap();
    store.set_local_settings(path(&["/", "x"]), Some(r#"{"a": 4}"#)).unwrap();
    assert_eq!(at(&store, A, &["/", "x"]), vec!["0", "4"]);
    assert_eq!(at(&store, A, &["/", "y"]), vec!["0", "3"]);
    assert_eq!(at(&store, A, &["/"]), vec!["0"]);
    assert_eq!(global(&store, A), vec!["0"]);
}

#[test]
fn removed_local_settings_are_gone() {
    let mut store = store();
    store.set_local_settings(path(&["/", "x"]), Some(r#"{"a": 2, "b": 12}"#)).unwrap();
    store.set_local_settings(path(&["/", "x", "y"]), Some(r#"{"a": 3}"#)).unwrap();
    store.set_local_settings(path(&["/", "z"]), Some(r#"{"a": 9}"#)).unwrap();
    store.set_local_settings(path(&["/", "x"]), None).unwrap();
    assert_eq!(at(&store, A, &["/", "x"]), vec!["0"]);
    assert_eq!(at(&store, B, &["/", "x"]), vec!["10"]);
    assert_eq!(at(&store, A, &["/", "x", "y"]), vec!["0", "3"]);
    assert_eq!(at(&store, A, &["/", "z"]), vec!["0", "9"]);
}

#[test]
fn removing_local_settings_that_are_not_there_changes_nothing() {
    let mut store = store();
    store.set_local_settings(path(&["/", "x"]), Some(r#"{"a": 2}"#)).unwrap();
    store.set_local_settings(path(&["/"]), None).unwrap();
    assert_eq!(at(&store, A, &["/", "x"]), vec!["0", "2"]);
    assert_eq!(at(&store, A, &["/"]), vec!["0"]);
}

#[test]
fn replacing_local_settings_reloads_what_the_new_file_has() {
    let mut store = store();
    store.set_local_settings(path(&["/", "x"]), Some(r#"{"a": 2, "b": 12}"#)).unwrap();
    store.set_local_settings(path(&["/", "x"]), Some(r#"{"b": 13}"#)).unwrap();
    assert_eq!(at(&store, B, &["/", "x"]), vec!["10", "13"]);
    assert_eq!(at(&store, A, &["/", "x"]), vec!["0", "2"]);
    store.set_local_settings(path(&["/", "x"]), None).unwrap();
    assert_eq!(at(&store, A, &["/", "x"]), vec!["0"]);
}

#[test]
fn text_that_is_not_an_object_is_refused() {
    let mut store = store();
    store.set_user_settings(r#"{"a": 1}"#).unwrap();
    for text in ["", "[]", "null", r#"{"a": }"#, r#"{"a": 1} x"#] {
        assert!(matches!(store.set_user_settings(text), Err(SettingsError::InvalidJson(_))));
        assert!(matches!(store.set_default_settings(text), Err(SettingsError::InvalidJson(_))));
        assert!(matches!(
            store.set_local_settings(path(&["/"]), Some(text)),
            Err(SettingsError::InvalidJson(_))
        ));
        assert!(store.load_setting_map(text).is_err());
    }
    assert_eq!(global(&store, A), vec!["0", "1"]);
    assert_eq!(at(&store, A, &["/"]), vec!["0", "1"]);
}

#[test]
fn keys_with_escapes_are_refused() {
    let mut store = store();
    assert!(matches!(
        store.set_user_settings(r#"{"\u0061": 1}"#),
        Err(SettingsError::InvalidJson(_))
    ));
}

#[test]
fn missing_fields_are_listed_in_order() {
    let mut store = SettingsStore::default();
    store.register_setting(1, Trace(Some("turbo")));
    store.register_setting(2, Trace(Some("journal")));
    store.register_setting(3, Trace(None));
    store.register_setting(4, Trace(Some("user")));
    match store.set_default_settings(r#"{"turbo": false, "user": 1}"#) {
        Err(SettingsError::MissingFields(names)) => {
            assert_eq!(names, vec![Some("journal"), Some("turbo")]);
        }
        _ => panic!("fields are missing"),
    }
    assert!(store.find(4, None).is_none());
    store.set_default_settings(r#"{"turbo": 1, "user": 1, "journal": 1}"#).unwrap();
    assert_eq!(global(&store, 4), vec!["1"]);
}

#[test]
fn failed_default_settings_leave_the_values() {
    let mut store = store();
    assert!(matches!(
        store.set_default_settings(r#"{"a": 5}"#),
        Err(SettingsError::MissingFields(_))
    ));
    assert_eq!(global(&store, A), vec!["0"]);
    assert_eq!(global(&store, B), vec!["10"]);
    store.set_user_settings(r#"{"a": 1}"#).unwrap();
    assert_eq!(global(&store, A), vec!["5", "1"]);
    assert!(store.try_set_user_settings(r#"{"b": 1}"#).is_none());
    assert_eq!(global(&store, B), vec!["10"]);
}

#[test]
fn unreadable_content_is_passed_over() {
    let mut store = store();
    store.set_user_settings(r#"{"a": false, "b": 11}"#).unwrap();
    assert_eq!(global(&store, A), vec!["0"]);
    assert_eq!(global(&store, B), vec!["10", "11"]);
}

#[test]
fn setting_map_holds_the_raw_text_of_known_fields() {
    let store = store();
    let map = store.load_setting_map(r#"{ "z": 1, "b" :  [1, 2] , "a": {"k": null} }"#).unwrap();
    assert_eq!(map.len(), 2);
    assert_eq!(map[&A], r#"{"k": null}"#);
    assert_eq!(map[&B], "[1, 2]");
}

#[test]
fn setting_entries_are_matched_with_keys() {
    let store = store();
    let entry = |key: &str, text: &str| (key.to_string(), text.to_string());
    let entries = vec![entry("0", "x"), entry("a", "y"), entry("aa", "z"), entry("c", "w")];
    let map = store.load_setting_entries("{}", &entries);
    assert_eq!(map.len(), 1);
    assert_eq!(map[&A], "y");
}

#[test]
fn settings_can_share_a_field() {
    let mut store = SettingsStore::default();
    store.register_setting(1, Trace(Some("a")));
    store.register_setting(2, Trace(Some("b")));
    store.register_setting(3, Trace(Some("a")));
    store.set_default_settings(r#"{"a": 1, "b": 2}"#).unwrap();
    assert_eq!(global(&store, 1), vec!["1"]);
    assert_eq!(global(&store, 2), vec!["2"]);
    assert_eq!(global(&store, 3), vec!["1"]);
}

#[test]
fn setting_without_a_field_reads_the_whole_file() {
    let mut store = SettingsStore::default();
    store.register_setting(1, Root);
    store.set_default_settings(r#"{"a": 1}"#).unwrap();
    assert_eq!(store.get(1, None), &8);
    store.set_user_settings("{}").unwrap();
    assert_eq!(store.get(1, None), &9);
}

#[test]
fn files_that_need_a_missing_default_are_left_alone() {
    let mut store = SettingsStore::default();
    store.register_setting(A, Trace(Some("a")));
    assert!(store.try_set_user_settings(r#"{"a": 1}"#).is_none());
    assert!(store.try_set_local_settings(path(&["/"]), Some(r#"{"a": 1}"#)).is_none());
    assert!(store.find(A, None).is_none());
    assert!(matches!(store.try_set_user_settings("{}"), Some(Ok(()))));
    assert!(matches!(store.try_set_local_settings(path(&["/"]), Some("{}")), Some(Ok(()))));
    assert!(matches!(store.try_set_local_settings(path(&["/"]), None), Some(Ok(()))));
    assert!(matches!(
        store.try_set_user_settings("x"),
        Some(Err(SettingsError::InvalidJson(_)))
    ));
    store.set_default_settings(r#"{"a": 0}"#).unwrap();
    assert!(matches!(store.try_set_user_settings(r#"{"a": 1}"#), Some(Ok(()))));
    assert!(matches!(
        store.try_set_local_settings(path(&["/"]), Some(r#"{"a": 2}"#)),
        Some(Ok(()))
    ));
    assert_eq!(at(&store, A, &["/"]), vec!["0", "1", "2"]);
}

#[test]
fn removal_that_needs_a_missing_default_is_left_alone() {
    let mut store = store();
    store.set_local_settings(path(&["/"]), Some(r#"{"a": 1}"#)).unwrap();
    store.set_local_settings(path(&["/", "x"]), Some(r#"{"a": 2}"#)).unwrap();
    store.set_default_settings(r#"{"b": 5}"#).unwrap_err();
    assert!(store.try_set_local_settings(path(&["/"]), None).is_none());
    assert_eq!(at(&store, A, &["/"]), vec!["0", "1"]);
    assert!(matches!(store.try_set_local_settings(path(&["/", "x"]), None), Some(Ok(()))));
    assert_eq!(at(&store, A, &["/", "x"]), vec!["0", "1"]);
}

#[test]
fn removal_undoes_addition() {
    let mut store = store();
    store.set_local_settings(path(&["/", "x", "y"]), Some(r#"{"a": 3}"#)).unwrap();
    store.set_local_settings(path(&["/", "x"]), Some(r#"{"a": 2}"#)).unwrap();
    assert_eq!(at(&store, A, &["/", "x", "y"]), vec!["0", "2", "3"]);
    store.set_local_settings(path(&["/", "x"]), None).unwrap();
    assert_eq!(at(&store, A, &["/", "x", "y"]), vec!["0", "3"]);
    assert_eq!(at(&store, A, &["/", "x"]), vec!["0"]);
}

#[test]
fn setting_value_holds_the_loaded_values() {
    let mut store = store();
    store.set_local_settings(path(&["/", "x"]), Some(r#"{"a": 2}"#)).unwrap();
    let value = store.setting_value(A).unwrap();
    assert_eq!(value.setting.0, Some("a"));
    assert_eq!(value.global_value, Some(vec!["0".to_string()]));
    assert_eq!(value.local_values.len(), 1);
    assert_eq!(value.local_values.value_at(0), &vec!["0".to_string(), "2".to_string()]);
    assert!(store.setting_value(9).is_none());
}

#[test]
fn registration_keeps_the_values() {
    let mut store = store();
    store.set_user_settings(r#"{"a": 1}"#).unwrap();
    store.register_setting(9, Trace(Some("c")));
    assert_eq!(global(&store, A), vec!["0", "1"]);
    assert!(store.find(9, None).is_none());
}

#[test]
fn setting_the_same_file_again_changes_nothing() {
    let mut store = store();
    for _ in 0..2 {
        store.set_user_settings(r#"{"a": 1}"#).unwrap();
        store.set_local_settings(path(&["/", "x"]), Some(r#"{"a": 2}"#)).unwrap();
        assert_eq!(global(&store, A), vec!["0", "1"]);
        assert_eq!(at(&store, A, &["/", "x"]), vec!["0", "1", "2"]);
        assert_eq!(global(&store, B), vec!["10"]);
    }
}

#[test]
fn order_of_members_and_unknown_members_do_not_matter() {
    let store = store();
    let map = store.load_setting_map(r#"{"a": 1, "b": [2]}"#).unwrap();
    let other = store.load_setting_map(r#"{"z": 0, "b": [2], "aa": {}, "a": 1}"#).unwrap();
    assert_eq!(map, other);
    assert_eq!(map.len(), 2);
}

#[test]
fn order_of_registration_does_not_matter() {
    let mut stores = vec![SettingsStore::default(), SettingsStore::default()];
    let settings = [(1, Some("b")), (2, None), (3, Some("a")), (4, Some("b"))];
    for (id, name) in settings {
        stores[0].register_setting(id, Trace(name));
    }
    for (id, name) in settings.into_iter().rev() {
        stores[1].register_setting(id, Trace(name));
    }
    for store in &mut stores {
        assert!(store.set_default_settings(r#"{"a": 0}"#).is_err());
        assert!(store.set_user_settings("x").is_err());
        store.set_default_settings(r#"{"a": 0, "b": 10}"#).unwrap();
        store.set_local_settings(path(&["/"]), Some(r#"{"b": 12}"#)).unwrap();
        store.set_user_settings(r#"{"a": 1}"#).unwrap();
    }
    for (id, _) in settings {
        assert_eq!(global(&stores[0], id), global(&stores[1], id));
        assert_eq!(at(&stores[0], id, &["/"]), at(&stores[1], id, &["/"]));
    }
    assert_eq!(at(&stores[1], 4, &["/"]), vec!["10", "12"]);
    assert_eq!(global(&stores[1], 3), vec!["0", "1"]);
}

#[test]
fn default_settings_are_replaced() {
    let mut store = store();
    store.set_local_settings(path(&["/"]), Some(r#"{"a": 2}"#)).unwrap();
    store.set_default_settings(r#"{"a": {"x": 1}, "b": 3}"#).unwrap();
    store.set_default_settings(r#"{"a": {"y": 2}, "b": 4}"#).unwrap();
    assert_eq!(global(&store, A), vec![r#"{"y": 2}"#]);
    assert_eq!(global(&store, B), vec!["4"]);
    assert_eq!(at(&store, A, &["/"]), vec![r#"{"y": 2}"#, "2"]);
}

#[test]
fn user_settings_are_replaced() {
    let mut store = store();
    store.set_local_settings(path(&["/"]), Some(r#"{"a": 2}"#)).unwrap();
    store.set_user_settings(r#"{"a": 1, "b": 11}"#).unwrap();
    store.set_user_settings(r#"{"b": 12}"#).unwrap();
    assert_eq!(global(&store, A), vec!["0"]);
    assert_eq!(at(&store, A, &["/"]), vec!["0", "2"]);
    assert_eq!(global(&store, B), vec!["10", "12"]);
}

#[test]
fn local_settings_are_replaced() {
    let mut store = store();
    store.set_local_settings(path(&["/", "x"]), Some(r#"{"a": 3}"#)).unwrap();
    store.set_local_settings(path(&["/"]), Some(r#"{"a": 1}"#)).unwrap();
    store.set_local_settings(path(&["/"]), Some(r#"{"a": 2, "b": 12}"#)).unwrap();
    assert_eq!(at(&store, A, &["/"]), vec!["0", "2"]);
    assert_eq!(at(&store, A, &["/", "x"]), vec!["0", "2", "3"]);
    assert_eq!(at(&store, B, &["/", "x"]), vec!["10", "12"]);
}

#[test]
fn local_settings_can_be_set_in_either_order() {
    let files = [(vec!["/", "x"], r#"{"a": 2}"#), (vec!["/", "x", "y"], r#"{"a": 3, "b": 13}"#)];
    let mut stores = vec![store(), store()];
    for (components, content) in &files {
        stores[0].set_local_settings(path(components), Some(content)).unwrap();
    }
    for (components, content) in files.iter().rev() {
        stores[1].set_local_settings(path(components), Some(content)).unwrap();
    }
    for store in &stores {
        assert_eq!(at(store, A, &["/", "x"]), vec!["0", "2"]);
        assert_eq!(at(store, A, &["/", "x", "y"]), vec!["0", "2", "3"]);
        assert_eq!(at(store, B, &["/", "x"]), vec!["10"]);
        assert_eq!(at(store, B, &["/", "x", "y"]), vec!["10", "13"]);
    }
}

#[test]
fn reading_a_setting_reports_its_error() {
    let store = store();
    let value = store.setting_value(A).unwrap();
    assert_eq!(value.deserialize_setting("5"), Ok("5".to_string()));
    assert_eq!(
        value.deserialize_setting("false"),
        Err("not a text of this setting".to_string())
    );
}

#[test]
fn values_follow_a_history_of_calls() {
    let mut store = store();
    store.set_local_settings(path(&["/", "x"]), Some(r#"{"a": 2, "b": 12}"#)).unwrap();
    assert!(store.set_user_settings("x").is_err());
    store.set_user_settings(r#"{"a": 1}"#).unwrap();
    store.set_local_settings(path(&["/", "x"]), None).unwrap();
    store.set_local_settings(path(&["/", "x"]), Some(r#"{"b": 13}"#)).unwrap();
    store.set_default_settings(r#"{"a": 5, "b": 15}"#).unwrap();
    assert_eq!(global(&store, A), vec!["5", "1"]);
    assert_eq!(at(&store, A, &["/", "x"]), vec!["5", "1"]);
    assert_eq!(at(&store, B, &["/", "x"]), vec!["15", "13"]);
}

#[test]
fn local_values_belong_to_directories_with_files() {
    let mut store = store();
    store.set_local_settings(path(&["/", "x"]), Some(r#"{"a": 2}"#)).unwrap();
    store.set_local_settings(path(&["/", "y"]), Some(r#"{"a": 3}"#)).unwrap();
    assert!(store.set_default_settings(r#"{"a": 1}"#).is_err());
    store.set_local_settings(path(&["/", "x"]), None).unwrap();
    let values = &store.setting_value(A).unwrap().local_values;
    assert_eq!(values.len(), 1);
    assert_eq!(values.path_at(0).compare(&path(&["/", "y"])), Comparison::Equal);
}

#[test]
fn removal_restores_the_store() {
    let mut store = store();
    store.set_local_settings(path(&["/"]), Some(r#"{"a": 2}"#)).unwrap();
    store.set_local_settings(path(&["/", "x"]), Some(r#"{"a": 3, "b": 13}"#)).unwrap();
    store.set_local_settings(path(&["/", "x"]), None).unwrap();
    assert_eq!(at(&store, A, &["/", "x"]), vec!["0", "2"]);
    assert_eq!(at(&store, B, &["/", "x"]), vec!["10"]);
    assert_eq!(store.setting_value(A).unwrap().local_values.len(), 1);
    assert_eq!(store.setting_value(B).unwrap().local_values.len(), 0);
}
