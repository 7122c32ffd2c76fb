use std::path::PathBuf;

use settings::order::{compare_bytes, Comparison};
use settings::parse::compare_str;
use settings::path_map::PathMap;
use settings::{merge_non_null_json_value_into, try_load_via_json_merge};
use settings::{ComponentKind, Json, JsonCodec, JsonObject, PathComponent, SettingsPath};

fn path(components: &[&str]) -> SettingsPath {
    SettingsPath::new(
        components
            .iter()
            .map(|component| match *component {
                "/" => PathComponent { kind: ComponentKind::RootDir, names: vec![] },
                "." => PathComponent { kind: ComponentKind::CurDir, names: vec![] },
                ".." => PathComponent { kind: ComponentKind::ParentDir, names: vec![] },
                name => PathComponent {
                    kind: ComponentKind::Normal,
                    names: vec![name.as_bytes().to_vec()],
                },
            })
            .collect(),
    )
}

fn object(members: Vec<(&str, Json)>) -> Json {
    let mut object = JsonObject::new();
    for (key, value) in members {
        object.insert(key.to_string(), value);
    }
    Json::Object(object)
}

fn number(text: &str) -> Json {
    Json::Number(text.to_string())
}

fn text(json: &Json) -> String {
    format!("{:?}", json)
}

fn merge(values: Vec<Json>) -> Json {
    let mut merged = Json::Null;
    for value in values {
        merge_non_null_json_value_into(value, &mut merged);
    }
    merged
}

#[test]
fn bytes_are_ordered_lexicographically() {
    assert_eq!(compare_bytes(b"", b""), Comparison::Equal);
    assert_eq!(compare_bytes(b"", b"a"), Comparison::Less);
    assert_eq!(compare_bytes(b"ab", b"b"), Comparison::Less);
    assert_eq!(compare_bytes(b"abc", b"ab"), Comparison::Greater);
    assert_eq!(compare_bytes(&[0xff], &[0x7f]), Comparison::Greater);
}

#[test]
fn strings_are_ordered_as_by_std() {
    for a in ["", "a", "ab", "b", "\u{e9}", "\u{ffff}", "\u{10000}"] {
        for b in ["", "a", "ab", "b", "\u{e9}", "\u{ffff}", "\u{10000}"] {
            let expected = if a < b {
                Comparison::Less
            } else if a == b {
                Comparison::Equal
            } else {
                Comparison::Greater
            };
            assert_eq!(compare_str(a, b), expected);
        }
    }
}

#[test]
fn paths_are_compared_by_component() {
    assert_eq!(path(&["/", "a"]).compare(&path(&["/", "a", "b"])), Comparison::Less);
    assert_eq!(path(&["/", "a", "z"]).compare(&path(&["/", "a-b"])), Comparison::Less);
    assert_eq!(path(&["/", "b"]).compare(&path(&["/", "a", "b"])), Comparison::Greater);
    assert_eq!(path(&["/", "a"]).clone().compare(&path(&["/", "a"])), Comparison::Equal);
}

#[test]
fn paths_are_ordered_as_by_std() {
    let paths: Vec<Vec<&str>> = vec![
        vec![],
        vec!["/"],
        vec!["/", "a"],
        vec!["."],
        vec![".", "a"],
        vec![".."],
        vec!["..", ".."],
        vec!["!x"],
        vec!["a"],
        vec!["a", "b"],
        vec!["a", ".."],
        vec!["a-b"],
    ];
    for a in &paths {
        for b in &paths {
            let (x, y): (PathBuf, PathBuf) = (a.iter().collect(), b.iter().collect());
            let expected = if x < y {
                Comparison::Less
            } else if x == y {
                Comparison::Equal
            } else {
                Comparison::Greater
            };
            assert_eq!(path(a).compare(&path(b)), expected);
            assert_eq!(path(a).starts_with(&path(b)), x.starts_with(&y));
        }
    }
}

#[test]
fn prefixes_come_first_and_in_order() {
    let kinds = [
        ComponentKind::Verbatim,
        ComponentKind::VerbatimUnc,
        ComponentKind::VerbatimDisk,
        ComponentKind::DeviceNs,
        ComponentKind::Unc,
        ComponentKind::Disk,
        ComponentKind::RootDir,
    ];
    let component = |kind: ComponentKind, names: &[&str]| PathComponent {
        kind,
        names: names.iter().map(|name| name.as_bytes().to_vec()).collect(),
    };
    for i in 1..kinds.len() {
        let (a, b) = (component(kinds[i - 1], &["z"]), component(kinds[i], &["a"]));
        assert_eq!(a.compare(&b), Comparison::Less);
        assert_eq!(b.compare(&a), Comparison::Greater);
    }
    let share = component(ComponentKind::Unc, &["server", "a"]);
    assert_eq!(share.compare(&component(ComponentKind::Unc, &["server", "b"])), Comparison::Less);
    assert_eq!(share.compare(&component(ComponentKind::Unc, &["other", "b"])), Comparison::Greater);
    assert_eq!(share.clone().compare(&share), Comparison::Equal);
}

#[test]
fn only_whole_components_match() {
    assert!(path(&["/", "ab", "c"]).starts_with(&path(&["/", "ab"])));
    assert!(path(&["/", "ab"]).starts_with(&path(&["/", "ab"])));
    assert!(path(&["/", "ab"]).starts_with(&path(&[])));
    assert!(!path(&["/", "ab"]).starts_with(&path(&["/", "a"])));
    assert!(!path(&["/"]).starts_with(&path(&["/", "a"])));
}

#[test]
fn path_map_is_kept_in_order() {
    let mut map = PathMap::new();
    map.insert(path(&["b"]), 1);
    map.insert(path(&["a", "c"]), 2);
    map.insert(path(&["a"]), 3);
    map.insert(path(&["b"]), 4);
    assert_eq!(map.len(), 3);
    let values: Vec<i32> = (0..map.len()).map(|index| *map.value_at(index)).collect();
    assert_eq!(values, vec![3, 2, 4]);
    assert!(map.path_at(1).compare(&path(&["a", "c"])) == Comparison::Equal);
    assert_eq!(map.get(&path(&["b"])), Some(&4));
    assert_eq!(map.get(&path(&["c"])), None);
    assert_eq!(map.remove(&path(&["a"])), Some(3));
    assert_eq!(map.remove(&path(&["a"])), None);
    assert_eq!(map.len(), 2);
}

#[test]
fn null_does_not_override() {
    let target = || object(vec![("a", number("1")), ("b", Json::Bool(true))]);
    assert_eq!(text(&merge(vec![target(), Json::Null])), text(&target()));
    assert_eq!(
        text(&merge(vec![target(), object(vec![("a", Json::Null), ("c", Json::Null)])])),
        text(&target())
    );
}

#[test]
fn last_value_wins() {
    assert_eq!(text(&merge(vec![number("1"), number("2")])), text(&number("2")));
    assert_eq!(
        text(&merge(vec![object(vec![("a", number("1"))]), Json::Array(vec![])])),
        text(&Json::Array(vec![]))
    );
    assert_eq!(
        text(&merge(vec![number("1"), object(vec![("a", number("2"))])])),
        text(&object(vec![("a", number("2"))]))
    );
    assert_eq!(text(&merge(vec![])), text(&Json::Null));
}

#[test]
fn members_are_merged_in_depth() {
    let inner = |a: &str, b: &str| object(vec![("a", number(a)), ("b", number(b))]);
    let merged = merge(vec![
        object(vec![("x", inner("1", "2")), ("y", Json::Text("t".to_string()))]),
        object(vec![("x", object(vec![("b", number("3")), ("a", Json::Null)])), ("z", Json::Bool(false))]),
    ]);
    let expected = object(vec![
        ("x", inner("1", "3")),
        ("y", Json::Text("t".to_string())),
        ("z", Json::Bool(false)),
    ]);
    assert_eq!(text(&merged), text(&expected));
}

#[test]
fn merging_again_changes_nothing() {
    let source = || object(vec![("a", object(vec![("n", Json::Null), ("k", number("1"))]))]);
    let target = || object(vec![("b", number("2"))]);
    assert_eq!(
        text(&merge(vec![target(), source(), source()])),
        text(&merge(vec![target(), source()]))
    );
    assert_eq!(text(&merge(vec![source(), source()])), text(&source()));
}

#[test]
fn inserted_member_replaces_the_one_of_its_key() {
    let mut object = JsonObject::new();
    object.insert("a".to_string(), number("1"));
    object.insert("b".to_string(), number("2"));
    object.insert("a".to_string(), number("3"));
    let entries = object.into_entries();
    assert_eq!(entries.len(), 2);
    assert_eq!(entries[0].0, "a");
    assert_eq!(text(&entries[0].1), text(&number("3")));
    assert_eq!(entries[1].0, "b");
}

/// Two optional numbers in a file, which the value needs both.
struct Pair;

impl JsonCodec<(Option<u32>, Option<u32>), Vec<String>> for Pair {
    fn to_json(&self, content: &(Option<u32>, Option<u32>)) -> Json {
        let json = |value: Option<u32>| match value {
            Some(value) => number(&value.to_string()),
            None => Json::Null,
        };
        object(vec![("a", json(content.0)), ("b", json(content.1))])
    }

    fn from_json(&self, json: Json) -> Result<Vec<String>, String> {
        let members = match json {
            Json::Object(members) => members.into_entries(),
            _ => return Err("no object".to_string()),
        };
        let mut values = Vec::new();
        for name in ["a", "b"] {
            match members.iter().find(|(key, _)| key == name) {
                Some((_, Json::Number(text))) => values.push(text.clone()),
                _ => return Err(format!("missing field {}", name)),
            }
        }
        Ok(values)
    }
}

#[test]
fn merged_value_without_a_needed_field_is_reported() {
    let result = try_load_via_json_merge(&Pair, &(Some(1), None), &[]);
    assert_eq!(result, Err("missing field b".to_string()));
    let result = try_load_via_json_merge(&Pair, &(Some(1), None), &[&(None, Some(2))]);
    assert_eq!(result, Ok(vec!["1".to_string(), "2".to_string()]));
}

#[test]
fn value_given_twice_changes_nothing() {
    let (first, second) = ((Some(1), Some(2)), (None, Some(3)));
    let once = try_load_via_json_merge(&Pair, &first, &[&second]);
    let twice = try_load_via_json_merge(&Pair, &first, &[&second, &second]);
    assert_eq!(once, Ok(vec!["1".to_string(), "3".to_string()]));
    assert_eq!(once, twice);
    assert_eq!(
        try_load_via_json_merge(&Pair, &first, &[&first]),
        try_load_via_json_merge(&Pair, &first, &[])
    );
}

#[test]
fn null_layers_change_nothing() {
    let (first, second, nulls) = ((Some(1), Some(2)), (None, Some(3)), (None, None));
    let expected = try_load_via_json_merge(&Pair, &first, &[&second]);
    assert_eq!(expected, Ok(vec!["1".to_string(), "3".to_string()]));
    assert_eq!(try_load_via_json_merge(&Pair, &first, &[&nulls, &second]), expected);
    assert_eq!(try_load_via_json_merge(&Pair, &first, &[&second, &nulls]), expected);
}
