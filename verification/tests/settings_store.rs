use serde_json::Value;
use settings::{ComponentKind, Json, JsonCodec, JsonObject, PathComponent};
use settings::{Setting, SettingsPath, SettingsStore};
use std::any::Any;
use std::path::{Component, Path};

#[test]
fn test_settings_store() {
    let mut store = SettingsStore::default();
    register_setting::<UserSettings>(&mut store);
    register_setting::<TurboSetting>(&mut store);
    register_setting::<MultiKeySettings>(&mut store);

    // error - missing required field in default settings
    store
        .set_default_settings(
            r#"{
                    "user": {
                        "name": "John Doe",
                        "age": 30,
                        "staff": false
                    }
                }"#,
        )
        .unwrap_err();

    // error - type error in default settings
    store
        .set_default_settings(
            r#"{
                    "turbo": "the-wrong-type",
                    "user": {
                        "name": "John Doe",
                        "age": 30,
                        "staff": false
                    }
                }"#,
        )
        .unwrap_err();

    // valid default settings.
    store
        .set_default_settings(
            r#"{
                    "turbo": false,
                    "user": {
                        "name": "John Doe",
                        "age": 30,
                        "staff": false
                    }
                }"#,
        )
        .unwrap();

    assert_eq!(get::<TurboSetting>(&store, None), &TurboSetting(false));
    assert_eq!(
        get::<UserSettings>(&store, None),
        &UserSettings {
            name: "John Doe".to_string(),
            age: 30,
            staff: false,
        }
    );
    assert_eq!(
        get::<MultiKeySettings>(&store, None),
        &MultiKeySettings {
            key1: String::new(),
            key2: String::new(),
        }
    );

    store
        .set_user_settings(
            r#"{
                    "turbo": true,
                    "user": { "age": 31 },
                    "key1": "a"
                }"#,
        )
        .unwrap();

    assert_eq!(get::<TurboSetting>(&store, None), &TurboSetting(true));
    assert_eq!(
        get::<UserSettings>(&store, None),
        &UserSettings {
            name: "John Doe".to_string(),
            age: 31,
            staff: false
        }
    );

    store
        .set_local_settings(
            settings_path(Path::new("/root1")),
            Some(r#"{ "user": { "staff": true } }"#),
        )
        .unwrap();
    store
        .set_local_settings(
            settings_path(Path::new("/root1/subdir")),
            Some(r#"{ "user": { "name": "Jane Doe" } }"#),
        )
        .unwrap();

    store
        .set_local_settings(
            settings_path(Path::new("/root2")),
            Some(r#"{ "user": { "age": 42 }, "key2": "b" }"#),
        )
        .unwrap();

    assert_eq!(
        get::<UserSettings>(&store, Some(Path::new("/root1/something"))),
        &UserSettings {
            name: "John Doe".to_string(),
            age: 31,
            staff: true
        }
    );
    assert_eq!(
        get::<UserSettings>(&store, Some(Path::new("/root1/subdir/something"))),
        &UserSettings {
            name: "Jane Doe".to_string(),
            age: 31,
            staff: true
        }
    );
    assert_eq!(
        get::<UserSettings>(&store, Some(Path::new("/root2/something"))),
        &UserSettings {
            name: "John Doe".to_string(),
            age: 42,
            staff: false
        }
    );
    assert_eq!(
        get::<MultiKeySettings>(&store, Some(Path::new("/root2/something"))),
        &MultiKeySettings {
            key1: "a".to_string(),
            key2: "b".to_string(),
        }
    );
}

#[derive(Debug, PartialEq)]
struct UserSettings {
    name: String,
    age: u32,
    staff: bool,
}

struct UserSettingsJson {
    name: Option<String>,
    age: Option<u32>,
    staff: Option<bool>,
}

impl TypedSetting for UserSettings {
    const TYPE_ID: u64 = 1;
    const FIELD_NAME: Option<&'static str> = Some("user");
    type FileContent = UserSettingsJson;

    fn deserialize(json: &str) -> Result<UserSettingsJson, String> {
        let fields = object(json)?;
        Ok(UserSettingsJson {
            name: optional(&fields, "name", string)?,
            age: optional(&fields, "age", number)?,
            staff: optional(&fields, "staff", boolean)?,
        })
    }

    fn to_value(content: &UserSettingsJson) -> Value {
        let mut fields = serde_json::Map::new();
        fields.insert("name".to_string(), Value::from(content.name.clone()));
        fields.insert("age".to_string(), Value::from(content.age));
        fields.insert("staff".to_string(), Value::from(content.staff));
        Value::Object(fields)
    }

    fn from_value(value: Value) -> Option<Self> {
        let fields = value.as_object()?.clone();
        Some(UserSettings {
            name: string(fields.get("name")?)?,
            age: number(fields.get("age")?)?,
            staff: boolean(fields.get("staff")?)?,
        })
    }
}

#[derive(Debug, PartialEq)]
struct TurboSetting(bool);

impl TypedSetting for TurboSetting {
    const TYPE_ID: u64 = 2;
    const FIELD_NAME: Option<&'static str> = Some("turbo");
    type FileContent = Option<bool>;

    fn deserialize(json: &str) -> Result<Option<bool>, String> {
        serde_json::from_str::<Option<bool>>(json).map_err(|error| error.to_string())
    }

    fn to_value(content: &Option<bool>) -> Value {
        Value::from(*content)
    }

    fn from_value(value: Value) -> Option<Self> {
        Some(TurboSetting(value.as_bool()?))
    }
}

#[derive(Clone, Debug, PartialEq)]
struct MultiKeySettings {
    key1: String,
    key2: String,
}

struct MultiKeySettingsJson {
    key1: Option<String>,
    key2: Option<String>,
}

impl TypedSetting for MultiKeySettings {
    const TYPE_ID: u64 = 3;
    const FIELD_NAME: Option<&'static str> = None;
    type FileContent = MultiKeySettingsJson;

    fn deserialize(json: &str) -> Result<MultiKeySettingsJson, String> {
        let fields = object(json)?;
        Ok(MultiKeySettingsJson {
            key1: optional(&fields, "key1", string)?,
            key2: optional(&fields, "key2", string)?,
        })
    }

    fn to_value(content: &MultiKeySettingsJson) -> Value {
        let mut fields = serde_json::Map::new();
        fields.insert("key1".to_string(), Value::from(content.key1.clone()));
        fields.insert("key2".to_string(), Value::from(content.key2.clone()));
        Value::Object(fields)
    }

    fn from_value(value: Value) -> Option<Self> {
        let fields = value.as_object()?.clone();
        let text = |name: &str| match fields.get(name) {
            Some(value) => string(value),
            None => Some(String::new()),
        };
        Some(MultiKeySettings { key1: text("key1")?, key2: text("key2")? })
    }
}

fn object(json: &str) -> Result<serde_json::Map<String, Value>, String> {
    serde_json::from_str::<serde_json::Map<String, Value>>(json).map_err(|error| error.to_string())
}

fn optional<T>(
    fields: &serde_json::Map<String, Value>,
    name: &str,
    read: fn(&Value) -> Option<T>,
) -> Result<Option<T>, String> {
    match fields.get(name) {
        None | Some(Value::Null) => Ok(None),
        Some(value) => read(value).map(Some).ok_or(format!("invalid type of {}", name)),
    }
}

fn string(value: &Value) -> Option<String> {
    value.as_str().map(|text| text.to_string())
}

fn number(value: &Value) -> Option<u32> {
    value.as_u64().and_then(|number| u32::try_from(number).ok())
}

fn boolean(value: &Value) -> Option<bool> {
    value.as_bool()
}

/// A type of setting whose values are combined by merging them as JSON.
trait TypedSetting: Sized + 'static {
    const TYPE_ID: u64;
    const FIELD_NAME: Option<&'static str>;
    type FileContent: 'static;

    fn deserialize(json: &str) -> Result<Self::FileContent, String>;
    fn to_value(content: &Self::FileContent) -> Value;
    fn from_value(value: Value) -> Option<Self>;
}

/// A typed setting behind functions on values of any type.
struct ErasedSetting {
    field_name: Option<&'static str>,
    deserialize: fn(&str) -> Result<Box<dyn Any>, String>,
    to_value: fn(&Box<dyn Any>) -> Value,
    from_value: fn(Value) -> Result<Box<dyn Any>, String>,
}

impl ErasedSetting {
    fn of<T: TypedSetting>() -> Self {
        ErasedSetting {
            field_name: T::FIELD_NAME,
            deserialize: |json| Ok(Box::new(T::deserialize(json)?)),
            to_value: |content| T::to_value(content.downcast_ref::<T::FileContent>().unwrap()),
            from_value: |value| match T::from_value(value) {
                Some(value) => Ok(Box::new(value)),
                None => Err("not a value of this setting".to_string()),
            },
        }
    }
}

impl Setting for ErasedSetting {
    type FileContent = Box<dyn Any>;
    type Value = Box<dyn Any>;

    fn field_name(&self) -> Option<&'static str> {
        self.field_name
    }

    fn deserialize(&self, json: &str) -> Result<Box<dyn Any>, String> {
        (self.deserialize)(json)
    }

    fn load(&self, default_value: &Box<dyn Any>, user_values: &[&Box<dyn Any>]) -> Box<dyn Any> {
        self.load_via_json_merge(default_value, user_values)
    }
}

impl JsonCodec<Box<dyn Any>, Box<dyn Any>> for ErasedSetting {
    fn to_json(&self, content: &Box<dyn Any>) -> Json {
        json_of((self.to_value)(content))
    }

    fn from_json(&self, json: Json) -> Result<Box<dyn Any>, String> {
        (self.from_value)(value_of(json))
    }
}

fn register_setting<T: TypedSetting>(store: &mut SettingsStore<ErasedSetting>) {
    store.register_setting(T::TYPE_ID, ErasedSetting::of::<T>());
}

fn get<'a, T: TypedSetting>(store: &'a SettingsStore<ErasedSetting>, path: Option<&Path>) -> &'a T {
    let path = path.map(settings_path);
    store.get(T::TYPE_ID, path.as_ref()).downcast_ref::<T>().unwrap()
}

fn settings_path(path: &Path) -> SettingsPath {
    SettingsPath::new(
        path.components()
            .map(|component| match component {
                Component::RootDir => PathComponent { kind: ComponentKind::RootDir, names: vec![] },
                Component::Normal(name) => PathComponent {
                    kind: ComponentKind::Normal,
                    names: vec![name.as_encoded_bytes().to_vec()],
                },
                _ => panic!("paths in this test are absolute"),
            })
            .collect(),
    )
}

fn json_of(value: Value) -> Json {
    match value {
        Value::Null => Json::Null,
        Value::Bool(value) => Json::Bool(value),
        Value::Number(number) => Json::Number(number.to_string()),
        Value::String(text) => Json::Text(text),
        Value::Array(items) => Json::Array(items.into_iter().map(json_of).collect()),
        Value::Object(fields) => {
            let mut object = JsonObject::new();
            for (key, value) in fields {
                object.insert(key, json_of(value));
            }
            Json::Object(object)
        }
    }
}

fn value_of(json: Json) -> Value {
    match json {
        Json::Null => Value::Null,
        Json::Bool(value) => Value::Bool(value),
        Json::Number(text) => serde_json::from_str::<Value>(&text).unwrap(),
        Json::Text(text) => Value::String(text),
        Json::Array(items) => Value::Array(items.into_iter().map(value_of).collect()),
        Json::Object(object) => Value::Object(
            object.into_entries().into_iter().map(|(key, json)| (key, value_of(json))).collect(),
        ),
    }
}
