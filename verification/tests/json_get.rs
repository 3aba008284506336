use anime_tool::json::JsonValue;
use anime_tool::json_select::select;
use anime_tool::markdown::{parse_target, MatchError};

fn text(s: &str) -> JsonValue {
    JsonValue::Str(s.to_string())
}

fn number(s: &str) -> JsonValue {
    JsonValue::Number(s.to_string())
}

fn object(fields: Vec<(&str, JsonValue)>) -> JsonValue {
    JsonValue::Object(fields.into_iter().map(|(k, v)| (k.to_string(), v)).collect())
}

/// The document the selections read: a subject and three episodes, the last without
/// an air date.
fn fixture() -> JsonValue {
    object(vec![
        (
            "subject",
            object(vec![("date", text("2013-04-01")), ("name", text("Anime Name"))]),
        ),
        (
            "episodes",
            JsonValue::Array(vec![
                object(vec![
                    ("id", number("1687829")),
                    ("airdate", text("2013-04-07")),
                    ("name", text("Episode Name A")),
                    ("duration", number("1500")),
                ]),
                object(vec![
                    ("id", number("1687830")),
                    ("airdate", text("2013-04-14")),
                    ("name", text("Episode Name B")),
                    ("duration", number("1600")),
                ]),
                object(vec![
                    ("id", number("1687831")),
                    ("name", text("Episode Name C")),
                    ("duration", number("1500")),
                ]),
            ]),
        ),
    ])
}

fn to_serde(v: &JsonValue) -> serde_json::Value {
    match v {
        JsonValue::Null => serde_json::Value::Null,
        JsonValue::Bool(b) => serde_json::Value::Bool(*b),
        JsonValue::Number(t) => serde_json::from_str(t).unwrap(),
        JsonValue::Str(s) => serde_json::Value::String(s.clone()),
        JsonValue::Array(items) => serde_json::Value::Array(items.iter().map(to_serde).collect()),
        JsonValue::Object(entries) => {
            let mut m = serde_json::Map::new();
            for (k, x) in entries {
                m.insert(k.clone(), to_serde(x));
            }
            serde_json::Value::Object(m)
        }
    }
}

/// What the program prints for a selection: a string as it is, nothing selected as `{}`,
/// anything else as indented JSON.
fn printed(r: Option<JsonValue>) -> String {
    match r {
        None => "{}".to_string(),
        Some(JsonValue::Str(s)) => s,
        Some(v) => serde_json::to_string_pretty(&to_serde(&v)).unwrap(),
    }
}

fn run(path: &str) -> String {
    printed(select(&fixture(), path))
}

#[test]
fn empty_path_returns_whole_json() {
    let stdout = run("");
    assert!(stdout.contains("\"subject\""));
    assert!(stdout.contains("\"episodes\""));
}

#[test]
fn single_field_path() {
    assert_eq!(run("subject/date"), "{\n  \"subject\": {\n    \"date\": \"2013-04-01\"\n  }\n}");
}

#[test]
fn group_with_space_separator() {
    assert_eq!(
        run("subject/{date name}"),
        "{\n  \"subject\": {\n    \"date\": \"2013-04-01\",\n    \"name\": \"Anime Name\"\n  }\n}"
    );
}

#[test]
fn group_with_comma_separator() {
    assert_eq!(
        run("subject/{date, name}"),
        "{\n  \"subject\": {\n    \"date\": \"2013-04-01\",\n    \"name\": \"Anime Name\"\n  }\n}"
    );
}

#[test]
fn array_field_auto_maps_and_keeps_empty_object_when_missing() {
    let expected = "{\n  \"episodes\": [\n    {\n      \"airdate\": \"2013-04-07\"\n    },\n    {\n      \"airdate\": \"2013-04-14\"\n    },\n    {}\n  ]\n}";
    assert_eq!(run("episodes/airdate"), expected);
}

#[test]
fn array_filter_with_group_fields() {
    let expected = "{\n  \"episodes\": [\n    {\n      \"name\": \"Episode Name A\",\n      \"airdate\": \"2013-04-07\"\n    },\n    {\n      \"name\": \"Episode Name C\"\n    }\n  ]\n}";
    assert_eq!(run("episodes[duration=1500]/{name airdate}"), expected);
}

#[test]
fn recursive_group_combines_multiple_paths() {
    let expected = "{\n  \"subject\": {\n    \"date\": \"2013-04-01\"\n  },\n  \"episodes\": [\n    {\n      \"name\": \"Episode Name A\",\n      \"airdate\": \"2013-04-07\"\n    },\n    {\n      \"name\": \"Episode Name C\"\n    }\n  ]\n}";
    assert_eq!(run("{subject/date episodes[duration=1500]/{name airdate}}"), expected);
}

#[test]
fn missing_field_returns_empty_object() {
    assert!(select(&fixture(), "subject/nonexistent").is_none());
    assert_eq!(run("subject/nonexistent"), "{}");
}

#[test]
fn empty_group_returns_empty_object() {
    assert_eq!(run("subject/{}"), "{\n  \"subject\": {}\n}");
}

#[test]
fn stdin_input_is_supported() {
    let target = "/data/object.json:subject/date";
    let (file, path) = parse_target(target, &[true]).unwrap();
    assert_eq!(file, "/data/object.json");
    assert_eq!(
        printed(select(&fixture(), &path)),
        "{\n  \"subject\": {\n    \"date\": \"2013-04-01\"\n  }\n}"
    );
}

#[test]
fn target_with_empty_path_names_the_whole_file() {
    assert_eq!(
        parse_target(" /data/object.json: ", &[]),
        Ok(("/data/object.json".to_string(), String::new()))
    );
    assert_eq!(parse_target("   ", &[]), Err(MatchError::Empty));
    assert_eq!(parse_target(":", &[]), Err(MatchError::Format));
    assert_eq!(parse_target("no-colon", &[]), Err(MatchError::Format));
}

#[test]
fn index_and_scalar_selections() {
    let episode_b = "{\n  \"episodes\": {\n    \"name\": \"Episode Name B\"\n  }\n}";
    assert_eq!(run("episodes[1]/name"), episode_b);
    assert!(select(&fixture(), "episodes[3]/name").is_none());
    assert_eq!(run("/subject//name/"), "{\n  \"subject\": {\n    \"name\": \"Anime Name\"\n  }\n}");
    assert_eq!(printed(select(&text("plain"), "")), "plain");
    assert!(select(&fixture(), "subject/date/more").is_none());
    assert_eq!(run("episodes[duration=9]"), "{\n  \"episodes\": []\n}");
}

#[test]
fn first_member_of_a_name_is_kept() {
    let expected = "{\n  \"subject\": {\n    \"date\": \"2013-04-01\"\n  }\n}";
    assert_eq!(run("{subject/date subject/name}"), expected);
}

#[test]
fn array_selection_has_one_value_per_item() {
    let items = JsonValue::Array(vec![
        object(vec![("x", number("1"))]),
        text("scalar"),
        JsonValue::Array(vec![]),
    ]);
    match select(&items, "x/y") {
        Some(JsonValue::Array(out)) => assert_eq!(out.len(), 3),
        _ => panic!("an array selects an array"),
    }
    match select(&items, "{x}") {
        Some(JsonValue::Array(out)) => assert_eq!(out.len(), 3),
        _ => panic!("an array selects an array"),
    }
}

#[test]
fn non_ascii_decimal_index_selects_nothing() {
    assert!(select(&fixture(), "episodes[٣]/name").is_none());
    assert!(select(&fixture(), "episodes[１]").is_none());
}
