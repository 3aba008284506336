use anime_tool::json::JsonValue;
use anime_tool::json_format::{format_json, to_one_line_string};
use anime_tool::json_path::{resolve, PathError};

fn s(v: &str) -> JsonValue {
    JsonValue::Str(v.to_string())
}

fn n(v: &str) -> JsonValue {
    JsonValue::Number(v.to_string())
}

fn obj(fields: Vec<(&str, JsonValue)>) -> JsonValue {
    JsonValue::Object(fields.into_iter().map(|(k, v)| (k.to_string(), v)).collect())
}

fn sample() -> JsonValue {
    obj(vec![
        ("subject", obj(vec![("date", s("2013-04-01")), ("name", s("Show"))])),
        (
            "episodes",
            JsonValue::Array(vec![
                obj(vec![("name", s("A")), ("duration", n("1500"))]),
                obj(vec![("name", s("B")), ("duration", n("1400")), ("aired", JsonValue::Bool(true))]),
            ]),
        ),
    ])
}

fn compact(r: Result<JsonValue, PathError>) -> String {
    r.unwrap().to_compact()
}

#[test]
fn empty_path_gives_the_root() {
    let root = sample();
    assert_eq!(compact(resolve(&root, "")), root.to_compact());
    assert_eq!(compact(resolve(&root, "//")), root.to_compact());
}

#[test]
fn field_index_and_filter_segments() {
    let root = sample();
    assert_eq!(compact(resolve(&root, "subject/date")), "\"2013-04-01\"");
    assert_eq!(compact(resolve(&root, "/episodes[1]/name/")), "\"B\"");
    assert_eq!(compact(resolve(&root, "episodes[duration=1400]/name")), "\"B\"");
    assert_eq!(compact(resolve(&root, "episodes[aired=TRUE]/name")), "\"B\"");
}

#[test]
fn path_errors_name_what_is_missing() {
    let root = sample();
    assert!(matches!(resolve(&root, "subject/nonexistent"), Err(PathError::MissingField(f)) if f == "nonexistent"));
    assert!(matches!(resolve(&root, "episodes[5]"), Err(PathError::IndexOutOfBounds(f, 5)) if f == "episodes"));
    assert!(matches!(resolve(&root, "subject[0]"), Err(PathError::NotAnArray(f)) if f == "subject"));
    assert!(matches!(resolve(&root, "nope[0]"), Err(PathError::MissingArrayField(f)) if f == "nope"));
    assert!(matches!(resolve(&root, "episodes[duration=1]"), Err(PathError::NoMatchingItem(..))));
}

#[test]
fn resolving_in_two_steps_is_resolving_the_joined_path() {
    let root = sample();
    let mid = resolve(&root, "episodes[0]").unwrap();
    assert_eq!(compact(resolve(&mid, "duration")), compact(resolve(&root, "episodes[0]/duration")));
}

#[test]
fn one_line_string_layout() {
    let v = obj(vec![("a", JsonValue::Array(vec![n("1"), JsonValue::Null])), ("b", s("x\ny"))]);
    assert_eq!(to_one_line_string(&v), "{\"a\":[1, null], \"b\":\"\nx\ny\n\"}");
}

#[test]
fn test_format_json() {
    let json = obj(vec![
        ("name", s("Alice")),
        ("age", n("30")),
        ("hobbies", JsonValue::Array(vec![s("reading"), s("traveling"), s("coding")])),
        ("address", obj(vec![("street", s("123 Main St")), ("city", s("Wonderland"))])),
    ]);
    let formatted = format_json(&json, 40);
    println!("{}", formatted);
}

#[test]
fn format_json_breaks_only_what_does_not_fit() {
    let json = obj(vec![
        ("name", s("Alice")),
        ("age", n("30")),
        ("hobbies", JsonValue::Array(vec![s("reading"), s("traveling"), s("coding")])),
        ("address", obj(vec![("street", s("123 Main St")), ("city", s("Wonderland"))])),
    ]);
    assert_eq!(
        format_json(&json, 40),
        "{\n  \"name\": \"Alice\",\n  \"age\": 30,\n  \"hobbies\": [\"reading\", \"traveling\", \"coding\"],\n  \"address\": {\n    \"street\": \"123 Main St\",\n    \"city\": \"Wonderland\"\n  }\n}"
    );
    assert_eq!(format_json(&JsonValue::Array(vec![]), 0), "[]");
    assert_eq!(format_json(&s("long text"), 3), "\"\nlong text\n\"");
}

#[test]
fn non_ascii_decimal_index_is_an_invalid_index() {
    let root = sample();
    assert!(matches!(resolve(&root, "episodes[٣]"), Err(PathError::InvalidIndex(d)) if d == "٣"));
    assert!(matches!(resolve(&root, "nope[１]"), Err(PathError::InvalidIndex(d)) if d == "１"));
    assert!(matches!(
        resolve(&root, "episodes[99999999999999999999999]"),
        Err(PathError::InvalidIndex(_))
    ));
    assert!(matches!(resolve(&root, "episodes[x]"), Err(PathError::MissingField(f)) if f == "episodes[x]"));
}
