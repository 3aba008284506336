use anime_tool::json::{number_text_ok, JsonValue};
use anime_tool::markdown::normalize_output_value;

#[test]
fn number_text_follows_the_json_grammar() {
    for ok in ["0", "-0", "1500", "-12.5", "1e21", "1E+2", "2.5e-3", "-0.0"] {
        assert!(number_text_ok(ok), "{ok}");
    }
    for bad in ["", "-", "01", "1.", ".5", "1e", "1e+", "+1", "1\n2", "1 ", "0x10", "NaN", "1.2.3"] {
        assert!(!number_text_ok(bad), "{bad:?}");
    }
}

#[test]
fn numbers_are_built_only_from_number_text() {
    assert!(JsonValue::number("42".to_string()).is_some());
    assert!(JsonValue::number("4\r2".to_string()).is_none());
}

#[test]
fn validity_looks_into_arrays_and_objects() {
    let good = JsonValue::Object(vec![(
        "xs".to_string(),
        JsonValue::Array(vec![JsonValue::Number("1".to_string()), JsonValue::Str("a\nb".to_string())]),
    )]);
    assert!(good.is_valid());
    let bad = JsonValue::Object(vec![(
        "xs".to_string(),
        JsonValue::Array(vec![JsonValue::Number("1\n2".to_string())]),
    )]);
    assert!(!bad.is_valid());
}

#[test]
fn valid_meta_values_print_on_one_line() {
    let v = JsonValue::Array(vec![
        JsonValue::Str("a\r\nb".to_string()),
        JsonValue::Number("-1.5e3".to_string()),
        JsonValue::Null,
    ]);
    assert!(v.is_valid());
    let text = normalize_output_value(&v);
    assert_eq!(text, "[\"a\\r\\nb\",-1.5e3,null]");
    assert!(!text.contains('\n') && !text.contains('\r'));
    assert_eq!(normalize_output_value(&JsonValue::Str("a\r\nb\rc\nd".to_string())), "a\\nb\\nc\\nd");
    assert_eq!(normalize_output_value(&JsonValue::Null), "");
}
