use anime_tool::json::JsonValue;
use anime_tool::md_update::{
    apply_block, detect_newline, ends_with_newline, fill_block, join_lines, section_target,
};

fn lines(text: &str) -> Vec<String> {
    text.lines().map(|l| l.to_string()).collect()
}

#[test]
fn section_target_reads_match_and_to() {
    let ls = lines("# T\n```meta\nmatch: a.json:x\nto:  json out \n```\n");
    assert_eq!(
        section_target(&ls, 0, ls.len()),
        Some(("a.json:x".to_string(), "json out".to_string()))
    );
    let ls = lines("# T\n```meta\nmatch: a.json:x\nto:   \n```\n");
    assert_eq!(section_target(&ls, 0, ls.len()), None);
    let ls = lines("# T\ncontent without meta\n");
    assert_eq!(section_target(&ls, 0, ls.len()), None);
}

#[test]
fn existing_block_is_overwritten_in_place() {
    let mut ls = lines("# T\n```out\nstale\nstale\n```\ntail");
    apply_block(&mut ls, 0, 6, "out", vec!["new".to_string()]);
    assert_eq!(ls, lines("# T\n```out\nnew\n```\ntail"));
}

#[test]
fn missing_block_is_created_before_trailing_blanks() {
    let mut ls = lines("# T\ntext\n\n\n# Next");
    apply_block(&mut ls, 0, 4, "out", vec!["v".to_string()]);
    assert_eq!(ls, lines("# T\ntext\n\n```out\nv\n```\n\n\n\n# Next"));
    let mut only = lines("# T");
    apply_block(&mut only, 0, 1, "json", vec![]);
    assert_eq!(only, vec!["# T", "", "```json", "```", ""]);
}

#[test]
fn filled_block_reads_back() {
    let mut ls = lines("# T\n```json out\nold\n```");
    let value = JsonValue::Object(vec![("name".to_string(), JsonValue::Str("Episode Name A".to_string()))]);
    fill_block(&mut ls, 0, 4, "json out", &value);
    assert_eq!(ls, lines("# T\n```json out\n{\"name\":\"Episode Name A\"}\n```"));
}

#[test]
fn newline_style_is_detected() {
    assert_eq!(detect_newline("a\r\nb"), "\r\n");
    assert_eq!(detect_newline("a\rb"), "\r");
    assert_eq!(detect_newline("ab"), "\n");
    assert!(ends_with_newline("a\n"));
    assert!(!ends_with_newline(""));
    assert_eq!(join_lines(&lines("a\nb"), "\r\n"), "a\r\nb");
}

fn episode(id: &str, airdate: &str, name: &str, duration: &str) -> JsonValue {
    JsonValue::Object(vec![
        ("id".to_string(), JsonValue::Number(id.to_string())),
        ("airdate".to_string(), JsonValue::Str(airdate.to_string())),
        ("name".to_string(), JsonValue::Str(name.to_string())),
        ("duration".to_string(), JsonValue::Number(duration.to_string())),
    ])
}

#[test]
fn value_is_written_into_a_created_block() {
    let mut ls = lines("# Test Episode\n\n```meta\nmatch: object.json:episodes[id=1687829]\nto: json out\n```\n");
    let (_, target) = section_target(&ls, 0, ls.len()).unwrap();
    let end = ls.len();
    fill_block(&mut ls, 0, end, &target, &episode("1687829", "2013-04-07", "Episode Name A", "1500"));
    let text = join_lines(&ls, "\n");
    assert!(text.contains(
        "```json out\n{\n  \"id\": 1687829,\n  \"airdate\": \"2013-04-07\",\n  \"name\": \"Episode Name A\",\n  \"duration\": 1500\n}\n```"
    ));
}

#[test]
fn value_overwrites_an_existing_block() {
    let mut ls = lines("# Test Episode\n\n```meta\nmatch: object.json:episodes[id=1687830]\nto: json out\n```\n\n```json out\n{\n  \"stale\": true\n}\n```\n");
    let end = ls.len();
    fill_block(&mut ls, 0, end, "json out", &episode("1687830", "2013-04-14", "Episode Name B", "1600"));
    let text = join_lines(&ls, "\n");
    assert!(!text.contains("stale"));
    assert!(text.contains(
        "```json out\n{\n  \"id\": 1687830,\n  \"airdate\": \"2013-04-14\",\n  \"name\": \"Episode Name B\",\n  \"duration\": 1600\n}\n```"
    ));
}
