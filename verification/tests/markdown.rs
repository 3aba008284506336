use anime_tool::json::JsonValue;
use anime_tool::markdown::{
    find_meta_blocks, find_named_code_block, match_candidates, normalize_output_value,
    parse_match, parse_meta, split_sections, update_named_block, MatchError,
};

fn lines(text: &str) -> Vec<String> {
    text.lines().map(|l| l.to_string()).collect()
}

#[test]
fn sections_follow_headings() {
    let ls = lines("intro\n# One #\nbody\n  ## Two\n#\n");
    let sections = split_sections(&ls);
    assert_eq!(sections.len(), 4);
    assert_eq!((sections[0].start, sections[0].end), (0, 1));
    assert!(sections[0].title.is_none());
    assert_eq!(sections[1].title.as_deref(), Some("One"));
    assert_eq!((sections[2].start, sections[2].end), (3, 4));
    assert_eq!(sections[2].title.as_deref(), Some("Two"));
    assert_eq!(sections[3].title.as_deref(), Some(""));
}

#[test]
fn document_without_headings_is_one_section() {
    let ls = lines("a\nb");
    let sections = split_sections(&ls);
    assert_eq!(sections.len(), 1);
    assert_eq!((sections[0].start, sections[0].end), (0, 2));
    assert_eq!(split_sections(&[]).len(), 1);
}

#[test]
fn meta_blocks_and_named_blocks() {
    let ls = lines("# T\n```meta\nmatch: a.json:x\n```\n```json\n{}\n```\n ``` out \nold\n```\n");
    assert_eq!(find_meta_blocks(&ls, 0, ls.len()), vec![(1, 3)]);
    assert_eq!(find_named_code_block(&ls, 0, ls.len(), "out"), Some((7, 9)));
    assert_eq!(find_named_code_block(&ls, 0, ls.len(), "json"), Some((4, 6)));
    assert_eq!(find_named_code_block(&ls, 0, ls.len(), "missing"), None);
}

#[test]
fn meta_lines_become_fields() {
    let ls = lines("  match: a.json:b/c \n# comment\n\nto:json out\n: no key\nmatch: again");
    let meta = parse_meta(&ls);
    let pairs: Vec<(String, String)> = meta.iter().map(|(k, v)| (k.clone(), v.clone())).collect();
    assert_eq!(
        pairs,
        vec![
            ("match".to_string(), "again".to_string()),
            ("to".to_string(), "json out".to_string())
        ]
    );
}

#[test]
fn output_values_are_flattened() {
    assert_eq!(normalize_output_value(&JsonValue::Null), "");
    assert_eq!(normalize_output_value(&JsonValue::Bool(true)), "true");
    assert_eq!(normalize_output_value(&JsonValue::Str("a\r\nb\rc\nd".to_string())), "a\\nb\\nc\\nd");
    assert_eq!(
        normalize_output_value(&JsonValue::Array(vec![JsonValue::Number("1".to_string())])),
        "[1]"
    );
}

#[test]
fn block_fields_are_updated_and_appended() {
    let mut content = lines("name: old\nother: keep\n\n");
    let fields = vec!["name".to_string(), "date".to_string(), "missing".to_string()];
    let source = vec![
        ("name".to_string(), JsonValue::Str("New".to_string())),
        ("date".to_string(), JsonValue::Number("2013".to_string())),
    ];
    update_named_block(&mut content, &fields, &source);
    assert_eq!(content, lines("name: New\nother: keep\ndate: 2013"));
}

#[test]
fn match_values_split_at_an_existing_file() {
    let value = " C:/data/a.json:episodes[0] ";
    let candidates = match_candidates(value);
    assert_eq!(candidates, vec!["C:/data/a.json".to_string(), "C".to_string()]);
    let (file, path) = parse_match(value, &[true, false]).ok().unwrap();
    assert_eq!((file.as_str(), path.as_str()), ("C:/data/a.json", "episodes[0]"));
    let (file, path) = parse_match(value, &[false, true]).ok().unwrap();
    assert_eq!((file.as_str(), path.as_str()), ("C", "/data/a.json:episodes[0]"));
    let (file, path) = parse_match(value, &[false, false]).ok().unwrap();
    assert_eq!((file.as_str(), path.as_str()), ("C:/data/a.json", "episodes[0]"));
}

#[test]
fn bad_match_values_are_errors() {
    assert!(matches!(parse_match("   ", &[]), Err(MatchError::Empty)));
    assert!(matches!(parse_match("no-colon", &[]), Err(MatchError::Format)));
    assert!(matches!(parse_match("file:", &[]), Err(MatchError::Format)));
}

#[test]
fn fields_not_wanted_are_kept() {
    let mut content = vec!["extra: mine".to_string()];
    let fields = vec!["name".to_string()];
    let source = vec![
        ("extra".to_string(), JsonValue::Str("theirs".to_string())),
        ("name".to_string(), JsonValue::Str("N".to_string())),
    ];
    update_named_block(&mut content, &fields, &source);
    assert_eq!(content, vec!["extra: mine".to_string(), "name: N".to_string()]);
}
