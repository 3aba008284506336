use anime_tool::md_table::{parse_db_target, parse_file, DbTargetError};

fn lines(text: &str) -> Vec<String> {
    text.lines().map(|l| l.to_string()).collect()
}

fn pairs(m: &indexmap::IndexMap<String, String>) -> Vec<(String, String)> {
    m.iter().map(|(k, v)| (k.clone(), v.clone())).collect()
}

#[test]
fn headings_become_rows_and_meta_keys_columns() {
    let ls = lines("# A\n```meta\nk: 1\n```\n# B\n```meta\nj: 2\nk: 3\ntitle: Other\n```\n");
    let (columns, rows) = parse_file(&ls, "notes.md");
    assert_eq!(columns, vec!["title".to_string(), "k".to_string(), "j".to_string()]);
    assert_eq!(rows.len(), 2);
    assert_eq!(pairs(&rows[0]), vec![("title".to_string(), "A".to_string()), ("k".to_string(), "1".to_string())]);
    assert_eq!(
        pairs(&rows[1]),
        vec![
            ("title".to_string(), "Other".to_string()),
            ("j".to_string(), "2".to_string()),
            ("k".to_string(), "3".to_string())
        ]
    );
}

#[test]
fn text_before_headings_takes_the_file_name() {
    let ls = lines("intro\n# A");
    let (_, rows) = parse_file(&ls, "notes.md");
    assert_eq!(rows.len(), 2);
    assert_eq!(pairs(&rows[0]), vec![("title".to_string(), "notes.md".to_string())]);
}

#[test]
fn db_targets_split_at_the_last_colon() {
    assert_eq!(parse_db_target("C:/db.sqlite:anime").ok().unwrap(), ("C:/db.sqlite".to_string(), "anime".to_string()));
    assert!(matches!(parse_db_target("db.sqlite"), Err(DbTargetError::Format)));
    assert!(matches!(parse_db_target("db.sqlite:"), Err(DbTargetError::Empty)));
    assert!(matches!(parse_db_target(":t"), Err(DbTargetError::Empty)));
}
