use anime_tool::ass::escape_ass_text;
use anime_tool::ass_merge::parse_rows;
use anime_tool::ass_merge::RowKind;
use anime_tool::markdown::{find_named_code_block, parse_match, split_sections};
use anime_tool::md_table::parse_db_target;
use anime_tool::prepare::{safe_file_name, sanitize_name};
use anime_tool::md_update::{apply_block, detect_newline, ends_with_newline, join_lines};
use anime_tool::text::lines_of;

fn written_back(text: &str) -> String {
    let newline = detect_newline(text);
    let mut out = join_lines(&lines_of(text), &newline);
    if ends_with_newline(text) {
        out.push_str(&newline);
    }
    out
}

#[test]
fn documents_keep_their_line_breaks() {
    for text in ["", "a", "a\n", "a\nb", "\n\nx\n", "a\r\nb\r\n", "a\r\n\r\nb", "\r\n"] {
        assert_eq!(written_back(text), text);
    }
}

#[test]
fn mixed_line_breaks_are_unified() {
    assert_eq!(written_back("a\r\nb\nc"), "a\r\nb\r\nc");
}

#[test]
fn overwritten_block_is_found_with_its_content() {
    let mut ls: Vec<String> = lines_of("# T\ntext\n```out\nold\nold\nold\n```\ntail");
    let content = vec!["n1".to_string(), "n2".to_string()];
    apply_block(&mut ls, 0, 8, "out", content.clone());
    let (a, b) = find_named_code_block(&ls, 0, 7, "out").unwrap();
    assert_eq!((a, b), (2, 5));
    assert_eq!(ls[a + 1..b].to_vec(), content);
}

#[test]
fn created_block_is_found_with_its_content() {
    let mut ls: Vec<String> = lines_of("# T\n```json other\nx\n```\ntext\n\n");
    let content = vec!["{}".to_string()];
    apply_block(&mut ls, 0, 6, "json out", content.clone());
    let (a, b) = find_named_code_block(&ls, 0, 6 + 5, "json out").unwrap();
    assert_eq!((a, b), (6, 8));
    assert_eq!(ls[a + 1..b].to_vec(), content);
}

#[test]
fn escaped_text_has_no_line_breaks() {
    let e = escape_ass_text("a\r\nb\nc\rd");
    assert!(!e.contains('\n') && !e.contains('\r'));
    assert_eq!(e, "a\\Nb\\Ncd");
}

#[test]
fn every_row_has_the_format_width() {
    let sec = "\nFormat: A, B, Text\nDialogue: 1,2,x,y,z\nDialogue: 3, 4 ,\n";
    let (format, rows) = parse_rows(sec, RowKind::Dialogue).ok().unwrap();
    assert!(rows.iter().all(|r| r.len() == format.len()));
    assert_eq!(rows[0][2], "x,y,z");
}

#[test]
fn sections_cover_the_document() {
    let ls = lines_of("pre\n# A\na\n## B\n\n# C");
    let sections = split_sections(&ls);
    assert_eq!(sections[0].start, 0);
    for pair in sections.windows(2) {
        assert_eq!(pair[0].end, pair[1].start);
    }
    assert_eq!(sections.last().unwrap().end, ls.len());
}

#[test]
fn match_values_are_only_cut() {
    let value = "  a:b.json:episodes[0]  ";
    for existing in [[true, false], [false, true], [false, false]] {
        let (file, path) = parse_match(value, &existing).ok().unwrap();
        assert_eq!(format!("{file}:{path}"), value.trim());
    }
}

#[test]
fn db_targets_are_only_cut() {
    let (path, table) = parse_db_target("/tmp/a:b.db:t").ok().unwrap();
    assert_eq!(format!("{path}:{table}"), "/tmp/a:b.db:t");
}

#[test]
fn sanitized_names_are_safe_file_names() {
    for name in ["..", "a/b\\c", " . x . ", "\u{7}", "ok", "..中文.."] {
        let clean = sanitize_name(name);
        assert!(safe_file_name(&clean).is_ok(), "{clean}");
    }
    assert_eq!(sanitize_name("..中文.."), "中文");
}
