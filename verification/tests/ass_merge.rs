use anime_tool::ass_merge::{
    assemble_tag, coordinate_count, event_axis, merge_inputs, merged_document, override_pieces_of,
    parse_rows, property, rewrite_script_info, same_format, section, style_axis, tag_parts,
    text_field_index, Axis, MergeError, OverridePiece, RowKind, Side, TagKind,
};

const STYLE_FORMAT: &str = "Format: Name, Fontname, Fontsize, PrimaryColour, SecondaryColour, OutlineColour, BackColour, Bold, Italic, Underline, StrikeOut, ScaleX, ScaleY, Spacing, Angle, BorderStyle, Outline, Shadow, Alignment, MarginL, MarginR, MarginV, Encoding";
const EVENT_FORMAT: &str =
    "Format: Layer, Start, End, Style, Name, MarginL, MarginR, MarginV, Effect, Text";

fn ass(width: i32, height: i32, style: &str, dialogue: &str) -> String {
    format!(
        "[Script Info]\nPlayResX: {width}\nPlayResY: {height}\n\n[V4+ Styles]\n{STYLE_FORMAT}\n{style}\n\n[Events]\n{EVENT_FORMAT}\n{dialogue}\n"
    )
}

fn strings(v: &[&str]) -> Vec<String> {
    v.iter().map(|s| s.to_string()).collect()
}

#[test]
fn section_ends_at_next_section() {
    let doc = ass(1280, 720, "Style: A,B", "Dialogue: x");
    assert_eq!(section(&doc, "Script Info").unwrap(), "\nPlayResX: 1280\nPlayResY: 720\n");
    assert!(section(&doc, "Fonts").is_none());
    assert_eq!(section("[A]\r\nx\r\n[B]\r\ny", "A").unwrap(), "\r\nx\r");
}

#[test]
fn property_ignores_case_and_spaces() {
    assert_eq!(property("\n  playresx :  1280 \nPlayResY: 720", "PlayResX").unwrap(), "1280");
    assert!(property("no colon here", "PlayResX").is_none());
}

#[test]
fn rows_keep_commas_in_text() {
    let sec = format!("\n{EVENT_FORMAT}\nDialogue: 0,0:00:00.00,0:00:01.00,Default,,0,0,0,,a, b\nComment: 1,2\n");
    let (format, rows) = parse_rows(&sec, RowKind::Dialogue).ok().unwrap();
    assert_eq!(format.len(), 10);
    assert_eq!(format[9], "Text");
    assert_eq!(rows.len(), 1);
    assert_eq!(rows[0][0], "0");
    assert_eq!(rows[0][9], "a, b");
}

#[test]
fn rows_without_format_or_with_wrong_count_are_errors() {
    assert!(matches!(
        parse_rows("\nStyle: a,b\n", RowKind::Style),
        Err(MergeError::MissingFormat(RowKind::Style))
    ));
    assert!(matches!(
        parse_rows("\nFormat: Name, Size\nStyle: a,b,c\n", RowKind::Style),
        Err(MergeError::FieldCount(RowKind::Style))
    ));
}

#[test]
fn formats_compare_without_case() {
    assert!(same_format(&strings(&["Name", "Text"]), &strings(&["name", "TEXT"])));
    assert!(!same_format(&strings(&["Name"]), &strings(&["Name", "Text"])));
}

#[test]
fn merge_inputs_reads_both_documents() {
    let subtitle = ass(1280, 720, "Style: Default,Arial,20,&H00FFFFFF,&H00FFFFFF,&H00000000,&H00000000,0,0,0,0,100,100,0,0,1,2,1,2,10,10,20,1", "Dialogue: 0,0:00:00.00,0:00:01.00,Default,,0,0,0,,{\\pos(100,200)}sub");
    let danmaku = ass(1920, 1080, "Style: Danmaku,Arial,30,&H00FFFFFF,&H00FFFFFF,&H00000000,&H00000000,0,0,0,0,100,100,0,0,1,2,0,2,0,0,0,1", "Dialogue: 1,0:00:00.00,0:00:01.00,Danmaku,,0,0,0,,danmaku");
    let m = merge_inputs(&subtitle, &danmaku).ok().unwrap();
    assert_eq!(m.style_format.len(), 23);
    assert_eq!(m.subtitle_styles.len(), 1);
    assert_eq!(m.danmaku_styles[0][0], "Danmaku");
    assert_eq!(m.subtitle_events[0][9], "{\\pos(100,200)}sub");
    assert!(matches!(
        merge_inputs("[Events]\n", &danmaku),
        Err(MergeError::MissingStyles(Side::Subtitle))
    ));
}

#[test]
fn script_info_takes_the_new_resolution() {
    let doc = "[Script Info]\nTitle: t\nplayresx: 640\n\nPlayResY: 480\n[V4+ Styles]\n";
    assert_eq!(
        rewrite_script_info(doc, "1920", "1080").unwrap(),
        "[Script Info]\nTitle: t\nPlayResX: 1920\nPlayResY: 1080\n"
    );
    assert!(rewrite_script_info("[Events]\n", "1", "1").is_none());
}

#[test]
fn axes_of_fields() {
    assert_eq!(style_axis("marginl"), Some(Axis::X));
    assert_eq!(style_axis("MarginV"), Some(Axis::Y));
    assert_eq!(style_axis("Fontsize"), Some(Axis::Size));
    assert_eq!(style_axis("Name"), None);
    assert_eq!(event_axis("Outline"), None);
    assert_eq!(event_axis("MarginR"), Some(Axis::X));
    assert_eq!(text_field_index(&strings(&["Layer", "text", "Text"])), Some(1));
}

#[test]
fn override_tags_are_found() {
    let pieces = override_pieces_of("{\\an8\\move(0,0,640,480)\\b1}x\\pos(1,2");
    assert_eq!(pieces.len(), 5);
    match &pieces[0] {
        OverridePiece::Text(t) => assert_eq!(t, "{\\"),
        _ => panic!("expected text"),
    }
    match &pieces[1] {
        OverridePiece::Text(t) => assert_eq!(t, "an8"),
        _ => panic!("expected text"),
    }
    match &pieces[2] {
        OverridePiece::Tag(k, args, raw) => {
            assert_eq!(*k, TagKind::Move);
            assert_eq!(args, "0,0,640,480");
            assert_eq!(raw, "\\move(0,0,640,480)");
        }
        _ => panic!("expected tag"),
    }
    match &pieces[4] {
        OverridePiece::Text(t) => assert_eq!(t, "b1}x\\pos(1,2"),
        _ => panic!("expected text"),
    }
}

#[test]
fn pieces_spell_the_text_again() {
    let text = "a\\pos( 1 , 2 )b\\clip(1,2,3,4)\\x";
    let mut back = String::new();
    for p in override_pieces_of(text) {
        match p {
            OverridePiece::Text(t) => back.push_str(&t),
            OverridePiece::Tag(_, _, raw) => back.push_str(&raw),
        }
    }
    assert_eq!(back, text);
}

#[test]
fn tags_are_rewritten_with_new_coordinates() {
    let parts = tag_parts(" 1 , 2 ,3");
    assert_eq!(parts, strings(&["1", "2", "3"]));
    assert_eq!(coordinate_count(TagKind::Move, 2), 4);
    assert_eq!(coordinate_count(TagKind::Clip, 4), 4);
    assert_eq!(coordinate_count(TagKind::IClip, 1), 2);
    assert_eq!(coordinate_count(TagKind::Pos, 4), 2);
    assert_eq!(
        assemble_tag(TagKind::Pos, &parts, &strings(&["150", "300"])),
        "\\pos(150,300,3)"
    );
}

#[test]
fn merged_document_layout() {
    let doc = merged_document(
        "[Script Info]\nPlayResX: 1\n",
        &strings(&["Name", "Size"]),
        &vec![strings(&["A", "1"])],
        &vec![strings(&["B", "2"])],
        &strings(&["Layer", "Text"]),
        &vec![strings(&["0", "x,y"])],
        &vec![],
    );
    assert_eq!(
        doc,
        "[Script Info]\nPlayResX: 1\n\n[V4+ Styles]\nFormat: Name, Size\nStyle: A,1\nStyle: B,2\n\n[Events]\nFormat: Layer, Text\nDialogue: 0,x,y\n"
    );
}

#[test]
fn merge_errors_have_messages() {
    assert_eq!(MergeError::FormatMismatch(RowKind::Style).to_message(), "字幕和弹幕 ASS 的样式 Format 不一致");
    assert_eq!(MergeError::MissingEvents(Side::Danmaku).to_message(), "弹幕 ASS 缺少事件区段");
}
