use anime_tool::ass::{
    color_override, comment_text, dialogue_line, escape_ass_text, extract_comments,
    format_ass_time, kind_from_mode, kind_layer, kind_style, outline_color_override,
    write_header, alpha_tag, Kind, RenderError,
};
use anime_tool::json::JsonValue;

#[test]
fn color_is_written_as_bgr() {
    assert_eq!(color_override(16711680), "\\c&H0000FF&");
    assert_eq!(color_override(0x123456), "\\c&H563412&");
    assert_eq!(color_override(0xFFFFFF), "");
}

#[test]
fn near_black_gets_white_outline() {
    assert_eq!(outline_color_override(0x080808), "\\3c&HFFFFFF&");
    assert_eq!(outline_color_override(0x090000), "");
}

#[test]
fn ass_text_is_escaped() {
    assert_eq!(escape_ass_text("a{b}\nc"), "a\\{b\\}\\Nc");
    assert_eq!(escape_ass_text("x\\y\r\nz"), "x\\\\y\\Nz");
}

#[test]
fn ass_time_has_centiseconds() {
    assert_eq!(format_ass_time(123), "0:00:01.23");
    assert_eq!(format_ass_time(366_100), "1:01:01.00");
}

#[test]
fn dialogue_line_layout() {
    assert_eq!(
        dialogue_line(0, 123, 1123, "Danmaku", "hi"),
        "Dialogue: 0,0:00:01.23,0:00:11.23,Danmaku,,0,0,0,,hi\n"
    );
}

#[test]
fn modes_pick_kinds() {
    assert!(matches!(kind_from_mode(4), Kind::Bottom));
    assert!(matches!(kind_from_mode(5), Kind::Top));
    assert!(matches!(kind_from_mode(1), Kind::Scroll));
    assert_eq!(kind_layer(Kind::Top), 1);
    assert_eq!(kind_style(Kind::Bottom), "DanmakuBottom");
}

#[test]
fn alpha_tag_is_two_hex_digits() {
    assert_eq!(alpha_tag(0), "&H00&");
    assert_eq!(alpha_tag(26), "&H1A&");
}

#[test]
fn header_encodes_bold_and_border() {
    let header = write_header("Microsoft YaHei", "38.4", true, "2.0");
    assert!(header.contains("[Script Info]"));
    assert!(header.contains("PlayResX: 1920"));
    assert!(header.contains("PlayResY: 1080"));
    assert!(header.contains(",1,0,0,0,100,100,0,0,1,2.0,0,2,"));
    assert!(header.contains(",1,0,0,0,100,100,0,0,1,2.0,0,8,"));
}

fn comment(p: &str, m: &str) -> JsonValue {
    JsonValue::Object(vec![
        ("p".to_string(), JsonValue::Str(p.to_string())),
        ("m".to_string(), JsonValue::Str(m.to_string())),
    ])
}

#[test]
fn comments_are_read_from_the_array() {
    let root = JsonValue::Object(vec![(
        "comments".to_string(),
        JsonValue::Array(vec![
            comment("1.23,1,16711680,100", "hello"),
            comment("", "skipped"),
            comment("2.00,5", "too few fields"),
            comment("3.00,x,y", "defaults"),
        ]),
    )]);
    let cs = extract_comments(&root).ok().unwrap();
    assert_eq!(cs.len(), 2);
    assert_eq!(cs[0].time_text, "1.23");
    assert_eq!(cs[0].mode, 1);
    assert_eq!(cs[0].color, 16711680);
    assert_eq!(cs[0].content, "hello");
    assert_eq!(cs[1].mode, 1);
    assert_eq!(cs[1].color, 0xFFFFFF);
}

#[test]
fn missing_comments_array_is_an_error() {
    let root = JsonValue::Object(vec![]);
    assert!(matches!(extract_comments(&root), Err(RenderError::NoComments)));
}

#[test]
fn comment_text_for_top_comment() {
    let t = comment_text(Kind::Top, "960,2.0", "\\c&H0000FF&", "", "&H00&", "top");
    assert_eq!(t, "{\\an8\\pos(960,2.0)\\c&H0000FF&\\alpha&H00&}top");
}
