//! The text of an ASS danmaku file: the comments read from a Dandanplay reply,
//! colours, escaping, times, dialogue lines and the header.
use vstd::prelude::*;
use crate::json::{Json, JsonValue, spec_get, items_view, lemma_view_parts};
use crate::num::{dec, dec_int, hex_pad, parse_signed, fmt_u64, fmt_i64, fmt_hex_pad};
use crate::text::{split, chars_of, string_of, push_char, push_str, owned, trim, CharClass, trim_range, split_ranges};

verus! {

pub const PLAY_RES_X: i32 = 1920;

pub const PLAY_RES_Y: i32 = 1080;

/// How a comment moves.
#[derive(PartialEq, Eq, Structural, Clone, Copy)]
pub enum Kind {
    Scroll,
    Top,
    Bottom,
}

/// Mode 4 is a bottom comment, mode 5 a top comment, any other a scrolling one.
pub open spec fn spec_kind(mode: i32) -> Kind {
    if mode == 4 {
        Kind::Bottom
    } else if mode == 5 {
        Kind::Top
    } else {
        Kind::Scroll
    }
}

pub fn kind_from_mode(mode: i32) -> (k: Kind)
    ensures
        k == spec_kind(mode),
{
    match mode {
        4 => Kind::Bottom,
        5 => Kind::Top,
        _ => Kind::Scroll,
    }
}

/// The layer and the style of the dialogue lines of a kind.
pub fn kind_layer(kind: Kind) -> (r: i32)
    ensures
        r == match kind {
            Kind::Scroll => 0i32,
            Kind::Top => 1i32,
            Kind::Bottom => 2i32,
        },
{
    match kind {
        Kind::Scroll => 0,
        Kind::Top => 1,
        Kind::Bottom => 2,
    }
}

pub fn kind_style(kind: Kind) -> (r: &'static str)
    ensures
        r@ == match kind {
            Kind::Scroll => "Danmaku"@,
            Kind::Top => "DanmakuTop"@,
            Kind::Bottom => "DanmakuBottom"@,
        },
{
    match kind {
        Kind::Scroll => "Danmaku",
        Kind::Top => "DanmakuTop",
        Kind::Bottom => "DanmakuBottom",
    }
}

/// The low 24 bits of a colour.
pub open spec fn rgb24(rgb: i32) -> int {
    (rgb & 0x00FF_FFFF) as int
}

/// The colour with its red and blue bytes swapped (ASS writes `BBGGRR`).
pub open spec fn bgr(rgb: i32) -> int {
    let m = rgb24(rgb);
    (m % 256) * 65536 + ((m / 256) % 256) * 256 + m / 65536
}

/// `\c&HBBGGRR&`, or nothing for white.
pub open spec fn spec_color_override(rgb: i32) -> Seq<char> {
    if rgb24(rgb) == 0x00FF_FFFF {
        seq![]
    } else {
        seq!['\\', 'c', '&', 'H'] + hex_pad(bgr(rgb) as nat, 6) + seq!['&']
    }
}

fn low24(rgb: i32) -> (m: u32)
    ensures
        m as int == rgb24(rgb),
        m < 0x0100_0000,
{
    let x = rgb & 0x00FF_FFFF;
    assert(0 <= x && x < 0x0100_0000) by (bit_vector)
        requires
            x == rgb & 0x00FF_FFFF,
    ;
    x as u32
}

pub fn color_override(rgb: i32) -> (r: String)
    ensures
        r@ == spec_color_override(rgb),
{
    let m = low24(rgb);
    if m == 0x00FF_FFFF {
        return String::new();
    }
    let r = m / 65536;
    let g = (m / 256) % 256;
    let b = m % 256;
    let v = b * 65536 + g * 256 + r;
    let mut out = String::new();
    push_str(&mut out, "\\c&H");
    let h = fmt_hex_pad(v, 6);
    push_str(&mut out, h.as_str());
    push_char(&mut out, '&');
    proof {
        reveal_strlit("\\c&H");
        assert(out@ =~= spec_color_override(rgb));
    }
    out
}

/// Whether a colour is so dark that the comment needs a white outline:
/// each of its bytes at most 8.
pub open spec fn is_near_black(rgb: i32) -> bool {
    let m = rgb24(rgb);
    m / 65536 <= 8 && (m / 256) % 256 <= 8 && m % 256 <= 8
}

/// `\3c&HFFFFFF&` for a near-black colour, else nothing.
pub fn outline_color_override(rgb: i32) -> (r: &'static str)
    ensures
        r@ == (if is_near_black(rgb) {
            "\\3c&HFFFFFF&"@
        } else {
            ""@
        }),
{
    let m = low24(rgb);
    if m / 65536 <= 8 && (m / 256) % 256 <= 8 && m % 256 <= 8 {
        "\\3c&HFFFFFF&"
    } else {
        ""
    }
}

/// The text written for one character of a comment: `\`, `{` and `}` escaped with a
/// backslash, a newline as `\N`, a carriage return dropped.
pub open spec fn escape_char(c: char) -> Seq<char> {
    if c == '\\' {
        seq!['\\', '\\']
    } else if c == '{' {
        seq!['\\', '{']
    } else if c == '}' {
        seq!['\\', '}']
    } else if c == '\n' {
        seq!['\\', 'N']
    } else if c == '\r' {
        seq![]
    } else {
        seq![c]
    }
}

pub open spec fn escaped(s: Seq<char>) -> Seq<char>
    decreases s.len(),
{
    if s.len() == 0 {
        seq![]
    } else {
        escaped(s.drop_last()) + escape_char(s.last())
    }
}

pub fn escape_ass_text(text: &str) -> (r: String)
    ensures
        r@ == escaped(text@),
{
    let c = chars_of(text);
    let mut out = String::new();
    let mut i: usize = 0;
    while i < c.len()
        invariant
            i <= c@.len(),
            out@ == escaped(c@.take(i as int)),
        decreases c@.len() - i,
    {
        let ch = c[i];
        if ch == '\\' {
            push_char(&mut out, '\\');
            push_char(&mut out, '\\');
        } else if ch == '{' {
            push_char(&mut out, '\\');
            push_char(&mut out, '{');
        } else if ch == '}' {
            push_char(&mut out, '\\');
            push_char(&mut out, '}');
        } else if ch == '\n' {
            push_char(&mut out, '\\');
            push_char(&mut out, 'N');
        } else if ch == '\r' {
        } else {
            push_char(&mut out, ch);
        }
        assert(c@.take(i + 1).drop_last() =~= c@.take(i as int));
        assert(c@.take(i + 1).last() == ch);
        assert(out@ =~= escaped(c@.take(i + 1)));
        i = i + 1;
    }
    assert(c@.take(i as int) =~= c@);
    out
}

/// Two decimal digits of `n < 100`.
pub open spec fn two_digits(n: int) -> Seq<char> {
    seq![crate::num::digit_char(n / 10), crate::num::digit_char(n % 10)]
}

/// `H:MM:SS.CC` of a time in centiseconds.
pub open spec fn spec_ass_time(total_cs: nat) -> Seq<char> {
    let cs = total_cs % 100;
    let secs = total_cs / 100;
    dec(secs / 3600) + seq![':'] + two_digits(((secs / 60) % 60) as int) + seq![':'] + two_digits((secs % 60) as int)
        + seq!['.'] + two_digits(cs as int)
}

fn push_two_digits(out: &mut String, n: u64)
    requires
        n < 100,
    ensures
        final(out)@ == old(out)@ + two_digits(n as int),
{
    let t = fmt_u64(n / 10);
    let u = fmt_u64(n % 10);
    push_str(out, t.as_str());
    push_str(out, u.as_str());
    assert(out@ =~= old(out)@ + two_digits(n as int));
}

/// The time of a dialogue line, from its centiseconds.
pub fn format_ass_time(total_cs: u64) -> (r: String)
    ensures
        r@ == spec_ass_time(total_cs as nat),
{
    let cs = total_cs % 100;
    let secs = total_cs / 100;
    let mut out = fmt_u64(secs / 3600);
    push_char(&mut out, ':');
    push_two_digits(&mut out, (secs / 60) % 60);
    push_char(&mut out, ':');
    push_two_digits(&mut out, secs % 60);
    push_char(&mut out, '.');
    push_two_digits(&mut out, cs);
    assert(out@ =~= spec_ass_time(total_cs as nat));
    out
}

/// `Dialogue: <layer>,<start>,<end>,<style>,,0,0,0,,<text>` and a line break.
pub open spec fn spec_dialogue(
    layer: i32,
    start_cs: nat,
    end_cs: nat,
    style: Seq<char>,
    text: Seq<char>,
) -> Seq<char> {
    "Dialogue: "@ + dec_int(layer as int) + seq![','] + spec_ass_time(start_cs) + seq![','] + spec_ass_time(
        end_cs,
    ) + seq![','] + style + ",,0,0,0,,"@ + text + seq!['\n']
}

pub fn dialogue_line(layer: i32, start_cs: u64, end_cs: u64, style: &str, text: &str) -> (r: String)
    ensures
        r@ == spec_dialogue(layer, start_cs as nat, end_cs as nat, style@, text@),
{
    let mut out = owned("Dialogue: ");
    let l = fmt_i64(layer as i64);
    push_str(&mut out, l.as_str());
    push_char(&mut out, ',');
    let s = format_ass_time(start_cs);
    push_str(&mut out, s.as_str());
    push_char(&mut out, ',');
    let e = format_ass_time(end_cs);
    push_str(&mut out, e.as_str());
    push_char(&mut out, ',');
    push_str(&mut out, style);
    push_str(&mut out, ",,0,0,0,,");
    push_str(&mut out, text);
    push_char(&mut out, '\n');
    assert(out@ =~= spec_dialogue(layer, start_cs as nat, end_cs as nat, style@, text@));
    out
}

/// `&HAA&` of an alpha value clamped to `0..=255`.
pub open spec fn spec_alpha_tag(alpha: i32) -> Seq<char> {
    let a = if alpha < 0 {
        0
    } else if alpha > 255 {
        255
    } else {
        alpha as int
    };
    seq!['&', 'H'] + hex_pad(a as nat, 2) + seq!['&']
}

pub fn alpha_tag(alpha: i32) -> (r: String)
    ensures
        r@ == spec_alpha_tag(alpha),
{
    let a: u32 = if alpha < 0 {
        0
    } else if alpha > 255 {
        255
    } else {
        alpha as u32
    };
    let mut out = String::new();
    push_char(&mut out, '&');
    push_char(&mut out, 'H');
    let h = fmt_hex_pad(a, 2);
    push_str(&mut out, h.as_str());
    push_char(&mut out, '&');
    assert(out@ =~= spec_alpha_tag(alpha));
    out
}

/// The override block and text of a comment: alignment, position (`pos` holds the
/// coordinates), colour, outline and alpha, then the escaped text.
pub open spec fn spec_comment_text(
    kind: Kind,
    pos: Seq<char>,
    color: Seq<char>,
    outline: Seq<char>,
    alpha: Seq<char>,
    text: Seq<char>,
) -> Seq<char> {
    let head = match kind {
        Kind::Scroll => "{\\an4\\move("@,
        Kind::Top => "{\\an8\\pos("@,
        Kind::Bottom => "{\\an2\\pos("@,
    };
    head + pos + seq![')'] + color + outline + "\\alpha"@ + alpha + seq!['}'] + text
}

pub fn comment_text(
    kind: Kind,
    pos: &str,
    color: &str,
    outline: &str,
    alpha: &str,
    text: &str,
) -> (r: String)
    ensures
        r@ == spec_comment_text(kind, pos@, color@, outline@, alpha@, text@),
{
    let mut out = match kind {
        Kind::Scroll => owned("{\\an4\\move("),
        Kind::Top => owned("{\\an8\\pos("),
        Kind::Bottom => owned("{\\an2\\pos("),
    };
    push_str(&mut out, pos);
    push_char(&mut out, ')');
    push_str(&mut out, color);
    push_str(&mut out, outline);
    push_str(&mut out, "\\alpha");
    push_str(&mut out, alpha);
    push_char(&mut out, '}');
    push_str(&mut out, text);
    assert(out@ =~= spec_comment_text(kind, pos@, color@, outline@, alpha@, text@));
    out
}

pub open spec fn default_font() -> Seq<char> {
    "Microsoft YaHei"@
}

/// The font of the styles: the given one trimmed, or the default when it is blank.
pub open spec fn spec_font(font: Seq<char>) -> Seq<char> {
    if trim(font).len() == 0 {
        default_font()
    } else {
        trim(font)
    }
}

/// One style line.
pub open spec fn style_line(
    name: Seq<char>,
    font: Seq<char>,
    size: Seq<char>,
    bold: bool,
    outline: Seq<char>,
    alignment: char,
) -> Seq<char> {
    "Style: "@ + name + seq![','] + font + seq![','] + size
        + ",&H00FFFFFF,&H00FFFFFF,&H00000000,&H00000000,"@ + (if bold {
        seq!['1']
    } else {
        seq!['0']
    }) + ",0,0,0,100,100,0,0,1,"@ + outline + seq![',', '0', ','] + seq![alignment]
        + ",0,0,0,1\n"@
}

pub open spec fn script_info() -> Seq<char> {
    "[Script Info]\nScriptType: v4.00+\nPlayResX: 1920\nPlayResY: 1080\nAspect Ratio: 16:9\nWrapStyle: 2\nScaledBorderAndShadow: yes\nYCbCr Matrix: TV.709\n\n[V4+ Styles]\n"@
}

pub open spec fn style_format() -> Seq<char> {
    "Format: Name, Fontname, Fontsize, PrimaryColour, SecondaryColour, OutlineColour, BackColour, Bold, Italic, Underline, StrikeOut, ScaleX, ScaleY, Spacing, Angle, BorderStyle, Outline, Shadow, Alignment, MarginL, MarginR, MarginV, Encoding\n"@
}

/// The script info and the three styles (`Danmaku`, `DanmakuTop`, `DanmakuBottom`);
/// `size` and `outline` are the font size and the outline width as written.
pub open spec fn spec_header(font: Seq<char>, size: Seq<char>, bold: bool, outline: Seq<char>) -> Seq<
    char,
> {
    let f = spec_font(font);
    script_info() + style_format() + style_line("Danmaku"@, f, size, bold, outline, '2')
        + style_line("DanmakuTop"@, f, size, bold, outline, '8') + style_line(
        "DanmakuBottom"@,
        f,
        size,
        bold,
        outline,
        '2',
    ) + seq!['\n']
}

fn push_style(out: &mut String, name: &str, font: &str, size: &str, bold: bool, outline: &str, alignment: char)
    ensures
        final(out)@ == old(out)@ + style_line(name@, font@, size@, bold, outline@, alignment),
{
    push_str(out, "Style: ");
    push_str(out, name);
    push_char(out, ',');
    push_str(out, font);
    push_char(out, ',');
    push_str(out, size);
    push_str(out, ",&H00FFFFFF,&H00FFFFFF,&H00000000,&H00000000,");
    push_char(out, if bold { '1' } else { '0' });
    push_str(out, ",0,0,0,100,100,0,0,1,");
    push_str(out, outline);
    push_char(out, ',');
    push_char(out, '0');
    push_char(out, ',');
    push_char(out, alignment);
    push_str(out, ",0,0,0,1\n");
    assert(out@ =~= old(out)@ + style_line(name@, font@, size@, bold, outline@, alignment));
}

pub fn write_header(font: &str, size: &str, bold: bool, outline: &str) -> (r: String)
    ensures
        r@ == spec_header(font@, size@, bold, outline@),
{
    let trimmed = crate::text::trim_str(font);
    let f = if chars_of(trimmed.as_str()).len() == 0 {
        owned("Microsoft YaHei")
    } else {
        trimmed
    };
    let mut out = owned("[Script Info]\nScriptType: v4.00+\nPlayResX: 1920\nPlayResY: 1080\nAspect Ratio: 16:9\nWrapStyle: 2\nScaledBorderAndShadow: yes\nYCbCr Matrix: TV.709\n\n[V4+ Styles]\n");
    push_str(&mut out, "Format: Name, Fontname, Fontsize, PrimaryColour, SecondaryColour, OutlineColour, BackColour, Bold, Italic, Underline, StrikeOut, ScaleX, ScaleY, Spacing, Angle, BorderStyle, Outline, Shadow, Alignment, MarginL, MarginR, MarginV, Encoding\n");
    push_style(&mut out, "Danmaku", f.as_str(), size, bold, outline, '2');
    push_style(&mut out, "DanmakuTop", f.as_str(), size, bold, outline, '8');
    push_style(&mut out, "DanmakuBottom", f.as_str(), size, bold, outline, '2');
    push_char(&mut out, '\n');
    assert(out@ =~= spec_header(font@, size@, bold, outline@));
    out
}

pub open spec fn events_header() -> Seq<char> {
    "[Events]\nFormat: Layer, Start, End, Style, Name, MarginL, MarginR, MarginV, Effect, Text\n"@
}

/// The head of the events section.
pub fn write_events_header(out: &mut String)
    ensures
        final(out)@ == old(out)@ + events_header(),
{
    push_str(out, "[Events]\nFormat: Layer, Start, End, Style, Name, MarginL, MarginR, MarginV, Effect, Text\n");
}

/// A comment as the reply gives it: the text of its time, its mode, its colour
/// (low 24 bits) and its content.
pub struct CommentFields {
    pub time_text: String,
    pub mode: i32,
    pub color: i32,
    pub content: String,
}

pub struct CommentView {
    pub time_text: Seq<char>,
    pub mode: i32,
    pub color: i32,
    pub content: Seq<char>,
}

impl View for CommentFields {
    type V = CommentView;

    open spec fn view(&self) -> CommentView {
        CommentView {
            time_text: self.time_text@,
            mode: self.mode,
            color: self.color,
            content: self.content@,
        }
    }
}

/// Why a reply holds no comments.
#[derive(PartialEq, Eq, Structural, Clone, Copy)]
pub enum RenderError {
    /// The reply has no `comments` array.
    NoComments,
}

/// A string field of an object, `""` when absent or not a string.
pub open spec fn str_field(v: Json, key: Seq<char>) -> Seq<char> {
    match spec_get(v, key) {
        Some(Json::Str(s)) => s,
        _ => seq![],
    }
}

/// An integer field of `p`, or the fallback when it does not read as an `i32`.
pub open spec fn int_or(t: Seq<char>, fallback: i32) -> i32 {
    match parse_signed(t) {
        Some(x) => if i32::MIN <= x <= i32::MAX {
            x as i32
        } else {
            fallback
        },
        None => fallback,
    }
}

/// What a comment gives, if it has a `p` with at least three comma-separated fields
/// and a nonempty `m`: time text, mode (1 when unreadable), colour (white when
/// unreadable, low 24 bits kept), content.
pub open spec fn spec_comment(v: Json) -> Option<CommentView> {
    let p = str_field(v, "p"@);
    let m = str_field(v, "m"@);
    let parts = split(p, ',');
    if p.len() == 0 || m.len() == 0 || parts.len() < 3 {
        None
    } else {
        Some(
            CommentView {
                time_text: parts[0],
                mode: int_or(parts[1], 1),
                color: int_or(parts[2], 0x00FF_FFFF) & 0x00FF_FFFF,
                content: m,
            },
        )
    }
}

/// The comments of a list, those that give something, in order.
pub open spec fn spec_comments(items: Seq<Json>) -> Seq<CommentView>
    decreases items.len(),
{
    if items.len() == 0 {
        seq![]
    } else {
        let prev = spec_comments(items.drop_last());
        match spec_comment(items.last()) {
            Some(c) => prev.push(c),
            None => prev,
        }
    }
}

/// The comments of a reply.
pub open spec fn spec_extract(root: Json) -> Result<Seq<CommentView>, RenderError> {
    match spec_get(root, "comments"@) {
        Some(Json::Array(items)) => Ok(spec_comments(items)),
        _ => Err(RenderError::NoComments),
    }
}

fn string_field(v: &JsonValue, key: &str) -> (r: String)
    ensures
        r@ == str_field(v@, key@),
{
    match v.get(key) {
        Some(JsonValue::Str(s)) => s.clone(),
        _ => String::new(),
    }
}

fn parse_or(c: &[char], lo: usize, hi: usize, fallback: i32) -> (r: i32)
    requires
        lo <= hi <= c@.len(),
    ensures
        r == int_or(c@.subrange(lo as int, hi as int), fallback),
{
    match crate::num::parse_i32(c, lo, hi) {
        Some(v) => v,
        None => fallback,
    }
}

fn comment_of(v: &JsonValue) -> (r: Option<CommentFields>)
    ensures
        match r {
            Some(c) => spec_comment(v@) == Some(c@),
            None => spec_comment(v@) == None::<CommentView>,
        },
{
    let p = string_field(v, "p");
    let m = string_field(v, "m");
    let pc = chars_of(p.as_str());
    let mc = chars_of(m.as_str());
    assert(pc@.subrange(0, pc@.len() as int) =~= pc@);
    let parts = split_ranges(&pc, 0, pc.len());
    if pc.len() == 0 || mc.len() == 0 || parts.len() < 3 {
        return None;
    }
    let time_text = string_of(&pc, parts[0].0, parts[0].1);
    let mode = parse_or(&pc, parts[1].0, parts[1].1, 1);
    let color = parse_or(&pc, parts[2].0, parts[2].1, 0x00FF_FFFF) & 0x00FF_FFFF;
    Some(CommentFields { time_text, mode, color, content: m })
}

/// The comments of a Dandanplay danmaku reply, in order, each read from its `p` and `m`.
#[verifier::loop_isolation(false)]
pub fn extract_comments(root: &JsonValue) -> (r: Result<Vec<CommentFields>, RenderError>)
    ensures
        match r {
            Ok(v) => spec_extract(root@) == Ok::<Seq<CommentView>, RenderError>(
                v@.map_values(|c: CommentFields| c@),
            ),
            Err(e) => spec_extract(root@) == Err::<Seq<CommentView>, RenderError>(e),
        },
{
    let items = match root.get("comments") {
        Some(x) => {
            proof {
                lemma_view_parts(*x);
            }
            match x {
                JsonValue::Array(items) => items,
                _ => {
                    return Err(RenderError::NoComments);
                },
            }
        },
        None => {
            return Err(RenderError::NoComments);
        },
    };
    let ghost iv = items_view(items@);
    let mut out: Vec<CommentFields> = Vec::new();
    let mut i: usize = 0;
    while i < items.len()
        invariant
            i <= items@.len(),
            iv == items_view(items@),
            out@.map_values(|c: CommentFields| c@) == spec_comments(iv.take(i as int)),
        decreases items@.len() - i,
    {
        assert(iv.take(i + 1).drop_last() =~= iv.take(i as int));
        assert(iv.take(i + 1).last() == items@[i as int]@);
        let ghost before = out@;
        match comment_of(&items[i]) {
            Some(c) => {
                out.push(c);
                assert(out@.map_values(|c: CommentFields| c@) =~= before.map_values(
                    |c: CommentFields| c@,
                ).push(out@[before.len() as int]@));
            },
            None => {},
        }
        i = i + 1;
    }
    assert(iv.take(i as int) =~= iv);
    Ok(out)
}

impl RenderError {
    /// The message that reports the error.
    pub fn to_message(&self) -> (r: String)
        ensures
            r@ == "JSON 中不存在 comments 数组"@,
    {
        owned("JSON 中不存在 comments 数组")
    }
}

/// Escaped comment text stays on one line: it holds neither a line feed nor a carriage
/// return, whatever the comment held.
pub proof fn law_escaped_is_one_line(s: Seq<char>)
    ensures
        !escaped(s).contains('\n'),
        !escaped(s).contains('\r'),
    decreases s.len(),
{
    if s.len() > 0 {
        law_escaped_is_one_line(s.drop_last());
        let a = escaped(s.drop_last());
        let b = escape_char(s.last());
        assert(escaped(s) == a + b);
        assert forall|i: int| 0 <= i < (a + b).len() implies (a + b)[i] != '\n' && (a + b)[i] != '\r' by {
            if i < a.len() {
                assert((a + b)[i] == a[i]);
                assert(!a.contains(a[i]) || (a[i] != '\n' && a[i] != '\r'));
            } else {
                assert((a + b)[i] == b[i - a.len()]);
            }
        }
    }
}


/// Where a comment stands: a scrolling comment moves, its override block opening with
/// `{\an4\move(` and then its coordinates; a top comment is pinned with `{\an8\pos(` and a
/// bottom comment with `{\an2\pos(`. Every comment's text closes its override block with
/// `}` and ends with the comment itself.
pub proof fn law_comment_placement(
    kind: Kind,
    pos: Seq<char>,
    color: Seq<char>,
    outline: Seq<char>,
    alpha: Seq<char>,
    text: Seq<char>,
)
    ensures
        ({
            let r = spec_comment_text(kind, pos, color, outline, alpha, text);
            &&& kind == Kind::Scroll ==> r.take(11) == seq!['{', '\\', 'a', 'n', '4', '\\', 'm', 'o', 'v', 'e', '(']
                && r.subrange(11, 11 + pos.len() as int) == pos && r[11 + pos.len() as int] == ')'
            &&& kind == Kind::Top ==> r.take(10) == seq!['{', '\\', 'a', 'n', '8', '\\', 'p', 'o', 's', '(']
                && r.subrange(10, 10 + pos.len() as int) == pos && r[10 + pos.len() as int] == ')'
            &&& kind == Kind::Bottom ==> r.take(10) == seq!['{', '\\', 'a', 'n', '2', '\\', 'p', 'o', 's', '(']
                && r.subrange(10, 10 + pos.len() as int) == pos && r[10 + pos.len() as int] == ')'
            &&& r.len() > text.len()
            &&& r.skip(r.len() - text.len()) == text
            &&& r[r.len() - text.len() - 1] == '}'
        }),
{
    reveal_strlit("{\\an4\\move(");
    reveal_strlit("{\\an8\\pos(");
    reveal_strlit("{\\an2\\pos(");
    reveal_strlit("\\alpha");
    let r = spec_comment_text(kind, pos, color, outline, alpha, text);
    let head = if kind == Kind::Scroll {
        seq!['{', '\\', 'a', 'n', '4', '\\', 'm', 'o', 'v', 'e', '(']
    } else if kind == Kind::Top {
        seq!['{', '\\', 'a', 'n', '8', '\\', 'p', 'o', 's', '(']
    } else {
        seq!['{', '\\', 'a', 'n', '2', '\\', 'p', 'o', 's', '(']
    };
    assert("{\\an4\\move("@ =~= seq!['{', '\\', 'a', 'n', '4', '\\', 'm', 'o', 'v', 'e', '(']);
    assert("{\\an8\\pos("@ =~= seq!['{', '\\', 'a', 'n', '8', '\\', 'p', 'o', 's', '(']);
    assert("{\\an2\\pos("@ =~= seq!['{', '\\', 'a', 'n', '2', '\\', 'p', 'o', 's', '(']);
    let mid = seq![')'] + color + outline + "\\alpha"@ + alpha + seq!['}'];
    assert(r =~= head + pos + mid + text);
    let h = head.len() as int;
    assert(r.take(h) =~= head);
    assert(r.subrange(h, h + pos.len()) =~= pos);
    assert(r[h + pos.len()] == mid[0]);
    assert(r.skip(r.len() - text.len()) =~= text);
    assert(r[r.len() - text.len() - 1] == mid[mid.len() - 1]);
}


/// Dandanplay mode 4 is a bottom comment and mode 5 a top comment; every other mode
/// scrolls.
pub proof fn law_kind_of_mode(mode: i32)
    ensures
        mode == 4 ==> spec_kind(mode) == Kind::Bottom,
        mode == 5 ==> spec_kind(mode) == Kind::Top,
        mode != 4 && mode != 5 ==> spec_kind(mode) == Kind::Scroll,
{
}

/// A white comment carries no colour override; any other colour is written as
/// `\c&H`, its blue, green and red bytes (in that order, six upper-case hexadecimal
/// digits) and `&`.
pub proof fn law_color_override_bytes(rgb: i32)
    ensures
        (rgb & 0xFFFFFF) == 0xFFFFFF ==> spec_color_override(rgb).len() == 0,
        (rgb & 0xFFFFFF) != 0xFFFFFF ==> spec_color_override(rgb) == seq!['\\', 'c', '&', 'H']
            + hex_pad(
            ((((rgb & 0xFFFFFF) as int) % 256) * 65536 + ((((rgb & 0xFFFFFF) as int) / 256) % 256)
                * 256 + ((rgb & 0xFFFFFF) as int) / 65536) as nat,
            6,
        ) + seq!['&'],
{
}

/// Escaping works character by character: the escape of two texts put together is the
/// two escapes put together; `\`, `{` and `}` get a backslash, a line feed becomes `\N`,
/// a carriage return is dropped and any other character is kept.
pub proof fn law_escape_by_character(a: Seq<char>, b: Seq<char>, c: char)
    ensures
        escaped(a + b) == escaped(a) + escaped(b),
        escaped(seq!['\\']) == seq!['\\', '\\'],
        escaped(seq!['{']) == seq!['\\', '{'],
        escaped(seq!['}']) == seq!['\\', '}'],
        escaped(seq!['\n']) == seq!['\\', 'N'],
        escaped(seq!['\r']) == Seq::<char>::empty(),
        c != '\\' && c != '{' && c != '}' && c != '\n' && c != '\r' ==> escaped(seq![c]) == seq![c],
    decreases b.len(),
{
    assert(seq!['\\'].drop_last() =~= Seq::<char>::empty());
    assert(seq!['{'].drop_last() =~= Seq::<char>::empty());
    assert(seq!['}'].drop_last() =~= Seq::<char>::empty());
    assert(seq!['\n'].drop_last() =~= Seq::<char>::empty());
    assert(seq!['\r'].drop_last() =~= Seq::<char>::empty());
    assert(seq![c].drop_last() =~= Seq::<char>::empty());
    assert(escaped(Seq::<char>::empty()) =~= Seq::<char>::empty());
    if b.len() == 0 {
        assert(a + b =~= a);
        assert(escaped(a) + escaped(b) =~= escaped(a));
    } else {
        law_escape_by_character(a, b.drop_last(), c);
        assert((a + b).drop_last() =~= a + b.drop_last());
        assert((a + b).last() == b.last());
        assert(escaped(a + b) =~= escaped(a) + escaped(b.drop_last()) + escape_char(b.last()));
    }
}

/// An ASS time `H:MM:SS.CC`: the hours in decimal, then `:`, two digits of minutes, `:`,
/// two digits of seconds, `.` and two digits of centiseconds.
pub proof fn law_ass_time_fields(t: nat)
    ensures
        ({
            let r = spec_ass_time(t);
            let n = r.len() as int;
            let secs = t / 100;
            &&& n == dec(t / 360000).len() + 9
            &&& r.take(n - 9) == dec(t / 360000)
            &&& r[n - 9] == ':' && r[n - 6] == ':' && r[n - 3] == '.'
            &&& r[n - 8] == crate::num::digit_char(((secs / 60) % 60) as int / 10)
            &&& r[n - 7] == crate::num::digit_char(((secs / 60) % 60) as int % 10)
            &&& r[n - 5] == crate::num::digit_char((secs % 60) as int / 10)
            &&& r[n - 4] == crate::num::digit_char((secs % 60) as int % 10)
            &&& r[n - 2] == crate::num::digit_char((t % 100) as int / 10)
            &&& r[n - 1] == crate::num::digit_char((t % 100) as int % 10)
        }),
{
    let secs = t / 100;
    vstd::arithmetic::div_mod::lemma_div_denominator(t as int, 100, 3600);
    assert(secs / 3600 == t / 360000);
    let r = spec_ass_time(t);
    let h = dec(secs / 3600);
    assert(r =~= h + seq![':'] + two_digits(((secs / 60) % 60) as int) + seq![':'] + two_digits(
        (secs % 60) as int,
    ) + seq!['.'] + two_digits((t % 100) as int));
    assert(r.take(r.len() - 9) =~= h);
}

/// A dialogue line is `Dialogue: `, the layer, the start and end times and the style, each
/// after a comma, then `,,0,0,0,,`, the text and a line feed.
pub proof fn law_dialogue_layout(layer: i32, start_cs: nat, end_cs: nat, style: Seq<char>, text: Seq<char>)
    ensures
        spec_dialogue(layer, start_cs, end_cs, style, text) == seq![
            'D',
            'i',
            'a',
            'l',
            'o',
            'g',
            'u',
            'e',
            ':',
            ' ',
        ] + dec_int(layer as int) + seq![','] + spec_ass_time(start_cs) + seq![','] + spec_ass_time(
            end_cs,
        ) + seq![','] + style + seq![',', ',', '0', ',', '0', ',', '0', ',', ','] + text + seq!['\n'],
{
    reveal_strlit("Dialogue: ");
    reveal_strlit(",,0,0,0,,");
    assert("Dialogue: "@ =~= seq!['D', 'i', 'a', 'l', 'o', 'g', 'u', 'e', ':', ' ']);
    assert(",,0,0,0,,"@ =~= seq![',', ',', '0', ',', '0', ',', '0', ',', ',']);
}

/// An alpha tag is `&H`, two hexadecimal digits and `&`, the value clamped to `0..=255`:
/// below 0 it is written as 0, above 255 as 255.
pub proof fn law_alpha_clamped(alpha: i32)
    ensures
        alpha < 0 ==> spec_alpha_tag(alpha) == spec_alpha_tag(0),
        alpha > 255 ==> spec_alpha_tag(alpha) == spec_alpha_tag(255),
        0 <= alpha <= 255 ==> spec_alpha_tag(alpha) == seq!['&', 'H'] + hex_pad(alpha as nat, 2)
            + seq!['&'],
{
}

/// The header: the script info for a 1920x1080 canvas, the style format, then the styles
/// `Danmaku` (alignment 2), `DanmakuTop` (alignment 8) and `DanmakuBottom` (alignment 2),
/// all in the given font trimmed (`Microsoft YaHei` when blank), and an empty line.
pub proof fn law_header_styles(font: Seq<char>, size: Seq<char>, bold: bool, outline: Seq<char>)
    ensures
        ({
            let f = if trim(font).len() == 0 {
                seq!['M', 'i', 'c', 'r', 'o', 's', 'o', 'f', 't', ' ', 'Y', 'a', 'H', 'e', 'i']
            } else {
                trim(font)
            };
            spec_header(font, size, bold, outline) == script_info() + style_format() + style_line(
                seq!['D', 'a', 'n', 'm', 'a', 'k', 'u'],
                f,
                size,
                bold,
                outline,
                '2',
            ) + style_line(
                seq!['D', 'a', 'n', 'm', 'a', 'k', 'u', 'T', 'o', 'p'],
                f,
                size,
                bold,
                outline,
                '8',
            ) + style_line(
                seq!['D', 'a', 'n', 'm', 'a', 'k', 'u', 'B', 'o', 't', 't', 'o', 'm'],
                f,
                size,
                bold,
                outline,
                '2',
            ) + seq!['\n']
        }),
        script_info().take(31) == seq![
            '[', 'S', 'c', 'r', 'i', 'p', 't', ' ', 'I', 'n', 'f', 'o', ']', '\n',
            'S', 'c', 'r', 'i', 'p', 't', 'T', 'y', 'p', 'e', ':', ' ', 'v', '4', '.', '0', '0',
        ],
{
    reveal_strlit("Microsoft YaHei");
    reveal_strlit("Danmaku");
    reveal_strlit("DanmakuTop");
    reveal_strlit("DanmakuBottom");
    reveal_strlit("[Script Info]\nScriptType: v4.00+\nPlayResX: 1920\nPlayResY: 1080\nAspect Ratio: 16:9\nWrapStyle: 2\nScaledBorderAndShadow: yes\nYCbCr Matrix: TV.709\n\n[V4+ Styles]\n");
    assert("Microsoft YaHei"@ =~= seq!['M', 'i', 'c', 'r', 'o', 's', 'o', 'f', 't', ' ', 'Y', 'a', 'H', 'e', 'i']);
    assert("Danmaku"@ =~= seq!['D', 'a', 'n', 'm', 'a', 'k', 'u']);
    assert("DanmakuTop"@ =~= seq!['D', 'a', 'n', 'm', 'a', 'k', 'u', 'T', 'o', 'p']);
    assert("DanmakuBottom"@ =~= seq!['D', 'a', 'n', 'm', 'a', 'k', 'u', 'B', 'o', 't', 't', 'o', 'm']);
    assert(script_info().take(31) =~= seq![
            '[', 'S', 'c', 'r', 'i', 'p', 't', ' ', 'I', 'n', 'f', 'o', ']', '\n',
            'S', 'c', 'r', 'i', 'p', 't', 'T', 'y', 'p', 'e', ':', ' ', 'v', '4', '.', '0', '0',
        ]);
}


/// A comment is read from its `p` field (`time,mode,colour,...`, at least three fields) and
/// its text `m`: the time is the first field, the mode the second (1 when unreadable) and
/// the colour the third (white when unreadable, low 24 bits kept); a reply's comments are
/// its `comments` array.
pub proof fn law_comment_fields(v: Json)
    ensures
        ({
            let p = str_field(v, seq!['p']);
            let m = str_field(v, seq!['m']);
            let parts = split(p, ',');
            &&& (p.len() == 0 || m.len() == 0 || parts.len() < 3) ==> spec_comment(v) is None
            &&& !(p.len() == 0 || m.len() == 0 || parts.len() < 3) ==> spec_comment(v) == Some(
                CommentView {
                    time_text: parts[0],
                    mode: int_or(parts[1], 1),
                    color: int_or(parts[2], 0xFFFFFF) & 0xFFFFFF,
                    content: m,
                },
            )
        }),
        !(spec_get(v, seq!['c', 'o', 'm', 'm', 'e', 'n', 't', 's']) matches Some(Json::Array(_)))
            ==> spec_extract(v) == Err::<Seq<CommentView>, RenderError>(RenderError::NoComments),
        forall|items: Seq<Json>|
            spec_get(v, seq!['c', 'o', 'm', 'm', 'e', 'n', 't', 's']) == Some(Json::Array(items))
                ==> spec_extract(v) == Ok::<Seq<CommentView>, RenderError>(spec_comments(items)),
{
    reveal_strlit("p");
    reveal_strlit("m");
    reveal_strlit("comments");
    assert("p"@ =~= seq!['p']);
    assert("m"@ =~= seq!['m']);
    assert("comments"@ =~= seq!['c', 'o', 'm', 'm', 'e', 'n', 't', 's']);
}

} // verus!
