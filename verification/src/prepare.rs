//! Preparing a media directory: the media file's name, the default directory,
//! and the ASS file of each subtitle track.
use vstd::prelude::*;
use crate::path::{file_name, stem, join, file_name_of, stem_of, path_join};
use crate::text::{chars_of, string_of, push_char, push_str, owned, trim, trim_by, CharClass, trim_range};
use crate::url_text::{spec_url_parts, spec_url_decode, url_parts, url_decode, parts_view};
use crate::num::{dec, fmt_usize};

verus! {

/// Why a media path yields no usable file name.
pub enum PrepareError {
    /// The URL's path has no last segment, or an empty one.
    MissingUrlFileName,
    /// The local path has no file name.
    MissingFileName,
    /// The name is empty, `.`, `..`, or holds a slash or a backslash.
    InvalidFileName(String),
}

pub enum PrepareErrorView {
    MissingUrlFileName,
    MissingFileName,
    InvalidFileName(Seq<char>),
}

impl View for PrepareError {
    type V = PrepareErrorView;

    open spec fn view(&self) -> PrepareErrorView {
        match self {
            PrepareError::MissingUrlFileName => PrepareErrorView::MissingUrlFileName,
            PrepareError::MissingFileName => PrepareErrorView::MissingFileName,
            PrepareError::InvalidFileName(n) => PrepareErrorView::InvalidFileName(n@),
        }
    }
}

/// A name that can stand for a file in the output directory.
pub open spec fn is_safe_name(v: Seq<char>) -> bool {
    !(v.len() == 0 || v == seq!['.'] || v == seq!['.', '.'] || v.contains('/') || v.contains('\\'))
}

pub open spec fn spec_safe_file_name(v: Seq<char>) -> Result<Seq<char>, PrepareErrorView> {
    if is_safe_name(v) {
        Ok(v)
    } else {
        Err(PrepareErrorView::InvalidFileName(v))
    }
}

/// Schemes whose last path segment names the media file.
pub open spec fn is_file_scheme(s: Seq<char>) -> bool {
    s == seq!['h', 't', 't', 'p'] || s == seq!['h', 't', 't', 'p', 's'] || s == seq!['f', 't', 'p']
        || s == seq!['f', 'i', 'l', 'e']
}

/// The file name of a media path, from the parts of the URL that `input` reads as: for an
/// http, https, ftp or file URL its last path segment, percent-decoded when that succeeds;
/// for anything else the file name of the path.
pub open spec fn source_name_of_parts(
    input: Seq<char>,
    parts: Option<(Seq<char>, Option<Seq<Seq<char>>>)>,
) -> Result<Seq<char>, PrepareErrorView> {
    match parts {
        Some((scheme, segs)) if is_file_scheme(scheme) => match segs {
            Some(s) => {
                if s.len() > 0 && s.last().len() > 0 {
                    let encoded = s.last();
                    let decoded = match spec_url_decode(encoded) {
                        Some(d) => d,
                        None => encoded,
                    };
                    spec_safe_file_name(decoded)
                } else {
                    Err(PrepareErrorView::MissingUrlFileName)
                }
            },
            None => Err(PrepareErrorView::MissingUrlFileName),
        },
        _ => match file_name(input) {
            Some(n) => spec_safe_file_name(n),
            None => Err(PrepareErrorView::MissingFileName),
        },
    }
}

/// The file name of a media path or URL.
pub open spec fn spec_source_file_name(input: Seq<char>) -> Result<Seq<char>, PrepareErrorView> {
    source_name_of_parts(input, spec_url_parts(input))
}

pub open spec fn ani_suffix() -> Seq<char> {
    seq![' ', '-', ' ', 'a', 'n', 'i']
}

/// `<stem> - ani`, from the stem of the media file's name (the whole name if the stem is empty).
pub open spec fn spec_default_output_dir(input: Seq<char>) -> Result<Seq<char>, PrepareErrorView> {
    match spec_source_file_name(input) {
        Ok(name) => {
            let s = match file_name(name) {
                Some(n) => if stem(n).len() > 0 {
                    stem(n)
                } else {
                    name
                },
                None => name,
            };
            Ok(s + ani_suffix())
        },
        Err(e) => Err(e),
    }
}

/// Refuses a name that cannot stand for a file in the output directory.
pub fn safe_file_name(value: &str) -> (r: Result<String, PrepareError>)
    ensures
        match r {
            Ok(n) => spec_safe_file_name(value@) == Ok::<Seq<char>, PrepareErrorView>(n@),
            Err(e) => spec_safe_file_name(value@) == Err::<Seq<char>, PrepareErrorView>(e@),
        },
{
    let c = chars_of(value);
    let n = c.len();
    assert(c@.subrange(0, n as int) =~= c@);
    let mut bad = n == 0 || crate::path::is_dot_range(&c, 0, n) || crate::path::is_dot_dot_range(
        &c,
        0,
        n,
    );
    let mut i: usize = 0;
    while i < n
        invariant
            n == c@.len(),
            c@ == value@,
            i <= n,
            bad == (n == 0 || c@ == seq!['.'] || c@ == seq!['.', '.'] || exists|j: int|
                0 <= j < i && (c@[j] == '/' || c@[j] == '\\')),
        decreases n - i,
    {
        if c[i] == '/' || c[i] == '\\' {
            bad = true;
        }
        i = i + 1;
    }
    proof {
        if value@.contains('/') {
            let j = choose|j: int| 0 <= j < value@.len() && value@[j] == '/';
            assert(c@[j] == '/');
        }
        if value@.contains('\\') {
            let j = choose|j: int| 0 <= j < value@.len() && value@[j] == '\\';
            assert(c@[j] == '\\');
        }
    }
    if bad {
        Err(PrepareError::InvalidFileName(owned(value)))
    } else {
        Ok(owned(value))
    }
}

fn is_file_scheme_str(s: &str) -> (b: bool)
    ensures
        b == is_file_scheme(s@),
{
    proof {
        reveal_strlit("http");
        reveal_strlit("https");
        reveal_strlit("ftp");
        reveal_strlit("file");
        assert("http"@ =~= seq!['h', 't', 't', 'p']);
        assert("https"@ =~= seq!['h', 't', 't', 'p', 's']);
        assert("ftp"@ =~= seq!['f', 't', 'p']);
        assert("file"@ =~= seq!['f', 'i', 'l', 'e']);
    }
    crate::json::str_eq(s, "http") || crate::json::str_eq(s, "https") || crate::json::str_eq(
        s,
        "ftp",
    ) || crate::json::str_eq(s, "file")
}

/// The file name of a media path, given the scheme and path segments of the URL that it
/// reads as.
pub fn source_name_from_parts(input: &str, parts: Option<(String, Option<Vec<String>>)>) -> (r:
    Result<String, PrepareError>)
    ensures
        match r {
            Ok(n) => source_name_of_parts(input@, parts_view(parts)) == Ok::<
                Seq<char>,
                PrepareErrorView,
            >(n@),
            Err(e) => source_name_of_parts(input@, parts_view(parts)) == Err::<
                Seq<char>,
                PrepareErrorView,
            >(e@),
        },
{
    match parts {
        Some((scheme, segs)) => {
            if is_file_scheme_str(scheme.as_str()) {
                match segs {
                    Some(v) => {
                        let ghost sv = Seq::new(v@.len(), |i: int| v@[i]@);
                        if v.len() == 0 {
                            return Err(PrepareError::MissingUrlFileName);
                        }
                        let last = &v[v.len() - 1];
                        assert(sv.last() == last@);
                        let lc = chars_of(last.as_str());
                        if lc.len() == 0 {
                            return Err(PrepareError::MissingUrlFileName);
                        }
                        let decoded = match url_decode(last.as_str()) {
                            Some(d) => d,
                            None => last.clone(),
                        };
                        return safe_file_name(decoded.as_str());
                    },
                    None => {
                        return Err(PrepareError::MissingUrlFileName);
                    },
                }
            }
        },
        None => {},
    }
    match file_name_of(input) {
        Some(n) => safe_file_name(n.as_str()),
        None => Err(PrepareError::MissingFileName),
    }
}

/// The file name of a media path or URL.
pub fn source_file_name(input: &str) -> (r: Result<String, PrepareError>)
    ensures
        match r {
            Ok(n) => spec_source_file_name(input@) == Ok::<Seq<char>, PrepareErrorView>(n@),
            Err(e) => spec_source_file_name(input@) == Err::<Seq<char>, PrepareErrorView>(e@),
        },
{
    source_name_from_parts(input, url_parts(input))
}

/// The default output directory of a media path: `<stem> - ani`.
pub fn default_output_dir(media_path: &str) -> (r: Result<String, PrepareError>)
    ensures
        match r {
            Ok(d) => spec_default_output_dir(media_path@) == Ok::<Seq<char>, PrepareErrorView>(d@),
            Err(e) => spec_default_output_dir(media_path@) == Err::<Seq<char>, PrepareErrorView>(
                e@,
            ),
        },
{
    let name = match source_file_name(media_path) {
        Ok(n) => n,
        Err(e) => {
            return Err(e);
        },
    };
    let mut s = match file_name_of(name.as_str()) {
        Some(n) => {
            let st = stem_of(n.as_str());
            let sc = chars_of(st.as_str());
            if sc.len() > 0 {
                st
            } else {
                name.clone()
            }
        },
        None => name.clone(),
    };
    push_str(&mut s, " - ani");
    proof {
        reveal_strlit(" - ani");
        assert(" - ani"@ =~= ani_suffix());
    }
    Ok(s)
}

/// A stream that `ffprobe` reports, with the tags the tools read.
pub struct ProbeStream {
    pub index: usize,
    pub codec_type: String,
    pub title: Option<String>,
    pub language: Option<String>,
}

/// A subtitle track written out as an ASS file.
pub struct SubtitleTrack {
    pub index: usize,
    pub name: String,
    pub path: String,
}

/// What `ani.json` records of a prepared directory.
pub struct AniManifest {
    pub media_path: String,
    pub output_dir: String,
    pub media_file: String,
    pub subtitle_tracks: Vec<SubtitleTrack>,
}

pub open spec fn subtitle_word() -> Seq<char> {
    seq!['s', 'u', 'b', 't', 'i', 't', 'l', 'e']
}

/// A tag that holds more than whitespace.
pub open spec fn usable(t: Option<String>) -> bool {
    t matches Some(s) && trim(s@).len() > 0
}

/// The name of a track: its title, else its language, else `subtitle`.
pub open spec fn spec_track_name(s: ProbeStream) -> Seq<char> {
    if usable(s.title) {
        s.title.unwrap()@
    } else if usable(s.language) {
        s.language.unwrap()@
    } else {
        subtitle_word()
    }
}

fn usable_tag(t: &Option<String>) -> (b: bool)
    ensures
        b == usable(*t),
{
    match t {
        Some(s) => {
            let tr = crate::text::trim_str(s.as_str());
            let c = chars_of(tr.as_str());
            c.len() > 0
        },
        None => false,
    }
}

/// The name of a track.
pub fn track_name(stream: &ProbeStream) -> (r: String)
    ensures
        r@ == spec_track_name(*stream),
{
    if usable_tag(&stream.title) {
        stream.title.as_ref().unwrap().clone()
    } else if usable_tag(&stream.language) {
        stream.language.as_ref().unwrap().clone()
    } else {
        proof {
            reveal_strlit("subtitle");
            assert("subtitle"@ =~= subtitle_word());
        }
        owned("subtitle")
    }
}

/// Characters of the Unicode category `Cc` (`char::is_control`).
pub open spec fn is_control(c: char) -> bool {
    (c as u32) <= 0x1f || (0x7f <= (c as u32) && (c as u32) <= 0x9f)
}

/// Characters that a file name may not hold.
pub open spec fn is_unsafe_char(c: char) -> bool {
    is_control(c) || c == '/' || c == '\\' || c == ':' || c == '*' || c == '?' || c == '"' || c
        == '<' || c == '>' || c == '|'
}

/// The name with each unsafe character replaced by `_`.
pub open spec fn replace_unsafe(v: Seq<char>) -> Seq<char> {
    Seq::new(
        v.len(),
        |i: int|
            if is_unsafe_char(v[i]) {
                '_'
            } else {
                v[i]
            },
    )
}

/// A track name made fit for a file name: unsafe characters become `_`, then the name is
/// trimmed of whitespace, then of dots; an empty result becomes `subtitle`.
pub open spec fn sanitized(v: Seq<char>) -> Seq<char> {
    let t = trim_by(trim(replace_unsafe(v)), CharClass::Exactly('.'));
    if t.len() == 0 {
        subtitle_word()
    } else {
        t
    }
}

pub fn sanitize_name(value: &str) -> (r: String)
    ensures
        r@ == sanitized(value@),
{
    let c = chars_of(value);
    let mut m: Vec<char> = Vec::new();
    let mut i: usize = 0;
    while i < c.len()
        invariant
            i <= c@.len(),
            m@ == replace_unsafe(c@).take(i as int),
        decreases c@.len() - i,
    {
        let ch = c[i];
        let u = ch as u32;
        let bad = u <= 0x1f || (0x7f <= u && u <= 0x9f) || ch == '/' || ch == '\\' || ch == ':'
            || ch == '*' || ch == '?' || ch == '"' || ch == '<' || ch == '>' || ch == '|';
        if bad {
            m.push('_');
        } else {
            m.push(ch);
        }
        i = i + 1;
        assert(m@ =~= replace_unsafe(c@).take(i as int));
    }
    assert(replace_unsafe(c@).take(i as int) =~= replace_unsafe(c@));
    assert(m@.subrange(0, m@.len() as int) =~= m@);
    let (a, b) = trim_range(&m, 0, m.len(), CharClass::Whitespace);
    let (p, q) = trim_range(&m, a, b, CharClass::Exactly('.'));
    if p == q {
        proof {
            reveal_strlit("subtitle");
            assert("subtitle"@ =~= subtitle_word());
        }
        owned("subtitle")
    } else {
        string_of(&m, p, q)
    }
}

/// Whether a stream is a subtitle track.
pub fn is_subtitle(stream: &ProbeStream) -> (b: bool)
    ensures
        b == (stream.codec_type@ == subtitle_word()),
{
    proof {
        reveal_strlit("subtitle");
        assert("subtitle"@ =~= subtitle_word());
    }
    crate::json::str_eq(stream.codec_type.as_str(), "subtitle")
}

/// `<index>.<sanitized name>.ass`.
pub open spec fn track_file(index: nat, name: Seq<char>) -> Seq<char> {
    dec(index) + seq!['.'] + sanitized(name) + seq!['.', 'a', 's', 's']
}

/// The subtitle tracks of the streams, in order, each with its name and its ASS file
/// `<output_dir>/<index>.<sanitized name>.ass`.
#[verifier::loop_isolation(false)]
pub fn subtitle_tracks(output_dir: &str, streams: &Vec<ProbeStream>) -> (r: Vec<SubtitleTrack>)
    ensures
        r@.len() == streams@.filter(|s: ProbeStream| s.codec_type@ == subtitle_word()).len(),
        forall|k: int|
            0 <= k < r@.len() ==> {
                let s = streams@.filter(|s: ProbeStream| s.codec_type@ == subtitle_word())[k];
                &&& (#[trigger] r@[k]).index == s.index
                &&& r@[k].name@ == spec_track_name(s)
                &&& r@[k].path@ == join(
                    output_dir@,
                    track_file(s.index as nat, spec_track_name(s)),
                )
            },
{
    let ghost pred = |s: ProbeStream| s.codec_type@ == subtitle_word();
    let mut out: Vec<SubtitleTrack> = Vec::new();
    let mut i: usize = 0;
    while i < streams.len()
        invariant
            i <= streams@.len(),
            out@.len() == streams@.take(i as int).filter(pred).len(),
            forall|k: int|
                0 <= k < out@.len() ==> {
                    let s = streams@.take(i as int).filter(pred)[k];
                    &&& (#[trigger] out@[k]).index == s.index
                    &&& out@[k].name@ == spec_track_name(s)
                    &&& out@[k].path@ == join(
                        output_dir@,
                        track_file(s.index as nat, spec_track_name(s)),
                    )
                },
        decreases streams@.len() - i,
    {
        let s = &streams[i];
        let ghost f0 = streams@.take(i as int).filter(pred);
        proof {
            reveal(Seq::filter);
            assert(streams@.take(i + 1).drop_last() =~= streams@.take(i as int));
            assert(streams@.take(i + 1).last() == *s);
            assert(streams@.take(i + 1).filter(pred) == if pred(*s) {
                f0.push(*s)
            } else {
                f0
            });
        }
        if is_subtitle(s) {
            let name = track_name(s);
            let mut file = fmt_usize(s.index);
            push_char(&mut file, '.');
            let clean = sanitize_name(name.as_str());
            push_str(&mut file, clean.as_str());
            push_str(&mut file, ".ass");
            proof {
                reveal_strlit(".ass");
                assert(file@ =~= track_file(s.index as nat, spec_track_name(*s)));
            }
            let path = path_join(output_dir, file.as_str());
            let ghost o0 = out@;
            out.push(SubtitleTrack { index: s.index, name, path });
            proof {
                assert forall|k: int| 0 <= k < out@.len() implies {
                    let t = streams@.take(i + 1).filter(pred)[k];
                    &&& (#[trigger] out@[k]).index == t.index
                    &&& out@[k].name@ == spec_track_name(t)
                    &&& out@[k].path@ == join(output_dir@, track_file(t.index as nat, spec_track_name(t)))
                } by {
                    if k < o0.len() {
                        assert(out@[k] == o0[k]);
                        assert(f0.push(*s)[k] == f0[k]);
                    }
                }
            }
        }
        i = i + 1;
    }
    assert(streams@.take(i as int) =~= streams@);
    out
}

/// `<output_dir>/ani.json`.
pub fn manifest_path(output_dir: &str) -> (r: String)
    ensures
        r@ == join(output_dir@, seq!['a', 'n', 'i', '.', 'j', 's', 'o', 'n']),
{
    proof {
        reveal_strlit("ani.json");
        assert("ani.json"@ =~= seq!['a', 'n', 'i', '.', 'j', 's', 'o', 'n']);
    }
    path_join(output_dir, "ani.json")
}

impl PrepareError {
    /// The message that reports the error.
    pub fn to_message(&self) -> (r: String)
        ensures
            r@ == match self@ {
                PrepareErrorView::MissingUrlFileName => "媒体 URL 缺少文件名"@,
                PrepareErrorView::MissingFileName => "媒体路径缺少有效文件名"@,
                PrepareErrorView::InvalidFileName(n) => "无效媒体文件名: "@ + n,
            },
    {
        match self {
            PrepareError::MissingUrlFileName => owned("媒体 URL 缺少文件名"),
            PrepareError::MissingFileName => owned("媒体路径缺少有效文件名"),
            PrepareError::InvalidFileName(n) => {
                let mut m = owned("无效媒体文件名: ");
                push_str(&mut m, n.as_str());
                m
            },
        }
    }
}

/// A sanitized track name is a safe file name: it is not empty, not `.` or `..`, and
/// holds no character that a file name may not hold (a slash or a backslash among them).
pub proof fn law_sanitized_is_safe(v: Seq<char>)
    ensures
        is_safe_name(sanitized(v)),
        forall|i: int| 0 <= i < sanitized(v).len() ==> !is_unsafe_char(#[trigger] sanitized(v)[i]),
{
    let u = replace_unsafe(v);
    let w = trim(u);
    let dot = CharClass::Exactly('.');
    let t = trim_by(w, dot);
    // `trim` and `trim_by` keep a stretch of their input.
    crate::text::lemma_lead_len_bound(u, CharClass::Whitespace);
    crate::text::lemma_trail_len_bound(crate::text::trim_start_by(u, CharClass::Whitespace), CharClass::Whitespace);
    crate::text::lemma_lead_len_bound(w, dot);
    crate::text::lemma_trail_len_bound(crate::text::trim_start_by(w, dot), dot);
    let a = crate::text::lead_len(u, CharClass::Whitespace) as int;
    let s1 = u.skip(a);
    let b = s1.len() - crate::text::trail_len(s1, CharClass::Whitespace);
    assert(w == s1.take(b));
    assert forall|i: int| 0 <= i < w.len() implies !is_unsafe_char(#[trigger] w[i]) by {
        assert(w[i] == u[a + i]);
    }
    let c = crate::text::lead_len(w, dot) as int;
    let s2 = w.skip(c);
    let d = s2.len() - crate::text::trail_len(s2, dot);
    assert(t == s2.take(d));
    assert forall|i: int| 0 <= i < t.len() implies !is_unsafe_char(#[trigger] t[i]) by {
        assert(t[i] == w[c + i]);
    }
    if t.len() > 0 {
        assert(t[0] == w[c]);
        assert(t[0] != '.');
        assert(t != seq!['.']);
        assert(t != seq!['.', '.']);
        assert(!t.contains('/'));
        assert(!t.contains('\\'));
    } else {
        let s = subtitle_word();
        assert(!s.contains('/')) by {
            if s.contains('/') {
                let k = choose|k: int| 0 <= k < s.len() && s[k] == '/';
                assert(s[k] != '/');
            }
        }
        assert(!s.contains('\\')) by {
            if s.contains('\\') {
                let k = choose|k: int| 0 <= k < s.len() && s[k] == '\\';
                assert(s[k] != '\\');
            }
        }
        assert forall|i: int| 0 <= i < s.len() implies !is_unsafe_char(#[trigger] s[i]) by {}
        assert(s != seq!['.']);
        assert(s != seq!['.', '.']);
    }
}


/// A sanitized track name holds no control character (U+0000 to U+001F, U+007F to
/// U+009F) and none of `/ \ : * ? " < > |`; a name with nothing left is `subtitle`.
pub proof fn law_sanitized_characters(v: Seq<char>)
    ensures
        forall|i: int|
            0 <= i < sanitized(v).len() ==> {
                let c = #[trigger] sanitized(v)[i];
                &&& (c as u32) > 0x1f
                &&& !(0x7f <= (c as u32) <= 0x9f)
                &&& c != '/' && c != '\\' && c != ':' && c != '*' && c != '?'
                &&& c != '"' && c != '<' && c != '>' && c != '|'
            },
        trim_by(trim(replace_unsafe(v)), CharClass::Exactly('.')).len() == 0 ==> sanitized(v)
            == seq!['s', 'u', 'b', 't', 'i', 't', 'l', 'e'],
{
    law_sanitized_is_safe(v);
}

/// A track is named by its title, else by its language, when either is not blank, and
/// `subtitle` otherwise; its file is `<index>.<sanitized name>.ass`.
pub proof fn law_track_naming(s: ProbeStream, index: nat, name: Seq<char>)
    ensures
        (s.title matches Some(t) && trim(t@).len() > 0) ==> spec_track_name(s) == s.title.unwrap()@,
        !(s.title matches Some(t) && trim(t@).len() > 0) && (s.language matches Some(l) && trim(
            l@,
        ).len() > 0) ==> spec_track_name(s) == s.language.unwrap()@,
        !(s.title matches Some(t) && trim(t@).len() > 0) && !(s.language matches Some(l) && trim(
            l@,
        ).len() > 0) ==> spec_track_name(s) == seq!['s', 'u', 'b', 't', 'i', 't', 'l', 'e'],
        track_file(index, name) == dec(index) + seq!['.'] + sanitized(name) + seq!['.', 'a', 's', 's'],
{
}

/// The default output directory of a media file is a name followed by ` - ani`.
pub proof fn law_default_output_dir_suffix(input: Seq<char>)
    ensures
        spec_default_output_dir(input) matches Ok(d) ==> d.len() >= 6 && d.skip(d.len() - 6) == seq![
            ' ',
            '-',
            ' ',
            'a',
            'n',
            'i',
        ],
{
    if let Ok(d) = spec_default_output_dir(input) {
        assert(d.skip(d.len() - 6) =~= seq![' ', '-', ' ', 'a', 'n', 'i']);
    }
}

} // verus!
