//! The text side of merging a subtitle ASS file with a danmaku ASS file: sections,
//! properties, style and dialogue rows, the override tags that carry coordinates,
//! and the merged document. The coordinates themselves are rescaled by the caller.
use vstd::prelude::*;
use crate::text::{
    chars_of, string_of, push_char, push_str, trim, trim_start_by, CharClass, trim_range,
    skip_class, split, splitn, split_once, find_char, find_sub, occurs_at, lines, lines_of,
    eq_ignore_case, ascii_lower, range_eq_ignore_case, find_from, find_in, lemma_find_sub_at, split_ranges,
    splitn_ranges, starts_at,
};
use crate::markdown::line_views;
use crate::md_update::{joined, join_lines};

verus! {

/// `[name]`.
pub open spec fn marker(name: Seq<char>) -> Seq<char> {
    seq!['['] + name + seq![']']
}

/// The text of a section: from the end of its first `[name]` marker to the next line that
/// starts a section (`\n[`, else `\r\n[`), or to the end of the input.
#[verifier::opaque]
pub open spec fn spec_section(input: Seq<char>, name: Seq<char>) -> Option<Seq<char>> {
    match find_sub(input, marker(name)) {
        Some(i) => {
            let rest = input.skip(i + marker(name).len());
            Some(rest.take(section_end(rest)))
        },
        None => None,
    }
}

/// Where the text after a section marker ends: at `\n[`, else at `\r\n[`, else at its end.
pub open spec fn section_end(rest: Seq<char>) -> int {
    match find_sub(rest, seq!['\n', '[']) {
        Some(e) => e,
        None => match find_sub(rest, seq!['\r', '\n', '[']) {
            Some(e) => e,
            None => rest.len() as int,
        },
    }
}

proof fn lemma_find_from_rest(c: Seq<char>, start: int, t: Seq<char>, r: Option<usize>)
    requires
        0 <= start <= c.len(),
        match r {
            Some(i) => start <= i && occurs_at(c, t, i as int) && forall|j: int|
                start <= j < i ==> !occurs_at(c, t, j),
            None => forall|j: int| start <= j ==> !occurs_at(c, t, j),
        },
    ensures
        match r {
            Some(i) => find_sub(c.skip(start), t) == Some(i - start),
            None => find_sub(c.skip(start), t) == None::<int>,
        },
{
    let rest = c.skip(start);
    assert forall|j: int| 0 <= j implies #[trigger] occurs_at(rest, t, j) == occurs_at(
        c,
        t,
        start + j,
    ) by {
        if j + t.len() <= rest.len() {
            assert(rest.subrange(j, j + t.len()) =~= c.subrange(start + j, start + j + t.len()));
        }
    }
    match r {
        Some(i) => {
            assert(occurs_at(rest, t, i - start));
            assert forall|j: int| 0 <= j < i - start implies !occurs_at(rest, t, j) by {
                assert(!occurs_at(c, t, start + j));
            }
            lemma_find_sub_at(rest, t, i - start);
        },
        None => {
            if exists|j: int| occurs_at(rest, t, j) {
                let j = choose|j: int| occurs_at(rest, t, j);
                assert(!occurs_at(c, t, start + j));
            }
        },
    }
}

fn marker_chars(name: &str) -> (m: Vec<char>)
    ensures
        m@ == marker(name@),
{
    let mut m: Vec<char> = Vec::new();
    m.push('[');
    let nc = chars_of(name);
    let mut i: usize = 0;
    while i < nc.len()
        invariant
            i <= nc@.len(),
            m@ == seq!['['] + nc@.take(i as int),
        decreases nc@.len() - i,
    {
        m.push(nc[i]);
        i = i + 1;
        assert(m@ =~= seq!['['] + nc@.take(i as int));
    }
    m.push(']');
    assert(nc@.take(i as int) =~= nc@);
    assert(m@ =~= marker(name@));
    m
}

fn end_of_section(c: &Vec<char>, start: usize) -> (end: usize)
    requires
        start <= c@.len(),
    ensures
        start <= end <= c@.len(),
        end - start == section_end(c@.skip(start as int)),
{
    let nl: [char; 2] = ['\n', '['];
    let crnl: [char; 3] = ['\r', '\n', '['];
    let nlv = nl.as_slice();
    let crv = crnl.as_slice();
    assert(nlv@ =~= seq!['\n', '[']);
    assert(crv@ =~= seq!['\r', '\n', '[']);
    let e1 = find_from(c.as_slice(), start, nlv);
    proof {
        lemma_find_from_rest(c@, start as int, nlv@, e1);
    }
    match e1 {
        Some(e) => e,
        None => {
            let e2 = find_from(c.as_slice(), start, crv);
            proof {
                lemma_find_from_rest(c@, start as int, crv@, e2);
            }
            match e2 {
                Some(e) => e,
                None => c.len(),
            }
        },
    }
}

/// The text of the section `[name]`.
#[verifier::rlimit(40)]
pub fn section(input: &str, name: &str) -> (r: Option<String>)
    ensures
        match r {
            Some(s) => spec_section(input@, name@) == Some(s@),
            None => spec_section(input@, name@) == None::<Seq<char>>,
        },
{
    let c = chars_of(input);
    let n = c.len();
    let m = marker_chars(name);
    let found = find_from(c.as_slice(), 0, m.as_slice());
    proof {
        lemma_find_from_rest(c@, 0, m@, found);
        assert(c@.skip(0) =~= c@);
    }
    let start = match found {
        Some(p) => {
            assert(p + m@.len() <= n);
            p + m.len()
        },
        None => {
            proof {
                lemma_section_is(input@, name@, None, 0);
            }
            return None;
        },
    };
    let end = end_of_section(&c, start);
    proof {
        lemma_section_is(input@, name@, found, end as int);
    }
    Some(string_of(c.as_slice(), start, end))
}

proof fn lemma_section_is(input: Seq<char>, name: Seq<char>, found: Option<usize>, end: int)
    requires
        match found {
            Some(p) => {
                &&& find_sub(input, marker(name)) == Some(p as int)
                &&& p + marker(name).len() <= end <= input.len()
                &&& end - (p + marker(name).len()) == section_end(
                    input.skip(p + marker(name).len()),
                )
            },
            None => find_sub(input, marker(name)) == None::<int>,
        },
    ensures
        match found {
            Some(p) => spec_section(input, name) == Some(
                input.subrange(p + marker(name).len(), end),
            ),
            None => spec_section(input, name) == None::<Seq<char>>,
        },
{
    reveal(spec_section);
    match found {
        Some(p) => {
            let start = p + marker(name).len();
            assert(input.skip(start).take(end - start) =~= input.subrange(start, end));
        },
        None => {},
    }
}

/// The value of the first line `name: value` of a section (name compared without ASCII
/// case, both trimmed).
pub open spec fn first_property(ls: Seq<Seq<char>>, name: Seq<char>) -> Option<Seq<char>>
    decreases ls.len(),
{
    if ls.len() == 0 {
        None
    } else {
        match split_once(ls[0], ':') {
            Some((k, v)) => if eq_ignore_case(trim(k), name) {
                Some(trim(v))
            } else {
                first_property(ls.drop_first(), name)
            },
            None => first_property(ls.drop_first(), name),
        }
    }
}

pub open spec fn spec_property(section: Seq<char>, name: Seq<char>) -> Option<Seq<char>> {
    first_property(lines(section), name)
}

/// The key and value of a `key: value` line, both trimmed.
fn key_value(l: &[char]) -> (r: Option<(usize, usize, usize, usize)>)
    ensures
        match r {
            Some((ka, kb, va, vb)) => {
                &&& ka <= kb <= va <= vb <= l@.len()
                &&& split_once(l@, ':') is Some
                &&& trim(split_once(l@, ':').unwrap().0) == l@.subrange(ka as int, kb as int)
                &&& trim(split_once(l@, ':').unwrap().1) == l@.subrange(va as int, vb as int)
            },
            None => split_once(l@, ':') is None,
        },
{
    let n = l.len();
    assert(l@.subrange(0, n as int) =~= l@);
    match crate::text::find_in(l, 0, n, ':') {
        Some(k) => {
            assert(l@.take(k as int) =~= l@.subrange(0, k as int));
            assert(l@.skip(k + 1) =~= l@.subrange(k + 1, n as int));
            let (ka, kb) = trim_range(l, 0, k, CharClass::Whitespace);
            let (va, vb) = trim_range(l, k + 1, n, CharClass::Whitespace);
            Some((ka, kb, va, vb))
        },
        None => None,
    }
}

/// The value of the property `name` of a section.
pub fn property(section: &str, name: &str) -> (r: Option<String>)
    ensures
        match r {
            Some(v) => spec_property(section@, name@) == Some(v@),
            None => spec_property(section@, name@) == None::<Seq<char>>,
        },
{
    let ls = lines_of(section);
    let ghost lv = lines(section@);
    let nc = chars_of(name);
    let mut i: usize = 0;
    assert(lv.skip(0) =~= lv);
    while i < ls.len()
        invariant
            i <= ls@.len(),
            ls@.len() == lv.len(),
            lv == lines(section@),
            nc@ == name@,
            forall|j: int| 0 <= j < ls@.len() ==> #[trigger] ls@[j]@ == lv[j],
            spec_property(section@, name@) == first_property(lv.skip(i as int), name@),
        decreases ls@.len() - i,
    {
        let l = chars_of(ls[i].as_str());
        let ghost rest = lv.skip(i as int);
        assert(rest[0] == l@);
        assert(rest.drop_first() =~= lv.skip(i + 1));
        assert(rest.len() > 0);
        match key_value(&l) {
            Some((ka, kb, va, vb)) => {
                let ghost kv = split_once(l@, ':').unwrap();
                assert(split_once(rest[0], ':') == Some(kv));
                let same = range_eq_ignore_case(&l, ka, kb, &nc);
                assert(same == eq_ignore_case(trim(kv.0), name@));
                if same {
                    assert(first_property(rest, name@) == Some(trim(kv.1)));
                    return Some(string_of(&l, va, vb));
                }
                assert(first_property(rest, name@) == first_property(rest.drop_first(), name@));
            },
            None => {
                assert(first_property(rest, name@) == first_property(rest.drop_first(), name@));
            },
        }
        i = i + 1;
    }
    assert(lv.skip(i as int) =~= Seq::<Seq<char>>::empty());
    None
}

/// The kind of row a section lists: `Style:` rows or `Dialogue:` rows.
#[derive(Clone, Copy, PartialEq, Eq, Structural, Debug)]
pub enum RowKind {
    Style,
    Dialogue,
}

pub open spec fn row_prefix(kind: RowKind) -> Seq<char> {
    match kind {
        RowKind::Style => "Style"@,
        RowKind::Dialogue => "Dialogue"@,
    }
}

fn row_prefix_text(kind: RowKind) -> (r: &'static str)
    ensures
        r@ == row_prefix(kind),
{
    match kind {
        RowKind::Style => "Style",
        RowKind::Dialogue => "Dialogue",
    }
}

/// Which of the two inputs an error is about.
#[derive(Clone, Copy, PartialEq, Eq, Structural, Debug)]
pub enum Side {
    Subtitle,
    Danmaku,
}

/// Why two ASS documents cannot be merged.
#[derive(Clone, Copy, PartialEq, Eq, Structural, Debug)]
pub enum MergeError {
    /// The input has neither `[V4+ Styles]` nor `[V4 Styles]`.
    MissingStyles(Side),
    /// The input has no `[Events]`.
    MissingEvents(Side),
    /// A section of rows has no `Format:` line.
    MissingFormat(RowKind),
    /// A row has another number of fields than its `Format:` line names.
    FieldCount(RowKind),
    /// The two inputs name different fields for their rows of this kind.
    FormatMismatch(RowKind),
    /// The subtitle input has no `[Script Info]`.
    MissingScriptInfo,
}

/// The message that reports a merge error.
pub open spec fn merge_message(e: MergeError) -> Seq<char> {
    match e {
        MergeError::MissingStyles(Side::Subtitle) => "字幕 ASS 缺少样式区段"@,
        MergeError::MissingStyles(Side::Danmaku) => "弹幕 ASS 缺少样式区段"@,
        MergeError::MissingEvents(Side::Subtitle) => "字幕 ASS 缺少事件区段"@,
        MergeError::MissingEvents(Side::Danmaku) => "弹幕 ASS 缺少事件区段"@,
        MergeError::MissingFormat(RowKind::Style) => "ASS Style 区段缺少 Format"@,
        MergeError::MissingFormat(RowKind::Dialogue) => "ASS Dialogue 区段缺少 Format"@,
        MergeError::FieldCount(RowKind::Style) => "ASS Style 字段数量与 Format 不一致"@,
        MergeError::FieldCount(RowKind::Dialogue) => "ASS Dialogue 字段数量与 Format 不一致"@,
        MergeError::FormatMismatch(RowKind::Style) => "字幕和弹幕 ASS 的样式 Format 不一致"@,
        MergeError::FormatMismatch(RowKind::Dialogue) => "字幕和弹幕 ASS 的事件 Format 不一致"@,
        MergeError::MissingScriptInfo => "字幕 ASS 缺少 Script Info 区段"@,
    }
}

impl MergeError {
    /// The message that reports the error.
    pub fn to_message(&self) -> (r: String)
        ensures
            r@ == merge_message(*self),
    {
        let s = match *self {
            MergeError::MissingStyles(Side::Subtitle) => "字幕 ASS 缺少样式区段",
            MergeError::MissingStyles(Side::Danmaku) => "弹幕 ASS 缺少样式区段",
            MergeError::MissingEvents(Side::Subtitle) => "字幕 ASS 缺少事件区段",
            MergeError::MissingEvents(Side::Danmaku) => "弹幕 ASS 缺少事件区段",
            MergeError::MissingFormat(RowKind::Style) => "ASS Style 区段缺少 Format",
            MergeError::MissingFormat(RowKind::Dialogue) => "ASS Dialogue 区段缺少 Format",
            MergeError::FieldCount(RowKind::Style) => "ASS Style 字段数量与 Format 不一致",
            MergeError::FieldCount(RowKind::Dialogue) => "ASS Dialogue 字段数量与 Format 不一致",
            MergeError::FormatMismatch(RowKind::Style) => "字幕和弹幕 ASS 的样式 Format 不一致",
            MergeError::FormatMismatch(RowKind::Dialogue) => "字幕和弹幕 ASS 的事件 Format 不一致",
            MergeError::MissingScriptInfo => "字幕 ASS 缺少 Script Info 区段",
        };
        crate::text::owned(s)
    }
}

/// The field names of a `Format:` value: its comma-separated parts, trimmed.
pub open spec fn format_fields(value: Seq<char>) -> Seq<Seq<char>> {
    split(value, ',').map_values(|f: Seq<char>| trim(f))
}

/// Whether a field is named `Text` (without ASCII case).
pub open spec fn has_text_field(format: Seq<Seq<char>>) -> bool {
    exists|i: int| 0 <= i < format.len() && eq_ignore_case(#[trigger] format[i], "Text"@)
}

/// The fields of a row's value: the value without leading whitespace, cut at its first
/// `n - 1` commas where the format has a `Text` field (which may hold commas), else at
/// every comma.
pub open spec fn row_fields(value: Seq<char>, n: nat, text: bool) -> Seq<Seq<char>> {
    let v = trim_start_by(value, CharClass::Whitespace);
    if text {
        splitn(v, n, ',')
    } else {
        split(v, ',')
    }
}

pub open spec fn then_rows(
    done: Seq<Seq<Seq<char>>>,
    rest: Option<Seq<Seq<Seq<char>>>>,
) -> Option<Seq<Seq<Seq<char>>>> {
    match rest {
        Some(r) => Some(done + r),
        None => None,
    }
}

/// The rows of the lines whose key is `prefix`, or `None` when one of them does not have
/// `n` fields.
pub open spec fn rows_of(ls: Seq<Seq<char>>, prefix: Seq<char>, n: nat, text: bool) -> Option<
    Seq<Seq<Seq<char>>>,
>
    decreases ls.len(),
{
    if ls.len() == 0 {
        Some(seq![])
    } else {
        let rest = rows_of(ls.drop_first(), prefix, n, text);
        match split_once(ls[0], ':') {
            Some((p, v)) => {
                if eq_ignore_case(trim(p), prefix) {
                    let cols = row_fields(v, n, text);
                    if cols.len() != n {
                        None
                    } else {
                        then_rows(seq![cols], rest)
                    }
                } else {
                    rest
                }
            },
            None => rest,
        }
    }
}

/// The format and the rows of a section.
#[verifier::opaque]
pub open spec fn spec_parse_rows(section: Seq<char>, kind: RowKind) -> Result<
    (Seq<Seq<char>>, Seq<Seq<Seq<char>>>),
    MergeError,
> {
    match spec_property(section, "Format"@) {
        None => Err(MergeError::MissingFormat(kind)),
        Some(v) => {
            let f = format_fields(v);
            match rows_of(lines(section), row_prefix(kind), f.len(), has_text_field(f)) {
                Some(r) => Ok((f, r)),
                None => Err(MergeError::FieldCount(kind)),
            }
        },
    }
}

pub open spec fn rows_view(rows: Seq<Vec<String>>) -> Seq<Seq<Seq<char>>> {
    Seq::new(rows.len(), |i: int| line_views(rows[i]@))
}

/// The pieces `c[a..b]` of the given ranges, each one trimmed where `trimmed` holds.
fn pieces_of(c: &[char], ranges: &Vec<(usize, usize)>, trimmed: bool) -> (r: Vec<String>)
    requires
        forall|k: int| 0 <= k < ranges@.len() ==> (#[trigger] ranges@[k]).0 <= ranges@[k].1 <= c@.len(),
    ensures
        r@.len() == ranges@.len(),
        forall|k: int|
            0 <= k < r@.len() ==> #[trigger] r@[k]@ == (if trimmed {
                trim(c@.subrange(ranges@[k].0 as int, ranges@[k].1 as int))
            } else {
                c@.subrange(ranges@[k].0 as int, ranges@[k].1 as int)
            }),
{
    let mut out: Vec<String> = Vec::new();
    let mut i: usize = 0;
    while i < ranges.len()
        invariant
            i <= ranges@.len(),
            out@.len() == i,
            forall|k: int| 0 <= k < ranges@.len() ==> (#[trigger] ranges@[k]).0 <= ranges@[k].1 <= c@.len(),
            forall|k: int|
                0 <= k < i ==> #[trigger] out@[k]@ == (if trimmed {
                    trim(c@.subrange(ranges@[k].0 as int, ranges@[k].1 as int))
                } else {
                    c@.subrange(ranges@[k].0 as int, ranges@[k].1 as int)
                }),
        decreases ranges@.len() - i,
    {
        let (a, b) = ranges[i];
        let s = if trimmed {
            let (x, y) = trim_range(c, a, b, CharClass::Whitespace);
            string_of(c, x, y)
        } else {
            string_of(c, a, b)
        };
        out.push(s);
        i = i + 1;
    }
    out
}

/// Whether one of the field names is `Text`.
fn find_text_field(format: &Vec<String>) -> (b: bool)
    ensures
        b == has_text_field(line_views(format@)),
{
    let t: [char; 4] = ['T', 'e', 'x', 't'];
    let tv = t.as_slice();
    proof {
        reveal_strlit("Text");
        assert(tv@ =~= "Text"@);
    }
    let ghost f = line_views(format@);
    let mut i: usize = 0;
    while i < format.len()
        invariant
            i <= format@.len(),
            f == line_views(format@),
            tv@ == "Text"@,
            forall|j: int| 0 <= j < i ==> !eq_ignore_case(#[trigger] f[j], "Text"@),
        decreases format@.len() - i,
    {
        let c = chars_of(format[i].as_str());
        let n = c.len();
        assert(c@.subrange(0, n as int) =~= c@);
        if range_eq_ignore_case(c.as_slice(), 0, n, tv) {
            assert(eq_ignore_case(f[i as int], "Text"@));
            return true;
        }
        i = i + 1;
    }
    false
}

/// The field names of a section's `Format:` line and its rows of the given kind.
pub fn parse_rows(section: &str, kind: RowKind) -> (r: Result<(Vec<String>, Vec<Vec<String>>), MergeError>)
    ensures
        match r {
            Ok((f, rows)) => spec_parse_rows(section@, kind) == Ok::<
                (Seq<Seq<char>>, Seq<Seq<Seq<char>>>),
                MergeError,
            >((line_views(f@), rows_view(rows@))),
            Err(e) => spec_parse_rows(section@, kind) == Err::<
                (Seq<Seq<char>>, Seq<Seq<Seq<char>>>),
                MergeError,
            >(e),
        },
{
    reveal(spec_parse_rows);
    let value = match property(section, "Format") {
        Some(v) => v,
        None => {
            return Err(MergeError::MissingFormat(kind));
        },
    };
    let vc = chars_of(value.as_str());
    let fr = split_ranges(vc.as_slice(), 0, vc.len());
    let format = pieces_of(vc.as_slice(), &fr, true);
    let ghost fv = format_fields(value@);
    proof {
        assert(vc@.subrange(0, vc@.len() as int) =~= vc@);
        assert(line_views(format@) =~= fv);
    }
    let nf = format.len();
    let text = find_text_field(&format);
    let prefix = chars_of(row_prefix_text(kind));
    let ls = lines_of(section);
    let ghost lv = lines(section@);
    let ghost p = row_prefix(kind);
    let mut rows: Vec<Vec<String>> = Vec::new();
    let mut i: usize = 0;
    assert(lv.skip(0) =~= lv);
    assert(rows_view(rows@) =~= Seq::<Seq<Seq<char>>>::empty());
    while i < ls.len()
        invariant
            i <= ls@.len(),
            ls@.len() == lv.len(),
            lv == lines(section@),
            prefix@ == p,
            p == row_prefix(kind),
            nf == fv.len(),
            text == has_text_field(fv),
            fv == format_fields(value@),
            line_views(format@) == fv,
            spec_property(section@, "Format"@) == Some(value@),
            forall|j: int| 0 <= j < ls@.len() ==> #[trigger] ls@[j]@ == lv[j],
            rows_of(lv, p, nf as nat, text) == then_rows(
                rows_view(rows@),
                rows_of(lv.skip(i as int), p, nf as nat, text),
            ),
        decreases ls@.len() - i,
    {
        let l = chars_of(ls[i].as_str());
        let n = l.len();
        let ghost rest = lv.skip(i as int);
        assert(rest[0] == l@);
        assert(rest.drop_first() =~= lv.skip(i + 1));
        assert(l@.subrange(0, n as int) =~= l@);
        match find_in(l.as_slice(), 0, n, ':') {
            Some(k) => {
                proof {
                    crate::text::lemma_find_char(l@, ':');
                    assert(l@.take(k as int) =~= l@.subrange(0, k as int));
                    assert(l@.skip(k + 1) =~= l@.subrange(k + 1, n as int));
                }
                let (ka, kb) = trim_range(l.as_slice(), 0, k, CharClass::Whitespace);
                if range_eq_ignore_case(l.as_slice(), ka, kb, prefix.as_slice()) {
                    let a = skip_class(l.as_slice(), k + 1, n, CharClass::Whitespace);
                    let ghost v = l@.skip(k + 1);
                    let ranges = if text {
                        splitn_ranges(l.as_slice(), a, n, nf)
                    } else {
                        split_ranges(l.as_slice(), a, n)
                    };
                    proof {
                        assert(l@.subrange(a as int, n as int) == trim_start_by(v, CharClass::Whitespace));
                    }
                    if ranges.len() != nf {
                        assert(rows_of(rest, p, nf as nat, text) == None::<Seq<Seq<Seq<char>>>>);
                        assert(rows_of(lv, p, nf as nat, text) == None::<Seq<Seq<Seq<char>>>>);
                        reveal(spec_parse_rows);
                        return Err(MergeError::FieldCount(kind));
                    }
                    let cols = pieces_of(l.as_slice(), &ranges, false);
                    let ghost before = rows_view(rows@);
                    proof {
                        assert(line_views(cols@) =~= row_fields(v, nf as nat, text));
                    }
                    rows.push(cols);
                    proof {
                        assert(rows_view(rows@) =~= before + seq![row_fields(v, nf as nat, text)]);
                    }
                } else {
                    assert(rows_of(rest, p, nf as nat, text) == rows_of(rest.drop_first(), p, nf as nat, text));
                }
            },
            None => {
                assert(rows_of(rest, p, nf as nat, text) == rows_of(rest.drop_first(), p, nf as nat, text));
            },
        }
        i = i + 1;
    }
    assert(lv.skip(i as int) =~= Seq::<Seq<char>>::empty());
    assert(rows_of(lv.skip(i as int), p, nf as nat, text) == Some(Seq::<Seq<Seq<char>>>::empty()));
    assert(rows_view(rows@) + Seq::<Seq<Seq<char>>>::empty() =~= rows_view(rows@));
    assert(rows_of(lv, p, nf as nat, text) == Some(rows_view(rows@)));
    assert(spec_property(section@, "Format"@) == Some(value@));
    assert(line_views(format@) == fv);
    assert(spec_parse_rows(section@, kind) == Ok::<
        (Seq<Seq<char>>, Seq<Seq<Seq<char>>>),
        MergeError,
    >((fv, rows_view(rows@))));
    Ok((format, rows))
}

/// Two lists of field names that agree up to ASCII case.
#[verifier::opaque]
pub open spec fn same_fields(a: Seq<Seq<char>>, b: Seq<Seq<char>>) -> bool {
    a.len() == b.len() && forall|i: int| 0 <= i < a.len() ==> eq_ignore_case(#[trigger] a[i], b[i])
}

/// Whether two `Format:` lines name the same fields.
pub fn same_format(a: &Vec<String>, b: &Vec<String>) -> (r: bool)
    ensures
        r == same_fields(line_views(a@), line_views(b@)),
{
    reveal(same_fields);
    if a.len() != b.len() {
        return false;
    }
    let ghost av = line_views(a@);
    let ghost bv = line_views(b@);
    let mut i: usize = 0;
    while i < a.len()
        invariant
            i <= a@.len(),
            a@.len() == b@.len(),
            av == line_views(a@),
            bv == line_views(b@),
            forall|j: int| 0 <= j < i ==> eq_ignore_case(#[trigger] av[j], bv[j]),
        decreases a@.len() - i,
    {
        let x = chars_of(a[i].as_str());
        let y = chars_of(b[i].as_str());
        let n = x.len();
        assert(x@.subrange(0, n as int) =~= x@);
        if !range_eq_ignore_case(x.as_slice(), 0, n, y.as_slice()) {
            assert(!eq_ignore_case(av[i as int], bv[i as int]));
            reveal(same_fields);
            return false;
        }
        i = i + 1;
    }
    true
}

/// The styles section: `[V4+ Styles]`, else `[V4 Styles]`.
pub open spec fn spec_styles(input: Seq<char>) -> Option<Seq<char>> {
    match spec_section(input, "V4+ Styles"@) {
        Some(s) => Some(s),
        None => spec_section(input, "V4 Styles"@),
    }
}

fn styles_section(input: &str) -> (r: Option<String>)
    ensures
        match r {
            Some(s) => spec_styles(input@) == Some(s@),
            None => spec_styles(input@) == None::<Seq<char>>,
        },
{
    match section(input, "V4+ Styles") {
        Some(s) => Some(s),
        None => section(input, "V4 Styles"),
    }
}

/// The rows of both inputs, read and checked against each other.
pub struct MergeInputs {
    pub style_format: Vec<String>,
    pub subtitle_styles: Vec<Vec<String>>,
    pub danmaku_styles: Vec<Vec<String>>,
    pub event_format: Vec<String>,
    pub subtitle_events: Vec<Vec<String>>,
    pub danmaku_events: Vec<Vec<String>>,
}

pub ghost struct MergeInputsView {
    pub style_format: Seq<Seq<char>>,
    pub subtitle_styles: Seq<Seq<Seq<char>>>,
    pub danmaku_styles: Seq<Seq<Seq<char>>>,
    pub event_format: Seq<Seq<char>>,
    pub subtitle_events: Seq<Seq<Seq<char>>>,
    pub danmaku_events: Seq<Seq<Seq<char>>>,
}

impl View for MergeInputs {
    type V = MergeInputsView;

    open spec fn view(&self) -> MergeInputsView {
        MergeInputsView {
            style_format: line_views(self.style_format@),
            subtitle_styles: rows_view(self.subtitle_styles@),
            danmaku_styles: rows_view(self.danmaku_styles@),
            event_format: line_views(self.event_format@),
            subtitle_events: rows_view(self.subtitle_events@),
            danmaku_events: rows_view(self.danmaku_events@),
        }
    }
}

/// The sections and rows of a subtitle document and a danmaku document, in the order in
/// which their absence or disagreement is reported.
pub open spec fn spec_merge_inputs(subtitle: Seq<char>, danmaku: Seq<char>) -> Result<
    MergeInputsView,
    MergeError,
> {
    match (spec_styles(subtitle), spec_styles(danmaku)) {
        (None, _) => Err(MergeError::MissingStyles(Side::Subtitle)),
        (_, None) => Err(MergeError::MissingStyles(Side::Danmaku)),
        (Some(ss), Some(ds)) => match (
            spec_section(subtitle, "Events"@),
            spec_section(danmaku, "Events"@),
        ) {
            (None, _) => Err(MergeError::MissingEvents(Side::Subtitle)),
            (_, None) => Err(MergeError::MissingEvents(Side::Danmaku)),
            (Some(se), Some(de)) => match spec_parse_rows(ss, RowKind::Style) {
                Err(e) => Err(e),
                Ok((sf, sr)) => match spec_parse_rows(ds, RowKind::Style) {
                    Err(e) => Err(e),
                    Ok((df, dr)) => if !same_fields(sf, df) {
                        Err(MergeError::FormatMismatch(RowKind::Style))
                    } else {
                        match spec_parse_rows(se, RowKind::Dialogue) {
                            Err(e) => Err(e),
                            Ok((ef, er)) => match spec_parse_rows(de, RowKind::Dialogue) {
                                Err(e) => Err(e),
                                Ok((def, der)) => if !same_fields(ef, def) {
                                    Err(MergeError::FormatMismatch(RowKind::Dialogue))
                                } else {
                                    Ok(
                                        MergeInputsView {
                                            style_format: sf,
                                            subtitle_styles: sr,
                                            danmaku_styles: dr,
                                            event_format: ef,
                                            subtitle_events: er,
                                            danmaku_events: der,
                                        },
                                    )
                                },
                            },
                        }
                    },
                },
            },
        },
    }
}

/// Reads the styles and events of both documents and checks that they can be merged.
pub fn merge_inputs(subtitle: &str, danmaku: &str) -> (r: Result<MergeInputs, MergeError>)
    ensures
        match r {
            Ok(m) => spec_merge_inputs(subtitle@, danmaku@) == Ok::<MergeInputsView, MergeError>(m@),
            Err(e) => spec_merge_inputs(subtitle@, danmaku@) == Err::<MergeInputsView, MergeError>(e),
        },
{
    let ss = match styles_section(subtitle) {
        Some(s) => s,
        None => {
            return Err(MergeError::MissingStyles(Side::Subtitle));
        },
    };
    let ds = match styles_section(danmaku) {
        Some(s) => s,
        None => {
            return Err(MergeError::MissingStyles(Side::Danmaku));
        },
    };
    let se = match section(subtitle, "Events") {
        Some(s) => s,
        None => {
            return Err(MergeError::MissingEvents(Side::Subtitle));
        },
    };
    let de = match section(danmaku, "Events") {
        Some(s) => s,
        None => {
            return Err(MergeError::MissingEvents(Side::Danmaku));
        },
    };
    let (sf, sr) = match parse_rows(ss.as_str(), RowKind::Style) {
        Ok(x) => x,
        Err(e) => {
            return Err(e);
        },
    };
    let (df, dr) = match parse_rows(ds.as_str(), RowKind::Style) {
        Ok(x) => x,
        Err(e) => {
            return Err(e);
        },
    };
    if !same_format(&sf, &df) {
        return Err(MergeError::FormatMismatch(RowKind::Style));
    }
    let (ef, er) = match parse_rows(se.as_str(), RowKind::Dialogue) {
        Ok(x) => x,
        Err(e) => {
            return Err(e);
        },
    };
    let (def, der) = match parse_rows(de.as_str(), RowKind::Dialogue) {
        Ok(x) => x,
        Err(e) => {
            return Err(e);
        },
    };
    if !same_format(&ef, &def) {
        return Err(MergeError::FormatMismatch(RowKind::Dialogue));
    }
    Ok(
        MergeInputs {
            style_format: sf,
            subtitle_styles: sr,
            danmaku_styles: dr,
            event_format: ef,
            subtitle_events: er,
            danmaku_events: der,
        },
    )
}

/// One line of `[Script Info]` as the merged document writes it: the resolution lines
/// take the new values, blank lines are dropped, the other lines are kept.
pub open spec fn info_line(l: Seq<char>, width: Seq<char>, height: Seq<char>) -> Seq<char> {
    let key = match split_once(l, ':') {
        Some((k, _)) => Some(trim(k)),
        None => None,
    };
    if key is Some && eq_ignore_case(key->0, "PlayResX"@) {
        "PlayResX: "@ + width + seq!['\n']
    } else if key is Some && eq_ignore_case(key->0, "PlayResY"@) {
        "PlayResY: "@ + height + seq!['\n']
    } else if trim(l).len() > 0 {
        l + seq!['\n']
    } else {
        seq![]
    }
}

pub open spec fn info_lines(ls: Seq<Seq<char>>, width: Seq<char>, height: Seq<char>) -> Seq<char>
    decreases ls.len(),
{
    if ls.len() == 0 {
        seq![]
    } else {
        info_lines(ls.drop_last(), width, height) + info_line(ls.last(), width, height)
    }
}

/// The `[Script Info]` section of the merged document.
pub open spec fn spec_script_info(input: Seq<char>, width: Seq<char>, height: Seq<char>) -> Option<
    Seq<char>,
> {
    match spec_section(input, "Script Info"@) {
        Some(info) => Some("[Script Info]\n"@ + info_lines(lines(info), width, height)),
        None => None,
    }
}

fn write_info_line(out: &mut String, l: &str, xk: &Vec<char>, yk: &Vec<char>, width: &str, height: &str)
    requires
        xk@ == "PlayResX"@,
        yk@ == "PlayResY"@,
    ensures
        final(out)@ == old(out)@ + info_line(l@, width@, height@),
{
    let c = chars_of(l);
    let n = c.len();
    assert(c@.subrange(0, n as int) =~= c@);
    match find_in(c.as_slice(), 0, n, ':') {
        Some(k) => {
            proof {
                crate::text::lemma_find_char(c@, ':');
                assert(c@.take(k as int) =~= c@.subrange(0, k as int));
            }
            let (ka, kb) = trim_range(c.as_slice(), 0, k, CharClass::Whitespace);
            if range_eq_ignore_case(c.as_slice(), ka, kb, xk.as_slice()) {
                push_str(out, "PlayResX: ");
                push_str(out, width);
                push_char(out, '\n');
                return;
            }
            if range_eq_ignore_case(c.as_slice(), ka, kb, yk.as_slice()) {
                push_str(out, "PlayResY: ");
                push_str(out, height);
                push_char(out, '\n');
                return;
            }
        },
        None => {},
    }
    let (a, b) = trim_range(c.as_slice(), 0, n, CharClass::Whitespace);
    if a < b {
        push_str(out, l);
        push_char(out, '\n');
    } else {
        assert(old(out)@ + info_line(l@, width@, height@) =~= old(out)@);
    }
}

/// The subtitle's `[Script Info]` with its resolution set to `width` by `height`.
pub fn rewrite_script_info(input: &str, width: &str, height: &str) -> (r: Option<String>)
    ensures
        match r {
            Some(s) => spec_script_info(input@, width@, height@) == Some(s@),
            None => spec_script_info(input@, width@, height@) == None::<Seq<char>>,
        },
{
    let info = match section(input, "Script Info") {
        Some(s) => s,
        None => {
            return None;
        },
    };
    let xk = chars_of("PlayResX");
    let yk = chars_of("PlayResY");
    let ls = lines_of(info.as_str());
    let ghost lv = lines(info@);
    let mut out = String::new();
    push_str(&mut out, "[Script Info]\n");
    let mut i: usize = 0;
    assert(lv.take(0) =~= Seq::<Seq<char>>::empty());
    while i < ls.len()
        invariant
            i <= ls@.len(),
            ls@.len() == lv.len(),
            lv == lines(info@),
            xk@ == "PlayResX"@,
            yk@ == "PlayResY"@,
            forall|j: int| 0 <= j < ls@.len() ==> #[trigger] ls@[j]@ == lv[j],
            out@ == "[Script Info]\n"@ + info_lines(lv.take(i as int), width@, height@),
        decreases ls@.len() - i,
    {
        write_info_line(&mut out, ls[i].as_str(), &xk, &yk, width, height);
        assert(lv.take(i + 1).drop_last() =~= lv.take(i as int));
        assert(lv.take(i + 1).last() == ls@[i as int]@);
        i = i + 1;
    }
    assert(lv.take(i as int) =~= lv);
    Some(out)
}

/// How a numeric field is carried onto the larger canvas: shifted along an axis after
/// scaling, or scaled only.
#[derive(Clone, Copy, PartialEq, Eq, Structural, Debug)]
pub enum Axis {
    X,
    Y,
    Size,
}

fn is_named(c: &Vec<char>, name: &str) -> (b: bool)
    ensures
        b == eq_ignore_case(c@, name@),
{
    let t = chars_of(name);
    let n = c.len();
    assert(c@.subrange(0, n as int) =~= c@);
    range_eq_ignore_case(c.as_slice(), 0, n, t.as_slice())
}

/// What a style field carries: the margins move along their axis, the sizes only scale.
pub open spec fn spec_style_axis(name: Seq<char>) -> Option<Axis> {
    if eq_ignore_case(name, "MarginL"@) || eq_ignore_case(name, "MarginR"@) {
        Some(Axis::X)
    } else if eq_ignore_case(name, "MarginV"@) {
        Some(Axis::Y)
    } else if eq_ignore_case(name, "Fontsize"@) || eq_ignore_case(name, "Outline"@)
        || eq_ignore_case(name, "Shadow"@) || eq_ignore_case(name, "Spacing"@) {
        Some(Axis::Size)
    } else {
        None
    }
}

pub fn style_axis(name: &str) -> (r: Option<Axis>)
    ensures
        r == spec_style_axis(name@),
{
    let c = chars_of(name);
    if is_named(&c, "MarginL") || is_named(&c, "MarginR") {
        Some(Axis::X)
    } else if is_named(&c, "MarginV") {
        Some(Axis::Y)
    } else if is_named(&c, "Fontsize") || is_named(&c, "Outline") || is_named(&c, "Shadow")
        || is_named(&c, "Spacing") {
        Some(Axis::Size)
    } else {
        None
    }
}

/// What an event field carries: only the margins move.
pub open spec fn spec_event_axis(name: Seq<char>) -> Option<Axis> {
    if eq_ignore_case(name, "MarginL"@) || eq_ignore_case(name, "MarginR"@) {
        Some(Axis::X)
    } else if eq_ignore_case(name, "MarginV"@) {
        Some(Axis::Y)
    } else {
        None
    }
}

pub fn event_axis(name: &str) -> (r: Option<Axis>)
    ensures
        r == spec_event_axis(name@),
{
    let c = chars_of(name);
    if is_named(&c, "MarginL") || is_named(&c, "MarginR") {
        Some(Axis::X)
    } else if is_named(&c, "MarginV") {
        Some(Axis::Y)
    } else {
        None
    }
}

/// The index of the first field named `Text`.
pub fn text_field_index(format: &Vec<String>) -> (r: Option<usize>)
    ensures
        match r {
            Some(i) => i < format@.len() && eq_ignore_case(format@[i as int]@, "Text"@)
                && forall|j: int| 0 <= j < i ==> !eq_ignore_case(#[trigger] format@[j]@, "Text"@),
            None => forall|j: int| 0 <= j < format@.len() ==> !eq_ignore_case(#[trigger] format@[j]@, "Text"@),
        },
{
    let mut i: usize = 0;
    while i < format.len()
        invariant
            i <= format@.len(),
            forall|j: int| 0 <= j < i ==> !eq_ignore_case(#[trigger] format@[j]@, "Text"@),
        decreases format@.len() - i,
    {
        let c = chars_of(format[i].as_str());
        if is_named(&c, "Text") {
            return Some(i);
        }
        i = i + 1;
    }
    None
}

/// The override tags whose arguments are coordinates.
#[derive(Clone, Copy, PartialEq, Eq, Structural, Debug)]
pub enum TagKind {
    Pos,
    Org,
    Move,
    Clip,
    IClip,
}

/// The text that opens a tag, up to its `(`.
pub open spec fn tag_name(k: TagKind) -> Seq<char> {
    match k {
        TagKind::Pos => seq!['\\', 'p', 'o', 's', '('],
        TagKind::Org => seq!['\\', 'o', 'r', 'g', '('],
        TagKind::Move => seq!['\\', 'm', 'o', 'v', 'e', '('],
        TagKind::Clip => seq!['\\', 'c', 'l', 'i', 'p', '('],
        TagKind::IClip => seq!['\\', 'i', 'c', 'l', 'i', 'p', '('],
    }
}

fn tag_chars(k: TagKind) -> (r: Vec<char>)
    ensures
        r@ == tag_name(k),
{
    let r = match k {
        TagKind::Pos => vec!['\\', 'p', 'o', 's', '('],
        TagKind::Org => vec!['\\', 'o', 'r', 'g', '('],
        TagKind::Move => vec!['\\', 'm', 'o', 'v', 'e', '('],
        TagKind::Clip => vec!['\\', 'c', 'l', 'i', 'p', '('],
        TagKind::IClip => vec!['\\', 'i', 'c', 'l', 'i', 'p', '('],
    };
    assert(r@ =~= tag_name(k));
    r
}

/// The tag that `r` starts with, tried in the order `\pos(`, `\org(`, `\move(`, `\clip(`,
/// `\iclip(`.
pub open spec fn tag_at(r: Seq<char>) -> Option<TagKind> {
    if occurs_at(r, tag_name(TagKind::Pos), 0) {
        Some(TagKind::Pos)
    } else if occurs_at(r, tag_name(TagKind::Org), 0) {
        Some(TagKind::Org)
    } else if occurs_at(r, tag_name(TagKind::Move), 0) {
        Some(TagKind::Move)
    } else if occurs_at(r, tag_name(TagKind::Clip), 0) {
        Some(TagKind::Clip)
    } else if occurs_at(r, tag_name(TagKind::IClip), 0) {
        Some(TagKind::IClip)
    } else {
        None
    }
}

fn tag_in(c: &Vec<char>, at: usize) -> (r: Option<TagKind>)
    requires
        at <= c@.len(),
    ensures
        r == tag_at(c@.skip(at as int)),
{
    let ghost rest = c@.skip(at as int);
    let kinds = [TagKind::Pos, TagKind::Org, TagKind::Move, TagKind::Clip, TagKind::IClip];
    let mut i: usize = 0;
    while i < 5
        invariant
            i <= 5,
            at <= c@.len(),
            rest == c@.skip(at as int),
            kinds@ == seq![TagKind::Pos, TagKind::Org, TagKind::Move, TagKind::Clip, TagKind::IClip],
            forall|j: int| 0 <= j < i ==> !occurs_at(rest, tag_name(#[trigger] kinds@[j]), 0),
        decreases 5 - i,
    {
        let k = kinds[i];
        let t = tag_chars(k);
        if starts_at(c.as_slice(), at, t.as_slice()) {
            proof {
                if at + t@.len() <= c@.len() {
                    assert(rest.subrange(0, t@.len() as int) =~= c@.subrange(at as int, at + t@.len()));
                }
                assert(occurs_at(rest, tag_name(k), 0));
                assert(!occurs_at(rest, tag_name(kinds@[0]), 0) || i == 0);
            }
            return Some(k);
        }
        proof {
            if occurs_at(rest, tag_name(k), 0) {
                assert(rest.subrange(0, t@.len() as int) =~= c@.subrange(at as int, at + t@.len()));
            }
        }
        i = i + 1;
    }
    assert(!occurs_at(rest, tag_name(kinds@[0]), 0));
    assert(!occurs_at(rest, tag_name(kinds@[1]), 0));
    assert(!occurs_at(rest, tag_name(kinds@[2]), 0));
    assert(!occurs_at(rest, tag_name(kinds@[3]), 0));
    assert(!occurs_at(rest, tag_name(kinds@[4]), 0));
    None
}

/// A piece of a dialogue text: plain text, or an override tag with coordinate arguments,
/// given as its kind, the text between `(` and `)`, and its whole text.
pub enum OverridePiece {
    Text(String),
    Tag(TagKind, String, String),
}

pub ghost enum PieceView {
    Text(Seq<char>),
    Tag(TagKind, Seq<char>, Seq<char>),
}

impl View for OverridePiece {
    type V = PieceView;

    open spec fn view(&self) -> PieceView {
        match self {
            OverridePiece::Text(s) => PieceView::Text(s@),
            OverridePiece::Tag(k, args, raw) => PieceView::Tag(*k, args@, raw@),
        }
    }
}

pub open spec fn pieces_view(ps: Seq<OverridePiece>) -> Seq<PieceView> {
    Seq::new(ps.len(), |i: int| ps[i]@)
}

/// The pieces of a dialogue text: at each `\\` that opens a coordinate tag and is closed
/// by a later `)`, the text before it and the tag; the rest is plain text.
pub open spec fn override_pieces(s: Seq<char>) -> Seq<PieceView>
    decreases s.len(),
{
    match find_char(s, '\\') {
        Some(i) => {
            if 0 <= i < s.len() {
                let r = s.skip(i);
                match tag_at(r) {
                    None => seq![PieceView::Text(s.take(i + 1))] + override_pieces(s.skip(i + 1)),
                    Some(k) => match find_char(r, ')') {
                        Some(e) => {
                            if tag_name(k).len() <= e < r.len() {
                                seq![
                                    PieceView::Text(s.take(i)),
                                    PieceView::Tag(
                                        k,
                                        r.subrange(tag_name(k).len() as int, e),
                                        r.take(e + 1),
                                    ),
                                ] + override_pieces(r.skip(e + 1))
                            } else {
                                seq![PieceView::Text(s)]
                            }
                        },
                        None => seq![PieceView::Text(s)],
                    },
                }
            } else {
                seq![PieceView::Text(s)]
            }
        },
        None => seq![PieceView::Text(s)],
    }
}

/// The text a piece stands for.
pub open spec fn piece_text(p: PieceView) -> Seq<char> {
    match p {
        PieceView::Text(t) => t,
        PieceView::Tag(_, _, raw) => raw,
    }
}

pub open spec fn pieces_text(ps: Seq<PieceView>) -> Seq<char>
    decreases ps.len(),
{
    if ps.len() == 0 {
        seq![]
    } else {
        piece_text(ps[0]) + pieces_text(ps.drop_first())
    }
}

/// A tag's name holds no `)`, so the first `)` after a tag comes after its name.
proof fn lemma_close_after_name(r: Seq<char>, k: TagKind)
    requires
        occurs_at(r, tag_name(k), 0),
    ensures
        match find_char(r, ')') {
            Some(e) => tag_name(k).len() <= e < r.len(),
            None => true,
        },
{
    crate::text::lemma_find_char(r, ')');
    match find_char(r, ')') {
        Some(e) => {
            if e < tag_name(k).len() {
                assert(r.subrange(0, tag_name(k).len() as int)[e] == r[e]);
                assert(tag_name(k)[e] != ')');
            }
        },
        None => {},
    }
}

/// Splitting a dialogue text into pieces loses nothing and adds nothing: the pieces,
/// each taken as the text it stands for, spell the text again; and each tag piece is its
/// name, its arguments and `)`.
pub proof fn law_pieces_spell_text(s: Seq<char>)
    ensures
        pieces_text(override_pieces(s)) == s,
        forall|j: int|
            0 <= j < override_pieces(s).len() ==> (#[trigger] override_pieces(s)[j] matches PieceView::Tag(k, args, raw)
                ==> raw == tag_name(k) + args + seq![')']),
    decreases s.len(),
{
    let ps = override_pieces(s);
    crate::text::lemma_find_char(s, '\\');
    if ps == seq![PieceView::Text(s)] {
        assert(ps.drop_first() =~= Seq::<PieceView>::empty());
        assert(pieces_text(ps.drop_first()) == Seq::<char>::empty());
        assert(s + Seq::<char>::empty() =~= s);
    }
    match find_char(s, '\\') {
        Some(i) => {
            let r = s.skip(i);
            match tag_at(r) {
                None => {
                    law_pieces_spell_text(s.skip(i + 1));
                    let tail = override_pieces(s.skip(i + 1));
                    assert(ps == seq![PieceView::Text(s.take(i + 1))] + tail);
                    assert(ps.drop_first() =~= tail);
                    assert(pieces_text(ps) == s.take(i + 1) + pieces_text(tail));
                    assert(s.take(i + 1) + s.skip(i + 1) =~= s);
                    assert forall|j: int|
                        0 <= j < ps.len() implies (#[trigger] ps[j] matches PieceView::Tag(k, args, raw)
                            ==> raw == tag_name(k) + args + seq![')']) by {
                        if j > 0 {
                            assert(ps[j] == tail[j - 1]);
                        }
                    }
                },
                Some(k) => {
                    lemma_close_after_name(r, k);
                    match find_char(r, ')') {
                        Some(e) => {
                            crate::text::lemma_find_char(r, ')');
                            let rest = r.skip(e + 1);
                            law_pieces_spell_text(rest);
                            let tail = override_pieces(rest);
                            let tag = PieceView::Tag(
                                k,
                                r.subrange(tag_name(k).len() as int, e),
                                r.take(e + 1),
                            );
                            assert(ps == seq![PieceView::Text(s.take(i)), tag] + tail);
                            assert(ps.drop_first().drop_first() =~= tail);
                            assert(pieces_text(ps.drop_first()) == piece_text(tag) + pieces_text(
                                tail,
                            ));
                            assert(pieces_text(ps) == s.take(i) + pieces_text(ps.drop_first()));
                            assert(s.take(i) + (r.take(e + 1) + rest) =~= s);
                            assert(r.take(e + 1) =~= tag_name(k) + r.subrange(
                                tag_name(k).len() as int,
                                e,
                            ) + seq![')']) by {
                                assert(r.subrange(0, tag_name(k).len() as int) == tag_name(k));
                            }
                            assert forall|j: int|
                                0 <= j < ps.len() implies (#[trigger] ps[j] matches PieceView::Tag(
                                    k2,
                                    args,
                                    raw,
                                ) ==> raw == tag_name(k2) + args + seq![')']) by {
                                if j > 1 {
                                    assert(ps[j] == tail[j - 2]);
                                }
                            }
                        },
                        None => {},
                    }
                },
            }
        },
        None => {},
    }
}

/// Splits a dialogue text into plain text and coordinate tags.
#[verifier::rlimit(50)]
pub fn override_pieces_of(text: &str) -> (r: Vec<OverridePiece>)
    ensures
        pieces_view(r@) == override_pieces(text@),
{
    let c = chars_of(text);
    let n = c.len();
    let mut out: Vec<OverridePiece> = Vec::new();
    let mut pos: usize = 0;
    assert(c@.skip(0) =~= c@);
    loop
        invariant
            pos <= n,
            n == c@.len(),
            c@ == text@,
            override_pieces(c@) == pieces_view(out@) + override_pieces(c@.skip(pos as int)),
        decreases n - pos,
    {
        let ghost rest = c@.skip(pos as int);
        let ghost before = pieces_view(out@);
        assert(c@.subrange(pos as int, n as int) =~= rest);
        match find_in(c.as_slice(), pos, n, '\\') {
            Some(b) => {
                let ghost i = b - pos;
                assert(rest.skip(i) =~= c@.skip(b as int));
                match tag_in(&c, b) {
                    None => {
                        let piece = string_of(c.as_slice(), pos, b + 1);
                        assert(piece@ =~= rest.take(i + 1));
                        assert(rest.skip(i + 1) =~= c@.skip(b + 1));
                        out.push(OverridePiece::Text(piece));
                        assert(pieces_view(out@) =~= before + seq![PieceView::Text(rest.take(i + 1))]);
                        pos = b + 1;
                    },
                    Some(k) => {
                        let ghost r = c@.skip(b as int);
                        proof {
                            lemma_close_after_name(r, k);
                        }
                        assert(c@.subrange(b as int, n as int) =~= r);
                        match find_in(c.as_slice(), b, n, ')') {
                            Some(e) => {
                                let t = tag_chars(k);
                                let head = string_of(c.as_slice(), pos, b);
                                let args = string_of(c.as_slice(), b + t.len(), e);
                                let raw = string_of(c.as_slice(), b, e + 1);
                                let ghost ee = e - b;
                                assert(head@ =~= rest.take(i));
                                assert(args@ =~= r.subrange(tag_name(k).len() as int, ee));
                                assert(raw@ =~= r.take(ee + 1));
                                assert(r.skip(ee + 1) =~= c@.skip(e + 1));
                                out.push(OverridePiece::Text(head));
                                out.push(OverridePiece::Tag(k, args, raw));
                                assert(pieces_view(out@) =~= before + seq![
                                    PieceView::Text(rest.take(i)),
                                    PieceView::Tag(k, r.subrange(tag_name(k).len() as int, ee), r.take(ee + 1)),
                                ]);
                                pos = e + 1;
                            },
                            None => {
                                let piece = string_of(c.as_slice(), pos, n);
                                out.push(OverridePiece::Text(piece));
                                assert(pieces_view(out@) =~= before + seq![PieceView::Text(rest)]);
                                assert(override_pieces(c@) =~= pieces_view(out@));
                                return out;
                            },
                        }
                    },
                }
            },
            None => {
                let piece = string_of(c.as_slice(), pos, n);
                out.push(OverridePiece::Text(piece));
                assert(pieces_view(out@) =~= before + seq![PieceView::Text(rest)]);
                assert(override_pieces(c@) =~= pieces_view(out@));
                return out;
            },
        }
    }
}

/// The arguments of a tag: its comma-separated parts, trimmed.
pub fn tag_parts(args: &str) -> (r: Vec<String>)
    ensures
        line_views(r@) == format_fields(args@),
{
    let c = chars_of(args);
    let ranges = split_ranges(c.as_slice(), 0, c.len());
    let parts = pieces_of(c.as_slice(), &ranges, true);
    assert(c@.subrange(0, c@.len() as int) =~= c@);
    assert(line_views(parts@) =~= format_fields(args@));
    parts
}

/// How many leading arguments of a tag are coordinates: four for `\\move(` and for a
/// rectangular `\\clip(` or `\\iclip(` (four arguments), two otherwise.
pub open spec fn spec_coordinate_count(k: TagKind, n_parts: nat) -> nat {
    if k == TagKind::Move || ((k == TagKind::Clip || k == TagKind::IClip) && n_parts == 4) {
        4
    } else {
        2
    }
}

pub fn coordinate_count(k: TagKind, n_parts: usize) -> (r: usize)
    ensures
        r == spec_coordinate_count(k, n_parts as nat),
{
    match k {
        TagKind::Move => 4,
        TagKind::Clip | TagKind::IClip => if n_parts == 4 {
            4
        } else {
            2
        },
        _ => 2,
    }
}

/// The arguments of a rewritten tag: the new coordinates first, then the remaining
/// arguments as they were.
pub open spec fn tag_arguments(parts: Seq<Seq<char>>, coords: Seq<Seq<char>>) -> Seq<Seq<char>> {
    Seq::new(parts.len(), |i: int| if i < coords.len() { coords[i] } else { parts[i] })
}

/// A tag written back with new coordinates.
pub open spec fn spec_assemble_tag(k: TagKind, parts: Seq<Seq<char>>, coords: Seq<Seq<char>>) -> Seq<char> {
    tag_name(k) + joined(tag_arguments(parts, coords), seq![',']) + seq![')']
}

/// Writes a tag with its leading arguments replaced by `coords`.
pub fn assemble_tag(k: TagKind, parts: &Vec<String>, coords: &Vec<String>) -> (r: String)
    requires
        coords@.len() <= parts@.len(),
    ensures
        r@ == spec_assemble_tag(k, line_views(parts@), line_views(coords@)),
{
    let mut args: Vec<String> = Vec::new();
    let mut i: usize = 0;
    while i < parts.len()
        invariant
            i <= parts@.len(),
            coords@.len() <= parts@.len(),
            line_views(args@) == tag_arguments(line_views(parts@), line_views(coords@)).take(i as int),
        decreases parts@.len() - i,
    {
        let ghost before = line_views(args@);
        let s = if i < coords.len() {
            coords[i].clone()
        } else {
            parts[i].clone()
        };
        args.push(s);
        proof {
            assert(line_views(args@) =~= before.push(s@));
        }
        i = i + 1;
    }
    let mut out = String::new();
    let t = tag_chars(k);
    let mut j: usize = 0;
    while j < t.len()
        invariant
            j <= t@.len(),
            t@ == tag_name(k),
            out@ == t@.take(j as int),
        decreases t@.len() - j,
    {
        push_char(&mut out, t[j]);
        j = j + 1;
        assert(out@ =~= t@.take(j as int));
    }
    assert(t@.take(j as int) =~= t@);
    let joined_args = join_lines(args.as_slice(), ",");
    push_str(&mut out, joined_args.as_str());
    push_char(&mut out, ')');
    proof {
        reveal_strlit(",");
        assert(","@ =~= seq![',']);
        assert(line_views(args@) =~= tag_arguments(line_views(parts@), line_views(coords@)));
    }
    out
}

/// Rows written one per line, each as `prefix` and its fields joined with `,`.
pub open spec fn rows_text(prefix: Seq<char>, rows: Seq<Seq<Seq<char>>>) -> Seq<char>
    decreases rows.len(),
{
    if rows.len() == 0 {
        seq![]
    } else {
        rows_text(prefix, rows.drop_last()) + prefix + joined(rows.last(), ","@) + seq!['\n']
    }
}

/// The merged document: the script info, the styles of both inputs under the subtitle's
/// style format, and the events of both inputs under the subtitle's event format.
pub open spec fn spec_merged_document(
    info: Seq<char>,
    style_format: Seq<Seq<char>>,
    subtitle_styles: Seq<Seq<Seq<char>>>,
    danmaku_styles: Seq<Seq<Seq<char>>>,
    event_format: Seq<Seq<char>>,
    subtitle_events: Seq<Seq<Seq<char>>>,
    danmaku_events: Seq<Seq<Seq<char>>>,
) -> Seq<char> {
    info + "\n[V4+ Styles]\nFormat: "@ + joined(style_format, ", "@) + seq!['\n'] + rows_text(
        "Style: "@,
        subtitle_styles,
    ) + rows_text("Style: "@, danmaku_styles) + "\n[Events]\nFormat: "@ + joined(
        event_format,
        ", "@,
    ) + seq!['\n'] + rows_text("Dialogue: "@, subtitle_events) + rows_text(
        "Dialogue: "@,
        danmaku_events,
    )
}

fn write_rows(out: &mut String, prefix: &str, rows: &Vec<Vec<String>>)
    ensures
        final(out)@ == old(out)@ + rows_text(prefix@, rows_view(rows@)),
{
    let ghost rv = rows_view(rows@);
    let mut i: usize = 0;
    assert(rv.take(0) =~= Seq::<Seq<Seq<char>>>::empty());
    assert(old(out)@ + Seq::<char>::empty() =~= old(out)@);
    while i < rows.len()
        invariant
            i <= rows@.len(),
            rv == rows_view(rows@),
            out@ == old(out)@ + rows_text(prefix@, rv.take(i as int)),
        decreases rows@.len() - i,
    {
        let ghost before = out@;
        push_str(out, prefix);
        let line = join_lines(rows[i].as_slice(), ",");
        push_str(out, line.as_str());
        push_char(out, '\n');
        assert(rv.take(i + 1).drop_last() =~= rv.take(i as int));
        assert(rv.take(i + 1).last() == line_views(rows@[i as int]@));
        assert(out@ =~= old(out)@ + rows_text(prefix@, rv.take(i + 1)));
        i = i + 1;
    }
    assert(rv.take(i as int) =~= rv);
}

/// Writes the merged document.
pub fn merged_document(
    info: &str,
    style_format: &Vec<String>,
    subtitle_styles: &Vec<Vec<String>>,
    danmaku_styles: &Vec<Vec<String>>,
    event_format: &Vec<String>,
    subtitle_events: &Vec<Vec<String>>,
    danmaku_events: &Vec<Vec<String>>,
) -> (r: String)
    ensures
        r@ == spec_merged_document(
            info@,
            line_views(style_format@),
            rows_view(subtitle_styles@),
            rows_view(danmaku_styles@),
            line_views(event_format@),
            rows_view(subtitle_events@),
            rows_view(danmaku_events@),
        ),
{
    let mut out = String::new();
    push_str(&mut out, info);
    push_str(&mut out, "\n[V4+ Styles]\nFormat: ");
    let sf = join_lines(style_format.as_slice(), ", ");
    push_str(&mut out, sf.as_str());
    push_char(&mut out, '\n');
    write_rows(&mut out, "Style: ", subtitle_styles);
    write_rows(&mut out, "Style: ", danmaku_styles);
    push_str(&mut out, "\n[Events]\nFormat: ");
    let ef = join_lines(event_format.as_slice(), ", ");
    push_str(&mut out, ef.as_str());
    push_char(&mut out, '\n');
    write_rows(&mut out, "Dialogue: ", subtitle_events);
    write_rows(&mut out, "Dialogue: ", danmaku_events);
    assert(out@ =~= spec_merged_document(
        info@,
        line_views(style_format@),
        rows_view(subtitle_styles@),
        rows_view(danmaku_styles@),
        line_views(event_format@),
        rows_view(subtitle_events@),
        rows_view(danmaku_events@),
    ));
    out
}

/// Every row read from a section has exactly as many fields as its format names.
pub proof fn law_rows_have_format_width(ls: Seq<Seq<char>>, prefix: Seq<char>, n: nat, text: bool)
    ensures
        rows_of(ls, prefix, n, text) matches Some(rows) ==> forall|k: int|
            0 <= k < rows.len() ==> (#[trigger] rows[k]).len() == n,
    decreases ls.len(),
{
    if ls.len() > 0 {
        law_rows_have_format_width(ls.drop_first(), prefix, n, text);
        match rows_of(ls, prefix, n, text) {
            Some(rows) => {
                match rows_of(ls.drop_first(), prefix, n, text) {
                    Some(rest) => {
                        assert forall|k: int| 0 <= k < rows.len() implies (#[trigger] rows[k]).len()
                            == n by {
                            if rows.len() == rest.len() + 1 && k > 0 {
                                assert(rows[k] == rest[k - 1]);
                            }
                        }
                    },
                    None => {},
                }
            },
            None => {},
        }
    }
}


proof fn lemma_names_differ(name: Seq<char>, a: Seq<char>, b: Seq<char>, i: int)
    requires
        eq_ignore_case(name, a),
        a.len() != b.len() || (0 <= i < a.len() && (ascii_lower(a[i]) as u32) != (ascii_lower(
            b[i],
        ) as u32)),
    ensures
        !eq_ignore_case(name, b),
{
    if eq_ignore_case(name, b) && a.len() == b.len() {
        assert(ascii_lower(name[i]) == ascii_lower(a[i]));
        assert(ascii_lower(name[i]) == ascii_lower(b[i]));
    }
}

/// The horizontal margins `MarginL` and `MarginR`, in any case, move along the X axis and
/// `MarginV` along the Y axis, in a style row as in an event row; a style's `Fontsize`,
/// `Outline`, `Shadow` and `Spacing` are only scaled.
pub proof fn law_margin_axes(name: Seq<char>)
    ensures
        eq_ignore_case(name, "MarginL"@) ==> spec_style_axis(name) == Some(Axis::X)
            && spec_event_axis(name) == Some(Axis::X),
        eq_ignore_case(name, "marginr"@) ==> spec_style_axis(name) == Some(Axis::X)
            && spec_event_axis(name) == Some(Axis::X),
        eq_ignore_case(name, "MARGINV"@) ==> spec_style_axis(name) == Some(Axis::Y)
            && spec_event_axis(name) == Some(Axis::Y),
        eq_ignore_case(name, "fontsize"@) ==> spec_style_axis(name) == Some(Axis::Size),
        eq_ignore_case(name, "outline"@) ==> spec_style_axis(name) == Some(Axis::Size),
        eq_ignore_case(name, "shadow"@) ==> spec_style_axis(name) == Some(Axis::Size),
        eq_ignore_case(name, "spacing"@) ==> spec_style_axis(name) == Some(Axis::Size),
{
    reveal_strlit("MarginL");
    reveal_strlit("MarginR");
    reveal_strlit("MarginV");
    reveal_strlit("Fontsize");
    reveal_strlit("Outline");
    reveal_strlit("Shadow");
    reveal_strlit("Spacing");
    reveal_strlit("marginr");
    reveal_strlit("MARGINV");
    reveal_strlit("fontsize");
    reveal_strlit("outline");
    reveal_strlit("shadow");
    reveal_strlit("spacing");
    assert(('M' as u32) == 77);
    assert(ascii_lower('L') as u32 == 108);
    assert(ascii_lower('R') as u32 == 114);
    assert(ascii_lower('V') as u32 == 118);
    assert(ascii_lower('v') as u32 == 118);
    assert(ascii_lower('M') as u32 == 109);
    assert(ascii_lower('m') as u32 == 109);
    assert(ascii_lower('o') as u32 == 111);
    assert(ascii_lower('O') as u32 == 111);
    assert(ascii_lower('s') as u32 == 115);
    assert(ascii_lower('S') as u32 == 115);
    assert(ascii_lower('r') == 'r');
    if eq_ignore_case(name, "marginr"@) {
        assert forall|i: int| 0 <= i < 7 implies ascii_lower(name[i]) == ascii_lower(
            "MarginR"@[i],
        ) by {}
        assert(eq_ignore_case(name, "MarginR"@));
    }
    if eq_ignore_case(name, "MARGINV"@) {
        assert forall|i: int| 0 <= i < 7 implies ascii_lower(name[i]) == ascii_lower(
            "MarginV"@[i],
        ) by {}
        assert(eq_ignore_case(name, "MarginV"@));
        lemma_names_differ(name, "MarginV"@, "MarginL"@, 6);
        lemma_names_differ(name, "MarginV"@, "MarginR"@, 6);
    }
    if eq_ignore_case(name, "fontsize"@) {
        assert forall|i: int| 0 <= i < 8 implies ascii_lower(name[i]) == ascii_lower(
            "Fontsize"@[i],
        ) by {}
        assert(eq_ignore_case(name, "Fontsize"@));
        lemma_names_differ(name, "fontsize"@, "MarginL"@, 0);
        lemma_names_differ(name, "fontsize"@, "MarginR"@, 0);
        lemma_names_differ(name, "fontsize"@, "MarginV"@, 0);
    }
    if eq_ignore_case(name, "outline"@) {
        assert forall|i: int| 0 <= i < 7 implies ascii_lower(name[i]) == ascii_lower(
            "Outline"@[i],
        ) by {}
        assert(eq_ignore_case(name, "Outline"@));
        lemma_names_differ(name, "outline"@, "MarginL"@, 0);
        lemma_names_differ(name, "outline"@, "MarginR"@, 0);
        lemma_names_differ(name, "outline"@, "MarginV"@, 0);
    }
    if eq_ignore_case(name, "shadow"@) {
        assert forall|i: int| 0 <= i < 6 implies ascii_lower(name[i]) == ascii_lower(
            "Shadow"@[i],
        ) by {}
        assert(eq_ignore_case(name, "Shadow"@));
        lemma_names_differ(name, "shadow"@, "MarginL"@, 0);
        lemma_names_differ(name, "shadow"@, "MarginR"@, 0);
        lemma_names_differ(name, "shadow"@, "MarginV"@, 0);
    }
    if eq_ignore_case(name, "spacing"@) {
        assert forall|i: int| 0 <= i < 7 implies ascii_lower(name[i]) == ascii_lower(
            "Spacing"@[i],
        ) by {}
        assert(eq_ignore_case(name, "Spacing"@));
        lemma_names_differ(name, "spacing"@, "MarginL"@, 0);
        lemma_names_differ(name, "spacing"@, "MarginR"@, 0);
        lemma_names_differ(name, "spacing"@, "MarginV"@, 0);
    }
}


/// In the merged `[Script Info]`, a `PlayResX` line (key in any case) becomes
/// `PlayResX: <width>`, a `PlayResY` line `PlayResY: <height>`, a blank line is dropped and
/// any other line is kept; each kept line ends with a line feed.
pub proof fn law_info_line_resolution(l: Seq<char>, width: Seq<char>, height: Seq<char>)
    ensures
        forall|k: Seq<char>, v: Seq<char>|
            split_once(l, ':') == Some((k, v)) && eq_ignore_case(trim(k), "playresx"@) ==> info_line(
                l,
                width,
                height,
            ) == seq!['P', 'l', 'a', 'y', 'R', 'e', 's', 'X', ':', ' '] + width + seq!['\n'],
        forall|k: Seq<char>, v: Seq<char>|
            split_once(l, ':') == Some((k, v)) && eq_ignore_case(trim(k), "PLAYRESY"@) ==> info_line(
                l,
                width,
                height,
            ) == seq!['P', 'l', 'a', 'y', 'R', 'e', 's', 'Y', ':', ' '] + height + seq!['\n'],
        forall|k: Seq<char>, v: Seq<char>|
            split_once(l, ':') == Some((k, v)) && !eq_ignore_case(trim(k), "playresx"@)
                && !eq_ignore_case(trim(k), "PLAYRESY"@) ==> info_line(l, width, height) == (if trim(
                l,
            ).len() > 0 {
                l + seq!['\n']
            } else {
                Seq::<char>::empty()
            }),
        split_once(l, ':') is None ==> info_line(l, width, height) == (if trim(l).len() > 0 {
            l + seq!['\n']
        } else {
            Seq::<char>::empty()
        }),
{
    reveal_strlit("PlayResX");
    reveal_strlit("PlayResY");
    reveal_strlit("playresx");
    reveal_strlit("PLAYRESY");
    reveal_strlit("PlayResX: ");
    reveal_strlit("PlayResY: ");
    assert("PlayResX: "@ =~= seq!['P', 'l', 'a', 'y', 'R', 'e', 's', 'X', ':', ' ']);
    assert("PlayResY: "@ =~= seq!['P', 'l', 'a', 'y', 'R', 'e', 's', 'Y', ':', ' ']);
    assert(ascii_lower('X') as u32 == 120);
    assert(ascii_lower('x') as u32 == 120);
    assert(ascii_lower('Y') as u32 == 121);
    assert(ascii_lower('y') as u32 == 121);
    assert(ascii_lower('P') == 'p');
    assert(ascii_lower('L') == 'l');
    assert(ascii_lower('A') == 'a');
    assert(ascii_lower('R') == 'r');
    assert(ascii_lower('E') == 'e');
    assert(ascii_lower('S') == 's');
    let key = match split_once(l, ':') {
        Some((k, _)) => Some(trim(k)),
        None => None,
    };
    if let Some(k) = key {
        if eq_ignore_case(k, "playresx"@) {
            assert forall|i: int| 0 <= i < 8 implies ascii_lower(k[i]) == ascii_lower("PlayResX"@[i]) by {}
            assert(eq_ignore_case(k, "PlayResX"@));
            lemma_names_differ(k, "PlayResX"@, "PLAYRESY"@, 7);
            assert(info_line(l, width, height) == "PlayResX: "@ + width + seq!['\n']);
        } else if eq_ignore_case(k, "PLAYRESY"@) {
            assert forall|i: int| 0 <= i < 8 implies ascii_lower(k[i]) == ascii_lower("PlayResY"@[i]) by {}
            assert(eq_ignore_case(k, "PlayResY"@));
            lemma_names_differ(k, "PlayResY"@, "PlayResX"@, 7);
            assert(!eq_ignore_case(k, "PlayResX"@));
            assert(info_line(l, width, height) == "PlayResY: "@ + height + seq!['\n']);
        } else {
            if eq_ignore_case(k, "PlayResX"@) {
                assert forall|i: int| 0 <= i < 8 implies ascii_lower(k[i]) == ascii_lower("playresx"@[i]) by {}
                assert(eq_ignore_case(k, "playresx"@));
            }
            if eq_ignore_case(k, "PlayResY"@) {
                assert forall|i: int| 0 <= i < 8 implies ascii_lower(k[i]) == ascii_lower("PLAYRESY"@[i]) by {}
                assert(eq_ignore_case(k, "PLAYRESY"@));
            }
        }
    }
}

/// The override tags whose arguments are coordinates open with `\pos(`, `\org(`,
/// `\move(`, `\clip(` and `\iclip(`; style rows start with `Style` and event rows with
/// `Dialogue`; a section starts at its `[name]` marker.
pub proof fn law_merge_names(name: Seq<char>)
    ensures
        tag_name(TagKind::Pos) == "\\pos("@,
        tag_name(TagKind::Org) == "\\org("@,
        tag_name(TagKind::Move) == "\\move("@,
        tag_name(TagKind::Clip) == "\\clip("@,
        tag_name(TagKind::IClip) == "\\iclip("@,
        row_prefix(RowKind::Style) == seq!['S', 't', 'y', 'l', 'e'],
        row_prefix(RowKind::Dialogue) == seq!['D', 'i', 'a', 'l', 'o', 'g', 'u', 'e'],
        marker(name) == seq!['['] + name + seq![']'],
{
    reveal_strlit("\\pos(");
    reveal_strlit("\\org(");
    reveal_strlit("\\move(");
    reveal_strlit("\\clip(");
    reveal_strlit("\\iclip(");
    reveal_strlit("Style");
    reveal_strlit("Dialogue");
    assert(tag_name(TagKind::Pos) =~= "\\pos("@);
    assert(tag_name(TagKind::Org) =~= "\\org("@);
    assert(tag_name(TagKind::Move) =~= "\\move("@);
    assert(tag_name(TagKind::Clip) =~= "\\clip("@);
    assert(tag_name(TagKind::IClip) =~= "\\iclip("@);
    assert(row_prefix(RowKind::Style) =~= seq!['S', 't', 'y', 'l', 'e']);
    assert(row_prefix(RowKind::Dialogue) =~= seq!['D', 'i', 'a', 'l', 'o', 'g', 'u', 'e']);
}

} // verus!
