//! Markdown structure: headings, fenced blocks, the `meta` block of a section
//! and its `key: value` lines.
use vstd::prelude::*;
use crate::meta_map::{map_entries, map_new, map_insert, entries_insert, keys_unique};
use crate::json::{Json, JsonValue, compact, literal_bool, entries_get, entries_view, find_entry, lemma_view_parts, json_valid, one_line, lemma_one_line_chars, lemma_concat_one_line};
use crate::text::{CharClass, split_once, rsplit_once, push_char, push_str, lead_len, trim, trim_by, trim_end_by, chars_of, skip_class, skip_class_back, trim_range, string_of, find_in, starts_at, is_blank, find_char};

verus! {

/// The characters of each line.
pub open spec fn line_views(lines: Seq<String>) -> Seq<Seq<char>> {
    Seq::new(lines.len(), |i: int| lines[i]@)
}

pub open spec fn all_blank(s: Seq<char>) -> bool {
    lead_len(s, CharClass::Blank) == s.len()
}

/// The text after the leading blanks and the run of `#` of a line.
pub open spec fn after_hashes(l: Seq<char>) -> Seq<char> {
    let a = lead_len(l, CharClass::Blank);
    let rest = l.skip(a as int);
    rest.skip(lead_len(rest, CharClass::Exactly('#')) as int)
}

/// A heading line, as `^[ \t]*(#+)(?:[ \t]+(.*?)|[ \t]*)[ \t]*$` reads it:
/// blanks, at least one `#`, then nothing but blanks, or a blank followed by text without a newline.
pub open spec fn is_heading(l: Seq<char>) -> bool {
    let a = lead_len(l, CharClass::Blank);
    let rest = l.skip(a as int);
    let h = lead_len(rest, CharClass::Exactly('#'));
    let r = after_hashes(l);
    h >= 1 && (all_blank(r) || (r.len() > 0 && is_blank(r[0]) && !r.contains('\n')))
}

/// The title of a heading line: the text after the `#`s, trimmed, without trailing `#`s, trimmed again.
pub open spec fn heading_title(l: Seq<char>) -> Seq<char> {
    trim(trim_end_by(trim(after_hashes(l)), CharClass::Exactly('#')))
}

pub open spec fn fence() -> Seq<char> {
    seq!['`', '`', '`']
}

/// The text after the leading blanks and a fence of three backticks, if the line has them.
pub open spec fn after_fence(l: Seq<char>) -> Option<Seq<char>> {
    let rest = l.skip(lead_len(l, CharClass::Blank) as int);
    if rest.len() >= 3 && rest.take(3) == fence() {
        Some(rest.skip(3))
    } else {
        None
    }
}

/// A line that closes a fenced block: `^[ \t]*```[ \t]*$`.
pub open spec fn is_code_close(l: Seq<char>) -> bool {
    match after_fence(l) {
        Some(r) => all_blank(r),
        None => false,
    }
}

/// A line that opens a `meta` block: `^[ \t]*```[ \t]*meta[ \t]*$`.
pub open spec fn is_meta_open(l: Seq<char>) -> bool {
    match after_fence(l) {
        Some(r) => {
            let m = r.skip(lead_len(r, CharClass::Blank) as int);
            m.len() >= 4 && m.take(4) == seq!['m', 'e', 't', 'a'] && all_blank(m.skip(4))
        },
        None => false,
    }
}

/// The language of a line that opens a fenced block (`^[ \t]*```(.+?)[ \t]*$`):
/// the trimmed text after the fence, which must be nonempty and hold no newline.
pub open spec fn code_open_language(l: Seq<char>) -> Option<Seq<char>> {
    match after_fence(l) {
        Some(r) => {
            if r.len() > 0 && !r.contains('\n') {
                Some(trim(r))
            } else {
                None
            }
        },
        None => None,
    }
}

/// Index of the first closing fence among the lines `from..end`.
pub open spec fn first_close(ls: Seq<Seq<char>>, from: int, end: int) -> Option<int>
    decreases end - from,
{
    if from >= end {
        None
    } else if is_code_close(ls[from]) {
        Some(from)
    } else {
        first_close(ls, from + 1, end)
    }
}

/// Where the scan resumes after a block that opens at line `i`: after its closing fence,
/// or past `end` when it has none.
pub open spec fn after_block(ls: Seq<Seq<char>>, i: int, end: int) -> int {
    match first_close(ls, i + 1, end) {
        Some(j) => j + 1,
        None => end + 1,
    }
}

/// The `meta` blocks among the lines `i..end`, each as (opening line, closing line).
pub open spec fn meta_blocks(ls: Seq<Seq<char>>, i: int, end: int) -> Seq<(int, int)>
    decreases end - i,
{
    if i >= end {
        seq![]
    } else if !is_meta_open(ls[i]) {
        meta_blocks(ls, i + 1, end)
    } else {
        match first_close(ls, i + 1, end) {
            Some(j) => {
                if i < j < end {
                    seq![(i, j)] + meta_blocks(ls, j + 1, end)
                } else {
                    seq![]
                }
            },
            None => seq![],
        }
    }
}

/// The first fenced block among the lines `i..end` whose language is `target`,
/// skipping the content of `meta` blocks and of other fenced blocks.
pub open spec fn named_block(ls: Seq<Seq<char>>, i: int, end: int, target: Seq<char>) -> Option<
    (int, int),
>
    decreases end + 1 - i,
{
    if i >= end {
        None
    } else if is_meta_open(ls[i]) {
        if i < after_block(ls, i, end) <= end + 1 {
            named_block(ls, after_block(ls, i, end), end, target)
        } else {
            None
        }
    } else {
        match code_open_language(ls[i]) {
            Some(lang) => {
                if lang == target {
                    match first_close(ls, i + 1, end) {
                        Some(j) => Some((i, j)),
                        None => None,
                    }
                } else if i < after_block(ls, i, end) <= end + 1 {
                    named_block(ls, after_block(ls, i, end), end, target)
                } else {
                    None
                }
            },
            None => named_block(ls, i + 1, end, target),
        }
    }
}

pub proof fn lemma_first_close(ls: Seq<Seq<char>>, from: int, end: int)
    ensures
        match first_close(ls, from, end) {
            Some(j) => from <= j < end && is_code_close(ls[j]) && forall|k: int|
                from <= k < j ==> !is_code_close(#[trigger] ls[k]),
            None => forall|k: int| from <= k < end ==> !is_code_close(#[trigger] ls[k]),
        },
    decreases end - from,
{
    if from < end {
        lemma_first_close(ls, from + 1, end);
    }
}

/// Whether `l[lo..hi]` is nothing but blanks.
fn blank_range(l: &[char], lo: usize, hi: usize) -> (b: bool)
    requires
        lo <= hi <= l@.len(),
    ensures
        b == all_blank(l@.subrange(lo as int, hi as int)),
{
    let k = skip_class(l, lo, hi, CharClass::Blank);
    k == hi
}

/// Position just after the fence of a line that has one.
fn fence_end(l: &[char]) -> (r: Option<usize>)
    ensures
        match r {
            Some(p) => p <= l@.len() && after_fence(l@) == Some(l@.skip(p as int)),
            None => after_fence(l@) == None::<Seq<char>>,
        },
{
    let n = l.len();
    let a = skip_class(l, 0, n, CharClass::Blank);
    assert(l@.subrange(0, n as int) =~= l@);
    let ghost rest = l@.skip(a as int);
    assert(l@.subrange(a as int, n as int) =~= rest);
    let f: [char; 3] = ['`', '`', '`'];
    let fv = f.as_slice();
    assert(fv@ =~= fence());
    if starts_at(l, a, fv) {
        assert(rest.take(3) =~= l@.subrange(a as int, a + 3));
        assert(rest.skip(3) =~= l@.skip(a + 3));
        Some(a + 3)
    } else {
        proof {
            if rest.len() >= 3 && rest.take(3) == fence() {
                assert(rest.take(3) =~= l@.subrange(a as int, a + 3));
            }
        }
        None
    }
}

/// Whether a line closes a fenced block.
pub fn code_close(l: &[char]) -> (b: bool)
    ensures
        b == is_code_close(l@),
{
    match fence_end(l) {
        Some(p) => {
            assert(l@.subrange(p as int, l@.len() as int) =~= l@.skip(p as int));
            blank_range(l, p, l.len())
        },
        None => false,
    }
}

/// Whether a line opens a `meta` block.
pub fn meta_open(l: &[char]) -> (b: bool)
    ensures
        b == is_meta_open(l@),
{
    match fence_end(l) {
        Some(p) => {
            let n = l.len();
            let ghost r = l@.skip(p as int);
            assert(l@.subrange(p as int, n as int) =~= r);
            let q = skip_class(l, p, n, CharClass::Blank);
            let ghost m = r.skip(lead_len(r, CharClass::Blank) as int);
            assert(m =~= l@.skip(q as int));
            let w: [char; 4] = ['m', 'e', 't', 'a'];
            let wv = w.as_slice();
            assert(wv@ =~= seq!['m', 'e', 't', 'a']);
            if starts_at(l, q, wv) {
                assert(m.take(4) =~= l@.subrange(q as int, q + 4));
                assert(m.skip(4) =~= l@.subrange(q + 4, n as int));
                blank_range(l, q + 4, n)
            } else {
                proof {
                    if m.len() >= 4 {
                        assert(m.take(4) =~= l@.subrange(q as int, q + 4));
                    }
                }
                false
            }
        },
        None => false,
    }
}

/// The language of a line that opens a fenced block.
pub fn code_open(l: &[char]) -> (r: Option<String>)
    ensures
        match r {
            Some(lang) => code_open_language(l@) == Some(lang@),
            None => code_open_language(l@) == None::<Seq<char>>,
        },
{
    match fence_end(l) {
        Some(p) => {
            let n = l.len();
            let ghost r = l@.skip(p as int);
            assert(l@.subrange(p as int, n as int) =~= r);
            if p == n {
                return None;
            }
            match find_in(l, p, n, '\n') {
                Some(k) => {
                    proof {
                        crate::text::lemma_find_char(r, '\n');
                        assert(r[k - p] == '\n');
                    }
                    None
                },
                None => {
                    proof {
                        crate::text::lemma_find_char(r, '\n');
                        if r.contains('\n') {
                            let j = choose|j: int| 0 <= j < r.len() && r[j] == '\n';
                            assert(r[j] == '\n');
                        }
                    }
                    let (a, b) = trim_range(l, p, n, CharClass::Whitespace);
                    Some(string_of(l, a, b))
                },
            }
        },
        None => None,
    }
}

/// The title of a heading line, or `None` for any other line.
pub fn heading(l: &[char]) -> (r: Option<String>)
    ensures
        match r {
            Some(t) => is_heading(l@) && t@ == heading_title(l@),
            None => !is_heading(l@),
        },
{
    let n = l.len();
    assert(l@.subrange(0, n as int) =~= l@);
    let a = skip_class(l, 0, n, CharClass::Blank);
    let ghost rest = l@.skip(a as int);
    assert(l@.subrange(a as int, n as int) =~= rest);
    let h = skip_class(l, a, n, CharClass::Exactly('#'));
    let ghost r = after_hashes(l@);
    assert(r =~= l@.skip(h as int));
    assert(l@.subrange(h as int, n as int) =~= r);
    if h == a {
        return None;
    }
    let ok = if blank_range(l, h, n) {
        true
    } else if h < n && (l[h] == ' ' || l[h] == '\t') {
        proof {
            crate::text::lemma_find_char(r, '\n');
        }
        match find_in(l, h, n, '\n') {
            Some(k) => {
                assert(r[k - h] == '\n');
                false
            },
            None => {
                proof {
                    if r.contains('\n') {
                        let j = choose|j: int| 0 <= j < r.len() && r[j] == '\n';
                        assert(r[j] == '\n');
                    }
                }
                true
            },
        }
    } else {
        false
    };
    if !ok {
        return None;
    }
    let (p, q) = trim_range(l, h, n, CharClass::Whitespace);
    let q2 = skip_class_back(l, p, q, CharClass::Exactly('#'));
    let (p3, q3) = trim_range(l, p, q2, CharClass::Whitespace);
    Some(string_of(l, p3, q3))
}

/// A section of a document: the lines `start..end`, and the title of its heading
/// (`None` for the part before the first heading).
pub struct Section {
    pub start: usize,
    pub end: usize,
    pub title: Option<String>,
}

pub struct SectionView {
    pub start: int,
    pub end: int,
    pub title: Option<Seq<char>>,
}

impl View for Section {
    type V = SectionView;

    open spec fn view(&self) -> SectionView {
        SectionView {
            start: self.start as int,
            end: self.end as int,
            title: match self.title {
                Some(t) => Some(t@),
                None => None,
            },
        }
    }
}

/// Indices of the heading lines among the first `n` lines.
pub open spec fn heading_indices(ls: Seq<Seq<char>>, n: int) -> Seq<int>
    decreases n,
{
    if n <= 0 {
        seq![]
    } else if is_heading(ls[n - 1]) {
        heading_indices(ls, n - 1).push(n - 1)
    } else {
        heading_indices(ls, n - 1)
    }
}

/// The sections of a document: the part before the first heading when it is not empty
/// (or the whole document when it has no heading), then one section per heading,
/// up to the next heading.
pub open spec fn sections(ls: Seq<Seq<char>>) -> Seq<SectionView> {
    let hs = heading_indices(ls, ls.len() as int);
    if hs.len() == 0 {
        seq![SectionView { start: 0, end: ls.len() as int, title: None }]
    } else {
        (if hs[0] > 0 {
            seq![SectionView { start: 0, end: hs[0], title: None }]
        } else {
            Seq::empty()
        }) + Seq::new(
            hs.len(),
            |k: int|
                SectionView {
                    start: hs[k],
                    end: if k + 1 < hs.len() {
                        hs[k + 1]
                    } else {
                        ls.len() as int
                    },
                    title: Some(heading_title(ls[hs[k]])),
                },
        )
    }
}

pub proof fn lemma_heading_indices(ls: Seq<Seq<char>>, n: int)
    requires
        0 <= n <= ls.len(),
    ensures
        forall|k: int|
            0 <= k < heading_indices(ls, n).len() ==> 0 <= #[trigger] heading_indices(ls, n)[k]
                < n && is_heading(ls[heading_indices(ls, n)[k]]),
        forall|a: int, b: int|
            0 <= a < b < heading_indices(ls, n).len() ==> heading_indices(ls, n)[a]
                < heading_indices(ls, n)[b],
        forall|i: int|
            0 <= i < n && is_heading(#[trigger] ls[i]) ==> heading_indices(ls, n).contains(i),
    decreases n,
{
    if n > 0 {
        lemma_heading_indices(ls, n - 1);
        let prev = heading_indices(ls, n - 1);
        if is_heading(ls[n - 1]) {
            assert forall|i: int| 0 <= i < n && is_heading(#[trigger] ls[i]) implies heading_indices(
                ls,
                n,
            ).contains(i) by {
                if i < n - 1 {
                    let k = choose|k: int| 0 <= k < prev.len() && prev[k] == i;
                    assert(heading_indices(ls, n)[k] == i);
                } else {
                    assert(heading_indices(ls, n)[prev.len() as int] == i);
                }
            }
        }
    }
}

/// Splits a document into sections at its heading lines.
pub fn split_sections(lines: &[String]) -> (res: Vec<Section>)
    ensures
        res@.map_values(|s: Section| s@) == sections(line_views(lines@)),
{
    let ghost ls = line_views(lines@);
    let n = lines.len();
    let mut heads: Vec<usize> = Vec::new();
    let mut titles: Vec<String> = Vec::new();
    let mut i: usize = 0;
    while i < n
        invariant
            n == lines@.len(),
            ls == line_views(lines@),
            i <= n,
            heads@.len() == titles@.len(),
            heads@.map_values(|h: usize| h as int) == heading_indices(ls, i as int),
            forall|k: int|
                0 <= k < heads@.len() ==> #[trigger] titles@[k]@ == heading_title(
                    ls[heads@[k] as int],
                ),
            forall|k: int| 0 <= k < heads@.len() ==> #[trigger] heads@[k] < i,
        decreases n - i,
    {
        let l = chars_of(lines[i].as_str());
        assert(l@ == ls[i as int]);
        match heading(&l) {
            Some(t) => {
                let ghost before = heads@;
                heads.push(i);
                titles.push(t);
                assert(heads@.map_values(|h: usize| h as int) =~= before.map_values(
                    |h: usize| h as int,
                ).push(i as int));
            },
            None => {},
        }
        i = i + 1;
    }
    let ghost hs = heading_indices(ls, n as int);
    assert(hs.len() == heads@.len());
    assert forall|k: int| 0 <= k < hs.len() implies hs[k] == heads@[k] as int by {
        assert(heads@.map_values(|h: usize| h as int)[k] == heads@[k] as int);
    }
    let mut out: Vec<Section> = Vec::new();
    if heads.len() == 0 {
        out.push(Section { start: 0, end: n, title: None });
        assert(out@.map_values(|s: Section| s@) =~= sections(ls));
        return out;
    }
    if heads[0] > 0 {
        out.push(Section { start: 0, end: heads[0], title: None });
    }
    let ghost pre = if hs[0] > 0 {
        seq![SectionView { start: 0, end: hs[0], title: None }]
    } else {
        Seq::<SectionView>::empty()
    };
    assert(out@.map_values(|s: Section| s@) =~= pre);
    let mut k: usize = 0;
    while k < heads.len()
        invariant
            n == lines@.len(),
            ls == line_views(lines@),
            forall|j: int| 0 <= j < heads@.len() ==> #[trigger] heads@[j] < n,
            hs == heading_indices(ls, n as int),
            hs.len() == heads@.len(),
            heads@.len() == titles@.len(),
            forall|j: int| 0 <= j < hs.len() ==> hs[j] == heads@[j] as int,
            forall|j: int|
                0 <= j < heads@.len() ==> #[trigger] titles@[j]@ == heading_title(
                    ls[heads@[j] as int],
                ),
            k <= heads@.len(),
            out@.map_values(|s: Section| s@) == pre + sections(ls).skip(pre.len() as int).take(
                k as int,
            ),
            sections(ls) == pre + Seq::new(
                hs.len(),
                |j: int|
                    SectionView {
                        start: hs[j],
                        end: if j + 1 < hs.len() {
                            hs[j + 1]
                        } else {
                            ls.len() as int
                        },
                        title: Some(heading_title(ls[hs[j]])),
                    },
            ),
        decreases heads@.len() - k,
    {
        let start = heads[k];
        let end = if k + 1 < heads.len() {
            heads[k + 1]
        } else {
            n
        };
        let title = titles[k].clone();
        let ghost before = out@;
        let sec = Section { start, end, title: Some(title) };
        proof {
            let tail = sections(ls).skip(pre.len() as int);
            assert(sections(ls).len() == pre.len() + hs.len());
            assert(tail.len() == hs.len());
            assert(tail[k as int] == sections(ls)[pre.len() + k]);
            assert(ls.len() == n);
            assert(hs[k as int] == heads@[k as int] as int);
            assert(k + 1 < hs.len() ==> hs[k + 1] == heads@[k + 1] as int);
            assert(titles@[k as int]@ == heading_title(ls[heads@[k as int] as int]));
            assert(sec@ == tail[k as int]);
            assert(before.map_values(|s: Section| s@).len() == before.len());
            assert(tail.take(k as int).len() == k);
            assert(before.len() == pre.len() + k);
        }
        out.push(sec);
        proof {
            let tail = sections(ls).skip(pre.len() as int);
            assert(tail.take(k + 1) =~= tail.take(k as int).push(tail[k as int]));
            assert(out@.map_values(|s: Section| s@) =~= before.map_values(|s: Section| s@).push(
                sec@,
            ));
        }
        k = k + 1;
    }
    proof {
        let tail = sections(ls).skip(pre.len() as int);
        assert(tail.take(k as int) =~= tail);
        assert(pre + tail =~= sections(ls));
    }
    out
}

/// Index of the first closing fence among the lines `from..end`.
fn next_close(lines: &[String], from: usize, end: usize) -> (r: Option<usize>)
    requires
        from <= end <= lines@.len(),
    ensures
        match r {
            Some(j) => first_close(line_views(lines@), from as int, end as int) == Some(j as int),
            None => first_close(line_views(lines@), from as int, end as int) == None::<int>,
        },
{
    let ghost ls = line_views(lines@);
    let mut i = from;
    while i < end
        invariant
            from <= i <= end <= lines@.len(),
            ls == line_views(lines@),
            first_close(ls, from as int, end as int) == first_close(ls, i as int, end as int),
        decreases end - i,
    {
        let l = chars_of(lines[i].as_str());
        assert(l@ == ls[i as int]);
        if code_close(&l) {
            return Some(i);
        }
        i = i + 1;
    }
    None
}

/// The `meta` blocks among the lines `start..end`, each as (opening line, closing line).
pub fn find_meta_blocks(lines: &[String], start: usize, end: usize) -> (res: Vec<(usize, usize)>)
    requires
        start < end ==> end <= lines@.len(),
    ensures
        res@.map_values(|p: (usize, usize)| (p.0 as int, p.1 as int)) == meta_blocks(
            line_views(lines@),
            start as int,
            end as int,
        ),
{
    let ghost ls = line_views(lines@);
    let mut blocks: Vec<(usize, usize)> = Vec::new();
    let mut i = start;
    while i < end
        invariant
            start <= i,
            i < end ==> end <= lines@.len(),
            start < end ==> i <= end,
            ls == line_views(lines@),
            meta_blocks(ls, start as int, end as int) == blocks@.map_values(
                |p: (usize, usize)| (p.0 as int, p.1 as int),
            ) + meta_blocks(ls, i as int, end as int),
        decreases end - i,
    {
        let l = chars_of(lines[i].as_str());
        assert(l@ == ls[i as int]);
        if meta_open(&l) {
            proof {
                lemma_first_close(ls, i + 1, end as int);
            }
            match next_close(lines, i + 1, end) {
                Some(j) => {
                    let ghost before = blocks@;
                    blocks.push((i, j));
                    assert(blocks@.map_values(|p: (usize, usize)| (p.0 as int, p.1 as int))
                        =~= before.map_values(|p: (usize, usize)| (p.0 as int, p.1 as int)).push(
                        (i as int, j as int),
                    ));
                    assert(seq![(i as int, j as int)] + meta_blocks(ls, j + 1, end as int)
                        =~= seq![(i as int, j as int)].add(meta_blocks(ls, j + 1, end as int)));
                    assert(before.map_values(|p: (usize, usize)| (p.0 as int, p.1 as int)).push(
                        (i as int, j as int),
                    ) + meta_blocks(ls, j + 1, end as int) =~= before.map_values(
                        |p: (usize, usize)| (p.0 as int, p.1 as int),
                    ) + (seq![(i as int, j as int)] + meta_blocks(ls, j + 1, end as int)));
                    i = j + 1;
                },
                None => {
                    assert(meta_blocks(ls, end as int, end as int) =~= Seq::<(int, int)>::empty());
                    assert(meta_blocks(ls, i as int, end as int) =~= Seq::<(int, int)>::empty());
                    i = end;
                },
            }
        } else {
            i = i + 1;
        }
    }
    assert(meta_blocks(ls, i as int, end as int) =~= Seq::<(int, int)>::empty());
    assert(blocks@.map_values(|p: (usize, usize)| (p.0 as int, p.1 as int)) + Seq::<
        (int, int),
    >::empty() =~= blocks@.map_values(|p: (usize, usize)| (p.0 as int, p.1 as int)));
    blocks
}

/// The first fenced block among the lines `start..end` whose language is `target`,
/// as (opening line, closing line).
pub fn find_named_code_block(lines: &[String], start: usize, end: usize, target: &str) -> (r:
    Option<(usize, usize)>)
    requires
        start < end ==> end <= lines@.len(),
    ensures
        match r {
            Some((a, b)) => named_block(line_views(lines@), start as int, end as int, target@)
                == Some((a as int, b as int)),
            None => named_block(line_views(lines@), start as int, end as int, target@) == None::<
                (int, int),
            >,
        },
{
    let ghost ls = line_views(lines@);
    let mut i = start;
    while i < end
        invariant
            start <= i,
            i < end ==> end <= lines@.len(),
            ls == line_views(lines@),
            named_block(ls, start as int, end as int, target@) == named_block(
                ls,
                i as int,
                end as int,
                target@,
            ),
        decreases end - i,
    {
        let l = chars_of(lines[i].as_str());
        assert(l@ == ls[i as int]);
        proof {
            lemma_first_close(ls, i + 1, end as int);
        }
        if meta_open(&l) {
            match next_close(lines, i + 1, end) {
                Some(j) => {
                    i = j + 1;
                },
                None => {
                    assert(named_block(ls, end as int, end as int, target@) == None::<(int, int)>);
                    assert(named_block(ls, end + 1, end as int, target@) == None::<(int, int)>);
                    i = end;
                },
            }
        } else {
            match code_open(&l) {
                Some(lang) => {
                    if crate::json::str_eq(lang.as_str(), target) {
                        return match next_close(lines, i + 1, end) {
                            Some(j) => Some((i, j)),
                            None => None,
                        };
                    }
                    match next_close(lines, i + 1, end) {
                        Some(j) => {
                            i = j + 1;
                        },
                        None => {
                            assert(named_block(ls, end as int, end as int, target@) == None::<
                                (int, int),
                            >);
                            assert(named_block(ls, end + 1, end as int, target@) == None::<
                                (int, int),
                            >);
                            i = end;
                        },
                    }
                },
                None => {
                    i = i + 1;
                },
            }
        }
    }
    None
}

/// The entry that a line of a `meta` block gives: `key: value`, both trimmed, for a line
/// that is neither blank nor a `#` comment and whose key is not empty.
pub open spec fn meta_line(l: Seq<char>) -> Option<(Seq<char>, Seq<char>)> {
    let t = trim(l);
    if t.len() == 0 || t[0] == '#' {
        None
    } else {
        match split_once(t, ':') {
            Some((k, v)) => {
                if trim(k).len() > 0 {
                    Some((trim(k), trim(v)))
                } else {
                    None
                }
            },
            None => None,
        }
    }
}

/// The entries of a `meta` block: each line's entry inserted in turn.
pub open spec fn meta_entries(ls: Seq<Seq<char>>) -> Seq<(Seq<char>, Seq<char>)>
    decreases ls.len(),
{
    if ls.len() == 0 {
        seq![]
    } else {
        let prev = meta_entries(ls.drop_last());
        match meta_line(ls.last()) {
            Some((k, v)) => entries_insert(prev, k, v),
            None => prev,
        }
    }
}

/// The `key: value` entry of one line, if it has one.
fn meta_line_of(l: &[char]) -> (r: Option<(String, String)>)
    ensures
        match r {
            Some((k, v)) => meta_line(l@) == Some((k@, v@)),
            None => meta_line(l@) == None::<(Seq<char>, Seq<char>)>,
        },
{
    let n = l.len();
    assert(l@.subrange(0, n as int) =~= l@);
    let (a, b) = trim_range(l, 0, n, CharClass::Whitespace);
    let ghost t = l@.subrange(a as int, b as int);
    if a == b || l[a] == '#' {
        return None;
    }
    assert(t[0] == l@[a as int]);
    match find_in(l, a, b, ':') {
        Some(k) => {
            assert(t.take(k - a) =~= l@.subrange(a as int, k as int));
            assert(t.skip(k - a + 1) =~= l@.subrange(k + 1, b as int));
            let (ka, kb) = trim_range(l, a, k, CharClass::Whitespace);
            if ka == kb {
                return None;
            }
            let (va, vb) = trim_range(l, k + 1, b, CharClass::Whitespace);
            Some((string_of(l, ka, kb), string_of(l, va, vb)))
        },
        None => None,
    }
}

/// The `key: value` entries of the lines of a `meta` block, in order of first appearance;
/// a later line with the same key replaces the value.
pub fn parse_meta(lines: &[String]) -> (m: indexmap::IndexMap<String, String>)
    ensures
        map_entries(m) == meta_entries(line_views(lines@)),
        keys_unique(map_entries(m)),
{
    let ghost ls = line_views(lines@);
    let mut m = map_new();
    let mut i: usize = 0;
    while i < lines.len()
        invariant
            i <= lines@.len(),
            ls == line_views(lines@),
            map_entries(m) == meta_entries(ls.take(i as int)),
            keys_unique(map_entries(m)),
        decreases lines@.len() - i,
    {
        let l = chars_of(lines[i].as_str());
        assert(ls.take(i + 1).drop_last() =~= ls.take(i as int));
        assert(ls.take(i + 1).last() == l@);
        match meta_line_of(&l) {
            Some((k, v)) => {
                map_insert(&mut m, k, v);
            },
            None => {},
        }
        i = i + 1;
    }
    assert(ls.take(i as int) =~= ls);
    m
}

/// A string with each line break (`\r\n`, `\r` or `\n`) written as the two characters `\n`.
pub open spec fn escape_newlines(s: Seq<char>) -> Seq<char>
    decreases s.len(),
{
    if s.len() == 0 {
        seq![]
    } else if s.len() >= 2 && s[0] == '\r' && s[1] == '\n' {
        seq!['\\', 'n'] + escape_newlines(s.skip(2))
    } else if s[0] == '\r' || s[0] == '\n' {
        seq!['\\', 'n'] + escape_newlines(s.skip(1))
    } else {
        seq![s[0]] + escape_newlines(s.skip(1))
    }
}

/// The text written for a JSON value in a `key: value` line: nothing for `null`,
/// strings with their line breaks escaped, arrays and objects in compact form.
pub open spec fn normalized(v: Json) -> Seq<char> {
    match v {
        Json::Null => seq![],
        Json::Bool(b) => literal_bool(b),
        Json::Number(t) => t,
        Json::Str(s) => escape_newlines(s),
        _ => compact(v),
    }
}

/// The text written for a JSON value in a `key: value` line.
pub fn normalize_output_value(value: &JsonValue) -> (r: String)
    ensures
        r@ == normalized(value@),
        json_valid(value@) ==> one_line(r@),
{
    proof {
        if json_valid(value@) {
            law_meta_value_is_one_line(value@);
        }
    }
    match value {
        JsonValue::Null => String::new(),
        JsonValue::Str(s) => {
            let c = chars_of(s.as_str());
            let mut out = String::new();
            let mut i: usize = 0;
            let n = c.len();
            assert(c@.skip(0) =~= c@);
            while i < n
                invariant
                    n == c@.len(),
                    i <= n,
                    escape_newlines(c@) == out@ + escape_newlines(c@.skip(i as int)),
                decreases n - i,
            {
                let ghost rest = c@.skip(i as int);
                assert(rest[0] == c@[i as int]);
                if c[i] == '\r' && i + 1 < n && c[i + 1] == '\n' {
                    assert(rest[1] == c@[i + 1]);
                    push_char(&mut out, '\\');
                    push_char(&mut out, 'n');
                    assert(rest.skip(2) =~= c@.skip(i + 2));
                    assert(out@ + escape_newlines(c@.skip(i + 2)) =~= old_out_plus(
                        out@.drop_last().drop_last(),
                        seq!['\\', 'n'],
                        escape_newlines(rest.skip(2)),
                    ));
                    i = i + 2;
                } else if c[i] == '\r' || c[i] == '\n' {
                    push_char(&mut out, '\\');
                    push_char(&mut out, 'n');
                    assert(rest.skip(1) =~= c@.skip(i + 1));
                    assert(out@ + escape_newlines(c@.skip(i + 1)) =~= old_out_plus(
                        out@.drop_last().drop_last(),
                        seq!['\\', 'n'],
                        escape_newlines(rest.skip(1)),
                    ));
                    i = i + 1;
                } else {
                    push_char(&mut out, c[i]);
                    assert(rest.skip(1) =~= c@.skip(i + 1));
                    assert(out@ + escape_newlines(c@.skip(i + 1)) =~= old_out_plus(
                        out@.drop_last(),
                        seq![c@[i as int]],
                        escape_newlines(rest.skip(1)),
                    ));
                    i = i + 1;
                }
            }
            assert(c@.skip(n as int) =~= Seq::<char>::empty());
            assert(out@ + Seq::<char>::empty() =~= out@);
            out
        },
        JsonValue::Bool(_) => value.to_compact(),
        JsonValue::Number(_) => value.to_compact(),
        _ => value.to_compact(),
    }
}

spec fn old_out_plus(a: Seq<char>, b: Seq<char>, c: Seq<char>) -> Seq<char> {
    a + (b + c)
}

/// The key of a `key: value` line: the trimmed text before the first colon of the trimmed line.
pub open spec fn line_key(l: Seq<char>) -> Option<Seq<char>> {
    match split_once(trim(l), ':') {
        Some((k, _)) => {
            if trim(k).len() > 0 {
                Some(trim(k))
            } else {
                None
            }
        },
        None => None,
    }
}

/// `key: value` with the value's text.
pub open spec fn field_line(k: Seq<char>, v: Json) -> Seq<char> {
    k + seq![':', ' '] + normalized(v)
}

/// A line rewritten with the source's value when its key is one of the wanted fields and
/// the source has it; any other line is kept as it is.
pub open spec fn rewrite_line(l: Seq<char>, fields: Seq<Seq<char>>, src: Seq<(Seq<char>, Json)>) -> Seq<
    char,
> {
    match line_key(l) {
        Some(k) => if fields.contains(k) {
            match entries_get(src, k) {
                Some(v) => field_line(k, v),
                None => l,
            }
        } else {
            l
        },
        None => l,
    }
}

/// Whether some line of `content` has key `k`, with `k` among the wanted fields.
pub open spec fn key_present(content: Seq<Seq<char>>, fields: Seq<Seq<char>>, k: Seq<char>) -> bool {
    exists|i: int|
        0 <= i < content.len() && line_key(#[trigger] content[i]) == Some(k) && fields.contains(k)
}

/// The lines without their trailing blank lines.
pub open spec fn strip_trailing_blank(ls: Seq<Seq<char>>) -> Seq<Seq<char>>
    decreases ls.len(),
{
    if ls.len() > 0 && trim(ls.last()).len() == 0 {
        strip_trailing_blank(ls.drop_last())
    } else {
        ls
    }
}

/// The lines added for the wanted fields that no line holds yet, in the order of `fields`.
pub open spec fn added_lines(
    content: Seq<Seq<char>>,
    fields: Seq<Seq<char>>,
    wanted: Seq<Seq<char>>,
    src: Seq<(Seq<char>, Json)>,
) -> Seq<Seq<char>>
    decreases wanted.len(),
{
    if wanted.len() == 0 {
        seq![]
    } else {
        let prev = added_lines(content, fields, wanted.drop_last(), src);
        let k = wanted.last();
        if key_present(content, fields, k) {
            prev
        } else {
            match entries_get(src, k) {
                Some(v) => prev.push(field_line(k, v)),
                None => prev,
            }
        }
    }
}

/// The block after an update: lines whose key is a wanted field take the source's value,
/// the other lines stay as they are, trailing blank lines go, and the wanted fields that
/// no line holds are added in the order they are wanted.
pub open spec fn updated_block(
    content: Seq<Seq<char>>,
    fields: Seq<Seq<char>>,
    src: Seq<(Seq<char>, Json)>,
) -> Seq<Seq<char>> {
    strip_trailing_blank(Seq::new(content.len(), |i: int| rewrite_line(content[i], fields, src)))
        + added_lines(content, fields, fields, src)
}

/// The key of a line, if it has one.
fn key_of(l: &[char]) -> (r: Option<String>)
    ensures
        match r {
            Some(k) => line_key(l@) == Some(k@),
            None => line_key(l@) == None::<Seq<char>>,
        },
{
    let n = l.len();
    assert(l@.subrange(0, n as int) =~= l@);
    let (a, b) = trim_range(l, 0, n, CharClass::Whitespace);
    let ghost t = l@.subrange(a as int, b as int);
    match find_in(l, a, b, ':') {
        Some(k) => {
            assert(t.take(k - a) =~= l@.subrange(a as int, k as int));
            let (ka, kb) = trim_range(l, a, k, CharClass::Whitespace);
            if ka == kb {
                return None;
            }
            Some(string_of(l, ka, kb))
        },
        None => None,
    }
}

/// Whether `k` is among `fields`.
pub(crate) fn contains_str(fields: &[String], k: &str) -> (b: bool)
    ensures
        b == line_views(fields@).contains(k@),
{
    let mut i: usize = 0;
    while i < fields.len()
        invariant
            i <= fields@.len(),
            forall|j: int| 0 <= j < i ==> fields@[j]@ != k@,
        decreases fields@.len() - i,
    {
        if crate::json::str_eq(fields[i].as_str(), k) {
            assert(line_views(fields@)[i as int] == k@);
            return true;
        }
        i = i + 1;
    }
    proof {
        if line_views(fields@).contains(k@) {
            let j = choose|j: int| 0 <= j < fields@.len() && line_views(fields@)[j] == k@;
            assert(fields@[j]@ == k@);
        }
    }
    false
}

fn field_text(k: &str, v: &JsonValue) -> (r: String)
    ensures
        r@ == field_line(k@, v@),
{
    let mut out = crate::text::owned(k);
    push_char(&mut out, ':');
    push_char(&mut out, ' ');
    let t = normalize_output_value(v);
    push_str(&mut out, t.as_str());
    assert(out@ =~= field_line(k@, v@));
    out
}

/// Whether the last line is blank.
fn last_is_blank(content: &Vec<String>) -> (b: bool)
    ensures
        b == (content@.len() > 0 && trim(content@.last()@).len() == 0),
{
    if content.len() == 0 {
        return false;
    }
    let last = chars_of(content[content.len() - 1].as_str());
    let (a, b) = trim_range(&last, 0, last.len(), CharClass::Whitespace);
    assert(last@.subrange(0, last@.len() as int) =~= last@);
    a == b
}

/// Updates the lines of a `key: value` block from the fields of a JSON object: lines whose
/// key is a wanted field take the source's value in place, lines of other keys are kept,
/// trailing blank lines are removed, and each wanted field that no line holds is appended.
#[verifier::loop_isolation(false)]
pub fn update_named_block(
    content: &mut Vec<String>,
    fields: &[String],
    source: &Vec<(String, JsonValue)>,
)
    ensures
        line_views(final(content)@) == updated_block(
            line_views(old(content)@),
            line_views(fields@),
            entries_view(source@),
        ),
{
    let ghost c0 = line_views(content@);
    let ghost fv = line_views(fields@);
    let ghost src = entries_view(source@);
    let n = content.len();
    let mut existing: Vec<String> = Vec::new();
    let mut i: usize = 0;
    while i < n
        invariant
            n == c0.len(),
            i <= n,
            content@.len() == n,
            forall|j: int|
                0 <= j < n ==> #[trigger] content@[j]@ == if j < i {
                    rewrite_line(c0[j], fv, src)
                } else {
                    c0[j]
                },
            forall|k: Seq<char>|
                line_views(existing@).contains(k) <==> exists|j: int|
                    0 <= j < i && line_key(#[trigger] c0[j]) == Some(k) && fv.contains(k),
        decreases n - i,
    {
        let l = chars_of(content[i].as_str());
        assert(l@ == c0[i as int]);
        let ghost ex0 = line_views(existing@);
        match key_of(&l) {
            Some(k) => {
                let wanted = contains_str(fields, k.as_str());
                let found = find_entry(source, k.as_str());
                if wanted {
                    existing.push(k.clone());
                    assert(line_views(existing@) =~= ex0.push(k@));
                    match found {
                        Some(idx) => {
                            let text = field_text(k.as_str(), &source[idx].1);
                            content.set(i, text);
                        },
                        None => {},
                    }
                }
                proof {
                    assert forall|kk: Seq<char>|
                        line_views(existing@).contains(kk) <==> exists|j: int|
                            0 <= j < i + 1 && line_key(#[trigger] c0[j]) == Some(kk) && fv.contains(kk) by {
                        let ev = line_views(existing@);
                        if ev.contains(kk) {
                            if ex0.contains(kk) {
                                let j = choose|j: int|
                                    0 <= j < i && line_key(#[trigger] c0[j]) == Some(kk) && fv.contains(kk);
                                assert(0 <= j < i + 1);
                            } else {
                                let p = choose|p: int| 0 <= p < ev.len() && ev[p] == kk;
                                if p < ex0.len() {
                                    assert(ev[p] == ex0[p]);
                                }
                                assert(kk == k@);
                                assert(wanted);
                                assert(line_key(c0[i as int]) == Some(kk));
                            }
                        }
                        if exists|j: int|
                            0 <= j < i + 1 && line_key(#[trigger] c0[j]) == Some(kk) && fv.contains(kk) {
                            let j = choose|j: int|
                                0 <= j < i + 1 && line_key(#[trigger] c0[j]) == Some(kk) && fv.contains(kk);
                            if j == i {
                                assert(kk == k@);
                                assert(wanted);
                                assert(ev[ev.len() - 1] == k@);
                            } else {
                                assert(ex0.contains(kk));
                                let p = choose|p: int| 0 <= p < ex0.len() && ex0[p] == kk;
                                assert(ev[p] == kk);
                            }
                        }
                    }
                }
            },
            None => {
                proof {
                    assert forall|kk: Seq<char>|
                        line_views(existing@).contains(kk) <==> exists|j: int|
                            0 <= j < i + 1 && line_key(#[trigger] c0[j]) == Some(kk) && fv.contains(kk) by {
                        if exists|j: int|
                            0 <= j < i + 1 && line_key(#[trigger] c0[j]) == Some(kk) && fv.contains(kk) {
                            let j = choose|j: int|
                                0 <= j < i + 1 && line_key(#[trigger] c0[j]) == Some(kk) && fv.contains(kk);
                            assert(j != i);
                        }
                    }
                }
            },
        }
        i = i + 1;
    }
    let ghost rewritten = Seq::new(c0.len(), |j: int| rewrite_line(c0[j], fv, src));
    assert(line_views(content@) =~= rewritten);
    // Drop the trailing blank lines.
    while last_is_blank(content)
        invariant
            strip_trailing_blank(rewritten) == strip_trailing_blank(line_views(content@)),
        decreases content@.len(),
    {
        assert(line_views(content@).drop_last() =~= line_views(content@.drop_last()));
        content.pop();
    }
    assert(strip_trailing_blank(line_views(content@)) == line_views(content@));
    let ghost kept = line_views(content@);
    let mut f: usize = 0;
    while f < fields.len()
        invariant
            f <= fields@.len(),
            fv == line_views(fields@),
            line_views(content@) == kept + added_lines(c0, fv, fv.take(f as int), src),
            forall|k: Seq<char>|
                line_views(existing@).contains(k) <==> key_present(c0, fv, k),
        decreases fields@.len() - f,
    {
        let key = fields[f].as_str();
        assert(fv.take(f + 1).drop_last() =~= fv.take(f as int));
        assert(fv.take(f + 1).last() == key@);
        if !contains_str(&existing, key) {
            match find_entry(source, key) {
                Some(idx) => {
                    let text = field_text(key, &source[idx].1);
                    let ghost before = line_views(content@);
                    content.push(text);
                    assert(line_views(content@) =~= before.push(text@));
                },
                None => {},
            }
        }
        f = f + 1;
    }
    assert(fv.take(f as int) =~= fv);
}

/// Why a `match` value cannot be read.
#[derive(Debug, PartialEq, Eq, Structural, Clone, Copy)]
pub enum MatchError {
    /// The value is blank.
    Empty,
    /// The value is not `<json_file>:<json_path>`.
    Format,
}

/// Positions of the colons of `t` among its first `n` characters that split it into two
/// nonempty parts, from the last one to the first.
pub open spec fn colon_positions(t: Seq<char>, n: int) -> Seq<int>
    decreases n,
{
    if n <= 0 {
        seq![]
    } else {
        let i = n - 1;
        (if t[i] == ':' && 0 < i && i < t.len() - 1 {
            seq![i]
        } else {
            Seq::empty()
        }) + colon_positions(t, n - 1)
    }
}

/// The file parts to probe, in order: the trimmed value cut at each such colon,
/// from the last colon to the first.
pub open spec fn match_probes(value: Seq<char>) -> Seq<Seq<char>> {
    let t = trim(value);
    let ps = colon_positions(t, t.len() as int);
    Seq::new(ps.len(), |k: int| t.take(ps[k]))
}

/// The first probe that `existing` marks as an existing file.
pub open spec fn first_existing(existing: Seq<bool>, count: int, k: int) -> Option<int>
    decreases count - k,
{
    if k >= count || k >= existing.len() {
        None
    } else if existing[k] {
        Some(k)
    } else {
        first_existing(existing, count, k + 1)
    }
}

/// A `match` value split into its JSON file and its JSON path: at the last colon whose file
/// part is an existing file (`existing[k]` tells it for the `k`-th of `match_probes`), else
/// at the last colon, both parts nonempty.
pub open spec fn spec_parse_match(value: Seq<char>, existing: Seq<bool>) -> Result<
    (Seq<char>, Seq<char>),
    MatchError,
> {
    let t = trim(value);
    let ps = colon_positions(t, t.len() as int);
    if t.len() == 0 {
        Err(MatchError::Empty)
    } else {
        match first_existing(existing, ps.len() as int, 0) {
            Some(k) => Ok((t.take(ps[k]), t.skip(ps[k] + 1))),
            None => match rsplit_once(t, ':') {
                Some((l, r)) => {
                    if l.len() == 0 || r.len() == 0 {
                        Err(MatchError::Format)
                    } else {
                        Ok((l, r))
                    }
                },
                None => Err(MatchError::Format),
            },
        }
    }
}

proof fn lemma_colon_positions(t: Seq<char>, n: int)
    requires
        0 <= n <= t.len(),
    ensures
        forall|k: int|
            0 <= k < colon_positions(t, n).len() ==> 0 < #[trigger] colon_positions(t, n)[k] < n
                && colon_positions(t, n)[k] < t.len() - 1 && t[colon_positions(t, n)[k]] == ':',
    decreases n,
{
    if n > 0 {
        lemma_colon_positions(t, n - 1);
        let i = n - 1;
        let head = if t[i] == ':' && 0 < i && i < t.len() - 1 {
            seq![i]
        } else {
            Seq::<int>::empty()
        };
        assert forall|k: int|
            0 <= k < colon_positions(t, n).len() implies 0 < #[trigger] colon_positions(t, n)[k]
            < n && colon_positions(t, n)[k] < t.len() - 1 && t[colon_positions(t, n)[k]] == ':' by {
            if k >= head.len() {
                assert(colon_positions(t, n)[k] == colon_positions(t, n - 1)[k - head.len()]);
            }
        }
    }
}

/// The colon positions of `t[a..b]`, as indices into `t`'s slice, last colon first.
fn colon_positions_of(c: &[char], a: usize, b: usize) -> (r: Vec<usize>)
    requires
        a <= b <= c@.len(),
    ensures
        r@.len() == colon_positions(c@.subrange(a as int, b as int), (b - a) as int).len(),
        forall|k: int|
            0 <= k < r@.len() ==> #[trigger] r@[k] as int == a + colon_positions(
                c@.subrange(a as int, b as int),
                (b - a) as int,
            )[k],
{
    let ghost t = c@.subrange(a as int, b as int);
    let mut r: Vec<usize> = Vec::new();
    let mut n = b - a;
    while n > 0
        invariant
            n <= b - a,
            a <= b <= c@.len(),
            t == c@.subrange(a as int, b as int),
            r@.len() + colon_positions(t, n as int).len() == colon_positions(
                t,
                (b - a) as int,
            ).len(),
            forall|k: int|
                0 <= k < r@.len() ==> #[trigger] r@[k] as int == a + colon_positions(
                    t,
                    (b - a) as int,
                )[k],
            forall|k: int|
                0 <= k < colon_positions(t, n as int).len() ==> colon_positions(
                    t,
                    (b - a) as int,
                )[r@.len() + k] == #[trigger] colon_positions(t, n as int)[k],
        decreases n,
    {
        let i = n - 1;
        assert(t[i as int] == c@[a + i]);
        let hit = c[a + i] == ':' && 0 < i && i + 1 < b - a;
        let ghost head = if t[i as int] == ':' && 0 < i && i < t.len() - 1 {
            seq![i as int]
        } else {
            Seq::<int>::empty()
        };
        assert(colon_positions(t, n as int) == head + colon_positions(t, i as int));
        if hit {
            assert(colon_positions(t, n as int)[0] == i as int);
            assert(colon_positions(t, (b - a) as int)[r@.len() as int + 0] == colon_positions(
                t,
                n as int,
            )[0]);
            r.push(a + i);
        }
        proof {
            assert forall|k: int| 0 <= k < colon_positions(t, i as int).len() implies colon_positions(
                t,
                (b - a) as int,
            )[r@.len() + k] == #[trigger] colon_positions(t, i as int)[k] by {
                assert(colon_positions(t, n as int)[head.len() + k] == colon_positions(
                    t,
                    i as int,
                )[k]);
            }
        }
        n = i;
    }
    r
}

/// The file parts to probe for a `match` value, in the order `parse_match` tries them.
pub fn match_candidates(value: &str) -> (r: Vec<String>)
    ensures
        line_views(r@) == match_probes(value@),
{
    let c = chars_of(value);
    let n = c.len();
    assert(c@.subrange(0, n as int) =~= c@);
    let (a, b) = trim_range(&c, 0, n, CharClass::Whitespace);
    let ghost t = c@.subrange(a as int, b as int);
    let ps = colon_positions_of(&c, a, b);
    let mut out: Vec<String> = Vec::new();
    let mut k: usize = 0;
    while k < ps.len()
        invariant
            k <= ps@.len(),
            a <= b <= c@.len(),
            t == c@.subrange(a as int, b as int),
            t == trim(value@),
            ps@.len() == colon_positions(t, t.len() as int).len(),
            forall|j: int|
                0 <= j < ps@.len() ==> #[trigger] ps@[j] as int == a + colon_positions(
                    t,
                    t.len() as int,
                )[j],
            line_views(out@) == match_probes(value@).take(k as int),
        decreases ps@.len() - k,
    {
        proof {
            lemma_colon_positions(t, t.len() as int);
        }
        assert(colon_positions(t, t.len() as int)[k as int] < t.len());
        let piece = string_of(&c, a, ps[k]);
        assert(piece@ =~= t.take(colon_positions(t, t.len() as int)[k as int]));
        assert(piece@ == match_probes(value@)[k as int]);
        let ghost before = out@;
        out.push(piece);
        assert(line_views(out@) =~= line_views(before).push(piece@));
        assert(match_probes(value@).take(k + 1) =~= match_probes(value@).take(k as int).push(
            match_probes(value@)[k as int],
        ));
        k = k + 1;
    }
    assert(match_probes(value@).take(k as int) =~= match_probes(value@));
    out
}

/// Splits a `match` value `<json_file>:<json_path>`; `existing[k]` tells whether the
/// `k`-th of `match_candidates(value)` is an existing file.
pub fn parse_match(value: &str, existing: &[bool]) -> (r: Result<(String, String), MatchError>)
    ensures
        match r {
            Ok((f, p)) => spec_parse_match(value@, existing@) == Ok::<
                (Seq<char>, Seq<char>),
                MatchError,
            >((f@, p@)),
            Err(e) => spec_parse_match(value@, existing@) == Err::<(Seq<char>, Seq<char>), MatchError>(
                e,
            ),
        },
{
    let c = chars_of(value);
    let n = c.len();
    assert(c@.subrange(0, n as int) =~= c@);
    let (a, b) = trim_range(&c, 0, n, CharClass::Whitespace);
    let ghost t = c@.subrange(a as int, b as int);
    if a == b {
        return Err(MatchError::Empty);
    }
    let ps = colon_positions_of(&c, a, b);
    proof {
        lemma_colon_positions(t, t.len() as int);
    }
    let mut k: usize = 0;
    while k < ps.len() && k < existing.len()
        invariant
            k <= ps@.len(),
            a <= b <= c@.len(),
            t == c@.subrange(a as int, b as int),
            t == trim(value@),
            t.len() > 0,
            ps@.len() == colon_positions(t, t.len() as int).len(),
            forall|j: int|
                0 <= j < ps@.len() ==> #[trigger] ps@[j] as int == a + colon_positions(
                    t,
                    t.len() as int,
                )[j],
            first_existing(existing@, ps@.len() as int, 0) == first_existing(
                existing@,
                ps@.len() as int,
                k as int,
            ),
        decreases ps@.len() - k,
    {
        proof {
            lemma_colon_positions(t, t.len() as int);
        }
        if existing[k] {
            let p = ps[k];
            assert(colon_positions(t, t.len() as int)[k as int] < t.len() - 1);
            assert(t.take(p - a) =~= c@.subrange(a as int, p as int));
            assert(t.skip(p - a + 1) =~= c@.subrange(p + 1, b as int));
            return Ok((string_of(&c, a, p), string_of(&c, p + 1, b)));
        }
        k = k + 1;
    }
    assert(first_existing(existing@, ps@.len() as int, k as int) == None::<int>);
    split_last_colon(&c, a, b)
}

/// A `json_get` target `<json_file>:<json_path>`, split as `spec_parse_match` splits it;
/// where that finds no JSON path, a target that ends with a colon names the whole file,
/// with an empty JSON path.
pub open spec fn spec_parse_target(value: Seq<char>, existing: Seq<bool>) -> Result<
    (Seq<char>, Seq<char>),
    MatchError,
> {
    let t = trim(value);
    match spec_parse_match(value, existing) {
        Err(MatchError::Format) => {
            if t.len() >= 2 && t.last() == ':' {
                Ok((t.drop_last(), Seq::empty()))
            } else {
                Err(MatchError::Format)
            }
        },
        r => r,
    }
}

/// Splits a `json_get` target; `existing[k]` tells whether the `k`-th of
/// `match_candidates(value)` is an existing file.
pub fn parse_target(value: &str, existing: &[bool]) -> (r: Result<(String, String), MatchError>)
    ensures
        match r {
            Ok((f, p)) => spec_parse_target(value@, existing@) == Ok::<
                (Seq<char>, Seq<char>),
                MatchError,
            >((f@, p@)),
            Err(e) => spec_parse_target(value@, existing@) == Err::<(Seq<char>, Seq<char>), MatchError>(
                e,
            ),
        },
{
    match parse_match(value, existing) {
        Ok(x) => Ok(x),
        Err(MatchError::Empty) => Err(MatchError::Empty),
        Err(MatchError::Format) => {
            let c = chars_of(value);
            let n = c.len();
            assert(c@.subrange(0, n as int) =~= c@);
            let (a, b) = trim_range(&c, 0, n, CharClass::Whitespace);
            let ghost t = c@.subrange(a as int, b as int);
            if b - a >= 2 && c[b - 1] == ':' {
                assert(t.last() == c@[b - 1]);
                assert(t.drop_last() =~= c@.subrange(a as int, b - 1));
                Ok((string_of(&c, a, b - 1), String::new()))
            } else {
                proof {
                    if t.len() >= 2 {
                        assert(t.last() == c@[b - 1]);
                    }
                }
                Err(MatchError::Format)
            }
        },
    }
}

/// `t[a..b]` split at its last colon into two nonempty parts.
fn split_last_colon(c: &[char], a: usize, b: usize) -> (r: Result<(String, String), MatchError>)
    requires
        a <= b <= c@.len(),
    ensures
        match r {
            Ok((f, p)) => match rsplit_once(c@.subrange(a as int, b as int), ':') {
                Some((l, x)) => l.len() > 0 && x.len() > 0 && l == f@ && x == p@,
                None => false,
            },
            Err(e) => e == MatchError::Format && match rsplit_once(
                c@.subrange(a as int, b as int),
                ':',
            ) {
                Some((l, x)) => l.len() == 0 || x.len() == 0,
                None => true,
            },
        },
{
    let ghost t = c@.subrange(a as int, b as int);
    match crate::text::rfind_in(c, a, b, ':') {
        Some(p) => {
            assert(t.take(p - a) =~= c@.subrange(a as int, p as int));
            assert(t.skip(p - a + 1) =~= c@.subrange(p + 1, b as int));
            if p == a || p + 1 == b {
                Err(MatchError::Format)
            } else {
                Ok((string_of(c, a, p), string_of(c, p + 1, b)))
            }
        },
        None => Err(MatchError::Format),
    }
}

/// The sections cover the document in order: the first starts at line 0, each ends where
/// the next starts, the last ends at the end of the document, none is empty unless the
/// document is; a section has a title exactly when its first line is a heading, and the
/// title is that heading's.
pub proof fn law_sections_partition(ls: Seq<Seq<char>>)
    ensures
        sections(ls).len() >= 1,
        sections(ls)[0].start == 0,
        sections(ls).last().end == ls.len(),
        forall|k: int|
            0 <= k < sections(ls).len() - 1 ==> (#[trigger] sections(ls)[k]).end == sections(
                ls,
            )[k + 1].start,
        forall|k: int|
            0 <= k < sections(ls).len() ==> 0 <= (#[trigger] sections(ls)[k]).start <= sections(
                ls,
            )[k].end <= ls.len(),
        ls.len() > 0 ==> forall|k: int|
            0 <= k < sections(ls).len() ==> (#[trigger] sections(ls)[k]).start < sections(
                ls,
            )[k].end,
        forall|k: int|
            0 <= k < sections(ls).len() ==> ((#[trigger] sections(ls)[k]).title is Some <==> (
            sections(ls)[k].start < ls.len() && is_heading(ls[sections(ls)[k].start]))),
        forall|k: int|
            0 <= k < sections(ls).len() && (#[trigger] sections(ls)[k]).title is Some ==> sections(
                ls,
            )[k].title == Some(heading_title(ls[sections(ls)[k].start])),
{
    let n = ls.len() as int;
    lemma_heading_indices(ls, n);
    let hs = heading_indices(ls, n);
    let secs = sections(ls);
    if hs.len() == 0 {
        if n > 0 && is_heading(ls[0]) {
            assert(hs.contains(0));
        }
    } else {
        let pre = if hs[0] > 0 {
            seq![SectionView { start: 0, end: hs[0], title: None }]
        } else {
            Seq::<SectionView>::empty()
        };
        let body = Seq::new(
            hs.len(),
            |k: int|
                SectionView {
                    start: hs[k],
                    end: if k + 1 < hs.len() {
                        hs[k + 1]
                    } else {
                        ls.len() as int
                    },
                    title: Some(heading_title(ls[hs[k]])),
                },
        );
        assert(secs == pre + body);
        assert forall|a: int, b: int| 0 <= a <= b < hs.len() implies hs[a] <= hs[b] by {
            if a < b {
            }
        }
        if hs[0] > 0 && is_heading(ls[0]) {
            assert(hs.contains(0));
            let k = choose|k: int| 0 <= k < hs.len() && hs[k] == 0;
            assert(hs[0] <= hs[k]);
        }
        assert forall|k: int| 0 <= k < secs.len() - 1 implies (#[trigger] secs[k]).end == secs[k
            + 1].start by {
            if pre.len() == 1 && k == 0 {
                assert(secs[1] == body[0]);
            } else {
                assert(secs[k] == body[k - pre.len()]);
                assert(secs[k + 1] == body[k + 1 - pre.len()]);
            }
        }
        assert forall|k: int| 0 <= k < secs.len() implies 0 <= (#[trigger] secs[k]).start
            <= secs[k].end <= ls.len() && secs[k].start < secs[k].end && (secs[k].title is Some <==> (
        secs[k].start < ls.len() && is_heading(ls[secs[k].start]))) by {
            if k >= pre.len() {
                let j = k - pre.len();
                assert(secs[k] == body[j]);
                if j + 1 < hs.len() {
                    assert(hs[j] < hs[j + 1]);
                }
            }
        }
        assert(secs.last() == body[hs.len() - 1]);
    }
}

impl MatchError {
    /// The message that reports the error.
    pub fn to_message(&self) -> (r: String)
        ensures
            r@ == match *self {
                MatchError::Empty => "match 不能为空"@,
                MatchError::Format => "match 必须使用 <json_file>:<json_path> 格式"@,
            },
    {
        match self {
            MatchError::Empty => crate::text::owned("match 不能为空"),
            MatchError::Format => crate::text::owned("match 必须使用 <json_file>:<json_path> 格式"),
        }
    }
}

/// A `match` value is only cut, never altered: its JSON file, a colon and its JSON path
/// give back the trimmed value.
pub proof fn law_match_parts_rejoin(value: Seq<char>, existing: Seq<bool>)
    ensures
        spec_parse_match(value, existing) matches Ok((file, path)) ==> file + seq![':'] + path
            == trim(value),
{
    let t = trim(value);
    let ps = colon_positions(t, t.len() as int);
    lemma_colon_positions(t, t.len() as int);
    if t.len() > 0 {
        match first_existing(existing, ps.len() as int, 0) {
            Some(k) => {
                lemma_first_existing(existing, ps.len() as int, 0);
                let p = ps[k];
                assert(t[p] == ':');
                assert(t.take(p) + seq![':'] + t.skip(p + 1) =~= t);
            },
            None => {
                crate::text::lemma_rfind_char(t, ':');
                match crate::text::rfind_char(t, ':') {
                    Some(i) => {
                        assert(t.take(i) + seq![':'] + t.skip(i + 1) =~= t);
                    },
                    None => {},
                }
            },
        }
    }
}

proof fn lemma_first_existing(existing: Seq<bool>, count: int, k: int)
    requires
        0 <= k,
    ensures
        first_existing(existing, count, k) matches Some(j) ==> k <= j < count,
    decreases count - k,
{
    if k < count && k < existing.len() && !existing[k] {
        lemma_first_existing(existing, count, k + 1);
    }
}

proof fn lemma_escape_newlines_one_line(s: Seq<char>)
    ensures
        one_line(escape_newlines(s)),
    decreases s.len(),
{
    if s.len() == 0 {
        lemma_one_line_chars(escape_newlines(s));
    } else {
        let head: Seq<char> = if s.len() >= 2 && s[0] == '\r' && s[1] == '\n' {
            lemma_escape_newlines_one_line(s.skip(2));
            seq!['\\', 'n']
        } else if s[0] == '\r' || s[0] == '\n' {
            lemma_escape_newlines_one_line(s.skip(1));
            seq!['\\', 'n']
        } else {
            lemma_escape_newlines_one_line(s.skip(1));
            seq![s[0]]
        };
        assert forall|i: int| 0 <= i < head.len() implies head[i] != '\n' && head[i] != '\r' by {}
        lemma_one_line_chars(head);
        if s.len() >= 2 && s[0] == '\r' && s[1] == '\n' {
            lemma_concat_one_line(head, escape_newlines(s.skip(2)));
        } else {
            lemma_concat_one_line(head, escape_newlines(s.skip(1)));
        }
    }
}

/// The text written for a valid JSON value in a `key: value` line holds no line break:
/// a string's line breaks are escaped, `null` writes nothing, and numbers, arrays and
/// objects are written compactly with their strings quoted.
pub proof fn law_meta_value_is_one_line(v: Json)
    requires
        json_valid(v),
    ensures
        one_line(normalized(v)),
{
    match v {
        Json::Str(s) => lemma_escape_newlines_one_line(s),
        Json::Null => lemma_one_line_chars(normalized(v)),
        Json::Bool(b) => {
            assert forall|i: int| 0 <= i < literal_bool(b).len() implies literal_bool(b)[i] != '\n'
                && literal_bool(b)[i] != '\r' by {}
            lemma_one_line_chars(literal_bool(b));
        },
        Json::Number(t) => crate::json::lemma_number_text_one_line(t),
        _ => crate::json::law_compact_is_one_line(v),
    }
}

/// A `key: value` line written into a block stays one line, for a key without line
/// breaks and any valid value.
pub proof fn law_field_line_is_one_line(k: Seq<char>, v: Json)
    requires
        one_line(k),
        json_valid(v),
    ensures
        one_line(field_line(k, v)),
{
    law_meta_value_is_one_line(v);
    let sep = seq![':', ' '];
    assert forall|i: int| 0 <= i < sep.len() implies sep[i] != '\n' && sep[i] != '\r' by {}
    lemma_one_line_chars(sep);
    lemma_concat_one_line(k, sep);
    lemma_concat_one_line(k + sep, normalized(v));
}


/// A line of a `meta` block gives an entry when, trimmed, it is neither empty nor a `#`
/// comment: the trimmed text before its first colon is the key (it must not be empty) and
/// the trimmed text after that colon the value.
pub proof fn law_meta_line_first_colon(l: Seq<char>)
    ensures
        trim(l).len() == 0 ==> meta_line(l) is None,
        trim(l).len() > 0 && trim(l)[0] == '#' ==> meta_line(l) is None,
        forall|k: Seq<char>, v: Seq<char>|
            trim(l).len() > 0 && trim(l)[0] != '#' && split_once(trim(l), ':') == Some((k, v))
                ==> meta_line(l) == (if trim(k).len() > 0 {
                Some((trim(k), trim(v)))
            } else {
                None
            }),
        trim(l).len() > 0 && split_once(trim(l), ':') is None ==> meta_line(l) is None,
{
}

} // verus!
