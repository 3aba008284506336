//! Updating a Markdown document from JSON: a section's `meta` block names a JSON value
//! (`match`) and a target fenced block (`to`); the value is written into that block,
//! which is overwritten in place or created at the end of the section.
use vstd::prelude::*;
use crate::markdown::{lemma_first_close, fence, after_fence, all_blank, line_views, meta_blocks, meta_entries, named_block, find_meta_blocks, parse_meta, find_named_code_block, first_close, is_code_close, is_meta_open, code_open_language, after_block};
use crate::meta_map::{map_get, entries_lookup};
use crate::text::{trim, trim_str, chars_of, CharClass, trim_range, push_str, owned, lines, lines_of, find_char, is_ws, in_class, lead_len};
use crate::json::JsonValue;
use crate::json_format::{format_json, format_value, depth};

verus! {

pub proof fn lemma_first_close_bounds(ls: Seq<Seq<char>>, from: int, end: int)
    ensures
        first_close(ls, from, end) matches Some(j) ==> from <= j < end,
    decreases end - from,
{
    if from < end {
        lemma_first_close_bounds(ls, from + 1, end);
    }
}

pub proof fn lemma_meta_blocks_bounds(ls: Seq<Seq<char>>, i: int, end: int)
    ensures
        forall|k: int|
            0 <= k < meta_blocks(ls, i, end).len() ==> i <= (#[trigger] meta_blocks(ls, i, end)[k]).0
                < meta_blocks(ls, i, end)[k].1 < end,
    decreases end - i,
{
    if i < end {
        if !is_meta_open(ls[i]) {
            lemma_meta_blocks_bounds(ls, i + 1, end);
            assert(meta_blocks(ls, i, end) == meta_blocks(ls, i + 1, end));
        } else {
            lemma_first_close_bounds(ls, i + 1, end);
            match first_close(ls, i + 1, end) {
                Some(j) => {
                    if i < j < end {
                        lemma_meta_blocks_bounds(ls, j + 1, end);
                        let rest = meta_blocks(ls, j + 1, end);
                        assert forall|k: int|
                            0 <= k < meta_blocks(ls, i, end).len() implies i <= (
                            #[trigger] meta_blocks(ls, i, end)[k]).0 < meta_blocks(ls, i, end)[k].1
                            < end by {
                            if k > 0 {
                                assert(meta_blocks(ls, i, end)[k] == rest[k - 1]);
                            }
                        }
                    }
                },
                None => {},
            }
        }
    }
}

pub proof fn lemma_named_block_bounds(ls: Seq<Seq<char>>, i: int, end: int, target: Seq<char>)
    ensures
        named_block(ls, i, end, target) matches Some((a, b)) ==> i <= a < b < end,
    decreases end + 1 - i,
{
    if i < end {
        lemma_first_close_bounds(ls, i + 1, end);
        if is_meta_open(ls[i]) {
            if i < after_block(ls, i, end) <= end + 1 {
                lemma_named_block_bounds(ls, after_block(ls, i, end), end, target);
            }
        } else {
            match code_open_language(ls[i]) {
                Some(lang) => {
                    if lang != target && i < after_block(ls, i, end) <= end + 1 {
                        lemma_named_block_bounds(ls, after_block(ls, i, end), end, target);
                    }
                },
                None => {
                    lemma_named_block_bounds(ls, i + 1, end, target);
                },
            }
        }
    }
}

pub open spec fn key_match() -> Seq<char> {
    seq!['m', 'a', 't', 'c', 'h']
}

pub open spec fn key_to() -> Seq<char> {
    seq!['t', 'o']
}

/// What a section asks for: the `match` value and the trimmed `to` target of its first
/// `meta` block, when both are present and the target is not blank.
pub open spec fn section_request(ls: Seq<Seq<char>>, start: int, end: int) -> Option<
    (Seq<char>, Seq<char>),
> {
    let blocks = meta_blocks(ls, start, end);
    if blocks.len() == 0 {
        None
    } else {
        let m = meta_entries(ls.subrange(blocks[0].0 + 1, blocks[0].1));
        match (entries_lookup(m, key_match()), entries_lookup(m, key_to())) {
            (Some(mv), Some(tv)) => {
                if trim(tv).len() > 0 {
                    Some((mv, trim(tv)))
                } else {
                    None
                }
            },
            _ => None,
        }
    }
}

/// A copy of the lines `lo..hi`.
pub fn lines_between(lines: &[String], lo: usize, hi: usize) -> (r: Vec<String>)
    requires
        lo <= hi <= lines@.len(),
    ensures
        line_views(r@) == line_views(lines@).subrange(lo as int, hi as int),
{
    let mut out: Vec<String> = Vec::new();
    let mut i = lo;
    while i < hi
        invariant
            lo <= i <= hi <= lines@.len(),
            line_views(out@) == line_views(lines@).subrange(lo as int, i as int),
        decreases hi - i,
    {
        let ghost before = out@;
        out.push(lines[i].clone());
        assert(line_views(out@) =~= line_views(before).push(lines@[i as int]@));
        assert(line_views(lines@).subrange(lo as int, i + 1) =~= line_views(lines@).subrange(
            lo as int,
            i as int,
        ).push(lines@[i as int]@));
        i = i + 1;
    }
    out
}

/// The `match` value and the target block of the section `start..end`, if its first
/// `meta` block names both.
pub fn section_target(lines: &[String], start: usize, end: usize) -> (r: Option<(String, String)>)
    requires
        start < end ==> end <= lines@.len(),
    ensures
        match r {
            Some((m, t)) => section_request(line_views(lines@), start as int, end as int) == Some(
                (m@, t@),
            ),
            None => section_request(line_views(lines@), start as int, end as int) == None::<
                (Seq<char>, Seq<char>),
            >,
        },
{
    let ghost ls = line_views(lines@);
    let blocks = find_meta_blocks(lines, start, end);
    proof {
        lemma_meta_blocks_bounds(ls, start as int, end as int);
    }
    if blocks.len() == 0 {
        return None;
    }
    let (ms, me) = blocks[0];
    assert(blocks@.map_values(|p: (usize, usize)| (p.0 as int, p.1 as int))[0] == (
        ms as int,
        me as int,
    ));
    let inner = lines_between(lines, ms + 1, me);
    let meta = parse_meta(&inner);
    let m = map_get(&meta, "match");
    let t = map_get(&meta, "to");
    proof {
        reveal_strlit("match");
        reveal_strlit("to");
        assert("match"@ =~= key_match());
        assert("to"@ =~= key_to());
    }
    match (m, t) {
        (Some(mv), Some(tv)) => {
            let target = trim_str(tv.as_str());
            let tc = chars_of(target.as_str());
            if tc.len() == 0 {
                None
            } else {
                Some((mv.clone(), target))
            }
        },
        _ => None,
    }
}

/// Where a new block goes: before the blank lines that end the section.
pub open spec fn insert_point(ls: Seq<Seq<char>>, start: int, at: int) -> int
    decreases at - start,
{
    if at > start && trim(ls[at - 1]).len() == 0 {
        insert_point(ls, start, at - 1)
    } else {
        at
    }
}

pub open spec fn fence_line(target: Seq<char>) -> Seq<char> {
    seq!['`', '`', '`'] + target
}

/// The lines of a new block: an empty line when text precedes it, the opening fence
/// with the target, the content, the closing fence and an empty line.
pub open spec fn new_block(
    ls: Seq<Seq<char>>,
    start: int,
    at: int,
    target: Seq<char>,
    content: Seq<Seq<char>>,
) -> Seq<Seq<char>> {
    (if at > start {
        seq![Seq::<char>::empty()]
    } else {
        Seq::empty()
    }) + seq![fence_line(target)] + content + seq![seq!['`', '`', '`'], Seq::<char>::empty()]
}

/// The document after writing `content` into the block `target` of the section `start..end`.
pub open spec fn applied(
    ls: Seq<Seq<char>>,
    start: int,
    end: int,
    target: Seq<char>,
    content: Seq<Seq<char>>,
) -> Seq<Seq<char>> {
    match named_block(ls, start, end, target) {
        Some((a, b)) => ls.take(a + 1) + content + ls.skip(b),
        None => {
            let at = insert_point(ls, start, end);
            ls.take(at) + new_block(ls, start, at, target, content) + ls.skip(at)
        },
    }
}

proof fn lemma_insert_point(ls: Seq<Seq<char>>, start: int, at: int)
    requires
        start <= at,
    ensures
        start <= insert_point(ls, start, at) <= at,
        insert_point(ls, start, at) > start ==> trim(ls[insert_point(ls, start, at) - 1]).len()
            > 0,
    decreases at - start,
{
    if at > start && trim(ls[at - 1]).len() == 0 {
        lemma_insert_point(ls, start, at - 1);
    }
}

/// `lines[..a] ++ middle ++ lines[b..]`.
fn splice(lines: &Vec<String>, a: usize, b: usize, middle: Vec<String>) -> (r: Vec<String>)
    requires
        a <= b <= lines@.len(),
    ensures
        line_views(r@) == line_views(lines@).take(a as int) + line_views(middle@) + line_views(
            lines@,
        ).skip(b as int),
{
    let mut out: Vec<String> = Vec::new();
    let mut i: usize = 0;
    while i < a
        invariant
            i <= a <= lines@.len(),
            line_views(out@) == line_views(lines@).take(i as int),
        decreases a - i,
    {
        let ghost before = out@;
        out.push(lines[i].clone());
        assert(line_views(out@) =~= line_views(before).push(lines@[i as int]@));
        assert(line_views(lines@).take(i + 1) =~= line_views(lines@).take(i as int).push(
            lines@[i as int]@,
        ));
        i = i + 1;
    }
    let ghost head = line_views(out@);
    let mut j: usize = 0;
    while j < middle.len()
        invariant
            j <= middle@.len(),
            line_views(out@) == head + line_views(middle@).take(j as int),
        decreases middle@.len() - j,
    {
        let ghost before = out@;
        out.push(middle[j].clone());
        assert(line_views(out@) =~= line_views(before).push(middle@[j as int]@));
        assert(line_views(middle@).take(j + 1) =~= line_views(middle@).take(j as int).push(
            middle@[j as int]@,
        ));
        j = j + 1;
    }
    assert(line_views(middle@).take(j as int) =~= line_views(middle@));
    let ghost mid = line_views(out@);
    let mut k = b;
    while k < lines.len()
        invariant
            b <= k <= lines@.len(),
            line_views(out@) == mid + line_views(lines@).subrange(b as int, k as int),
        decreases lines@.len() - k,
    {
        let ghost before = out@;
        out.push(lines[k].clone());
        assert(line_views(out@) =~= line_views(before).push(lines@[k as int]@));
        assert(line_views(lines@).subrange(b as int, k + 1) =~= line_views(lines@).subrange(
            b as int,
            k as int,
        ).push(lines@[k as int]@));
        k = k + 1;
    }
    assert(line_views(lines@).subrange(b as int, k as int) =~= line_views(lines@).skip(b as int));
    out
}

fn is_blank_line(l: &String) -> (b: bool)
    ensures
        b == (trim(l@).len() == 0),
{
    let c = chars_of(l.as_str());
    let (a, e) = trim_range(&c, 0, c.len(), CharClass::Whitespace);
    assert(c@.subrange(0, c@.len() as int) =~= c@);
    a == e
}

/// Writes `content` into the block `target` of the section `start..end`: between the fences
/// of the first such block, or as a new block after the section's last nonblank line.
pub fn apply_block(
    lines: &mut Vec<String>,
    start: usize,
    end: usize,
    target: &str,
    content: Vec<String>,
)
    requires
        start <= end <= old(lines)@.len(),
    ensures
        line_views(final(lines)@) == applied(
            line_views(old(lines)@),
            start as int,
            end as int,
            target@,
            line_views(content@),
        ),
{
    let ghost ls = line_views(lines@);
    proof {
        lemma_named_block_bounds(ls, start as int, end as int, target@);
    }
    match find_named_code_block(lines, start, end, target) {
        Some((a, b)) => {
            let r = splice(lines, a + 1, b, content);
            *lines = r;
        },
        None => {
            let mut at = end;
            while at > start && is_blank_line(&lines[at - 1])
                invariant
                    start <= at <= end <= lines@.len(),
                    ls == line_views(lines@),
                    insert_point(ls, start as int, end as int) == insert_point(
                        ls,
                        start as int,
                        at as int,
                    ),
                decreases at,
            {
                at = at - 1;
            }
            let mut block: Vec<String> = Vec::new();
            if at > start {
                block.push(String::new());
            }
            let mut open = owned("```");
            push_str(&mut open, target);
            proof {
                reveal_strlit("```");
                assert(open@ =~= fence_line(target@));
            }
            let ghost b0 = line_views(block@);
            block.push(open);
            assert(line_views(block@) =~= b0.push(fence_line(target@)));
            let ghost pre = line_views(block@);
            let mut j: usize = 0;
            while j < content.len()
                invariant
                    j <= content@.len(),
                    line_views(block@) == pre + line_views(content@).take(j as int),
                decreases content@.len() - j,
            {
                let ghost before = block@;
                block.push(content[j].clone());
                assert(line_views(block@) =~= line_views(before).push(content@[j as int]@));
                assert(line_views(content@).take(j + 1) =~= line_views(content@).take(
                    j as int,
                ).push(content@[j as int]@));
                j = j + 1;
            }
            let ghost b1 = line_views(block@);
            let close = owned("```");
            proof {
                reveal_strlit("```");
                assert(close@ =~= seq!['`', '`', '`']);
            }
            block.push(close);
            block.push(String::new());
            assert(line_views(block@) =~= b1.push(seq!['`', '`', '`']).push(Seq::<char>::empty()));
            proof {
                assert(line_views(content@).take(j as int) =~= line_views(content@));
                assert(line_views(block@) =~= new_block(
                    ls,
                    start as int,
                    at as int,
                    target@,
                    line_views(content@),
                ));
            }
            let r = splice(lines, at, at, block);
            *lines = r;
        },
    }
}

/// Whether `t` holds `\r\n` at `i`.
pub open spec fn crlf_at(t: Seq<char>, i: int) -> bool {
    0 <= i < t.len() - 1 && t[i] == '\r' && t[i + 1] == '\n'
}

/// The line break of a text: `\r\n` if it holds one, else `\r` if it holds one, else `\n`.
pub open spec fn newline_of(text: Seq<char>) -> Seq<char> {
    if exists|i: int| crlf_at(text, i) {
        seq!['\r', '\n']
    } else if text.contains('\r') {
        seq!['\r']
    } else {
        seq!['\n']
    }
}

/// The line break used to write a document back.
pub fn detect_newline(text: &str) -> (r: String)
    ensures
        r@ == newline_of(text@),
{
    let c = chars_of(text);
    let mut i: usize = 0;
    let mut has_cr = false;
    while i < c.len()
        invariant
            i <= c@.len(),
            c@ == text@,
            forall|j: int| 0 <= j < i ==> !crlf_at(c@, j),
            has_cr == exists|j: int| 0 <= j < i && c@[j] == '\r',
        decreases c@.len() - i,
    {
        if c[i] == '\r' {
            if i + 1 < c.len() && c[i + 1] == '\n' {
                let mut r = String::new();
                crate::text::push_char(&mut r, '\r');
                crate::text::push_char(&mut r, '\n');
                assert(crlf_at(text@, i as int));
                assert(r@ =~= seq!['\r', '\n']);
                return r;
            }
            has_cr = true;
        }
        i = i + 1;
    }
    let mut r = String::new();
    assert(!exists|j: int| crlf_at(text@, j));
    if has_cr {
        crate::text::push_char(&mut r, '\r');
        assert(text@.contains('\r'));
        assert(r@ =~= seq!['\r']);
    } else {
        crate::text::push_char(&mut r, '\n');
        assert(!text@.contains('\r'));
        assert(r@ =~= seq!['\n']);
    }
    r
}

/// Whether the text ends with a line break.
pub fn ends_with_newline(text: &str) -> (b: bool)
    ensures
        b == (text@.len() > 0 && (text@.last() == '\n' || text@.last() == '\r')),
{
    let c = chars_of(text);
    c.len() > 0 && (c[c.len() - 1] == '\n' || c[c.len() - 1] == '\r')
}

/// The lines joined with `sep` between them.
pub open spec fn joined(ls: Seq<Seq<char>>, sep: Seq<char>) -> Seq<char>
    decreases ls.len(),
{
    if ls.len() == 0 {
        seq![]
    } else if ls.len() == 1 {
        ls[0]
    } else {
        joined(ls.drop_last(), sep) + sep + ls.last()
    }
}

/// `lines.join(sep)`.
pub fn join_lines(lines: &[String], sep: &str) -> (r: String)
    ensures
        r@ == joined(line_views(lines@), sep@),
{
    let ghost ls = line_views(lines@);
    let mut out = String::new();
    let mut i: usize = 0;
    while i < lines.len()
        invariant
            i <= lines@.len(),
            ls == line_views(lines@),
            out@ == joined(ls.take(i as int), sep@),
        decreases lines@.len() - i,
    {
        if i > 0 {
            push_str(&mut out, sep);
        }
        push_str(&mut out, lines[i].as_str());
        assert(ls.take(i + 1).drop_last() =~= ls.take(i as int));
        assert(ls.take(i + 1).last() == lines@[i as int]@);
        i = i + 1;
    }
    assert(ls.take(i as int) =~= ls);
    out
}

proof fn lemma_first_close_agree(
    ls: Seq<Seq<char>>,
    ls2: Seq<Seq<char>>,
    from: int,
    end: int,
    end2: int,
    j: int,
)
    requires
        first_close(ls, from, end) == Some(j),
        j < end2,
        forall|k: int| from <= k <= j ==> ls2[k] == ls[k],
    ensures
        first_close(ls2, from, end2) == Some(j),
    decreases j - from,
{
    lemma_first_close(ls, from, end);
    if from < j {
        lemma_first_close_agree(ls, ls2, from + 1, end, end2, j);
    }
}

/// The scan for a named block depends only on the lines up to the block it finds, and on
/// where that block closes.
proof fn lemma_named_block_prefix(
    ls: Seq<Seq<char>>,
    ls2: Seq<Seq<char>>,
    i: int,
    end: int,
    end2: int,
    target: Seq<char>,
    a: int,
    b: int,
    b2: int,
)
    requires
        named_block(ls, i, end, target) == Some((a, b)),
        i <= a < end2,
        forall|k: int| i <= k <= a ==> ls2[k] == ls[k],
        first_close(ls2, a + 1, end2) == Some(b2),
    ensures
        named_block(ls2, i, end2, target) == Some((a, b2)),
    decreases a - i,
{
    lemma_first_close(ls, i + 1, end);
    if is_meta_open(ls[i]) {
        let next = after_block(ls, i, end);
        lemma_named_block_bounds(ls, next, end, target);
        let j = next - 1;
        assert(first_close(ls, i + 1, end) == Some(j));
        lemma_first_close_agree(ls, ls2, i + 1, end, end2, j);
        lemma_named_block_prefix(ls, ls2, next, end, end2, target, a, b, b2);
    } else {
        match code_open_language(ls[i]) {
            Some(lang) => {
                if lang == target {
                    assert(a == i);
                } else {
                    let next = after_block(ls, i, end);
                    lemma_named_block_bounds(ls, next, end, target);
                    let j = next - 1;
                    assert(first_close(ls, i + 1, end) == Some(j));
                    lemma_first_close_agree(ls, ls2, i + 1, end, end2, j);
                    lemma_named_block_prefix(ls, ls2, next, end, end2, target, a, b, b2);
                }
            },
            None => {
                lemma_named_block_bounds(ls, i + 1, end, target);
                lemma_named_block_prefix(ls, ls2, i + 1, end, end2, target, a, b, b2);
            },
        }
    }
}

/// Overwriting a block reads back: once `content` (with no closing fence among its lines)
/// is written into the block `target` that a section already has, the same search over the
/// section, now longer or shorter by the change in the block's size, finds that block at
/// the same line holding exactly `content`, and the lines before and after it are as they
/// were.
pub proof fn law_overwrite_reads_back(
    ls: Seq<Seq<char>>,
    start: int,
    end: int,
    target: Seq<char>,
    content: Seq<Seq<char>>,
)
    requires
        0 <= start <= end <= ls.len(),
        named_block(ls, start, end, target) is Some,
        forall|k: int| 0 <= k < content.len() ==> !is_code_close(#[trigger] content[k]),
    ensures
        ({
            let (a, b) = named_block(ls, start, end, target)->0;
            let ls2 = applied(ls, start, end, target, content);
            let end2 = end + content.len() - (b - a - 1);
            &&& named_block(ls2, start, end2, target) == Some((a, a + 1 + content.len()))
            &&& ls2.subrange(a + 1, a + 1 + content.len()) == content
            &&& ls2.take(a + 1) == ls.take(a + 1)
            &&& ls2.skip(a + 1 + content.len()) == ls.skip(b)
        }),
{
    let (a, b) = named_block(ls, start, end, target)->0;
    lemma_named_block_bounds(ls, start, end, target);
    let n = content.len() as int;
    let ls2 = applied(ls, start, end, target, content);
    let end2 = end + n - (b - a - 1);
    assert(ls2 == ls.take(a + 1) + content + ls.skip(b));
    // Where the block was found, it closes at `b`.
    lemma_named_block_shape(ls, start, end, target);
    assert(first_close(ls, a + 1, end) == Some(b));
    lemma_first_close(ls, a + 1, end);
    assert forall|k: int| a + 1 <= k < a + 1 + n implies !is_code_close(#[trigger] ls2[k]) by {
        assert(ls2[k] == content[k - a - 1]);
    }
    assert(ls2[a + 1 + n] == ls[b]);
    lemma_first_close_at(ls2, a + 1, end2, a + 1 + n);
    assert forall|k: int| start <= k <= a implies ls2[k] == ls[k] by {}
    lemma_named_block_prefix(ls, ls2, start, end, end2, target, a, b, a + 1 + n);
    assert(ls2.subrange(a + 1, a + 1 + n) =~= content);
    assert(ls2.take(a + 1) =~= ls.take(a + 1));
    assert(ls2.skip(a + 1 + n) =~= ls.skip(b));
}

proof fn lemma_first_close_at(ls: Seq<Seq<char>>, from: int, end: int, j: int)
    requires
        from <= j < end,
        is_code_close(ls[j]),
        forall|k: int| from <= k < j ==> !is_code_close(#[trigger] ls[k]),
    ensures
        first_close(ls, from, end) == Some(j),
    decreases j - from,
{
    if from < j {
        lemma_first_close_at(ls, from + 1, end, j);
    }
}

/// A block that the search finds closes at the first closing fence after its opening line.
proof fn lemma_named_block_shape(ls: Seq<Seq<char>>, i: int, end: int, target: Seq<char>)
    ensures
        named_block(ls, i, end, target) matches Some((a, b)) ==> first_close(ls, a + 1, end) == Some(b),
    decreases end + 1 - i,
{
    if i < end {
        if is_meta_open(ls[i]) {
            if i < after_block(ls, i, end) <= end + 1 {
                lemma_named_block_shape(ls, after_block(ls, i, end), end, target);
            }
        } else {
            match code_open_language(ls[i]) {
                Some(lang) => {
                    if lang != target && i < after_block(ls, i, end) <= end + 1 {
                        lemma_named_block_shape(ls, after_block(ls, i, end), end, target);
                    }
                },
                None => {
                    lemma_named_block_shape(ls, i + 1, end, target);
                },
            }
        }
    }
}

/// Writes a JSON value, pretty-printed within 80 columns, into the block `target` of the
/// section `start..end` (see `apply_block`).
pub fn fill_block(doc: &mut Vec<String>, start: usize, end: usize, target: &str, value: &JsonValue)
    requires
        start <= end <= old(doc)@.len(),
        2 * depth(value@) <= usize::MAX,
    ensures
        line_views(final(doc)@) == applied(
            line_views(old(doc)@),
            start as int,
            end as int,
            target@,
            lines(format_value(value@, 0, 80)),
        ),
{
    let text = format_json(value, 80);
    let content = lines_of(text.as_str());
    assert(line_views(content@) =~= lines(format_value(value@, 0, 80)));
    apply_block(doc, start, end, target, content);
}

proof fn lemma_joined_cons(a: Seq<char>, rest: Seq<Seq<char>>, sep: Seq<char>)
    ensures
        joined(seq![a] + rest, sep) == if rest.len() == 0 {
            a
        } else {
            a + sep + joined(rest, sep)
        },
    decreases rest.len(),
{
    let s = seq![a] + rest;
    if rest.len() == 1 {
        assert(s.drop_last() =~= seq![a]);
        assert(rest.drop_last() =~= Seq::<Seq<char>>::empty());
        assert(joined(rest, sep) == rest[0]);
        assert(joined(seq![a], sep) == a);
        assert(joined(s, sep) == joined(s.drop_last(), sep) + sep + s.last());
    } else if rest.len() > 1 {
        lemma_joined_cons(a, rest.drop_last(), sep);
        assert(s.drop_last() =~= seq![a] + rest.drop_last());
        assert(s.last() == rest.last());
        assert(joined(s, sep) == joined(s.drop_last(), sep) + sep + s.last());
        assert(joined(rest, sep) == joined(rest.drop_last(), sep) + sep + rest.last());
        assert(a + sep + joined(rest.drop_last(), sep) + sep + rest.last() =~= a + sep + (joined(
            rest.drop_last(),
            sep,
        ) + sep + rest.last()));
    } else {
        assert(s =~= seq![a]);
    }
}

/// The final line break that a document had, written back.
pub open spec fn trailing_break(text: Seq<char>, newline: Seq<char>) -> Seq<char> {
    if text.len() > 0 && (text.last() == '\n' || text.last() == '\r') {
        newline
    } else {
        seq![]
    }
}

proof fn lemma_lf_round_trip(t: Seq<char>)
    requires
        !t.contains('\r'),
    ensures
        joined(lines(t), seq!['\n']) + trailing_break(t, seq!['\n']) == t,
    decreases t.len(),
{
    if t.len() == 0 {
        assert(lines(t) =~= Seq::<Seq<char>>::empty());
    } else {
        crate::text::lemma_find_char(t, '\n');
        match find_char(t, '\n') {
            Some(i) => {
                let head = t.take(i);
                let rest = t.skip(i + 1);
                if head.len() > 0 {
                    assert(!(head.last() == '\r')) by {
                        assert(head.last() == t[i - 1]);
                        if t[i - 1] == '\r' {
                            assert(t.contains('\r'));
                        }
                    }
                }
                assert(crate::text::strip_cr(head) == head);
                assert(lines(t) == seq![head] + lines(rest));
                lemma_joined_cons(head, lines(rest), seq!['\n']);
                assert(!rest.contains('\r')) by {
                    if rest.contains('\r') {
                        let k = choose|k: int| 0 <= k < rest.len() && rest[k] == '\r';
                        assert(t[i + 1 + k] == '\r');
                    }
                }
                if rest.len() == 0 {
                    assert(lines(rest) =~= Seq::<Seq<char>>::empty());
                    assert(t.last() == '\n');
                    assert(head + seq!['\n'] =~= t);
                } else {
                    lemma_lf_round_trip(rest);
                    assert(lines(rest).len() > 0);
                    assert(t.last() == rest.last());
                    assert(trailing_break(t, seq!['\n']) == trailing_break(rest, seq!['\n']));
                    assert(head + seq!['\n'] + joined(lines(rest), seq!['\n']) + trailing_break(
                        rest,
                        seq!['\n'],
                    ) =~= head + seq!['\n'] + (joined(lines(rest), seq!['\n']) + trailing_break(
                        rest,
                        seq!['\n'],
                    )));
                    assert(head + seq!['\n'] + rest =~= t);
                }
            },
            None => {
                assert(lines(t) == seq![t]);
                assert(joined(seq![t], seq!['\n']) == t);
                assert(t.last() != '\n');
                assert(t.last() != '\r') by {
                    assert(t[t.len() - 1] == t.last());
                }
                assert(t + Seq::<char>::empty() =~= t);
            },
        }
    }
}

/// A document with `\n` line breaks is written back unchanged: its lines, joined with the
/// line break that `detect_newline` finds, followed by that break when the document ended
/// with one, give the document again.
pub proof fn law_lf_document_round_trip(t: Seq<char>)
    requires
        !t.contains('\r'),
    ensures
        joined(lines(t), newline_of(t)) + trailing_break(t, newline_of(t)) == t,
{
    assert(!exists|i: int| crlf_at(t, i)) by {
        if exists|i: int| crlf_at(t, i) {
            let i = choose|i: int| crlf_at(t, i);
            assert(t[i] == '\r');
        }
    }
    assert(newline_of(t) == seq!['\n']);
    lemma_lf_round_trip(t);
}

/// Every line break of the text is `\r\n`: each `\n` follows a `\r` and each `\r` precedes
/// a `\n`.
pub open spec fn crlf_only(t: Seq<char>) -> bool {
    &&& forall|i: int| 0 <= i < t.len() && #[trigger] t[i] == '\n' ==> i > 0 && t[i - 1] == '\r'
    &&& forall|i: int| 0 <= i < t.len() && #[trigger] t[i] == '\r' ==> i + 1 < t.len() && t[i + 1]
        == '\n'
}

#[verifier::rlimit(50)]
proof fn lemma_crlf_round_trip(t: Seq<char>)
    requires
        crlf_only(t),
    ensures
        joined(lines(t), seq!['\r', '\n']) + trailing_break(t, seq!['\r', '\n']) == t,
    decreases t.len(),
{
    let nl = seq!['\r', '\n'];
    if t.len() == 0 {
        assert(lines(t) =~= Seq::<Seq<char>>::empty());
    } else {
        crate::text::lemma_find_char(t, '\n');
        match find_char(t, '\n') {
            Some(i) => {
                assert(i > 0 && t[i - 1] == '\r');
                let head = t.take(i);
                let rest = t.skip(i + 1);
                assert(head.last() == '\r');
                assert(crate::text::strip_cr(head) == t.take(i - 1));
                assert(lines(t) == seq![t.take(i - 1)] + lines(rest));
                lemma_joined_cons(t.take(i - 1), lines(rest), nl);
                assert(crlf_only(rest)) by {
                    assert forall|k: int| 0 <= k < rest.len() && #[trigger] rest[k] == '\n' implies k > 0
                        && rest[k - 1] == '\r' by {
                        assert(rest[k] == t[i + 1 + k]);
                        if k == 0 {
                            assert(t[i] == '\n');
                        } else {
                            assert(rest[k - 1] == t[i + k]);
                        }
                    }
                    assert forall|k: int| 0 <= k < rest.len() && #[trigger] rest[k] == '\r' implies k + 1
                        < rest.len() && rest[k + 1] == '\n' by {
                        assert(rest[k] == t[i + 1 + k]);
                        assert(t[i + 2 + k] == '\n');
                    }
                }
                if rest.len() == 0 {
                    assert(lines(rest) =~= Seq::<Seq<char>>::empty());
                    assert(t.last() == '\n');
                    assert(t.take(i - 1) + nl =~= t);
                } else {
                    lemma_crlf_round_trip(rest);
                    assert(lines(rest).len() > 0);
                    assert(t.last() == rest.last());
                    assert(trailing_break(t, nl) == trailing_break(rest, nl));
                    assert(t.take(i - 1) + nl + joined(lines(rest), nl) + trailing_break(rest, nl)
                        =~= t.take(i - 1) + nl + (joined(lines(rest), nl) + trailing_break(
                        rest,
                        nl,
                    )));
                    assert(t.take(i - 1) + nl + rest =~= t);
                }
            },
            None => {
                assert(lines(t) == seq![t]);
                assert(joined(seq![t], nl) == t);
                assert(t.last() != '\n');
                assert(t.last() != '\r') by {
                    if t[t.len() - 1] == '\r' {
                        assert(t.len() - 1 + 1 < t.len());
                    }
                }
                assert(t + Seq::<char>::empty() =~= t);
            },
        }
    }
}

/// A document whose line breaks are all `\r\n` is written back unchanged: its lines,
/// joined with the line break that `detect_newline` finds, followed by that break when the
/// document ended with one, give the document again.
pub proof fn law_crlf_document_round_trip(t: Seq<char>)
    requires
        crlf_only(t),
    ensures
        joined(lines(t), newline_of(t)) + trailing_break(t, newline_of(t)) == t,
{
    if exists|i: int| crlf_at(t, i) {
        assert(newline_of(t) == seq!['\r', '\n']);
        lemma_crlf_round_trip(t);
    } else {
        assert(!t.contains('\r')) by {
            if t.contains('\r') {
                let k = choose|k: int| 0 <= k < t.len() && t[k] == '\r';
                assert(crlf_at(t, k));
            }
        }
        law_lf_document_round_trip(t);
    }
}

/// Whether the search for fenced blocks, started at line `i`, reaches line `at` exactly:
/// every block opened before `at` is closed before it.
pub open spec fn scan_reaches(ls: Seq<Seq<char>>, i: int, at: int) -> bool
    decreases at - i,
{
    if i >= at {
        i == at
    } else if is_meta_open(ls[i]) || code_open_language(ls[i]) is Some {
        match first_close(ls, i + 1, at) {
            Some(j) => if i < j < at {
                scan_reaches(ls, j + 1, at)
            } else {
                false
            },
            None => false,
        }
    } else {
        scan_reaches(ls, i + 1, at)
    }
}

/// Where the search has not found the block, it goes on past `at` in the longer document
/// exactly as it would from `at`.
proof fn lemma_scan_to_insert_point(
    ls: Seq<Seq<char>>,
    ls2: Seq<Seq<char>>,
    i: int,
    at: int,
    end: int,
    end2: int,
    target: Seq<char>,
)
    requires
        0 <= i <= at <= end,
        at < end2,
        scan_reaches(ls, i, at),
        named_block(ls, i, end, target) is None,
        forall|k: int| 0 <= k < at ==> ls2[k] == ls[k],
    ensures
        named_block(ls2, i, end2, target) == named_block(ls2, at, end2, target),
    decreases at - i,
{
    if i < at {
        assert(ls2[i] == ls[i]);
        if is_meta_open(ls[i]) || code_open_language(ls[i]) is Some {
            assert(first_close(ls, i + 1, at) is Some);
            let j = first_close(ls, i + 1, at)->0;
            assert(i < j < at);
            assert forall|k: int| i + 1 <= k <= j implies ls2[k] == ls[k] by {}
            lemma_first_close_agree(ls, ls, i + 1, at, end, j);
            lemma_first_close_agree(ls, ls2, i + 1, at, end2, j);
            assert(after_block(ls, i, end) == j + 1);
            assert(after_block(ls2, i, end2) == j + 1);
            if !is_meta_open(ls[i]) {
                let lang = code_open_language(ls[i])->0;
                assert(lang != target);
            }
            assert(named_block(ls, j + 1, end, target) is None);
            assert(scan_reaches(ls, j + 1, at));
            lemma_scan_to_insert_point(ls, ls2, j + 1, at, end, end2, target);
            assert(named_block(ls2, i, end2, target) == named_block(ls2, j + 1, end2, target));
        } else {
            assert(named_block(ls, i + 1, end, target) is None);
            lemma_scan_to_insert_point(ls, ls2, i + 1, at, end, end2, target);
        }
    }
}

proof fn lemma_all_in_class(s: Seq<char>, cls: CharClass)
    requires
        lead_len(s, cls) == s.len(),
    ensures
        forall|j: int| 0 <= j < s.len() ==> in_class(cls, #[trigger] s[j]),
{
    crate::text::lemma_lead_len_bound(s, cls);
}

/// The opening fence of a new block opens a block of that language, and not a `meta` block.
proof fn lemma_fence_line(target: Seq<char>)
    requires
        target.len() > 0,
        !is_ws(target[0]),
        !is_ws(target.last()),
        !target.contains('\n'),
        target != seq!['m', 'e', 't', 'a'],
    ensures
        !is_meta_open(fence_line(target)),
        code_open_language(fence_line(target)) == Some(target),
        !is_code_close(fence_line(target)),
{
    let l = fence_line(target);
    crate::text::lemma_lead_len(l, CharClass::Blank, 0);
    assert(l.skip(0) =~= l);
    assert(l.take(3) =~= fence());
    assert(l.skip(3) =~= target);
    assert(after_fence(l) == Some(target));
    crate::text::lemma_lead_len(target, CharClass::Blank, 0);
    crate::text::lemma_lead_len(target, CharClass::Whitespace, 0);
    assert(target.skip(0) =~= target);
    crate::text::lemma_trail_len(target, CharClass::Whitespace, 0);
    assert(target.take(target.len() - 0) =~= target);
    assert(trim(target) == target);
    if target.len() >= 4 && target.take(4) == seq!['m', 'e', 't', 'a'] && all_blank(target.skip(4)) {
        if target.len() == 4 {
            assert(target =~= target.take(4));
        } else {
            lemma_all_in_class(target.skip(4), CharClass::Blank);
            assert(target.skip(4)[target.len() - 5] == target.last());
        }
    }
    if all_blank(target) {
        lemma_all_in_class(target, CharClass::Blank);
    }
}

/// Creating a block reads back: when a section has no block `target` and every fenced
/// block that opens in it before its trailing blank lines also closes there, writing
/// `content` (with no closing fence among its lines) creates the block, and the same
/// search over the section, now longer by the new lines, finds it holding exactly
/// `content`. The target is a language name without surrounding whitespace, line breaks,
/// and other than `meta`.
pub proof fn law_created_block_reads_back(
    ls: Seq<Seq<char>>,
    start: int,
    end: int,
    target: Seq<char>,
    content: Seq<Seq<char>>,
)
    requires
        0 <= start <= end <= ls.len(),
        named_block(ls, start, end, target) is None,
        scan_reaches(ls, start, insert_point(ls, start, end)),
        target.len() > 0,
        !is_ws(target[0]),
        !is_ws(target.last()),
        !target.contains('\n'),
        target != seq!['m', 'e', 't', 'a'],
        forall|k: int| 0 <= k < content.len() ==> !is_code_close(#[trigger] content[k]),
    ensures
        ({
            let at = insert_point(ls, start, end);
            let a = if at > start {
                at + 1
            } else {
                at
            };
            let ls2 = applied(ls, start, end, target, content);
            let end2 = end + new_block(ls, start, at, target, content).len();
            &&& named_block(ls2, start, end2, target) == Some((a, a + 1 + content.len()))
            &&& ls2.subrange(a + 1, a + 1 + content.len()) == content
        }),
{
    let at = insert_point(ls, start, end);
    lemma_insert_point(ls, start, end);
    let n = content.len() as int;
    let block = new_block(ls, start, at, target, content);
    let ls2 = applied(ls, start, end, target, content);
    assert(ls2 == ls.take(at) + block + ls.skip(at));
    let end2 = end + block.len();
    let a = if at > start {
        at + 1
    } else {
        at
    };
    assert(block.len() == (a - at) + 1 + n + 2);
    assert forall|k: int| 0 <= k < at implies ls2[k] == ls[k] by {}
    lemma_scan_to_insert_point(ls, ls2, start, at, end, end2, target);
    lemma_fence_line(target);
    // The lines of the new block in the longer document.
    assert(ls2[a] == fence_line(target)) by {
        assert(block[a - at] == fence_line(target));
    }
    assert forall|k: int| a + 1 <= k < a + 1 + n implies !is_code_close(#[trigger] ls2[k]) by {
        assert(block[k - at] == content[k - a - 1]);
        assert(ls2[k] == block[k - at]);
    }
    assert(ls2[a + 1 + n] == fence()) by {
        assert(block[a + 1 + n - at] == seq!['`', '`', '`']);
    }
    assert(is_code_close(fence())) by {
        let f = fence();
        crate::text::lemma_lead_len(f, CharClass::Blank, 0);
        assert(f.skip(0) =~= f);
        assert(f.take(3) =~= f);
        assert(f.skip(3) =~= Seq::<char>::empty());
        crate::text::lemma_lead_len(Seq::<char>::empty(), CharClass::Blank, 0);
    }
    lemma_first_close_at(ls2, a + 1, end2, a + 1 + n);
    if at > start {
        assert(ls2[at] == Seq::<char>::empty()) by {
            assert(block[0] == Seq::<char>::empty());
        }
        assert(!is_meta_open(Seq::<char>::empty()));
        assert(code_open_language(Seq::<char>::empty()) is None);
        assert(named_block(ls2, at, end2, target) == named_block(ls2, at + 1, end2, target));
    }
    assert(named_block(ls2, a, end2, target) == Some((a, a + 1 + n)));
    assert(ls2.subrange(a + 1, a + 1 + n) =~= content) by {
        assert forall|k: int| 0 <= k < n implies ls2.subrange(a + 1, a + 1 + n)[k] == content[k] by {
            assert(block[a + 1 + k - at] == content[k]);
        }
    }
}


/// A new block opens with a fence of three backticks followed by the target and closes
/// with a bare fence and an empty line, the content in between; an empty line separates it
/// from text before it.
pub proof fn law_new_block_fences(
    ls: Seq<Seq<char>>,
    start: int,
    at: int,
    target: Seq<char>,
    content: Seq<Seq<char>>,
)
    ensures
        ({
            let b = new_block(ls, start, at, target, content);
            let k: int = if at > start {
                1
            } else {
                0
            };
            &&& b.len() == k + content.len() + 3
            &&& at > start ==> b[0] == Seq::<char>::empty()
            &&& b[k] == seq!['`', '`', '`'] + target
            &&& b.subrange(k + 1, k + 1 + content.len()) == content
            &&& b[b.len() - 2] == seq!['`', '`', '`']
            &&& b[b.len() - 1] == Seq::<char>::empty()
        }),
{
    let b = new_block(ls, start, at, target, content);
    let k: int = if at > start {
        1
    } else {
        0
    };
    assert(b.subrange(k + 1, k + 1 + content.len()) =~= content);
}

} // verus!
