//! Layout of a JSON value for a Markdown block: a value whose one-line form ends before
//! the width stays on one line; a wider array or object puts one item per line.
use vstd::prelude::*;
use crate::json::{Json, JsonValue, compact, spec_json_quote, json_quote, items_view, entries_view, lemma_view_parts};
use crate::text::{push_char, push_str};

verus! {

broadcast use vstd::std_specs::vec::group_vec_axioms;

/// The one-line form: scalars as `serde_json` writes them, strings in quotes without
/// escaping (with a newline inside each quote when the string holds one),
/// items separated by `", "`, fields written `"key":value`.
pub open spec fn one_line(v: Json) -> Seq<char>
    decreases v,
{
    match v {
        Json::Str(s) => {
            if s.contains('\n') {
                seq!['"', '\n'] + s + seq!['\n', '"']
            } else {
                seq!['"'] + s + seq!['"']
            }
        },
        Json::Array(items) => seq!['['] + one_line_items(items) + seq![']'],
        Json::Object(entries) => seq!['{'] + one_line_entries(entries) + seq!['}'],
        _ => compact(v),
    }
}

pub open spec fn one_line_items(items: Seq<Json>) -> Seq<char>
    decreases items,
{
    if items.len() == 0 {
        seq![]
    } else if items.len() == 1 {
        one_line(items[0])
    } else {
        one_line_items(items.drop_last()) + seq![',', ' '] + one_line(items.last())
    }
}

pub open spec fn one_line_entries(entries: Seq<(Seq<char>, Json)>) -> Seq<char>
    decreases entries,
{
    if entries.len() == 0 {
        seq![]
    } else if entries.len() == 1 {
        spec_json_quote(entries[0].0) + seq![':'] + one_line(entries[0].1)
    } else {
        one_line_entries(entries.drop_last()) + seq![',', ' '] + spec_json_quote(entries.last().0)
            + seq![':'] + one_line(entries.last().1)
    }
}

/// Number of bytes of the UTF-8 encoding of `c`.
pub open spec fn utf8_width(c: char) -> nat {
    if (c as u32) < 0x80 {
        1
    } else if (c as u32) < 0x800 {
        2
    } else if (c as u32) < 0x10000 {
        3
    } else {
        4
    }
}

/// Length in bytes of the UTF-8 encoding (what `str::len` counts).
pub open spec fn byte_len(s: Seq<char>) -> nat
    decreases s.len(),
{
    if s.len() == 0 {
        0
    } else {
        byte_len(s.drop_last()) + utf8_width(s.last())
    }
}

proof fn lemma_byte_len_prefix(s: Seq<char>, k: int)
    requires
        0 <= k <= s.len(),
    ensures
        byte_len(s.take(k)) <= byte_len(s),
    decreases s.len() - k,
{
    if k < s.len() {
        lemma_byte_len_prefix(s, k + 1);
        assert(s.take(k + 1).drop_last() =~= s.take(k));
    } else {
        assert(s.take(k) =~= s);
    }
}

fn width_of(c: char) -> (w: usize)
    ensures
        w == utf8_width(c),
{
    let u = c as u32;
    if u < 0x80 {
        1
    } else if u < 0x800 {
        2
    } else if u < 0x10000 {
        3
    } else {
        4
    }
}

/// Whether the UTF-8 encoding of `s` takes at most `budget` bytes.
fn fits_in(s: &[char], budget: usize) -> (b: bool)
    ensures
        b == (byte_len(s@) <= budget),
{
    let mut acc: usize = 0;
    let mut i: usize = 0;
    while i < s.len()
        invariant
            i <= s@.len(),
            acc == byte_len(s@.take(i as int)),
            acc <= budget,
        decreases s@.len() - i,
    {
        let w = width_of(s[i]);
        assert(s@.take(i + 1).drop_last() =~= s@.take(i as int));
        if w > budget - acc {
            proof {
                lemma_byte_len_prefix(s@, i + 1);
            }
            return false;
        }
        acc = acc + w;
        i = i + 1;
    }
    assert(s@.take(i as int) =~= s@);
    true
}

pub open spec fn spaces(n: nat) -> Seq<char> {
    Seq::new(n, |i: int| ' ')
}

/// The laid-out form of `v` when it starts at column `indent` and lines must stay shorter
/// than `max` bytes: the one-line form when it ends before column `max`, else one item per
/// line.
pub open spec fn format_value(v: Json, indent: nat, max: nat) -> Seq<char>
    decreases v,
{
    let c = one_line(v);
    if indent + byte_len(c) < max {
        c
    } else {
        match v {
            Json::Str(s) => seq!['"', '\n'] + s + seq!['\n', '"'],
            Json::Array(items) => {
                if items.len() == 0 {
                    seq!['[', ']']
                } else {
                    seq!['[', '\n'] + array_lines(items, items.len(), indent + 2, max) + spaces(
                        indent,
                    ) + seq![']']
                }
            },
            Json::Object(entries) => {
                if entries.len() == 0 {
                    seq!['{', '}']
                } else {
                    seq!['{', '\n'] + object_lines(entries, entries.len(), indent + 2, max)
                        + spaces(indent) + seq!['}']
                }
            },
            _ => c,
        }
    }
}

/// One line per item of `items` (the first items of an array of `total` items),
/// indented by `ci`, with a comma after every item but the array's last.
pub open spec fn array_lines(items: Seq<Json>, total: nat, ci: nat, max: nat) -> Seq<char>
    decreases items,
{
    if items.len() == 0 {
        seq![]
    } else {
        array_lines(items.drop_last(), total, ci, max) + spaces(ci) + format_value(
            items.last(),
            ci,
            max,
        ) + (if items.len() != total {
            seq![',']
        } else {
            seq![]
        }) + seq!['\n']
    }
}

/// One line per field, written `"key": value`, as `array_lines` does for items.
pub open spec fn object_lines(
    entries: Seq<(Seq<char>, Json)>,
    total: nat,
    ci: nat,
    max: nat,
) -> Seq<char>
    decreases entries,
{
    if entries.len() == 0 {
        seq![]
    } else {
        object_lines(entries.drop_last(), total, ci, max) + spaces(ci) + spec_json_quote(
            entries.last().0,
        ) + seq![':', ' '] + format_value(entries.last().1, ci, max) + (if entries.len()
            != total {
            seq![',']
        } else {
            seq![]
        }) + seq!['\n']
    }
}

/// Nesting depth of arrays and objects.
pub open spec fn depth(v: Json) -> nat
    decreases v,
{
    match v {
        Json::Array(items) => 1 + depth_items(items),
        Json::Object(entries) => 1 + depth_entries(entries),
        _ => 0,
    }
}

pub open spec fn depth_items(items: Seq<Json>) -> nat
    decreases items,
{
    if items.len() == 0 {
        0
    } else {
        let a = depth_items(items.drop_last());
        let b = depth(items.last());
        if a < b {
            b
        } else {
            a
        }
    }
}

pub open spec fn depth_entries(entries: Seq<(Seq<char>, Json)>) -> nat
    decreases entries,
{
    if entries.len() == 0 {
        0
    } else {
        let a = depth_entries(entries.drop_last());
        let b = depth(entries.last().1);
        if a < b {
            b
        } else {
            a
        }
    }
}

proof fn lemma_depth_items(items: Seq<Json>, i: int)
    requires
        0 <= i < items.len(),
    ensures
        depth(items[i]) <= depth_items(items),
    decreases items.len(),
{
    if i < items.len() - 1 {
        lemma_depth_items(items.drop_last(), i);
    }
}

proof fn lemma_depth_entries(entries: Seq<(Seq<char>, Json)>, i: int)
    requires
        0 <= i < entries.len(),
    ensures
        depth(entries[i].1) <= depth_entries(entries),
    decreases entries.len(),
{
    if i < entries.len() - 1 {
        lemma_depth_entries(entries.drop_last(), i);
    }
}

fn push_spaces(out: &mut String, n: usize)
    ensures
        final(out)@ == old(out)@ + spaces(n as nat),
{
    let mut i: usize = 0;
    while i < n
        invariant
            i <= n,
            out@ == old(out)@ + spaces(i as nat),
        decreases n - i,
    {
        push_char(out, ' ');
        i = i + 1;
        assert(spaces(i as nat) =~= spaces((i - 1) as nat).push(' '));
        assert(out@ =~= old(out)@ + spaces(i as nat));
    }
}

/// The one-line form of a value.
#[verifier::loop_isolation(false)]
pub fn to_one_line_string(v: &JsonValue) -> (r: String)
    ensures
        r@ == one_line(v@),
    decreases v,
{
    proof {
        lemma_view_parts(*v);
    }
    match v {
        JsonValue::Str(s) => {
            let cs = crate::text::chars_of(s.as_str());
            let has_newline = crate::text::find_in(&cs, 0, cs.len(), '\n').is_some();
            proof {
                crate::text::lemma_find_char(cs@, '\n');
                assert(cs@.subrange(0, cs@.len() as int) =~= cs@);
                if s@.contains('\n') {
                    let j = choose|j: int| 0 <= j < s@.len() && s@[j] == '\n';
                    assert(cs@[j] == '\n');
                }
            }
            let mut out = String::new();
            push_char(&mut out, '"');
            if has_newline {
                push_char(&mut out, '\n');
            }
            push_str(&mut out, s.as_str());
            if has_newline {
                push_char(&mut out, '\n');
            }
            push_char(&mut out, '"');
            assert(has_newline == s@.contains('\n'));
            assert(out@ =~= one_line(v@));
            out
        },
        JsonValue::Array(items) => {
            let ghost iv = items_view(items@);
            let mut out = String::new();
            push_char(&mut out, '[');
            let mut i: usize = 0;
            while i < items.len()
                invariant
                    0 <= i <= items@.len(),
                    iv == items_view(items@),
                    out@ == seq!['['] + one_line_items(iv.take(i as int)),
                decreases items@.len() - i,
            {
                assert(decreases_to!(*v => items@[i as int]));
                if i > 0 {
                    push_char(&mut out, ',');
                    push_char(&mut out, ' ');
                }
                let c = to_one_line_string(&items[i]);
                push_str(&mut out, c.as_str());
                proof {
                    let t = iv.take(i + 1);
                    assert(t.drop_last() =~= iv.take(i as int));
                    assert(t.last() == items@[i as int]@);
                    if i == 0 {
                        assert(one_line_items(iv.take(0)) =~= Seq::<char>::empty());
                    }
                    assert(out@ =~= seq!['['] + one_line_items(t));
                }
                i = i + 1;
            }
            push_char(&mut out, ']');
            assert(iv.take(i as int) =~= iv);
            assert(out@ =~= one_line(v@));
            out
        },
        JsonValue::Object(entries) => {
            let ghost ev = entries_view(entries@);
            let mut out = String::new();
            push_char(&mut out, '{');
            let mut i: usize = 0;
            while i < entries.len()
                invariant
                    0 <= i <= entries@.len(),
                    ev == entries_view(entries@),
                    out@ == seq!['{'] + one_line_entries(ev.take(i as int)),
                decreases entries@.len() - i,
            {
                assert(decreases_to!(*v => entries@[i as int].1));
                if i > 0 {
                    push_char(&mut out, ',');
                    push_char(&mut out, ' ');
                }
                let q = json_quote(entries[i].0.as_str());
                push_str(&mut out, q.as_str());
                push_char(&mut out, ':');
                let c = to_one_line_string(&entries[i].1);
                push_str(&mut out, c.as_str());
                proof {
                    let t = ev.take(i + 1);
                    assert(t.drop_last() =~= ev.take(i as int));
                    assert(t.last() == (entries@[i as int].0@, entries@[i as int].1@));
                    if i == 0 {
                        assert(one_line_entries(ev.take(0)) =~= Seq::<char>::empty());
                    }
                    assert(out@ =~= seq!['{'] + one_line_entries(t));
                }
                i = i + 1;
            }
            push_char(&mut out, '}');
            assert(ev.take(i as int) =~= ev);
            assert(out@ =~= one_line(v@));
            out
        },
        _ => {
            let out = v.to_compact();
            out
        },
    }
}

/// The laid-out form of a value starting at column `indent`.
pub fn format_value_at(v: &JsonValue, indent: usize, max_width: usize) -> (r: String)
    requires
        indent + 2 * depth(v@) <= usize::MAX,
    ensures
        r@ == format_value(v@, indent as nat, max_width as nat),
    decreases v,
{
    proof {
        lemma_view_parts(*v);
    }
    let compact = to_one_line_string(v);
    let cs = crate::text::chars_of(compact.as_str());
    if indent < max_width && fits_in(&cs, max_width - indent - 1) {
        return compact;
    }
    match v {
        JsonValue::Str(s) => {
            let mut out = String::new();
            push_char(&mut out, '"');
            push_char(&mut out, '\n');
            push_str(&mut out, s.as_str());
            push_char(&mut out, '\n');
            push_char(&mut out, '"');
            assert(out@ =~= format_value(v@, indent as nat, max_width as nat));
            out
        },
        JsonValue::Array(items) => {
            if items.len() == 0 {
                let mut out = String::new();
                push_char(&mut out, '[');
                push_char(&mut out, ']');
                assert(out@ =~= format_value(v@, indent as nat, max_width as nat));
                return out;
            }
            let body = format_array(items, indent, max_width);
            body
        },
        JsonValue::Object(entries) => {
            if entries.len() == 0 {
                let mut out = String::new();
                push_char(&mut out, '{');
                push_char(&mut out, '}');
                assert(out@ =~= format_value(v@, indent as nat, max_width as nat));
                return out;
            }
            let body = format_object(entries, indent, max_width);
            body
        },
        _ => compact,
    }
}

/// An array laid out one item per line.
#[verifier::loop_isolation(false)]
#[verifier::rlimit(50)]
fn format_array(items: &Vec<JsonValue>, indent: usize, max_width: usize) -> (r: String)
    requires
        items@.len() > 0,
        indent + 2 + 2 * depth_items(items_view(items@)) <= usize::MAX,
    ensures
        r@ == seq!['[', '\n'] + array_lines(
            items_view(items@),
            items@.len(),
            (indent + 2) as nat,
            max_width as nat,
        ) + spaces(indent as nat) + seq![']'],
    decreases items,
{
    let ghost iv = items_view(items@);
    let child = indent + 2;
    let mut out = String::new();
    push_char(&mut out, '[');
    push_char(&mut out, '\n');
    let mut i: usize = 0;
    while i < items.len()
        invariant
            0 <= i <= items@.len(),
            iv == items_view(items@),
            out@ == seq!['[', '\n'] + array_lines(
                iv.take(i as int),
                items@.len(),
                child as nat,
                max_width as nat,
            ),
        decreases items@.len() - i,
    {
        proof {
            lemma_depth_items(iv, i as int);
        }
        push_spaces(&mut out, child);
        let f = format_value_at(&items[i], child, max_width);
        push_str(&mut out, f.as_str());
        if i + 1 != items.len() {
            push_char(&mut out, ',');
        }
        push_char(&mut out, '\n');
        proof {
            let t = iv.take(i + 1);
            assert(t.drop_last() =~= iv.take(i as int));
            assert(t.last() == items@[i as int]@);
            assert(out@ =~= seq!['[', '\n'] + array_lines(
                t,
                items@.len(),
                child as nat,
                max_width as nat,
            ));
        }
        i = i + 1;
    }
    push_spaces(&mut out, indent);
    push_char(&mut out, ']');
    assert(iv.take(i as int) =~= iv);
    assert(out@ =~= seq!['[', '\n'] + array_lines(
        iv,
        items@.len(),
        (indent + 2) as nat,
        max_width as nat,
    ) + spaces(indent as nat) + seq![']']);
    out
}

/// An object laid out one field per line.
#[verifier::loop_isolation(false)]
#[verifier::rlimit(50)]
fn format_object(entries: &Vec<(String, JsonValue)>, indent: usize, max_width: usize) -> (r:
    String)
    requires
        entries@.len() > 0,
        indent + 2 + 2 * depth_entries(entries_view(entries@)) <= usize::MAX,
    ensures
        r@ == seq!['{', '\n'] + object_lines(
            entries_view(entries@),
            entries@.len(),
            (indent + 2) as nat,
            max_width as nat,
        ) + spaces(indent as nat) + seq!['}'],
    decreases entries,
{
    let ghost ev = entries_view(entries@);
    let child = indent + 2;
    let mut out = String::new();
    push_char(&mut out, '{');
    push_char(&mut out, '\n');
    let mut i: usize = 0;
    while i < entries.len()
        invariant
            0 <= i <= entries@.len(),
            ev == entries_view(entries@),
            out@ == seq!['{', '\n'] + object_lines(
                ev.take(i as int),
                entries@.len(),
                child as nat,
                max_width as nat,
            ),
        decreases entries@.len() - i,
    {
        proof {
            lemma_depth_entries(ev, i as int);
        }
        assert(decreases_to!(*entries => entries@[i as int].1));
        push_spaces(&mut out, child);
        let q = json_quote(entries[i].0.as_str());
        push_str(&mut out, q.as_str());
        push_char(&mut out, ':');
        push_char(&mut out, ' ');
        let f = format_value_at(&entries[i].1, child, max_width);
        push_str(&mut out, f.as_str());
        if i + 1 != entries.len() {
            push_char(&mut out, ',');
        }
        push_char(&mut out, '\n');
        proof {
            let t = ev.take(i + 1);
            assert(t.drop_last() =~= ev.take(i as int));
            assert(t.last() == (entries@[i as int].0@, entries@[i as int].1@));
            assert(out@ =~= seq!['{', '\n'] + object_lines(
                t,
                entries@.len(),
                child as nat,
                max_width as nat,
            ));
        }
        i = i + 1;
    }
    push_spaces(&mut out, indent);
    push_char(&mut out, '}');
    assert(ev.take(i as int) =~= ev);
    assert(out@ =~= seq!['{', '\n'] + object_lines(
        ev,
        entries@.len(),
        (indent + 2) as nat,
        max_width as nat,
    ) + spaces(indent as nat) + seq!['}']);
    out
}

/// Lays out `value` for a text `max_width` bytes wide.
pub fn format_json(value: &JsonValue, max_width: usize) -> (r: String)
    requires
        2 * depth(value@) <= usize::MAX,
    ensures
        r@ == format_value(value@, 0, max_width as nat),
{
    format_value_at(value, 0, max_width)
}

} // verus!
