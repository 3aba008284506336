//! Selections from a JSON value that keep the shape of the path: `subject/date` gives
//! `{"subject": {"date": ..}}`, an array is read item by item, `{a b}` (or `{a, b}`)
//! gathers several paths, and `field[key=value]` keeps every matching item.
use vstd::prelude::*;
use crate::json::{Json, JsonValue, spec_get, entries_get, entries_view, items_view, lemma_view_parts, find_entry, opt_json, json_valid, valid_items, valid_entries, lemma_valid_items_index, lemma_valid_entries_index, lemma_valid_entries_all, lemma_valid_get};
use crate::json_path::{SegmentForm, segment_form, spec_matches, classify, Form};
use crate::num::{all_digits, all_decimal, digits_value, is_decimal_digit, parse_usize};
use crate::text::{chars_of, string_of};

verus! {

broadcast use vstd::std_specs::vec::group_vec_axioms;

/// How a character changes the nesting of braces and brackets.
pub open spec fn nesting_step(c: char) -> int {
    if c == '{' || c == '[' {
        1
    } else if c == '}' || c == ']' {
        -1
    } else {
        0
    }
}

/// Whether `c` separates the pieces: `/` between segments, a space or a comma between
/// the members of a group.
pub open spec fn is_separator(c: char, slash: bool) -> bool {
    if slash {
        c == '/'
    } else {
        c == ' ' || c == ','
    }
}

/// The first separator at index `i` or later that stands outside every brace and
/// bracket, `depth` being the nesting before index `i`.
pub open spec fn top_separator_from(s: Seq<char>, i: int, depth: int, slash: bool) -> Option<int>
    decreases s.len() - i,
{
    if i < 0 || i >= s.len() {
        None
    } else if depth == 0 && is_separator(s[i], slash) {
        Some(i)
    } else {
        top_separator_from(s, i + 1, depth + nesting_step(s[i]), slash)
    }
}

/// The first separator of `s` outside every brace and bracket.
pub open spec fn top_separator(s: Seq<char>, slash: bool) -> Option<int> {
    top_separator_from(s, 0, 0, slash)
}

/// A value kept where a selection found nothing: the empty object.
pub open spec fn or_empty(o: Option<Json>) -> Json {
    match o {
        Some(x) => x,
        None => Json::Object(Seq::empty()),
    }
}

/// The object with the one field `key`.
pub open spec fn single(key: Seq<char>, value: Json) -> Json {
    Json::Object(seq![(key, value)])
}

/// The fields of an object, none for any other outcome.
pub open spec fn fields_of(o: Option<Json>) -> Seq<(Seq<char>, Json)> {
    match o {
        Some(Json::Object(entries)) => entries,
        _ => Seq::empty(),
    }
}

/// Whether a group text `seg` is `{...}`.
pub open spec fn is_group(seg: Seq<char>) -> bool {
    seg.len() >= 2 && seg[0] == '{' && seg.last() == '}'
}

/// `a` followed by the fields of `b` whose names are not yet present; the first
/// field of a name is the one kept.
pub open spec fn absorb(a: Seq<(Seq<char>, Json)>, b: Seq<(Seq<char>, Json)>) -> Seq<(Seq<char>, Json)>
    decreases b.len(),
{
    if b.len() == 0 {
        a
    } else {
        let next = if entries_get(a, b[0].0) is Some {
            a
        } else {
            a.push(b[0])
        };
        absorb(next, b.drop_first())
    }
}

/// What `text` selects from `v`: `None` where a field it names is missing.
/// An empty text selects the whole value; empty segments are passed over.
pub open spec fn select_path(v: Json, text: Seq<char>) -> Option<Json>
    decreases text.len(), v, 1int,
{
    if text.len() == 0 {
        Some(v)
    } else {
        match top_separator(text, true) {
            Some(k) => {
                if 0 < k < text.len() {
                    select_step(v, text.take(k), text.skip(k + 1))
                } else if k == 0 {
                    select_path(v, text.skip(1))
                } else {
                    None
                }
            },
            None => select_step(v, text, Seq::empty()),
        }
    }
}

/// What the segment `seg`, followed by the path `rest`, selects from `v`.
/// An array is read item by item; a group `{...}` ends the path.
pub open spec fn select_step(v: Json, seg: Seq<char>, rest: Seq<char>) -> Option<Json>
    decreases seg.len() + rest.len(), v, 0int,
{
    if seg.len() == 0 {
        None
    } else {
        match v {
            Json::Array(items) => Some(Json::Array(select_items(items, seg, rest))),
            _ => {
                if is_group(seg) {
                    Some(Json::Object(select_group(v, seg.subrange(1, seg.len() - 1))))
                } else {
                    match segment_form(seg) {
                        SegmentForm::Index(field, digits) => match spec_get(v, field) {
                            Some(Json::Array(items)) => {
                                let index = digits_value(digits);
                                if all_digits(digits) && 0 <= index < items.len() {
                                    match select_path(items[index], rest) {
                                        Some(x) => Some(single(field, x)),
                                        None => None,
                                    }
                                } else {
                                    None
                                }
                            },
                            _ => None,
                        },
                        SegmentForm::Filter(field, key, expected) => match spec_get(v, field) {
                            Some(Json::Array(items)) => Some(
                                single(field, Json::Array(select_matching(items, key, expected, rest))),
                            ),
                            _ => None,
                        },
                        SegmentForm::Key(name) => match spec_get(v, name) {
                            Some(child) => match select_path(child, rest) {
                                Some(x) => Some(single(name, x)),
                                None => None,
                            },
                            None => None,
                        },
                    }
                }
            },
        }
    }
}

/// The segment applied to each item, an empty object where it selects nothing.
pub open spec fn select_items(items: Seq<Json>, seg: Seq<char>, rest: Seq<char>) -> Seq<Json>
    decreases seg.len() + rest.len(), items, 0int,
{
    if items.len() == 0 {
        Seq::empty()
    } else {
        select_items(items.drop_last(), seg, rest).push(
            or_empty(select_step(items.last(), seg, rest)),
        )
    }
}

/// Whether an item's field `key` matches `expected`.
pub open spec fn item_matches(item: Json, key: Seq<char>, expected: Seq<char>) -> bool {
    spec_get(item, key) matches Some(actual) && spec_matches(actual, expected)
}

/// `rest` applied to each item whose field `key` matches `expected`, the others left out.
pub open spec fn select_matching(
    items: Seq<Json>,
    key: Seq<char>,
    expected: Seq<char>,
    rest: Seq<char>,
) -> Seq<Json>
    decreases rest.len(), items, 2int,
{
    if items.len() == 0 {
        Seq::empty()
    } else {
        let before = select_matching(items.drop_last(), key, expected, rest);
        if item_matches(items.last(), key, expected) {
            before.push(or_empty(select_path(items.last(), rest)))
        } else {
            before
        }
    }
}

/// The fields that the members of a group select, gathered in order.
pub open spec fn select_group(v: Json, inner: Seq<char>) -> Seq<(Seq<char>, Json)>
    decreases inner.len(), v, 2int,
{
    if inner.len() == 0 {
        Seq::empty()
    } else {
        match top_separator(inner, false) {
            Some(k) => {
                if 0 <= k < inner.len() {
                    let first = if k == 0 {
                        Seq::empty()
                    } else {
                        fields_of(select_path(v, inner.take(k)))
                    };
                    absorb(first, select_group(v, inner.skip(k + 1)))
                } else {
                    Seq::empty()
                }
            },
            None => fields_of(select_path(v, inner)),
        }
    }
}

proof fn lemma_select_items_len(items: Seq<Json>, seg: Seq<char>, rest: Seq<char>)
    ensures
        select_items(items, seg, rest).len() == items.len(),
    decreases items.len(),
{
    if items.len() > 0 {
        lemma_select_items_len(items.drop_last(), seg, rest);
    }
}

/// An array is read item by item: whatever the path, what it selects from an array is an
/// array with one value for each item.
pub proof fn law_array_selection_keeps_items(items: Seq<Json>, text: Seq<char>)
    ensures
        select_path(Json::Array(items), text) matches Some(Json::Array(out)) && out.len()
            == items.len(),
    decreases text.len(),
{
    let v = Json::Array(items);
    if text.len() > 0 {
        match top_separator(text, true) {
            Some(k) => {
                if 0 < k < text.len() {
                    let (seg, rest) = (text.take(k), text.skip(k + 1));
                    lemma_select_items_len(items, seg, rest);
                    assert(seg.len() > 0);
                    assert(select_path(v, text) == select_step(v, seg, rest));
                    assert(select_step(v, seg, rest) == Some(Json::Array(select_items(items, seg, rest))));
                } else if k == 0 {
                    law_array_selection_keeps_items(items, text.skip(1));
                } else {
                    lemma_top_separator_in_range(text, true);
                }
            },
            None => {
                lemma_select_items_len(items, text, Seq::empty());
                assert(select_path(v, text) == select_step(v, text, Seq::empty()));
                assert(select_step(v, text, Seq::empty()) == Some(
                    Json::Array(select_items(items, text, Seq::empty())),
                ));
            },
        }
    }
}

proof fn lemma_top_separator_from_in_range(s: Seq<char>, i: int, depth: int, slash: bool)
    requires
        0 <= i,
    ensures
        top_separator_from(s, i, depth, slash) matches Some(k) ==> i <= k < s.len(),
    decreases s.len() - i,
{
    if i < s.len() && !(depth == 0 && is_separator(s[i], slash)) {
        lemma_top_separator_from_in_range(s, i + 1, depth + nesting_step(s[i]), slash);
    }
}

proof fn lemma_top_separator_in_range(s: Seq<char>, slash: bool)
    ensures
        top_separator(s, slash) matches Some(k) ==> 0 <= k < s.len(),
{
    lemma_top_separator_from_in_range(s, 0, 0, slash);
}

proof fn lemma_single_valid(key: Seq<char>, x: Json)
    requires
        json_valid(x),
    ensures
        json_valid(single(key, x)),
{
    let e = seq![(key, x)];
    assert(e.drop_last() =~= Seq::<(Seq<char>, Json)>::empty());
    assert(e.last().1 == x);
    assert(valid_entries(Seq::<(Seq<char>, Json)>::empty()));
    assert(valid_entries(e.drop_last()));
    assert(valid_entries(e));
    assert(json_valid(Json::Object(e)));
}

proof fn lemma_or_empty_valid(o: Option<Json>)
    requires
        o matches Some(x) ==> json_valid(x),
    ensures
        json_valid(or_empty(o)),
{
}

proof fn lemma_fields_of_valid(o: Option<Json>)
    requires
        o matches Some(x) ==> json_valid(x),
    ensures
        valid_entries(fields_of(o)),
{
}

proof fn lemma_absorb_valid(a: Seq<(Seq<char>, Json)>, b: Seq<(Seq<char>, Json)>)
    requires
        valid_entries(a),
        valid_entries(b),
    ensures
        valid_entries(absorb(a, b)),
    decreases b.len(),
{
    if b.len() > 0 {
        lemma_valid_entries_index(b, 0);
        assert(a.push(b[0]).drop_last() =~= a);
        assert forall|i: int| 0 <= i < b.drop_first().len() implies json_valid(
            #[trigger] b.drop_first()[i].1,
        ) by {
            lemma_valid_entries_index(b, i + 1);
        }
        lemma_valid_entries_all(b.drop_first());
        let next = if entries_get(a, b[0].0) is Some {
            a
        } else {
            a.push(b[0])
        };
        lemma_absorb_valid(next, b.drop_first());
    }
}

proof fn lemma_select_path_valid(v: Json, text: Seq<char>)
    requires
        json_valid(v),
    ensures
        select_path(v, text) matches Some(x) ==> json_valid(x),
    decreases text.len(), v, 1int,
{
    if text.len() > 0 {
        match top_separator(text, true) {
            Some(k) => {
                if 0 < k < text.len() {
                    lemma_select_step_valid(v, text.take(k), text.skip(k + 1));
                } else if k == 0 {
                    lemma_select_path_valid(v, text.skip(1));
                }
            },
            None => lemma_select_step_valid(v, text, Seq::empty()),
        }
    }
}

proof fn lemma_select_step_valid(v: Json, seg: Seq<char>, rest: Seq<char>)
    requires
        json_valid(v),
    ensures
        select_step(v, seg, rest) matches Some(x) ==> json_valid(x),
    decreases seg.len() + rest.len(), v, 0int,
{
    if seg.len() > 0 {
        match v {
            Json::Array(items) => lemma_select_items_valid(items, seg, rest),
            _ => {
                if is_group(seg) {
                    lemma_select_group_valid(v, seg.subrange(1, seg.len() - 1));
                } else {
                    match segment_form(seg) {
                        SegmentForm::Index(field, digits) => {
                            lemma_valid_get(v, field);
                            match spec_get(v, field) {
                                Some(Json::Array(items)) => {
                                    let index = digits_value(digits);
                                    if all_digits(digits) && 0 <= index < items.len() {
                                        lemma_valid_items_index(items, index);
                                        lemma_select_path_valid(items[index], rest);
                                        if let Some(x) = select_path(items[index], rest) {
                                            lemma_single_valid(field, x);
                                        }
                                    }
                                },
                                _ => {},
                            }
                        },
                        SegmentForm::Filter(field, key, expected) => {
                            lemma_valid_get(v, field);
                            match spec_get(v, field) {
                                Some(Json::Array(items)) => {
                                    lemma_select_matching_valid(items, key, expected, rest);
                                    lemma_single_valid(
                                        field,
                                        Json::Array(select_matching(items, key, expected, rest)),
                                    );
                                },
                                _ => {},
                            }
                        },
                        SegmentForm::Key(name) => {
                            lemma_valid_get(v, name);
                            match spec_get(v, name) {
                                Some(child) => {
                                    lemma_select_path_valid(child, rest);
                                    if let Some(x) = select_path(child, rest) {
                                        lemma_single_valid(name, x);
                                    }
                                },
                                None => {},
                            }
                        },
                    }
                }
            },
        }
    }
}

proof fn lemma_select_items_valid(items: Seq<Json>, seg: Seq<char>, rest: Seq<char>)
    requires
        valid_items(items),
    ensures
        valid_items(select_items(items, seg, rest)),
    decreases seg.len() + rest.len(), items, 0int,
{
    if items.len() > 0 {
        lemma_select_items_valid(items.drop_last(), seg, rest);
        lemma_select_step_valid(items.last(), seg, rest);
        lemma_or_empty_valid(select_step(items.last(), seg, rest));
        let before = select_items(items.drop_last(), seg, rest);
        assert(before.push(or_empty(select_step(items.last(), seg, rest))).drop_last() =~= before);
    }
}

proof fn lemma_select_matching_valid(
    items: Seq<Json>,
    key: Seq<char>,
    expected: Seq<char>,
    rest: Seq<char>,
)
    requires
        valid_items(items),
    ensures
        valid_items(select_matching(items, key, expected, rest)),
    decreases rest.len(), items, 2int,
{
    if items.len() > 0 {
        lemma_select_matching_valid(items.drop_last(), key, expected, rest);
        lemma_select_path_valid(items.last(), rest);
        lemma_or_empty_valid(select_path(items.last(), rest));
        let before = select_matching(items.drop_last(), key, expected, rest);
        assert(before.push(or_empty(select_path(items.last(), rest))).drop_last() =~= before);
    }
}

proof fn lemma_select_group_valid(v: Json, inner: Seq<char>)
    requires
        json_valid(v),
    ensures
        valid_entries(select_group(v, inner)),
    decreases inner.len(), v, 2int,
{
    if inner.len() > 0 {
        match top_separator(inner, false) {
            Some(k) => {
                if 0 <= k < inner.len() {
                    if k > 0 {
                        lemma_select_path_valid(v, inner.take(k));
                        lemma_fields_of_valid(select_path(v, inner.take(k)));
                    }
                    lemma_select_group_valid(v, inner.skip(k + 1));
                    let first = if k == 0 {
                        Seq::empty()
                    } else {
                        fields_of(select_path(v, inner.take(k)))
                    };
                    lemma_absorb_valid(first, select_group(v, inner.skip(k + 1)));
                }
            },
            None => {
                lemma_select_path_valid(v, inner);
                lemma_fields_of_valid(select_path(v, inner));
            },
        }
    }
}

/// What a path selects from a valid value is valid.
pub proof fn law_select_keeps_validity(v: Json, text: Seq<char>)
    requires
        json_valid(v),
    ensures
        select_path(v, text) matches Some(x) ==> json_valid(x),
{
    lemma_select_path_valid(v, text);
}

/// The first separator of `p[lo..hi]` outside every brace and bracket.
fn find_top_separator(p: &[char], lo: usize, hi: usize, slash: bool) -> (r: Option<usize>)
    requires
        lo <= hi <= p@.len(),
    ensures
        match r {
            Some(k) => lo <= k < hi && top_separator(p@.subrange(lo as int, hi as int), slash)
                == Some(k - lo),
            None => top_separator(p@.subrange(lo as int, hi as int), slash) == None::<int>,
        },
{
    let ghost s = p@.subrange(lo as int, hi as int);
    let mut i = lo;
    let mut opens: usize = 0;
    let mut closes: usize = 0;
    while i < hi
        invariant
            lo <= i <= hi <= p@.len(),
            s == p@.subrange(lo as int, hi as int),
            opens + closes <= i - lo,
            top_separator(s, slash) == top_separator_from(s, i - lo, opens - closes, slash),
        decreases hi - i,
    {
        let c = p[i];
        assert(s[i - lo] == c);
        let sep = if slash {
            c == '/'
        } else {
            c == ' ' || c == ','
        };
        if opens == closes && sep {
            return Some(i);
        }
        if c == '{' || c == '[' {
            opens = opens + 1;
        } else if c == '}' || c == ']' {
            closes = closes + 1;
        }
        i = i + 1;
    }
    None
}

/// The empty object.
fn empty_object() -> (r: JsonValue)
    ensures
        r@ == Json::Object(Seq::empty()),
{
    let r = JsonValue::Object(Vec::new());
    proof {
        lemma_view_parts(r);
        assert(entries_view(Seq::<(String, JsonValue)>::empty()) =~= Seq::empty());
    }
    r
}

/// The object with the one field `key`.
fn single_value(key: String, value: JsonValue) -> (r: JsonValue)
    ensures
        r@ == single(key@, value@),
{
    let mut e: Vec<(String, JsonValue)> = Vec::new();
    e.push((key, value));
    let r = JsonValue::Object(e);
    proof {
        lemma_view_parts(r);
        assert(entries_view(e@) =~= seq![(key@, value@)]);
    }
    r
}

/// The fields of a selected object, none for any other outcome.
fn fields_vec(o: Option<JsonValue>) -> (r: Vec<(String, JsonValue)>)
    ensures
        entries_view(r@) == fields_of(opt_json(o)),
{
    match o {
        Some(v) => {
            proof {
                lemma_view_parts(v);
            }
            match v {
                JsonValue::Object(entries) => entries,
                _ => {
                    let r: Vec<(String, JsonValue)> = Vec::new();
                    assert(entries_view(r@) =~= Seq::empty());
                    r
                },
            }
        },
        None => {
            let r: Vec<(String, JsonValue)> = Vec::new();
            assert(entries_view(r@) =~= Seq::empty());
            r
        },
    }
}

/// `a` followed by the fields of `b` whose names `a` does not hold yet.
fn absorb_fields(a: Vec<(String, JsonValue)>, b: &Vec<(String, JsonValue)>) -> (r: Vec<(String, JsonValue)>)
    ensures
        entries_view(r@) == absorb(entries_view(a@), entries_view(b@)),
{
    let ghost a0 = entries_view(a@);
    let ghost bv = entries_view(b@);
    let mut out = a;
    let mut i: usize = 0;
    assert(bv.skip(0) =~= bv);
    while i < b.len()
        invariant
            i <= b@.len(),
            bv == entries_view(b@),
            absorb(a0, bv) == absorb(entries_view(out@), bv.skip(i as int)),
        decreases b@.len() - i,
    {
        let ghost rest = bv.skip(i as int);
        let ghost before = entries_view(out@);
        assert(rest[0] == bv[i as int]);
        assert(rest.drop_first() =~= bv.skip(i + 1));
        match find_entry(&out, b[i].0.as_str()) {
            Some(_) => {},
            None => {
                let k = b[i].0.clone();
                let x = b[i].1.clone_value();
                out.push((k, x));
                assert(entries_view(out@) =~= before.push(bv[i as int]));
            },
        }
        i = i + 1;
    }
    assert(bv.skip(i as int) =~= Seq::<(Seq<char>, Json)>::empty());
    out
}

/// What `p[lo..hi]` selects from `v`.
fn select_path_at(v: &JsonValue, p: &[char], lo: usize, hi: usize) -> (r: Option<JsonValue>)
    requires
        lo <= hi <= p@.len(),
    ensures
        opt_json(r) == select_path(v@, p@.subrange(lo as int, hi as int)),
    decreases hi - lo, *v, 1int,
{
    let ghost text = p@.subrange(lo as int, hi as int);
    if lo == hi {
        return Some(v.clone_value());
    }
    match find_top_separator(p, lo, hi, true) {
        Some(k) => {
            if k > lo {
                assert(text.take(k - lo) =~= p@.subrange(lo as int, k as int));
                assert(text.skip(k - lo + 1) =~= p@.subrange(k + 1, hi as int));
                select_step_at(v, p, lo, k, k + 1, hi)
            } else {
                assert(text.skip(1) =~= p@.subrange(lo + 1, hi as int));
                select_path_at(v, p, lo + 1, hi)
            }
        },
        None => {
            assert(p@.subrange(hi as int, hi as int) =~= Seq::<char>::empty());
            select_step_at(v, p, lo, hi, hi, hi)
        },
    }
}

/// What the segment `p[a..b]`, followed by the path `p[c..d]`, selects from `v`.
#[verifier::loop_isolation(false)]
fn select_step_at(v: &JsonValue, p: &[char], a: usize, b: usize, c: usize, d: usize) -> (r: Option<JsonValue>)
    requires
        a <= b <= p@.len(),
        c <= d <= p@.len(),
    ensures
        opt_json(r) == select_step(v@, p@.subrange(a as int, b as int), p@.subrange(c as int, d as int)),
    decreases (b - a) + (d - c), *v, 0int,
{
    let ghost seg = p@.subrange(a as int, b as int);
    let ghost rest = p@.subrange(c as int, d as int);
    if a == b {
        return None;
    }
    proof {
        lemma_view_parts(*v);
    }
    match v {
        JsonValue::Array(items) => {
            let ghost iv = items_view(items@);
            let mut out: Vec<JsonValue> = Vec::new();
            let mut i: usize = 0;
            assert(iv.take(0) =~= Seq::<Json>::empty());
            assert(items_view(out@) =~= Seq::<Json>::empty());
            while i < items.len()
                invariant
                    0 <= i <= items@.len(),
                    iv == items_view(items@),
                    items_view(out@) == select_items(iv.take(i as int), seg, rest),
                decreases items@.len() - i,
            {
                assert(decreases_to!(*v => items@[i as int]));
                let y = match select_step_at(&items[i], p, a, b, c, d) {
                    Some(y) => y,
                    None => empty_object(),
                };
                let ghost before = out@;
                out.push(y);
                proof {
                    let t = iv.take(i + 1);
                    assert(t.drop_last() =~= iv.take(i as int));
                    assert(t.last() == iv[i as int]);
                    assert(items_view(out@) =~= items_view(before).push(y@));
                }
                i = i + 1;
            }
            assert(iv.take(i as int) =~= iv);
            let r = JsonValue::Array(out);
            proof {
                lemma_view_parts(r);
            }
            Some(r)
        },
        _ => {
            if b - a >= 2 {
                assert(seg[0] == p@[a as int]);
                assert(seg.last() == p@[b - 1]);
            }
            if b - a >= 2 && p[a] == '{' && p[b - 1] == '}' {
                assert(seg.subrange(1, seg.len() - 1) =~= p@.subrange(a + 1, b - 1));
                let fields = select_group_at(v, p, a + 1, b - 1);
                let r = JsonValue::Object(fields);
                proof {
                    lemma_view_parts(r);
                }
                return Some(r);
            }
            match classify(p, a, b) {
                Form::Index(k) => {
                    let field = string_of(p, a, k);
                    let ghost digits = p@.subrange(k + 1, b - 1);
                    assert(digits.len() > 0 && all_decimal(digits));
                    assert(is_decimal_digit(digits[0]));
                    match v.get(field.as_str()) {
                        Some(x) => {
                            proof {
                                lemma_view_parts(*x);
                            }
                            match x {
                                JsonValue::Array(items) => {
                                    let n = items.len();
                                    assert(items_view(items@).len() == n);
                                    match parse_usize(p, k + 1, b - 1) {
                                    Some(index) => {
                                        if index < n {
                                            match select_path_at(&items[index], p, c, d) {
                                                Some(y) => Some(single_value(field, y)),
                                                None => None,
                                            }
                                        } else {
                                            None
                                        }
                                    },
                                    None => None,
                                    }
                                },
                                _ => None,
                            }
                        },
                        None => None,
                    }
                },
                Form::Filter(k, e) => {
                    let field = string_of(p, a, k);
                    let key = string_of(p, k + 1, e);
                    let expected = string_of(p, e + 1, b - 1);
                    match v.get(field.as_str()) {
                        Some(x) => {
                            proof {
                                lemma_view_parts(*x);
                            }
                            match x {
                                JsonValue::Array(items) => {
                                    let ghost iv = items_view(items@);
                                    let mut out: Vec<JsonValue> = Vec::new();
                                    let mut i: usize = 0;
                                    assert(iv.take(0) =~= Seq::<Json>::empty());
                                    assert(items_view(out@) =~= Seq::<Json>::empty());
                                    while i < items.len()
                                        invariant
                                            0 <= i <= items@.len(),
                                            iv == items_view(items@),
                                            items_view(out@) == select_matching(
                                                iv.take(i as int),
                                                key@,
                                                expected@,
                                                rest,
                                            ),
                                        decreases items@.len() - i,
                                    {
                                        let hit = match items[i].get(key.as_str()) {
                                            Some(actual) => crate::json_path::matches(actual, expected.as_str()),
                                            None => false,
                                        };
                                        let ghost before = out@;
                                        proof {
                                            let t = iv.take(i + 1);
                                            assert(t.drop_last() =~= iv.take(i as int));
                                            assert(t.last() == iv[i as int]);
                                        }
                                        if hit {
                                            let y = match select_path_at(&items[i], p, c, d) {
                                                Some(y) => y,
                                                None => empty_object(),
                                            };
                                            out.push(y);
                                            assert(items_view(out@) =~= items_view(before).push(y@));
                                        }
                                        i = i + 1;
                                    }
                                    assert(iv.take(i as int) =~= iv);
                                    let arr = JsonValue::Array(out);
                                    proof {
                                        lemma_view_parts(arr);
                                    }
                                    Some(single_value(field, arr))
                                },
                                _ => None,
                            }
                        },
                        None => None,
                    }
                },
                Form::Key => {
                    let name = string_of(p, a, b);
                    match v.get(name.as_str()) {
                        Some(child) => match select_path_at(child, p, c, d) {
                            Some(y) => Some(single_value(name, y)),
                            None => None,
                        },
                        None => None,
                    }
                },
            }
        },
    }
}

/// The fields that the members of the group `p[lo..hi]` select from `v`.
fn select_group_at(v: &JsonValue, p: &[char], lo: usize, hi: usize) -> (r: Vec<(String, JsonValue)>)
    requires
        lo <= hi <= p@.len(),
    ensures
        entries_view(r@) == select_group(v@, p@.subrange(lo as int, hi as int)),
    decreases hi - lo, *v, 2int,
{
    let ghost inner = p@.subrange(lo as int, hi as int);
    if lo == hi {
        let r: Vec<(String, JsonValue)> = Vec::new();
        assert(entries_view(r@) =~= Seq::empty());
        return r;
    }
    match find_top_separator(p, lo, hi, false) {
        Some(k) => {
            assert(inner.skip(k - lo + 1) =~= p@.subrange(k + 1, hi as int));
            let first = if k == lo {
                let r: Vec<(String, JsonValue)> = Vec::new();
                assert(entries_view(r@) =~= Seq::empty());
                r
            } else {
                assert(inner.take(k - lo) =~= p@.subrange(lo as int, k as int));
                fields_vec(select_path_at(v, p, lo, k))
            };
            let others = select_group_at(v, p, k + 1, hi);
            absorb_fields(first, &others)
        },
        None => fields_vec(select_path_at(v, p, lo, hi)),
    }
}

/// What `path` selects from `root`, keeping the shape of the path: each field it passes
/// through stays as a one-field object, an array is read item by item (an empty object
/// where an item has nothing to select), `field[key=value]` keeps every matching item,
/// `field[n]` the item at `n`, and a group `{p q}` (or `{p, q}`) gathers the fields its
/// members select, the first of a name kept. `None` where a field that the path names
/// is missing, or where `field[..]` finds no array or no item at the index.
pub fn select(root: &JsonValue, path: &str) -> (r: Option<JsonValue>)
    ensures
        opt_json(r) == select_path(root@, path@),
        json_valid(root@) ==> (r matches Some(v) ==> json_valid(v@)),
{
    proof {
        if json_valid(root@) {
            law_select_keeps_validity(root@, path@);
        }
    }
    let p = chars_of(path);
    assert(p@.subrange(0, p@.len() as int) =~= p@);
    select_path_at(root, &p, 0, p.len())
}

} // verus!
