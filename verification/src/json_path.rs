//! JSON paths: `/`-separated segments, each a field name, `field[index]`
//! or `field[key=value]` (the first array item whose `key` matches `value`).
use vstd::prelude::*;
use crate::json::{Json, JsonValue, spec_get, literal_bool, items_view, lemma_view_parts, json_valid, valid_items, lemma_valid_items_index, lemma_valid_items_all, lemma_valid_get};
use crate::num::{all_digits, all_decimal, decimal_digit, digits_value, is_decimal_digit, parse_usize};
use crate::text::{find_char, eq_ignore_case, range_eq, range_eq_ignore_case, chars_of, string_of};

verus! {

/// Why a path cannot be followed.
#[derive(Debug)]
pub enum PathError {
    /// `field[..]` names no field of the current value.
    MissingArrayField(String),
    /// `field[..]` names a field that is not an array.
    NotAnArray(String),
    /// `field[index]` with an index past the end of the array.
    IndexOutOfBounds(String, usize),
    /// `field[digits]` whose digits do not fit in a `usize`.
    InvalidIndex(String),
    /// `field[key=value]` that no item of the array matches.
    NoMatchingItem(String, String, String),
    /// A plain segment that names no field of the current value.
    MissingField(String),
}

/// The content of a `PathError`.
pub enum PathErrorView {
    MissingArrayField(Seq<char>),
    NotAnArray(Seq<char>),
    IndexOutOfBounds(Seq<char>, int),
    InvalidIndex(Seq<char>),
    NoMatchingItem(Seq<char>, Seq<char>, Seq<char>),
    MissingField(Seq<char>),
}

impl View for PathError {
    type V = PathErrorView;

    open spec fn view(&self) -> PathErrorView {
        match self {
            PathError::MissingArrayField(f) => PathErrorView::MissingArrayField(f@),
            PathError::NotAnArray(f) => PathErrorView::NotAnArray(f@),
            PathError::IndexOutOfBounds(f, i) => PathErrorView::IndexOutOfBounds(f@, *i as int),
            PathError::InvalidIndex(d) => PathErrorView::InvalidIndex(d@),
            PathError::NoMatchingItem(f, k, v) => PathErrorView::NoMatchingItem(f@, k@, v@),
            PathError::MissingField(f) => PathErrorView::MissingField(f@),
        }
    }
}

/// What a segment asks for.
pub enum SegmentForm {
    /// `field[digits]`.
    Index(Seq<char>, Seq<char>),
    /// `field[key=value]`.
    Filter(Seq<char>, Seq<char>, Seq<char>),
    /// Any other segment: a field name.
    Key(Seq<char>),
}

pub open spec fn no_brackets(s: Seq<char>) -> bool {
    forall|i: int| 0 <= i < s.len() ==> s[i] != '[' && s[i] != ']'
}

/// `field` and the text between the brackets, for a segment `field[...]` whose field is
/// nonempty and free of brackets and whose bracket text is free of brackets.
pub open spec fn bracket_parts(seg: Seq<char>) -> Option<(Seq<char>, Seq<char>)> {
    if seg.len() >= 2 && seg.last() == ']' {
        match find_char(seg, '[') {
            Some(k) => {
                let field = seg.take(k);
                let inner = seg.subrange(k + 1, seg.len() - 1);
                if 1 <= k < seg.len() - 1 && no_brackets(field) && no_brackets(inner) {
                    Some((field, inner))
                } else {
                    None
                }
            },
            None => None,
        }
    } else {
        None
    }
}

/// The form of a segment, as the patterns `^([^\[\]]+)\[(\d+)\]$` and
/// `^([^\[\]]+)\[([^=\[\]]+)=([^\[\]]*)\]$` read it, in that order.
pub open spec fn segment_form(seg: Seq<char>) -> SegmentForm {
    match bracket_parts(seg) {
        Some((field, inner)) => {
            if inner.len() > 0 && all_decimal(inner) {
                SegmentForm::Index(field, inner)
            } else {
                match find_char(inner, '=') {
                    Some(e) => {
                        if e >= 1 {
                            SegmentForm::Filter(field, inner.take(e), inner.skip(e + 1))
                        } else {
                            SegmentForm::Key(seg)
                        }
                    },
                    None => SegmentForm::Key(seg),
                }
            }
        },
        None => SegmentForm::Key(seg),
    }
}

/// Whether a scalar matches the text of a `[key=value]` filter.
pub open spec fn spec_matches(v: Json, expected: Seq<char>) -> bool {
    match v {
        Json::Null => eq_ignore_case(expected, crate::json::literal_null()),
        Json::Bool(b) => eq_ignore_case(literal_bool(b), expected),
        Json::Number(t) => t == expected,
        Json::Str(s) => s == expected,
        _ => false,
    }
}

/// The first item of `items` whose field `key` matches `expected`.
pub open spec fn first_match(items: Seq<Json>, key: Seq<char>, expected: Seq<char>) -> Option<Json>
    decreases items.len(),
{
    if items.len() == 0 {
        None
    } else if spec_get(items[0], key) matches Some(actual) && spec_matches(actual, expected) {
        Some(items[0])
    } else {
        first_match(items.drop_first(), key, expected)
    }
}

/// One step of a path.
pub open spec fn resolve_segment(cur: Json, seg: Seq<char>) -> Result<Json, PathErrorView> {
    match segment_form(seg) {
        SegmentForm::Index(field, digits) => {
            let index = digits_value(digits);
            if !all_digits(digits) || index > usize::MAX {
                Err(PathErrorView::InvalidIndex(digits))
            } else {
                match spec_get(cur, field) {
                    None => Err(PathErrorView::MissingArrayField(field)),
                    Some(Json::Array(items)) => {
                        if index < items.len() {
                            Ok(items[index])
                        } else {
                            Err(PathErrorView::IndexOutOfBounds(field, index))
                        }
                    },
                    Some(_) => Err(PathErrorView::NotAnArray(field)),
                }
            }
        },
        SegmentForm::Filter(field, key, expected) => match spec_get(cur, field) {
            None => Err(PathErrorView::MissingArrayField(field)),
            Some(Json::Array(items)) => match first_match(items, key, expected) {
                Some(item) => Ok(item),
                None => Err(PathErrorView::NoMatchingItem(field, key, expected)),
            },
            Some(_) => Err(PathErrorView::NotAnArray(field)),
        },
        SegmentForm::Key(name) => match spec_get(cur, name) {
            Some(v) => Ok(v),
            None => Err(PathErrorView::MissingField(name)),
        },
    }
}

/// The nonempty pieces of `path` between slashes.
pub open spec fn path_segments(path: Seq<char>) -> Seq<Seq<char>>
    decreases path.len(),
{
    match find_char(path, '/') {
        Some(i) => {
            if 0 <= i < path.len() {
                (if i > 0 {
                    seq![path.take(i)]
                } else {
                    Seq::empty()
                }) + path_segments(path.skip(i + 1))
            } else {
                Seq::empty()
            }
        },
        None => if path.len() > 0 {
            seq![path]
        } else {
            Seq::empty()
        },
    }
}

/// Follows the segments one after the other, stopping at the first error.
pub open spec fn resolve_segments(cur: Json, segs: Seq<Seq<char>>) -> Result<Json, PathErrorView>
    decreases segs.len(),
{
    if segs.len() == 0 {
        Ok(cur)
    } else {
        match resolve_segment(cur, segs[0]) {
            Ok(next) => resolve_segments(next, segs.drop_first()),
            Err(e) => Err(e),
        }
    }
}

/// The value that `path` leads to from `root`.
pub open spec fn spec_resolve(root: Json, path: Seq<char>) -> Result<Json, PathErrorView> {
    resolve_segments(root, path_segments(path))
}

fn has_bracket(s: &[char], lo: usize, hi: usize) -> (b: bool)
    requires
        lo <= hi <= s@.len(),
    ensures
        b == !no_brackets(s@.subrange(lo as int, hi as int)),
{
    let mut i = lo;
    while i < hi
        invariant
            lo <= i <= hi <= s@.len(),
            forall|j: int| lo <= j < i ==> s@[j] != '[' && s@[j] != ']',
        decreases hi - i,
    {
        if s[i] == '[' || s[i] == ']' {
            assert(s@.subrange(lo as int, hi as int)[i - lo] == s@[i as int]);
            return true;
        }
        i = i + 1;
    }
    assert forall|j: int| 0 <= j < hi - lo implies s@.subrange(lo as int, hi as int)[j] != '['
        && s@.subrange(lo as int, hi as int)[j] != ']' by {
        assert(s@.subrange(lo as int, hi as int)[j] == s@[lo + j]);
    }
    false
}

fn only_decimal(s: &[char], lo: usize, hi: usize) -> (b: bool)
    requires
        lo <= hi <= s@.len(),
    ensures
        b == all_decimal(s@.subrange(lo as int, hi as int)),
{
    let mut i = lo;
    while i < hi
        invariant
            lo <= i <= hi <= s@.len(),
            forall|j: int| lo <= j < i ==> is_decimal_digit(#[trigger] s@[j]),
        decreases hi - i,
    {
        if !decimal_digit(s[i]) {
            assert(s@.subrange(lo as int, hi as int)[i - lo] == s@[i as int]);
            return false;
        }
        i = i + 1;
    }
    assert forall|j: int| 0 <= j < hi - lo implies is_decimal_digit(
        #[trigger] s@.subrange(lo as int, hi as int)[j],
    ) by {
        assert(s@.subrange(lo as int, hi as int)[j] == s@[lo + j]);
    }
    true
}

/// Positions in `s[lo..hi]` of the parts of a bracketed segment.
pub(crate) enum Form {
    Index(usize),
    Filter(usize, usize),
    Key,
}

pub(crate) fn classify(s: &[char], lo: usize, hi: usize) -> (r: Form)
    requires
        lo <= hi <= s@.len(),
    ensures
        ({
            let seg = s@.subrange(lo as int, hi as int);
            match r {
                Form::Index(k) => lo < k && k + 1 < hi - 1 && hi >= 2 && segment_form(seg) == SegmentForm::Index(
                    s@.subrange(lo as int, k as int),
                    s@.subrange(k + 1, hi - 1),
                ),
                Form::Filter(k, e) => lo < k < e < hi - 1 && segment_form(seg)
                    == SegmentForm::Filter(
                    s@.subrange(lo as int, k as int),
                    s@.subrange(k + 1, e as int),
                    s@.subrange(e + 1, hi - 1),
                ),
                Form::Key => segment_form(seg) == SegmentForm::Key(seg),
            }
        }),
{
    let ghost seg = s@.subrange(lo as int, hi as int);
    if hi - lo < 2 || s[hi - 1] != ']' {
        return Form::Key;
    }
    assert(seg.last() == s@[hi - 1]);
    let k = match crate::text::find_in(s, lo, hi, '[') {
        Some(k) => k,
        None => {
            return Form::Key;
        },
    };
    assert(seg.take(k - lo) =~= s@.subrange(lo as int, k as int));
    proof {
        crate::text::lemma_find_char(seg, '[');
        assert(seg[k - lo] == s@[k as int]);
    }
    if !(lo + 1 <= k && k < hi - 1) {
        return Form::Key;
    }
    assert(seg.subrange(k - lo + 1, seg.len() - 1) =~= s@.subrange(k + 1, hi - 1));
    if has_bracket(s, lo, k) || has_bracket(s, k + 1, hi - 1) {
        return Form::Key;
    }
    if k + 1 < hi - 1 && only_decimal(s, k + 1, hi - 1) {
        return Form::Index(k);
    }
    let ghost inner = s@.subrange(k + 1, hi - 1);
    match crate::text::find_in(s, k + 1, hi - 1, '=') {
        Some(e) => {
            if e >= k + 2 {
                assert(inner.take(e - k - 1) =~= s@.subrange(k + 1, e as int));
                assert(inner.skip(e - k) =~= s@.subrange(e + 1, hi - 1));
                Form::Filter(k, e)
            } else {
                Form::Key
            }
        },
        None => Form::Key,
    }
}

/// Whether a value matches the text of a filter.
pub fn matches(v: &JsonValue, expected: &str) -> (b: bool)
    ensures
        b == spec_matches(v@, expected@),
{
    let e = chars_of(expected);
    assert(e@.subrange(0, e@.len() as int) =~= e@);
    match v {
        JsonValue::Null => {
            let lit = chars_of("null");
            proof {
                reveal_strlit("null");
                assert(lit@ =~= crate::json::literal_null());
            }
            range_eq_ignore_case(&e, 0, e.len(), &lit)
        },
        JsonValue::Bool(b) => {
            let lit = if *b {
                chars_of("true")
            } else {
                chars_of("false")
            };
            proof {
                reveal_strlit("true");
                reveal_strlit("false");
                assert(lit@ =~= literal_bool(*b));
                assert(eq_ignore_case(literal_bool(*b), e@) == eq_ignore_case(e@, literal_bool(*b)));
            }
            range_eq_ignore_case(&e, 0, e.len(), &lit)
        },
        JsonValue::Number(t) => {
            let tc = chars_of(t.as_str());
            range_eq(&e, 0, e.len(), &tc)
        },
        JsonValue::Str(t) => {
            let tc = chars_of(t.as_str());
            range_eq(&e, 0, e.len(), &tc)
        },
        _ => false,
    }
}

/// One step of a path: from `cur` along the segment `p[lo..hi]`.
#[verifier::loop_isolation(false)]
fn step(cur: &JsonValue, p: &[char], lo: usize, hi: usize) -> (r: Result<JsonValue, PathError>)
    requires
        lo <= hi <= p@.len(),
    ensures
        match r {
            Ok(v) => resolve_segment(cur@, p@.subrange(lo as int, hi as int)) == Ok::<
                Json,
                PathErrorView,
            >(v@),
            Err(e) => resolve_segment(cur@, p@.subrange(lo as int, hi as int)) == Err::<
                Json,
                PathErrorView,
            >(e@),
        },
{
    let ghost seg = p@.subrange(lo as int, hi as int);
    match classify(p, lo, hi) {
        Form::Index(k) => {
            let field = string_of(p, lo, k);
            let ghost digits = p@.subrange(k + 1, hi - 1);
            assert(digits.len() > 0 && all_decimal(digits));
            assert(is_decimal_digit(digits[0]));
            match parse_usize(p, k + 1, hi - 1) {
                None => Err(PathError::InvalidIndex(string_of(p, k + 1, hi - 1))),
                Some(index) => match cur.get(field.as_str()) {
                    None => Err(PathError::MissingArrayField(field)),
                    Some(x) => {
                        proof {
                            lemma_view_parts(*x);
                        }
                        match x {
                            JsonValue::Array(items) => {
                                if index < items.len() {
                                    Ok(items[index].clone_value())
                                } else {
                                    Err(PathError::IndexOutOfBounds(field, index))
                                }
                            },
                            _ => Err(PathError::NotAnArray(field)),
                        }
                    },
                },
            }
        },
        Form::Filter(k, e) => {
            let field = string_of(p, lo, k);
            let key = string_of(p, k + 1, e);
            let expected = string_of(p, e + 1, hi - 1);
            match cur.get(field.as_str()) {
                None => Err(PathError::MissingArrayField(field)),
                Some(x) => {
                    proof {
                        lemma_view_parts(*x);
                    }
                    match x {
                        JsonValue::Array(items) => {
                            let ghost iv = items_view(items@);
                            let mut i: usize = 0;
                            assert(iv.skip(0) =~= iv);
                            while i < items.len()
                                invariant
                                    0 <= i <= items@.len(),
                                    iv == items_view(items@),
                                    first_match(iv, key@, expected@) == first_match(
                                        iv.skip(i as int),
                                        key@,
                                        expected@,
                                    ),
                                decreases items@.len() - i,
                            {
                                let ghost rest = iv.skip(i as int);
                                assert(rest[0] == items@[i as int]@);
                                match items[i].get(key.as_str()) {
                                    Some(actual) => {
                                        if matches(actual, expected.as_str()) {
                                            return Ok(items[i].clone_value());
                                        }
                                    },
                                    None => {},
                                }
                                assert(rest.drop_first() =~= iv.skip(i + 1));
                                i = i + 1;
                            }
                            assert(iv.skip(i as int) =~= Seq::<Json>::empty());
                            Err(PathError::NoMatchingItem(field, key, expected))
                        },
                        _ => Err(PathError::NotAnArray(field)),
                    }
                },
            }
        },
        Form::Key => {
            let name = string_of(p, lo, hi);
            match cur.get(name.as_str()) {
                Some(v) => Ok(v.clone_value()),
                None => Err(PathError::MissingField(name)),
            }
        },
    }
}

/// Follows `path` from `root`: each nonempty piece between slashes is one segment.
pub fn resolve(root: &JsonValue, path: &str) -> (r: Result<JsonValue, PathError>)
    ensures
        match r {
            Ok(v) => spec_resolve(root@, path@) == Ok::<Json, PathErrorView>(v@),
            Err(e) => spec_resolve(root@, path@) == Err::<Json, PathErrorView>(e@),
        },
        json_valid(root@) ==> (r matches Ok(v) ==> json_valid(v@)),
{
    proof {
        if json_valid(root@) {
            law_resolve_keeps_validity(root@, path@);
        }
    }
    let p = chars_of(path);
    let n = p.len();
    let mut current = root.clone_value();
    let mut pos: usize = 0;
    assert(p@.skip(0) =~= p@);
    while pos < n
        invariant
            n == p@.len(),
            p@ == path@,
            pos <= n,
            spec_resolve(root@, path@) == resolve_segments(
                current@,
                path_segments(p@.skip(pos as int)),
            ),
        decreases n - pos,
    {
        let ghost rest = p@.skip(pos as int);
        match crate::text::find_in(&p, pos, n, '/') {
            Some(k) => {
                assert(p@.subrange(pos as int, n as int) =~= rest);
                assert(rest.skip(k - pos + 1) =~= p@.skip(k + 1));
                assert(rest.take(k - pos) =~= p@.subrange(pos as int, k as int));
                let ghost tail = path_segments(p@.skip(k + 1));
                if k > pos {
                    assert((seq![rest.take(k - pos)] + tail)[0] == rest.take(k - pos));
                    assert((seq![rest.take(k - pos)] + tail).drop_first() =~= tail);
                    match step(&current, &p, pos, k) {
                        Ok(v) => {
                            current = v;
                        },
                        Err(e) => {
                            return Err(e);
                        },
                    }
                } else {
                    assert(Seq::<Seq<char>>::empty() + tail =~= tail);
                }
                pos = k + 1;
            },
            None => {
                assert(p@.subrange(pos as int, n as int) =~= rest);
                assert(seq![rest][0] == rest);
                assert(seq![rest].drop_first() =~= Seq::<Seq<char>>::empty());
                match step(&current, &p, pos, n) {
                    Ok(v) => {
                        current = v;
                    },
                    Err(e) => {
                        return Err(e);
                    },
                }
                pos = n;
            },
        }
    }
    assert(p@.skip(n as int) =~= Seq::<char>::empty());
    Ok(current)
}

proof fn lemma_first_match_valid(items: Seq<Json>, key: Seq<char>, expected: Seq<char>)
    requires
        valid_items(items),
    ensures
        first_match(items, key, expected) matches Some(x) ==> json_valid(x),
    decreases items.len(),
{
    if items.len() > 0 {
        lemma_valid_items_index(items, 0);
        assert forall|i: int| 0 <= i < items.drop_first().len() implies json_valid(
            #[trigger] items.drop_first()[i],
        ) by {
            lemma_valid_items_index(items, i + 1);
        }
        lemma_valid_items_all(items.drop_first());
        lemma_first_match_valid(items.drop_first(), key, expected);
    }
}

proof fn lemma_segment_valid(cur: Json, seg: Seq<char>)
    requires
        json_valid(cur),
    ensures
        resolve_segment(cur, seg) matches Ok(x) ==> json_valid(x),
{
    match segment_form(seg) {
        SegmentForm::Index(field, digits) => {
            lemma_valid_get(cur, field);
            match spec_get(cur, field) {
                Some(Json::Array(items)) => {
                    assert(valid_items(items));
                    let index = digits_value(digits);
                    if all_digits(digits) {
                        crate::num::lemma_digits_value_nonneg(digits);
                    }
                    if all_digits(digits) && 0 <= index < items.len() {
                        lemma_valid_items_index(items, index);
                    }
                },
                _ => {},
            }
        },
        SegmentForm::Filter(field, key, expected) => {
            lemma_valid_get(cur, field);
            match spec_get(cur, field) {
                Some(Json::Array(items)) => {
                    assert(valid_items(items));
                    lemma_first_match_valid(items, key, expected);
                },
                _ => {},
            }
        },
        SegmentForm::Key(name) => {
            lemma_valid_get(cur, name);
        },
    }
}

proof fn lemma_segments_valid(cur: Json, segs: Seq<Seq<char>>)
    requires
        json_valid(cur),
    ensures
        resolve_segments(cur, segs) matches Ok(x) ==> json_valid(x),
    decreases segs.len(),
{
    if segs.len() > 0 {
        lemma_segment_valid(cur, segs[0]);
        if let Ok(next) = resolve_segment(cur, segs[0]) {
            lemma_segments_valid(next, segs.drop_first());
        }
    }
}

/// What a path leads to in a valid value is valid.
pub proof fn law_resolve_keeps_validity(root: Json, path: Seq<char>)
    requires
        json_valid(root),
    ensures
        spec_resolve(root, path) matches Ok(x) ==> json_valid(x),
{
    lemma_segments_valid(root, path_segments(path));
}

proof fn lemma_path_segments_concat(p: Seq<char>, q: Seq<char>)
    ensures
        path_segments(p + seq!['/'] + q) == path_segments(p) + path_segments(q),
    decreases p.len(),
{
    let s = p + seq!['/'] + q;
    crate::text::lemma_find_char(p, '/');
    match find_char(p, '/') {
        Some(i) => {
            assert forall|j: int| 0 <= j < i implies s[j] != '/' by {
                assert(s[j] == p[j]);
            }
            assert(s[i] == p[i]);
            crate::text::lemma_find_char_at(s, '/', i);
            assert(s.take(i) =~= p.take(i));
            assert(s.skip(i + 1) =~= p.skip(i + 1) + seq!['/'] + q);
            lemma_path_segments_concat(p.skip(i + 1), q);
            let head: Seq<Seq<char>> = if i > 0 {
                seq![p.take(i)]
            } else {
                Seq::empty()
            };
            assert(path_segments(s) == head + path_segments(s.skip(i + 1)));
            assert(path_segments(p) == head + path_segments(p.skip(i + 1)));
            assert(head + (path_segments(p.skip(i + 1)) + path_segments(q)) =~= head
                + path_segments(p.skip(i + 1)) + path_segments(q));
        },
        None => {
            assert forall|j: int| 0 <= j < p.len() implies s[j] != '/' by {
                assert(s[j] == p[j]);
            }
            assert(s[p.len() as int] == '/');
            crate::text::lemma_find_char_at(s, '/', p.len() as int);
            assert(s.take(p.len() as int) =~= p);
            assert(s.skip(p.len() as int + 1) =~= q);
            if p.len() > 0 {
                assert(path_segments(p) == seq![p]);
            } else {
                assert(path_segments(p) == Seq::<Seq<char>>::empty());
                assert(Seq::<Seq<char>>::empty() + path_segments(q) =~= path_segments(q));
            }
        },
    }
}

proof fn lemma_resolve_segments_concat(cur: Json, a: Seq<Seq<char>>, b: Seq<Seq<char>>)
    ensures
        resolve_segments(cur, a + b) == match resolve_segments(cur, a) {
            Ok(v) => resolve_segments(v, b),
            Err(e) => Err(e),
        },
    decreases a.len(),
{
    if a.len() > 0 {
        assert((a + b)[0] == a[0]);
        assert((a + b).drop_first() =~= a.drop_first() + b);
        match resolve_segment(cur, a[0]) {
            Ok(next) => lemma_resolve_segments_concat(next, a.drop_first(), b),
            Err(_) => {},
        }
    } else {
        assert(a + b =~= b);
    }
}

/// A path with no segment, such as the empty path, gives back the whole value.
pub proof fn law_resolve_empty_path(root: Json)
    ensures
        spec_resolve(root, Seq::<char>::empty()) == Ok::<Json, PathErrorView>(root),
        spec_resolve(root, seq!['/']) == Ok::<Json, PathErrorView>(root),
{
    assert(find_char(Seq::<char>::empty(), '/') == None::<int>);
    assert(path_segments(Seq::<char>::empty()) =~= Seq::<Seq<char>>::empty());
    lemma_path_segments_concat(Seq::<char>::empty(), Seq::<char>::empty());
    assert(Seq::<char>::empty() + seq!['/'] + Seq::<char>::empty() =~= seq!['/']);
}

/// Following `p/q` is following `p`, then following `q` from where `p` led; an error on the
/// way through `p` is the error of the whole path.
pub proof fn law_resolve_concat(root: Json, p: Seq<char>, q: Seq<char>)
    ensures
        spec_resolve(root, p + seq!['/'] + q) == match spec_resolve(root, p) {
            Ok(v) => spec_resolve(v, q),
            Err(e) => Err(e),
        },
{
    lemma_path_segments_concat(p, q);
    lemma_resolve_segments_concat(root, path_segments(p), path_segments(q));
}

impl PathError {
    /// The message that reports the error.
    pub fn to_message(&self) -> (r: String)
        ensures
            r@ == match self@ {
                PathErrorView::MissingArrayField(f) => "JSON 中不存在数组字段: "@ + f,
                PathErrorView::NotAnArray(f) => "字段 "@ + f + " 不是数组"@,
                PathErrorView::IndexOutOfBounds(f, i) => "数组 "@ + f + " 下标越界: "@ + crate::num::dec(
                    i as nat,
                ),
                PathErrorView::InvalidIndex(_) => "number too large to fit in target type"@,
                PathErrorView::NoMatchingItem(f, k, v) => "数组 "@ + f + " 中不存在 "@ + k + seq!['=']
                    + v + " 的项目"@,
                PathErrorView::MissingField(f) => "JSON 中不存在字段: "@ + f,
            },
    {
        let mut m = String::new();
        match self {
            PathError::MissingArrayField(f) => {
                crate::text::push_str(&mut m, "JSON 中不存在数组字段: ");
                crate::text::push_str(&mut m, f.as_str());
            },
            PathError::NotAnArray(f) => {
                crate::text::push_str(&mut m, "字段 ");
                crate::text::push_str(&mut m, f.as_str());
                crate::text::push_str(&mut m, " 不是数组");
            },
            PathError::IndexOutOfBounds(f, i) => {
                crate::text::push_str(&mut m, "数组 ");
                crate::text::push_str(&mut m, f.as_str());
                crate::text::push_str(&mut m, " 下标越界: ");
                let d = crate::num::fmt_usize(*i);
                crate::text::push_str(&mut m, d.as_str());
            },
            PathError::InvalidIndex(_) => {
                crate::text::push_str(&mut m, "number too large to fit in target type");
            },
            PathError::NoMatchingItem(f, k, v) => {
                crate::text::push_str(&mut m, "数组 ");
                crate::text::push_str(&mut m, f.as_str());
                crate::text::push_str(&mut m, " 中不存在 ");
                crate::text::push_str(&mut m, k.as_str());
                crate::text::push_char(&mut m, '=');
                crate::text::push_str(&mut m, v.as_str());
                crate::text::push_str(&mut m, " 的项目");
            },
            PathError::MissingField(f) => {
                crate::text::push_str(&mut m, "JSON 中不存在字段: ");
                crate::text::push_str(&mut m, f.as_str());
            },
        }
        assert(m@ =~= match self@ {
            PathErrorView::MissingArrayField(f) => "JSON 中不存在数组字段: "@ + f,
            PathErrorView::NotAnArray(f) => "字段 "@ + f + " 不是数组"@,
            PathErrorView::IndexOutOfBounds(f, i) => "数组 "@ + f + " 下标越界: "@ + crate::num::dec(
                i as nat,
            ),
            PathErrorView::InvalidIndex(_) => "number too large to fit in target type"@,
            PathErrorView::NoMatchingItem(f, k, v) => "数组 "@ + f + " 中不存在 "@ + k + seq!['=']
                + v + " 的项目"@,
            PathErrorView::MissingField(f) => "JSON 中不存在字段: "@ + f,
        });
        m
    }
}


/// A `[key=value]` filter matches a string field exactly when the string is the filter's
/// text, and a number exactly when its text is the filter's text.
pub proof fn law_filter_matches_equal_text(s: Seq<char>, expected: Seq<char>)
    ensures
        spec_matches(Json::Str(s), expected) <==> s == expected,
        spec_matches(Json::Number(s), expected) <==> s == expected,
        spec_matches(Json::Str(s), s),
{
}

/// Where some item of an array has the string `expected` under `key`, `[key=expected]`
/// finds an item; whatever it finds is an item of the array whose field `key` matches.
pub proof fn law_filter_finds_string_field(items: Seq<Json>, key: Seq<char>, expected: Seq<char>, i: int)
    requires
        0 <= i < items.len(),
        spec_get(items[i], key) == Some(Json::Str(expected)),
    ensures
        first_match(items, key, expected) is Some,
        first_match(items, key, expected) matches Some(it) ==> items.contains(it) && (spec_get(
            it,
            key,
        ) matches Some(a) && spec_matches(a, expected)),
    decreases items.len(),
{
    if i > 0 {
        let first_hit = spec_get(items[0], key) matches Some(a) && spec_matches(a, expected);
        if !first_hit {
            assert(items.drop_first()[i - 1] == items[i]);
            law_filter_finds_string_field(items.drop_first(), key, expected, i - 1);
            if let Some(it) = first_match(items.drop_first(), key, expected) {
                let k = choose|k: int| 0 <= k < items.drop_first().len() && items.drop_first()[k] == it;
                assert(items[k + 1] == it);
            }
        } else {
            assert(items[0] == items[0]);
        }
    }
}

} // verus!
