//! A JSON value held as plain data, with object fields in document order,
//! and its compact serialisation.
use vstd::prelude::*;
use crate::text::push_str;
use crate::num::is_digit;

verus! {

broadcast use vstd::std_specs::vec::group_vec_axioms;

/// A JSON value. Numbers are kept as the text that `serde_json` prints for them;
/// objects keep their fields in document order.
#[derive(Debug)]
pub enum JsonValue {
    Null,
    Bool(bool),
    Number(String),
    Str(String),
    Array(Vec<JsonValue>),
    Object(Vec<(String, JsonValue)>),
}

/// The mathematical content of a JSON value.
pub enum Json {
    Null,
    Bool(bool),
    Number(Seq<char>),
    Str(Seq<char>),
    Array(Seq<Json>),
    Object(Seq<(Seq<char>, Json)>),
}

pub open spec fn json_view(v: JsonValue) -> Json
    decreases v,
{
    match v {
        JsonValue::Null => Json::Null,
        JsonValue::Bool(b) => Json::Bool(b),
        JsonValue::Number(t) => Json::Number(t@),
        JsonValue::Str(s) => Json::Str(s@),
        JsonValue::Array(items) => Json::Array(
            Seq::new(
                items@.len(),
                |i: int|
                    if 0 <= i < items@.len() {
                        json_view(items@[i])
                    } else {
                        Json::Null
                    },
            ),
        ),
        JsonValue::Object(entries) => Json::Object(
            Seq::new(
                entries@.len(),
                |i: int|
                    if 0 <= i < entries@.len() {
                        (entries@[i].0@, json_view(entries@[i].1))
                    } else {
                        (Seq::empty(), Json::Null)
                    },
            ),
        ),
    }
}

impl View for JsonValue {
    type V = Json;

    open spec fn view(&self) -> Json {
        json_view(*self)
    }
}

/// The view of an optional value.
pub open spec fn opt_json(v: Option<JsonValue>) -> Option<Json> {
    match v {
        Some(j) => Some(j@),
        None => None,
    }
}

/// The value of the first field named `key` among `entries`.
pub open spec fn entries_get(entries: Seq<(Seq<char>, Json)>, key: Seq<char>) -> Option<Json>
    decreases entries.len(),
{
    if entries.len() == 0 {
        None
    } else if entries[0].0 == key {
        Some(entries[0].1)
    } else {
        entries_get(entries.drop_first(), key)
    }
}

/// `Value::get` with a string key: the field of an object, `None` for any other value.
pub open spec fn spec_get(v: Json, key: Seq<char>) -> Option<Json> {
    match v {
        Json::Object(entries) => entries_get(entries, key),
        _ => None,
    }
}

/// A lower-case hexadecimal digit.
pub open spec fn lower_hex_digit(d: int) -> char {
    if d < 10 {
        ((d + 48) as u32) as char
    } else {
        ((d + 87) as u32) as char
    }
}

/// How `serde_json` writes one character inside a JSON string: `"` and `\` after a
/// backslash, the short escapes `\b`, `\t`, `\n`, `\f`, `\r`, any other character below
/// U+0020 as `\u00XX` in lower-case hexadecimal, and every other character as it is.
pub open spec fn json_escape_char(c: char) -> Seq<char> {
    if c == '"' {
        seq!['\\', '"']
    } else if c == '\\' {
        seq!['\\', '\\']
    } else if c == '\u{8}' {
        seq!['\\', 'b']
    } else if c == '\t' {
        seq!['\\', 't']
    } else if c == '\n' {
        seq!['\\', 'n']
    } else if c == '\u{c}' {
        seq!['\\', 'f']
    } else if c == '\r' {
        seq!['\\', 'r']
    } else if (c as u32) < 0x20 {
        seq!['\\', 'u', '0', '0', lower_hex_digit(((c as u32) / 16) as int), lower_hex_digit(
            ((c as u32) % 16) as int,
        )]
    } else {
        seq![c]
    }
}

/// The escaped characters of a string.
pub open spec fn json_escaped(s: Seq<char>) -> Seq<char>
    decreases s.len(),
{
    if s.len() == 0 {
        seq![]
    } else {
        json_escaped(s.drop_last()) + json_escape_char(s.last())
    }
}

/// The text that `serde_json` writes for a JSON string holding `s`: the escaped characters
/// between double quotes.
pub open spec fn spec_json_quote(s: Seq<char>) -> Seq<char> {
    seq!['"'] + json_escaped(s) + seq!['"']
}

/// Calls `serde_json::to_string` on a string slice, which writes the JSON string as
/// `spec_json_quote` states (the escape table of `serde_json::ser`; it never fails on a
/// string).
#[verifier::external_body]
pub(crate) fn json_quote(s: &str) -> (r: String)
    ensures
        r@ == spec_json_quote(s@),
{
    match serde_json::to_string(s) {
        Ok(t) => t,
        Err(_) => String::new(),
    }
}

pub open spec fn literal_null() -> Seq<char> {
    seq!['n', 'u', 'l', 'l']
}

pub open spec fn literal_bool(b: bool) -> Seq<char> {
    if b {
        seq!['t', 'r', 'u', 'e']
    } else {
        seq!['f', 'a', 'l', 's', 'e']
    }
}

/// `serde_json::to_string` of a value: the compact form, no spaces.
pub open spec fn compact(v: Json) -> Seq<char>
    decreases v,
{
    match v {
        Json::Null => literal_null(),
        Json::Bool(b) => literal_bool(b),
        Json::Number(t) => t,
        Json::Str(s) => spec_json_quote(s),
        Json::Array(items) => seq!['['] + compact_items(items) + seq![']'],
        Json::Object(entries) => seq!['{'] + compact_entries(entries) + seq!['}'],
    }
}

/// The compact forms of `items`, separated by commas.
pub open spec fn compact_items(items: Seq<Json>) -> Seq<char>
    decreases items,
{
    if items.len() == 0 {
        seq![]
    } else if items.len() == 1 {
        compact(items[0])
    } else {
        compact_items(items.drop_last()) + seq![','] + compact(items.last())
    }
}

/// The compact forms of the fields `"key":value`, separated by commas.
pub open spec fn compact_entries(entries: Seq<(Seq<char>, Json)>) -> Seq<char>
    decreases entries,
{
    if entries.len() == 0 {
        seq![]
    } else if entries.len() == 1 {
        spec_json_quote(entries[0].0) + seq![':'] + compact(entries[0].1)
    } else {
        compact_entries(entries.drop_last()) + seq![','] + spec_json_quote(entries.last().0)
            + seq![':'] + compact(entries.last().1)
    }
}

/// The view of the fields of an object.
pub open spec fn entries_view(entries: Seq<(String, JsonValue)>) -> Seq<(Seq<char>, Json)> {
    Seq::new(entries.len(), |i: int| (entries[i].0@, entries[i].1@))
}

/// The view of the items of an array.
pub open spec fn items_view(items: Seq<JsonValue>) -> Seq<Json> {
    Seq::new(items.len(), |i: int| items[i]@)
}

pub proof fn lemma_view_parts(v: JsonValue)
    ensures
        v matches JsonValue::Array(items) ==> v@ == Json::Array(items_view(items@)),
        v matches JsonValue::Object(entries) ==> v@ == Json::Object(entries_view(entries@)),
{
    match v {
        JsonValue::Array(items) => {
            assert(v@ == Json::Array(items_view(items@))) by {
                if let Json::Array(s) = v@ {
                    assert(s =~= items_view(items@));
                }
            }
        },
        JsonValue::Object(entries) => {
            assert(v@ == Json::Object(entries_view(entries@))) by {
                if let Json::Object(s) = v@ {
                    assert(s =~= entries_view(entries@));
                }
            }
        },
        _ => {},
    }
}

/// Index of the first field named `key`.
pub fn find_entry(entries: &Vec<(String, JsonValue)>, key: &str) -> (r: Option<usize>)
    ensures
        match r {
            Some(i) => i < entries@.len() && entries@[i as int].0@ == key@ && entries_get(
                entries_view(entries@),
                key@,
            ) == Some(entries@[i as int].1@),
            None => entries_get(entries_view(entries@), key@) == None::<Json>,
        },
{
    let ghost ev = entries_view(entries@);
    let mut i: usize = 0;
    assert(ev.skip(0) =~= ev);
    while i < entries.len()
        invariant
            0 <= i <= entries@.len(),
            ev == entries_view(entries@),
            entries_get(ev, key@) == entries_get(ev.skip(i as int), key@),
        decreases entries@.len() - i,
    {
        let ghost rest = ev.skip(i as int);
        if str_eq(entries[i].0.as_str(), key) {
            assert(rest[0] == ev[i as int]);
            return Some(i);
        }
        assert(rest.drop_first() =~= ev.skip(i + 1));
        i = i + 1;
    }
    assert(ev.skip(i as int) =~= Seq::<(Seq<char>, Json)>::empty());
    None
}

/// Equality of two string slices by their characters.
pub fn str_eq(a: &str, b: &str) -> (r: bool)
    ensures
        r == (a@ == b@),
{
    let x = crate::text::chars_of(a);
    let y = crate::text::chars_of(b);
    assert(x@.subrange(0, x@.len() as int) =~= x@);
    crate::text::range_eq(&x, 0, x.len(), &y)
}

impl JsonValue {
    /// A copy of the value, with the same content.
    #[verifier::loop_isolation(false)]
    pub fn clone_value(&self) -> (r: JsonValue)
        ensures
            r@ == self@,
        decreases self,
    {
        proof {
            lemma_view_parts(*self);
        }
        match self {
            JsonValue::Null => JsonValue::Null,
            JsonValue::Bool(b) => JsonValue::Bool(*b),
            JsonValue::Number(t) => JsonValue::Number(t.clone()),
            JsonValue::Str(s) => JsonValue::Str(s.clone()),
            JsonValue::Array(items) => {
                let mut out: Vec<JsonValue> = Vec::new();
                let mut i: usize = 0;
                while i < items.len()
                    invariant
                        0 <= i <= items@.len(),
                        items_view(out@) == items_view(items@).take(i as int),
                    decreases items@.len() - i,
                {
                    assert(decreases_to!(*self => items@[i as int]));
                    let c = items[i].clone_value();
                    let ghost before = out@;
                    out.push(c);
                    i = i + 1;
                    assert forall|j: int| 0 <= j < i implies #[trigger] items_view(out@)[j]
                        == items_view(items@).take(i as int)[j] by {
                        if j < i - 1 {
                            assert(out@[j] == before[j]);
                            assert(items_view(before)[j] == items_view(items@).take(i - 1)[j]);
                        }
                    }
                    assert(items_view(out@) =~= items_view(items@).take(i as int));
                }
                assert(items_view(items@).take(i as int) =~= items_view(items@));
                let r = JsonValue::Array(out);
                proof {
                    lemma_view_parts(r);
                }
                r
            },
            JsonValue::Object(entries) => {
                let mut out: Vec<(String, JsonValue)> = Vec::new();
                let mut i: usize = 0;
                while i < entries.len()
                    invariant
                        0 <= i <= entries@.len(),
                        entries_view(out@) == entries_view(entries@).take(i as int),
                    decreases entries@.len() - i,
                {
                    assert(decreases_to!(*self => entries@[i as int].1));
                    let k = entries[i].0.clone();
                    let c = entries[i].1.clone_value();
                    let ghost before = out@;
                    out.push((k, c));
                    i = i + 1;
                    assert forall|j: int| 0 <= j < i implies #[trigger] entries_view(out@)[j]
                        == entries_view(entries@).take(i as int)[j] by {
                        if j < i - 1 {
                            assert(out@[j] == before[j]);
                            assert(entries_view(before)[j] == entries_view(entries@).take(i - 1)[j]);
                        }
                    }
                    assert(entries_view(out@) =~= entries_view(entries@).take(i as int));
                }
                assert(entries_view(entries@).take(i as int) =~= entries_view(entries@));
                let r = JsonValue::Object(out);
                proof {
                    lemma_view_parts(r);
                }
                r
            },
        }
    }

    /// `Value::get` with a string key.
    pub fn get(&self, key: &str) -> (r: Option<&JsonValue>)
        ensures
            match r {
                Some(x) => spec_get(self@, key@) == Some(x@),
                None => spec_get(self@, key@) == None::<Json>,
            },
    {
        proof {
            lemma_view_parts(*self);
        }
        match self {
            JsonValue::Object(entries) => match find_entry(entries, key) {
                Some(i) => Some(&entries[i].1),
                None => None,
            },
            _ => None,
        }
    }

    /// `serde_json::to_string` of the value: its compact form.
    #[verifier::loop_isolation(false)]
    pub fn to_compact(&self) -> (r: String)
        ensures
            r@ == compact(self@),
        decreases self,
    {
        proof {
            lemma_view_parts(*self);
        }
        let mut out = String::new();
        match self {
            JsonValue::Null => {
                push_str(&mut out, "null");
                proof {
                    reveal_strlit("null");
                }
                assert(out@ =~= literal_null());
            },
            JsonValue::Bool(b) => {
                if *b {
                    push_str(&mut out, "true");
                    proof {
                        reveal_strlit("true");
                    }
                } else {
                    push_str(&mut out, "false");
                    proof {
                        reveal_strlit("false");
                    }
                }
                assert(out@ =~= literal_bool(*b));
            },
            JsonValue::Number(t) => {
                push_str(&mut out, t.as_str());
                assert(out@ =~= t@);
            },
            JsonValue::Str(s) => {
                let q = json_quote(s.as_str());
                push_str(&mut out, q.as_str());
                assert(out@ =~= spec_json_quote(s@));
            },
            JsonValue::Array(items) => {
                let ghost iv = items_view(items@);
                crate::text::push_char(&mut out, '[');
                let mut i: usize = 0;
                while i < items.len()
                    invariant
                        0 <= i <= items@.len(),
                        iv == items_view(items@),
                        out@ == seq!['['] + compact_items(iv.take(i as int)),
                    decreases items@.len() - i,
                {
                    assert(decreases_to!(*self => items@[i as int]));
                    if i > 0 {
                        crate::text::push_char(&mut out, ',');
                    }
                    let c = items[i].to_compact();
                    push_str(&mut out, c.as_str());
                    proof {
                        let t = iv.take(i + 1);
                        assert(t.drop_last() =~= iv.take(i as int));
                        assert(t.last() == items@[i as int]@);
                        if i == 0 {
                            assert(compact_items(iv.take(0)) =~= Seq::<char>::empty());
                            assert(out@ =~= seq!['['] + compact_items(t));
                        } else {
                            assert(out@ =~= seq!['['] + compact_items(t));
                        }
                    }
                    i = i + 1;
                }
                crate::text::push_char(&mut out, ']');
                assert(iv.take(i as int) =~= iv);
                assert(out@ =~= compact(self@));
            },
            JsonValue::Object(entries) => {
                let ghost ev = entries_view(entries@);
                crate::text::push_char(&mut out, '{');
                let mut i: usize = 0;
                while i < entries.len()
                    invariant
                        0 <= i <= entries@.len(),
                        ev == entries_view(entries@),
                        out@ == seq!['{'] + compact_entries(ev.take(i as int)),
                    decreases entries@.len() - i,
                {
                    assert(decreases_to!(*self => entries@[i as int].1));
                    if i > 0 {
                        crate::text::push_char(&mut out, ',');
                    }
                    let q = json_quote(entries[i].0.as_str());
                    push_str(&mut out, q.as_str());
                    crate::text::push_char(&mut out, ':');
                    let c = entries[i].1.to_compact();
                    push_str(&mut out, c.as_str());
                    proof {
                        let t = ev.take(i + 1);
                        assert(t.drop_last() =~= ev.take(i as int));
                        assert(t.last() == (entries@[i as int].0@, entries@[i as int].1@));
                        if i == 0 {
                            assert(compact_entries(ev.take(0)) =~= Seq::<char>::empty());
                            assert(out@ =~= seq!['{'] + compact_entries(t));
                        } else {
                            assert(out@ =~= seq!['{'] + compact_entries(t));
                        }
                    }
                    i = i + 1;
                }
                crate::text::push_char(&mut out, '}');
                assert(ev.take(i as int) =~= ev);
                assert(out@ =~= compact(self@));
            },
        }
        out
    }
}

/// The length of the run of ASCII digits of `t` that starts at `i`.
fn digit_run_at(t: &[char], i: usize) -> (r: usize)
    requires
        i <= t@.len(),
    ensures
        r == digit_run(t@, i as int),
        i + r <= t@.len(),
{
    let mut j = i;
    while j < t.len() && '0' <= t[j] && t[j] <= '9'
        invariant
            i <= j <= t@.len(),
            digit_run(t@, i as int) == (j - i) + digit_run(t@, j as int),
        decreases t@.len() - j,
    {
        j = j + 1;
    }
    j - i
}

/// Whether `text` is JSON number text.
pub fn number_text_ok(text: &str) -> (b: bool)
    ensures
        b == is_number_text(text@),
{
    let t = crate::text::chars_of(text);
    let len = t.len();
    let a: usize = if len > 0 && t[0] == '-' {
        1
    } else {
        0
    };
    let n = digit_run_at(&t, a);
    let b = a + n;
    let c = if b < len && t[b] == '.' {
        b + 1 + digit_run_at(&t, b + 1)
    } else {
        b
    };
    let e = if c < len && (t[c] == 'e' || t[c] == 'E') {
        if c + 1 < len && (t[c + 1] == '+' || t[c + 1] == '-') {
            c + 2
        } else {
            c + 1
        }
    } else {
        c
    };
    let d = if e == c {
        c
    } else {
        e + digit_run_at(&t, e)
    };
    n >= 1 && (n == 1 || t[a] != '0') && (c == b || c > b + 1) && (e == c || d > e) && d == len
}

impl JsonValue {
    /// A number whose text is `text`, where that is JSON number text.
    pub fn number(text: String) -> (r: Option<JsonValue>)
        ensures
            r is Some <==> is_number_text(text@),
            r matches Some(v) ==> v@ == Json::Number(text@),
    {
        if number_text_ok(text.as_str()) {
            Some(JsonValue::Number(text))
        } else {
            None
        }
    }

    /// Whether every number in the value is JSON number text.
    #[verifier::loop_isolation(false)]
    pub fn is_valid(&self) -> (b: bool)
        ensures
            b == json_valid(self@),
        decreases self,
    {
        proof {
            lemma_view_parts(*self);
        }
        match self {
            JsonValue::Number(t) => number_text_ok(t.as_str()),
            JsonValue::Array(items) => {
                let ghost iv = items_view(items@);
                let mut i: usize = 0;
                while i < items.len()
                    invariant
                        0 <= i <= items@.len(),
                        iv == items_view(items@),
                        valid_items(iv.take(i as int)),
                    decreases items@.len() - i,
                {
                    assert(decreases_to!(*self => items@[i as int]));
                    let ok = items[i].is_valid();
                    proof {
                        let t = iv.take(i + 1);
                        assert(t.drop_last() =~= iv.take(i as int));
                        assert(t.last() == iv[i as int]);
                    }
                    if !ok {
                        proof {
                            if valid_items(iv) {
                                lemma_valid_items_index(iv, i as int);
                            }
                        }
                        return false;
                    }
                    i = i + 1;
                }
                assert(iv.take(i as int) =~= iv);
                true
            },
            JsonValue::Object(entries) => {
                let ghost ev = entries_view(entries@);
                let mut i: usize = 0;
                while i < entries.len()
                    invariant
                        0 <= i <= entries@.len(),
                        ev == entries_view(entries@),
                        valid_entries(ev.take(i as int)),
                    decreases entries@.len() - i,
                {
                    assert(decreases_to!(*self => entries@[i as int].1));
                    let ok = entries[i].1.is_valid();
                    proof {
                        let t = ev.take(i + 1);
                        assert(t.drop_last() =~= ev.take(i as int));
                        assert(t.last() == ev[i as int]);
                    }
                    if !ok {
                        proof {
                            if valid_entries(ev) {
                                lemma_valid_entries_index(ev, i as int);
                            }
                        }
                        return false;
                    }
                    i = i + 1;
                }
                assert(ev.take(i as int) =~= ev);
                true
            },
            _ => true,
        }
    }
}

/// Every item of a valid array is valid.
pub proof fn lemma_valid_items_index(items: Seq<Json>, i: int)
    requires
        valid_items(items),
        0 <= i < items.len(),
    ensures
        json_valid(items[i]),
    decreases items.len(),
{
    if i < items.len() - 1 {
        lemma_valid_items_index(items.drop_last(), i);
    }
}

/// Every field value of a valid object is valid.
pub proof fn lemma_valid_entries_index(entries: Seq<(Seq<char>, Json)>, i: int)
    requires
        valid_entries(entries),
        0 <= i < entries.len(),
    ensures
        json_valid(entries[i].1),
    decreases entries.len(),
{
    if i < entries.len() - 1 {
        lemma_valid_entries_index(entries.drop_last(), i);
    }
}

/// Items that are each valid make a valid array.
pub proof fn lemma_valid_items_all(items: Seq<Json>)
    requires
        forall|i: int| 0 <= i < items.len() ==> json_valid(#[trigger] items[i]),
    ensures
        valid_items(items),
    decreases items.len(),
{
    if items.len() > 0 {
        lemma_valid_items_all(items.drop_last());
    }
}

/// Field values that are each valid make a valid object.
pub proof fn lemma_valid_entries_all(entries: Seq<(Seq<char>, Json)>)
    requires
        forall|i: int| 0 <= i < entries.len() ==> json_valid(#[trigger] entries[i].1),
    ensures
        valid_entries(entries),
    decreases entries.len(),
{
    if entries.len() > 0 {
        lemma_valid_entries_all(entries.drop_last());
    }
}

/// The field a valid value holds under a name is valid.
pub proof fn lemma_valid_get(v: Json, key: Seq<char>)
    requires
        json_valid(v),
    ensures
        spec_get(v, key) matches Some(x) ==> json_valid(x),
{
    if let Json::Object(entries) = v {
        lemma_valid_entries_get(entries, key);
    }
}

proof fn lemma_valid_entries_get(entries: Seq<(Seq<char>, Json)>, key: Seq<char>)
    requires
        valid_entries(entries),
    ensures
        entries_get(entries, key) matches Some(x) ==> json_valid(x),
    decreases entries.len(),
{
    if entries.len() > 0 {
        lemma_valid_entries_index(entries, 0);
        assert forall|i: int| 0 <= i < entries.drop_first().len() implies json_valid(
            #[trigger] entries.drop_first()[i].1,
        ) by {
            lemma_valid_entries_index(entries, i + 1);
        }
        lemma_valid_entries_all(entries.drop_first());
        lemma_valid_entries_get(entries.drop_first(), key);
    }
}

/// The length of the run of ASCII digits of `t` that starts at `i`.
pub open spec fn digit_run(t: Seq<char>, i: int) -> int
    decreases t.len() - i,
{
    if 0 <= i < t.len() && is_digit(t[i]) {
        1 + digit_run(t, i + 1)
    } else {
        0
    }
}

/// Whether `t` is JSON number text, `-?(0|[1-9][0-9]*)(\.[0-9]+)?([eE][+-]?[0-9]+)?`,
/// as `serde_json` writes numbers.
pub open spec fn is_number_text(t: Seq<char>) -> bool {
    let a: int = if t.len() > 0 && t[0] == '-' {
        1
    } else {
        0
    };
    let n = digit_run(t, a);
    let b = a + n;
    let c = if b < t.len() && t[b] == '.' {
        b + 1 + digit_run(t, b + 1)
    } else {
        b
    };
    let e = if c < t.len() && (t[c] == 'e' || t[c] == 'E') {
        if c + 1 < t.len() && (t[c + 1] == '+' || t[c + 1] == '-') {
            c + 2
        } else {
            c + 1
        }
    } else {
        c
    };
    let d = if e == c {
        c
    } else {
        e + digit_run(t, e)
    };
    &&& n >= 1
    &&& (n == 1 || t[a] != '0')
    &&& (c == b || c > b + 1)
    &&& (e == c || d > e)
    &&& d == t.len()
}

/// A valid JSON value: every number in it is JSON number text.
pub open spec fn json_valid(v: Json) -> bool
    decreases v,
{
    match v {
        Json::Number(t) => is_number_text(t),
        Json::Array(items) => valid_items(items),
        Json::Object(entries) => valid_entries(entries),
        _ => true,
    }
}

pub open spec fn valid_items(items: Seq<Json>) -> bool
    decreases items,
{
    if items.len() == 0 {
        true
    } else {
        valid_items(items.drop_last()) && json_valid(items.last())
    }
}

pub open spec fn valid_entries(entries: Seq<(Seq<char>, Json)>) -> bool
    decreases entries,
{
    if entries.len() == 0 {
        true
    } else {
        valid_entries(entries.drop_last()) && json_valid(entries.last().1)
    }
}

/// Whether a text holds no line break: neither a line feed nor a carriage return.
pub open spec fn one_line(s: Seq<char>) -> bool {
    !s.contains('\n') && !s.contains('\r')
}

pub proof fn lemma_one_line_chars(s: Seq<char>)
    requires
        forall|i: int| 0 <= i < s.len() ==> s[i] != '\n' && s[i] != '\r',
    ensures
        one_line(s),
{
    assert(!s.contains('\n'));
    assert(!s.contains('\r'));
}

pub proof fn lemma_concat_one_line(a: Seq<char>, b: Seq<char>)
    requires
        one_line(a),
        one_line(b),
    ensures
        one_line(a + b),
{
    assert forall|i: int| 0 <= i < (a + b).len() implies (a + b)[i] != '\n' && (a + b)[i] != '\r' by {
        if i < a.len() {
            assert((a + b)[i] == a[i]);
            assert(a.contains(a[i]));
        } else {
            assert((a + b)[i] == b[i - a.len()]);
            assert(b.contains(b[i - a.len()]));
        }
    }
    lemma_one_line_chars(a + b);
}

proof fn lemma_digit_run(t: Seq<char>, i: int)
    requires
        0 <= i,
    ensures
        digit_run(t, i) >= 0,
        i < t.len() ==> i + digit_run(t, i) <= t.len(),
        forall|j: int| i <= j < i + digit_run(t, i) ==> is_digit(#[trigger] t[j]),
    decreases t.len() - i,
{
    if 0 <= i < t.len() && is_digit(t[i]) {
        lemma_digit_run(t, i + 1);
    }
}

/// Number text holds no line break.
pub proof fn lemma_number_text_one_line(t: Seq<char>)
    requires
        is_number_text(t),
    ensures
        one_line(t),
{
    let a: int = if t.len() > 0 && t[0] == '-' {
        1
    } else {
        0
    };
    let b = a + digit_run(t, a);
    lemma_digit_run(t, a);
    let c = if b < t.len() && t[b] == '.' {
        b + 1 + digit_run(t, b + 1)
    } else {
        b
    };
    lemma_digit_run(t, b + 1);
    let e = if c < t.len() && (t[c] == 'e' || t[c] == 'E') {
        if c + 1 < t.len() && (t[c + 1] == '+' || t[c + 1] == '-') {
            c + 2
        } else {
            c + 1
        }
    } else {
        c
    };
    lemma_digit_run(t, e);
    assert forall|i: int| 0 <= i < t.len() implies t[i] != '\n' && t[i] != '\r' by {
        if i < a {
        } else if i < b {
            assert(is_digit(t[i]));
        } else if i == b && c > b {
        } else if i < c {
            assert(is_digit(t[i]));
        } else if i < e {
        } else {
            assert(is_digit(t[i]));
        }
    }
    lemma_one_line_chars(t);
}

proof fn lemma_hex_digit(d: int)
    requires
        0 <= d < 16,
    ensures
        lower_hex_digit(d) != '\n',
        lower_hex_digit(d) != '\r',
{
    if d < 10 {
        assert((((d + 48) as u32) as char) as u32 == (d + 48) as u32);
    } else {
        assert((((d + 87) as u32) as char) as u32 == (d + 87) as u32);
    }
}

proof fn lemma_escaped_one_line(s: Seq<char>)
    ensures
        one_line(json_escaped(s)),
    decreases s.len(),
{
    if s.len() > 0 {
        lemma_escaped_one_line(s.drop_last());
        let c = s.last();
        let e = json_escape_char(c);
        if (c as u32) < 0x20 {
            lemma_hex_digit(((c as u32) / 16) as int);
            lemma_hex_digit(((c as u32) % 16) as int);
        }
        assert forall|i: int| 0 <= i < e.len() implies e[i] != '\n' && e[i] != '\r' by {}
        lemma_one_line_chars(e);
        lemma_concat_one_line(json_escaped(s.drop_last()), e);
    }
}

proof fn lemma_char_one_line(c: char)
    requires
        c != '\n',
        c != '\r',
    ensures
        one_line(seq![c]),
{
    assert(seq![c][0] == c);
    lemma_one_line_chars(seq![c]);
}

/// A quoted JSON string holds no line break, whatever the string held.
pub proof fn law_quoted_is_one_line(s: Seq<char>)
    ensures
        one_line(spec_json_quote(s)),
{
    lemma_escaped_one_line(s);
    lemma_char_one_line('"');
    lemma_concat_one_line(seq!['"'], json_escaped(s));
    lemma_concat_one_line(seq!['"'] + json_escaped(s), seq!['"']);
}

proof fn lemma_literals_one_line(b: bool)
    ensures
        one_line(literal_null()),
        one_line(literal_bool(b)),
{
    assert forall|i: int| 0 <= i < literal_null().len() implies literal_null()[i] != '\n'
        && literal_null()[i] != '\r' by {}
    assert forall|i: int| 0 <= i < literal_bool(b).len() implies literal_bool(b)[i] != '\n'
        && literal_bool(b)[i] != '\r' by {}
    lemma_one_line_chars(literal_null());
    lemma_one_line_chars(literal_bool(b));
}

/// The compact form of a valid value stays on one line.
pub proof fn law_compact_is_one_line(v: Json)
    requires
        json_valid(v),
    ensures
        one_line(compact(v)),
    decreases v,
{
    lemma_char_one_line('[');
    lemma_char_one_line(']');
    lemma_char_one_line('{');
    lemma_char_one_line('}');
    match v {
        Json::Null => lemma_literals_one_line(true),
        Json::Bool(b) => lemma_literals_one_line(b),
        Json::Number(t) => lemma_number_text_one_line(t),
        Json::Str(s) => law_quoted_is_one_line(s),
        Json::Array(items) => {
            lemma_items_one_line(items);
            lemma_concat_one_line(seq!['['], compact_items(items));
            lemma_concat_one_line(seq!['['] + compact_items(items), seq![']']);
        },
        Json::Object(entries) => {
            lemma_entries_one_line(entries);
            lemma_concat_one_line(seq!['{'], compact_entries(entries));
            lemma_concat_one_line(seq!['{'] + compact_entries(entries), seq!['}']);
        },
    }
}

proof fn lemma_items_one_line(items: Seq<Json>)
    requires
        valid_items(items),
    ensures
        one_line(compact_items(items)),
    decreases items,
{
    if items.len() == 0 {
        lemma_one_line_chars(compact_items(items));
    } else if items.len() == 1 {
        law_compact_is_one_line(items[0]);
    } else {
        lemma_items_one_line(items.drop_last());
        law_compact_is_one_line(items.last());
        lemma_char_one_line(',');
        lemma_concat_one_line(compact_items(items.drop_last()), seq![',']);
        lemma_concat_one_line(compact_items(items.drop_last()) + seq![','], compact(items.last()));
    }
}

proof fn lemma_entries_one_line(entries: Seq<(Seq<char>, Json)>)
    requires
        valid_entries(entries),
    ensures
        one_line(compact_entries(entries)),
    decreases entries,
{
    lemma_char_one_line(',');
    lemma_char_one_line(':');
    if entries.len() == 0 {
        lemma_one_line_chars(compact_entries(entries));
    } else if entries.len() == 1 {
        assert(entries.drop_last().len() == 0);
        law_compact_is_one_line(entries[0].1);
        law_quoted_is_one_line(entries[0].0);
        lemma_concat_one_line(spec_json_quote(entries[0].0), seq![':']);
        lemma_concat_one_line(spec_json_quote(entries[0].0) + seq![':'], compact(entries[0].1));
    } else {
        lemma_entries_one_line(entries.drop_last());
        law_compact_is_one_line(entries.last().1);
        law_quoted_is_one_line(entries.last().0);
        let a = compact_entries(entries.drop_last());
        lemma_concat_one_line(a, seq![',']);
        lemma_concat_one_line(a + seq![','], spec_json_quote(entries.last().0));
        lemma_concat_one_line(a + seq![','] + spec_json_quote(entries.last().0), seq![':']);
        lemma_concat_one_line(
            a + seq![','] + spec_json_quote(entries.last().0) + seq![':'],
            compact(entries.last().1),
        );
    }
}


/// A JSON string is written character by character between double quotes: the escape of
/// two texts put together is the two escapes put together; `"` and `\` get a backslash, a
/// line feed is `\n`, a carriage return `\r`, a tab `\t`, and every character from U+0020
/// on other than those two is written as it is.
pub proof fn law_json_quote_by_character(a: Seq<char>, b: Seq<char>, c: char)
    ensures
        spec_json_quote(a) == seq!['"'] + json_escaped(a) + seq!['"'],
        json_escaped(a + b) == json_escaped(a) + json_escaped(b),
        json_escaped(seq!['"']) == seq!['\\', '"'],
        json_escaped(seq!['\\']) == seq!['\\', '\\'],
        json_escaped(seq!['\n']) == seq!['\\', 'n'],
        json_escaped(seq!['\r']) == seq!['\\', 'r'],
        json_escaped(seq!['\t']) == seq!['\\', 't'],
        (c as u32) >= 0x20 && c != '"' && c != '\\' ==> json_escaped(seq![c]) == seq![c],
    decreases b.len(),
{
    assert(seq!['"'].drop_last() =~= Seq::<char>::empty());
    assert(seq!['\\'].drop_last() =~= Seq::<char>::empty());
    assert(seq!['\n'].drop_last() =~= Seq::<char>::empty());
    assert(seq!['\r'].drop_last() =~= Seq::<char>::empty());
    assert(seq!['\t'].drop_last() =~= Seq::<char>::empty());
    assert(seq![c].drop_last() =~= Seq::<char>::empty());
    assert(json_escaped(Seq::<char>::empty()) =~= Seq::<char>::empty());
    if b.len() == 0 {
        assert(a + b =~= a);
        assert(json_escaped(a) + json_escaped(b) =~= json_escaped(a));
    } else {
        law_json_quote_by_character(a, b.drop_last(), c);
        assert((a + b).drop_last() =~= a + b.drop_last());
        assert((a + b).last() == b.last());
        assert(json_escaped(a + b) =~= json_escaped(a) + json_escaped(b.drop_last()) + json_escape_char(
            b.last(),
        ));
    }
}

} // verus!
