//! Character-level building blocks shared by the parsers and writers:
//! conversion between `str` and `Vec<char>`, trimming, searching,
//! splitting and line breaking, each with the meaning that `str` gives it.
use vstd::prelude::*;

verus! {

/// Characters with the Unicode `White_Space` property: what `char::is_whitespace` tests.
pub open spec fn is_ws(c: char) -> bool {
    ||| c == ' '
    ||| ('\t' <= c && c <= '\r')
    ||| c == '\u{85}'
    ||| c == '\u{a0}'
    ||| c == '\u{1680}'
    ||| ('\u{2000}' <= c && c <= '\u{200a}')
    ||| c == '\u{2028}'
    ||| c == '\u{2029}'
    ||| c == '\u{202f}'
    ||| c == '\u{205f}'
    ||| c == '\u{3000}'
}

/// A space or a horizontal tab (`[ \t]` in a pattern).
pub open spec fn is_blank(c: char) -> bool {
    c == ' ' || c == '\t'
}

/// The classes of characters that the trimming functions strip.
#[derive(Clone, Copy)]
pub enum CharClass {
    Whitespace,
    Blank,
    Exactly(char),
}

pub open spec fn in_class(cls: CharClass, c: char) -> bool {
    match cls {
        CharClass::Whitespace => is_ws(c),
        CharClass::Blank => is_blank(c),
        CharClass::Exactly(x) => c == x,
    }
}

pub fn is_whitespace(c: char) -> (b: bool)
    ensures
        b == is_ws(c),
{
    c == ' ' || ('\t' <= c && c <= '\r') || c == '\u{85}' || c == '\u{a0}' || c == '\u{1680}'
        || ('\u{2000}' <= c && c <= '\u{200a}') || c == '\u{2028}' || c == '\u{2029}' || c
        == '\u{202f}' || c == '\u{205f}' || c == '\u{3000}'
}

pub fn class_contains(cls: CharClass, c: char) -> (b: bool)
    ensures
        b == in_class(cls, c),
{
    match cls {
        CharClass::Whitespace => is_whitespace(c),
        CharClass::Blank => c == ' ' || c == '\t',
        CharClass::Exactly(x) => c == x,
    }
}

/// Number of leading characters of `s` in `cls`.
pub open spec fn lead_len(s: Seq<char>, cls: CharClass) -> nat
    decreases s.len(),
{
    if s.len() > 0 && in_class(cls, s[0]) {
        1 + lead_len(s.drop_first(), cls)
    } else {
        0
    }
}

/// Number of trailing characters of `s` in `cls`.
pub open spec fn trail_len(s: Seq<char>, cls: CharClass) -> nat
    decreases s.len(),
{
    if s.len() > 0 && in_class(cls, s.last()) {
        1 + trail_len(s.drop_last(), cls)
    } else {
        0
    }
}

pub open spec fn trim_start_by(s: Seq<char>, cls: CharClass) -> Seq<char> {
    s.skip(lead_len(s, cls) as int)
}

pub open spec fn trim_end_by(s: Seq<char>, cls: CharClass) -> Seq<char> {
    s.take(s.len() - trail_len(s, cls))
}

/// `str::trim_matches` for a class of characters.
pub open spec fn trim_by(s: Seq<char>, cls: CharClass) -> Seq<char> {
    trim_end_by(trim_start_by(s, cls), cls)
}

/// `str::trim`.
pub open spec fn trim(s: Seq<char>) -> Seq<char> {
    trim_by(s, CharClass::Whitespace)
}

pub proof fn lemma_lead_len(s: Seq<char>, cls: CharClass, k: int)
    requires
        0 <= k <= s.len(),
        forall|j: int| 0 <= j < k ==> in_class(cls, #[trigger] s[j]),
        k == s.len() || !in_class(cls, s[k]),
    ensures
        lead_len(s, cls) == k,
    decreases k,
{
    if k > 0 {
        lemma_lead_len(s.drop_first(), cls, k - 1);
    }
}

pub proof fn lemma_trail_len(s: Seq<char>, cls: CharClass, k: int)
    requires
        0 <= k <= s.len(),
        forall|j: int| s.len() - k <= j < s.len() ==> in_class(cls, #[trigger] s[j]),
        k == s.len() || !in_class(cls, s[s.len() - k - 1]),
    ensures
        trail_len(s, cls) == k,
    decreases k,
{
    if k > 0 {
        lemma_trail_len(s.drop_last(), cls, k - 1);
    }
}

pub proof fn lemma_lead_len_bound(s: Seq<char>, cls: CharClass)
    ensures
        lead_len(s, cls) <= s.len(),
        forall|j: int| 0 <= j < lead_len(s, cls) ==> in_class(cls, #[trigger] s[j]),
        lead_len(s, cls) == s.len() || !in_class(cls, s[lead_len(s, cls) as int]),
    decreases s.len(),
{
    if s.len() > 0 && in_class(cls, s[0]) {
        lemma_lead_len_bound(s.drop_first(), cls);
        assert forall|j: int| 0 <= j < lead_len(s, cls) implies in_class(cls, #[trigger] s[j]) by {
            if j > 0 {
                assert(s[j] == s.drop_first()[j - 1]);
            }
        }
    }
}

pub proof fn lemma_trail_len_bound(s: Seq<char>, cls: CharClass)
    ensures
        trail_len(s, cls) <= s.len(),
    decreases s.len(),
{
    if s.len() > 0 && in_class(cls, s.last()) {
        lemma_trail_len_bound(s.drop_last(), cls);
    }
}

/// First index in `[lo, hi)` at which `s` leaves `cls` (or `hi`).
pub fn skip_class(s: &[char], lo: usize, hi: usize, cls: CharClass) -> (r: usize)
    requires
        lo <= hi <= s@.len(),
    ensures
        lo <= r <= hi,
        r - lo == lead_len(s@.subrange(lo as int, hi as int), cls),
        s@.subrange(r as int, hi as int) == trim_start_by(s@.subrange(lo as int, hi as int), cls),
{
    let mut i = lo;
    while i < hi && class_contains(cls, s[i])
        invariant
            lo <= i <= hi <= s@.len(),
            forall|j: int| lo <= j < i ==> in_class(cls, #[trigger] s@[j]),
        decreases hi - i,
    {
        i = i + 1;
    }
    proof {
        let sub = s@.subrange(lo as int, hi as int);
        assert forall|j: int| 0 <= j < i - lo implies in_class(cls, #[trigger] sub[j]) by {
            assert(sub[j] == s@[lo + j]);
        }
        if i < hi {
            assert(sub[i - lo] == s@[i as int]);
        }
        lemma_lead_len(sub, cls, i - lo);
        assert(s@.subrange(i as int, hi as int) =~= sub.skip(i - lo));
    }
    i
}

/// Last index in `[lo, hi]` such that `s[r..hi]` lies in `cls` and `s[r-1]` does not (or `lo`).
pub fn skip_class_back(s: &[char], lo: usize, hi: usize, cls: CharClass) -> (r: usize)
    requires
        lo <= hi <= s@.len(),
    ensures
        lo <= r <= hi,
        hi - r == trail_len(s@.subrange(lo as int, hi as int), cls),
        s@.subrange(lo as int, r as int) == trim_end_by(s@.subrange(lo as int, hi as int), cls),
{
    let mut i = hi;
    while i > lo && class_contains(cls, s[i - 1])
        invariant
            lo <= i <= hi <= s@.len(),
            forall|j: int| i <= j < hi ==> in_class(cls, #[trigger] s@[j]),
        decreases i,
    {
        i = i - 1;
    }
    proof {
        let sub = s@.subrange(lo as int, hi as int);
        let k = hi - i;
        assert forall|j: int| sub.len() - k <= j < sub.len() implies in_class(
            cls,
            #[trigger] sub[j],
        ) by {
            assert(sub[j] == s@[lo + j]);
        }
        if i > lo {
            assert(sub[sub.len() - k - 1] == s@[i - 1]);
        }
        lemma_trail_len(sub, cls, k);
        assert(s@.subrange(lo as int, i as int) =~= sub.take(sub.len() - k));
    }
    i
}

/// The bounds of `trim_by(s[lo..hi], cls)` inside `s`.
pub fn trim_range(s: &[char], lo: usize, hi: usize, cls: CharClass) -> (r: (usize, usize))
    requires
        lo <= hi <= s@.len(),
    ensures
        lo <= r.0 <= r.1 <= hi,
        s@.subrange(r.0 as int, r.1 as int) == trim_by(s@.subrange(lo as int, hi as int), cls),
{
    let a = skip_class(s, lo, hi, cls);
    let b = skip_class_back(s, a, hi, cls);
    (a, b)
}

/// `str::chars` collected into a vector.
pub fn chars_of(s: &str) -> (res: Vec<char>)
    ensures
        res@ == s@,
{
    let mut out: Vec<char> = Vec::new();
    for c in it: s.chars()
        invariant
            out@ == it.seq().take(it.index() as int),
            it.seq() == s@,
    {
        out.push(c);
    }
    out
}

/// Appends one character to a `String` (`String::push`).
#[verifier::external_body]
pub(crate) fn push_char(s: &mut String, c: char)
    ensures
        final(s)@ == old(s)@.push(c),
{
    s.push(c);
}

/// Appends the characters `v[lo..hi]`.
pub fn push_range(s: &mut String, v: &[char], lo: usize, hi: usize)
    requires
        lo <= hi <= v@.len(),
    ensures
        final(s)@ == old(s)@ + v@.subrange(lo as int, hi as int),
{
    let mut i = lo;
    while i < hi
        invariant
            lo <= i <= hi <= v@.len(),
            s@ == old(s)@ + v@.subrange(lo as int, i as int),
        decreases hi - i,
    {
        push_char(s, v[i]);
        i = i + 1;
        assert(v@.subrange(lo as int, i as int) =~= v@.subrange(lo as int, i - 1).push(
            v@[i - 1],
        ));
    }
}

/// A `String` holding `v[lo..hi]`.
pub fn string_of(v: &[char], lo: usize, hi: usize) -> (s: String)
    requires
        lo <= hi <= v@.len(),
    ensures
        s@ == v@.subrange(lo as int, hi as int),
{
    let mut s = String::new();
    push_range(&mut s, v, 0 + lo, hi);
    assert(Seq::<char>::empty() + v@.subrange(lo as int, hi as int) =~= v@.subrange(
        lo as int,
        hi as int,
    ));
    s
}

/// Appends a string slice.
pub fn push_str(s: &mut String, t: &str)
    ensures
        final(s)@ == old(s)@ + t@,
{
    s.append(t);
}

/// A fresh `String` equal to `t`.
pub fn owned(t: &str) -> (s: String)
    ensures
        s@ == t@,
{
    t.to_owned()
}

/// `str::trim`, returned as a new `String`.
pub fn trim_str(t: &str) -> (s: String)
    ensures
        s@ == trim(t@),
{
    let v = chars_of(t);
    let (a, b) = trim_range(&v, 0, v.len(), CharClass::Whitespace);
    assert(v@.subrange(0, v@.len() as int) =~= v@);
    string_of(&v, a, b)
}

/// Index of the first occurrence of `c` in `s`, if any.
pub open spec fn find_char(s: Seq<char>, c: char) -> Option<int>
    decreases s.len(),
{
    if s.len() == 0 {
        None
    } else if s[0] == c {
        Some(0)
    } else {
        match find_char(s.drop_first(), c) {
            Some(i) => Some(i + 1),
            None => None,
        }
    }
}

pub proof fn lemma_find_char(s: Seq<char>, c: char)
    ensures
        match find_char(s, c) {
            Some(i) => 0 <= i < s.len() && s[i] == c && forall|j: int| 0 <= j < i ==> s[j] != c,
            None => forall|j: int| 0 <= j < s.len() ==> s[j] != c,
        },
    decreases s.len(),
{
    if s.len() > 0 && s[0] != c {
        lemma_find_char(s.drop_first(), c);
        match find_char(s.drop_first(), c) {
            Some(i) => {
                assert forall|j: int| 0 <= j < i + 1 implies s[j] != c by {
                    if j > 0 {
                        assert(s[j] == s.drop_first()[j - 1]);
                    }
                }
            },
            None => {
                assert forall|j: int| 0 <= j < s.len() implies s[j] != c by {
                    if j > 0 {
                        assert(s[j] == s.drop_first()[j - 1]);
                    }
                }
            },
        }
    }
}

/// `find_char` is determined by the first occurrence.
pub proof fn lemma_find_char_at(s: Seq<char>, c: char, k: int)
    requires
        0 <= k <= s.len(),
        forall|j: int| 0 <= j < k ==> s[j] != c,
        k == s.len() || s[k] == c,
    ensures
        find_char(s, c) == (if k == s.len() {
            None::<int>
        } else {
            Some(k)
        }),
    decreases k,
{
    if k > 0 {
        assert forall|j: int| 0 <= j < k - 1 implies s.drop_first()[j] != c by {
            assert(s.drop_first()[j] == s[j + 1]);
        }
        lemma_find_char_at(s.drop_first(), c, k - 1);
    }
}

/// Index of the last occurrence of `c` in `s`, if any.
pub open spec fn rfind_char(s: Seq<char>, c: char) -> Option<int>
    decreases s.len(),
{
    if s.len() == 0 {
        None
    } else if s.last() == c {
        Some(s.len() - 1)
    } else {
        rfind_char(s.drop_last(), c)
    }
}

pub proof fn lemma_rfind_char_at(s: Seq<char>, c: char, k: int)
    requires
        -1 <= k < s.len(),
        forall|j: int| k < j < s.len() ==> s[j] != c,
        k == -1 || s[k] == c,
    ensures
        rfind_char(s, c) == (if k == -1 {
            None::<int>
        } else {
            Some(k)
        }),
    decreases s.len(),
{
    if s.len() > 0 && k < s.len() - 1 {
        assert forall|j: int| k < j < s.len() - 1 implies s.drop_last()[j] != c by {
            assert(s.drop_last()[j] == s[j]);
        }
        lemma_rfind_char_at(s.drop_last(), c, k);
    }
}

/// First index in `[lo, hi)` holding `c`.
pub fn find_in(s: &[char], lo: usize, hi: usize, c: char) -> (r: Option<usize>)
    requires
        lo <= hi <= s@.len(),
    ensures
        match r {
            Some(i) => lo <= i < hi && find_char(s@.subrange(lo as int, hi as int), c) == Some(
                i - lo,
            ),
            None => find_char(s@.subrange(lo as int, hi as int), c) == None::<int>,
        },
{
    let mut i = lo;
    while i < hi
        invariant
            lo <= i <= hi <= s@.len(),
            forall|j: int| lo <= j < i ==> s@[j] != c,
        decreases hi - i,
    {
        if s[i] == c {
            proof {
                let sub = s@.subrange(lo as int, hi as int);
                lemma_find_char_at(sub, c, i - lo);
            }
            return Some(i);
        }
        i = i + 1;
    }
    proof {
        let sub = s@.subrange(lo as int, hi as int);
        lemma_find_char_at(sub, c, sub.len() as int);
    }
    None
}

/// Last index in `[lo, hi)` holding `c`.
pub fn rfind_in(s: &[char], lo: usize, hi: usize, c: char) -> (r: Option<usize>)
    requires
        lo <= hi <= s@.len(),
    ensures
        match r {
            Some(i) => lo <= i < hi && rfind_char(s@.subrange(lo as int, hi as int), c) == Some(
                i - lo,
            ),
            None => rfind_char(s@.subrange(lo as int, hi as int), c) == None::<int>,
        },
{
    let mut i = hi;
    while i > lo
        invariant
            lo <= i <= hi <= s@.len(),
            forall|j: int| i <= j < hi ==> s@[j] != c,
        decreases i,
    {
        if s[i - 1] == c {
            proof {
                let sub = s@.subrange(lo as int, hi as int);
                lemma_rfind_char_at(sub, c, i - 1 - lo);
            }
            return Some(i - 1);
        }
        i = i - 1;
    }
    proof {
        let sub = s@.subrange(lo as int, hi as int);
        lemma_rfind_char_at(sub, c, -1);
    }
    None
}

/// `str::split_once` on a character: the parts before and after its first occurrence.
pub open spec fn split_once(s: Seq<char>, c: char) -> Option<(Seq<char>, Seq<char>)> {
    match find_char(s, c) {
        Some(i) => Some((s.take(i), s.skip(i + 1))),
        None => None,
    }
}

/// `str::rsplit_once` on a character: the parts before and after its last occurrence.
pub open spec fn rsplit_once(s: Seq<char>, c: char) -> Option<(Seq<char>, Seq<char>)> {
    match rfind_char(s, c) {
        Some(i) => Some((s.take(i), s.skip(i + 1))),
        None => None,
    }
}

/// `str::split` on a character.
pub open spec fn split(s: Seq<char>, c: char) -> Seq<Seq<char>>
    decreases s.len(),
{
    match find_char(s, c) {
        Some(i) => {
            if 0 <= i < s.len() {
                seq![s.take(i)] + split(s.skip(i + 1), c)
            } else {
                seq![s]
            }
        },
        None => seq![s],
    }
}

/// `str::splitn`: at most `n` parts, the last one holding the rest of `s`.
pub open spec fn splitn(s: Seq<char>, n: nat, c: char) -> Seq<Seq<char>>
    decreases n,
{
    if n == 0 {
        seq![]
    } else if n == 1 {
        seq![s]
    } else {
        match find_char(s, c) {
            Some(i) => {
                if 0 <= i < s.len() {
                    seq![s.take(i)] + splitn(s.skip(i + 1), (n - 1) as nat, c)
                } else {
                    seq![s]
                }
            },
            None => seq![s],
        }
    }
}

/// The fields of `splitn(c[lo..hi], n, ',')`, as ranges.
pub fn splitn_ranges(c: &[char], lo: usize, hi: usize, n: usize) -> (r: Vec<(usize, usize)>)
    requires
        lo <= hi <= c@.len(),
    ensures
        r@.len() == splitn(c@.subrange(lo as int, hi as int), n as nat, ',').len(),
        forall|k: int|
            0 <= k < r@.len() ==> (#[trigger] r@[k]).0 <= r@[k].1 <= hi && c@.subrange(
                r@[k].0 as int,
                r@[k].1 as int,
            ) == splitn(c@.subrange(lo as int, hi as int), n as nat, ',')[k],
{
    let ghost whole = splitn(c@.subrange(lo as int, hi as int), n as nat, ',');
    let mut out: Vec<(usize, usize)> = Vec::new();
    if n == 0 {
        return out;
    }
    let mut pos = lo;
    let mut left: usize = n;
    loop
        invariant
            lo <= pos <= hi <= c@.len(),
            1 <= left <= n,
            whole == splitn(c@.subrange(lo as int, hi as int), n as nat, ','),
            whole == out@.map_values(|p: (usize, usize)| c@.subrange(p.0 as int, p.1 as int))
                + splitn(c@.subrange(pos as int, hi as int), left as nat, ','),
            forall|k: int| 0 <= k < out@.len() ==> (#[trigger] out@[k]).0 <= out@[k].1 <= hi,
        decreases left,
    {
        let ghost rest = c@.subrange(pos as int, hi as int);
        let ghost before = out@;
        let found = if left == 1 {
            None
        } else {
            find_in(c, pos, hi, ',')
        };
        match found {
            Some(k) => {
                proof {
                    lemma_find_char(rest, ',');
                    assert(rest.take(k - pos) =~= c@.subrange(pos as int, k as int));
                    assert(rest.skip(k - pos + 1) =~= c@.subrange(k + 1, hi as int));
                }
                out.push((pos, k));
                assert(out@.map_values(|p: (usize, usize)| c@.subrange(p.0 as int, p.1 as int))
                    =~= before.map_values(|p: (usize, usize)| c@.subrange(p.0 as int, p.1 as int))
                    .push(c@.subrange(pos as int, k as int)));
                pos = k + 1;
                left = left - 1;
            },
            None => {
                assert(splitn(rest, left as nat, ',') == seq![rest]);
                out.push((pos, hi));
                assert(out@.map_values(|p: (usize, usize)| c@.subrange(p.0 as int, p.1 as int))
                    =~= before.map_values(|p: (usize, usize)| c@.subrange(p.0 as int, p.1 as int))
                    .push(rest));
                assert(whole =~= out@.map_values(
                    |p: (usize, usize)| c@.subrange(p.0 as int, p.1 as int),
                ));
                proof {
                    assert forall|k: int| 0 <= k < out@.len() implies c@.subrange(
                        (#[trigger] out@[k]).0 as int,
                        out@[k].1 as int,
                    ) == whole[k] by {
                        assert(out@.map_values(
                            |p: (usize, usize)| c@.subrange(p.0 as int, p.1 as int),
                        )[k] == c@.subrange(out@[k].0 as int, out@[k].1 as int));
                    }
                }
                return out;
            },
        }
    }
}

/// The comma-separated fields of `c[lo..hi]`, as ranges.
pub fn split_ranges(c: &[char], lo: usize, hi: usize) -> (r: Vec<(usize, usize)>)
    requires
        lo <= hi <= c@.len(),
    ensures
        r@.len() == split(c@.subrange(lo as int, hi as int), ',').len(),
        forall|k: int|
            0 <= k < r@.len() ==> (#[trigger] r@[k]).0 <= r@[k].1 <= hi && c@.subrange(
                r@[k].0 as int,
                r@[k].1 as int,
            ) == split(c@.subrange(lo as int, hi as int), ',')[k],
{
    let ghost whole = split(c@.subrange(lo as int, hi as int), ',');
    let mut out: Vec<(usize, usize)> = Vec::new();
    let mut pos = lo;
    loop
        invariant
            lo <= pos <= hi <= c@.len(),
            whole == split(c@.subrange(lo as int, hi as int), ','),
            whole == out@.map_values(|p: (usize, usize)| c@.subrange(p.0 as int, p.1 as int))
                + split(c@.subrange(pos as int, hi as int), ','),
            forall|k: int| 0 <= k < out@.len() ==> (#[trigger] out@[k]).0 <= out@[k].1 <= hi,
        decreases hi - pos,
    {
        let ghost rest = c@.subrange(pos as int, hi as int);
        let ghost before = out@;
        match find_in(c, pos, hi, ',') {
            Some(k) => {
                proof {
                    lemma_find_char(rest, ',');
                    assert(rest.take(k - pos) =~= c@.subrange(pos as int, k as int));
                    assert(rest.skip(k - pos + 1) =~= c@.subrange(k + 1, hi as int));
                }
                out.push((pos, k));
                assert(out@.map_values(|p: (usize, usize)| c@.subrange(p.0 as int, p.1 as int))
                    =~= before.map_values(|p: (usize, usize)| c@.subrange(p.0 as int, p.1 as int))
                    .push(c@.subrange(pos as int, k as int)));
                pos = k + 1;
            },
            None => {
                out.push((pos, hi));
                assert(out@.map_values(|p: (usize, usize)| c@.subrange(p.0 as int, p.1 as int))
                    =~= before.map_values(|p: (usize, usize)| c@.subrange(p.0 as int, p.1 as int))
                    .push(rest));
                assert(whole =~= out@.map_values(
                    |p: (usize, usize)| c@.subrange(p.0 as int, p.1 as int),
                ));
                proof {
                    assert forall|k: int| 0 <= k < out@.len() implies c@.subrange(
                        (#[trigger] out@[k]).0 as int,
                        out@[k].1 as int,
                    ) == whole[k] by {
                        assert(out@.map_values(
                            |p: (usize, usize)| c@.subrange(p.0 as int, p.1 as int),
                        )[k] == c@.subrange(out@[k].0 as int, out@[k].1 as int));
                    }
                }
                return out;
            },
        }
    }
}

/// ASCII case folding of one character (`char::to_ascii_lowercase`).
pub open spec fn ascii_lower(c: char) -> char {
    if 'A' <= c && c <= 'Z' {
        ((c as u32) + 32) as char
    } else {
        c
    }
}

/// `str::eq_ignore_ascii_case`.
pub open spec fn eq_ignore_case(a: Seq<char>, b: Seq<char>) -> bool {
    a.len() == b.len() && forall|i: int| 0 <= i < a.len() ==> ascii_lower(a[i]) == ascii_lower(b[i])
}

pub fn to_ascii_lower(c: char) -> (r: char)
    ensures
        r == ascii_lower(c),
{
    if 'A' <= c && c <= 'Z' {
        let u = (c as u32) + 32;
        assert(u < 0xD800);
        char_from_u32(u)
    } else {
        c
    }
}

/// The character with code point `u` (ASCII range only).
fn char_from_u32(u: u32) -> (c: char)
    requires
        u < 0x80,
    ensures
        c == u as char,
{
    // The ASCII letters and digits are all that this module builds from a code.
    let b = u as u8;
    b as char
}

/// `eq_ignore_ascii_case` of `s[lo..hi]` and `t`.
pub fn range_eq_ignore_case(s: &[char], lo: usize, hi: usize, t: &[char]) -> (b: bool)
    requires
        lo <= hi <= s@.len(),
    ensures
        b == eq_ignore_case(s@.subrange(lo as int, hi as int), t@),
{
    if hi - lo != t.len() {
        return false;
    }
    let mut i: usize = 0;
    while i < t.len()
        invariant
            lo <= hi <= s@.len(),
            hi - lo == t@.len(),
            0 <= i <= t@.len(),
            forall|j: int| 0 <= j < i ==> ascii_lower(s@[lo + j]) == ascii_lower(t@[j]),
        decreases t@.len() - i,
    {
        if to_ascii_lower(s[lo + i]) != to_ascii_lower(t[i]) {
            assert(s@.subrange(lo as int, hi as int)[i as int] == s@[lo + i]);
            return false;
        }
        i = i + 1;
    }
    assert forall|j: int| 0 <= j < t@.len() implies ascii_lower(
        s@.subrange(lo as int, hi as int)[j],
    ) == ascii_lower(t@[j]) by {
        assert(s@.subrange(lo as int, hi as int)[j] == s@[lo + j]);
    }
    true
}

/// Whether `s[lo..hi]` equals `t`.
pub fn range_eq(s: &[char], lo: usize, hi: usize, t: &[char]) -> (b: bool)
    requires
        lo <= hi <= s@.len(),
    ensures
        b == (s@.subrange(lo as int, hi as int) == t@),
{
    if hi - lo != t.len() {
        return false;
    }
    let mut i: usize = 0;
    while i < t.len()
        invariant
            lo <= hi <= s@.len(),
            hi - lo == t@.len(),
            0 <= i <= t@.len(),
            forall|j: int| 0 <= j < i ==> s@[lo + j] == t@[j],
        decreases t@.len() - i,
    {
        if s[lo + i] != t[i] {
            assert(s@.subrange(lo as int, hi as int)[i as int] == s@[lo + i]);
            return false;
        }
        i = i + 1;
    }
    assert(s@.subrange(lo as int, hi as int) =~= t@);
    true
}

/// Whether `s` holds `t` at position `at`.
pub open spec fn occurs_at(s: Seq<char>, t: Seq<char>, at: int) -> bool {
    0 <= at && at + t.len() <= s.len() && s.subrange(at, at + t.len()) == t
}

pub fn starts_at(s: &[char], at: usize, t: &[char]) -> (b: bool)
    requires
        at <= s@.len(),
    ensures
        b == occurs_at(s@, t@, at as int),
{
    if s.len() - at < t.len() {
        return false;
    }
    range_eq(s, at, at + t.len(), t)
}

/// Index of the first occurrence of `t` in `s` (`str::find` with a string pattern).
pub open spec fn find_sub(s: Seq<char>, t: Seq<char>) -> Option<int> {
    if exists|i: int| occurs_at(s, t, i) {
        Some(choose|i: int| occurs_at(s, t, i) && forall|j: int| 0 <= j < i ==> !occurs_at(s, t, j))
    } else {
        None
    }
}

pub proof fn lemma_find_sub_at(s: Seq<char>, t: Seq<char>, k: int)
    requires
        occurs_at(s, t, k),
        forall|j: int| 0 <= j < k ==> !occurs_at(s, t, j),
    ensures
        find_sub(s, t) == Some(k),
{
    let w = choose|i: int| occurs_at(s, t, i) && forall|j: int| 0 <= j < i ==> !occurs_at(s, t, j);
    assert(occurs_at(s, t, k) && forall|j: int| 0 <= j < k ==> !occurs_at(s, t, j));
    if w < k {
        assert(!occurs_at(s, t, w));
    }
    if k < w {
        assert(!occurs_at(s, t, k));
    }
}

/// First occurrence of `t` in `s` at or after `from`.
pub fn find_from(s: &[char], from: usize, t: &[char]) -> (r: Option<usize>)
    requires
        from <= s@.len(),
    ensures
        match r {
            Some(i) => from <= i && occurs_at(s@, t@, i as int) && forall|j: int|
                from <= j < i ==> !occurs_at(s@, t@, j),
            None => forall|j: int| from <= j ==> !occurs_at(s@, t@, j),
        },
{
    let mut i = from;
    while i < s.len()
        invariant
            from <= i <= s@.len(),
            forall|j: int| from <= j < i ==> !occurs_at(s@, t@, j),
        decreases s@.len() - i,
    {
        if starts_at(s, i, t) {
            return Some(i);
        }
        i = i + 1;
    }
    if starts_at(s, i, t) {
        return Some(i);
    }
    None
}

/// `str::lines`: split at `\n`, drop a `\r` that precedes it, no empty last line.
pub open spec fn lines(s: Seq<char>) -> Seq<Seq<char>>
    decreases s.len(),
{
    if s.len() == 0 {
        seq![]
    } else {
        match find_char(s, '\n') {
            Some(i) => {
                if 0 <= i < s.len() {
                    seq![strip_cr(s.take(i))] + lines(s.skip(i + 1))
                } else {
                    seq![s]
                }
            },
            None => seq![s],
        }
    }
}

/// A line without the `\r` of a `\r\n` ending.
pub open spec fn strip_cr(l: Seq<char>) -> Seq<char> {
    if l.len() > 0 && l.last() == '\r' {
        l.drop_last()
    } else {
        l
    }
}

/// `str::lines`, each line a `String`.
pub fn lines_of(text: &str) -> (res: Vec<String>)
    ensures
        res@.len() == lines(text@).len(),
        forall|i: int| 0 <= i < res@.len() ==> #[trigger] res@[i]@ == lines(text@)[i],
{
    let v = chars_of(text);
    let mut out: Vec<String> = Vec::new();
    let mut pos: usize = 0;
    let n = v.len();
    assert(v@.skip(0) =~= v@);
    while pos < n
        invariant
            n == v@.len(),
            pos <= n,
            v@ == text@,
            lines(text@) == out@.map_values(|l: String| l@) + lines(v@.skip(pos as int)),
        decreases n - pos,
    {
        let ghost rest = v@.skip(pos as int);
        match find_in(&v, pos, n, '\n') {
            Some(k) => {
                assert(v@.subrange(pos as int, n as int) =~= rest);
                let mut e = k;
                if e > pos && v[e - 1] == '\r' {
                    e = e - 1;
                }
                let line = string_of(&v, pos, e);
                proof {
                    assert(line@ =~= strip_cr(rest.take(k - pos)));
                    assert(rest.skip(k - pos + 1) =~= v@.skip(k + 1));
                    assert(lines(rest) == seq![strip_cr(rest.take(k - pos))] + lines(
                        rest.skip(k - pos + 1),
                    ));
                }
                let ghost before = out@;
                out.push(line);
                proof {
                    assert(out@.map_values(|l: String| l@) =~= before.map_values(|l: String| l@)
                        + seq![line@]);
                }
                pos = k + 1;
            },
            None => {
                assert(v@.subrange(pos as int, n as int) =~= rest);
                let line = string_of(&v, pos, n);
                let ghost before = out@;
                out.push(line);
                proof {
                    assert(lines(rest) == seq![rest]);
                    assert(out@.map_values(|l: String| l@) =~= before.map_values(|l: String| l@)
                        + seq![line@]);
                    assert(v@.skip(n as int) =~= Seq::<char>::empty());
                }
                pos = n;
            },
        }
    }
    proof {
        assert(v@.skip(n as int) =~= Seq::<char>::empty());
        assert(lines(v@.skip(n as int)) =~= Seq::<Seq<char>>::empty());
        assert(lines(text@) =~= out@.map_values(|l: String| l@));
        assert forall|i: int| 0 <= i < out@.len() implies #[trigger] out@[i]@ == lines(text@)[i] by {
            assert(out@.map_values(|l: String| l@)[i] == out@[i]@);
        }
    }
    out
}

/// The index that `rfind_char` gives holds the character.
pub proof fn lemma_rfind_char(s: Seq<char>, c: char)
    ensures
        rfind_char(s, c) matches Some(i) ==> 0 <= i < s.len() && s[i] == c,
    decreases s.len(),
{
    if s.len() > 0 && s.last() != c {
        lemma_rfind_char(s.drop_last(), c);
        if rfind_char(s.drop_last(), c) is Some {
            let i = rfind_char(s.drop_last(), c)->0;
            assert(s[i] == s.drop_last()[i]);
        }
    }
}


proof fn lemma_rfind_char_last(s: Seq<char>, c: char)
    ensures
        match rfind_char(s, c) {
            Some(i) => 0 <= i < s.len() && s[i] == c && forall|j: int| i < j < s.len() ==> s[j] != c,
            None => forall|j: int| 0 <= j < s.len() ==> s[j] != c,
        },
    decreases s.len(),
{
    if s.len() > 0 && s.last() != c {
        lemma_rfind_char_last(s.drop_last(), c);
        assert forall|j: int| 0 <= j < s.len() - 1 implies #[trigger] s[j] == s.drop_last()[j] by {}
    }
}

/// `split_once` cuts at the first occurrence of the character and `rsplit_once` at the
/// last: the two parts and the character between them give back the text, the part
/// before (for `split_once`) or after (for `rsplit_once`) holds no such character, and
/// both give nothing exactly when the character does not occur.
pub proof fn law_split_once_parts(s: Seq<char>, c: char)
    ensures
        forall|k: Seq<char>, v: Seq<char>|
            split_once(s, c) == Some((k, v)) ==> s == k + seq![c] + v && !k.contains(c),
        split_once(s, c) is None <==> !s.contains(c),
        forall|k: Seq<char>, v: Seq<char>|
            rsplit_once(s, c) == Some((k, v)) ==> s == k + seq![c] + v && !v.contains(c),
        rsplit_once(s, c) is None <==> !s.contains(c),
{
    lemma_find_char(s, c);
    lemma_rfind_char_last(s, c);
    match find_char(s, c) {
        Some(i) => {
            assert(s =~= s.take(i) + seq![c] + s.skip(i + 1));
            assert(s.contains(c));
        },
        None => {},
    }
    match rfind_char(s, c) {
        Some(i) => {
            assert(s =~= s.take(i) + seq![c] + s.skip(i + 1));
            let v = s.skip(i + 1);
            assert forall|j: int| 0 <= j < v.len() implies #[trigger] v[j] != c by {
                assert(v[j] == s[i + 1 + j]);
            }
        },
        None => {},
    }
}

} // verus!
