//! Unix paths held as text, with the meaning `std::path` gives them:
//! joining, the file name of a path and the stem of a file name.
use vstd::prelude::*;
use crate::text::{chars_of, find_char, rfind_char, string_of, push_str, owned};

verus! {

/// `PathBuf::join`: an absolute `part` replaces `base`; otherwise `part` follows `base`,
/// with a separator unless `base` is empty or already ends with one.
pub open spec fn join(base: Seq<char>, part: Seq<char>) -> Seq<char> {
    if part.len() > 0 && part[0] == '/' {
        part
    } else if base.len() == 0 || base.last() == '/' {
        base + part
    } else {
        base + seq!['/'] + part
    }
}

pub fn path_join(base: &str, part: &str) -> (r: String)
    ensures
        r@ == join(base@, part@),
{
    let b = chars_of(base);
    let p = chars_of(part);
    if p.len() > 0 && p[0] == '/' {
        return owned(part);
    }
    let mut out = owned(base);
    if !(b.len() == 0 || b[b.len() - 1] == '/') {
        crate::text::push_char(&mut out, '/');
    }
    push_str(&mut out, part);
    out
}

pub open spec fn is_dot(s: Seq<char>) -> bool {
    s == seq!['.']
}

pub open spec fn is_dot_dot(s: Seq<char>) -> bool {
    s == seq!['.', '.']
}

/// The components of a path that name something: the pieces between slashes,
/// without the empty ones and the `.` ones.
pub open spec fn components(p: Seq<char>) -> Seq<Seq<char>>
    decreases p.len(),
{
    match find_char(p, '/') {
        Some(i) => {
            if 0 <= i < p.len() {
                let piece = p.take(i);
                (if piece.len() > 0 && !is_dot(piece) {
                    seq![piece]
                } else {
                    Seq::empty()
                }) + components(p.skip(i + 1))
            } else {
                Seq::empty()
            }
        },
        None => if p.len() > 0 && !is_dot(p) {
            seq![p]
        } else {
            Seq::empty()
        },
    }
}

/// `Path::file_name`: the last component, unless there is none or it is `..`.
pub open spec fn file_name(p: Seq<char>) -> Option<Seq<char>> {
    let cs = components(p);
    if cs.len() == 0 || is_dot_dot(cs.last()) {
        None
    } else {
        Some(cs.last())
    }
}

/// The stem of a file name (`Path::file_stem` of a name without slashes): the part before
/// the last dot, or the whole name when it has no dot, starts with its only dot, or is `..`.
pub open spec fn stem(name: Seq<char>) -> Seq<char> {
    if is_dot_dot(name) {
        name
    } else {
        match rfind_char(name, '.') {
            Some(i) => {
                if i == 0 {
                    name
                } else {
                    name.take(i)
                }
            },
            None => name,
        }
    }
}

pub(crate) fn is_dot_range(c: &[char], lo: usize, hi: usize) -> (b: bool)
    requires
        lo <= hi <= c@.len(),
    ensures
        b == is_dot(c@.subrange(lo as int, hi as int)),
{
    if hi - lo == 1 && c[lo] == '.' {
        assert(c@.subrange(lo as int, hi as int) =~= seq!['.']);
        true
    } else {
        proof {
            if hi - lo == 1 {
                assert(c@.subrange(lo as int, hi as int)[0] == c@[lo as int]);
            } else {
                assert(c@.subrange(lo as int, hi as int).len() != seq!['.'].len());
            }
        }
        false
    }
}

pub(crate) fn is_dot_dot_range(c: &[char], lo: usize, hi: usize) -> (b: bool)
    requires
        lo <= hi <= c@.len(),
    ensures
        b == is_dot_dot(c@.subrange(lo as int, hi as int)),
{
    if hi - lo == 2 && c[lo] == '.' && c[lo + 1] == '.' {
        assert(c@.subrange(lo as int, hi as int) =~= seq!['.', '.']);
        true
    } else {
        proof {
            if hi - lo == 2 {
                assert(c@.subrange(lo as int, hi as int)[0] == c@[lo as int]);
                assert(c@.subrange(lo as int, hi as int)[1] == c@[lo + 1]);
            } else {
                assert(c@.subrange(lo as int, hi as int).len() != seq!['.', '.'].len());
            }
        }
        false
    }
}

/// The first piece of `rest` and what follows its slash.
proof fn lemma_components_step(rest: Seq<char>, k: int)
    requires
        0 <= k < rest.len(),
        rest[k] == '/',
        forall|j: int| 0 <= j < k ==> rest[j] != '/',
    ensures
        components(rest) == (if rest.take(k).len() > 0 && !is_dot(rest.take(k)) {
            seq![rest.take(k)]
        } else {
            Seq::<Seq<char>>::empty()
        }) + components(rest.skip(k + 1)),
{
    crate::text::lemma_find_char_at(rest, '/', k);
}

proof fn lemma_components_last(rest: Seq<char>)
    requires
        forall|j: int| 0 <= j < rest.len() ==> rest[j] != '/',
    ensures
        components(rest) == (if rest.len() > 0 && !is_dot(rest) {
            seq![rest]
        } else {
            Seq::<Seq<char>>::empty()
        }),
{
    crate::text::lemma_find_char_at(rest, '/', rest.len() as int);
}

/// The range of the last naming component of `c`, if any.
#[verifier::loop_isolation(false)]
fn last_component(c: &[char]) -> (r: Option<(usize, usize)>)
    ensures
        match r {
            Some((a, b)) => a <= b <= c@.len() && components(c@).len() > 0 && components(c@).last()
                == c@.subrange(a as int, b as int),
            None => components(c@).len() == 0,
        },
{
    let n = c.len();
    let mut last: Option<(usize, usize)> = None;
    let mut pos: usize = 0;
    let ghost mut seen: Seq<Seq<char>> = Seq::empty();
    assert(c@.skip(0) =~= c@);
    while pos < n
        invariant
            n == c@.len(),
            pos <= n,
            components(c@) == seen + components(c@.skip(pos as int)),
            last is None ==> seen.len() == 0,
            last matches Some((a, b)) ==> a <= b <= n && seen.len() > 0 && seen.last()
                == c@.subrange(a as int, b as int),
        decreases n - pos,
    {
        let ghost rest = c@.skip(pos as int);
        assert(c@.subrange(pos as int, n as int) =~= rest);
        match crate::text::find_in(c, pos, n, '/') {
            Some(k) => {
                proof {
                    crate::text::lemma_find_char(rest, '/');
                    lemma_components_step(rest, k - pos);
                    assert(rest.take(k - pos) =~= c@.subrange(pos as int, k as int));
                    assert(rest.skip(k - pos + 1) =~= c@.skip(k + 1));
                }
                if k > pos && !is_dot_range(c, pos, k) {
                    last = Some((pos, k));
                    proof {
                        let piece = c@.subrange(pos as int, k as int);
                        assert(seen + (seq![piece] + components(c@.skip(k + 1))) =~= seen.push(
                            piece,
                        ) + components(c@.skip(k + 1)));
                        seen = seen.push(piece);
                    }
                } else {
                    assert(seen + (Seq::<Seq<char>>::empty() + components(c@.skip(k + 1)))
                        =~= seen + components(c@.skip(k + 1)));
                }
                pos = k + 1;
            },
            None => {
                proof {
                    crate::text::lemma_find_char(rest, '/');
                    lemma_components_last(rest);
                }
                if !is_dot_range(c, pos, n) && pos < n {
                    last = Some((pos, n));
                    proof {
                        assert(seen + seq![rest] =~= seen.push(rest));
                        seen = seen.push(rest);
                    }
                } else {
                    assert(seen + Seq::<Seq<char>>::empty() =~= seen);
                }
                proof {
                    assert(c@.skip(n as int) =~= Seq::<char>::empty());
                    lemma_components_last(c@.skip(n as int));
                    assert(seen + components(c@.skip(n as int)) =~= seen);
                }
                pos = n;
            },
        }
    }
    proof {
        assert(c@.skip(n as int) =~= Seq::<char>::empty());
        lemma_components_last(c@.skip(n as int));
        assert(components(c@) =~= seen);
    }
    last
}

/// `Path::file_name` of a path.
pub fn file_name_of(path: &str) -> (r: Option<String>)
    ensures
        match r {
            Some(n) => file_name(path@) == Some(n@),
            None => file_name(path@) == None::<Seq<char>>,
        },
{
    let c = chars_of(path);
    match last_component(&c) {
        Some((a, b)) => {
            if is_dot_dot_range(&c, a, b) {
                None
            } else {
                Some(string_of(&c, a, b))
            }
        },
        None => None,
    }
}

/// The stem of a file name.
pub fn stem_of(name: &str) -> (r: String)
    ensures
        r@ == stem(name@),
{
    let c = chars_of(name);
    let n = c.len();
    assert(c@.subrange(0, n as int) =~= c@);
    if n == 2 && c[0] == '.' && c[1] == '.' {
        assert(c@ =~= seq!['.', '.']);
        return owned(name);
    }
    proof {
        if n == 2 {
            assert(!is_dot_dot(c@));
        }
    }
    match crate::text::rfind_in(&c, 0, n, '.') {
        Some(i) => {
            if i == 0 {
                owned(name)
            } else {
                assert(c@.take(i as int) =~= c@.subrange(0, i as int));
                string_of(&c, 0, i)
            }
        },
        None => owned(name),
    }
}

} // verus!
