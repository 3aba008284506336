//! Where the raw Dandanplay replies are kept:
//! `<root>/dandanplay/{match,danmaku,anime}/<name>.json`.
use vstd::prelude::*;
use crate::path::{join, path_join};
use crate::num::{dec_int, fmt_i64};
use crate::text::{push_str, owned};

verus! {

/// The cache directory tree.
pub struct Cache {
    root: String,
}

pub open spec fn dandanplay() -> Seq<char> {
    seq!['d', 'a', 'n', 'd', 'a', 'n', 'p', 'l', 'a', 'y']
}

pub open spec fn dot_json() -> Seq<char> {
    seq!['.', 'j', 's', 'o', 'n']
}

/// `<root>/dandanplay/<kind>/<name>.json`.
pub open spec fn cache_file(root: Seq<char>, kind: Seq<char>, name: Seq<char>) -> Seq<char> {
    join(join(join(root, dandanplay()), kind), name + dot_json())
}

impl Cache {
    pub closed spec fn root(&self) -> Seq<char> {
        self.root@
    }

    pub fn new(root: String) -> (c: Self)
        ensures
            c.root() == root@,
    {
        Cache { root }
    }

    /// `<root>/dandanplay`.
    pub fn dandanplay_root(&self) -> (r: String)
        ensures
            r@ == join(self.root(), dandanplay()),
    {
        let r = path_join(self.root.as_str(), "dandanplay");
        proof {
            reveal_strlit("dandanplay");
            assert("dandanplay"@ =~= dandanplay());
        }
        r
    }

    fn file(&self, kind: &str, name: &str) -> (r: String)
        ensures
            r@ == cache_file(self.root(), kind@, name@),
    {
        let base = self.dandanplay_root();
        let dir = path_join(base.as_str(), kind);
        let mut file = owned(name);
        push_str(&mut file, ".json");
        proof {
            reveal_strlit(".json");
            assert(file@ =~= name@ + dot_json());
        }
        path_join(dir.as_str(), file.as_str())
    }

    /// The cached reply of a match request, by file hash.
    pub fn match_file(&self, hash: &str) -> (r: String)
        ensures
            r@ == cache_file(self.root(), seq!['m', 'a', 't', 'c', 'h'], hash@),
    {
        proof {
            reveal_strlit("match");
        }
        let r = self.file("match", hash);
        assert("match"@ =~= seq!['m', 'a', 't', 'c', 'h']);
        r
    }

    /// The cached danmaku of an episode.
    pub fn danmaku_file(&self, episode_id: i64) -> (r: String)
        ensures
            r@ == cache_file(
                self.root(),
                seq!['d', 'a', 'n', 'm', 'a', 'k', 'u'],
                dec_int(episode_id as int),
            ),
    {
        proof {
            reveal_strlit("danmaku");
        }
        let id = fmt_i64(episode_id);
        let r = self.file("danmaku", id.as_str());
        assert("danmaku"@ =~= seq!['d', 'a', 'n', 'm', 'a', 'k', 'u']);
        r
    }

    /// The cached details of an anime.
    pub fn anime_file(&self, anime_id: i64) -> (r: String)
        ensures
            r@ == cache_file(self.root(), seq!['a', 'n', 'i', 'm', 'e'], dec_int(anime_id as int)),
    {
        proof {
            reveal_strlit("anime");
        }
        let id = fmt_i64(anime_id);
        let r = self.file("anime", id.as_str());
        assert("anime"@ =~= seq!['a', 'n', 'i', 'm', 'e']);
        r
    }
}

/// Every cached reply lies in its kind's directory under `<root>/dandanplay`: for a kind
/// and a name that are relative (the kind nonempty and not ending in `/`), the file is
/// `<root>/dandanplay` (as joined), `/`, the kind, `/`, the name and `.json`.
pub proof fn law_cache_file_layout(root: Seq<char>, kind: Seq<char>, name: Seq<char>)
    requires
        kind.len() > 0,
        kind[0] != '/',
        kind.last() != '/',
        name.len() == 0 || name[0] != '/',
    ensures
        cache_file(root, kind, name) == join(root, dandanplay()) + seq!['/'] + kind + seq!['/'] + name
            + dot_json(),
{
    let base = join(root, dandanplay());
    assert(dandanplay()[0] == 'd');
    assert(base.last() == 'y') by {
        if root.len() == 0 || root.last() == '/' {
            assert((root + dandanplay()).last() == dandanplay().last());
        } else {
            assert((root + seq!['/'] + dandanplay()).last() == dandanplay().last());
        }
    }
    let dir = join(base, kind);
    assert(dir == base + seq!['/'] + kind);
    assert(dir.last() == kind.last());
    assert((name + dot_json()).len() > 0);
    assert((name + dot_json())[0] != '/') by {
        if name.len() == 0 {
            assert((name + dot_json())[0] == '.');
        } else {
            assert((name + dot_json())[0] == name[0]);
        }
    }
    assert(join(dir, name + dot_json()) =~= base + seq!['/'] + kind + seq!['/'] + name + dot_json());
}


/// A cached reply is `<name>.json` in the directory of its kind under
/// `<root>/dandanplay`.
pub proof fn law_cache_file_names(root: Seq<char>, kind: Seq<char>, name: Seq<char>)
    ensures
        cache_file(root, kind, name) == join(
            join(join(root, seq!['d', 'a', 'n', 'd', 'a', 'n', 'p', 'l', 'a', 'y']), kind),
            name + seq!['.', 'j', 's', 'o', 'n'],
        ),
{
}

} // verus!
