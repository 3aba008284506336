//! The ordered string map of the `indexmap` crate, as the Markdown tools use it:
//! keys keep the position of their first insertion, and a later insertion
//! of the same key replaces the value in place.
use vstd::prelude::*;
use indexmap::IndexMap;

verus! {

#[verifier::external_type_specification]
#[verifier::external_body]
#[verifier::reject_recursive_types(K)]
#[verifier::reject_recursive_types(V)]
#[verifier::reject_recursive_types(S)]
pub struct ExIndexMap<K, V, S>(IndexMap<K, V, S>);

/// The entries of a map of strings, in the map's order.
pub uninterp spec fn map_entries(m: IndexMap<String, String>) -> Seq<(Seq<char>, Seq<char>)>;

/// Position of the entry with key `k`.
pub open spec fn key_index(e: Seq<(Seq<char>, Seq<char>)>, k: Seq<char>) -> Option<int>
    decreases e.len(),
{
    if e.len() == 0 {
        None
    } else if e.last().0 == k {
        Some(e.len() - 1)
    } else {
        key_index(e.drop_last(), k)
    }
}

/// Whether no key occurs twice.
pub open spec fn keys_unique(e: Seq<(Seq<char>, Seq<char>)>) -> bool {
    forall|i: int, j: int| 0 <= i < j < e.len() ==> e[i].0 != e[j].0
}

/// `IndexMap::insert`: a present key keeps its place and takes the new value;
/// a new key goes last.
pub open spec fn entries_insert(e: Seq<(Seq<char>, Seq<char>)>, k: Seq<char>, v: Seq<char>) -> Seq<
    (Seq<char>, Seq<char>),
> {
    match key_index(e, k) {
        Some(i) => e.update(i, (k, v)),
        None => e.push((k, v)),
    }
}

/// `IndexMap::get`.
pub open spec fn entries_lookup(e: Seq<(Seq<char>, Seq<char>)>, k: Seq<char>) -> Option<Seq<char>> {
    match key_index(e, k) {
        Some(i) => Some(e[i].1),
        None => None,
    }
}

pub proof fn lemma_key_index(e: Seq<(Seq<char>, Seq<char>)>, k: Seq<char>)
    ensures
        match key_index(e, k) {
            Some(i) => 0 <= i < e.len() && e[i].0 == k,
            None => forall|j: int| 0 <= j < e.len() ==> e[j].0 != k,
        },
    decreases e.len(),
{
    if e.len() > 0 && e.last().0 != k {
        lemma_key_index(e.drop_last(), k);
        if key_index(e.drop_last(), k) is None {
            assert forall|j: int| 0 <= j < e.len() implies e[j].0 != k by {
                if j < e.len() - 1 {
                    assert(e[j] == e.drop_last()[j]);
                }
            }
        }
    }
}

/// Inserting into the ordered map keeps its keys unique: a present key is updated in its
/// place, a new one is added once.
pub proof fn law_insert_keeps_keys_unique(e: Seq<(Seq<char>, Seq<char>)>, k: Seq<char>, v: Seq<char>)
    requires
        keys_unique(e),
    ensures
        keys_unique(entries_insert(e, k, v)),
{
    lemma_key_index(e, k);
}

/// Calls `IndexMap::new`: the map is empty.
#[verifier::external_body]
pub(crate) fn map_new() -> (m: IndexMap<String, String>)
    ensures
        map_entries(m) == Seq::<(Seq<char>, Seq<char>)>::empty(),
{
    IndexMap::new()
}

/// Calls `IndexMap::insert`: as `entries_insert` states; keys stay unique.
#[verifier::external_body]
pub(crate) fn map_insert(m: &mut IndexMap<String, String>, k: String, v: String)
    ensures
        map_entries(*final(m)) == entries_insert(map_entries(*old(m)), k@, v@),
        keys_unique(map_entries(*final(m))),
{
    m.insert(k, v);
}

/// Calls `IndexMap::get`: the value of the entry with that key.
#[verifier::external_body]
pub(crate) fn map_get<'a>(m: &'a IndexMap<String, String>, k: &str) -> (r: Option<&'a String>)
    ensures
        match r {
            Some(v) => entries_lookup(map_entries(*m), k@) == Some(v@),
            None => entries_lookup(map_entries(*m), k@) == None::<Seq<char>>,
        },
{
    m.get(k)
}

/// Calls `IndexMap::iter`: the entries in order, each copied; keys are unique.
#[verifier::external_body]
pub(crate) fn map_pairs(m: &IndexMap<String, String>) -> (r: Vec<(String, String)>)
    ensures
        r@.len() == map_entries(*m).len(),
        forall|i: int|
            0 <= i < r@.len() ==> (#[trigger] r@[i]).0@ == map_entries(*m)[i].0 && r@[i].1@
                == map_entries(*m)[i].1,
        forall|i: int, j: int| 0 <= i < j < r@.len() ==> r@[i].0@ != r@[j].0@,
{
    m.iter().map(|(k, v)| (k.clone(), v.clone())).collect()
}

} // verus!
