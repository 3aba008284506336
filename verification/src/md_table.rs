//! A Markdown document as a table: one row per section, holding its title and the
//! entries of its first `meta` block; the columns are `title` and then every other
//! key in order of first appearance.
use vstd::prelude::*;
use indexmap::IndexMap;
use crate::markdown::{line_views, sections, SectionView, Section, meta_blocks, meta_entries, split_sections, find_meta_blocks, parse_meta};
use crate::meta_map::{map_entries, map_new, map_insert, map_pairs, entries_insert, keys_unique};
use crate::md_update::{lines_between, lemma_meta_blocks_bounds};
use crate::text::{chars_of, rfind_in, string_of, rsplit_once};

verus! {

pub open spec fn title_key() -> Seq<char> {
    seq!['t', 'i', 't', 'l', 'e']
}

/// The entries inserted one after the other.
pub open spec fn insert_all(e: Seq<(Seq<char>, Seq<char>)>, pairs: Seq<(Seq<char>, Seq<char>)>) -> Seq<
    (Seq<char>, Seq<char>),
>
    decreases pairs.len(),
{
    if pairs.len() == 0 {
        e
    } else {
        entries_insert(insert_all(e, pairs.drop_last()), pairs.last().0, pairs.last().1)
    }
}

/// The row of a section: its title (the file name for the part before the first heading),
/// then the entries of its first `meta` block.
pub open spec fn section_row(ls: Seq<Seq<char>>, sec: SectionView, file_name: Seq<char>) -> Seq<
    (Seq<char>, Seq<char>),
> {
    let title = match sec.title {
        Some(t) => t,
        None => file_name,
    };
    let base = seq![(title_key(), title)];
    let blocks = meta_blocks(ls, sec.start, sec.end);
    if blocks.len() == 0 {
        base
    } else {
        insert_all(base, meta_entries(ls.subrange(blocks[0].0 + 1, blocks[0].1)))
    }
}

/// The rows of a document, one per section.
pub open spec fn table_rows(ls: Seq<Seq<char>>, file_name: Seq<char>) -> Seq<
    Seq<(Seq<char>, Seq<char>)>,
> {
    let secs = sections(ls);
    Seq::new(secs.len(), |i: int| section_row(ls, secs[i], file_name))
}

/// The keys appended to `cols` in order, each one once, `title` left out.
pub open spec fn add_columns(cols: Seq<Seq<char>>, keys: Seq<Seq<char>>) -> Seq<Seq<char>>
    decreases keys.len(),
{
    if keys.len() == 0 {
        cols
    } else {
        let c = add_columns(cols, keys.drop_last());
        let k = keys.last();
        if k == title_key() || c.contains(k) {
            c
        } else {
            c.push(k)
        }
    }
}

pub open spec fn keys_of(e: Seq<(Seq<char>, Seq<char>)>) -> Seq<Seq<char>> {
    Seq::new(e.len(), |i: int| e[i].0)
}

/// The columns of a table: `title`, then every other key of the rows in order of first appearance.
pub open spec fn columns_of(rows: Seq<Seq<(Seq<char>, Seq<char>)>>) -> Seq<Seq<char>>
    decreases rows.len(),
{
    if rows.len() == 0 {
        seq![title_key()]
    } else {
        add_columns(columns_of(rows.drop_last()), keys_of(rows.last()))
    }
}

/// The row of one section.
fn row_of(lines: &[String], sec: &Section, file_name: &str) -> (m: IndexMap<String, String>)
    requires
        sec.start <= sec.end <= lines@.len(),
    ensures
        map_entries(m) == section_row(line_views(lines@), sec@, file_name@),
{
    let ghost ls = line_views(lines@);
    let mut row = map_new();
    let title = match &sec.title {
        Some(t) => t.clone(),
        None => crate::text::owned(file_name),
    };
    let key = crate::text::owned("title");
    proof {
        reveal_strlit("title");
        assert("title"@ =~= title_key());
    }
    map_insert(&mut row, key, title);
    assert(map_entries(row) =~= seq![(title_key(), title@)]);
    let blocks = find_meta_blocks(lines, sec.start, sec.end);
    proof {
        lemma_meta_blocks_bounds(ls, sec.start as int, sec.end as int);
    }
    if blocks.len() == 0 {
        return row;
    }
    let (ms, me) = blocks[0];
    assert(blocks@.map_values(|p: (usize, usize)| (p.0 as int, p.1 as int))[0] == (
        ms as int,
        me as int,
    ));
    let inner = lines_between(lines, ms + 1, me);
    let meta = parse_meta(&inner);
    let pairs = map_pairs(&meta);
    let ghost base = map_entries(row);
    let ghost me_entries = map_entries(meta);
    assert(me_entries == meta_entries(ls.subrange(ms + 1, me as int)));
    let mut i: usize = 0;
    while i < pairs.len()
        invariant
            i <= pairs@.len(),
            pairs@.len() == me_entries.len(),
            forall|j: int|
                0 <= j < pairs@.len() ==> (#[trigger] pairs@[j]).0@ == me_entries[j].0
                    && pairs@[j].1@ == me_entries[j].1,
            map_entries(row) == insert_all(base, me_entries.take(i as int)),
        decreases pairs@.len() - i,
    {
        let (k, v) = (pairs[i].0.clone(), pairs[i].1.clone());
        assert(me_entries.take(i + 1).drop_last() =~= me_entries.take(i as int));
        assert(me_entries.take(i + 1).last() == (k@, v@));
        map_insert(&mut row, k, v);
        i = i + 1;
    }
    assert(me_entries.take(i as int) =~= me_entries);
    row
}

/// Adds the keys of a row to the columns.
fn add_row_columns(cols: &mut Vec<String>, row: &IndexMap<String, String>)
    ensures
        line_views(final(cols)@) == add_columns(
            line_views(old(cols)@),
            keys_of(map_entries(*row)),
        ),
{
    let ghost c0 = line_views(cols@);
    let pairs = map_pairs(row);
    let ghost keys = keys_of(map_entries(*row));
    let mut i: usize = 0;
    while i < pairs.len()
        invariant
            i <= pairs@.len(),
            pairs@.len() == keys.len(),
            forall|j: int| 0 <= j < pairs@.len() ==> (#[trigger] pairs@[j]).0@ == keys[j],
            line_views(cols@) == add_columns(c0, keys.take(i as int)),
        decreases pairs@.len() - i,
    {
        let k = pairs[i].0.as_str();
        assert(keys.take(i + 1).drop_last() =~= keys.take(i as int));
        assert(keys.take(i + 1).last() == k@);
        let is_title = crate::json::str_eq(k, "title");
        proof {
            reveal_strlit("title");
            assert("title"@ =~= title_key());
        }
        if !is_title && !crate::markdown::contains_str(cols, k) {
            let ghost before = line_views(cols@);
            cols.push(crate::text::owned(k));
            assert(line_views(cols@) =~= before.push(k@));
        }
        i = i + 1;
    }
    assert(keys.take(i as int) =~= keys);
}

/// The table of a document: its columns and one row per section. `file_name` titles
/// the part before the first heading.
#[verifier::rlimit(30)]
pub fn parse_file(lines: &[String], file_name: &str) -> (r: (Vec<String>, Vec<IndexMap<String, String>>))
    ensures
        r.1@.len() == table_rows(line_views(lines@), file_name@).len(),
        forall|i: int|
            0 <= i < r.1@.len() ==> map_entries(#[trigger] r.1@[i]) == table_rows(
                line_views(lines@),
                file_name@,
            )[i],
        line_views(r.0@) == columns_of(table_rows(line_views(lines@), file_name@)),
{
    let ghost ls = line_views(lines@);
    let secs = split_sections(lines);
    let ghost sv = sections(ls);
    assert(secs@.len() == sv.len());
    assert(forall|j: int|
        0 <= j < sv.len() ==> 0 <= (#[trigger] sv[j]).start <= sv[j].end <= ls.len()) by {
        crate::markdown::law_sections_partition(ls);
    }
    let mut rows: Vec<IndexMap<String, String>> = Vec::new();
    let mut cols: Vec<String> = Vec::new();
    let t0 = crate::text::owned("title");
    proof {
        reveal_strlit("title");
        assert(t0@ =~= title_key());
    }
    cols.push(t0);
    assert(line_views(cols@) =~= seq![title_key()]);
    let ghost table = table_rows(ls, file_name@);
    let mut i: usize = 0;
    while i < secs.len()
        invariant
            i <= secs@.len(),
            secs@.len() == sv.len(),
            sv == sections(ls),
            ls == line_views(lines@),
            table == table_rows(ls, file_name@),
            secs@.map_values(|s: Section| s@) == sv,
            forall|j: int| 0 <= j < sv.len() ==> 0 <= (#[trigger] sv[j]).start <= sv[j].end <= ls.len(),
            rows@.len() == i,
            forall|j: int| 0 <= j < i ==> map_entries(#[trigger] rows@[j]) == table[j],
            line_views(cols@) == columns_of(table.take(i as int)),
        decreases secs@.len() - i,
    {
        assert(secs@.map_values(|s: Section| s@)[i as int] == secs@[i as int]@);
        let row = row_of(lines, &secs[i], file_name);
        assert(map_entries(row) == table[i as int]);
        add_row_columns(&mut cols, &row);
        assert(table.take(i + 1).drop_last() =~= table.take(i as int));
        assert(table.take(i + 1).last() == map_entries(row));
        rows.push(row);
        i = i + 1;
    }
    assert(table.take(i as int) =~= table);
    (cols, rows)
}

/// Why a `<sqlite_db_path>:<table_name>` target cannot be read.
#[derive(PartialEq, Eq, Structural, Clone, Copy)]
pub enum DbTargetError {
    /// No colon in the target.
    Format,
    /// The path or the table name is empty.
    Empty,
}

/// `<sqlite_db_path>:<table_name>` split at the last colon, both parts nonempty.
pub open spec fn spec_db_target(v: Seq<char>) -> Result<(Seq<char>, Seq<char>), DbTargetError> {
    match rsplit_once(v, ':') {
        Some((p, t)) => {
            if p.len() == 0 || t.len() == 0 {
                Err(DbTargetError::Empty)
            } else {
                Ok((p, t))
            }
        },
        None => Err(DbTargetError::Format),
    }
}

/// Reads a `--to-db` target.
pub fn parse_db_target(value: &str) -> (r: Result<(String, String), DbTargetError>)
    ensures
        match r {
            Ok((p, t)) => spec_db_target(value@) == Ok::<(Seq<char>, Seq<char>), DbTargetError>(
                (p@, t@),
            ),
            Err(e) => spec_db_target(value@) == Err::<(Seq<char>, Seq<char>), DbTargetError>(e),
        },
{
    let c = chars_of(value);
    let n = c.len();
    assert(c@.subrange(0, n as int) =~= c@);
    match rfind_in(&c, 0, n, ':') {
        Some(k) => {
            assert(c@.take(k as int) =~= c@.subrange(0, k as int));
            assert(c@.skip(k + 1) =~= c@.subrange(k + 1, n as int));
            if k == 0 || k + 1 == n {
                Err(DbTargetError::Empty)
            } else {
                Ok((string_of(&c, 0, k), string_of(&c, k + 1, n)))
            }
        },
        None => Err(DbTargetError::Format),
    }
}

impl DbTargetError {
    /// The message that reports the error.
    pub fn to_message(&self) -> (r: String)
        ensures
            r@ == match *self {
                DbTargetError::Format => "--to-db 必须使用 <sqlite_db_path>:<table_name> 格式"@,
                DbTargetError::Empty => "SQLite 路径和表名不能为空"@,
            },
    {
        match self {
            DbTargetError::Format => crate::text::owned(
                "--to-db 必须使用 <sqlite_db_path>:<table_name> 格式",
            ),
            DbTargetError::Empty => crate::text::owned("SQLite 路径和表名不能为空"),
        }
    }
}

/// A `--to-db` target is only cut at its last colon: the database path, a colon and the
/// table name give back the target.
pub proof fn law_db_target_rejoin(v: Seq<char>)
    ensures
        spec_db_target(v) matches Ok((path, table)) ==> path + seq![':'] + table == v,
{
    crate::text::lemma_rfind_char(v, ':');
    match crate::text::rfind_char(v, ':') {
        Some(i) => {
            assert(v.take(i) + seq![':'] + v.skip(i + 1) =~= v);
        },
        None => {},
    }
}


proof fn lemma_key_index_at(e: Seq<(Seq<char>, Seq<char>)>, k: Seq<char>)
    ensures
        crate::meta_map::key_index(e, k) matches Some(i) ==> 0 <= i < e.len() && e[i].0 == k,
    decreases e.len(),
{
    if e.len() > 0 && e.last().0 != k {
        lemma_key_index_at(e.drop_last(), k);
    }
}

proof fn lemma_insert_all_keeps_first(e: Seq<(Seq<char>, Seq<char>)>, pairs: Seq<(Seq<char>, Seq<char>)>)
    requires
        e.len() >= 1,
    ensures
        insert_all(e, pairs).len() >= 1,
        insert_all(e, pairs)[0].0 == e[0].0,
    decreases pairs.len(),
{
    if pairs.len() > 0 {
        lemma_insert_all_keeps_first(e, pairs.drop_last());
        let x = insert_all(e, pairs.drop_last());
        lemma_key_index_at(x, pairs.last().0);
    }
}

/// Every row starts with its `title` column: the section's heading title, or the file name
/// for the part before the first heading (a `title` entry of the `meta` block may set its
/// value, not its place); a section without a `meta` block gives that column alone.
pub proof fn law_row_starts_with_title(ls: Seq<Seq<char>>, sec: SectionView, file_name: Seq<char>)
    ensures
        section_row(ls, sec, file_name).len() >= 1,
        section_row(ls, sec, file_name)[0].0 == seq!['t', 'i', 't', 'l', 'e'],
        meta_blocks(ls, sec.start, sec.end).len() == 0 ==> section_row(ls, sec, file_name) == seq![
            (
                seq!['t', 'i', 't', 'l', 'e'],
                match sec.title {
                    Some(t) => t,
                    None => file_name,
                },
            ),
        ],
{
    let title = match sec.title {
        Some(t) => t,
        None => file_name,
    };
    let base = seq![(title_key(), title)];
    let blocks = meta_blocks(ls, sec.start, sec.end);
    if blocks.len() > 0 {
        lemma_insert_all_keeps_first(base, meta_entries(ls.subrange(blocks[0].0 + 1, blocks[0].1)));
    }
}

} // verus!
