//! The SQL text that stores a table of strings in SQLite: quoted identifiers, the
//! statements that replace the table, and the values of each row in column order.
use vstd::prelude::*;
use indexmap::IndexMap;
use crate::num::{dec, fmt_usize};
use crate::text::{chars_of, push_char, push_str};
use crate::markdown::line_views;
use crate::md_update::{joined, join_lines};
use crate::meta_map::{map_entries, map_get, entries_lookup};

verus! {

/// The text with each `"` doubled.
pub open spec fn doubled_quotes(s: Seq<char>) -> Seq<char>
    decreases s.len(),
{
    if s.len() == 0 {
        seq![]
    } else {
        doubled_quotes(s.drop_last()) + if s.last() == '"' {
            seq!['"', '"']
        } else {
            seq![s.last()]
        }
    }
}

/// An SQL identifier: in double quotes, with the quotes inside doubled.
pub open spec fn quoted(s: Seq<char>) -> Seq<char> {
    seq!['"'] + doubled_quotes(s) + seq!['"']
}

pub fn quote_identifier(value: &str) -> (r: String)
    ensures
        r@ == quoted(value@),
{
    let c = chars_of(value);
    let mut out = String::new();
    push_char(&mut out, '"');
    let mut i: usize = 0;
    assert(c@.take(0) =~= Seq::<char>::empty());
    while i < c.len()
        invariant
            i <= c@.len(),
            out@ == seq!['"'] + doubled_quotes(c@.take(i as int)),
        decreases c@.len() - i,
    {
        if c[i] == '"' {
            push_char(&mut out, '"');
            push_char(&mut out, '"');
        } else {
            push_char(&mut out, c[i]);
        }
        assert(c@.take(i + 1).drop_last() =~= c@.take(i as int));
        assert(out@ =~= seq!['"'] + doubled_quotes(c@.take(i + 1)));
        i = i + 1;
    }
    push_char(&mut out, '"');
    assert(c@.take(i as int) =~= c@);
    out
}

/// The quoted column names.
pub open spec fn quoted_all(columns: Seq<Seq<char>>) -> Seq<Seq<char>> {
    Seq::new(columns.len(), |i: int| quoted(columns[i]))
}

/// The column definitions: each quoted name followed by ` TEXT`.
pub open spec fn text_columns(columns: Seq<Seq<char>>) -> Seq<Seq<char>> {
    Seq::new(columns.len(), |i: int| quoted(columns[i]) + " TEXT"@)
}

/// The numbered parameters `?1`, `?2`, ... for `n` values.
pub open spec fn placeholders(n: nat) -> Seq<Seq<char>> {
    Seq::new(n, |i: int| seq!['?'] + dec((i + 1) as nat))
}

pub open spec fn spec_drop_sql(table: Seq<char>) -> Seq<char> {
    "DROP TABLE IF EXISTS "@ + quoted(table)
}

pub open spec fn spec_create_sql(table: Seq<char>, columns: Seq<Seq<char>>) -> Seq<char> {
    "CREATE TABLE "@ + quoted(table) + " ("@ + joined(text_columns(columns), ", "@) + ")"@
}

pub open spec fn spec_insert_sql(table: Seq<char>, columns: Seq<Seq<char>>) -> Seq<char> {
    "INSERT INTO "@ + quoted(table) + " ("@ + joined(quoted_all(columns), ", "@) + ") VALUES ("@
        + joined(placeholders(columns.len()), ", "@) + ")"@
}

/// The statement that removes an earlier table of that name.
pub fn drop_table_sql(table: &str) -> (r: String)
    ensures
        r@ == spec_drop_sql(table@),
{
    let mut out = String::new();
    push_str(&mut out, "DROP TABLE IF EXISTS ");
    let q = quote_identifier(table);
    push_str(&mut out, q.as_str());
    out
}

/// The statement that creates the table, one `TEXT` column per name.
pub fn create_table_sql(table: &str, columns: &Vec<String>) -> (r: String)
    ensures
        r@ == spec_create_sql(table@, line_views(columns@)),
{
    let mut defs: Vec<String> = Vec::new();
    let mut i: usize = 0;
    while i < columns.len()
        invariant
            i <= columns@.len(),
            line_views(defs@) == text_columns(line_views(columns@)).take(i as int),
        decreases columns@.len() - i,
    {
        let ghost before = line_views(defs@);
        let mut d = quote_identifier(columns[i].as_str());
        push_str(&mut d, " TEXT");
        defs.push(d);
        assert(line_views(defs@) =~= before.push(d@));
        assert(text_columns(line_views(columns@)).take(i + 1) =~= before.push(d@));
        i = i + 1;
    }
    assert(text_columns(line_views(columns@)).take(i as int) =~= text_columns(line_views(columns@)));
    let mut out = String::new();
    push_str(&mut out, "CREATE TABLE ");
    let q = quote_identifier(table);
    push_str(&mut out, q.as_str());
    push_str(&mut out, " (");
    let j = join_lines(defs.as_slice(), ", ");
    push_str(&mut out, j.as_str());
    push_str(&mut out, ")");
    assert(out@ =~= spec_create_sql(table@, line_views(columns@)));
    out
}

/// The statement that inserts one row, its values bound to `?1`, `?2`, ... in column order.
pub fn insert_sql(table: &str, columns: &Vec<String>) -> (r: String)
    requires
        columns@.len() < usize::MAX,
    ensures
        r@ == spec_insert_sql(table@, line_views(columns@)),
{
    let mut names: Vec<String> = Vec::new();
    let mut params: Vec<String> = Vec::new();
    let mut i: usize = 0;
    while i < columns.len()
        invariant
            i <= columns@.len() < usize::MAX,
            line_views(names@) == quoted_all(line_views(columns@)).take(i as int),
            line_views(params@) == placeholders(columns@.len()).take(i as int),
        decreases columns@.len() - i,
    {
        let ghost nb = line_views(names@);
        let ghost pb = line_views(params@);
        let q = quote_identifier(columns[i].as_str());
        names.push(q);
        let mut p = String::new();
        push_char(&mut p, '?');
        let d = fmt_usize(i + 1);
        push_str(&mut p, d.as_str());
        params.push(p);
        assert(line_views(names@) =~= nb.push(q@));
        assert(line_views(params@) =~= pb.push(p@));
        assert(p@ =~= seq!['?'] + dec((i + 1) as nat));
        assert(line_views(names@) =~= quoted_all(line_views(columns@)).take(i + 1));
        assert(line_views(params@) =~= placeholders(columns@.len()).take(i + 1));
        i = i + 1;
    }
    assert(quoted_all(line_views(columns@)).take(i as int) =~= quoted_all(line_views(columns@)));
    assert(placeholders(columns@.len()).take(i as int) =~= placeholders(columns@.len()));
    let mut out = String::new();
    push_str(&mut out, "INSERT INTO ");
    let q = quote_identifier(table);
    push_str(&mut out, q.as_str());
    push_str(&mut out, " (");
    let n = join_lines(names.as_slice(), ", ");
    push_str(&mut out, n.as_str());
    push_str(&mut out, ") VALUES (");
    let p = join_lines(params.as_slice(), ", ");
    push_str(&mut out, p.as_str());
    push_str(&mut out, ")");
    assert(out@ =~= spec_insert_sql(table@, line_views(columns@)));
    out
}

/// A row's value for each column, in column order; a column the row lacks gives `""`.
pub open spec fn spec_row_values(columns: Seq<Seq<char>>, row: Seq<(Seq<char>, Seq<char>)>) -> Seq<
    Seq<char>,
> {
    Seq::new(
        columns.len(),
        |i: int|
            match entries_lookup(row, columns[i]) {
                Some(v) => v,
                None => seq![],
            },
    )
}

pub fn row_values(columns: &Vec<String>, row: &IndexMap<String, String>) -> (r: Vec<String>)
    ensures
        line_views(r@) == spec_row_values(line_views(columns@), map_entries(*row)),
{
    let mut out: Vec<String> = Vec::new();
    let mut i: usize = 0;
    while i < columns.len()
        invariant
            i <= columns@.len(),
            line_views(out@) == spec_row_values(line_views(columns@), map_entries(*row)).take(
                i as int,
            ),
        decreases columns@.len() - i,
    {
        let ghost before = line_views(out@);
        let v = match map_get(row, columns[i].as_str()) {
            Some(v) => v.clone(),
            None => String::new(),
        };
        let ghost want = match entries_lookup(map_entries(*row), columns@[i as int]@) {
            Some(x) => x,
            None => Seq::<char>::empty(),
        };
        assert(v@ == want);
        out.push(v);
        assert(line_views(out@) =~= before.push(want));
        assert(line_views(out@) =~= spec_row_values(line_views(columns@), map_entries(*row)).take(
            i + 1,
        ));
        i = i + 1;
    }
    assert(spec_row_values(line_views(columns@), map_entries(*row)).take(i as int)
        =~= spec_row_values(line_views(columns@), map_entries(*row)));
    out
}

} // verus!
