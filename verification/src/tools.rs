//! Inputs of the agent tools, and the query the table-preview tool runs.
//!
//! The preview tool reads an Iceberg table through a read-only SQL query:
//! the query is built here from the tool's input; running it is the
//! caller's part.
use crate::text::{
    chars_of, decimal, join, push_char, push_decimal, push_joined, push_str, str_seq_views,
    string_from, trim, trim_str,
};
use vstd::prelude::*;

verus! {

/// Input of the shell tool.
#[derive(Debug)]
pub struct BashInput {
    /// The command to execute.
    pub command: String,
    pub timeout: usize,
    pub description: Option<String>,
}

/// The shell tool.
pub struct BashTool;

/// Input of the tool that lists the tables of a namespace.
#[derive(Debug)]
pub struct AetherListTablesInNamespaceInput {
    /// Namespace path (dotted), e.g. `warehouse.analytics`.
    pub namespace: String,
}

/// Input of the tool that checks whether a table exists.
#[derive(Debug)]
pub struct AetherTableExistsInput {
    /// Namespace path (dotted) containing the table.
    pub namespace: String,
    /// Table name.
    pub table: String,
}

/// Input of the tool that loads a table's metadata.
#[derive(Debug)]
pub struct AetherLoadTableInput {
    /// Namespace path (dotted) containing the table.
    pub namespace: String,
    /// Table name.
    pub table: String,
}

/// Input of the tool that creates a table.
#[derive(Debug)]
pub struct AetherCreateTableInput {
    /// Namespace path (dotted) to create the table in.
    pub namespace: String,
    /// Table name to create.
    pub table: String,
    /// Column specs as `name:type`, or `name:type!` for a required column.
    pub columns: Vec<String>,
    /// Table location; the catalog's default when absent.
    pub location: Option<String>,
    /// When true, an existing table is loaded instead of failing.
    pub if_not_exists: Option<bool>,
}

impl AetherCreateTableInput {
    /// Where the table is to be created: the trimmed location, or the
    /// catalog's default (`None`) when it is absent or blank.
    pub fn creation_location(&self) -> (r: Option<String>)
        ensures
            match self.location {
                Some(l) if trim(l@).len() > 0 => r matches Some(s) && s@ == trim(l@),
                _ => r is None,
            },
    {
        match &self.location {
            Some(l) => {
                let t = trim_str(l.as_str());
                if t.is_empty() {
                    None
                } else {
                    Some(string_from(t))
                }
            },
            None => None,
        }
    }

    /// Whether an existing table is to be loaded instead of failing (false
    /// unless asked for).
    pub fn loads_existing(&self) -> (r: bool)
        ensures
            r == (self.if_not_exists == Some(true)),
    {
        match self.if_not_exists {
            Some(b) => b,
            None => false,
        }
    }
}

/// Input of the tool that drops a table.
#[derive(Debug)]
pub struct AetherDropTableInput {
    /// Namespace path (dotted) containing the table.
    pub namespace: String,
    /// Table name to drop.
    pub table: String,
}

/// Input of the tool that renames (moves) a table.
#[derive(Debug)]
pub struct AetherRenameTableInput {
    /// Source namespace path (dotted).
    pub from_namespace: String,
    /// Source table name.
    pub from_table: String,
    /// Destination namespace path (dotted).
    pub to_namespace: String,
    /// Destination table name.
    pub to_table: String,
}

/// `s` with each double quote doubled.
pub open spec fn escape_quotes(s: Seq<char>) -> Seq<char>
    decreases s.len(),
{
    if s.len() == 0 {
        Seq::empty()
    } else if s.last() == '"' {
        escape_quotes(s.drop_last()) + seq!['"', '"']
    } else {
        escape_quotes(s.drop_last()).push(s.last())
    }
}

/// `name` as a quoted SQL identifier.
pub open spec fn quoted(name: Seq<char>) -> Seq<char> {
    seq!['"'] + escape_quotes(name) + seq!['"']
}

/// Quotes a SQL identifier with double quotes, doubling embedded quotes.
pub fn quote_ident(name: &str) -> (r: String)
    ensures
        r@ == quoted(name@),
{
    let v = chars_of(name);
    let mut out = String::new();
    push_char(&mut out, '"');
    let mut i: usize = 0;
    while i < v.len()
        invariant
            i <= v@.len(),
            out@ == seq!['"'] + escape_quotes(v@.take(i as int)),
        decreases v.len() - i,
    {
        let c = v[i];
        if c == '"' {
            push_char(&mut out, '"');
            push_char(&mut out, '"');
        } else {
            push_char(&mut out, c);
        }
        proof {
            assert(v@.take(i as int + 1).drop_last() =~= v@.take(i as int));
            assert(v@.take(i as int + 1).last() == c);
        }
        i = i + 1;
        assert(out@ =~= seq!['"'] + escape_quotes(v@.take(i as int)));
    }
    push_char(&mut out, '"');
    proof {
        assert(v@.take(v@.len() as int) =~= v@);
        assert(out@ =~= quoted(name@));
    }
    out
}

/// Input of the table-preview tool.
#[derive(Debug)]
pub struct IcebergPreviewTableInput {
    /// Top-level namespace segment containing the table, e.g. `analytics`.
    pub namespace: String,
    /// Table name to preview.
    pub table: String,
    /// Columns to project; all columns when absent or empty.
    pub columns: Option<Vec<String>>,
    /// SQL condition (without the `WHERE` keyword).
    pub where_clause: Option<String>,
    /// Maximum number of rows; 100 when absent.
    pub limit: Option<usize>,
}

/// The table-preview tool.
pub struct IcebergPreviewTableTool;

/// The rows a preview returns at most.
pub open spec fn preview_limit(limit: Option<usize>) -> usize {
    match limit {
        Some(n) => n,
        None => 100,
    }
}

/// The columns a preview selects: the trimmed, quoted columns joined by
/// commas, or `*`.
pub open spec fn projection(columns: Option<Seq<Seq<char>>>) -> Seq<char> {
    match columns {
        Some(cols) if cols.len() > 0 => join(cols.map_values(|c: Seq<char>| quoted(trim(c))), ", "@),
        _ => "*"@,
    }
}

/// The filter of a preview: the trimmed condition, when it is not blank.
pub open spec fn where_part(clause: Option<Seq<char>>) -> Seq<char> {
    match clause {
        Some(c) if trim(c).len() > 0 => " WHERE "@ + trim(c),
        _ => Seq::empty(),
    }
}

/// The query a preview runs.
pub open spec fn preview_sql(
    namespace: Seq<char>,
    table: Seq<char>,
    columns: Option<Seq<Seq<char>>>,
    clause: Option<Seq<char>>,
    limit: Option<usize>,
) -> Seq<char> {
    "SELECT "@ + projection(columns) + " FROM "@ + quoted("iceberg"@) + "."@ + quoted(trim(namespace))
        + "."@ + quoted(trim(table)) + where_part(clause) + " LIMIT "@ + decimal(
        preview_limit(limit) as nat,
    )
}

/// Whether a preview input names both a namespace and a table (after
/// trimming).
pub open spec fn preview_input_ok(namespace: Seq<char>, table: Seq<char>) -> bool {
    trim(namespace).len() > 0 && trim(table).len() > 0
}

/// The columns of an input, as text.
pub open spec fn columns_view(columns: Option<Vec<String>>) -> Option<Seq<Seq<char>>> {
    match columns {
        Some(c) => Some(str_seq_views(c@)),
        None => None,
    }
}

/// The condition of an input, as text.
pub open spec fn clause_view(clause: Option<String>) -> Option<Seq<char>> {
    match clause {
        Some(c) => Some(c@),
        None => None,
    }
}

/// What a preview runs: the query, and the row limit it uses.
pub struct PreviewQuery {
    pub sql: String,
    pub limit: usize,
}

impl IcebergPreviewTableTool {
    /// The query that previews the table an input names, or the error
    /// message when the namespace or the table is blank.
    pub fn preview_query(&self, input: &IcebergPreviewTableInput) -> (r: Result<PreviewQuery, String>)
        ensures
            preview_input_ok(input.namespace@, input.table@) ==> (r matches Ok(q) && q.sql@
                == preview_sql(
                input.namespace@,
                input.table@,
                columns_view(input.columns),
                clause_view(input.where_clause),
                input.limit,
            ) && q.limit == preview_limit(input.limit)),
            !preview_input_ok(input.namespace@, input.table@) ==> (r matches Err(m) && m@
                == "both 'namespace' and 'table' are required"@),
    {
        let namespace = trim_str(input.namespace.as_str());
        let table = trim_str(input.table.as_str());
        if namespace.is_empty() || table.is_empty() {
            return Err(string_from("both 'namespace' and 'table' are required"));
        }
        let mut sql = String::new();
        push_str(&mut sql, "SELECT ");
        let ghost s0 = sql@;
        let has_columns = match &input.columns {
            Some(cols) => cols.len() > 0,
            None => false,
        };
        if has_columns {
            let cols = input.columns.as_ref().unwrap();
            let mut quoted_cols: Vec<String> = Vec::new();
            let mut i: usize = 0;
            while i < cols.len()
                invariant
                    i <= cols@.len(),
                    str_seq_views(quoted_cols@) == str_seq_views(cols@).take(i as int).map_values(
                        |c: Seq<char>| quoted(trim(c)),
                    ),
                decreases cols.len() - i,
            {
                let q = quote_ident(trim_str(cols[i].as_str()));
                let ghost before = str_seq_views(quoted_cols@);
                quoted_cols.push(q);
                proof {
                    assert(str_seq_views(quoted_cols@) =~= before.push(q@));
                    assert(str_seq_views(cols@).take(i as int + 1) =~= str_seq_views(cols@).take(
                        i as int,
                    ).push(cols@[i as int]@));
                }
                i = i + 1;
                assert(str_seq_views(quoted_cols@) =~= str_seq_views(cols@).take(i as int).map_values(
                    |c: Seq<char>| quoted(trim(c)),
                ));
            }
            assert(str_seq_views(cols@).take(cols@.len() as int) =~= str_seq_views(cols@));
            push_joined(&mut sql, &quoted_cols, ", ");
        } else {
            push_str(&mut sql, "*");
        }
        assert(sql@ == s0 + projection(columns_view(input.columns)));
        push_str(&mut sql, " FROM ");
        push_str(&mut sql, quote_ident("iceberg").as_str());
        push_str(&mut sql, ".");
        push_str(&mut sql, quote_ident(namespace).as_str());
        push_str(&mut sql, ".");
        push_str(&mut sql, quote_ident(table).as_str());
        let ghost s1 = sql@;
        match &input.where_clause {
            Some(c) => {
                let clause = trim_str(c.as_str());
                if !clause.is_empty() {
                    push_str(&mut sql, " WHERE ");
                    push_str(&mut sql, clause);
                }
            },
            None => {},
        }
        assert(sql@ == s1 + where_part(clause_view(input.where_clause)));
        let limit: usize = match input.limit {
            Some(n) => n,
            None => 100,
        };
        push_str(&mut sql, " LIMIT ");
        push_decimal(&mut sql, limit as u64);
        proof {
            assert(sql@ =~= preview_sql(
                input.namespace@,
                input.table@,
                columns_view(input.columns),
                clause_view(input.where_clause),
                input.limit,
            ));
        }
        Ok(PreviewQuery { sql, limit })
    }
}

/// Whether a preview that returned `row_count` rows may have been cut at its
/// limit.
pub fn is_truncated(row_count: usize, limit: usize) -> (r: bool)
    ensures
        r == (row_count >= limit),
{
    row_count >= limit
}

} // verus!
