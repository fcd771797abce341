//! What is said of a prepared statement.

use crate::ast::{short_name, statement_name};
use crate::error::{
    invalid, invalid_err, undefined_column, undefined_column_err, ErrorView, QueryError,
};
use crate::expr::{
    collect_where_binds, named_types, select_columns, selected_columns, where_specs, NamedType,
};
use crate::query::{found_table, opt_view, resolve_name, resolve_table, resolved, target};
use crate::schema::{id_text, id_texts, norm_id, norm_ids, ColumnType, TableDef, TableView};
use crate::text::{index_in, join2, lemma_index_in, position_of, texts};
use cql3_parser::cassandra_statement::CassandraStatement;
use cql3_parser::common::FQName;
use cql3_parser::update::AssignmentElement;
use vstd::prelude::*;

verus! {

/// What is said of a prepared statement: its table, the columns that its bind
/// markers stand for, which of those are the key, and the columns of its
/// result.
#[derive(Debug)]
pub struct PreparedInfo {
    pub keyspace: String,
    pub table: String,
    pub bind_specs: Vec<(String, ColumnType)>,
    pub pk_indexes: Vec<u16>,
    pub result_cols: Vec<(String, ColumnType)>,
}

/// What prepared information says.
#[verifier::ext_equal]
pub struct PreparedView {
    pub keyspace: Seq<char>,
    pub table: Seq<char>,
    pub bind_specs: Seq<NamedType>,
    pub pk_indexes: Seq<u16>,
    pub result_cols: Seq<NamedType>,
}

impl View for PreparedInfo {
    type V = PreparedView;

    open spec fn view(&self) -> PreparedView {
        PreparedView {
            keyspace: self.keyspace@,
            table: self.table@,
            bind_specs: named_types(self.bind_specs@),
            pk_indexes: self.pk_indexes@,
            result_cols: named_types(self.result_cols@),
        }
    }
}

/// Copies a list of named types.
pub fn copy_types(v: &Vec<(String, ColumnType)>) -> (r: Vec<(String, ColumnType)>)
    ensures
        named_types(r@) == named_types(v@),
{
    let ghost all = named_types(v@);
    let mut r: Vec<(String, ColumnType)> = Vec::new();
    let mut i: usize = 0;
    assert(named_types(r@) =~= all.take(0));
    while i < v.len()
        invariant
            i <= v@.len(),
            all == named_types(v@),
            named_types(r@) == all.take(i as int),
        decreases v@.len() - i,
    {
        let ghost before = named_types(r@);
        r.push((v[i].0.clone(), v[i].1.clone()));
        assert(named_types(r@) =~= before.push(all[i as int]));
        i += 1;
        assert(named_types(r@) =~= all.take(i as int));
    }
    assert(all.take(i as int) =~= all);
    r
}

impl Clone for PreparedInfo {
    fn clone(&self) -> (r: Self)
        ensures
            r@ == self@,
    {
        let mut pk_indexes: Vec<u16> = Vec::new();
        let mut i: usize = 0;
        while i < self.pk_indexes.len()
            invariant
                i <= self.pk_indexes@.len(),
                pk_indexes@ == self.pk_indexes@.take(i as int),
            decreases self.pk_indexes@.len() - i,
        {
            pk_indexes.push(self.pk_indexes[i]);
            i += 1;
            assert(pk_indexes@ =~= self.pk_indexes@.take(i as int));
        }
        assert(self.pk_indexes@.take(i as int) =~= self.pk_indexes@);
        PreparedInfo {
            keyspace: self.keyspace.clone(),
            table: self.table.clone(),
            bind_specs: copy_types(&self.bind_specs),
            pk_indexes,
            result_cols: copy_types(&self.result_cols),
        }
    }
}

/// The complaint about a statement that cannot be prepared.
pub open spec fn not_preparable(stmt: CassandraStatement) -> ErrorView {
    invalid("Statement cannot be prepared: "@ + statement_name(stmt))
}

/// The name of the table of a statement that can be prepared.
pub open spec fn prepared_name(stmt: CassandraStatement) -> Option<FQName> {
    match stmt {
        CassandraStatement::Insert(i) => Some(i.table_name),
        CassandraStatement::Update(u) => Some(u.table_name),
        CassandraStatement::Select(s) => Some(s.table_name),
        CassandraStatement::Delete(d) => Some(d.table_name),
        _ => None,
    }
}

/// The keyspace and the table of a statement that is prepared.
pub open spec fn prepared_target(session: Option<Seq<char>>, stmt: CassandraStatement) -> Result<
    (Seq<char>, Seq<char>),
    ErrorView,
> {
    match prepared_name(stmt) {
        Some(name) => target(session, name),
        None => Err(not_preparable(stmt)),
    }
}

/// The keyspace and the table to look up for a statement that is prepared.
pub fn prepare_target(session_ks: &Option<String>, stmt: &CassandraStatement) -> (r: Result<
    (String, String),
    QueryError,
>)
    ensures
        match prepared_target(opt_view(*session_ks), *stmt) {
            Ok(t) => r matches Ok(x) && (x.0@, x.1@) == t,
            Err(e) => r matches Err(x) && x@ == e,
        },
{
    match stmt {
        CassandraStatement::Insert(i) => resolve_name(session_ks, &i.table_name),
        CassandraStatement::Update(u) => resolve_name(session_ks, &u.table_name),
        CassandraStatement::Select(s) => resolve_name(session_ks, &s.table_name),
        CassandraStatement::Delete(d) => resolve_name(session_ks, &d.table_name),
        other => Err(invalid_err(&join2("Statement cannot be prepared: ", short_name(other)))),
    }
}

/// The columns called `names` from the `i`-th on, each with its type.
pub open spec fn column_specs(names: Seq<Seq<char>>, i: int, table: TableView) -> Result<
    Seq<NamedType>,
    ErrorView,
>
    decreases names.len() - i,
{
    if i >= names.len() {
        Ok(Seq::empty())
    } else {
        match table.index_of(names[i]) {
            None => Err(undefined_column(names[i])),
            Some(c) => match column_specs(names, i + 1, table) {
                Err(e) => Err(e),
                Ok(rest) => Ok(seq![(names[i], table.columns[c].col_type)] + rest),
            },
        }
    }
}

/// Where the keys from the `i`-th on stand among `names`, those that do.
pub open spec fn key_positions(names: Seq<Seq<char>>, keys: Seq<Seq<char>>, i: int) -> Seq<u16>
    decreases keys.len() - i,
{
    if i >= keys.len() {
        Seq::empty()
    } else {
        match index_in(names, keys[i]) {
            Some(pos) => seq![pos as u16] + key_positions(names, keys, i + 1),
            None => key_positions(names, keys, i + 1),
        }
    }
}

/// The names of the columns that assignments set.
pub open spec fn assigned_names(assignments: Seq<AssignmentElement>) -> Seq<Seq<char>> {
    assignments.map_values(|a: AssignmentElement| id_text(a.name.column))
}

/// What is said of a statement about a table.
pub open spec fn prepared_on(stmt: CassandraStatement, keyspace: Seq<char>, table: TableView) -> Result<
    PreparedView,
    ErrorView,
> {
    let base = PreparedView {
        keyspace,
        table: table.name,
        bind_specs: Seq::empty(),
        pk_indexes: Seq::empty(),
        result_cols: Seq::empty(),
    };
    match stmt {
        CassandraStatement::Insert(i) => match column_specs(id_texts(i.columns@), 0, table) {
            Err(e) => Err(e),
            Ok(bind_specs) => Ok(
                PreparedView {
                    bind_specs,
                    pk_indexes: key_positions(id_texts(i.columns@), table.key_names(), 0),
                    ..base
                },
            ),
        },
        CassandraStatement::Update(u) => match column_specs(
            assigned_names(u.assignments@),
            0,
            table,
        ) {
            Err(e) => Err(e),
            Ok(set) => match where_specs(u.where_clause@, 0, table) {
                Err(e) => Err(e),
                Ok(restricted) => Ok(PreparedView { bind_specs: set + restricted, ..base }),
            },
        },
        CassandraStatement::Select(s) => match where_specs(s.where_clause@, 0, table) {
            Err(e) => Err(e),
            Ok(bind_specs) => match selected_columns(s.columns@, table) {
                Err(e) => Err(e),
                Ok(result_cols) => Ok(PreparedView { bind_specs, result_cols, ..base }),
            },
        },
        CassandraStatement::Delete(d) => match where_specs(d.where_clause@, 0, table) {
            Err(e) => Err(e),
            Ok(bind_specs) => Ok(PreparedView { bind_specs, ..base }),
        },
        _ => Err(not_preparable(stmt)),
    }
}

/// What is said of a statement that is prepared, given what the lookup of its
/// table found.
pub open spec fn prepared_view(
    stmt: CassandraStatement,
    keyspace: Seq<char>,
    table: Seq<char>,
    found: Result<Option<TableView>, Seq<char>>,
) -> Result<PreparedView, ErrorView> {
    if prepared_name(stmt) is None {
        Err(not_preparable(stmt))
    } else {
        match resolved(keyspace, table, found) {
            Err(e) => Err(e),
            Ok(def) => prepared_on(stmt, keyspace, def),
        }
    }
}

fn specs_of(names: &Vec<String>, table: &TableDef) -> (r: Result<
    Vec<(String, ColumnType)>,
    QueryError,
>)
    ensures
        match column_specs(texts(names@), 0, table@) {
            Ok(specs) => r matches Ok(x) && named_types(x@) == specs,
            Err(e) => r matches Err(x) && x@ == e,
        },
{
    let ghost views = texts(names@);
    let ghost all = column_specs(views, 0, table@);
    let mut specs: Vec<(String, ColumnType)> = Vec::new();
    let mut i: usize = 0;
    proof {
        assert(named_types(specs@) =~= Seq::<NamedType>::empty());
        if let Ok(rest) = all {
            assert(named_types(specs@) + rest =~= rest);
        }
    }
    while i < names.len()
        invariant
            i <= names@.len(),
            views == texts(names@),
            all == column_specs(views, 0, table@),
            all == (match column_specs(views, i as int, table@) {
                Ok(rest) => Ok(named_types(specs@) + rest),
                Err(e) => Err(e),
            }),
        decreases names@.len() - i,
    {
        assert(views[i as int] == names@[i as int]@);
        let idx: usize = match table.column_index(&names[i]) {
            Some(idx) => idx,
            None => return Err(undefined_column_err(&names[i])),
        };
        let ghost before = named_types(specs@);
        let entry: (String, ColumnType) = (names[i].clone(), table.columns[idx].col_type.clone());
        let ghost spec = (entry.0@, entry.1);
        proof {
            assert(table@.columns[idx as int] == table.columns@[idx as int]@);
        }
        specs.push(entry);
        proof {
            assert(named_types(specs@) =~= before.push(spec));
            if let Ok(rest) = column_specs(views, i + 1, table@) {
                assert(before + (seq![spec] + rest) =~= named_types(specs@) + rest);
            }
        }
        i += 1;
    }
    assert(named_types(specs@) + Seq::<NamedType>::empty() =~= named_types(specs@));
    Ok(specs)
}

fn positions_of(names: &Vec<String>, keys: &Vec<String>) -> (r: Vec<u16>)
    ensures
        r@ == key_positions(texts(names@), texts(keys@), 0),
{
    let ghost all = key_positions(texts(names@), texts(keys@), 0);
    let mut r: Vec<u16> = Vec::new();
    let mut i: usize = 0;
    assert(r@ + all =~= all);
    while i < keys.len()
        invariant
            i <= keys@.len(),
            all == r@ + key_positions(texts(names@), texts(keys@), i as int),
        decreases keys@.len() - i,
    {
        let n: usize = names.len();
        proof {
            lemma_index_in(texts(names@), keys@[i as int]@);
            assert(texts(keys@)[i as int] == keys@[i as int]@);
        }
        if let Some(pos) = position_of(names, &keys[i]) {
            let ghost before = r@;
            assert(pos < n);
            r.push(pos as u16);
            assert(before + (seq![pos as u16] + key_positions(texts(names@), texts(keys@), i + 1))
                =~= r@ + key_positions(texts(names@), texts(keys@), i + 1));
        }
        i += 1;
    }
    assert(r@ + Seq::<u16>::empty() =~= r@);
    r
}

fn names_assigned(assignments: &Vec<AssignmentElement>) -> (r: Vec<String>)
    ensures
        texts(r@) == assigned_names(assignments@),
{
    let ghost all = assigned_names(assignments@);
    let mut r: Vec<String> = Vec::new();
    let mut i: usize = 0;
    assert(texts(r@) =~= all.take(0));
    while i < assignments.len()
        invariant
            i <= assignments@.len(),
            all == assigned_names(assignments@),
            texts(r@) == all.take(i as int),
        decreases assignments@.len() - i,
    {
        let ghost before = texts(r@);
        r.push(norm_id(&assignments[i].name.column));
        assert(texts(r@) =~= before.push(all[i as int]));
        i += 1;
        assert(texts(r@) =~= all.take(i as int));
    }
    assert(all.take(i as int) =~= all);
    r
}

fn info(
    keyspace: &str,
    table: &TableDef,
    bind_specs: Vec<(String, ColumnType)>,
    pk_indexes: Vec<u16>,
    result_cols: Vec<(String, ColumnType)>,
) -> (r: PreparedInfo)
    ensures
        r@ == (PreparedView {
            keyspace: keyspace@,
            table: table@.name,
            bind_specs: named_types(bind_specs@),
            pk_indexes: pk_indexes@,
            result_cols: named_types(result_cols@),
        }),
{
    PreparedInfo {
        keyspace: keyspace.to_owned(),
        table: table.name.clone(),
        bind_specs,
        pk_indexes,
        result_cols,
    }
}

/// What is said of a statement that is prepared, given what the lookup of its
/// table found.
pub fn prepared_info(
    stmt: &CassandraStatement,
    keyspace: &str,
    table: &str,
    found: Result<Option<TableDef>, String>,
) -> (r: Result<PreparedInfo, QueryError>)
    ensures
        match prepared_view(*stmt, keyspace@, table@, found_table(found)) {
            Ok(p) => r matches Ok(x) && x@ == p,
            Err(e) => r matches Err(x) && x@ == e,
        },
{
    match stmt {
        CassandraStatement::Insert(_)
        | CassandraStatement::Update(_)
        | CassandraStatement::Select(_)
        | CassandraStatement::Delete(_) => {},
        other => return Err(
            invalid_err(&join2("Statement cannot be prepared: ", short_name(other))),
        ),
    }
    let def: TableDef = match resolve_table(keyspace, table, found) {
        Ok(def) => def,
        Err(e) => return Err(e),
    };
    let none: Vec<(String, ColumnType)> = Vec::new();
    assert(named_types(none@) =~= Seq::<NamedType>::empty());
    match stmt {
        CassandraStatement::Insert(i) => {
            let names: Vec<String> = norm_ids(&i.columns);
            match specs_of(&names, &def) {
                Ok(specs) => {
                    let keys: Vec<String> = def.key_columns();
                    Ok(info(keyspace, &def, specs, positions_of(&names, &keys), none))
                },
                Err(e) => Err(e),
            }
        },
        CassandraStatement::Update(u) => {
            let names: Vec<String> = names_assigned(&u.assignments);
            let mut specs: Vec<(String, ColumnType)> = match specs_of(&names, &def) {
                Ok(specs) => specs,
                Err(e) => return Err(e),
            };
            match collect_where_binds(&def, &u.where_clause, &mut specs) {
                Ok(()) => Ok(info(keyspace, &def, specs, Vec::new(), none)),
                Err(e) => Err(e),
            }
        },
        CassandraStatement::Select(s) => {
            let mut specs: Vec<(String, ColumnType)> = Vec::new();
            assert(named_types(specs@) =~= Seq::<NamedType>::empty());
            if let Err(e) = collect_where_binds(&def, &s.where_clause, &mut specs) {
                return Err(e);
            }
            proof {
                if let Ok(restricted) = where_specs(s.where_clause@, 0, def@) {
                    assert(Seq::<NamedType>::empty() + restricted =~= restricted);
                }
            }
            match select_columns(&def, &s.columns) {
                Ok(cols) => Ok(info(keyspace, &def, specs, Vec::new(), cols)),
                Err(e) => Err(e),
            }
        },
        CassandraStatement::Delete(d) => {
            let mut specs: Vec<(String, ColumnType)> = Vec::new();
            assert(named_types(specs@) =~= Seq::<NamedType>::empty());
            if let Err(e) = collect_where_binds(&def, &d.where_clause, &mut specs) {
                return Err(e);
            }
            proof {
                if let Ok(restricted) = where_specs(d.where_clause@, 0, def@) {
                    assert(Seq::<NamedType>::empty() + restricted =~= restricted);
                }
            }
            Ok(info(keyspace, &def, specs, Vec::new(), none))
        },
        other => Err(invalid_err(&join2("Statement cannot be prepared: ", short_name(other)))),
    }
}

} // verus!
