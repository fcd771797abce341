//! The execution of statements.
//!
//! Executing a statement alternates between decisions, which stand here, and
//! reads and writes, which the program makes. A [`Step`] lists the writes to
//! carry out and says what comes next: something that is to be read, or the
//! answer. What was read is handed to the function that goes with it, which
//! gives the next step.

use crate::ast::{
    is_parseable, parse_query, parseable, parsed_query, share, short_name, statement_name,
    ParsedQuery,
};
use crate::bytes::copy_bytes;
use crate::cql_value::{LiteralReading, Value, ValueView};
use crate::ddl::{
    column_rows, keyspace_metadata, mirror_columns, mirror_keyspace, mirror_table, opt_table,
    schema_row, table_metadata, text_bytes, text_parts,
};
use crate::dml::{
    delete_command, exec_delete, exec_insert, exec_update, insert_command, opt_bytes, plan_update,
    update_command, update_plan, UpdatePlan, UpdateView,
};
use crate::error::{
    already_exists, already_exists_err, check_writable, internal, internal_err, invalid,
    invalid_err, is_system, is_system_keyspace, not_writable, syntax, syntax_err, ErrorView,
    QueryError,
};
use crate::expr::{env_of, named_types, Binds, Env, NamedType};
use crate::keys::{keyspace_key, part_views, table_key};
use crate::markers::{restore_markers, stood_in, update_restored, with_stand_ins};
use crate::schema::{
    build_table_def, copy_text_pairs, id_text, norm_id, table_of, text_pairs, ColumnType,
    KeyspaceDef, KeyspaceView, TableDef, TableView,
};
use crate::select::{
    entry_views, exec_select, in_result_order, order_fetched, plan_select, result_rows, row_views,
    scans_for, select_plan, select_scans, SelectPlan, SelectView,
};
use crate::storage::{
    command_views, delete_keyspace_commands, delete_row_op, delete_table_commands, partition_scan,
    row_engine, row_place, scan_views, truncate_commands, Command, CommandView, Fetch, OpView,
    Place, Scan, Storage, WriteOp,
};
use crate::text::{join2, join3, join5};
use cql3_parser::cassandra_statement::CassandraStatement;
use cql3_parser::common::FQName;
use cql3_parser::common_drop::CommonDrop;
use cql3_parser::create_keyspace::CreateKeyspace;
use cql3_parser::create_table::CreateTable;
use cql3_parser::update::Update;
use scylla_cql::frame::types::RawValue;
use std::sync::Arc;
use vstd::prelude::*;

verus! {

/// The answer to a statement.
#[derive(Debug)]
pub enum Response {
    Rows {
        keyspace: String,
        table: String,
        cols: Vec<(String, ColumnType)>,
        rows: Vec<Vec<Value>>,
    },
    Void,
    SetKeyspace(String),
    SchemaChange {
        change: &'static str,
        target: &'static str,
        keyspace: String,
        table: String,
    },
}

/// What an answer says.
pub enum ResponseView {
    Rows {
        keyspace: Seq<char>,
        table: Seq<char>,
        cols: Seq<NamedType>,
        rows: Seq<Seq<ValueView>>,
    },
    Void,
    SetKeyspace(Seq<char>),
    SchemaChange {
        change: Seq<char>,
        target: Seq<char>,
        keyspace: Seq<char>,
        table: Seq<char>,
    },
}

impl View for Response {
    type V = ResponseView;

    open spec fn view(&self) -> ResponseView {
        match self {
            Response::Rows { keyspace, table, cols, rows } => ResponseView::Rows {
                keyspace: keyspace@,
                table: table@,
                cols: named_types(cols@),
                rows: row_views(rows@),
            },
            Response::Void => ResponseView::Void,
            Response::SetKeyspace(ks) => ResponseView::SetKeyspace(ks@),
            Response::SchemaChange { change, target, keyspace, table } => ResponseView::SchemaChange {
                change: change@,
                target: target@,
                keyspace: keyspace@,
                table: table@,
            },
        }
    }
}

/// A definition that is to be described in `system_schema`.
#[derive(Debug)]
pub enum Mirror {
    /// A keyspace, in `keyspaces`.
    Keyspace(KeyspaceDef),
    /// A table, in `tables`.
    Table(TableDef),
    /// The columns of a table, in `columns`.
    Columns(TableDef),
}

/// What a mirror says.
pub enum MirrorView {
    Keyspace(KeyspaceView),
    Table(TableView),
    Columns(TableView),
}

impl View for Mirror {
    type V = MirrorView;

    open spec fn view(&self) -> MirrorView {
        match self {
            Mirror::Keyspace(def) => MirrorView::Keyspace(def@),
            Mirror::Table(def) => MirrorView::Table(def@),
            Mirror::Columns(def) => MirrorView::Columns(def@),
        }
    }
}

/// The table of `system_schema` that a mirror goes to.
pub open spec fn mirror_table_name(m: MirrorView) -> Seq<char> {
    match m {
        MirrorView::Keyspace(_) => "keyspaces"@,
        MirrorView::Table(_) => "tables"@,
        MirrorView::Columns(_) => "columns"@,
    }
}

impl Mirror {
    /// The table of `system_schema` that the definition is described in.
    pub fn table_name(&self) -> (r: &'static str)
        ensures
            r@ == mirror_table_name(self@),
    {
        match self {
            Mirror::Keyspace(_) => "keyspaces",
            Mirror::Table(_) => "tables",
            Mirror::Columns(_) => "columns",
        }
    }
}

/// An `UPDATE` that waits for the row.
#[derive(Debug)]
pub struct Updating {
    pub keyspace: String,
    pub table: TableDef,
    pub plan: UpdatePlan,
}

/// A `SELECT` that waits for the rows.
#[derive(Debug)]
pub struct Selecting {
    pub keyspace: String,
    pub table: TableDef,
    pub plan: SelectPlan,
}

/// A `DROP` that removes the descriptions of what was dropped: what is still
/// to be scanned, and the answer.
#[derive(Debug)]
pub struct Sweeping {
    pub rest: Vec<Scan>,
    pub response: Response,
}

pub struct UpdatingView {
    pub keyspace: Seq<char>,
    pub table: TableView,
    pub plan: UpdateView,
}

pub struct SelectingView {
    pub keyspace: Seq<char>,
    pub table: TableView,
    pub plan: SelectView,
}

pub struct SweepingView {
    pub rest: Seq<Place>,
    pub response: ResponseView,
}

impl View for Updating {
    type V = UpdatingView;

    open spec fn view(&self) -> UpdatingView {
        UpdatingView { keyspace: self.keyspace@, table: self.table@, plan: self.plan@ }
    }
}

impl View for Selecting {
    type V = SelectingView;

    open spec fn view(&self) -> SelectingView {
        SelectingView { keyspace: self.keyspace@, table: self.table@, plan: self.plan@ }
    }
}

impl View for Sweeping {
    type V = SweepingView;

    open spec fn view(&self) -> SweepingView {
        SweepingView { rest: scan_views(self.rest@), response: self.response@ }
    }
}

/// What comes next in the execution of a statement.
#[derive(Debug)]
pub enum Next {
    /// Looking a keyspace up, for [`with_keyspace`].
    Keyspace(String),
    /// Looking a table of a keyspace up, for [`with_table`].
    Table(String, String),
    /// Looking up the table of `system_schema` that the mirror goes to, for
    /// [`with_schema`].
    Schema(Mirror),
    /// Reading a row, for [`with_row`].
    Row(Fetch, Updating),
    /// Scanning, in order, for [`with_rows`].
    Rows(Vec<Scan>, Selecting),
    /// Scanning, for [`with_swept`].
    Sweep(Scan, Sweeping),
    /// Answering.
    Done(Result<Response, QueryError>),
}

/// What is said to come next.
pub enum NextView {
    Keyspace(Seq<char>),
    Table(Seq<char>, Seq<char>),
    Schema(MirrorView),
    Row(Place, UpdatingView),
    Rows(Seq<Place>, SelectingView),
    Sweep(Place, SweepingView),
    Done(Result<ResponseView, ErrorView>),
}

pub open spec fn outcome(r: Result<Response, QueryError>) -> Result<ResponseView, ErrorView> {
    match r {
        Ok(x) => Ok(x@),
        Err(e) => Err(e@),
    }
}

impl View for Next {
    type V = NextView;

    open spec fn view(&self) -> NextView {
        match self {
            Next::Keyspace(name) => NextView::Keyspace(name@),
            Next::Table(keyspace, table) => NextView::Table(keyspace@, table@),
            Next::Schema(mirror) => NextView::Schema(mirror@),
            Next::Row(fetch, updating) => NextView::Row(fetch@, updating@),
            Next::Rows(scans, selecting) => NextView::Rows(scan_views(scans@), selecting@),
            Next::Sweep(scan, sweeping) => NextView::Sweep(scan@, sweeping@),
            Next::Done(r) => NextView::Done(outcome(*r)),
        }
    }
}

impl Next {
    /// An update that waits for its row changes columns that its table has.
    pub open spec fn wf(&self) -> bool {
        match self {
            Next::Row(_, updating) => updating.plan.fits(&updating.table),
            _ => true,
        }
    }
}

/// Writes to carry out, in order, and what comes next.
#[derive(Debug)]
pub struct Step {
    pub commands: Vec<Command>,
    pub next: Next,
}

/// What a step says.
#[verifier::ext_equal]
pub struct StepView {
    pub commands: Seq<CommandView>,
    pub next: NextView,
}

impl View for Step {
    type V = StepView;

    open spec fn view(&self) -> StepView {
        StepView { commands: command_views(self.commands@), next: self.next@ }
    }
}

/// The end of an execution without further writes.
pub open spec fn ends(r: Result<ResponseView, ErrorView>) -> StepView {
    StepView { commands: Seq::empty(), next: NextView::Done(r) }
}

fn end(r: Result<Response, QueryError>) -> (s: Step)
    ensures
        s@ == ends(outcome(r)),
        s.next.wf(),
{
    let s: Step = Step { commands: Vec::new(), next: Next::Done(r) };
    assert(s@ =~= ends(outcome(r)));
    s
}

fn fail(e: QueryError) -> (s: Step)
    ensures
        s@ == ends(Err(e@)),
        s.next.wf(),
{
    end(Err(e))
}

pub open spec fn opt_view(s: Option<String>) -> Option<Seq<char>> {
    match s {
        Some(x) => Some(x@),
        None => None,
    }
}

pub open spec fn no_keyspace() -> ErrorView {
    invalid("No keyspace specified; use USE <keyspace>"@)
}

/// The keyspace and the table that a name in a statement denotes.
pub open spec fn target(session: Option<Seq<char>>, name: FQName) -> Result<
    (Seq<char>, Seq<char>),
    ErrorView,
> {
    match name.keyspace {
        Some(k) => Ok((id_text(k), id_text(name.name))),
        None => match session {
            Some(k) => Ok((k, id_text(name.name))),
            None => Err(no_keyspace()),
        },
    }
}

/// The keyspace and the table that a name in a statement denotes.
pub fn resolve_name(session_ks: &Option<String>, name: &FQName) -> (r: Result<
    (String, String),
    QueryError,
>)
    ensures
        match target(opt_view(*session_ks), *name) {
            Ok(t) => r matches Ok(x) && (x.0@, x.1@) == t,
            Err(e) => r matches Err(x) && x@ == e,
        },
{
    let keyspace: String = match &name.keyspace {
        Some(k) => norm_id(k),
        None => match session_ks {
            Some(k) => k.clone(),
            None => return Err(invalid_err("No keyspace specified; use USE <keyspace>")),
        },
    };
    Ok((keyspace, norm_id(&name.name)))
}

/// The complaint about a table that does not exist.
pub open spec fn no_table(keyspace: Seq<char>, table: Seq<char>) -> ErrorView {
    invalid("table "@ + keyspace + "."@ + table + " does not exist"@)
}

/// The table that a statement acts on, given what a lookup found.
pub open spec fn resolved(
    keyspace: Seq<char>,
    table: Seq<char>,
    found: Result<Option<TableView>, Seq<char>>,
) -> Result<TableView, ErrorView> {
    match found {
        Err(e) => Err(internal(e)),
        Ok(None) => Err(no_table(keyspace, table)),
        Ok(Some(t)) => Ok(t),
    }
}

pub open spec fn found_table(found: Result<Option<TableDef>, String>) -> Result<
    Option<TableView>,
    Seq<char>,
> {
    match found {
        Ok(t) => Ok(opt_table(t)),
        Err(e) => Err(e@),
    }
}

/// The table that a statement acts on, given what a lookup found.
pub fn resolve_table(
    keyspace: &str,
    table: &str,
    found: Result<Option<TableDef>, String>,
) -> (r: Result<TableDef, QueryError>)
    ensures
        match resolved(keyspace@, table@, found_table(found)) {
            Ok(t) => r matches Ok(x) && x@ == t,
            Err(e) => r matches Err(x) && x@ == e,
        },
{
    match found {
        Err(e) => Err(internal_err(&e)),
        Ok(None) => Err(
            invalid_err(&join5("table ", keyspace, ".", table, " does not exist")),
        ),
        Ok(Some(t)) => Ok(t),
    }
}

pub open spec fn not_supported(stmt: CassandraStatement) -> ErrorView {
    invalid("Statement not supported: "@ + statement_name(stmt))
}

fn not_supported_err(stmt: &CassandraStatement) -> (e: QueryError)
    ensures
        e@ == not_supported(*stmt),
{
    invalid_err(&join2("Statement not supported: ", short_name(stmt)))
}

/// The name of the table that a statement acts on.
pub open spec fn statement_table(stmt: CassandraStatement) -> Option<FQName> {
    match stmt {
        CassandraStatement::CreateTable(t) => Some(t.name),
        CassandraStatement::DropTable(d) => Some(d.name),
        CassandraStatement::Insert(i) => Some(i.table_name),
        CassandraStatement::Select(s) => Some(s.table_name),
        CassandraStatement::Delete(d) => Some(d.table_name),
        CassandraStatement::Update(u) => Some(u.table_name),
        CassandraStatement::Truncate(name) => Some(name),
        _ => None,
    }
}

/// The name of the keyspace that a statement acts on.
pub open spec fn statement_keyspace(stmt: CassandraStatement) -> Option<Seq<char>> {
    match stmt {
        CassandraStatement::Use(id) => Some(id_text(id)),
        CassandraStatement::CreateKeyspace(ks) => Some(id_text(ks.name)),
        CassandraStatement::DropKeyspace(d) => Some(id_text(d.name.name)),
        _ => None,
    }
}

/// What a statement starts with: looking up what it acts on.
pub open spec fn first_next(session: Option<Seq<char>>, stmt: CassandraStatement) -> NextView {
    match statement_keyspace(stmt) {
        Some(name) => NextView::Keyspace(name),
        None => match statement_table(stmt) {
            Some(name) => match target(session, name) {
                Ok((keyspace, table)) => NextView::Table(keyspace, table),
                Err(e) => NextView::Done(Err(e)),
            },
            None => NextView::Done(Err(not_supported(stmt))),
        },
    }
}

fn look_up(session_ks: &Option<String>, name: &FQName) -> (n: Next)
    ensures
        n@ == (match target(opt_view(*session_ks), *name) {
            Ok((keyspace, table)) => NextView::Table(keyspace, table),
            Err(e) => NextView::Done(Err(e)),
        }),
{
    match resolve_name(session_ks, name) {
        Ok((keyspace, table)) => Next::Table(keyspace, table),
        Err(e) => Next::Done(Err(e)),
    }
}

/// What a statement starts with: looking up what it acts on.
pub fn execute_statement(session_ks: &Option<String>, stmt: &CassandraStatement) -> (n: Next)
    ensures
        n@ == first_next(opt_view(*session_ks), *stmt),
        n.wf(),
{
    match stmt {
        CassandraStatement::Use(id) => Next::Keyspace(norm_id(id)),
        CassandraStatement::CreateKeyspace(ks) => Next::Keyspace(norm_id(&ks.name)),
        CassandraStatement::DropKeyspace(d) => Next::Keyspace(norm_id(&d.name.name)),
        CassandraStatement::CreateTable(t) => look_up(session_ks, &t.name),
        CassandraStatement::DropTable(d) => look_up(session_ks, &d.name),
        CassandraStatement::Insert(i) => look_up(session_ks, &i.table_name),
        CassandraStatement::Select(s) => look_up(session_ks, &s.table_name),
        CassandraStatement::Delete(d) => look_up(session_ks, &d.table_name),
        CassandraStatement::Update(u) => look_up(session_ks, &u.table_name),
        CassandraStatement::Truncate(name) => look_up(session_ks, name),
        other => Next::Done(Err(not_supported_err(other))),
    }
}

/// `CREATE KEYSPACE`, given whether the keyspace exists.
pub open spec fn create_keyspace_step(ks: CreateKeyspace, exists: bool) -> StepView {
    let name = id_text(ks.name);
    if exists {
        if ks.if_not_exists {
            ends(Ok(ResponseView::Void))
        } else {
            ends(Err(already_exists(name, ""@)))
        }
    } else if is_system(name) {
        ends(Err(invalid("Cannot create keyspace '"@ + name + "'"@)))
    } else {
        let def = KeyspaceView { name, replication: text_pairs(ks.replication@) };
        StepView {
            commands: seq![
                CommandView::PutKeyspace { key: keyspace_key(name), keyspace_def: def },
            ],
            next: NextView::Schema(MirrorView::Keyspace(def)),
        }
    }
}

fn exec_create_keyspace(storage: &Storage, ks: &CreateKeyspace, exists: bool) -> (s: Step)
    ensures
        s@ == create_keyspace_step(*ks, exists),
        s.next.wf(),
{
    let name: String = norm_id(&ks.name);
    if exists {
        if ks.if_not_exists {
            return end(Ok(Response::Void));
        }
        return fail(already_exists_err(&name, ""));
    }
    if is_system_keyspace(&name) {
        return fail(invalid_err(&join3("Cannot create keyspace '", &name, "'")));
    }
    let def: KeyspaceDef = KeyspaceDef { name, replication: copy_text_pairs(&ks.replication) };
    let s: Step = Step {
        commands: vec![storage.put_keyspace(&def)],
        next: Next::Schema(Mirror::Keyspace(def)),
    };
    assert(s@ =~= create_keyspace_step(*ks, exists));
    s
}

pub open spec fn schema_change(
    change: Seq<char>,
    target: Seq<char>,
    keyspace: Seq<char>,
    table: Seq<char>,
) -> ResponseView {
    ResponseView::SchemaChange { change, target, keyspace, table }
}

/// Where a table of `system_schema` describes what the names denote.
pub open spec fn schema_scan(n: nat, table: Seq<char>, names: Seq<Seq<char>>) -> Place {
    partition_scan(n, "system_schema"@, table, text_parts(names))
}

/// `DROP KEYSPACE`, given whether the keyspace exists.
pub open spec fn drop_keyspace_step(n: nat, d: CommonDrop, exists: bool) -> StepView {
    let name = id_text(d.name.name);
    if !exists {
        if d.if_exists {
            ends(Ok(ResponseView::Void))
        } else {
            ends(Err(invalid("Cannot drop non existing keyspace '"@ + name + "'"@)))
        }
    } else if is_system(name) {
        ends(Err(not_writable(name)))
    } else {
        StepView {
            commands: delete_keyspace_commands(n, name),
            next: NextView::Sweep(
                schema_scan(n, "keyspaces"@, seq![name]),
                SweepingView {
                    rest: seq![
                        schema_scan(n, "tables"@, seq![name]),
                        schema_scan(n, "columns"@, seq![name]),
                    ],
                    response: schema_change("DROPPED"@, "KEYSPACE"@, name, ""@),
                },
            ),
        }
    }
}

fn exec_drop_keyspace(storage: &Storage, d: &CommonDrop, exists: bool) -> (s: Step)
    requires
        storage.wf(),
    ensures
        s@ == drop_keyspace_step(storage.engine_count(), *d, exists),
        s.next.wf(),
{
    let name: String = norm_id(&d.name.name);
    if !exists {
        if d.if_exists {
            return end(Ok(Response::Void));
        }
        return fail(invalid_err(&join3("Cannot drop non existing keyspace '", &name, "'")));
    }
    if let Err(e) = check_writable(&name) {
        return fail(e);
    }
    let commands: Vec<Command> = storage.delete_keyspace(&name);
    let part: Vec<Vec<u8>> = vec![text_bytes(&name)];
    assert(part_views(part@) =~= text_parts(seq![name@]));
    let rest: Vec<Scan> = vec![
        storage.scan_partition("system_schema", "tables", &part),
        storage.scan_partition("system_schema", "columns", &part),
    ];
    let first: Scan = storage.scan_partition("system_schema", "keyspaces", &part);
    proof {
        let n = storage.engine_count();
        assert(scan_views(rest@) =~= seq![
            schema_scan(n, "tables"@, seq![name@]),
            schema_scan(n, "columns"@, seq![name@]),
        ]);
    }
    let response: Response = Response::SchemaChange {
        change: "DROPPED",
        target: "KEYSPACE",
        keyspace: name,
        table: "".to_owned(),
    };
    Step { commands, next: Next::Sweep(first, Sweeping { rest, response }) }
}

/// A statement about a keyspace, given what the lookup found.
pub open spec fn keyspace_step(
    n: nat,
    stmt: CassandraStatement,
    found: Result<bool, Seq<char>>,
) -> StepView {
    if statement_keyspace(stmt) is None {
        ends(Err(not_supported(stmt)))
    } else {
        match found {
            Err(e) => ends(Err(internal(e))),
            Ok(exists) => match stmt {
                CassandraStatement::CreateKeyspace(ks) => create_keyspace_step(ks, exists),
                CassandraStatement::DropKeyspace(d) => drop_keyspace_step(n, d, exists),
                CassandraStatement::Use(id) => if exists {
                    ends(Ok(ResponseView::SetKeyspace(id_text(id))))
                } else {
                    ends(Err(invalid("Keyspace '"@ + id_text(id) + "' does not exist"@)))
                },
                _ => ends(Err(not_supported(stmt))),
            },
        }
    }
}

/// The keyspace of the session after a step.
pub open spec fn session_after(session: Option<Seq<char>>, s: StepView) -> Option<Seq<char>> {
    match s.next {
        NextView::Done(Ok(ResponseView::SetKeyspace(ks))) => Some(ks),
        _ => session,
    }
}

pub open spec fn found_keyspace(found: Result<Option<KeyspaceDef>, String>) -> Result<
    bool,
    Seq<char>,
> {
    match found {
        Ok(k) => Ok(k is Some),
        Err(e) => Err(e@),
    }
}

/// Goes on with a statement about a keyspace, given what the lookup found.
pub fn with_keyspace(
    storage: &Storage,
    session_ks: &mut Option<String>,
    stmt: &CassandraStatement,
    found: Result<Option<KeyspaceDef>, String>,
) -> (s: Step)
    requires
        storage.wf(),
    ensures
        s@ == keyspace_step(storage.engine_count(), *stmt, found_keyspace(found)),
        opt_view(*final(session_ks)) == session_after(opt_view(*old(session_ks)), s@),
        s.next.wf(),
{
    match stmt {
        CassandraStatement::Use(_) => {},
        CassandraStatement::CreateKeyspace(_) => {},
        CassandraStatement::DropKeyspace(_) => {},
        other => return fail(not_supported_err(other)),
    }
    let exists: bool = match found {
        Ok(k) => k.is_some(),
        Err(e) => return fail(internal_err(&e)),
    };
    match stmt {
        CassandraStatement::Use(id) => {
            let ks: String = norm_id(id);
            if !exists {
                return fail(invalid_err(&join3("Keyspace '", &ks, "' does not exist")));
            }
            *session_ks = Some(ks.clone());
            end(Ok(Response::SetKeyspace(ks)))
        },
        CassandraStatement::CreateKeyspace(ks) => exec_create_keyspace(storage, ks, exists),
        CassandraStatement::DropKeyspace(d) => exec_drop_keyspace(storage, d, exists),
        other => fail(not_supported_err(other)),
    }
}

pub open spec fn unsupported_type() -> ErrorView {
    invalid(
        "Unsupported column type; supported types: int, bigint, smallint, tinyint, float, double, boolean, text, varchar, ascii, blob, timestamp, uuid, inet"@,
    )
}

/// `CREATE TABLE`, given whether the table exists.
pub open spec fn create_table_step(
    t: CreateTable,
    keyspace: Seq<char>,
    table: Seq<char>,
    exists: bool,
) -> StepView {
    if exists {
        if t.if_not_exists {
            ends(Ok(ResponseView::Void))
        } else {
            ends(Err(already_exists(keyspace, table)))
        }
    } else if is_system(keyspace) {
        ends(Err(not_writable(keyspace)))
    } else {
        match table_of(keyspace, table, t) {
            None => ends(Err(unsupported_type())),
            Some(def) => if def.partition_keys.len() == 0 {
                ends(Err(invalid("Primary key is required"@)))
            } else {
                StepView {
                    commands: seq![
                        CommandView::PutTable { key: table_key(keyspace, table), table_def: def },
                    ],
                    next: NextView::Schema(MirrorView::Table(def)),
                }
            },
        }
    }
}

fn exec_create_table(
    storage: &Storage,
    t: &CreateTable,
    keyspace: &str,
    table: &str,
    exists: bool,
) -> (s: Step)
    ensures
        s@ == create_table_step(*t, keyspace@, table@, exists),
        s.next.wf(),
{
    if exists {
        if t.if_not_exists {
            return end(Ok(Response::Void));
        }
        return fail(already_exists_err(keyspace, table));
    }
    if let Err(e) = check_writable(keyspace) {
        return fail(e);
    }
    let def: TableDef = match build_table_def(keyspace, table, t) {
        Some(def) => def,
        None => return fail(
            invalid_err(
                "Unsupported column type; supported types: int, bigint, smallint, tinyint, float, double, boolean, text, varchar, ascii, blob, timestamp, uuid, inet",
            ),
        ),
    };
    if def.partition_keys.len() == 0 {
        return fail(invalid_err("Primary key is required"));
    }
    let s: Step = Step {
        commands: vec![storage.put_table(&def)],
        next: Next::Schema(Mirror::Table(def)),
    };
    assert(s@ =~= create_table_step(*t, keyspace@, table@, exists));
    s
}

/// `DROP TABLE`, given whether the table exists.
pub open spec fn drop_table_step(
    n: nat,
    d: CommonDrop,
    keyspace: Seq<char>,
    table: Seq<char>,
    exists: bool,
) -> StepView {
    if !exists {
        if d.if_exists {
            ends(Ok(ResponseView::Void))
        } else {
            ends(
                Err(
                    invalid(
                        "Cannot drop non existing table '"@ + keyspace + "."@ + table + "'"@,
                    ),
                ),
            )
        }
    } else if is_system(keyspace) {
        ends(Err(not_writable(keyspace)))
    } else {
        let parts = text_parts(seq![keyspace, table]);
        StepView {
            commands: delete_table_commands(n, keyspace, table).push(
                CommandView::WriteNow {
                    engine: row_engine(n, "system_schema"@, "tables"@, parts),
                    op: delete_row_op("system_schema"@, "tables"@, parts),
                },
            ),
            next: NextView::Sweep(
                schema_scan(n, "columns"@, seq![keyspace, table]),
                SweepingView {
                    rest: Seq::empty(),
                    response: schema_change("DROPPED"@, "TABLE"@, keyspace, table),
                },
            ),
        }
    }
}

fn exec_drop_table(storage: &Storage, d: &CommonDrop, keyspace: &str, table: &str, exists: bool) -> (s:
    Step)
    requires
        storage.wf(),
    ensures
        s@ == drop_table_step(storage.engine_count(), *d, keyspace@, table@, exists),
        s.next.wf(),
{
    if !exists {
        if d.if_exists {
            return end(Ok(Response::Void));
        }
        return fail(
            invalid_err(&join5("Cannot drop non existing table '", keyspace, ".", table, "'")),
        );
    }
    if let Err(e) = check_writable(keyspace) {
        return fail(e);
    }
    let mut commands: Vec<Command> = storage.delete_table(keyspace, table);
    let ghost before = command_views(commands@);
    let parts: Vec<Vec<u8>> = vec![text_bytes(keyspace), text_bytes(table)];
    assert(part_views(parts@) =~= text_parts(seq![keyspace@, table@]));
    let row: Command = storage.delete_row_sync("system_schema", "tables", &parts);
    commands.push(row);
    assert(command_views(commands@) =~= before.push(row@));
    let scan: Scan = storage.scan_partition("system_schema", "columns", &parts);
    let rest: Vec<Scan> = Vec::new();
    assert(scan_views(rest@) =~= Seq::<Place>::empty());
    let response: Response = Response::SchemaChange {
        change: "DROPPED",
        target: "TABLE",
        keyspace: keyspace.to_owned(),
        table: table.to_owned(),
    };
    Step { commands, next: Next::Sweep(scan, Sweeping { rest, response }) }
}

/// The end of a statement that comes to one command.
pub open spec fn ends_with(c: Result<CommandView, ErrorView>) -> StepView {
    match c {
        Ok(c) => StepView { commands: seq![c], next: NextView::Done(Ok(ResponseView::Void)) },
        Err(e) => ends(Err(e)),
    }
}

pub open spec fn command_result(r: Result<Command, QueryError>) -> Result<CommandView, ErrorView> {
    match r {
        Ok(c) => Ok(c@),
        Err(e) => Err(e@),
    }
}

fn end_with(r: Result<Command, QueryError>) -> (s: Step)
    ensures
        s@ == ends_with(command_result(r)),
        s.next.wf(),
{
    match r {
        Ok(c) => {
            let s: Step = Step { commands: vec![c], next: Next::Done(Ok(Response::Void)) };
            assert(s@ =~= ends_with(command_result(r)));
            s
        },
        Err(e) => fail(e),
    }
}

/// `TRUNCATE` of a table.
pub open spec fn truncate_step(n: nat, keyspace: Seq<char>, table: Seq<char>) -> StepView {
    if is_system(keyspace) {
        ends(Err(not_writable(keyspace)))
    } else {
        StepView {
            commands: truncate_commands(n, keyspace, table),
            next: NextView::Done(Ok(ResponseView::Void)),
        }
    }
}

/// `UPDATE` of a table: reading the row that it changes.
pub open spec fn update_step(
    n: nat,
    env: Env,
    upd: cql3_parser::update::Update,
    keyspace: Seq<char>,
    table: TableView,
) -> StepView {
    match update_plan(env, upd, keyspace, table) {
        Err(e) => ends(Err(e)),
        Ok(plan) => StepView {
            commands: Seq::empty(),
            next: NextView::Row(
                row_place(n, keyspace, table.name, plan.key_parts),
                UpdatingView { keyspace, table, plan },
            ),
        },
    }
}

/// `SELECT` from a table: scanning for the rows.
pub open spec fn select_step(
    n: nat,
    env: Env,
    sel: cql3_parser::select::Select,
    keyspace: Seq<char>,
    table: TableView,
) -> StepView {
    match select_plan(env, sel, table) {
        Err(e) => ends(Err(e)),
        Ok(plan) => StepView {
            commands: Seq::empty(),
            next: NextView::Rows(
                select_scans(n, keyspace, table, plan.filters),
                SelectingView { keyspace, table, plan },
            ),
        },
    }
}

/// A statement about the contents of a table.
pub open spec fn data_step(
    n: nat,
    env: Env,
    stmt: CassandraStatement,
    keyspace: Seq<char>,
    name: Seq<char>,
    table: TableView,
) -> StepView {
    match stmt {
        CassandraStatement::Insert(i) => ends_with(insert_command(n, env, i, keyspace, table)),
        CassandraStatement::Select(s) => select_step(n, env, s, keyspace, table),
        CassandraStatement::Delete(d) => ends_with(delete_command(n, env, d, keyspace, table)),
        CassandraStatement::Update(u) => update_step(n, env, u, keyspace, table),
        CassandraStatement::Truncate(_) => truncate_step(n, keyspace, name),
        _ => ends(Err(not_supported(stmt))),
    }
}

/// A statement about a table, given what the lookup found.
pub open spec fn table_step(
    n: nat,
    env: Env,
    stmt: CassandraStatement,
    keyspace: Seq<char>,
    table: Seq<char>,
    found: Result<Option<TableView>, Seq<char>>,
) -> StepView {
    match stmt {
        CassandraStatement::CreateTable(t) => match found {
            Err(e) => ends(Err(internal(e))),
            Ok(def) => create_table_step(t, keyspace, table, def is Some),
        },
        CassandraStatement::DropTable(d) => match found {
            Err(e) => ends(Err(internal(e))),
            Ok(def) => drop_table_step(n, d, keyspace, table, def is Some),
        },
        _ => if statement_table(stmt) is None {
            ends(Err(not_supported(stmt)))
        } else {
            match resolved(keyspace, table, found) {
                Err(e) => ends(Err(e)),
                Ok(def) => data_step(n, env, stmt, keyspace, table, def),
            }
        },
    }
}

fn exec_data(
    storage: &Storage,
    stmt: &CassandraStatement,
    keyspace: &str,
    name: &str,
    table: TableDef,
    binds: &mut Binds,
) -> (s: Step)
    requires
        storage.wf(),
        old(binds).wf(),
        old(binds).taken() == 0,
    ensures
        s@ == data_step(
            storage.engine_count(),
            old(binds).env(),
            *stmt,
            keyspace@,
            name@,
            table@,
        ),
        s.next.wf(),
{
    match stmt {
        CassandraStatement::Insert(i) => end_with(exec_insert(storage, keyspace, &table, i, binds)),
        CassandraStatement::Delete(d) => end_with(exec_delete(storage, keyspace, &table, d, binds)),
        CassandraStatement::Select(sel) => {
            let plan: SelectPlan = match plan_select(&table, sel, binds) {
                Ok(plan) => plan,
                Err(e) => return fail(e),
            };
            let scans: Vec<Scan> = scans_for(storage, keyspace, &table, &plan.filters);
            let s: Step = Step {
                commands: Vec::new(),
                next: Next::Rows(scans, Selecting { keyspace: keyspace.to_owned(), table, plan }),
            };
            assert(s@.commands =~= Seq::<CommandView>::empty());
            s
        },
        CassandraStatement::Update(u) => {
            let plan: UpdatePlan = match plan_update(keyspace, &table, u, binds) {
                Ok(plan) => plan,
                Err(e) => return fail(e),
            };
            let fetch: Fetch = storage.get_row(keyspace, &table.name, &plan.key_parts);
            let s: Step = Step {
                commands: Vec::new(),
                next: Next::Row(fetch, Updating { keyspace: keyspace.to_owned(), table, plan }),
            };
            assert(s@.commands =~= Seq::<CommandView>::empty());
            s
        },
        CassandraStatement::Truncate(_) => {
            if let Err(e) = check_writable(keyspace) {
                return fail(e);
            }
            Step {
                commands: storage.truncate_table(keyspace, name),
                next: Next::Done(Ok(Response::Void)),
            }
        },
        other => fail(not_supported_err(other)),
    }
}

/// Goes on with a statement about a table, given what the lookup found.
pub fn with_table(
    storage: &Storage,
    stmt: &CassandraStatement,
    values: &[RawValue],
    readings: &[LiteralReading],
    keyspace: &str,
    table: &str,
    found: Result<Option<TableDef>, String>,
) -> (s: Step)
    requires
        storage.wf(),
    ensures
        s@ == table_step(
            storage.engine_count(),
            env_of(values@, readings@),
            *stmt,
            keyspace@,
            table@,
            found_table(found),
        ),
        s.next.wf(),
{
    match stmt {
        CassandraStatement::CreateTable(t) => match found {
            Ok(def) => exec_create_table(storage, t, keyspace, table, def.is_some()),
            Err(e) => fail(internal_err(&e)),
        },
        CassandraStatement::DropTable(d) => match found {
            Ok(def) => exec_drop_table(storage, d, keyspace, table, def.is_some()),
            Err(e) => fail(internal_err(&e)),
        },
        CassandraStatement::Insert(_)
        | CassandraStatement::Select(_)
        | CassandraStatement::Delete(_)
        | CassandraStatement::Update(_)
        | CassandraStatement::Truncate(_) => match resolve_table(keyspace, table, found) {
            Ok(def) => {
                let mut binds: Binds = Binds::new(values, readings);
                exec_data(storage, stmt, keyspace, table, def, &mut binds)
            },
            Err(e) => fail(e),
        },
        other => fail(not_supported_err(other)),
    }
}

/// Describing a definition in `system_schema`, given the table that it goes to.
pub open spec fn schema_step(
    n: nat,
    mirror: MirrorView,
    found: Result<Option<TableView>, Seq<char>>,
) -> StepView {
    match found {
        Err(e) => ends(Err(internal(e))),
        Ok(schema) => match mirror {
            MirrorView::Keyspace(def) => match schema_row(
                n,
                "keyspaces"@,
                schema,
                seq![def.name],
                keyspace_metadata(def),
            ) {
                Err(e) => ends(Err(internal(e))),
                Ok(c) => StepView {
                    commands: seq![c],
                    next: NextView::Done(
                        Ok(schema_change("CREATED"@, "KEYSPACE"@, def.name, ""@)),
                    ),
                },
            },
            MirrorView::Table(def) => match schema_row(
                n,
                "tables"@,
                schema,
                seq![def.keyspace, def.name],
                table_metadata(),
            ) {
                Err(e) => ends(Err(internal(e))),
                Ok(c) => StepView {
                    commands: seq![c],
                    next: if def.columns.len() == 0 {
                        NextView::Done(Ok(table_created(def)))
                    } else {
                        NextView::Schema(MirrorView::Columns(def))
                    },
                },
            },
            MirrorView::Columns(def) => {
                let rows = column_rows(n, schema, def, 0);
                StepView {
                    commands: rows.0,
                    next: NextView::Done(
                        match rows.1 {
                            Some(e) => Err(internal(e)),
                            None => Ok(table_created(def)),
                        },
                    ),
                }
            },
        },
    }
}

pub open spec fn table_created(def: TableView) -> ResponseView {
    schema_change("CREATED"@, "TABLE"@, def.keyspace, def.name)
}

fn created(target: &'static str, keyspace: String, table: String) -> (r: Response)
    ensures
        r@ == schema_change("CREATED"@, target@, keyspace@, table@),
{
    Response::SchemaChange { change: "CREATED", target, keyspace, table }
}

/// Goes on with a `CREATE`, given the table of `system_schema` that the mirror
/// goes to.
pub fn with_schema(
    storage: &Storage,
    mirror: Mirror,
    found: Result<Option<TableDef>, String>,
) -> (s: Step)
    requires
        storage.wf(),
    ensures
        s@ == schema_step(storage.engine_count(), mirror@, found_table(found)),
        s.next.wf(),
{
    let schema: Option<TableDef> = match found {
        Ok(schema) => schema,
        Err(e) => return fail(internal_err(&e)),
    };
    match mirror {
        Mirror::Keyspace(def) => {
            let c: Command = match mirror_keyspace(storage, &schema, &def) {
                Ok(c) => c,
                Err(e) => return fail(internal_err(&e)),
            };
            let s: Step = Step {
                commands: vec![c],
                next: Next::Done(Ok(created("KEYSPACE", def.name, "".to_owned()))),
            };
            assert(s@.commands =~= seq![c@]);
            s
        },
        Mirror::Table(def) => {
            let c: Command = match mirror_table(storage, &schema, &def) {
                Ok(c) => c,
                Err(e) => return fail(internal_err(&e)),
            };
            let next: Next = if def.columns.len() == 0 {
                Next::Done(Ok(created("TABLE", def.keyspace, def.name)))
            } else {
                Next::Schema(Mirror::Columns(def))
            };
            let s: Step = Step { commands: vec![c], next };
            assert(s@.commands =~= seq![c@]);
            s
        },
        Mirror::Columns(def) => {
            let (commands, complaint) = mirror_columns(storage, &schema, &def);
            let next: Next = match complaint {
                Some(e) => Next::Done(Err(internal_err(&e))),
                None => Next::Done(Ok(created("TABLE", def.keyspace, def.name))),
            };
            Step { commands, next }
        },
    }
}

/// An update, given what was read under the key of its row.
pub open spec fn row_step(
    n: nat,
    updating: UpdatingView,
    found: Result<Option<Seq<u8>>, Seq<char>>,
) -> StepView {
    match found {
        Err(e) => ends(Err(internal(e))),
        Ok(existing) => ends_with(
            update_command(n, updating.keyspace, updating.table, updating.plan, existing),
        ),
    }
}

pub open spec fn found_bytes(found: Result<Option<Vec<u8>>, String>) -> Result<
    Option<Seq<u8>>,
    Seq<char>,
> {
    match found {
        Ok(b) => Ok(opt_bytes(b)),
        Err(e) => Err(e@),
    }
}

/// Goes on with an update, given what was read under the key of its row.
pub fn with_row(
    storage: &Storage,
    updating: Updating,
    found: Result<Option<Vec<u8>>, String>,
) -> (s: Step)
    requires
        storage.wf(),
        updating.plan.fits(&updating.table),
    ensures
        s@ == row_step(storage.engine_count(), updating@, found_bytes(found)),
        s.next.wf(),
{
    match found {
        Ok(existing) => end_with(
            exec_update(storage, &updating.keyspace, &updating.table, &updating.plan, &existing),
        ),
        Err(e) => fail(internal_err(&e)),
    }
}

/// A selection, given the rows that were read.
pub open spec fn rows_step(
    selecting: SelectingView,
    found: Result<Seq<(Seq<u8>, Seq<u8>)>, Seq<char>>,
) -> StepView {
    match found {
        Err(e) => ends(Err(internal(e))),
        Ok(fetched) => match result_rows(
            selecting.plan,
            in_result_order(selecting.plan.filters, selecting.table, fetched),
            0,
            0,
            selecting.keyspace,
            selecting.table,
        ) {
            Err(e) => ends(Err(e)),
            Ok(rows) => ends(
                Ok(
                    ResponseView::Rows {
                        keyspace: selecting.keyspace,
                        table: selecting.table.name,
                        cols: selecting.plan.selected,
                        rows,
                    },
                ),
            ),
        },
    }
}

pub open spec fn found_entries(found: Result<Vec<(Vec<u8>, Vec<u8>)>, String>) -> Result<
    Seq<(Seq<u8>, Seq<u8>)>,
    Seq<char>,
> {
    match found {
        Ok(v) => Ok(entry_views(v@)),
        Err(e) => Err(e@),
    }
}

/// Goes on with a selection, given what its scans found, one after the other.
pub fn with_rows(
    selecting: Selecting,
    found: Result<Vec<(Vec<u8>, Vec<u8>)>, String>,
) -> (s: Step)
    ensures
        s@ == rows_step(selecting@, found_entries(found)),
        s.next.wf(),
{
    let fetched: Vec<(Vec<u8>, Vec<u8>)> = match found {
        Ok(fetched) => order_fetched(&selecting.plan, &selecting.table, fetched),
        Err(e) => return fail(internal_err(&e)),
    };
    match exec_select(&selecting.keyspace, &selecting.table, &selecting.plan, &fetched) {
        Ok(rows) => end(
            Ok(
                Response::Rows {
                    keyspace: selecting.keyspace,
                    table: selecting.table.name,
                    cols: selecting.plan.selected,
                    rows,
                },
            ),
        ),
        Err(e) => fail(e),
    }
}

/// Removing keys from the engine on which they were found.
pub open spec fn removals(engine: int, entries: Seq<(Seq<u8>, Seq<u8>)>) -> Seq<CommandView> {
    entries.map_values(
        |e: (Seq<u8>, Seq<u8>)|
            CommandView::WriteNow { engine, op: OpView::Delete { key: e.0 } },
    )
}

/// A sweep, given what the scan found.
pub open spec fn sweep_step(
    scan: Place,
    sweeping: SweepingView,
    found: Result<Seq<(Seq<u8>, Seq<u8>)>, Seq<char>>,
) -> StepView {
    match found {
        Err(e) => ends(Err(internal(e))),
        Ok(entries) => StepView {
            commands: removals(scan.0, entries),
            next: if sweeping.rest.len() == 0 {
                NextView::Done(Ok(sweeping.response))
            } else {
                NextView::Sweep(
                    sweeping.rest[0],
                    SweepingView {
                        rest: sweeping.rest.drop_first(),
                        response: sweeping.response,
                    },
                )
            },
        },
    }
}

/// Removes the entries of a partition of `system_schema` that a scan found.
pub fn delete_system_schema_partition(
    scan: &Scan,
    entries: Vec<(Vec<u8>, Vec<u8>)>,
) -> (commands: Vec<Command>)
    ensures
        command_views(commands@) == removals(scan@.0, entry_views(entries@)),
{
    let ghost all = removals(scan@.0, entry_views(entries@));
    let mut commands: Vec<Command> = Vec::new();
    let mut i: usize = 0;
    assert(command_views(commands@) =~= all.take(0));
    while i < entries.len()
        invariant
            i <= entries@.len(),
            all == removals(scan@.0, entry_views(entries@)),
            command_views(commands@) == all.take(i as int),
        decreases entries@.len() - i,
    {
        let ghost before = command_views(commands@);
        let op: WriteOp = WriteOp::Delete { key: copy_bytes(&entries[i].0) };
        commands.push(Command::WriteNow { engine: scan.engine, op });
        assert(command_views(commands@) =~= before.push(all[i as int]));
        i += 1;
        assert(command_views(commands@) =~= all.take(i as int));
    }
    assert(all.take(i as int) =~= all);
    commands
}

/// Goes on with a sweep, given what the scan found.
pub fn with_swept(
    scan: &Scan,
    sweeping: Sweeping,
    found: Result<Vec<(Vec<u8>, Vec<u8>)>, String>,
) -> (s: Step)
    ensures
        s@ == sweep_step(scan@, sweeping@, found_entries(found)),
        s.next.wf(),
{
    let entries: Vec<(Vec<u8>, Vec<u8>)> = match found {
        Ok(entries) => entries,
        Err(e) => return fail(internal_err(&e)),
    };
    let commands: Vec<Command> = delete_system_schema_partition(scan, entries);
    let mut rest: Vec<Scan> = sweeping.rest;
    let ghost places = scan_views(rest@);
    let response: Response = sweeping.response;
    if rest.len() == 0 {
        return Step { commands, next: Next::Done(Ok(response)) };
    }
    let next: Scan = rest.remove(0);
    assert(scan_views(rest@) =~= places.drop_first());
    Step { commands, next: Next::Sweep(next, Sweeping { rest, response }) }
}

pub open spec fn bad_syntax() -> ErrorView {
    syntax("line 1: syntax error in statement"@)
}

/// The statement that a parsed query holds.
pub open spec fn sole_statement(p: ParsedQuery) -> Result<CassandraStatement, ErrorView> {
    match p.first {
        Some((false, stmt)) => if p.has_error {
            Err(bad_syntax())
        } else {
            Ok(stmt)
        },
        _ => Err(bad_syntax()),
    }
}

/// The statement that a parsed query holds.
pub fn statement_of(p: ParsedQuery) -> (r: Result<CassandraStatement, QueryError>)
    ensures
        match sole_statement(p) {
            Ok(stmt) => r == Ok::<CassandraStatement, QueryError>(stmt),
            Err(e) => r matches Err(x) && x@ == e,
        },
{
    if p.has_error {
        return Err(syntax_err("line 1: syntax error in statement"));
    }
    match p.first {
        Some((false, stmt)) => Ok(stmt),
        _ => Err(syntax_err("line 1: syntax error in statement")),
    }
}

/// The statement that the parser reads in a text.
pub open spec fn statement_in(text: Seq<char>) -> Result<CassandraStatement, ErrorView> {
    if parseable(text) {
        sole_statement(parsed_query(text))
    } else {
        Err(bad_syntax())
    }
}

/// The statement that the parser reads in a text.
pub fn parse_statement(text: &str) -> (r: Result<CassandraStatement, QueryError>)
    ensures
        match statement_in(text@) {
            Ok(stmt) => r == Ok::<CassandraStatement, QueryError>(stmt),
            Err(e) => r matches Err(x) && x@ == e,
        },
{
    if is_parseable(text) {
        statement_of(parse_query(text))
    } else {
        Err(syntax_err("line 1: syntax error in statement"))
    }
}

/// What is read of an `UPDATE` with constants in the place of the markers among
/// its assignments.
pub open spec fn stood_in_update(query: Seq<char>) -> Option<Update> {
    match statement_in(stood_in(query)) {
        Ok(CassandraStatement::Update(u)) => Some(u),
        _ => None,
    }
}

/// Whether a query is read as any statement.
pub open spec fn is_readable(query: Seq<char>) -> bool {
    statement_in(query) is Ok || stood_in_update(query) is Some
}

/// Whether a query is read as a statement.
pub open spec fn reads_as(query: Seq<char>, stmt: CassandraStatement) -> bool {
    match statement_in(query) {
        Ok(s) => stmt == s,
        Err(_) => stood_in_update(query) matches Some(u)
            && stmt matches CassandraStatement::Update(v) && update_restored(u, v),
    }
}

/// The statement that a query is read as.
pub fn read_statement(query: &str) -> (r: Result<CassandraStatement, QueryError>)
    ensures
        r is Ok <==> is_readable(query@),
        r matches Ok(stmt) ==> reads_as(query@, stmt),
        r matches Err(e) ==> e@ == bad_syntax(),
{
    match parse_statement(query) {
        Ok(stmt) => Ok(stmt),
        Err(e) => match parse_statement(&with_stand_ins(query)) {
            Ok(CassandraStatement::Update(u)) => Ok(
                CassandraStatement::Update(restore_markers(u)),
            ),
            _ => Err(e),
        },
    }
}

/// What becomes of the cache entry of a query: one that is there stays, and one
/// that is not comes to hold the statement that the query is read as.
pub open spec fn looked_up(
    before: Option<CassandraStatement>,
    query: Seq<char>,
    after: Option<CassandraStatement>,
) -> bool {
    match before {
        Some(_) => after == before,
        None => (after is Some <==> is_readable(query)) && (after matches Some(stmt) ==> reads_as(
            query,
            stmt,
        )),
    }
}

/// The statement of a query by its cache entry: without one, the query has a
/// syntax error.
pub open spec fn query_statement(entry: Option<CassandraStatement>) -> Result<
    CassandraStatement,
    ErrorView,
> {
    match entry {
        Some(stmt) => Ok(stmt),
        None => Err(bad_syntax()),
    }
}

/// The statement of a query, which the cache holds from then on.
pub fn parse_cached(storage: &mut Storage, query: &str) -> (r: Result<
    Arc<CassandraStatement>,
    QueryError,
>)
    requires
        old(storage).wf(),
    ensures
        final(storage).wf(),
        final(storage).same_definitions(old(storage)),
        looked_up(old(storage).statement(query@), query@, final(storage).statement(query@)),
        match query_statement(final(storage).statement(query@)) {
            Ok(stmt) => r matches Ok(x) && *x == stmt,
            Err(e) => r matches Err(x) && x@ == e && final(storage).same_statements(old(storage)),
        },
        old(storage).statement(query@) is Some ==> final(storage).same_statements(old(storage)),
{
    if let Some(stmt) = storage.ast_cache_get(query) {
        return Ok(stmt);
    }
    match read_statement(query) {
        Ok(stmt) => {
            let stmt: Arc<CassandraStatement> = Arc::new(stmt);
            storage.ast_cache_put(query, share(&stmt));
            Ok(stmt)
        },
        Err(e) => Err(e),
    }
}

/// The execution of a statement: the statement, the values bound to its
/// markers, which [`with_table`] takes, and what comes next.
pub struct Execution<'a> {
    pub stmt: Arc<CassandraStatement>,
    pub values: &'a [RawValue<'a>],
    pub next: Next,
}

impl<'a> Execution<'a> {
    /// The statement is at its start.
    pub open spec fn starts(
        &self,
        session: Option<Seq<char>>,
        stmt: CassandraStatement,
        values: Seq<RawValue<'a>>,
    ) -> bool {
        &&& *self.stmt == stmt
        &&& self.values@ == values
        &&& self.next@ == first_next(session, stmt)
        &&& self.next.wf()
    }
}

/// Starts the execution of a query without bound values.
pub fn execute(storage: &mut Storage, session_ks: &Option<String>, query: &str) -> (r: Result<
    Execution<'static>,
    QueryError,
>)
    requires
        old(storage).wf(),
    ensures
        final(storage).wf(),
        final(storage).same_definitions(old(storage)),
        looked_up(old(storage).statement(query@), query@, final(storage).statement(query@)),
        match query_statement(final(storage).statement(query@)) {
            Ok(stmt) => r matches Ok(x) && x.starts(opt_view(*session_ks), stmt, Seq::empty()),
            Err(e) => r matches Err(x) && x@ == e,
        },
{
    let none: &'static [RawValue<'static>] = &[];
    assert(none@ =~= Seq::<RawValue<'static>>::empty());
    execute_with_values(storage, session_ks, query, none)
}

/// Starts the execution of a query with bound values.
pub fn execute_with_values<'a>(
    storage: &mut Storage,
    session_ks: &Option<String>,
    query: &str,
    values: &'a [RawValue<'a>],
) -> (r: Result<Execution<'a>, QueryError>)
    requires
        old(storage).wf(),
    ensures
        final(storage).wf(),
        final(storage).same_definitions(old(storage)),
        looked_up(old(storage).statement(query@), query@, final(storage).statement(query@)),
        match query_statement(final(storage).statement(query@)) {
            Ok(stmt) => r matches Ok(x) && x.starts(opt_view(*session_ks), stmt, values@),
            Err(e) => r matches Err(x) && x@ == e,
        },
{
    match parse_cached(storage, query) {
        Ok(stmt) => Ok(execute_prepared(session_ks, stmt, values)),
        Err(e) => Err(e),
    }
}

/// Starts the execution of a statement with bound values.
pub fn execute_prepared<'a>(
    session_ks: &Option<String>,
    stmt: Arc<CassandraStatement>,
    values: &'a [RawValue<'a>],
) -> (r: Execution<'a>)
    ensures
        r.starts(opt_view(*session_ks), *stmt, values@),
{
    let next: Next = execute_statement(session_ks, &stmt);
    Execution { stmt, values, next }
}

} // verus!
