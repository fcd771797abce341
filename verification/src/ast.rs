//! The CQL syntax tree of `cql3_parser`.
//!
//! The parts of a statement that the server acts on are declared with their
//! fields and variants, so that Verus reads them from the parser's own
//! definitions; the rest is carried along unread.

use crate::text::{
    integer_in, parse_signed, parse_unsigned, same_text, texts, upper_text, uppercase,
};
use cql3_parser::cassandra_ast::CassandraAST;
use cql3_parser::cassandra_statement::CassandraStatement;
use std::sync::Arc;
use vstd::prelude::*;
use vstd::utf8::encode_utf8;

verus! {

#[verifier::external_type_specification]
pub struct ExIdentifier(cql3_parser::common::Identifier);

#[verifier::external_type_specification]
pub struct ExOperand(cql3_parser::common::Operand);

#[verifier::external_type_specification]
pub struct ExRelationOperator(cql3_parser::common::RelationOperator);

#[verifier::external_type_specification]
pub struct ExRelationElement(cql3_parser::common::RelationElement);

#[verifier::external_type_specification]
pub struct ExFQName(cql3_parser::common::FQName);

#[verifier::external_type_specification]
pub struct ExDataTypeName(cql3_parser::common::DataTypeName);

#[verifier::external_type_specification]
pub struct ExDataType(cql3_parser::common::DataType);

#[verifier::external_type_specification]
pub struct ExColumnDefinition(cql3_parser::common::ColumnDefinition);

#[verifier::external_type_specification]
pub struct ExPrimaryKey(cql3_parser::common::PrimaryKey);

#[verifier::external_type_specification]
pub struct ExNamed(cql3_parser::select::Named);

#[verifier::external_type_specification]
pub struct ExSelectElement(cql3_parser::select::SelectElement);

#[verifier::external_type_specification]
pub struct ExSelect(cql3_parser::select::Select);

#[verifier::external_type_specification]
pub struct ExInsertValues(cql3_parser::insert::InsertValues);

#[verifier::external_type_specification]
pub struct ExInsert(cql3_parser::insert::Insert);

#[verifier::external_type_specification]
pub struct ExIndexedColumn(cql3_parser::delete::IndexedColumn);

#[verifier::external_type_specification]
pub struct ExDelete(cql3_parser::delete::Delete);

#[verifier::external_type_specification]
pub struct ExAssignmentOperator(cql3_parser::update::AssignmentOperator);

#[verifier::external_type_specification]
pub struct ExAssignmentElement(cql3_parser::update::AssignmentElement);

#[verifier::external_type_specification]
pub struct ExUpdate(cql3_parser::update::Update);

#[verifier::external_type_specification]
pub struct ExCreateTable(cql3_parser::create_table::CreateTable);

#[verifier::external_type_specification]
pub struct ExCreateKeyspace(cql3_parser::create_keyspace::CreateKeyspace);

#[verifier::external_type_specification]
pub struct ExCommonDrop(cql3_parser::common_drop::CommonDrop);

#[verifier::external_type_specification]
pub struct ExCassandraStatement(cql3_parser::cassandra_statement::CassandraStatement);

#[verifier::external_type_specification]
#[verifier::external_body]
pub struct ExWithItem(cql3_parser::common::WithItem);

#[verifier::external_type_specification]
#[verifier::external_body]
pub struct ExOrderClause(cql3_parser::common::OrderClause);

#[verifier::external_type_specification]
#[verifier::external_body]
pub struct ExTtlTimestamp(cql3_parser::common::TtlTimestamp);

#[verifier::external_type_specification]
#[verifier::external_body]
pub struct ExPrivilege(cql3_parser::common::Privilege);

#[verifier::external_type_specification]
#[verifier::external_body]
pub struct ExBeginBatch(cql3_parser::begin_batch::BeginBatch);

#[verifier::external_type_specification]
#[verifier::external_body]
pub struct ExAlterMaterializedView(cql3_parser::alter_materialized_view::AlterMaterializedView);

#[verifier::external_type_specification]
#[verifier::external_body]
pub struct ExRoleCommon(cql3_parser::role_common::RoleCommon);

#[verifier::external_type_specification]
#[verifier::external_body]
pub struct ExAlterTable(cql3_parser::alter_table::AlterTable);

#[verifier::external_type_specification]
#[verifier::external_body]
pub struct ExAlterType(cql3_parser::alter_type::AlterType);

#[verifier::external_type_specification]
#[verifier::external_body]
pub struct ExCreateUser(cql3_parser::create_user::CreateUser);

#[verifier::external_type_specification]
#[verifier::external_body]
pub struct ExAggregate(cql3_parser::aggregate::Aggregate);

#[verifier::external_type_specification]
#[verifier::external_body]
pub struct ExCreateFunction(cql3_parser::create_function::CreateFunction);

#[verifier::external_type_specification]
#[verifier::external_body]
pub struct ExCreateIndex(cql3_parser::create_index::CreateIndex);

#[verifier::external_type_specification]
#[verifier::external_body]
pub struct ExCreateMaterializedView(cql3_parser::create_materialized_view::CreateMaterializedView);

#[verifier::external_type_specification]
#[verifier::external_body]
pub struct ExCreateTrigger(cql3_parser::create_trigger::CreateTrigger);

#[verifier::external_type_specification]
#[verifier::external_body]
pub struct ExCreateType(cql3_parser::create_type::CreateType);

#[verifier::external_type_specification]
#[verifier::external_body]
pub struct ExDropTrigger(cql3_parser::drop_trigger::DropTrigger);

#[verifier::external_type_specification]
#[verifier::external_body]
pub struct ExListRole(cql3_parser::list_role::ListRole);

/// The keywords that a statement starts with.
pub open spec fn statement_name(stmt: CassandraStatement) -> Seq<char> {
    match stmt {
        CassandraStatement::AlterKeyspace(_) => "ALTER KEYSPACE"@,
        CassandraStatement::AlterMaterializedView(_) => "ALTER MATERIALIZED VIEW"@,
        CassandraStatement::AlterRole(_) => "ALTER ROLE"@,
        CassandraStatement::AlterTable(_) => "ALTER TABLE"@,
        CassandraStatement::AlterType(_) => "ALTER TYPE"@,
        CassandraStatement::AlterUser(_) => "ALTER USER"@,
        CassandraStatement::ApplyBatch => "APPLY BATCH"@,
        CassandraStatement::CreateAggregate(_) => "CREATE AGGREGATE"@,
        CassandraStatement::CreateFunction(_) => "CREATE FUNCTION"@,
        CassandraStatement::CreateIndex(_) => "CREATE INDEX"@,
        CassandraStatement::CreateKeyspace(_) => "CREATE KEYSPACE"@,
        CassandraStatement::CreateMaterializedView(_) => "CREATE MATERIALIZED VIEW"@,
        CassandraStatement::CreateRole(_) => "CREATE ROLE"@,
        CassandraStatement::CreateTable(_) => "CREATE TABLE"@,
        CassandraStatement::CreateTrigger(_) => "CREATE TRIGGER"@,
        CassandraStatement::CreateType(_) => "CREATE TYPE"@,
        CassandraStatement::CreateUser(_) => "CREATE USER"@,
        CassandraStatement::Delete(_) => "DELETE"@,
        CassandraStatement::DropAggregate(_) => "DROP AGGREGATE"@,
        CassandraStatement::DropFunction(_) => "DROP FUNCTION"@,
        CassandraStatement::DropIndex(_) => "DROP INDEX"@,
        CassandraStatement::DropKeyspace(_) => "DROP KEYSPACE"@,
        CassandraStatement::DropMaterializedView(_) => "DROP MATERIALIZED VIEW"@,
        CassandraStatement::DropRole(_) => "DROP ROLE"@,
        CassandraStatement::DropTable(_) => "DROP TABLE"@,
        CassandraStatement::DropTrigger(_) => "DROP TRIGGER"@,
        CassandraStatement::DropType(_) => "DROP TYPE"@,
        CassandraStatement::DropUser(_) => "DROP USER"@,
        CassandraStatement::Grant(_) => "GRANT"@,
        CassandraStatement::Insert(_) => "INSERT"@,
        CassandraStatement::ListPermissions(_) => "LIST PERMISSIONS"@,
        CassandraStatement::ListRoles(_) => "LIST ROLES"@,
        CassandraStatement::Revoke(_) => "REVOKE"@,
        CassandraStatement::Select(_) => "SELECT"@,
        CassandraStatement::Truncate(_) => "TRUNCATE"@,
        CassandraStatement::Update(_) => "UPDATE"@,
        CassandraStatement::Use(_) => "USE"@,
        CassandraStatement::Unknown(_) => "UNRECOGNIZED CQL"@,
    }
}

/// `CassandraStatement::short_name` of `cql3_parser`: the keywords that the
/// statement starts with.
#[verifier::external_body]
pub(crate) fn short_name(stmt: &CassandraStatement) -> (r: &'static str)
    ensures
        r@ == statement_name(*stmt),
{
    stmt.short_name()
}

/// The longest text that the grammar's parser takes: it counts bytes in 32 bits.
pub const MAX_TEXT: usize = 0x7FFF_FFFF;

/// Whether a text is no sequence of CQL statements by the grammar.
pub uninterp spec fn has_error_in(text: Seq<char>) -> bool;

/// `Parser::parse` of `tree_sitter` with the grammar of `tree_sitter_cql`, and
/// `Node::has_error` of the root: whether the text has a syntax error anywhere.
/// It depends on the text alone.
#[verifier::external_body]
pub(crate) fn text_has_error(text: &str) -> (r: bool)
    requires
        encode_utf8(text@).len() <= MAX_TEXT,
    ensures
        r == has_error_in(text@),
{
    let mut parser = tree_sitter::Parser::new();
    parser.set_language(&tree_sitter_cql::language()).expect("the grammar");
    parser.parse(text, None).expect("a tree").root_node().has_error()
}

/// Whether a pattern is one for the nodes that the parser reads further: numbers
/// and privileges.
pub open spec fn is_pattern(pattern: Seq<char>) -> bool {
    ||| pattern == "\"limit_value\" @n"@
    ||| pattern == "\"ttl\" @n"@
    ||| pattern == "\"time\" @n"@
    ||| pattern == "(privilege) @n"@
}

/// The texts of the nodes that a pattern captures in the syntax tree of a text,
/// unless it is no pattern of the grammar.
pub uninterp spec fn captures_in(text: Seq<char>, pattern: Seq<char>) -> Option<Seq<Seq<char>>>;

/// `QueryCursor::matches` of `tree_sitter` on the syntax tree of a text: the
/// texts of the nodes that a pattern captures. They depend on the text and the
/// pattern alone. Nothing is returned for what `Query::new` takes for no
/// pattern of the grammar.
#[verifier::external_body]
pub(crate) fn capture(text: &str, pattern: &str) -> (r: Option<Vec<String>>)
    requires
        encode_utf8(text@).len() <= MAX_TEXT,
        is_pattern(pattern@),
    ensures
        match captures_in(text@, pattern@) {
            Some(found) => r matches Some(x) && texts(x@) == found,
            None => r is None,
        },
{
    let language = tree_sitter_cql::language();
    let mut parser = tree_sitter::Parser::new();
    parser.set_language(&language).ok()?;
    let tree = parser.parse(text, None)?;
    let query = tree_sitter::Query::new(&language, pattern).ok()?;
    let mut cursor = tree_sitter::QueryCursor::new();
    let nodes = cursor
        .matches(&query, tree.root_node(), text.as_bytes())
        .flat_map(|m| m.captures.iter().map(|c| c.node).collect::<Vec<_>>());
    nodes.map(|n| n.utf8_text(text.as_bytes()).ok().map(|t| t.to_string())).collect()
}

/// Whether the parser reads each of some texts as a number of a `LIMIT`.
pub open spec fn are_limits(found: Seq<Seq<char>>) -> bool {
    forall|i: int|
        0 <= i < found.len() ==> integer_in(
            #[trigger] found[i],
            true,
            i32::MIN as int,
            i32::MAX as int,
        ) is Some
}

/// Whether the parser reads each of some texts as a time to live or a timestamp.
pub open spec fn are_times(found: Seq<Seq<char>>) -> bool {
    forall|i: int|
        0 <= i < found.len() ==> integer_in(
            #[trigger] found[i],
            false,
            0,
            u64::MAX as int,
        ) is Some
}

/// Whether the parser knows a privilege: its words are parted by one space.
pub open spec fn is_privilege(text: Seq<char>) -> bool {
    let t = upper_text(text);
    ||| t == "ALL"@
    ||| t == "ALL PERMISSIONS"@
    ||| t == "ALTER"@
    ||| t == "AUTHORIZE"@
    ||| t == "DESCRIBE"@
    ||| t == "EXECUTE"@
    ||| t == "CREATE"@
    ||| t == "DROP"@
    ||| t == "MODIFY"@
    ||| t == "SELECT"@
}

/// Whether the parser knows each of some privileges.
pub open spec fn are_privileges(found: Seq<Seq<char>>) -> bool {
    forall|i: int| 0 <= i < found.len() ==> is_privilege(#[trigger] found[i])
}

/// Whether a text can be handed to the parser. It does not return from every
/// other text: it builds statements from broken trees too, and takes every
/// number to fit and every privilege to be written in one way.
pub open spec fn parseable(text: Seq<char>) -> bool {
    &&& encode_utf8(text).len() <= MAX_TEXT
    &&& !has_error_in(text)
    &&& captures_in(text, "\"limit_value\" @n"@) matches Some(found) && are_limits(found)
    &&& captures_in(text, "\"ttl\" @n"@) matches Some(found) && are_times(found)
    &&& captures_in(text, "\"time\" @n"@) matches Some(found) && are_times(found)
    &&& captures_in(text, "(privilege) @n"@) matches Some(found) && are_privileges(found)
}

fn limits_fit(found: &Vec<String>) -> (r: bool)
    ensures
        r == are_limits(texts(found@)),
{
    let mut i: usize = 0;
    while i < found.len()
        invariant
            i <= found@.len(),
            are_limits(texts(found@).take(i as int)),
        decreases found@.len() - i,
    {
        if parse_signed(&found[i], i32::MIN as i64, i32::MAX as i64).is_none() {
            assert(texts(found@)[i as int] == found@[i as int]@);
            return false;
        }
        i += 1;
        assert(texts(found@).take(i as int) =~= texts(found@).take(i - 1).push(found@[i - 1]@));
    }
    assert(texts(found@).take(i as int) =~= texts(found@));
    true
}

fn times_fit(found: &Vec<String>) -> (r: bool)
    ensures
        r == are_times(texts(found@)),
{
    let mut i: usize = 0;
    while i < found.len()
        invariant
            i <= found@.len(),
            are_times(texts(found@).take(i as int)),
        decreases found@.len() - i,
    {
        if parse_unsigned(&found[i], u64::MAX).is_none() {
            assert(texts(found@)[i as int] == found@[i as int]@);
            return false;
        }
        i += 1;
        assert(texts(found@).take(i as int) =~= texts(found@).take(i - 1).push(found@[i - 1]@));
    }
    assert(texts(found@).take(i as int) =~= texts(found@));
    true
}

fn privilege_known(text: &str) -> (r: bool)
    ensures
        r == is_privilege(text@),
{
    let t: String = uppercase(text);
    same_text(&t, "ALL") || same_text(&t, "ALL PERMISSIONS") || same_text(&t, "ALTER")
        || same_text(&t, "AUTHORIZE") || same_text(&t, "DESCRIBE") || same_text(&t, "EXECUTE")
        || same_text(&t, "CREATE") || same_text(&t, "DROP") || same_text(&t, "MODIFY")
        || same_text(&t, "SELECT")
}

fn privileges_known(found: &Vec<String>) -> (r: bool)
    ensures
        r == are_privileges(texts(found@)),
{
    let mut i: usize = 0;
    while i < found.len()
        invariant
            i <= found@.len(),
            are_privileges(texts(found@).take(i as int)),
        decreases found@.len() - i,
    {
        if !privilege_known(&found[i]) {
            assert(texts(found@)[i as int] == found@[i as int]@);
            return false;
        }
        i += 1;
        assert(texts(found@).take(i as int) =~= texts(found@).take(i - 1).push(found@[i - 1]@));
    }
    assert(texts(found@).take(i as int) =~= texts(found@));
    true
}

/// Whether a text can be handed to the parser.
pub fn is_parseable(text: &str) -> (r: bool)
    ensures
        r == parseable(text@),
{
    if text.as_bytes().len() > MAX_TEXT || text_has_error(text) {
        return false;
    }
    let limits: bool = match capture(text, "\"limit_value\" @n") {
        Some(found) => limits_fit(&found),
        None => false,
    };
    let lives: bool = match capture(text, "\"ttl\" @n") {
        Some(found) => times_fit(&found),
        None => false,
    };
    let times: bool = match capture(text, "\"time\" @n") {
        Some(found) => times_fit(&found),
        None => false,
    };
    let privileges: bool = match capture(text, "(privilege) @n") {
        Some(found) => privileges_known(&found),
        None => false,
    };
    limits && lives && times && privileges
}

/// What the parser makes of a query: whether the text has an error anywhere,
/// and its first statement, with whether that statement is itself an error.
pub struct ParsedQuery {
    pub has_error: bool,
    pub first: Option<(bool, CassandraStatement)>,
}

/// What `CassandraAST::new` reads in a query.
pub uninterp spec fn parsed_query(query: Seq<char>) -> ParsedQuery;

/// `CassandraAST::new` and `CassandraAST::has_error` of `cql3_parser`, and the
/// first of the statements: a function of the text of the query alone. The
/// parser panics on some texts that are not [`parseable`].
#[verifier::external_body]
pub(crate) fn parse_query(query: &str) -> (r: ParsedQuery)
    requires
        parseable(query@),
    ensures
        r == parsed_query(query@),
{
    let ast = CassandraAST::new(query);
    ParsedQuery {
        has_error: ast.has_error(),
        first: ast.statements.into_iter().next().map(|s| (s.has_error, s.statement)),
    }
}

/// `Arc::clone` of std: another handle on the same statement.
#[verifier::external_body]
pub(crate) fn share(stmt: &Arc<CassandraStatement>) -> (r: Arc<CassandraStatement>)
    ensures
        r == *stmt,
{
    Arc::clone(stmt)
}

} // verus!
