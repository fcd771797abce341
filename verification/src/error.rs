//! The errors that a query is answered with.

use crate::text::{join2, join3, same_text};
use vstd::prelude::*;

verus! {

/// An error code of the wire protocol and its message.
#[derive(Debug)]
pub struct QueryError {
    pub code: i32,
    pub message: String,
}

/// What an error says.
pub struct ErrorView {
    pub code: i32,
    pub message: Seq<char>,
}

impl View for QueryError {
    type V = ErrorView;

    open spec fn view(&self) -> ErrorView {
        ErrorView { code: self.code, message: self.message@ }
    }
}

pub open spec fn syntax(message: Seq<char>) -> ErrorView {
    ErrorView { code: 0x2000, message }
}

pub open spec fn invalid(message: Seq<char>) -> ErrorView {
    ErrorView { code: 0x2200, message }
}

pub open spec fn already_exists(keyspace: Seq<char>, table: Seq<char>) -> ErrorView {
    ErrorView { code: 0x2400, message: keyspace + "."@ + table + " already exists"@ }
}

pub open spec fn internal(cause: Seq<char>) -> ErrorView {
    ErrorView { code: 0x0000, message: "internal error: "@ + cause }
}

pub open spec fn protocol_violation(message: Seq<char>) -> ErrorView {
    ErrorView { code: 0x000A, message }
}

pub fn syntax_err(msg: &str) -> (e: QueryError)
    ensures
        e@ == syntax(msg@),
{
    QueryError { code: 0x2000, message: msg.to_owned() }
}

pub fn invalid_err(msg: &str) -> (e: QueryError)
    ensures
        e@ == invalid(msg@),
{
    QueryError { code: 0x2200, message: msg.to_owned() }
}

pub fn already_exists_err(keyspace: &str, table: &str) -> (e: QueryError)
    ensures
        e@ == already_exists(keyspace@, table@),
{
    let name: String = join3(keyspace, ".", table);
    QueryError { code: 0x2400, message: join2(&name, " already exists") }
}

/// The error of a request that the engines or the library failed.
pub fn internal_err(cause: &str) -> (e: QueryError)
    ensures
        e@ == internal(cause@),
{
    QueryError { code: 0x0000, message: join2("internal error: ", cause) }
}

pub fn protocol_err(msg: &str) -> (e: QueryError)
    ensures
        e@ == protocol_violation(msg@),
{
    QueryError { code: 0x000A, message: msg.to_owned() }
}

/// The complaint about a column that the table does not have.
pub open spec fn undefined_column(name: Seq<char>) -> ErrorView {
    invalid("Undefined column name "@ + name)
}

pub fn undefined_column_err(name: &str) -> (e: QueryError)
    ensures
        e@ == undefined_column(name@),
{
    invalid_err(&join2("Undefined column name ", name))
}

/// Whether a keyspace is one of the system's own.
pub open spec fn is_system(keyspace: Seq<char>) -> bool {
    keyspace == "system"@ || keyspace == "system_schema"@
}

pub fn is_system_keyspace(keyspace: &str) -> (r: bool)
    ensures
        r == is_system(keyspace@),
{
    same_text(keyspace, "system") || same_text(keyspace, "system_schema")
}

/// The complaint about a write to a system keyspace.
pub open spec fn not_writable(keyspace: Seq<char>) -> ErrorView {
    invalid("Modifications to keyspace '"@ + keyspace + "' are not allowed"@)
}

/// Refuses writes to the system keyspaces.
pub fn check_writable(keyspace: &str) -> (r: Result<(), QueryError>)
    ensures
        r is Ok <==> !is_system(keyspace@),
        r matches Err(e) ==> e@ == not_writable(keyspace@),
{
    if is_system_keyspace(keyspace) {
        return Err(
            invalid_err(&join3("Modifications to keyspace '", keyspace, "' are not allowed")),
        );
    }
    Ok(())
}

} // verus!
