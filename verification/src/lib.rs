//! RhydaDB: a single-node CQL server over sharded key-value engines.
//!
//! The library holds everything the server computes: the value and row
//! encodings, the key layout and routing, the schema, the statements and the
//! wire protocol. Reading and writing sockets and engines is left to the
//! program around it, which performs what the library decides.

pub mod answers;
pub mod args;
pub mod ast;
pub mod bindings;
pub mod bytes;
pub mod client;
pub mod cql_value;
pub mod ddl;
pub mod definitions;
pub mod denotations;
pub mod dml;
pub mod edges;
pub mod effects;
pub mod error;
pub mod expr;
pub mod health;
pub mod keys;
pub mod laws;
pub mod layout;
pub mod literals;
pub mod markers;
pub mod order;
pub mod prepare;
pub mod protocol;
pub mod query;
pub mod requests;
pub mod schema;
pub mod select;
pub mod selection;
pub mod server;
pub mod storage;
pub mod system;
pub mod text;
pub mod wire;
