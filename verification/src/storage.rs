//! Where data lives and what is done to it.
//!
//! Data is spread over independent engines, each a map from keys to values in
//! the bytewise order of the keys. The library decides which engine, which key
//! and which operation; the program around it performs the [`Command`]s and
//! hands back what it read. [`Storage`] is what the library keeps in memory:
//! the number of engines and the caches.

pub use crate::keys::{
    decode_key, decode_key_data, decode_row_columns, encode_key, encode_row_columns,
    prefix_upper_bound,
};

use crate::ast::share;
use crate::bytes::{copy_bytes, has_prefix, put_bytes};
use crate::keys::{
    data_prefix, data_prefix_of, in_range, keyspace_data_prefix, keyspace_data_prefix_of,
    keyspace_key, keyspace_key_of, law_range_is_prefix, part_views, row_key, row_key_of, table_key,
    table_key_of, tables_prefix, tables_prefix_of, upper_bound,
};
use crate::schema::{KeyspaceDef, KeyspaceView, TableDef, TableView};
use crate::text::{
    decimal, integer_in, law_decimal_is_read_back, parse_unsigned, push_decimal, same_text, trim,
    trimmed,
};
use cql3_parser::cassandra_statement::CassandraStatement;
use std::sync::Arc;
use vstd::hash_map::StringHashMap;
use vstd::prelude::*;

verus! {

/// How many parsed statements the cache holds before it is emptied.
pub const AST_CACHE_CAPACITY: usize = 8192;

/// What is done to one engine.
#[derive(Debug)]
pub enum WriteOp {
    Put { key: Vec<u8>, val: Vec<u8> },
    Delete { key: Vec<u8> },
    /// Removes every key from `start`, inclusive, to `end`, exclusive.
    DeleteRange { start: Vec<u8>, end: Vec<u8> },
}

/// What a write operation says.
pub enum OpView {
    Put { key: Seq<u8>, val: Seq<u8> },
    Delete { key: Seq<u8> },
    DeleteRange { start: Seq<u8>, end: Seq<u8> },
}

impl View for WriteOp {
    type V = OpView;

    open spec fn view(&self) -> OpView {
        match self {
            WriteOp::Put { key, val } => OpView::Put { key: key@, val: val@ },
            WriteOp::Delete { key } => OpView::Delete { key: key@ },
            WriteOp::DeleteRange { start, end } => OpView::DeleteRange { start: start@, end: end@ },
        }
    }
}

/// What is read from an engine under one key.
#[derive(Debug)]
pub struct Fetch {
    pub engine: usize,
    pub key: Vec<u8>,
}

/// The entries of an engine whose keys begin with a prefix, in key order.
#[derive(Debug)]
pub struct Scan {
    pub engine: usize,
    pub prefix: Vec<u8>,
}

/// What a read says: an engine and a key or a prefix.
pub type Place = (int, Seq<u8>);

impl View for Fetch {
    type V = Place;

    open spec fn view(&self) -> Place {
        (self.engine as int, self.key@)
    }
}

impl View for Scan {
    type V = Place;

    open spec fn view(&self) -> Place {
        (self.engine as int, self.prefix@)
    }
}

pub open spec fn scan_views(scans: Seq<Scan>) -> Seq<Place> {
    scans.map_values(|s: Scan| s@)
}

/// One step of carrying out a request.
///
/// Commands are carried out in order. The first that fails ends the request
/// with an internal error. Once one is done it is handed to [`Storage::note`].
#[derive(Debug)]
pub enum Command {
    /// Stores a keyspace definition under `key` on the first engine.
    PutKeyspace { key: Vec<u8>, keyspace_def: KeyspaceDef },
    /// Stores a table definition under `key` on the first engine.
    PutTable { key: Vec<u8>, table_def: TableDef },
    /// Drops a keyspace and its tables from the caches.
    ForgetKeyspace { name: String },
    /// Drops a table from the cache.
    ForgetTable { keyspace: String, table: String },
    /// A write that is visible before the next command.
    WriteNow { engine: usize, op: WriteOp },
    /// A write that joins the engine's queue, behind the writes already there,
    /// and is visible before the request is answered.
    Write { engine: usize, op: WriteOp },
}

/// What a command says.
pub enum CommandView {
    PutKeyspace { key: Seq<u8>, keyspace_def: KeyspaceView },
    PutTable { key: Seq<u8>, table_def: TableView },
    ForgetKeyspace { name: Seq<char> },
    ForgetTable { keyspace: Seq<char>, table: Seq<char> },
    WriteNow { engine: int, op: OpView },
    Write { engine: int, op: OpView },
}

impl View for Command {
    type V = CommandView;

    open spec fn view(&self) -> CommandView {
        match self {
            Command::PutKeyspace { key, keyspace_def } => CommandView::PutKeyspace {
                key: key@,
                keyspace_def: keyspace_def@,
            },
            Command::PutTable { key, table_def } => CommandView::PutTable {
                key: key@,
                table_def: table_def@,
            },
            Command::ForgetKeyspace { name } => CommandView::ForgetKeyspace { name: name@ },
            Command::ForgetTable { keyspace, table } => CommandView::ForgetTable {
                keyspace: keyspace@,
                table: table@,
            },
            Command::WriteNow { engine, op } => CommandView::WriteNow {
                engine: *engine as int,
                op: op@,
            },
            Command::Write { engine, op } => CommandView::Write { engine: *engine as int, op: op@ },
        }
    }
}

pub open spec fn command_views(commands: Seq<Command>) -> Seq<CommandView> {
    commands.map_values(|c: Command| c@)
}

/// What a lookup in a cache comes to.
#[derive(Debug)]
pub enum Lookup<T> {
    /// The definition, found in the cache.
    Found(T),
    /// Where the definition is stored, if it exists.
    Read(Fetch),
}

/// The contents of the engines.
pub type Engines = Seq<Map<Seq<u8>, Seq<u8>>>;

/// An engine after a write.
pub open spec fn engine_after(m: Map<Seq<u8>, Seq<u8>>, op: OpView) -> Map<Seq<u8>, Seq<u8>> {
    match op {
        OpView::Put { key, val } => m.insert(key, val),
        OpView::Delete { key } => m.remove(key),
        OpView::DeleteRange { start, end } => m.remove_keys(
            Set::new(|k: Seq<u8>| in_range(k, start, end)),
        ),
    }
}

/// The engines after a command; the definitions are stored by the program.
pub open spec fn engines_after(e: Engines, c: CommandView) -> Engines {
    match c {
        CommandView::WriteNow { engine, op } => e.update(engine, engine_after(e[engine], op)),
        CommandView::Write { engine, op } => e.update(engine, engine_after(e[engine], op)),
        _ => e,
    }
}

/// The engines after a list of commands.
pub open spec fn engines_after_all(e: Engines, cs: Seq<CommandView>) -> Engines
    decreases cs.len(),
{
    if cs.len() == 0 {
        e
    } else {
        engines_after(engines_after_all(e, cs.drop_last()), cs.last())
    }
}

/// The FNV-1a hash of a byte sequence.
pub open spec fn fnv1a_hash(s: Seq<u8>) -> u64
    decreases s.len(),
{
    if s.len() == 0 {
        0xcbf29ce484222325
    } else {
        (fnv1a_hash(s.drop_last()) ^ (s.last() as u64)).wrapping_mul(0x100000001b3)
    }
}

pub fn fnv1a(bytes: &[u8]) -> (h: u64)
    ensures
        h == fnv1a_hash(bytes@),
{
    let mut h: u64 = 0xcbf29ce484222325;
    let mut i: usize = 0;
    assert(bytes@.take(0) =~= Seq::<u8>::empty());
    while i < bytes.len()
        invariant
            i <= bytes@.len(),
            h == fnv1a_hash(bytes@.take(i as int)),
        decreases bytes@.len() - i,
    {
        h = h ^ (bytes[i] as u64);
        h = h.wrapping_mul(0x100000001b3);
        assert(bytes@.take(i + 1).drop_last() =~= bytes@.take(i as int));
        i += 1;
    }
    assert(bytes@.take(i as int) =~= bytes@);
    h
}

/// The engine that a routing key belongs to.
pub open spec fn engine_for(engines: nat, routing_key: Seq<u8>) -> int {
    if engines <= 1 {
        0
    } else {
        fnv1a_hash(routing_key) as int % engines as int
    }
}

/// The first part of a key, on which its engine depends.
pub open spec fn first_part(parts: Seq<Seq<u8>>) -> Seq<u8> {
    if parts.len() == 0 {
        Seq::empty()
    } else {
        parts[0]
    }
}

/// The engine of a row.
pub open spec fn row_engine(
    engines: nat,
    keyspace: Seq<char>,
    table: Seq<char>,
    parts: Seq<Seq<u8>>,
) -> int {
    engine_for(engines, data_prefix(keyspace, table) + first_part(parts))
}

/// Removing everything under a prefix that does not end in 0xFF.
pub open spec fn range_over(prefix: Seq<u8>) -> OpView {
    OpView::DeleteRange { start: prefix, end: upper_bound(prefix).unwrap() }
}

/// The same write, queued on each of `n` engines.
pub open spec fn on_each(n: nat, op: OpView) -> Seq<CommandView> {
    Seq::new(n, |i: int| CommandView::Write { engine: i, op })
}

/// What storing a row comes to.
pub open spec fn put_row_op(
    keyspace: Seq<char>,
    table: Seq<char>,
    parts: Seq<Seq<u8>>,
    value: Seq<u8>,
) -> OpView {
    OpView::Put { key: row_key(keyspace, table, parts), val: value }
}

/// What removing a row comes to.
pub open spec fn delete_row_op(keyspace: Seq<char>, table: Seq<char>, parts: Seq<Seq<u8>>) -> OpView {
    OpView::Delete { key: row_key(keyspace, table, parts) }
}

/// What dropping a keyspace comes to.
pub open spec fn delete_keyspace_commands(n: nat, name: Seq<char>) -> Seq<CommandView> {
    seq![
        CommandView::WriteNow { engine: 0, op: OpView::Delete { key: keyspace_key(name) } },
        CommandView::WriteNow { engine: 0, op: range_over(tables_prefix(name)) },
    ] + on_each(n, range_over(keyspace_data_prefix(name))) + seq![
        CommandView::ForgetKeyspace { name },
    ]
}

/// What dropping a table comes to.
pub open spec fn delete_table_commands(n: nat, keyspace: Seq<char>, table: Seq<char>) -> Seq<
    CommandView,
> {
    seq![
        CommandView::WriteNow {
            engine: 0,
            op: OpView::Delete { key: table_key(keyspace, table) },
        },
    ] + on_each(n, range_over(data_prefix(keyspace, table))) + seq![
        CommandView::ForgetTable { keyspace, table },
    ]
}

/// What emptying a table comes to.
pub open spec fn truncate_commands(n: nat, keyspace: Seq<char>, table: Seq<char>) -> Seq<
    CommandView,
> {
    on_each(n, range_over(data_prefix(keyspace, table)))
}

/// How everything under a prefix is removed from one or more engines.
#[derive(Debug)]
pub enum PrefixDelete {
    /// By range.
    Ranges(Vec<Command>),
    /// Key by key: each key that the scans find is deleted where it was found.
    Sweeps(Vec<Scan>),
}

/// A table in the cache.
#[derive(Debug)]
struct CachedTable {
    keyspace: String,
    table: String,
    def: TableDef,
}

/// The cached definition of a table.
spec fn table_in(tables: Seq<CachedTable>, keyspace: Seq<char>, table: Seq<char>) -> Option<
    TableView,
>
    decreases tables.len(),
{
    if tables.len() == 0 {
        None
    } else {
        match table_in(tables.drop_last(), keyspace, table) {
            Some(def) => Some(def),
            None => if tables.last().keyspace@ == keyspace && tables.last().table@ == table {
                Some(tables.last().def@)
            } else {
                None
            },
        }
    }
}

spec fn is_entry(c: CachedTable, keyspace: Seq<char>, table: Seq<char>) -> bool {
    c.keyspace@ == keyspace && c.table@ == table
}

proof fn lemma_table_in_none(tables: Seq<CachedTable>, keyspace: Seq<char>, table: Seq<char>)
    requires
        forall|j: int| 0 <= j < tables.len() ==> !is_entry(#[trigger] tables[j], keyspace, table),
    ensures
        table_in(tables, keyspace, table) is None,
    decreases tables.len(),
{
    if tables.len() > 0 {
        assert(!is_entry(tables[tables.len() - 1], keyspace, table));
        lemma_table_in_none(tables.drop_last(), keyspace, table);
    }
}

proof fn lemma_table_in_at(tables: Seq<CachedTable>, keyspace: Seq<char>, table: Seq<char>, i: int)
    requires
        0 <= i < tables.len(),
        is_entry(tables[i], keyspace, table),
        forall|j: int| 0 <= j < i ==> !is_entry(#[trigger] tables[j], keyspace, table),
    ensures
        table_in(tables, keyspace, table) == Some(tables[i].def@),
    decreases tables.len(),
{
    if i < tables.len() - 1 {
        lemma_table_in_at(tables.drop_last(), keyspace, table, i);
    } else {
        lemma_table_in_none(tables.drop_last(), keyspace, table);
    }
}

/// Putting an entry where the first one with its name stood, or at the end,
/// changes what is found under that name only.
proof fn lemma_table_update(
    tables: Seq<CachedTable>,
    i: int,
    entry: CachedTable,
    keyspace: Seq<char>,
    table: Seq<char>,
)
    requires
        0 <= i < tables.len(),
        is_entry(tables[i], entry.keyspace@, entry.table@),
        !is_entry(entry, keyspace, table),
    ensures
        table_in(tables.update(i, entry), keyspace, table) == table_in(tables, keyspace, table),
    decreases tables.len(),
{
    let after = tables.update(i, entry);
    if i < tables.len() - 1 {
        assert(after.drop_last() =~= tables.drop_last().update(i, entry));
        lemma_table_update(tables.drop_last(), i, entry, keyspace, table);
    } else {
        assert(after.drop_last() =~= tables.drop_last());
    }
}

/// What the library keeps in memory.
pub struct Storage {
    engines: usize,
    keyspaces: StringHashMap<KeyspaceDef>,
    tables: Vec<CachedTable>,
    ast_cache: StringHashMap<Arc<CassandraStatement>>,
}

impl Storage {
    /// There is an engine, and the statement cache is no larger than its
    /// capacity.
    pub closed spec fn wf(&self) -> bool {
        &&& self.engines >= 1
        &&& self.ast_cache@.dom().finite()
        &&& self.ast_cache@.len() <= AST_CACHE_CAPACITY
    }

    /// How many engines there are.
    pub closed spec fn engine_count(&self) -> nat {
        self.engines as nat
    }

    /// The cached definition of a keyspace.
    pub closed spec fn keyspace(&self, name: Seq<char>) -> Option<KeyspaceView> {
        if self.keyspaces@.contains_key(name) {
            Some(self.keyspaces@[name]@)
        } else {
            None
        }
    }

    /// The cached definition of a table.
    pub closed spec fn table(&self, keyspace: Seq<char>, table: Seq<char>) -> Option<TableView> {
        table_in(self.tables@, keyspace, table)
    }

    /// The cached statement of a query.
    pub closed spec fn statement(&self, query: Seq<char>) -> Option<CassandraStatement> {
        if self.ast_cache@.contains_key(query) {
            Some(*self.ast_cache@[query])
        } else {
            None
        }
    }

    /// How many statements are cached.
    pub closed spec fn statement_count(&self) -> nat {
        self.ast_cache@.len()
    }

    /// Everything but the caches of definitions is as in `other`.
    pub open spec fn same_statements(&self, other: &Storage) -> bool {
        &&& self.engine_count() == other.engine_count()
        &&& self.statement_count() == other.statement_count()
        &&& forall|q: Seq<char>| #[trigger] self.statement(q) == other.statement(q)
    }

    /// The caches of definitions are as in `other`.
    pub open spec fn same_definitions(&self, other: &Storage) -> bool {
        &&& self.engine_count() == other.engine_count()
        &&& forall|n: Seq<char>| #[trigger] self.keyspace(n) == other.keyspace(n)
        &&& forall|k: Seq<char>, t: Seq<char>| #[trigger] self.table(k, t) == other.table(k, t)
    }

    /// Empty caches over `engines` engines.
    pub fn new(engines: usize) -> (r: Storage)
        requires
            engines >= 1,
        ensures
            r.wf(),
            r.engine_count() == engines,
            r.statement_count() == 0,
            forall|n: Seq<char>| #[trigger] r.keyspace(n) is None,
            forall|k: Seq<char>, t: Seq<char>| #[trigger] r.table(k, t) is None,
            forall|q: Seq<char>| #[trigger] r.statement(q) is None,
    {
        Storage {
            engines,
            keyspaces: StringHashMap::new(),
            tables: Vec::new(),
            ast_cache: StringHashMap::new(),
        }
    }

    pub fn engines(&self) -> (n: usize)
        requires
            self.wf(),
        ensures
            n == self.engine_count(),
            n >= 1,
    {
        self.engines
    }

    fn engine_of(&self, routing_key: &[u8]) -> (engine: usize)
        requires
            self.wf(),
        ensures
            engine == engine_for(self.engine_count(), routing_key@),
            engine < self.engine_count(),
    {
        if self.engines <= 1 {
            0
        } else {
            (fnv1a(routing_key) % self.engines as u64) as usize
        }
    }

    /// The engine of a row. It depends on the table and the first key part
    /// alone, so every row of a partition lands on the same engine.
    pub fn data_engine(&self, keyspace: &str, table: &str, parts: &[Vec<u8>]) -> (engine: usize)
        requires
            self.wf(),
        ensures
            engine == row_engine(self.engine_count(), keyspace@, table@, part_views(parts@)),
            engine < self.engine_count(),
    {
        let mut route: Vec<u8> = data_prefix_of(keyspace, table);
        if parts.len() > 0 {
            put_bytes(&mut route, &parts[0]);
        }
        assert(route@ =~= data_prefix(keyspace@, table@) + first_part(part_views(parts@)));
        self.engine_of(&route)
    }

    /// Stores a value on the first engine.
    pub fn put(&self, key: &[u8], val: &[u8]) -> (c: Command)
        ensures
            c@ == (CommandView::WriteNow { engine: 0, op: OpView::Put { key: key@, val: val@ } }),
    {
        Command::WriteNow {
            engine: 0,
            op: WriteOp::Put { key: copy_bytes(key), val: copy_bytes(val) },
        }
    }

    /// Reads from the first engine.
    pub fn get(&self, key: &[u8]) -> (f: Fetch)
        ensures
            f@ == (0int, key@),
    {
        Fetch { engine: 0, key: copy_bytes(key) }
    }

    /// Removes a key from the first engine.
    pub fn delete(&self, key: &[u8]) -> (c: Command)
        ensures
            c@ == (CommandView::WriteNow { engine: 0, op: OpView::Delete { key: key@ } }),
    {
        Command::WriteNow { engine: 0, op: WriteOp::Delete { key: copy_bytes(key) } }
    }

    /// Scans the first engine.
    pub fn scan_prefix(&self, prefix: &[u8]) -> (s: Scan)
        ensures
            s@ == (0int, prefix@),
    {
        Scan { engine: 0, prefix: copy_bytes(prefix) }
    }

    /// Every row of a table: a scan of each engine.
    pub fn scan_rows(&self, keyspace: &str, table: &str) -> (scans: Vec<Scan>)
        requires
            self.wf(),
        ensures
            scan_views(scans@) == table_scans(self.engine_count(), keyspace@, table@),
    {
        let mut scans: Vec<Scan> = Vec::new();
        let ghost all = table_scans(self.engine_count(), keyspace@, table@);
        let mut i: usize = 0;
        assert(scan_views(scans@) =~= all.take(0));
        while i < self.engines
            invariant
                i <= self.engines,
                all == table_scans(self.engine_count(), keyspace@, table@),
                scan_views(scans@) == all.take(i as int),
            decreases self.engines - i,
        {
            let ghost before = scans@;
            scans.push(Scan { engine: i, prefix: data_prefix_of(keyspace, table) });
            assert(scan_views(scans@) =~= scan_views(before).push(all[i as int]));
            i += 1;
            assert(scan_views(scans@) =~= all.take(i as int));
        }
        assert(all.take(i as int) =~= all);
        scans
    }

    /// The rows of a partition, all on one engine, in clustering order.
    pub fn scan_partition(&self, keyspace: &str, table: &str, partition: &[Vec<u8>]) -> (scan: Scan)
        requires
            self.wf(),
        ensures
            scan@ == partition_scan(
                self.engine_count(),
                keyspace@,
                table@,
                part_views(partition@),
            ),
            scan.engine < self.engine_count(),
    {
        Scan {
            engine: self.data_engine(keyspace, table, partition),
            prefix: row_key_of(keyspace, table, partition),
        }
    }

    /// Removes everything under a prefix from the first engine.
    pub fn delete_prefix(&self, prefix: &[u8]) -> (r: PrefixDelete)
        ensures
            match upper_bound(prefix@) {
                Some(end) => r matches PrefixDelete::Ranges(cs) && command_views(cs@) == seq![
                    CommandView::WriteNow { engine: 0, op: range_over(prefix@) },
                ],
                None => r matches PrefixDelete::Sweeps(scans) && scan_views(scans@) == seq![
                    (0int, prefix@),
                ],
            },
    {
        match prefix_upper_bound(prefix) {
            Some(end) => {
                let c: Command = Command::WriteNow {
                    engine: 0,
                    op: WriteOp::DeleteRange { start: copy_bytes(prefix), end },
                };
                let commands: Vec<Command> = vec![c];
                assert(command_views(commands@) =~= seq![c@]);
                PrefixDelete::Ranges(commands)
            },
            None => {
                let scans: Vec<Scan> = vec![self.scan_prefix(prefix)];
                assert(scan_views(scans@) =~= seq![(0int, prefix@)]);
                PrefixDelete::Sweeps(scans)
            },
        }
    }

    /// Queues the removal of everything between a prefix and `end` on each
    /// engine.
    fn delete_data_range(&self, prefix: &[u8], end: &[u8], commands: &mut Vec<Command>)
        requires
            self.wf(),
        ensures
            command_views(final(commands)@) == command_views(old(commands)@) + on_each(
                self.engine_count(),
                OpView::DeleteRange { start: prefix@, end: end@ },
            ),
    {
        let ghost op = OpView::DeleteRange { start: prefix@, end: end@ };
        let ghost all = on_each(self.engine_count(), op);
        let ghost start = command_views(commands@);
        let mut i: usize = 0;
        assert(command_views(commands@) =~= start + all.take(0));
        while i < self.engines
            invariant
                i <= self.engines,
                op == (OpView::DeleteRange { start: prefix@, end: end@ }),
                all == on_each(self.engine_count(), op),
                command_views(commands@) == start + all.take(i as int),
            decreases self.engines - i,
        {
            let ghost before = commands@;
            commands.push(
                Command::Write {
                    engine: i,
                    op: WriteOp::DeleteRange { start: copy_bytes(prefix), end: copy_bytes(end) },
                },
            );
            assert(command_views(commands@) =~= command_views(before).push(all[i as int]));
            i += 1;
            assert(command_views(commands@) =~= start + all.take(i as int));
        }
        assert(all.take(i as int) =~= all);
    }

    /// Removes everything under a prefix from every engine, through the queues
    /// so that it cannot overtake writes that are already there.
    pub fn delete_data_prefix(&self, prefix: &[u8]) -> (r: PrefixDelete)
        requires
            self.wf(),
        ensures
            match upper_bound(prefix@) {
                Some(end) => r matches PrefixDelete::Ranges(cs) && command_views(cs@) == on_each(
                    self.engine_count(),
                    range_over(prefix@),
                ),
                None => r matches PrefixDelete::Sweeps(scans) && scan_views(scans@) == Seq::new(
                    self.engine_count(),
                    |i: int| (i, prefix@),
                ),
            },
    {
        match prefix_upper_bound(prefix) {
            Some(end) => {
                let mut commands: Vec<Command> = Vec::new();
                self.delete_data_range(prefix, &end, &mut commands);
                assert(command_views(commands@) =~= on_each(
                    self.engine_count(),
                    range_over(prefix@),
                ));
                PrefixDelete::Ranges(commands)
            },
            None => {
                let mut scans: Vec<Scan> = Vec::new();
                let ghost all = Seq::new(self.engine_count(), |i: int| (i, prefix@));
                let mut i: usize = 0;
                assert(scan_views(scans@) =~= all.take(0));
                while i < self.engines
                    invariant
                        i <= self.engines,
                        all == Seq::new(self.engine_count(), |i: int| (i, prefix@)),
                        scan_views(scans@) == all.take(i as int),
                    decreases self.engines - i,
                {
                    let ghost before = scans@;
                    scans.push(Scan { engine: i, prefix: copy_bytes(prefix) });
                    assert(scan_views(scans@) =~= scan_views(before).push(all[i as int]));
                    i += 1;
                    assert(scan_views(scans@) =~= all.take(i as int));
                }
                assert(all.take(i as int) =~= all);
                PrefixDelete::Sweeps(scans)
            },
        }
    }

    /// Stores a keyspace definition.
    pub fn put_keyspace(&self, ks: &KeyspaceDef) -> (c: Command)
        ensures
            c@ == (CommandView::PutKeyspace { key: keyspace_key(ks@.name), keyspace_def: ks@ }),
    {
        Command::PutKeyspace { key: keyspace_key_of(&ks.name), keyspace_def: ks.clone() }
    }

    /// Looks a keyspace up.
    pub fn get_keyspace(&self, name: &str) -> (r: Lookup<KeyspaceDef>)
        ensures
            match self.keyspace(name@) {
                Some(def) => r matches Lookup::Found(d) && d@ == def,
                None => r matches Lookup::Read(f) && f@ == (0int, keyspace_key(name@)),
            },
    {
        match self.keyspaces.get(name) {
            Some(ks) => Lookup::Found(ks.clone()),
            None => Lookup::Read(self.get(&keyspace_key_of(name))),
        }
    }

    /// Puts a definition that was read into the cache.
    pub fn keyspace_loaded(&mut self, name: &str, def: &KeyspaceDef)
        requires
            old(self).wf(),
        ensures
            final(self).wf(),
            final(self).same_statements(old(self)),
            forall|n: Seq<char>| #[trigger]
                final(self).keyspace(n) == if n == name@ {
                    Some(def@)
                } else {
                    old(self).keyspace(n)
                },
            forall|k: Seq<char>, t: Seq<char>| #[trigger]
                final(self).table(k, t) == old(self).table(k, t),
    {
        self.keyspaces.insert(name.to_owned(), def.clone());
    }

    /// Drops a keyspace: its definition, its tables' definitions and its rows.
    pub fn delete_keyspace(&self, name: &str) -> (commands: Vec<Command>)
        requires
            self.wf(),
        ensures
            command_views(commands@) == delete_keyspace_commands(self.engine_count(), name@),
    {
        let mut commands: Vec<Command> = Vec::new();
        commands.push(self.delete(&keyspace_key_of(name)));
        let tables: Vec<u8> = tables_prefix_of(name);
        match prefix_upper_bound(&tables) {
            Some(end) => commands.push(
                Command::WriteNow { engine: 0, op: WriteOp::DeleteRange { start: tables, end } },
            ),
            None => {},
        }
        assert(command_views(commands@) =~= seq![
            CommandView::WriteNow { engine: 0, op: OpView::Delete { key: keyspace_key(name@) } },
            CommandView::WriteNow { engine: 0, op: range_over(tables_prefix(name@)) },
        ]);
        let rows: Vec<u8> = keyspace_data_prefix_of(name);
        match prefix_upper_bound(&rows) {
            Some(end) => self.delete_data_range(&rows, &end, &mut commands),
            None => {},
        }
        let ghost before = commands@;
        commands.push(Command::ForgetKeyspace { name: name.to_owned() });
        assert(command_views(commands@) =~= command_views(before).push(
            CommandView::ForgetKeyspace { name: name@ },
        ));
        assert(command_views(commands@) =~= delete_keyspace_commands(self.engine_count(), name@));
        commands
    }

    /// Stores a table definition.
    pub fn put_table(&self, table: &TableDef) -> (c: Command)
        ensures
            c@ == (CommandView::PutTable {
                key: table_key(table@.keyspace, table@.name),
                table_def: table@,
            }),
    {
        Command::PutTable {
            key: table_key_of(&table.keyspace, &table.name),
            table_def: table.clone(),
        }
    }

    /// Where a table stands in the cache.
    fn cached_at(&self, keyspace: &str, table: &str) -> (r: Option<usize>)
        ensures
            match r {
                Some(i) => {
                    &&& i < self.tables@.len()
                    &&& is_entry(self.tables@[i as int], keyspace@, table@)
                    &&& forall|j: int|
                        0 <= j < i ==> !is_entry(#[trigger] self.tables@[j], keyspace@, table@)
                    &&& self.table(keyspace@, table@) == Some(self.tables@[i as int].def@)
                },
                None => {
                    &&& self.table(keyspace@, table@) is None
                    &&& forall|j: int|
                        0 <= j < self.tables@.len() ==> !is_entry(
                            #[trigger] self.tables@[j],
                            keyspace@,
                            table@,
                        )
                },
            },
    {
        let mut i: usize = 0;
        while i < self.tables.len()
            invariant
                i <= self.tables@.len(),
                forall|j: int|
                    0 <= j < i ==> !is_entry(#[trigger] self.tables@[j], keyspace@, table@),
            decreases self.tables@.len() - i,
        {
            if same_text(&self.tables[i].keyspace, keyspace) && same_text(
                &self.tables[i].table,
                table,
            ) {
                proof {
                    lemma_table_in_at(self.tables@, keyspace@, table@, i as int);
                }
                return Some(i);
            }
            i += 1;
        }
        proof {
            lemma_table_in_none(self.tables@, keyspace@, table@);
        }
        None
    }

    /// Looks a table up.
    pub fn get_table(&self, keyspace: &str, table: &str) -> (r: Lookup<TableDef>)
        ensures
            match self.table(keyspace@, table@) {
                Some(def) => r matches Lookup::Found(d) && d@ == def,
                None => r matches Lookup::Read(f) && f@ == (0int, table_key(keyspace@, table@)),
            },
    {
        match self.cached_at(keyspace, table) {
            Some(i) => Lookup::Found(self.tables[i].def.clone()),
            None => Lookup::Read(self.get(&table_key_of(keyspace, table))),
        }
    }

    /// Puts a definition that was read into the cache.
    pub fn table_loaded(&mut self, keyspace: &str, table: &str, def: &TableDef)
        requires
            old(self).wf(),
        ensures
            final(self).wf(),
            final(self).same_statements(old(self)),
            forall|n: Seq<char>| #[trigger] final(self).keyspace(n) == old(self).keyspace(n),
            forall|k: Seq<char>, t: Seq<char>| #[trigger]
                final(self).table(k, t) == if k == keyspace@ && t == table@ {
                    Some(def@)
                } else {
                    old(self).table(k, t)
                },
    {
        let entry: CachedTable = CachedTable {
            keyspace: keyspace.to_owned(),
            table: table.to_owned(),
            def: def.clone(),
        };
        let ghost before = self.tables@;
        match self.cached_at(keyspace, table) {
            Some(i) => {
                self.tables.set(i, entry);
                proof {
                    lemma_table_in_at(self.tables@, keyspace@, table@, i as int);
                    assert forall|k: Seq<char>, t: Seq<char>|
                        !(k == keyspace@ && t == table@) implies #[trigger] self.table(k, t)
                        == table_in(before, k, t) by {
                        lemma_table_update(before, i as int, entry, k, t);
                    }
                }
            },
            None => {
                self.tables.push(entry);
                assert(self.tables@.drop_last() =~= before);
            },
        }
    }
}

/// Every row of a table: a scan of each engine.
pub open spec fn table_scans(n: nat, keyspace: Seq<char>, table: Seq<char>) -> Seq<Place> {
    Seq::new(n, |i: int| (i, data_prefix(keyspace, table)))
}

/// The rows of a partition.
pub open spec fn partition_scan(
    n: nat,
    keyspace: Seq<char>,
    table: Seq<char>,
    partition: Seq<Seq<u8>>,
) -> Place {
    (row_engine(n, keyspace, table, partition), row_key(keyspace, table, partition))
}

impl Storage {
    /// Drops a table: its definition and its rows.
    pub fn delete_table(&self, keyspace: &str, table: &str) -> (commands: Vec<Command>)
        requires
            self.wf(),
        ensures
            command_views(commands@) == delete_table_commands(
                self.engine_count(),
                keyspace@,
                table@,
            ),
    {
        let mut commands: Vec<Command> = Vec::new();
        commands.push(self.delete(&table_key_of(keyspace, table)));
        assert(command_views(commands@) =~= seq![
            CommandView::WriteNow {
                engine: 0,
                op: OpView::Delete { key: table_key(keyspace@, table@) },
            },
        ]);
        let rows: Vec<u8> = data_prefix_of(keyspace, table);
        match prefix_upper_bound(&rows) {
            Some(end) => self.delete_data_range(&rows, &end, &mut commands),
            None => {},
        }
        let ghost before = commands@;
        commands.push(
            Command::ForgetTable { keyspace: keyspace.to_owned(), table: table.to_owned() },
        );
        assert(command_views(commands@) =~= command_views(before).push(
            CommandView::ForgetTable { keyspace: keyspace@, table: table@ },
        ));
        assert(command_views(commands@) =~= delete_table_commands(
            self.engine_count(),
            keyspace@,
            table@,
        ));
        commands
    }

    /// Removes every row of a table.
    pub fn truncate_table(&self, keyspace: &str, table: &str) -> (commands: Vec<Command>)
        requires
            self.wf(),
        ensures
            command_views(commands@) == truncate_commands(self.engine_count(), keyspace@, table@),
    {
        let mut commands: Vec<Command> = Vec::new();
        let rows: Vec<u8> = data_prefix_of(keyspace, table);
        match prefix_upper_bound(&rows) {
            Some(end) => self.delete_data_range(&rows, &end, &mut commands),
            None => {},
        }
        assert(command_views(commands@) =~= truncate_commands(
            self.engine_count(),
            keyspace@,
            table@,
        ));
        commands
    }

    /// The cached statement of a query.
    pub fn ast_cache_get(&self, query: &str) -> (r: Option<Arc<CassandraStatement>>)
        ensures
            match self.statement(query@) {
                Some(stmt) => r matches Some(s) && *s == stmt,
                None => r is None,
            },
    {
        match self.ast_cache.get(query) {
            Some(stmt) => Some(share(stmt)),
            None => None,
        }
    }

    /// Caches the statement of a query. A full cache is emptied first.
    pub fn ast_cache_put(&mut self, query: &str, stmt: Arc<CassandraStatement>)
        requires
            old(self).wf(),
        ensures
            final(self).wf(),
            final(self).same_definitions(old(self)),
            final(self).statement_count() <= AST_CACHE_CAPACITY,
            forall|q: Seq<char>| #[trigger]
                final(self).statement(q) == if q == query@ {
                    Some(*stmt)
                } else if old(self).statement_count() >= AST_CACHE_CAPACITY {
                    None
                } else {
                    old(self).statement(q)
                },
    {
        if self.ast_cache.len() >= AST_CACHE_CAPACITY {
            self.ast_cache.clear();
        }
        self.ast_cache.insert(query.to_owned(), stmt);
    }

    /// Reads a row.
    pub fn get_row(&self, keyspace: &str, table: &str, key_parts: &[Vec<u8>]) -> (f: Fetch)
        requires
            self.wf(),
        ensures
            f@ == partition_scan(self.engine_count(), keyspace@, table@, part_views(key_parts@)),
            f.engine < self.engine_count(),
    {
        Fetch {
            engine: self.data_engine(keyspace, table, key_parts),
            key: row_key_of(keyspace, table, key_parts),
        }
    }

    /// Stores a row of the schema tables, visible at once.
    pub fn put_row_sync(
        &self,
        keyspace: &str,
        table: &str,
        key_parts: &[Vec<u8>],
        value: &[u8],
    ) -> (c: Command)
        requires
            self.wf(),
        ensures
            c@ == (CommandView::WriteNow {
                engine: row_engine(
                    self.engine_count(),
                    keyspace@,
                    table@,
                    part_views(key_parts@),
                ),
                op: put_row_op(keyspace@, table@, part_views(key_parts@), value@),
            }),
    {
        Command::WriteNow {
            engine: self.data_engine(keyspace, table, key_parts),
            op: WriteOp::Put {
                key: row_key_of(keyspace, table, key_parts),
                val: copy_bytes(value),
            },
        }
    }

    /// Removes a row of the schema tables, visible at once.
    pub fn delete_row_sync(&self, keyspace: &str, table: &str, key_parts: &[Vec<u8>]) -> (c:
        Command)
        requires
            self.wf(),
        ensures
            c@ == (CommandView::WriteNow {
                engine: row_engine(
                    self.engine_count(),
                    keyspace@,
                    table@,
                    part_views(key_parts@),
                ),
                op: delete_row_op(keyspace@, table@, part_views(key_parts@)),
            }),
    {
        Command::WriteNow {
            engine: self.data_engine(keyspace, table, key_parts),
            op: WriteOp::Delete { key: row_key_of(keyspace, table, key_parts) },
        }
    }

    /// Stores a row through the engine's queue.
    pub fn put_row(
        &self,
        keyspace: &str,
        table: &str,
        key_parts: &[Vec<u8>],
        value: &[u8],
    ) -> (c: Command)
        requires
            self.wf(),
        ensures
            c@ == put_row_command(
                self.engine_count(),
                keyspace@,
                table@,
                part_views(key_parts@),
                value@,
            ),
    {
        Command::Write {
            engine: self.data_engine(keyspace, table, key_parts),
            op: WriteOp::Put {
                key: row_key_of(keyspace, table, key_parts),
                val: copy_bytes(value),
            },
        }
    }

    /// Removes a row through the engine's queue.
    pub fn delete_row(&self, keyspace: &str, table: &str, key_parts: &[Vec<u8>]) -> (c: Command)
        requires
            self.wf(),
        ensures
            c@ == delete_row_command(
                self.engine_count(),
                keyspace@,
                table@,
                part_views(key_parts@),
            ),
    {
        Command::Write {
            engine: self.data_engine(keyspace, table, key_parts),
            op: WriteOp::Delete { key: row_key_of(keyspace, table, key_parts) },
        }
    }

    fn forget_tables(&mut self, keyspace: &str, table: Option<&str>)
        requires
            old(self).wf(),
        ensures
            final(self).wf(),
            final(self).same_statements(old(self)),
            forall|n: Seq<char>| #[trigger] final(self).keyspace(n) == old(self).keyspace(n),
            forall|k: Seq<char>, t: Seq<char>| #[trigger]
                final(self).table(k, t) == if is_forgotten(keyspace@, table, k, t) {
                    None
                } else {
                    old(self).table(k, t)
                },
    {
        let ghost before = self.tables@;
        let mut kept: Vec<CachedTable> = Vec::new();
        let mut i: usize = 0;
        assert(before.take(0) =~= Seq::<CachedTable>::empty());
        while i < self.tables.len()
            invariant
                i <= self.tables@.len(),
                self.tables@ == before,
                forall|k: Seq<char>, t: Seq<char>| #[trigger]
                    table_in(kept@, k, t) == if is_forgotten(keyspace@, table, k, t) {
                        None
                    } else {
                        table_in(before.take(i as int), k, t)
                    },
            decreases self.tables@.len() - i,
        {
            let e: &CachedTable = &self.tables[i];
            let goes: bool = same_text(&e.keyspace, keyspace) && match table {
                Some(t) => same_text(&e.table, t),
                None => true,
            };
            assert(before.take(i + 1).drop_last() =~= before.take(i as int));
            let ghost old_kept = kept@;
            if !goes {
                let entry: CachedTable = CachedTable {
                    keyspace: e.keyspace.clone(),
                    table: e.table.clone(),
                    def: e.def.clone(),
                };
                kept.push(entry);
                assert(kept@.drop_last() =~= old_kept);
            }
            i += 1;
            proof {
                assert forall|k: Seq<char>, t: Seq<char>| #[trigger]
                    table_in(kept@, k, t) == if is_forgotten(keyspace@, table, k, t) {
                        None
                    } else {
                        table_in(before.take(i as int), k, t)
                    } by {
                    assert(table_in(old_kept, k, t) == if is_forgotten(keyspace@, table, k, t) {
                        None
                    } else {
                        table_in(before.take(i - 1), k, t)
                    });
                }
            }
        }
        assert(before.take(i as int) =~= before);
        self.tables = kept;
    }

    /// Brings the caches up to date with a command that is done.
    pub fn note(&mut self, c: &Command)
        requires
            old(self).wf(),
        ensures
            final(self).wf(),
            final(self).same_statements(old(self)),
            forall|n: Seq<char>| #[trigger]
                final(self).keyspace(n) == keyspace_after(old(self).keyspace(n), c@, n),
            forall|k: Seq<char>, t: Seq<char>| #[trigger]
                final(self).table(k, t) == table_after(old(self).table(k, t), c@, k, t),
    {
        match c {
            Command::PutKeyspace { key: _, keyspace_def } => self.keyspace_loaded(
                &keyspace_def.name,
                keyspace_def,
            ),
            Command::PutTable { key: _, table_def } => self.table_loaded(
                &table_def.keyspace,
                &table_def.name,
                table_def,
            ),
            Command::ForgetKeyspace { name } => {
                self.keyspaces.remove(name);
                self.forget_tables(name, None);
            },
            Command::ForgetTable { keyspace, table } => self.forget_tables(keyspace, Some(table)),
            _ => {},
        }
    }
}

/// Whether a table is among those that are forgotten: one table of a
/// keyspace, or all.
spec fn is_forgotten(keyspace: Seq<char>, table: Option<&str>, k: Seq<char>, t: Seq<char>) -> bool {
    k == keyspace && match table {
        Some(name) => t == name@,
        None => true,
    }
}

/// The cached keyspace `n` after a command.
pub open spec fn keyspace_after(
    cached: Option<KeyspaceView>,
    c: CommandView,
    n: Seq<char>,
) -> Option<KeyspaceView> {
    match c {
        CommandView::PutKeyspace { key, keyspace_def } => if n == keyspace_def.name {
            Some(keyspace_def)
        } else {
            cached
        },
        CommandView::ForgetKeyspace { name } => if n == name {
            None
        } else {
            cached
        },
        _ => cached,
    }
}

/// The cached table `t` of keyspace `k` after a command.
pub open spec fn table_after(
    cached: Option<TableView>,
    c: CommandView,
    k: Seq<char>,
    t: Seq<char>,
) -> Option<TableView> {
    match c {
        CommandView::PutTable { key, table_def } => if k == table_def.keyspace && t
            == table_def.name {
            Some(table_def)
        } else {
            cached
        },
        CommandView::ForgetKeyspace { name } => if k == name {
            None
        } else {
            cached
        },
        CommandView::ForgetTable { keyspace, table } => if k == keyspace && t == table {
            None
        } else {
            cached
        },
        _ => cached,
    }
}

/// Storing a row through the queue.
pub open spec fn put_row_command(
    n: nat,
    keyspace: Seq<char>,
    table: Seq<char>,
    parts: Seq<Seq<u8>>,
    value: Seq<u8>,
) -> CommandView {
    CommandView::Write {
        engine: row_engine(n, keyspace, table, parts),
        op: put_row_op(keyspace, table, parts, value),
    }
}

/// Removing a row through the queue.
pub open spec fn delete_row_command(
    n: nat,
    keyspace: Seq<char>,
    table: Seq<char>,
    parts: Seq<Seq<u8>>,
) -> CommandView {
    CommandView::Write {
        engine: row_engine(n, keyspace, table, parts),
        op: delete_row_op(keyspace, table, parts),
    }
}

/// What the engines hold at a place.
pub open spec fn held(e: Engines, place: Place) -> Option<Seq<u8>> {
    if e[place.0].contains_key(place.1) {
        Some(e[place.0][place.1])
    } else {
        None
    }
}

/// Where a row is read.
pub open spec fn row_place(
    n: nat,
    keyspace: Seq<char>,
    table: Seq<char>,
    parts: Seq<Seq<u8>>,
) -> Place {
    partition_scan(n, keyspace, table, parts)
}

/// Every row is on an engine that exists.
pub proof fn law_engine_exists(n: nat, keyspace: Seq<char>, table: Seq<char>, parts: Seq<Seq<u8>>)
    requires
        n >= 1,
    ensures
        0 <= row_engine(n, keyspace, table, parts) < n,
{
}

/// Every row of a partition is on the engine of the partition.
pub proof fn law_partition_on_one_engine(
    n: nat,
    keyspace: Seq<char>,
    table: Seq<char>,
    partition: Seq<Seq<u8>>,
    clustering: Seq<Seq<u8>>,
)
    requires
        partition.len() > 0,
    ensures
        row_engine(n, keyspace, table, partition + clustering) == row_engine(
            n,
            keyspace,
            table,
            partition,
        ),
{
    assert((partition + clustering)[0] == partition[0]);
}

/// A row that was stored is what is read next, and a row that was removed is
/// read no more.
pub proof fn law_read_your_writes(
    e: Engines,
    keyspace: Seq<char>,
    table: Seq<char>,
    parts: Seq<Seq<u8>>,
    value: Seq<u8>,
)
    requires
        e.len() >= 1,
    ensures
        held(
            engines_after(e, put_row_command(e.len(), keyspace, table, parts, value)),
            row_place(e.len(), keyspace, table, parts),
        ) == Some(value),
        held(
            engines_after(e, delete_row_command(e.len(), keyspace, table, parts)),
            row_place(e.len(), keyspace, table, parts),
        ) is None,
{
}

/// Storing or removing a row leaves every other row of the table as it was.
pub proof fn law_other_rows_unchanged(
    e: Engines,
    keyspace: Seq<char>,
    table: Seq<char>,
    parts: Seq<Seq<u8>>,
    value: Seq<u8>,
    other: Seq<Seq<u8>>,
)
    requires
        e.len() >= 1,
        crate::keys::parts_fit(parts),
        crate::keys::parts_fit(other),
        parts != other,
    ensures
        held(
            engines_after(e, put_row_command(e.len(), keyspace, table, parts, value)),
            row_place(e.len(), keyspace, table, other),
        ) == held(e, row_place(e.len(), keyspace, table, other)),
        held(
            engines_after(e, delete_row_command(e.len(), keyspace, table, parts)),
            row_place(e.len(), keyspace, table, other),
        ) == held(e, row_place(e.len(), keyspace, table, other)),
{
    if row_key(keyspace, table, parts) == row_key(keyspace, table, other) {
        crate::keys::law_rows_do_not_collide(keyspace, table, parts, other);
    }
}

proof fn lemma_ranges_done(e: Engines, op: OpView, i: int)
    requires
        0 <= i <= e.len(),
    ensures
        ({
            let after = engines_after_all(e, on_each(e.len(), op).take(i));
            &&& after.len() == e.len()
            &&& forall|j: int|
                0 <= j < e.len() ==> #[trigger] after[j] == if j < i {
                    engine_after(e[j], op)
                } else {
                    e[j]
                }
        }),
    decreases i,
{
    let all = on_each(e.len(), op);
    if i > 0 {
        lemma_ranges_done(e, op, i - 1);
        assert(all.take(i).drop_last() =~= all.take(i - 1));
        assert(all.take(i).last() == all[i - 1]);
    }
}

/// Emptying a table removes every row of it from every engine and nothing
/// else.
pub proof fn law_truncate_empties_table(
    e: Engines,
    keyspace: Seq<char>,
    table: Seq<char>,
    engine: int,
    key: Seq<u8>,
)
    requires
        0 <= engine < e.len(),
    ensures
        held(
            engines_after_all(e, truncate_commands(e.len(), keyspace, table)),
            (engine, key),
        ) == if has_prefix(key, data_prefix(keyspace, table)) {
            None
        } else {
            held(e, (engine, key))
        },
{
    let prefix = data_prefix(keyspace, table);
    let op = range_over(prefix);
    lemma_ranges_done(e, op, e.len() as int);
    assert(on_each(e.len(), op).take(e.len() as int) =~= on_each(e.len(), op));
    assert(prefix.last() == crate::keys::BANG);
    law_range_is_prefix(key, prefix);
    let after = engines_after_all(e, truncate_commands(e.len(), keyspace, table));
    assert(after[engine] == engine_after(e[engine], op));
}

/// Commands act one after the other, however they are cut into batches.
pub proof fn law_batches_act_in_order(e: Engines, a: Seq<CommandView>, b: Seq<CommandView>)
    ensures
        engines_after_all(e, a + b) == engines_after_all(engines_after_all(e, a), b),
    decreases b.len(),
{
    if b.len() == 0 {
        assert(a + b =~= a);
    } else {
        law_batches_act_in_order(e, a, b.drop_last());
        assert((a + b).drop_last() =~= a + b.drop_last());
    }
}

proof fn lemma_one_command(e: Engines, c: CommandView)
    ensures
        engines_after_all(e, seq![c]) == engines_after(e, c),
{
    assert(seq![c].drop_last() =~= Seq::<CommandView>::empty());
    assert(engines_after_all(e, Seq::<CommandView>::empty()) == e);
}

/// Dropping a table removes its definition and every row of it from every
/// engine, and nothing else.
pub proof fn law_drop_table_removes(
    e: Engines,
    keyspace: Seq<char>,
    table: Seq<char>,
    engine: int,
    key: Seq<u8>,
)
    requires
        0 <= engine < e.len(),
    ensures
        held(
            engines_after_all(e, delete_table_commands(e.len(), keyspace, table)),
            (engine, key),
        ) == if has_prefix(key, data_prefix(keyspace, table)) || (engine == 0 && key == table_key(
            keyspace,
            table,
        )) {
            None
        } else {
            held(e, (engine, key))
        },
{
    let first = CommandView::WriteNow {
        engine: 0,
        op: OpView::Delete { key: table_key(keyspace, table) },
    };
    let rows = on_each(e.len(), range_over(data_prefix(keyspace, table)));
    let last = CommandView::ForgetTable { keyspace, table };
    law_batches_act_in_order(e, seq![first] + rows, seq![last]);
    law_batches_act_in_order(e, seq![first], rows);
    lemma_one_command(e, first);
    let e1 = engines_after(e, first);
    let e2 = engines_after_all(e1, rows);
    lemma_one_command(e2, last);
    law_truncate_empties_table(e1, keyspace, table, engine, key);
}

/// Dropping a keyspace removes its definition, the definitions of its tables
/// and every row of them from every engine, and nothing else.
pub proof fn law_drop_keyspace_removes(e: Engines, name: Seq<char>, engine: int, key: Seq<u8>)
    requires
        0 <= engine < e.len(),
    ensures
        held(
            engines_after_all(e, delete_keyspace_commands(e.len(), name)),
            (engine, key),
        ) == if has_prefix(key, keyspace_data_prefix(name)) || (engine == 0 && (key
            == keyspace_key(name) || has_prefix(key, tables_prefix(name)))) {
            None
        } else {
            held(e, (engine, key))
        },
{
    let first = CommandView::WriteNow {
        engine: 0,
        op: OpView::Delete { key: keyspace_key(name) },
    };
    let second = CommandView::WriteNow { engine: 0, op: range_over(tables_prefix(name)) };
    let prefix = keyspace_data_prefix(name);
    let op = range_over(prefix);
    let rows = on_each(e.len(), op);
    let last = CommandView::ForgetKeyspace { name };
    law_batches_act_in_order(e, seq![first, second] + rows, seq![last]);
    law_batches_act_in_order(e, seq![first, second], rows);
    assert(seq![first, second] =~= seq![first] + seq![second]);
    law_batches_act_in_order(e, seq![first], seq![second]);
    lemma_one_command(e, first);
    let e1 = engines_after(e, first);
    lemma_one_command(e1, second);
    let e2 = engines_after(e1, second);
    let e3 = engines_after_all(e2, rows);
    lemma_one_command(e3, last);
    assert(tables_prefix(name).last() == crate::keys::BANG);
    law_range_is_prefix(key, tables_prefix(name));
    assert(prefix.last() == crate::keys::BANG);
    law_range_is_prefix(key, prefix);
    lemma_ranges_done(e2, op, e2.len() as int);
    assert(rows.take(e2.len() as int) =~= rows);
    assert(e3[engine] == engine_after(e2[engine], op));
}

/// The cached table `t` of keyspace `k` after a list of commands.
pub open spec fn table_after_all(
    cached: Option<TableView>,
    cs: Seq<CommandView>,
    k: Seq<char>,
    t: Seq<char>,
) -> Option<TableView>
    decreases cs.len(),
{
    if cs.len() == 0 {
        cached
    } else {
        table_after(table_after_all(cached, cs.drop_last(), k, t), cs.last(), k, t)
    }
}

/// The cached keyspace `n` after a list of commands.
pub open spec fn keyspace_after_all(
    cached: Option<KeyspaceView>,
    cs: Seq<CommandView>,
    n: Seq<char>,
) -> Option<KeyspaceView>
    decreases cs.len(),
{
    if cs.len() == 0 {
        cached
    } else {
        keyspace_after(keyspace_after_all(cached, cs.drop_last(), n), cs.last(), n)
    }
}

/// Emptying a table is one range on each engine, and dropping a table or a
/// keyspace is that and a few writes of its definition, however many rows there
/// are.
pub proof fn law_drop_and_truncate_are_ranges(n: nat, keyspace: Seq<char>, table: Seq<char>)
    ensures
        truncate_commands(n, keyspace, table).len() == n,
        forall|i: int|
            0 <= i < n ==> (#[trigger] truncate_commands(n, keyspace, table)[i]
                matches CommandView::Write { engine, op } && engine == i && op is DeleteRange),
        delete_table_commands(n, keyspace, table).len() == n + 2,
        delete_keyspace_commands(n, keyspace).len() == n + 3,
{
}

/// A table that was dropped is not in the cache any more, and a keyspace that
/// was dropped is not there, nor are its tables.
pub proof fn law_dropped_is_forgotten(
    n: nat,
    keyspace: Seq<char>,
    table: Seq<char>,
    cached_table: Option<TableView>,
    cached_keyspace: Option<KeyspaceView>,
)
    ensures
        table_after_all(
            cached_table,
            delete_table_commands(n, keyspace, table),
            keyspace,
            table,
        ) is None,
        table_after_all(
            cached_table,
            delete_keyspace_commands(n, keyspace),
            keyspace,
            table,
        ) is None,
        keyspace_after_all(cached_keyspace, delete_keyspace_commands(n, keyspace), keyspace)
            is None,
{
    assert(delete_table_commands(n, keyspace, table).last() == CommandView::ForgetTable {
        keyspace,
        table,
    });
    assert(delete_keyspace_commands(n, keyspace).last() == CommandView::ForgetKeyspace {
        name: keyspace,
    });
}

/// A definition that was stored is the one that is found from then on.
pub proof fn law_created_is_found(
    table_def: TableView,
    keyspace_def: KeyspaceView,
    cached_table: Option<TableView>,
    cached_keyspace: Option<KeyspaceView>,
)
    ensures
        table_after(
            cached_table,
            (CommandView::PutTable {
                key: table_key(table_def.keyspace, table_def.name),
                table_def,
            }),
            table_def.keyspace,
            table_def.name,
        ) == Some(table_def),
        keyspace_after(
            cached_keyspace,
            (CommandView::PutKeyspace { key: keyspace_key(keyspace_def.name), keyspace_def }),
            keyspace_def.name,
        ) == Some(keyspace_def),
{
}

/// How many writes of an engine's queue are carried out together at most.
pub const MAX_BATCH_OPS: usize = 1024;

/// Whether a batch with so many writes takes another.
pub fn batch_has_room(ops: usize) -> (r: bool)
    ensures
        r == (ops < MAX_BATCH_OPS),
{
    ops < MAX_BATCH_OPS
}

/// A number given as text, or `default` where there is none, kept within
/// `min..=max`.
pub open spec fn setting_value(text: Option<Seq<char>>, default: int, min: int, max: int) -> int {
    let n = match text {
        Some(t) => match integer_in(t, false, 0, usize::MAX as int) {
            Some(v) => v,
            None => default,
        },
        None => default,
    };
    if n < min {
        min
    } else if n > max {
        max
    } else {
        n
    }
}

/// What an optional text is.
pub open spec fn opt_text(t: Option<&str>) -> Option<Seq<char>> {
    match t {
        Some(s) => Some(s@),
        None => None,
    }
}

/// A number from a setting.
pub fn env_num(text: Option<&str>, default: usize, min: usize, max: usize) -> (r: usize)
    requires
        min <= max,
    ensures
        r == setting_value(opt_text(text), default as int, min as int, max as int),
        min <= r <= max,
{
    let n: usize = match text {
        Some(t) => match parse_unsigned(t, usize::MAX as u64) {
            Some(v) => v as usize,
            None => default,
        },
        None => default,
    };
    if n < min {
        min
    } else if n > max {
        max
    } else {
        n
    }
}

/// The settings under which the engines are opened, as texts.
pub struct OpenSettings<'a> {
    /// What the marker file says of the number of engines, if there is one.
    pub marker: Option<&'a str>,
    pub engine_shards: Option<&'a str>,
    pub cache_mb: Option<&'a str>,
    pub memtable_mb: Option<&'a str>,
    pub sync: bool,
    pub manual_wal: bool,
    pub cpus: usize,
}

/// How the engines are opened.
#[derive(Debug)]
pub struct OpenPlan {
    pub engines: usize,
    /// Whether the number of engines is yet to be written to the marker file.
    pub write_marker: bool,
    pub background_jobs: i32,
    pub cache_bytes: u64,
    pub memtable_bytes: u64,
    pub write_sync: bool,
    pub manual_wal: bool,
}

/// The number of engines: what the marker file says, so that a restart never
/// looks for rows where another layout put them, or else the setting.
pub open spec fn planned_engines(s: OpenSettings) -> int {
    match s.marker {
        Some(text) => match integer_in(trimmed(text@), false, 0, usize::MAX as int) {
            Some(v) => v,
            None => 1,
        },
        None => setting_value(opt_text(s.engine_shards), clamped(s.cpus as int, 2, 8), 1, 64),
    }
}

pub open spec fn clamped(n: int, min: int, max: int) -> int {
    if n < min {
        min
    } else if n > max {
        max
    } else {
        n
    }
}

fn clamp(n: usize, min: usize, max: usize) -> (r: usize)
    requires
        min <= max,
    ensures
        r == clamped(n as int, min as int, max as int),
{
    if n < min {
        min
    } else if n > max {
        max
    } else {
        n
    }
}

/// How the engines are opened under the given settings.
pub fn plan_open(s: &OpenSettings) -> (p: OpenPlan)
    ensures
        p.engines == planned_engines(*s),
        p.write_marker == (s.marker is None),
        p.background_jobs == clamped(
            s.cpus as int / if p.engines == 0 {
                1
            } else {
                p.engines as int
            },
            2,
            8,
        ),
        p.cache_bytes == setting_value(opt_text(s.cache_mb), 1024, 8, 0x10_0000) * 0x10_0000,
        p.memtable_bytes == setting_value(opt_text(s.memtable_mb), 128, 8, 4096) * 0x10_0000,
        p.write_sync == s.sync,
        p.manual_wal == (s.manual_wal && !s.sync),
{
    let engines: usize = match s.marker {
        Some(text) => match parse_unsigned(&trim(text), usize::MAX as u64) {
            Some(v) => v as usize,
            None => 1,
        },
        None => env_num(s.engine_shards, clamp(s.cpus, 2, 8), 1, 64),
    };
    let divisor: usize = if engines == 0 {
        1
    } else {
        engines
    };
    let jobs: usize = clamp(s.cpus / divisor, 2, 8);
    let cache_mb: usize = env_num(s.cache_mb, 1024, 8, 0x10_0000);
    let memtable_mb: usize = env_num(s.memtable_mb, 128, 8, 4096);
    OpenPlan {
        engines,
        write_marker: s.marker.is_none(),
        background_jobs: jobs as i32,
        cache_bytes: cache_mb as u64 * 0x10_0000,
        memtable_bytes: memtable_mb as u64 * 0x10_0000,
        write_sync: s.sync,
        manual_wal: s.manual_wal && !s.sync,
    }
}

/// What the marker file says of the number of engines.
pub fn marker_text(engines: usize) -> (r: String)
    ensures
        r@ == decimal(engines as nat),
{
    let mut r: String = String::new();
    push_decimal(&mut r, engines as u64);
    assert(r@ =~= decimal(engines as nat));
    r
}

/// Engines that are opened again are as many as when they were first opened,
/// whatever the settings say by then, so that every row is looked for where it
/// was put.
pub proof fn law_marker_keeps_engines(first: OpenSettings, later: OpenSettings)
    requires
        first.marker is None,
        later.marker matches Some(text) && text@ == decimal(planned_engines(first) as nat),
    ensures
        planned_engines(later) == planned_engines(first),
{
    law_decimal_is_read_back(planned_engines(first) as nat);
}

} // verus!
