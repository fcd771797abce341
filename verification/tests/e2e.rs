use rhydadb::client;
use rhydadb::cql_value::LiteralReading;
use rhydadb::literals::literals_in;
use rhydadb::query::{
    with_keyspace, with_row, with_rows, with_schema, with_swept, with_table, Next, Response, Step,
};
use rhydadb::error::QueryError;
use rhydadb::schema::{KeyspaceDef, TableDef};
use rhydadb::select::{row_counts, rows_suffice};
use rhydadb::server::{
    finish, finish_prepare, handle_request, hear, open_body, raw_values,
    answer_error, Connection, Handled, Heard, Opened, Running,
};
use rhydadb::storage::{Command, Fetch, Lookup, Scan, Storage, WriteOp};
use scylla_cql::frame::request::query::{PagingState, Query, QueryParameters};
use scylla_cql::frame::request::{Options, Startup};
use scylla_cql::frame::{Compression, SerializedRequest};
use scylla_cql::serialize::row::SerializedValues;
use scylla_cql::Consistency;
use std::borrow::Cow;
use std::collections::{BTreeMap, HashMap};

const OPCODE_ERROR: u8 = 0x00;
const OPCODE_READY: u8 = 0x02;
const OPCODE_SUPPORTED: u8 = 0x06;
const OPCODE_RESULT: u8 = 0x08;

const RESULT_VOID: i32 = 1;
const RESULT_ROWS: i32 = 2;
const RESULT_SET_KEYSPACE: i32 = 3;
const RESULT_SCHEMA_CHANGE: i32 = 5;

/// Engines in memory, with the definitions beside the first.
struct Disk {
    engines: Vec<BTreeMap<Vec<u8>, Vec<u8>>>,
    keyspaces: BTreeMap<Vec<u8>, KeyspaceDef>,
    tables: BTreeMap<Vec<u8>, TableDef>,
}

struct Server {
    storage: Storage,
    disk: Disk,
    may_skip: bool,
    rows_read: usize,
}

fn readings_of(literals: Vec<String>) -> Vec<LiteralReading> {
    let mut out = Vec::new();
    for text in literals {
        let float = text.parse::<f32>().ok().map(|x| x.to_bits());
        let double = text.parse::<f64>().ok().map(|x| x.to_bits());
        out.push(LiteralReading { text, float, double, inet: None });
    }
    out
}

impl Server {
    fn open(engines: usize) -> Server {
        let disk = Disk {
            engines: vec![BTreeMap::new(); engines],
            keyspaces: BTreeMap::new(),
            tables: BTreeMap::new(),
        };
        let mut s = Server { storage: Storage::new(engines), disk, may_skip: true, rows_read: 0 };
        let seed = s.storage.seed_system(false);
        s.carry_out(seed);
        s
    }

    fn restart(self) -> Server {
        let n = self.disk.engines.len();
        let mut s = Server { storage: Storage::new(n), disk: self.disk, may_skip: true, rows_read: 0 };
        let exists = s.look_up_keyspace("system").is_some();
        assert!(exists);
        let seed = s.storage.seed_system(exists);
        s.carry_out(seed);
        s
    }

    fn write(&mut self, engine: usize, op: &WriteOp) {
        let e = &mut self.disk.engines[engine];
        match op {
            WriteOp::Put { key, val } => {
                e.insert(key.clone(), val.clone());
            }
            WriteOp::Delete { key } => {
                e.remove(key);
                if engine == 0 {
                    self.disk.keyspaces.remove(key);
                    self.disk.tables.remove(key);
                }
            }
            WriteOp::DeleteRange { start, end } => {
                e.retain(|k, _| !(start <= k && k < end));
                if engine == 0 {
                    self.disk.tables.retain(|k, _| !(start <= k && k < end));
                }
            }
        }
    }

    fn carry_out(&mut self, commands: Vec<Command>) {
        for c in commands {
            match &c {
                Command::PutKeyspace { key, keyspace_def } => {
                    self.disk.keyspaces.insert(key.clone(), keyspace_def.clone());
                }
                Command::PutTable { key, table_def } => {
                    self.disk.tables.insert(key.clone(), table_def.clone());
                }
                Command::WriteNow { engine, op } => self.write(*engine, op),
                Command::Write { engine, op } => self.write(*engine, op),
                Command::ForgetKeyspace { .. } => {}
                Command::ForgetTable { .. } => {}
            }
            self.storage.note(&c);
        }
    }

    fn look_up_keyspace(&mut self, name: &str) -> Option<KeyspaceDef> {
        match self.storage.get_keyspace(name) {
            Lookup::Found(d) => Some(d),
            Lookup::Read(f) => {
                assert_eq!(f.engine, 0);
                let d = self.disk.keyspaces.get(&f.key).cloned()?;
                self.storage.keyspace_loaded(name, &d);
                Some(d)
            }
        }
    }

    fn look_up_table(&mut self, keyspace: &str, table: &str) -> Option<TableDef> {
        match self.storage.get_table(keyspace, table) {
            Lookup::Found(d) => Some(d),
            Lookup::Read(f) => {
                assert_eq!(f.engine, 0);
                let d = self.disk.tables.get(&f.key).cloned()?;
                self.storage.table_loaded(keyspace, table, &d);
                Some(d)
            }
        }
    }

    fn fetch(&self, f: &Fetch) -> Option<Vec<u8>> {
        self.disk.engines[f.engine].get(&f.key).cloned()
    }

    fn scan(&self, s: &Scan) -> Vec<(Vec<u8>, Vec<u8>)> {
        self.disk.engines[s.engine]
            .iter()
            .filter(|(k, _)| k.starts_with(&s.prefix))
            .map(|(k, v)| (k.clone(), v.clone()))
            .collect()
    }

    fn run(&mut self, conn: &Connection, running: &mut Running) -> Result<Response, QueryError> {
        let readings = readings_of(literals_in(&running.stmt));
        let mut session = conn.keyspace();
        let mut next = std::mem::replace(&mut running.next, Next::Done(Ok(Response::Void)));
        loop {
            let step: Step = match next {
                Next::Keyspace(name) => {
                    let found = self.look_up_keyspace(&name);
                    with_keyspace(&self.storage, &mut session, &running.stmt, Ok(found))
                }
                Next::Table(keyspace, table) => {
                    let found = self.look_up_table(&keyspace, &table);
                    let values = raw_values(&running.values);
                    with_table(
                        &self.storage,
                        &running.stmt,
                        &values,
                        &readings,
                        &keyspace,
                        &table,
                        Ok(found),
                    )
                }
                Next::Schema(mirror) => {
                    let found = self.look_up_table("system_schema", mirror.table_name());
                    with_schema(&self.storage, mirror, Ok(found))
                }
                Next::Row(fetch, updating) => {
                    let found = self.fetch(&fetch);
                    with_row(&self.storage, updating, Ok(found))
                }
                Next::Rows(scans, selecting) => {
                    let (ks, table, plan) =
                        (&selecting.keyspace, &selecting.table, &selecting.plan);
                    let mut found = Vec::new();
                    let mut counted = 0;
                    let mut done = false;
                    for s in &scans {
                        for (k, v) in self.scan(s) {
                            if done {
                                break;
                            }
                            counted += usize::from(row_counts(ks, table, plan, &k, &v));
                            found.push((k, v));
                            done = rows_suffice(table, plan, counted);
                        }
                    }
                    self.rows_read = found.len();
                    with_rows(selecting, Ok(found))
                }
                Next::Sweep(scan, sweeping) => {
                    let found = self.scan(&scan);
                    with_swept(&scan, sweeping, Ok(found))
                }
                Next::Done(result) => return result,
            };
            self.carry_out(step.commands);
            next = step.next;
        }
    }

    /// Answers a whole frame, or tells that the connection is closed.
    fn answer(&mut self, conn: &mut Connection, frame: &[u8]) -> Option<Vec<u8>> {
        let head = match hear(conn, &frame[..9]) {
            Heard::Refused(out) => return Some(out),
            Heard::Awaits(head) => head,
        };
        let body = match open_body(conn, &head, frame[9..9 + head.length].to_vec()) {
            Opened::Refused(out) => return Some(out),
            Opened::Broken => return None,
            Opened::Body(body) => body,
        };
        let may_skip = self.may_skip;
        match handle_request(&mut self.storage, conn, head.opcode, &body, head.stream, may_skip) {
            Handled::Answer(out) => Some(out),
            Handled::Error(e) => answer_error(0x04, head.stream, &e, conn.compression()),
            Handled::Prepare(p) => {
                let found = self.look_up_table(&p.keyspace.clone(), &p.table.clone());
                finish_prepare(conn, head.stream, p, Ok(found))
            }
            Handled::Run(mut running) => {
                let result = self.run(conn, &mut running);
                finish(conn, head.stream, &running, &result)
            }
        }
    }
}

struct Client {
    conn: Connection,
}

impl Client {
    fn connect() -> Client {
        Client { conn: Connection::new() }
    }

    fn send(&mut self, s: &mut Server, data: &[u8]) -> (u8, Vec<u8>) {
        let out = s.answer(&mut self.conn, data).expect("an answer");
        assert_eq!(out[0], 0x84, "unexpected response version byte");
        let length = u32::from_be_bytes([out[5], out[6], out[7], out[8]]) as usize;
        assert_eq!(out.len(), 9 + length);
        (out[4], out[9..].to_vec())
    }

    fn startup(&mut self, s: &mut Server) -> (u8, Vec<u8>) {
        let mut options = HashMap::new();
        options.insert(Cow::Borrowed("CQL_VERSION"), Cow::Borrowed("3.4.5"));
        let startup = Startup { options };
        let req = SerializedRequest::make(&startup, None, false).unwrap();
        self.send(s, req.get_data())
    }

    fn options(&mut self, s: &mut Server) -> (u8, Vec<u8>) {
        let req = SerializedRequest::make(&Options, None, false).unwrap();
        self.send(s, req.get_data())
    }

    fn query(&mut self, s: &mut Server, text: &str) -> (u8, Vec<u8>) {
        let params = QueryParameters {
            consistency: Consistency::One,
            serial_consistency: None,
            timestamp: None,
            page_size: None,
            paging_state: PagingState::start(),
            skip_metadata: false,
            values: Cow::Borrowed(SerializedValues::EMPTY),
        };
        let q = Query { contents: Cow::Borrowed(text), parameters: params };
        let req = SerializedRequest::make(&q, None, false).unwrap();
        self.send(s, req.get_data())
    }

    fn raw_request(&mut self, s: &mut Server, opcode: u8, body: &[u8]) -> (u8, Vec<u8>) {
        let mut frame = Vec::new();
        client::frame(0, opcode, body, &mut frame);
        self.send(s, &frame)
    }
}

fn read_i32(cur: &mut &[u8]) -> i32 {
    let (b, rest) = cur.split_at(4);
    *cur = rest;
    i32::from_be_bytes(b.try_into().unwrap())
}

fn read_short(cur: &mut &[u8]) -> u16 {
    let (b, rest) = cur.split_at(2);
    *cur = rest;
    u16::from_be_bytes(b.try_into().unwrap())
}

fn read_string(cur: &mut &[u8]) -> String {
    let len = read_short(cur) as usize;
    assert!(len <= cur.len(), "read_string: len={len} but only {} bytes left", cur.len());
    let (s, rest) = cur.split_at(len);
    *cur = rest;
    String::from_utf8(s.to_vec()).unwrap()
}

fn read_short_bytes(cur: &mut &[u8]) -> Vec<u8> {
    let len = read_short(cur) as usize;
    let (b, rest) = cur.split_at(len);
    *cur = rest;
    b.to_vec()
}

struct RowsResponse {
    names: Vec<String>,
    rows: Vec<Vec<Option<Vec<u8>>>>,
}

fn parse_result(body: &[u8]) -> (i32, Option<RowsResponse>) {
    let mut cur = body;
    let kind = read_i32(&mut cur);
    if kind != RESULT_ROWS {
        return (kind, None);
    }
    let flags = read_i32(&mut cur);
    let col_count = read_i32(&mut cur) as usize;
    if flags & 1 != 0 {
        let _ks = read_string(&mut cur);
        let _table = read_string(&mut cur);
    }
    let mut names = Vec::new();
    for _ in 0..col_count {
        let name = read_string(&mut cur);
        let col_type = read_short(&mut cur);
        if col_type == 0x0022 || col_type == 0x0020 {
            let _elem = read_short(&mut cur);
        }
        if col_type == 0x0021 {
            let _key = read_short(&mut cur);
            let _value = read_short(&mut cur);
        }
        names.push(name);
    }
    let rows_count = read_i32(&mut cur) as usize;
    let mut rows = Vec::new();
    for _ in 0..rows_count {
        let mut row = Vec::new();
        for _ in 0..col_count {
            let len = read_i32(&mut cur);
            if len < 0 {
                row.push(None);
            } else {
                let (v, rest) = cur.split_at(len as usize);
                cur = rest;
                row.push(Some(v.to_vec()));
            }
        }
        rows.push(row);
    }
    assert!(cur.is_empty());
    (kind, Some(RowsResponse { names, rows }))
}

fn long_string(s: &str) -> Vec<u8> {
    let mut out = Vec::new();
    client::write_long_string(s, &mut out);
    out
}

fn wire_value(raw: &[u8]) -> Vec<u8> {
    let mut out = Vec::new();
    out.extend_from_slice(&(raw.len() as i32).to_be_bytes());
    out.extend_from_slice(raw);
    out
}

fn wire_set_text(items: &[&str]) -> Vec<u8> {
    let mut out = Vec::new();
    out.extend_from_slice(&(items.len() as i32).to_be_bytes());
    for it in items {
        out.extend(wire_value(it.as_bytes()));
    }
    out
}

fn query_body(query: &str, values: &[Vec<u8>]) -> Vec<u8> {
    let mut out = long_string(query);
    out.extend_from_slice(&0x0001u16.to_be_bytes());
    out.push(0x01);
    out.extend_from_slice(&(values.len() as u16).to_be_bytes());
    for v in values {
        out.extend_from_slice(v);
    }
    out
}

fn error_of(body: &[u8]) -> (i32, String) {
    let mut cur = body;
    let code = read_i32(&mut cur);
    (code, read_string(&mut cur))
}

const CREATE: &str =
    " WITH replication = {'class': 'SimpleStrategy', 'replication_factor': 1}";

#[test]
fn full_cql_flow() {
    for engines in [2, 4, 8] {
        let mut s = Server::open(engines);
        let mut c = Client::connect();

        let (op, body) = c.options(&mut s);
        assert_eq!(op, OPCODE_SUPPORTED);
        assert!(String::from_utf8_lossy(&body).contains("CQL_VERSION"));

        let (op, _) = c.startup(&mut s);
        assert_eq!(op, OPCODE_READY);

        let (op, body) = c.query(&mut s, &format!("CREATE KEYSPACE test{CREATE}"));
        assert_eq!(op, OPCODE_RESULT);
        assert_eq!(parse_result(&body).0, RESULT_SCHEMA_CHANGE);

        let (op, body) =
            c.query(&mut s, "CREATE TABLE test.users (id int PRIMARY KEY, name text, age int)");
        assert_eq!(op, OPCODE_RESULT);
        assert_eq!(parse_result(&body).0, RESULT_SCHEMA_CHANGE);

        let (op, body) = c.query(&mut s, "USE test");
        assert_eq!(op, OPCODE_RESULT);
        assert_eq!(parse_result(&body).0, RESULT_SET_KEYSPACE);

        let (op, body) =
            c.query(&mut s, "INSERT INTO users (id, name, age) VALUES (1, 'alice', 30)");
        assert_eq!(op, OPCODE_RESULT);
        assert_eq!(parse_result(&body).0, RESULT_VOID);

        let (op, body) = c.query(&mut s, "INSERT INTO users (id, name, age) VALUES (2, 'bob', 25)");
        assert_eq!(op, OPCODE_RESULT);
        assert_eq!(parse_result(&body).0, RESULT_VOID);

        let (op, body) = c.query(&mut s, "SELECT * FROM users");
        assert_eq!(op, OPCODE_RESULT);
        let (kind, res) = parse_result(&body);
        assert_eq!(kind, RESULT_ROWS);
        let res = res.unwrap();
        assert_eq!(res.names, vec!["id", "name", "age"]);
        assert_eq!(res.rows.len(), 2);
        assert_eq!(res.rows[0][0], Some(1i32.to_be_bytes().to_vec()));
        assert_eq!(res.rows[0][1], Some(b"alice".to_vec()));
        assert_eq!(res.rows[0][2], Some(30i32.to_be_bytes().to_vec()));
        assert_eq!(res.rows[1][0], Some(2i32.to_be_bytes().to_vec()));
        assert_eq!(res.rows[1][1], Some(b"bob".to_vec()));
        assert_eq!(res.rows[1][2], Some(25i32.to_be_bytes().to_vec()));

        let (op, body) = c.query(&mut s, "SELECT name FROM users WHERE id = 2");
        assert_eq!(op, OPCODE_RESULT);
        let (kind, res) = parse_result(&body);
        assert_eq!(kind, RESULT_ROWS);
        let res = res.unwrap();
        assert_eq!(res.names, vec!["name"]);
        assert_eq!(res.rows.len(), 1);
        assert_eq!(res.rows[0][0], Some(b"bob".to_vec()));

        let (op, body) = c.query(&mut s, "SELECT id FROM users WHERE id IN (1, 2)");
        assert_eq!(op, OPCODE_RESULT);
        let (kind, res) = parse_result(&body);
        assert_eq!(kind, RESULT_ROWS);
        let res = res.unwrap();
        assert_eq!(res.rows.len(), 2);
        assert_eq!(res.rows[0][0], Some(1i32.to_be_bytes().to_vec()));
        assert_eq!(res.rows[1][0], Some(2i32.to_be_bytes().to_vec()));

        let (op, body) = c.query(
            &mut s,
            "CREATE TABLE sensor (device text, ts bigint, temp double, PRIMARY KEY (device, ts))",
        );
        assert_eq!(op, OPCODE_RESULT);
        assert_eq!(parse_result(&body).0, RESULT_SCHEMA_CHANGE);

        let (op, body) =
            c.query(&mut s, "INSERT INTO sensor (device, ts, temp) VALUES ('a', 100, 36.6)");
        assert_eq!(op, OPCODE_RESULT);
        assert_eq!(parse_result(&body).0, RESULT_VOID);

        let (op, body) =
            c.query(&mut s, "INSERT INTO sensor (device, ts, temp) VALUES ('a', 200, 37.0)");
        assert_eq!(op, OPCODE_RESULT);
        assert_eq!(parse_result(&body).0, RESULT_VOID);

        let (op, body) = c.query(&mut s, "SELECT * FROM sensor WHERE device = 'a'");
        assert_eq!(op, OPCODE_RESULT);
        let (kind, res) = parse_result(&body);
        assert_eq!(kind, RESULT_ROWS);
        let res = res.unwrap();
        assert_eq!(res.rows.len(), 2);
        assert_eq!(res.rows[0][0], Some(b"a".to_vec()));
        assert_eq!(res.rows[0][1], Some(100i64.to_be_bytes().to_vec()));
        assert_eq!(res.rows[0][2], Some(36.6f64.to_be_bytes().to_vec()));
        assert_eq!(res.rows[1][0], Some(b"a".to_vec()));
        assert_eq!(res.rows[1][1], Some(200i64.to_be_bytes().to_vec()));
        assert_eq!(res.rows[1][2], Some(37.0f64.to_be_bytes().to_vec()));

        let (op, body) = c.query(&mut s, "SELECT * FROM sensor WHERE device = 'a' AND ts = 200");
        assert_eq!(op, OPCODE_RESULT);
        let (kind, res) = parse_result(&body);
        assert_eq!(kind, RESULT_ROWS);
        assert_eq!(res.unwrap().rows.len(), 1);

        let (op, body) = c.query(&mut s, "UPDATE users SET age = 31 WHERE id = 1");
        assert_eq!(op, OPCODE_RESULT);
        assert_eq!(parse_result(&body).0, RESULT_VOID);

        let (op, body) = c.query(&mut s, "SELECT age FROM users WHERE id = 1");
        assert_eq!(op, OPCODE_RESULT);
        let (kind, res) = parse_result(&body);
        assert_eq!(kind, RESULT_ROWS);
        assert_eq!(res.unwrap().rows[0][0], Some(31i32.to_be_bytes().to_vec()));

        let (op, body) = c.query(&mut s, "DELETE FROM users WHERE id = 2");
        assert_eq!(op, OPCODE_RESULT);
        assert_eq!(parse_result(&body).0, RESULT_VOID);

        let (op, body) = c.query(&mut s, "SELECT * FROM users");
        assert_eq!(op, OPCODE_RESULT);
        let (kind, res) = parse_result(&body);
        assert_eq!(kind, RESULT_ROWS);
        assert_eq!(res.unwrap().rows.len(), 1);

        let (op, body) = c.query(&mut s, "TRUNCATE sensor");
        assert_eq!(op, OPCODE_RESULT);
        assert_eq!(parse_result(&body).0, RESULT_VOID);

        let (op, body) = c.query(&mut s, "SELECT * FROM sensor");
        assert_eq!(op, OPCODE_RESULT);
        let (kind, res) = parse_result(&body);
        assert_eq!(kind, RESULT_ROWS);
        assert_eq!(res.unwrap().rows.len(), 0);

        let (op, body) = c.query(&mut s, "DROP TABLE users");
        assert_eq!(op, OPCODE_RESULT);
        assert_eq!(parse_result(&body).0, RESULT_SCHEMA_CHANGE);

        let (op, body) = c.query(&mut s, "SELECT * FROM users");
        assert_eq!(op, OPCODE_ERROR);
        let mut cur = &body[..];
        assert_eq!(read_i32(&mut cur), 0x2200);
    }
}

fn execute_body(id: &[u8], values: &[Vec<u8>], skip_metadata: bool) -> Vec<u8> {
    client::execute_body(id, &values.to_vec(), skip_metadata)
}

#[test]
fn prepared_statements() {
    let mut s = Server::open(4);
    let mut c = Client::connect();

    let (op, _) = c.startup(&mut s);
    assert_eq!(op, OPCODE_READY);

    let (op, body) = c.query(&mut s, &format!("CREATE KEYSPACE prep{CREATE}"));
    assert_eq!(op, OPCODE_RESULT);
    assert_eq!(parse_result(&body).0, RESULT_SCHEMA_CHANGE);

    let (op, body) =
        c.query(&mut s, "CREATE TABLE prep.t (id int PRIMARY KEY, name text, tags set<text>)");
    assert_eq!(op, OPCODE_RESULT);
    assert_eq!(parse_result(&body).0, RESULT_SCHEMA_CHANGE);

    let (op, _) = c.query(&mut s, "USE prep");
    assert_eq!(op, OPCODE_RESULT);

    let (op, body) = c.raw_request(
        &mut s,
        0x09,
        &long_string("INSERT INTO t (id, name, tags) VALUES (?, ?, ?)"),
    );
    assert_eq!(op, OPCODE_RESULT);
    let mut cur = &body[..];
    assert_eq!(read_i32(&mut cur), 4);
    let id = read_short_bytes(&mut cur);
    assert_eq!(id.len(), 2);
    assert_eq!(client::prepared_id(&body), Some(id.clone()));
    let _bind_flags = read_i32(&mut cur);
    assert_eq!(read_i32(&mut cur), 3);
    assert_eq!(read_i32(&mut cur), 1);
    assert_eq!(read_short(&mut cur), 0);
    assert_eq!(read_string(&mut cur), "prep");
    assert_eq!(read_string(&mut cur), "t");
    let name = read_string(&mut cur);
    assert_eq!(name, "id");
    assert_eq!(read_short(&mut cur), 0x0009);
    let name = read_string(&mut cur);
    assert_eq!(name, "name");
    assert_eq!(read_short(&mut cur), 0x000D);
    let name = read_string(&mut cur);
    assert_eq!(name, "tags");
    assert_eq!(read_short(&mut cur), 0x0022);
    assert_eq!(read_short(&mut cur), 0x000D);
    let _result_flags = read_i32(&mut cur);
    assert_eq!(read_i32(&mut cur), 0);
    assert_eq!(read_string(&mut cur), "prep");
    assert_eq!(read_string(&mut cur), "t");
    assert!(cur.is_empty());

    let exec = execute_body(
        &id,
        &[1i32.to_be_bytes().to_vec(), b"alice".to_vec(), wire_set_text(&["x", "y"])],
        false,
    );
    let (op, body) = c.raw_request(&mut s, 0x0A, &exec);
    assert_eq!(op, OPCODE_RESULT);
    assert_eq!(parse_result(&body).0, RESULT_VOID);

    let (op, body) = c.raw_request(&mut s, 0x09, &long_string("SELECT * FROM t WHERE id = ?"));
    assert_eq!(op, OPCODE_RESULT);
    let mut cur = &body[..];
    assert_eq!(read_i32(&mut cur), 4);
    let sel_id = read_short_bytes(&mut cur);
    assert_ne!(sel_id, id);
    let _bind_flags = read_i32(&mut cur);
    assert_eq!(read_i32(&mut cur), 1);
    assert_eq!(read_i32(&mut cur), 0);
    assert_eq!(read_string(&mut cur), "prep");
    assert_eq!(read_string(&mut cur), "t");
    assert_eq!(read_string(&mut cur), "id");
    assert_eq!(read_short(&mut cur), 0x0009);
    let _result_flags = read_i32(&mut cur);
    assert_eq!(read_i32(&mut cur), 3);
    assert_eq!(read_string(&mut cur), "prep");
    assert_eq!(read_string(&mut cur), "t");
    assert_eq!(read_string(&mut cur), "id");
    assert_eq!(read_short(&mut cur), 0x0009);
    assert_eq!(read_string(&mut cur), "name");
    assert_eq!(read_short(&mut cur), 0x000D);
    assert_eq!(read_string(&mut cur), "tags");
    assert_eq!(read_short(&mut cur), 0x0022);
    assert_eq!(read_short(&mut cur), 0x000D);
    assert!(cur.is_empty());

    let exec = execute_body(&sel_id, &[1i32.to_be_bytes().to_vec()], true);
    let (op, body) = c.raw_request(&mut s, 0x0A, &exec);
    assert_eq!(op, OPCODE_RESULT);
    let mut cur = &body[..];
    assert_eq!(read_i32(&mut cur), RESULT_ROWS);
    assert_eq!(read_i32(&mut cur), 0);
    assert_eq!(read_i32(&mut cur), -1);
    assert_eq!(read_i32(&mut cur), 1);
    let id_raw = read_i32(&mut cur);
    assert_eq!(id_raw, 4);
    let (v, rest) = cur.split_at(4);
    assert_eq!(v, 1i32.to_be_bytes());
    cur = rest;
    let name_len = read_i32(&mut cur);
    assert_eq!(name_len, 5);
    let (v, rest) = cur.split_at(5);
    assert_eq!(v, b"alice");
    cur = rest;
    let tags_len = read_i32(&mut cur);
    assert_eq!(tags_len as usize, wire_set_text(&["x", "y"]).len());
    let (v, rest) = cur.split_at(tags_len as usize);
    assert_eq!(v, wire_set_text(&["x", "y"]));
    cur = rest;
    assert!(cur.is_empty());

    let (op, body) =
        c.raw_request(&mut s, 0x09, &long_string("UPDATE t SET name = ? WHERE id = ?"));
    assert_eq!(op, OPCODE_RESULT);
    let mut cur = &body[..];
    assert_eq!(read_i32(&mut cur), 4);
    let upd_id = read_short_bytes(&mut cur);
    let _f = read_i32(&mut cur);
    assert_eq!(read_i32(&mut cur), 2);
    assert_eq!(read_i32(&mut cur), 0);
    assert_eq!(read_string(&mut cur), "prep");
    assert_eq!(read_string(&mut cur), "t");
    assert_eq!(read_string(&mut cur), "name");
    assert_eq!(read_short(&mut cur), 0x000D);
    assert_eq!(read_string(&mut cur), "id");
    assert_eq!(read_short(&mut cur), 0x0009);
    let (op, body) = c.raw_request(
        &mut s,
        0x0A,
        &execute_body(&upd_id, &[b"bob".to_vec(), 2i32.to_be_bytes().to_vec()], false),
    );
    assert_eq!(op, OPCODE_RESULT);
    assert_eq!(parse_result(&body).0, RESULT_VOID);
    let (op, body) =
        c.raw_request(&mut s, 0x09, &long_string("SELECT name FROM t WHERE id = ?"));
    assert_eq!(op, OPCODE_RESULT);
    let mut cur = &body[..];
    assert_eq!(read_i32(&mut cur), 4);
    let sel_name_id = read_short_bytes(&mut cur);
    let (op, body) = c.raw_request(
        &mut s,
        0x0A,
        &execute_body(&sel_name_id, &[2i32.to_be_bytes().to_vec()], false),
    );
    assert_eq!(op, OPCODE_RESULT);
    let (kind, res) = parse_result(&body);
    assert_eq!(kind, RESULT_ROWS);
    let res = res.unwrap();
    assert_eq!(res.names, vec!["name"]);
    assert_eq!(res.rows[0][0], Some(b"bob".to_vec()));

    let (op, body) = c.raw_request(&mut s, 0x0A, &execute_body(&[0x00, 0xFF], &[], false));
    assert_eq!(op, OPCODE_ERROR);
    let mut cur = &body[..];
    assert_eq!(read_i32(&mut cur), 0x2200);

    let qv_ins = query_body(
        "INSERT INTO t (id, name) VALUES (?, ?)",
        &[wire_value(&3i32.to_be_bytes()), wire_value(b"carol")],
    );
    let (op, body) = c.raw_request(&mut s, 0x07, &qv_ins);
    assert_eq!(op, OPCODE_RESULT);
    assert_eq!(parse_result(&body).0, RESULT_VOID);
    let qv_sel =
        query_body("SELECT name FROM t WHERE id = ?", &[wire_value(&3i32.to_be_bytes())]);
    let (op, body) = c.raw_request(&mut s, 0x07, &qv_sel);
    assert_eq!(op, OPCODE_RESULT);
    let (kind, res) = parse_result(&body);
    assert_eq!(kind, RESULT_ROWS);
    let res = res.unwrap();
    assert_eq!(res.names, vec!["name"]);
    assert_eq!(res.rows[0][0], Some(b"carol".to_vec()));

    let (op, body) = c.raw_request(
        &mut s,
        0x07,
        &query_body(
            "INSERT INTO t (id, name) VALUES (?, ?)",
            &[wire_value(&4i32.to_be_bytes())],
        ),
    );
    assert_eq!(op, OPCODE_ERROR);
    let mut cur = &body[..];
    assert_eq!(read_i32(&mut cur), 0x2200);
}

#[test]
fn concurrent_hammer() {
    let mut s = Server::open(8);
    let mut setup = Client::connect();
    setup.startup(&mut s);
    let (op, _) = setup.query(&mut s, &format!("CREATE KEYSPACE hammer{CREATE}"));
    assert_eq!(op, OPCODE_RESULT);
    let (op, _) = setup.query(
        &mut s,
        "CREATE TABLE hammer.items (client int, idx int, val int, PRIMARY KEY (client, idx))",
    );
    assert_eq!(op, OPCODE_RESULT);

    let mut clients: Vec<Client> = (0..8).map(|_| Client::connect()).collect();
    for i in 0..50 {
        for (client, c) in clients.iter_mut().enumerate() {
            let (op, _) = c.query(
                &mut s,
                &format!("INSERT INTO hammer.items (client, idx, val) VALUES ({client}, {i}, {i})"),
            );
            assert_eq!(op, OPCODE_RESULT, "insert failed for client {client} idx {i}");
        }
    }
    for (client, c) in clients.iter_mut().enumerate() {
        let (op, body) =
            c.query(&mut s, &format!("SELECT val FROM hammer.items WHERE client = {client}"));
        assert_eq!(op, OPCODE_RESULT);
        let (kind, res) = parse_result(&body);
        assert_eq!(kind, 2);
        assert_eq!(res.unwrap().rows.len(), 50, "client {client} lost rows");
        for i in 0..50i32 {
            let (op, body) = c.query(
                &mut s,
                &format!("SELECT val FROM hammer.items WHERE client = {client} AND idx = {i}"),
            );
            assert_eq!(op, OPCODE_RESULT);
            let (kind, res) = parse_result(&body);
            assert_eq!(kind, 2);
            let res = res.unwrap();
            assert_eq!(res.names, vec!["val"], "client {client} idx {i}");
            assert_eq!(res.rows.len(), 1, "client {client} idx {i}");
            assert_eq!(
                res.rows[0][0],
                Some(i.to_be_bytes().to_vec()),
                "client {client} idx {i} wrong value"
            );
        }
    }

    let (op, body) = setup.query(&mut s, "SELECT * FROM hammer.items");
    assert_eq!(op, OPCODE_RESULT);
    let (kind, res) = parse_result(&body);
    assert_eq!(kind, 2);
    assert_eq!(res.unwrap().rows.len(), 400);
}

fn write_frame(version: u8, flags: u8, stream_id: i16, opcode: u8, body: &[u8]) -> Vec<u8> {
    let mut frame = Vec::with_capacity(9 + body.len());
    frame.push(version);
    frame.push(flags);
    frame.extend_from_slice(&stream_id.to_be_bytes());
    frame.push(opcode);
    frame.extend_from_slice(&(body.len() as u32).to_be_bytes());
    frame.extend_from_slice(body);
    frame
}

#[test]
fn garbage_frames_do_not_kill_server() {
    let mut s = Server::open(2);
    let mut c = Client::connect();
    c.startup(&mut s);
    let (op, _) = c.query(&mut s, &format!("CREATE KEYSPACE g{CREATE}"));
    assert_eq!(op, OPCODE_RESULT);

    // Wrong protocol version.
    let mut v = Connection::new();
    let out = s.answer(&mut v, &write_frame(0x05, 0x00, 0, 0x07, &[])).unwrap();
    assert_eq!(out[4], OPCODE_ERROR);
    assert_eq!(out[0], 0x85);
    assert_eq!(
        error_of(&out[9..]),
        (0x000A, "Unsupported protocol version; this server supports CQL v4".to_string())
    );
    assert!(matches!(hear(&v, &write_frame(0x05, 0x00, 0, 0x07, &[])), Heard::Refused(_)));

    // A huge declared length.
    let mut huge = write_frame(0x04, 0x00, 0, 0x07, &[]);
    huge[5..9].copy_from_slice(&0xFFFF_FFFFu32.to_be_bytes());
    let out = s.answer(&mut v, &huge).unwrap();
    assert_eq!(out[4], OPCODE_ERROR);
    assert_eq!(error_of(&out[9..]), (0x000A, "Frame too large".to_string()));

    // The longest body that is accepted.
    let mut longest = write_frame(0x04, 0x00, 0, 0x07, &[]);
    longest[5..9].copy_from_slice(&(64 * 1024 * 1024u32).to_be_bytes());
    assert!(matches!(hear(&v, &longest), Heard::Awaits(_)));
    longest[5..9].copy_from_slice(&(64 * 1024 * 1024u32 + 1).to_be_bytes());
    assert!(matches!(hear(&v, &longest), Heard::Refused(_)));

    // Unknown opcode.
    let out = s.answer(&mut v, &write_frame(0x04, 0x00, 0, 0xFF, &[])).unwrap();
    assert_eq!(out[4], OPCODE_ERROR);
    assert_eq!(error_of(&out[9..]), (0x000A, "Unknown opcode".to_string()));

    // Malformed bodies.
    let out = s.answer(&mut v, &write_frame(0x04, 0x00, 0, 0x07, &[0x00, 0x01])).unwrap();
    assert_eq!(out[4], OPCODE_ERROR);
    assert_eq!(error_of(&out[9..]), (0x000A, "Malformed QUERY message".to_string()));
    let out = s.answer(&mut v, &write_frame(0x04, 0x00, 0, 0x09, &[0x00, 0x01])).unwrap();
    assert_eq!(error_of(&out[9..]), (0x000A, "Malformed PREPARE message".to_string()));
    let out = s.answer(&mut v, &write_frame(0x04, 0x00, 0, 0x0A, &[0x00])).unwrap();
    assert_eq!(error_of(&out[9..]), (0x000A, "Malformed EXECUTE message".to_string()));
    let out = s.answer(&mut v, &write_frame(0x04, 0x00, 0, 0x01, &[0x00, 0x01])).unwrap();
    assert_eq!(error_of(&out[9..]), (0x000A, "Malformed STARTUP message".to_string()));

    // Random garbage bytes on a fresh connection.
    let mut fresh = Connection::new();
    let mut rng = 0x12345678u32;
    let mut garbage = Vec::new();
    for _ in 0..200 {
        rng = rng.wrapping_mul(1664525).wrapping_add(1013904223);
        garbage.push((rng >> 24) as u8);
    }
    let out = s.answer(&mut fresh, &garbage).unwrap();
    assert_eq!(out[4], OPCODE_ERROR);

    // Compressed frame without negotiated compression.
    let out = s
        .answer(&mut v, &write_frame(0x04, 0x01, 0, 0x07, &[0x00, 0x00, 0x00, 0x00]))
        .unwrap();
    assert_eq!(out[4], OPCODE_ERROR);
    assert_eq!(
        error_of(&out[9..]),
        (0x000A, "Received compressed frame without negotiated compression".to_string())
    );

    // The server is still functional.
    let mut ok = Client::connect();
    ok.startup(&mut s);
    let (op, body) = ok.query(&mut s, "SELECT * FROM g.system_schema_keyspaces_missing");
    assert_eq!(op, OPCODE_ERROR);
    assert_eq!(
        error_of(&body),
        (0x2200, "table g.system_schema_keyspaces_missing does not exist".to_string())
    );
    let (op, _) = ok.query(&mut s, "SELECT * FROM system_schema.keyspaces");
    assert_eq!(op, OPCODE_RESULT);
}

#[test]
fn persistence_across_restart() {
    let mut s = Server::open(4);
    let mut c = Client::connect();
    c.startup(&mut s);
    let (op, _) = c.query(&mut s, &format!("CREATE KEYSPACE p{CREATE}"));
    assert_eq!(op, OPCODE_RESULT);
    let (op, _) = c.query(&mut s, "CREATE TABLE p.users (id int PRIMARY KEY, name text)");
    assert_eq!(op, OPCODE_RESULT);
    let (op, _) = c.query(&mut s, "INSERT INTO p.users (id, name) VALUES (1, 'alice')");
    assert_eq!(op, OPCODE_RESULT);
    let (op, _) = c.query(&mut s, "INSERT INTO p.users (id, name) VALUES (2, 'bob')");
    assert_eq!(op, OPCODE_RESULT);
    drop(c);

    let mut s = s.restart();
    let table = s.look_up_table("p", "users").expect("table should survive restart");
    assert_eq!(table.columns.len(), 2);
    let f1 = s.storage.get_row("p", "users", &[1i32.to_be_bytes().to_vec()]);
    let f2 = s.storage.get_row("p", "users", &[2i32.to_be_bytes().to_vec()]);
    let f3 = s.storage.get_row("p", "users", &[3i32.to_be_bytes().to_vec()]);
    let row1 = s.fetch(&f1).expect("row 1");
    let row2 = s.fetch(&f2).expect("row 2");
    assert!(String::from_utf8_lossy(&row1).contains("alice"));
    assert!(String::from_utf8_lossy(&row2).contains("bob"));
    assert!(s.fetch(&f3).is_none());
}

fn ready_client(s: &mut Server, keyspace: &str) -> Client {
    let mut c = Client::connect();
    c.startup(s);
    let (op, _) = c.query(s, &format!("CREATE KEYSPACE {keyspace}{CREATE}"));
    assert_eq!(op, OPCODE_RESULT);
    let (op, _) = c.query(s, &format!("USE {keyspace}"));
    assert_eq!(op, OPCODE_RESULT);
    c
}

fn fails(c: &mut Client, s: &mut Server, text: &str) -> (i32, String) {
    let (op, body) = c.query(s, text);
    assert_eq!(op, OPCODE_ERROR, "{text}");
    error_of(&body)
}

fn rows(c: &mut Client, s: &mut Server, text: &str) -> Vec<Vec<Option<Vec<u8>>>> {
    let (op, body) = c.query(s, text);
    assert_eq!(op, OPCODE_RESULT, "{text}: {}", String::from_utf8_lossy(&body));
    parse_result(&body).1.expect("rows").rows
}

fn does(c: &mut Client, s: &mut Server, text: &str) -> i32 {
    let (op, body) = c.query(s, text);
    assert_eq!(op, OPCODE_RESULT, "{text}: {}", String::from_utf8_lossy(&body));
    parse_result(&body).0
}

#[test]
fn errors_of_statements() {
    let mut s = Server::open(2);
    let mut c = Client::connect();
    c.startup(&mut s);
    let no_keyspace = (0x2200, "No keyspace specified; use USE <keyspace>".to_string());
    assert_eq!(fails(&mut c, &mut s, "SELECT * FROM t"), no_keyspace);
    assert_eq!(fails(&mut c, &mut s, "CREATE TABLE t (a int PRIMARY KEY)"), no_keyspace);
    assert_eq!(
        fails(&mut c, &mut s, "USE nowhere"),
        (0x2200, "Keyspace 'nowhere' does not exist".to_string())
    );
    assert_eq!(
        fails(&mut c, &mut s, "SELEC * FROM t"),
        (0x2000, "line 1: syntax error in statement".to_string())
    );
    assert_eq!(
        fails(&mut c, &mut s, "DROP KEYSPACE nowhere"),
        (0x2200, "Cannot drop non existing keyspace 'nowhere'".to_string())
    );
    assert_eq!(does(&mut c, &mut s, "DROP KEYSPACE IF EXISTS nowhere"), RESULT_VOID);
    let mut c = ready_client(&mut s, "ks");
    assert_eq!(
        fails(&mut c, &mut s, &format!("CREATE KEYSPACE ks{CREATE}")),
        (0x2400, "ks. already exists".to_string())
    );
    assert_eq!(
        does(&mut c, &mut s, &format!("CREATE KEYSPACE IF NOT EXISTS ks{CREATE}")),
        RESULT_VOID
    );
    assert_eq!(
        fails(&mut c, &mut s, "DROP TABLE t"),
        (0x2200, "Cannot drop non existing table 'ks.t'".to_string())
    );
    assert_eq!(does(&mut c, &mut s, "DROP TABLE IF EXISTS t"), RESULT_VOID);
    assert_eq!(
        does(&mut c, &mut s, "CREATE TABLE t (a int, b int, v text, PRIMARY KEY (a, b))"),
        RESULT_SCHEMA_CHANGE
    );
    assert_eq!(
        fails(&mut c, &mut s, "CREATE TABLE t (a int PRIMARY KEY)"),
        (0x2400, "ks.t already exists".to_string())
    );
    assert_eq!(
        does(&mut c, &mut s, "CREATE TABLE IF NOT EXISTS t (a int PRIMARY KEY)"),
        RESULT_VOID
    );
    assert_eq!(
        fails(&mut c, &mut s, "CREATE TABLE u (a int, b int)"),
        (0x2200, "Primary key is required".to_string())
    );
    assert_eq!(fails(&mut c, &mut s, "CREATE TABLE u (a counter PRIMARY KEY)").0, 0x2200);
    assert_eq!(
        fails(&mut c, &mut s, "INSERT INTO t (a, v) VALUES (1, 'x')"),
        (0x2200, "Some clustering key parts are missing: b".to_string())
    );
    assert_eq!(
        fails(&mut c, &mut s, "INSERT INTO t (b, v) VALUES (1, 'x')"),
        (0x2200, "Some partition key parts are missing: a".to_string())
    );
    assert_eq!(
        fails(&mut c, &mut s, "INSERT INTO t (a, b) VALUES (null, 1)"),
        (0x2200, "Invalid null value for partition key part a".to_string())
    );
    assert_eq!(
        fails(&mut c, &mut s, "INSERT INTO t (a, b, w) VALUES (1, 1, 2)"),
        (0x2200, "Undefined column name w".to_string())
    );
    assert_eq!(
        fails(&mut c, &mut s, "INSERT INTO t (a, b) VALUES (1)"),
        (0x2000, "Wrong number of values provided".to_string())
    );
    assert_eq!(
        fails(&mut c, &mut s, "INSERT INTO t (a, b) VALUES ('x', 1)"),
        (0x2200, "cannot parse ''x'' as int".to_string())
    );
    assert_eq!(
        fails(&mut c, &mut s, "SELECT * FROM t WHERE a > 1"),
        (0x2200, "Only '=' and 'IN' restrictions are supported in WHERE".to_string())
    );
    assert_eq!(
        fails(&mut c, &mut s, "DELETE FROM t WHERE a = 1"),
        (0x2200, "Restrictions are incomplete for key part b".to_string())
    );
    assert_eq!(
        fails(&mut c, &mut s, "DELETE v FROM t WHERE a = 1 AND b = 1"),
        (0x2200, "Column-level DELETE is not supported yet".to_string())
    );
    for text in [
        "INSERT INTO system.local (key) VALUES ('x')",
        "DELETE FROM system.local WHERE key = 'local'",
        "UPDATE system.local SET rack = 'x' WHERE key = 'local'",
        "TRUNCATE system.local",
        "DROP TABLE system.local",
        "CREATE TABLE system.mine (a int PRIMARY KEY)",
        "DROP KEYSPACE system",
    ] {
        assert_eq!(
            fails(&mut c, &mut s, text),
            (0x2200, "Modifications to keyspace 'system' are not allowed".to_string())
        );
    }
    assert_eq!(
        fails(&mut c, &mut s, "CREATE ROLE r"),
        (0x2200, "Statement not supported: CREATE ROLE".to_string())
    );
    assert_eq!(rows(&mut c, &mut s, "SELECT * FROM system.local").len(), 1);
    let (op, body) = c.raw_request(&mut s, 0x09, &long_string("USE ks"));
    assert_eq!(op, OPCODE_ERROR);
    assert_eq!(error_of(&body), (0x2200, "Statement cannot be prepared: USE".to_string()));
    let (op, body) = c.raw_request(&mut s, 0x0D, &[]);
    assert_eq!(op, OPCODE_ERROR);
    assert_eq!(error_of(&body), (0x2200, "Batches are not supported yet".to_string()));
    let (op, body) = c.raw_request(&mut s, 0x0F, &[]);
    assert_eq!(op, OPCODE_ERROR);
    assert_eq!(error_of(&body), (0x000A, "Authentication is not enabled".to_string()));
    let (op, _) = c.raw_request(&mut s, 0x0B, &[]);
    assert_eq!(op, OPCODE_READY);
}

#[test]
fn execute_errors() {
    let mut s = Server::open(2);
    let mut c = ready_client(&mut s, "ks");
    does(&mut c, &mut s, "CREATE TABLE t (a int PRIMARY KEY, v text)");
    let (_, body) = c.raw_request(&mut s, 0x09, &long_string("SELECT v FROM t WHERE a = ?"));
    let id = client::prepared_id(&body).unwrap();
    let (op, body) = c.raw_request(&mut s, 0x0A, &execute_body(&id, &[], false));
    assert_eq!(op, OPCODE_ERROR);
    assert_eq!(error_of(&body), (0x2200, "Invalid amount of bind variables".to_string()));
    // Flags that are not known.
    let mut bad = Vec::new();
    bad.extend_from_slice(&2u16.to_be_bytes());
    bad.extend_from_slice(&id);
    bad.extend_from_slice(&1u16.to_be_bytes());
    bad.push(0x80);
    let (op, body) = c.raw_request(&mut s, 0x0A, &bad);
    assert_eq!(op, OPCODE_ERROR);
    assert_eq!(error_of(&body), (0x000A, "Malformed EXECUTE parameters".to_string()));
    // Parameters that break off behind the consistency level.
    bad.pop();
    let (op, body) = c.raw_request(&mut s, 0x0A, &bad);
    assert_eq!(op, OPCODE_ERROR);
    assert_eq!(error_of(&body), (0x000A, "Malformed EXECUTE parameters".to_string()));
    let mut cut = long_string("SELECT v FROM t");
    let malformed = (0x000A, "Malformed QUERY message".to_string());
    let (op, body) = c.raw_request(&mut s, 0x07, &cut);
    assert_eq!(op, OPCODE_ERROR);
    assert_eq!(error_of(&body), malformed);
    cut.extend_from_slice(&1u16.to_be_bytes());
    let (op, body) = c.raw_request(&mut s, 0x07, &cut);
    assert_eq!(op, OPCODE_ERROR);
    assert_eq!(error_of(&body), malformed);
    cut.push(0);
    let (op, _) = c.raw_request(&mut s, 0x07, &cut);
    assert_eq!(op, OPCODE_RESULT);
}

#[test]
fn bound_values_with_every_flag() {
    let mut s = Server::open(2);
    let mut c = ready_client(&mut s, "ks");
    does(&mut c, &mut s, "CREATE TABLE t (a int PRIMARY KEY, v text)");
    // Values, page size, paging state, serial consistency and timestamp.
    let mut body = long_string("INSERT INTO t (a, v) VALUES (?, ?)");
    body.extend_from_slice(&0x0001u16.to_be_bytes());
    body.push(0x01 | 0x04 | 0x08 | 0x10 | 0x20);
    body.extend_from_slice(&2u16.to_be_bytes());
    body.extend(wire_value(&7i32.to_be_bytes()));
    body.extend_from_slice(&(-1i32).to_be_bytes());
    body.extend_from_slice(&100i32.to_be_bytes());
    body.extend(wire_value(b"state"));
    body.extend_from_slice(&0x0008u16.to_be_bytes());
    body.extend_from_slice(&1i64.to_be_bytes());
    let (op, out) = c.raw_request(&mut s, 0x07, &body);
    assert_eq!(op, OPCODE_RESULT, "{}", String::from_utf8_lossy(&out));
    assert_eq!(
        rows(&mut c, &mut s, "SELECT * FROM t WHERE a = 7"),
        vec![vec![Some(7i32.to_be_bytes().to_vec()), None]]
    );
    // A serial consistency level that is none.
    let at = body.len() - 9;
    body[at] = 0x01;
    let (op, out) = c.raw_request(&mut s, 0x07, &body);
    assert_eq!(op, OPCODE_ERROR);
    assert_eq!(error_of(&out), (0x000A, "Malformed QUERY message".to_string()));
}

#[test]
fn written_rows_are_read() {
    for engines in [1, 3, 8] {
        let mut s = Server::open(engines);
        let mut c = ready_client(&mut s, "ks");
        does(
            &mut c,
            &mut s,
            "CREATE TABLE t (a int, b text, c bigint, v text, w list<int>, PRIMARY KEY ((a, b), c))",
        );
        for a in 0..3 {
            for b in ["x", "y"] {
                for k in 0..2 {
                    does(
                        &mut c,
                        &mut s,
                        &format!(
                            "INSERT INTO t (a, b, c, v, w) VALUES ({a}, '{b}', {k}, 'it''s', [1, 2])"
                        ),
                    );
                }
            }
        }
        assert_eq!(rows(&mut c, &mut s, "SELECT * FROM t").len(), 12);
        let found = rows(&mut c, &mut s, "SELECT v, c FROM t WHERE a IN (0, 2) AND b = 'y'");
        assert_eq!(found.len(), 4);
        assert_eq!(found[0][0], Some(b"it's".to_vec()));
        assert_eq!(found[0][1], Some(0i64.to_be_bytes().to_vec()));
        assert_eq!(found[1][1], Some(1i64.to_be_bytes().to_vec()));
        // A restriction on part of the partition key scans the whole table.
        assert_eq!(rows(&mut c, &mut s, "SELECT a FROM t WHERE b = 'x'").len(), 6);
        assert_eq!(rows(&mut c, &mut s, "SELECT a FROM t WHERE a = 9 AND b = 'x'").len(), 0);
        assert_eq!(rows(&mut c, &mut s, "SELECT a FROM t LIMIT 5").len(), 5);
        // An update leaves the other columns as they were.
        does(&mut c, &mut s, "UPDATE t SET v = 'new' WHERE a = 1 AND b = 'x' AND c = 1");
        let found = rows(&mut c, &mut s, "SELECT v, w FROM t WHERE a = 1 AND b = 'x' AND c = 1");
        let mut list = 2i32.to_be_bytes().to_vec();
        list.extend(wire_value(&1i32.to_be_bytes()));
        list.extend(wire_value(&2i32.to_be_bytes()));
        assert_eq!(found, vec![vec![Some(b"new".to_vec()), Some(list)]]);
        // An update of a row that is not there makes it.
        does(&mut c, &mut s, "UPDATE t SET v = 'made' WHERE a = 7 AND b = 'z' AND c = 1");
        assert_eq!(
            rows(&mut c, &mut s, "SELECT a, v, w FROM t WHERE a = 7 AND b = 'z'"),
            vec![vec![Some(7i32.to_be_bytes().to_vec()), Some(b"made".to_vec()), None]]
        );
        // A deleted row is not read any more; its neighbour is.
        does(&mut c, &mut s, "DELETE FROM t WHERE a = 1 AND b = 'x' AND c = 1");
        assert_eq!(rows(&mut c, &mut s, "SELECT v FROM t WHERE a = 1 AND b = 'x'").len(), 1);
        assert_eq!(rows(&mut c, &mut s, "SELECT * FROM t").len(), 12);
        does(&mut c, &mut s, "TRUNCATE t");
        assert_eq!(rows(&mut c, &mut s, "SELECT * FROM t").len(), 0);
    }
}

#[test]
fn limit_keeps_the_first_row() {
    let mut s = Server::open(8);
    let mut c = ready_client(&mut s, "ks");
    does(&mut c, &mut s, "CREATE TABLE t (a int PRIMARY KEY)");
    for a in 0..4 {
        does(&mut c, &mut s, &format!("INSERT INTO t (a) VALUES ({a})"));
    }
    let int = |n: i32| vec![Some(n.to_be_bytes().to_vec())];
    assert_eq!(rows(&mut c, &mut s, "SELECT a FROM t LIMIT 2"), vec![int(0), int(1)]);
    assert_eq!(rows(&mut c, &mut s, "SELECT a FROM t LIMIT 1"), vec![int(0)]);
    assert_eq!(rows(&mut c, &mut s, "SELECT a FROM t LIMIT 0").len(), 1);
    assert_eq!(rows(&mut c, &mut s, "SELECT a FROM t LIMIT 9").len(), 4);
}

#[test]
fn schema_is_described() {
    let mut s = Server::open(4);
    let mut c = ready_client(&mut s, "shop");
    does(&mut c, &mut s, "CREATE TABLE kv (k text PRIMARY KEY, v map<text, int>)");
    let found = rows(
        &mut c,
        &mut s,
        "SELECT keyspace_name, durable_writes FROM system_schema.keyspaces WHERE keyspace_name = 'shop'",
    );
    assert_eq!(found, vec![vec![Some(b"shop".to_vec()), Some(vec![1])]]);
    let found = rows(
        &mut c,
        &mut s,
        "SELECT table_name, bloom_filter_fp_chance, gc_grace_seconds, speculative_retry FROM system_schema.tables WHERE keyspace_name = 'shop'",
    );
    assert_eq!(
        found,
        vec![vec![
            Some(b"kv".to_vec()),
            Some(0.01f64.to_be_bytes().to_vec()),
            Some(864000i32.to_be_bytes().to_vec()),
            Some(b"99PERCENTILE".to_vec()),
        ]]
    );
    let found = rows(
        &mut c,
        &mut s,
        "SELECT column_name, kind, position, type FROM system_schema.columns WHERE keyspace_name = 'shop' AND table_name = 'kv'",
    );
    assert_eq!(
        found,
        vec![
            vec![
                Some(b"k".to_vec()),
                Some(b"partition_key".to_vec()),
                Some(0i32.to_be_bytes().to_vec()),
                Some(b"text".to_vec()),
            ],
            vec![
                Some(b"v".to_vec()),
                Some(b"regular".to_vec()),
                Some((-1i32).to_be_bytes().to_vec()),
                Some(b"map<text, int>".to_vec()),
            ],
        ]
    );
    does(&mut c, &mut s, "DROP TABLE kv");
    for table in ["tables", "columns"] {
        let text =
            format!("SELECT * FROM system_schema.{table} WHERE keyspace_name = 'shop'");
        assert_eq!(rows(&mut c, &mut s, &text).len(), 0);
    }
    does(&mut c, &mut s, "CREATE TABLE kv (k text PRIMARY KEY)");
    does(&mut c, &mut s, "INSERT INTO kv (k) VALUES ('x')");
    assert_eq!(does(&mut c, &mut s, "DROP KEYSPACE shop"), RESULT_SCHEMA_CHANGE);
    for table in ["keyspaces", "tables", "columns"] {
        let text =
            format!("SELECT * FROM system_schema.{table} WHERE keyspace_name = 'shop'");
        assert_eq!(rows(&mut c, &mut s, &text).len(), 0);
    }
    assert!(s.look_up_keyspace("shop").is_none());
    assert!(s.look_up_table("shop", "kv").is_none());
    let (op, _) = c.query(&mut s, &format!("CREATE KEYSPACE shop{CREATE}"));
    assert_eq!(op, OPCODE_RESULT);
    does(&mut c, &mut s, "CREATE TABLE shop.kv (k text PRIMARY KEY)");
    assert_eq!(rows(&mut c, &mut s, "SELECT * FROM shop.kv").len(), 0);
}

#[test]
fn literals_of_every_type() {
    let mut s = Server::open(1);
    let mut c = ready_client(&mut s, "ks");
    does(
        &mut c,
        &mut s,
        "CREATE TABLE t (k int PRIMARY KEY, a bigint, b smallint, c tinyint, d float, e double, f boolean, g text, h blob, i timestamp, j uuid, l inet, m set<text>, n map<text, int>)",
    );
    does(
        &mut c,
        &mut s,
        "INSERT INTO t (k, a, b, c, d, e, f, g, h, i, j, m, n) VALUES (1, 2, 3, 4, 0.5, 0.25, true, 'hi', 0x0AFF, 5, 01234567-89ab-cdef-0123-456789abcdef, {'p', 'q'}, {'r': 6})",
    );
    let row = rows(&mut c, &mut s, "SELECT a, b, c, d, e, f, g, h, i, j, l, m, n FROM t WHERE k = 1").remove(0);
    assert_eq!(row[0], Some(2i64.to_be_bytes().to_vec()));
    assert_eq!(row[1], Some(3i16.to_be_bytes().to_vec()));
    assert_eq!(row[2], Some(vec![4]));
    assert_eq!(row[3], Some(0.5f32.to_be_bytes().to_vec()));
    assert_eq!(row[4], Some(0.25f64.to_be_bytes().to_vec()));
    assert_eq!(row[5], Some(vec![1]));
    assert_eq!(row[6], Some(b"hi".to_vec()));
    assert_eq!(row[7], Some(vec![0x0A, 0xFF]));
    assert_eq!(row[8], Some(5i64.to_be_bytes().to_vec()));
    assert_eq!(
        row[9],
        Some(vec![
            0x01, 0x23, 0x45, 0x67, 0x89, 0xab, 0xcd, 0xef, 0x01, 0x23, 0x45, 0x67, 0x89, 0xab,
            0xcd, 0xef
        ])
    );
    assert_eq!(row[10], None);
    assert_eq!(row[11], Some(wire_set_text(&["p", "q"])));
    let mut map = 1i32.to_be_bytes().to_vec();
    map.extend(wire_value(b"r"));
    map.extend(wire_value(&6i32.to_be_bytes()));
    assert_eq!(row[12], Some(map));
    // An address is bound: as a literal it would stand in quotes.
    assert_eq!(
        fails(&mut c, &mut s, "INSERT INTO t (k, l) VALUES (1, '10.0.0.1')"),
        (0x2200, "cannot parse ''10.0.0.1'' as inet".to_string())
    );
    let body = query_body(
        "UPDATE t SET l = ? WHERE k = ?",
        &[wire_value(&[10, 0, 0, 1]), wire_value(&1i32.to_be_bytes())],
    );
    let (op, _) = c.raw_request(&mut s, 0x07, &body);
    assert_eq!(op, OPCODE_RESULT);
    assert_eq!(
        rows(&mut c, &mut s, "SELECT l FROM t WHERE k = 1"),
        vec![vec![Some(vec![10, 0, 0, 1])]]
    );
}

fn compressed_startup(s: &mut Server, name: &str) -> (Connection, Vec<u8>) {
    let mut options = HashMap::new();
    options.insert(Cow::Borrowed("CQL_VERSION"), Cow::Borrowed("3.4.5"));
    options.insert(Cow::Borrowed("COMPRESSION"), Cow::Owned(name.to_string()));
    let req = SerializedRequest::make(&Startup { options }, None, false).unwrap();
    let mut conn = Connection::new();
    let out = s.answer(&mut conn, req.get_data()).unwrap();
    (conn, out)
}

#[test]
fn compressed_sessions() {
    let mut s = Server::open(2);
    for (name, algorithm) in [("LZ4", Compression::Lz4), ("snappy", Compression::Snappy)] {
        let (mut conn, out) = compressed_startup(&mut s, name);
        assert_eq!(out[4], OPCODE_READY);
        assert_eq!(out[1], 0x01);
        assert_eq!(scylla_cql::frame::decompress(&out[9..], algorithm).unwrap(), Vec::<u8>::new());
        let req = SerializedRequest::make(
            &Query {
                contents: Cow::Borrowed("SELECT * FROM system_schema.tables"),
                parameters: QueryParameters::default(),
            },
            Some(algorithm),
            false,
        )
        .unwrap();
        let out = s.answer(&mut conn, req.get_data()).unwrap();
        assert_eq!(out[1], 0x01);
        assert_eq!(out[4], OPCODE_RESULT);
        let body = scylla_cql::frame::decompress(&out[9..], algorithm).unwrap();
        assert_ne!(body, out[9..].to_vec());
        assert_eq!(parse_result(&body).0, RESULT_ROWS);
        // A body that cannot be decompressed closes the connection.
        let mut broken = Vec::new();
        broken.extend_from_slice(&write_frame(0x04, 0x01, 0, 0x07, &[0xFF, 0xFF]));
        assert!(s.answer(&mut conn, &broken).is_none());
    }
    let (conn, out) = compressed_startup(&mut s, "ZSTD");
    assert_eq!(out[4], OPCODE_ERROR);
    assert_eq!(
        error_of(&out[9..]),
        (0x000A, "Unsupported compression algorithm: zstd".to_string())
    );
    assert!(conn.compression().is_none());
}

#[test]
fn session_keyspace_follows_use() {
    let mut s = Server::open(1);
    let mut a = ready_client(&mut s, "one");
    let b = Client::connect();
    assert_eq!(a.conn.keyspace(), Some("one".to_string()));
    assert_eq!(b.conn.keyspace(), None);
    does(&mut a, &mut s, &format!("CREATE KEYSPACE two{CREATE}"));
    does(&mut a, &mut s, "USE two");
    assert_eq!(a.conn.keyspace(), Some("two".to_string()));
    assert_eq!(fails(&mut a, &mut s, "USE three").0, 0x2200);
    assert_eq!(a.conn.keyspace(), Some("two".to_string()));
}

#[test]
fn seeded_ids_are_random() {
    let ids: Vec<Vec<u8>> = (0..2)
        .map(|_| {
            let mut s = Server::open(3);
            let mut c = Client::connect();
            c.startup(&mut s);
            let mut found = rows(
                &mut c,
                &mut s,
                "SELECT host_id, schema_version, cluster_name FROM system.local WHERE key = 'local'",
            );
            assert_eq!(found.len(), 1);
            let row = found.remove(0);
            assert_ne!(row[0], row[1]);
            assert_eq!(row[2], Some(b"RhydaDB Cluster".to_vec()));
            row[0].clone().unwrap()
        })
        .collect();
    assert_ne!(ids[0], ids[1]);
    for id in ids {
        assert_eq!(id.len(), 16);
        assert_eq!(id[6] >> 4, 4);
        assert_eq!(id[8] >> 6, 2);
    }
}

#[test]
fn dropped_tables_are_described_no_more() {
    for engines in 1..=8 {
        let mut s = Server::open(engines);
        let mut c = ready_client(&mut s, "ks");
        does(&mut c, &mut s, "CREATE TABLE t (a int PRIMARY KEY, b int)");
        does(&mut c, &mut s, "CREATE TABLE u (a int PRIMARY KEY)");
        let columns = "SELECT column_name FROM system_schema.columns WHERE keyspace_name = 'ks'";
        let tables = "SELECT table_name FROM system_schema.tables WHERE keyspace_name = 'ks'";
        assert_eq!(rows(&mut c, &mut s, columns).len(), 3);
        assert_eq!(rows(&mut c, &mut s, tables).len(), 2);
        does(&mut c, &mut s, "DROP TABLE t");
        assert_eq!(rows(&mut c, &mut s, columns), vec![vec![Some(b"a".to_vec())]]);
        assert_eq!(rows(&mut c, &mut s, tables), vec![vec![Some(b"u".to_vec())]]);
        does(&mut c, &mut s, "DROP KEYSPACE ks");
        assert_eq!(rows(&mut c, &mut s, columns).len(), 0);
        assert_eq!(rows(&mut c, &mut s, tables).len(), 0);
        let keyspaces =
            "SELECT keyspace_name FROM system_schema.keyspaces WHERE keyspace_name = 'ks'";
        assert_eq!(rows(&mut c, &mut s, keyspaces).len(), 0);
    }
}

#[test]
fn key_columns_in_any_order() {
    for engines in [1, 2, 4, 8] {
        let mut s = Server::open(engines);
        let mut c = ready_client(&mut s, "k");
        let int = |n: i32| Some(n.to_be_bytes().to_vec());
        does(&mut c, &mut s, "CREATE TABLE k.t (a int, b int, v int, PRIMARY KEY (b, a))");
        does(&mut c, &mut s, "INSERT INTO k.t (a, b, v) VALUES (1, 2, 3)");
        let all = "SELECT a, b, v FROM k.t";
        assert_eq!(rows(&mut c, &mut s, all), vec![vec![int(1), int(2), int(3)]]);
        assert_eq!(
            rows(&mut c, &mut s, "SELECT v FROM k.t WHERE b = 2 AND a = 1"),
            vec![vec![int(3)]]
        );
        assert_eq!(rows(&mut c, &mut s, "SELECT v FROM k.t WHERE b = 1").len(), 0);
        // An update sets what it names, keeps the key, and leaves other rows.
        does(&mut c, &mut s, "INSERT INTO k.t (a, b, v) VALUES (5, 2, 6)");
        does(&mut c, &mut s, "UPDATE k.t SET v = 4 WHERE a = 1 AND b = 2");
        does(&mut c, &mut s, "UPDATE k.t SET v = 9 WHERE a = 7 AND b = 8");
        assert_eq!(
            rows(&mut c, &mut s, all),
            vec![
                vec![int(1), int(2), int(4)],
                vec![int(5), int(2), int(6)],
                vec![int(7), int(8), int(9)],
            ]
        );
    }
}

#[test]
fn whole_tables_are_read_in_key_order() {
    for engines in 1..=8 {
        let mut s = Server::open(engines);
        let mut c = ready_client(&mut s, "ks");
        does(&mut c, &mut s, "CREATE TABLE t (a int PRIMARY KEY, even int)");
        for a in [17, 3, 40, 8, 25, 1, 33, 12] {
            does(&mut c, &mut s, &format!("INSERT INTO t (a, even) VALUES ({a}, {})", a % 2));
        }
        let int = |n: i32| vec![Some(n.to_be_bytes().to_vec())];
        assert_eq!(
            rows(&mut c, &mut s, "SELECT a FROM t"),
            vec![int(1), int(3), int(8), int(12), int(17), int(25), int(33), int(40)]
        );
        assert_eq!(
            rows(&mut c, &mut s, "SELECT a FROM t WHERE even = 0"),
            vec![int(8), int(12), int(40)]
        );
        assert_eq!(
            rows(&mut c, &mut s, "SELECT a FROM t WHERE even = 1 LIMIT 3"),
            vec![int(1), int(3), int(17)]
        );
        // Listed partitions come in the order of the list.
        assert_eq!(
            rows(&mut c, &mut s, "SELECT a FROM t WHERE a IN (40, 2, 1) AND even IN (0, 1)"),
            vec![int(40), int(1)]
        );
        assert_eq!(
            rows(&mut c, &mut s, "SELECT a FROM t WHERE a IN (40, 2, 1) LIMIT 1"),
            vec![int(40)]
        );
    }
}

#[test]
fn reading_stops_at_the_limit() {
    let mut s = Server::open(4);
    let mut c = ready_client(&mut s, "ks");
    does(&mut c, &mut s, "CREATE TABLE t (a int, b int, v int, PRIMARY KEY (a, b))");
    for a in 0..3 {
        for b in 0..4 {
            does(&mut c, &mut s, &format!("INSERT INTO t (a, b, v) VALUES ({a}, {b}, {})", b % 2));
        }
    }
    let int = |n: i32| Some(n.to_be_bytes().to_vec());
    for (text, read, given) in [
        ("SELECT a, b FROM t WHERE a IN (2, 1) LIMIT 1", 1, vec![(2, 0)]),
        ("SELECT a, b FROM t WHERE a IN (2, 1) AND v = 1 LIMIT 1", 2, vec![(2, 1)]),
        ("SELECT a, b FROM t WHERE a IN (2, 1) AND v = 1 LIMIT 3", 6, vec![(2, 1), (2, 3), (1, 1)]),
        ("SELECT a, b FROM t WHERE a IN (2, 1) AND v = 7 LIMIT 3", 8, vec![]),
        ("SELECT a, b FROM t WHERE a = 0 AND b = 3", 4, vec![(0, 3)]),
        ("SELECT a, b FROM t LIMIT 2", 12, vec![(0, 0), (0, 1)]),
    ] {
        let expected: Vec<_> = given.iter().map(|(a, b)| vec![int(*a), int(*b)]).collect();
        assert_eq!(rows(&mut c, &mut s, text), expected, "{text}");
        assert_eq!(s.rows_read, read, "{text}");
    }
}

#[test]
fn numbers_out_of_range_are_syntax_errors() {
    let mut s = Server::open(2);
    let mut c = ready_client(&mut s, "ks");
    does(&mut c, &mut s, "CREATE TABLE t (a int PRIMARY KEY, v int)");
    does(&mut c, &mut s, "INSERT INTO t (a, v) VALUES (1, 2)");
    let refused = (0x2000, "line 1: syntax error in statement".to_string());
    for text in [
        "SELECT * FROM t LIMIT 2147483648",
        "SELECT * FROM t LIMIT 99999999999999999999",
        "INSERT INTO t (a, v) VALUES (1, 2) USING TTL 18446744073709551616",
        "INSERT INTO t (a, v) VALUES (1, 2) USING TIMESTAMP 18446744073709551616",
        "UPDATE t USING TTL 18446744073709551616 SET v = 3 WHERE a = 1",
        "DELETE FROM t USING TIMESTAMP 18446744073709551616 WHERE a = 1",
        "LIST ALL  PERMISSIONS",
        "SELECT * FROM",
        "SELECT * FROM t WHERE",
        "INSERT INTO t (a, v) VALUES (1",
        "nonsense",
        "",
    ] {
        assert_eq!(fails(&mut c, &mut s, text), refused, "{text}");
    }
    assert_eq!(rows(&mut c, &mut s, "SELECT * FROM t LIMIT 2147483647").len(), 1);
    does(&mut c, &mut s, "INSERT INTO t (a, v) VALUES (2, 2) USING TTL 18446744073709551615");
}

#[test]
fn metadata_is_left_out_where_it_may_be() {
    for may_skip in [true, false] {
        let mut s = Server::open(2);
        s.may_skip = may_skip;
        let mut c = ready_client(&mut s, "ks");
        does(&mut c, &mut s, "CREATE TABLE t (a int PRIMARY KEY)");
        let mut body = long_string("SELECT a FROM t");
        body.extend_from_slice(&1u16.to_be_bytes());
        body.push(0x02);
        let (op, out) = c.raw_request(&mut s, 0x07, &body);
        assert_eq!(op, OPCODE_RESULT);
        let flags = i32::from_be_bytes([out[4], out[5], out[6], out[7]]);
        assert_eq!(flags, if may_skip { 0 } else { 1 });
        // An execution leaves it out whenever it asks for that.
        let (_, body) = c.raw_request(&mut s, 0x09, &long_string("SELECT a FROM t"));
        let id = client::prepared_id(&body).unwrap();
        let (op, out) = c.raw_request(&mut s, 0x0A, &execute_body(&id, &[], true));
        assert_eq!(op, OPCODE_RESULT);
        let flags = i32::from_be_bytes([out[4], out[5], out[6], out[7]]);
        assert_eq!(flags, 0);
    }
}

#[test]
fn executions_run_like_queries() {
    let mut s = Server::open(4);
    let mut c = ready_client(&mut s, "shop");
    does(&mut c, &mut s, "CREATE TABLE kv (k text PRIMARY KEY, v text)");
    let insert = "INSERT INTO kv (k, v) VALUES (?, ?)";
    let (_, body) = c.raw_request(&mut s, 0x09, &long_string(insert));
    let id = client::prepared_id(&body).unwrap();
    let (op, _) = c.raw_request(
        &mut s,
        0x0A,
        &execute_body(&id, &[b"hello".to_vec(), b"world".to_vec()], false),
    );
    assert_eq!(op, OPCODE_RESULT);
    let (op, _) = c.raw_request(
        &mut s,
        0x07,
        &query_body(insert, &[wire_value(b"other"), wire_value(b"world")]),
    );
    assert_eq!(op, OPCODE_RESULT);
    for k in ["hello", "other"] {
        assert_eq!(
            rows(&mut c, &mut s, &format!("SELECT * FROM kv WHERE k = '{k}'")),
            vec![vec![Some(k.as_bytes().to_vec()), Some(b"world".to_vec())]]
        );
    }
}
