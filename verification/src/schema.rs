//! Keyspaces, tables and column types.

use crate::bytes::{be16, put_u16};
use crate::text::{
    ascii_lowercase, copy_texts, index_in, join3, join5, lemma_index_in, lemma_index_is, lower_text,
    lowercase, position_of, same_ignoring_ascii_case, same_text, texts,
};
use cql3_parser::common::{ColumnDefinition, DataTypeName, Identifier};
use cql3_parser::create_table::CreateTable;
use vstd::prelude::*;
use vstd::utf8::is_ascii_chars;

verus! {

/// The type of a column.
#[derive(Debug, PartialEq, Eq)]
pub enum ColumnType {
    Int,
    BigInt,
    SmallInt,
    TinyInt,
    Float,
    Double,
    Boolean,
    Text,
    Blob,
    Timestamp,
    Uuid,
    Inet,
    SetOf(Box<ColumnType>),
    List(Box<ColumnType>),
    MapOf(Box<ColumnType>, Box<ColumnType>),
}

impl Clone for ColumnType {
    fn clone(&self) -> (r: Self)
        ensures
            r == *self,
        decreases self,
    {
        match self {
            ColumnType::Int => ColumnType::Int,
            ColumnType::BigInt => ColumnType::BigInt,
            ColumnType::SmallInt => ColumnType::SmallInt,
            ColumnType::TinyInt => ColumnType::TinyInt,
            ColumnType::Float => ColumnType::Float,
            ColumnType::Double => ColumnType::Double,
            ColumnType::Boolean => ColumnType::Boolean,
            ColumnType::Text => ColumnType::Text,
            ColumnType::Blob => ColumnType::Blob,
            ColumnType::Timestamp => ColumnType::Timestamp,
            ColumnType::Uuid => ColumnType::Uuid,
            ColumnType::Inet => ColumnType::Inet,
            ColumnType::SetOf(e) => ColumnType::SetOf(Box::new((**e).clone())),
            ColumnType::List(e) => ColumnType::List(Box::new((**e).clone())),
            ColumnType::MapOf(k, v) => ColumnType::MapOf(
                Box::new((**k).clone()),
                Box::new((**v).clone()),
            ),
        }
    }
}

/// The number by which the wire protocol calls a type.
pub open spec fn type_code(t: ColumnType) -> u16 {
    match t {
        ColumnType::Int => 0x0009,
        ColumnType::BigInt => 0x0002,
        ColumnType::SmallInt => 0x0013,
        ColumnType::TinyInt => 0x0014,
        ColumnType::Float => 0x0008,
        ColumnType::Double => 0x0007,
        ColumnType::Boolean => 0x0004,
        ColumnType::Text => 0x000D,
        ColumnType::Blob => 0x0003,
        ColumnType::Timestamp => 0x000B,
        ColumnType::Uuid => 0x000C,
        ColumnType::Inet => 0x0010,
        ColumnType::SetOf(_) => 0x0022,
        ColumnType::List(_) => 0x0020,
        ColumnType::MapOf(_, _) => 0x0021,
    }
}

/// A type in result metadata: its number, and for a collection the numbers of
/// its element types.
pub open spec fn wire_type(t: ColumnType) -> Seq<u8> {
    match t {
        ColumnType::SetOf(e) => be16(type_code(t)) + be16(type_code(*e)),
        ColumnType::List(e) => be16(type_code(t)) + be16(type_code(*e)),
        ColumnType::MapOf(k, v) => be16(type_code(t)) + be16(type_code(*k)) + be16(type_code(*v)),
        _ => be16(type_code(t)),
    }
}

/// A type as CQL writes it.
pub open spec fn type_text(t: ColumnType) -> Seq<char>
    decreases t,
{
    match t {
        ColumnType::Int => "int"@,
        ColumnType::BigInt => "bigint"@,
        ColumnType::SmallInt => "smallint"@,
        ColumnType::TinyInt => "tinyint"@,
        ColumnType::Float => "float"@,
        ColumnType::Double => "double"@,
        ColumnType::Boolean => "boolean"@,
        ColumnType::Text => "text"@,
        ColumnType::Blob => "blob"@,
        ColumnType::Timestamp => "timestamp"@,
        ColumnType::Uuid => "uuid"@,
        ColumnType::Inet => "inet"@,
        ColumnType::SetOf(e) => "set<"@ + type_text(*e) + ">"@,
        ColumnType::List(e) => "list<"@ + type_text(*e) + ">"@,
        ColumnType::MapOf(k, v) => "map<"@ + type_text(*k) + ", "@ + type_text(*v) + ">"@,
    }
}

/// The name that the text of a type begins with.
#[verifier::opaque]
spec fn type_head(t: ColumnType) -> Seq<char> {
    match t {
        ColumnType::SetOf(_) => "set"@,
        ColumnType::List(_) => "list"@,
        ColumnType::MapOf(_, _) => "map"@,
        _ => type_text(t),
    }
}

/// What the text of a type has behind its name.
#[verifier::opaque]
spec fn type_tail(t: ColumnType) -> Seq<char> {
    match t {
        ColumnType::SetOf(e) => seq!['<'] + type_text(*e) + seq!['>'],
        ColumnType::List(e) => seq!['<'] + type_text(*e) + seq!['>'],
        ColumnType::MapOf(k, v) => seq!['<'] + type_text(*k) + seq![',', ' '] + type_text(*v) + seq![
            '>',
        ],
        _ => Seq::empty(),
    }
}

spec fn is_letter(c: char) -> bool {
    'a' <= c <= 'z'
}

spec fn all_letters(s: Seq<char>) -> bool {
    forall|i: int| 0 <= i < s.len() ==> is_letter(#[trigger] s[i])
}

proof fn lemma_reveal_type_names()
    ensures
        "int"@ == seq!['i', 'n', 't'],
        "bigint"@ == seq!['b', 'i', 'g', 'i', 'n', 't'],
        "smallint"@ == seq!['s', 'm', 'a', 'l', 'l', 'i', 'n', 't'],
        "tinyint"@ == seq!['t', 'i', 'n', 'y', 'i', 'n', 't'],
        "float"@ == seq!['f', 'l', 'o', 'a', 't'],
        "double"@ == seq!['d', 'o', 'u', 'b', 'l', 'e'],
        "boolean"@ == seq!['b', 'o', 'o', 'l', 'e', 'a', 'n'],
        "text"@ == seq!['t', 'e', 'x', 't'],
        "blob"@ == seq!['b', 'l', 'o', 'b'],
        "timestamp"@ == seq!['t', 'i', 'm', 'e', 's', 't', 'a', 'm', 'p'],
        "uuid"@ == seq!['u', 'u', 'i', 'd'],
        "inet"@ == seq!['i', 'n', 'e', 't'],
        "set"@ == seq!['s', 'e', 't'],
        "list"@ == seq!['l', 'i', 's', 't'],
        "map"@ == seq!['m', 'a', 'p'],
        "set<"@ == "set"@.push('<'),
        "list<"@ == "list"@.push('<'),
        "map<"@ == "map"@.push('<'),
        ", "@ == seq![',', ' '],
        ">"@ == seq!['>'],
{
    reveal_strlit("int");
    reveal_strlit("bigint");
    reveal_strlit("smallint");
    reveal_strlit("tinyint");
    reveal_strlit("float");
    reveal_strlit("double");
    reveal_strlit("boolean");
    reveal_strlit("text");
    reveal_strlit("blob");
    reveal_strlit("timestamp");
    reveal_strlit("uuid");
    reveal_strlit("inet");
    reveal_strlit("set");
    reveal_strlit("list");
    reveal_strlit("map");
    reveal_strlit("set<");
    reveal_strlit("list<");
    reveal_strlit("map<");
    reveal_strlit(", ");
    reveal_strlit(">");
    assert("int"@ =~= seq!['i', 'n', 't']);
    assert("bigint"@ =~= seq!['b', 'i', 'g', 'i', 'n', 't']);
    assert("smallint"@ =~= seq!['s', 'm', 'a', 'l', 'l', 'i', 'n', 't']);
    assert("tinyint"@ =~= seq!['t', 'i', 'n', 'y', 'i', 'n', 't']);
    assert("float"@ =~= seq!['f', 'l', 'o', 'a', 't']);
    assert("double"@ =~= seq!['d', 'o', 'u', 'b', 'l', 'e']);
    assert("boolean"@ =~= seq!['b', 'o', 'o', 'l', 'e', 'a', 'n']);
    assert("text"@ =~= seq!['t', 'e', 'x', 't']);
    assert("blob"@ =~= seq!['b', 'l', 'o', 'b']);
    assert("timestamp"@ =~= seq!['t', 'i', 'm', 'e', 's', 't', 'a', 'm', 'p']);
    assert("uuid"@ =~= seq!['u', 'u', 'i', 'd']);
    assert("inet"@ =~= seq!['i', 'n', 'e', 't']);
    assert("set"@ =~= seq!['s', 'e', 't']);
    assert("list"@ =~= seq!['l', 'i', 's', 't']);
    assert("map"@ =~= seq!['m', 'a', 'p']);
    assert("set<"@ =~= "set"@.push('<'));
    assert("list<"@ =~= "list"@.push('<'));
    assert("map<"@ =~= "map"@.push('<'));
    assert(", "@ =~= seq![',', ' ']);
    assert(">"@ =~= seq!['>']);
}

/// The text of a type is its name, in letters, and what is behind it.
proof fn lemma_type_text_parts(t: ColumnType)
    ensures
        type_text(t) == type_head(t) + type_tail(t),
        all_letters(type_head(t)),
        type_tail(t).len() == 0 || type_tail(t)[0] == '<',
{
    reveal(type_head);
    reveal(type_tail);
    lemma_reveal_type_names();
    match t {
        ColumnType::SetOf(e) => {
            assert(type_text(t) =~= type_head(t) + type_tail(t));
        },
        ColumnType::List(e) => {
            assert(type_text(t) =~= type_head(t) + type_tail(t));
        },
        ColumnType::MapOf(k, v) => {
            assert(type_text(t) =~= type_head(t) + type_tail(t));
        },
        _ => {
            assert(type_text(t) =~= type_head(t) + type_tail(t));
        },
    }
}

/// Types whose names are the same are types of one kind.
proof fn lemma_type_heads(a: ColumnType, b: ColumnType)
    requires
        type_head(a) == type_head(b),
    ensures
        match (a, b) {
            (ColumnType::SetOf(_), ColumnType::SetOf(_)) => true,
            (ColumnType::List(_), ColumnType::List(_)) => true,
            (ColumnType::MapOf(_, _), ColumnType::MapOf(_, _)) => true,
            _ => a == b,
        },
{
    reveal(type_head);
    lemma_reveal_type_names();
    let x = type_head(a);
    let y = type_head(b);
    assert(x.len() == y.len());
    assert(x[0] == y[0]);
    assert(x[1] == y[1]);
    assert(x[2] == y[2]);
}

/// Letters end where something else begins.
proof fn lemma_letters_split(x: Seq<char>, s: Seq<char>, y: Seq<char>, t: Seq<char>)
    requires
        x + s == y + t,
        all_letters(x),
        all_letters(y),
        s.len() == 0 || !is_letter(s[0]),
        t.len() == 0 || !is_letter(t[0]),
    ensures
        x == y,
        s == t,
{
    let n = x.len() as int;
    let m = y.len() as int;
    if n < m {
        assert((x + s)[n] == s[0]);
        assert((y + t)[n] == y[n]);
    }
    if m < n {
        assert((y + t)[m] == t[0]);
        assert((x + s)[m] == x[m]);
    }
    assert(x =~= (x + s).take(n));
    assert(y =~= (y + t).take(m));
    assert(s =~= (x + s).skip(n));
    assert(t =~= (y + t).skip(m));
}

proof fn lemma_behind(front: Seq<char>, s: Seq<char>, t: Seq<char>)
    requires
        front + s == front + t,
    ensures
        s == t,
{
    assert(s =~= (front + s).skip(front.len() as int));
    assert(t =~= (front + t).skip(front.len() as int));
}

proof fn lemma_within_brackets(e: Seq<char>, s: Seq<char>, f: Seq<char>, t: Seq<char>)
    requires
        seq!['<'] + e + seq!['>'] + s == seq!['<'] + f + seq!['>'] + t,
    ensures
        e + (seq!['>'] + s) == f + (seq!['>'] + t),
{
    assert(seq!['<'] + e + seq!['>'] + s =~= seq!['<'] + (e + (seq!['>'] + s)));
    assert(seq!['<'] + f + seq!['>'] + t =~= seq!['<'] + (f + (seq!['>'] + t)));
    lemma_behind(seq!['<'], e + (seq!['>'] + s), f + (seq!['>'] + t));
}

/// Types whose texts begin alike have one name, and what is behind it is alike.
proof fn lemma_type_names(a: ColumnType, s: Seq<char>, b: ColumnType, t: Seq<char>)
    requires
        type_text(a) + s == type_text(b) + t,
        s.len() == 0 || s[0] == ',' || s[0] == '>',
        t.len() == 0 || t[0] == ',' || t[0] == '>',
    ensures
        type_head(a) == type_head(b),
        type_tail(a) + s == type_tail(b) + t,
{
    lemma_type_text_parts(a);
    lemma_type_text_parts(b);
    let p = type_tail(a) + s;
    let q = type_tail(b) + t;
    assert(type_head(a) + p =~= type_text(a) + s);
    assert(type_head(b) + q =~= type_text(b) + t);
    lemma_letters_split(type_head(a), p, type_head(b), q);
}

proof fn lemma_map_tails(
    k: Seq<char>,
    v: Seq<char>,
    s: Seq<char>,
    l: Seq<char>,
    w: Seq<char>,
    t: Seq<char>,
)
    requires
        seq!['<'] + k + seq![',', ' '] + v + seq!['>'] + s == seq!['<'] + l + seq![',', ' '] + w
            + seq!['>'] + t,
    ensures
        k + (seq![',', ' '] + (v + (seq!['>'] + s))) == l + (seq![',', ' '] + (w + (seq!['>'] + t))),
{
    let comma = seq![',', ' '];
    let kv = k + comma + v;
    let lw = l + comma + w;
    assert(seq!['<'] + k + comma + v + seq!['>'] + s =~= seq!['<'] + kv + seq!['>'] + s);
    assert(seq!['<'] + l + comma + w + seq!['>'] + t =~= seq!['<'] + lw + seq!['>'] + t);
    lemma_within_brackets(kv, s, lw, t);
    assert(kv + (seq!['>'] + s) =~= k + (comma + (v + (seq!['>'] + s))));
    assert(lw + (seq!['>'] + t) =~= l + (comma + (w + (seq!['>'] + t))));
}

/// Types whose texts begin alike are of one kind, and what is behind their names
/// is alike.
proof fn lemma_type_kinds(a: ColumnType, s: Seq<char>, b: ColumnType, t: Seq<char>)
    requires
        type_head(a) == type_head(b),
        type_tail(a) + s == type_tail(b) + t,
    ensures
        match a {
            ColumnType::SetOf(e) => b is SetOf && type_text(*e) + (seq!['>'] + s) == type_text(
                *b->SetOf_0,
            ) + (seq!['>'] + t),
            ColumnType::List(e) => b is List && type_text(*e) + (seq!['>'] + s) == type_text(
                *b->List_0,
            ) + (seq!['>'] + t),
            ColumnType::MapOf(k, v) => b is MapOf && type_text(*k) + (seq![',', ' '] + (type_text(
                *v,
            ) + (seq!['>'] + s))) == type_text(*b->MapOf_0) + (seq![',', ' '] + (type_text(
                *b->MapOf_1,
            ) + (seq!['>'] + t))),
            _ => a == b && s == t,
        },
{
    lemma_type_heads(a, b);
    reveal(type_tail);
    match a {
        ColumnType::SetOf(e) => {
            lemma_within_brackets(type_text(*e), s, type_text(*b->SetOf_0), t);
        },
        ColumnType::List(e) => {
            lemma_within_brackets(type_text(*e), s, type_text(*b->List_0), t);
        },
        ColumnType::MapOf(k, v) => {
            lemma_map_tails(
                type_text(*k),
                type_text(*v),
                s,
                type_text(*b->MapOf_0),
                type_text(*b->MapOf_1),
                t,
            );
        },
        _ => {
            assert(type_tail(a) + s =~= s);
            assert(type_tail(b) + t =~= t);
        },
    }
}

/// The text of a type, followed by nothing or by what can stand behind a type,
/// tells the type.
proof fn lemma_type_text_tells(a: ColumnType, s: Seq<char>, b: ColumnType, t: Seq<char>)
    requires
        type_text(a) + s == type_text(b) + t,
        s.len() == 0 || s[0] == ',' || s[0] == '>',
        t.len() == 0 || t[0] == ',' || t[0] == '>',
    ensures
        a == b,
        s == t,
    decreases a,
{
    lemma_type_names(a, s, b, t);
    lemma_type_kinds(a, s, b, t);
    match a {
        ColumnType::SetOf(e) => {
            lemma_type_text_tells(*e, seq!['>'] + s, *b->SetOf_0, seq!['>'] + t);
            lemma_behind(seq!['>'], s, t);
        },
        ColumnType::List(e) => {
            lemma_type_text_tells(*e, seq!['>'] + s, *b->List_0, seq!['>'] + t);
            lemma_behind(seq!['>'], s, t);
        },
        ColumnType::MapOf(k, v) => {
            let x = type_text(*v) + (seq!['>'] + s);
            let y = type_text(*b->MapOf_1) + (seq!['>'] + t);
            lemma_type_text_tells(*k, seq![',', ' '] + x, *b->MapOf_0, seq![',', ' '] + y);
            lemma_behind(seq![',', ' '], x, y);
            lemma_type_text_tells(*v, seq!['>'] + s, *b->MapOf_1, seq!['>'] + t);
            lemma_behind(seq!['>'], s, t);
        },
        _ => {},
    }
}

/// Different types are written differently.
pub proof fn law_type_texts_are_distinct(a: ColumnType, b: ColumnType)
    requires
        type_text(a) == type_text(b),
    ensures
        a == b,
{
    lemma_type_text_tells(a, Seq::empty(), b, Seq::empty());
}

/// The column type of a type name that stands alone.
pub open spec fn plain_type(name: DataTypeName) -> Option<ColumnType> {
    match name {
        DataTypeName::Int => Some(ColumnType::Int),
        DataTypeName::BigInt => Some(ColumnType::BigInt),
        DataTypeName::SmallInt => Some(ColumnType::SmallInt),
        DataTypeName::TinyInt => Some(ColumnType::TinyInt),
        DataTypeName::Float => Some(ColumnType::Float),
        DataTypeName::Double => Some(ColumnType::Double),
        DataTypeName::Boolean => Some(ColumnType::Boolean),
        DataTypeName::Text => Some(ColumnType::Text),
        DataTypeName::VarChar => Some(ColumnType::Text),
        DataTypeName::Ascii => Some(ColumnType::Text),
        DataTypeName::Blob => Some(ColumnType::Blob),
        DataTypeName::Timestamp => Some(ColumnType::Timestamp),
        DataTypeName::Uuid => Some(ColumnType::Uuid),
        DataTypeName::TimeUuid => Some(ColumnType::Uuid),
        DataTypeName::Inet => Some(ColumnType::Inet),
        _ => None,
    }
}

/// The type that the `i`-th type argument names.
pub open spec fn argument_type(definition: Seq<DataTypeName>, i: int) -> Option<ColumnType> {
    if 0 <= i < definition.len() {
        plain_type(definition[i])
    } else {
        None
    }
}

/// A collection type whose arguments start at `at`.
pub open spec fn collection_type(
    name: DataTypeName,
    definition: Seq<DataTypeName>,
    at: int,
) -> Option<ColumnType> {
    match (name, argument_type(definition, at), argument_type(definition, at + 1)) {
        (DataTypeName::Set, Some(e), _) => Some(ColumnType::SetOf(Box::new(e))),
        (DataTypeName::List, Some(e), _) => Some(ColumnType::List(Box::new(e))),
        (DataTypeName::Map, Some(k), Some(v)) => Some(ColumnType::MapOf(Box::new(k), Box::new(v))),
        _ => None,
    }
}

/// The column type that a declared type denotes. `frozen<..>` denotes what it
/// encloses.
pub open spec fn declared_type(name: DataTypeName, definition: Seq<DataTypeName>) -> Option<
    ColumnType,
> {
    match name {
        DataTypeName::Set => collection_type(name, definition, 0),
        DataTypeName::List => collection_type(name, definition, 0),
        DataTypeName::Map => collection_type(name, definition, 0),
        DataTypeName::Frozen => if definition.len() == 0 {
            None
        } else {
            match definition[0] {
                DataTypeName::Set => collection_type(definition[0], definition, 1),
                DataTypeName::List => collection_type(definition[0], definition, 1),
                DataTypeName::Map => collection_type(definition[0], definition, 1),
                _ => plain_type(definition[0]),
            }
        },
        _ => plain_type(name),
    }
}

impl ColumnType {
    pub fn wire_id(&self) -> (r: u16)
        ensures
            r == type_code(*self),
    {
        match self {
            ColumnType::Int => 0x0009,
            ColumnType::BigInt => 0x0002,
            ColumnType::SmallInt => 0x0013,
            ColumnType::TinyInt => 0x0014,
            ColumnType::Float => 0x0008,
            ColumnType::Double => 0x0007,
            ColumnType::Boolean => 0x0004,
            ColumnType::Text => 0x000D,
            ColumnType::Blob => 0x0003,
            ColumnType::Timestamp => 0x000B,
            ColumnType::Uuid => 0x000C,
            ColumnType::Inet => 0x0010,
            ColumnType::SetOf(_) => 0x0022,
            ColumnType::List(_) => 0x0020,
            ColumnType::MapOf(_, _) => 0x0021,
        }
    }

    pub fn write_wire_type(&self, buf: &mut Vec<u8>)
        ensures
            final(buf)@ == old(buf)@ + wire_type(*self),
    {
        put_u16(buf, self.wire_id());
        match self {
            ColumnType::SetOf(elem) => put_u16(buf, elem.wire_id()),
            ColumnType::List(elem) => put_u16(buf, elem.wire_id()),
            ColumnType::MapOf(k, v) => {
                put_u16(buf, k.wire_id());
                put_u16(buf, v.wire_id());
            },
            _ => {},
        }
        assert(buf@ =~= old(buf)@ + wire_type(*self));
    }

    pub fn cql_string(&self) -> (r: String)
        ensures
            r@ == type_text(*self),
        decreases self,
    {
        match self {
            ColumnType::Int => "int".to_owned(),
            ColumnType::BigInt => "bigint".to_owned(),
            ColumnType::SmallInt => "smallint".to_owned(),
            ColumnType::TinyInt => "tinyint".to_owned(),
            ColumnType::Float => "float".to_owned(),
            ColumnType::Double => "double".to_owned(),
            ColumnType::Boolean => "boolean".to_owned(),
            ColumnType::Text => "text".to_owned(),
            ColumnType::Blob => "blob".to_owned(),
            ColumnType::Timestamp => "timestamp".to_owned(),
            ColumnType::Uuid => "uuid".to_owned(),
            ColumnType::Inet => "inet".to_owned(),
            ColumnType::SetOf(e) => join3("set<", &e.cql_string(), ">"),
            ColumnType::List(e) => join3("list<", &e.cql_string(), ">"),
            ColumnType::MapOf(k, v) => join5("map<", &k.cql_string(), ", ", &v.cql_string(), ">"),
        }
    }

    fn from_plain(name: &DataTypeName) -> (r: Option<ColumnType>)
        ensures
            r == plain_type(*name),
    {
        match name {
            DataTypeName::Int => Some(ColumnType::Int),
            DataTypeName::BigInt => Some(ColumnType::BigInt),
            DataTypeName::SmallInt => Some(ColumnType::SmallInt),
            DataTypeName::TinyInt => Some(ColumnType::TinyInt),
            DataTypeName::Float => Some(ColumnType::Float),
            DataTypeName::Double => Some(ColumnType::Double),
            DataTypeName::Boolean => Some(ColumnType::Boolean),
            DataTypeName::Text => Some(ColumnType::Text),
            DataTypeName::VarChar => Some(ColumnType::Text),
            DataTypeName::Ascii => Some(ColumnType::Text),
            DataTypeName::Blob => Some(ColumnType::Blob),
            DataTypeName::Timestamp => Some(ColumnType::Timestamp),
            DataTypeName::Uuid => Some(ColumnType::Uuid),
            DataTypeName::TimeUuid => Some(ColumnType::Uuid),
            DataTypeName::Inet => Some(ColumnType::Inet),
            _ => None,
        }
    }

    fn from_argument(definition: &[DataTypeName], i: usize) -> (r: Option<ColumnType>)
        ensures
            r == argument_type(definition@, i as int),
    {
        if i < definition.len() {
            ColumnType::from_plain(&definition[i])
        } else {
            None
        }
    }

    fn from_collection(name: &DataTypeName, definition: &[DataTypeName], at: usize) -> (r: Option<
        ColumnType,
    >)
        requires
            at <= 1,
        ensures
            r == collection_type(*name, definition@, at as int),
    {
        match name {
            DataTypeName::Set => match ColumnType::from_argument(definition, at) {
                Some(e) => Some(ColumnType::SetOf(Box::new(e))),
                None => None,
            },
            DataTypeName::List => match ColumnType::from_argument(definition, at) {
                Some(e) => Some(ColumnType::List(Box::new(e))),
                None => None,
            },
            DataTypeName::Map => match ColumnType::from_argument(definition, at) {
                Some(k) => match ColumnType::from_argument(definition, at + 1) {
                    Some(v) => Some(ColumnType::MapOf(Box::new(k), Box::new(v))),
                    None => None,
                },
                None => None,
            },
            _ => None,
        }
    }

    /// The column type of a declared type, if the server has it.
    pub fn from_data_type(name: &DataTypeName, definition: &[DataTypeName]) -> (r: Option<
        ColumnType,
    >)
        ensures
            r == declared_type(*name, definition@),
    {
        match name {
            DataTypeName::Set => ColumnType::from_collection(name, definition, 0),
            DataTypeName::List => ColumnType::from_collection(name, definition, 0),
            DataTypeName::Map => ColumnType::from_collection(name, definition, 0),
            DataTypeName::Frozen => if definition.len() == 0 {
                None
            } else {
                match &definition[0] {
                    DataTypeName::Set => ColumnType::from_collection(&definition[0], definition, 1),
                    DataTypeName::List => ColumnType::from_collection(
                        &definition[0],
                        definition,
                        1,
                    ),
                    DataTypeName::Map => ColumnType::from_collection(&definition[0], definition, 1),
                    other => ColumnType::from_plain(other),
                }
            },
            _ => ColumnType::from_plain(name),
        }
    }
}

/// A column of a table.
#[derive(Debug)]
pub struct ColumnDef {
    pub name: String,
    pub col_type: ColumnType,
    pub is_partition_key: bool,
    pub is_clustering: bool,
}

/// What a column definition says.
pub struct ColumnView {
    pub name: Seq<char>,
    pub col_type: ColumnType,
    pub is_partition_key: bool,
    pub is_clustering: bool,
}

impl ColumnView {
    /// Whether the column's value is held in the row's key.
    pub open spec fn is_key(self) -> bool {
        self.is_partition_key || self.is_clustering
    }
}

impl View for ColumnDef {
    type V = ColumnView;

    open spec fn view(&self) -> ColumnView {
        ColumnView {
            name: self.name@,
            col_type: self.col_type,
            is_partition_key: self.is_partition_key,
            is_clustering: self.is_clustering,
        }
    }
}

impl Clone for ColumnDef {
    fn clone(&self) -> (r: Self)
        ensures
            r@ == self@,
    {
        ColumnDef {
            name: self.name.clone(),
            col_type: self.col_type.clone(),
            is_partition_key: self.is_partition_key,
            is_clustering: self.is_clustering,
        }
    }
}

/// The views of a list of columns.
pub open spec fn column_views(columns: Seq<ColumnDef>) -> Seq<ColumnView> {
    columns.map_values(|c: ColumnDef| c@)
}

/// The names of a list of columns.
pub open spec fn column_names(columns: Seq<ColumnView>) -> Seq<Seq<char>> {
    columns.map_values(|c: ColumnView| c.name)
}

/// A table: its columns and the names that make up its primary key.
#[derive(Debug)]
pub struct TableDef {
    pub keyspace: String,
    pub name: String,
    pub columns: Vec<ColumnDef>,
    pub partition_keys: Vec<String>,
    pub clustering_keys: Vec<String>,
}

/// What a table definition says.
#[verifier::ext_equal]
pub struct TableView {
    pub keyspace: Seq<char>,
    pub name: Seq<char>,
    pub columns: Seq<ColumnView>,
    pub partition_keys: Seq<Seq<char>>,
    pub clustering_keys: Seq<Seq<char>>,
}

impl TableView {
    /// The first column called `name`.
    pub open spec fn index_of(self, name: Seq<char>) -> Option<int> {
        index_in(column_names(self.columns), name)
    }

    /// The names of the key parts, in the order in which a key holds them.
    pub open spec fn key_names(self) -> Seq<Seq<char>> {
        self.partition_keys + self.clustering_keys
    }
}

impl View for TableDef {
    type V = TableView;

    open spec fn view(&self) -> TableView {
        TableView {
            keyspace: self.keyspace@,
            name: self.name@,
            columns: column_views(self.columns@),
            partition_keys: texts(self.partition_keys@),
            clustering_keys: texts(self.clustering_keys@),
        }
    }
}

fn copy_columns(columns: &Vec<ColumnDef>) -> (r: Vec<ColumnDef>)
    ensures
        column_views(r@) == column_views(columns@),
{
    let mut r: Vec<ColumnDef> = Vec::new();
    let mut i: usize = 0;
    while i < columns.len()
        invariant
            i <= columns@.len(),
            column_views(r@) == column_views(columns@).take(i as int),
        decreases columns@.len() - i,
    {
        let ghost before = r@;
        r.push(columns[i].clone());
        assert(column_views(r@) =~= column_views(before).push(columns@[i as int]@));
        i += 1;
        assert(column_views(r@) =~= column_views(columns@).take(i as int));
    }
    assert(column_views(r@) =~= column_views(columns@));
    r
}

impl Clone for TableDef {
    fn clone(&self) -> (r: Self)
        ensures
            r@ == self@,
    {
        TableDef {
            keyspace: self.keyspace.clone(),
            name: self.name.clone(),
            columns: copy_columns(&self.columns),
            partition_keys: copy_texts(&self.partition_keys),
            clustering_keys: copy_texts(&self.clustering_keys),
        }
    }
}

impl TableDef {
    /// The first column called `name`.
    pub fn column(&self, name: &str) -> (r: Option<&ColumnDef>)
        ensures
            match self@.index_of(name@) {
                Some(i) => r == Some(&self.columns@[i]) && r.unwrap()@ == self@.columns[i],
                None => r is None,
            },
    {
        match self.column_index(name) {
            Some(i) => Some(&self.columns[i]),
            None => None,
        }
    }

    /// The names of the key parts, in the order in which a key holds them.
    pub fn key_columns(&self) -> (r: Vec<String>)
        ensures
            texts(r@) == self@.key_names(),
    {
        let mut r: Vec<String> = copy_texts(&self.partition_keys);
        let ghost all = self@.key_names();
        let ghost n = self@.partition_keys.len() as int;
        let mut i: usize = 0;
        assert(texts(r@) =~= all.take(n));
        while i < self.clustering_keys.len()
            invariant
                i <= self.clustering_keys@.len(),
                all == self@.key_names(),
                n == self@.partition_keys.len(),
                texts(r@) == all.take(n + i),
            decreases self.clustering_keys@.len() - i,
        {
            let ghost before = r@;
            r.push(self.clustering_keys[i].clone());
            assert(texts(r@) =~= texts(before).push(all[n + i]));
            i += 1;
            assert(texts(r@) =~= all.take(n + i));
        }
        assert(texts(r@) =~= all);
        r
    }

    pub fn is_partition(&self, name: &str) -> (r: bool)
        ensures
            r == self@.partition_keys.contains(name@),
    {
        proof {
            lemma_index_in(self@.partition_keys, name@);
        }
        position_of(&self.partition_keys, name).is_some()
    }

    /// The index of the first column called `name`.
    pub fn column_index(&self, name: &str) -> (r: Option<usize>)
        ensures
            r == (match self@.index_of(name@) {
                Some(i) => Some(i as usize),
                None => None,
            }),
            r matches Some(i) ==> i < self.columns@.len() && self@.index_of(name@) == Some(i as int),
    {
        let ghost names = column_names(self@.columns);
        proof {
            lemma_index_in(names, name@);
        }
        let mut i: usize = 0;
        while i < self.columns.len()
            invariant
                i <= self.columns@.len(),
                names == column_names(self@.columns),
                forall|j: int| 0 <= j < i ==> #[trigger] names[j] != name@,
            decreases self.columns@.len() - i,
        {
            if same_text(&self.columns[i].name, name) {
                proof {
                    lemma_index_is(names, name@, i as int);
                }
                return Some(i);
            }
            i += 1;
        }
        None
    }
}

/// A keyspace and its replication options, as the statement wrote them.
#[derive(Debug)]
pub struct KeyspaceDef {
    pub name: String,
    pub replication: Vec<(String, String)>,
}

/// The texts of a list of pairs of strings.
pub open spec fn text_pairs(v: Seq<(String, String)>) -> Seq<(Seq<char>, Seq<char>)> {
    v.map_values(|p: (String, String)| (p.0@, p.1@))
}

/// What a keyspace definition says.
#[verifier::ext_equal]
pub struct KeyspaceView {
    pub name: Seq<char>,
    pub replication: Seq<(Seq<char>, Seq<char>)>,
}

impl View for KeyspaceDef {
    type V = KeyspaceView;

    open spec fn view(&self) -> KeyspaceView {
        KeyspaceView { name: self.name@, replication: text_pairs(self.replication@) }
    }
}

/// A copy of a list of pairs of strings.
pub fn copy_text_pairs(v: &Vec<(String, String)>) -> (r: Vec<(String, String)>)
    ensures
        text_pairs(r@) == text_pairs(v@),
{
    let mut r: Vec<(String, String)> = Vec::new();
    let mut i: usize = 0;
    while i < v.len()
        invariant
            i <= v@.len(),
            text_pairs(r@) == text_pairs(v@).take(i as int),
        decreases v@.len() - i,
    {
        let ghost before = r@;
        r.push((v[i].0.clone(), v[i].1.clone()));
        assert(text_pairs(r@) =~= text_pairs(before).push((v@[i as int].0@, v@[i as int].1@)));
        i += 1;
        assert(text_pairs(r@) =~= text_pairs(v@).take(i as int));
    }
    assert(text_pairs(r@) =~= text_pairs(v@));
    r
}

impl Clone for KeyspaceDef {
    fn clone(&self) -> (r: Self)
        ensures
            r@ == self@,
    {
        KeyspaceDef { name: self.name.clone(), replication: copy_text_pairs(&self.replication) }
    }
}

/// The name that an identifier denotes: quoted ones stand for themselves,
/// plain ones for their lower case.
pub open spec fn id_text(id: Identifier) -> Seq<char> {
    match id {
        Identifier::Quoted(s) => s@,
        Identifier::Unquoted(s) => lower_text(s@),
    }
}

pub fn norm_id(id: &Identifier) -> (r: String)
    ensures
        r@ == id_text(*id),
{
    match id {
        Identifier::Quoted(s) => s.clone(),
        Identifier::Unquoted(s) => lowercase(s),
    }
}

/// Whether `id` is `name`: case-sensitive for quoted identifiers,
/// ASCII-case-insensitive for plain ones.
pub open spec fn id_is(id: Identifier, name: Seq<char>) -> bool {
    match id {
        Identifier::Quoted(s) => s@ == name,
        Identifier::Unquoted(s) => ascii_lowercase(s@) == ascii_lowercase(name),
    }
}

/// Case-sensitive for quoted identifiers, ASCII-case-insensitive for plain
/// ones: [`norm_id`] compared with `name`, without allocating.
pub fn ident_eq(id: &Identifier, name: &str) -> (r: bool)
    ensures
        r == id_is(*id, name@),
{
    match id {
        Identifier::Quoted(s) => same_text(s, name),
        Identifier::Unquoted(s) => same_ignoring_ascii_case(s, name),
    }
}

/// On plain ASCII identifiers and lower-case names, and on all quoted
/// identifiers, [`ident_eq`] holds exactly when [`norm_id`] gives the name.
pub proof fn law_ident_eq_mirrors_norm_id(id: Identifier, name: Seq<char>)
    requires
        id matches Identifier::Unquoted(s) ==> is_ascii_chars(s@) && ascii_lowercase(name) == name,
    ensures
        id_is(id, name) <==> id_text(id) == name,
{
}

/// The names of a list of identifiers.
pub open spec fn id_texts(ids: Seq<Identifier>) -> Seq<Seq<char>> {
    ids.map_values(|id: Identifier| id_text(id))
}

pub fn norm_ids(ids: &Vec<Identifier>) -> (r: Vec<String>)
    ensures
        texts(r@) == id_texts(ids@),
{
    let mut r: Vec<String> = Vec::new();
    let mut i: usize = 0;
    while i < ids.len()
        invariant
            i <= ids@.len(),
            texts(r@) == id_texts(ids@).take(i as int),
        decreases ids@.len() - i,
    {
        let ghost before = r@;
        r.push(norm_id(&ids[i]));
        assert(texts(r@) =~= texts(before).push(id_text(ids@[i as int])));
        i += 1;
        assert(texts(r@) =~= id_texts(ids@).take(i as int));
    }
    assert(texts(r@) =~= id_texts(ids@));
    r
}

/// The partition key that `PRIMARY KEY (..)` names, if it stands alone.
pub open spec fn listed_partition(create: CreateTable) -> Seq<Seq<char>> {
    match create.key {
        Some(key) => id_texts(key.partition@),
        None => Seq::empty(),
    }
}

/// The clustering key that `PRIMARY KEY (..)` names.
pub open spec fn listed_clustering(create: CreateTable) -> Seq<Seq<char>> {
    match create.key {
        Some(key) => id_texts(key.clustering@),
        None => Seq::empty(),
    }
}

/// The type of a column definition.
pub open spec fn definition_type(cd: ColumnDefinition) -> Option<ColumnType> {
    declared_type(cd.data_type.name, cd.data_type.definition@)
}

/// The column that a column definition of a table makes.
pub open spec fn column_of(
    cd: ColumnDefinition,
    partition: Seq<Seq<char>>,
    clustering: Seq<Seq<char>>,
) -> ColumnView {
    let name = id_text(cd.name);
    let is_pk = cd.primary_key || partition.contains(name);
    ColumnView {
        name,
        col_type: definition_type(cd).unwrap(),
        is_partition_key: is_pk,
        is_clustering: !is_pk && clustering.contains(name),
    }
}

/// Whether every column of a table has a type that the server knows.
pub open spec fn types_supported(create: CreateTable) -> bool {
    forall|i: int|
        0 <= i < create.columns@.len() ==> definition_type(#[trigger] create.columns@[i]) is Some
}

pub open spec fn columns_of(create: CreateTable) -> Seq<ColumnView> {
    create.columns@.map_values(
        |cd: ColumnDefinition| column_of(cd, listed_partition(create), listed_clustering(create)),
    )
}

/// The names of the columns that are part of the partition key, in order.
pub open spec fn marked_partition(columns: Seq<ColumnView>) -> Seq<Seq<char>>
    decreases columns.len(),
{
    if columns.len() == 0 {
        Seq::empty()
    } else if columns.last().is_partition_key {
        marked_partition(columns.drop_last()).push(columns.last().name)
    } else {
        marked_partition(columns.drop_last())
    }
}

/// The table that a `CREATE TABLE` defines, unless a column type is unknown.
pub open spec fn table_of(
    keyspace: Seq<char>,
    table_name: Seq<char>,
    create: CreateTable,
) -> Option<TableView> {
    if types_supported(create) {
        let columns = columns_of(create);
        Some(
            TableView {
                keyspace,
                name: table_name,
                columns,
                partition_keys: if listed_partition(create).len() == 0 {
                    marked_partition(columns)
                } else {
                    listed_partition(create)
                },
                clustering_keys: listed_clustering(create),
            },
        )
    } else {
        None
    }
}

fn contains_text(v: &Vec<String>, name: &str) -> (r: bool)
    ensures
        r == texts(v@).contains(name@),
{
    proof {
        lemma_index_in(texts(v@), name@);
    }
    position_of(v, name).is_some()
}

/// The table that a `CREATE TABLE` defines, unless a column type is unknown.
pub fn build_table_def(keyspace: &str, table_name: &str, create: &CreateTable) -> (r: Option<
    TableDef,
>)
    ensures
        r is Some <==> table_of(keyspace@, table_name@, *create) is Some,
        r matches Some(t) ==> t@ == table_of(keyspace@, table_name@, *create).unwrap(),
{
    let mut partition_keys: Vec<String> = Vec::new();
    let mut clustering_keys: Vec<String> = Vec::new();
    if let Some(key) = &create.key {
        partition_keys = norm_ids(&key.partition);
        clustering_keys = norm_ids(&key.clustering);
    }
    assert(texts(partition_keys@) =~= listed_partition(*create));
    assert(texts(clustering_keys@) =~= listed_clustering(*create));
    let ghost expected = columns_of(*create);
    let mut columns: Vec<ColumnDef> = Vec::new();
    let mut i: usize = 0;
    while i < create.columns.len()
        invariant
            i <= create.columns@.len(),
            expected == columns_of(*create),
            texts(partition_keys@) == listed_partition(*create),
            texts(clustering_keys@) == listed_clustering(*create),
            column_views(columns@) == expected.take(i as int),
            forall|j: int|
                0 <= j < i ==> definition_type(#[trigger] create.columns@[j]) is Some,
        decreases create.columns@.len() - i,
    {
        let cd: &ColumnDefinition = &create.columns[i];
        let col_type: ColumnType = match ColumnType::from_data_type(
            &cd.data_type.name,
            &cd.data_type.definition,
        ) {
            Some(t) => t,
            None => {
                assert(definition_type(create.columns@[i as int]) is None);
                return None;
            },
        };
        let name: String = norm_id(&cd.name);
        let is_pk: bool = cd.primary_key || contains_text(&partition_keys, &name);
        let is_ck: bool = !is_pk && contains_text(&clustering_keys, &name);
        let ghost before = columns@;
        columns.push(
            ColumnDef { name, col_type, is_partition_key: is_pk, is_clustering: is_ck },
        );
        assert(column_views(columns@) =~= column_views(before).push(expected[i as int]));
        i += 1;
        assert(column_views(columns@) =~= expected.take(i as int));
    }
    assert(column_views(columns@) =~= expected);
    if partition_keys.len() == 0 {
        let mut marked: Vec<String> = Vec::new();
        let mut j: usize = 0;
        while j < columns.len()
            invariant
                j <= columns@.len(),
                column_views(columns@) == expected,
                texts(marked@) == marked_partition(expected.take(j as int)),
            decreases columns@.len() - j,
        {
            assert(expected.take(j + 1).drop_last() =~= expected.take(j as int));
            assert(expected[j as int] == columns@[j as int]@);
            if columns[j].is_partition_key {
                let ghost before = texts(marked@);
                marked.push(columns[j].name.clone());
                assert(texts(marked@) =~= before.push(expected[j as int].name));
            }
            j += 1;
        }
        assert(expected.take(j as int) =~= expected);
        partition_keys = marked;
    }
    let table: TableDef = TableDef {
        keyspace: keyspace.to_owned(),
        name: table_name.to_owned(),
        columns,
        partition_keys,
        clustering_keys,
    };
    assert(table@ =~= table_of(keyspace@, table_name@, *create).unwrap());
    Some(table)
}

} // verus!
