//! What the words of a statement denote: literals their values, type names their
//! types, identifiers their texts.

use crate::cql_value::{
    hex_bytes, hex_digits, is_hex_text, law_unescaping_undoes_quoting, literal_value,
    quoted_literal, reading_texts, LiteralReading, ValueView,
};
use crate::schema::{
    declared_type, definition_type, id_text, id_texts, marked_partition, table_of, type_text,
    ColumnType, ColumnView, TableView,
};
use crate::text::{
    all_digits, decimal, digits_value, in_class, integer_value, is_digit, is_white,
    lemma_index_is, lower_text, skip_back, skip_front, trimmed, unquoted, upper_text, without,
    CharClass,
};
use cql3_parser::common::{DataTypeName, Identifier};
use cql3_parser::create_table::CreateTable;
use vstd::arithmetic::div_mod::lemma_div_denominator;
use vstd::arithmetic::power::{lemma_pow0, lemma_pow1, lemma_pow_adds, lemma_pow_positive, pow};
use vstd::prelude::*;
use vstd::utf8::{encode_utf8, is_ascii_chars, is_ascii_chars_encode_utf8};

verus! {

/// A text in single quotes, with its own doubled, denotes itself in a text
/// column, character by character.
pub proof fn law_text_literals_denote_their_text(s: Seq<char>, readings: Seq<LiteralReading>)
    ensures
        literal_value(quoted_literal(s), ColumnType::Text, readings) == Ok::<
            ValueView,
            Seq<char>,
        >(ValueView::Text(s)),
{
    law_unescaping_undoes_quoting(s);
    let t = quoted_literal(s);
    assert(t.first() == '\'' && t.last() == '\'');
    assert(trimmed(t) == t);
}

/// Whether decimal digits, the most significant first, spell a number.
pub open spec fn numeral(s: Seq<char>, n: nat) -> bool {
    &&& s.len() > 0
    &&& n < pow(10, s.len())
    &&& forall|i: int|
        0 <= i < s.len() ==> #[trigger] s[i] as int == '0' as int + (n as int / pow(
            10,
            (s.len() - 1 - i) as nat,
        )) % 10
}

proof fn lemma_numeral(s: Seq<char>, n: nat)
    requires
        numeral(s, n),
    ensures
        all_digits(s),
        digits_value(s) == n,
    decreases s.len(),
{
    lemma_pow0(10);
    lemma_pow1(10);
    let len = s.len();
    assert(s[len - 1] as int == '0' as int + n as int % 10) by {
        assert((len - 1 - (len - 1)) as nat == 0);
        assert(n as int / 1 == n);
    }
    assert forall|i: int| 0 <= i < len implies is_digit(#[trigger] s[i]) by {}
    if len > 1 {
        let front = s.drop_last();
        let m = (n / 10) as nat;
        lemma_pow_adds(10, (len - 1) as nat, 1);
        assert(m < pow(10, (len - 1) as nat)) by {
            let p = pow(10, (len - 1) as nat);
            assert(n < p * 10);
        }
        assert forall|i: int| 0 <= i < front.len() implies #[trigger] front[i] as int == '0' as int
            + (m as int / pow(10, (front.len() - 1 - i) as nat)) % 10 by {
            let k = (front.len() - 1 - i) as nat;
            lemma_pow_positive(10, k);
            lemma_pow_adds(10, 1, k);
            lemma_div_denominator(n as int, 10, pow(10, k));
            assert((len - 1 - i) as nat == 1 + k);
            assert(s[i] == front[i]);
        }
        lemma_numeral(front, m);
        assert(digits_value(s) == m * 10 + n % 10);
    } else {
        assert(n < 10);
        assert(s.drop_last() =~= Seq::empty());
        assert(digits_value(s.drop_last()) == 0);
    }
}

proof fn lemma_numeral_literal(s: Seq<char>, n: nat)
    requires
        numeral(s, n),
    ensures
        trimmed(s) == s,
        trimmed(seq!['-'] + s) == seq!['-'] + s,
        integer_value(s, true) == Some(n as int),
        integer_value(seq!['-'] + s, true) == Some(-(n as int)),
{
    lemma_numeral(s, n);
    assert(is_digit(s[0]) && is_digit(s[s.len() - 1]));
    let t = seq!['-'] + s;
    assert(t.drop_first() =~= s);
    assert(t.last() == s.last());
    assert(t.first() == '-');
}

/// The value of an integer type, if there is one.
pub open spec fn integer_of(t: ColumnType, n: int) -> Option<ValueView> {
    match t {
        ColumnType::Int => if -0x8000_0000 <= n < 0x8000_0000 {
            Some(ValueView::Int(n as i32))
        } else {
            None
        },
        ColumnType::BigInt => if -0x8000_0000_0000_0000 <= n < 0x8000_0000_0000_0000 {
            Some(ValueView::BigInt(n as i64))
        } else {
            None
        },
        ColumnType::SmallInt => if -0x8000 <= n < 0x8000 {
            Some(ValueView::SmallInt(n as i16))
        } else {
            None
        },
        ColumnType::TinyInt => if -0x80 <= n < 0x80 {
            Some(ValueView::TinyInt(n as i8))
        } else {
            None
        },
        ColumnType::Timestamp => if -0x8000_0000_0000_0000 <= n < 0x8000_0000_0000_0000 {
            Some(ValueView::Timestamp(n as i64))
        } else {
            None
        },
        _ => None,
    }
}

/// Digits denote the number that they spell, behind a minus sign its negative,
/// in every column type that can hold it, and nothing in one that cannot.
pub proof fn law_integer_literals_denote_their_number(
    s: Seq<char>,
    n: nat,
    t: ColumnType,
    readings: Seq<LiteralReading>,
)
    requires
        numeral(s, n),
        t is Int || t is BigInt || t is SmallInt || t is TinyInt || t is Timestamp,
    ensures
        match integer_of(t, n as int) {
            Some(v) => literal_value(s, t, readings) == Ok::<ValueView, Seq<char>>(v),
            None => literal_value(s, t, readings) is Err,
        },
        match integer_of(t, -(n as int)) {
            Some(v) => literal_value(seq!['-'] + s, t, readings) == Ok::<ValueView, Seq<char>>(v),
            None => literal_value(seq!['-'] + s, t, readings) is Err,
        },
{
    lemma_numeral_literal(s, n);
}

/// A number is written in its digits, the most significant first, without
/// leading zeros.
pub proof fn law_decimals_are_numerals(n: nat)
    ensures
        numeral(decimal(n), n),
        n > 0 ==> decimal(n)[0] != '0',
    decreases n,
{
    lemma_pow0(10);
    lemma_pow1(10);
    let s = decimal(n);
    if n >= 10 {
        let m = (n / 10) as nat;
        law_decimals_are_numerals(m);
        let front = decimal(m);
        let len = s.len();
        lemma_pow_adds(10, (len - 1) as nat, 1);
        assert(n < pow(10, len)) by {
            let p = pow(10, (len - 1) as nat);
            assert(m < p);
            assert(n < p * 10);
        }
        assert forall|i: int| 0 <= i < len implies #[trigger] s[i] as int == '0' as int + (n as int
            / pow(10, (len - 1 - i) as nat)) % 10 by {
            if i < len - 1 {
                let k = (front.len() - 1 - i) as nat;
                lemma_pow_positive(10, k);
                lemma_pow_adds(10, 1, k);
                lemma_div_denominator(n as int, 10, pow(10, k));
                assert((len - 1 - i) as nat == 1 + k);
                assert(s[i] == front[i]);
            } else {
                assert(n as int / 1 == n);
            }
        }
        assert(s[0] == front[0]);
    } else {
        assert(n as int / 1 == n);
    }
}

/// Whether a text is a word in letters of either case; the word is given in
/// lower case.
pub open spec fn is_word(s: Seq<char>, word: Seq<char>) -> bool {
    s.len() == word.len() && forall|i: int|
        0 <= i < s.len() ==> #[trigger] s[i] == word[i] || s[i] as int == word[i] as int - 32
}

/// `true` and `false`, in either case, denote the truth values.
pub proof fn law_boolean_literals_denote_truth(s: Seq<char>, readings: Seq<LiteralReading>)
    ensures
        is_word(s, seq!['t', 'r', 'u', 'e']) ==> literal_value(s, ColumnType::Boolean, readings)
            == Ok::<ValueView, Seq<char>>(ValueView::Boolean(true)),
        is_word(s, seq!['f', 'a', 'l', 's', 'e']) ==> literal_value(
            s,
            ColumnType::Boolean,
            readings,
        ) == Ok::<ValueView, Seq<char>>(ValueView::Boolean(false)),
{
    reveal_strlit("TRUE");
    reveal_strlit("FALSE");
    if is_word(s, seq!['t', 'r', 'u', 'e']) || is_word(s, seq!['f', 'a', 'l', 's', 'e']) {
        assert(!is_white(s.first()) && !is_white(s.last()));
        assert(trimmed(s) == s);
        assert(is_ascii_chars(s));
        if is_word(s, seq!['t', 'r', 'u', 'e']) {
            assert(upper_text(s) =~= "TRUE"@);
        } else {
            assert(upper_text(s) =~= "FALSE"@);
            assert(upper_text(s).len() != "TRUE"@.len());
        }
    }
}

/// The number that a hexadecimal digit stands for.
pub open spec fn nibble(c: char) -> int {
    if '0' <= c <= '9' {
        c as int - '0' as int
    } else if 'a' <= c <= 'f' {
        c as int - 'a' as int + 10
    } else if 'A' <= c <= 'F' {
        c as int - 'A' as int + 10
    } else {
        -1
    }
}

/// Whether hexadecimal digits spell bytes, two for each.
pub open spec fn spells_bytes(s: Seq<char>, b: Seq<u8>) -> bool {
    s.len() == 2 * b.len() && (forall|i: int| 0 <= i < s.len() ==> nibble(#[trigger] s[i]) >= 0)
        && forall|i: int|
        0 <= i < b.len() ==> #[trigger] b[i] == 16 * nibble(s[2 * i]) + nibble(s[2 * i + 1])
}

proof fn lemma_hex(s: Seq<char>, b: Seq<u8>)
    requires
        spells_bytes(s, b),
    ensures
        is_hex_text(encode_utf8(s)),
        hex_bytes(encode_utf8(s)) == b,
        encode_utf8(s).len() == s.len(),
{
    assert(is_ascii_chars(s)) by {
        assert forall|i: int| 0 <= i < s.len() implies '\0' <= #[trigger] s[i] <= '\u{7f}' by {
            assert(nibble(s[i]) >= 0);
        }
    }
    is_ascii_chars_encode_utf8(s);
    let e = encode_utf8(s);
    assert forall|i: int| 0 <= i < e.len() implies crate::cql_value::is_hex(#[trigger] e[i])
        && crate::cql_value::hex_value(e[i]) == nibble(s[i]) by {
        assert(nibble(s[i]) >= 0);
        assert(s[i] as u8 == e[i]);
    }
    assert(hex_bytes(e) =~= b) by {
        assert forall|i: int| 0 <= i < b.len() implies hex_bytes(e)[i] == b[i] by {
            assert(crate::cql_value::hex_value(e[2 * i]) == nibble(s[2 * i]));
            assert(crate::cql_value::hex_value(e[2 * i + 1]) == nibble(s[2 * i + 1]));
        }
    }
}

/// Hexadecimal digits behind `0x` denote the bytes that they spell.
pub proof fn law_blob_literals_denote_their_bytes(
    s: Seq<char>,
    b: Seq<u8>,
    readings: Seq<LiteralReading>,
)
    requires
        spells_bytes(s, b),
    ensures
        literal_value(seq!['0', 'x'] + s, ColumnType::Blob, readings) == Ok::<
            ValueView,
            Seq<char>,
        >(ValueView::Blob(b)),
{
    let t = seq!['0', 'x'] + s;
    assert(t.first() == '0');
    assert(!is_white(t.last())) by {
        if s.len() > 0 {
            assert(t.last() == s[s.len() - 1]);
            assert(nibble(s[s.len() - 1]) >= 0);
        }
    }
    assert(trimmed(t) == t);
    assert(hex_digits(t) =~= s);
    lemma_hex(s, b);
}

proof fn lemma_without_plain(s: Seq<char>, c: char)
    requires
        forall|i: int| 0 <= i < s.len() ==> #[trigger] s[i] != c,
    ensures
        without(s, c) == s,
    decreases s.len(),
{
    if s.len() > 0 {
        let front = s.drop_last();
        assert forall|i: int| 0 <= i < front.len() implies #[trigger] front[i] != c by {
            assert(front[i] == s[i]);
        }
        lemma_without_plain(front, c);
        assert(s[s.len() - 1] != c);
        assert(s =~= front.push(s.last()));
    }
}

proof fn lemma_without_both(a: Seq<char>, b: Seq<char>, c: char)
    ensures
        without(a + b, c) == without(a, c) + without(b, c),
    decreases b.len(),
{
    if b.len() > 0 {
        lemma_without_both(a, b.drop_last(), c);
        assert((a + b).drop_last() =~= a + b.drop_last());
        assert(without(a + b, c) =~= without(a, c) + without(b, c));
    } else {
        assert(a + b =~= a);
        assert(without(a, c) + without(b, c) =~= without(a, c));
    }
}

/// The usual form of a UUID: its digits in groups with dashes between them.
pub open spec fn dashed(s: Seq<char>) -> Seq<char> {
    s.subrange(0, 8) + seq!['-'] + s.subrange(8, 12) + seq!['-'] + s.subrange(12, 16) + seq!['-']
        + s.subrange(16, 20) + seq!['-'] + s.subrange(20, 32)
}

/// The usual form of a UUID denotes the sixteen bytes that it spells.
pub proof fn law_uuid_literals_denote_their_bytes(
    s: Seq<char>,
    b: Seq<u8>,
    readings: Seq<LiteralReading>,
)
    requires
        b.len() == 16,
        spells_bytes(s, b),
    ensures
        literal_value(dashed(s), ColumnType::Uuid, readings) == Ok::<ValueView, Seq<char>>(
            ValueView::Uuid(b),
        ),
{
    let t = dashed(s);
    assert(nibble(s[0]) >= 0 && nibble(s[31]) >= 0);
    assert(t.first() == s[0] && t.last() == s[31]);
    assert(trimmed(t) == t);
    assert(unquoted(t) == t);
    assert forall|i: int| 0 <= i < s.len() implies #[trigger] s[i] != '-' by {
        assert(nibble(s[i]) >= 0);
    }
    let dash = seq!['-'];
    assert(without(dash, '-') =~= Seq::empty()) by {
        assert(dash.drop_last() =~= Seq::empty());
        assert(without(dash.drop_last(), '-') =~= Seq::empty());
    }
    let (g1, g2, g3, g4, g5) = (
        s.subrange(0, 8),
        s.subrange(8, 12),
        s.subrange(12, 16),
        s.subrange(16, 20),
        s.subrange(20, 32),
    );
    lemma_without_plain(g1, '-');
    lemma_without_plain(g2, '-');
    lemma_without_plain(g3, '-');
    lemma_without_plain(g4, '-');
    lemma_without_plain(g5, '-');
    lemma_without_both(g1, dash, '-');
    lemma_without_both(g1 + dash, g2, '-');
    lemma_without_both(g1 + dash + g2, dash, '-');
    lemma_without_both(g1 + dash + g2 + dash, g3, '-');
    lemma_without_both(g1 + dash + g2 + dash + g3, dash, '-');
    lemma_without_both(g1 + dash + g2 + dash + g3 + dash, g4, '-');
    lemma_without_both(g1 + dash + g2 + dash + g3 + dash + g4, dash, '-');
    lemma_without_both(g1 + dash + g2 + dash + g3 + dash + g4 + dash, g5, '-');
    assert(without(t, '-') =~= s);
    lemma_hex(s, b);
}

/// A literal of a floating-point number or of an address denotes what it was
/// first read as.
pub proof fn law_read_literals_denote_their_reading(
    readings: Seq<LiteralReading>,
    i: int,
    text: Seq<char>,
)
    requires
        0 <= i < readings.len(),
        text == readings[i].text@,
        forall|j: int| 0 <= j < i ==> (#[trigger] readings[j]).text@ != text,
        text.len() > 0,
        !is_white(text.first()),
        !is_white(text.last()),
    ensures
        match readings[i].float {
            Some(bits) => literal_value(text, ColumnType::Float, readings) == Ok::<
                ValueView,
                Seq<char>,
            >(ValueView::Float(bits)),
            None => literal_value(text, ColumnType::Float, readings) is Err,
        },
        match readings[i].double {
            Some(bits) => literal_value(text, ColumnType::Double, readings) == Ok::<
                ValueView,
                Seq<char>,
            >(ValueView::Double(bits)),
            None => literal_value(text, ColumnType::Double, readings) is Err,
        },
        match readings[i].inet {
            Some(a) => literal_value(text, ColumnType::Inet, readings) == Ok::<
                ValueView,
                Seq<char>,
            >(ValueView::Inet(a@)),
            None => literal_value(text, ColumnType::Inet, readings) is Err,
        },
{
    assert(trimmed(text) == text);
    let names = reading_texts(readings);
    assert forall|j: int| 0 <= j < i implies #[trigger] names[j] != text by {
        assert(names[j] == readings[j].text@);
    }
    assert(names[i] == text);
    lemma_index_is(names, text, i);
}

/// The name that CQL has for the type that a word of the grammar stands for:
/// `varchar` and `ascii` are `text`, `timeuuid` is `uuid`.
pub open spec fn scalar_name(name: DataTypeName) -> Option<Seq<char>> {
    match name {
        DataTypeName::Ascii => Some("text"@),
        DataTypeName::BigInt => Some("bigint"@),
        DataTypeName::Blob => Some("blob"@),
        DataTypeName::Boolean => Some("boolean"@),
        DataTypeName::Double => Some("double"@),
        DataTypeName::Float => Some("float"@),
        DataTypeName::Inet => Some("inet"@),
        DataTypeName::Int => Some("int"@),
        DataTypeName::SmallInt => Some("smallint"@),
        DataTypeName::Text => Some("text"@),
        DataTypeName::TimeUuid => Some("uuid"@),
        DataTypeName::Timestamp => Some("timestamp"@),
        DataTypeName::TinyInt => Some("tinyint"@),
        DataTypeName::Uuid => Some("uuid"@),
        DataTypeName::VarChar => Some("text"@),
        _ => None,
    }
}

/// The names of the scalar types in a list, if there are so many.
pub open spec fn argument_name(definition: Seq<DataTypeName>, i: int) -> Option<Seq<char>> {
    if i < definition.len() {
        scalar_name(definition[i])
    } else {
        None
    }
}

/// The text of the collection whose arguments stand in a list from `at` on.
pub open spec fn collection_name(
    name: DataTypeName,
    definition: Seq<DataTypeName>,
    at: int,
) -> Option<Seq<char>> {
    match (argument_name(definition, at), argument_name(definition, at + 1)) {
        (Some(a), _) if name is Set => Some("set<"@ + a + ">"@),
        (Some(a), _) if name is List => Some("list<"@ + a + ">"@),
        (Some(a), Some(b)) if name is Map => Some("map<"@ + a + ", "@ + b + ">"@),
        _ => None,
    }
}

/// The text of the type that a column definition declares.
pub open spec fn declared_name(name: DataTypeName, definition: Seq<DataTypeName>) -> Option<
    Seq<char>,
> {
    if name is Set || name is List || name is Map {
        collection_name(name, definition, 0)
    } else if name is Frozen && definition.len() > 0 {
        if definition[0] is Set || definition[0] is List || definition[0] is Map {
            collection_name(definition[0], definition, 1)
        } else {
            scalar_name(definition[0])
        }
    } else {
        scalar_name(name)
    }
}

/// A declared type is the one that CQL writes with the declared words, and none
/// where CQL's words are for no type of the server.
pub proof fn law_declared_types_have_their_names(name: DataTypeName, definition: Seq<DataTypeName>)
    ensures
        match declared_name(name, definition) {
            Some(text) => declared_type(name, definition) matches Some(t) && type_text(t) == text,
            None => declared_type(name, definition) is None,
        },
{
    reveal_with_fuel(type_text, 2);
}

/// A quoted identifier is the text between its quotes. A plain one is the same
/// in any case: its letters are made small.
pub proof fn law_identifiers_have_their_texts(id: Identifier)
    ensures
        match id {
            Identifier::Quoted(s) => id_text(id) == s@,
            Identifier::Unquoted(s) => is_ascii_chars(s@) ==> id_text(id).len() == s@.len() && forall|
                i: int,
            |
                0 <= i < s@.len() ==> #[trigger] id_text(id)[i] as int == if 'A' <= s@[i] <= 'Z' {
                    s@[i] as int + 32
                } else {
                    s@[i] as int
                },
        },
{
}

/// Whether an identifier of a list has that text.
pub open spec fn names_one(ids: Seq<Identifier>, name: Seq<char>) -> bool {
    exists|j: int| 0 <= j < ids.len() && id_text(#[trigger] ids[j]) == name
}

/// A table is made as it is declared: its columns in their order, each with its
/// name and its type, marked for the key exactly if the key has it; and it is
/// made exactly if every type is one of the server's.
pub proof fn law_tables_have_their_declared_columns(
    keyspace: Seq<char>,
    name: Seq<char>,
    create: CreateTable,
)
    ensures
        table_of(keyspace, name, create) is Some <==> forall|i: int|
            0 <= i < create.columns@.len() ==> declared_name(
                (#[trigger] create.columns@[i]).data_type.name,
                create.columns@[i].data_type.definition@,
            ) is Some,
        table_of(keyspace, name, create) matches Some(t) ==> {
            &&& t.keyspace == keyspace
            &&& t.name == name
            &&& t.columns.len() == create.columns@.len()
            &&& forall|i: int| 0 <= i < t.columns.len() ==> #[trigger] declares(create, i, t)
        },
{
    assert forall|i: int| 0 <= i < create.columns@.len() implies definition_type(
        #[trigger] create.columns@[i],
    ) is Some == declared_name(
        create.columns@[i].data_type.name,
        create.columns@[i].data_type.definition@,
    ) is Some by {
        let cd = create.columns@[i];
        law_declared_types_have_their_names(cd.data_type.name, cd.data_type.definition@);
    }
    if let Some(t) = table_of(keyspace, name, create) {
        assert forall|i: int| 0 <= i < t.columns.len() implies #[trigger] declares(
            create,
            i,
            t,
        ) by {
            let cd = create.columns@[i];
            law_declared_types_have_their_names(cd.data_type.name, cd.data_type.definition@);
            if let Some(key) = create.key {
                lemma_names_one(key.partition@, id_text(cd.name));
                lemma_names_one(key.clustering@, id_text(cd.name));
            }
        }
    }
}

proof fn lemma_names_one(ids: Seq<Identifier>, name: Seq<char>)
    ensures
        id_texts(ids).contains(name) == names_one(ids, name),
{
    let names = id_texts(ids);
    if names.contains(name) {
        let j = choose|j: int| 0 <= j < names.len() && names[j] == name;
        assert(id_text(ids[j]) == name);
    }
    if names_one(ids, name) {
        let j = choose|j: int| 0 <= j < ids.len() && id_text(#[trigger] ids[j]) == name;
        assert(names[j] == name);
    }
}

/// Whether a column of a table is the one that the declaration has in its place.
pub open spec fn declares(create: CreateTable, i: int, t: TableView) -> bool {
    let cd = create.columns@[i];
    let c = t.columns[i];
    let (first, rest) = match create.key {
        Some(key) => (names_one(key.partition@, c.name), names_one(key.clustering@, c.name)),
        None => (false, false),
    };
    &&& c.name == id_text(cd.name)
    &&& declared_name(cd.data_type.name, cd.data_type.definition@) == Some(type_text(c.col_type))
    &&& c.is_partition_key <==> cd.primary_key || first
    &&& c.is_clustering <==> !cd.primary_key && !first && rest
}

/// A table has the key that is declared for it: the parts that `PRIMARY KEY`
/// lists, in their order, or the one column that is marked.
pub proof fn law_tables_have_their_declared_key(
    keyspace: Seq<char>,
    name: Seq<char>,
    create: CreateTable,
    marked: int,
)
    requires
        table_of(keyspace, name, create) is Some,
    ensures
        ({
            let t = table_of(keyspace, name, create)->Some_0;
            &&& match create.key {
                Some(key) => {
                    &&& t.clustering_keys.len() == key.clustering@.len()
                    &&& forall|j: int|
                        0 <= j < key.clustering@.len() ==> #[trigger] t.clustering_keys[j]
                            == id_text(key.clustering@[j])
                    &&& key.partition@.len() > 0 ==> {
                        &&& t.partition_keys.len() == key.partition@.len()
                        &&& forall|j: int|
                            0 <= j < key.partition@.len() ==> #[trigger] t.partition_keys[j]
                                == id_text(key.partition@[j])
                    }
                },
                None => {
                    &&& t.clustering_keys.len() == 0
                    &&& only_marked(create, marked) ==> t.partition_keys == seq![
                        id_text(create.columns@[marked].name),
                    ]
                },
            }
        }),
{
    let t = table_of(keyspace, name, create)->Some_0;
    if create.key is None && only_marked(create, marked) {
        lemma_one_marked(t.columns, marked);
    }
}

/// Whether one column of a declaration is marked as its key, and no other.
pub open spec fn only_marked(create: CreateTable, marked: int) -> bool {
    0 <= marked < create.columns@.len() && forall|i: int|
        0 <= i < create.columns@.len() ==> ((#[trigger] create.columns@[i]).primary_key <==> i
            == marked)
}

proof fn lemma_one_marked(columns: Seq<ColumnView>, marked: int)
    requires
        marked < columns.len(),
        forall|i: int|
            0 <= i < columns.len() ==> ((#[trigger] columns[i]).is_partition_key <==> i == marked),
    ensures
        0 <= marked ==> marked_partition(columns) == seq![columns[marked].name],
        marked < 0 ==> marked_partition(columns) == Seq::<Seq<char>>::empty(),
    decreases columns.len(),
{
    if columns.len() > 0 {
        let front = columns.drop_last();
        let last = columns.len() - 1;
        assert(columns[last] == columns.last());
        if marked == last {
            lemma_one_marked(front, -1);
            assert(marked_partition(columns) =~= seq![columns[marked].name]);
        } else {
            lemma_one_marked(front, marked);
        }
    }
}

/// Whether a character is white space by Unicode.
pub open spec fn is_blank(c: char) -> bool {
    let code = c as int;
    ||| 9 <= code <= 13
    ||| code == 32
    ||| code == 0x85
    ||| code == 0xA0
    ||| code == 0x1680
    ||| 0x2000 <= code <= 0x200A
    ||| code == 0x2028
    ||| code == 0x2029
    ||| code == 0x202F
    ||| code == 0x205F
    ||| code == 0x3000
}

/// Whether a text is what is left of another without what is cut off its ends,
/// which is `a` before it and `b` behind it.
pub open spec fn is_middle(s: Seq<char>, a: Seq<char>, middle: Seq<char>, b: Seq<char>) -> bool {
    s == a + middle + b
}

proof fn lemma_skip_front(s: Seq<char>, class: CharClass)
    ensures
        ({
            let r = skip_front(s, class);
            let k = s.len() - r.len();
            &&& 0 <= k <= s.len()
            &&& r == s.skip(k)
            &&& forall|i: int| 0 <= i < k ==> in_class(#[trigger] s[i], class)
            &&& r.len() > 0 ==> !in_class(r[0], class)
        }),
    decreases s.len(),
{
    if s.len() > 0 && in_class(s.first(), class) {
        let rest = s.drop_first();
        lemma_skip_front(rest, class);
        let r = skip_front(s, class);
        let k = s.len() - r.len();
        assert(r =~= s.skip(k));
        assert forall|i: int| 0 <= i < k implies in_class(#[trigger] s[i], class) by {
            if i > 0 {
                assert(rest[i - 1] == s[i]);
            }
        }
    } else {
        assert(s.skip(0) =~= s);
    }
}

proof fn lemma_skip_back(s: Seq<char>, class: CharClass)
    ensures
        ({
            let r = skip_back(s, class);
            &&& r.len() <= s.len()
            &&& r == s.take(r.len() as int)
            &&& forall|i: int| r.len() <= i < s.len() ==> in_class(#[trigger] s[i], class)
            &&& r.len() > 0 ==> !in_class(r[r.len() - 1], class)
        }),
    decreases s.len(),
{
    if s.len() > 0 && in_class(s.last(), class) {
        let rest = s.drop_last();
        lemma_skip_back(rest, class);
        let r = skip_back(s, class);
        assert(r =~= s.take(r.len() as int));
        assert forall|i: int| r.len() <= i < s.len() implies in_class(#[trigger] s[i], class) by {
            if i < s.len() - 1 {
                assert(rest[i] == s[i]);
            }
        }
    } else {
        assert(s.take(s.len() as int) =~= s);
    }
}

proof fn lemma_cut(s: Seq<char>, class: CharClass)
    ensures
        ({
            let r = skip_back(skip_front(s, class), class);
            exists|a: Seq<char>, b: Seq<char>| #[trigger]
                is_middle(s, a, r, b) && (forall|i: int|
                    0 <= i < a.len() ==> in_class(#[trigger] a[i], class)) && (forall|i: int|
                    0 <= i < b.len() ==> in_class(#[trigger] b[i], class)) && (r.len() > 0
                    ==> !in_class(r[0], class) && !in_class(r[r.len() - 1], class))
        }),
{
    let f = skip_front(s, class);
    let r = skip_back(f, class);
    lemma_skip_front(s, class);
    lemma_skip_back(f, class);
    let a = s.take(s.len() - f.len());
    let b = f.skip(r.len() as int);
    assert(s =~= a + r + b);
    assert(is_middle(s, a, r, b));
}

/// Trimming a text cuts the white space off its ends and keeps the rest; taking
/// it out of its quotes does the same with quotes.
pub proof fn law_texts_are_trimmed_at_their_ends(s: Seq<char>)
    ensures
        exists|a: Seq<char>, b: Seq<char>| #[trigger]
            is_middle(s, a, trimmed(s), b) && (forall|i: int|
                0 <= i < a.len() ==> is_blank(#[trigger] a[i])) && (forall|i: int|
                0 <= i < b.len() ==> is_blank(#[trigger] b[i])),
        trimmed(s).len() > 0 ==> !is_blank(trimmed(s)[0]) && !is_blank(
            trimmed(s)[trimmed(s).len() - 1],
        ),
        exists|a: Seq<char>, b: Seq<char>| #[trigger]
            is_middle(s, a, unquoted(s), b) && (forall|i: int|
                0 <= i < a.len() ==> #[trigger] a[i] == '\'') && (forall|i: int|
                0 <= i < b.len() ==> #[trigger] b[i] == '\''),
        unquoted(s).len() > 0 ==> unquoted(s)[0] != '\'' && unquoted(s)[unquoted(s).len() - 1]
            != '\'',
{
    lemma_cut(s, CharClass::White);
    lemma_cut(s, CharClass::Quote);
    let (a, b) = choose|a: Seq<char>, b: Seq<char>| #[trigger]
        is_middle(s, a, trimmed(s), b) && (forall|i: int|
            0 <= i < a.len() ==> in_class(#[trigger] a[i], CharClass::White)) && (forall|i: int|
            0 <= i < b.len() ==> in_class(#[trigger] b[i], CharClass::White));
    assert forall|i: int| 0 <= i < a.len() implies is_blank(#[trigger] a[i]) by {
        assert(in_class(a[i], CharClass::White));
    }
    assert forall|i: int| 0 <= i < b.len() implies is_blank(#[trigger] b[i]) by {
        assert(in_class(b[i], CharClass::White));
    }
    assert(is_middle(s, a, trimmed(s), b));
    let (c, d) = choose|c: Seq<char>, d: Seq<char>| #[trigger]
        is_middle(s, c, unquoted(s), d) && (forall|i: int|
            0 <= i < c.len() ==> in_class(#[trigger] c[i], CharClass::Quote)) && (forall|i: int|
            0 <= i < d.len() ==> in_class(#[trigger] d[i], CharClass::Quote));
    assert forall|i: int| 0 <= i < c.len() implies #[trigger] c[i] == '\'' by {
        assert(in_class(c[i], CharClass::Quote));
    }
    assert forall|i: int| 0 <= i < d.len() implies #[trigger] d[i] == '\'' by {
        assert(in_class(d[i], CharClass::Quote));
    }
    assert(is_middle(s, c, unquoted(s), d));
}

/// Lower and upper case change the letters of ASCII and nothing else of it.
pub proof fn law_case_changes_letters(s: Seq<char>, i: int)
    requires
        is_ascii_chars(s),
        0 <= i < s.len(),
    ensures
        lower_text(s).len() == s.len(),
        upper_text(s).len() == s.len(),
        65 <= s[i] as int <= 90 ==> lower_text(s)[i] as int == s[i] as int + 32,
        !(65 <= s[i] as int <= 90) ==> lower_text(s)[i] == s[i],
        97 <= s[i] as int <= 122 ==> upper_text(s)[i] as int == s[i] as int - 32,
        !(97 <= s[i] as int <= 122) ==> upper_text(s)[i] == s[i],
{
}

proof fn lemma_trimmed_twice(s: Seq<char>)
    ensures
        trimmed(trimmed(s)) == trimmed(s),
{
    let r = trimmed(s);
    lemma_cut(s, CharClass::White);
    lemma_skip_front(r, CharClass::White);
    lemma_skip_back(r, CharClass::White);
}

/// White space around a literal does not count: it denotes what it denotes
/// without it.
pub proof fn law_blanks_around_literals_do_not_count(
    text: Seq<char>,
    t: ColumnType,
    v: ValueView,
    readings: Seq<LiteralReading>,
)
    ensures
        literal_value(text, t, readings) == Ok::<ValueView, Seq<char>>(v) <==> literal_value(
            trimmed(text),
            t,
            readings,
        ) == Ok::<ValueView, Seq<char>>(v),
{
    lemma_trimmed_twice(text);
}

/// A column of whole numbers takes digits, with a sign before them or without, and
/// nothing else; a column of truth values no other ASCII word than `true` and
/// `false`; a column of a collection no literal at all.
pub proof fn law_other_literals_denote_nothing(
    text: Seq<char>,
    i: int,
    t: ColumnType,
    readings: Seq<LiteralReading>,
)
    requires
        trimmed(text) == text,
        0 <= i < text.len(),
    ensures
        (t is Int || t is BigInt || t is SmallInt || t is TinyInt || t is Timestamp) && !('0'
            <= text[i] <= '9') && (i > 0 || text.len() == 1 || (text[0] != '-' && text[0] != '+'))
            ==> literal_value(text, t, readings) is Err,
        t is Boolean && is_ascii_chars(text) && !is_word(text, seq!['t', 'r', 'u', 'e'])
            && !is_word(text, seq!['f', 'a', 'l', 's', 'e']) ==> literal_value(text, t, readings)
            is Err,
        t is SetOf || t is List || t is MapOf ==> literal_value(text, t, readings) is Err,
{
    if !('0' <= text[i] <= '9') && (i > 0 || text.len() == 1 || (text[0] != '-' && text[0]
        != '+')) {
        let signed = text[0] == '-' || text[0] == '+';
        let body = if signed {
            text.drop_first()
        } else {
            text
        };
        if signed {
            if i > 0 {
                assert(body[i - 1] == text[i]);
                assert(!is_digit(body[i - 1]));
            } else {
                assert(body.len() == 0);
            }
        } else {
            assert(!is_digit(body[i]));
        }
        assert(integer_value(text, true) is None);
    }
    if is_ascii_chars(text) {
        reveal_strlit("TRUE");
        reveal_strlit("FALSE");
        law_case_changes_letters(text, i);
        assert("TRUE"@.len() == 4 && "FALSE"@.len() == 5);
        if upper_text(text) == "TRUE"@ {
            assert(text.len() == 4);
            assert(upper_text(text)[0] == 'T' && upper_text(text)[1] == 'R' && upper_text(text)[2]
                == 'U' && upper_text(text)[3] == 'E');
            assert(is_word(text, seq!['t', 'r', 'u', 'e']));
        }
        if upper_text(text) == "FALSE"@ {
            assert(text.len() == 5);
            assert(upper_text(text)[0] == 'F' && upper_text(text)[1] == 'A' && upper_text(text)[2]
                == 'L' && upper_text(text)[3] == 'S' && upper_text(text)[4] == 'E');
            assert(is_word(text, seq!['f', 'a', 'l', 's', 'e']));
        }
    }
}

} // verus!
