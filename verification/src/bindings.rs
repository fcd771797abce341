//! What `PREPARE` tells a client of a statement: for each marker the column that
//! it is bound to, and the columns that the statement gives back.

use crate::ast::{parseable, parsed_query};
use crate::effects::{is_column, lemma_is_column, markers_among, markers_before, markers_in};
use crate::error::ErrorView;
use crate::expr::{marker_specs, relation_specs, selected_columns, where_specs, NamedType};
use crate::prepare::{
    assigned_names, column_specs, key_positions, prepared_on, prepared_target,
};
use crate::query::{first_next, looked_up, statement_in, NextView};
use crate::schema::{id_text, id_texts, TableView};
use crate::text::{index_in, lemma_index_in};
use cql3_parser::cassandra_statement::CassandraStatement;
use cql3_parser::common::{FQName, Operand, RelationElement};
use cql3_parser::delete::Delete;
use cql3_parser::insert::Insert;
use cql3_parser::select::Select;
use cql3_parser::update::Update;
use vstd::prelude::*;

verus! {

/// Whether a name and a type are those of the column of a table that the name
/// denotes.
pub open spec fn describes(table: TableView, name: Seq<char>, spec: NamedType) -> bool {
    spec.0 == name && exists|c: int| #[trigger]
        is_column(table, name, c) && spec.1 == table.columns[c].col_type
}

proof fn lemma_column_specs(names: Seq<Seq<char>>, i: int, table: TableView)
    requires
        0 <= i <= names.len(),
    ensures
        column_specs(names, i, table) matches Ok(specs) ==> specs.len() == names.len() - i
            && forall|k: int|
            0 <= k < specs.len() ==> describes(table, names[i + k], #[trigger] specs[k]),
    decreases names.len() - i,
{
    if i < names.len() {
        lemma_column_specs(names, i + 1, table);
        lemma_is_column(table, names[i]);
        if let Ok(specs) = column_specs(names, i, table) {
            let rest = column_specs(names, i + 1, table)->Ok_0;
            let c = table.index_of(names[i])->Some_0;
            assert(is_column(table, names[i], c));
            assert forall|k: int| 0 <= k < specs.len() implies describes(
                table,
                names[i + k],
                #[trigger] specs[k],
            ) by {
                if k > 0 {
                    assert(specs[k] == rest[k - 1]);
                    assert(names[i + k] == names[(i + 1) + (k - 1)]);
                }
            }
        }
    }
}

/// A sequence of places where a key column stands among names.
proof fn lemma_key_positions(names: Seq<Seq<char>>, keys: Seq<Seq<char>>, i: int)
    requires
        0 <= i <= keys.len(),
        names.len() <= 0x1_0000,
        forall|k: int| 0 <= k < keys.len() ==> names.contains(#[trigger] keys[k]),
    ensures
        key_positions(names, keys, i).len() == keys.len() - i,
        forall|k: int|
            0 <= k < keys.len() - i ==> (#[trigger] key_positions(names, keys, i)[k]) < names.len()
                && names[key_positions(names, keys, i)[k] as int] == keys[i + k],
    decreases keys.len() - i,
{
    if i < keys.len() {
        lemma_key_positions(names, keys, i + 1);
        lemma_index_in(names, keys[i]);
        assert(names.contains(keys[i]));
        let at = names.index_of(keys[i]);
        assert(names[at] == keys[i]);
        let pos = index_in(names, keys[i])->Some_0;
        let rest = key_positions(names, keys, i + 1);
        let all = key_positions(names, keys, i);
        assert(all == seq![pos as u16] + rest);
        assert forall|k: int| 0 <= k < keys.len() - i implies (#[trigger] all[k]) < names.len()
            && names[all[k] as int] == keys[i + k] by {
            if k > 0 {
                assert(all[k] == rest[k - 1]);
                assert(keys[i + k] == keys[(i + 1) + (k - 1)]);
            }
        }
    }
}

/// A prepared `INSERT` binds one value for each of its columns, in their order,
/// and tells the places of the columns of the key among them, in the order of the
/// key. It gives no columns back.
pub proof fn law_prepared_insert_binds_its_columns(
    ins: Insert,
    keyspace: Seq<char>,
    table: TableView,
)
    requires
        ins.columns@.len() <= 0x1_0000,
    ensures
        prepared_on(CassandraStatement::Insert(ins), keyspace, table) matches Ok(info) ==> {
            &&& info.keyspace == keyspace
            &&& info.table == table.name
            &&& info.bind_specs.len() == ins.columns@.len()
            &&& forall|k: int|
                0 <= k < info.bind_specs.len() ==> describes(
                    table,
                    id_text(ins.columns@[k]),
                    #[trigger] info.bind_specs[k],
                )
            &&& info.result_cols.len() == 0
            &&& (forall|k: int|
                0 <= k < table.key_names().len() ==> id_texts(ins.columns@).contains(
                    #[trigger] table.key_names()[k],
                )) ==> {
                &&& info.pk_indexes.len() == table.key_names().len()
                &&& forall|k: int|
                    0 <= k < info.pk_indexes.len() ==> (#[trigger] info.pk_indexes[k])
                        < ins.columns@.len() && id_text(
                        ins.columns@[info.pk_indexes[k] as int],
                    ) == table.key_names()[k]
            }
        },
{
    let names = id_texts(ins.columns@);
    lemma_column_specs(names, 0, table);
    if let Ok(info) = prepared_on(CassandraStatement::Insert(ins), keyspace, table) {
        assert forall|k: int| 0 <= k < info.bind_specs.len() implies describes(
            table,
            id_text(ins.columns@[k]),
            #[trigger] info.bind_specs[k],
        ) by {
            assert(names[0 + k] == id_text(ins.columns@[k]));
        }
        if forall|k: int|
            0 <= k < table.key_names().len() ==> names.contains(#[trigger] table.key_names()[k]) {
            lemma_key_positions(names, table.key_names(), 0);
            assert forall|k: int| 0 <= k < info.pk_indexes.len() implies (
            #[trigger] info.pk_indexes[k]) < ins.columns@.len() && id_text(
                ins.columns@[info.pk_indexes[k] as int],
            ) == table.key_names()[k] by {
                let at = key_positions(names, table.key_names(), 0)[k];
                assert(names[at as int] == table.key_names()[0 + k]);
                assert(names[at as int] == id_text(ins.columns@[at as int]));
            }
        }
    }
}

/// Whether the specification at a place is that of a marker of a relation: of the
/// column that the relation restricts.
pub open spec fn is_marker_of(
    rel: RelationElement,
    table: TableView,
    spec: NamedType,
) -> bool {
    rel.obj matches Operand::Column(col) && describes(table, id_text(col), spec)
}

proof fn lemma_marker_specs(items: Seq<Operand>, i: int, col: NamedType)
    requires
        0 <= i <= items.len(),
    ensures
        marker_specs(items, i, col).len() == markers_among(items, items.len() as int)
            - markers_among(items, i),
        forall|k: int|
            0 <= k < marker_specs(items, i, col).len() ==> #[trigger] marker_specs(
                items,
                i,
                col,
            )[k] == col,
    decreases items.len() - i,
{
    if i < items.len() {
        lemma_marker_specs(items, i + 1, col);
        assert(markers_among(items, i + 1) == markers_among(items, i) + if items[i] is Param {
            1nat
        } else {
            0nat
        });
        let all = marker_specs(items, i, col);
        let rest = marker_specs(items, i + 1, col);
        assert forall|k: int| 0 <= k < all.len() implies #[trigger] all[k] == col by {
            if items[i] is Param {
                if k > 0 {
                    assert(all[k] == rest[k - 1]);
                }
            } else {
                assert(all[k] == rest[k]);
            }
        }
    }
}

proof fn lemma_relation_specs(rel: RelationElement, table: TableView)
    ensures
        relation_specs(rel, table) matches Ok(specs) ==> specs.len() == markers_in(rel.value)
            && forall|k: int|
            0 <= k < specs.len() ==> is_marker_of(rel, table, #[trigger] specs[k]),
{
    if let Ok(specs) = relation_specs(rel, table) {
        match rel.obj {
            Operand::Column(col) => {
                let name = id_text(col);
                lemma_is_column(table, name);
                let c = table.index_of(name)->Some_0;
                assert(is_column(table, name, c));
                if let Operand::Tuple(items) = rel.value {
                    lemma_marker_specs(items@, 0, (name, table.columns[c].col_type));
                    assert(markers_among(items@, 0) == 0);
                }
                assert forall|k: int| 0 <= k < specs.len() implies is_marker_of(
                    rel,
                    table,
                    #[trigger] specs[k],
                ) by {
                    assert(specs[k] == (name, table.columns[c].col_type));
                }
            },
            _ => {},
        }
    }
}

/// How many markers relations from the `i`-th on hold before the `j`-th.
proof fn lemma_where_specs(rels: Seq<RelationElement>, i: int, table: TableView)
    requires
        0 <= i <= rels.len(),
    ensures
        where_specs(rels, i, table) matches Ok(specs) ==> {
            &&& specs.len() == markers_before(rels, rels.len() as int) - markers_before(rels, i)
            &&& forall|j: int, m: int|
                i <= j < rels.len() && markers_before(rels, j) <= m < markers_before(rels, j + 1)
                    ==> is_marker_of(
                    #[trigger] rels[j],
                    table,
                    #[trigger] specs[m - markers_before(rels, i)],
                )
        },
    decreases rels.len() - i,
{
    if i < rels.len() {
        lemma_where_specs(rels, i + 1, table);
        lemma_relation_specs(rels[i], table);
        if let Ok(specs) = where_specs(rels, i, table) {
            let a = relation_specs(rels[i], table)->Ok_0;
            let b = where_specs(rels, i + 1, table)->Ok_0;
            let before = markers_before(rels, i);
            assert(markers_before(rels, i + 1) == before + a.len());
            assert forall|j: int, m: int|
                i <= j < rels.len() && markers_before(rels, j) <= m < markers_before(
                    rels,
                    j + 1,
                ) implies is_marker_of(
                #[trigger] rels[j],
                table,
                #[trigger] specs[m - before],
            ) by {
                if j == i {
                    assert(specs[m - before] == a[m - before]);
                } else {
                    lemma_markers_grow(rels, i + 1, j);
                    lemma_markers_grow(rels, j + 1, rels.len() as int);
                    let at = m - markers_before(rels, i + 1);
                    assert(specs[m - before] == b[at]);
                    assert(is_marker_of(rels[j], table, b[m - markers_before(rels, i + 1)]));
                }
            }
        }
    }
}

proof fn lemma_markers_grow(rels: Seq<RelationElement>, i: int, j: int)
    requires
        0 <= i <= j,
    ensures
        markers_before(rels, i) <= markers_before(rels, j),
    decreases j - i,
{
    if i < j {
        lemma_markers_grow(rels, i, j - 1);
    }
}

/// The markers of a `WHERE` clause are bound to the columns that their relations
/// restrict, in the order in which they are written, one each.
pub open spec fn binds_where(
    specs: Seq<NamedType>,
    from: int,
    rels: Seq<RelationElement>,
    table: TableView,
) -> bool {
    &&& specs.len() == from + markers_before(rels, rels.len() as int)
    &&& forall|j: int, m: int|
        0 <= j < rels.len() && markers_before(rels, j) <= m < markers_before(rels, j + 1)
            ==> is_marker_of(#[trigger] rels[j], table, #[trigger] specs[from + m])
}

/// A prepared `SELECT` binds one value for each marker of its `WHERE` clause, of
/// the column that the marker is compared with, and gives back the columns that
/// it asks for.
pub proof fn law_prepared_select_binds_its_markers(
    sel: Select,
    keyspace: Seq<char>,
    table: TableView,
)
    ensures
        prepared_on(CassandraStatement::Select(sel), keyspace, table) matches Ok(info) ==> {
            &&& info.keyspace == keyspace
            &&& info.table == table.name
            &&& info.pk_indexes.len() == 0
            &&& binds_where(info.bind_specs, 0, sel.where_clause@, table)
            &&& selected_columns(sel.columns@, table) == Ok::<Seq<NamedType>, ErrorView>(
                info.result_cols,
            )
        },
{
    let rels = sel.where_clause@;
    lemma_where_specs(rels, 0, table);
    assert(markers_before(rels, 0) == 0);
    if let Ok(info) = prepared_on(CassandraStatement::Select(sel), keyspace, table) {
        assert forall|j: int, m: int|
            0 <= j < rels.len() && markers_before(rels, j) <= m < markers_before(
                rels,
                j + 1,
            ) implies is_marker_of(
            #[trigger] rels[j],
            table,
            #[trigger] info.bind_specs[0 + m],
        ) by {
            assert(is_marker_of(rels[j], table, info.bind_specs[m - markers_before(rels, 0)]));
        }
    }
}

/// A prepared `DELETE` binds one value for each marker of its `WHERE` clause, of
/// the column that the marker is compared with.
pub proof fn law_prepared_delete_binds_its_markers(
    del: Delete,
    keyspace: Seq<char>,
    table: TableView,
)
    ensures
        prepared_on(CassandraStatement::Delete(del), keyspace, table) matches Ok(info) ==> {
            &&& info.keyspace == keyspace
            &&& info.table == table.name
            &&& info.pk_indexes.len() == 0
            &&& info.result_cols.len() == 0
            &&& binds_where(info.bind_specs, 0, del.where_clause@, table)
        },
{
    let rels = del.where_clause@;
    lemma_where_specs(rels, 0, table);
    assert(markers_before(rels, 0) == 0);
    if let Ok(info) = prepared_on(CassandraStatement::Delete(del), keyspace, table) {
        assert forall|j: int, m: int|
            0 <= j < rels.len() && markers_before(rels, j) <= m < markers_before(
                rels,
                j + 1,
            ) implies is_marker_of(
            #[trigger] rels[j],
            table,
            #[trigger] info.bind_specs[0 + m],
        ) by {
            assert(is_marker_of(rels[j], table, info.bind_specs[m - markers_before(rels, 0)]));
        }
    }
}

/// A prepared `UPDATE` binds one value for each of its assignments, of the column
/// that is set, and then one for each marker of its `WHERE` clause, of the column
/// that the marker is compared with.
pub proof fn law_prepared_update_binds_its_markers(
    upd: Update,
    keyspace: Seq<char>,
    table: TableView,
)
    ensures
        prepared_on(CassandraStatement::Update(upd), keyspace, table) matches Ok(info) ==> {
            &&& info.keyspace == keyspace
            &&& info.table == table.name
            &&& info.pk_indexes.len() == 0
            &&& info.result_cols.len() == 0
            &&& forall|k: int|
                0 <= k < upd.assignments@.len() ==> describes(
                    table,
                    id_text((#[trigger] upd.assignments@[k]).name.column),
                    info.bind_specs[k],
                )
            &&& binds_where(
                info.bind_specs,
                upd.assignments@.len() as int,
                upd.where_clause@,
                table,
            )
        },
{
    let rels = upd.where_clause@;
    let names = assigned_names(upd.assignments@);
    lemma_column_specs(names, 0, table);
    lemma_where_specs(rels, 0, table);
    assert(markers_before(rels, 0) == 0);
    if let Ok(info) = prepared_on(CassandraStatement::Update(upd), keyspace, table) {
        let set = column_specs(names, 0, table)->Ok_0;
        let restricted = where_specs(rels, 0, table)->Ok_0;
        let n = set.len() as int;
        assert forall|k: int| 0 <= k < n implies describes(
            table,
            id_text((#[trigger] upd.assignments@[k]).name.column),
            info.bind_specs[k],
        ) by {
            assert(info.bind_specs[k] == set[k]);
            assert(names[0 + k] == id_text(upd.assignments@[k].name.column));
        }
        assert forall|j: int, m: int|
            0 <= j < rels.len() && markers_before(rels, j) <= m < markers_before(
                rels,
                j + 1,
            ) implies is_marker_of(
            #[trigger] rels[j],
            table,
            #[trigger] info.bind_specs[n + m],
        ) by {
            lemma_markers_grow(rels, j + 1, rels.len() as int);
            assert(info.bind_specs[n + m] == restricted[m - markers_before(rels, 0)]);
            assert(is_marker_of(rels[j], table, restricted[m - markers_before(rels, 0)]));
        }
    }
}

proof fn lemma_specs_accepted(names: Seq<Seq<char>>, i: int, table: TableView)
    requires
        0 <= i <= names.len(),
        forall|k: int| i <= k < names.len() ==> has_column(table, #[trigger] names[k]),
    ensures
        column_specs(names, i, table) is Ok,
    decreases names.len() - i,
{
    if i < names.len() {
        assert(has_column(table, names[i]));
        lemma_is_column(table, names[i]);
        lemma_specs_accepted(names, i + 1, table);
    }
}

/// Whether a table has a column of that name.
pub open spec fn has_column(table: TableView, name: Seq<char>) -> bool {
    exists|c: int| #[trigger] is_column(table, name, c)
}

/// Whether a relation restricts a column of a table.
pub open spec fn restricts_one(rel: RelationElement, table: TableView) -> bool {
    rel.obj matches Operand::Column(col) && has_column(table, id_text(col))
}

proof fn lemma_where_accepted(rels: Seq<RelationElement>, i: int, table: TableView)
    requires
        0 <= i <= rels.len(),
        forall|k: int| i <= k < rels.len() ==> restricts_one(#[trigger] rels[k], table),
    ensures
        where_specs(rels, i, table) is Ok,
    decreases rels.len() - i,
{
    if i < rels.len() {
        assert(restricts_one(rels[i], table));
        if let Operand::Column(col) = rels[i].obj {
            lemma_is_column(table, id_text(col));
        }
        lemma_where_accepted(rels, i + 1, table);
    }
}

/// A statement about rows can be prepared where its table has every column that
/// it names.
pub proof fn law_statements_can_be_prepared(
    ins: Insert,
    upd: Update,
    sel: Select,
    del: Delete,
    keyspace: Seq<char>,
    table: TableView,
)
    ensures
        (forall|k: int|
            0 <= k < ins.columns@.len() ==> has_column(table, id_text(#[trigger] ins.columns@[k])))
            ==> prepared_on(CassandraStatement::Insert(ins), keyspace, table) is Ok,
        (forall|k: int|
            0 <= k < upd.assignments@.len() ==> has_column(
                table,
                id_text((#[trigger] upd.assignments@[k]).name.column),
            )) && (forall|k: int|
            0 <= k < upd.where_clause@.len() ==> restricts_one(
                #[trigger] upd.where_clause@[k],
                table,
            )) ==> prepared_on(CassandraStatement::Update(upd), keyspace, table) is Ok,
        (forall|k: int|
            0 <= k < sel.where_clause@.len() ==> restricts_one(
                #[trigger] sel.where_clause@[k],
                table,
            )) && selected_columns(sel.columns@, table) is Ok ==> prepared_on(
            CassandraStatement::Select(sel),
            keyspace,
            table,
        ) is Ok,
        (forall|k: int|
            0 <= k < del.where_clause@.len() ==> restricts_one(
                #[trigger] del.where_clause@[k],
                table,
            )) ==> prepared_on(CassandraStatement::Delete(del), keyspace, table) is Ok,
{
    let names = id_texts(ins.columns@);
    if forall|k: int|
        0 <= k < ins.columns@.len() ==> has_column(table, id_text(#[trigger] ins.columns@[k])) {
        assert forall|k: int| 0 <= k < names.len() implies has_column(
            table,
            #[trigger] names[k],
        ) by {
            assert(names[k] == id_text(ins.columns@[k]));
        }
        lemma_specs_accepted(names, 0, table);
    }
    let set = assigned_names(upd.assignments@);
    if forall|k: int|
        0 <= k < upd.assignments@.len() ==> has_column(
            table,
            id_text((#[trigger] upd.assignments@[k]).name.column),
        ) {
        assert forall|k: int| 0 <= k < set.len() implies has_column(table, #[trigger] set[k]) by {
            assert(set[k] == id_text(upd.assignments@[k].name.column));
        }
        lemma_specs_accepted(set, 0, table);
    }
    if forall|k: int|
        0 <= k < upd.where_clause@.len() ==> restricts_one(#[trigger] upd.where_clause@[k], table) {
        lemma_where_accepted(upd.where_clause@, 0, table);
    }
    if forall|k: int|
        0 <= k < sel.where_clause@.len() ==> restricts_one(#[trigger] sel.where_clause@[k], table) {
        lemma_where_accepted(sel.where_clause@, 0, table);
    }
    if forall|k: int|
        0 <= k < del.where_clause@.len() ==> restricts_one(#[trigger] del.where_clause@[k], table) {
        lemma_where_accepted(del.where_clause@, 0, table);
    }
}

/// The name of the table that a statement is about.
pub open spec fn names_table(stmt: CassandraStatement, name: FQName) -> bool {
    match stmt {
        CassandraStatement::CreateTable(t) => t.name == name,
        CassandraStatement::DropTable(d) => d.name == name,
        CassandraStatement::Truncate(n) => n == name,
        CassandraStatement::Insert(i) => i.table_name == name,
        CassandraStatement::Update(u) => u.table_name == name,
        CassandraStatement::Select(s) => s.table_name == name,
        CassandraStatement::Delete(d) => d.table_name == name,
        _ => false,
    }
}

/// A statement is about the table that it names: in the keyspace before the name
/// or, without one, in that of the session. Without either it is refused.
pub proof fn law_statements_concern_their_table(
    session: Option<Seq<char>>,
    stmt: CassandraStatement,
    name: FQName,
)
    requires
        names_table(stmt, name),
    ensures
        name.keyspace matches Some(k) ==> first_next(session, stmt) == NextView::Table(
            id_text(k),
            id_text(name.name),
        ),
        name.keyspace is None && session is Some ==> first_next(session, stmt)
            == NextView::Table(session->Some_0, id_text(name.name)),
        name.keyspace is None && session is None ==> (first_next(session, stmt) is Done
            && first_next(session, stmt)->Done_0 is Err),
{
}

/// What is prepared is about the table that the statement is about when it runs.
pub proof fn law_prepared_concerns_the_same_table(
    session: Option<Seq<char>>,
    stmt: CassandraStatement,
)
    ensures
        prepared_target(session, stmt) matches Ok((keyspace, table)) ==> first_next(session, stmt)
            == NextView::Table(keyspace, table),
        (stmt is Insert || stmt is Update || stmt is Select || stmt is Delete) ==> (
        prepared_target(session, stmt) is Ok <==> first_next(session, stmt) is Table),
        !(stmt is Insert || stmt is Update || stmt is Select || stmt is Delete)
            ==> prepared_target(session, stmt) is Err,
{
}

/// A text is read as a statement exactly if it is that one statement and holds no
/// error; else it is refused with a syntax error. What was read once is read so
/// again.
pub proof fn law_texts_are_read_as_statements(
    text: Seq<char>,
    stmt: CassandraStatement,
    after: Option<CassandraStatement>,
)
    ensures
        statement_in(text) == Ok::<CassandraStatement, ErrorView>(stmt) <==> parseable(text)
            && !parsed_query(text).has_error && parsed_query(text).first == Some((false, stmt)),
        statement_in(text) matches Err(e) ==> e.code == 0x2000,
        looked_up(Some(stmt), text, after) ==> after == Some(stmt),
        looked_up(None, text, after) && statement_in(text) == Ok::<CassandraStatement, ErrorView>(
            stmt,
        ) ==> after == Some(stmt),
        looked_up(None, text, after) && statement_in(text) is Err && after is Some ==> (
        after->Some_0 is Update),
{
}

} // verus!
