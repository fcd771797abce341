//! What the clauses of a statement say, word by word, and what statements that
//! hold them do: each marker takes a bound value of its own, each assignment
//! sets its column, each restriction holds of every row that is touched.

use crate::cql_value::{be_raw, decode, equal, literal_value, raw, ValueView};
use crate::dml::{
    assigned_parts, assignments_of, delete_command, inserted_row, update_plan, updates_of,
    value_named, Assigned,
};
use crate::error::ErrorView;
use crate::expr::{
    constant_pairs, constants, filter_of, filters_of, fixed_parts, fixed_value, named_columns,
    operand_value, restricting_value, restricting_values, selected_columns, Env, FilterView,
    NamedType,
};
use crate::keys::{decoded_row, parts_fit};
use crate::laws::{
    assigned_fit, insert_assignments, inserted_values, key_holds, law_insert_reads_back,
    law_update_sets_columns, lemma_inserted_key_holds, readable, row_before, set_value, updates_fit,
};
use crate::order::{law_key_order_is_unique, not_after};
use crate::query::{
    data_step, row_step, rows_step, select_step, table_step, NextView, ResponseView,
    SelectingView,
};
use crate::schema::{column_names, id_text, ColumnType, TableView};
use crate::select::{
    in_result_order, meets, meets_all, partition_restricted, projected, row_values, select_plan,
};
use crate::selection::{
    all_read, found_by, keyed, law_plan_selects_columns, law_select_statement, lemma_projects,
    lemma_result, lists_exactly, lists_table, matching, projection, restricted_name, rows_decode,
    rows_in_place, unaliased,
};
use crate::storage::{
    delete_row_command, engines_after, engines_after_all, held, law_read_your_writes,
    put_row_command, row_place, CommandView, Engines, Place,
};
use crate::text::{lemma_index_in, lemma_index_is};
use cql3_parser::cassandra_statement::CassandraStatement;
use cql3_parser::common::{Identifier, Operand, RelationElement};
use cql3_parser::delete::Delete;
use cql3_parser::insert::{Insert, InsertValues};
use cql3_parser::select::{Select, SelectElement};
use cql3_parser::update::{AssignmentElement, Update};
use vstd::prelude::*;
use vstd::seq_lib::group_to_multiset_ensures;

verus! {

/// Whether a column of a table is the one that a name denotes.
pub open spec fn is_column(table: TableView, name: Seq<char>, c: int) -> bool {
    &&& 0 <= c < table.columns.len()
    &&& table.columns[c].name == name
    &&& forall|j: int| 0 <= j < c ==> (#[trigger] table.columns[j]).name != name
}

pub proof fn lemma_is_column(table: TableView, name: Seq<char>)
    ensures
        match table.index_of(name) {
            Some(c) => is_column(table, name, c),
            None => forall|c: int| !is_column(table, name, c),
        },
        forall|c: int| #[trigger] is_column(table, name, c) ==> table.index_of(name) == Some(c),
{
    let names = column_names(table.columns);
    lemma_index_in(names, name);
    match table.index_of(name) {
        Some(c) => {
            assert forall|j: int| 0 <= j < c implies (#[trigger] table.columns[j]).name != name by {
                assert(names[j] == table.columns[j].name);
            }
        },
        None => {
            assert forall|c: int| !is_column(table, name, c) by {
                if is_column(table, name, c) {
                    assert(names[c] == name);
                }
            }
        },
    }
    assert forall|c: int| #[trigger] is_column(table, name, c) implies table.index_of(name) == Some(
        c,
    ) by {
        assert forall|j: int| 0 <= j < c implies #[trigger] names[j] != name by {
            assert(names[j] == table.columns[j].name);
        }
        lemma_index_is(names, name, c);
    }
}

/// How many of the first `n` operands are markers.
pub open spec fn markers_among(operands: Seq<Operand>, n: int) -> nat
    decreases n,
{
    if n <= 0 {
        0
    } else {
        markers_among(operands, n - 1) + if operands[n - 1] is Param {
            1nat
        } else {
            0nat
        }
    }
}

/// How many markers an operand holds.
pub open spec fn markers_in(operand: Operand) -> nat {
    match operand {
        Operand::Param(_) => 1,
        Operand::Tuple(items) => markers_among(items@, items@.len() as int),
        _ => 0,
    }
}

/// How many markers the first `n` relations hold.
pub open spec fn markers_before(rels: Seq<RelationElement>, n: int) -> nat
    decreases n,
{
    if n <= 0 {
        0
    } else {
        markers_before(rels, n - 1) + markers_in(rels[n - 1].value)
    }
}

/// How many of the first `n` assignments have a marker.
pub open spec fn markers_set_before(assignments: Seq<AssignmentElement>, n: int) -> nat
    decreases n,
{
    if n <= 0 {
        0
    } else {
        markers_set_before(assignments, n - 1) + if assignments[n - 1].value is Param {
            1nat
        } else {
            0nat
        }
    }
}

/// Whether a value is the bound value of that number, in a column's type.
pub open spec fn is_bound(env: Env, number: nat, t: ColumnType, v: ValueView) -> bool {
    number < env.values.len() && match env.values[number as int] {
        None => v is Null,
        Some(bytes) => decode(be_raw(bytes), t) matches Ok(x) && x == v,
    }
}

/// Whether a value is what a literal denotes in a column's type.
pub open spec fn is_literal(env: Env, text: Seq<char>, t: ColumnType, v: ValueView) -> bool {
    literal_value(text, t, env.readings) matches Ok(x) && x == v
}

/// Whether a value is what an operand of `VALUES` or `SET` stands for, where its
/// marker, if it is one, has that number.
pub open spec fn stands_for(
    env: Env,
    number: nat,
    operand: Operand,
    t: ColumnType,
    v: ValueView,
) -> bool {
    match operand {
        Operand::Null => v is Null,
        Operand::Const(text) => is_literal(env, text@, t, v),
        Operand::Param(_) => is_bound(env, number, t, v),
        Operand::Set(items) => t matches ColumnType::SetOf(e) && v matches ValueView::SetOf(vs)
            && vs.len() == items@.len() && forall|i: int|
            0 <= i < vs.len() ==> is_literal(env, items@[i]@, *e, #[trigger] vs[i]),
        Operand::List(items) => t matches ColumnType::List(e) && v matches ValueView::List(vs)
            && vs.len() == items@.len() && forall|i: int|
            0 <= i < vs.len() ==> is_literal(env, items@[i]@, *e, #[trigger] vs[i]),
        Operand::Map(items) => t matches ColumnType::MapOf(k, e) && v matches ValueView::MapOf(es)
            && es.len() == items@.len() && forall|i: int|
            0 <= i < es.len() ==> is_literal(env, items@[i].0@, *k, (#[trigger] es[i]).0)
                && is_literal(env, items@[i].1@, *e, es[i].1),
        _ => false,
    }
}

proof fn lemma_constants(env: Env, items: Seq<String>, i: int, t: ColumnType)
    requires
        0 <= i <= items.len(),
    ensures
        constants(env, items, i, t) matches Ok(vs) ==> vs.len() == items.len() - i && forall|j: int|
            0 <= j < vs.len() ==> is_literal(env, items[i + j]@, t, #[trigger] vs[j]),
    decreases items.len() - i,
{
    if i < items.len() {
        lemma_constants(env, items, i + 1, t);
        if let Ok(vs) = constants(env, items, i, t) {
            let rest = constants(env, items, i + 1, t)->Ok_0;
            assert forall|j: int| 0 <= j < vs.len() implies is_literal(
                env,
                items[i + j]@,
                t,
                #[trigger] vs[j],
            ) by {
                if j > 0 {
                    assert(vs[j] == rest[j - 1]);
                    assert(items[i + j] == items[(i + 1) + (j - 1)]);
                }
            }
        }
    }
}

proof fn lemma_constants_back(
    env: Env,
    items: Seq<String>,
    i: int,
    t: ColumnType,
    vs: Seq<ValueView>,
)
    requires
        0 <= i <= items.len(),
        vs.len() == items.len() - i,
        forall|j: int| 0 <= j < vs.len() ==> is_literal(env, items[i + j]@, t, #[trigger] vs[j]),
    ensures
        constants(env, items, i, t) == Ok::<Seq<ValueView>, ErrorView>(vs),
    decreases items.len() - i,
{
    if i < items.len() {
        let rest = vs.drop_first();
        assert forall|j: int| 0 <= j < rest.len() implies is_literal(
            env,
            items[i + 1 + j]@,
            t,
            #[trigger] rest[j],
        ) by {
            assert(rest[j] == vs[j + 1]);
            assert(items[i + 1 + j] == items[i + (j + 1)]);
        }
        lemma_constants_back(env, items, i + 1, t, rest);
        assert(is_literal(env, items[i + 0]@, t, vs[0]));
        assert(vs =~= seq![vs[0]] + rest);
    } else {
        assert(vs =~= Seq::empty());
    }
}

proof fn lemma_pairs(
    env: Env,
    items: Seq<(String, String)>,
    i: int,
    k: ColumnType,
    t: ColumnType,
)
    requires
        0 <= i <= items.len(),
    ensures
        constant_pairs(env, items, i, k, t) matches Ok(es) ==> es.len() == items.len() - i
            && forall|j: int|
            0 <= j < es.len() ==> is_literal(env, items[i + j].0@, k, (#[trigger] es[j]).0)
                && is_literal(env, items[i + j].1@, t, es[j].1),
    decreases items.len() - i,
{
    if i < items.len() {
        lemma_pairs(env, items, i + 1, k, t);
        if let Ok(es) = constant_pairs(env, items, i, k, t) {
            let rest = constant_pairs(env, items, i + 1, k, t)->Ok_0;
            assert forall|j: int| 0 <= j < es.len() implies is_literal(
                env,
                items[i + j].0@,
                k,
                (#[trigger] es[j]).0,
            ) && is_literal(env, items[i + j].1@, t, es[j].1) by {
                if j > 0 {
                    assert(es[j] == rest[j - 1]);
                    assert(items[i + j] == items[(i + 1) + (j - 1)]);
                }
            }
        }
    }
}

proof fn lemma_pairs_back(
    env: Env,
    items: Seq<(String, String)>,
    i: int,
    k: ColumnType,
    t: ColumnType,
    es: Seq<(ValueView, ValueView)>,
)
    requires
        0 <= i <= items.len(),
        es.len() == items.len() - i,
        forall|j: int|
            0 <= j < es.len() ==> is_literal(env, items[i + j].0@, k, (#[trigger] es[j]).0)
                && is_literal(env, items[i + j].1@, t, es[j].1),
    ensures
        constant_pairs(env, items, i, k, t) == Ok::<
            Seq<(ValueView, ValueView)>,
            ErrorView,
        >(es),
    decreases items.len() - i,
{
    if i < items.len() {
        let rest = es.drop_first();
        assert forall|j: int| 0 <= j < rest.len() implies is_literal(
            env,
            items[i + 1 + j].0@,
            k,
            (#[trigger] rest[j]).0,
        ) && is_literal(env, items[i + 1 + j].1@, t, rest[j].1) by {
            assert(rest[j] == es[j + 1]);
            assert(items[i + 1 + j] == items[i + (j + 1)]);
        }
        lemma_pairs_back(env, items, i + 1, k, t, rest);
        assert(is_literal(env, items[i + 0].0@, k, es[0].0));
        assert(es =~= seq![es[0]] + rest);
    } else {
        assert(es =~= Seq::empty());
    }
}

/// An operand of `VALUES` or `SET` has the value that it stands for, and takes a
/// bound value exactly if it is a marker; it has none where it stands for none.
pub proof fn law_operands_stand_for_values(
    env: Env,
    next: nat,
    operand: Operand,
    t: ColumnType,
    v: ValueView,
)
    ensures
        operand_value(env, next, operand, t) matches Ok((x, after)) ==> stands_for(
            env,
            next,
            operand,
            t,
            x,
        ) && after == next + if operand is Param {
            1nat
        } else {
            0nat
        },
        stands_for(env, next, operand, t, v) ==> operand_value(env, next, operand, t) == Ok::<
            (ValueView, nat),
            ErrorView,
        >(
            (
                v,
                next + if operand is Param {
                    1nat
                } else {
                    0nat
                },
            ),
        ),
{
    match operand {
        Operand::Set(items) => {
            if let ColumnType::SetOf(e) = t {
                lemma_constants(env, items@, 0, *e);
                if stands_for(env, next, operand, t, v) {
                    lemma_constants_back(env, items@, 0, *e, v->SetOf_0);
                }
            }
        },
        Operand::List(items) => {
            if let ColumnType::List(e) = t {
                lemma_constants(env, items@, 0, *e);
                if stands_for(env, next, operand, t, v) {
                    lemma_constants_back(env, items@, 0, *e, v->List_0);
                }
            }
        },
        Operand::Map(items) => {
            if let ColumnType::MapOf(k, e) = t {
                lemma_pairs(env, items@, 0, *k, *e);
                if stands_for(env, next, operand, t, v) {
                    lemma_pairs_back(env, items@, 0, *k, *e, v->MapOf_0);
                }
            }
        },
        _ => {},
    }
}

/// Whether a value is what an operand of `WHERE` stands for, where its marker, if
/// it is one, has that number: literals and markers stand there.
pub open spec fn restricts_to(
    env: Env,
    number: nat,
    operand: Operand,
    t: ColumnType,
    v: ValueView,
) -> bool {
    match operand {
        Operand::Const(text) => is_literal(env, text@, t, v),
        Operand::Param(_) => is_bound(env, number, t, v),
        _ => false,
    }
}

/// Whether a restriction is the one that a relation states, where the first of
/// its markers has that number.
pub open spec fn states(
    env: Env,
    number: nat,
    rel: RelationElement,
    table: TableView,
    f: FilterView,
) -> bool {
    rel.obj matches Operand::Column(col) && match f {
        FilterView::Eq(name, v) => {
            &&& rel.oper is Equal
            &&& name == id_text(col)
            &&& exists|c: int| #[trigger]
                is_column(table, name, c) && if rel.value is Null {
                    v is Null
                } else {
                    restricts_to(env, number, rel.value, table.columns[c].col_type, v)
                }
        },
        FilterView::In(name, vs) => {
            &&& rel.oper is In
            &&& name == id_text(col)
            &&& exists|c: int| #[trigger]
                is_column(table, name, c) && match rel.value {
                    Operand::Tuple(items) => vs.len() == items@.len() && forall|i: int|
                        0 <= i < vs.len() ==> restricts_to(
                            env,
                            number + markers_among(items@, i),
                            items@[i],
                            table.columns[c].col_type,
                            #[trigger] vs[i],
                        ),
                    _ => vs.len() == 1 && restricts_to(
                        env,
                        number,
                        rel.value,
                        table.columns[c].col_type,
                        vs[0],
                    ),
                }
        },
    }
}

proof fn lemma_markers_shift(items: Seq<Operand>, i: int, n: int)
    requires
        0 <= i <= n <= items.len(),
    ensures
        markers_among(items, n) >= markers_among(items, i),
    decreases n - i,
{
    if i < n {
        lemma_markers_shift(items, i, n - 1);
    }
}

proof fn lemma_restricting_values(
    env: Env,
    next: nat,
    items: Seq<Operand>,
    i: int,
    t: ColumnType,
)
    requires
        0 <= i <= items.len(),
        next >= markers_among(items, i),
    ensures
        restricting_values(env, next, items, i, t) matches Ok((vs, end)) ==> vs.len() == items.len()
            - i && end == next - markers_among(items, i) + markers_among(items, items.len() as int)
            && forall|j: int|
            0 <= j < vs.len() ==> restricts_to(
                env,
                (next - markers_among(items, i) + markers_among(items, i + j)) as nat,
                items[i + j],
                t,
                #[trigger] vs[j],
            ),
    decreases items.len() - i,
{
    if i < items.len() {
        if let Ok((v, after)) = restricting_value(env, next, items[i], t) {
            assert(after == next + if items[i] is Param {
                1nat
            } else {
                0nat
            });
            assert(markers_among(items, i + 1) == markers_among(items, i) + (after - next));
            lemma_restricting_values(env, after, items, i + 1, t);
            if let Ok((vs, end)) = restricting_values(env, next, items, i, t) {
                let rest = restricting_values(env, after, items, i + 1, t)->Ok_0.0;
                assert forall|j: int| 0 <= j < vs.len() implies restricts_to(
                    env,
                    (next - markers_among(items, i) + markers_among(items, i + j)) as nat,
                    items[i + j],
                    t,
                    #[trigger] vs[j],
                ) by {
                    if j > 0 {
                        assert(vs[j] == rest[j - 1]);
                        assert(i + j == (i + 1) + (j - 1));
                    } else {
                        assert(vs[0] == v);
                    }
                }
            }
        }
    }
}

proof fn lemma_restricting_values_back(
    env: Env,
    next: nat,
    items: Seq<Operand>,
    i: int,
    t: ColumnType,
    vs: Seq<ValueView>,
)
    requires
        0 <= i <= items.len(),
        next >= markers_among(items, i),
        vs.len() == items.len() - i,
        forall|j: int|
            0 <= j < vs.len() ==> restricts_to(
                env,
                (next - markers_among(items, i) + markers_among(items, i + j)) as nat,
                items[i + j],
                t,
                #[trigger] vs[j],
            ),
    ensures
        restricting_values(env, next, items, i, t) matches Ok((xs, _)) && xs == vs,
    decreases items.len() - i,
{
    if i < items.len() {
        assert(restricts_to(
            env,
            (next - markers_among(items, i) + markers_among(items, i + 0)) as nat,
            items[i + 0],
            t,
            vs[0],
        ));
        let after = next + if items[i] is Param {
            1nat
        } else {
            0nat
        };
        assert(restricting_value(env, next, items[i], t) == Ok::<(ValueView, nat), ErrorView>(
            (vs[0], after),
        ));
        assert(markers_among(items, i + 1) == markers_among(items, i) + (after - next));
        let rest = vs.drop_first();
        assert forall|j: int| 0 <= j < rest.len() implies restricts_to(
            env,
            (after - markers_among(items, i + 1) + markers_among(items, i + 1 + j)) as nat,
            items[i + 1 + j],
            t,
            #[trigger] rest[j],
        ) by {
            assert(rest[j] == vs[j + 1]);
            assert(i + 1 + j == i + (j + 1));
        }
        lemma_restricting_values_back(env, after, items, i + 1, t, rest);
        assert(vs =~= seq![vs[0]] + rest);
    } else {
        assert(vs =~= Seq::empty());
    }
}

/// A relation has the restriction that it states, and takes as many bound values
/// as it has markers.
proof fn lemma_filter_states(env: Env, next: nat, rel: RelationElement, table: TableView)
    ensures
        filter_of(env, next, rel, table) matches Ok((f, after)) ==> states(
            env,
            next,
            rel,
            table,
            f,
        ) && after == next + markers_in(rel.value),
{
    if let Operand::Column(col) = rel.obj {
        let name = id_text(col);
        lemma_is_column(table, name);
        if let Some(c) = table.index_of(name) {
            let t = table.columns[c].col_type;
            assert(is_column(table, name, c));
            if let Operand::Tuple(items) = rel.value {
                lemma_restricting_values(env, next, items@, 0, t);
                assert(markers_among(items@, 0) == 0);
                if let Ok((vs, _)) = restricting_values(env, next, items@, 0, t) {
                    assert forall|i: int| 0 <= i < vs.len() implies restricts_to(
                        env,
                        next + markers_among(items@, i),
                        items@[i],
                        t,
                        #[trigger] vs[i],
                    ) by {
                        assert(items@[0 + i] == items@[i]);
                    }
                }
            }
            match filter_of(env, next, rel, table) {
                Ok((FilterView::Eq(n, v), after)) => {
                    assert(n == name);
                    assert(rel.oper is Equal);
                    assert(rel.value is Null || restricts_to(env, next, rel.value, t, v));
                    assert(after == next + markers_in(rel.value));
                    assert(states(env, next, rel, table, FilterView::Eq(n, v)));
                },
                Ok((FilterView::In(n, vs), after)) => {
                    assert(n == name);
                    assert(rel.oper is In);
                    assert(after == next + markers_in(rel.value));
                    assert(states(env, next, rel, table, FilterView::In(n, vs)));
                },
                Err(_) => {},
            }
        }
    }
}

proof fn lemma_filter_states_back(
    env: Env,
    next: nat,
    rel: RelationElement,
    table: TableView,
    f: FilterView,
)
    requires
        states(env, next, rel, table, f),
    ensures
        filter_of(env, next, rel, table) matches Ok((g, _)) && g == f,
{
    let name = restricted_name(f);
    lemma_is_column(table, name);
    match f {
        FilterView::Eq(_, v) => {
            let c = choose|c: int| #[trigger]
                is_column(table, name, c) && if rel.value is Null {
                    v is Null
                } else {
                    restricts_to(env, next, rel.value, table.columns[c].col_type, v)
                };
            assert(table.index_of(name) == Some(c));
        },
        FilterView::In(_, vs) => {
            let c = choose|c: int| #[trigger]
                is_column(table, name, c) && match rel.value {
                    Operand::Tuple(items) => vs.len() == items@.len() && forall|i: int|
                        0 <= i < vs.len() ==> restricts_to(
                            env,
                            next + markers_among(items@, i),
                            items@[i],
                            table.columns[c].col_type,
                            #[trigger] vs[i],
                        ),
                    _ => vs.len() == 1 && restricts_to(
                        env,
                        next,
                        rel.value,
                        table.columns[c].col_type,
                        vs[0],
                    ),
                };
            assert(table.index_of(name) == Some(c));
            let t = table.columns[c].col_type;
            match rel.value {
                Operand::Tuple(items) => {
                    assert(markers_among(items@, 0) == 0);
                    assert forall|j: int| 0 <= j < vs.len() implies restricts_to(
                        env,
                        (next - markers_among(items@, 0) + markers_among(items@, 0 + j)) as nat,
                        items@[0 + j],
                        t,
                        #[trigger] vs[j],
                    ) by {}
                    lemma_restricting_values_back(env, next, items@, 0, t, vs);
                },
                _ => {
                    assert(vs =~= seq![vs[0]]);
                },
            }
        },
    }
}

proof fn lemma_filters_state(
    env: Env,
    next: nat,
    rels: Seq<RelationElement>,
    i: int,
    table: TableView,
)
    requires
        0 <= i <= rels.len(),
        next >= markers_before(rels, i),
    ensures
        filters_of(env, next, rels, i, table) matches Ok((fs, end)) ==> fs.len() == rels.len() - i
            && end == next - markers_before(rels, i) + markers_before(rels, rels.len() as int)
            && forall|j: int|
            0 <= j < fs.len() ==> states(
                env,
                (next - markers_before(rels, i) + markers_before(rels, i + j)) as nat,
                rels[i + j],
                table,
                #[trigger] fs[j],
            ),
    decreases rels.len() - i,
{
    if i < rels.len() {
        lemma_filter_states(env, next, rels[i], table);
        if let Ok((f, after)) = filter_of(env, next, rels[i], table) {
            assert(markers_before(rels, i + 1) == markers_before(rels, i) + (after - next));
            lemma_filters_state(env, after, rels, i + 1, table);
            if let Ok((fs, end)) = filters_of(env, next, rels, i, table) {
                let rest = filters_of(env, after, rels, i + 1, table)->Ok_0.0;
                assert forall|j: int| 0 <= j < fs.len() implies states(
                    env,
                    (next - markers_before(rels, i) + markers_before(rels, i + j)) as nat,
                    rels[i + j],
                    table,
                    #[trigger] fs[j],
                ) by {
                    if j > 0 {
                        assert(fs[j] == rest[j - 1]);
                        assert(i + j == (i + 1) + (j - 1));
                    } else {
                        assert(fs[0] == f);
                    }
                }
            }
        }
    }
}

proof fn lemma_filters_state_back(
    env: Env,
    next: nat,
    rels: Seq<RelationElement>,
    i: int,
    table: TableView,
    fs: Seq<FilterView>,
)
    requires
        0 <= i <= rels.len(),
        next >= markers_before(rels, i),
        fs.len() == rels.len() - i,
        forall|j: int|
            0 <= j < fs.len() ==> states(
                env,
                (next - markers_before(rels, i) + markers_before(rels, i + j)) as nat,
                rels[i + j],
                table,
                #[trigger] fs[j],
            ),
    ensures
        filters_of(env, next, rels, i, table) matches Ok((gs, _)) && gs == fs,
    decreases rels.len() - i,
{
    if i < rels.len() {
        assert(states(
            env,
            (next - markers_before(rels, i) + markers_before(rels, i + 0)) as nat,
            rels[i + 0],
            table,
            fs[0],
        ));
        lemma_filter_states_back(env, next, rels[i], table, fs[0]);
        lemma_filter_states(env, next, rels[i], table);
        let after = filter_of(env, next, rels[i], table)->Ok_0.1;
        assert(markers_before(rels, i + 1) == markers_before(rels, i) + (after - next));
        let rest = fs.drop_first();
        assert forall|j: int| 0 <= j < rest.len() implies states(
            env,
            (after - markers_before(rels, i + 1) + markers_before(rels, i + 1 + j)) as nat,
            rels[i + 1 + j],
            table,
            #[trigger] rest[j],
        ) by {
            assert(rest[j] == fs[j + 1]);
            assert(i + 1 + j == i + (j + 1));
        }
        lemma_filters_state_back(env, after, rels, i + 1, table, rest);
        assert(fs =~= seq![fs[0]] + rest);
    } else {
        assert(fs =~= Seq::empty());
    }
}

/// A `WHERE` clause has one restriction for each relation, the one that the
/// relation states. Each marker takes a bound value of its own, in the order in
/// which the markers are written, behind those that were taken before the
/// clause; the clause takes as many as it has markers.
pub proof fn law_where_states_its_relations(
    env: Env,
    next: nat,
    rels: Seq<RelationElement>,
    table: TableView,
)
    ensures
        filters_of(env, next, rels, 0, table) matches Ok((fs, end)) ==> {
            &&& fs.len() == rels.len()
            &&& end == next + markers_before(rels, rels.len() as int)
            &&& forall|i: int|
                0 <= i < fs.len() ==> states(
                    env,
                    next + markers_before(rels, i),
                    rels[i],
                    table,
                    #[trigger] fs[i],
                )
        },
{
    lemma_filters_state(env, next, rels, 0, table);
    assert(markers_before(rels, 0) == 0);
    if let Ok((fs, end)) = filters_of(env, next, rels, 0, table) {
        assert forall|i: int| 0 <= i < fs.len() implies states(
            env,
            next + markers_before(rels, i),
            rels[i],
            table,
            #[trigger] fs[i],
        ) by {
            assert(rels[0 + i] == rels[i]);
        }
    }
}

/// A `WHERE` clause of which each relation states a restriction is accepted, with
/// these restrictions.
pub proof fn law_where_is_accepted(
    env: Env,
    next: nat,
    rels: Seq<RelationElement>,
    table: TableView,
    fs: Seq<FilterView>,
)
    requires
        fs.len() == rels.len(),
        forall|i: int|
            0 <= i < fs.len() ==> states(
                env,
                next + markers_before(rels, i),
                rels[i],
                table,
                #[trigger] fs[i],
            ),
    ensures
        filters_of(env, next, rels, 0, table) == Ok::<(Seq<FilterView>, nat), ErrorView>(
            (fs, next + markers_before(rels, rels.len() as int)),
        ),
{
    assert(markers_before(rels, 0) == 0);
    assert forall|j: int| 0 <= j < fs.len() implies states(
        env,
        (next - markers_before(rels, 0) + markers_before(rels, 0 + j)) as nat,
        rels[0 + j],
        table,
        #[trigger] fs[j],
    ) by {}
    lemma_filters_state_back(env, next, rels, 0, table, fs);
    lemma_filters_state(env, next, rels, 0, table);
}

/// Relations with one marker each take one bound value each.
pub proof fn law_markers_are_counted(rels: Seq<RelationElement>, n: int)
    requires
        0 <= n <= rels.len(),
        forall|i: int| 0 <= i < n ==> (#[trigger] rels[i]).value is Param,
    ensures
        markers_before(rels, n) == n,
    decreases n,
{
    if n > 0 {
        law_markers_are_counted(rels, n - 1);
        assert(rels[n - 1].value is Param);
    }
}

/// Whether a new value is the one that an assignment of `SET` gives its column,
/// where its marker, if it has one, has that number.
pub open spec fn assigns(
    env: Env,
    number: nat,
    a: AssignmentElement,
    table: TableView,
    new: (int, ValueView),
) -> bool {
    &&& a.operator is None
    &&& is_column(table, id_text(a.name.column), new.0)
    &&& stands_for(env, number, a.value, table.columns[new.0].col_type, new.1)
}

proof fn lemma_updates_assign(
    env: Env,
    next: nat,
    assignments: Seq<AssignmentElement>,
    i: int,
    table: TableView,
)
    requires
        0 <= i <= assignments.len(),
        next >= markers_set_before(assignments, i),
    ensures
        updates_of(env, next, assignments, i, table) matches Ok((new, end)) ==> new.len()
            == assignments.len() - i && end == next - markers_set_before(assignments, i)
            + markers_set_before(assignments, assignments.len() as int) && forall|j: int|
            0 <= j < new.len() ==> assigns(
                env,
                (next - markers_set_before(assignments, i) + markers_set_before(
                    assignments,
                    i + j,
                )) as nat,
                assignments[i + j],
                table,
                #[trigger] new[j],
            ),
    decreases assignments.len() - i,
{
    if i < assignments.len() {
        let a = assignments[i];
        let name = id_text(a.name.column);
        lemma_is_column(table, name);
        if let Some(c) = table.index_of(name) {
            let t = table.columns[c].col_type;
            law_operands_stand_for_values(env, next, a.value, t, ValueView::Null);
            if let Ok((v, after)) = operand_value(env, next, a.value, t) {
                assert(markers_set_before(assignments, i + 1) == markers_set_before(assignments, i)
                    + (after - next));
                lemma_updates_assign(env, after, assignments, i + 1, table);
                if let Ok((new, end)) = updates_of(env, next, assignments, i, table) {
                    let rest = updates_of(env, after, assignments, i + 1, table)->Ok_0.0;
                    assert forall|j: int| 0 <= j < new.len() implies assigns(
                        env,
                        (next - markers_set_before(assignments, i) + markers_set_before(
                            assignments,
                            i + j,
                        )) as nat,
                        assignments[i + j],
                        table,
                        #[trigger] new[j],
                    ) by {
                        if j > 0 {
                            assert(new[j] == rest[j - 1]);
                            assert(i + j == (i + 1) + (j - 1));
                        } else {
                            assert(new[0] == (c, v));
                        }
                    }
                }
            }
        }
    }
}

proof fn lemma_updates_assign_back(
    env: Env,
    next: nat,
    assignments: Seq<AssignmentElement>,
    i: int,
    table: TableView,
    new: Seq<(int, ValueView)>,
)
    requires
        0 <= i <= assignments.len(),
        next >= markers_set_before(assignments, i),
        new.len() == assignments.len() - i,
        forall|j: int|
            0 <= j < new.len() ==> assigns(
                env,
                (next - markers_set_before(assignments, i) + markers_set_before(
                    assignments,
                    i + j,
                )) as nat,
                assignments[i + j],
                table,
                #[trigger] new[j],
            ),
    ensures
        updates_of(env, next, assignments, i, table) matches Ok((xs, _)) && xs == new,
    decreases assignments.len() - i,
{
    if i < assignments.len() {
        let a = assignments[i];
        assert(assigns(
            env,
            (next - markers_set_before(assignments, i) + markers_set_before(assignments, i + 0))
                as nat,
            assignments[i + 0],
            table,
            new[0],
        ));
        let name = id_text(a.name.column);
        lemma_is_column(table, name);
        let c = new[0].0;
        let t = table.columns[c].col_type;
        law_operands_stand_for_values(env, next, a.value, t, new[0].1);
        let after = operand_value(env, next, a.value, t)->Ok_0.1;
        assert(markers_set_before(assignments, i + 1) == markers_set_before(assignments, i) + (after
            - next));
        let rest = new.drop_first();
        assert forall|j: int| 0 <= j < rest.len() implies assigns(
            env,
            (after - markers_set_before(assignments, i + 1) + markers_set_before(
                assignments,
                i + 1 + j,
            )) as nat,
            assignments[i + 1 + j],
            table,
            #[trigger] rest[j],
        ) by {
            assert(rest[j] == new[j + 1]);
            assert(i + 1 + j == i + (j + 1));
        }
        lemma_updates_assign_back(env, after, assignments, i + 1, table, rest);
        assert(new =~= seq![new[0]] + rest);
    } else {
        assert(new =~= Seq::empty());
    }
}

/// A `SET` clause gives as many new values as it has assignments, each the column
/// and the value of its own assignment; each marker takes a bound value of its
/// own, in the order in which they are written.
pub proof fn law_set_gives_its_assignments(
    env: Env,
    assignments: Seq<AssignmentElement>,
    table: TableView,
)
    ensures
        updates_of(env, 0, assignments, 0, table) matches Ok((new, end)) ==> {
            &&& new.len() == assignments.len()
            &&& end == markers_set_before(assignments, assignments.len() as int)
            &&& forall|j: int|
                0 <= j < new.len() ==> assigns(
                    env,
                    markers_set_before(assignments, j),
                    assignments[j],
                    table,
                    #[trigger] new[j],
                )
        },
{
    lemma_updates_assign(env, 0, assignments, 0, table);
    assert(markers_set_before(assignments, 0) == 0);
    if let Ok((new, end)) = updates_of(env, 0, assignments, 0, table) {
        assert forall|j: int| 0 <= j < new.len() implies assigns(
            env,
            markers_set_before(assignments, j),
            assignments[j],
            table,
            #[trigger] new[j],
        ) by {
            assert(assignments[0 + j] == assignments[j]);
        }
    }
}

/// A `SET` clause of which each assignment gives its column a value is accepted,
/// with these values.
pub proof fn law_set_is_accepted(
    env: Env,
    assignments: Seq<AssignmentElement>,
    table: TableView,
    new: Seq<(int, ValueView)>,
)
    requires
        new.len() == assignments.len(),
        forall|j: int|
            0 <= j < new.len() ==> assigns(
                env,
                markers_set_before(assignments, j),
                assignments[j],
                table,
                #[trigger] new[j],
            ),
    ensures
        updates_of(env, 0, assignments, 0, table) == Ok::<(Seq<(int, ValueView)>, nat), ErrorView>(
            (new, markers_set_before(assignments, assignments.len() as int)),
        ),
{
    assert(markers_set_before(assignments, 0) == 0);
    assert forall|j: int| 0 <= j < new.len() implies assigns(
        env,
        (0 - markers_set_before(assignments, 0) + markers_set_before(assignments, 0 + j)) as nat,
        assignments[0 + j],
        table,
        #[trigger] new[j],
    ) by {}
    lemma_updates_assign_back(env, 0, assignments, 0, table, new);
    lemma_updates_assign(env, 0, assignments, 0, table);
}

/// Whether a name and a value are those of a column of an `INSERT` and of its
/// operand, where the marker of the operand, if it is one, has that number.
pub open spec fn gives(
    env: Env,
    number: nat,
    col: Identifier,
    operand: Operand,
    table: TableView,
    pair: Assigned,
) -> bool {
    &&& pair.0 == id_text(col)
    &&& exists|c: int| #[trigger]
        is_column(table, pair.0, c) && stands_for(
            env,
            number,
            operand,
            table.columns[c].col_type,
            pair.1,
        )
}

proof fn lemma_assignments_give(
    env: Env,
    next: nat,
    cols: Seq<Identifier>,
    operands: Seq<Operand>,
    i: int,
    table: TableView,
)
    requires
        0 <= i <= cols.len() == operands.len(),
        next == markers_among(operands, i),
    ensures
        assignments_of(env, next, cols, operands, i, table) matches Ok(pairs) ==> pairs.len()
            == cols.len() - i && forall|j: int|
            0 <= j < pairs.len() ==> gives(
                env,
                markers_among(operands, i + j),
                cols[i + j],
                operands[i + j],
                table,
                #[trigger] pairs[j],
            ),
    decreases cols.len() - i,
{
    if i < cols.len() {
        let name = id_text(cols[i]);
        lemma_is_column(table, name);
        if let Some(c) = table.index_of(name) {
            let t = table.columns[c].col_type;
            law_operands_stand_for_values(env, next, operands[i], t, ValueView::Null);
            if let Ok((v, after)) = operand_value(env, next, operands[i], t) {
                assert(markers_among(operands, i + 1) == after);
                lemma_assignments_give(env, after, cols, operands, i + 1, table);
                if let Ok(pairs) = assignments_of(env, next, cols, operands, i, table) {
                    let rest = assignments_of(env, after, cols, operands, i + 1, table)->Ok_0;
                    assert forall|j: int| 0 <= j < pairs.len() implies gives(
                        env,
                        markers_among(operands, i + j),
                        cols[i + j],
                        operands[i + j],
                        table,
                        #[trigger] pairs[j],
                    ) by {
                        if j > 0 {
                            let k = j - 1;
                            assert(pairs[j] == rest[k]);
                            assert(gives(
                                env,
                                markers_among(operands, i + 1 + k),
                                cols[i + 1 + k],
                                operands[i + 1 + k],
                                table,
                                rest[k],
                            ));
                            assert(i + 1 + k == i + j);
                        } else {
                            assert(i + j == i);
                            assert(pairs[0] == (name, v));
                            assert(is_column(table, name, c));
                            assert(stands_for(env, next, operands[i], t, v));
                        }
                    }
                }
            }
        }
    }
}

proof fn lemma_assignments_give_back(
    env: Env,
    next: nat,
    cols: Seq<Identifier>,
    operands: Seq<Operand>,
    i: int,
    table: TableView,
    pairs: Seq<Assigned>,
)
    requires
        0 <= i <= cols.len() == operands.len(),
        next == markers_among(operands, i),
        pairs.len() == cols.len() - i,
        forall|j: int|
            0 <= j < pairs.len() ==> gives(
                env,
                markers_among(operands, i + j),
                cols[i + j],
                operands[i + j],
                table,
                #[trigger] pairs[j],
            ),
    ensures
        assignments_of(env, next, cols, operands, i, table) == Ok::<Seq<Assigned>, ErrorView>(
            pairs,
        ),
    decreases cols.len() - i,
{
    if i < cols.len() {
        assert(gives(
            env,
            markers_among(operands, i + 0),
            cols[i + 0],
            operands[i + 0],
            table,
            pairs[0],
        ));
        let name = id_text(cols[i]);
        lemma_is_column(table, name);
        let c = choose|c: int| #[trigger]
            is_column(table, name, c) && stands_for(
                env,
                next,
                operands[i],
                table.columns[c].col_type,
                pairs[0].1,
            );
        assert(table.index_of(name) == Some(c));
        law_operands_stand_for_values(
            env,
            next,
            operands[i],
            table.columns[c].col_type,
            pairs[0].1,
        );
        let after = operand_value(env, next, operands[i], table.columns[c].col_type)->Ok_0.1;
        assert(markers_among(operands, i + 1) == after);
        let rest = pairs.drop_first();
        assert forall|j: int| 0 <= j < rest.len() implies gives(
            env,
            markers_among(operands, i + 1 + j),
            cols[i + 1 + j],
            operands[i + 1 + j],
            table,
            #[trigger] rest[j],
        ) by {
            assert(rest[j] == pairs[j + 1]);
            assert(i + 1 + j == i + (j + 1));
        }
        lemma_assignments_give_back(env, after, cols, operands, i + 1, table, rest);
        assert(pairs[0] == (name, pairs[0].1));
        assert(pairs =~= seq![pairs[0]] + rest);
    } else {
        assert(pairs =~= Seq::empty());
    }
}

/// The columns of an `INSERT` get the values of the operands in their places, one
/// each; each marker takes a bound value of its own, in the order in which they
/// are written.
pub proof fn law_values_are_given_in_order(
    env: Env,
    cols: Seq<Identifier>,
    operands: Seq<Operand>,
    table: TableView,
)
    requires
        cols.len() == operands.len(),
    ensures
        assignments_of(env, 0, cols, operands, 0, table) matches Ok(pairs) ==> {
            &&& pairs.len() == cols.len()
            &&& forall|j: int|
                0 <= j < pairs.len() ==> gives(
                    env,
                    markers_among(operands, j),
                    cols[j],
                    operands[j],
                    table,
                    #[trigger] pairs[j],
                )
        },
{
    assert(markers_among(operands, 0) == 0);
    lemma_assignments_give(env, 0, cols, operands, 0, table);
    if let Ok(pairs) = assignments_of(env, 0, cols, operands, 0, table) {
        assert forall|j: int| 0 <= j < pairs.len() implies gives(
            env,
            markers_among(operands, j),
            cols[j],
            operands[j],
            table,
            #[trigger] pairs[j],
        ) by {
            assert(cols[0 + j] == cols[j]);
        }
    }
}

/// The last value that is given to a name is the one that counts.
proof fn lemma_last_named(pairs: Seq<Assigned>, j: int)
    requires
        0 <= j < pairs.len(),
        forall|k: int| j < k < pairs.len() ==> (#[trigger] pairs[k]).0 != pairs[j].0,
    ensures
        value_named(pairs, pairs[j].0) == Some(pairs[j].1),
    decreases pairs.len(),
{
    if j < pairs.len() - 1 {
        let front = pairs.drop_last();
        assert(pairs[pairs.len() - 1].0 != pairs[j].0);
        assert forall|k: int| j < k < front.len() implies (#[trigger] front[k]).0
            != front[j].0 by {
            assert(front[k] == pairs[k]);
        }
        lemma_last_named(front, j);
    }
}

proof fn lemma_none_named(pairs: Seq<Assigned>, name: Seq<char>)
    requires
        forall|k: int| 0 <= k < pairs.len() ==> (#[trigger] pairs[k]).0 != name,
    ensures
        value_named(pairs, name) is None,
    decreases pairs.len(),
{
    if pairs.len() > 0 {
        let front = pairs.drop_last();
        assert forall|k: int| 0 <= k < front.len() implies (#[trigger] front[k]).0 != name by {
            assert(front[k] == pairs[k]);
        }
        lemma_none_named(front, name);
        assert(pairs[pairs.len() - 1].0 != name);
    }
}

/// Whether no later column of an `INSERT` has the name of the `j`-th.
pub open spec fn last_named(cols: Seq<Identifier>, j: int) -> bool {
    forall|k: int| j < k < cols.len() ==> id_text(#[trigger] cols[k]) != id_text(cols[j])
}

/// Whether a column of an `INSERT` has that name.
pub open spec fn named_by(cols: Seq<Identifier>, name: Seq<char>) -> bool {
    exists|j: int| 0 <= j < cols.len() && id_text(#[trigger] cols[j]) == name
}

/// An `INSERT` is done, and stores one row: under the key that its values make,
/// each column that it names with the value of its operand, the last where it is
/// named twice, each other column null. Every other row stays as it is.
pub proof fn law_insert_stores_its_values(
    e: Engines,
    env: Env,
    ins: Insert,
    operands: Seq<Operand>,
    keyspace: Seq<char>,
    table: TableView,
)
    requires
        e.len() >= 1,
        readable(table),
        ins.values matches InsertValues::Values(given) && given@ == operands,
        inserted_row(env, ins, keyspace, table) is Ok,
        assigned_fit(insert_assignments(env, ins, table)),
        parts_fit(inserted_row(env, ins, keyspace, table)->Ok_0.0),
    ensures
        ({
            let step = data_step(
                e.len(),
                env,
                CassandraStatement::Insert(ins),
                keyspace,
                table.name,
                table,
            );
            let after = engines_after_all(e, step.commands);
            let parts = inserted_row(env, ins, keyspace, table)->Ok_0.0;
            let place = row_place(e.len(), keyspace, table.name, parts);
            &&& operands.len() == ins.columns@.len()
            &&& step.next == NextView::Done(Ok(ResponseView::Void))
            &&& held(after, place) is Some
            &&& row_values(place.1, held(after, place)->Some_0, keyspace, table) is Ok
            &&& ({
                let row = row_values(place.1, held(after, place)->Some_0, keyspace, table)->Ok_0;
                &&& row.len() == table.columns.len()
                &&& key_holds(parts, row, table)
                &&& forall|j: int|
                    0 <= j < ins.columns@.len() && last_named(ins.columns@, j) ==> exists|c: int|
                        is_column(table, id_text(#[trigger] ins.columns@[j]), c) && stands_for(
                            env,
                            markers_among(operands, j),
                            operands[j],
                            table.columns[c].col_type,
                            #[trigger] row[c],
                        )
                &&& forall|c: int|
                    0 <= c < row.len() && !named_by(ins.columns@, table.columns[c].name)
                        ==> #[trigger] row[c] is Null
            })
            &&& forall|other: Place|
                0 <= other.0 < e.len() && other != place ==> #[trigger] held(after, other) == held(
                    e,
                    other,
                )
        }),
{
    let cols = ins.columns@;
    let pairs = insert_assignments(env, ins, table);
    let (parts, bytes) = inserted_row(env, ins, keyspace, table)->Ok_0;
    let c = put_row_command(e.len(), keyspace, table.name, parts, bytes);
    let commands = seq![c];
    assert(commands.drop_last() =~= Seq::<CommandView>::empty());
    assert(engines_after_all(e, Seq::<CommandView>::empty()) == e);
    assert(engines_after_all(e, commands) == engines_after(e, c));
    law_read_your_writes(e, keyspace, table.name, parts, bytes);
    law_insert_reads_back(env, ins, keyspace, table);
    lemma_inserted_key_holds(env, ins, keyspace, table);
    law_values_are_given_in_order(env, cols, operands, table);
    let row = inserted_values(pairs, table);
    assert forall|j: int| 0 <= j < cols.len() && last_named(cols, j) implies exists|c: int|
        is_column(table, id_text(#[trigger] cols[j]), c) && stands_for(
            env,
            markers_among(operands, j),
            operands[j],
            table.columns[c].col_type,
            #[trigger] row[c],
        ) by {
        assert(gives(env, markers_among(operands, j), cols[j], operands[j], table, pairs[j]));
        let name = pairs[j].0;
        assert forall|k: int| j < k < pairs.len() implies (#[trigger] pairs[k]).0 != pairs[j].0 by {
            assert(gives(env, markers_among(operands, k), cols[k], operands[k], table, pairs[k]));
            assert(id_text(cols[k]) != id_text(cols[j]));
        }
        lemma_last_named(pairs, j);
        let c = choose|c: int| #[trigger]
            is_column(table, name, c) && stands_for(
                env,
                markers_among(operands, j),
                operands[j],
                table.columns[c].col_type,
                pairs[j].1,
            );
        assert(row[c] == pairs[j].1);
        assert(is_column(table, id_text(cols[j]), c));
    }
    assert forall|c: int| 0 <= c < row.len() && !named_by(cols, table.columns[c].name) implies
        #[trigger] row[c] is Null by {
        let name = table.columns[c].name;
        assert forall|k: int| 0 <= k < pairs.len() implies (#[trigger] pairs[k]).0 != name by {
            assert(gives(env, markers_among(operands, k), cols[k], operands[k], table, pairs[k]));
        }
        lemma_none_named(pairs, name);
    }
}

/// Whether the value that an `=` restriction on a name, the first one, gives is
/// there, with that place in the list.
pub open spec fn first_equal(filters: Seq<FilterView>, name: Seq<char>, j: int) -> bool {
    &&& 0 <= j < filters.len()
    &&& filters[j] matches FilterView::Eq(n, _) && n == name
    &&& forall|k: int|
        0 <= k < j ==> !(#[trigger] filters[k] matches FilterView::Eq(n, _) && n == name)
}

proof fn lemma_fixed_value(filters: Seq<FilterView>, name: Seq<char>)
    ensures
        match fixed_value(filters, name) {
            Some(v) => exists|j: int| #[trigger]
                first_equal(filters, name, j) && filters[j] == FilterView::Eq(name, v),
            None => forall|j: int| !first_equal(filters, name, j),
        },
        forall|j: int| #[trigger]
            first_equal(filters, name, j) ==> fixed_value(filters, name) is Some && filters[j]
                == FilterView::Eq(name, fixed_value(filters, name)->Some_0),
    decreases filters.len(),
{
    if filters.len() > 0 {
        let front = filters.drop_last();
        let last = filters.len() - 1;
        lemma_fixed_value(front, name);
        assert forall|j: int| 0 <= j < last implies #[trigger] front[j] == filters[j] by {}
        assert forall|j: int| j < last implies #[trigger] first_equal(front, name, j)
            == first_equal(filters, name, j) by {
            if 0 <= j < last {
                assert(front[j] == filters[j]);
                if first_equal(front, name, j) {
                    assert forall|k: int| 0 <= k < j implies !(#[trigger] filters[k]
                        matches FilterView::Eq(n, _) && n == name) by {
                        assert(front[k] == filters[k]);
                    }
                }
                if first_equal(filters, name, j) {
                    assert forall|k: int| 0 <= k < j implies !(#[trigger] front[k]
                        matches FilterView::Eq(n, _) && n == name) by {
                        assert(front[k] == filters[k]);
                    }
                }
            }
        }
        match fixed_value(front, name) {
            Some(v) => {
                let j = choose|j: int| #[trigger]
                    first_equal(front, name, j) && front[j] == FilterView::Eq(name, v);
                assert(first_equal(filters, name, j));
                assert(filters[j] == FilterView::Eq(name, v));
                assert forall|i: int| #[trigger] first_equal(filters, name, i) implies filters[i]
                    == FilterView::Eq(name, v) by {
                    if i > j {
                        assert(!(filters[j] matches FilterView::Eq(n, _) && n == name));
                    } else {
                        assert(i < last);
                        assert(first_equal(front, name, i));
                    }
                }
            },
            None => {
                assert forall|j: int| j < last implies !first_equal(filters, name, j) by {
                    assert(first_equal(front, name, j) == first_equal(filters, name, j));
                }
                if filters[last] matches FilterView::Eq(n, _) && n == name {
                    assert forall|k: int| 0 <= k < last implies !(#[trigger] filters[k]
                        matches FilterView::Eq(n, _) && n == name) by {
                        if filters[k] matches FilterView::Eq(n, _) && n == name {
                            lemma_some_first(front, name, k);
                        }
                    }
                    assert(first_equal(filters, name, last));
                }
            },
        }
    }
}

proof fn lemma_some_first(filters: Seq<FilterView>, name: Seq<char>, k: int)
    requires
        0 <= k < filters.len(),
        filters[k] matches FilterView::Eq(n, _) && n == name,
    ensures
        exists|j: int| #[trigger] first_equal(filters, name, j),
    decreases k,
{
    if exists|i: int|
        0 <= i < k && (#[trigger] filters[i] matches FilterView::Eq(n, _) && n == name) {
        let i = choose|i: int|
            0 <= i < k && (#[trigger] filters[i] matches FilterView::Eq(n, _) && n == name);
        lemma_some_first(filters, name, i);
    } else {
        assert(first_equal(filters, name, k));
    }
}

/// Whether a part of a key is the bytes of the value to which the first `=`
/// restriction on its column binds it.
pub open spec fn is_fixed(filters: Seq<FilterView>, name: Seq<char>, part: Seq<u8>) -> bool {
    exists|j: int| #[trigger]
        first_equal(filters, name, j) && (filters[j] matches FilterView::Eq(_, v) && v !is Null
            && part == raw(v))
}

proof fn lemma_parts_fixed(filters: Seq<FilterView>, names: Seq<Seq<char>>, i: int)
    requires
        0 <= i <= names.len(),
    ensures
        fixed_parts(filters, names, i) matches Ok(parts) ==> parts.len() == names.len() - i
            && forall|j: int|
            0 <= j < parts.len() ==> is_fixed(filters, names[i + j], #[trigger] parts[j]),
    decreases names.len() - i,
{
    if i < names.len() {
        lemma_parts_fixed(filters, names, i + 1);
        lemma_fixed_value(filters, names[i]);
        if let Ok(parts) = fixed_parts(filters, names, i) {
            let rest = fixed_parts(filters, names, i + 1)->Ok_0;
            let v = fixed_value(filters, names[i])->Some_0;
            assert forall|j: int| 0 <= j < parts.len() implies is_fixed(
                filters,
                names[i + j],
                #[trigger] parts[j],
            ) by {
                if j > 0 {
                    assert(parts[j] == rest[j - 1]);
                    assert(names[i + j] == names[(i + 1) + (j - 1)]);
                } else {
                    assert(parts[0] == raw(v));
                    let k = choose|k: int| #[trigger]
                        first_equal(filters, names[i], k) && filters[k] == FilterView::Eq(
                            names[i],
                            v,
                        );
                    assert(first_equal(filters, names[i], k));
                }
            }
        }
    }
}

proof fn lemma_parts_fixed_back(
    filters: Seq<FilterView>,
    names: Seq<Seq<char>>,
    i: int,
    parts: Seq<Seq<u8>>,
)
    requires
        0 <= i <= names.len(),
        parts.len() == names.len() - i,
        forall|j: int|
            0 <= j < parts.len() ==> is_fixed(filters, names[i + j], #[trigger] parts[j]),
    ensures
        fixed_parts(filters, names, i) == Ok::<Seq<Seq<u8>>, ErrorView>(parts),
    decreases names.len() - i,
{
    if i < names.len() {
        assert(is_fixed(filters, names[i + 0], parts[0]));
        lemma_fixed_value(filters, names[i]);
        let k = choose|k: int| #[trigger]
            first_equal(filters, names[i], k) && (filters[k] matches FilterView::Eq(_, v)
                && v !is Null && parts[0] == raw(v));
        assert(first_equal(filters, names[i], k));
        let rest = parts.drop_first();
        assert forall|j: int| 0 <= j < rest.len() implies is_fixed(
            filters,
            names[i + 1 + j],
            #[trigger] rest[j],
        ) by {
            assert(rest[j] == parts[j + 1]);
            assert(names[i + 1 + j] == names[i + (j + 1)]);
        }
        lemma_parts_fixed_back(filters, names, i + 1, rest);
        assert(parts =~= seq![parts[0]] + rest);
    } else {
        assert(parts =~= Seq::empty());
    }
}

/// A key is fixed exactly by the first `=` restriction on each of its columns,
/// with a value other than null, and its parts are the bytes of these values, in
/// the order of the key.
pub proof fn law_keys_are_fixed_by_equality(
    filters: Seq<FilterView>,
    names: Seq<Seq<char>>,
    parts: Seq<Seq<u8>>,
)
    ensures
        fixed_parts(filters, names, 0) == Ok::<Seq<Seq<u8>>, ErrorView>(parts) <==> parts.len()
            == names.len() && forall|i: int|
            0 <= i < parts.len() ==> is_fixed(filters, names[i], #[trigger] parts[i]),
{
    lemma_parts_fixed(filters, names, 0);
    if fixed_parts(filters, names, 0) == Ok::<Seq<Seq<u8>>, ErrorView>(parts) {
        assert forall|i: int| 0 <= i < parts.len() implies is_fixed(
            filters,
            names[i],
            #[trigger] parts[i],
        ) by {
            assert(names[0 + i] == names[i]);
        }
    }
    if parts.len() == names.len() && forall|i: int|
        0 <= i < parts.len() ==> is_fixed(filters, names[i], #[trigger] parts[i]) {
        lemma_parts_fixed_back(filters, names, 0, parts);
    }
}

/// Whether no later assignment of a `SET` sets the column of the `j`-th.
pub open spec fn last_set(assignments: Seq<AssignmentElement>, j: int) -> bool {
    forall|k: int|
        j < k < assignments.len() ==> id_text((#[trigger] assignments[k]).name.column) != id_text(
            assignments[j].name.column,
        )
}

/// Whether an assignment of a `SET` sets the column of that name.
pub open spec fn set_by(assignments: Seq<AssignmentElement>, name: Seq<char>) -> bool {
    exists|j: int|
        0 <= j < assignments.len() && id_text((#[trigger] assignments[j]).name.column) == name
}

proof fn lemma_set_value(new: Seq<(int, ValueView)>, j: int)
    requires
        0 <= j < new.len(),
        forall|k: int| j < k < new.len() ==> (#[trigger] new[k]).0 != new[j].0,
    ensures
        set_value(new, new[j].0) == Some(new[j].1),
    decreases new.len(),
{
    if j < new.len() - 1 {
        let front = new.drop_last();
        assert(new[new.len() - 1].0 != new[j].0);
        assert forall|k: int| j < k < front.len() implies (#[trigger] front[k]).0
            != front[j].0 by {
            assert(front[k] == new[k]);
        }
        lemma_set_value(front, j);
    }
}

proof fn lemma_unset(new: Seq<(int, ValueView)>, c: int)
    requires
        forall|k: int| 0 <= k < new.len() ==> (#[trigger] new[k]).0 != c,
    ensures
        set_value(new, c) is None,
    decreases new.len(),
{
    if new.len() > 0 {
        let front = new.drop_last();
        assert forall|k: int| 0 <= k < front.len() implies (#[trigger] front[k]).0 != c by {
            assert(front[k] == new[k]);
        }
        lemma_unset(front, c);
        assert(new[new.len() - 1].0 != c);
    }
}

/// Whether a part of a key is the bytes of the value to which a `WHERE` clause
/// binds its column: that of the first relation that says the column equals
/// something. `start` bound values were taken before the clause.
pub open spec fn key_part_given(
    env: Env,
    start: nat,
    rels: Seq<RelationElement>,
    table: TableView,
    name: Seq<char>,
    part: Seq<u8>,
) -> bool {
    exists|j: int, v: ValueView|
        0 <= j < rels.len() && #[trigger] states(
            env,
            start + markers_before(rels, j),
            rels[j],
            table,
            FilterView::Eq(name, v),
        ) && v !is Null && part == raw(v) && forall|k: int|
            0 <= k < j ==> !equates(#[trigger] rels[k], name)
}

/// Whether a relation says that a column equals something.
pub open spec fn equates(rel: RelationElement, name: Seq<char>) -> bool {
    rel.oper is Equal && (rel.obj matches Operand::Column(col) && id_text(col) == name)
}

/// Whether the parts of a key are those that a `WHERE` clause gives.
pub open spec fn key_given(
    env: Env,
    start: nat,
    rels: Seq<RelationElement>,
    table: TableView,
    parts: Seq<Seq<u8>>,
) -> bool {
    parts.len() == table.key_names().len() && forall|i: int|
        0 <= i < parts.len() ==> key_part_given(
            env,
            start,
            rels,
            table,
            table.key_names()[i],
            #[trigger] parts[i],
        )
}

proof fn lemma_key_given(
    env: Env,
    start: nat,
    rels: Seq<RelationElement>,
    table: TableView,
    filters: Seq<FilterView>,
    parts: Seq<Seq<u8>>,
)
    requires
        filters_of(env, start, rels, 0, table) matches Ok((fs, _)) && fs == filters,
    ensures
        fixed_parts(filters, table.key_names(), 0) == Ok::<Seq<Seq<u8>>, ErrorView>(parts)
            <==> key_given(env, start, rels, table, parts),
{
    let names = table.key_names();
    law_where_states_its_relations(env, start, rels, table);
    law_keys_are_fixed_by_equality(filters, names, parts);
    assert forall|i: int| 0 <= i < parts.len() && i < names.len() implies is_fixed(
        filters,
        names[i],
        #[trigger] parts[i],
    ) == key_part_given(env, start, rels, table, names[i], parts[i]) by {
        let name = names[i];
        let part = parts[i];
        assert forall|k: int| 0 <= k < filters.len() implies equates(#[trigger] rels[k], name) == (
        filters[k] matches FilterView::Eq(n, _) && n == name) by {
            assert(states(env, start + markers_before(rels, k), rels[k], table, filters[k]));
        }
        if is_fixed(filters, name, part) {
            let j = choose|j: int| #[trigger]
                first_equal(filters, name, j) && (filters[j] matches FilterView::Eq(_, v)
                    && v !is Null && part == raw(v));
            let v = filters[j]->Eq_1;
            assert(states(env, start + markers_before(rels, j), rels[j], table, filters[j]));
            assert(filters[j] == FilterView::Eq(name, v));
            assert forall|k: int| 0 <= k < j implies !equates(#[trigger] rels[k], name) by {
                assert(!(filters[k] matches FilterView::Eq(n, _) && n == name));
            }
        }
        if key_part_given(env, start, rels, table, name, part) {
            let (j, v) = choose|j: int, v: ValueView|
                0 <= j < rels.len() && #[trigger] states(
                    env,
                    start + markers_before(rels, j),
                    rels[j],
                    table,
                    FilterView::Eq(name, v),
                ) && v !is Null && part == raw(v) && forall|k: int|
                    0 <= k < j ==> !equates(#[trigger] rels[k], name);
            assert(states(env, start + markers_before(rels, j), rels[j], table, filters[j]));
            lemma_states_one(
                env,
                start + markers_before(rels, j),
                rels[j],
                table,
                filters[j],
                FilterView::Eq(name, v),
            );
            assert forall|k: int| 0 <= k < j implies !(#[trigger] filters[k]
                matches FilterView::Eq(n, _) && n == name) by {
                assert(equates(rels[k], name) == (filters[k] matches FilterView::Eq(n, _) && n
                    == name));
            }
            assert(first_equal(filters, name, j));
        }
    }
    if parts.len() == names.len() {
        assert((forall|i: int|
            0 <= i < parts.len() ==> is_fixed(filters, names[i], #[trigger] parts[i])) == (forall|
            i: int,
        |
            0 <= i < parts.len() ==> key_part_given(
                env,
                start,
                rels,
                table,
                names[i],
                #[trigger] parts[i],
            )));
    }
}

/// A relation states one restriction.
proof fn lemma_states_one(
    env: Env,
    number: nat,
    rel: RelationElement,
    table: TableView,
    f: FilterView,
    g: FilterView,
)
    requires
        states(env, number, rel, table, f),
        states(env, number, rel, table, g),
    ensures
        f == g,
{
    lemma_filter_states_back(env, number, rel, table, f);
    lemma_filter_states_back(env, number, rel, table, g);
}

/// An `UPDATE` is done: the row under the key that its `WHERE` clause gives gets
/// in each column outside the key that `SET` names the value of the assignment,
/// the last where it is named twice, and keeps its other columns, which are null
/// where there was no row. Every other row stays as it is.
pub proof fn law_update_sets_its_assignments(
    e: Engines,
    env: Env,
    upd: Update,
    keyspace: Seq<char>,
    table: TableView,
)
    requires
        e.len() >= 1,
        table.columns.len() <= 0x1_0000,
        update_plan(env, upd, keyspace, table) is Ok,
        updates_fit(update_plan(env, upd, keyspace, table)->Ok_0.new_values),
        held(
            e,
            row_place(
                e.len(),
                keyspace,
                table.name,
                update_plan(env, upd, keyspace, table)->Ok_0.key_parts,
            ),
        ) matches Some(bytes) ==> decoded_row(bytes, table.columns) is Ok,
    ensures
        ({
            let sets = upd.assignments@;
            let parts = update_plan(env, upd, keyspace, table)->Ok_0.key_parts;
            let first = data_step(
                e.len(),
                env,
                CassandraStatement::Update(upd),
                keyspace,
                table.name,
                table,
            );
            let taken = markers_set_before(sets, sets.len() as int);
            &&& key_given(env, taken, upd.where_clause@, table, parts)
            &&& first.commands.len() == 0
            &&& first.next matches NextView::Row(place, updating)
            &&& place == row_place(e.len(), keyspace, table.name, parts)
            &&& ({
                let step = row_step(e.len(), updating, Ok(held(e, place)));
                let after = engines_after_all(e, step.commands);
                let before = row_before(held(e, place), table);
                &&& step.next == NextView::Done(Ok(ResponseView::Void))
                &&& held(after, place) is Some
                &&& decoded_row(held(after, place)->Some_0, table.columns) is Ok
                &&& ({
                    let row = decoded_row(held(after, place)->Some_0, table.columns)->Ok_0;
                    &&& row.len() == table.columns.len()
                    &&& forall|j: int, c: int|
                        0 <= j < sets.len() && last_set(sets, j) && #[trigger] is_column(
                            table,
                            id_text((#[trigger] sets[j]).name.column),
                            c,
                        ) && !table.columns[c].is_key() ==> stands_for(
                            env,
                            markers_set_before(sets, j),
                            sets[j].value,
                            table.columns[c].col_type,
                            row[c],
                        )
                    &&& forall|c: int|
                        0 <= c < row.len() && !table.columns[c].is_key() && !set_by(
                            sets,
                            table.columns[c].name,
                        ) ==> #[trigger] row[c] == before[c]
                })
                &&& forall|other: Place|
                    0 <= other.0 < e.len() && other != place ==> #[trigger] held(after, other)
                        == held(e, other)
            })
        }),
{
    let sets = upd.assignments@;
    let plan = update_plan(env, upd, keyspace, table)->Ok_0;
    let (new, taken) = updates_of(env, 0, sets, 0, table)->Ok_0;
    law_set_gives_its_assignments(env, sets, table);
    let filters = filters_of(env, taken, upd.where_clause@, 0, table)->Ok_0.0;
    lemma_key_given(env, taken, upd.where_clause@, table, filters, plan.key_parts);
    law_update_sets_columns(e, env, upd, keyspace, table);
    assert(plan.new_values == new);
    assert forall|j: int, c: int|
        0 <= j < sets.len() && last_set(sets, j) && #[trigger] is_column(
            table,
            id_text((#[trigger] sets[j]).name.column),
            c,
        ) implies set_value(new, c) is Some && stands_for(
        env,
        markers_set_before(sets, j),
        sets[j].value,
        table.columns[c].col_type,
        set_value(new, c)->Some_0,
    ) by {
        assert(assigns(env, markers_set_before(sets, j), sets[j], table, new[j]));
        lemma_is_column(table, id_text(sets[j].name.column));
        assert(new[j].0 == c);
        assert forall|k: int| j < k < new.len() implies (#[trigger] new[k]).0 != new[j].0 by {
            assert(assigns(env, markers_set_before(sets, k), sets[k], table, new[k]));
            assert(id_text(sets[k].name.column) != id_text(sets[j].name.column));
        }
        lemma_set_value(new, j);
    }
    assert forall|c: int|
        0 <= c < table.columns.len() && !set_by(sets, (#[trigger] table.columns[c]).name) implies
        set_value(new, c) is None by {
        assert forall|k: int| 0 <= k < new.len() implies (#[trigger] new[k]).0 != c by {
            assert(assigns(env, markers_set_before(sets, k), sets[k], table, new[k]));
        }
        lemma_unset(new, c);
    }
}

/// An `UPDATE` of a table that may be written is accepted where each assignment
/// gives its column a value, each relation states a restriction, and the clause
/// gives a key.
pub proof fn law_update_is_accepted(
    env: Env,
    upd: Update,
    keyspace: Seq<char>,
    table: TableView,
    new: Seq<(int, ValueView)>,
    fs: Seq<FilterView>,
    parts: Seq<Seq<u8>>,
)
    requires
        keyspace != "system"@,
        keyspace != "system_schema"@,
        new.len() == upd.assignments@.len(),
        forall|j: int|
            0 <= j < new.len() ==> assigns(
                env,
                markers_set_before(upd.assignments@, j),
                upd.assignments@[j],
                table,
                #[trigger] new[j],
            ),
        fs.len() == upd.where_clause@.len(),
        forall|i: int|
            0 <= i < fs.len() ==> states(
                env,
                markers_set_before(upd.assignments@, upd.assignments@.len() as int)
                    + markers_before(upd.where_clause@, i),
                upd.where_clause@[i],
                table,
                #[trigger] fs[i],
            ),
        key_given(
            env,
            markers_set_before(upd.assignments@, upd.assignments@.len() as int),
            upd.where_clause@,
            table,
            parts,
        ),
    ensures
        update_plan(env, upd, keyspace, table) matches Ok(plan) && plan.key_parts == parts
            && plan.new_values == new,
{
    let taken = markers_set_before(upd.assignments@, upd.assignments@.len() as int);
    law_set_is_accepted(env, upd.assignments@, table, new);
    law_where_is_accepted(env, taken, upd.where_clause@, table, fs);
    lemma_key_given(env, taken, upd.where_clause@, table, fs, parts);
}

/// A `DELETE` of a row is done: the row under the key that its `WHERE` clause
/// gives is there no more, and every other row stays as it is.
pub proof fn law_delete_removes_its_row(
    e: Engines,
    env: Env,
    del: Delete,
    keyspace: Seq<char>,
    table: TableView,
    parts: Seq<Seq<u8>>,
)
    requires
        e.len() >= 1,
        delete_command(e.len(), env, del, keyspace, table) is Ok,
        key_given(env, 0, del.where_clause@, table, parts),
    ensures
        ({
            let step = data_step(
                e.len(),
                env,
                CassandraStatement::Delete(del),
                keyspace,
                table.name,
                table,
            );
            let after = engines_after_all(e, step.commands);
            let place = row_place(e.len(), keyspace, table.name, parts);
            &&& step.next == NextView::Done(Ok(ResponseView::Void))
            &&& held(after, place) is None
            &&& forall|other: Place|
                0 <= other.0 < e.len() && other != place ==> #[trigger] held(after, other) == held(
                    e,
                    other,
                )
        }),
{
    let filters = filters_of(env, 0, del.where_clause@, 0, table)->Ok_0.0;
    lemma_key_given(env, 0, del.where_clause@, table, filters, parts);
    let c = delete_row_command(e.len(), keyspace, table.name, parts);
    let commands = seq![c];
    assert(commands.drop_last() =~= Seq::<CommandView>::empty());
    assert(engines_after_all(e, Seq::<CommandView>::empty()) == e);
    assert(engines_after_all(e, commands) == engines_after(e, c));
    law_read_your_writes(e, keyspace, table.name, parts, Seq::empty());
}

/// A `DELETE` of whole rows of a table that may be written is accepted where each
/// relation states a restriction and the clause gives a key, and the key is given
/// where it is accepted.
pub proof fn law_delete_is_accepted(
    n: nat,
    env: Env,
    del: Delete,
    keyspace: Seq<char>,
    table: TableView,
    fs: Seq<FilterView>,
    parts: Seq<Seq<u8>>,
)
    ensures
        keyspace != "system"@ && keyspace != "system_schema"@ && del.columns@.len() == 0 && fs.len()
            == del.where_clause@.len() && key_given(env, 0, del.where_clause@, table, parts) && (
        forall|i: int|
            0 <= i < fs.len() ==> states(
                env,
                markers_before(del.where_clause@, i),
                del.where_clause@[i],
                table,
                #[trigger] fs[i],
            )) ==> delete_command(n, env, del, keyspace, table) is Ok,
        delete_command(n, env, del, keyspace, table) is Ok ==> exists|given: Seq<Seq<u8>>|
            key_given(env, 0, del.where_clause@, table, given),
{
    let rels = del.where_clause@;
    if keyspace != "system"@ && keyspace != "system_schema"@ && del.columns@.len() == 0 && fs.len()
        == rels.len() && key_given(env, 0, rels, table, parts) && (forall|i: int|
        0 <= i < fs.len() ==> states(
            env,
            markers_before(rels, i),
            rels[i],
            table,
            #[trigger] fs[i],
        )) {
        law_where_is_accepted(env, 0, rels, table, fs);
        lemma_key_given(env, 0, rels, table, fs, parts);
    }
    if delete_command(n, env, del, keyspace, table) is Ok {
        let filters = filters_of(env, 0, rels, 0, table)->Ok_0.0;
        let given = fixed_parts(filters, table.key_names(), 0)->Ok_0;
        lemma_key_given(env, 0, rels, table, filters, given);
    }
}

/// Whether a column of an `INSERT` gives a key column its value, which is not null.
pub open spec fn gives_key(
    cols: Seq<Identifier>,
    pairs: Seq<Assigned>,
    name: Seq<char>,
    j: int,
) -> bool {
    &&& 0 <= j < cols.len() == pairs.len()
    &&& id_text(cols[j]) == name
    &&& last_named(cols, j)
    &&& pairs[j].1 !is Null
}

/// Whether a column of an `INSERT` gives a key column its value.
pub open spec fn is_key_given(
    cols: Seq<Identifier>,
    pairs: Seq<Assigned>,
    name: Seq<char>,
) -> bool {
    exists|j: int| #[trigger] gives_key(cols, pairs, name, j)
}

proof fn lemma_assigned_parts(
    cols: Seq<Identifier>,
    pairs: Seq<Assigned>,
    names: Seq<Seq<char>>,
    i: int,
    missing: Seq<char>,
    null: Seq<char>,
)
    requires
        0 <= i <= names.len(),
        cols.len() == pairs.len(),
        forall|j: int| 0 <= j < cols.len() ==> (#[trigger] pairs[j]).0 == id_text(cols[j]),
        forall|k: int|
            0 <= k < names.len() ==> is_key_given(cols, pairs, #[trigger] names[k]),
    ensures
        assigned_parts(pairs, names, i, missing, null) matches Ok(parts) && parts.len()
            == names.len() - i && forall|k: int, j: int|
            0 <= k < parts.len() && #[trigger] gives_key(cols, pairs, names[i + k], j)
                ==> #[trigger] parts[k] == raw(pairs[j].1),
    decreases names.len() - i,
{
    if i < names.len() {
        lemma_assigned_parts(cols, pairs, names, i + 1, missing, null);
        let rest = assigned_parts(pairs, names, i + 1, missing, null)->Ok_0;
        assert(is_key_given(cols, pairs, names[i]));
        let at = choose|j: int| #[trigger] gives_key(cols, pairs, names[i], j);
        assert forall|j: int| #[trigger] gives_key(cols, pairs, names[i], j) implies value_named(
            pairs,
            names[i],
        ) == Some(pairs[j].1) by {
            assert forall|k: int| j < k < pairs.len() implies (#[trigger] pairs[k]).0
                != pairs[j].0 by {
                assert(id_text(cols[k]) != id_text(cols[j]));
            }
            assert(pairs[j].0 == id_text(cols[j]));
            lemma_last_named(pairs, j);
        }
        assert(gives_key(cols, pairs, names[i], at));
        let parts = assigned_parts(pairs, names, i, missing, null)->Ok_0;
        assert(parts =~= seq![raw(pairs[at].1)] + rest);
        assert forall|k: int, j: int|
            0 <= k < parts.len() && #[trigger] gives_key(
                cols,
                pairs,
                names[i + k],
                j,
            ) implies #[trigger] parts[k] == raw(pairs[j].1) by {
            if k > 0 {
                assert(names[i + k] == names[(i + 1) + (k - 1)]);
                assert(gives_key(cols, pairs, names[(i + 1) + (k - 1)], j));
                assert(parts[k] == rest[k - 1]);
            }
        }
    }
}

/// An `INSERT` outside the system keyspaces whose operands have values, and that
/// gives every column of the key one that is not null, is not refused: the parts
/// of the key of its row are the bytes of these values, in the order of the key.
pub proof fn law_insert_is_accepted(
    env: Env,
    ins: Insert,
    operands: Seq<Operand>,
    keyspace: Seq<char>,
    table: TableView,
    pairs: Seq<Assigned>,
)
    requires
        keyspace != "system"@ && keyspace != "system_schema"@,
        ins.values matches InsertValues::Values(given) && given@ == operands,
        ins.columns@.len() == operands.len() == pairs.len(),
        forall|j: int|
            0 <= j < pairs.len() ==> gives(
                env,
                markers_among(operands, j),
                ins.columns@[j],
                operands[j],
                table,
                #[trigger] pairs[j],
            ),
        forall|k: int|
            0 <= k < table.partition_keys.len() ==> is_key_given(
                ins.columns@,
                pairs,
                #[trigger] table.partition_keys[k],
            ),
        forall|k: int|
            0 <= k < table.clustering_keys.len() ==> is_key_given(
                ins.columns@,
                pairs,
                #[trigger] table.clustering_keys[k],
            ),
    ensures
        inserted_row(env, ins, keyspace, table) is Ok,
        ({
            let parts = inserted_row(env, ins, keyspace, table)->Ok_0.0;
            let names = table.partition_keys + table.clustering_keys;
            &&& parts.len() == names.len()
            &&& forall|k: int, j: int|
                0 <= k < parts.len() && #[trigger] gives_key(ins.columns@, pairs, names[k], j)
                    ==> #[trigger] parts[k] == raw(pairs[j].1)
        }),
{
    let cols = ins.columns@;
    assert(markers_among(operands, 0) == 0);
    assert forall|j: int| 0 <= j < pairs.len() implies gives(
        env,
        markers_among(operands, 0 + j),
        cols[0 + j],
        operands[0 + j],
        table,
        #[trigger] pairs[j],
    ) by {}
    lemma_assignments_give_back(env, 0, cols, operands, 0, table, pairs);
    assert forall|j: int| 0 <= j < cols.len() implies (#[trigger] pairs[j]).0 == id_text(
        cols[j],
    ) by {
        assert(gives(env, markers_among(operands, j), cols[j], operands[j], table, pairs[j]));
    }
    let a_missing = "Some partition key parts are missing: "@;
    let a_null = "Invalid null value for partition key part "@;
    let b_missing = "Some clustering key parts are missing: "@;
    let b_null = "Invalid null value for clustering key part "@;
    lemma_assigned_parts(cols, pairs, table.partition_keys, 0, a_missing, a_null);
    lemma_assigned_parts(cols, pairs, table.clustering_keys, 0, b_missing, b_null);
    let a = assigned_parts(pairs, table.partition_keys, 0, a_missing, a_null)->Ok_0;
    let b = assigned_parts(pairs, table.clustering_keys, 0, b_missing, b_null)->Ok_0;
    let parts = inserted_row(env, ins, keyspace, table)->Ok_0.0;
    let names = table.partition_keys + table.clustering_keys;
    assert(parts == a + b);
    assert forall|k: int, j: int|
        0 <= k < parts.len() && #[trigger] gives_key(
            cols,
            pairs,
            names[k],
            j,
        ) implies #[trigger] parts[k] == raw(pairs[j].1) by {
        if k < a.len() {
            assert(names[k] == table.partition_keys[0 + k]);
            assert(gives_key(cols, pairs, table.partition_keys[0 + k], j));
            assert(parts[k] == a[k]);
        } else {
            let m = k - a.len();
            assert(names[k] == table.clustering_keys[0 + m]);
            assert(gives_key(cols, pairs, table.clustering_keys[0 + m], j));
            assert(parts[k] == b[m]);
        }
    }
}

proof fn lemma_value_is_given(pairs: Seq<Assigned>, name: Seq<char>) -> (at: int)
    requires
        value_named(pairs, name) is Some,
    ensures
        0 <= at < pairs.len(),
        pairs[at] == (name, value_named(pairs, name)->Some_0),
        forall|k: int| at < k < pairs.len() ==> (#[trigger] pairs[k]).0 != name,
    decreases pairs.len(),
{
    if pairs.last().0 == name {
        pairs.len() - 1
    } else {
        let at = lemma_value_is_given(pairs.drop_last(), name);
        assert forall|k: int| at < k < pairs.len() implies (#[trigger] pairs[k]).0 != name by {
            if k < pairs.len() - 1 {
                assert(pairs.drop_last()[k] == pairs[k]);
            }
        }
        at
    }
}

proof fn lemma_parts_are_given(
    cols: Seq<Identifier>,
    pairs: Seq<Assigned>,
    names: Seq<Seq<char>>,
    i: int,
    missing: Seq<char>,
    null: Seq<char>,
)
    requires
        0 <= i <= names.len(),
        cols.len() == pairs.len(),
        forall|j: int| 0 <= j < cols.len() ==> (#[trigger] pairs[j]).0 == id_text(cols[j]),
        assigned_parts(pairs, names, i, missing, null) is Ok,
    ensures
        forall|k: int|
            i <= k < names.len() ==> is_key_given(cols, pairs, #[trigger] names[k]),
    decreases names.len() - i,
{
    if i < names.len() {
        lemma_parts_are_given(cols, pairs, names, i + 1, missing, null);
        let at = lemma_value_is_given(pairs, names[i]);
        assert(pairs[at].0 == id_text(cols[at]));
        assert(last_named(cols, at)) by {
            assert forall|k: int| at < k < cols.len() implies id_text(#[trigger] cols[k])
                != id_text(cols[at]) by {
                assert(pairs[k].0 == id_text(cols[k]));
            }
        }
        assert(gives_key(cols, pairs, names[i], at));
        assert forall|k: int| i <= k < names.len() implies is_key_given(
            cols,
            pairs,
            #[trigger] names[k],
        ) by {
            if k > i {
                assert(i + 1 <= k);
            }
        }
    }
}

/// An `INSERT` is refused unless it has one value for each of its columns, none of
/// them as JSON, and gives every column of the key one that is not null. The
/// tables of the system keyspaces are not written.
pub proof fn law_insert_needs_its_key(
    env: Env,
    ins: Insert,
    keyspace: Seq<char>,
    table: TableView,
)
    requires
        inserted_row(env, ins, keyspace, table) is Ok,
    ensures
        keyspace != "system"@ && keyspace != "system_schema"@,
        ins.values matches InsertValues::Values(given) && given@.len() == ins.columns@.len(),
        ({
            let pairs = insert_assignments(env, ins, table);
            &&& forall|k: int|
                0 <= k < table.partition_keys.len() ==> is_key_given(
                    ins.columns@,
                    pairs,
                    #[trigger] table.partition_keys[k],
                )
            &&& forall|k: int|
                0 <= k < table.clustering_keys.len() ==> is_key_given(
                    ins.columns@,
                    pairs,
                    #[trigger] table.clustering_keys[k],
                )
        }),
{
    let cols = ins.columns@;
    let pairs = insert_assignments(env, ins, table);
    if let InsertValues::Values(given) = ins.values {
        law_values_are_given_in_order(env, cols, given@, table);
        assert forall|j: int| 0 <= j < cols.len() implies (#[trigger] pairs[j]).0 == id_text(
            cols[j],
        ) by {
            assert(gives(env, markers_among(given@, j), cols[j], given@[j], table, pairs[j]));
        }
    }
    lemma_parts_are_given(
        cols,
        pairs,
        table.partition_keys,
        0,
        "Some partition key parts are missing: "@,
        "Invalid null value for partition key part "@,
    );
    lemma_parts_are_given(
        cols,
        pairs,
        table.clustering_keys,
        0,
        "Some clustering key parts are missing: "@,
        "Invalid null value for clustering key part "@,
    );
}

/// What the server does not do it refuses: a `DELETE` of single columns, an
/// assignment that adds to a column, and a statement about a table that is not
/// there. Nothing is written.
pub proof fn law_unsupported_is_refused(
    n: nat,
    env: Env,
    del: Delete,
    upd: Update,
    j: int,
    stmt: CassandraStatement,
    keyspace: Seq<char>,
    name: Seq<char>,
    table: TableView,
)
    requires
        del.columns@.len() > 0,
        0 <= j < upd.assignments@.len(),
        upd.assignments@[j].operator is Some,
        stmt is Insert || stmt is Update || stmt is Select || stmt is Delete || stmt is Truncate,
    ensures
        ({
            let step = data_step(
                n,
                env,
                CassandraStatement::Delete(del),
                keyspace,
                name,
                table,
            );
            step.commands.len() == 0 && step.next is Done && step.next->Done_0 is Err
        }),
        ({
            let step = data_step(
                n,
                env,
                CassandraStatement::Update(upd),
                keyspace,
                name,
                table,
            );
            step.commands.len() == 0 && step.next is Done && step.next->Done_0 is Err
        }),
        ({
            let step = table_step(n, env, stmt, keyspace, name, Ok(None));
            step.commands.len() == 0 && step.next is Done && step.next->Done_0 is Err
        }),
{
    law_set_gives_its_assignments(env, upd.assignments@, table);
    if let Ok((new, _)) = updates_of(env, 0, upd.assignments@, 0, table) {
        assert(assigns(
            env,
            markers_set_before(upd.assignments@, j),
            upd.assignments@[j],
            table,
            new[j],
        ));
    }
}

/// Whether the bits of a float, one of sign, eight of exponent and twenty-three
/// of fraction, are no number.
pub open spec fn is_nan32(x: u32) -> bool {
    (x / 0x80_0000) % 0x100 == 0xFF && x % 0x80_0000 != 0
}

/// Whether the bits of a float are a zero, of either sign.
pub open spec fn is_zero32(x: u32) -> bool {
    x == 0 || x == 0x8000_0000
}

/// Whether the bits of a double, one of sign, eleven of exponent and fifty-two of
/// fraction, are no number.
pub open spec fn is_nan64(x: u64) -> bool {
    (x / 0x10_0000_0000_0000) % 0x800 == 0x7FF && x % 0x10_0000_0000_0000 != 0
}

/// Whether the bits of a double are a zero, of either sign.
pub open spec fn is_zero64(x: u64) -> bool {
    x == 0 || x == 0x8000_0000_0000_0000
}

/// Whether two values are the same to a restriction: the same type and contents,
/// where floating-point numbers compare as numbers.
pub open spec fn same(a: ValueView, b: ValueView) -> bool
    decreases a,
{
    match a {
        ValueView::Float(x) => b matches ValueView::Float(y) && !is_nan32(x) && !is_nan32(y) && (x
            == y || is_zero32(x) && is_zero32(y)),
        ValueView::Double(x) => b matches ValueView::Double(y) && !is_nan64(x) && !is_nan64(y) && (
        x == y || is_zero64(x) && is_zero64(y)),
        ValueView::SetOf(x) => b matches ValueView::SetOf(y) && x.len() == y.len() && forall|i: int|
            0 <= i < x.len() ==> same(#[trigger] x[i], y[i]),
        ValueView::List(x) => b matches ValueView::List(y) && x.len() == y.len() && forall|i: int|
            0 <= i < x.len() ==> same(#[trigger] x[i], y[i]),
        ValueView::MapOf(x) => b matches ValueView::MapOf(y) && x.len() == y.len() && forall|i: int|
            0 <= i < x.len() ==> same((#[trigger] x[i]).0, y[i].0) && same(x[i].1, y[i].1),
        _ => a == b,
    }
}

/// Values are told apart exactly where they are not the same.
pub proof fn law_values_compare_by_content(a: ValueView, b: ValueView)
    ensures
        equal(a, b) == same(a, b),
    decreases a,
{
    match (a, b) {
        (ValueView::SetOf(x), ValueView::SetOf(y)) => {
            if x.len() == y.len() {
                assert forall|i: int| 0 <= i < x.len() implies equal(#[trigger] x[i], y[i]) == same(
                    x[i],
                    y[i],
                ) by {
                    law_values_compare_by_content(x[i], y[i]);
                }
            }
        },
        (ValueView::List(x), ValueView::List(y)) => {
            if x.len() == y.len() {
                assert forall|i: int| 0 <= i < x.len() implies equal(#[trigger] x[i], y[i]) == same(
                    x[i],
                    y[i],
                ) by {
                    law_values_compare_by_content(x[i], y[i]);
                }
            }
        },
        (ValueView::MapOf(x), ValueView::MapOf(y)) => {
            if x.len() == y.len() {
                assert forall|i: int| 0 <= i < x.len() implies equal((#[trigger] x[i]).0, y[i].0)
                    == same(x[i].0, y[i].0) && equal(x[i].1, y[i].1) == same(x[i].1, y[i].1) by {
                    law_values_compare_by_content(x[i].0, y[i].0);
                    law_values_compare_by_content(x[i].1, y[i].1);
                }
            }
        },
        _ => {},
    }
}

/// Whether a relation of a `WHERE` clause holds of a row, where the first of its
/// markers has that number.
pub open spec fn holds(
    env: Env,
    number: nat,
    rel: RelationElement,
    table: TableView,
    row: Seq<ValueView>,
) -> bool {
    rel.obj matches Operand::Column(col) && exists|c: int| #[trigger]
        is_column(table, id_text(col), c) && {
            let t = table.columns[c].col_type;
            if rel.oper is Equal {
                if rel.value is Null {
                    row[c] is Null
                } else {
                    exists|v: ValueView| #[trigger]
                        restricts_to(env, number, rel.value, t, v) && same(v, row[c])
                }
            } else if rel.oper is In {
                match rel.value {
                    Operand::Tuple(items) => exists|i: int, v: ValueView|
                        0 <= i < items@.len() && #[trigger] restricts_to(
                            env,
                            number + markers_among(items@, i),
                            items@[i],
                            t,
                            v,
                        ) && same(v, row[c]),
                    _ => exists|v: ValueView| #[trigger]
                        restricts_to(env, number, rel.value, t, v) && same(v, row[c]),
                }
            } else {
                false
            }
        }
}

proof fn lemma_restricts_to_one(
    env: Env,
    number: nat,
    operand: Operand,
    t: ColumnType,
    v: ValueView,
    w: ValueView,
)
    requires
        restricts_to(env, number, operand, t, v),
        restricts_to(env, number, operand, t, w),
    ensures
        v == w,
{
}

/// A restriction is met by the rows of which its relation holds.
proof fn lemma_meets_holds(
    env: Env,
    number: nat,
    rel: RelationElement,
    table: TableView,
    f: FilterView,
    row: Seq<ValueView>,
)
    requires
        states(env, number, rel, table, f),
    ensures
        meets(f, row, table) == holds(env, number, rel, table, row),
{
    let name = restricted_name(f);
    lemma_is_column(table, name);
    let c = table.index_of(name)->Some_0;
    assert(is_column(table, name, c));
    let t = table.columns[c].col_type;
    match f {
        FilterView::Eq(_, v) => {
            law_values_compare_by_content(v, row[c]);
            if holds(env, number, rel, table, row) && !(rel.value is Null) {
                let w = choose|w: ValueView| #[trigger]
                    restricts_to(env, number, rel.value, t, w) && same(w, row[c]);
                lemma_restricts_to_one(env, number, rel.value, t, v, w);
            }
            if meets(f, row, table) && !(rel.value is Null) {
                assert(restricts_to(env, number, rel.value, t, v));
            }
        },
        FilterView::In(_, vs) => {
            assert forall|i: int| 0 <= i < vs.len() implies equal(#[trigger] vs[i], row[c]) == same(
                vs[i],
                row[c],
            ) by {
                law_values_compare_by_content(vs[i], row[c]);
            }
            match rel.value {
                Operand::Tuple(items) => {
                    if holds(env, number, rel, table, row) {
                        let (i, w) = choose|i: int, w: ValueView|
                            0 <= i < items@.len() && #[trigger] restricts_to(
                                env,
                                number + markers_among(items@, i),
                                items@[i],
                                t,
                                w,
                            ) && same(w, row[c]);
                        assert(restricts_to(
                            env,
                            number + markers_among(items@, i),
                            items@[i],
                            t,
                            vs[i],
                        ));
                        assert(equal(vs[i], row[c]));
                    }
                    if meets(f, row, table) {
                        let i = choose|i: int|
                            0 <= i < vs.len() && equal(#[trigger] vs[i], row[c]);
                        assert(restricts_to(
                            env,
                            number + markers_among(items@, i),
                            items@[i],
                            t,
                            vs[i],
                        ));
                    }
                },
                _ => {
                    if holds(env, number, rel, table, row) {
                        let w = choose|w: ValueView| #[trigger]
                            restricts_to(env, number, rel.value, t, w) && same(w, row[c]);
                        lemma_restricts_to_one(env, number, rel.value, t, vs[0], w);
                        assert(equal(vs[0], row[c]));
                    }
                    if meets(f, row, table) {
                        let i = choose|i: int|
                            0 <= i < vs.len() && equal(#[trigger] vs[i], row[c]);
                        assert(i == 0);
                        assert(restricts_to(env, number, rel.value, t, vs[0]));
                    }
                },
            }
        },
    }
}

/// Whether every relation of a `WHERE` clause holds of a row.
pub open spec fn all_hold(
    env: Env,
    rels: Seq<RelationElement>,
    table: TableView,
    row: Seq<ValueView>,
) -> bool {
    forall|i: int|
        0 <= i < rels.len() ==> holds(
            env,
            markers_before(rels, i),
            #[trigger] rels[i],
            table,
            row,
        )
}

/// A row meets the restrictions of a `WHERE` clause exactly if every relation of
/// the clause holds of it.
pub proof fn law_restrictions_are_met_where_relations_hold(
    env: Env,
    rels: Seq<RelationElement>,
    table: TableView,
    row: Seq<ValueView>,
)
    requires
        filters_of(env, 0, rels, 0, table) is Ok,
    ensures
        meets_all(filters_of(env, 0, rels, 0, table)->Ok_0.0, row, table) == all_hold(
            env,
            rels,
            table,
            row,
        ),
{
    let fs = filters_of(env, 0, rels, 0, table)->Ok_0.0;
    law_where_states_its_relations(env, 0, rels, table);
    assert forall|i: int| 0 <= i < fs.len() implies meets(#[trigger] fs[i], row, table) == holds(
        env,
        markers_before(rels, i),
        rels[i],
        table,
        row,
    ) by {
        lemma_meets_holds(env, markers_before(rels, i), rels[i], table, fs[i], row);
    }
    if meets_all(fs, row, table) {
        assert forall|i: int| 0 <= i < rels.len() implies holds(
            env,
            markers_before(rels, i),
            #[trigger] rels[i],
            table,
            row,
        ) by {
            assert(meets(fs[i], row, table));
        }
    }
    if all_hold(env, rels, table, row) {
        assert forall|i: int| 0 <= i < fs.len() implies meets(#[trigger] fs[i], row, table) by {
            assert(holds(env, markers_before(rels, i), rels[i], table, row));
        }
    }
}

/// Whether a `SELECT` asks for every column.
pub open spec fn asks_for_all(elems: Seq<SelectElement>) -> bool {
    exists|i: int| 0 <= i < elems.len() && #[trigger] elems[i] is Star
}

/// Whether the `k`-th column of the result of a `SELECT` is the column `c` of its
/// table.
pub open spec fn shows(elems: Seq<SelectElement>, table: TableView, k: int, c: int) -> bool {
    if asks_for_all(elems) {
        c == k
    } else {
        elems[k] matches SelectElement::Column(named) && is_column(table, id_text(named.name), c)
    }
}

/// How many columns the result of a `SELECT` has.
pub open spec fn width(elems: Seq<SelectElement>, table: TableView) -> nat {
    if asks_for_all(elems) {
        table.columns.len()
    } else {
        elems.len()
    }
}

proof fn lemma_named(elems: Seq<SelectElement>, i: int, table: TableView)
    requires
        0 <= i <= elems.len(),
        forall|k: int| 0 <= k < elems.len() ==> !(#[trigger] elems[k] is Star),
    ensures
        named_columns(elems, i, table) matches Ok(cols) ==> cols.len() == elems.len() - i
            && forall|k: int|
            0 <= k < cols.len() ==> names_column(elems[i + k], table, #[trigger] cols[k]),
    decreases elems.len() - i,
{
    if i < elems.len() {
        lemma_named(elems, i + 1, table);
        assert(!(elems[i] is Star));
        if let Ok(cols) = named_columns(elems, i, table) {
            let rest = named_columns(elems, i + 1, table)->Ok_0;
            match elems[i] {
                SelectElement::Column(named) => {
                    lemma_is_column(table, id_text(named.name));
                    let c = table.index_of(id_text(named.name))->Some_0;
                    assert(is_column(table, id_text(named.name), c));
                },
                _ => {},
            }
            assert forall|k: int| 0 <= k < cols.len() implies names_column(
                elems[i + k],
                table,
                #[trigger] cols[k],
            ) by {
                if k > 0 {
                    assert(cols[k] == rest[k - 1]);
                    assert(elems[i + k] == elems[(i + 1) + (k - 1)]);
                }
            }
        }
    }
}

/// Whether a column of a result is the one that an element of a `SELECT` names:
/// called by its alias, if it has one, and of the type of the table's column.
pub open spec fn names_column(elem: SelectElement, table: TableView, col: NamedType) -> bool {
    elem matches SelectElement::Column(named) && col.0 == id_text(
        match named.alias {
            Some(alias) => alias,
            None => named.name,
        },
    ) && exists|c: int| #[trigger]
        is_column(table, id_text(named.name), c) && col.1 == table.columns[c].col_type
}

/// The columns of a result are those that the `SELECT` asks for, in its order:
/// all of the table's, or the ones that it names, each of the type of the table's
/// column.
pub proof fn law_select_shows_its_columns(elems: Seq<SelectElement>, table: TableView)
    ensures
        selected_columns(elems, table) matches Ok(cols) ==> {
            &&& cols.len() == width(elems, table)
            &&& forall|k: int|
                0 <= k < cols.len() ==> if asks_for_all(elems) {
                    #[trigger] cols[k] == (table.columns[k].name, table.columns[k].col_type)
                } else {
                    names_column(elems[k], table, cols[k])
                }
        },
{
    if !asks_for_all(elems) {
        lemma_named(elems, 0, table);
        if let Ok(cols) = selected_columns(elems, table) {
            assert forall|k: int| 0 <= k < cols.len() implies names_column(
                elems[k],
                table,
                #[trigger] cols[k],
            ) by {
                assert(elems[0 + k] == elems[k]);
            }
        }
    }
}

/// Whether an element of a `SELECT` asks for a column that is there, or for all.
pub open spec fn asks_for_column(elem: SelectElement, table: TableView) -> bool {
    match elem {
        SelectElement::Star => true,
        SelectElement::Column(named) => exists|c: int| #[trigger]
            is_column(table, id_text(named.name), c),
        _ => false,
    }
}

proof fn lemma_named_accepted(elems: Seq<SelectElement>, i: int, table: TableView)
    requires
        0 <= i <= elems.len(),
    ensures
        named_columns(elems, i, table) is Ok <==> forall|k: int|
            i <= k < elems.len() ==> asks_for_column(#[trigger] elems[k], table),
    decreases elems.len() - i,
{
    if i < elems.len() {
        lemma_named_accepted(elems, i + 1, table);
        if let SelectElement::Column(named) = elems[i] {
            lemma_is_column(table, id_text(named.name));
            if let Some(c) = table.index_of(id_text(named.name)) {
                assert(is_column(table, id_text(named.name), c));
            }
        }
        if named_columns(elems, i, table) is Ok {
            assert(asks_for_column(elems[i], table));
            assert forall|k: int| i <= k < elems.len() implies asks_for_column(
                #[trigger] elems[k],
                table,
            ) by {
                if k > i {
                    assert(i + 1 <= k);
                }
            }
        }
        if forall|k: int| i <= k < elems.len() ==> asks_for_column(#[trigger] elems[k], table) {
            assert(asks_for_column(elems[i], table));
        }
    }
}

/// A `SELECT` is accepted where each of its elements is `*` or a column of the
/// table and each relation states a restriction: it then keeps to these
/// restrictions and to its own limit. With any other element it is refused.
pub proof fn law_select_is_accepted(env: Env, sel: Select, table: TableView, fs: Seq<FilterView>)
    requires
        fs.len() == sel.where_clause@.len(),
        forall|i: int|
            0 <= i < fs.len() ==> states(
                env,
                markers_before(sel.where_clause@, i),
                sel.where_clause@[i],
                table,
                #[trigger] fs[i],
            ),
    ensures
        select_plan(env, sel, table) is Ok <==> forall|k: int|
            0 <= k < sel.columns@.len() ==> asks_for_column(#[trigger] sel.columns@[k], table),
        select_plan(env, sel, table) matches Ok(plan) ==> plan.filters == fs && plan.limit
            == sel.limit,
{
    let rels = sel.where_clause@;
    assert forall|i: int| 0 <= i < fs.len() implies states(
        env,
        0 + markers_before(rels, i),
        rels[i],
        table,
        #[trigger] fs[i],
    ) by {}
    law_where_is_accepted(env, 0, rels, table, fs);
    lemma_named_accepted(sel.columns@, 0, table);
}

proof fn lemma_projected_values(
    selected: Seq<NamedType>,
    i: int,
    values: Seq<ValueView>,
    table: TableView,
)
    requires
        0 <= i <= selected.len(),
    ensures
        projected(selected, i, values, table) matches Ok(out) ==> out.len() == selected.len() - i
            && forall|k: int|
            0 <= k < out.len() ==> is_column_value(
                selected[i + k].0,
                values,
                table,
                #[trigger] out[k],
            ),
    decreases selected.len() - i,
{
    if i < selected.len() {
        lemma_projected_values(selected, i + 1, values, table);
        lemma_is_column(table, selected[i].0);
        if let Ok(out) = projected(selected, i, values, table) {
            let rest = projected(selected, i + 1, values, table)->Ok_0;
            let c = table.index_of(selected[i].0)->Some_0;
            assert(is_column(table, selected[i].0, c));
            assert forall|k: int| 0 <= k < out.len() implies is_column_value(
                selected[i + k].0,
                values,
                table,
                #[trigger] out[k],
            ) by {
                if k > 0 {
                    assert(out[k] == rest[k - 1]);
                    assert(selected[i + k] == selected[(i + 1) + (k - 1)]);
                } else {
                    assert(out[0] == values[c]);
                }
            }
        }
    }
}

/// Whether a value is the one that a row has in the column of that name.
pub open spec fn is_column_value(
    name: Seq<char>,
    values: Seq<ValueView>,
    table: TableView,
    v: ValueView,
) -> bool {
    exists|c: int| #[trigger] is_column(table, name, c) && v == values[c]
}

/// The columns of a result row hold what the row has in the columns of these
/// names.
pub proof fn law_result_rows_hold_their_columns(
    selected: Seq<NamedType>,
    values: Seq<ValueView>,
    table: TableView,
)
    ensures
        projected(selected, 0, values, table) matches Ok(out) ==> out.len() == selected.len()
            && forall|k: int|
            0 <= k < out.len() ==> is_column_value(
                selected[k].0,
                values,
                table,
                #[trigger] out[k],
            ),
{
    lemma_projected_values(selected, 0, values, table);
    if let Ok(out) = projected(selected, 0, values, table) {
        assert forall|k: int| 0 <= k < out.len() implies is_column_value(
            selected[k].0,
            values,
            table,
            #[trigger] out[k],
        ) by {
            assert(selected[0 + k] == selected[k]);
        }
    }
}

/// Whether a stored row is one that a `SELECT` asks for.
pub open spec fn wanted(env: Env, sel: Select, keyspace: Seq<char>, table: TableView) -> spec_fn(
    (Seq<u8>, Seq<u8>),
) -> bool {
    |r: (Seq<u8>, Seq<u8>)|
        all_hold(env, sel.where_clause@, table, row_values(r.0, r.1, keyspace, table)->Ok_0)
}

/// What a `SELECT` shows of a stored row.
pub open spec fn shown(sel: Select, keyspace: Seq<char>, table: TableView) -> spec_fn(
    (Seq<u8>, Seq<u8>),
) -> Seq<ValueView> {
    |r: (Seq<u8>, Seq<u8>)|
        Seq::new(
            width(sel.columns@, table),
            |k: int|
                row_values(r.0, r.1, keyspace, table)->Ok_0[choose|c: int| #[trigger]
                    shows(sel.columns@, table, k, c)],
        )
}

/// A `SELECT` gives, each as often as there are such rows, what it asks to see of
/// exactly those stored rows of its table of which every relation of its `WHERE`
/// clause holds; with a limit, as many of them as the limit says. It writes
/// nothing.
pub proof fn law_select_gives_what_it_asks_for(
    e: Engines,
    env: Env,
    sel: Select,
    keyspace: Seq<char>,
    table: TableView,
    found: Seq<Seq<(Seq<u8>, Seq<u8>)>>,
    stored: Seq<(Seq<u8>, Seq<u8>)>,
)
    requires
        e.len() >= 1,
        keyed(table),
        unaliased(sel.columns@),
        select_plan(env, sel, table) is Ok,
        lists_exactly(select_plan(env, sel, table)->Ok_0.filters, table),
        sel.limit matches Some(l) ==> l >= 1,
        rows_in_place(e, keyspace, table),
        lists_table(e, keyspace, table.name, stored),
        rows_decode(stored, table),
        found_by(e, select_step(e.len(), env, sel, keyspace, table).next->Rows_0, found),
    ensures
        ({
            let first = data_step(
                e.len(),
                env,
                CassandraStatement::Select(sel),
                keyspace,
                table.name,
                table,
            );
            let step = rows_step(first.next->Rows_1, Ok(found.flatten()));
            let all = stored.filter(wanted(env, sel, keyspace, table)).map_values(
                shown(sel, keyspace, table),
            );
            &&& first.commands.len() == 0
            &&& first.next is Rows
            &&& step.commands.len() == 0
            &&& step.next matches NextView::Done(Ok(ResponseView::Rows { rows, .. }))
            &&& match sel.limit {
                None => rows.to_multiset() == all.to_multiset(),
                Some(l) => {
                    &&& rows.len() == if all.len() <= l {
                        all.len() as int
                    } else {
                        l as int
                    }
                    &&& rows.to_multiset().subset_of(all.to_multiset())
                },
            }
        }),
{
    law_select_statement(e, env, sel, keyspace, table, found, stored);
    lemma_select_in_words(env, sel, keyspace, table);
}

proof fn lemma_select_in_words(env: Env, sel: Select, keyspace: Seq<char>, table: TableView)
    requires
        readable(table),
        unaliased(sel.columns@),
        select_plan(env, sel, table) is Ok,
    ensures
        matching(select_plan(env, sel, table)->Ok_0, keyspace, table) == wanted(
            env,
            sel,
            keyspace,
            table,
        ),
        projection(select_plan(env, sel, table)->Ok_0, keyspace, table) == shown(
            sel,
            keyspace,
            table,
        ),
{
    let plan = select_plan(env, sel, table)->Ok_0;
    let elems = sel.columns@;
    let p = matching(plan, keyspace, table);
    let q = wanted(env, sel, keyspace, table);
    assert forall|r: (Seq<u8>, Seq<u8>)| #[trigger] p(r) == q(r) by {
        law_restrictions_are_met_where_relations_hold(
            env,
            sel.where_clause@,
            table,
            row_values(r.0, r.1, keyspace, table)->Ok_0,
        );
    }
    assert(p =~= q);
    let f = projection(plan, keyspace, table);
    let g = shown(sel, keyspace, table);
    law_plan_selects_columns(env, sel, table);
    law_select_shows_its_columns(elems, table);
    assert forall|r: (Seq<u8>, Seq<u8>)| #[trigger] f(r) == g(r) by {
        let values = row_values(r.0, r.1, keyspace, table)->Ok_0;
        lemma_projects(plan, 0, values, table);
        law_result_rows_hold_their_columns(plan.selected, values, table);
        let out = f(r);
        assert forall|k: int| 0 <= k < out.len() implies out[k] == g(r)[k] by {
            assert(is_column_value(plan.selected[k].0, values, table, out[k]));
            let c = choose|c: int| #[trigger]
                is_column(table, plan.selected[k].0, c) && out[k] == values[c];
            lemma_shows(elems, table, plan.selected, k, c);
            let d = choose|d: int| #[trigger] shows(elems, table, k, d);
            assert(shows(elems, table, k, d));
            lemma_shows_one(elems, table, k, c, d);
        }
        assert(out =~= g(r));
    }
    assert(f =~= g);
}

proof fn lemma_shows(
    elems: Seq<SelectElement>,
    table: TableView,
    cols: Seq<NamedType>,
    k: int,
    c: int,
)
    requires
        readable(table),
        unaliased(elems),
        0 <= k < cols.len(),
        cols.len() == width(elems, table),
        asks_for_all(elems) ==> cols[k] == (table.columns[k].name, table.columns[k].col_type),
        !asks_for_all(elems) ==> names_column(elems[k], table, cols[k]),
        is_column(table, cols[k].0, c),
    ensures
        shows(elems, table, k, c),
{
    if asks_for_all(elems) {
        lemma_is_column(table, table.columns[k].name);
        assert(table.index_of(table.columns[k].name) == Some(k));
    }
}

proof fn lemma_shows_one(elems: Seq<SelectElement>, table: TableView, k: int, c: int, d: int)
    requires
        shows(elems, table, k, c),
        shows(elems, table, k, d),
    ensures
        c == d,
{
    if !asks_for_all(elems) {
        match elems[k] {
            SelectElement::Column(named) => lemma_is_column(table, id_text(named.name)),
            _ => {},
        }
    }
}


/// What a `SELECT` gives comes in the order of the rows that it reads: as they
/// were found where the whole partition key is restricted, and else by their keys.
/// With a limit the first of them are given.
pub proof fn law_select_gives_rows_in_order(
    env: Env,
    sel: Select,
    keyspace: Seq<char>,
    table: TableView,
    fetched: Seq<(Seq<u8>, Seq<u8>)>,
    ordered: Seq<(Seq<u8>, Seq<u8>)>,
)
    requires
        readable(table),
        unaliased(sel.columns@),
        select_plan(env, sel, table) is Ok,
        all_read(fetched, keyspace, table),
        sel.limit matches Some(l) ==> l >= 1,
        fetched.len() <= i32::MAX,
        if partition_restricted(select_plan(env, sel, table)->Ok_0.filters, table) {
            ordered == fetched
        } else {
            ordered.to_multiset() == fetched.to_multiset() && forall|i: int, j: int|
                0 <= i < j < ordered.len() ==> not_after(
                    #[trigger] ordered[i],
                    #[trigger] ordered[j],
                )
        },
    ensures
        ({
            let plan = select_plan(env, sel, table)->Ok_0;
            let step = rows_step(SelectingView { keyspace, table, plan }, Ok(fetched));
            let all = ordered.filter(wanted(env, sel, keyspace, table)).map_values(
                shown(sel, keyspace, table),
            );
            &&& step.next matches NextView::Done(Ok(ResponseView::Rows { rows, .. }))
            &&& rows == match sel.limit {
                None => all,
                Some(l) => if all.len() <= l {
                    all
                } else {
                    all.take(l as int)
                },
            }
        }),
{
    broadcast use group_to_multiset_ensures;

    let plan = select_plan(env, sel, table)->Ok_0;
    law_plan_selects_columns(env, sel, table);
    if !partition_restricted(plan.filters, table) {
        law_key_order_is_unique(fetched, ordered);
    }
    assert(in_result_order(plan.filters, table, fetched) == ordered);
    assert(all_read(ordered, keyspace, table)) by {
        assert forall|i: int| 0 <= i < ordered.len() implies row_values(
            (#[trigger] ordered[i]).0,
            ordered[i].1,
            keyspace,
            table,
        ) is Ok by {
            assert(ordered.contains(ordered[i]));
            assert(ordered.to_multiset().count(ordered[i]) > 0);
            assert(fetched.contains(ordered[i]));
            let k = fetched.index_of(ordered[i]);
            assert(fetched[k] == ordered[i]);
        }
    }
    lemma_result(plan, ordered, 0, 0, keyspace, table);
    assert(ordered.skip(0) =~= ordered);
    lemma_select_in_words(env, sel, keyspace, table);
}

} // verus!
